use lalrpop_lsp::diag::{DiagnosticError, ErrorLoc};
use lalrpop_lsp::hits::{closest, hits};
use lalrpop_lsp::index::{DefRecord, Document, ParsedGrammar, RefRecord};
use lalrpop_lsp::position::Position;
use lalrpop_lsp::query::{definition, hover, references, GotoDefinition};
use lalrpop_lsp::span::{Span, TypeDecl};
use lalrpop_lsp::store::{on_change, DocumentStore};

/// A grammar defining `Expr` on line 2 and using it on lines 5 and 9.
fn sample_text() -> Vec<u8> {
    b"grammar;\n\nExpr = A;\n\n\nB = Expr;\n\n\n\nC = Expr;\n".to_vec()
}

fn sample_grammar() -> ParsedGrammar {
    ParsedGrammar {
        regions: vec![Span { lo: 0, hi: 45 }],
        defs: vec![
            DefRecord {
                name: b"Expr".to_vec(),
                span: Span { lo: 10, hi: 14 },
                type_decl: Some(TypeDecl { args: vec![], ret: Some(b"u32".to_vec()) }),
            },
            DefRecord { name: b"B".to_vec(), span: Span { lo: 22, hi: 23 }, type_decl: None },
            DefRecord { name: b"C".to_vec(), span: Span { lo: 35, hi: 36 }, type_decl: None },
        ],
        refs: vec![
            RefRecord { name: b"Expr".to_vec(), span: Span { lo: 26, hi: 30 } },
            RefRecord { name: b"Expr".to_vec(), span: Span { lo: 39, hi: 43 } },
        ],
    }
}

fn sample_doc() -> Document {
    Document::new(sample_text(), &sample_grammar())
}

fn pos(line: usize, col: usize) -> Position {
    Position { line, col }
}

#[test]
fn definition_on_reference_returns_definition_site() {
    let doc = sample_doc();
    match definition(&doc, 5, 5) {
        Some(GotoDefinition::Site(r)) => {
            assert_eq!(r.start, pos(2, 0));
            assert_eq!(r.end, pos(2, 4));
        },
        other => panic!("expected the definition site, got {:?}", other),
    }
}

#[test]
fn definition_on_definition_returns_usages() {
    let doc = sample_doc();
    match definition(&doc, 2, 2) {
        Some(GotoDefinition::Usages(rs)) => {
            assert_eq!(rs.len(), 2);
            assert_eq!((rs[0].start, rs[0].end), (pos(5, 4), pos(5, 8)));
            assert_eq!((rs[1].start, rs[1].end), (pos(9, 4), pos(9, 8)));
        },
        other => panic!("expected the usage list, got {:?}", other),
    }
}

#[test]
fn references_on_definition_returns_source_ordered_list() {
    let doc = sample_doc();
    let rs = references(&doc, 2, 2).expect("a definition hit must list references");
    assert_eq!(rs.len(), 2);
    assert_eq!((rs[0].start, rs[0].end), (pos(5, 4), pos(5, 8)));
    assert_eq!((rs[1].start, rs[1].end), (pos(9, 4), pos(9, 8)));
}

#[test]
fn references_on_unreferenced_definition_is_empty() {
    let doc = sample_doc();
    let rs = references(&doc, 5, 0).expect("a defined symbol has a (possibly empty) list");
    assert!(rs.is_empty());
}

#[test]
fn references_on_reference_or_region_returns_nothing() {
    let doc = sample_doc();
    assert!(references(&doc, 5, 5).is_none());
    assert!(references(&doc, 0, 0).is_none());
}

#[test]
fn definition_on_region_or_stale_position_returns_nothing() {
    let doc = sample_doc();
    assert!(definition(&doc, 0, 0).is_none());
    assert!(definition(&doc, 40, 0).is_none());
    assert!(definition(&doc, 2, 7).is_none());
}

#[test]
fn hover_renders_declared_type_with_exact_occurrence_bounds() {
    let doc = sample_doc();
    let h = hover(&doc, 2, 2).expect("hover over a typed definition");
    assert_eq!(h.text, b"Expr: u32".to_vec());
    assert_eq!((h.range.start, h.range.end), (pos(2, 0), pos(2, 4)));
    let h = hover(&doc, 9, 5).expect("hover over a reference");
    assert_eq!(h.text, b"Expr: u32".to_vec());
    assert_eq!((h.range.start, h.range.end), (pos(9, 4), pos(9, 8)));
}

#[test]
fn hover_without_type_declaration_returns_nothing() {
    let doc = sample_doc();
    assert!(hover(&doc, 5, 0).is_none());
    assert!(hover(&doc, 0, 0).is_none());
}

#[test]
fn hover_renders_argument_list_and_return_type() {
    let text = b"Symbol = x;\n".to_vec();
    let grammar = ParsedGrammar {
        regions: vec![Span { lo: 0, hi: 12 }],
        defs: vec![DefRecord {
            name: b"Symbol".to_vec(),
            span: Span { lo: 0, hi: 6 },
            type_decl: Some(TypeDecl {
                args: vec![b"A".to_vec(), b"B".to_vec()],
                ret: Some(b"Expr".to_vec()),
            }),
        }],
        refs: vec![],
    };
    let doc = Document::new(text, &grammar);
    let h = hover(&doc, 0, 3).expect("hover over the definition");
    assert_eq!(h.text, b"Symbol<A, B>: Expr".to_vec());
}

#[test]
fn hover_renders_bare_name_without_arguments_or_return_type() {
    let text = b"Symbol = x;\n".to_vec();
    let grammar = ParsedGrammar {
        regions: vec![],
        defs: vec![DefRecord {
            name: b"Symbol".to_vec(),
            span: Span { lo: 0, hi: 6 },
            type_decl: Some(TypeDecl { args: vec![], ret: None }),
        }],
        refs: vec![],
    };
    let doc = Document::new(text, &grammar);
    let h = hover(&doc, 0, 0).expect("hover over the definition");
    assert_eq!(h.text, b"Symbol".to_vec());
}

#[test]
fn definition_on_reference_to_undefined_symbol_returns_nothing() {
    let text = b"A = Missing;\n".to_vec();
    let grammar = ParsedGrammar {
        regions: vec![Span { lo: 0, hi: 13 }],
        defs: vec![DefRecord { name: b"A".to_vec(), span: Span { lo: 0, hi: 1 }, type_decl: None }],
        refs: vec![RefRecord { name: b"Missing".to_vec(), span: Span { lo: 4, hi: 11 } }],
    };
    let doc = Document::new(text, &grammar);
    assert!(definition(&doc, 0, 6).is_none());
}

#[test]
fn closest_hit_prefers_the_narrowest_span() {
    let doc = sample_doc();
    let hs = hits(&doc, 27);
    assert_eq!(hs.len(), 2);
    let best = closest(&doc, &hs).expect("two spans contain the offset");
    let (s, _) = &doc.span_items[best];
    assert_eq!((s.lo, s.hi), (26, 30));
}

#[test]
fn closest_hit_breaks_width_ties_towards_the_latest_record() {
    let text = b"Name\n".to_vec();
    let grammar = ParsedGrammar {
        regions: vec![Span { lo: 0, hi: 4 }],
        defs: vec![
            DefRecord { name: b"Name".to_vec(), span: Span { lo: 0, hi: 4 }, type_decl: None },
        ],
        refs: vec![],
    };
    let doc = Document::new(text, &grammar);
    let hs = hits(&doc, 2);
    assert_eq!(hs, vec![0, 1]);
    assert_eq!(closest(&doc, &hs), Some(1));
}

#[test]
fn closest_hit_is_deterministic() {
    let doc = sample_doc();
    let hs = hits(&doc, 27);
    assert_eq!(closest(&doc, &hs), closest(&doc, &hs));
    assert_eq!(closest(&doc, &Vec::new()), None);
}

#[test]
fn reindexing_after_an_edit_drops_the_deleted_reference() {
    let mut store = DocumentStore::new();
    let uri = String::from("file:///sample.lalrpop");
    let diags = on_change(&mut store, uri.clone(), sample_text(), Ok(sample_grammar()));
    assert!(diags.is_empty());
    let doc = store.get(&uri).expect("the document was indexed");
    assert_eq!(references(&doc, 2, 2).unwrap().len(), 2);

    // The edit deletes the line-9 reference and everything after line 5.
    let text2 = b"grammar;\n\nExpr = A;\n\n\nB = Expr;\n".to_vec();
    let grammar2 = ParsedGrammar {
        regions: vec![Span { lo: 0, hi: 32 }],
        defs: vec![
            DefRecord {
                name: b"Expr".to_vec(),
                span: Span { lo: 10, hi: 14 },
                type_decl: Some(TypeDecl { args: vec![], ret: Some(b"u32".to_vec()) }),
            },
            DefRecord { name: b"B".to_vec(), span: Span { lo: 22, hi: 23 }, type_decl: None },
        ],
        refs: vec![RefRecord { name: b"Expr".to_vec(), span: Span { lo: 26, hi: 30 } }],
    };
    let diags = on_change(&mut store, uri.clone(), text2, Ok(grammar2));
    assert!(diags.is_empty());
    let doc = store.get(&uri).expect("the document was re-indexed");
    let rs = references(&doc, 2, 2).unwrap();
    assert_eq!(rs.len(), 1);
    assert_eq!((rs[0].start, rs[0].end), (pos(5, 4), pos(5, 8)));
}

#[test]
fn failed_parse_publishes_one_positioned_diagnostic_and_indexes_nothing() {
    let mut store = DocumentStore::new();
    let uri = String::from("file:///broken.lalrpop");
    let err = DiagnosticError {
        loc: ErrorLoc::Point(3, 10),
        message: String::from("unexpected token"),
    };
    let diags = on_change(&mut store, uri.clone(), b"broken".to_vec(), Err(err));
    assert_eq!(diags.len(), 1);
    assert_eq!(diags[0].range.start, pos(3, 10));
    assert_eq!(diags[0].range.end, pos(3, 11));
    assert_eq!(diags[0].message, "unexpected token");
    assert!(store.get(&uri).is_none());
}

#[test]
fn failed_parse_keeps_the_last_good_index_queryable() {
    let mut store = DocumentStore::new();
    let uri = String::from("file:///sample.lalrpop");
    on_change(&mut store, uri.clone(), sample_text(), Ok(sample_grammar()));
    let err = DiagnosticError {
        loc: ErrorLoc::Area(pos(1, 2), pos(1, 9)),
        message: String::from("expected `;`"),
    };
    let diags = on_change(&mut store, uri.clone(), b"grammar".to_vec(), Err(err));
    assert_eq!(diags.len(), 1);
    assert_eq!(diags[0].range.start, pos(1, 2));
    assert_eq!(diags[0].range.end, pos(1, 9));
    let doc = store.get(&uri).expect("the last good index is retained");
    assert_eq!(references(&doc, 2, 2).unwrap().len(), 2);
}
