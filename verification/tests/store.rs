use lalrpop_lsp::index::{DefRecord, Document, ParsedGrammar};
use lalrpop_lsp::span::Span;
use lalrpop_lsp::store::DocumentStore;

fn doc_with(name: &[u8], text: &[u8]) -> Document {
    let grammar = ParsedGrammar {
        regions: vec![Span { lo: 0, hi: text.len() }],
        defs: vec![DefRecord {
            name: name.to_vec(),
            span: Span { lo: 0, hi: name.len() },
            type_decl: None,
        }],
        refs: vec![],
    };
    Document::new(text.to_vec(), &grammar)
}

#[test]
fn fresh_store_holds_nothing() {
    let store = DocumentStore::new();
    assert!(store.get(&String::from("file:///a")).is_none());
}

#[test]
fn put_then_get_returns_the_stored_document() {
    let mut store = DocumentStore::new();
    let uri = String::from("file:///a");
    store.put(uri.clone(), doc_with(b"Alpha", b"Alpha = x;\n"));
    let doc = store.get(&uri).expect("the entry was stored");
    assert_eq!(doc.text, b"Alpha = x;\n".to_vec());
    assert_eq!(doc.span_items.len(), 2);
}

#[test]
fn put_replaces_the_previous_entry_in_full() {
    let mut store = DocumentStore::new();
    let uri = String::from("file:///a");
    store.put(uri.clone(), doc_with(b"Alpha", b"Alpha = x;\n"));
    store.put(uri.clone(), doc_with(b"Beta", b"Beta = y;\n"));
    let doc = store.get(&uri).expect("the entry was replaced");
    assert_eq!(doc.text, b"Beta = y;\n".to_vec());
}

#[test]
fn entries_are_independent_per_uri() {
    let mut store = DocumentStore::new();
    let a = String::from("file:///a");
    let b = String::from("file:///b");
    store.put(a.clone(), doc_with(b"Alpha", b"Alpha = x;\n"));
    store.put(b.clone(), doc_with(b"Beta", b"Beta = y;\n"));
    assert_eq!(store.get(&a).unwrap().text, b"Alpha = x;\n".to_vec());
    assert_eq!(store.get(&b).unwrap().text, b"Beta = y;\n".to_vec());
}

#[test]
fn remove_takes_the_entry_out() {
    let mut store = DocumentStore::new();
    let a = String::from("file:///a");
    let b = String::from("file:///b");
    store.put(a.clone(), doc_with(b"Alpha", b"Alpha = x;\n"));
    store.put(b.clone(), doc_with(b"Beta", b"Beta = y;\n"));
    store.remove(&a);
    assert!(store.get(&a).is_none());
    assert!(store.get(&b).is_some());
}
