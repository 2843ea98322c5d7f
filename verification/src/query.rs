use vstd::prelude::*;

use crate::hits::{closest, closest_of, hits, hits_of, lemma_closest_of, lemma_hits_of};
use crate::index::{def_of, refs_of, Document, ParsedGrammarView};
use crate::position::{
    lemma_line_starts_of_wf, lemma_position_offset_round_trip, offset_of, position_of,
    to_offset, to_position, utf16_units, Position, Range,
};
use crate::span::{
    span_contains, span_wf, span_width, Span, SpanItem, SpanItemView, TypeDecl, TypeDeclView,
};
use crate::table::clone_bytes;

verus! {

/// The range a span maps to under the document's line-start table.
pub open spec fn range_of(doc: Document, s: Span) -> Range {
    Range {
        start: position_of(doc.text@, doc.line_starts@, s.lo as int),
        end: position_of(doc.text@, doc.line_starts@, s.hi as int),
    }
}

/// Converts a span of the document into a (line, column) range.
fn span_range(doc: &Document, s: Span) -> (r: Range)
    requires
        doc.wf(),
        span_wf(s, doc.text_len()),
    ensures
        r == range_of(*doc, s),
{
    proof {
        lemma_line_starts_of_wf(doc.text@);
    }
    let start = to_position(&doc.text, &doc.line_starts, s.lo);
    let end = to_position(&doc.text, &doc.line_starts, s.hi);
    Range { start, end }
}

/// Converts each span of a list, keeping the order.
fn span_ranges(doc: &Document, spans: &Vec<Span>) -> (r: Vec<Range>)
    requires
        doc.wf(),
        forall|i: int| 0 <= i < spans@.len() ==> span_wf(#[trigger] spans@[i], doc.text_len()),
    ensures
        r@ == spans@.map_values(|s: Span| range_of(*doc, s)),
{
    let mut r: Vec<Range> = Vec::new();
    let mut i: usize = 0;
    while i < spans.len()
        invariant
            doc.wf(),
            forall|j: int| 0 <= j < spans@.len() ==> span_wf(#[trigger] spans@[j], doc.text_len()),
            i <= spans@.len(),
            r@ == spans@.take(i as int).map_values(|s: Span| range_of(*doc, s)),
        decreases spans@.len() - i,
    {
        let ghost prefix = spans@.take(i as int).map_values(|s: Span| range_of(*doc, s));
        let rg = span_range(doc, spans[i]);
        r.push(rg);
        proof {
            assert(spans@.take(i + 1).map_values(|s: Span| range_of(*doc, s)) =~= prefix.push(
                range_of(*doc, spans@[i as int]),
            ));
        }
        i = i + 1;
    }
    proof {
        assert(spans@.take(spans@.len() as int) =~= spans@);
    }
    r
}

/// The record index a (line, column) query resolves to, if any: translate
/// the position to an offset, gather the containing records, pick the most
/// specific one.
pub open spec fn resolve_spec(doc: Document, line: int, col: int) -> Option<usize> {
    match offset_of(doc.text@, doc.line_starts@, line, col) {
        None => None,
        Some(o) => closest_of(doc.span_items@, hits_of(doc.span_items@, o as int)),
    }
}

/// Shared pipeline of the three queries. A stale position or an offset no
/// span contains resolves to nothing, never to an error.
pub fn resolve(doc: &Document, line: usize, col: usize) -> (r: Option<usize>)
    requires
        doc.wf(),
    ensures
        r == resolve_spec(*doc, line as int, col as int),
        r matches Some(i) ==> i < doc.span_items@.len(),
{
    proof {
        lemma_line_starts_of_wf(doc.text@);
    }
    let n_items = doc.span_items.len();
    let offset = match to_offset(&doc.text, &doc.line_starts, line, col) {
        Some(o) => o,
        None => {
            return None;
        },
    };
    let hs = hits(doc, offset);
    proof {
        lemma_hits_of(doc.span_items@, offset as int);
        lemma_closest_of(doc.span_items@, hs@);
    }
    closest(doc, &hs)
}

/// Answer to a go-to-definition query: the definition site of the symbol
/// under a reference occurrence, or, when the cursor is on the defining
/// occurrence itself, the sites where the symbol is used.
#[derive(Clone, Debug)]
pub enum GotoDefinition {
    Site(Range),
    Usages(Vec<Range>),
}

/// Ghost image of a `GotoDefinition`.
pub enum GotoDefinitionView {
    Site(Range),
    Usages(Seq<Range>),
}

impl View for GotoDefinition {
    type V = GotoDefinitionView;

    open spec fn view(&self) -> GotoDefinitionView {
        match self {
            GotoDefinition::Site(r) => GotoDefinitionView::Site(*r),
            GotoDefinition::Usages(rs) => GotoDefinitionView::Usages(rs@),
        }
    }
}

/// What a go-to-definition query returns, over the document's own tables.
pub open spec fn definition_spec(doc: Document, line: int, col: int) -> Option<
    GotoDefinitionView,
> {
    match resolve_spec(doc, line, col) {
        None => None,
        Some(i) => match doc.items_view()[i as int].1 {
            SpanItemView::Grammar => None,
            SpanItemView::Reference(sym) => match doc.definitions.spec_get(sym) {
                Some(s) => Some(GotoDefinitionView::Site(range_of(doc, s))),
                None => None,
            },
            SpanItemView::Definition(sym) => match doc.references.spec_get(sym) {
                Some(v) => Some(
                    GotoDefinitionView::Usages(v@.map_values(|s: Span| range_of(doc, s))),
                ),
                None => None,
            },
        },
    }
}

/// Go to definition. On a reference the single definition site; on a
/// definition the list of its usages; on a grammar region or an unresolved
/// position, no result.
pub fn definition(doc: &Document, line: usize, col: usize) -> (r: Option<GotoDefinition>)
    requires
        doc.wf(),
    ensures
        match definition_spec(*doc, line as int, col as int) {
            None => r is None,
            Some(v) => r matches Some(rv) && rv@ == v,
        },
{
    let idx = match resolve(doc, line, col) {
        Some(i) => i,
        None => {
            return None;
        },
    };
    let item = &doc.span_items[idx];
    proof {
        assert(doc.items_view()[idx as int] == (item.0, item.1@));
    }
    match &item.1 {
        SpanItem::Grammar => None,
        SpanItem::Reference(sym) => match doc.definitions.get(sym) {
            Some(s) => Some(GotoDefinition::Site(span_range(doc, *s))),
            None => None,
        },
        SpanItem::Definition(sym) => match doc.references.get(sym) {
            Some(spans) => Some(GotoDefinition::Usages(span_ranges(doc, spans))),
            None => None,
        },
    }
}

/// What a find-references query returns, over the document's own tables:
/// meaningful only on a definition occurrence.
pub open spec fn references_spec(doc: Document, line: int, col: int) -> Option<Seq<Range>> {
    match resolve_spec(doc, line, col) {
        None => None,
        Some(i) => match doc.items_view()[i as int].1 {
            SpanItemView::Definition(sym) => match doc.references.spec_get(sym) {
                Some(v) => Some(v@.map_values(|s: Span| range_of(doc, s))),
                None => None,
            },
            SpanItemView::Reference(sym) => None,
            SpanItemView::Grammar => None,
        },
    }
}

/// Find references. On a definition occurrence, the symbol's full
/// reference list, possibly empty, in source order; anywhere else, no
/// result.
pub fn references(doc: &Document, line: usize, col: usize) -> (r: Option<Vec<Range>>)
    requires
        doc.wf(),
    ensures
        match references_spec(*doc, line as int, col as int) {
            None => r is None,
            Some(v) => r matches Some(rv) && rv@ == v,
        },
{
    let idx = match resolve(doc, line, col) {
        Some(i) => i,
        None => {
            return None;
        },
    };
    let item = &doc.span_items[idx];
    proof {
        assert(doc.items_view()[idx as int] == (item.0, item.1@));
    }
    match &item.1 {
        SpanItem::Definition(sym) => match doc.references.get(sym) {
            Some(spans) => Some(span_ranges(doc, spans)),
            None => None,
        },
        SpanItem::Reference(_) => None,
        SpanItem::Grammar => None,
    }
}

/// The `, `-separated joining of an argument list.
pub open spec fn join_args(args: Seq<Seq<u8>>) -> Seq<u8>
    decreases args.len(),
{
    if args.len() == 0 {
        Seq::empty()
    } else if args.len() == 1 {
        args[0]
    } else {
        join_args(args.drop_last()) + seq![44u8, 32u8] + args.last()
    }
}

/// Rendered hover text: the symbol name, `<arg1, arg2>` when the argument
/// list is non-empty, and `: returnType` when a return type is declared.
pub open spec fn render_spec(name: Seq<u8>, td: TypeDeclView) -> Seq<u8> {
    name + (if td.args.len() > 0 {
        seq![60u8] + join_args(td.args) + seq![62u8]
    } else {
        Seq::empty()
    }) + (match td.ret {
        Some(t) => seq![58u8, 32u8] + t,
        None => Seq::empty(),
    })
}

/// Appends a byte string to another.
fn append_bytes(out: &mut Vec<u8>, v: &Vec<u8>)
    ensures
        final(out)@ == old(out)@ + v@,
{
    let mut i: usize = 0;
    while i < v.len()
        invariant
            i <= v@.len(),
            out@ == old(out)@ + v@.take(i as int),
        decreases v@.len() - i,
    {
        out.push(v[i]);
        proof {
            assert(old(out)@ + v@.take(i + 1) =~= (old(out)@ + v@.take(i as int)).push(
                v@[i as int],
            ));
        }
        i = i + 1;
    }
    proof {
        assert(old(out)@ + v@.take(v@.len() as int) =~= old(out)@ + v@);
    }
}

/// Renders a symbol's hover text from its name and type declaration.
fn render(name: &Vec<u8>, td: &TypeDecl) -> (r: Vec<u8>)
    ensures
        r@ == render_spec(name@, td@),
{
    let ghost head = name@ + if td@.args.len() > 0 {
        seq![60u8] + join_args(td@.args) + seq![62u8]
    } else {
        Seq::<u8>::empty()
    };
    let mut out = clone_bytes(name);
    if td.args.len() > 0 {
        out.push(60);
        proof {
            assert(out@ =~= name@ + seq![60u8]);
        }
        append_bytes(&mut out, &td.args[0]);
        proof {
            assert(td@.args[0] == td.args@[0]@);
            assert(join_args(td@.args.take(1)) == td@.args.take(1)[0]);
            assert(out@ =~= name@ + seq![60u8] + join_args(td@.args.take(1)));
        }
        let mut i: usize = 1;
        while i < td.args.len()
            invariant
                1 <= i <= td.args@.len(),
                td@.args.len() == td.args@.len(),
                out@ == name@ + seq![60u8] + join_args(td@.args.take(i as int)),
                td@.args == td.args@.map_values(|a: Vec<u8>| a@),
            decreases td.args@.len() - i,
        {
            let ghost sofar = out@;
            out.push(44);
            out.push(32);
            append_bytes(&mut out, &td.args[i]);
            proof {
                assert(td@.args.take(i + 1).drop_last() =~= td@.args.take(i as int));
                assert(td@.args.take(i + 1).last() == td@.args[i as int]);
                assert(td@.args[i as int] == td.args@[i as int]@);
                assert(out@ =~= sofar + seq![44u8, 32u8] + td@.args[i as int]);
                assert(out@ =~= name@ + seq![60u8] + join_args(td@.args.take(i + 1)));
            }
            i = i + 1;
        }
        proof {
            assert(td@.args.take(td@.args.len() as int) =~= td@.args);
        }
        out.push(62);
        proof {
            assert(out@ =~= head);
        }
    } else {
        proof {
            assert(out@ =~= head);
        }
    }
    match &td.ret {
        Some(t) => {
            out.push(58);
            out.push(32);
            append_bytes(&mut out, t);
            proof {
                assert(out@ =~= head + (seq![58u8, 32u8] + t@));
                assert(render_spec(name@, td@) =~= head + (seq![58u8, 32u8] + t@));
            }
        },
        None => {
            proof {
                assert(render_spec(name@, td@) =~= head);
            }
        },
    }
    out
}

/// Answer to a hover query: the rendered declaration and the exact bounds
/// of the occurrence under the cursor.
#[derive(Clone, Debug)]
pub struct Hover {
    pub text: Vec<u8>,
    pub range: Range,
}

/// Ghost image of a `Hover`.
pub struct HoverView {
    pub text: Seq<u8>,
    pub range: Range,
}

impl View for Hover {
    type V = HoverView;

    open spec fn view(&self) -> HoverView {
        HoverView { text: self.text@, range: self.range }
    }
}

/// What a hover query returns, over the document's own tables: the
/// declared type of the symbol under a definition or reference occurrence.
pub open spec fn hover_spec(doc: Document, line: int, col: int) -> Option<HoverView> {
    match resolve_spec(doc, line, col) {
        None => None,
        Some(i) => match doc.items_view()[i as int].1 {
            SpanItemView::Grammar => None,
            SpanItemView::Definition(sym) => hover_for(doc, sym, doc.items_view()[i as int].0),
            SpanItemView::Reference(sym) => hover_for(doc, sym, doc.items_view()[i as int].0),
        },
    }
}

/// The hover answer for symbol `sym` at occurrence `s`, if a type is
/// declared for it.
pub open spec fn hover_for(doc: Document, sym: Seq<u8>, s: Span) -> Option<HoverView> {
    match doc.type_decls.spec_get(sym) {
        Some(td) => Some(HoverView { text: render_spec(sym, td@), range: range_of(doc, s) }),
        None => None,
    }
}

/// Hover. For a definition or reference occurrence of a symbol with a
/// declared type, the rendered declaration and the occurrence's exact
/// bounds; otherwise no result.
pub fn hover(doc: &Document, line: usize, col: usize) -> (r: Option<Hover>)
    requires
        doc.wf(),
    ensures
        match hover_spec(*doc, line as int, col as int) {
            None => r is None,
            Some(v) => r matches Some(rv) && rv@ == v,
        },
{
    let idx = match resolve(doc, line, col) {
        Some(i) => i,
        None => {
            return None;
        },
    };
    let item = &doc.span_items[idx];
    proof {
        assert(doc.items_view()[idx as int] == (item.0, item.1@));
    }
    let sym = match &item.1 {
        SpanItem::Grammar => {
            return None;
        },
        SpanItem::Definition(sym) => sym,
        SpanItem::Reference(sym) => sym,
    };
    match doc.type_decls.get(sym) {
        Some(td) => {
            let text = render(sym, td);
            let range = span_range(doc, item.0);
            Some(Hover { text, range })
        },
        None => None,
    }
}

/// Translating any valid offset of a document — one on a character
/// boundary — to its position and back recovers the offset exactly.
pub proof fn lemma_document_round_trip(doc: Document, o: int)
    requires
        doc.wf(),
        0 <= o <= doc.text_len(),
        o == doc.text_len() || utf16_units(doc.text@[o]) != 0,
    ensures
        offset_of(
            doc.text@,
            doc.line_starts@,
            position_of(doc.text@, doc.line_starts@, o).line as int,
            position_of(doc.text@, doc.line_starts@, o).col as int,
        ) == Some(o as usize),
{
    lemma_line_starts_of_wf(doc.text@);
    lemma_position_offset_round_trip(doc.text@, doc.line_starts@, o);
}

/// Go to definition on a reference occurrence of a defined symbol yields
/// exactly the symbol's single recorded definition span.
pub proof fn lemma_definition_on_reference(
    doc: Document,
    g: ParsedGrammarView,
    text: Seq<u8>,
    line: int,
    col: int,
    sym: Seq<u8>,
)
    requires
        doc.wf(),
        doc.indexes(text, g),
        resolve_spec(doc, line, col) matches Some(i) && doc.items_view()[i as int].1
            == SpanItemView::Reference(sym),
        def_of(g.defs, sym) is Some,
    ensures
        definition_spec(doc, line, col) == Some(
            GotoDefinitionView::Site(range_of(doc, def_of(g.defs, sym)->Some_0.span)),
        ),
{
}

/// Go to definition on the defining occurrence of a symbol yields exactly
/// the symbol's recorded reference list, possibly empty, in source order.
pub proof fn lemma_definition_on_definition(
    doc: Document,
    g: ParsedGrammarView,
    text: Seq<u8>,
    line: int,
    col: int,
    sym: Seq<u8>,
)
    requires
        doc.wf(),
        doc.indexes(text, g),
        resolve_spec(doc, line, col) matches Some(i) && doc.items_view()[i as int].1
            == SpanItemView::Definition(sym),
        def_of(g.defs, sym) is Some,
    ensures
        definition_spec(doc, line, col) matches Some(v) && v == GotoDefinitionView::Usages(
            refs_of(g.refs, sym).map_values(|s: Span| range_of(doc, s)),
        ),
{
}

/// Find references on the defining occurrence of a symbol yields exactly
/// the reference list recorded at index time, in source order, and an
/// empty list for an unreferenced symbol.
pub proof fn lemma_references_on_definition(
    doc: Document,
    g: ParsedGrammarView,
    text: Seq<u8>,
    line: int,
    col: int,
    sym: Seq<u8>,
)
    requires
        doc.wf(),
        doc.indexes(text, g),
        resolve_spec(doc, line, col) matches Some(i) && doc.items_view()[i as int].1
            == SpanItemView::Definition(sym),
        def_of(g.defs, sym) is Some,
    ensures
        references_spec(doc, line, col) matches Some(v) && v == refs_of(g.refs, sym).map_values(
            |s: Span| range_of(doc, s),
        ),
        refs_of(g.refs, sym).len() == 0 ==> (references_spec(doc, line, col)->Some_0).len() == 0,
{
}

/// Hit resolution is deterministic and most specific: a query resolves to
/// a record exactly when some record contains the offset, the resolved
/// record contains it, and no containing record is narrower.
pub proof fn lemma_resolution_most_specific(doc: Document, offset: int)
    requires
        doc.wf(),
        doc.span_items@.len() <= usize::MAX,
    ensures
        (closest_of(doc.span_items@, hits_of(doc.span_items@, offset)) is None) <==> forall|
            j: int,
        |
            0 <= j < doc.span_items@.len() ==> !span_contains(
                (#[trigger] doc.span_items@[j]).0,
                offset,
            ),
        closest_of(doc.span_items@, hits_of(doc.span_items@, offset)) matches Some(b) ==> b
            < doc.span_items@.len() && span_contains(doc.span_items@[b as int].0, offset)
            && forall|j: int|
            0 <= j < doc.span_items@.len() && span_contains(
                (#[trigger] doc.span_items@[j]).0,
                offset,
            ) ==> span_width(doc.span_items@[b as int].0) <= span_width(doc.span_items@[j].0),
{
    let items = doc.span_items@;
    let hs = hits_of(items, offset);
    lemma_hits_of(items, offset);
    lemma_closest_of(items, hs);
    if closest_of(items, hs) is Some {
        let b = closest_of(items, hs)->Some_0;
        let ib = choose|i: int| 0 <= i < hs.len() && hs[i] == b;
        assert forall|j: int|
            0 <= j < items.len() && span_contains((#[trigger] items[j]).0, offset) implies
            span_width(items[b as int].0) <= span_width(items[j].0) by {
            assert(hs.contains(j as usize));
            let ij = choose|i: int| 0 <= i < hs.len() && hs[i] == j as usize;
            assert(span_width(items[b as int].0) <= span_width(items[hs[ij] as int].0));
        }
    } else {
        assert forall|j: int|
            0 <= j < items.len() implies !span_contains((#[trigger] items[j]).0, offset) by {
            if span_contains(items[j].0, offset) {
                assert(hs.contains(j as usize));
                assert(hs.len() > 0);
            }
        }
    }
}

} // verus!
