use vstd::prelude::*;

use crate::position::{build_line_starts, line_starts_of};
use crate::span::{span_wf, Span, SpanItem, SpanItemView, TypeDecl, TypeDeclView};
use crate::table::{bytes_eq, clone_bytes, lemma_table_get_push, table_get, SymTable};

verus! {

/// The occurrence that introduces a symbol, with the type the parser
/// declared or inferred for it, if any.
pub struct DefRecord {
    pub name: Vec<u8>,
    pub span: Span,
    pub type_decl: Option<TypeDecl>,
}

/// Ghost image of a `DefRecord`.
pub struct DefRecordView {
    pub name: Seq<u8>,
    pub span: Span,
    pub type_decl: Option<TypeDeclView>,
}

impl View for DefRecord {
    type V = DefRecordView;

    open spec fn view(&self) -> DefRecordView {
        DefRecordView {
            name: self.name@,
            span: self.span,
            type_decl: match self.type_decl {
                Some(t) => Some(t@),
                None => None,
            },
        }
    }
}

/// A use of a symbol somewhere other than its defining occurrence.
pub struct RefRecord {
    pub name: Vec<u8>,
    pub span: Span,
}

/// Ghost image of a `RefRecord`.
pub struct RefRecordView {
    pub name: Seq<u8>,
    pub span: Span,
}

impl View for RefRecord {
    type V = RefRecordView;

    open spec fn view(&self) -> RefRecordView {
        RefRecordView { name: self.name@, span: self.span }
    }
}

/// What the external grammar parser hands over for a successfully parsed
/// document: the top-level structural regions, the defining occurrences in
/// source order, and the symbol uses in source order.
pub struct ParsedGrammar {
    pub regions: Vec<Span>,
    pub defs: Vec<DefRecord>,
    pub refs: Vec<RefRecord>,
}

/// Ghost image of a `ParsedGrammar`.
pub struct ParsedGrammarView {
    pub regions: Seq<Span>,
    pub defs: Seq<DefRecordView>,
    pub refs: Seq<RefRecordView>,
}

impl View for ParsedGrammar {
    type V = ParsedGrammarView;

    open spec fn view(&self) -> ParsedGrammarView {
        ParsedGrammarView {
            regions: self.regions@,
            defs: self.defs@.map_values(|d: DefRecord| d@),
            refs: self.refs@.map_values(|r: RefRecord| r@),
        }
    }
}

/// What the parser guarantees of its output: every span lies inside the
/// text, and no symbol is defined twice (a re-definition is a semantic
/// error the parser itself reports).
pub open spec fn grammar_wf(g: ParsedGrammarView, len: int) -> bool {
    &&& forall|i: int| 0 <= i < g.regions.len() ==> span_wf(#[trigger] g.regions[i], len)
    &&& forall|i: int| 0 <= i < g.defs.len() ==> span_wf((#[trigger] g.defs[i]).span, len)
    &&& forall|i: int| 0 <= i < g.refs.len() ==> span_wf((#[trigger] g.refs[i]).span, len)
    &&& forall|i: int, j: int|
        0 <= i < j < g.defs.len() ==> (#[trigger] g.defs[i]).name != (#[trigger] g.defs[j]).name
}

/// The defining record for symbol `k`, if any.
pub open spec fn def_of(defs: Seq<DefRecordView>, k: Seq<u8>) -> Option<DefRecordView>
    decreases defs.len(),
{
    if defs.len() == 0 {
        None
    } else if defs.last().name == k {
        Some(defs.last())
    } else {
        def_of(defs.drop_last(), k)
    }
}

/// The span of symbol `k`'s definition, if any.
pub open spec fn def_span_of(defs: Seq<DefRecordView>, k: Seq<u8>) -> Option<Span> {
    match def_of(defs, k) {
        Some(d) => Some(d.span),
        None => None,
    }
}

/// The declared type of symbol `k`, if its definition carries one.
pub open spec fn type_decl_of(defs: Seq<DefRecordView>, k: Seq<u8>) -> Option<TypeDeclView> {
    match def_of(defs, k) {
        Some(d) => d.type_decl,
        None => None,
    }
}

/// The spans of symbol `k`'s uses, in source order.
pub open spec fn refs_of(refs: Seq<RefRecordView>, k: Seq<u8>) -> Seq<Span>
    decreases refs.len(),
{
    if refs.len() == 0 {
        Seq::empty()
    } else {
        refs_of(refs.drop_last(), k) + if refs.last().name == k {
            seq![refs.last().span]
        } else {
            Seq::empty()
        }
    }
}

/// The flat span-record sequence the builder emits: one `Grammar` record
/// per structural region, then the definitions, then the references, each
/// in source order.
pub open spec fn items_of(g: ParsedGrammarView) -> Seq<(Span, SpanItemView)> {
    g.regions.map_values(|s: Span| (s, SpanItemView::Grammar)) + g.defs.map_values(
        |d: DefRecordView| (d.span, SpanItemView::Definition(d.name)),
    ) + g.refs.map_values(|r: RefRecordView| (r.span, SpanItemView::Reference(r.name)))
}

/// A found definition names an index among the records, and a missing one
/// rules every index out.
pub proof fn lemma_def_of_mem(defs: Seq<DefRecordView>, k: Seq<u8>)
    ensures
        def_of(defs, k) matches Some(d) ==> exists|j: int|
            0 <= j < defs.len() && defs[j] == d && defs[j].name == k,
        def_of(defs, k) is None ==> forall|j: int| 0 <= j < defs.len() ==> (#[trigger] defs[j]).name != k,
    decreases defs.len(),
{
    if defs.len() == 0 {
    } else if defs.last().name == k {
        assert(defs[defs.len() - 1] == defs.last());
    } else {
        lemma_def_of_mem(defs.drop_last(), k);
        if def_of(defs, k) is Some {
            let d = def_of(defs, k)->Some_0;
            let j = choose|j: int|
                0 <= j < defs.drop_last().len() && defs.drop_last()[j] == d && defs.drop_last()[j].name
                    == k;
            assert(defs[j] == defs.drop_last()[j]);
        } else {
            assert forall|j: int| 0 <= j < defs.len() implies (#[trigger] defs[j]).name != k by {
                if j < defs.len() - 1 {
                    assert(defs.drop_last()[j] == defs[j]);
                }
            }
        }
    }
}

/// A prefix of the use list never holds more uses of a symbol than the
/// whole list.
pub proof fn lemma_refs_of_take_le(refs: Seq<RefRecordView>, k: Seq<u8>, i: int)
    requires
        0 <= i <= refs.len(),
    ensures
        refs_of(refs.take(i), k).len() <= refs_of(refs, k).len(),
    decreases refs.len() - i,
{
    if i == refs.len() {
        assert(refs.take(i) =~= refs);
    } else {
        lemma_refs_of_take_le(refs, k, i + 1);
        assert(refs.take(i + 1).drop_last() =~= refs.take(i));
        assert(refs.take(i + 1).last() == refs[i]);
    }
}

/// Copies a type declaration.
fn clone_type_decl(td: &TypeDecl) -> (r: TypeDecl)
    ensures
        r@ == td@,
{
    let mut args: Vec<Vec<u8>> = Vec::new();
    let mut i: usize = 0;
    while i < td.args.len()
        invariant
            i <= td.args@.len(),
            args@.len() == i,
            forall|j: int| 0 <= j < i ==> (#[trigger] args@[j])@ == td.args@[j]@,
        decreases td.args@.len() - i,
    {
        args.push(clone_bytes(&td.args[i]));
        i = i + 1;
    }
    let ret = match &td.ret {
        Some(t) => Some(clone_bytes(t)),
        None => None,
    };
    let r = TypeDecl { args, ret };
    proof {
        assert(r@.args =~= td@.args);
    }
    r
}

/// Gathers the spans of every use of `name`, in source order.
fn collect_refs(refs: &Vec<RefRecord>, name: &Vec<u8>) -> (out: Vec<Span>)
    ensures
        out@ == refs_of(refs@.map_values(|r: RefRecord| r@), name@),
{
    let ghost rv = refs@.map_values(|r: RefRecord| r@);
    let mut out: Vec<Span> = Vec::new();
    let mut i: usize = 0;
    proof {
        assert(rv.take(0) =~= Seq::<RefRecordView>::empty());
    }
    while i < refs.len()
        invariant
            rv == refs@.map_values(|r: RefRecord| r@),
            i <= rv.len(),
            out@ == refs_of(rv.take(i as int), name@),
        decreases rv.len() - i,
    {
        proof {
            assert(rv.take(i + 1).drop_last() =~= rv.take(i as int));
            assert(rv.take(i + 1).last() == rv[i as int]);
        }
        let r = &refs[i];
        proof {
            assert(rv[i as int] == refs@[i as int]@);
        }
        if bytes_eq(&r.name, name) {
            let ghost prefix = refs_of(rv.take(i as int), name@);
            out.push(r.span);
            proof {
                assert(prefix + seq![rv[i as int].span] =~= prefix.push(rv[i as int].span));
            }
        } else {
            proof {
                let ghost prefix = refs_of(rv.take(i as int), name@);
                assert(prefix + Seq::<Span>::empty() =~= prefix);
            }
        }
        i = i + 1;
    }
    proof {
        assert(rv.take(rv.len() as int) =~= rv);
    }
    out
}

/// Every span among a symbol's recorded uses lies inside the text.
pub proof fn lemma_refs_of_wf(refs: Seq<RefRecordView>, k: Seq<u8>, len: int)
    requires
        forall|i: int| 0 <= i < refs.len() ==> span_wf((#[trigger] refs[i]).span, len),
    ensures
        forall|i: int| 0 <= i < refs_of(refs, k).len() ==> span_wf(#[trigger] refs_of(refs, k)[i], len),
    decreases refs.len(),
{
    if refs.len() == 0 {
    } else {
        assert forall|i: int| 0 <= i < refs.drop_last().len() implies span_wf(
            (#[trigger] refs.drop_last()[i]).span,
            len,
        ) by {
            assert(refs.drop_last()[i] == refs[i]);
        }
        lemma_refs_of_wf(refs.drop_last(), k, len);
        assert(refs[refs.len() - 1] == refs.last());
        let prefix = refs_of(refs.drop_last(), k);
        let whole = refs_of(refs, k);
        assert forall|i: int| 0 <= i < whole.len() implies span_wf(#[trigger] whole[i], len) by {
            if i < prefix.len() {
                assert(whole[i] == prefix[i]);
            } else {
                assert(whole[i] == refs.last().span);
            }
        }
    }
}

/// A fully built index for one document: its text, the line-start table,
/// the flat span-record sequence, and the three symbol tables.
#[derive(Clone, Debug)]
pub struct Document {
    pub text: Vec<u8>,
    pub line_starts: Vec<usize>,
    pub span_items: Vec<(Span, SpanItem)>,
    pub definitions: SymTable<Span>,
    pub references: SymTable<Vec<Span>>,
    pub type_decls: SymTable<TypeDecl>,
}

impl Document {
    /// The span records with their ghost classification.
    pub open spec fn items_view(self) -> Seq<(Span, SpanItemView)> {
        self.span_items@.map_values(|p: (Span, SpanItem)| (p.0, p.1@))
    }

    /// Length of the document's text.
    pub open spec fn text_len(self) -> int {
        self.text@.len() as int
    }

    /// Internal invariant: the line-start table is the canonical one for
    /// the text, and every recorded span lies inside the text.
    pub open spec fn wf(self) -> bool {
        &&& self.text@.len() <= usize::MAX / 2
        &&& self.line_starts@.len() <= usize::MAX
        &&& self.line_starts@ == line_starts_of(self.text@)
        &&& forall|i: int|
            0 <= i < self.span_items@.len() ==> span_wf(
                (#[trigger] self.span_items@[i]).0,
                self.text_len(),
            )
        &&& forall|k: Seq<u8>|
            (#[trigger] self.definitions.spec_get(k)) matches Some(s) ==> span_wf(
                s,
                self.text_len(),
            )
        &&& forall|k: Seq<u8>|
            (#[trigger] self.references.spec_get(k)) matches Some(v) ==> forall|i: int|
                0 <= i < v@.len() ==> span_wf(#[trigger] v@[i], self.text_len())
    }

    /// The built index records exactly what the parsed grammar exposed:
    /// the span records in traversal order, each symbol's single definition
    /// span, its reference spans in source order (an entry exists exactly
    /// for defined or referenced symbols), and its declared type.
    pub open spec fn indexes(self, text: Seq<u8>, g: ParsedGrammarView) -> bool {
        &&& self.text@ == text
        &&& self.items_view() == items_of(g)
        &&& forall|k: Seq<u8>| (#[trigger] self.definitions.spec_get(k)) == def_span_of(g.defs, k)
        &&& forall|k: Seq<u8>|
            match #[trigger] self.references.spec_get(k) {
                Some(v) => (def_of(g.defs, k) is Some || refs_of(g.refs, k).len() > 0) && v@
                    == refs_of(g.refs, k),
                None => def_of(g.defs, k) is None && refs_of(g.refs, k).len() == 0,
            }
        &&& forall|k: Seq<u8>|
            match #[trigger] self.type_decls.spec_get(k) {
                Some(td) => type_decl_of(g.defs, k) == Some(td@),
                None => type_decl_of(g.defs, k) is None,
            }
    }

    /// View-level agreement: the two documents record the same text, line
    /// table, span records, and symbol-table contents. Everything the
    /// queries and the invariant `wf` speak of is determined by these
    /// views.
    pub open spec fn same_index(self, other: Document) -> bool {
        &&& self.text@ == other.text@
        &&& self.line_starts@ == other.line_starts@
        &&& self.items_view() == other.items_view()
        &&& forall|k: Seq<u8>| #[trigger] self.definitions.spec_get(k)
            == other.definitions.spec_get(k)
        &&& forall|k: Seq<u8>|
            match (#[trigger] self.references.spec_get(k), other.references.spec_get(k)) {
                (Some(v), Some(w)) => v@ == w@,
                (None, None) => true,
                _ => false,
            }
        &&& forall|k: Seq<u8>|
            match (#[trigger] self.type_decls.spec_get(k), other.type_decls.spec_get(k)) {
                (Some(td), Some(other_td)) => td@ == other_td@,
                (None, None) => true,
                _ => false,
            }
    }

    /// A document that agrees on every view with a well-formed one is
    /// well formed itself: the invariant speaks of views alone.
    pub proof fn lemma_same_index_wf(self, other: Document)
        requires
            self.same_index(other),
            other.wf(),
        ensures
            self.wf(),
    {
        assert forall|i: int| 0 <= i < self.span_items@.len() implies span_wf(
            (#[trigger] self.span_items@[i]).0,
            self.text_len(),
        ) by {
            assert(self.items_view().len() == self.span_items@.len());
            assert(other.items_view().len() == other.span_items@.len());
            assert(self.items_view()[i] == other.items_view()[i]);
            assert(self.items_view()[i].0 == self.span_items@[i].0);
            assert(other.items_view()[i].0 == other.span_items@[i].0);
        }
        assert forall|k: Seq<u8>|
            (#[trigger] self.references.spec_get(k)) matches Some(v) ==> forall|i: int|
                0 <= i < v@.len() ==> span_wf(#[trigger] v@[i], self.text_len()) by {
            if self.references.spec_get(k) is Some {
                let v = self.references.spec_get(k)->Some_0;
                let w = other.references.spec_get(k)->Some_0;
                assert forall|i: int| 0 <= i < v@.len() implies span_wf(
                    #[trigger] v@[i],
                    self.text_len(),
                ) by {
                    assert(v@[i] == w@[i]);
                }
            }
        }
    }

    /// Walks the parsed representation once and builds the document index:
    /// the flat span-record sequence plus the three symbol tables.
    pub fn new(text: Vec<u8>, grammar: &ParsedGrammar) -> (doc: Document)
        requires
            grammar_wf(grammar@, text@.len() as int),
            text@.len() <= usize::MAX / 2,
        ensures
            doc.wf(),
            doc.indexes(text@, grammar@),
    {
        let ghost g = grammar@;
        let n = text.len();
        let line_starts = build_line_starts(&text);
        let n_lines = line_starts.len();

        // Span records: regions, then definitions, then references.
        let mut span_items: Vec<(Span, SpanItem)> = Vec::new();
        let mut i: usize = 0;
        while i < grammar.regions.len()
            invariant
                g == grammar@,
                i <= g.regions.len(),
                span_items@.len() == i,
                forall|j: int|
                    0 <= j < i ==> (#[trigger] span_items@[j]).0 == g.regions[j]
                        && span_items@[j].1@ == SpanItemView::Grammar,
            decreases g.regions.len() - i,
        {
            span_items.push((grammar.regions[i], SpanItem::Grammar));
            i = i + 1;
        }
        let mut i: usize = 0;
        while i < grammar.defs.len()
            invariant
                g == grammar@,
                i <= g.defs.len(),
                span_items@.len() == g.regions.len() + i,
                forall|j: int|
                    0 <= j < g.regions.len() ==> (#[trigger] span_items@[j]).0 == g.regions[j]
                        && span_items@[j].1@ == SpanItemView::Grammar,
                forall|j: int|
                    g.regions.len() <= j < g.regions.len() + i ==> (#[trigger] span_items@[j]).0
                        == g.defs[j - g.regions.len()].span && span_items@[j].1@
                        == SpanItemView::Definition(g.defs[j - g.regions.len()].name),
            decreases g.defs.len() - i,
        {
            let d = &grammar.defs[i];
            proof {
                assert(g.defs[i as int] == grammar.defs@[i as int]@);
            }
            span_items.push((d.span, SpanItem::Definition(clone_bytes(&d.name))));
            i = i + 1;
        }
        let mut i: usize = 0;
        while i < grammar.refs.len()
            invariant
                g == grammar@,
                i <= g.refs.len(),
                span_items@.len() == g.regions.len() + g.defs.len() + i,
                forall|j: int|
                    0 <= j < g.regions.len() ==> (#[trigger] span_items@[j]).0 == g.regions[j]
                        && span_items@[j].1@ == SpanItemView::Grammar,
                forall|j: int|
                    g.regions.len() <= j < g.regions.len() + g.defs.len() ==> (
                    #[trigger] span_items@[j]).0 == g.defs[j - g.regions.len()].span
                        && span_items@[j].1@ == SpanItemView::Definition(
                        g.defs[j - g.regions.len()].name,
                    ),
                forall|j: int|
                    g.regions.len() + g.defs.len() <= j < g.regions.len() + g.defs.len() + i
                        ==> (#[trigger] span_items@[j]).0 == g.refs[j - g.regions.len()
                        - g.defs.len()].span && span_items@[j].1@ == SpanItemView::Reference(
                        g.refs[j - g.regions.len() - g.defs.len()].name,
                    ),
            decreases g.refs.len() - i,
        {
            let r = &grammar.refs[i];
            proof {
                assert(g.refs[i as int] == grammar.refs@[i as int]@);
            }
            span_items.push((r.span, SpanItem::Reference(clone_bytes(&r.name))));
            i = i + 1;
        }
        proof {
            let iv = span_items@.map_values(|p: (Span, SpanItem)| (p.0, p.1@));
            let expect = items_of(g);
            assert forall|m: int| 0 <= m < iv.len() implies iv[m] == expect[m] by {
                let r = g.regions.len() as int;
                let d = g.defs.len() as int;
                if m < r {
                    assert(expect[m] == (g.regions[m], SpanItemView::Grammar));
                } else if m < r + d {
                    assert(expect[m] == (
                        g.defs[m - r].span,
                        SpanItemView::Definition(g.defs[m - r].name),
                    ));
                } else {
                    assert(expect[m] == (
                        g.refs[m - r - d].span,
                        SpanItemView::Reference(g.refs[m - r - d].name),
                    ));
                }
            }
            assert(span_items@.map_values(|p: (Span, SpanItem)| (p.0, p.1@)) =~= items_of(g));
        }

        // Definition-site map: symbol -> its single definition span.
        let mut definitions: SymTable<Span> = SymTable::new();
        let mut i: usize = 0;
        proof {
            assert(g.defs.take(0) =~= Seq::<DefRecordView>::empty());
        }
        while i < grammar.defs.len()
            invariant
                g == grammar@,
                i <= g.defs.len(),
                forall|k: Seq<u8>| #[trigger]
                    definitions.spec_get(k) == def_span_of(g.defs.take(i as int), k),
            decreases g.defs.len() - i,
        {
            let d = &grammar.defs[i];
            proof {
                assert(g.defs[i as int] == grammar.defs@[i as int]@);
            }
            let name = clone_bytes(&d.name);
            let ghost pre_tab = definitions;
            definitions.push(name, d.span);
            proof {
                let pre = pre_tab.entries@;
                let e = definitions.entries@.last();
                assert(definitions.entries@ == pre.push(e));
                assert(g.defs.take(i + 1).drop_last() =~= g.defs.take(i as int));
                assert(g.defs.take(i + 1).last() == g.defs[i as int]);
                assert forall|k: Seq<u8>| #[trigger] definitions.spec_get(k) == def_span_of(
                    g.defs.take(i + 1),
                    k,
                ) by {
                    assert(pre_tab.spec_get(k) == def_span_of(g.defs.take(i as int), k));
                    lemma_table_get_push(pre, e, k);
                }
            }
            i = i + 1;
        }
        proof {
            assert(g.defs.take(g.defs.len() as int) =~= g.defs);
        }

        // Declared-type map: symbol -> its type declaration, where one exists.
        let mut type_decls: SymTable<TypeDecl> = SymTable::new();
        let mut i: usize = 0;
        while i < grammar.defs.len()
            invariant
                g == grammar@,
                grammar_wf(g, n as int),
                i <= g.defs.len(),
                forall|k: Seq<u8>|
                    match #[trigger] type_decls.spec_get(k) {
                        Some(td) => type_decl_of(g.defs.take(i as int), k) == Some(td@),
                        None => type_decl_of(g.defs.take(i as int), k) is None,
                    },
            decreases g.defs.len() - i,
        {
            let d = &grammar.defs[i];
            proof {
                assert(g.defs[i as int] == grammar.defs@[i as int]@);
                assert(g.defs.take(i + 1).drop_last() =~= g.defs.take(i as int));
                assert(g.defs.take(i + 1).last() == g.defs[i as int]);
            }
            match &d.type_decl {
                Some(td) => {
                    let name = clone_bytes(&d.name);
                    let ghost pre_tab = type_decls;
                    type_decls.push(name, clone_type_decl(td));
                    proof {
                        let pre = pre_tab.entries@;
                        let e = type_decls.entries@.last();
                        assert(type_decls.entries@ == pre.push(e));
                        assert forall|k: Seq<u8>|
                            match #[trigger] type_decls.spec_get(k) {
                                Some(tdv) => type_decl_of(g.defs.take(i + 1), k) == Some(tdv@),
                                None => type_decl_of(g.defs.take(i + 1), k) is None,
                            } by {
                            let prev = pre_tab.spec_get(k);
                            lemma_table_get_push(pre, e, k);
                        }
                    }
                },
                None => {
                    proof {
                        assert forall|k: Seq<u8>|
                            match #[trigger] type_decls.spec_get(k) {
                                Some(tdv) => type_decl_of(g.defs.take(i + 1), k) == Some(tdv@),
                                None => type_decl_of(g.defs.take(i + 1), k) is None,
                            } by {
                            if k == g.defs[i as int].name {
                                lemma_def_of_mem(g.defs.take(i as int), k);
                                if def_of(g.defs.take(i as int), k) is Some {
                                    let dd = def_of(g.defs.take(i as int), k)->Some_0;
                                    let j = choose|j: int|
                                        0 <= j < g.defs.take(i as int).len() && g.defs.take(
                                            i as int,
                                        )[j] == dd && g.defs.take(i as int)[j].name == k;
                                    assert(g.defs.take(i as int)[j] == g.defs[j]);
                                    assert(g.defs[j].name == g.defs[i as int].name);
                                    assert(false);
                                }
                            }
                        }
                    }
                },
            }
            i = i + 1;
        }

        // Reference-sites map: an entry for every defined symbol, then for
        // every referenced symbol not yet present.
        let mut references: SymTable<Vec<Span>> = SymTable::new();
        let mut i: usize = 0;
        while i < grammar.defs.len()
            invariant
                g == grammar@,
                i <= g.defs.len(),
                forall|k: Seq<u8>|
                    match #[trigger] references.spec_get(k) {
                        Some(v) => def_of(g.defs.take(i as int), k) is Some && v@ == refs_of(
                            g.refs,
                            k,
                        ),
                        None => def_of(g.defs.take(i as int), k) is None,
                    },
            decreases g.defs.len() - i,
        {
            let d = &grammar.defs[i];
            proof {
                assert(g.defs[i as int] == grammar.defs@[i as int]@);
                assert(g.defs.take(i + 1).drop_last() =~= g.defs.take(i as int));
                assert(g.defs.take(i + 1).last() == g.defs[i as int]);
            }
            let name = clone_bytes(&d.name);
            let spans = collect_refs(&grammar.refs, &name);
            let ghost pre_tab = references;
            references.push(name, spans);
            proof {
                let pre = pre_tab.entries@;
                let e = references.entries@.last();
                assert(references.entries@ == pre.push(e));
                assert forall|k: Seq<u8>|
                    match #[trigger] references.spec_get(k) {
                        Some(v) => def_of(g.defs.take(i + 1), k) is Some && v@ == refs_of(
                            g.refs,
                            k,
                        ),
                        None => def_of(g.defs.take(i + 1), k) is None,
                    } by {
                    let prev = pre_tab.spec_get(k);
                    lemma_table_get_push(pre, e, k);
                }
            }
            i = i + 1;
        }
        let mut i: usize = 0;
        proof {
            assert(g.defs.take(g.defs.len() as int) =~= g.defs);
            assert(g.refs.take(0) =~= Seq::<RefRecordView>::empty());
        }
        while i < grammar.refs.len()
            invariant
                g == grammar@,
                i <= g.refs.len(),
                forall|k: Seq<u8>|
                    match #[trigger] references.spec_get(k) {
                        Some(v) => (def_of(g.defs, k) is Some || refs_of(g.refs, k).len() > 0)
                            && v@ == refs_of(g.refs, k),
                        None => def_of(g.defs, k) is None && refs_of(
                            g.refs.take(i as int),
                            k,
                        ).len() == 0,
                    },
            decreases g.refs.len() - i,
        {
            let r = &grammar.refs[i];
            proof {
                assert(g.refs[i as int] == grammar.refs@[i as int]@);
                assert(g.refs.take(i + 1).drop_last() =~= g.refs.take(i as int));
                assert(g.refs.take(i + 1).last() == g.refs[i as int]);
            }
            if !references.contains(&r.name) {
                let name = clone_bytes(&r.name);
                let spans = collect_refs(&grammar.refs, &name);
                let ghost pre_tab = references;
                references.push(name, spans);
                proof {
                    let pre = pre_tab.entries@;
                    let e = references.entries@.last();
                    assert(references.entries@ == pre.push(e));
                    assert forall|k: Seq<u8>|
                        match #[trigger] references.spec_get(k) {
                            Some(v) => (def_of(g.defs, k) is Some || refs_of(g.refs, k).len()
                                > 0) && v@ == refs_of(g.refs, k),
                            None => def_of(g.defs, k) is None && refs_of(
                                g.refs.take(i + 1),
                                k,
                            ).len() == 0,
                        } by {
                        let prev = pre_tab.spec_get(k);
                        lemma_table_get_push(pre, e, k);
                        if k == g.refs[i as int].name {
                            lemma_refs_of_take_le(g.refs, k, i + 1);
                        }
                    }
                }
            } else {
                proof {
                    assert forall|k: Seq<u8>|
                        match #[trigger] references.spec_get(k) {
                            Some(v) => (def_of(g.defs, k) is Some || refs_of(g.refs, k).len()
                                > 0) && v@ == refs_of(g.refs, k),
                            None => def_of(g.defs, k) is None && refs_of(
                                g.refs.take(i + 1),
                                k,
                            ).len() == 0,
                        } by {
                        if references.spec_get(k) is None {
                            assert(k != g.refs[i as int].name);
                        }
                    }
                }
            }
            i = i + 1;
        }
        proof {
            assert(g.refs.take(g.refs.len() as int) =~= g.refs);
        }

        let doc = Document { text, line_starts, span_items, definitions, references, type_decls };
        proof {
            assert forall|idx: int| 0 <= idx < doc.span_items@.len() implies span_wf(
                (#[trigger] doc.span_items@[idx]).0,
                doc.text_len(),
            ) by {
                let r = g.regions.len() as int;
                let d = g.defs.len() as int;
                if idx < r {
                    assert(doc.span_items@[idx].0 == g.regions[idx]);
                    assert(span_wf(g.regions[idx], doc.text_len()));
                } else if idx < r + d {
                    assert(doc.span_items@[idx].0 == g.defs[idx - r].span);
                    assert(span_wf(g.defs[idx - r].span, doc.text_len()));
                } else {
                    assert(doc.span_items@[idx].0 == g.refs[idx - r - d].span);
                    assert(span_wf(g.refs[idx - r - d].span, doc.text_len()));
                }
            }
            assert forall|k: Seq<u8>|
                (#[trigger] doc.definitions.spec_get(k)) matches Some(s) ==> span_wf(
                    s,
                    doc.text_len(),
                ) by {
                lemma_def_of_mem(g.defs, k);
                if def_of(g.defs, k) is Some {
                    let dd = def_of(g.defs, k)->Some_0;
                    let j = choose|j: int|
                        0 <= j < g.defs.len() && g.defs[j] == dd && g.defs[j].name == k;
                    assert(span_wf(g.defs[j].span, doc.text_len()));
                }
            }
            assert forall|k: Seq<u8>|
                (#[trigger] doc.references.spec_get(k)) matches Some(v) ==> forall|idx: int|
                    0 <= idx < v@.len() ==> span_wf(#[trigger] v@[idx], doc.text_len()) by {
                lemma_refs_of_wf(g.refs, k, doc.text_len());
            }
        }
        doc
    }
}

} // verus!
