use vstd::prelude::*;

verus! {

/// Half-open byte-offset range `[lo, hi)` into a document's text.
#[derive(Clone, Copy, PartialEq, Eq, Structural, Debug)]
pub struct Span {
    pub lo: usize,
    pub hi: usize,
}

/// A span is well formed for a text of length `len` when it lies inside it.
pub open spec fn span_wf(s: Span, len: int) -> bool {
    s.lo <= s.hi <= len
}

/// Whether `offset` falls inside the half-open range of `s`.
pub open spec fn span_contains(s: Span, offset: int) -> bool {
    s.lo <= offset < s.hi
}

/// Length of the range of `s`; the hit resolver prefers narrower spans.
pub open spec fn span_width(s: Span) -> int {
    s.hi - s.lo
}

/// Classification of a lexical occurrence: a coarse structural grammar
/// region, the occurrence that defines a symbol, or a use of a symbol.
#[derive(Clone, Debug)]
pub enum SpanItem {
    Grammar,
    Definition(Vec<u8>),
    Reference(Vec<u8>),
}

/// Ghost image of a `SpanItem`, carrying the symbol name as a byte sequence.
pub enum SpanItemView {
    Grammar,
    Definition(Seq<u8>),
    Reference(Seq<u8>),
}

impl View for SpanItem {
    type V = SpanItemView;

    open spec fn view(&self) -> SpanItemView {
        match self {
            SpanItem::Grammar => SpanItemView::Grammar,
            SpanItem::Definition(name) => SpanItemView::Definition(name@),
            SpanItem::Reference(name) => SpanItemView::Reference(name@),
        }
    }
}

/// A defined symbol's formal parameter names and optional return type.
#[derive(Clone, Debug)]
pub struct TypeDecl {
    pub args: Vec<Vec<u8>>,
    pub ret: Option<Vec<u8>>,
}

/// Ghost image of a `TypeDecl`.
pub struct TypeDeclView {
    pub args: Seq<Seq<u8>>,
    pub ret: Option<Seq<u8>>,
}

impl View for TypeDecl {
    type V = TypeDeclView;

    open spec fn view(&self) -> TypeDeclView {
        TypeDeclView {
            args: self.args@.map_values(|a: Vec<u8>| a@),
            ret: match self.ret {
                Some(t) => Some(t@),
                None => None,
            },
        }
    }
}

} // verus!
