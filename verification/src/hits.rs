use vstd::prelude::*;

use crate::index::Document;
use crate::span::{span_contains, span_width, Span, SpanItem};

verus! {

/// The indices of all span records whose range contains `offset`, in
/// record order (the order the builder emitted them).
pub open spec fn hits_of(items: Seq<(Span, SpanItem)>, offset: int) -> Seq<usize>
    decreases items.len(),
{
    if items.len() == 0 {
        Seq::empty()
    } else {
        hits_of(items.drop_last(), offset) + if span_contains(items.last().0, offset) {
            seq![(items.len() - 1) as usize]
        } else {
            Seq::empty()
        }
    }
}

/// The hit list holds exactly the indices of the containing records.
pub proof fn lemma_hits_of(items: Seq<(Span, SpanItem)>, offset: int)
    requires
        items.len() <= usize::MAX,
    ensures
        forall|i: int|
            0 <= i < hits_of(items, offset).len() ==> (#[trigger] hits_of(items, offset)[i])
                < items.len() && span_contains(items[hits_of(items, offset)[i] as int].0, offset),
        forall|j: int|
            0 <= j < items.len() && span_contains((#[trigger] items[j]).0, offset) ==> hits_of(
                items,
                offset,
            ).contains(j as usize),
    decreases items.len(),
{
    if items.len() == 0 {
    } else {
        let pre = items.drop_last();
        lemma_hits_of(pre, offset);
        let hp = hits_of(pre, offset);
        let whole = hits_of(items, offset);
        assert forall|i: int|
            0 <= i < whole.len() implies (#[trigger] whole[i]) < items.len() && span_contains(
            items[whole[i] as int].0,
            offset,
        ) by {
            if i < hp.len() {
                assert(whole[i] == hp[i]);
                assert(pre[hp[i] as int] == items[hp[i] as int]);
            } else {
                assert(whole[i] == (items.len() - 1) as usize);
                assert(items.last() == items[items.len() - 1]);
            }
        }
        assert forall|j: int|
            0 <= j < items.len() && span_contains((#[trigger] items[j]).0, offset) implies whole
            .contains(j as usize) by {
            if j < items.len() - 1 {
                assert(pre[j] == items[j]);
                let i = choose|i: int| 0 <= i < hp.len() && hp[i] == j as usize;
                assert(whole[i] == j as usize);
            } else {
                assert(whole[whole.len() - 1] == (items.len() - 1) as usize);
            }
        }
    }
}

/// The single best hit: the narrowest record; among equally narrow ones,
/// the record built last.
pub open spec fn closest_of(items: Seq<(Span, SpanItem)>, hs: Seq<usize>) -> Option<usize>
    decreases hs.len(),
{
    if hs.len() == 0 {
        None
    } else {
        match closest_of(items, hs.drop_last()) {
            None => Some(hs.last()),
            Some(b) => if span_width(items[hs.last() as int].0) <= span_width(
                items[b as int].0,
            ) {
                Some(hs.last())
            } else {
                Some(b)
            },
        }
    }
}

/// Hit resolution picks a hit exactly when there is one, and picks one of
/// minimal width.
pub proof fn lemma_closest_of(items: Seq<(Span, SpanItem)>, hs: Seq<usize>)
    requires
        forall|i: int| 0 <= i < hs.len() ==> (#[trigger] hs[i]) < items.len(),
    ensures
        (closest_of(items, hs) is None) <==> hs.len() == 0,
        closest_of(items, hs) matches Some(b) ==> hs.contains(b) && forall|j: int|
            0 <= j < hs.len() ==> span_width(items[b as int].0) <= span_width(
                items[(#[trigger] hs[j]) as int].0,
            ),
    decreases hs.len(),
{
    if hs.len() == 0 {
    } else {
        let pre = hs.drop_last();
        assert forall|i: int| 0 <= i < pre.len() implies (#[trigger] pre[i]) < items.len() by {
            assert(pre[i] == hs[i]);
        }
        lemma_closest_of(items, pre);
        let l = hs.last();
        assert(hs[hs.len() - 1] == l);
        if closest_of(items, pre) is Some {
            let bp = closest_of(items, pre)->Some_0;
            let ip = choose|i: int| 0 <= i < pre.len() && pre[i] == bp;
            assert(hs[ip] == bp);
            let b = closest_of(items, hs)->Some_0;
            assert forall|j: int|
                0 <= j < hs.len() implies span_width(items[b as int].0) <= span_width(
                items[(#[trigger] hs[j]) as int].0,
            ) by {
                if j < hs.len() - 1 {
                    assert(pre[j] == hs[j]);
                }
            }
        }
    }
}

/// The tie-break rule: the resolved hit stands at a position in the hit
/// list after which every hit is strictly wider — among equally narrow
/// hits the one built last wins.
pub proof fn lemma_closest_of_tie_break(items: Seq<(Span, SpanItem)>, hs: Seq<usize>)
    requires
        forall|i: int| 0 <= i < hs.len() ==> (#[trigger] hs[i]) < items.len(),
    ensures
        closest_of(items, hs) matches Some(b) ==> exists|i: int|
            0 <= i < hs.len() && hs[i] == b && (forall|j: int|
                i < j < hs.len() ==> span_width(items[(#[trigger] hs[j]) as int].0) > span_width(
                    items[b as int].0,
                )),
    decreases hs.len(),
{
    if hs.len() == 0 {
    } else {
        let pre = hs.drop_last();
        assert forall|i: int| 0 <= i < pre.len() implies (#[trigger] pre[i]) < items.len() by {
            assert(pre[i] == hs[i]);
        }
        lemma_closest_of_tie_break(items, pre);
        let l = hs.last();
        assert(hs[hs.len() - 1] == l);
        let b = closest_of(items, hs)->Some_0;
        if b == l && (closest_of(items, pre) is None || span_width(items[l as int].0)
            <= span_width(items[closest_of(items, pre)->Some_0 as int].0)) {
            assert(hs[hs.len() - 1] == b && (forall|j: int|
                hs.len() - 1 < j < hs.len() ==> span_width(items[(#[trigger] hs[j]) as int].0)
                    > span_width(items[b as int].0)));
        } else {
            let bp = closest_of(items, pre)->Some_0;
            let ip = choose|i: int|
                0 <= i < pre.len() && pre[i] == bp && (forall|j: int|
                    i < j < pre.len() ==> span_width(items[(#[trigger] pre[j]) as int].0)
                        > span_width(items[bp as int].0));
            assert forall|j: int|
                ip < j < hs.len() implies span_width(items[(#[trigger] hs[j]) as int].0)
                > span_width(items[b as int].0) by {
                if j < hs.len() - 1 {
                    assert(pre[j] == hs[j]);
                }
            }
            assert(hs[ip] == b && (forall|j: int|
                ip < j < hs.len() ==> span_width(items[(#[trigger] hs[j]) as int].0) > span_width(
                    items[b as int].0,
                )));
        }
    }
}

/// Gathers the hits for `offset`: the span records containing it, by index,
/// in record order.
pub fn hits(doc: &Document, offset: usize) -> (r: Vec<usize>)
    ensures
        r@ == hits_of(doc.span_items@, offset as int),
{
    let items = &doc.span_items;
    let mut r: Vec<usize> = Vec::new();
    let mut i: usize = 0;
    proof {
        assert(items@.take(0) =~= Seq::<(Span, SpanItem)>::empty());
    }
    while i < items.len()
        invariant
            items@ == doc.span_items@,
            i <= items@.len(),
            r@ == hits_of(items@.take(i as int), offset as int),
        decreases items@.len() - i,
    {
        proof {
            assert(items@.take(i + 1).drop_last() =~= items@.take(i as int));
            assert(items@.take(i + 1).last() == items@[i as int]);
        }
        let item = &items[i];
        if item.0.lo <= offset && offset < item.0.hi {
            let ghost prefix = hits_of(items@.take(i as int), offset as int);
            r.push(i);
            proof {
                assert(prefix + seq![i] =~= prefix.push(i));
            }
        } else {
            proof {
                let ghost prefix = hits_of(items@.take(i as int), offset as int);
                assert(prefix + Seq::<usize>::empty() =~= prefix);
            }
        }
        i = i + 1;
    }
    proof {
        assert(items@.take(items@.len() as int) =~= items@);
    }
    r
}

/// Picks the single most specific hit: the narrowest containing span, ties
/// going to the record built last.
pub fn closest(doc: &Document, hs: &Vec<usize>) -> (r: Option<usize>)
    requires
        doc.wf(),
        forall|i: int| 0 <= i < hs@.len() ==> (#[trigger] hs@[i]) < doc.span_items@.len(),
    ensures
        r == closest_of(doc.span_items@, hs@),
{
    let mut best: Option<usize> = None;
    let mut i: usize = 0;
    proof {
        assert(hs@.take(0) =~= Seq::<usize>::empty());
    }
    while i < hs.len()
        invariant
            doc.wf(),
            forall|j: int| 0 <= j < hs@.len() ==> (#[trigger] hs@[j]) < doc.span_items@.len(),
            i <= hs@.len(),
            best == closest_of(doc.span_items@, hs@.take(i as int)),
            best matches Some(b) ==> b < doc.span_items@.len(),
        decreases hs@.len() - i,
    {
        proof {
            assert(hs@.take(i + 1).drop_last() =~= hs@.take(i as int));
            assert(hs@.take(i + 1).last() == hs@[i as int]);
        }
        let idx = hs[i];
        match best {
            None => {
                best = Some(idx);
            },
            Some(b) => {
                let cand = &doc.span_items[idx];
                let cur = &doc.span_items[b];
                if cand.0.hi - cand.0.lo <= cur.0.hi - cur.0.lo {
                    best = Some(idx);
                }
            },
        }
        i = i + 1;
    }
    proof {
        assert(hs@.take(hs@.len() as int) =~= hs@);
    }
    best
}

} // verus!
