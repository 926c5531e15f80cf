//! The joint lookups of a processing pass: which handles of an entity ledger
//! are live, and which of them reach a value in each required store.

use crate::gendex::{GenerationalIndex, GenerationalIndexAllocator, GenerationalIndexArray};
use vstd::prelude::*;

verus! {

broadcast use vstd::seq_lib::group_seq_properties;

/// The handles of `ledger` that the allocator reports live, in ledger order.
pub open spec fn live_subseq(alloc: GenerationalIndexAllocator, ledger: Seq<GenerationalIndex>) -> Seq<
    GenerationalIndex,
> {
    ledger.filter(|h: GenerationalIndex| alloc.slot_live(h))
}

/// The handles of `handles` that reach a value in `store`, in order.
pub open spec fn present_subseq<T>(store: GenerationalIndexArray<T>, handles: Seq<GenerationalIndex>) -> Seq<
    GenerationalIndex,
> {
    handles.filter(|h: GenerationalIndex| store.lookup(h).is_some())
}

/// The handles of `ledger`, in ledger order, whose slot is live. Dead entries
/// are skipped, not removed from the ledger.
pub fn live_handles(alloc: &GenerationalIndexAllocator, ledger: &Vec<GenerationalIndex>) -> (r: Vec<
    GenerationalIndex,
>)
    ensures
        r@ == live_subseq(*alloc, ledger@),
{
    let mut r: Vec<GenerationalIndex> = Vec::new();
    let mut i: usize = 0;
    while i < ledger.len()
        invariant
            i <= ledger@.len(),
            r@ == live_subseq(*alloc, ledger@.take(i as int)),
        decreases ledger.len() - i,
    {
        let h = ledger[i];
        proof {
            assert(ledger@.take(i + 1) =~= ledger@.take(i as int).push(h));
            ledger@.take(i as int).lemma_filter_push(h, |g: GenerationalIndex| alloc.slot_live(g));
        }
        if alloc.is_live(h) {
            r.push(h);
        }
        i = i + 1;
    }
    assert(ledger@.take(i as int) =~= ledger@);
    r
}

/// The handles of `handles`, in order, that reach a value in `store`.
pub fn with_component<T>(store: &GenerationalIndexArray<T>, handles: &Vec<GenerationalIndex>) -> (r: Vec<
    GenerationalIndex,
>)
    ensures
        r@ == present_subseq(*store, handles@),
{
    let mut r: Vec<GenerationalIndex> = Vec::new();
    let mut i: usize = 0;
    while i < handles.len()
        invariant
            i <= handles@.len(),
            r@ == present_subseq(*store, handles@.take(i as int)),
        decreases handles.len() - i,
    {
        let h = handles[i];
        proof {
            assert(handles@.take(i + 1) =~= handles@.take(i as int).push(h));
            handles@.take(i as int).lemma_filter_push(h, |g: GenerationalIndex| store.lookup(g).is_some());
        }
        if store.get(h).is_some() {
            r.push(h);
        }
        i = i + 1;
    }
    assert(handles@.take(i as int) =~= handles@);
    r
}

/// Filtering by one predicate and then by another keeps what both accept,
/// in the same order.
proof fn lemma_filter_filter(s: Seq<GenerationalIndex>, p: spec_fn(GenerationalIndex) -> bool, q: spec_fn(
    GenerationalIndex,
) -> bool)
    ensures
        s.filter(p).filter(q) == s.filter(|h: GenerationalIndex| p(h) && q(h)),
    decreases s.len(),
{
    let pq = |h: GenerationalIndex| p(h) && q(h);
    if s.len() == 0 {
        reveal(Seq::filter);
        assert(s.filter(p).filter(q) =~= s.filter(pq));
    } else {
        let t = s.drop_last();
        let x = s.last();
        assert(t.push(x) =~= s);
        lemma_filter_filter(t, p, q);
        t.lemma_filter_push(x, p);
        t.lemma_filter_push(x, pq);
        t.filter(p).lemma_filter_push(x, q);
    }
}

/// The joint query over two stores is conjunctive: a handle of the ledger
/// passes exactly when its slot is live and both stores hold a value for it,
/// and the passing handles keep their ledger order. A handle present in one
/// store and absent from the other never passes.
pub proof fn lemma_joint_query_conjunctive<A, B>(
    alloc: GenerationalIndexAllocator,
    a: GenerationalIndexArray<A>,
    b: GenerationalIndexArray<B>,
    ledger: Seq<GenerationalIndex>,
)
    ensures
        present_subseq(b, present_subseq(a, live_subseq(alloc, ledger))) == ledger.filter(
            |h: GenerationalIndex| alloc.slot_live(h) && a.lookup(h).is_some() && b.lookup(h).is_some(),
        ),
        forall|h: GenerationalIndex| #[trigger]
            present_subseq(b, present_subseq(a, live_subseq(alloc, ledger))).contains(h) <==> {
                &&& ledger.contains(h)
                &&& alloc.slot_live(h)
                &&& a.lookup(h).is_some()
                &&& b.lookup(h).is_some()
            },
{
    let live = |h: GenerationalIndex| alloc.slot_live(h);
    let in_a = |h: GenerationalIndex| a.lookup(h).is_some();
    let in_b = |h: GenerationalIndex| b.lookup(h).is_some();
    let live_a = |h: GenerationalIndex| live(h) && in_a(h);
    let all = |h: GenerationalIndex| alloc.slot_live(h) && a.lookup(h).is_some() && b.lookup(h).is_some();
    lemma_filter_filter(ledger, live, in_a);
    lemma_filter_filter(ledger, live_a, in_b);
    assert((|h: GenerationalIndex| live_a(h) && in_b(h)) =~= all);
    assert forall|h: GenerationalIndex| #[trigger] ledger.filter(all).contains(h) <==> ledger.contains(h) && all(
        h,
    ) by {
        if ledger.contains(h) && all(h) {
            let k = choose|k: int| 0 <= k < ledger.len() && ledger[k] == h;
            ledger.lemma_filter_contains(all, k);
        }
        if ledger.filter(all).contains(h) {
            let k = choose|k: int| 0 <= k < ledger.filter(all).len() && ledger.filter(all)[k] == h;
            ledger.lemma_filter_pred(all, k);
            ledger.lemma_filter_contains_rev(all, h);
        }
    }
}

} // verus!
