//! Generational indices: handles made of a slot index and a generation, the
//! allocator that issues them, and the store that maps them to values.

use std::collections::VecDeque;
use vstd::prelude::*;

verus! {

/// A handle naming one entity: the slot it occupies and the generation of
/// that slot when the handle was issued.
#[derive(Debug, Copy, Clone, Default, PartialEq, Eq, Structural)]
pub struct GenerationalIndex {
    pub index: usize,
    pub generation: u64,
}

#[derive(Debug, Copy, Clone, Default)]
struct AllocatorEntry {
    is_live: bool,
    generation: u64,
}

/// Issues handles, recycling freed slots in the order in which they were freed.
#[derive(Debug, Clone, Default)]
pub struct GenerationalIndexAllocator {
    entries: Vec<AllocatorEntry>,
    free: VecDeque<usize>,
}

/// A sequence of distinct values, each below `n`, has at most `n` elements.
proof fn lemma_distinct_below_len(s: Seq<usize>, n: nat)
    requires
        s.no_duplicates(),
        forall|k: int| 0 <= k < s.len() ==> (#[trigger] s[k]) < n,
    ensures
        s.len() <= n,
{
    let range = vstd::set_lib::set_int_range(0, n as int);
    let f = |i: int| i as usize;
    vstd::set_lib::lemma_int_range(0, n as int);
    vstd::set_lib::lemma_map_size_bound(range, range.map(f), f);
    assert forall|x: usize| s.to_set().contains(x) implies range.map(f).contains(x) by {
        assert(range.contains(x as int));
        assert(f(x as int) == x);
    }
    vstd::set_lib::lemma_len_subset(s.to_set(), range.map(f));
    s.unique_seq_to_set();
}

/// Whether `h` is the handle that currently holds its slot in `slots`.
pub open spec fn holds_in(slots: Seq<(bool, u64)>, h: GenerationalIndex) -> bool {
    h.index < slots.len() && slots[h.index as int].0 && slots[h.index as int].1 == h.generation
}

/// One allocation on slots and free queue: the new slots, the new free queue
/// and the handle issued. The oldest freed slot comes back live with its
/// generation raised by one; with none freed, a new live slot of generation
/// zero is appended.
pub open spec fn allocate_step(slots: Seq<(bool, u64)>, free: Seq<usize>) -> (
    Seq<(bool, u64)>,
    Seq<usize>,
    GenerationalIndex,
) {
    if free.len() > 0 {
        let i = free[0];
        let g = (slots[i as int].1 + 1) as u64;
        (slots.update(i as int, (true, g)), free.drop_first(), GenerationalIndex { index: i, generation: g })
    } else {
        (slots.push((true, 0u64)), free, GenerationalIndex { index: slots.len() as usize, generation: 0 })
    }
}

/// One deallocation of `h`: the new slots, the new free queue and whether it
/// took place. Only the handle that holds its slot frees it; its slot then
/// goes dead and to the back of the free queue.
pub open spec fn deallocate_step(slots: Seq<(bool, u64)>, free: Seq<usize>, h: GenerationalIndex) -> (
    Seq<(bool, u64)>,
    Seq<usize>,
    bool,
) {
    if holds_in(slots, h) {
        (slots.update(h.index as int, (false, h.generation)), free.push(h.index), true)
    } else {
        (slots, free, false)
    }
}

impl View for GenerationalIndexAllocator {
    /// Each slot as (live, generation), in slot order.
    type V = Seq<(bool, u64)>;

    closed spec fn view(&self) -> Seq<(bool, u64)> {
        self.entries@.map_values(|e: AllocatorEntry| (e.is_live, e.generation))
    }
}

impl GenerationalIndexAllocator {
    /// The freed slot indices, oldest first: the order in which they are reused.
    pub closed spec fn free_queue(&self) -> Seq<usize> {
        self.free@
    }

    /// The free queue holds each dead slot exactly once, and nothing else.
    pub closed spec fn wf(&self) -> bool {
        &&& self.free@.no_duplicates()
        &&& forall|k: int| 0 <= k < self.free@.len() ==> (#[trigger] self.free@[k]) < self.entries@.len()
        &&& forall|i: usize| i < self.entries@.len() ==>
            (#[trigger] self.entries@[i as int].is_live <==> !self.free@.contains(i))
    }

    /// The next allocation fits the machine: the slot to be reused is below the
    /// largest generation, or there is room for one more slot.
    pub open spec fn can_allocate(&self) -> bool {
        if self.free_queue().len() > 0 {
            self@[self.free_queue()[0] as int].1 < u64::MAX
        } else {
            self@.len() < usize::MAX
        }
    }

    /// Whether `h` names a slot that exists and is currently live.
    pub open spec fn slot_live(&self, h: GenerationalIndex) -> bool {
        h.index < self@.len() && self@[h.index as int].0
    }

    /// Whether `h` is the handle that currently holds its slot.
    pub open spec fn holds(&self, h: GenerationalIndex) -> bool {
        holds_in(self@, h)
    }

    /// What a well-formed allocator guarantees of its model: the free queue
    /// names each dead slot exactly once and no live slot, and is never
    /// longer than the slots.
    pub proof fn lemma_free_queue_dead(&self)
        requires
            self.wf(),
        ensures
            self.free_queue().no_duplicates(),
            self.free_queue().len() <= self@.len(),
            forall|k: int|
                0 <= k < self.free_queue().len() ==> (#[trigger] self.free_queue()[k]) < self@.len()
                    && !self@[self.free_queue()[k] as int].0,
            forall|i: usize| i < self@.len() ==> (#[trigger] self@[i as int].0 <==> !self.free_queue().contains(i)),
    {
        self.lemma_free_len();
        assert forall|k: int| 0 <= k < self.free_queue().len() implies (#[trigger] self.free_queue()[k])
            < self@.len() && !self@[self.free_queue()[k] as int].0 by {
            let i = self.free@[k];
            assert(self.free@.contains(i));
            assert(self.entries@[i as int].is_live <==> !self.free@.contains(i));
        }
    }

    proof fn lemma_free_len(&self)
        requires
            self.wf(),
        ensures
            self.free_queue().len() <= self@.len(),
    {
        lemma_distinct_below_len(self.free@, self.entries@.len());
    }

    /// An allocator with no slots.
    pub fn new() -> (r: Self)
        ensures
            r.wf(),
            r@ == Seq::<(bool, u64)>::empty(),
            r.free_queue() == Seq::<usize>::empty(),
    {
        let r = GenerationalIndexAllocator { entries: Vec::new(), free: VecDeque::new() };
        assert(r@ =~= Seq::<(bool, u64)>::empty());
        r
    }
    /// Whether the next allocation fits the machine (see `can_allocate`).
    pub fn next_allocation_fits(&self) -> (r: bool)
        requires
            self.wf(),
        ensures
            r == self.can_allocate(),
    {
        if self.free.len() > 0 {
            let i = self.free[0];
            self.entries[i].generation < u64::MAX
        } else {
            self.entries.len() < usize::MAX
        }
    }

    /// Issues a handle: the oldest freed slot with its generation raised by
    /// one, or else a new slot at the end with generation zero.
    pub fn allocate(&mut self) -> (r: GenerationalIndex)
        requires
            old(self).wf(),
            old(self).can_allocate(),
        ensures
            final(self).wf(),
            final(self).holds(r),
            r.index < usize::MAX,
            (final(self)@, final(self).free_queue(), r) == allocate_step(old(self)@, old(self).free_queue()),
    {
        let ghost old_free = self.free@;
        let ghost old_entries = self.entries@;
        let slot_count = self.entries.len();
        match self.free.pop_front() {
            Some(index) => {
                assert(old_free[0] == index && index < slot_count);
                let mut e = self.entries[index];
                e.is_live = true;
                e.generation = e.generation + 1;
                self.entries.set(index, e);
                proof {
                    assert(self.free@ =~= old_free.drop_first());
                    assert forall|i: usize| i < self.entries@.len() implies
                        (#[trigger] self.entries@[i as int].is_live <==> !self.free@.contains(i)) by {
                        if i == index {
                            assert(!self.free@.contains(index)) by {
                                if self.free@.contains(index) {
                                    let k = choose|k: int| 0 <= k < self.free@.len() && self.free@[k] == index;
                                    assert(old_free[k + 1] == old_free[0]);
                                }
                            }
                        } else {
                            assert(old_entries[i as int] == self.entries@[i as int]);
                            if old_free.contains(i) {
                                let k = choose|k: int| 0 <= k < old_free.len() && old_free[k] == i;
                                assert(k != 0);
                                assert(self.free@[k - 1] == i);
                            }
                        }
                    }
                    assert(self@ =~= old_entries.map_values(|e: AllocatorEntry| (e.is_live, e.generation)).update(
                        index as int, (true, e.generation)));
                }
                GenerationalIndex { index, generation: e.generation }
            },
            None => {
                self.entries.push(AllocatorEntry { is_live: true, generation: 0 });
                proof {
                    assert forall|i: usize| i < self.entries@.len() implies
                        (#[trigger] self.entries@[i as int].is_live <==> !self.free@.contains(i)) by {
                        if i < old_entries.len() {
                            assert(old_entries[i as int] == self.entries@[i as int]);
                        }
                    }
                    assert(self@ =~= old_entries.map_values(|e: AllocatorEntry| (e.is_live, e.generation)).push(
                        (true, 0u64)));
                }
                GenerationalIndex { index: self.entries.len() - 1, generation: 0 }
            },
        }
    }

    /// Frees the slot of `index` when `index` is the handle that holds it;
    /// returns whether it did. Otherwise nothing changes.
    pub fn deallocate(&mut self, index: GenerationalIndex) -> (r: bool)
        requires
            old(self).wf(),
        ensures
            final(self).wf(),
            (final(self)@, final(self).free_queue(), r) == deallocate_step(
                old(self)@,
                old(self).free_queue(),
                index,
            ),
    {
        if index.index < self.entries.len() && self.entries[index.index].generation == index.generation
            && self.entries[index.index].is_live {
            let ghost old_free = self.free@;
            let ghost old_entries = self.entries@;
            let mut e = self.entries[index.index];
            e.is_live = false;
            self.entries.set(index.index, e);
            self.free.push_back(index.index);
            proof {
                assert(!old_free.contains(index.index));
                assert forall|i: usize| i < self.entries@.len() implies
                    (#[trigger] self.entries@[i as int].is_live <==> !self.free@.contains(i)) by {
                    if i != index.index {
                        assert(old_entries[i as int] == self.entries@[i as int]);
                        if self.free@.contains(i) {
                            let k = choose|k: int| 0 <= k < self.free@.len() && self.free@[k] == i;
                            assert(old_free[k] == i);
                        }
                        if old_free.contains(i) {
                            let k = choose|k: int| 0 <= k < old_free.len() && old_free[k] == i;
                            assert(self.free@[k] == i);
                        }
                    } else {
                        assert(self.free@[old_free.len() as int] == index.index);
                    }
                }
                assert(self@ =~= old_entries.map_values(|e: AllocatorEntry| (e.is_live, e.generation)).update(
                    index.index as int, (false, index.generation)));
            }
            true
        } else {
            false
        }
    }

    /// Whether the slot of `index` exists and is live; the generation is not
    /// compared.
    pub fn is_live(&self, index: GenerationalIndex) -> (r: bool)
        ensures
            r == self.slot_live(index),
    {
        index.index < self.entries.len() && self.entries[index.index].is_live
    }

    /// The number of live slots: all slots less the freed ones.
    pub fn live_entity_count(&self) -> (r: usize)
        requires
            self.wf(),
        ensures
            r == self@.len() - self.free_queue().len(),
    {
        proof {
            self.lemma_free_len();
        }
        self.entries.len() - self.free.len()
    }

    /// The number of slots ever created, live or freed.
    pub fn allocated_entity_count(&self) -> (r: usize)
        ensures
            r == self@.len(),
    {
        self.entries.len()
    }
}

#[derive(Debug)]
struct ArrayEntry<T> {
    value: T,
    generation: u64,
}

/// Maps handles to values. Each value is stamped with the generation of the
/// handle that set it, and only a handle of that generation reaches it.
#[derive(Debug)]
pub struct GenerationalIndexArray<T>(Vec<Option<ArrayEntry<T>>>);

impl<T> View for GenerationalIndexArray<T> {
    /// Each slot as an optional (value, generation) pair, in slot order.
    type V = Seq<Option<(T, u64)>>;

    closed spec fn view(&self) -> Seq<Option<(T, u64)>> {
        self.0@.map_values(
            |e: Option<ArrayEntry<T>>|
                match e {
                    Some(a) => Some((a.value, a.generation)),
                    None => None,
                },
        )
    }
}

/// The value that `h` reaches in store slots `s`: the one in its slot, if that
/// was set under the generation of `h`.
pub open spec fn lookup_in<T>(s: Seq<Option<(T, u64)>>, h: GenerationalIndex) -> Option<T> {
    if h.index < s.len() {
        match s[h.index as int] {
            Some(e) => if e.1 == h.generation {
                Some(e.0)
            } else {
                None
            },
            None => None,
        }
    } else {
        None
    }
}

/// Store slots `s` after `value` is set under `h`: empty slots are added up to
/// the slot of `h`, which then holds `value` stamped with the generation of
/// `h`; every other slot is kept.
pub open spec fn stored_after_set<T>(s: Seq<Option<(T, u64)>>, h: GenerationalIndex, value: T) -> Seq<
    Option<(T, u64)>,
> {
    let n = if h.index < s.len() {
        s.len() as int
    } else {
        h.index + 1
    };
    Seq::new(
        n as nat,
        |j: int|
            if j == h.index {
                Some((value, h.generation))
            } else if j < s.len() {
                s[j]
            } else {
                None
            },
    )
}

impl<T> GenerationalIndexArray<T> {
    /// The value that `h` reaches in this store.
    pub open spec fn lookup(&self, h: GenerationalIndex) -> Option<T> {
        lookup_in(self@, h)
    }

    /// A store with no slots.
    pub fn new() -> (r: Self)
        ensures
            r@ == Seq::<Option<(T, u64)>>::empty(),
    {
        let r = GenerationalIndexArray(Vec::new());
        assert(r@ =~= Seq::<Option<(T, u64)>>::empty());
        r
    }

    /// The number of slots, set or not.
    pub fn len(&self) -> (r: usize)
        ensures
            r == self@.len(),
    {
        self.0.len()
    }

    /// Stores `value` in the slot of `index`, stamped with its generation,
    /// whatever the slot held; first adds empty slots up to that one.
    pub fn set(&mut self, index: GenerationalIndex, value: T)
        requires
            index.index < usize::MAX,
        ensures
            final(self)@ == stored_after_set(old(self)@, index, value),
    {
        let ghost s0 = self@;
        while self.0.len() <= index.index
            invariant
                s0.len() <= self@.len(),
                s0.len() <= index.index + 1 ==> self@.len() <= index.index + 1,
                s0.len() > index.index + 1 ==> self@.len() == s0.len(),
                forall|j: int|
                    0 <= j < self@.len() ==> #[trigger] self@[j] == if j < s0.len() {
                        s0[j]
                    } else {
                        None
                    },
            decreases index.index + 1 - self.0.len(),
        {
            let ghost before = self@;
            self.0.push(None);
            proof {
                assert forall|j: int| 0 <= j < self@.len() implies #[trigger] self@[j] == if j < s0.len() {
                    s0[j]
                } else {
                    None
                } by {
                    if j < before.len() {
                        assert(before[j] == self@[j]);
                    }
                }
            }
        }
        let ghost padded = self@;
        self.0.set(index.index, Some(ArrayEntry { value, generation: index.generation }));
        proof {
            assert forall|j: int| 0 <= j < self@.len() && j != index.index implies #[trigger] self@[j]
                == padded[j] by {}
            assert(self@ =~= stored_after_set(s0, index, value));
        }
    }

    /// The value that `index` reaches, if any.
    pub fn get(&self, index: GenerationalIndex) -> (r: Option<&T>)
        ensures
            match r {
                Some(v) => self.lookup(index) == Some(*v),
                None => self.lookup(index).is_none(),
            },
    {
        if index.index < self.0.len() {
            match &self.0[index.index] {
                Some(entry) => {
                    if entry.generation == index.generation {
                        Some(&entry.value)
                    } else {
                        None
                    }
                },
                None => None,
            }
        } else {
            None
        }
    }

    /// Exclusive access to the value that `index` reaches, if any; what is
    /// written through it stays in that slot under the same generation.
    pub fn get_mut(&mut self, index: GenerationalIndex) -> (r: Option<&mut T>)
        ensures
            match old(self).lookup(index) {
                Some(v) => {
                    &&& r.is_some()
                    &&& *r.unwrap() == v
                    &&& final(self)@ == old(self)@.update(
                        index.index as int,
                        Some((*final(r.unwrap()), index.generation)),
                    )
                },
                None => r.is_none() && final(self)@ == old(self)@,
            },
    {
        if index.index < self.0.len() {
            match &mut self.0[index.index] {
                Some(entry) => {
                    if entry.generation == index.generation {
                        Some(&mut entry.value)
                    } else {
                        None
                    }
                },
                None => None,
            }
        } else {
            None
        }
    }
}

/// Whether `h` was issued for its slot and no longer holds it: the slot has
/// since moved to a later generation, or is dead at the generation of `h`.
pub open spec fn stale_in(slots: Seq<(bool, u64)>, h: GenerationalIndex) -> bool {
    &&& h.index < slots.len()
    &&& h.generation < slots[h.index as int].1 || (h.generation == slots[h.index as int].1
        && !slots[h.index as int].0)
}

/// `n` allocations in a row: the slots, the free queue and the handles
/// issued, in order.
pub open spec fn allocate_many(slots: Seq<(bool, u64)>, free: Seq<usize>, n: nat) -> (
    Seq<(bool, u64)>,
    Seq<usize>,
    Seq<GenerationalIndex>,
)
    decreases n,
{
    if n == 0 {
        (slots, free, Seq::empty())
    } else {
        let prev = allocate_many(slots, free, (n - 1) as nat);
        let next = allocate_step(prev.0, prev.1);
        (next.0, next.1, prev.2.push(next.2))
    }
}

/// Freeing a handle and then reallocating its slot issues the next
/// generation of that slot. Freeing `h` leaves its slot dead at the
/// generation of `h` (and no allocation of another slot, nor any
/// deallocation, changes a dead slot); the allocation that reuses it issues
/// a handle of generation one more than that of `h`.
pub proof fn lemma_reuse_next_generation(a: GenerationalIndexAllocator, h: GenerationalIndex)
    requires
        a.wf(),
        a.holds(h),
        h.generation < u64::MAX,
    ensures
        ({
            let (slots, free, freed) = deallocate_step(a@, a.free_queue(), h);
            let (_, _, r) = allocate_step(slots, free);
            &&& freed
            &&& slots[h.index as int] == (false, h.generation)
            &&& r.index == h.index ==> r.generation == h.generation + 1
        }),
        forall|slots: Seq<(bool, u64)>, free: Seq<usize>, i: int|
            0 <= i < slots.len() && !slots[i].0 && (free.len() > 0 ==> free[0] < slots.len())
                && allocate_step(slots, free).2.index != i ==> #[trigger] allocate_step(slots, free).0[i] == slots[i],
        forall|slots: Seq<(bool, u64)>, free: Seq<usize>, g: GenerationalIndex, i: int|
            0 <= i < slots.len() && !slots[i].0 ==> #[trigger] deallocate_step(slots, free, g).0[i]
                == slots[i],
{
}

/// A handle whose slot was freed and reused can never reach what is stored
/// for the new handle of that slot: when the allocation after freeing `h`
/// reuses its slot, setting `v` under the new handle leaves `h` reaching
/// nothing, while the new handle reaches `v`.
pub proof fn lemma_no_aliasing_across_generations<T>(
    a: GenerationalIndexAllocator,
    h: GenerationalIndex,
    store: Seq<Option<(T, u64)>>,
    v: T,
)
    requires
        a.wf(),
        a.holds(h),
        h.generation < u64::MAX,
    ensures
        ({
            let (slots, free, _) = deallocate_step(a@, a.free_queue(), h);
            let (_, _, h2) = allocate_step(slots, free);
            h2.index == h.index ==> {
                &&& lookup_in(stored_after_set(store, h2, v), h).is_none()
                &&& lookup_in(stored_after_set(store, h2, v), h2) == Some(v)
            }
        }),
{
    lemma_reuse_next_generation(a, h);
}

/// Allocating `n` handles from an empty allocator issues slot indices
/// `0..n` in order, each of generation zero, and leaves `n` live slots and
/// nothing freed.
pub proof fn lemma_sequential_allocation(n: nat)
    requires
        n <= usize::MAX,
    ensures
        allocate_many(Seq::empty(), Seq::empty(), n) == (
            Seq::new(n, |k: int| (true, 0u64)),
            Seq::<usize>::empty(),
            Seq::new(n, |k: int| GenerationalIndex { index: k as usize, generation: 0 }),
        ),
    decreases n,
{
    if n > 0 {
        lemma_sequential_allocation((n - 1) as nat);
        let prev = allocate_many(Seq::empty(), Seq::empty(), (n - 1) as nat);
        assert(prev.0.push((true, 0u64)) =~= Seq::new(n, |k: int| (true, 0u64)));
        assert(prev.2.push(GenerationalIndex { index: (n - 1) as usize, generation: 0 }) =~= Seq::new(
            n,
            |k: int| GenerationalIndex { index: k as usize, generation: 0 },
        ));
    }
}

/// A handle can be freed only once. Freeing a handle that holds its slot
/// succeeds and leaves it stale; a stale handle is never freed again; and no
/// allocation or deallocation makes a stale handle hold its slot again.
pub proof fn lemma_free_succeeds_once(a: GenerationalIndexAllocator, h: GenerationalIndex)
    requires
        a.wf(),
        a.holds(h),
    ensures
        deallocate_step(a@, a.free_queue(), h).2,
        stale_in(deallocate_step(a@, a.free_queue(), h).0, h),
        forall|slots: Seq<(bool, u64)>, free: Seq<usize>|
            stale_in(slots, h) ==> !(#[trigger] deallocate_step(slots, free, h)).2,
        forall|slots: Seq<(bool, u64)>, free: Seq<usize>|
            stale_in(slots, h) && (free.len() > 0 ==> free[0] < slots.len() && slots[free[0] as int].1
                < u64::MAX)
                ==> stale_in((#[trigger] allocate_step(slots, free)).0, h),
        forall|slots: Seq<(bool, u64)>, free: Seq<usize>, g: GenerationalIndex|
            stale_in(slots, h) ==> stale_in((#[trigger] deallocate_step(slots, free, g)).0, h),
{
}

/// What is set under a handle is what that handle then reaches, and a value
/// written in place through the handle's entry is what it reaches afterwards.
pub proof fn lemma_set_then_get<T>(store: Seq<Option<(T, u64)>>, h: GenerationalIndex, v: T, w: T)
    requires
        h.index < usize::MAX,
    ensures
        lookup_in(stored_after_set(store, h, v), h) == Some(v),
        lookup_in(store, h).is_some() ==> lookup_in(
            store.update(h.index as int, Some((w, h.generation))),
            h,
        ) == Some(w),
{
}

} // verus!
