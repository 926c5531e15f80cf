use gendex_ecs::{GenerationalIndex, GenerationalIndexAllocator, GenerationalIndexArray};

#[test]
fn genindex_equality_test() {
    let e1 = GenerationalIndex { index: 0, generation: 0 };

    assert!(e1 == GenerationalIndex { index: 0, generation: 0 });
    assert!(e1 != GenerationalIndex { index: 0, generation: 1 });
    assert!(e1 != GenerationalIndex { index: 1, generation: 0 });
}

#[test]
fn genindex_getters_test() {
    let e1 = GenerationalIndex { index: 0, generation: 0 };

    assert_eq!(0, e1.index);
    assert_eq!(0, e1.generation);
}

#[test]
fn allocator_create_entity() {
    let mut a = GenerationalIndexAllocator::new();
    let entity = a.allocate();

    assert_eq!(0, entity.index);
    assert_eq!(0, entity.generation);
}

#[test]
fn allocator_create_two_entities() {
    let mut a = GenerationalIndexAllocator::new();
    let e1 = a.allocate();
    let e2 = a.allocate();

    assert_eq!(0, e1.index);
    assert_eq!(0, e1.generation);
    assert_eq!(1, e2.index);
    assert_eq!(0, e2.generation);
}

#[test]
fn allocator_recreate_entity() {
    let mut a = GenerationalIndexAllocator::new();
    let e1 = a.allocate();

    assert!(a.deallocate(e1) == true);

    let e1 = a.allocate();

    assert_eq!(0, e1.index);
    assert_eq!(1, e1.generation);
}

#[test]
fn allocator_recreate_entity_middle() {
    let mut a = GenerationalIndexAllocator::new();
    let mut e_vec = vec![a.allocate(), a.allocate(), a.allocate()];

    assert!(a.deallocate(e_vec[1]) == true);
    assert!(a.deallocate(e_vec[1]) == false);

    e_vec[1] = a.allocate();

    assert_eq!(1, e_vec[1].index);
    assert_eq!(1, e_vec[1].generation);
}

#[test]
fn reuse_raises_generation_by_one_each_time() {
    let mut a = GenerationalIndexAllocator::new();
    let mut h = a.allocate();
    for g in 0..5u64 {
        assert_eq!(g, h.generation);
        assert!(a.deallocate(h));
        h = a.allocate();
        assert_eq!(0, h.index);
        assert_eq!(g + 1, h.generation);
    }
}

#[test]
fn freed_slots_are_reused_oldest_first() {
    let mut a = GenerationalIndexAllocator::new();
    let hs: Vec<GenerationalIndex> = (0..4).map(|_| a.allocate()).collect();
    assert!(a.deallocate(hs[2]));
    assert!(a.deallocate(hs[0]));
    let r1 = a.allocate();
    let r2 = a.allocate();
    let r3 = a.allocate();
    assert_eq!(GenerationalIndex { index: 2, generation: 1 }, r1);
    assert_eq!(GenerationalIndex { index: 0, generation: 1 }, r2);
    assert_eq!(GenerationalIndex { index: 4, generation: 0 }, r3);
}

#[test]
fn sequential_allocation_from_empty() {
    let mut a = GenerationalIndexAllocator::new();
    for i in 0..100usize {
        let h = a.allocate();
        assert_eq!(GenerationalIndex { index: i, generation: 0 }, h);
    }
    assert_eq!(100, a.allocated_entity_count());
    assert_eq!(100, a.live_entity_count());
}

#[test]
fn double_free_fails_the_second_time() {
    let mut a = GenerationalIndexAllocator::new();
    let h = a.allocate();
    assert!(a.deallocate(h));
    assert!(!a.deallocate(h));
    let h2 = a.allocate();
    assert_eq!(h.index, h2.index);
    assert!(!a.deallocate(h));
    assert!(a.is_live(h2));
    assert!(a.deallocate(h2));
    assert!(!a.deallocate(h2));
}

#[test]
fn deallocate_of_unknown_slot_fails() {
    let mut a = GenerationalIndexAllocator::new();
    let h = GenerationalIndex { index: 3, generation: 0 };
    assert!(!a.deallocate(h));
    assert!(!a.is_live(h));
    assert_eq!(0, a.allocated_entity_count());
}

#[test]
fn deallocate_with_wrong_generation_fails() {
    let mut a = GenerationalIndexAllocator::new();
    let h = a.allocate();
    assert!(!a.deallocate(GenerationalIndex { index: h.index, generation: 7 }));
    assert!(a.is_live(h));
    assert_eq!(1, a.live_entity_count());
}

#[test]
fn is_live_ignores_generation() {
    let mut a = GenerationalIndexAllocator::new();
    let h = a.allocate();
    assert!(a.deallocate(h));
    assert!(!a.is_live(h));
    let h2 = a.allocate();
    assert!(a.is_live(h2));
    assert!(a.is_live(h));
}

#[test]
fn counts_follow_allocation_and_free() {
    let mut a = GenerationalIndexAllocator::new();
    assert_eq!(0, a.live_entity_count());
    assert_eq!(0, a.allocated_entity_count());
    let h0 = a.allocate();
    let h1 = a.allocate();
    let _h2 = a.allocate();
    assert!(a.deallocate(h1));
    assert!(a.deallocate(h0));
    assert_eq!(1, a.live_entity_count());
    assert_eq!(3, a.allocated_entity_count());
    let _ = a.allocate();
    assert_eq!(2, a.live_entity_count());
    assert_eq!(3, a.allocated_entity_count());
}

#[test]
fn next_allocation_fits_on_fresh_allocator() {
    let mut a = GenerationalIndexAllocator::new();
    assert!(a.next_allocation_fits());
    let h = a.allocate();
    assert!(a.deallocate(h));
    assert!(a.next_allocation_fits());
}

#[test]
fn example_scenario_three_handles() {
    let mut a = GenerationalIndexAllocator::new();
    let mut store: GenerationalIndexArray<u32> = GenerationalIndexArray::new();
    let e0 = a.allocate();
    let e1 = a.allocate();
    let e2 = a.allocate();
    assert_eq!(GenerationalIndex { index: 0, generation: 0 }, e0);
    assert_eq!(GenerationalIndex { index: 1, generation: 0 }, e1);
    assert_eq!(GenerationalIndex { index: 2, generation: 0 }, e2);
    store.set(e1, 11);
    assert!(a.deallocate(e1));
    assert!(!a.deallocate(e1));
    let e3 = a.allocate();
    assert_eq!(GenerationalIndex { index: 1, generation: 1 }, e3);
    assert_eq!(None, store.get(e3));
    store.set(e3, 33);
    assert_eq!(None, store.get(e1));
    assert_eq!(Some(&33), store.get(e3));
}

#[test]
fn store_set_then_get() {
    let mut store: GenerationalIndexArray<u64> = GenerationalIndexArray::new();
    let h = GenerationalIndex { index: 0, generation: 0 };
    store.set(h, 5);
    assert_eq!(Some(&5), store.get(h));
    store.set(h, 6);
    assert_eq!(Some(&6), store.get(h));
    assert_eq!(1, store.len());
}

#[test]
fn store_get_mut_write_is_observed() {
    let mut store: GenerationalIndexArray<u64> = GenerationalIndexArray::new();
    let h = GenerationalIndex { index: 2, generation: 4 };
    store.set(h, 1);
    match store.get_mut(h) {
        Some(v) => *v = 9,
        None => panic!("missing value"),
    }
    assert_eq!(Some(&9), store.get(h));
    assert!(store.get_mut(GenerationalIndex { index: 2, generation: 3 }).is_none());
}

#[test]
fn store_set_past_end_pads_with_empty_slots() {
    let mut store: GenerationalIndexArray<char> = GenerationalIndexArray::new();
    assert_eq!(0, store.len());
    let far = GenerationalIndex { index: 3, generation: 0 };
    store.set(far, 'x');
    assert_eq!(4, store.len());
    assert_eq!(Some(&'x'), store.get(far));
    for i in 0..3usize {
        assert_eq!(None, store.get(GenerationalIndex { index: i, generation: 0 }));
    }
    let near = GenerationalIndex { index: 1, generation: 0 };
    store.set(near, 'y');
    assert_eq!(4, store.len());
    assert_eq!(Some(&'y'), store.get(near));
    assert_eq!(Some(&'x'), store.get(far));
}

#[test]
fn store_lookup_out_of_range_or_stale_is_absent() {
    let mut store: GenerationalIndexArray<i32> = GenerationalIndexArray::new();
    assert_eq!(None, store.get(GenerationalIndex { index: 0, generation: 0 }));
    store.set(GenerationalIndex { index: 0, generation: 2 }, -1);
    assert_eq!(None, store.get(GenerationalIndex { index: 0, generation: 1 }));
    assert_eq!(None, store.get(GenerationalIndex { index: 0, generation: 3 }));
    assert_eq!(None, store.get(GenerationalIndex { index: 5, generation: 2 }));
    assert!(store.get_mut(GenerationalIndex { index: 5, generation: 2 }).is_none());
}
