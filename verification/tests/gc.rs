use gengc::vm::{Object, OutOfMemory, Slot, Vm};

fn live_object(vm: &Vm, h: usize) -> &Object {
    match &vm.objects[h] {
        Slot::Young(o) => o,
        Slot::Old(o) => o,
        Slot::Reclaimed => panic!("handle {} is reclaimed", h),
    }
}

fn is_reclaimed(vm: &Vm, h: usize) -> bool {
    matches!(&vm.objects[h], Slot::Reclaimed)
}

#[test]
fn fresh_heap_is_empty() {
    let vm = Vm::new(5, 3, 10);
    assert!(vm.list_young().is_empty());
    assert!(vm.list_old().is_empty());
    assert_eq!(vm.young_len(), 0);
    assert_eq!(vm.old_len(), 0);
}

#[test]
fn fresh_object_defaults() {
    let o = Object::new();
    assert!(!o.marked);
    assert_eq!(o.age, 0);
    assert!(o.references.is_empty());
}

#[test]
fn add_reference_appends_and_allows_duplicates() {
    let mut o = Object::new();
    o.add_reference(7);
    o.add_reference(7);
    o.add_reference(2);
    assert_eq!(o.references, vec![7, 7, 2]);
}

#[test]
fn allocation_goes_into_young_in_handle_order() {
    let mut vm = Vm::new(5, 10, 10);
    assert_eq!(vm.new_object(), Ok(0));
    assert_eq!(vm.new_object(), Ok(1));
    assert_eq!(vm.new_object(), Ok(2));
    assert_eq!(vm.list_young(), vec![0, 1, 2]);
    assert!(vm.list_old().is_empty());
    let o = live_object(&vm, 0);
    assert!(!o.marked);
    assert_eq!(o.age, 0);
    assert!(o.references.is_empty());
}

#[test]
fn unreferenced_object_is_reclaimed_by_next_collection() {
    let mut vm = Vm::new(5, 3, 10);
    let e = vm.new_object().unwrap();
    vm.collect_young();
    assert!(!vm.list_young().contains(&e));
    assert!(vm.list_young().is_empty());
    assert!(vm.list_old().is_empty());
    assert!(is_reclaimed(&vm, e));
    assert!(!vm.is_live(e));
}

#[test]
fn rooted_survivors_are_evacuated_then_allocation_proceeds() {
    // max_young_age 5, young_threshold 3, old_capacity 10: a root R
    // with A, B, C attached under it.  C's allocation finds the young
    // generation full of live objects, so the collection reclaims
    // nothing and the guarantee evacuates the three survivors.
    let mut vm = Vm::new(5, 3, 10);
    let r = vm.new_object().unwrap();
    vm.add_to_root_set(r);
    let a = vm.new_object().unwrap();
    vm.add_reference(r, a);
    let b = vm.new_object().unwrap();
    vm.add_reference(r, b);
    assert_eq!(vm.list_young(), vec![r, a, b]);

    let c = vm.new_object().unwrap();
    vm.add_reference(r, c);
    assert_eq!(vm.list_old(), vec![r, a, b]);
    assert_eq!(vm.list_young(), vec![c]);
    // each evacuated object survived exactly one young collection
    for h in [r, a, b] {
        assert_eq!(live_object(&vm, h).age, 1);
    }

    // the next allocation finds room in the young generation
    let e = vm.new_object().unwrap();
    assert_eq!(vm.list_young(), vec![c, e]);
    assert_eq!(vm.list_old(), vec![r, a, b]);
}

#[test]
fn guarantee_succeeds_iff_old_can_absorb_young() {
    // plenty of room: all young handles move, young ends empty
    let mut vm = Vm::new(5, 10, 10);
    let a = vm.new_object().unwrap();
    let b = vm.new_object().unwrap();
    assert!(vm.try_allocation_guarantee());
    assert!(vm.list_young().is_empty());
    assert_eq!(vm.list_old(), vec![a, b]);

    // exactly enough room counts as room
    let mut vm = Vm::new(5, 10, 2);
    vm.new_object().unwrap();
    vm.new_object().unwrap();
    assert!(vm.try_allocation_guarantee());
    assert_eq!(vm.old_len(), 2);
    assert_eq!(vm.young_len(), 0);

    // one slot short: nothing moves
    let mut vm = Vm::new(5, 10, 1);
    let a = vm.new_object().unwrap();
    let b = vm.new_object().unwrap();
    assert!(!vm.try_allocation_guarantee());
    assert_eq!(vm.list_young(), vec![a, b]);
    assert!(vm.list_old().is_empty());
}

#[test]
fn guarantee_counts_occupied_old_slots() {
    let mut vm = Vm::new(5, 10, 3);
    let a = vm.new_object().unwrap();
    let b = vm.new_object().unwrap();
    assert!(vm.try_allocation_guarantee());
    assert_eq!(vm.list_old(), vec![a, b]);
    let c = vm.new_object().unwrap();
    let d = vm.new_object().unwrap();
    // |Old| + |Young| == 4 > 3
    assert!(!vm.try_allocation_guarantee());
    assert_eq!(vm.list_young(), vec![c, d]);
    assert_eq!(vm.list_old(), vec![a, b]);
}

#[test]
fn unrooted_cycle_is_fully_reclaimed() {
    let mut vm = Vm::new(5, 10, 10);
    let a = vm.new_object().unwrap();
    let b = vm.new_object().unwrap();
    vm.add_reference(a, b);
    vm.add_reference(b, a);
    vm.collect_young();
    assert!(is_reclaimed(&vm, a));
    assert!(is_reclaimed(&vm, b));
    assert!(vm.list_young().is_empty());
    assert!(vm.list_old().is_empty());
}

#[test]
fn rooted_cycle_survives() {
    let mut vm = Vm::new(5, 10, 10);
    let a = vm.new_object().unwrap();
    let b = vm.new_object().unwrap();
    vm.add_reference(a, b);
    vm.add_reference(b, a);
    vm.add_to_root_set(a);
    vm.collect_young();
    assert_eq!(vm.list_young(), vec![a, b]);
}

#[test]
fn marks_are_clear_after_every_collection() {
    let mut vm = Vm::new(5, 10, 10);
    let r = vm.new_object().unwrap();
    vm.add_to_root_set(r);
    let a = vm.new_object().unwrap();
    vm.add_reference(r, a);
    vm.add_reference(a, r);
    vm.collect_young();
    for h in vm.list_young() {
        assert!(!live_object(&vm, h).marked);
    }
    assert!(vm.try_allocation_guarantee());
    vm.collect_old();
    for h in vm.list_old() {
        assert!(!live_object(&vm, h).marked);
    }
    assert_eq!(vm.list_old(), vec![r, a]);
}

#[test]
fn survivors_age_by_one_and_promote_at_threshold() {
    let mut vm = Vm::new(2, 10, 10);
    let r = vm.new_object().unwrap();
    vm.add_to_root_set(r);
    assert_eq!(live_object(&vm, r).age, 0);

    vm.collect_young();
    assert_eq!(vm.list_young(), vec![r]);
    assert_eq!(live_object(&vm, r).age, 1);

    // second survival reaches max_young_age == 2: promotion
    vm.collect_young();
    assert!(vm.list_young().is_empty());
    assert_eq!(vm.list_old(), vec![r]);
    assert_eq!(live_object(&vm, r).age, 2);

    // the age is frozen once the object is old
    vm.collect_young();
    vm.collect_old();
    assert_eq!(vm.list_old(), vec![r]);
    assert_eq!(live_object(&vm, r).age, 2);
}

#[test]
fn zero_max_young_age_promotes_on_first_survival() {
    let mut vm = Vm::new(0, 10, 10);
    let r = vm.new_object().unwrap();
    vm.add_to_root_set(r);
    assert!(vm.is_live(r));
    vm.collect_young();
    assert!(vm.list_young().is_empty());
    assert_eq!(vm.list_old(), vec![r]);
    assert_eq!(live_object(&vm, r).age, 1);
}

#[test]
fn old_collection_does_not_age_young_objects() {
    let mut vm = Vm::new(5, 10, 10);
    let r = vm.new_object().unwrap();
    vm.add_to_root_set(r);
    vm.collect_old();
    assert_eq!(vm.list_young(), vec![r]);
    assert_eq!(live_object(&vm, r).age, 0);
}

#[test]
fn no_handle_is_in_both_generations() {
    let mut vm = Vm::new(1, 3, 10);
    let r = vm.new_object().unwrap();
    vm.add_to_root_set(r);
    for _ in 0..6 {
        let h = vm.new_object().unwrap();
        vm.add_reference(r, h);
        let young = vm.list_young();
        let old = vm.list_old();
        for y in &young {
            assert!(!old.contains(y));
        }
    }
}

#[test]
fn operand_stack_entries_are_roots() {
    let mut vm = Vm::new(5, 10, 10);
    let h = vm.new_object().unwrap();
    let ctx = vm.create_thread_context();
    vm.thread_contexts[ctx].operand_stack.push(h);
    vm.collect_young();
    assert_eq!(vm.list_young(), vec![h]);

    // once popped, the object is no longer rooted
    let popped = vm.thread_contexts[ctx].operand_stack.pop();
    assert_eq!(popped, Some(h));
    assert_eq!(vm.thread_contexts[ctx].operand_stack.pop(), None);
    vm.collect_young();
    assert!(vm.list_young().is_empty());
    assert!(is_reclaimed(&vm, h));
}

#[test]
fn every_context_stack_is_enumerated() {
    let mut vm = Vm::new(5, 10, 10);
    let a = vm.new_object().unwrap();
    let b = vm.new_object().unwrap();
    let c = vm.new_object().unwrap();
    let ctx1 = vm.create_thread_context();
    let ctx2 = vm.create_thread_context();
    assert_eq!((ctx1, ctx2), (0, 1));
    vm.thread_contexts[ctx1].operand_stack.push(a);
    vm.thread_contexts[ctx2].operand_stack.push(b);
    vm.collect_young();
    assert_eq!(vm.list_young(), vec![a, b]);
    assert!(is_reclaimed(&vm, c));
}

#[test]
fn duplicate_edges_do_not_disturb_collection() {
    let mut vm = Vm::new(5, 10, 10);
    let r = vm.new_object().unwrap();
    let a = vm.new_object().unwrap();
    vm.add_to_root_set(r);
    vm.add_reference(r, a);
    vm.add_reference(r, a);
    vm.add_reference(a, a);
    vm.collect_young();
    assert_eq!(vm.list_young(), vec![r, a]);
}

#[test]
fn old_collection_reclaims_unreachable_old_objects() {
    let mut vm = Vm::new(5, 10, 10);
    let h = vm.new_object().unwrap();
    let ctx = vm.create_thread_context();
    vm.thread_contexts[ctx].operand_stack.push(h);
    assert!(vm.try_allocation_guarantee());
    assert_eq!(vm.list_old(), vec![h]);

    vm.thread_contexts[ctx].operand_stack.pop();
    vm.collect_old();
    assert!(vm.list_old().is_empty());
    assert!(is_reclaimed(&vm, h));
}

#[test]
fn allocation_fails_with_out_of_memory_when_guarantee_cannot_run() {
    let mut vm = Vm::new(5, 1, 0);
    let r = vm.new_object().unwrap();
    vm.add_to_root_set(r);
    // the collection keeps the rooted survivor, and the old
    // generation has no capacity for the evacuation
    assert_eq!(vm.new_object(), Err(OutOfMemory));
    // the heap is left as the failed collection left it
    assert_eq!(vm.list_young(), vec![r]);
    assert!(vm.list_old().is_empty());
    assert_eq!(live_object(&vm, r).age, 1);
}

#[test]
fn zero_threshold_collects_on_every_allocation() {
    let mut vm = Vm::new(5, 0, 10);
    let a = vm.new_object().unwrap();
    // a is unrooted: the collection at the next allocation drops it
    let b = vm.new_object().unwrap();
    assert!(is_reclaimed(&vm, a));
    assert_eq!(vm.list_young(), vec![b]);
}

#[test]
fn reclaimed_handles_are_not_reused() {
    let mut vm = Vm::new(5, 10, 10);
    let a = vm.new_object().unwrap();
    vm.collect_young();
    assert!(is_reclaimed(&vm, a));
    let b = vm.new_object().unwrap();
    assert_ne!(a, b);
    assert!(is_reclaimed(&vm, a));
}

#[test]
fn chain_reachability_is_transitive() {
    let mut vm = Vm::new(5, 10, 10);
    let a = vm.new_object().unwrap();
    let b = vm.new_object().unwrap();
    let c = vm.new_object().unwrap();
    let d = vm.new_object().unwrap();
    vm.add_to_root_set(a);
    vm.add_reference(a, b);
    vm.add_reference(b, c);
    // d is not part of the chain
    vm.collect_young();
    assert_eq!(vm.list_young(), vec![a, b, c]);
    assert!(is_reclaimed(&vm, d));
}
