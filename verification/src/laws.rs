//! The collector's general guarantees, stated once over the heap
//! model and proved for every heap.  The executable entry points
//! promise, in their contracts, that a collection turns the heap
//! `m` into `collected_young(m)` or `collected_old(m)`, that the
//! allocation guarantee turns it into `evacuated(m)`, and so on; the
//! laws here say what those model functions guarantee.

use vstd::prelude::*;

use crate::model::{SlotModel, VmModel};
use crate::model::{
    ages_ok, collected_old, collected_young, edge,
    evacuated, evacuated_slot, is_path, is_root, live_at, old_at, old_count, old_indices,
    reaches, root_handles, young_at, young_count, young_indices,
};
use crate::reach::{
    lemma_old_indices_contains, lemma_old_indices_take_step, lemma_reaches_weaken,
    lemma_young_indices_contains, lemma_young_indices_take_step,
};

verus! {

/// Mark/sweep reset: immediately after any collection, young or old,
/// every live object's mark flag is clear.  The flag is a transient
/// of the collection that set it.
pub proof fn lemma_collection_clears_marks(m: VmModel, h: usize)
    ensures
        live_at(collected_young(m).objects, h) ==> !collected_young(m).objects[
            h as int
        ].obj().marked,
        live_at(collected_old(m).objects, h) ==> !collected_old(m).objects[h as int].obj().marked,
{
}

/// Reachability correctness, young side: an object of the young
/// generation that is not reachable from the roots is absent from
/// both generations after a young collection.
pub proof fn lemma_young_collection_reclaims_unreachable(m: VmModel, h: usize)
    requires
        young_at(m.objects, h),
        !reaches(m.objects, root_handles(m), h),
    ensures
        !live_at(collected_young(m).objects, h),
{
}

/// Reachability correctness, old side: an object of the old
/// generation that is not reachable from the roots is absent from
/// both generations after an old collection.
pub proof fn lemma_old_collection_reclaims_unreachable(m: VmModel, h: usize)
    requires
        old_at(m.objects, h),
        !reaches(m.objects, root_handles(m), h),
    ensures
        !live_at(collected_old(m).objects, h),
{
}

/// A collection does not create reachability: whatever is reachable
/// after a young collection was reachable before it.  Collections
/// only drop slots and never touch a survivor's references, so every
/// path afterwards already existed.
pub proof fn lemma_young_collection_shrinks_reachability(m: VmModel, h: usize)
    requires
        reaches(collected_young(m).objects, root_handles(collected_young(m)), h),
    ensures
        reaches(m.objects, root_handles(m), h),
{
    let m1 = collected_young(m);
    assert forall|x: usize|
        root_handles(m1).contains(x) <==> root_handles(m).contains(x) by {
        assert(m1.root_set == m.root_set);
        assert(m1.stacks == m.stacks);
    }
    assert(root_handles(m1) =~= root_handles(m));
    assert forall|x: usize| #[trigger] live_at(m1.objects, x) implies live_at(m.objects, x) by {}
    assert forall|a: usize, b: usize| #[trigger] edge(m1.objects, a, b) implies edge(
        m.objects,
        a,
        b,
    ) by {
        assert(m1.objects[a as int].obj().references == m.objects[a as int].obj().references);
    }
    lemma_reaches_weaken(m.objects, m1.objects, root_handles(m), h);
}

/// Reachability correctness, full: a young collection followed by an
/// old collection removes every object that was unreachable at the
/// start from both generation stores.
pub proof fn lemma_full_collection_reclaims_unreachable(m: VmModel, h: usize)
    requires
        !reaches(m.objects, root_handles(m), h),
    ensures
        !live_at(collected_old(collected_young(m)).objects, h),
{
    let m1 = collected_young(m);
    if live_at(collected_old(m1).objects, h) {
        assert(live_at(m1.objects, h));
        assert(live_at(m.objects, h));
        if m.objects[h as int] is Young {
            // a young unreachable object does not survive the young
            // collection
            assert(!live_at(m1.objects, h));
        } else {
            // an old unreachable object survives the young collection
            // but is still unreachable, so the old collection drops it
            assert(old_at(m1.objects, h));
            if reaches(m1.objects, root_handles(m1), h) {
                lemma_young_collection_shrinks_reachability(m, h);
            }
            assert(!live_at(collected_old(m1).objects, h));
        }
    }
}

/// Aging: a young object that survives a young collection ages by
/// exactly one; an old object never ages again, neither in a young
/// collection, nor in an old one, nor when the allocation guarantee
/// evacuates the young generation; and an old collection leaves every
/// young object's age untouched.
pub proof fn lemma_aging_monotonicity(m: VmModel, h: usize)
    requires
        ages_ok(m.objects, m.max_young_age),
    ensures
        young_at(m.objects, h) && reaches(m.objects, root_handles(m), h) ==> live_at(
            collected_young(m).objects,
            h,
        ) && collected_young(m).objects[h as int].obj().age == m.objects[h as int].obj().age + 1,
        young_at(m.objects, h) ==> young_at(collected_old(m).objects, h) && collected_old(
            m,
        ).objects[h as int].obj().age == m.objects[h as int].obj().age,
        old_at(m.objects, h) ==> old_at(collected_young(m).objects, h) && collected_young(
            m,
        ).objects[h as int].obj().age == m.objects[h as int].obj().age,
        old_at(m.objects, h) && reaches(m.objects, root_handles(m), h) ==> old_at(
            collected_old(m).objects,
            h,
        ) && collected_old(m).objects[h as int].obj().age == m.objects[h as int].obj().age,
        live_at(m.objects, h) ==> old_at(evacuated(m).objects, h) && evacuated(m).objects[
            h as int
        ].obj().age == m.objects[h as int].obj().age,
{
    if young_at(m.objects, h) {
        assert(m.objects[h as int].obj().age < 255);
    }
}

/// Generation exclusivity: a handle is never in the young and the old
/// generation at once.  Each slot of the arena carries exactly one
/// membership, so the two stores are disjoint by construction, and the
/// diagnostic enumerations list a handle for a generation exactly when
/// its slot is there.
pub proof fn lemma_generation_exclusivity(m: VmModel, h: usize)
    requires
        m.objects.len() <= usize::MAX,
    ensures
        !(young_at(m.objects, h) && old_at(m.objects, h)),
        young_indices(m.objects).contains(h) <==> young_at(m.objects, h),
        old_indices(m.objects).contains(h) <==> old_at(m.objects, h),
        !(young_indices(m.objects).contains(h) && old_indices(m.objects).contains(h)),
{
    lemma_young_indices_contains(m.objects, h);
    lemma_old_indices_contains(m.objects, h);
}

proof fn lemma_evacuated_counts_prefix(objs: Seq<SlotModel>, e: Seq<SlotModel>, k: int)
    requires
        e.len() == objs.len(),
        forall|i: int| 0 <= i < objs.len() ==> e[i] == evacuated_slot(objs[i]),
        0 <= k <= objs.len(),
    ensures
        young_indices(e.take(k)).len() == 0,
        old_indices(e.take(k)).len() == young_indices(objs.take(k)).len() + old_indices(
            objs.take(k),
        ).len(),
    decreases k,
{
    if k > 0 {
        lemma_evacuated_counts_prefix(objs, e, k - 1);
        lemma_young_indices_take_step(e, k - 1);
        lemma_old_indices_take_step(e, k - 1);
        lemma_young_indices_take_step(objs, k - 1);
        lemma_old_indices_take_step(objs, k - 1);
    }
}

/// Guarantee arithmetic, the shape of a successful evacuation: every
/// young handle moves to the old generation, so the young generation
/// ends empty and the old one holds exactly the sum of both.  That
/// the guarantee succeeds iff `|Old| + |Young|` fits the old
/// capacity, and that a failed guarantee changes nothing, is stated
/// by `Vm::try_allocation_guarantee` itself.
pub proof fn lemma_guarantee_counts(m: VmModel)
    ensures
        young_count(evacuated(m).objects) == 0,
        old_count(evacuated(m).objects) == old_count(m.objects) + young_count(m.objects),
{
    let e = evacuated(m).objects;
    lemma_evacuated_counts_prefix(m.objects, e, m.objects.len() as int);
    assert(e.take(e.len() as int) =~= e);
    assert(m.objects.take(m.objects.len() as int) =~= m.objects);
}

proof fn lemma_rooted_path_avoids_pair(m: VmModel, a: usize, b: usize, p: Seq<usize>)
    requires
        !is_root(m, a),
        !is_root(m, b),
        forall|x: usize, t: usize|
            (t == a || t == b) && #[trigger] edge(m.objects, x, t) ==> x == a || x == b,
        is_path(m.objects, p),
        p.len() > 0,
        root_handles(m).contains(p[0]),
    ensures
        p.last() != a && p.last() != b,
    decreases p.len(),
{
    if p.len() == 1 {
        assert(is_root(m, p[0]));
    } else {
        let q = p.drop_last();
        assert(is_path(m.objects, q));
        lemma_rooted_path_avoids_pair(m, a, b, q);
        let k = p.len() - 2;
        assert(edge(m.objects, p[k], p[k + 1]));
        assert(q.last() == p[k]);
    }
}

/// Cycle safety: a pair of objects that reference only each other and
/// are neither roots nor referenced from anywhere else is unreachable
/// — no path from a root can enter the pair — and, if young, both are
/// reclaimed by one young collection.  The mark traversal itself
/// terminates on any cyclic graph, which `Vm::mark` proves once and
/// for all.
pub proof fn lemma_unrooted_cycle_reclaimed(m: VmModel, a: usize, b: usize)
    requires
        !is_root(m, a),
        !is_root(m, b),
        forall|x: usize, t: usize|
            (t == a || t == b) && #[trigger] edge(m.objects, x, t) ==> x == a || x == b,
    ensures
        !reaches(m.objects, root_handles(m), a),
        !reaches(m.objects, root_handles(m), b),
        young_at(m.objects, a) ==> !live_at(collected_young(m).objects, a),
        young_at(m.objects, b) ==> !live_at(collected_young(m).objects, b),
{
    let rts = root_handles(m);
    if reaches(m.objects, rts, a) {
        let p = choose|p: Seq<usize>|
            #[trigger] is_path(m.objects, p) && p.len() > 0 && rts.contains(p[0]) && p.last() == a;
        lemma_rooted_path_avoids_pair(m, a, b, p);
    }
    if reaches(m.objects, rts, b) {
        let p = choose|p: Seq<usize>|
            #[trigger] is_path(m.objects, p) && p.len() > 0 && rts.contains(p[0]) && p.last() == b;
        lemma_rooted_path_avoids_pair(m, a, b, p);
    }
    if young_at(m.objects, a) {
        lemma_young_collection_reclaims_unreachable(m, a);
    }
    if young_at(m.objects, b) {
        lemma_young_collection_reclaims_unreachable(m, b);
    }
}

} // verus!
