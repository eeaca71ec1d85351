//! Mathematical model of the heap: what the contracts speak about.
//!
//! Every executable type has a view into these ghost types; the
//! collector's contracts are stated as equations between models.

use vstd::prelude::*;

verus! {

/// Model of a heap object: a mark flag, an age counter, and the
/// outgoing (non-owning) edges, as a sequence of handles.
#[verifier::ext_equal]
pub ghost struct ObjectModel {
    pub marked: bool,
    pub age: u8,
    pub references: Seq<usize>,
}

/// Model of one slot of the arena.  A handle is, at any instant, in
/// exactly one of the young generation, the old generation, or
/// reclaimed; reclaimed is terminal.
#[verifier::ext_equal]
pub ghost enum SlotModel {
    Young(ObjectModel),
    Old(ObjectModel),
    Reclaimed,
}

impl SlotModel {
    /// The slot holds a live (not reclaimed) object.
    pub open spec fn is_live(self) -> bool {
        !(self is Reclaimed)
    }

    /// The object held by a live slot.
    pub open spec fn obj(self) -> ObjectModel
        recommends
            self.is_live(),
    {
        match self {
            SlotModel::Young(o) => o,
            SlotModel::Old(o) => o,
            SlotModel::Reclaimed => arbitrary(),
        }
    }
}

/// Model of the whole heap: the slot arena, the registered roots, one
/// operand stack per thread context, and the collection parameters.
#[verifier::ext_equal]
pub ghost struct VmModel {
    pub objects: Seq<SlotModel>,
    pub root_set: Seq<usize>,
    pub stacks: Seq<Seq<usize>>,
    pub max_young_age: u8,
    pub young_threshold: usize,
    pub old_generation_capacity: usize,
}

/// `h` is a root: registered in the root registry, or present on some
/// thread context's operand stack.
pub open spec fn is_root(m: VmModel, h: usize) -> bool {
    ||| m.root_set.contains(h)
    ||| exists|c: int|
        0 <= c < m.stacks.len() && #[trigger] m.stacks[c].contains(h)
}

/// The set of all root handles of the heap.
pub open spec fn root_handles(m: VmModel) -> Set<usize> {
    Set::new(|h: usize| is_root(m, h))
}

/// `h` is a valid handle of a live object.
pub open spec fn live_at(objs: Seq<SlotModel>, h: usize) -> bool {
    h < objs.len() && objs[h as int].is_live()
}

/// `h` is in the young generation.
pub open spec fn young_at(objs: Seq<SlotModel>, h: usize) -> bool {
    h < objs.len() && objs[h as int] is Young
}

/// `h` is in the old generation.
pub open spec fn old_at(objs: Seq<SlotModel>, h: usize) -> bool {
    h < objs.len() && objs[h as int] is Old
}

/// `h` is live and its mark flag is set.
pub open spec fn marked_at(objs: Seq<SlotModel>, h: usize) -> bool {
    live_at(objs, h) && objs[h as int].obj().marked
}

/// The object graph has an edge from `a` to `b`: both are live and
/// `a` lists `b` among its outgoing references.
pub open spec fn edge(objs: Seq<SlotModel>, a: usize, b: usize) -> bool {
    live_at(objs, a) && live_at(objs, b) && objs[a as int].obj().references.contains(b)
}

/// `p` is a path in the object graph: every node is live and every
/// consecutive pair is an edge.
pub open spec fn is_path(objs: Seq<SlotModel>, p: Seq<usize>) -> bool {
    &&& forall|k: int| 0 <= k < p.len() ==> #[trigger] live_at(objs, p[k])
    &&& forall|k: int| 0 <= k < p.len() - 1 ==> #[trigger] edge(objs, p[k], p[k + 1])
}

/// `h` is reachable: some path leads from a root to `h`.  A live root
/// reaches itself by the one-node path.
pub open spec fn reaches(objs: Seq<SlotModel>, roots: Set<usize>, h: usize) -> bool {
    exists|p: Seq<usize>|
        #[trigger] is_path(objs, p) && p.len() > 0 && roots.contains(p[0]) && p.last() == h
}

/// The handles of the young generation, in increasing order.
pub open spec fn young_indices(objs: Seq<SlotModel>) -> Seq<usize>
    decreases objs.len(),
{
    if objs.len() == 0 {
        Seq::empty()
    } else {
        young_indices(objs.drop_last()) + if objs.last() is Young {
            seq![(objs.len() - 1) as usize]
        } else {
            Seq::empty()
        }
    }
}

/// The handles of the old generation, in increasing order.
pub open spec fn old_indices(objs: Seq<SlotModel>) -> Seq<usize>
    decreases objs.len(),
{
    if objs.len() == 0 {
        Seq::empty()
    } else {
        old_indices(objs.drop_last()) + if objs.last() is Old {
            seq![(objs.len() - 1) as usize]
        } else {
            Seq::empty()
        }
    }
}

/// Occupancy of the young generation.
pub open spec fn young_count(objs: Seq<SlotModel>) -> nat {
    young_indices(objs).len()
}

/// Occupancy of the old generation.
pub open spec fn old_count(objs: Seq<SlotModel>) -> nat {
    old_indices(objs).len()
}

/// No live object carries a mark: the state of the heap whenever no
/// collection is in progress.
pub open spec fn all_unmarked(objs: Seq<SlotModel>) -> bool {
    forall|h: usize| #[trigger] live_at(objs, h) ==> !objs[h as int].obj().marked
}

/// Every young object's age is below the promotion threshold, unless
/// it has not yet survived a collection; aging can therefore not
/// overflow.
pub open spec fn ages_ok(objs: Seq<SlotModel>, max_young_age: u8) -> bool {
    forall|h: usize| #[trigger] young_at(objs, h) ==> objs[h as int].obj().age == 0 || objs[
        h as int
    ].obj().age < max_young_age
}

/// Two slots agree on everything but the mark flag: same generation
/// (or both reclaimed), same age, same references.
pub open spec fn slot_like(a: SlotModel, b: SlotModel) -> bool {
    match (a, b) {
        (SlotModel::Young(x), SlotModel::Young(y)) => x.age == y.age && x.references
            == y.references,
        (SlotModel::Old(x), SlotModel::Old(y)) => x.age == y.age && x.references == y.references,
        (SlotModel::Reclaimed, SlotModel::Reclaimed) => true,
        _ => false,
    }
}

/// What the mark engine does to one slot, given whether its handle is
/// reachable: it sets the mark flag of every reachable object and
/// touches nothing else.
pub open spec fn marked_slot(pre: SlotModel, r: bool) -> SlotModel {
    match pre {
        SlotModel::Young(o) => SlotModel::Young(
            ObjectModel { marked: o.marked || r, age: o.age, references: o.references },
        ),
        SlotModel::Old(o) => SlotModel::Old(
            ObjectModel { marked: o.marked || r, age: o.age, references: o.references },
        ),
        SlotModel::Reclaimed => SlotModel::Reclaimed,
    }
}

/// The heap after the mark engine runs: every live object's mark flag
/// is set exactly when its handle is reachable from the roots (no live
/// object is marked on entry; see `Vm::wf`).
pub open spec fn marked_model(m: VmModel) -> VmModel {
    VmModel {
        objects: Seq::new(
            m.objects.len(),
            |i: int| marked_slot(m.objects[i], reaches(m.objects, root_handles(m), i as usize)),
        ),
        ..m
    }
}

/// What a young sweep does to one slot: an unmarked young object is
/// reclaimed; a marked young survivor is unmarked and ages by one, and
/// is promoted to the old generation when its new age reaches the
/// threshold.  Old and reclaimed slots are untouched.
pub open spec fn swept_young_slot(pre: SlotModel, max_young_age: u8) -> SlotModel {
    match pre {
        SlotModel::Young(o) => {
            if !o.marked {
                SlotModel::Reclaimed
            } else if o.age + 1 >= max_young_age {
                SlotModel::Old(
                    ObjectModel {
                        marked: false,
                        age: (o.age + 1) as u8,
                        references: o.references,
                    },
                )
            } else {
                SlotModel::Young(
                    ObjectModel {
                        marked: false,
                        age: (o.age + 1) as u8,
                        references: o.references,
                    },
                )
            }
        },
        SlotModel::Old(o) => SlotModel::Old(o),
        SlotModel::Reclaimed => SlotModel::Reclaimed,
    }
}

/// What an old sweep does to one slot: an unmarked old object is
/// reclaimed; a marked old survivor is unmarked, with no aging and no
/// further promotion.  Young and reclaimed slots are untouched.
pub open spec fn swept_old_slot(pre: SlotModel) -> SlotModel {
    match pre {
        SlotModel::Young(o) => SlotModel::Young(o),
        SlotModel::Old(o) => {
            if !o.marked {
                SlotModel::Reclaimed
            } else {
                SlotModel::Old(
                    ObjectModel { marked: false, age: o.age, references: o.references },
                )
            }
        },
        SlotModel::Reclaimed => SlotModel::Reclaimed,
    }
}

/// Clearing the transient mark flag of one slot of the given
/// generation, after the other generation has been swept.
pub open spec fn unmarked_slot(pre: SlotModel, clear_young: bool) -> SlotModel {
    match pre {
        SlotModel::Young(o) => {
            if clear_young {
                SlotModel::Young(
                    ObjectModel { marked: false, age: o.age, references: o.references },
                )
            } else {
                SlotModel::Young(o)
            }
        },
        SlotModel::Old(o) => {
            if clear_young {
                SlotModel::Old(o)
            } else {
                SlotModel::Old(
                    ObjectModel { marked: false, age: o.age, references: o.references },
                )
            }
        },
        SlotModel::Reclaimed => SlotModel::Reclaimed,
    }
}

/// A whole young collection, applied to one slot whose handle is
/// reachable iff `r`, starting from an unmarked heap: mark, sweep the
/// young generation, clear the transient marks of the old one.
pub open spec fn collected_young_slot(pre: SlotModel, r: bool, max_young_age: u8) -> SlotModel {
    match pre {
        SlotModel::Young(o) => {
            if !r {
                SlotModel::Reclaimed
            } else if o.age + 1 >= max_young_age {
                SlotModel::Old(
                    ObjectModel {
                        marked: false,
                        age: (o.age + 1) as u8,
                        references: o.references,
                    },
                )
            } else {
                SlotModel::Young(
                    ObjectModel {
                        marked: false,
                        age: (o.age + 1) as u8,
                        references: o.references,
                    },
                )
            }
        },
        SlotModel::Old(o) => SlotModel::Old(
            ObjectModel { marked: false, age: o.age, references: o.references },
        ),
        SlotModel::Reclaimed => SlotModel::Reclaimed,
    }
}

/// A whole old collection, applied to one slot whose handle is
/// reachable iff `r`, starting from an unmarked heap.
pub open spec fn collected_old_slot(pre: SlotModel, r: bool) -> SlotModel {
    match pre {
        SlotModel::Young(o) => SlotModel::Young(
            ObjectModel { marked: false, age: o.age, references: o.references },
        ),
        SlotModel::Old(o) => {
            if !r {
                SlotModel::Reclaimed
            } else {
                SlotModel::Old(
                    ObjectModel { marked: false, age: o.age, references: o.references },
                )
            }
        },
        SlotModel::Reclaimed => SlotModel::Reclaimed,
    }
}

/// The heap after a young collection.
pub open spec fn collected_young(m: VmModel) -> VmModel {
    VmModel {
        objects: Seq::new(
            m.objects.len(),
            |i: int| collected_young_slot(
                m.objects[i],
                reaches(m.objects, root_handles(m), i as usize),
                m.max_young_age,
            ),
        ),
        ..m
    }
}

/// The heap after an old collection.
pub open spec fn collected_old(m: VmModel) -> VmModel {
    VmModel {
        objects: Seq::new(
            m.objects.len(),
            |i: int| collected_old_slot(
                m.objects[i],
                reaches(m.objects, root_handles(m), i as usize),
            ),
        ),
        ..m
    }
}

/// One slot after the allocation guarantee evacuates the young
/// generation: every young object moves to the old generation as it
/// stands; old and reclaimed slots are untouched.
pub open spec fn evacuated_slot(pre: SlotModel) -> SlotModel {
    match pre {
        SlotModel::Young(o) => SlotModel::Old(o),
        SlotModel::Old(o) => SlotModel::Old(o),
        SlotModel::Reclaimed => SlotModel::Reclaimed,
    }
}

/// The allocation guarantee succeeds exactly when the old generation
/// can absorb every current young object.
pub open spec fn guarantee_ok(m: VmModel) -> bool {
    old_count(m.objects) + young_count(m.objects) <= m.old_generation_capacity
}

/// The heap after a successful allocation guarantee.
pub open spec fn evacuated(m: VmModel) -> VmModel {
    VmModel {
        objects: Seq::new(m.objects.len(), |i: int| evacuated_slot(m.objects[i])),
        ..m
    }
}

/// A slot after the edge `-> to` is appended to its object's
/// reference list.
pub open spec fn with_reference(pre: SlotModel, to: usize) -> SlotModel {
    match pre {
        SlotModel::Young(o) => SlotModel::Young(
            ObjectModel { marked: o.marked, age: o.age, references: o.references.push(to) },
        ),
        SlotModel::Old(o) => SlotModel::Old(
            ObjectModel { marked: o.marked, age: o.age, references: o.references.push(to) },
        ),
        SlotModel::Reclaimed => SlotModel::Reclaimed,
    }
}

/// A freshly allocated object: unmarked, age zero, no references.
pub open spec fn fresh_object() -> ObjectModel {
    ObjectModel { marked: false, age: 0, references: Seq::empty() }
}

/// The heap visited by the allocation path before the new object is
/// inserted: a young collection runs iff the young generation is at or
/// over threshold.
pub open spec fn alloc_precollect(m: VmModel) -> VmModel {
    if young_count(m.objects) >= m.young_threshold {
        collected_young(m)
    } else {
        m
    }
}

/// Allocation succeeds unless the young generation is still at or over
/// threshold after collection and the allocation guarantee fails too.
pub open spec fn alloc_succeeds(m: VmModel) -> bool {
    let m1 = alloc_precollect(m);
    young_count(m1.objects) < m.young_threshold || guarantee_ok(m1)
}

/// The heap after a successful allocation: the possible collection,
/// the possible evacuation, then a fresh young object in a fresh slot.
pub open spec fn alloc_success_model(m: VmModel) -> VmModel {
    let m1 = alloc_precollect(m);
    let m2 = if young_count(m1.objects) >= m.young_threshold {
        evacuated(m1)
    } else {
        m1
    };
    VmModel { objects: m2.objects.push(SlotModel::Young(fresh_object())), ..m2 }
}

} // verus!
