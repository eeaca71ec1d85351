//! The heap: slot arena, root registry, thread contexts, and the
//! allocator/collector orchestrator.

use vstd::prelude::*;

use crate::model::{ObjectModel, SlotModel, VmModel};
use crate::model::{
    all_unmarked, ages_ok, alloc_precollect, alloc_succeeds, alloc_success_model,
    collected_old, collected_young, edge,
    evacuated, evacuated_slot, fresh_object, guarantee_ok, is_root, live_at, marked_at,
    marked_model, marked_slot, old_count, old_indices, reaches, root_handles, slot_like,
    swept_old_slot, swept_young_slot, unmarked_slot, young_at, young_count, young_indices,
};
use crate::reach::{
    lemma_contains_not_last, lemma_counts_le_len, lemma_live_root_reaches,
    lemma_closed_set_covers, lemma_old_indices_take_step, lemma_reaches_step,
    lemma_unmarked_live_count_update, lemma_young_indices_take_step, unmarked_live_count,
};

verus! {

/// A heap object: a mark flag, an age counter, and the outgoing
/// (non-owning) edges as a list of handles.  Edges may be duplicated
/// and may form cycles; they never imply ownership.
pub struct Object {
    pub marked: bool,
    pub age: u8,
    pub references: Vec<usize>,
}

impl View for Object {
    type V = ObjectModel;

    open spec fn view(&self) -> ObjectModel {
        ObjectModel { marked: self.marked, age: self.age, references: self.references@ }
    }
}

impl Object {
    /// A fresh object: unmarked, age zero, no references.
    pub fn new() -> (o: Object)
        ensures
            o@ == crate::model::fresh_object(),
    {
        Object { marked: false, age: 0, references: Vec::new() }
    }

    /// Appends a non-owning edge to `obj`.
    pub fn add_reference(&mut self, obj: usize)
        ensures
            final(self)@ == (ObjectModel { references: old(self)@.references.push(obj), ..old(self)@ }),
    {
        self.references.push(obj);
    }
}

/// One slot of the arena.  A handle is, at any instant, in exactly one
/// of the young generation, the old generation, or reclaimed; a
/// reclaimed slot is a tombstone and its handle is never reused.
pub enum Slot {
    Young(Object),
    Old(Object),
    Reclaimed,
}

impl View for Slot {
    type V = SlotModel;

    open spec fn view(&self) -> SlotModel {
        match self {
            Slot::Young(o) => SlotModel::Young(o@),
            Slot::Old(o) => SlotModel::Old(o@),
            Slot::Reclaimed => SlotModel::Reclaimed,
        }
    }
}

/// A thread's operand stack: its entries are additional roots.
pub struct OperandStack {
    pub stack: Vec<usize>,
}

impl View for OperandStack {
    type V = Seq<usize>;

    open spec fn view(&self) -> Seq<usize> {
        self.stack@
    }
}

impl OperandStack {
    /// An empty operand stack.
    pub fn new() -> (s: OperandStack)
        ensures
            s@ == Seq::<usize>::empty(),
    {
        OperandStack { stack: Vec::new() }
    }

    /// Pushes a handle onto the stack.
    pub fn push(&mut self, obj: usize)
        ensures
            final(self)@ == old(self)@.push(obj),
    {
        self.stack.push(obj);
    }

    /// Pops the top handle, if any.
    pub fn pop(&mut self) -> (r: Option<usize>)
        ensures
            old(self)@.len() == 0 ==> r is None && final(self)@ == old(self)@,
            old(self)@.len() > 0 ==> r == Some(old(self)@.last())
                && final(self)@ == old(self)@.drop_last(),
    {
        self.stack.pop()
    }
}

/// A thread context; the collector reads its operand stack as roots.
/// The collector is stop-the-world: it runs synchronously while it
/// holds the heap exclusively, so the contexts live inside the heap
/// and no lock is needed while a collection is in progress.
pub struct ThreadContext {
    pub operand_stack: OperandStack,
}

impl View for ThreadContext {
    type V = Seq<usize>;

    open spec fn view(&self) -> Seq<usize> {
        self.operand_stack@
    }
}

impl ThreadContext {
    /// A fresh context with an empty operand stack.
    pub fn new() -> (c: ThreadContext)
        ensures
            c@ == Seq::<usize>::empty(),
    {
        ThreadContext { operand_stack: OperandStack::new() }
    }
}

/// The allocation failure: the young generation stayed at or over
/// threshold after a collection and the allocation guarantee had no
/// room either.  It is terminal for the allocation call.
#[derive(Clone, Copy, Debug, PartialEq, Eq, Structural)]
pub struct OutOfMemory;

/// The heap.
pub struct Vm {
    pub objects: Vec<Slot>,
    pub root_set: Vec<usize>,
    pub thread_contexts: Vec<ThreadContext>,
    pub max_young_age: u8,
    pub young_threshold: usize,
    pub old_generation_capacity: usize,
}

impl View for Vm {
    type V = VmModel;

    open spec fn view(&self) -> VmModel {
        VmModel {
            objects: Seq::new(self.objects@.len(), |i: int| self.objects@[i]@),
            root_set: self.root_set@,
            stacks: Seq::new(self.thread_contexts@.len(), |i: int| self.thread_contexts@[i]@),
            max_young_age: self.max_young_age,
            young_threshold: self.young_threshold,
            old_generation_capacity: self.old_generation_capacity,
        }
    }
}

impl Vm {
    /// Between collections every live object is unmarked (the mark
    /// flag is transient), and a young object's age is below the
    /// promotion threshold unless it has not yet survived a
    /// collection, so that aging cannot overflow.
    pub open spec fn wf(self) -> bool {
        &&& all_unmarked(self@.objects)
        &&& ages_ok(self@.objects, self@.max_young_age)
    }

    /// A fresh heap with the given collection parameters and no
    /// objects, roots, or thread contexts.
    pub fn new(max_young_age: u8, young_threshold: usize, old_generation_capacity: usize) -> (vm: Vm)
        ensures
            vm@ == (VmModel {
                objects: Seq::empty(),
                root_set: Seq::empty(),
                stacks: Seq::empty(),
                max_young_age: max_young_age,
                young_threshold: young_threshold,
                old_generation_capacity: old_generation_capacity,
            }),
            vm.wf(),
    {
        let vm = Vm {
            objects: Vec::new(),
            root_set: Vec::new(),
            thread_contexts: Vec::new(),
            max_young_age,
            young_threshold,
            old_generation_capacity,
        };
        proof {
            assert(vm@.objects =~= Seq::<SlotModel>::empty());
            assert(vm@.stacks =~= Seq::<Seq<usize>>::empty());
        }
        vm
    }

    /// Registers a permanently reachable handle.
    pub fn add_to_root_set(&mut self, obj: usize)
        ensures
            final(self)@ == (VmModel { root_set: old(self)@.root_set.push(obj), ..old(self)@ }),
    {
        self.root_set.push(obj);
        proof {
            assert(self@.objects =~= old(self)@.objects);
            assert(self@.stacks =~= old(self)@.stacks);
        }
    }

    /// Creates a new thread context, owned by the heap, and returns
    /// its index; its operand stack starts empty.
    pub fn create_thread_context(&mut self) -> (idx: usize)
        ensures
            idx == old(self)@.stacks.len(),
            final(self)@ == (VmModel {
                stacks: old(self)@.stacks.push(Seq::empty()),
                ..old(self)@
            }),
    {
        let idx = self.thread_contexts.len();
        self.thread_contexts.push(ThreadContext::new());
        proof {
            assert(self@.objects =~= old(self)@.objects);
            assert(self@.stacks =~= old(self)@.stacks.push(Seq::<usize>::empty()));
        }
        idx
    }

    /// Appends the non-owning edge `from -> to` to the object graph.
    /// `from` must be a live handle; `to` may be any handle — the mark
    /// engine follows only live targets, so an edge to a reclaimed or
    /// invalid handle is never traced.
    pub fn add_reference(&mut self, from: usize, to: usize)
        requires
            live_at(old(self)@.objects, from),
        ensures
            final(self)@ == (VmModel {
                objects: old(self)@.objects.update(
                    from as int,
                    crate::model::with_reference(old(self)@.objects[from as int], to),
                ),
                ..old(self)@
            }),
            old(self).wf() ==> final(self).wf(),
    {
        let ghost m0 = self@;
        let mut taken = Slot::Reclaimed;
        core::mem::swap(&mut taken, &mut self.objects[from]);
        proof {
            assert(taken@ == m0.objects[from as int]);
            assert(self@.objects =~= m0.objects.update(from as int, SlotModel::Reclaimed));
        }
        match taken {
            Slot::Young(mut o) => {
                o.add_reference(to);
                self.objects[from] = Slot::Young(o);
            },
            Slot::Old(mut o) => {
                o.add_reference(to);
                self.objects[from] = Slot::Old(o);
            },
            Slot::Reclaimed => {},
        }
        proof {
            assert(self@.objects =~= m0.objects.update(
                from as int,
                crate::model::with_reference(m0.objects[from as int], to),
            ));
            assert(self@ =~= (VmModel {
                objects: m0.objects.update(
                    from as int,
                    crate::model::with_reference(m0.objects[from as int], to),
                ),
                ..m0
            }));
            let cur = self@.objects;
            if old(self).wf() {
                assert forall|x: usize| live_at(cur, x) implies !cur[x as int].obj().marked by {
                    assert(live_at(m0.objects, x));
                }
                assert forall|x: usize| young_at(cur, x) implies cur[x as int].obj().age == 0
                    || cur[x as int].obj().age < self@.max_young_age by {
                    assert(young_at(m0.objects, x));
                }
            }
        }
    }

    /// Whether `obj` is the handle of a live (not reclaimed) object.
    pub fn is_live(&self, obj: usize) -> (r: bool)
        ensures
            r == live_at(self@.objects, obj),
    {
        if obj >= self.objects.len() {
            return false;
        }
        match &self.objects[obj] {
            Slot::Reclaimed => false,
            _ => true,
        }
    }

    /// The mark engine: sets the mark flag of every object reachable
    /// from the root registry and the thread operand stacks, and of
    /// nothing else; generations, ages, references, roots, and
    /// parameters are untouched.  The traversal keeps an explicit
    /// worklist instead of recursing, so it terminates on arbitrary,
    /// possibly cyclic graphs with bounded auxiliary memory; a handle
    /// that is out of bounds or already reclaimed is skipped.
    #[verifier::loop_isolation(false)]
    #[verifier::rlimit(100)]
    pub fn mark(&mut self)
        requires
            all_unmarked(old(self)@.objects),
        ensures
            final(self)@ == marked_model(old(self)@),
    {
        let ghost m0 = self@;
        let ghost s0 = self@.objects;
        let ghost rts = root_handles(m0);

        let slot_count = self.objects.len();
        proof {
            assert(s0.len() == slot_count as int);
        }

        let mut worklist: Vec<usize> = Vec::new();

        // Seed the worklist with the registered roots.
        let mut i: usize = 0;
        while i < self.root_set.len()
            invariant
                i <= self.root_set@.len(),
                worklist@ == self.root_set@.take(i as int),
            decreases self.root_set@.len() - i,
        {
            let r = self.root_set[i];
            worklist.push(r);
            i += 1;
            proof {
                assert(worklist@ =~= self.root_set@.take(i as int));
            }
        }
        proof {
            assert(worklist@ =~= self.root_set@);
        }

        // Seed it with every thread context's operand stack; the heap
        // holds the contexts exclusively (stop-the-world), so each
        // stack is read in a consistent snapshot.
        let mut c: usize = 0;
        while c < self.thread_contexts.len()
            invariant
                c <= self.thread_contexts@.len(),
                forall|h: usize| self.root_set@.contains(h) ==> worklist@.contains(h),
                forall|k: int, j: int|
                    0 <= k < c && 0 <= j < m0.stacks[k].len() ==> worklist@.contains(
                        #[trigger] m0.stacks[k][j],
                    ),
                forall|t: int| 0 <= t < worklist@.len() ==> is_root(m0, #[trigger] worklist@[t]),
            decreases self.thread_contexts@.len() - c,
        {
            let stack_len = self.thread_contexts[c].operand_stack.stack.len();
            proof {
                assert(m0.stacks[c as int] == self.thread_contexts@[c as int]@);
            }
            let mut j: usize = 0;
            while j < stack_len
                invariant
                    j <= stack_len,
                    c < self.thread_contexts@.len(),
                    stack_len == m0.stacks[c as int].len(),
                    forall|h: usize| self.root_set@.contains(h) ==> worklist@.contains(h),
                    forall|k: int, jj: int|
                        0 <= k < c && 0 <= jj < m0.stacks[k].len() ==> worklist@.contains(
                            #[trigger] m0.stacks[k][jj],
                        ),
                    forall|jj: int|
                        0 <= jj < j ==> worklist@.contains(#[trigger] m0.stacks[c as int][jj]),
                    forall|t: int|
                        0 <= t < worklist@.len() ==> is_root(m0, #[trigger] worklist@[t]),
                decreases stack_len - j,
            {
                let ghost wl0 = worklist@;
                let h = self.thread_contexts[c].operand_stack.stack[j];
                worklist.push(h);
                proof {
                    broadcast use vstd::seq_lib::group_seq_properties;

                    assert(h == m0.stacks[c as int][j as int]);
                    assert(m0.stacks[c as int].contains(h));
                    assert(is_root(m0, h));
                    assert forall|t: int|
                        0 <= t < worklist@.len() implies is_root(m0, worklist@[t]) by {
                        if t < wl0.len() {
                            assert(worklist@[t] == wl0[t]);
                        } else {
                            assert(worklist@[t] == h);
                        }
                    }
                }
                j += 1;
            }
            c += 1;
        }

        proof {
            // Every root is on the worklist, and nothing else is.
            assert forall|h: usize|
                rts.contains(h) && live_at(s0, h) implies worklist@.contains(h) by {
                if m0.root_set.contains(h) {
                } else {
                    let k = choose|k: int|
                        0 <= k < m0.stacks.len() && #[trigger] m0.stacks[k].contains(h);
                    let j = choose|j: int| 0 <= j < m0.stacks[k].len() && m0.stacks[k][j] == h;
                    assert(worklist@.contains(m0.stacks[k][j]));
                }
            }
            assert forall|t: int|
                0 <= t < worklist@.len() && live_at(s0, worklist@[t]) implies reaches(
                s0,
                rts,
                worklist@[t],
            ) by {
                assert(rts.contains(worklist@[t]));
                lemma_live_root_reaches(s0, rts, worklist@[t]);
            }
            assert forall|x: int| 0 <= x < s0.len() implies #[trigger] slot_like(
                s0[x],
                self@.objects[x],
            ) by {
                assert(self@.objects[x] == s0[x]);
            }
        }

        // Trace: pop a handle; if it is a live, unmarked object, mark
        // it and queue its references.
        while worklist.len() > 0
            invariant
                self.root_set@ == m0.root_set,
                self@.stacks == m0.stacks,
                self.max_young_age == m0.max_young_age,
                self.young_threshold == m0.young_threshold,
                self.old_generation_capacity == m0.old_generation_capacity,
                self@.objects.len() == s0.len(),
                forall|x: int| 0 <= x < s0.len() ==> #[trigger] slot_like(s0[x], self@.objects[x]),
                forall|x: usize| #[trigger] marked_at(self@.objects, x) ==> reaches(s0, rts, x),
                forall|t: int|
                    0 <= t < worklist@.len() && live_at(s0, #[trigger] worklist@[t]) ==> reaches(
                        s0,
                        rts,
                        worklist@[t],
                    ),
                forall|r: usize|
                    rts.contains(r) && live_at(s0, r) ==> marked_at(self@.objects, r)
                        || worklist@.contains(r),
                forall|a: usize, b: usize|
                    marked_at(self@.objects, a) && #[trigger] edge(s0, a, b) ==> marked_at(
                        self@.objects,
                        b,
                    ) || worklist@.contains(b),
            decreases unmarked_live_count(self@.objects), worklist@.len(),
        {
            let ghost pre_objs = self@.objects;
            let ghost pre_wl = worklist@;
            let h = worklist.pop().unwrap();
            proof {
                assert(h == pre_wl.last());
                assert(pre_wl.contains(h)) by {
                    assert(pre_wl[pre_wl.len() - 1] == h);
                }
            }
            if h < slot_count {
                let mut taken = Slot::Reclaimed;
                core::mem::swap(&mut taken, &mut self.objects[h]);
                proof {
                    assert(taken@ == pre_objs[h as int]);
                    assert(self@.objects =~= pre_objs.update(h as int, SlotModel::Reclaimed));
                }
                let mut is_young = false;
                let mut opt: Option<Object> = None;
                match taken {
                    Slot::Young(o) => {
                        is_young = true;
                        opt = Some(o);
                    },
                    Slot::Old(o) => {
                        opt = Some(o);
                    },
                    Slot::Reclaimed => {},
                }
                if let Some(o) = opt {
                    proof {
                        assert(slot_like(s0[h as int], pre_objs[h as int]));
                        assert(live_at(s0, h));
                        assert(reaches(s0, rts, h));
                        assert(s0[h as int].obj().references == o@.references);
                    }
                    if o.marked {
                        // Already visited: put it back unchanged.
                        let back = if is_young {
                            Slot::Young(o)
                        } else {
                            Slot::Old(o)
                        };
                        self.objects[h] = back;
                        proof {
                            broadcast use vstd::seq_lib::group_seq_properties;

                            assert(self@.objects =~= pre_objs);
                            assert forall|r: usize|
                                rts.contains(r) && live_at(s0, r) implies marked_at(
                                self@.objects,
                                r,
                            ) || worklist@.contains(r) by {
                                if !marked_at(pre_objs, r) && pre_wl.contains(r) && r != h {
                                    lemma_contains_not_last(pre_wl, r);
                                }
                            }
                            assert forall|a: usize, b: usize|
                                marked_at(self@.objects, a) && #[trigger] edge(s0, a, b)
                                implies marked_at(self@.objects, b) || worklist@.contains(b) by {
                                if !marked_at(pre_objs, b) && pre_wl.contains(b) && b != h {
                                    lemma_contains_not_last(pre_wl, b);
                                }
                            }
                        }
                    } else {
                        // First visit: queue the references, then
                        // store the object back with its mark set.
                        let ghost mid_objs = self@.objects;
                        let ghost wl_base = worklist@;
                        let mut j: usize = 0;
                        while j < o.references.len()
                            invariant
                                j <= o.references@.len(),
                                self@.objects == mid_objs,
                                worklist@ == wl_base + o.references@.take(j as int),
                            decreases o.references@.len() - j,
                        {
                            let r = o.references[j];
                            worklist.push(r);
                            j += 1;
                            proof {
                                assert(worklist@ =~= wl_base + o.references@.take(j as int));
                            }
                        }
                        proof {
                            assert(o.references@.take(o.references@.len() as int)
                                =~= o.references@);
                        }
                        let marked_obj = Object {
                            marked: true,
                            age: o.age,
                            references: o.references,
                        };
                        let back = if is_young {
                            Slot::Young(marked_obj)
                        } else {
                            Slot::Old(marked_obj)
                        };
                        self.objects[h] = back;
                        proof {
                            broadcast use vstd::seq_lib::group_seq_properties;

                            let ghost cur = self@.objects;
                            let ghost newslot = if is_young {
                                SlotModel::Young(
                                    ObjectModel {
                                        marked: true,
                                        age: o@.age,
                                        references: o@.references,
                                    },
                                )
                            } else {
                                SlotModel::Old(
                                    ObjectModel {
                                        marked: true,
                                        age: o@.age,
                                        references: o@.references,
                                    },
                                )
                            };
                            assert(cur =~= pre_objs.update(h as int, newslot));
                            assert(marked_at(cur, h));
                            // The frame: only the mark flag of `h` changed.
                            assert forall|x: int|
                                0 <= x < s0.len() implies #[trigger] slot_like(
                                s0[x],
                                cur[x],
                            ) by {
                                if x != h as int {
                                    assert(cur[x] == pre_objs[x]);
                                }
                            }
                            // Soundness: everything marked is reachable.
                            assert forall|x: usize|
                                #[trigger] marked_at(cur, x) implies reaches(s0, rts, x) by {
                                if x != h {
                                    assert(marked_at(pre_objs, x));
                                }
                            }
                            // Worklist soundness: queued references of
                            // `h` are reachable through its edge.
                            assert forall|t: int|
                                0 <= t < worklist@.len() && live_at(
                                    s0,
                                    #[trigger] worklist@[t],
                                ) implies reaches(s0, rts, worklist@[t]) by {
                                if t < wl_base.len() {
                                    assert(worklist@[t] == wl_base[t]);
                                    assert(wl_base[t] == pre_wl[t]);
                                } else {
                                    let r = worklist@[t];
                                    assert(r == o.references@[t - wl_base.len()]);
                                    assert(s0[h as int].obj().references.contains(r));
                                    assert(edge(s0, h, r));
                                    lemma_reaches_step(s0, rts, h, r);
                                }
                            }
                            // Root coverage.
                            assert forall|r: usize|
                                rts.contains(r) && live_at(s0, r) implies marked_at(cur, r)
                                || worklist@.contains(r) by {
                                if r == h {
                                } else if marked_at(pre_objs, r) {
                                    assert(marked_at(cur, r));
                                } else if pre_wl.contains(r) {
                                    lemma_contains_not_last(pre_wl, r);
                                    assert(wl_base.contains(r));
                                }
                            }
                            // Closure: every edge of a marked object
                            // leads to a marked or queued handle.
                            assert forall|a: usize, b: usize|
                                marked_at(cur, a) && #[trigger] edge(s0, a, b) implies marked_at(
                                cur,
                                b,
                            ) || worklist@.contains(b) by {
                                if a == h {
                                    assert(s0[h as int].obj().references.contains(b));
                                    assert(o.references@.contains(b));
                                } else {
                                    assert(marked_at(pre_objs, a));
                                    if !marked_at(pre_objs, b) && pre_wl.contains(b) && b != h {
                                        lemma_contains_not_last(pre_wl, b);
                                        assert(wl_base.contains(b));
                                    }
                                }
                            }
                            // Termination: one fewer unmarked object.
                            lemma_unmarked_live_count_update(
                                pre_objs,
                                h as int,
                                SlotModel::Reclaimed,
                            );
                            assert(mid_objs == pre_objs.update(h as int, SlotModel::Reclaimed));
                            assert(cur =~= mid_objs.update(h as int, newslot));
                            lemma_unmarked_live_count_update(mid_objs, h as int, newslot);
                            assert(!pre_objs[h as int].obj().marked);
                            assert(unmarked_live_count(cur) < unmarked_live_count(pre_objs));
                        }
                    }
                } else {
                    // The slot was already reclaimed; the swap left a
                    // tombstone in place, as before.
                    proof {
                        assert(self@.objects =~= pre_objs);
                        assert forall|r: usize|
                            rts.contains(r) && live_at(s0, r) implies marked_at(self@.objects, r)
                            || worklist@.contains(r) by {
                            if !marked_at(pre_objs, r) && pre_wl.contains(r) {
                                assert(slot_like(s0[r as int], pre_objs[r as int]));
                                assert(r != h);
                                lemma_contains_not_last(pre_wl, r);
                            }
                        }
                        assert forall|a: usize, b: usize|
                            marked_at(self@.objects, a) && #[trigger] edge(s0, a, b)
                            implies marked_at(self@.objects, b) || worklist@.contains(b) by {
                            if !marked_at(pre_objs, b) && pre_wl.contains(b) {
                                assert(live_at(s0, b));
                                assert(slot_like(s0[b as int], pre_objs[b as int]));
                                assert(b != h);
                                lemma_contains_not_last(pre_wl, b);
                            }
                        }
                    }
                }
            } else {
                proof {
                    assert forall|r: usize|
                        rts.contains(r) && live_at(s0, r) implies marked_at(self@.objects, r)
                        || worklist@.contains(r) by {
                        if !marked_at(self@.objects, r) && pre_wl.contains(r) {
                            assert(r != h);
                            lemma_contains_not_last(pre_wl, r);
                        }
                    }
                    assert forall|a: usize, b: usize|
                        marked_at(self@.objects, a) && #[trigger] edge(s0, a, b) implies marked_at(
                        self@.objects,
                        b,
                    ) || worklist@.contains(b) by {
                        if !marked_at(self@.objects, b) && pre_wl.contains(b) {
                            assert(live_at(s0, b));
                            assert(b != h);
                            lemma_contains_not_last(pre_wl, b);
                        }
                    }
                }
            }
        }

        proof {
            let cur = self@.objects;
            let mset = Set::new(|x: usize| marked_at(cur, x));
            assert forall|r: usize|
                rts.contains(r) && live_at(s0, r) implies #[trigger] mset.contains(r) by {}
            assert forall|a: usize, b: usize|
                mset.contains(a) && #[trigger] edge(s0, a, b) implies mset.contains(b) by {}
            assert forall|x: usize| reaches(s0, rts, x) implies marked_at(cur, x) by {
                lemma_closed_set_covers(s0, rts, mset, x);
            }
            assert forall|x: int| 0 <= x < s0.len() implies cur[x] == marked_model(m0).objects[x] by {
                assert(slot_like(s0[x], cur[x]));
                let r = reaches(s0, rts, x as usize);
                if s0[x] is Reclaimed {
                } else {
                    assert(live_at(s0, x as usize));
                    assert(marked_at(cur, x as usize) <==> r);
                    assert(cur[x].obj() =~= ObjectModel {
                        marked: s0[x].obj().marked || r,
                        age: s0[x].obj().age,
                        references: s0[x].obj().references,
                    });
                }
            }
            assert(cur =~= marked_model(m0).objects);
            assert(self@ =~= marked_model(m0));
        }
    }

    /// The young sweep, run right after a mark pass: reclaims every
    /// unmarked young object; unmarks each marked young survivor and
    /// ages it by one, promoting it to the old generation when its new
    /// age reaches the threshold.  Old and reclaimed slots are
    /// untouched.
    #[verifier::loop_isolation(false)]
    pub fn sweep_young(&mut self)
        requires
            ages_ok(old(self)@.objects, old(self)@.max_young_age),
        ensures
            final(self)@ == (VmModel {
                objects: Seq::new(
                    old(self)@.objects.len(),
                    |i: int| swept_young_slot(old(self)@.objects[i], old(self)@.max_young_age),
                ),
                ..old(self)@
            }),
    {
        let ghost m0 = self@;
        let ghost s0 = self@.objects;
        let n = self.objects.len();
        let mut i: usize = 0;
        while i < n
            invariant
                i <= n,
                self@.objects.len() == s0.len(),
                self.root_set@ == m0.root_set,
                self@.stacks == m0.stacks,
                self.max_young_age == m0.max_young_age,
                self.young_threshold == m0.young_threshold,
                self.old_generation_capacity == m0.old_generation_capacity,
                forall|x: int|
                    0 <= x < i ==> self@.objects[x] == swept_young_slot(
                        s0[x],
                        m0.max_young_age,
                    ),
                forall|x: int| i <= x < s0.len() ==> self@.objects[x] == s0[x],
            decreases n - i,
        {
            let ghost pre = self@.objects;
            let mut taken = Slot::Reclaimed;
            core::mem::swap(&mut taken, &mut self.objects[i]);
            proof {
                assert(taken@ == s0[i as int]);
                assert(self@.objects =~= pre.update(i as int, SlotModel::Reclaimed));
            }
            match taken {
                Slot::Young(o) => {
                    if o.marked {
                        proof {
                            assert(young_at(s0, i));
                            assert(o.age < 255);
                        }
                        let new_age = o.age + 1;
                        if new_age >= self.max_young_age {
                            self.objects[i] = Slot::Old(
                                Object { marked: false, age: new_age, references: o.references },
                            );
                        } else {
                            self.objects[i] = Slot::Young(
                                Object { marked: false, age: new_age, references: o.references },
                            );
                        }
                    }
                    // unmarked: the tombstone stays; the object's
                    // storage is released here.
                },
                Slot::Old(o) => {
                    self.objects[i] = Slot::Old(o);
                },
                Slot::Reclaimed => {},
            }
            proof {
                assert(self@.objects =~= pre.update(
                    i as int,
                    swept_young_slot(s0[i as int], m0.max_young_age),
                ));
            }
            i += 1;
        }
        proof {
            assert(self@.objects =~= Seq::new(
                s0.len(),
                |x: int| swept_young_slot(s0[x], m0.max_young_age),
            ));
            assert(self@ =~= (VmModel {
                objects: Seq::new(s0.len(), |x: int| swept_young_slot(s0[x], m0.max_young_age)),
                ..m0
            }));
        }
    }

    /// The old sweep, run right after a mark pass: reclaims every
    /// unmarked old object and unmarks each marked old survivor, with
    /// no aging and no further promotion.  Young and reclaimed slots
    /// are untouched.
    #[verifier::loop_isolation(false)]
    pub fn sweep_old(&mut self)
        ensures
            final(self)@ == (VmModel {
                objects: Seq::new(
                    old(self)@.objects.len(),
                    |i: int| swept_old_slot(old(self)@.objects[i]),
                ),
                ..old(self)@
            }),
    {
        let ghost m0 = self@;
        let ghost s0 = self@.objects;
        let n = self.objects.len();
        let mut i: usize = 0;
        while i < n
            invariant
                i <= n,
                self@.objects.len() == s0.len(),
                self.root_set@ == m0.root_set,
                self@.stacks == m0.stacks,
                self.max_young_age == m0.max_young_age,
                self.young_threshold == m0.young_threshold,
                self.old_generation_capacity == m0.old_generation_capacity,
                forall|x: int| 0 <= x < i ==> self@.objects[x] == swept_old_slot(s0[x]),
                forall|x: int| i <= x < s0.len() ==> self@.objects[x] == s0[x],
            decreases n - i,
        {
            let ghost pre = self@.objects;
            let mut taken = Slot::Reclaimed;
            core::mem::swap(&mut taken, &mut self.objects[i]);
            proof {
                assert(taken@ == s0[i as int]);
                assert(self@.objects =~= pre.update(i as int, SlotModel::Reclaimed));
            }
            match taken {
                Slot::Old(o) => {
                    if o.marked {
                        self.objects[i] = Slot::Old(
                            Object { marked: false, age: o.age, references: o.references },
                        );
                    }
                    // unmarked: the tombstone stays; the object's
                    // storage is released here.
                },
                Slot::Young(o) => {
                    self.objects[i] = Slot::Young(o);
                },
                Slot::Reclaimed => {},
            }
            proof {
                assert(self@.objects =~= pre.update(i as int, swept_old_slot(s0[i as int])));
            }
            i += 1;
        }
        proof {
            assert(self@.objects =~= Seq::new(s0.len(), |x: int| swept_old_slot(s0[x])));
            assert(self@ =~= (VmModel {
                objects: Seq::new(s0.len(), |x: int| swept_old_slot(s0[x])),
                ..m0
            }));
        }
    }

    /// Clears the transient mark flag of every object of one
    /// generation (the one the sweep did not visit), so that the mark
    /// flag is clear heap-wide when a collection returns; membership,
    /// ages, and references are untouched.
    #[verifier::loop_isolation(false)]
    fn clear_marks(&mut self, young: bool)
        ensures
            final(self)@ == (VmModel {
                objects: Seq::new(
                    old(self)@.objects.len(),
                    |i: int| unmarked_slot(old(self)@.objects[i], young),
                ),
                ..old(self)@
            }),
    {
        let ghost m0 = self@;
        let ghost s0 = self@.objects;
        let n = self.objects.len();
        let mut i: usize = 0;
        while i < n
            invariant
                i <= n,
                self@.objects.len() == s0.len(),
                self.root_set@ == m0.root_set,
                self@.stacks == m0.stacks,
                self.max_young_age == m0.max_young_age,
                self.young_threshold == m0.young_threshold,
                self.old_generation_capacity == m0.old_generation_capacity,
                forall|x: int| 0 <= x < i ==> self@.objects[x] == unmarked_slot(s0[x], young),
                forall|x: int| i <= x < s0.len() ==> self@.objects[x] == s0[x],
            decreases n - i,
        {
            let ghost pre = self@.objects;
            let mut taken = Slot::Reclaimed;
            core::mem::swap(&mut taken, &mut self.objects[i]);
            proof {
                assert(taken@ == s0[i as int]);
                assert(self@.objects =~= pre.update(i as int, SlotModel::Reclaimed));
            }
            match taken {
                Slot::Young(o) => {
                    if young {
                        self.objects[i] = Slot::Young(
                            Object { marked: false, age: o.age, references: o.references },
                        );
                    } else {
                        self.objects[i] = Slot::Young(o);
                    }
                },
                Slot::Old(o) => {
                    if young {
                        self.objects[i] = Slot::Old(o);
                    } else {
                        self.objects[i] = Slot::Old(
                            Object { marked: false, age: o.age, references: o.references },
                        );
                    }
                },
                Slot::Reclaimed => {},
            }
            proof {
                assert(self@.objects =~= pre.update(i as int, unmarked_slot(s0[i as int], young)));
            }
            i += 1;
        }
        proof {
            assert(self@.objects =~= Seq::new(s0.len(), |x: int| unmarked_slot(s0[x], young)));
            assert(self@ =~= (VmModel {
                objects: Seq::new(s0.len(), |x: int| unmarked_slot(s0[x], young)),
                ..m0
            }));
        }
    }

    /// A young collection: marks the whole reachable graph from the
    /// full root set, sweeps the young generation, and clears the
    /// transient marks left on old survivors, so that the mark flag is
    /// clear heap-wide when it returns.
    pub fn collect_young(&mut self)
        requires
            old(self).wf(),
        ensures
            final(self)@ == collected_young(old(self)@),
            final(self).wf(),
    {
        let ghost m0 = self@;
        let ghost s0 = self@.objects;
        let ghost rts = root_handles(m0);
        proof {
            vstd::std_specs::vec::axiom_spec_len(&self.objects);
        }
        self.mark();
        let ghost s1 = self@.objects;
        proof {
            assert forall|h: usize| young_at(s1, h) implies s1[h as int].obj().age == 0 || s1[
                h as int
            ].obj().age < self@.max_young_age by {
                assert(s1[h as int] == marked_slot(s0[h as int], reaches(s0, rts, h)));
                assert(young_at(s0, h));
            }
        }
        self.sweep_young();
        let ghost s2 = self@.objects;
        self.clear_marks(false);
        proof {
            let cur = self@.objects;
            let target = collected_young(m0).objects;
            assert forall|x: int| 0 <= x < s0.len() implies cur[x] == target[x] by {
                let r = reaches(s0, rts, x as usize);
                assert(s1[x] == marked_slot(s0[x], r));
                assert(s2[x] == swept_young_slot(s1[x], m0.max_young_age));
                assert(cur[x] == unmarked_slot(s2[x], false));
                if !(s0[x] is Reclaimed) {
                    assert(live_at(s0, x as usize));
                    assert(!s0[x].obj().marked);
                    assert(cur[x] =~= target[x]);
                }
            }
            assert(cur =~= target);
            assert(self@ =~= collected_young(m0));
            assert forall|h: usize| live_at(cur, h) implies !cur[h as int].obj().marked by {
                assert(cur[h as int] == target[h as int]);
            }
            assert forall|h: usize| young_at(cur, h) implies cur[h as int].obj().age == 0 || cur[
                h as int
            ].obj().age < self@.max_young_age by {
                assert(cur[h as int] == target[h as int]);
            }
        }
    }

    /// An old collection: marks the whole reachable graph from the
    /// full root set, sweeps the old generation, and clears the
    /// transient marks left on young survivors, so that the mark flag
    /// is clear heap-wide when it returns.  Young objects do not age.
    pub fn collect_old(&mut self)
        requires
            old(self).wf(),
        ensures
            final(self)@ == collected_old(old(self)@),
            final(self).wf(),
    {
        let ghost m0 = self@;
        let ghost s0 = self@.objects;
        let ghost rts = root_handles(m0);
        proof {
            vstd::std_specs::vec::axiom_spec_len(&self.objects);
        }
        self.mark();
        let ghost s1 = self@.objects;
        self.sweep_old();
        let ghost s2 = self@.objects;
        self.clear_marks(true);
        proof {
            let cur = self@.objects;
            let target = collected_old(m0).objects;
            assert forall|x: int| 0 <= x < s0.len() implies cur[x] == target[x] by {
                let r = reaches(s0, rts, x as usize);
                assert(s1[x] == marked_slot(s0[x], r));
                assert(s2[x] == swept_old_slot(s1[x]));
                assert(cur[x] == unmarked_slot(s2[x], true));
                if !(s0[x] is Reclaimed) {
                    assert(live_at(s0, x as usize));
                    assert(!s0[x].obj().marked);
                    assert(cur[x] =~= target[x]);
                }
            }
            assert(cur =~= target);
            assert(self@ =~= collected_old(m0));
            assert forall|h: usize| live_at(cur, h) implies !cur[h as int].obj().marked by {
                assert(cur[h as int] == target[h as int]);
            }
            assert forall|h: usize| young_at(cur, h) implies cur[h as int].obj().age == 0 || cur[
                h as int
            ].obj().age < self@.max_young_age by {
                assert(cur[h as int] == target[h as int]);
                assert(young_at(s0, h));
            }
        }
    }

    /// The number of objects currently in the young generation.
    #[verifier::loop_isolation(false)]
    pub fn young_len(&self) -> (n: usize)
        ensures
            n as nat == young_count(self@.objects),
    {
        let total = self.objects.len();
        let mut n: usize = 0;
        let mut i: usize = 0;
        while i < total
            invariant
                i <= total,
                n <= i,
                n as nat == young_count(self@.objects.take(i as int)),
            decreases total - i,
        {
            let is_young = match &self.objects[i] {
                Slot::Young(_) => true,
                _ => false,
            };
            proof {
                lemma_young_indices_take_step(self@.objects, i as int);
            }
            if is_young {
                n += 1;
            }
            i += 1;
        }
        proof {
            assert(self@.objects.take(total as int) =~= self@.objects);
        }
        n
    }

    /// The number of objects currently in the old generation.
    #[verifier::loop_isolation(false)]
    pub fn old_len(&self) -> (n: usize)
        ensures
            n as nat == old_count(self@.objects),
    {
        let total = self.objects.len();
        let mut n: usize = 0;
        let mut i: usize = 0;
        while i < total
            invariant
                i <= total,
                n <= i,
                n as nat == old_count(self@.objects.take(i as int)),
            decreases total - i,
        {
            let is_old = match &self.objects[i] {
                Slot::Old(_) => true,
                _ => false,
            };
            proof {
                lemma_old_indices_take_step(self@.objects, i as int);
            }
            if is_old {
                n += 1;
            }
            i += 1;
        }
        proof {
            assert(self@.objects.take(total as int) =~= self@.objects);
        }
        n
    }

    /// The young generation's handles, in increasing order: a
    /// diagnostic snapshot with no side effects.
    #[verifier::loop_isolation(false)]
    pub fn list_young(&self) -> (r: Vec<usize>)
        ensures
            r@ == young_indices(self@.objects),
    {
        let total = self.objects.len();
        let mut r: Vec<usize> = Vec::new();
        let mut i: usize = 0;
        while i < total
            invariant
                i <= total,
                r@ == young_indices(self@.objects.take(i as int)),
            decreases total - i,
        {
            let is_young = match &self.objects[i] {
                Slot::Young(_) => true,
                _ => false,
            };
            proof {
                lemma_young_indices_take_step(self@.objects, i as int);
            }
            if is_young {
                r.push(i);
                proof {
                    assert(r@ =~= young_indices(self@.objects.take(i as int)) + seq![i]);
                }
            }
            i += 1;
            proof {
                assert(r@ =~= young_indices(self@.objects.take(i as int)));
            }
        }
        proof {
            assert(self@.objects.take(total as int) =~= self@.objects);
        }
        r
    }

    /// The old generation's handles, in increasing order: a diagnostic
    /// snapshot with no side effects.
    #[verifier::loop_isolation(false)]
    pub fn list_old(&self) -> (r: Vec<usize>)
        ensures
            r@ == old_indices(self@.objects),
    {
        let total = self.objects.len();
        let mut r: Vec<usize> = Vec::new();
        let mut i: usize = 0;
        while i < total
            invariant
                i <= total,
                r@ == old_indices(self@.objects.take(i as int)),
            decreases total - i,
        {
            let is_old = match &self.objects[i] {
                Slot::Old(_) => true,
                _ => false,
            };
            proof {
                lemma_old_indices_take_step(self@.objects, i as int);
            }
            if is_old {
                r.push(i);
                proof {
                    assert(r@ =~= old_indices(self@.objects.take(i as int)) + seq![i]);
                }
            }
            i += 1;
            proof {
                assert(r@ =~= old_indices(self@.objects.take(i as int)));
            }
        }
        proof {
            assert(self@.objects.take(total as int) =~= self@.objects);
        }
        r
    }

    /// The allocation guarantee: if the old generation can absorb
    /// every current young object, moves them all there (membership
    /// change only) and succeeds; otherwise changes nothing and fails.
    /// Run when a young collection has not brought the young
    /// generation under threshold; its survivors were all just found
    /// live, so they are evacuated wholesale.
    #[verifier::loop_isolation(false)]
    pub fn try_allocation_guarantee(&mut self) -> (ok: bool)
        ensures
            ok == guarantee_ok(old(self)@),
            ok ==> final(self)@ == evacuated(old(self)@),
            !ok ==> final(self)@ == old(self)@,
    {
        let ghost m0 = self@;
        let ghost s0 = self@.objects;
        let young_occupancy = self.young_len();
        let old_occupancy = self.old_len();
        proof {
            lemma_counts_le_len(s0);
            vstd::std_specs::vec::axiom_spec_len(&self.objects);
        }
        if !(old_occupancy + young_occupancy <= self.old_generation_capacity) {
            return false;
        }
        let n = self.objects.len();
        let mut i: usize = 0;
        while i < n
            invariant
                i <= n,
                self@.objects.len() == s0.len(),
                self.root_set@ == m0.root_set,
                self@.stacks == m0.stacks,
                self.max_young_age == m0.max_young_age,
                self.young_threshold == m0.young_threshold,
                self.old_generation_capacity == m0.old_generation_capacity,
                forall|x: int| 0 <= x < i ==> self@.objects[x] == evacuated_slot(s0[x]),
                forall|x: int| i <= x < s0.len() ==> self@.objects[x] == s0[x],
            decreases n - i,
        {
            let ghost pre = self@.objects;
            let mut taken = Slot::Reclaimed;
            core::mem::swap(&mut taken, &mut self.objects[i]);
            proof {
                assert(taken@ == s0[i as int]);
                assert(self@.objects =~= pre.update(i as int, SlotModel::Reclaimed));
            }
            match taken {
                Slot::Young(o) => {
                    self.objects[i] = Slot::Old(o);
                },
                Slot::Old(o) => {
                    self.objects[i] = Slot::Old(o);
                },
                Slot::Reclaimed => {},
            }
            proof {
                assert(self@.objects =~= pre.update(i as int, evacuated_slot(s0[i as int])));
            }
            i += 1;
        }
        proof {
            assert(self@.objects =~= Seq::new(s0.len(), |x: int| evacuated_slot(s0[x])));
            assert(self@ =~= evacuated(m0));
        }
        true
    }

    /// Allocates a new object and returns its handle.  If the young
    /// generation is at or over threshold, a young collection runs
    /// first; if that does not bring it under threshold, the
    /// allocation guarantee is tried, and its failure is the only
    /// error: out of memory, terminal for this call and leaving the
    /// heap as the failed collection left it.  On success the new
    /// object is unmarked, of age zero, without references, and young.
    pub fn new_object(&mut self) -> (r: Result<usize, OutOfMemory>)
        requires
            old(self).wf(),
        ensures
            final(self).wf(),
            r is Ok <==> alloc_succeeds(old(self)@),
            r matches Ok(h) ==> h == old(self)@.objects.len() && final(self)@
                == alloc_success_model(old(self)@),
            r is Err ==> final(self)@ == alloc_precollect(old(self)@),
    {
        let ghost m0 = self@;
        if self.young_len() >= self.young_threshold {
            self.collect_young();
            proof {
                assert(self@ == alloc_precollect(m0));
            }
            if self.young_len() >= self.young_threshold {
                if !self.try_allocation_guarantee() {
                    return Err(OutOfMemory);
                }
                proof {
                    assert forall|h: usize| live_at(self@.objects, h) implies !self@.objects[
                        h as int
                    ].obj().marked by {
                        assert(live_at(alloc_precollect(m0).objects, h));
                    }
                    assert forall|h: usize| young_at(self@.objects, h) implies self@.objects[
                        h as int
                    ].obj().age == 0 || self@.objects[h as int].obj().age < self@.max_young_age by {
                        assert(self@.objects[h as int] == evacuated_slot(
                            alloc_precollect(m0).objects[h as int],
                        ));
                    }
                }
            }
        } else {
            proof {
                assert(self@ == alloc_precollect(m0));
            }
        }
        let h = self.objects.len();
        let ghost m2 = self@;
        self.objects.push(Slot::Young(Object::new()));
        proof {
            assert(self@.objects =~= m2.objects.push(SlotModel::Young(fresh_object())));
            assert(self@ =~= (VmModel {
                objects: m2.objects.push(SlotModel::Young(fresh_object())),
                ..m2
            }));
            assert(self@ =~= alloc_success_model(m0));
            let cur = self@.objects;
            assert forall|x: usize| live_at(cur, x) implies !cur[x as int].obj().marked by {
                if (x as int) < m2.objects.len() {
                    assert(cur[x as int] == m2.objects[x as int]);
                    assert(live_at(m2.objects, x));
                }
            }
            assert forall|x: usize| young_at(cur, x) implies cur[x as int].obj().age == 0 || cur[
                x as int
            ].obj().age < self@.max_young_age by {
                if (x as int) < m2.objects.len() {
                    assert(cur[x as int] == m2.objects[x as int]);
                    assert(young_at(m2.objects, x));
                }
            }
        }
        Ok(h)
    }
}

} // verus!
