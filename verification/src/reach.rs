//! Lemmas about reachability in the object graph, and about the
//! generation occupancy counts.

use vstd::prelude::*;

use crate::model::{SlotModel};
use crate::model::{edge, is_path, live_at, old_indices, reaches, young_indices};

verus! {

/// A live root reaches itself, by the one-node path.
pub proof fn lemma_live_root_reaches(objs: Seq<SlotModel>, roots: Set<usize>, r: usize)
    requires
        live_at(objs, r),
        roots.contains(r),
    ensures
        reaches(objs, roots, r),
{
    let p = seq![r];
    assert(is_path(objs, p));
    assert(p.last() == r);
}

/// Reachability follows edges: a reference of a reachable object is
/// itself reachable.
pub proof fn lemma_reaches_step(objs: Seq<SlotModel>, roots: Set<usize>, a: usize, b: usize)
    requires
        reaches(objs, roots, a),
        edge(objs, a, b),
    ensures
        reaches(objs, roots, b),
{
    let p = choose|p: Seq<usize>|
        #[trigger] is_path(objs, p) && p.len() > 0 && roots.contains(p[0]) && p.last() == a;
    let q = p.push(b);
    assert forall|k: int| 0 <= k < q.len() implies #[trigger] live_at(objs, q[k]) by {
        if k < p.len() {
            assert(q[k] == p[k]);
        } else {
            assert(q[k] == b);
        }
    }
    assert forall|k: int| 0 <= k < q.len() - 1 implies #[trigger] edge(objs, q[k], q[k + 1]) by {
        if k < p.len() - 1 {
            assert(q[k] == p[k] && q[k + 1] == p[k + 1]);
        } else {
            assert(q[k] == p.last() && q[k + 1] == b);
        }
    }
    assert(is_path(objs, q) && q.len() > 0 && roots.contains(q[0]) && q.last() == b);
}

/// Any set of handles that contains every live root and is closed
/// under the edges of the graph contains the last node of every path
/// that starts at a root.
proof fn lemma_closed_set_covers_path(
    objs: Seq<SlotModel>,
    roots: Set<usize>,
    s: Set<usize>,
    p: Seq<usize>,
)
    requires
        forall|r: usize| roots.contains(r) && live_at(objs, r) ==> #[trigger] s.contains(r),
        forall|a: usize, b: usize| s.contains(a) && #[trigger] edge(objs, a, b) ==> s.contains(b),
        is_path(objs, p),
        p.len() > 0,
        roots.contains(p[0]),
    ensures
        s.contains(p.last()),
    decreases p.len(),
{
    if p.len() == 1 {
        assert(live_at(objs, p[0]));
    } else {
        let q = p.drop_last();
        assert(is_path(objs, q));
        lemma_closed_set_covers_path(objs, roots, s, q);
        let k = p.len() - 2;
        assert(edge(objs, p[k], p[k + 1]));
        assert(q.last() == p[k]);
    }
}

/// Any set of handles that contains every live root and is closed
/// under the edges of the graph contains every reachable handle.
pub proof fn lemma_closed_set_covers(
    objs: Seq<SlotModel>,
    roots: Set<usize>,
    s: Set<usize>,
    h: usize,
)
    requires
        forall|r: usize| roots.contains(r) && live_at(objs, r) ==> #[trigger] s.contains(r),
        forall|a: usize, b: usize| s.contains(a) && #[trigger] edge(objs, a, b) ==> s.contains(b),
        reaches(objs, roots, h),
    ensures
        s.contains(h),
{
    let p = choose|p: Seq<usize>|
        #[trigger] is_path(objs, p) && p.len() > 0 && roots.contains(p[0]) && p.last() == h;
    lemma_closed_set_covers_path(objs, roots, s, p);
}

/// Reachability only shrinks when the graph loses slots or edges:
/// every path of the weaker graph is a path of the stronger one.
pub proof fn lemma_reaches_weaken(
    objs1: Seq<SlotModel>,
    objs2: Seq<SlotModel>,
    roots: Set<usize>,
    h: usize,
)
    requires
        forall|x: usize| #[trigger] live_at(objs2, x) ==> live_at(objs1, x),
        forall|a: usize, b: usize| #[trigger] edge(objs2, a, b) ==> edge(objs1, a, b),
        reaches(objs2, roots, h),
    ensures
        reaches(objs1, roots, h),
{
    let p = choose|p: Seq<usize>|
        #[trigger] is_path(objs2, p) && p.len() > 0 && roots.contains(p[0]) && p.last() == h;
    assert forall|k: int| 0 <= k < p.len() implies #[trigger] live_at(objs1, p[k]) by {
        assert(live_at(objs2, p[k]));
    }
    assert forall|k: int| 0 <= k < p.len() - 1 implies #[trigger] edge(objs1, p[k], p[k + 1]) by {
        assert(edge(objs2, p[k], p[k + 1]));
    }
    assert(is_path(objs1, p) && p.len() > 0 && roots.contains(p[0]) && p.last() == h);
}

/// An element of a sequence other than the last one is still there
/// after the last one is dropped.
pub proof fn lemma_contains_not_last<A>(s: Seq<A>, x: A)
    requires
        s.len() > 0,
        s.contains(x),
        x != s.last(),
    ensures
        s.drop_last().contains(x),
{
    let i = choose|i: int| 0 <= i < s.len() && s[i] == x;
    assert(s.drop_last()[i] == x);
}

/// The number of live, unmarked objects; the mark engine's worklist
/// loop terminates because this shrinks whenever a mark is set.
pub open spec fn unmarked_live_count(objs: Seq<SlotModel>) -> nat
    decreases objs.len(),
{
    if objs.len() == 0 {
        0
    } else {
        unmarked_live_count(objs.drop_last()) + if objs.last().is_live()
            && !objs.last().obj().marked {
            1nat
        } else {
            0nat
        }
    }
}

/// How updating one slot changes the live, unmarked count.
pub proof fn lemma_unmarked_live_count_update(s: Seq<SlotModel>, i: int, v: SlotModel)
    requires
        0 <= i < s.len(),
    ensures
        unmarked_live_count(s.update(i, v)) as int == unmarked_live_count(s) as int - (
        if s[i].is_live() && !s[i].obj().marked {
            1int
        } else {
            0int
        }) + (
        if v.is_live() && !v.obj().marked {
            1int
        } else {
            0int
        }),
    decreases s.len(),
{
    let t = s.update(i, v);
    if i == s.len() - 1 {
        assert(t.drop_last() =~= s.drop_last());
        assert(t.last() == v);
    } else {
        assert(t.drop_last() =~= s.drop_last().update(i, v));
        assert(t.last() == s.last());
        lemma_unmarked_live_count_update(s.drop_last(), i, v);
    }
}

/// Extending the prefix by one slot extends the young handle list by
/// that handle exactly when the slot is young.
pub proof fn lemma_young_indices_take_step(s: Seq<SlotModel>, i: int)
    requires
        0 <= i < s.len(),
    ensures
        young_indices(s.take(i + 1)) == young_indices(s.take(i)) + if s[i] is Young {
            seq![i as usize]
        } else {
            Seq::<usize>::empty()
        },
{
    let t = s.take(i + 1);
    assert(t.drop_last() =~= s.take(i));
    assert(t.last() == s[i]);
}

/// Extending the prefix by one slot extends the old handle list by
/// that handle exactly when the slot is old.
pub proof fn lemma_old_indices_take_step(s: Seq<SlotModel>, i: int)
    requires
        0 <= i < s.len(),
    ensures
        old_indices(s.take(i + 1)) == old_indices(s.take(i)) + if s[i] is Old {
            seq![i as usize]
        } else {
            Seq::<usize>::empty()
        },
{
    let t = s.take(i + 1);
    assert(t.drop_last() =~= s.take(i));
    assert(t.last() == s[i]);
}

/// The two generations together never hold more handles than there
/// are slots.
pub proof fn lemma_counts_le_len(s: Seq<SlotModel>)
    ensures
        young_indices(s).len() + old_indices(s).len() <= s.len(),
    decreases s.len(),
{
    if s.len() > 0 {
        lemma_counts_le_len(s.drop_last());
    }
}

/// A handle is listed for the young generation exactly when its slot
/// is young.
pub proof fn lemma_young_indices_contains(s: Seq<SlotModel>, h: usize)
    requires
        s.len() <= usize::MAX,
    ensures
        young_indices(s).contains(h) <==> (h < s.len() && s[h as int] is Young),
    decreases s.len(),
{
    if s.len() > 0 {
        let dl = s.drop_last();
        let a = young_indices(dl);
        lemma_young_indices_contains(dl, h);
        if h < s.len() - 1 {
            assert(dl[h as int] == s[h as int]);
        }
        if s.last() is Young {
            assert(young_indices(s) == a + seq![(s.len() - 1) as usize]);
            if young_indices(s).contains(h) {
                let i = choose|i: int|
                    0 <= i < young_indices(s).len() && young_indices(s)[i] == h;
                if i < a.len() {
                    assert(a[i] == h);
                } else {
                    assert(h == (s.len() - 1) as usize);
                }
            }
            if h < s.len() - 1 && s[h as int] is Young {
                let i = choose|i: int| 0 <= i < a.len() && a[i] == h;
                assert(young_indices(s)[i] == h);
            }
            if h == s.len() - 1 {
                assert(young_indices(s)[a.len() as int] == h);
            }
        } else {
            assert(young_indices(s) =~= a);
        }
    }
}

/// A handle is listed for the old generation exactly when its slot is
/// old.
pub proof fn lemma_old_indices_contains(s: Seq<SlotModel>, h: usize)
    requires
        s.len() <= usize::MAX,
    ensures
        old_indices(s).contains(h) <==> (h < s.len() && s[h as int] is Old),
    decreases s.len(),
{
    if s.len() > 0 {
        let dl = s.drop_last();
        let a = old_indices(dl);
        lemma_old_indices_contains(dl, h);
        if h < s.len() - 1 {
            assert(dl[h as int] == s[h as int]);
        }
        if s.last() is Old {
            assert(old_indices(s) == a + seq![(s.len() - 1) as usize]);
            if old_indices(s).contains(h) {
                let i = choose|i: int| 0 <= i < old_indices(s).len() && old_indices(s)[i] == h;
                if i < a.len() {
                    assert(a[i] == h);
                } else {
                    assert(h == (s.len() - 1) as usize);
                }
            }
            if h < s.len() - 1 && s[h as int] is Old {
                let i = choose|i: int| 0 <= i < a.len() && a[i] == h;
                assert(old_indices(s)[i] == h);
            }
            if h == s.len() - 1 {
                assert(old_indices(s)[a.len() as int] == h);
            }
        } else {
            assert(old_indices(s) =~= a);
        }
    }
}

} // verus!
