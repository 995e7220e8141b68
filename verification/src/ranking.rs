//! Ordering the voxels of a search by how many cameras see them.
use vstd::prelude::*;
use vstd::set_lib::{lemma_int_range, lemma_subset_equality, set_int_range};

use crate::octree::LeafVoxel;

verus! {

/// `out` is `v` sorted by camera count, ascending, with voxels of equal
/// count in their order in `v`; `idx[i]` is the position in `v` of `out[i]`.
pub open spec fn stably_sorted_by(v: Seq<LeafVoxel>, out: Seq<LeafVoxel>, idx: Seq<int>) -> bool {
    &&& idx.len() == v.len()
    &&& out.len() == v.len()
    &&& forall|i: int| 0 <= i < idx.len() ==> 0 <= #[trigger] idx[i] < v.len()
    &&& forall|i: int| 0 <= i < idx.len() ==> #[trigger] out[i] == v[idx[i]]
    &&& forall|i: int, j: int| 0 <= i < j < idx.len() ==> idx[i] != idx[j]
    &&& forall|i: int, j: int|
        0 <= i < j < out.len() ==> (#[trigger] out[i]).num_cameras <= (#[trigger] out[j]).num_cameras
    &&& forall|i: int, j: int|
        0 <= i < j < out.len() && out[i].num_cameras == out[j].num_cameras ==> #[trigger] idx[i]
            < #[trigger] idx[j]
}

/// Position `a` of `v` comes before position `b` in the stable order: a
/// smaller camera count, or an equal count and an earlier position.
pub open spec fn stable_before(v: Seq<LeafVoxel>, a: int, b: int) -> bool {
    v[a].num_cameras < v[b].num_cameras || (v[a].num_cameras == v[b].num_cameras && a < b)
}

/// The positions of a stable sort are each position of `v` once.
proof fn lemma_index_set(idx: Seq<int>, n: nat)
    requires
        idx.len() == n,
        forall|i: int| 0 <= i < n ==> 0 <= #[trigger] idx[i] < n,
        forall|i: int, j: int| 0 <= i < j < n ==> idx[i] != idx[j],
    ensures
        idx.to_set() == set_int_range(0, n as int),
        idx.no_duplicates(),
{
    broadcast use vstd::seq_lib::group_seq_properties;
    broadcast use vstd::set::group_set_axioms;

    assert(idx.no_duplicates()) by {
        assert forall|i: int, j: int|
            0 <= i < idx.len() && 0 <= j < idx.len() && i != j implies idx[i] != idx[j] by {
            if i > j {
                assert(idx[j] != idx[i]);
            }
        }
    }
    idx.unique_seq_to_set();
    lemma_int_range(0, n as int);
    assert(idx.to_set().subset_of(set_int_range(0, n as int))) by {
        assert forall|x: int| idx.to_set().contains(x) implies set_int_range(0, n as int).contains(x) by {
            assert(idx.contains(x));
            let i = choose|i: int| 0 <= i < idx.len() && idx[i] == x;
        }
    }
    vstd::seq_lib::seq_to_set_is_finite(idx);
    lemma_subset_equality(idx.to_set(), set_int_range(0, n as int));
}

/// Two sequences of distinct positions that hold the same positions and
/// both follow the stable order are equal.
proof fn lemma_stable_order_unique(v: Seq<LeafVoxel>, s: Seq<int>, t: Seq<int>)
    requires
        s.len() == t.len(),
        s.to_set() == t.to_set(),
        s.no_duplicates(),
        t.no_duplicates(),
        forall|i: int, j: int| 0 <= i < j < s.len() ==> stable_before(v, #[trigger] s[i], #[trigger] s[j]),
        forall|i: int, j: int| 0 <= i < j < t.len() ==> stable_before(v, #[trigger] t[i], #[trigger] t[j]),
    ensures
        s == t,
    decreases s.len(),
{
    broadcast use vstd::seq_lib::group_seq_properties;
    broadcast use vstd::set::group_set_axioms;

    if s.len() > 0 {
        let a = s[0];
        let b = t[0];
        assert(t.to_set().contains(b)) by {
            assert(t.contains(b));
        }
        assert(s.contains(b));
        let i = choose|i: int| 0 <= i < s.len() && s[i] == b;
        assert(s.to_set().contains(a)) by {
            assert(s.contains(a));
        }
        assert(t.contains(a));
        let j = choose|j: int| 0 <= j < t.len() && t[j] == a;
        if a != b {
            assert(i > 0 && j > 0);
            assert(stable_before(v, s[0], s[i]));
            assert(stable_before(v, t[0], t[j]));
        }
        let s1 = s.drop_first();
        let t1 = t.drop_first();
        assert(s1.to_set() =~= t1.to_set()) by {
            assert forall|x: int| s1.to_set().contains(x) <==> t1.to_set().contains(x) by {
                if s1.contains(x) {
                    let k = choose|k: int| 0 <= k < s1.len() && s1[k] == x;
                    assert(s[k + 1] == x && x != a);
                    assert(s.contains(x));
                    assert(s.to_set().contains(x));
                    assert(t.to_set().contains(x));
                    assert(t.contains(x));
                    let m = choose|m: int| 0 <= m < t.len() && t[m] == x;
                    assert(m != 0);
                    assert(t1[m - 1] == x);
                    assert(t1.contains(x));
                }
                if t1.contains(x) {
                    let k = choose|k: int| 0 <= k < t1.len() && t1[k] == x;
                    assert(t[k + 1] == x && x != b);
                    assert(t.contains(x));
                    assert(t.to_set().contains(x));
                    assert(s.to_set().contains(x));
                    assert(s.contains(x));
                    let m = choose|m: int| 0 <= m < s.len() && s[m] == x;
                    assert(m != 0);
                    assert(s1[m - 1] == x);
                    assert(s1.contains(x));
                }
            }
        }
        assert forall|p: int, q: int| 0 <= p < q < s1.len() implies stable_before(
            v,
            #[trigger] s1[p],
            #[trigger] s1[q],
        ) by {
            assert(s1[p] == s[p + 1] && s1[q] == s[q + 1]);
        }
        assert forall|p: int, q: int| 0 <= p < q < t1.len() implies stable_before(
            v,
            #[trigger] t1[p],
            #[trigger] t1[q],
        ) by {
            assert(t1[p] == t[p + 1] && t1[q] == t[q + 1]);
        }
        lemma_stable_order_unique(v, s1, t1);
        assert(s =~= t) by {
            assert forall|k: int| 0 <= k < s.len() implies s[k] == t[k] by {
                if k > 0 {
                    assert(s[k] == s1[k - 1] && t[k] == t1[k - 1]);
                }
            }
        }
    }
}

/// A stable sort has one result only: any two sequences that are `v`
/// stably sorted by camera count are equal.
pub proof fn lemma_stable_sort_unique(
    v: Seq<LeafVoxel>,
    out1: Seq<LeafVoxel>,
    idx1: Seq<int>,
    out2: Seq<LeafVoxel>,
    idx2: Seq<int>,
)
    requires
        stably_sorted_by(v, out1, idx1),
        stably_sorted_by(v, out2, idx2),
    ensures
        out1 == out2,
{
    lemma_index_set(idx1, v.len());
    lemma_index_set(idx2, v.len());
    assert forall|i: int, j: int| 0 <= i < j < idx1.len() implies stable_before(
        v,
        #[trigger] idx1[i],
        #[trigger] idx1[j],
    ) by {
        assert(out1[i] == v[idx1[i]] && out1[j] == v[idx1[j]]);
    }
    assert forall|i: int, j: int| 0 <= i < j < idx2.len() implies stable_before(
        v,
        #[trigger] idx2[i],
        #[trigger] idx2[j],
    ) by {
        assert(out2[i] == v[idx2[i]] && out2[j] == v[idx2[j]]);
    }
    lemma_stable_order_unique(v, idx1, idx2);
    assert(out1 =~= out2) by {
        assert forall|k: int| 0 <= k < out1.len() implies out1[k] == out2[k] by {
            assert(out1[k] == v[idx1[k]] && out2[k] == v[idx2[k]]);
        }
    }
}

/// Sorting voxels that are already in ascending camera order changes
/// nothing.
pub proof fn lemma_sort_of_sorted(v: Seq<LeafVoxel>, out: Seq<LeafVoxel>, idx: Seq<int>)
    requires
        forall|i: int, j: int|
            0 <= i < j < v.len() ==> (#[trigger] v[i]).num_cameras <= (#[trigger] v[j]).num_cameras,
        stably_sorted_by(v, out, idx),
    ensures
        out == v,
{
    let id = Seq::new(v.len(), |i: int| i);
    assert(stably_sorted_by(v, v, id));
    lemma_stable_sort_unique(v, out, idx, v, id);
}

/// Reversing a list sorted by ascending camera count and keeping its first
/// items gives the voxels seen by the most cameras, most first.
pub proof fn lemma_strongest_first(v: Seq<LeafVoxel>, m: int)
    requires
        forall|i: int, j: int|
            0 <= i < j < v.len() ==> (#[trigger] v[i]).num_cameras <= (#[trigger] v[j]).num_cameras,
        0 <= m <= v.len(),
    ensures
        forall|i: int, j: int|
            0 <= i < j < m ==> (#[trigger] v.reverse().take(m)[i]).num_cameras >= (
            #[trigger] v.reverse().take(m)[j]).num_cameras,
        forall|i: int, k: int|
            0 <= i < m && 0 <= k < v.len() - m ==> (#[trigger] v.reverse().take(m)[i]).num_cameras
                >= (#[trigger] v[k]).num_cameras,
{
    let r = v.reverse().take(m);
    assert forall|i: int, j: int| 0 <= i < j < m implies (#[trigger] r[i]).num_cameras >= (
    #[trigger] r[j]).num_cameras by {
        assert(r[i] == v[v.len() - 1 - i] && r[j] == v[v.len() - 1 - j]);
    }
    assert forall|i: int, k: int| 0 <= i < m && 0 <= k < v.len() - m implies (
    #[trigger] r[i]).num_cameras >= (#[trigger] v[k]).num_cameras by {
        assert(r[i] == v[v.len() - 1 - i]);
    }
}

/// Sorts voxels by camera count, ascending, keeping voxels of equal count
/// in their order.
pub fn sort_by_cameras(v: &Vec<LeafVoxel>) -> (out: Vec<LeafVoxel>)
    ensures
        exists|idx: Seq<int>| stably_sorted_by(v@, out@, idx),
{
    let mut out: Vec<LeafVoxel> = Vec::new();
    let ghost mut idx: Seq<int> = Seq::empty();
    let mut i: usize = 0;
    while i < v.len()
        invariant
            i <= v.len(),
            stably_sorted_by(v@.take(i as int), out@, idx),
            forall|k: int| 0 <= k < idx.len() ==> #[trigger] idx[k] < i,
        decreases v.len() - i,
    {
        let x = v[i];
        let mut p: usize = 0;
        while p < out.len() && out[p].num_cameras <= x.num_cameras
            invariant
                p <= out.len(),
                forall|k: int| 0 <= k < p ==> (#[trigger] out@[k]).num_cameras <= x.num_cameras,
            decreases out.len() - p,
        {
            p = p + 1;
        }
        let ghost old_out = out@;
        let ghost old_idx = idx;
        out.insert(p, x);
        proof {
            idx = old_idx.insert(p as int, i as int);
            let vt = v@.take(i + 1);
            assert(v@.take(i as int) =~= vt.take(i as int));
            assert forall|k: int| 0 <= k < idx.len() implies #[trigger] out@[k] == vt[idx[k]] by {
                if k < p {
                    assert(out@[k] == old_out[k] && idx[k] == old_idx[k]);
                } else if k > p {
                    assert(out@[k] == old_out[k - 1] && idx[k] == old_idx[k - 1]);
                }
            }
            assert forall|k: int| 0 <= k < idx.len() implies 0 <= #[trigger] idx[k] < vt.len()
                && idx[k] < i + 1 by {
                if k < p {
                    assert(idx[k] == old_idx[k]);
                } else if k > p {
                    assert(idx[k] == old_idx[k - 1]);
                }
            }
            assert forall|a: int, b: int| 0 <= a < b < idx.len() implies idx[a] != idx[b] by {
                if a < p && b < p {
                } else if a < p && b == p {
                    assert(idx[a] == old_idx[a]);
                } else if a < p {
                    assert(idx[a] == old_idx[a] && idx[b] == old_idx[b - 1]);
                } else if a == p {
                    assert(idx[b] == old_idx[b - 1]);
                } else {
                    assert(idx[a] == old_idx[a - 1] && idx[b] == old_idx[b - 1]);
                }
            }
            assert forall|k: int| p < k < out@.len() implies x.num_cameras < (
            #[trigger] out@[k]).num_cameras by {
                assert(out@[k] == old_out[k - 1]);
                assert(old_out[p as int].num_cameras > x.num_cameras);
                if k - 1 > p {
                    assert(old_out[p as int].num_cameras <= old_out[k - 1].num_cameras);
                }
            }
            assert forall|a: int, b: int| 0 <= a < b < out@.len() implies (
            #[trigger] out@[a]).num_cameras <= (#[trigger] out@[b]).num_cameras by {
                if b < p {
                    assert(out@[a] == old_out[a] && out@[b] == old_out[b]);
                } else if b == p {
                    assert(out@[a] == old_out[a]);
                } else if a < p {
                    assert(out@[a] == old_out[a]);
                } else if a > p {
                    assert(out@[a] == old_out[a - 1] && out@[b] == old_out[b - 1]);
                }
            }
            assert forall|a: int, b: int|
                0 <= a < b < out@.len() && out@[a].num_cameras
                    == out@[b].num_cameras implies #[trigger] idx[a] < #[trigger] idx[b] by {
                if b < p {
                    assert(out@[a] == old_out[a] && out@[b] == old_out[b]);
                    assert(idx[a] == old_idx[a] && idx[b] == old_idx[b]);
                } else if b == p {
                    assert(idx[a] == old_idx[a]);
                } else if a < p {
                    assert(out@[a] == old_out[a] && out@[b] == old_out[b - 1]);
                    assert(idx[a] == old_idx[a] && idx[b] == old_idx[b - 1]);
                } else if a == p {
                    assert(out@[b] == old_out[b - 1]);
                } else {
                    assert(out@[a] == old_out[a - 1] && out@[b] == old_out[b - 1]);
                    assert(idx[a] == old_idx[a - 1] && idx[b] == old_idx[b - 1]);
                }
            }
        }
        i = i + 1;
    }
    assert(v@.take(v.len() as int) =~= v@);
    out
}

/// The last `max` items of `v`, last first: `v` reversed, then cut to at
/// most `max` items.
pub fn keep_strongest<T>(v: Vec<T>, max: u32) -> (out: Vec<T>)
    ensures
        out@ == v@.reverse().take(if v@.len() < max { v@.len() as int } else { max as int }),
{
    let ghost orig = v@;
    let limit = max as usize;
    let mut rest = v;
    let mut out: Vec<T> = Vec::new();
    while out.len() < limit && rest.len() > 0
        invariant
            limit == max,
            out@.len() + rest@.len() == orig.len(),
            rest@ == orig.take(rest@.len() as int),
            out@ == orig.reverse().take(out@.len() as int),
            out@.len() <= limit,
        decreases rest@.len(),
    {
        let ghost before = rest@;
        let x = rest.pop().unwrap();
        proof {
            assert(rest@ =~= orig.take(rest@.len() as int));
            assert(orig.reverse()[out@.len() as int] == orig[orig.len() - 1 - out@.len()]);
        }
        out.push(x);
        assert(out@ =~= orig.reverse().take(out@.len() as int));
    }
    out
}

} // verus!
