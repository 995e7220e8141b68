//! What the octree search finds.
//!
//! Whether a ray crosses a cube is the caller's geometry; here it is any
//! fixed relation `crosses(cube, ray)`. When every test is answered by that
//! relation, the search keeps for each cube exactly the rays that cross the
//! cube's ancestors, and when it ends it has found exactly the leaf cubes
//! that rays from at least `min_cameras` cameras cross, each of their
//! ancestors too, each with its camera count. Two whole runs with the same
//! inputs and the same geometry find the same voxels in the same order.
use vstd::arithmetic::div_mod::{lemma_div_denominator, lemma_fundamental_div_mod};
use vstd::arithmetic::power2::{lemma_pow2_pos, lemma_pow2_unfold, pow2};
use vstd::prelude::*;

use crate::cameras::camera_set;
use crate::octree::{
    cell_in_root, child_cell, child_offset, children_of, hit_camera_count, hit_rays,
    lemma_child_in_root, lemma_hit_rays_members, lemma_kept_prefix_ok, lemma_pow2_bound,
    lemma_resolve_progress, queue_work, ray_cameras, rays_ok, root_cell, settled, spawned, Cell,
    LeafVoxel, NodeView,
};

verus! {

/// The ancestor of cube `c` at depth `e`, for `e <= c.depth`: its position
/// divided by `2^(c.depth - e)`.
pub open spec fn ancestor(c: Cell, e: nat) -> Cell {
    let k = (c.depth - e) as nat;
    Cell {
        depth: e as u32,
        x: (c.x as int / pow2(k) as int) as u64,
        y: (c.y as int / pow2(k) as int) as u64,
        z: (c.z as int / pow2(k) as int) as u64,
    }
}

/// The rays below `n` that pass `p`, in increasing order.
pub open spec fn rays_where(p: spec_fn(usize) -> bool, n: nat) -> Seq<usize>
    decreases n,
{
    if n == 0 {
        seq![]
    } else {
        let earlier = rays_where(p, (n - 1) as nat);
        if p((n - 1) as usize) {
            earlier.push((n - 1) as usize)
        } else {
            earlier
        }
    }
}

/// Ray `r` crosses every strict ancestor of `c`.
pub open spec fn crosses_above(crosses: spec_fn(Cell, usize) -> bool, c: Cell, r: usize) -> bool {
    forall|e: nat| e < c.depth ==> #[trigger] crosses(ancestor(c, e), r)
}

/// Ray `r` crosses `c` and every ancestor of `c`.
pub open spec fn crosses_down_to(crosses: spec_fn(Cell, usize) -> bool, c: Cell, r: usize) -> bool {
    crosses_above(crosses, c, r) && crosses(c, r)
}

/// The rays, among `n`, that reach cube `c`: they cross all its ancestors.
pub open spec fn reaching(crosses: spec_fn(Cell, usize) -> bool, c: Cell, n: nat) -> Seq<usize> {
    rays_where(|r: usize| crosses_above(crosses, c, r), n)
}

/// The rays, among `n`, that cross cube `c` and all its ancestors.
pub open spec fn crossing(crosses: spec_fn(Cell, usize) -> bool, c: Cell, n: nat) -> Seq<usize> {
    rays_where(|r: usize| crosses_down_to(crosses, c, r), n)
}

/// The number of distinct cameras whose rays cross `c` and all its
/// ancestors.
pub open spec fn cube_count(crosses: spec_fn(Cell, usize) -> bool, c: Cell, cams: Seq<u32>) -> nat {
    camera_set(ray_cameras(crossing(crosses, c, cams.len()), cams)).len()
}

/// Every strict ancestor of `c` is crossed by rays of at least
/// `min_cameras` cameras.
pub open spec fn ancestors_survive(
    crosses: spec_fn(Cell, usize) -> bool,
    c: Cell,
    cams: Seq<u32>,
    min_cameras: u32,
) -> bool {
    forall|e: nat| e < c.depth ==> #[trigger] cube_count(crosses, ancestor(c, e), cams) >= min_cameras
}

/// A leaf cube that the search is to find: at the leaf depth, inside the
/// root, and it and all its ancestors crossed by rays of at least
/// `min_cameras` cameras.
pub open spec fn good_leaf(
    crosses: spec_fn(Cell, usize) -> bool,
    c: Cell,
    cams: Seq<u32>,
    min_cameras: u32,
    leaf_depth: u32,
) -> bool {
    &&& c.depth == leaf_depth
    &&& cell_in_root(c)
    &&& ancestors_survive(crosses, c, cams, min_cameras)
    &&& cube_count(crosses, c, cams) >= min_cameras
}

/// The voxel that stands for leaf cube `c`.
pub open spec fn leaf_of(crosses: spec_fn(Cell, usize) -> bool, c: Cell, cams: Seq<u32>) -> LeafVoxel {
    LeafVoxel { cell: c, num_cameras: cube_count(crosses, c, cams) as usize }
}

/// The answers `crosses` gives for the rays of `node`.
pub open spec fn oracle_hits(crosses: spec_fn(Cell, usize) -> bool, node: NodeView) -> Seq<bool> {
    Seq::new(node.rays.len(), |k: int| crosses(node.cell, node.rays[k]))
}

/// `a` is an ancestor of `c`, or `c` itself.
pub open spec fn is_ancestor(a: Cell, c: Cell) -> bool {
    a.depth <= c.depth && a == ancestor(c, a.depth as nat)
}

/// What a search holds when every test so far was answered by `crosses`:
/// each cube waiting carries exactly the rays that reach it and has
/// surviving ancestors; each voxel found is a good leaf with its camera
/// count; and every good leaf is found or lies below a cube waiting.
pub open spec fn consistent(
    crosses: spec_fn(Cell, usize) -> bool,
    cams: Seq<u32>,
    min_cameras: u32,
    leaf_depth: u32,
    q: Seq<NodeView>,
    found: Seq<LeafVoxel>,
) -> bool {
    &&& forall|i: int|
        0 <= i < q.len() ==> {
            &&& (#[trigger] q[i]).rays == reaching(crosses, q[i].cell, cams.len())
            &&& ancestors_survive(crosses, q[i].cell, cams, min_cameras)
            &&& q[i].cell.depth <= leaf_depth
            &&& cell_in_root(q[i].cell)
        }
    &&& forall|i: int|
        0 <= i < found.len() ==> {
            &&& #[trigger] found[i] == leaf_of(crosses, found[i].cell, cams)
            &&& good_leaf(crosses, found[i].cell, cams, min_cameras, leaf_depth)
        }
    &&& forall|c: Cell|
        #[trigger] good_leaf(crosses, c, cams, min_cameras, leaf_depth) ==> found.contains(
            leaf_of(crosses, c, cams),
        ) || exists|i: int| 0 <= i < q.len() && is_ancestor(#[trigger] q[i].cell, c)
}

/// The rays of `rays_where(p, n)` are those below `n` that pass `p`, each
/// once, increasing.
proof fn lemma_rays_where(p: spec_fn(usize) -> bool, n: nat)
    requires
        n <= usize::MAX,
    ensures
        forall|r: usize| #[trigger] rays_where(p, n).contains(r) <==> r < n && p(r),
        forall|i: int, j: int|
            0 <= i < j < rays_where(p, n).len() ==> rays_where(p, n)[i] < rays_where(p, n)[j],
        forall|i: int| 0 <= i < rays_where(p, n).len() ==> rays_where(p, n)[i] < n,
    decreases n,
{
    if n > 0 {
        lemma_rays_where(p, (n - 1) as nat);
        let earlier = rays_where(p, (n - 1) as nat);
        if p((n - 1) as usize) {
            let now = earlier.push((n - 1) as usize);
            assert forall|r: usize| #[trigger] now.contains(r) <==> r < n && p(r) by {
                if r == n - 1 {
                    assert(now[now.len() - 1] == r);
                } else if now.contains(r) {
                    let i = choose|i: int| 0 <= i < now.len() && now[i] == r;
                    assert(earlier[i] == r);
                    assert(earlier.contains(r));
                } else if r < n && p(r) {
                    assert(earlier.contains(r));
                    let i = choose|i: int| 0 <= i < earlier.len() && earlier[i] == r;
                    assert(now[i] == r);
                }
            }
        } else {
            assert forall|r: usize| #[trigger] earlier.contains(r) <==> r < n && p(r) by {
                if r == n - 1 && earlier.contains(r) {
                    let i = choose|i: int| 0 <= i < earlier.len() && earlier[i] == r;
                }
            }
        }
    }
}

/// Two increasing sequences of rays that hold the same rays are equal.
proof fn lemma_increasing_unique(s: Seq<usize>, t: Seq<usize>)
    requires
        forall|i: int, j: int| 0 <= i < j < s.len() ==> s[i] < s[j],
        forall|i: int, j: int| 0 <= i < j < t.len() ==> t[i] < t[j],
        forall|r: usize| s.contains(r) <==> t.contains(r),
    ensures
        s == t,
    decreases s.len() + t.len(),
{
    if s.len() == 0 || t.len() == 0 {
        if s.len() > 0 {
            assert(s.contains(s[0]));
        }
        if t.len() > 0 {
            assert(t.contains(t[0]));
        }
        assert(s =~= t);
    } else {
        assert(s.contains(s[0]) && t.contains(t[0]));
        let i = choose|i: int| 0 <= i < s.len() && s[i] == t[0];
        let j = choose|j: int| 0 <= j < t.len() && t[j] == s[0];
        if s[0] != t[0] {
            assert(i > 0 && j > 0);
        }
        let s1 = s.drop_first();
        let t1 = t.drop_first();
        assert forall|r: usize| s1.contains(r) <==> t1.contains(r) by {
            if s1.contains(r) {
                let k = choose|k: int| 0 <= k < s1.len() && s1[k] == r;
                assert(s[k + 1] == r && r != s[0]);
                assert(s.contains(r));
                let m = choose|m: int| 0 <= m < t.len() && t[m] == r;
                assert(m > 0);
                assert(t1[m - 1] == r);
            }
            if t1.contains(r) {
                let k = choose|k: int| 0 <= k < t1.len() && t1[k] == r;
                assert(t[k + 1] == r && r != t[0]);
                assert(t.contains(r));
                let m = choose|m: int| 0 <= m < s.len() && s[m] == r;
                assert(m > 0);
                assert(s1[m - 1] == r);
            }
        }
        lemma_increasing_unique(s1, t1);
        assert(s =~= t) by {
            assert forall|k: int| 0 <= k < s.len() implies s[k] == t[k] by {
                if k > 0 {
                    assert(s[k] == s1[k - 1] && t[k] == t1[k - 1]);
                }
            }
        }
    }
}

/// Answering the tests of a cube by `crosses` keeps exactly the rays that
/// cross the cube and all its ancestors.
proof fn lemma_hits_are_crossing(crosses: spec_fn(Cell, usize) -> bool, node: NodeView, n: nat)
    requires
        n <= usize::MAX,
        node.rays == reaching(crosses, node.cell, n),
    ensures
        hit_rays(node.rays, oracle_hits(crosses, node)) == crossing(crosses, node.cell, n),
        rays_ok(crossing(crosses, node.cell, n), n),
{
    let c = node.cell;
    let hits = oracle_hits(crosses, node);
    let pa = |r: usize| crosses_above(crosses, c, r);
    let pd = |r: usize| crosses_down_to(crosses, c, r);
    lemma_rays_where(pa, n);
    lemma_rays_where(pd, n);
    let hit = hit_rays(node.rays, hits);
    lemma_kept_prefix_ok(node.rays, hits, node.rays.len(), n);
    assert forall|r: usize| hit.contains(r) <==> crossing(crosses, c, n).contains(r) by {
        lemma_hit_rays_members(node.rays, hits, r);
        if hit.contains(r) {
            let j = choose|j: int| 0 <= j < node.rays.len() && node.rays[j] == r && hits[j];
            assert(node.rays.contains(r));
        }
        if crossing(crosses, c, n).contains(r) {
            assert(node.rays.contains(r));
            let j = choose|j: int| 0 <= j < node.rays.len() && node.rays[j] == r;
            assert(hits[j]);
        }
    }
    lemma_increasing_unique(hit, crossing(crosses, c, n));
}

/// A cube is its own ancestor at its depth.
proof fn lemma_ancestor_self(c: Cell)
    ensures
        ancestor(c, c.depth as nat) == c,
{
    assert(pow2(0) == 1) by {
        vstd::arithmetic::power2::lemma2_to64();
    }
    let k = (c.depth - c.depth as nat) as nat;
    assert(k == 0);
    assert(c.x as int / pow2(k) as int == c.x);
    assert(c.y as int / pow2(k) as int == c.y);
    assert(c.z as int / pow2(k) as int == c.z);
    assert(ancestor(c, c.depth as nat) =~= c);
}

/// `x` divided by `2^k` is at most `x`.
proof fn lemma_div_pow2_le(x: int, k: nat)
    requires
        x >= 0,
    ensures
        0 <= x / pow2(k) as int <= x,
{
    lemma_pow2_pos(k);
    lemma_fundamental_div_mod(x, pow2(k) as int);
    assert(x / pow2(k) as int >= 0) by {
        vstd::arithmetic::div_mod::lemma_div_pos_is_pos(x, pow2(k) as int);
    }
    assert(x / pow2(k) as int <= x) by {
        vstd::arithmetic::div_mod::lemma_div_is_ordered_by_denominator(x, 1, pow2(k) as int);
    }
}

/// Dividing by `2^a` and then by `2^b` divides by `2^(a + b)`.
proof fn lemma_div_pow2_twice(x: int, a: nat, b: nat)
    requires
        x >= 0,
    ensures
        (x / pow2(a) as int) / pow2(b) as int == x / pow2(a + b) as int,
{
    lemma_pow2_pos(a);
    lemma_pow2_pos(b);
    lemma_div_denominator(x, pow2(a) as int, pow2(b) as int);
    vstd::arithmetic::power2::lemma_pow2_adds(a, b);
}

/// The ancestors of a child, down to its parent's depth, are its parent's.
proof fn lemma_child_ancestors(c: Cell, k: int, e: nat)
    requires
        c.depth < 63,
        cell_in_root(c),
        0 <= k < 8,
        e <= c.depth,
    ensures
        ancestor(child_cell(c, k), e) == ancestor(c, e),
{
    let ch = child_cell(c, k);
    lemma_child_in_root(c, k);
    lemma_pow2_bound(c.depth as nat);
    let off = child_offset(k);
    assert(0 <= off.0 <= 1 && 0 <= off.1 <= 1 && 0 <= off.2 <= 1);
    assert(ch.x == 2 * c.x + off.0);
    assert(ch.y == 2 * c.y + off.1);
    assert(ch.z == 2 * c.z + off.2);
    let m = (c.depth - e) as nat;
    assert((ch.depth - e) as nat == 1 + m);
    lemma_div_pow2_twice(ch.x as int, 1, m);
    lemma_div_pow2_twice(ch.y as int, 1, m);
    lemma_div_pow2_twice(ch.z as int, 1, m);
    assert(pow2(1) == 2) by {
        vstd::arithmetic::power2::lemma2_to64();
    }
    assert(ch.x as int / 2 == c.x as int);
    assert(ch.y as int / 2 == c.y as int);
    assert(ch.z as int / 2 == c.z as int);
    lemma_div_pow2_le(c.x as int, m);
    lemma_div_pow2_le(c.y as int, m);
    lemma_div_pow2_le(c.z as int, m);
}

/// The ancestors of a cube inside the root are inside the root.
proof fn lemma_ancestor_in_root(c: Cell, e: nat)
    requires
        cell_in_root(c),
        e <= c.depth,
    ensures
        cell_in_root(ancestor(c, e)),
        ancestor(c, e).depth == e,
{
    let m = (c.depth - e) as nat;
    vstd::arithmetic::power2::lemma_pow2_adds(m, e);
    assert(m + e == c.depth);
    lemma_pow2_pos(m);
    vstd::arithmetic::div_mod::lemma_multiply_divide_lt(c.x as int, pow2(m) as int, pow2(e) as int);
    vstd::arithmetic::div_mod::lemma_multiply_divide_lt(c.y as int, pow2(m) as int, pow2(e) as int);
    vstd::arithmetic::div_mod::lemma_multiply_divide_lt(c.z as int, pow2(m) as int, pow2(e) as int);
    lemma_div_pow2_le(c.x as int, m);
    lemma_div_pow2_le(c.y as int, m);
    lemma_div_pow2_le(c.z as int, m);
}

/// An ancestor of an ancestor of `c` is an ancestor of `c`.
proof fn lemma_ancestor_of_ancestor(c: Cell, e: nat, f: nat)
    requires
        e <= f <= c.depth,
    ensures
        ancestor(ancestor(c, f), e) == ancestor(c, e),
{
    let a = (c.depth - f) as nat;
    let b = (f - e) as nat;
    lemma_div_pow2_le(c.x as int, a);
    lemma_div_pow2_le(c.y as int, a);
    lemma_div_pow2_le(c.z as int, a);
    lemma_div_pow2_twice(c.x as int, a, b);
    lemma_div_pow2_twice(c.y as int, a, b);
    lemma_div_pow2_twice(c.z as int, a, b);
    assert(a + b == c.depth - e);
}

/// The child number whose offsets are `(bx, by, bz)`.
pub open spec fn child_index(bx: int, by: int, bz: int) -> int {
    if bx == 0 && by == 0 && bz == 0 {
        0
    } else if bx == 1 && by == 0 && bz == 0 {
        1
    } else if bx == 0 && by == 1 && bz == 0 {
        2
    } else if bx == 0 && by == 0 && bz == 1 {
        3
    } else if bx == 1 && by == 1 && bz == 0 {
        4
    } else if bx == 1 && by == 0 && bz == 1 {
        5
    } else if bx == 0 && by == 1 && bz == 1 {
        6
    } else {
        7
    }
}

/// The child of `c`'s ancestor at depth `e` that leads toward `c`.
pub open spec fn toward_index(c: Cell, e: nat) -> int {
    let a = ancestor(c, e + 1);
    child_index(a.x as int % 2, a.y as int % 2, a.z as int % 2)
}

/// One level down from its ancestor at depth `e`, the way to `c` goes
/// through child `toward_index(c, e)`.
proof fn lemma_child_toward(c: Cell, e: nat)
    requires
        cell_in_root(c),
        e < c.depth,
        c.depth <= 63,
    ensures
        0 <= toward_index(c, e) < 8,
        child_cell(ancestor(c, e), toward_index(c, e)) == ancestor(c, e + 1),
{
    let a1 = ancestor(c, e + 1);
    let a0 = ancestor(c, e);
    lemma_ancestor_of_ancestor(c, e, e + 1);
    assert(pow2(1) == 2) by {
        vstd::arithmetic::power2::lemma2_to64();
    }
    assert(ancestor(a1, e) == a0);
    assert((a1.depth - e) as nat == 1);
    assert(a0.x == (a1.x as int / 2) as u64);
    assert(a0.y == (a1.y as int / 2) as u64);
    assert(a0.z == (a1.z as int / 2) as u64);
    lemma_ancestor_in_root(c, e);
    lemma_ancestor_in_root(c, e + 1);
    let k = toward_index(c, e);
    let off = child_offset(k);
    assert(off.0 == a1.x as int % 2 && off.1 == a1.y as int % 2 && off.2 == a1.z as int % 2);
    assert(child_cell(a0, k) =~= a1);
}

/// Sets of rays chosen by tests that agree on every ray are equal.
proof fn lemma_rays_where_ext(p1: spec_fn(usize) -> bool, p2: spec_fn(usize) -> bool, n: nat)
    requires
        n <= usize::MAX,
        forall|r: usize| r < n ==> #[trigger] p1(r) == p2(r),
    ensures
        rays_where(p1, n) == rays_where(p2, n),
    decreases n,
{
    if n > 0 {
        lemma_rays_where_ext(p1, p2, (n - 1) as nat);
    }
}

/// The rays that reach a child of `c` are those that cross `c` and all its
/// ancestors.
proof fn lemma_child_reaching(crosses: spec_fn(Cell, usize) -> bool, c: Cell, k: int, n: nat)
    requires
        c.depth < 63,
        cell_in_root(c),
        0 <= k < 8,
        n <= usize::MAX,
    ensures
        reaching(crosses, child_cell(c, k), n) == crossing(crosses, c, n),
{
    let ch = child_cell(c, k);
    assert forall|e: nat| e <= c.depth implies #[trigger] ancestor(ch, e) == ancestor(c, e) by {
        lemma_child_ancestors(c, k, e);
    }
    lemma_ancestor_self(c);
    assert forall|r: usize| r < n implies crosses_above(crosses, ch, r) == crosses_down_to(
        crosses,
        c,
        r,
    ) by {
        if crosses_above(crosses, ch, r) {
            assert(crosses(ancestor(ch, c.depth as nat), r));
            assert forall|e: nat| e < c.depth implies #[trigger] crosses(ancestor(c, e), r) by {
                assert(crosses(ancestor(ch, e), r));
            }
        }
        if crosses_down_to(crosses, c, r) {
            assert forall|e: nat| e < ch.depth implies #[trigger] crosses(ancestor(ch, e), r) by {
                if e < c.depth {
                    assert(crosses(ancestor(c, e), r));
                }
            }
        }
    }
    lemma_rays_where_ext(
        |r: usize| crosses_above(crosses, ch, r),
        |r: usize| crosses_down_to(crosses, c, r),
        n,
    );
}

/// A child's ancestors survive exactly when its parent's do and the parent
/// itself is seen by enough cameras.
proof fn lemma_child_ancestors_survive(
    crosses: spec_fn(Cell, usize) -> bool,
    c: Cell,
    k: int,
    cams: Seq<u32>,
    min_cameras: u32,
)
    requires
        c.depth < 63,
        cell_in_root(c),
        0 <= k < 8,
        ancestors_survive(crosses, c, cams, min_cameras),
        cube_count(crosses, c, cams) >= min_cameras,
    ensures
        ancestors_survive(crosses, child_cell(c, k), cams, min_cameras),
{
    let ch = child_cell(c, k);
    lemma_ancestor_self(c);
    assert forall|e: nat| e < ch.depth implies #[trigger] cube_count(
        crosses,
        ancestor(ch, e),
        cams,
    ) >= min_cameras by {
        lemma_child_ancestors(c, k, e);
        if e < c.depth {
            assert(cube_count(crosses, ancestor(c, e), cams) >= min_cameras);
        }
    }
}

/// A search starts consistent with any crossing relation.
pub proof fn lemma_search_starts_consistent(
    crosses: spec_fn(Cell, usize) -> bool,
    cams: Seq<u32>,
    min_cameras: u32,
    leaf_depth: u32,
)
    requires
        cams.len() <= usize::MAX,
    ensures
        consistent(
            crosses,
            cams,
            min_cameras,
            leaf_depth,
            seq![NodeView { cell: root_cell(), rays: Seq::new(cams.len(), |i: int| i as usize) }],
            Seq::<LeafVoxel>::empty(),
        ),
{
    let n = cams.len();
    let q = seq![NodeView { cell: root_cell(), rays: Seq::new(n, |i: int| i as usize) }];
    let all = Seq::new(n, |i: int| i as usize);
    let p = |r: usize| crosses_above(crosses, root_cell(), r);
    lemma_rays_where(p, n);
    assert forall|r: usize| all.contains(r) <==> rays_where(p, n).contains(r) by {
        if r < n {
            assert(all[r as int] == r);
        }
    }
    lemma_increasing_unique(all, rays_where(p, n));
    assert(pow2(0) == 1) by {
        vstd::arithmetic::power2::lemma2_to64();
    }
    assert(cell_in_root(root_cell()));
    assert forall|c: Cell|
        #[trigger] good_leaf(crosses, c, cams, min_cameras, leaf_depth) implies exists|i: int|
        0 <= i < q.len() && is_ancestor(#[trigger] q[i].cell, c) by {
        lemma_ancestor_in_root(c, 0);
        assert(ancestor(c, 0) =~= root_cell());
        assert(is_ancestor(q[0].cell, c));
    }
}

/// Testing the next cube with the answers `crosses` gives keeps a search
/// consistent with `crosses`.
pub proof fn lemma_resolve_keeps_consistent(
    crosses: spec_fn(Cell, usize) -> bool,
    cams: Seq<u32>,
    min_cameras: u32,
    leaf_depth: u32,
    q: Seq<NodeView>,
    found: Seq<LeafVoxel>,
)
    requires
        consistent(crosses, cams, min_cameras, leaf_depth, q, found),
        q.len() > 0,
        cams.len() <= usize::MAX,
        leaf_depth <= 63,
    ensures
        consistent(
            crosses,
            cams,
            min_cameras,
            leaf_depth,
            q.drop_first() + spawned(q[0], oracle_hits(crosses, q[0]), cams, min_cameras, leaf_depth),
            found + settled(q[0], oracle_hits(crosses, q[0]), cams, min_cameras, leaf_depth),
        ),
{
    let n = cams.len();
    let node = q[0];
    let c = node.cell;
    let hits = oracle_hits(crosses, node);
    lemma_hits_are_crossing(crosses, node, n);
    assert(hit_camera_count(node, hits, cams) == cube_count(crosses, c, cams));
    let kids = spawned(node, hits, cams, min_cameras, leaf_depth);
    let leaves = settled(node, hits, cams, min_cameras, leaf_depth);
    let q2 = q.drop_first() + kids;
    let f2 = found + leaves;
    assert(q[0] == node);
    assert forall|i: int| 0 <= i < q2.len() implies {
        &&& (#[trigger] q2[i]).rays == reaching(crosses, q2[i].cell, n)
        &&& ancestors_survive(crosses, q2[i].cell, cams, min_cameras)
        &&& q2[i].cell.depth <= leaf_depth
        &&& cell_in_root(q2[i].cell)
    } by {
        if i < q.len() - 1 {
            assert(q2[i] == q[i + 1]);
        } else {
            let k = i - (q.len() - 1);
            assert(q2[i] == kids[k]);
            assert(kids[k] == children_of(c, hit_rays(node.rays, hits))[k]);
            lemma_child_reaching(crosses, c, k, n);
            lemma_child_ancestors_survive(crosses, c, k, cams, min_cameras);
            lemma_child_in_root(c, k);
        }
    }
    assert forall|i: int| 0 <= i < f2.len() implies {
        &&& #[trigger] f2[i] == leaf_of(crosses, f2[i].cell, cams)
        &&& good_leaf(crosses, f2[i].cell, cams, min_cameras, leaf_depth)
    } by {
        if i < found.len() {
            assert(f2[i] == found[i]);
        } else {
            assert(f2[i] == leaves[i - found.len()]);
        }
    }
    assert forall|g: Cell|
        #[trigger] good_leaf(crosses, g, cams, min_cameras, leaf_depth) implies f2.contains(
        leaf_of(crosses, g, cams),
    ) || exists|i: int| 0 <= i < q2.len() && is_ancestor(#[trigger] q2[i].cell, g) by {
        if found.contains(leaf_of(crosses, g, cams)) {
            let j = choose|j: int| 0 <= j < found.len() && found[j] == leaf_of(crosses, g, cams);
            assert(f2[j] == found[j]);
        } else {
            let i = choose|i: int| 0 <= i < q.len() && is_ancestor(#[trigger] q[i].cell, g);
            if i > 0 {
                assert(q2[i - 1] == q[i]);
            } else {
                let a = c;
                let e = a.depth as nat;
                if e == g.depth {
                    lemma_ancestor_self(g);
                    assert(a == g);
                    assert(leaves == seq![leaf_of(crosses, g, cams)]);
                    assert(f2[found.len() as int] == leaf_of(crosses, g, cams));
                } else {
                    assert(cube_count(crosses, ancestor(g, e), cams) >= min_cameras);
                    lemma_child_toward(g, e);
                    let t = toward_index(g, e);
                    let j = q.len() - 1 + t;
                    assert(q2[j] == kids[t]);
                    assert(q2[j].cell == ancestor(g, e + 1));
                    lemma_ancestor_in_root(g, e + 1);
                    assert(is_ancestor(q2[j].cell, g));
                }
            }
        }
    }
}

/// When a search consistent with `crosses` has no cube left to test, it
/// has found exactly the good leaves, each with its camera count.
pub proof fn lemma_finished_search_exact(
    crosses: spec_fn(Cell, usize) -> bool,
    cams: Seq<u32>,
    min_cameras: u32,
    leaf_depth: u32,
    found: Seq<LeafVoxel>,
)
    requires
        consistent(crosses, cams, min_cameras, leaf_depth, Seq::<NodeView>::empty(), found),
    ensures
        forall|i: int|
            0 <= i < found.len() ==> #[trigger] found[i] == leaf_of(crosses, found[i].cell, cams)
                && good_leaf(crosses, found[i].cell, cams, min_cameras, leaf_depth),
        forall|c: Cell|
            #[trigger] good_leaf(crosses, c, cams, min_cameras, leaf_depth) ==> found.contains(
                leaf_of(crosses, c, cams),
            ),
{
}

/// What a search answered by `crosses` ends with, from the cubes `q` still
/// to test and the voxels `found` so far: each test takes the first cube,
/// puts its children at the back and adds its voxel, as `resolve` does.
pub open spec fn search_outcome(
    crosses: spec_fn(Cell, usize) -> bool,
    cams: Seq<u32>,
    min_cameras: u32,
    leaf_depth: u32,
    q: Seq<NodeView>,
    found: Seq<LeafVoxel>,
) -> Seq<LeafVoxel>
    decreases queue_work(q, leaf_depth),
{
    if q.len() == 0 || q[0].cell.depth > leaf_depth {
        found
    } else {
        proof {
            lemma_resolve_progress(q, oracle_hits(crosses, q[0]), cams, min_cameras, leaf_depth);
        }
        search_outcome(
            crosses,
            cams,
            min_cameras,
            leaf_depth,
            q.drop_first() + spawned(q[0], oracle_hits(crosses, q[0]), cams, min_cameras, leaf_depth),
            found + settled(q[0], oracle_hits(crosses, q[0]), cams, min_cameras, leaf_depth),
        )
    }
}

/// The voxels a whole search finds when every test is answered by
/// `crosses`: it starts from the root holding every ray.
pub open spec fn detection_outcome(
    crosses: spec_fn(Cell, usize) -> bool,
    cams: Seq<u32>,
    min_cameras: u32,
    leaf_depth: u32,
) -> Seq<LeafVoxel> {
    search_outcome(
        crosses,
        cams,
        min_cameras,
        leaf_depth,
        start_queue(cams),
        Seq::<LeafVoxel>::empty(),
    )
}

/// A test answered by `crosses` does not change what the search ends with:
/// together with `lemma_outcome_when_done`, every run of `OctreeSearch`
/// whose tests `crosses` answers ends with `detection_outcome` of its
/// inputs, in that order. Equal inputs and equal answers give equal voxels,
/// however the answers were computed.
pub proof fn lemma_outcome_kept_by_test(
    crosses: spec_fn(Cell, usize) -> bool,
    cams: Seq<u32>,
    min_cameras: u32,
    leaf_depth: u32,
    q: Seq<NodeView>,
    found: Seq<LeafVoxel>,
)
    requires
        q.len() > 0,
        q[0].cell.depth <= leaf_depth,
    ensures
        search_outcome(
            crosses,
            cams,
            min_cameras,
            leaf_depth,
            q.drop_first() + spawned(q[0], oracle_hits(crosses, q[0]), cams, min_cameras, leaf_depth),
            found + settled(q[0], oracle_hits(crosses, q[0]), cams, min_cameras, leaf_depth),
        ) == search_outcome(crosses, cams, min_cameras, leaf_depth, q, found),
{
}

/// A search with no cube left ends with what it has found.
pub proof fn lemma_outcome_when_done(
    crosses: spec_fn(Cell, usize) -> bool,
    cams: Seq<u32>,
    min_cameras: u32,
    leaf_depth: u32,
    found: Seq<LeafVoxel>,
)
    ensures
        search_outcome(crosses, cams, min_cameras, leaf_depth, Seq::<NodeView>::empty(), found)
            == found,
{
}

/// The voxels of a whole search are exactly the good leaves with their
/// camera counts: the outcome holds each good leaf, and each of its voxels
/// is one of them.
pub proof fn lemma_detection_outcome_exact(
    crosses: spec_fn(Cell, usize) -> bool,
    cams: Seq<u32>,
    min_cameras: u32,
    leaf_depth: u32,
)
    requires
        cams.len() <= usize::MAX,
        leaf_depth <= 63,
    ensures
        forall|i: int|
            0 <= i < detection_outcome(crosses, cams, min_cameras, leaf_depth).len() ==> {
                let v = #[trigger] detection_outcome(crosses, cams, min_cameras, leaf_depth)[i];
                v == leaf_of(crosses, v.cell, cams) && good_leaf(
                    crosses,
                    v.cell,
                    cams,
                    min_cameras,
                    leaf_depth,
                )
            },
        forall|c: Cell|
            #[trigger] good_leaf(crosses, c, cams, min_cameras, leaf_depth) ==> detection_outcome(
                crosses,
                cams,
                min_cameras,
                leaf_depth,
            ).contains(leaf_of(crosses, c, cams)),
{
    let q0 = start_queue(cams);
    lemma_search_starts_consistent(crosses, cams, min_cameras, leaf_depth);
    lemma_outcome_consistent(crosses, cams, min_cameras, leaf_depth, q0, Seq::<LeafVoxel>::empty());
}

/// A consistent search ends consistent and finished.
proof fn lemma_outcome_consistent(
    crosses: spec_fn(Cell, usize) -> bool,
    cams: Seq<u32>,
    min_cameras: u32,
    leaf_depth: u32,
    q: Seq<NodeView>,
    found: Seq<LeafVoxel>,
)
    requires
        consistent(crosses, cams, min_cameras, leaf_depth, q, found),
        cams.len() <= usize::MAX,
        leaf_depth <= 63,
    ensures
        consistent(
            crosses,
            cams,
            min_cameras,
            leaf_depth,
            Seq::<NodeView>::empty(),
            search_outcome(crosses, cams, min_cameras, leaf_depth, q, found),
        ),
    decreases queue_work(q, leaf_depth),
{
    if q.len() == 0 {
        assert(q =~= Seq::<NodeView>::empty());
    } else {
        assert(q[0].cell.depth <= leaf_depth);
        let hits = oracle_hits(crosses, q[0]);
        lemma_resolve_progress(q, hits, cams, min_cameras, leaf_depth);
        lemma_resolve_keeps_consistent(crosses, cams, min_cameras, leaf_depth, q, found);
        lemma_outcome_consistent(
            crosses,
            cams,
            min_cameras,
            leaf_depth,
            q.drop_first() + spawned(q[0], hits, cams, min_cameras, leaf_depth),
            found + settled(q[0], hits, cams, min_cameras, leaf_depth),
        );
    }
}

/// No cube waiting lies above or at another cube waiting or a voxel found,
/// and no two voxels found are the same cube.
pub open spec fn separate(q: Seq<NodeView>, found: Seq<LeafVoxel>) -> bool {
    &&& forall|i: int, j: int|
        0 <= i < found.len() && 0 <= j < found.len() && i != j ==> #[trigger] found[i].cell
            != #[trigger] found[j].cell
    &&& forall|i: int, j: int|
        0 <= i < q.len() && 0 <= j < q.len() && i != j ==> !is_ancestor(
            #[trigger] q[i].cell,
            #[trigger] q[j].cell,
        )
    &&& forall|i: int, j: int|
        0 <= i < q.len() && 0 <= j < found.len() ==> !is_ancestor(
            #[trigger] q[i].cell,
            #[trigger] found[j].cell,
        )
}

/// Two distinct children of a cube are different cubes.
proof fn lemma_children_differ(c: Cell, k: int, m: int)
    requires
        0 <= k < 8,
        0 <= m < 8,
        k != m,
        c.depth < 63,
        cell_in_root(c),
    ensures
        child_cell(c, k) != child_cell(c, m),
{
    lemma_pow2_bound(c.depth as nat);
}

/// An ancestor of a child of `c`, at or above `c`'s depth, is an ancestor
/// of `c`; and `c` is the child's ancestor at its own depth.
proof fn lemma_child_ancestry(c: Cell, k: int, a: Cell)
    requires
        0 <= k < 8,
        c.depth < 63,
        cell_in_root(c),
    ensures
        is_ancestor(c, child_cell(c, k)),
        is_ancestor(a, child_cell(c, k)) && a.depth <= c.depth ==> is_ancestor(a, c),
        is_ancestor(a, child_cell(c, k)) && a.depth > c.depth ==> a == child_cell(c, k),
{
    lemma_child_ancestors(c, k, c.depth as nat);
    lemma_ancestor_self(c);
    if a.depth <= c.depth {
        lemma_child_ancestors(c, k, a.depth as nat);
    }
    lemma_ancestor_self(child_cell(c, k));
}

/// If the child of `c` is an ancestor of `g`, so is `c`.
proof fn lemma_child_above(c: Cell, k: int, g: Cell)
    requires
        0 <= k < 8,
        c.depth < 63,
        cell_in_root(c),
        is_ancestor(child_cell(c, k), g),
    ensures
        is_ancestor(c, g),
{
    let ch = child_cell(c, k);
    lemma_child_ancestry(c, k, c);
    lemma_ancestor_of_ancestor(g, c.depth as nat, ch.depth as nat);
}

/// Testing a cube, whatever the answers, keeps the cubes waiting and the
/// voxels found apart: no cube is found twice.
pub proof fn lemma_resolve_keeps_separate(
    q: Seq<NodeView>,
    found: Seq<LeafVoxel>,
    hits: Seq<bool>,
    cams: Seq<u32>,
    min_cameras: u32,
    leaf_depth: u32,
)
    requires
        separate(q, found),
        q.len() > 0,
        leaf_depth <= 63,
        forall|i: int|
            0 <= i < q.len() ==> (#[trigger] q[i]).cell.depth <= leaf_depth && cell_in_root(
                q[i].cell,
            ),
    ensures
        separate(
            q.drop_first() + spawned(q[0], hits, cams, min_cameras, leaf_depth),
            found + settled(q[0], hits, cams, min_cameras, leaf_depth),
        ),
{
    let c = q[0].cell;
    let kids = spawned(q[0], hits, cams, min_cameras, leaf_depth);
    let leaves = settled(q[0], hits, cams, min_cameras, leaf_depth);
    let q2 = q.drop_first() + kids;
    let f2 = found + leaves;
    let nq = q.len() - 1;
    lemma_ancestor_self(c);
    assert(is_ancestor(c, c));
    assert forall|i: int, j: int|
        0 <= i < f2.len() && 0 <= j < f2.len() && i != j implies #[trigger] f2[i].cell
        != #[trigger] f2[j].cell by {
        if i < found.len() && j < found.len() {
        } else if i < found.len() {
            assert(f2[j].cell == c);
            assert(!is_ancestor(q[0].cell, found[i].cell));
        } else if j < found.len() {
            assert(f2[i].cell == c);
            assert(!is_ancestor(q[0].cell, found[j].cell));
        }
    }
    assert forall|i: int, j: int|
        0 <= i < q2.len() && 0 <= j < q2.len() && i != j implies !is_ancestor(
        #[trigger] q2[i].cell,
        #[trigger] q2[j].cell,
    ) by {
        if i < nq && j < nq {
            assert(q2[i] == q[i + 1] && q2[j] == q[j + 1]);
            assert(!is_ancestor(q[i + 1].cell, q[j + 1].cell));
        } else if i < nq {
            let k = j - nq;
            assert(q2[i] == q[i + 1]);
            assert(q2[j].cell == child_cell(c, k));
            assert(!is_ancestor(q[i + 1].cell, c));
            lemma_child_ancestry(c, k, q[i + 1].cell);
            if is_ancestor(q2[i].cell, q2[j].cell) {
                if q2[i].cell.depth > c.depth {
                    assert(is_ancestor(c, q[i + 1].cell));
                    assert(!is_ancestor(q[0].cell, q[i + 1].cell));
                }
            }
        } else if j < nq {
            let k = i - nq;
            assert(q2[j] == q[j + 1]);
            assert(q2[i].cell == child_cell(c, k));
            if is_ancestor(q2[i].cell, q2[j].cell) {
                lemma_child_above(c, k, q[j + 1].cell);
                assert(!is_ancestor(q[0].cell, q[j + 1].cell));
            }
        } else {
            let k = i - nq;
            let m = j - nq;
            lemma_children_differ(c, k, m);
            lemma_ancestor_self(q2[j].cell);
            assert(q2[i].cell.depth == q2[j].cell.depth);
        }
    }
    assert forall|i: int, j: int| 0 <= i < q2.len() && 0 <= j < f2.len() implies !is_ancestor(
        #[trigger] q2[i].cell,
        #[trigger] f2[j].cell,
    ) by {
        if i < nq {
            assert(q2[i] == q[i + 1]);
            if j < found.len() {
                assert(f2[j] == found[j]);
            } else {
                assert(f2[j].cell == c);
                assert(!is_ancestor(q[i + 1].cell, q[0].cell));
            }
        } else {
            let k = i - nq;
            assert(q2[i].cell == child_cell(c, k));
            if j < found.len() {
                assert(f2[j] == found[j]);
                if is_ancestor(q2[i].cell, f2[j].cell) {
                    lemma_child_above(c, k, found[j].cell);
                    assert(!is_ancestor(q[0].cell, found[j].cell));
                }
            } else {
                assert(kids.len() > 0 && leaves.len() > 0);
            }
        }
    }
}

/// A whole search, whatever its answers, finds each cube at most once:
/// here for the run answered by `crosses`.
pub proof fn lemma_detection_outcome_distinct(
    crosses: spec_fn(Cell, usize) -> bool,
    cams: Seq<u32>,
    min_cameras: u32,
    leaf_depth: u32,
)
    requires
        cams.len() <= usize::MAX,
        leaf_depth <= 63,
    ensures
        forall|i: int, j: int|
            0 <= i < detection_outcome(crosses, cams, min_cameras, leaf_depth).len() && 0 <= j
                < detection_outcome(crosses, cams, min_cameras, leaf_depth).len() && i != j
                ==> (#[trigger] detection_outcome(crosses, cams, min_cameras, leaf_depth)[i]).cell
                != (#[trigger] detection_outcome(crosses, cams, min_cameras, leaf_depth)[j]).cell,
{
    let q0 = start_queue(cams);
    assert(pow2(0) == 1) by {
        vstd::arithmetic::power2::lemma2_to64();
    }
    lemma_outcome_separate(crosses, cams, min_cameras, leaf_depth, q0, Seq::<LeafVoxel>::empty());
}

proof fn lemma_outcome_separate(
    crosses: spec_fn(Cell, usize) -> bool,
    cams: Seq<u32>,
    min_cameras: u32,
    leaf_depth: u32,
    q: Seq<NodeView>,
    found: Seq<LeafVoxel>,
)
    requires
        separate(q, found),
        leaf_depth <= 63,
        forall|i: int|
            0 <= i < q.len() ==> (#[trigger] q[i]).cell.depth <= leaf_depth && cell_in_root(
                q[i].cell,
            ),
    ensures
        separate(
            Seq::<NodeView>::empty(),
            search_outcome(crosses, cams, min_cameras, leaf_depth, q, found),
        ),
    decreases queue_work(q, leaf_depth),
{
    if q.len() > 0 {
        let hits = oracle_hits(crosses, q[0]);
        lemma_resolve_progress(q, hits, cams, min_cameras, leaf_depth);
        lemma_resolve_keeps_separate(q, found, hits, cams, min_cameras, leaf_depth);
        let q2 = q.drop_first() + spawned(q[0], hits, cams, min_cameras, leaf_depth);
        assert forall|i: int| 0 <= i < q2.len() implies (#[trigger] q2[i]).cell.depth
            <= leaf_depth && cell_in_root(q2[i].cell) by {
            if i < q.len() - 1 {
                assert(q2[i] == q[i + 1]);
            } else {
                lemma_child_in_root(q[0].cell, i - (q.len() - 1));
            }
        }
        lemma_outcome_separate(
            crosses,
            cams,
            min_cameras,
            leaf_depth,
            q2,
            found + settled(q[0], hits, cams, min_cameras, leaf_depth),
        );
    } else {
        assert(q =~= Seq::<NodeView>::empty());
    }
}

/// Where a search goes from cubes `q` and voxels `found` when its tests are
/// answered, in turn, by `answers`: each answer is applied to the first cube
/// as `resolve` applies it. The run stops when no cube is left.
pub open spec fn replay(
    cams: Seq<u32>,
    min_cameras: u32,
    leaf_depth: u32,
    q: Seq<NodeView>,
    found: Seq<LeafVoxel>,
    answers: Seq<Seq<bool>>,
) -> (Seq<NodeView>, Seq<LeafVoxel>)
    decreases answers.len(),
{
    if answers.len() == 0 || q.len() == 0 {
        (q, found)
    } else {
        replay(
            cams,
            min_cameras,
            leaf_depth,
            q.drop_first() + spawned(q[0], answers[0], cams, min_cameras, leaf_depth),
            found + settled(q[0], answers[0], cams, min_cameras, leaf_depth),
            answers.drop_first(),
        )
    }
}

/// Each answer of `answers` is what `crosses` says of the rays of the cube
/// tested at that step of the run from `q`.
pub open spec fn answered_by(
    crosses: spec_fn(Cell, usize) -> bool,
    cams: Seq<u32>,
    min_cameras: u32,
    leaf_depth: u32,
    q: Seq<NodeView>,
    answers: Seq<Seq<bool>>,
) -> bool
    decreases answers.len(),
{
    if answers.len() == 0 {
        true
    } else {
        &&& q.len() > 0
        &&& answers[0] == oracle_hits(crosses, q[0])
        &&& answered_by(
            crosses,
            cams,
            min_cameras,
            leaf_depth,
            q.drop_first() + spawned(q[0], answers[0], cams, min_cameras, leaf_depth),
            answers.drop_first(),
        )
    }
}

/// A run answered by `crosses` does not change what the search ends with.
proof fn lemma_replay_keeps_outcome(
    crosses: spec_fn(Cell, usize) -> bool,
    cams: Seq<u32>,
    min_cameras: u32,
    leaf_depth: u32,
    q: Seq<NodeView>,
    found: Seq<LeafVoxel>,
    answers: Seq<Seq<bool>>,
)
    requires
        answered_by(crosses, cams, min_cameras, leaf_depth, q, answers),
        forall|i: int| 0 <= i < q.len() ==> (#[trigger] q[i]).cell.depth <= leaf_depth,
    ensures
        search_outcome(
            crosses,
            cams,
            min_cameras,
            leaf_depth,
            replay(cams, min_cameras, leaf_depth, q, found, answers).0,
            replay(cams, min_cameras, leaf_depth, q, found, answers).1,
        ) == search_outcome(crosses, cams, min_cameras, leaf_depth, q, found),
    decreases answers.len(),
{
    if answers.len() > 0 && q.len() > 0 {
        let a = answers[0];
        let q2 = q.drop_first() + spawned(q[0], a, cams, min_cameras, leaf_depth);
        let f2 = found + settled(q[0], a, cams, min_cameras, leaf_depth);
        assert forall|i: int| 0 <= i < q2.len() implies (#[trigger] q2[i]).cell.depth
            <= leaf_depth by {
            if i < q.len() - 1 {
                assert(q2[i] == q[i + 1]);
            }
        }
        lemma_replay_keeps_outcome(crosses, cams, min_cameras, leaf_depth, q2, f2, answers.drop_first());
        lemma_outcome_kept_by_test(crosses, cams, min_cameras, leaf_depth, q, found);
    }
}

/// The cubes a whole search starts from: the root, holding every ray.
pub open spec fn start_queue(cams: Seq<u32>) -> Seq<NodeView> {
    seq![NodeView { cell: root_cell(), rays: Seq::new(cams.len(), |i: int| i as usize) }]
}

/// A whole run of the search whose tests `crosses` answers, and which ends
/// with no cube left, finds `detection_outcome` of its inputs.
pub proof fn lemma_finished_run_outcome(
    crosses: spec_fn(Cell, usize) -> bool,
    cams: Seq<u32>,
    min_cameras: u32,
    leaf_depth: u32,
    answers: Seq<Seq<bool>>,
)
    requires
        answered_by(crosses, cams, min_cameras, leaf_depth, start_queue(cams), answers),
        replay(cams, min_cameras, leaf_depth, start_queue(cams), Seq::<LeafVoxel>::empty(), answers).0.len() == 0,
    ensures
        replay(cams, min_cameras, leaf_depth, start_queue(cams), Seq::<LeafVoxel>::empty(), answers).1
            == detection_outcome(crosses, cams, min_cameras, leaf_depth),
{
    let q0 = start_queue(cams);
    let r = replay(cams, min_cameras, leaf_depth, q0, Seq::<LeafVoxel>::empty(), answers);
    lemma_replay_keeps_outcome(crosses, cams, min_cameras, leaf_depth, q0, Seq::<LeafVoxel>::empty(), answers);
    assert(r.0 =~= Seq::<NodeView>::empty());
    lemma_outcome_when_done(crosses, cams, min_cameras, leaf_depth, r.1);
}

/// Two whole runs of the search over the same rays' cameras, with the same
/// settings and the same geometry, find the same voxels in the same order,
/// however each computed its answers: every test of either run is answered
/// as the geometry says, and both end with no cube left.
pub proof fn lemma_two_runs_agree(
    crosses1: spec_fn(Cell, usize) -> bool,
    crosses2: spec_fn(Cell, usize) -> bool,
    cams: Seq<u32>,
    min_cameras: u32,
    leaf_depth: u32,
    answers1: Seq<Seq<bool>>,
    answers2: Seq<Seq<bool>>,
)
    requires
        forall|c: Cell, r: usize| #[trigger] crosses1(c, r) == crosses2(c, r),
        answered_by(crosses1, cams, min_cameras, leaf_depth, start_queue(cams), answers1),
        answered_by(crosses2, cams, min_cameras, leaf_depth, start_queue(cams), answers2),
        replay(cams, min_cameras, leaf_depth, start_queue(cams), Seq::<LeafVoxel>::empty(), answers1).0.len() == 0,
        replay(cams, min_cameras, leaf_depth, start_queue(cams), Seq::<LeafVoxel>::empty(), answers2).0.len() == 0,
    ensures
        replay(cams, min_cameras, leaf_depth, start_queue(cams), Seq::<LeafVoxel>::empty(), answers1).1
            == replay(cams, min_cameras, leaf_depth, start_queue(cams), Seq::<LeafVoxel>::empty(), answers2).1,
{
    assert(crosses1 =~= crosses2);
    lemma_finished_run_outcome(crosses1, cams, min_cameras, leaf_depth, answers1);
    lemma_finished_run_outcome(crosses2, cams, min_cameras, leaf_depth, answers2);
}

} // verus!
