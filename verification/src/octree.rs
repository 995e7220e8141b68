//! The octree search for occupied voxels.
//!
//! The search starts from one root cube that every ray may cross. Each cube
//! is tested against the rays that crossed its parent; a cube that fewer than
//! `min_cameras` distinct cameras see is dropped, a cube at the leaf depth
//! becomes a voxel, and any other cube splits into eight children that carry
//! the rays that crossed it. Cubes are visited breadth first, level by level.
//!
//! A cube is named by its depth and its integer position among the cubes of
//! that depth; what a cube is in space, and whether a ray crosses it, is the
//! caller's geometry, handed in as one `bool` per ray.
use vstd::arithmetic::power2::{
    lemma2_to64, lemma2_to64_rest, lemma_pow2_strictly_increases, lemma_pow2_unfold, pow2,
};
use vstd::prelude::*;

use crate::cameras::{camera_set, lemma_camera_count_range, lemma_camera_set_exact, num_of_cameras};

verus! {

/// A cube of the octree: its depth below the root and its integer position
/// among the `2^depth` cubes per axis at that depth.
#[derive(Clone, Copy, Debug)]
pub struct Cell {
    pub depth: u32,
    pub x: u64,
    pub y: u64,
    pub z: u64,
}

/// A cube waiting to be tested, with the rays that crossed its parent.
pub struct Node {
    pub cell: Cell,
    pub rays: Vec<usize>,
}

/// The mathematical value of a `Node`.
pub struct NodeView {
    pub cell: Cell,
    pub rays: Seq<usize>,
}

impl View for Node {
    type V = NodeView;

    open spec fn view(&self) -> NodeView {
        NodeView { cell: self.cell, rays: self.rays@ }
    }
}

/// The mathematical values of a sequence of nodes.
pub open spec fn node_views(nodes: Seq<Node>) -> Seq<NodeView> {
    nodes.map_values(|n: Node| n@)
}

/// The eight children of a cube, each carrying `rays`.
pub open spec fn children_of(c: Cell, rays: Seq<usize>) -> Seq<NodeView> {
    Seq::new(8, |k: int| NodeView { cell: child_cell(c, k), rays })
}

/// A cube at the leaf depth that enough cameras see.
#[derive(Clone, Copy, Debug)]
pub struct LeafVoxel {
    pub cell: Cell,
    pub num_cameras: usize,
}

/// The root cube.
pub open spec fn root_cell() -> Cell {
    Cell { depth: 0, x: 0, y: 0, z: 0 }
}

/// Offset of child `k` along x, y and z, in the order
/// (0,0,0), (1,0,0), (0,1,0), (0,0,1), (1,1,0), (1,0,1), (0,1,1), (1,1,1).
pub open spec fn child_offset(k: int) -> (int, int, int) {
    if k == 0 {
        (0, 0, 0)
    } else if k == 1 {
        (1, 0, 0)
    } else if k == 2 {
        (0, 1, 0)
    } else if k == 3 {
        (0, 0, 1)
    } else if k == 4 {
        (1, 1, 0)
    } else if k == 5 {
        (1, 0, 1)
    } else if k == 6 {
        (0, 1, 1)
    } else {
        (1, 1, 1)
    }
}

/// Child `k` (0 to 7) of cube `c`, one level deeper.
pub open spec fn child_cell(c: Cell, k: int) -> Cell {
    Cell {
        depth: (c.depth + 1) as u32,
        x: (2 * c.x + child_offset(k).0) as u64,
        y: (2 * c.y + child_offset(k).1) as u64,
        z: (2 * c.z + child_offset(k).2) as u64,
    }
}

/// A cube lies inside the root: its position is below `2^depth` on each axis.
pub open spec fn cell_in_root(c: Cell) -> bool {
    &&& c.x < pow2(c.depth as nat)
    &&& c.y < pow2(c.depth as nat)
    &&& c.z < pow2(c.depth as nat)
}

/// The first `n` rays of `rays` whose flag in `hits` is set, in order.
pub open spec fn kept_prefix(rays: Seq<usize>, hits: Seq<bool>, n: nat) -> Seq<usize>
    decreases n,
{
    if n == 0 {
        seq![]
    } else {
        let earlier = kept_prefix(rays, hits, (n - 1) as nat);
        if hits[n - 1] {
            earlier.push(rays[n - 1])
        } else {
            earlier
        }
    }
}

/// The rays of `rays` whose flag in `hits` is set, in order.
pub open spec fn hit_rays(rays: Seq<usize>, hits: Seq<bool>) -> Seq<usize> {
    kept_prefix(rays, hits, rays.len())
}

/// The camera of each of the given rays.
pub open spec fn ray_cameras(rays: Seq<usize>, cams: Seq<u32>) -> Seq<u32> {
    rays.map_values(|i: usize| cams[i as int])
}

/// Number of distinct cameras among the rays of `node` that hit its cube.
pub open spec fn hit_camera_count(node: NodeView, hits: Seq<bool>, cams: Seq<u32>) -> nat {
    camera_set(ray_cameras(hit_rays(node.rays, hits), cams)).len()
}

/// Whether the cube of `node` survives: enough distinct cameras see it.
pub open spec fn survives(node: NodeView, hits: Seq<bool>, cams: Seq<u32>, min_cameras: u32) -> bool {
    hit_camera_count(node, hits, cams) >= min_cameras
}

/// The cubes that testing `node` adds to the search: its eight children,
/// carrying the rays that hit it, when it survives above the leaf depth.
pub open spec fn spawned(
    node: NodeView,
    hits: Seq<bool>,
    cams: Seq<u32>,
    min_cameras: u32,
    leaf_depth: u32,
) -> Seq<NodeView> {
    if survives(node, hits, cams, min_cameras) && node.cell.depth < leaf_depth {
        children_of(node.cell, hit_rays(node.rays, hits))
    } else {
        seq![]
    }
}

/// The voxels that testing `node` adds: the cube itself, with its camera
/// count, when it survives at the leaf depth.
pub open spec fn settled(
    node: NodeView,
    hits: Seq<bool>,
    cams: Seq<u32>,
    min_cameras: u32,
    leaf_depth: u32,
) -> Seq<LeafVoxel> {
    if survives(node, hits, cams, min_cameras) && node.cell.depth >= leaf_depth {
        seq![LeafVoxel { cell: node.cell, num_cameras: hit_camera_count(node, hits, cams) as usize }]
    } else {
        seq![]
    }
}

/// The ray indices of a node are strictly increasing and name existing rays.
pub open spec fn rays_ok(rays: Seq<usize>, n: nat) -> bool {
    &&& forall|i: int| 0 <= i < rays.len() ==> rays[i] < n
    &&& forall|i: int, j: int| 0 <= i < j < rays.len() ==> rays[i] < rays[j]
}

/// A node waiting in a search with `n` rays and the given leaf depth.
pub open spec fn node_ok(node: NodeView, n: nat, leaf_depth: u32) -> bool {
    &&& node.cell.depth <= leaf_depth
    &&& cell_in_root(node.cell)
    &&& rays_ok(node.rays, n)
}

/// A voxel found by a search with the given settings.
pub open spec fn voxel_ok(v: LeafVoxel, min_cameras: u32, leaf_depth: u32) -> bool {
    &&& v.cell.depth == leaf_depth
    &&& cell_in_root(v.cell)
    &&& v.num_cameras >= min_cameras
}

/// The number of cubes a cube `levels` above the leaf depth can lead to
/// testing, itself included: all of its descendants down to the leaves.
pub open spec fn subtree_size(levels: nat) -> nat
    decreases levels,
{
    if levels == 0 {
        1
    } else {
        1 + 8 * subtree_size((levels - 1) as nat)
    }
}

/// The most tests that the cubes `q` can still lead to.
pub open spec fn queue_work(q: Seq<NodeView>, leaf_depth: u32) -> nat
    decreases q.len(),
{
    if q.len() == 0 {
        0
    } else {
        subtree_size((leaf_depth - q[0].cell.depth) as nat) + queue_work(q.drop_first(), leaf_depth)
    }
}

/// The work of two queues one after the other is the sum of their work.
pub proof fn lemma_queue_work_concat(a: Seq<NodeView>, b: Seq<NodeView>, leaf_depth: u32)
    ensures
        queue_work(a + b, leaf_depth) == queue_work(a, leaf_depth) + queue_work(b, leaf_depth),
    decreases a.len(),
{
    if a.len() > 0 {
        assert((a + b).drop_first() =~= a.drop_first() + b);
        lemma_queue_work_concat(a.drop_first(), b, leaf_depth);
    } else {
        assert(a + b =~= b);
    }
}

/// Testing a cube lowers the work left by at least one: the search ends
/// after at most `subtree_size(leaf_depth)` tests.
pub proof fn lemma_resolve_progress(
    q: Seq<NodeView>,
    hits: Seq<bool>,
    cams: Seq<u32>,
    min_cameras: u32,
    leaf_depth: u32,
)
    requires
        q.len() > 0,
        q[0].cell.depth <= leaf_depth,
    ensures
        queue_work(q.drop_first() + spawned(q[0], hits, cams, min_cameras, leaf_depth), leaf_depth)
            < queue_work(q, leaf_depth),
{
    let node = q[0];
    let kids = spawned(node, hits, cams, min_cameras, leaf_depth);
    lemma_queue_work_concat(q.drop_first(), kids, leaf_depth);
    if kids.len() > 0 {
        let below = (leaf_depth - node.cell.depth - 1) as nat;
        assert forall|m: nat| m <= 8 implies #[trigger] queue_work(kids.skip(8 - m), leaf_depth)
            == m * subtree_size(below) by {
            lemma_work_of_children(kids, leaf_depth, below, m);
        }
        assert(kids.skip(0) == kids);
        assert(queue_work(kids.skip(8 - 8), leaf_depth) == 8 * subtree_size(below));
        assert(subtree_size((leaf_depth - node.cell.depth) as nat) == 1 + 8 * subtree_size(below));
    } else {
        assert(queue_work(kids, leaf_depth) == 0);
    }
    assert(queue_work(q, leaf_depth) == subtree_size((leaf_depth - node.cell.depth) as nat)
        + queue_work(q.drop_first(), leaf_depth));
}

proof fn lemma_work_of_children(kids: Seq<NodeView>, leaf_depth: u32, below: nat, m: nat)
    requires
        kids.len() == 8,
        m <= 8,
        forall|k: int| 0 <= k < 8 ==> (leaf_depth - #[trigger] kids[k].cell.depth) == below,
    ensures
        queue_work(kids.skip(8 - m), leaf_depth) == m * subtree_size(below),
    decreases m,
{
    if m > 0 {
        lemma_work_of_children(kids, leaf_depth, below, (m - 1) as nat);
        assert(kids.skip(8 - m).drop_first() =~= kids.skip(8 - (m - 1)));
        assert(kids.skip(8 - m)[0] == kids[8 - m]);
        assert(m * subtree_size(below) == (m - 1) * subtree_size(below) + subtree_size(below))
            by (nonlinear_arith);
    } else {
        assert(kids.skip(8) =~= Seq::<NodeView>::empty());
    }
}

/// The state of a breadth-first octree search.
pub struct OctreeSearch {
    ray_cams: Vec<u32>,
    min_cameras: u32,
    leaf_depth: u32,
    level: Vec<Node>,
    next_level: Vec<Node>,
    cursor: usize,
    voxels: Vec<LeafVoxel>,
}

impl OctreeSearch {
    /// The camera of each ray of the search.
    pub closed spec fn cams(&self) -> Seq<u32> {
        self.ray_cams@
    }

    /// The least number of distinct cameras that keeps a cube.
    pub closed spec fn min_cameras(&self) -> u32 {
        self.min_cameras
    }

    /// The depth at which surviving cubes become voxels.
    pub closed spec fn leaf_depth(&self) -> u32 {
        self.leaf_depth
    }

    /// The cubes still to test, in the order they will be tested.
    pub closed spec fn queue(&self) -> Seq<NodeView> {
        node_views(self.level@.subrange(self.cursor as int, self.level@.len() as int))
            + node_views(self.next_level@)
    }

    /// The voxels found so far, in the order they were found.
    pub closed spec fn found(&self) -> Seq<LeafVoxel> {
        self.voxels@
    }

    /// The search's invariant.
    pub closed spec fn well_formed(&self) -> bool {
        &&& self.leaf_depth <= 63
        &&& (self.cursor < self.level.len() || (self.level.len() == 0 && self.cursor == 0
            && self.next_level.len() == 0))
        &&& forall|i: int|
            0 <= i < self.queue().len() ==> node_ok(
                #[trigger] self.queue()[i],
                self.ray_cams@.len(),
                self.leaf_depth,
            )
        &&& forall|i: int|
            0 <= i < self.voxels@.len() ==> voxel_ok(
                #[trigger] self.voxels@[i],
                self.min_cameras,
                self.leaf_depth,
            )
    }

    /// Starts a search over the rays whose cameras are `ray_cams`, with the
    /// root cube holding every ray.
    pub fn new(ray_cams: Vec<u32>, min_cameras: u32, leaf_depth: u32) -> (s: Self)
        requires
            leaf_depth <= 63,
        ensures
            s.well_formed(),
            s.cams() == ray_cams@,
            s.min_cameras() == min_cameras,
            s.leaf_depth() == leaf_depth,
            s.queue() == seq![
                NodeView {
                    cell: root_cell(),
                    rays: Seq::new(ray_cams@.len(), |i: int| i as usize),
                },
            ],
            s.found() == Seq::<LeafVoxel>::empty(),
            queue_work(s.queue(), leaf_depth) == subtree_size(leaf_depth as nat),
    {
        let n = ray_cams.len();
        let mut all: Vec<usize> = Vec::new();
        let mut i: usize = 0;
        while i < n
            invariant
                i <= n,
                all@ == Seq::new(i as nat, |k: int| k as usize),
            decreases n - i,
        {
            all.push(i);
            i = i + 1;
        }
        let root = Node { cell: Cell { depth: 0, x: 0, y: 0, z: 0 }, rays: all };
        let mut level: Vec<Node> = Vec::new();
        level.push(root);
        let s = OctreeSearch {
            ray_cams,
            min_cameras,
            leaf_depth,
            level,
            next_level: Vec::new(),
            cursor: 0,
            voxels: Vec::new(),
        };
        proof {
            assert(s.queue() =~= seq![s.level@[0]@]);
            assert(s.queue().drop_first() =~= Seq::<NodeView>::empty());
            assert(queue_work(s.queue().drop_first(), leaf_depth) == 0);
            assert(s.queue()[0].cell.depth == 0);
            assert(pow2(0) == 1) by {
                lemma2_to64();
            }
        }
        s
    }

    /// Whether every cube has been tested.
    pub fn is_done(&self) -> (done: bool)
        requires
            self.well_formed(),
        ensures
            done == (self.queue().len() == 0),
    {
        self.level.len() == 0
    }

    /// The cube to test next.
    pub fn current_cell(&self) -> (c: Cell)
        requires
            self.well_formed(),
            self.queue().len() > 0,
        ensures
            c == self.queue()[0].cell,
    {
        proof {
            self.lemma_front();
        }
        self.level[self.cursor].cell
    }

    /// The rays to test against the next cube.
    pub fn current_rays(&self) -> (r: &Vec<usize>)
        requires
            self.well_formed(),
            self.queue().len() > 0,
        ensures
            r@ == self.queue()[0].rays,
    {
        proof {
            self.lemma_front();
        }
        &self.level[self.cursor].rays
    }

    /// The voxels found so far.
    pub fn voxels(&self) -> (v: &Vec<LeafVoxel>)
        ensures
            v@ == self.found(),
    {
        &self.voxels
    }

    proof fn lemma_front(&self)
        requires
            self.well_formed(),
            self.queue().len() > 0,
        ensures
            self.cursor < self.level.len(),
            self.queue()[0] == self.level@[self.cursor as int]@,
    {
        if self.level.len() == 0 {
            assert(self.queue().len() == 0);
        }
    }

    /// Tests the next cube: `hits[k]` tells whether the `k`-th of its rays
    /// crosses it. The cube leaves the queue; its children join the back of
    /// the queue, or it joins the voxels, as `spawned` and `settled` say.
    pub fn resolve(&mut self, hits: &Vec<bool>)
        requires
            old(self).well_formed(),
            old(self).queue().len() > 0,
            hits@.len() == old(self).queue()[0].rays.len(),
        ensures
            final(self).well_formed(),
            final(self).cams() == old(self).cams(),
            final(self).min_cameras() == old(self).min_cameras(),
            final(self).leaf_depth() == old(self).leaf_depth(),
            final(self).queue() == old(self).queue().drop_first() + spawned(
                old(self).queue()[0],
                hits@,
                old(self).cams(),
                old(self).min_cameras(),
                old(self).leaf_depth(),
            ),
            final(self).found() == old(self).found() + settled(
                old(self).queue()[0],
                hits@,
                old(self).cams(),
                old(self).min_cameras(),
                old(self).leaf_depth(),
            ),
            queue_work(final(self).queue(), final(self).leaf_depth()) < queue_work(
                old(self).queue(),
                old(self).leaf_depth(),
            ),
    {
        proof {
            self.lemma_front();
        }
        let ghost old_queue = self.queue();
        let ghost node = old_queue[0];
        assert(node_ok(node, self.ray_cams@.len(), self.leaf_depth));
        let cursor = self.cursor;
        let cell = self.level[cursor].cell;
        let hit = keep_hits(&self.level[cursor].rays, hits);
        proof {
            lemma_kept_prefix_ok(node.rays, hits@, node.rays.len(), self.ray_cams@.len());
        }
        let count = hit_cameras(&hit, &self.ray_cams);
        assert(count == hit_camera_count(node, hits@, self.ray_cams@));
        let ghost children = spawned(node, hits@, self.ray_cams@, self.min_cameras, self.leaf_depth);
        let ghost leaves = settled(node, hits@, self.ray_cams@, self.min_cameras, self.leaf_depth);
        let ghost old_next = self.next_level@;
        let ghost old_voxels = self.voxels@;
        if count < self.min_cameras as usize {
        } else if cell.depth >= self.leaf_depth {
            self.voxels.push(LeafVoxel { cell, num_cameras: count });
        } else {
            push_children(&mut self.next_level, cell, &hit);
        }
        assert(self.voxels@ =~= old_voxels + leaves);
        assert(node_views(self.next_level@) =~= node_views(old_next) + children);
        self.cursor = cursor + 1;
        assert(self.queue() =~= old_queue.drop_first() + children);
        if self.cursor == self.level.len() {
            let ghost q = self.queue();
            std::mem::swap(&mut self.level, &mut self.next_level);
            self.next_level = Vec::new();
            self.cursor = 0;
            assert(self.queue() =~= q);
        }
        proof {
            lemma_resolve_progress(old_queue, hits@, self.ray_cams@, self.min_cameras, self.leaf_depth);
            let q = self.queue();
            assert forall|i: int| 0 <= i < q.len() implies node_ok(
                #[trigger] q[i],
                self.ray_cams@.len(),
                self.leaf_depth,
            ) by {
                if i < old_queue.len() - 1 {
                    assert(q[i] == old_queue[i + 1]);
                } else {
                    let k = i - (old_queue.len() - 1);
                    assert(q[i] == children[k]);
                    lemma_child_in_root(node.cell, k);
                }
            }
        }
    }

    /// Ends the search and hands over the voxels, in the order found.
    pub fn into_voxels(self) -> (v: Vec<LeafVoxel>)
        ensures
            v@ == self.found(),
    {
        self.voxels
    }
}

/// The rays of `rays` whose flag in `hits` is set, in order.
fn keep_hits(rays: &Vec<usize>, hits: &Vec<bool>) -> (hit: Vec<usize>)
    requires
        hits@.len() == rays@.len(),
    ensures
        hit@ == hit_rays(rays@, hits@),
{
    let mut hit: Vec<usize> = Vec::new();
    let mut k: usize = 0;
    while k < rays.len()
        invariant
            hits@.len() == rays@.len(),
            k <= rays.len(),
            hit@ == kept_prefix(rays@, hits@, k as nat),
        decreases rays.len() - k,
    {
        if hits[k] {
            hit.push(rays[k]);
        }
        k = k + 1;
    }
    hit
}

/// Number of distinct cameras among the rays `hit`.
fn hit_cameras(hit: &Vec<usize>, ray_cams: &Vec<u32>) -> (count: usize)
    requires
        rays_ok(hit@, ray_cams@.len()),
    ensures
        count == camera_set(ray_cameras(hit@, ray_cams@)).len(),
{
    let mut cams: Vec<u32> = Vec::new();
    let mut j: usize = 0;
    while j < hit.len()
        invariant
            j <= hit.len(),
            rays_ok(hit@, ray_cams@.len()),
            cams@ == ray_cameras(hit@.take(j as int), ray_cams@),
        decreases hit.len() - j,
    {
        cams.push(ray_cams[hit[j]]);
        proof {
            assert(hit@.take(j + 1) == hit@.take(j as int).push(hit@[j as int]));
            assert(cams@ =~= ray_cameras(hit@.take(j + 1), ray_cams@));
        }
        j = j + 1;
    }
    assert(hit@.take(hit.len() as int) == hit@);
    num_of_cameras(cams.as_slice())
}

/// Appends the eight children of `cell`, each carrying a copy of `hit`.
fn push_children(next: &mut Vec<Node>, cell: Cell, hit: &Vec<usize>)
    requires
        cell.depth < 63,
        cell_in_root(cell),
    ensures
        node_views(final(next)@) == node_views(old(next)@) + children_of(cell, hit@),
{
    let ghost start = old(next)@;
    let mut c: usize = 0;
    while c < 8
        invariant
            c <= 8,
            cell.depth < 63,
            cell_in_root(cell),
            next@.len() == start.len() + c,
            forall|i: int| 0 <= i < start.len() ==> next@[i] == start[i],
            forall|i: int|
                0 <= i < c ==> (#[trigger] next@[start.len() + i])@ == (NodeView {
                    cell: child_cell(cell, i),
                    rays: hit@,
                }),
        decreases 8 - c,
    {
        let child = make_child(cell, c);
        let rays = hit.clone();
        assert(rays@ == hit@);
        next.push(Node { cell: child, rays });
        c = c + 1;
    }
    assert(node_views(next@) =~= node_views(start) + children_of(cell, hit@)) by {
        assert forall|i: int| start.len() <= i < next@.len() implies node_views(next@)[i]
            == children_of(cell, hit@)[i - start.len()] by {
            assert(next@[start.len() + (i - start.len())] == next@[i]);
        }
    }
}

/// What a search holds: every cube still to test lies inside the root, no
/// deeper than the leaf depth, with strictly increasing ray indices that name
/// rays of the search; every voxel found lies inside the root at the leaf
/// depth and is seen by at least `min_cameras` cameras.
pub proof fn lemma_search_invariants(s: &OctreeSearch)
    requires
        s.well_formed(),
    ensures
        forall|i: int|
            0 <= i < s.queue().len() ==> node_ok(#[trigger] s.queue()[i], s.cams().len(), s.leaf_depth()),
        forall|i: int|
            0 <= i < s.found().len() ==> voxel_ok(#[trigger] s.found()[i], s.min_cameras(), s.leaf_depth()),
{
}

/// A ray is kept for the children of a cube exactly when it is one of the
/// cube's rays and its flag says it crosses the cube.
pub proof fn lemma_hit_rays_members(rays: Seq<usize>, hits: Seq<bool>, r: usize)
    requires
        hits.len() == rays.len(),
    ensures
        hit_rays(rays, hits).contains(r) <==> exists|j: int|
            0 <= j < rays.len() && rays[j] == r && hits[j],
{
    lemma_kept_prefix_members(rays, hits, rays.len(), r);
}

proof fn lemma_kept_prefix_members(rays: Seq<usize>, hits: Seq<bool>, n: nat, r: usize)
    requires
        n <= rays.len(),
        n <= hits.len(),
    ensures
        kept_prefix(rays, hits, n).contains(r) <==> exists|j: int|
            0 <= j < n && rays[j] == r && hits[j],
    decreases n,
{
    if n > 0 {
        lemma_kept_prefix_members(rays, hits, (n - 1) as nat, r);
        let earlier = kept_prefix(rays, hits, (n - 1) as nat);
        if hits[n - 1] {
            let now = earlier.push(rays[n - 1]);
            if now.contains(r) {
                if earlier.contains(r) {
                } else {
                    let i = choose|i: int| 0 <= i < now.len() && now[i] == r;
                    assert(i == earlier.len());
                    assert(rays[n - 1] == r && hits[n - 1]);
                }
            }
            if exists|j: int| 0 <= j < n && rays[j] == r && hits[j] {
                let j = choose|j: int| 0 <= j < n && rays[j] == r && hits[j];
                if j == n - 1 {
                    assert(now[now.len() - 1] == r);
                } else {
                    let i = choose|i: int| 0 <= i < earlier.len() && earlier[i] == r;
                    assert(now[i] == r);
                }
            }
        } else {
            if exists|j: int| 0 <= j < n && rays[j] == r && hits[j] {
                let j = choose|j: int| 0 <= j < n && rays[j] == r && hits[j];
                assert(j != n - 1);
            }
        }
    }
}

/// A cube that no ray crosses is dropped, unless no camera at all is
/// asked for.
pub proof fn lemma_unseen_cube_dropped(
    node: NodeView,
    hits: Seq<bool>,
    cams: Seq<u32>,
    min_cameras: u32,
    leaf_depth: u32,
)
    requires
        hits.len() == node.rays.len(),
        forall|j: int| 0 <= j < hits.len() ==> !hits[j],
        min_cameras >= 1,
    ensures
        spawned(node, hits, cams, min_cameras, leaf_depth) == Seq::<NodeView>::empty(),
        settled(node, hits, cams, min_cameras, leaf_depth) == Seq::<LeafVoxel>::empty(),
{
    let hit = hit_rays(node.rays, hits);
    if hit.len() > 0 {
        lemma_hit_rays_members(node.rays, hits, hit[0]);
        assert(hit.contains(hit[0]));
    }
    lemma_camera_count_range(ray_cameras(hit, cams));
}

/// A child of a cube lies one level deeper, inside the parent: halving its
/// position gives back the parent's.
pub proof fn lemma_child_inside_parent(c: Cell, k: int)
    requires
        c.depth < 63,
        cell_in_root(c),
        0 <= k < 8,
    ensures
        child_cell(c, k).depth == c.depth + 1,
        child_cell(c, k).x / 2 == c.x,
        child_cell(c, k).y / 2 == c.y,
        child_cell(c, k).z / 2 == c.z,
        cell_in_root(child_cell(c, k)),
{
    lemma_child_in_root(c, k);
    lemma_pow2_bound(c.depth as nat);
}

/// Child `k` of `c`.
fn make_child(c: Cell, k: usize) -> (r: Cell)
    requires
        k < 8,
        c.depth < 63,
        cell_in_root(c),
    ensures
        r == child_cell(c, k as int),
{
    proof {
        lemma_pow2_bound(c.depth as nat);
    }
    let (dx, dy, dz): (u64, u64, u64) = if k == 0 {
        (0, 0, 0)
    } else if k == 1 {
        (1, 0, 0)
    } else if k == 2 {
        (0, 1, 0)
    } else if k == 3 {
        (0, 0, 1)
    } else if k == 4 {
        (1, 1, 0)
    } else if k == 5 {
        (1, 0, 1)
    } else if k == 6 {
        (0, 1, 1)
    } else {
        (1, 1, 1)
    };
    Cell { depth: c.depth + 1, x: 2 * c.x + dx, y: 2 * c.y + dy, z: 2 * c.z + dz }
}

pub proof fn lemma_pow2_bound(d: nat)
    requires
        d < 63,
    ensures
        2 * pow2(d) + 1 <= u64::MAX,
{
    lemma2_to64();
    lemma2_to64_rest();
    if d < 62 {
        lemma_pow2_strictly_increases(d, 62);
    }
}

/// Every child of a cube inside the root is inside the root.
pub proof fn lemma_child_in_root(c: Cell, k: int)
    requires
        cell_in_root(c),
        c.depth < 63,
        0 <= k < 8,
    ensures
        cell_in_root(child_cell(c, k)),
{
    lemma_pow2_bound(c.depth as nat);
    lemma_pow2_unfold((c.depth + 1) as nat);
}

/// Filtering keeps the ray indices in range and strictly increasing, and
/// takes each from the filtered list.
pub proof fn lemma_kept_prefix_ok(rays: Seq<usize>, hits: Seq<bool>, n: nat, count: nat)
    requires
        rays_ok(rays, count),
        n <= rays.len(),
        n <= hits.len(),
    ensures
        rays_ok(kept_prefix(rays, hits, n), count),
        forall|i: int|
            0 <= i < kept_prefix(rays, hits, n).len() ==> exists|j: int|
                0 <= j < n && #[trigger] kept_prefix(rays, hits, n)[i] == rays[j],
    decreases n,
{
    if n > 0 {
        lemma_kept_prefix_ok(rays, hits, (n - 1) as nat, count);
        let earlier = kept_prefix(rays, hits, (n - 1) as nat);
        if hits[n - 1] {
            let now = earlier.push(rays[n - 1]);
            assert forall|i: int| 0 <= i < earlier.len() implies #[trigger] earlier[i] < rays[n
                - 1] by {
                let j = choose|j: int| 0 <= j < n - 1 && earlier[i] == rays[j];
            }
            assert forall|i: int| 0 <= i < now.len() implies exists|j: int|
                0 <= j < n && #[trigger] now[i] == rays[j] by {
                if i < earlier.len() {
                    let j = choose|j: int| 0 <= j < n - 1 && earlier[i] == rays[j];
                    assert(now[i] == rays[j]);
                } else {
                    assert(now[i] == rays[n - 1]);
                }
            }
        }
    }
}

/// The camera of the `k`-th of the given rays is `cams` at that ray.
pub proof fn lemma_ray_cameras_exact(rays: Seq<usize>, cams: Seq<u32>)
    ensures
        ray_cameras(rays, cams).len() == rays.len(),
        forall|k: int| 0 <= k < rays.len() ==> #[trigger] ray_cameras(rays, cams)[k] == cams[rays[k] as int],
{
}

/// The camera count of a tested cube is the number of distinct camera ids
/// `cams[r]` over the rays `r` of the cube whose flag is set; the cube
/// survives exactly when that number is at least `min_cameras`, and at the
/// leaf depth it becomes a voxel carrying that number.
pub proof fn lemma_cube_camera_count(
    node: NodeView,
    hits: Seq<bool>,
    cams: Seq<u32>,
    min_cameras: u32,
    leaf_depth: u32,
)
    requires
        hits.len() == node.rays.len(),
    ensures
        hit_camera_count(node, hits, cams) == Set::new(
            |c: u32|
                exists|j: int| 0 <= j < node.rays.len() && hits[j] && cams[node.rays[j] as int] == c,
        ).len(),
        survives(node, hits, cams, min_cameras) <==> Set::new(
            |c: u32|
                exists|j: int| 0 <= j < node.rays.len() && hits[j] && cams[node.rays[j] as int] == c,
        ).len() >= min_cameras,
        node.cell.depth >= leaf_depth && Set::new(
            |c: u32|
                exists|j: int| 0 <= j < node.rays.len() && hits[j] && cams[node.rays[j] as int] == c,
        ).len() >= min_cameras ==> settled(node, hits, cams, min_cameras, leaf_depth) == seq![
            LeafVoxel {
                cell: node.cell,
                num_cameras: Set::new(
                    |c: u32|
                        exists|j: int|
                            0 <= j < node.rays.len() && hits[j] && cams[node.rays[j] as int] == c,
                ).len() as usize,
            },
        ],
{
    let hit = hit_rays(node.rays, hits);
    let rc = ray_cameras(hit, cams);
    let want = Set::new(
        |c: u32| exists|j: int| 0 <= j < node.rays.len() && hits[j] && cams[node.rays[j] as int] == c,
    );
    lemma_camera_set_exact(rc);
    assert(camera_set(rc) =~= want) by {
        assert forall|c: u32| camera_set(rc).contains(c) <==> want.contains(c) by {
            if camera_set(rc).contains(c) {
                let k = choose|k: int| 0 <= k < rc.len() && rc[k] == c;
                assert(hit.contains(hit[k]));
                lemma_hit_rays_members(node.rays, hits, hit[k]);
                let j = choose|j: int| 0 <= j < node.rays.len() && node.rays[j] == hit[k] && hits[j];
                assert(cams[node.rays[j] as int] == c);
            }
            if want.contains(c) {
                let j = choose|j: int|
                    0 <= j < node.rays.len() && hits[j] && cams[node.rays[j] as int] == c;
                lemma_hit_rays_members(node.rays, hits, node.rays[j]);
                assert(hit.contains(node.rays[j]));
                let k = choose|k: int| 0 <= k < hit.len() && hit[k] == node.rays[j];
                assert(rc[k] == c);
            }
        }
    }
}

} // verus!
