use voxel_detect::{
    absorbing_result, keep_strongest, num_of_cameras, sort_by_cameras, Cell, LeafVoxel,
    MergeScan, OctreeSearch,
};

/// A toy geometry: ray `i` ends in leaf cube `targets[i]` at depth
/// `leaf_depth`, and crosses exactly the cubes that contain that leaf.
fn crosses(target: (u64, u64, u64), leaf_depth: u32, cell: Cell) -> bool {
    let shift = leaf_depth - cell.depth;
    (target.0 >> shift, target.1 >> shift, target.2 >> shift) == (cell.x, cell.y, cell.z)
}

fn run_search(
    cams: Vec<u32>,
    targets: &[(u64, u64, u64)],
    min_cameras: u32,
    leaf_depth: u32,
) -> (Vec<LeafVoxel>, usize) {
    let mut search = OctreeSearch::new(cams, min_cameras, leaf_depth);
    let mut steps = 0;
    while !search.is_done() {
        let cell = search.current_cell();
        let hits: Vec<bool> =
            search.current_rays().iter().map(|&i| crosses(targets[i], leaf_depth, cell)).collect();
        search.resolve(&hits);
        steps += 1;
    }
    (search.into_voxels(), steps)
}

fn subtree_size(levels: u32) -> usize {
    if levels == 0 {
        1
    } else {
        1 + 8 * subtree_size(levels - 1)
    }
}

#[test]
fn distinct_cameras_are_counted_once() {
    assert_eq!(num_of_cameras(&[]), 0);
    assert_eq!(num_of_cameras(&[3, 3, 1, 3]), 2);
    assert_eq!(num_of_cameras(&[7]), 1);
    assert_eq!(num_of_cameras(&[0, 1, 2, 3]), 4);
}

#[test]
fn camera_count_does_not_depend_on_order() {
    assert_eq!(num_of_cameras(&[1, 2, 2, 5]), num_of_cameras(&[5, 2, 1, 2]));
}

#[test]
fn search_finds_the_cube_seen_by_enough_cameras() {
    let cams = vec![0, 1, 2, 0];
    let targets = [(1, 2, 3), (1, 2, 3), (1, 2, 3), (0, 0, 0)];
    let (voxels, steps) = run_search(cams, &targets, 2, 2);
    assert_eq!(voxels.len(), 1);
    let v = voxels[0];
    assert_eq!((v.cell.depth, v.cell.x, v.cell.y, v.cell.z), (2, 1, 2, 3));
    assert_eq!(v.num_cameras, 3);
    assert!(steps <= subtree_size(2));
}

#[test]
fn search_with_too_few_cameras_finds_nothing() {
    let cams = vec![4, 4, 4];
    let targets = [(1, 1, 1), (1, 1, 1), (1, 1, 1)];
    let (voxels, steps) = run_search(cams, &targets, 2, 3);
    assert!(voxels.is_empty());
    // The root is tested and dropped: one camera only.
    assert_eq!(steps, 1);
}

#[test]
fn search_without_rays_drops_the_root() {
    let (voxels, steps) = run_search(vec![], &[], 1, 4);
    assert!(voxels.is_empty());
    assert_eq!(steps, 1);
}

#[test]
fn search_with_no_camera_needed_keeps_every_leaf() {
    let (voxels, steps) = run_search(vec![], &[], 0, 1);
    assert_eq!(voxels.len(), 8);
    assert_eq!(steps, subtree_size(1));
    assert!(voxels.iter().all(|v| v.num_cameras == 0 && v.cell.depth == 1));
}

#[test]
fn root_at_leaf_depth_is_a_voxel() {
    let (voxels, steps) = run_search(vec![1, 2], &[(0, 0, 0), (0, 0, 0)], 2, 0);
    assert_eq!(steps, 1);
    assert_eq!(voxels.len(), 1);
    assert_eq!(voxels[0].num_cameras, 2);
    assert_eq!(voxels[0].cell.depth, 0);
}

#[test]
fn children_come_in_fixed_order_breadth_first() {
    let mut search = OctreeSearch::new(vec![9], 1, 1);
    let root = search.current_cell();
    assert_eq!((root.depth, root.x, root.y, root.z), (0, 0, 0, 0));
    assert_eq!(search.current_rays(), &vec![0]);
    search.resolve(&vec![true]);
    let mut order = vec![];
    while !search.is_done() {
        let c = search.current_cell();
        order.push((c.depth, c.x, c.y, c.z));
        assert_eq!(search.current_rays(), &vec![0]);
        search.resolve(&vec![false]);
    }
    assert_eq!(
        order,
        vec![
            (1, 0, 0, 0),
            (1, 1, 0, 0),
            (1, 0, 1, 0),
            (1, 0, 0, 1),
            (1, 1, 1, 0),
            (1, 1, 0, 1),
            (1, 0, 1, 1),
            (1, 1, 1, 1),
        ]
    );
    assert!(search.voxels().is_empty());
}

#[test]
fn children_carry_only_the_rays_that_hit() {
    let mut search = OctreeSearch::new(vec![1, 2, 3], 1, 2);
    search.resolve(&vec![true, false, true]);
    assert_eq!(search.current_rays(), &vec![0, 2]);
}

fn voxel(n: usize, x: u64) -> LeafVoxel {
    LeafVoxel { cell: Cell { depth: 3, x, y: 0, z: 0 }, num_cameras: n }
}

fn counts_and_xs(v: &[LeafVoxel]) -> Vec<(usize, u64)> {
    v.iter().map(|v| (v.num_cameras, v.cell.x)).collect()
}

#[test]
fn voxels_sort_stably_by_camera_count() {
    let v = vec![voxel(3, 0), voxel(1, 1), voxel(3, 2), voxel(2, 3), voxel(1, 4)];
    let sorted = sort_by_cameras(&v);
    assert_eq!(counts_and_xs(&sorted), vec![(1, 1), (1, 4), (2, 3), (3, 0), (3, 2)]);
    assert!(sort_by_cameras(&vec![]).is_empty());
}

#[test]
fn strongest_voxels_come_first() {
    let v = vec![voxel(3, 0), voxel(1, 1), voxel(3, 2), voxel(2, 3), voxel(1, 4)];
    let best = keep_strongest(sort_by_cameras(&v), 3);
    assert_eq!(counts_and_xs(&best), vec![(3, 2), (3, 0), (2, 3)]);
    let all = keep_strongest(sort_by_cameras(&v), 10);
    assert_eq!(all.len(), 5);
    assert!(keep_strongest(sort_by_cameras(&v), 0).is_empty());
}

#[test]
fn keep_strongest_reverses_and_cuts() {
    assert_eq!(keep_strongest(vec![1, 2, 3, 4], 2), vec![4, 3]);
    assert_eq!(keep_strongest(vec![1, 2], 5), vec![2, 1]);
    assert_eq!(keep_strongest(Vec::<u8>::new(), 5), Vec::<u8>::new());
}

/// Runs a merge scan in which detection values merge when the `overlap`
/// table says so; merging adds the first value to the second.
fn run_merge(values: Vec<u32>, overlap: &dyn Fn(usize, usize) -> bool) -> (Vec<u32>, Vec<(usize, usize)>) {
    let mut values = values;
    let mut scan = MergeScan::new(values.len());
    let mut offered = vec![];
    while let Some((i, j)) = scan.next_pair() {
        offered.push((i, j));
        if overlap(i, j) {
            values[j] += values[i];
            scan.merge_last();
        }
    }
    (scan.keep_unmerged(values), offered)
}

#[test]
fn merge_scan_offers_every_pair_when_nothing_overlaps() {
    let (kept, offered) = run_merge(vec![1, 2, 3], &|_, _| false);
    assert_eq!(kept, vec![1, 2, 3]);
    assert_eq!(offered, vec![(0, 1), (0, 2), (1, 2)]);
}

#[test]
fn merge_scan_skips_merged_detections() {
    let (kept, offered) = run_merge(vec![1, 2, 4, 8], &|i, j| (i, j) == (0, 1) || (i, j) == (1, 3));
    // 0 merges into 1; pairs (0, 2), (0, 3) are skipped; 1 merges into 3.
    assert_eq!(offered, vec![(0, 1), (1, 2), (1, 3), (2, 3)]);
    assert_eq!(kept, vec![4, 11]);
}

#[test]
fn merge_scan_chain_collapses_to_one() {
    let (kept, _) = run_merge(vec![1, 1, 1, 1, 1], &|_, _| true);
    assert_eq!(kept, vec![5]);
}

#[test]
fn merge_scan_of_nothing_or_one() {
    let (kept, offered) = run_merge(vec![], &|_, _| true);
    assert!(kept.is_empty() && offered.is_empty());
    let (kept, offered) = run_merge(vec![7], &|_, _| true);
    assert_eq!(kept, vec![7]);
    assert!(offered.is_empty());
}

#[test]
fn merge_flags_record_merged_detections() {
    let mut scan = MergeScan::new(3);
    assert_eq!(scan.next_pair(), Some((0, 1)));
    scan.merge_last();
    assert_eq!(scan.merged_flags(), &vec![true, false, false]);
    assert_eq!(scan.next_pair(), Some((1, 2)));
    assert_eq!(scan.next_pair(), None);
    assert_eq!(scan.next_pair(), None);
}

#[test]
fn first_result_within_reach_absorbs() {
    assert_eq!(absorbing_result(&vec![false, true, true]), Some(1));
    assert_eq!(absorbing_result(&vec![true]), Some(0));
    assert_eq!(absorbing_result(&vec![false, false]), None);
    assert_eq!(absorbing_result(&vec![]), None);
}

#[test]
fn sorting_sorted_voxels_changes_nothing() {
    let v = vec![voxel(1, 5), voxel(1, 2), voxel(2, 9), voxel(4, 0)];
    assert_eq!(counts_and_xs(&sort_by_cameras(&v)), counts_and_xs(&v));
}

#[test]
fn every_merge_drops_one_detection() {
    let (kept, _) = run_merge(vec![1, 2, 4, 8, 16], &|i, j| j == i + 1 && i % 2 == 0);
    // 0 into 1, 2 into 3; 4 stays.
    assert_eq!(kept, vec![3, 12, 16]);
    let mut scan = MergeScan::new(2);
    assert!(scan.next_pair().is_some());
    assert_eq!(scan.keep_unmerged(vec!['a', 'b']), vec!['a', 'b']);
}

/// A line-shaped geometry: ray `i` runs along x at height `(y, z)` of leaf
/// cubes, between leaf columns `from` and `to`.
fn line_crosses(line: (u64, u64, u64, u64), leaf_depth: u32, cell: Cell) -> bool {
    let (y, z, from, to) = line;
    let shift = leaf_depth - cell.depth;
    let (x_lo, x_hi) = (cell.x << shift, ((cell.x + 1) << shift) - 1);
    (y >> shift, z >> shift) == (cell.y, cell.z) && from <= x_hi && x_lo <= to
}

#[test]
fn search_finds_exactly_the_cubes_seen_all_the_way_down() {
    let leaf_depth = 2;
    let lines = [(1, 2, 0, 3), (1, 2, 2, 2), (1, 2, 1, 3), (3, 3, 0, 0), (1, 2, 3, 3), (3, 3, 0, 1)];
    let cams = vec![0, 1, 2, 0, 3, 1];
    let min_cameras = 2;

    let mut search = OctreeSearch::new(cams.clone(), min_cameras, leaf_depth);
    while !search.is_done() {
        let cell = search.current_cell();
        let hits: Vec<bool> = search
            .current_rays()
            .iter()
            .map(|&i| line_crosses(lines[i], leaf_depth, cell))
            .collect();
        search.resolve(&hits);
    }
    let found: Vec<(u64, u64, u64, usize)> = search
        .into_voxels()
        .iter()
        .map(|v| (v.cell.x, v.cell.y, v.cell.z, v.num_cameras))
        .collect();

    // Every leaf cube, and every ancestor of it, must be crossed by rays of
    // enough cameras, counting only rays that cross all cubes above.
    let count = |c: Cell| -> usize {
        let mut seen: Vec<u32> = vec![];
        for (i, line) in lines.iter().enumerate() {
            let down_to = (0..=c.depth).all(|e| {
                let s = c.depth - e;
                line_crosses(*line, leaf_depth, Cell { depth: e, x: c.x >> s, y: c.y >> s, z: c.z >> s })
            });
            if down_to && !seen.contains(&cams[i]) {
                seen.push(cams[i]);
            }
        }
        seen.len()
    };
    let mut expected = vec![];
    for x in 0..4u64 {
        for y in 0..4u64 {
            for z in 0..4u64 {
                let c = Cell { depth: leaf_depth, x, y, z };
                let good = (0..=leaf_depth).all(|e| {
                    let s = leaf_depth - e;
                    count(Cell { depth: e, x: x >> s, y: y >> s, z: z >> s }) >= min_cameras as usize
                });
                if good {
                    expected.push((x, y, z, count(c)));
                }
            }
        }
    }
    let mut sorted_found = found.clone();
    sorted_found.sort();
    expected.sort();
    assert_eq!(sorted_found, expected);
    assert!(!expected.is_empty());
}

#[test]
fn equal_searches_find_equal_voxels_each_once() {
    let cams = vec![0, 1, 2, 0, 1];
    let targets = [(1, 2, 3), (1, 2, 3), (1, 2, 3), (0, 0, 0), (0, 0, 0)];
    let (first, _) = run_search(cams.clone(), &targets, 2, 2);
    let (second, _) = run_search(cams, &targets, 2, 2);
    assert_eq!(counts_and_xs(&first), counts_and_xs(&second));
    let cells: Vec<(u32, u64, u64, u64)> =
        first.iter().map(|v| (v.cell.depth, v.cell.x, v.cell.y, v.cell.z)).collect();
    let mut unique = cells.clone();
    unique.sort();
    unique.dedup();
    assert_eq!(unique.len(), cells.len());
    assert_eq!(cells.len(), 2);
}
