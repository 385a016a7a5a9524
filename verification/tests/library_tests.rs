use maze_generator::checkpoint::{pick_checkpoints_in_region, rank_farthest};
use maze_generator::export::pack_maps;
use maze_generator::generation::{generate_map, map_seed};
use maze_generator::grid::{grid_to_maze, maze_to_grid, min_sq_dist_exec, neighbors, sq_dist_exec};
use maze_generator::maze::{find_path_in_maze, generate_maze_dfs, trace_path};
use maze_generator::plan::build_plan;
use maze_generator::region::partition_regions;
use maze_generator::render::{layer_pixels, route_color_exec};
use maze_generator::types::{LayerRouteData, MazeMap};
use maze_generator::validation::{issue_message, map_issues, validate_map, MapIssue};
use rand::rngs::StdRng;
use rand::SeedableRng;
use std::collections::HashSet;

type Cell = (usize, usize);

fn all_cells(h: usize, w: usize) -> Vec<Cell> {
    let mut v = Vec::new();
    for i in 0..h {
        for j in 0..w {
            v.push((i, j));
        }
    }
    v
}

fn adjacent(a: Cell, b: Cell) -> bool {
    (a.0 == b.0 && (a.1 + 1 == b.1 || b.1 + 1 == a.1)) || (a.1 == b.1 && (a.0 + 1 == b.0 || b.0 + 1 == a.0))
}

fn joined(edges: &[(Cell, Cell)], a: Cell, b: Cell) -> bool {
    edges.iter().any(|&(x, y)| (x == a && y == b) || (x == b && y == a))
}

#[test]
fn maze_and_grid_coordinates_round_trip() {
    assert_eq!(maze_to_grid(0, 0), (1, 1));
    assert_eq!(maze_to_grid(3, 4), (7, 9));
    assert_eq!(grid_to_maze(7, 9), (3, 4));
    assert_eq!(grid_to_maze(8, 10), (3, 4));
    for mi in 0..6 {
        for mj in 0..6 {
            let (y, x) = maze_to_grid(mi, mj);
            assert_eq!(grid_to_maze(y, x), (mi, mj));
        }
    }
}

#[test]
fn neighbors_come_right_left_down_up_inside_the_lattice() {
    assert_eq!(neighbors((1, 1), 3, 3), vec![(1, 2), (1, 0), (2, 1), (0, 1)]);
    assert_eq!(neighbors((0, 0), 3, 3), vec![(0, 1), (1, 0)]);
    assert_eq!(neighbors((2, 2), 3, 3), vec![(2, 1), (1, 2)]);
}

#[test]
fn squared_distances() {
    assert_eq!(sq_dist_exec((0, 0), (3, 4)), 25);
    assert_eq!(sq_dist_exec((3, 4), (0, 0)), 25);
    assert_eq!(min_sq_dist_exec((0, 0), &vec![(3, 4), (1, 1), (5, 5)]), 2);
    assert_eq!(min_sq_dist_exec((0, 0), &vec![]), 0);
}

#[test]
fn rank_farthest_is_a_stable_descending_prefix() {
    let d = vec![3, 9, 9, 1, 7];
    assert_eq!(rank_farthest(&d, 3), vec![1, 2, 4]);
    assert_eq!(rank_farthest(&d, 10), vec![1, 2, 4, 0, 3]);
    assert_eq!(rank_farthest(&d, 0), Vec::<usize>::new());
}

#[test]
fn partition_covers_the_lattice_with_disjoint_connected_regions() {
    let mut rng = StdRng::seed_from_u64(7);
    let (w, h, goals) = (8, 6, 3);
    let regions = partition_regions(&mut rng, w, h, goals);
    assert_eq!(regions.len(), goals);
    let mut seen = HashSet::new();
    for region in &regions {
        assert!(!region.is_empty());
        for (t, &c) in region.iter().enumerate() {
            assert!(c.0 < h && c.1 < w);
            assert!(seen.insert(c), "cell {:?} in two regions", c);
            if t > 0 {
                assert!(region[..t].iter().any(|&u| adjacent(u, c)));
            }
        }
    }
    assert_eq!(seen.len(), w * h);
}

#[test]
fn region_seeds_are_spread_far_from_earlier_seeds() {
    let (w, h, goals) = (12, 9, 5);
    for seed in 0..10u64 {
        let mut rng = StdRng::seed_from_u64(seed);
        let regions = partition_regions(&mut rng, w, h, goals);
        let seeds: Vec<Cell> = regions.iter().map(|r| r[0]).collect();
        for g in 1..goals {
            let nearest = |c: Cell| {
                seeds[..g]
                    .iter()
                    .map(|&s| {
                        let dy = c.0 as i64 - s.0 as i64;
                        let dx = c.1 as i64 - s.1 as i64;
                        dy * dy + dx * dx
                    })
                    .min()
                    .unwrap()
            };
            let farthest = all_cells(h, w).into_iter().map(nearest).max().unwrap();
            assert!(nearest(seeds[g]) >= farthest * 3 / 4);
            assert!(nearest(seeds[g]) > 0);
        }
    }
}

#[test]
fn every_cell_joins_a_region_whose_seed_is_nearest() {
    let (w, h, goals) = (10, 7, 4);
    let steps = |a: Cell, b: Cell| a.0.abs_diff(b.0) + a.1.abs_diff(b.1);
    for seed in 0..10u64 {
        let mut rng = StdRng::seed_from_u64(seed);
        let regions = partition_regions(&mut rng, w, h, goals);
        let seeds: Vec<Cell> = regions.iter().map(|r| r[0]).collect();
        for (r, region) in regions.iter().enumerate() {
            for &c in region {
                for &s in &seeds {
                    assert!(steps(c, seeds[r]) <= steps(c, s));
                }
            }
        }
    }
}

#[test]
fn partition_with_no_goals_is_empty() {
    let mut rng = StdRng::seed_from_u64(1);
    assert!(partition_regions(&mut rng, 4, 4, 0).is_empty());
}

#[test]
fn dfs_maze_is_a_spanning_tree_of_its_region() {
    let mut rng = StdRng::seed_from_u64(3);
    let region = all_cells(3, 4);
    let edges = generate_maze_dfs(&mut rng, &region, 4, 3);
    assert_eq!(edges.len(), region.len() - 1);
    let mut distinct = HashSet::new();
    for &(a, b) in &edges {
        assert!(adjacent(a, b));
        assert!(a < b);
        assert!(region.contains(&a) && region.contains(&b));
        assert!(distinct.insert((a, b)));
    }
    for &c in &region {
        let path = find_path_in_maze((0, 0), c, &edges, &region);
        assert_eq!(path[0], (0, 0));
        assert_eq!(*path.last().unwrap(), c);
        for k in 0..path.len() - 1 {
            assert!(joined(&edges, path[k], path[k + 1]));
        }
    }
}

#[test]
fn paths_through_a_dfs_maze_are_simple_and_shortest() {
    let mut rng = StdRng::seed_from_u64(21);
    let region = all_cells(5, 6);
    let edges = generate_maze_dfs(&mut rng, &region, 6, 5);
    let start = (2, 3);
    let mut dist = std::collections::HashMap::new();
    dist.insert(start, 0usize);
    let mut queue = std::collections::VecDeque::new();
    queue.push_back(start);
    while let Some(c) = queue.pop_front() {
        let d = dist[&c];
        for &n in &region {
            if joined(&edges, c, n) && !dist.contains_key(&n) {
                dist.insert(n, d + 1);
                queue.push_back(n);
            }
        }
    }
    for &c in &region {
        let path = find_path_in_maze(start, c, &edges, &region);
        let distinct: HashSet<Cell> = path.iter().copied().collect();
        assert_eq!(distinct.len(), path.len());
        assert_eq!(path.len(), dist[&c] + 1);
    }
}

#[test]
fn dfs_maze_has_a_root_that_puts_adjacent_cells_on_one_branch() {
    let mut rng = StdRng::seed_from_u64(8);
    let region = all_cells(4, 5);
    let edges = generate_maze_dfs(&mut rng, &region, 5, 4);
    let ancestor = |parent: &std::collections::HashMap<Cell, Cell>, a: Cell, b: Cell| {
        let mut c = b;
        loop {
            if c == a {
                return true;
            }
            match parent.get(&c) {
                Some(&p) => c = p,
                None => return false,
            }
        }
    };
    let mut some_root_works = false;
    for &root in &region {
        let mut parent = std::collections::HashMap::new();
        let mut seen = HashSet::new();
        seen.insert(root);
        let mut queue = std::collections::VecDeque::new();
        queue.push_back(root);
        while let Some(c) = queue.pop_front() {
            for &n in &region {
                if joined(&edges, c, n) && seen.insert(n) {
                    parent.insert(n, c);
                    queue.push_back(n);
                }
            }
        }
        let ok = region.iter().all(|&a| {
            region
                .iter()
                .all(|&b| !adjacent(a, b) || ancestor(&parent, a, b) || ancestor(&parent, b, a))
        });
        if ok {
            some_root_works = true;
        }
    }
    assert!(some_root_works);
}

#[test]
fn dfs_maze_of_empty_region_has_no_passages() {
    let mut rng = StdRng::seed_from_u64(3);
    assert!(generate_maze_dfs(&mut rng, &vec![], 4, 4).is_empty());
}

#[test]
fn find_path_follows_passages_and_finds_the_shortest() {
    let edges = vec![((0, 0), (0, 1)), ((0, 1), (0, 2)), ((0, 2), (1, 2)), ((0, 0), (1, 0)), ((1, 0), (1, 1))];
    let region = all_cells(2, 3);
    assert_eq!(find_path_in_maze((1, 1), (1, 2), &edges, &region), vec![(1, 1), (1, 0), (0, 0), (0, 1), (0, 2), (1, 2)]);
    assert_eq!(find_path_in_maze((0, 1), (0, 1), &edges, &region), vec![(0, 1)]);
}

#[test]
fn find_path_without_a_connection_returns_start_and_end() {
    let edges = vec![((0, 0), (0, 1))];
    let region = all_cells(2, 2);
    assert_eq!(find_path_in_maze((0, 0), (1, 1), &edges, &region), vec![(0, 0), (1, 1)]);
    assert!(trace_path((0, 0), (1, 1), &edges).is_none());
}

#[test]
fn checkpoints_avoid_excluded_cells() {
    let mut rng = StdRng::seed_from_u64(11);
    let region = all_cells(4, 4);
    let exclude = vec![(0, 0), (3, 3)];
    let cps = pick_checkpoints_in_region(&mut rng, &region, 4, &exclude);
    assert_eq!(cps.len(), 4);
    let distinct: HashSet<Cell> = cps.iter().copied().collect();
    assert_eq!(distinct.len(), 4);
    for c in &cps {
        assert!(region.contains(c));
        assert!(!exclude.contains(c));
    }
}

#[test]
fn each_later_checkpoint_is_among_the_five_farthest_candidates() {
    let region = all_cells(9, 9);
    let exclude = vec![(4, 4)];
    for seed in 0..20u64 {
        let mut rng = StdRng::seed_from_u64(seed);
        let cps = pick_checkpoints_in_region(&mut rng, &region, 6, &exclude);
        assert_eq!(cps.len(), 6);
        for k in 1..cps.len() {
            let before = &cps[..k];
            let nearest = |c: Cell| {
                before
                    .iter()
                    .map(|&b| {
                        let dy = c.0 as i64 - b.0 as i64;
                        let dx = c.1 as i64 - b.1 as i64;
                        dy * dy + dx * dx
                    })
                    .min()
                    .unwrap()
            };
            let mine = nearest(cps[k]);
            let farther = region
                .iter()
                .filter(|c| !exclude.contains(c) && !before.contains(c) && nearest(**c) > mine)
                .count();
            assert!(farther < 5, "seed {} pick {} had {} farther cells", seed, k, farther);
        }
    }
}

#[test]
fn checkpoints_take_every_available_cell_when_asked_for_more() {
    let mut rng = StdRng::seed_from_u64(5);
    let region = vec![(0, 0), (0, 1), (1, 0)];
    let exclude = vec![(0, 1)];
    let mut cps = pick_checkpoints_in_region(&mut rng, &region, 5, &exclude);
    cps.sort();
    assert_eq!(cps, vec![(0, 0), (1, 0)]);
}

#[test]
fn checkpoints_fall_back_to_the_region_when_everything_is_excluded() {
    let mut rng = StdRng::seed_from_u64(5);
    let region = vec![(0, 0), (0, 1), (1, 0)];
    let cps = pick_checkpoints_in_region(&mut rng, &region, 2, &region);
    assert_eq!(cps.len(), 2);
    assert!(cps.iter().all(|c| region.contains(c)));
    assert_ne!(cps[0], cps[1]);
}

#[test]
fn zero_checkpoints_still_pick_one_from_a_large_region() {
    let mut rng = StdRng::seed_from_u64(5);
    let region = all_cells(3, 3);
    let cps = pick_checkpoints_in_region(&mut rng, &region, 0, &vec![]);
    assert_eq!(cps.len(), 1);
}

#[test]
fn plans_without_vias_when_one_layer_or_no_vias_asked() {
    let mut rng = StdRng::seed_from_u64(9);
    let region = all_cells(4, 4);
    let tree = generate_maze_dfs(&mut rng, &region, 4, 4);
    let one_layer = build_plan(&mut rng, &region, &tree, 1, 4, 3);
    assert!(one_layer.vias.is_empty());
    assert_eq!(one_layer.pieces.len(), 1);
    let no_vias = build_plan(&mut rng, &region, &tree, 3, 4, 0);
    assert!(no_vias.vias.is_empty());
    let with_vias = build_plan(&mut rng, &region, &tree, 2, 4, 2);
    assert!(with_vias.vias.len() <= 2);
    assert_eq!(with_vias.pieces.len(), with_vias.vias.len() + 1);
    for v in &with_vias.vias {
        assert!(region.contains(v));
    }
}

#[test]
fn map_seed_formula() {
    assert_eq!(map_seed(0), 0xCAFE);
    assert_eq!(map_seed(1), 0xDEADBEEF + 0xCAFE);
    assert_eq!(map_seed(2), 2 * 0xDEADBEEF + 0xCAFE);
    assert_eq!(map_seed(u64::MAX), 0u64.wrapping_sub(0xDEADBEEF).wrapping_add(0xCAFE));
}

#[test]
fn too_small_map_is_all_wall() {
    let (map, data) = generate_map(1, 4, 4, 2, 2, 3, 1);
    assert_eq!(map.puzzle.len(), 2 * 3 * 16);
    assert_eq!(map.solution.len(), 2 * 16);
    assert!(map.puzzle.iter().all(|&v| v == 1));
    assert!(map.solution.iter().all(|&v| v == 0));
    assert_eq!(data.len(), 2);
    for d in &data {
        assert!(d.route_owner.iter().all(|&o| o == 2));
        assert!(d.checkpoints.iter().all(|c| c.is_empty()));
        assert!(d.vias.iter().all(|v| v.is_empty()));
    }
}

#[test]
fn generated_layers_keep_their_promises() {
    let (w, h, layers, goals) = (20, 16, 2, 3);
    let (map, data) = generate_map(map_seed(4), w, h, layers, goals, 3, 1);
    let cs = w * h;
    assert_eq!(map.puzzle.len(), layers * (goals + 1) * cs);
    assert_eq!(map.solution.len(), layers * cs);
    for l in 0..layers {
        let chans = &map.puzzle[l * (goals + 1) * cs..(l + 1) * (goals + 1) * cs];
        let sol = &map.solution[l * cs..(l + 1) * cs];
        let d = &data[l];
        assert!(chans.iter().all(|&v| v == 0 || v == 1));
        assert!(sol.iter().all(|&v| v == 0 || v == 1));
        for i in 0..cs {
            if sol[i] == 1 {
                assert_eq!(chans[i], 0);
                assert!((d.route_owner[i] as usize) < goals);
            }
            if chans[i] == 1 {
                assert_eq!(d.route_owner[i] as usize, goals);
            }
        }
        for r in 0..goals {
            for &(y, x) in d.checkpoints[r].iter().chain(d.vias[r].iter()) {
                assert_eq!(chans[(r + 1) * cs + y * w + x], 1);
            }
            for &(y, x) in &d.vias[r] {
                assert_eq!(chans[y * w + x], 0);
            }
            for &(y, x) in &d.checkpoints[r] {
                assert_eq!(sol[y * w + x], 1);
            }
        }
    }
    let errors = validate_map(&map, w, h, layers, goals, 3, 1);
    assert!(errors.iter().all(|e| !e.contains("wall/solution")));
}

#[test]
fn validation_reports_each_issue_with_its_text() {
    // One route on a 2 x 1 grid over two layers.
    let mut puzzle = vec![0i8; 2 * 2 * 2];
    let mut solution = vec![0i8; 2 * 2];
    puzzle[0] = 1; // layer 0: a wall at cell 0
    solution[0] = 1; // ... that is also a path cell
    puzzle[2 * 2 + 2] = 1; // layer 1: one checkpoint of route 0
    let map = MazeMap { puzzle, solution: solution.clone() };
    let errors = validate_map(&map, 2, 1, 2, 1, 3, 1);
    assert_eq!(
        errors,
        vec![
            "Layer 0: 1 wall/solution overlaps".to_string(),
            "Route 0: only 1 checkpoint cells (expected >= 3)".to_string(),
            "Layer 1: no solution path cells".to_string(),
        ]
    );
    let issues = map_issues(&map, 2, 1, 2, 1, 3, 1);
    assert_eq!(issues.len(), 3);
    assert!(matches!(issues[0], MapIssue::WallSolutionOverlap { layer: 0, count: 1 }));
    assert!(matches!(issues[1], MapIssue::TooFewCheckpoints { route: 0, found: 1, expected: 3 }));
    assert!(matches!(issues[2], MapIssue::NoSolutionCells { layer: 1 }));
    // Without vias asked for, an empty layer is no issue.
    let quiet = validate_map(&map, 2, 1, 2, 1, 1, 0);
    assert_eq!(quiet, vec!["Layer 0: 1 wall/solution overlaps".to_string()]);
}

#[test]
fn issue_messages_print_numbers_in_decimal() {
    assert_eq!(issue_message(&MapIssue::WallSolutionOverlap { layer: 12, count: 305 }), "Layer 12: 305 wall/solution overlaps");
    assert_eq!(
        issue_message(&MapIssue::TooFewCheckpoints { route: 0, found: 10, expected: 100 }),
        "Route 0: only 10 checkpoint cells (expected >= 100)"
    );
    assert_eq!(issue_message(&MapIssue::NoSolutionCells { layer: 7 }), "Layer 7: no solution path cells");
}

#[test]
fn pack_maps_stacks_maps_and_keeps_bytes() {
    let a = MazeMap { puzzle: vec![1, 0, -1, 0], solution: vec![0, 1] };
    let b = MazeMap { puzzle: vec![0, 1, 1, 0], solution: vec![1, 0] };
    let p = pack_maps(&vec![a, b], 2, 1, 1, 1);
    assert_eq!(p.puzzle_bytes, vec![1, 0, 255, 0, 0, 1, 1, 0]);
    assert_eq!(p.solution_bytes, vec![0, 1, 1, 0]);
    assert_eq!(p.puzzle_shape, vec![2, 1, 2, 1, 2]);
    assert_eq!(p.solution_shape, vec![2, 1, 1, 2]);
}

#[test]
fn pack_maps_zero_fills_maps_shorter_than_the_shape() {
    let a = MazeMap { puzzle: vec![1, -1], solution: vec![1] };
    let p = pack_maps(&vec![a], 2, 1, 1, 1);
    assert_eq!(p.puzzle_bytes, vec![1, 255, 0, 0]);
    assert_eq!(p.solution_bytes, vec![1, 0]);
}

#[test]
fn route_colors_cycle_through_the_palette() {
    assert_eq!(route_color_exec(0), (220, 50, 50));
    assert_eq!(route_color_exec(2), (50, 80, 220));
    assert_eq!(route_color_exec(9), (200, 50, 120));
    assert_eq!(route_color_exec(11), (50, 180, 50));
}

#[test]
fn layer_pixels_colors_each_cell() {
    // A 3 x 1 layer with one route: a wall, a path cell, a checkpoint.
    let map = MazeMap { puzzle: vec![1, 0, 0, 0, 0, 1], solution: vec![0, 1, 0] };
    let rd = LayerRouteData {
        route_owner: vec![1, 0, 0],
        checkpoints: vec![vec![(0, 2)]],
        vias: vec![vec![]],
    };
    let px = layer_pixels(&map, &rd, 3, 1, 1, 0);
    assert_eq!(px, vec![0, 0, 0, 220, 50, 50, 255, 255, 255]);
    let rd_via = LayerRouteData {
        route_owner: vec![1, 0, 0],
        checkpoints: vec![vec![(0, 2)]],
        vias: vec![vec![(0, 2), (0, 1)]],
    };
    let px = layer_pixels(&map, &rd_via, 3, 1, 1, 0);
    assert_eq!(px, vec![0, 0, 0, 255, 255, 0, 255, 255, 0]);
    let grey = MazeMap { puzzle: vec![0, 0, 0, 0, 0, 0], solution: vec![0, 0, 0] };
    let rd_none = LayerRouteData { route_owner: vec![1, 1, 1], checkpoints: vec![vec![]], vias: vec![vec![]] };
    assert_eq!(layer_pixels(&grey, &rd_none, 3, 1, 1, 0), vec![128; 9]);
}

#[test]
fn every_checkpoint_lies_on_its_routes_path() {
    for seed in 0..6u64 {
        for &(layers, via) in &[(1usize, 0usize), (2, 1), (3, 2)] {
            let (w, h, goals, checkpoints) = (24, 20, 3, 4);
            let (map, data) = generate_map(map_seed(seed), w, h, layers, goals, checkpoints, via);
            let cs = w * h;
            let mut listed = vec![0usize; goals];
            for l in 0..layers {
                for r in 0..goals {
                    for &(y, x) in &data[l].checkpoints[r] {
                        listed[r] += 1;
                        assert_eq!(map.solution[l * cs + y * w + x], 1);
                        assert_eq!(data[l].route_owner[y * w + x] as usize, r);
                    }
                    assert!(data[l].vias[r].len() <= via);
                }
            }
            for r in 0..goals {
                assert_eq!(listed[r], checkpoints, "route {} lists {} checkpoints", r, listed[r]);
            }
        }
    }
}

/// Breadth-first search over the path cells of route `r`, moving to
/// 4-adjacent cells within a layer or through a via listed on both layers.
fn route_reach(
    map: &MazeMap,
    data: &[LayerRouteData],
    w: usize,
    h: usize,
    layers: usize,
    r: usize,
    start: (usize, usize, usize),
) -> HashSet<(usize, usize, usize)> {
    let cs = w * h;
    let on_path = |l: usize, y: usize, x: usize| {
        map.solution[l * cs + y * w + x] == 1 && data[l].route_owner[y * w + x] as usize == r
    };
    let mut seen = HashSet::new();
    if !on_path(start.0, start.1, start.2) {
        return seen;
    }
    let mut queue = std::collections::VecDeque::new();
    seen.insert(start);
    queue.push_back(start);
    while let Some((l, y, x)) = queue.pop_front() {
        let mut next = Vec::new();
        if y + 1 < h {
            next.push((l, y + 1, x));
        }
        if y > 0 {
            next.push((l, y - 1, x));
        }
        if x + 1 < w {
            next.push((l, y, x + 1));
        }
        if x > 0 {
            next.push((l, y, x - 1));
        }
        if data[l].vias[r].contains(&(y, x)) {
            for l2 in 0..layers {
                if l2 != l && data[l2].vias[r].contains(&(y, x)) {
                    next.push((l2, y, x));
                }
            }
        }
        for n in next {
            if on_path(n.0, n.1, n.2) && seen.insert(n) {
                queue.push_back(n);
            }
        }
    }
    seen
}

#[test]
fn every_route_connects_all_its_checkpoints() {
    for seed in 0..5u64 {
        for &(layers, via) in &[(1usize, 0usize), (2, 0), (2, 1), (3, 3)] {
            let (w, h, goals, checkpoints) = (30, 22, 3, 4);
            let (map, data) = generate_map(map_seed(seed), w, h, layers, goals, checkpoints, via);
            for r in 0..goals {
                let mut marks = Vec::new();
                for l in 0..layers {
                    for &(y, x) in &data[l].checkpoints[r] {
                        marks.push((l, y, x));
                    }
                }
                assert!(!marks.is_empty());
                let reach = route_reach(&map, &data, w, h, layers, r, marks[0]);
                for m in &marks {
                    assert!(reach.contains(m), "seed {} route {}: {:?} not reached", seed, r, m);
                }
            }
        }
    }
}

#[test]
fn vias_are_laid_on_odd_path_cells_of_their_own_route() {
    let (w, h, layers, goals) = (24, 20, 3, 2);
    for seed in 0..4u64 {
        let (map, data) = generate_map(map_seed(seed), w, h, layers, goals, 3, 2);
        let cs = w * h;
        let mut seen: Vec<(usize, Cell)> = Vec::new();
        for r in 0..goals {
            assert!(!data[0].vias[r].is_empty(), "route {} has no via on layer 0", r);
        }
        for l in 0..layers {
            for r in 0..goals {
                for &(y, x) in data[l].checkpoints[r].iter().chain(data[l].vias[r].iter()) {
                    assert!(y % 2 == 1 && x % 2 == 1);
                    assert_eq!(map.solution[l * cs + y * w + x], 1);
                    assert_eq!(data[l].route_owner[y * w + x] as usize, r);
                }
                for &v in &data[l].vias[r] {
                    assert!(seen.iter().all(|&(r2, v2)| r2 == r || v2 != v));
                    seen.push((r, v));
                }
            }
        }
    }
}

#[test]
fn open_cells_of_different_routes_never_touch() {
    let (w, h, layers, goals) = (30, 26, 2, 3);
    for seed in 0..4u64 {
        let (map, data) = generate_map(map_seed(seed), w, h, layers, goals, 2, 1);
        let cs = w * h;
        for l in 0..layers {
            let base = l * (goals + 1) * cs;
            for y in 0..h {
                for x in 0..w {
                    let i = y * w + x;
                    let o = data[l].route_owner[i] as usize;
                    if o >= goals || map.puzzle[base + i] != 0 {
                        continue;
                    }
                    for (y2, x2) in [(y + 1, x), (y, x + 1)] {
                        if y2 < h && x2 < w {
                            let j = y2 * w + x2;
                            let o2 = data[l].route_owner[j] as usize;
                            if o2 < goals && map.puzzle[base + j] == 0 {
                                assert_eq!(o, o2);
                            }
                        }
                    }
                }
            }
        }
    }
}

#[test]
fn issue_messages_print_the_largest_numbers() {
    assert_eq!(
        issue_message(&MapIssue::NoSolutionCells { layer: usize::MAX }),
        format!("Layer {}: no solution path cells", usize::MAX)
    );
    assert_eq!(
        issue_message(&MapIssue::TooFewCheckpoints { route: 9, found: 0, expected: 1000000007 }),
        "Route 9: only 0 checkpoint cells (expected >= 1000000007)"
    );
}
