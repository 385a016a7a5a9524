use vstd::prelude::*;
use crate::generation::{block, layer_ok};
use crate::grid::{Cell, adjacent, all_in_bounds, flat, in_bounds};
use crate::maze::{Edge, closed_in_region, grown_tree, joined, links, passages_in, tree_step, walk};
use crate::plan::{edges_within, lemma_walk_within};
use crate::region::{grows_connected, has_earlier_neighbor, pairwise_disjoint};
use crate::connect::{route_stop, route_walk};
use crate::types::{LayerRouteData, MazeMap};
use crate::validation::{checkpoint_issues, count_both, map_issues_spec, overlap_issues, path_issues, MapIssue};

verus! {

/// No position below `n` has a 1 in both sequences, so none is counted.
proof fn lemma_count_both_zero(p: Seq<i8>, ps: int, q: Seq<i8>, qs: int, n: int)
    requires
        forall|i: int| 0 <= i < n ==> !(#[trigger] p[ps + i] == 1 && q[qs + i] == 1),
    ensures
        count_both(p, ps, q, qs, n) == 0,
    decreases n,
{
    if n > 0 {
        lemma_count_both_zero(p, ps, q, qs, n - 1);
        assert(!(p[ps + (n - 1)] == 1 && q[qs + (n - 1)] == 1));
    }
}

/// A layer as `generate_map` promises it has no cell that is both wall and
/// path.
proof fn lemma_layer_without_overlap(m: MazeMap, d: LayerRouteData, l: int, goals: int, h: int, w: int)
    requires
        0 <= goals,
        0 <= h,
        0 <= w,
        0 <= l,
        (l + 1) * ((goals + 1) * (h * w)) <= m.puzzle@.len(),
        (l + 1) * (h * w) <= m.solution@.len(),
        layer_ok(block(m.puzzle@, l, (goals + 1) * (h * w)), block(m.solution@, l, h * w), d, goals, h, w),
    ensures
        count_both(m.puzzle@, l * (goals + 1) * (h * w), m.solution@, l * (h * w), h * w) == 0,
{
    let cs = h * w;
    let b = (goals + 1) * cs;
    let chans = block(m.puzzle@, l, b);
    let sol = block(m.solution@, l, cs);
    assert(l * (goals + 1) * cs == l * b) by (nonlinear_arith)
        requires
            b == (goals + 1) * cs,
    ;
    assert(0 <= l * b && l * b + b == (l + 1) * b && 0 <= l * cs && l * cs + cs == (l + 1) * cs) by (nonlinear_arith)
        requires
            0 <= l,
            0 <= cs,
            0 <= goals,
            b == (goals + 1) * cs,
    ;
    assert(cs <= b) by (nonlinear_arith)
        requires
            b == (goals + 1) * cs,
            0 <= goals,
            0 <= cs,
    ;
    assert forall|i: int| 0 <= i < cs implies !(#[trigger] m.puzzle@[l * (goals + 1) * cs + i] == 1 && m.solution@[l
        * cs + i] == 1) by {
        let y = i / w;
        let x = i % w;
        assert(w > 0) by (nonlinear_arith)
            requires
                0 <= i < cs,
                cs == h * w,
                0 <= h,
        ;
        assert(0 <= y < h && 0 <= x < w && flat(y, x, w) == i) by (nonlinear_arith)
            requires
                0 <= i < cs,
                cs == h * w,
                w > 0,
                y == i / w,
                x == i % w,
        ;
        assert(sol[i] == m.solution@[l * cs + i]);
        assert(chans[i] == m.puzzle@[l * b + i]);
        if sol[flat(y, x, w)] == 1 {
            assert(chans[flat(y, x, w)] == 0);
        }
    }
    lemma_count_both_zero(m.puzzle@, l * (goals + 1) * cs, m.solution@, l * cs, cs);
}

/// Validation finds no wall/path overlap in any layer of a map whose layers
/// are all as `generate_map` promises them: in every generated map a path
/// cell is never a wall. Of all the issues validation can report, none is an
/// overlap.
pub proof fn lemma_generated_maps_have_no_overlap(
    m: MazeMap,
    data: Seq<LayerRouteData>,
    width: int,
    height: int,
    layers: int,
    goals: int,
    checkpoints: int,
    via_count: int,
)
    requires
        0 <= goals,
        0 <= height,
        0 <= width,
        0 <= layers,
        m.puzzle@.len() == layers * ((goals + 1) * (height * width)),
        m.solution@.len() == layers * (height * width),
        data.len() == layers,
        forall|l: int|
            0 <= l < layers ==> layer_ok(
                block(m.puzzle@, l, (goals + 1) * (height * width)),
                block(m.solution@, l, height * width),
                #[trigger] data[l],
                goals,
                height,
                width,
            ),
    ensures
        overlap_issues(m, layers, goals, height * width) == Seq::<MapIssue>::empty(),
        forall|i: int|
            0 <= i < map_issues_spec(m, width, height, layers, goals, checkpoints, via_count).len()
                ==> !(#[trigger] map_issues_spec(m, width, height, layers, goals, checkpoints, via_count)[i] is WallSolutionOverlap),
{
    let cs = height * width;
    lemma_overlap_prefix(m, data, layers, goals, height, width);
    lemma_other_issues_are_not_overlaps(m, goals, layers, goals, cs, checkpoints, via_count);
    let all = map_issues_spec(m, width, height, layers, goals, checkpoints, via_count);
    let rest = checkpoint_issues(m, goals, layers, goals, cs, checkpoints)
        + path_issues(m, layers, layers, cs, via_count);
    assert(all =~= overlap_issues(m, layers, goals, cs) + rest);
    assert forall|i: int| 0 <= i < all.len() implies !(#[trigger] all[i] is WallSolutionOverlap) by {
        assert(all[i] == rest[i]);
        let c = checkpoint_issues(m, goals, layers, goals, cs, checkpoints);
        if i < c.len() {
            assert(rest[i] == c[i]);
        } else {
            assert(rest[i] == path_issues(m, layers, layers, cs, via_count)[i - c.len()]);
        }
    }
}

/// The overlap issues of the first `k` layers of such a map are none.
proof fn lemma_overlap_prefix(m: MazeMap, data: Seq<LayerRouteData>, k: int, goals: int, h: int, w: int)
    requires
        0 <= goals,
        0 <= h,
        0 <= w,
        0 <= k,
        data.len() >= k,
        k * ((goals + 1) * (h * w)) <= m.puzzle@.len(),
        k * (h * w) <= m.solution@.len(),
        forall|l: int|
            0 <= l < k ==> layer_ok(
                block(m.puzzle@, l, (goals + 1) * (h * w)),
                block(m.solution@, l, h * w),
                #[trigger] data[l],
                goals,
                h,
                w,
            ),
    ensures
        overlap_issues(m, k, goals, h * w) == Seq::<MapIssue>::empty(),
    decreases k,
{
    if k > 0 {
        let cs = h * w;
        let b = (goals + 1) * cs;
        assert(0 <= cs && 0 <= b && (k - 1) * b <= k * b && (k - 1) * cs <= k * cs) by (nonlinear_arith)
            requires
                0 <= h,
                0 <= w,
                0 <= goals,
                1 <= k,
                cs == h * w,
                b == (goals + 1) * cs,
        ;
        lemma_overlap_prefix(m, data, k - 1, goals, h, w);
        assert(layer_ok(block(m.puzzle@, k - 1, b), block(m.solution@, k - 1, cs), data[k - 1], goals, h, w));
        lemma_layer_without_overlap(m, data[k - 1], k - 1, goals, h, w);
        assert(overlap_issues(m, k, goals, cs) =~= Seq::<MapIssue>::empty());
    }
}

/// Checkpoint and empty-path issues are never overlap issues.
proof fn lemma_other_issues_are_not_overlaps(
    m: MazeMap,
    k: int,
    layers: int,
    goals: int,
    cs: int,
    checkpoints: int,
    via_count: int,
)
    ensures
        forall|i: int|
            0 <= i < checkpoint_issues(m, k, layers, goals, cs, checkpoints).len()
                ==> !(#[trigger] checkpoint_issues(m, k, layers, goals, cs, checkpoints)[i] is WallSolutionOverlap),
        forall|i: int|
            0 <= i < path_issues(m, layers, layers, cs, via_count).len()
                ==> !(#[trigger] path_issues(m, layers, layers, cs, via_count)[i] is WallSolutionOverlap),
{
    lemma_checkpoint_issues_kind(m, k, layers, goals, cs, checkpoints);
    lemma_path_issues_kind(m, layers, layers, cs, via_count);
}

proof fn lemma_checkpoint_issues_kind(m: MazeMap, k: int, layers: int, goals: int, cs: int, checkpoints: int)
    ensures
        forall|i: int|
            0 <= i < checkpoint_issues(m, k, layers, goals, cs, checkpoints).len()
                ==> (#[trigger] checkpoint_issues(m, k, layers, goals, cs, checkpoints)[i] is TooFewCheckpoints),
    decreases k,
{
    if k > 0 {
        lemma_checkpoint_issues_kind(m, k - 1, layers, goals, cs, checkpoints);
        let prev = checkpoint_issues(m, k - 1, layers, goals, cs, checkpoints);
        let cur = checkpoint_issues(m, k, layers, goals, cs, checkpoints);
        assert forall|i: int| 0 <= i < cur.len() implies (#[trigger] cur[i] is TooFewCheckpoints) by {
            if i < prev.len() {
                assert(cur[i] == prev[i]);
            }
        }
    }
}

proof fn lemma_path_issues_kind(m: MazeMap, k: int, layers: int, cs: int, via_count: int)
    ensures
        forall|i: int|
            0 <= i < path_issues(m, k, layers, cs, via_count).len()
                ==> (#[trigger] path_issues(m, k, layers, cs, via_count)[i] is NoSolutionCells),
    decreases k,
{
    if k > 0 {
        lemma_path_issues_kind(m, k - 1, layers, cs, via_count);
        let prev = path_issues(m, k - 1, layers, cs, via_count);
        let cur = path_issues(m, k, layers, cs, via_count);
        assert forall|i: int| 0 <= i < cur.len() implies (#[trigger] cur[i] is NoSolutionCells) by {
            if i < prev.len() {
                assert(cur[i] == prev[i]);
            }
        }
    }
}

/// Routes in different regions never cross: when no cell lies in two regions
/// (as `partition_regions` makes them), a walk through the passages carved in
/// one region and a walk through those carved in another, each starting in
/// its own region, have no cell in common.
pub proof fn lemma_routes_never_cross(
    regions: Seq<Seq<Cell>>,
    k1: int,
    k2: int,
    e1: Seq<Edge>,
    p1: Seq<Cell>,
    a1: Cell,
    b1: Cell,
    e2: Seq<Edge>,
    p2: Seq<Cell>,
    a2: Cell,
    b2: Cell,
)
    requires
        pairwise_disjoint(regions),
        0 <= k1 < regions.len(),
        0 <= k2 < regions.len(),
        k1 != k2,
        passages_in(e1, regions[k1]),
        passages_in(e2, regions[k2]),
        walk(e1, p1, a1, b1),
        walk(e2, p2, a2, b2),
        regions[k1].contains(a1),
        regions[k2].contains(a2),
    ensures
        forall|i: int, j: int| 0 <= i < p1.len() && 0 <= j < p2.len() ==> #[trigger] p1[i] != #[trigger] p2[j],
{
    assert(edges_within(e1, regions[k1]));
    assert(edges_within(e2, regions[k2]));
    lemma_walk_within(e1, p1, a1, b1, regions[k1]);
    lemma_walk_within(e2, p2, a2, b2, regions[k2]);
    assert forall|i: int, j: int| 0 <= i < p1.len() && 0 <= j < p2.len() implies #[trigger] p1[i] != #[trigger] p2[j] by {
        assert(regions[k1].contains(p1[i]));
        assert(regions[k2].contains(p2[j]));
    }
}

/// Going back from a tree cell of a connected region toward the region's
/// first cell never leaves the tree.
proof fn lemma_tree_reaches_first(order: Seq<Cell>, region: Seq<Cell>, h: int, w: int, t: int)
    requires
        closed_in_region(order, region, h, w),
        grows_connected(region),
        all_in_bounds(region, h, w),
        0 <= t < region.len(),
        order.contains(region[t]),
    ensures
        order.contains(region[0]),
    decreases t,
{
    if t > 0 {
        assert(has_earlier_neighbor(region, t));
        let u = choose|u: int| 0 <= u < t && adjacent(region[u], region[t]);
        assert(region.contains(region[u]));
        assert(in_bounds(region[u], h, w));
        lemma_tree_reaches_first(order, region, h, w, u);
    }
}

/// Going forward from the region's first cell, every cell is a tree cell.
proof fn lemma_tree_reaches_all(order: Seq<Cell>, region: Seq<Cell>, h: int, w: int, t: int)
    requires
        closed_in_region(order, region, h, w),
        grows_connected(region),
        all_in_bounds(region, h, w),
        0 <= t < region.len(),
        order.contains(region[0]),
    ensures
        order.contains(region[t]),
    decreases t,
{
    if t > 0 {
        assert(has_earlier_neighbor(region, t));
        let u = choose|u: int| 0 <= u < t && adjacent(region[u], region[t]);
        lemma_tree_reaches_all(order, region, h, w, u);
        assert(region.contains(region[t]));
        assert(in_bounds(region[t], h, w));
    }
}

/// The maze carved over a region is perfect: when the region is connected and
/// inside the lattice, as `partition_regions` makes it, the tree of passages
/// that `generate_maze_dfs` grows from a cell of the region, closed within
/// the region, holds every cell of the region and no other cell.
pub proof fn lemma_maze_spans_region(edges: Seq<Edge>, order: Seq<Cell>, region: Seq<Cell>, h: int, w: int)
    requires
        grown_tree(edges, order),
        passages_in(edges, region),
        region.contains(order[0]),
        closed_in_region(order, region, h, w),
        grows_connected(region),
        all_in_bounds(region, h, w),
    ensures
        forall|i: int| 0 <= i < region.len() ==> order.contains(#[trigger] region[i]),
        forall|i: int| 0 <= i < order.len() ==> region.contains(#[trigger] order[i]),
{
    let t0 = choose|t: int| 0 <= t < region.len() && region[t] == order[0];
    assert(order.contains(region[t0])) by {
        assert(order[0] == region[t0]);
    }
    lemma_tree_reaches_first(order, region, h, w, t0);
    assert forall|i: int| 0 <= i < region.len() implies order.contains(#[trigger] region[i]) by {
        lemma_tree_reaches_all(order, region, h, w, i);
    }
    assert forall|i: int| 0 <= i < order.len() implies region.contains(#[trigger] order[i]) by {
        if i > 0 {
            assert(tree_step(edges, order, i - 1));
            let u = choose|u: int| 0 <= u <= i - 1 && #[trigger] links(edges[i - 1], order[i], order[u]);
            assert(region.contains(edges[i - 1].0) && region.contains(edges[i - 1].1));
        }
    }
}

/// The cell brought in last by the tree's last passage, and the cell that
/// passage links it to.
spec fn leaf(order: Seq<Cell>) -> Cell {
    order[order.len() - 1]
}

spec fn leaf_parent(edges: Seq<Edge>, order: Seq<Cell>) -> Cell {
    let e = edges[edges.len() - 1];
    if e.0 == leaf(order) { e.1 } else { e.0 }
}

/// Without its last passage and last cell, a grown tree is still one.
proof fn lemma_tree_prefix(edges: Seq<Edge>, order: Seq<Cell>)
    requires
        grown_tree(edges, order),
        edges.len() > 0,
    ensures
        grown_tree(edges.drop_last(), order.drop_last()),
{
    let e2 = edges.drop_last();
    let o2 = order.drop_last();
    assert forall|t: int| 0 <= t < e2.len() implies #[trigger] tree_step(e2, o2, t) by {
        assert(tree_step(edges, order, t));
        let u = choose|u: int| 0 <= u <= t && #[trigger] links(edges[t], order[t + 1], order[u]);
        assert(links(e2[t], o2[t + 1], o2[u]));
    }
}

/// Only the last passage touches the last cell, and it links it to its parent,
/// a different cell.
proof fn lemma_leaf_passages(edges: Seq<Edge>, order: Seq<Cell>, t: int)
    requires
        grown_tree(edges, order),
        edges.len() > 0,
        0 <= t < edges.len(),
    ensures
        t < edges.len() - 1 ==> edges[t].0 != leaf(order) && edges[t].1 != leaf(order),
        links(edges[edges.len() - 1], leaf(order), leaf_parent(edges, order)),
        leaf_parent(edges, order) != leaf(order),
{
    let n = edges.len() as int;
    assert(tree_step(edges, order, t));
    let u = choose|u: int| 0 <= u <= t && #[trigger] links(edges[t], order[t + 1], order[u]);
    assert(tree_step(edges, order, n - 1));
    let v = choose|v: int| 0 <= v <= n - 1 && #[trigger] links(edges[n - 1], order[n], order[v]);
    assert(order[v] != order[n]);
    if t < n - 1 {
        assert(order[t + 1] != order[n]);
        assert(order[u] != order[n]);
    }
}

/// A cell joined to the last cell is its parent.
proof fn lemma_leaf_neighbor(edges: Seq<Edge>, order: Seq<Cell>, x: Cell)
    requires
        grown_tree(edges, order),
        edges.len() > 0,
        joined(edges, x, leaf(order)) || joined(edges, leaf(order), x),
    ensures
        x == leaf_parent(edges, order),
{
    let t = if joined(edges, x, leaf(order)) {
        choose|t: int| 0 <= t < edges.len() && #[trigger] links(edges[t], x, leaf(order))
    } else {
        choose|t: int| 0 <= t < edges.len() && #[trigger] links(edges[t], leaf(order), x)
    };
    lemma_leaf_passages(edges, order, t);
}

/// A step that avoids the last cell uses an earlier passage.
proof fn lemma_step_avoiding_leaf(edges: Seq<Edge>, order: Seq<Cell>, x: Cell, y: Cell)
    requires
        grown_tree(edges, order),
        edges.len() > 0,
        joined(edges, x, y),
        x != leaf(order),
        y != leaf(order),
    ensures
        joined(edges.drop_last(), x, y),
{
    let t = choose|t: int| 0 <= t < edges.len() && #[trigger] links(edges[t], x, y);
    lemma_leaf_passages(edges, order, t);
    lemma_leaf_passages(edges, order, edges.len() - 1);
    assert(t < edges.len() - 1);
    assert(links(edges.drop_last()[t], x, y));
}

/// A walk that never stands on the last cell is a walk of the smaller tree.
proof fn lemma_walk_avoiding_leaf(edges: Seq<Edge>, order: Seq<Cell>, p: Seq<Cell>, a: Cell, b: Cell)
    requires
        grown_tree(edges, order),
        edges.len() > 0,
        walk(edges, p, a, b),
        !p.contains(leaf(order)),
    ensures
        walk(edges.drop_last(), p, a, b),
{
    assert forall|i: int| 0 <= i < p.len() - 1 implies #[trigger] joined(edges.drop_last(), p[i], p[i + 1]) by {
        assert(joined(edges, p[i], p[i + 1]));
        assert(p[i] != leaf(order)) by {
            assert(p.contains(p[i]));
        }
        assert(p[i + 1] != leaf(order)) by {
            assert(p.contains(p[i + 1]));
        }
        lemma_step_avoiding_leaf(edges, order, p[i], p[i + 1]);
    }
}

/// A walk that visits no cell twice stands on the last cell, a dead end, at
/// most at its two ends.
proof fn lemma_leaf_only_at_ends(edges: Seq<Edge>, order: Seq<Cell>, p: Seq<Cell>, a: Cell, b: Cell, i: int)
    requires
        grown_tree(edges, order),
        edges.len() > 0,
        walk(edges, p, a, b),
        p.no_duplicates(),
        0 < i < p.len() - 1,
    ensures
        p[i] != leaf(order),
{
    if p[i] == leaf(order) {
        let j = i - 1;
        assert(p[j + 1] == p[i]);
        assert(joined(edges, p[j], p[j + 1]));
        assert(joined(edges, p[i], p[i + 1]));
        lemma_leaf_neighbor(edges, order, p[i - 1]);
        lemma_leaf_neighbor(edges, order, p[i + 1]);
        assert(p[i - 1] == p[i + 1]);
    }
}

/// Removing the last cell of a walk that ends on the leaf leaves a walk to the
/// leaf's parent that avoids the leaf.
proof fn lemma_walk_into_leaf(edges: Seq<Edge>, order: Seq<Cell>, p: Seq<Cell>, a: Cell)
    requires
        grown_tree(edges, order),
        edges.len() > 0,
        walk(edges, p, a, leaf(order)),
        p.no_duplicates(),
        a != leaf(order),
    ensures
        p.len() >= 2,
        walk(edges.drop_last(), p.drop_last(), a, leaf_parent(edges, order)),
        p.drop_last().no_duplicates(),
        p == p.drop_last().push(leaf(order)),
{
    let q = p.drop_last();
    assert(p.len() >= 2);
    let j = p.len() - 2;
    assert(p[j + 1] == p[p.len() - 1]);
    assert(joined(edges, p[j], p[j + 1]));
    lemma_leaf_neighbor(edges, order, p[p.len() - 2]);
    assert(walk(edges, q, a, leaf_parent(edges, order))) by {
        assert forall|i: int| 0 <= i < q.len() - 1 implies #[trigger] joined(edges, q[i], q[i + 1]) by {
            assert(joined(edges, p[i], p[i + 1]));
        }
    }
    assert(!q.contains(leaf(order))) by {
        if q.contains(leaf(order)) {
            let k = choose|k: int| 0 <= k < q.len() && q[k] == leaf(order);
            assert(p[k] == p[p.len() - 1]);
        }
    }
    lemma_walk_avoiding_leaf(edges, order, q, a, leaf_parent(edges, order));
    assert(p =~= q.push(leaf(order)));
}

/// Removing the first cell of a walk that starts on the leaf leaves a walk
/// from the leaf's parent that avoids the leaf.
proof fn lemma_walk_out_of_leaf(edges: Seq<Edge>, order: Seq<Cell>, p: Seq<Cell>, b: Cell)
    requires
        grown_tree(edges, order),
        edges.len() > 0,
        walk(edges, p, leaf(order), b),
        p.no_duplicates(),
        b != leaf(order),
    ensures
        p.len() >= 2,
        walk(edges.drop_last(), p.drop_first(), leaf_parent(edges, order), b),
        p.drop_first().no_duplicates(),
        p == seq![leaf(order)] + p.drop_first(),
{
    let q = p.drop_first();
    assert(p.len() >= 2);
    let z: int = 0;
    assert(p[z + 1] == p[1]);
    assert(joined(edges, p[z], p[z + 1]));
    lemma_leaf_neighbor(edges, order, p[1]);
    assert(walk(edges, q, leaf_parent(edges, order), b)) by {
        assert forall|i: int| 0 <= i < q.len() - 1 implies #[trigger] joined(edges, q[i], q[i + 1]) by {
            let k = i + 1;
            assert(q[i] == p[k] && q[i + 1] == p[k + 1]);
            assert(joined(edges, p[k], p[k + 1]));
        }
    }
    assert(!q.contains(leaf(order))) by {
        if q.contains(leaf(order)) {
            let k = choose|k: int| 0 <= k < q.len() && q[k] == leaf(order);
            assert(p[k + 1] == p[0]);
        }
    }
    lemma_walk_avoiding_leaf(edges, order, q, leaf_parent(edges, order), b);
    assert(p =~= seq![leaf(order)] + q);
}

/// A perfect maze has exactly one way between two cells: in the passages of a
/// tree grown cell by cell, as `generate_maze_dfs` carves them, two walks
/// between the same cells that visit no cell twice are the same walk. So the
/// walk that `find_path_in_maze` returns through such a maze is the only walk
/// between its two ends that visits no cell twice.
pub proof fn lemma_maze_walks_unique(edges: Seq<Edge>, order: Seq<Cell>, p: Seq<Cell>, q: Seq<Cell>, a: Cell, b: Cell)
    requires
        grown_tree(edges, order),
        walk(edges, p, a, b),
        walk(edges, q, a, b),
        p.no_duplicates(),
        q.no_duplicates(),
    ensures
        p == q,
    decreases edges.len(),
{
    if edges.len() == 0 {
        if p.len() >= 2 {
            assert(joined(edges, p[0], p[1]));
        }
        if q.len() >= 2 {
            assert(joined(edges, q[0], q[1]));
        }
        assert(p =~= q);
    } else {
        let l = leaf(order);
        let e2 = edges.drop_last();
        let o2 = order.drop_last();
        lemma_tree_prefix(edges, order);
        if a != l && b != l {
            assert(!p.contains(l)) by {
                if p.contains(l) {
                    let k = choose|k: int| 0 <= k < p.len() && p[k] == l;
                    lemma_leaf_only_at_ends(edges, order, p, a, b, k);
                }
            }
            assert(!q.contains(l)) by {
                if q.contains(l) {
                    let k = choose|k: int| 0 <= k < q.len() && q[k] == l;
                    lemma_leaf_only_at_ends(edges, order, q, a, b, k);
                }
            }
            lemma_walk_avoiding_leaf(edges, order, p, a, b);
            lemma_walk_avoiding_leaf(edges, order, q, a, b);
            lemma_maze_walks_unique(e2, o2, p, q, a, b);
        } else if a != l {
            lemma_walk_into_leaf(edges, order, p, a);
            lemma_walk_into_leaf(edges, order, q, a);
            lemma_maze_walks_unique(e2, o2, p.drop_last(), q.drop_last(), a, leaf_parent(edges, order));
        } else if b != l {
            lemma_walk_out_of_leaf(edges, order, p, b);
            lemma_walk_out_of_leaf(edges, order, q, b);
            lemma_maze_walks_unique(e2, o2, p.drop_first(), q.drop_first(), leaf_parent(edges, order), b);
        } else {
            assert(p.len() == 1) by {
                if p.len() > 1 {
                    assert(p[0] == p[p.len() - 1]);
                }
            }
            assert(q.len() == 1) by {
                if q.len() > 1 {
                    assert(q[0] == q[q.len() - 1]);
                }
            }
            assert(p =~= q);
        }
    }
}

/// Routes never cross on a layer: a walk of one route and a walk of another
/// never stand on the same cell of the same layer, since every cell they use
/// is owned by their own route (routes are told apart by their number, kept in
/// a byte).
pub proof fn lemma_route_walks_apart(
    m: MazeMap,
    data: Seq<LayerRouteData>,
    layers: int,
    h: int,
    w: int,
    r1: int,
    p1: Seq<(int, Cell)>,
    r2: int,
    p2: Seq<(int, Cell)>,
)
    requires
        0 <= r1 < 256,
        0 <= r2 < 256,
        r1 != r2,
        route_walk(m, data, layers, r1, h, w, p1),
        route_walk(m, data, layers, r2, h, w, p2),
    ensures
        forall|i: int, j: int| 0 <= i < p1.len() && 0 <= j < p2.len() ==> #[trigger] p1[i] != #[trigger] p2[j],
{
    assert forall|i: int, j: int| 0 <= i < p1.len() && 0 <= j < p2.len() implies #[trigger] p1[i] != #[trigger] p2[j] by {
        assert(route_stop(m, data, layers, r1, h, w, p1[i]));
        assert(route_stop(m, data, layers, r2, h, w, p2[j]));
        if p1[i] == p2[j] {
            assert(r1 as u8 == r1);
            assert(r2 as u8 == r2);
        }
    }
}

} // verus!
