use vstd::prelude::*;
use crate::grid::{
    Cell, adjacent, all_coord_ok, all_in_bounds, const_grid, coord_ok, flat, flatten_flags, grid_at,
    grid_shape, in_bounds, lemma_flat,
};
use crate::maze::{Edge, closed_under_passages, joined, lemma_separated_no_walk, links, separated, trace_path, walk};
use crate::plan::{
    RoutePlan, cells_within, edges_within, lemma_walk_within, lemma_within_coord_ok, plan_within,
};
use crate::types::{LayerRouteData, MazeMap};
use crate::maze::{
    closed_in_region, depth_first, grown_tree, is_grown_tree, lemma_grown_tree_reachable, passages_in, reachable, tree_parents,
};
use crate::properties::lemma_maze_spans_region;
use crate::connect::{
    jump_at, keeps_off, open_stop, open_step, open_walk_avoiding, puzzle_connects, lemma_route_walk_in_puzzle, route_walk, via_needed, lemma_checkpoints_connected_in_puzzle, lemma_connects_ends, lemma_cp_stop, lemma_via_stop, lemma_waypoints_connected, route_connects, route_drawn,
    route_stop, waypoint_stop,
};
use crate::region::{cell_lists, covered, grows_connected, pairwise_disjoint, partition_regions, well_formed_regions};
use crate::plan::{build_plan, piece_span, pieces_apart, spans_hold_edges, piece_linked, plan_cps_count, spans_from, tree_spans, waypoints, wp_covered};
use crate::rng::seeded_rng;

verus! {

/// The open/owner grids of a layer are consistent: every entry names a route
/// or the unowned marker `goals`, and closed cells are unowned.
pub open spec fn carve_ok(open: Seq<Vec<bool>>, owner: Seq<Vec<usize>>, h: int, w: int, goals: int) -> bool {
    &&& grid_shape(open, h, w)
    &&& grid_shape(owner, h, w)
    &&& forall|c: Cell|
        in_bounds(c, h, w) ==> #[trigger] grid_at(owner, c) <= goals && (!grid_at(open, c) ==> grid_at(owner, c)
            == goals)
}

/// The grid cell that stands for the maze cell `c`.
pub open spec fn gcell(c: Cell) -> Cell {
    ((2 * c.0 + 1) as usize, (2 * c.1 + 1) as usize)
}

/// The grid cell of the wall between the two cells of a passage.
pub open spec fn wall_cell(e: Edge) -> Cell {
    ((e.0.0 + e.1.0 + 1) as usize, (e.0.1 + e.1.1 + 1) as usize)
}

/// Distinct maze cells stand for distinct grid cells.
proof fn lemma_gcell_injective(c: Cell, d: Cell)
    requires
        coord_ok(c),
        coord_ok(d),
    ensures
        gcell(c) == gcell(d) ==> c == d,
{
}

/// The wall of a passage between neighbours is never the grid cell of a maze
/// cell: one of its coordinates is even.
proof fn lemma_wall_not_gcell(c: Cell, e: Edge)
    requires
        coord_ok(c),
        coord_ok(e.0),
        coord_ok(e.1),
        adjacent(e.0, e.1),
    ensures
        wall_cell(e) != gcell(c),
{
}

/// Two passages between neighbours with the same wall join the same cells.
proof fn lemma_wall_unique(e: Edge, f: Edge)
    requires
        coord_ok(e.0),
        coord_ok(e.1),
        coord_ok(f.0),
        coord_ok(f.1),
        adjacent(e.0, e.1),
        adjacent(f.0, f.1),
        wall_cell(e) == wall_cell(f),
    ensures
        (e.0 == f.0 && e.1 == f.1) || (e.0 == f.1 && e.1 == f.0),
{
    assert(e.0.0 + e.1.0 == f.0.0 + f.1.0);
    assert(e.0.1 + e.1.1 == f.0.1 + f.1.1);
}

/// Every grid cell owned by a route lies in the territory of that route's region.
pub open spec fn owners_in_territory(owner: Seq<Vec<usize>>, regions: Seq<Vec<Cell>>, goals: int, h: int, w: int) -> bool {
    forall|d: Cell|
        in_bounds(d, h, w) && #[trigger] grid_at(owner, d) < goals ==> in_territory(regions[grid_at(owner, d) as int]@, d)
}

/// A grid cell held by route `r` is written open and owned by `r`.
proof fn lemma_held_flat(
    open: Seq<Vec<bool>>,
    owner: Seq<Vec<usize>>,
    walls: Seq<i8>,
    v: Seq<u8>,
    goals: int,
    h: int,
    w: int,
    d: Cell,
    r: int,
)
    requires
        0 <= r < goals < 256,
        in_bounds(d, h, w),
        cell_held(open, owner, d, r, h, w),
        forall|y: int, x: int|
            0 <= y < h && 0 <= x < w ==> #[trigger] walls[flat(y, x, w)] == if grid_at(open, (y as usize, x as usize)) {
                0i8
            } else {
                1i8
            },
        forall|y: int, x: int|
            0 <= y < h && 0 <= x < w ==> #[trigger] v[flat(y, x, w)] == if grid_at(open, (y as usize, x as usize)) {
                grid_at(owner, (y as usize, x as usize)) as u8
            } else {
                goals as u8
            },
    ensures
        walls[flat(d.0 as int, d.1 as int, w)] == 0,
        v[flat(d.0 as int, d.1 as int, w)] == r as u8,
{
    let y = d.0 as int;
    let x = d.1 as int;
    assert((y as usize, x as usize) == d);
    assert(walls[flat(y, x, w)] == 0i8);
    assert(v[flat(y, x, w)] == grid_at(owner, d) as u8);
}

/// A flattened owner below `goals` is that of an open cell owned by a route.
proof fn lemma_owner_cell(
    open: Seq<Vec<bool>>,
    owner: Seq<Vec<usize>>,
    v: Seq<u8>,
    goals: int,
    h: int,
    w: int,
    p: Cell,
)
    requires
        goals < 256,
        in_bounds(p, h, w),
        carve_ok(open, owner, h, w, goals),
        forall|y: int, x: int|
            0 <= y < h && 0 <= x < w ==> #[trigger] v[flat(y, x, w)] == if grid_at(open, (y as usize, x as usize)) {
                grid_at(owner, (y as usize, x as usize)) as u8
            } else {
                goals as u8
            },
        v[flat(p.0 as int, p.1 as int, w)] < goals,
    ensures
        grid_at(owner, p) < goals,
        v[flat(p.0 as int, p.1 as int, w)] == grid_at(owner, p),
{
    let y = p.0 as int;
    let x = p.1 as int;
    assert((y as usize, x as usize) == p);
    assert(v[flat(y, x, w)] == if grid_at(open, p) { grid_at(owner, p) as u8 } else { goals as u8 });
    assert(grid_at(owner, p) <= goals);
}

/// Two 4-adjacent grid cells in the territories of two regions tie the
/// regions together: some maze cell lies in both.
proof fn lemma_territory_meet(r1: Seq<Cell>, r2: Seq<Cell>, d1: Cell, d2: Cell) -> (c: Cell)
    requires
        in_territory(r1, d1),
        in_territory(r2, d2),
        adjacent(d1, d2),
        all_coord_ok(r1),
        all_coord_ok(r2),
    ensures
        r1.contains(c) && r2.contains(c),
{
    if exists|c: Cell| #[trigger] r1.contains(c) && d1 == gcell(c) {
        let c1 = choose|c: Cell| #[trigger] r1.contains(c) && d1 == gcell(c);
        let i1 = choose|i: int| 0 <= i < r1.len() && r1[i] == c1;
        assert(coord_ok(r1[i1]));
        if exists|c: Cell| #[trigger] r2.contains(c) && d2 == gcell(c) {
            let c2 = choose|c: Cell| #[trigger] r2.contains(c) && d2 == gcell(c);
            let i2 = choose|i: int| 0 <= i < r2.len() && r2[i] == c2;
            assert(coord_ok(r2[i2]));
            assert(false);
            c1
        } else {
            let e = choose|e: Edge| #[trigger] r2.contains(e.0) && r2.contains(e.1) && adjacent(e.0, e.1) && d2 == wall_cell(e);
            let j0 = choose|i: int| 0 <= i < r2.len() && r2[i] == e.0;
            let j1 = choose|i: int| 0 <= i < r2.len() && r2[i] == e.1;
            assert(coord_ok(r2[j0]) && coord_ok(r2[j1]));
            if c1 == e.0 {
                e.0
            } else {
                assert(c1 == e.1);
                e.1
            }
        }
    } else {
        let e = choose|e: Edge| #[trigger] r1.contains(e.0) && r1.contains(e.1) && adjacent(e.0, e.1) && d1 == wall_cell(e);
        let j0 = choose|i: int| 0 <= i < r1.len() && r1[i] == e.0;
        let j1 = choose|i: int| 0 <= i < r1.len() && r1[i] == e.1;
        assert(coord_ok(r1[j0]) && coord_ok(r1[j1]));
        if exists|c: Cell| #[trigger] r2.contains(c) && d2 == gcell(c) {
            let c2 = choose|c: Cell| #[trigger] r2.contains(c) && d2 == gcell(c);
            let i2 = choose|i: int| 0 <= i < r2.len() && r2[i] == c2;
            assert(coord_ok(r2[i2]));
            if c2 == e.0 {
                e.0
            } else {
                assert(c2 == e.1);
                e.1
            }
        } else {
            let f = choose|f: Edge| #[trigger] r2.contains(f.0) && r2.contains(f.1) && adjacent(f.0, f.1) && d2 == wall_cell(f);
            let k0 = choose|i: int| 0 <= i < r2.len() && r2[i] == f.0;
            let k1 = choose|i: int| 0 <= i < r2.len() && r2[i] == f.1;
            assert(coord_ok(r2[k0]) && coord_ok(r2[k1]));
            assert(false);
            e.0
        }
    }
}

/// The owners of all grid cells are the same.
pub open spec fn same_owners(owner0: Seq<Vec<usize>>, owner1: Seq<Vec<usize>>, h: int, w: int) -> bool {
    forall|d: Cell| in_bounds(d, h, w) ==> #[trigger] grid_at(owner1, d) == grid_at(owner0, d)
}

/// Opens the grid cell `(y, x)` if it is inside the grid, giving it to route
/// `who` when one is named.
fn open_at(
    open: &mut Vec<Vec<bool>>,
    owner: &mut Vec<Vec<usize>>,
    y: usize,
    x: usize,
    who: Option<usize>,
    h: usize,
    w: usize,
    goals: usize,
)
    requires
        carve_ok(old(open)@, old(owner)@, h as int, w as int, goals as int),
        who matches Some(r) ==> r < goals,
    ensures
        carve_ok(final(open)@, final(owner)@, h as int, w as int, goals as int),
        forall|c: Cell| in_bounds(c, h as int, w as int) && #[trigger] grid_at(old(open)@, c) ==> grid_at(final(open)@, c),
        forall|c: Cell|
            in_bounds(c, h as int, w as int) && (c.0 != y || c.1 != x) ==> #[trigger] grid_at(final(owner)@, c)
                == grid_at(old(owner)@, c),
        y < h && x < w ==> grid_at(final(open)@, (y, x)),
        forall|c: Cell|
            in_bounds(c, h as int, w as int) && (c.0 != y || c.1 != x) ==> #[trigger] grid_at(final(open)@, c) == grid_at(
                old(open)@,
                c,
            ),
        who matches Some(r) ==> (y < h && x < w ==> grid_at(final(owner)@, (y, x)) == r),
        who is None ==> forall|c: Cell|
            in_bounds(c, h as int, w as int) ==> #[trigger] grid_at(final(owner)@, c) == grid_at(old(owner)@, c),
{
    if y < h && x < w {
        let ghost o0 = open@;
        let ghost w0 = owner@;
        crate::grid::set_grid(open, (y, x), true);
        let ghost w1 = owner@;
        if let Some(r) = who {
            crate::grid::set_grid(owner, (y, x), r);
        }
        proof {
            assert forall|c: Cell| in_bounds(c, h as int, w as int) implies #[trigger] grid_at(owner@, c) <= goals
                && (!grid_at(open@, c) ==> grid_at(owner@, c) == goals) by {
                if c != (y, x) {
                    assert(grid_at(open@, c) == grid_at(o0, c));
                    assert(grid_at(owner@, c) == grid_at(w0, c));
                }
            }
            assert forall|c: Cell| in_bounds(c, h as int, w as int) && #[trigger] grid_at(o0, c) implies grid_at(open@, c) by {
                if c != (y, x) {
                    assert(grid_at(open@, c) == grid_at(o0, c));
                }
            }
        }
    }
}

/// Opens the maze cell `c` (grid cell `(2c.0 + 1, 2c.1 + 1)`).
fn open_maze_cell(
    open: &mut Vec<Vec<bool>>,
    owner: &mut Vec<Vec<usize>>,
    c: Cell,
    who: Option<usize>,
    h: usize,
    w: usize,
    goals: usize,
)
    requires
        carve_ok(old(open)@, old(owner)@, h as int, w as int, goals as int),
        who matches Some(r) ==> r < goals,
        coord_ok(c),
    ensures
        carve_ok(final(open)@, final(owner)@, h as int, w as int, goals as int),
        forall|d: Cell| in_bounds(d, h as int, w as int) && #[trigger] grid_at(old(open)@, d) ==> grid_at(final(open)@, d),
        forall|d: Cell|
            in_bounds(d, h as int, w as int) && d != gcell(c) ==> #[trigger] grid_at(final(owner)@, d) == grid_at(
                old(owner)@,
                d,
            ),
        in_bounds(gcell(c), h as int, w as int) ==> grid_at(final(open)@, gcell(c)),
        forall|d: Cell|
            in_bounds(d, h as int, w as int) && d != gcell(c) ==> #[trigger] grid_at(final(open)@, d) == grid_at(
                old(open)@,
                d,
            ),
        who matches Some(r) ==> (in_bounds(gcell(c), h as int, w as int) ==> grid_at(final(owner)@, gcell(c)) == r),
        who is None ==> forall|d: Cell|
            in_bounds(d, h as int, w as int) ==> #[trigger] grid_at(final(owner)@, d) == grid_at(old(owner)@, d),
{
    open_at(open, owner, 2 * c.0 + 1, 2 * c.1 + 1, who, h, w, goals);
}

/// Carves the passage `e`: both of its maze cells and the wall between them.
fn open_passage(
    open: &mut Vec<Vec<bool>>,
    owner: &mut Vec<Vec<usize>>,
    e: Edge,
    who: Option<usize>,
    h: usize,
    w: usize,
    goals: usize,
)
    requires
        carve_ok(old(open)@, old(owner)@, h as int, w as int, goals as int),
        who matches Some(r) ==> r < goals,
        coord_ok(e.0),
        coord_ok(e.1),
    ensures
        carve_ok(final(open)@, final(owner)@, h as int, w as int, goals as int),
        forall|d: Cell| in_bounds(d, h as int, w as int) && #[trigger] grid_at(old(open)@, d) ==> grid_at(final(open)@, d),
        forall|d: Cell|
            in_bounds(d, h as int, w as int) && d != gcell(e.0) && d != gcell(e.1) && d != wall_cell(e)
                ==> #[trigger] grid_at(final(owner)@, d) == grid_at(old(owner)@, d),
        in_bounds(gcell(e.0), h as int, w as int) ==> grid_at(final(open)@, gcell(e.0)),
        in_bounds(gcell(e.1), h as int, w as int) ==> grid_at(final(open)@, gcell(e.1)),
        in_bounds(wall_cell(e), h as int, w as int) ==> grid_at(final(open)@, wall_cell(e)),
        forall|d: Cell|
            in_bounds(d, h as int, w as int) && d != gcell(e.0) && d != gcell(e.1) && d != wall_cell(e)
                ==> #[trigger] grid_at(final(open)@, d) == grid_at(old(open)@, d),
        who matches Some(r) ==> forall|d: Cell|
            in_bounds(d, h as int, w as int) && (d == gcell(e.0) || d == gcell(e.1) || d == wall_cell(e))
                ==> #[trigger] grid_at(final(owner)@, d) == r,
        who is None ==> forall|d: Cell|
            in_bounds(d, h as int, w as int) ==> #[trigger] grid_at(final(owner)@, d) == grid_at(old(owner)@, d),
{
    open_maze_cell(open, owner, e.0, who, h, w, goals);
    open_maze_cell(open, owner, e.1, who, h, w, goals);
    open_at(open, owner, e.0.0 + e.1.0 + 1, e.0.1 + e.1.1 + 1, who, h, w, goals);
}


/// What a route's layout promises for drawing its path: each piece's
/// waypoints are connected along the piece's passages, the passages of a
/// route without vias are the first layer's maze of its region, and with at
/// least two checkpoints every piece has at least two waypoints to join.
pub open spec fn route_laid_out(plan: RoutePlan, tree0: Seq<Edge>, checkpoints: int) -> bool {
    &&& forall|k: int| 0 <= k < plan.pieces@.len() ==> #[trigger] piece_linked(plan, k)
    &&& plan.vias@.len() == 0 ==> plan.piece_edges@[0]@ == tree0
    &&& checkpoints >= 2 ==> forall|k: int| 0 <= k < plan.pieces@.len() ==> (#[trigger] waypoints(plan, k)).len() >= 2
    &&& forall|k: int, i: int|
        0 <= k < plan.pieces@.len() && 0 <= i < waypoints(plan, k).len() ==> wp_covered(
            plan,
            k,
            #[trigger] waypoints(plan, k)[i],
        )
}

/// Does the layer `l` hold piece `k` of a route with vias?
pub open spec fn piece_on_layer(k: int, l: int, layers: int) -> bool {
    k % layers == l
}

/// No grid cell was closed, and every owner changed was changed to `r`.
pub open spec fn carved_by(
    open0: Seq<Vec<bool>>,
    owner0: Seq<Vec<usize>>,
    open1: Seq<Vec<bool>>,
    owner1: Seq<Vec<usize>>,
    r: int,
    h: int,
    w: int,
) -> bool {
    &&& forall|d: Cell| in_bounds(d, h, w) && #[trigger] grid_at(open0, d) ==> grid_at(open1, d)
    &&& forall|d: Cell|
        in_bounds(d, h, w) ==> #[trigger] grid_at(owner1, d) == grid_at(owner0, d) || grid_at(owner1, d) == r
}

/// The grid cell of every maze cell of `s` inside the grid is open and owned
/// by route `r`.
pub open spec fn held_by(open: Seq<Vec<bool>>, owner: Seq<Vec<usize>>, s: Seq<Cell>, r: int, h: int, w: int) -> bool {
    forall|i: int|
        0 <= i < s.len() && in_bounds(gcell(s[i]), h, w) ==> grid_at(open, gcell(#[trigger] s[i])) && grid_at(
            owner,
            gcell(s[i]),
        ) == r
}

/// The grid cell `d` belongs to `region`: it is the grid cell of one of the
/// region's maze cells, or the wall between two adjacent ones.
pub open spec fn in_territory(region: Seq<Cell>, d: Cell) -> bool {
    ||| exists|c: Cell| #[trigger] region.contains(c) && d == gcell(c)
    ||| exists|e: Edge| #[trigger] region.contains(e.0) && region.contains(e.1) && adjacent(e.0, e.1) && d == wall_cell(e)
}

/// The owners of the grid cells of maze cells outside `region` are unchanged,
/// and every owner that changed belongs to the region's territory.
pub open spec fn kept_outside(owner0: Seq<Vec<usize>>, owner1: Seq<Vec<usize>>, region: Seq<Cell>, h: int, w: int) -> bool {
    &&& forall|c: Cell|
        coord_ok(c) && !region.contains(c) && in_bounds(gcell(c), h, w) ==> #[trigger] grid_at(owner1, gcell(c))
            == grid_at(owner0, gcell(c))
    &&& forall|d: Cell|
        in_bounds(d, h, w) && #[trigger] grid_at(owner1, d) != grid_at(owner0, d) ==> in_territory(region, d)
}

/// The owners of the walls of passages that leave `region`, or lie outside
/// it, are unchanged.
pub open spec fn walls_kept_outside(owner0: Seq<Vec<usize>>, owner1: Seq<Vec<usize>>, region: Seq<Cell>, h: int, w: int) -> bool {
    forall|e: Edge|
        coord_ok(e.0) && coord_ok(e.1) && adjacent(e.0, e.1) && !(region.contains(e.0) && region.contains(e.1))
            && in_bounds(wall_cell(e), h, w) ==> #[trigger] grid_at(owner1, wall_cell(e)) == grid_at(owner0, wall_cell(e))
}

/// The grid cell `d`, if inside the grid, is open and owned by route `r`.
pub open spec fn cell_held(open: Seq<Vec<bool>>, owner: Seq<Vec<usize>>, d: Cell, r: int, h: int, w: int) -> bool {
    in_bounds(d, h, w) ==> grid_at(open, d) && grid_at(owner, d) == r
}

/// The cells and the wall of every passage of `edges` are held by route `r`.
pub open spec fn edges_held(open: Seq<Vec<bool>>, owner: Seq<Vec<usize>>, edges: Seq<Edge>, r: int, h: int, w: int) -> bool {
    forall|t: int|
        0 <= t < edges.len() ==> {
            &&& cell_held(open, owner, gcell((#[trigger] edges[t]).0), r, h, w)
            &&& cell_held(open, owner, gcell(edges[t].1), r, h, w)
            &&& cell_held(open, owner, wall_cell(edges[t]), r, h, w)
        }
}

proof fn lemma_edges_held_kept(
    o0: Seq<Vec<bool>>,
    w0: Seq<Vec<usize>>,
    o1: Seq<Vec<bool>>,
    w1: Seq<Vec<usize>>,
    edges: Seq<Edge>,
    r: int,
    h: int,
    w: int,
)
    requires
        edges_held(o0, w0, edges, r, h, w),
        carved_by(o0, w0, o1, w1, r, h, w),
    ensures
        edges_held(o1, w1, edges, r, h, w),
{
    assert forall|t: int| 0 <= t < edges.len() implies {
        &&& cell_held(o1, w1, gcell((#[trigger] edges[t]).0), r, h, w)
        &&& cell_held(o1, w1, gcell(edges[t].1), r, h, w)
        &&& cell_held(o1, w1, wall_cell(edges[t]), r, h, w)
    } by {
        let a = gcell(edges[t].0);
        let b = gcell(edges[t].1);
        let c = wall_cell(edges[t]);
        if in_bounds(a, h, w) {
            assert(grid_at(o0, a));
            assert(grid_at(w1, a) == grid_at(w0, a) || grid_at(w1, a) == r);
        }
        if in_bounds(b, h, w) {
            assert(grid_at(o0, b));
            assert(grid_at(w1, b) == grid_at(w0, b) || grid_at(w1, b) == r);
        }
        if in_bounds(c, h, w) {
            assert(grid_at(o0, c));
            assert(grid_at(w1, c) == grid_at(w0, c) || grid_at(w1, c) == r);
        }
    }
}

/// What route `r` holds on layer `l` of its plan: for a route without vias
/// the whole region and the passages of the layer's maze, otherwise the
/// cells and passages of the pieces lying on this layer.
pub open spec fn held_on_layer(
    open: Seq<Vec<bool>>,
    owner: Seq<Vec<usize>>,
    plan: RoutePlan,
    region: Seq<Cell>,
    tree: Seq<Edge>,
    r: int,
    l: int,
    layers: int,
    h: int,
    w: int,
) -> bool {
    &&& plan.vias@.len() == 0 ==> held_by(open, owner, region, r, h, w) && edges_held(open, owner, tree, r, h, w)
    &&& plan.vias@.len() > 0 ==> forall|k: int|
        0 <= k < plan.pieces@.len() && piece_on_layer(k, l, layers) ==> held_by(
            open,
            owner,
            #[trigger] plan.pieces@[k]@,
            r,
            h,
            w,
        ) && edges_held(open, owner, plan.piece_edges@[k]@, r, h, w)
}

proof fn lemma_walls_kept_trans(
    w0: Seq<Vec<usize>>,
    w1: Seq<Vec<usize>>,
    w2: Seq<Vec<usize>>,
    region: Seq<Cell>,
    h: int,
    w: int,
)
    requires
        walls_kept_outside(w0, w1, region, h, w),
        walls_kept_outside(w1, w2, region, h, w),
    ensures
        walls_kept_outside(w0, w2, region, h, w),
{
    assert forall|e: Edge|
        coord_ok(e.0) && coord_ok(e.1) && adjacent(e.0, e.1) && !(region.contains(e.0) && region.contains(e.1))
            && in_bounds(wall_cell(e), h, w) implies #[trigger] grid_at(w2, wall_cell(e)) == grid_at(w0, wall_cell(e)) by {
        assert(grid_at(w1, wall_cell(e)) == grid_at(w0, wall_cell(e)));
    }
}

proof fn lemma_carved_by_trans(
    o0: Seq<Vec<bool>>,
    w0: Seq<Vec<usize>>,
    o1: Seq<Vec<bool>>,
    w1: Seq<Vec<usize>>,
    o2: Seq<Vec<bool>>,
    w2: Seq<Vec<usize>>,
    r: int,
    h: int,
    w: int,
)
    requires
        carved_by(o0, w0, o1, w1, r, h, w),
        carved_by(o1, w1, o2, w2, r, h, w),
    ensures
        carved_by(o0, w0, o2, w2, r, h, w),
{
    assert forall|d: Cell| in_bounds(d, h, w) implies #[trigger] grid_at(w2, d) == grid_at(w0, d) || grid_at(w2, d)
        == r by {
        assert(grid_at(w1, d) == grid_at(w0, d) || grid_at(w1, d) == r);
    }
}

proof fn lemma_held_by_kept(
    o0: Seq<Vec<bool>>,
    w0: Seq<Vec<usize>>,
    o1: Seq<Vec<bool>>,
    w1: Seq<Vec<usize>>,
    s: Seq<Cell>,
    r: int,
    h: int,
    w: int,
)
    requires
        held_by(o0, w0, s, r, h, w),
        carved_by(o0, w0, o1, w1, r, h, w),
    ensures
        held_by(o1, w1, s, r, h, w),
{
    assert forall|i: int| 0 <= i < s.len() && in_bounds(gcell(s[i]), h, w) implies grid_at(o1, gcell(#[trigger] s[i]))
        && grid_at(w1, gcell(s[i])) == r by {
        assert(grid_at(o0, gcell(s[i])));
        assert(grid_at(w1, gcell(s[i])) == grid_at(w0, gcell(s[i])) || grid_at(w1, gcell(s[i])) == r);
    }
}

proof fn lemma_kept_outside_trans(
    w0: Seq<Vec<usize>>,
    w1: Seq<Vec<usize>>,
    w2: Seq<Vec<usize>>,
    region: Seq<Cell>,
    h: int,
    w: int,
)
    requires
        kept_outside(w0, w1, region, h, w),
        kept_outside(w1, w2, region, h, w),
    ensures
        kept_outside(w0, w2, region, h, w),
{
    assert forall|c: Cell| coord_ok(c) && !region.contains(c) && in_bounds(gcell(c), h, w) implies #[trigger] grid_at(
        w2,
        gcell(c),
    ) == grid_at(w0, gcell(c)) by {
        assert(grid_at(w1, gcell(c)) == grid_at(w0, gcell(c)));
    }
    assert forall|d: Cell| in_bounds(d, h, w) && #[trigger] grid_at(w2, d) != grid_at(w0, d) implies in_territory(region, d) by {
        if grid_at(w1, d) != grid_at(w0, d) {
        } else {
            assert(grid_at(w2, d) != grid_at(w1, d));
        }
    }
}

/// Opening a maze cell of the region, for route `r` or for nobody, keeps the
/// owners outside the region and changes owners only to `r`.
fn open_region_cell(
    open: &mut Vec<Vec<bool>>,
    owner: &mut Vec<Vec<usize>>,
    c: Cell,
    who: Option<usize>,
    region: Ghost<Seq<Cell>>,
    r: usize,
    h: usize,
    w: usize,
    goals: usize,
)
    requires
        carve_ok(old(open)@, old(owner)@, h as int, w as int, goals as int),
        who matches Some(q) ==> q == r,
        r < goals,
        coord_ok(c),
        region@.contains(c),
    ensures
        carve_ok(final(open)@, final(owner)@, h as int, w as int, goals as int),
        carved_by(old(open)@, old(owner)@, final(open)@, final(owner)@, r as int, h as int, w as int),
        kept_outside(old(owner)@, final(owner)@, region@, h as int, w as int),
        walls_kept_outside(old(owner)@, final(owner)@, region@, h as int, w as int),
        in_bounds(gcell(c), h as int, w as int) ==> grid_at(final(open)@, gcell(c)),
        forall|d: Cell|
            in_bounds(d, h as int, w as int) && d != gcell(c) ==> #[trigger] grid_at(final(open)@, d) == grid_at(
                old(open)@,
                d,
            ),
        forall|d: Cell|
            in_bounds(d, h as int, w as int) && d != gcell(c) ==> #[trigger] grid_at(final(owner)@, d) == grid_at(
                old(owner)@,
                d,
            ),
        who is Some ==> (in_bounds(gcell(c), h as int, w as int) ==> grid_at(final(owner)@, gcell(c)) == r),
        who is None ==> same_owners(old(owner)@, final(owner)@, h as int, w as int),
{
    let ghost o0 = open@;
    let ghost w0 = owner@;
    open_maze_cell(open, owner, c, who, h, w, goals);
    proof {
        assert forall|f: Edge|
            coord_ok(f.0) && coord_ok(f.1) && adjacent(f.0, f.1) && !(region@.contains(f.0) && region@.contains(f.1))
                && in_bounds(wall_cell(f), h as int, w as int) implies #[trigger] grid_at(owner@, wall_cell(f)) == grid_at(
            w0,
            wall_cell(f),
        ) by {
            lemma_wall_not_gcell(c, f);
        }
        assert forall|d: Cell| in_bounds(d, h as int, w as int) implies #[trigger] grid_at(owner@, d) == grid_at(w0, d)
            || grid_at(owner@, d) == r by {
            if d != gcell(c) {
            }
        }
        assert forall|e: Cell| coord_ok(e) && !region@.contains(e) && in_bounds(gcell(e), h as int, w as int) implies #[trigger] grid_at(
            owner@,
            gcell(e),
        ) == grid_at(w0, gcell(e)) by {
            lemma_gcell_injective(e, c);
        }
        assert forall|d: Cell| in_bounds(d, h as int, w as int) && #[trigger] grid_at(owner@, d) != grid_at(w0, d) implies in_territory(
            region@,
            d,
        ) by {
            assert(d == gcell(c));
            assert(region@.contains(c));
        }
    }
}

/// Carving a passage of the region, for route `r` or for nobody, keeps the
/// owners outside the region and changes owners only to `r`.
fn open_region_passage(
    open: &mut Vec<Vec<bool>>,
    owner: &mut Vec<Vec<usize>>,
    e: Edge,
    who: Option<usize>,
    region: Ghost<Seq<Cell>>,
    r: usize,
    h: usize,
    w: usize,
    goals: usize,
)
    requires
        carve_ok(old(open)@, old(owner)@, h as int, w as int, goals as int),
        who matches Some(q) ==> q == r,
        r < goals,
        coord_ok(e.0),
        coord_ok(e.1),
        adjacent(e.0, e.1),
        region@.contains(e.0),
        region@.contains(e.1),
    ensures
        carve_ok(final(open)@, final(owner)@, h as int, w as int, goals as int),
        carved_by(old(open)@, old(owner)@, final(open)@, final(owner)@, r as int, h as int, w as int),
        kept_outside(old(owner)@, final(owner)@, region@, h as int, w as int),
        walls_kept_outside(old(owner)@, final(owner)@, region@, h as int, w as int),
        forall|d: Cell|
            in_bounds(d, h as int, w as int) && d != gcell(e.0) && d != gcell(e.1) && d != wall_cell(e)
                ==> #[trigger] grid_at(final(open)@, d) == grid_at(old(open)@, d),
        forall|d: Cell|
            in_bounds(d, h as int, w as int) && d != gcell(e.0) && d != gcell(e.1) && d != wall_cell(e)
                ==> #[trigger] grid_at(final(owner)@, d) == grid_at(old(owner)@, d),
        who is Some ==> {
            &&& cell_held(final(open)@, final(owner)@, gcell(e.0), r as int, h as int, w as int)
            &&& cell_held(final(open)@, final(owner)@, gcell(e.1), r as int, h as int, w as int)
            &&& cell_held(final(open)@, final(owner)@, wall_cell(e), r as int, h as int, w as int)
        },
{
    let ghost w0 = owner@;
    open_passage(open, owner, e, who, h, w, goals);
    proof {
        assert forall|f: Edge|
            coord_ok(f.0) && coord_ok(f.1) && adjacent(f.0, f.1) && !(region@.contains(f.0) && region@.contains(f.1))
                && in_bounds(wall_cell(f), h as int, w as int) implies #[trigger] grid_at(owner@, wall_cell(f)) == grid_at(
            w0,
            wall_cell(f),
        ) by {
            lemma_wall_not_gcell(e.0, f);
            lemma_wall_not_gcell(e.1, f);
            if wall_cell(f) == wall_cell(e) {
                lemma_wall_unique(e, f);
            }
        }
        assert forall|d: Cell| in_bounds(d, h as int, w as int) implies #[trigger] grid_at(owner@, d) == grid_at(w0, d)
            || grid_at(owner@, d) == r by {
        }
        assert forall|c: Cell| coord_ok(c) && !region@.contains(c) && in_bounds(gcell(c), h as int, w as int) implies #[trigger] grid_at(
            owner@,
            gcell(c),
        ) == grid_at(w0, gcell(c)) by {
            lemma_gcell_injective(c, e.0);
            lemma_gcell_injective(c, e.1);
            lemma_wall_not_gcell(c, e);
        }
        assert forall|d: Cell| in_bounds(d, h as int, w as int) && #[trigger] grid_at(owner@, d) != grid_at(w0, d) implies in_territory(
            region@,
            d,
        ) by {
            if d == gcell(e.0) {
                assert(region@.contains(e.0));
            } else if d == gcell(e.1) {
                assert(region@.contains(e.1));
            } else {
                assert(d == wall_cell(e));
                assert(region@.contains(e.0) && region@.contains(e.1) && adjacent(e.0, e.1));
            }
        }
    }
}

/// The maze cell `c` of `region` is background on layer `l` for a route with
/// vias: no via, and in no piece of the route that lies on this layer.
pub open spec fn background_cell(plan: RoutePlan, region: Seq<Cell>, c: Cell, l: int, layers: int) -> bool {
    &&& plan.vias@.len() > 0
    &&& region.contains(c)
    &&& !plan.vias@.contains(c)
    &&& forall|k: int|
        0 <= k < plan.pieces@.len() && piece_on_layer(k, l, layers) ==> !(#[trigger] plan.pieces@[k]@).contains(c)
}

/// The grid cell `d` lies in the territory of a piece of `plan` that lies on
/// layer `l`.
pub open spec fn owned_by_piece(plan: RoutePlan, d: Cell, l: int, layers: int) -> bool {
    exists|j: int| 0 <= j < plan.pieces@.len() && piece_on_layer(j, l, layers) && #[trigger] in_territory(piece_span(plan, j), d)
}

/// For a route with vias, every grid cell that came to be owned by `r` from
/// `w0` to `w1` lies in the territory of a piece of `plan` on layer `l`.
pub open spec fn owned_in_pieces(
    w0: Seq<Vec<usize>>,
    w1: Seq<Vec<usize>>,
    plan: RoutePlan,
    r: int,
    l: int,
    layers: int,
    h: int,
    w: int,
) -> bool {
    plan.vias@.len() > 0 ==> forall|d: Cell|
        in_bounds(d, h, w) && #[trigger] grid_at(w1, d) == r && grid_at(w0, d) != r ==> owned_by_piece(plan, d, l, layers)
}

/// Owning the grid cell of a cell of piece `k`, on its layer, keeps
/// `owned_in_pieces`.
proof fn lemma_owned_by_cell(
    w0: Seq<Vec<usize>>,
    w1: Seq<Vec<usize>>,
    w2: Seq<Vec<usize>>,
    plan: RoutePlan,
    r: int,
    l: int,
    layers: int,
    h: int,
    w: int,
    c: Cell,
    k: int,
)
    requires
        owned_in_pieces(w0, w1, plan, r, l, layers, h, w),
        forall|d: Cell| in_bounds(d, h, w) && d != gcell(c) ==> #[trigger] grid_at(w2, d) == grid_at(w1, d),
        0 <= k < plan.pieces@.len(),
        piece_on_layer(k, l, layers),
        plan.pieces@[k]@.contains(c),
    ensures
        owned_in_pieces(w0, w2, plan, r, l, layers, h, w),
{
    if plan.vias@.len() > 0 {
        assert forall|d: Cell| in_bounds(d, h, w) && #[trigger] grid_at(w2, d) == r && grid_at(w0, d) != r implies owned_by_piece(
            plan,
            d,
            l,
            layers,
        ) by {
            if d == gcell(c) {
                let i = choose|i: int| 0 <= i < plan.pieces@[k]@.len() && plan.pieces@[k]@[i] == c;
                assert(piece_span(plan, k)[i] == c);
                assert(piece_span(plan, k).contains(c));
                assert(in_territory(piece_span(plan, k), d));
            }
        }
    }
}

/// Owning the cells and the wall of a passage of piece `k`, on its layer,
/// keeps `owned_in_pieces`.
proof fn lemma_owned_by_passage(
    w0: Seq<Vec<usize>>,
    w1: Seq<Vec<usize>>,
    w2: Seq<Vec<usize>>,
    plan: RoutePlan,
    r: int,
    l: int,
    layers: int,
    h: int,
    w: int,
    e: Edge,
    k: int,
    t: int,
)
    requires
        owned_in_pieces(w0, w1, plan, r, l, layers, h, w),
        forall|d: Cell|
            in_bounds(d, h, w) && d != gcell(e.0) && d != gcell(e.1) && d != wall_cell(e) ==> #[trigger] grid_at(w2, d)
                == grid_at(w1, d),
        0 <= k < plan.pieces@.len(),
        piece_on_layer(k, l, layers),
        0 <= t < plan.piece_edges@[k]@.len(),
        plan.piece_edges@[k]@[t] == e,
        spans_hold_edges(plan),
        adjacent(e.0, e.1),
    ensures
        owned_in_pieces(w0, w2, plan, r, l, layers, h, w),
{
    if plan.vias@.len() > 0 {
        assert(piece_span(plan, k).contains(e.0) && piece_span(plan, k).contains(e.1));
        assert forall|d: Cell| in_bounds(d, h, w) && #[trigger] grid_at(w2, d) == r && grid_at(w0, d) != r implies owned_by_piece(
            plan,
            d,
            l,
            layers,
        ) by {
            if d == gcell(e.0) || d == gcell(e.1) || d == wall_cell(e) {
                assert(in_territory(piece_span(plan, k), d));
            }
        }
    }
}

/// The grid cell `d` is the grid cell of a background cell of `plan` on
/// layer `l`, or the wall between two adjacent ones.
pub open spec fn bg_territory(plan: RoutePlan, region: Seq<Cell>, l: int, layers: int, d: Cell) -> bool {
    ||| exists|c: Cell| #[trigger] background_cell(plan, region, c, l, layers) && d == gcell(c)
    ||| exists|e: Edge|
        #[trigger] background_cell(plan, region, e.0, l, layers) && background_cell(plan, region, e.1, l, layers) && adjacent(
            e.0,
            e.1,
        ) && d == wall_cell(e)
}

/// Every grid cell opened from `o0` to `o1` is owned by `r` in `w1`, or lies
/// in the background of `plan` on layer `l`.
pub open spec fn unowned_opened_in_background(
    o0: Seq<Vec<bool>>,
    o1: Seq<Vec<bool>>,
    w1: Seq<Vec<usize>>,
    plan: RoutePlan,
    region: Seq<Cell>,
    r: int,
    l: int,
    layers: int,
    h: int,
    w: int,
) -> bool {
    forall|d: Cell|
        in_bounds(d, h, w) && #[trigger] grid_at(o1, d) && !grid_at(o0, d) ==> grid_at(w1, d) == r || bg_territory(
            plan,
            region,
            l,
            layers,
            d,
        )
}

/// Opening and owning the grid cell of `c` for `r` keeps
/// `unowned_opened_in_background`.
proof fn lemma_unowned_by_cell(
    o0: Seq<Vec<bool>>,
    o1: Seq<Vec<bool>>,
    o2: Seq<Vec<bool>>,
    w1: Seq<Vec<usize>>,
    w2: Seq<Vec<usize>>,
    plan: RoutePlan,
    region: Seq<Cell>,
    r: int,
    l: int,
    layers: int,
    h: int,
    w: int,
    c: Cell,
)
    requires
        unowned_opened_in_background(o0, o1, w1, plan, region, r, l, layers, h, w),
        forall|d: Cell| in_bounds(d, h, w) && d != gcell(c) ==> #[trigger] grid_at(o2, d) == grid_at(o1, d),
        forall|d: Cell| in_bounds(d, h, w) && d != gcell(c) ==> #[trigger] grid_at(w2, d) == grid_at(w1, d),
        in_bounds(gcell(c), h, w) ==> grid_at(w2, gcell(c)) == r,
    ensures
        unowned_opened_in_background(o0, o2, w2, plan, region, r, l, layers, h, w),
{
    assert forall|d: Cell| in_bounds(d, h, w) && #[trigger] grid_at(o2, d) && !grid_at(o0, d) implies grid_at(w2, d) == r
        || bg_territory(plan, region, l, layers, d) by {
        if d != gcell(c) {
            assert(grid_at(o1, d));
        }
    }
}

/// Opening and owning the cells and the wall of a passage for `r` keeps
/// `unowned_opened_in_background`.
proof fn lemma_unowned_by_passage(
    o0: Seq<Vec<bool>>,
    o1: Seq<Vec<bool>>,
    o2: Seq<Vec<bool>>,
    w1: Seq<Vec<usize>>,
    w2: Seq<Vec<usize>>,
    plan: RoutePlan,
    region: Seq<Cell>,
    r: int,
    l: int,
    layers: int,
    h: int,
    w: int,
    e: Edge,
)
    requires
        unowned_opened_in_background(o0, o1, w1, plan, region, r, l, layers, h, w),
        forall|d: Cell|
            in_bounds(d, h, w) && d != gcell(e.0) && d != gcell(e.1) && d != wall_cell(e) ==> #[trigger] grid_at(o2, d)
                == grid_at(o1, d),
        forall|d: Cell|
            in_bounds(d, h, w) && d != gcell(e.0) && d != gcell(e.1) && d != wall_cell(e) ==> #[trigger] grid_at(w2, d)
                == grid_at(w1, d),
        cell_held(o2, w2, gcell(e.0), r, h, w),
        cell_held(o2, w2, gcell(e.1), r, h, w),
        cell_held(o2, w2, wall_cell(e), r, h, w),
    ensures
        unowned_opened_in_background(o0, o2, w2, plan, region, r, l, layers, h, w),
{
    assert forall|d: Cell| in_bounds(d, h, w) && #[trigger] grid_at(o2, d) && !grid_at(o0, d) implies grid_at(w2, d) == r
        || bg_territory(plan, region, l, layers, d) by {
        if d != gcell(e.0) && d != gcell(e.1) && d != wall_cell(e) {
            assert(grid_at(o1, d));
        }
    }
}

/// Opening the grid cell of the background cell `c` for nobody keeps
/// `unowned_opened_in_background`.
proof fn lemma_unowned_by_bg_cell(
    o0: Seq<Vec<bool>>,
    o1: Seq<Vec<bool>>,
    o2: Seq<Vec<bool>>,
    w1: Seq<Vec<usize>>,
    w2: Seq<Vec<usize>>,
    plan: RoutePlan,
    region: Seq<Cell>,
    r: int,
    l: int,
    layers: int,
    h: int,
    w: int,
    c: Cell,
)
    requires
        unowned_opened_in_background(o0, o1, w1, plan, region, r, l, layers, h, w),
        forall|d: Cell| in_bounds(d, h, w) && d != gcell(c) ==> #[trigger] grid_at(o2, d) == grid_at(o1, d),
        forall|d: Cell| in_bounds(d, h, w) ==> #[trigger] grid_at(w2, d) == grid_at(w1, d),
        background_cell(plan, region, c, l, layers),
    ensures
        unowned_opened_in_background(o0, o2, w2, plan, region, r, l, layers, h, w),
{
    assert forall|d: Cell| in_bounds(d, h, w) && #[trigger] grid_at(o2, d) && !grid_at(o0, d) implies grid_at(w2, d) == r
        || bg_territory(plan, region, l, layers, d) by {
        if d != gcell(c) {
            assert(grid_at(o1, d));
            assert(grid_at(w2, d) == grid_at(w1, d));
        }
    }
}

/// Opening a passage between two background cells for nobody keeps
/// `unowned_opened_in_background`.
proof fn lemma_unowned_by_bg_passage(
    o0: Seq<Vec<bool>>,
    o1: Seq<Vec<bool>>,
    o2: Seq<Vec<bool>>,
    w1: Seq<Vec<usize>>,
    w2: Seq<Vec<usize>>,
    plan: RoutePlan,
    region: Seq<Cell>,
    r: int,
    l: int,
    layers: int,
    h: int,
    w: int,
    e: Edge,
)
    requires
        unowned_opened_in_background(o0, o1, w1, plan, region, r, l, layers, h, w),
        forall|d: Cell|
            in_bounds(d, h, w) && d != gcell(e.0) && d != gcell(e.1) && d != wall_cell(e) ==> #[trigger] grid_at(o2, d)
                == grid_at(o1, d),
        forall|d: Cell| in_bounds(d, h, w) ==> #[trigger] grid_at(w2, d) == grid_at(w1, d),
        background_cell(plan, region, e.0, l, layers),
        background_cell(plan, region, e.1, l, layers),
        adjacent(e.0, e.1),
    ensures
        unowned_opened_in_background(o0, o2, w2, plan, region, r, l, layers, h, w),
{
    assert forall|d: Cell| in_bounds(d, h, w) && #[trigger] grid_at(o2, d) && !grid_at(o0, d) implies grid_at(w2, d) == r
        || bg_territory(plan, region, l, layers, d) by {
        if d != gcell(e.0) && d != gcell(e.1) && d != wall_cell(e) {
            assert(grid_at(o1, d));
            assert(grid_at(w2, d) == grid_at(w1, d));
        }
    }
}

/// A lattice cell of the region that the labels show as background is a
/// background cell: it is no via, and since pieces share only vias, no piece
/// on this layer holds it.
proof fn lemma_background_of_label(
    plan: RoutePlan,
    region: Seq<Cell>,
    lab: Seq<Vec<usize>>,
    isvia: Seq<Vec<bool>>,
    c: Cell,
    l: int,
    layers: int,
    mh: int,
    mw: int,
)
    requires
        region.contains(c),
        plan.vias@.len() > 0,
        plan.pieces@.len() == plan.vias@.len() + 1,
        pieces_apart(plan),
        is_background_spec(lab, isvia, c, l, layers, plan.pieces@.len() as int, mh, mw),
        forall|j: int|
            0 <= j < plan.vias@.len() && in_bounds(plan.vias@[j], mh, mw) ==> grid_at(isvia, #[trigger] plan.vias@[j]),
        forall|q: int, d: Cell|
            0 <= q < plan.pieces@.len() && in_bounds(d, mh, mw) && #[trigger] plan.pieces@[q]@.contains(d) ==> grid_at(lab, d)
                < plan.pieces@.len(),
        forall|d: Cell|
            in_bounds(d, mh, mw) ==> #[trigger] grid_at(lab, d) == plan.pieces@.len() || (grid_at(lab, d) < plan.pieces@.len()
                && plan.pieces@[grid_at(lab, d) as int]@.contains(d)),
    ensures
        background_cell(plan, region, c, l, layers),
{
    assert(!plan.vias@.contains(c)) by {
        if plan.vias@.contains(c) {
            let j = choose|j: int| 0 <= j < plan.vias@.len() && plan.vias@[j] == c;
            assert(grid_at(isvia, plan.vias@[j]));
        }
    }
    assert forall|k: int| 0 <= k < plan.pieces@.len() && piece_on_layer(k, l, layers) implies !(#[trigger] plan.pieces@[k]@).contains(c) by {
        if plan.pieces@[k]@.contains(c) {
            let m = grid_at(lab, c) as int;
            assert(m < plan.pieces@.len());
            assert(plan.pieces@[m]@.contains(c));
            assert(m != k);
            assert(wp_covered(plan, k, c) && wp_covered(plan, m, c));
            if m < k {
                assert(c == plan.vias@[m]);
                assert(plan.vias@.contains(plan.vias@[m]));
            } else {
                assert(c == plan.vias@[k]);
                assert(plan.vias@.contains(plan.vias@[k]));
            }
        }
    }
}

/// A grid cell of a territory next to a grid cell of a background stands
/// for a maze cell of both.
proof fn lemma_bg_meet(s1: Seq<Cell>, plan: RoutePlan, region: Seq<Cell>, l: int, layers: int, d1: Cell, d2: Cell) -> (c: Cell)
    requires
        in_territory(s1, d1),
        bg_territory(plan, region, l, layers, d2),
        adjacent(d1, d2),
        all_coord_ok(s1),
        all_coord_ok(region),
    ensures
        s1.contains(c) && background_cell(plan, region, c, l, layers),
{
    if exists|c: Cell| #[trigger] s1.contains(c) && d1 == gcell(c) {
        let c1 = choose|c: Cell| #[trigger] s1.contains(c) && d1 == gcell(c);
        let i1 = choose|i: int| 0 <= i < s1.len() && s1[i] == c1;
        assert(coord_ok(s1[i1]));
        if exists|c: Cell| #[trigger] background_cell(plan, region, c, l, layers) && d2 == gcell(c) {
            let c2 = choose|c: Cell| #[trigger] background_cell(plan, region, c, l, layers) && d2 == gcell(c);
            let i2 = choose|i: int| 0 <= i < region.len() && region[i] == c2;
            assert(coord_ok(region[i2]));
            assert(false);
            c1
        } else {
            let e = choose|e: Edge|
                #[trigger] background_cell(plan, region, e.0, l, layers) && background_cell(plan, region, e.1, l, layers)
                    && adjacent(e.0, e.1) && d2 == wall_cell(e);
            let j0 = choose|i: int| 0 <= i < region.len() && region[i] == e.0;
            let j1 = choose|i: int| 0 <= i < region.len() && region[i] == e.1;
            assert(coord_ok(region[j0]) && coord_ok(region[j1]));
            if c1 == e.0 {
                e.0
            } else {
                assert(c1 == e.1);
                e.1
            }
        }
    } else {
        let e = choose|e: Edge| #[trigger] s1.contains(e.0) && s1.contains(e.1) && adjacent(e.0, e.1) && d1 == wall_cell(e);
        let j0 = choose|i: int| 0 <= i < s1.len() && s1[i] == e.0;
        let j1 = choose|i: int| 0 <= i < s1.len() && s1[i] == e.1;
        assert(coord_ok(s1[j0]) && coord_ok(s1[j1]));
        if exists|c: Cell| #[trigger] background_cell(plan, region, c, l, layers) && d2 == gcell(c) {
            let c2 = choose|c: Cell| #[trigger] background_cell(plan, region, c, l, layers) && d2 == gcell(c);
            let i2 = choose|i: int| 0 <= i < region.len() && region[i] == c2;
            assert(coord_ok(region[i2]));
            if c2 == e.0 {
                e.0
            } else {
                assert(c2 == e.1);
                e.1
            }
        } else {
            let f = choose|f: Edge|
                #[trigger] background_cell(plan, region, f.0, l, layers) && background_cell(plan, region, f.1, l, layers)
                    && adjacent(f.0, f.1) && d2 == wall_cell(f);
            let k0 = choose|i: int| 0 <= i < region.len() && region[i] == f.0;
            let k1 = choose|i: int| 0 <= i < region.len() && region[i] == f.1;
            assert(coord_ok(region[k0]) && coord_ok(region[k1]));
            assert(false);
            e.0
        }
    }
}

/// Carves route `r` into layer `l`. A route without vias is carved over its
/// whole region with the layer's own maze. A route with vias gets the pieces
/// that lie on this layer, each with its passages; the rest of its region,
/// apart from the vias, becomes unowned background maze of this layer, whose
/// passages never meet the route's own cells. Only grid cells of the region
/// and walls between them change owner, and only to `r`.
#[verifier::spinoff_prover]
#[verifier::rlimit(40)]
fn carve_route(
    open: &mut Vec<Vec<bool>>,
    owner: &mut Vec<Vec<usize>>,
    l: usize,
    r: usize,
    plan: &RoutePlan,
    region: &Vec<Cell>,
    layer_tree: &Vec<Edge>,
    layers: usize,
    maze_h: usize,
    maze_w: usize,
    h: usize,
    w: usize,
    goals: usize,
)
    requires
        carve_ok(old(open)@, old(owner)@, h as int, w as int, goals as int),
        r < goals,
        layers >= 1,
        all_coord_ok(region@),
        plan_within(*plan, region@),
        edges_within(layer_tree@, region@),
        spans_hold_edges(*plan),
        pieces_apart(*plan),
    ensures
        unowned_opened_in_background(old(open)@, final(open)@, final(owner)@, *plan, region@, r as int, l as int, layers as int, h as int, w as int),
        owned_in_pieces(old(owner)@, final(owner)@, *plan, r as int, l as int, layers as int, h as int, w as int),
        carve_ok(final(open)@, final(owner)@, h as int, w as int, goals as int),
        carved_by(old(open)@, old(owner)@, final(open)@, final(owner)@, r as int, h as int, w as int),
        kept_outside(old(owner)@, final(owner)@, region@, h as int, w as int),
        walls_kept_outside(old(owner)@, final(owner)@, region@, h as int, w as int),
        held_on_layer(
            final(open)@,
            final(owner)@,
            *plan,
            region@,
            layer_tree@,
            r as int,
            l as int,
            layers as int,
            h as int,
            w as int,
        ),
        forall|c: Cell|
            #[trigger] background_cell(*plan, region@, c, l as int, layers as int) && c.0 < maze_h && c.1 < maze_w
                && in_bounds(gcell(c), h as int, w as int) ==> grid_at(final(open)@, gcell(c)),
{
    let ghost o0 = open@;
    let ghost w0 = owner@;
    let ghost hh = h as int;
    let ghost ww = w as int;
    let nv = plan.vias.len();
    let np = plan.pieces.len();
    if nv == 0 {
        let mut i: usize = 0;
        while i < region.len()
            invariant
                i <= region@.len(),
                r < goals,
                all_coord_ok(region@),
                carve_ok(open@, owner@, h as int, w as int, goals as int),
                carved_by(o0, w0, open@, owner@, r as int, hh, ww),
                kept_outside(w0, owner@, region@, hh, ww),
                walls_kept_outside(w0, owner@, region@, hh, ww),
                held_by(open@, owner@, region@.take(i as int), r as int, hh, ww),
                hh == h,
                ww == w,
                plan.vias@.len() == 0,
                unowned_opened_in_background(o0, open@, owner@, *plan, region@, r as int, l as int, layers as int, hh, ww),
            decreases region@.len() - i,
        {
            let ghost o1 = open@;
            let ghost w1 = owner@;
            let c = region[i];
            open_region_cell(open, owner, c, Some(r), Ghost(region@), r, h, w, goals);
            proof {
                lemma_unowned_by_cell(o0, o1, open@, w1, owner@, *plan, region@, r as int, l as int, layers as int, hh, ww, c);
                lemma_carved_by_trans(o0, w0, o1, w1, open@, owner@, r as int, hh, ww);
                lemma_kept_outside_trans(w0, w1, owner@, region@, hh, ww);
                lemma_walls_kept_trans(w0, w1, owner@, region@, hh, ww);
                lemma_held_by_kept(o1, w1, open@, owner@, region@.take(i as int), r as int, hh, ww);
                assert forall|j: int|
                    0 <= j < region@.take(i + 1).len() && in_bounds(gcell(region@.take(i + 1)[j]), hh, ww) implies grid_at(
                    open@,
                    gcell(#[trigger] region@.take(i + 1)[j]),
                ) && grid_at(owner@, gcell(region@.take(i + 1)[j])) == r by {
                    if j < i {
                        assert(region@.take(i + 1)[j] == region@.take(i as int)[j]);
                    }
                }
            }
            i = i + 1;
        }
        proof {
            assert(region@.take(region@.len() as int) =~= region@);
        }
        let mut t: usize = 0;
        while t < layer_tree.len()
            invariant
                t <= layer_tree@.len(),
                r < goals,
                all_coord_ok(region@),
                edges_within(layer_tree@, region@),
                carve_ok(open@, owner@, h as int, w as int, goals as int),
                carved_by(o0, w0, open@, owner@, r as int, hh, ww),
                kept_outside(w0, owner@, region@, hh, ww),
                walls_kept_outside(w0, owner@, region@, hh, ww),
                held_by(open@, owner@, region@, r as int, hh, ww),
                edges_held(open@, owner@, layer_tree@.take(t as int), r as int, hh, ww),
                plan.vias@.len() == 0,
                unowned_opened_in_background(o0, open@, owner@, *plan, region@, r as int, l as int, layers as int, hh, ww),
                hh == h,
                ww == w,
            decreases layer_tree@.len() - t,
        {
            let e = layer_tree[t];
            proof {
                lemma_within_coord_ok(seq![e.0, e.1], region@);
                assert(seq![e.0, e.1][0] == e.0 && seq![e.0, e.1][1] == e.1);
            }
            let ghost o1 = open@;
            let ghost w1 = owner@;
            open_region_passage(open, owner, e, Some(r), Ghost(region@), r, h, w, goals);
            proof {
                lemma_unowned_by_passage(o0, o1, open@, w1, owner@, *plan, region@, r as int, l as int, layers as int, hh, ww, e);
                lemma_carved_by_trans(o0, w0, o1, w1, open@, owner@, r as int, hh, ww);
                lemma_kept_outside_trans(w0, w1, owner@, region@, hh, ww);
                lemma_walls_kept_trans(w0, w1, owner@, region@, hh, ww);
                lemma_held_by_kept(o1, w1, open@, owner@, region@, r as int, hh, ww);
                lemma_edges_held_kept(o1, w1, open@, owner@, layer_tree@.take(t as int), r as int, hh, ww);
                let tk = layer_tree@.take(t + 1);
                assert forall|q: int| 0 <= q < tk.len() implies {
                    &&& cell_held(open@, owner@, gcell((#[trigger] tk[q]).0), r as int, hh, ww)
                    &&& cell_held(open@, owner@, gcell(tk[q].1), r as int, hh, ww)
                    &&& cell_held(open@, owner@, wall_cell(tk[q]), r as int, hh, ww)
                } by {
                    if q < t {
                        assert(tk[q] == layer_tree@.take(t as int)[q]);
                    } else {
                        assert(tk[q] == e);
                    }
                }
            }
            t = t + 1;
        }
        proof {
            assert(layer_tree@.take(layer_tree@.len() as int) =~= layer_tree@);
        }
        return;
    }
    // Which piece each maze cell is in, and which cells are vias.
    let mh: usize = if maze_h == 0 { 1 } else { maze_h };
    let mut lab = const_grid(mh, maze_w, np);
    let mut isvia = const_grid(mh, maze_w, false);
    let mut k: usize = 0;
    while k < np
        invariant
            k <= np,
            np == plan.pieces@.len(),
            grid_shape(lab@, mh as int, maze_w as int),
            forall|c: Cell|
                in_bounds(c, mh as int, maze_w as int) ==> #[trigger] grid_at(lab@, c) == np || (grid_at(lab@, c)
                    < np && plan.pieces@[grid_at(lab@, c) as int]@.contains(c)),
            forall|q: int, c: Cell|
                0 <= q < k && in_bounds(c, mh as int, maze_w as int) && #[trigger] plan.pieces@[q]@.contains(c) ==> grid_at(lab@, c) < np,
        decreases np - k,
    {
        let piece = &plan.pieces[k];
        let mut i: usize = 0;
        while i < piece.len()
            invariant
                i <= piece@.len(),
                k < np,
                np == plan.pieces@.len(),
                piece@ == plan.pieces@[k as int]@,
                grid_shape(lab@, mh as int, maze_w as int),
                forall|c: Cell|
                    in_bounds(c, mh as int, maze_w as int) ==> #[trigger] grid_at(lab@, c) == np || (grid_at(lab@, c)
                        < np && plan.pieces@[grid_at(lab@, c) as int]@.contains(c)),
                forall|q: int, c: Cell|
                    0 <= q < k && in_bounds(c, mh as int, maze_w as int) && #[trigger] plan.pieces@[q]@.contains(c) ==> grid_at(lab@, c) < np,
                forall|j: int| 0 <= j < i && in_bounds(piece@[j], mh as int, maze_w as int) ==> grid_at(lab@, #[trigger] piece@[j]) < np,
            decreases piece@.len() - i,
        {
            let c = piece[i];
            if c.0 < mh && c.1 < maze_w {
                let ghost l0 = lab@;
                crate::grid::set_grid(&mut lab, c, k);
                proof {
                    assert forall|d: Cell|
                        in_bounds(d, mh as int, maze_w as int) implies #[trigger] grid_at(lab@, d) == np || (grid_at(lab@, d)
                            < np && plan.pieces@[grid_at(lab@, d) as int]@.contains(d)) by {
                        if d == c {
                            assert(piece@[i as int] == c);
                            assert(plan.pieces@[k as int]@.contains(c));
                        } else {
                            assert(grid_at(lab@, d) == grid_at(l0, d));
                        }
                    }
                    assert forall|q: int, d: Cell|
                        0 <= q < k && in_bounds(d, mh as int, maze_w as int) && #[trigger] plan.pieces@[q]@.contains(d) implies grid_at(lab@, d) < np by {
                        if d != c {
                            assert(grid_at(lab@, d) == grid_at(l0, d));
                        }
                    }
                    assert forall|j: int| 0 <= j < i + 1 && in_bounds(piece@[j], mh as int, maze_w as int) implies grid_at(lab@, #[trigger] piece@[j]) < np by {
                        if piece@[j] != c {
                            assert(grid_at(lab@, piece@[j]) == grid_at(l0, piece@[j]));
                        }
                    }
                }
            }
            i = i + 1;
        }
        proof {
            assert forall|q: int, c: Cell|
                0 <= q < k + 1 && in_bounds(c, mh as int, maze_w as int) && #[trigger] plan.pieces@[q]@.contains(c) implies grid_at(lab@, c) < np by {
                if q == k {
                    let j = choose|j: int| 0 <= j < piece@.len() && piece@[j] == c;
                    assert(grid_at(lab@, piece@[j]) < np);
                }
            }
        }
        k = k + 1;
    }
    let mut i: usize = 0;
    while i < nv
        invariant
            i <= nv,
            nv == plan.vias@.len(),
            grid_shape(isvia@, mh as int, maze_w as int),
            forall|c: Cell| in_bounds(c, mh as int, maze_w as int) && #[trigger] grid_at(isvia@, c) ==> plan.vias@.contains(c),
            forall|j: int| 0 <= j < i && in_bounds(plan.vias@[j], mh as int, maze_w as int) ==> grid_at(isvia@, #[trigger] plan.vias@[j]),
        decreases nv - i,
    {
        let c = plan.vias[i];
        if c.0 < mh && c.1 < maze_w {
            let ghost v0 = isvia@;
            crate::grid::set_grid(&mut isvia, c, true);
            proof {
                assert forall|d: Cell| in_bounds(d, mh as int, maze_w as int) && #[trigger] grid_at(isvia@, d) implies plan.vias@.contains(d) by {
                    if d == c {
                        assert(plan.vias@[i as int] == c);
                    } else {
                        assert(grid_at(isvia@, d) == grid_at(v0, d));
                    }
                }
                assert forall|j: int| 0 <= j < i + 1 && in_bounds(plan.vias@[j], mh as int, maze_w as int) implies grid_at(isvia@, #[trigger] plan.vias@[j]) by {
                    if plan.vias@[j] != c {
                        assert(grid_at(isvia@, plan.vias@[j]) == grid_at(v0, plan.vias@[j]));
                    }
                }
            }
        }
        i = i + 1;
    }
    // The route's own pieces on this layer.
    let mut k: usize = 0;
    while k < np
        invariant
            k <= np,
            np == plan.pieces@.len(),
            nv == plan.vias@.len(),
            nv > 0,
            r < goals,
            layers >= 1,
            all_coord_ok(region@),
            plan_within(*plan, region@),
            carve_ok(open@, owner@, h as int, w as int, goals as int),
            carved_by(o0, w0, open@, owner@, r as int, hh, ww),
            kept_outside(w0, owner@, region@, hh, ww),
            walls_kept_outside(w0, owner@, region@, hh, ww),
            forall|q: int|
                0 <= q < k && piece_on_layer(q, l as int, layers as int) ==> held_by(
                    open@,
                    owner@,
                    #[trigger] plan.pieces@[q]@,
                    r as int,
                    hh,
                    ww,
                ),
            forall|q: int|
                0 <= q < k && piece_on_layer(q, l as int, layers as int) ==> edges_held(
                    open@,
                    owner@,
                    #[trigger] plan.piece_edges@[q]@,
                    r as int,
                    hh,
                    ww,
                ),
            hh == h,
            ww == w,
            spans_hold_edges(*plan),
            owned_in_pieces(w0, owner@, *plan, r as int, l as int, layers as int, hh, ww),
            unowned_opened_in_background(o0, open@, owner@, *plan, region@, r as int, l as int, layers as int, hh, ww),
        decreases np - k,
    {
        if k % layers == l {
            let piece = &plan.pieces[k];
            proof {
                lemma_within_coord_ok(piece@, region@);
            }
            let ghost ok = open@;
            let ghost wk = owner@;
            let mut i: usize = 0;
            while i < piece.len()
                invariant
                    i <= piece@.len(),
                    r < goals,
                    all_coord_ok(piece@),
                    cells_within(piece@, region@),
                    carve_ok(open@, owner@, h as int, w as int, goals as int),
                    carved_by(ok, wk, open@, owner@, r as int, hh, ww),
                    kept_outside(wk, owner@, region@, hh, ww),
                    walls_kept_outside(wk, owner@, region@, hh, ww),
                    held_by(open@, owner@, piece@.take(i as int), r as int, hh, ww),
                    hh == h,
                    ww == w,
                    k < np,
                    np == plan.pieces@.len(),
                    piece@ == plan.pieces@[k as int]@,
                    piece_on_layer(k as int, l as int, layers as int),
                    owned_in_pieces(w0, owner@, *plan, r as int, l as int, layers as int, hh, ww),
                    unowned_opened_in_background(o0, open@, owner@, *plan, region@, r as int, l as int, layers as int, hh, ww),
                decreases piece@.len() - i,
            {
                let ghost o1 = open@;
                let ghost w1 = owner@;
                let c = piece[i];
                proof {
                    assert(region@.contains(piece@[i as int]));
                }
                open_region_cell(open, owner, c, Some(r), Ghost(region@), r, h, w, goals);
                proof {
                    lemma_owned_by_cell(w0, w1, owner@, *plan, r as int, l as int, layers as int, hh, ww, c, k as int);
                    lemma_unowned_by_cell(o0, o1, open@, w1, owner@, *plan, region@, r as int, l as int, layers as int, hh, ww, c);
                    lemma_carved_by_trans(ok, wk, o1, w1, open@, owner@, r as int, hh, ww);
                    lemma_kept_outside_trans(wk, w1, owner@, region@, hh, ww);
                    lemma_walls_kept_trans(wk, w1, owner@, region@, hh, ww);
                    lemma_held_by_kept(o1, w1, open@, owner@, piece@.take(i as int), r as int, hh, ww);
                    assert forall|j: int|
                        0 <= j < piece@.take(i + 1).len() && in_bounds(gcell(piece@.take(i + 1)[j]), hh, ww) implies grid_at(
                        open@,
                        gcell(#[trigger] piece@.take(i + 1)[j]),
                    ) && grid_at(owner@, gcell(piece@.take(i + 1)[j])) == r by {
                        if j < i {
                            assert(piece@.take(i + 1)[j] == piece@.take(i as int)[j]);
                        }
                    }
                }
                i = i + 1;
            }
            proof {
                assert(piece@.take(piece@.len() as int) =~= piece@);
            }
            let pe = &plan.piece_edges[k];
            let mut t: usize = 0;
            while t < pe.len()
                invariant
                    t <= pe@.len(),
                    r < goals,
                    all_coord_ok(region@),
                    edges_within(pe@, region@),
                    carve_ok(open@, owner@, h as int, w as int, goals as int),
                    carved_by(ok, wk, open@, owner@, r as int, hh, ww),
                    kept_outside(wk, owner@, region@, hh, ww),
                    walls_kept_outside(wk, owner@, region@, hh, ww),
                    held_by(open@, owner@, piece@, r as int, hh, ww),
                    edges_held(open@, owner@, pe@.take(t as int), r as int, hh, ww),
                    hh == h,
                    ww == w,
                    k < np,
                    np == plan.pieces@.len(),
                    plan.piece_edges@.len() == np,
                    pe@ == plan.piece_edges@[k as int]@,
                    piece_on_layer(k as int, l as int, layers as int),
                    spans_hold_edges(*plan),
                    owned_in_pieces(w0, owner@, *plan, r as int, l as int, layers as int, hh, ww),
                    unowned_opened_in_background(o0, open@, owner@, *plan, region@, r as int, l as int, layers as int, hh, ww),
                decreases pe@.len() - t,
            {
                let e = pe[t];
                proof {
                    lemma_within_coord_ok(seq![e.0, e.1], region@);
                    assert(seq![e.0, e.1][0] == e.0 && seq![e.0, e.1][1] == e.1);
                }
                let ghost o1 = open@;
                let ghost w1 = owner@;
                open_region_passage(open, owner, e, Some(r), Ghost(region@), r, h, w, goals);
                proof {
                    lemma_owned_by_passage(w0, w1, owner@, *plan, r as int, l as int, layers as int, hh, ww, e, k as int, t as int);
                    lemma_unowned_by_passage(o0, o1, open@, w1, owner@, *plan, region@, r as int, l as int, layers as int, hh, ww, e);
                    lemma_carved_by_trans(ok, wk, o1, w1, open@, owner@, r as int, hh, ww);
                    lemma_kept_outside_trans(wk, w1, owner@, region@, hh, ww);
                    lemma_walls_kept_trans(wk, w1, owner@, region@, hh, ww);
                    lemma_held_by_kept(o1, w1, open@, owner@, piece@, r as int, hh, ww);
                    lemma_edges_held_kept(o1, w1, open@, owner@, pe@.take(t as int), r as int, hh, ww);
                    let tk = pe@.take(t + 1);
                    assert forall|q: int| 0 <= q < tk.len() implies {
                        &&& cell_held(open@, owner@, gcell((#[trigger] tk[q]).0), r as int, hh, ww)
                        &&& cell_held(open@, owner@, gcell(tk[q].1), r as int, hh, ww)
                        &&& cell_held(open@, owner@, wall_cell(tk[q]), r as int, hh, ww)
                    } by {
                        if q < t {
                            assert(tk[q] == pe@.take(t as int)[q]);
                        } else {
                            assert(tk[q] == e);
                        }
                    }
                }
                t = t + 1;
            }
            proof {
                assert(pe@.take(pe@.len() as int) =~= pe@);
                lemma_carved_by_trans(o0, w0, ok, wk, open@, owner@, r as int, hh, ww);
                lemma_kept_outside_trans(w0, wk, owner@, region@, hh, ww);
                lemma_walls_kept_trans(w0, wk, owner@, region@, hh, ww);
                assert forall|q: int|
                    0 <= q < k + 1 && piece_on_layer(q, l as int, layers as int) implies held_by(
                    open@,
                    owner@,
                    #[trigger] plan.pieces@[q]@,
                    r as int,
                    hh,
                    ww,
                ) && edges_held(open@, owner@, plan.piece_edges@[q]@, r as int, hh, ww) by {
                    if q < k {
                        lemma_held_by_kept(ok, wk, open@, owner@, plan.pieces@[q]@, r as int, hh, ww);
                        lemma_edges_held_kept(ok, wk, open@, owner@, plan.piece_edges@[q]@, r as int, hh, ww);
                    } else {
                        assert(pe@ == plan.piece_edges@[q]@);
                    }
                }
            }
        }
        k = k + 1;
    }
    // The background: region cells that are neither vias nor in a piece of
    // this layer, with the layer maze's passages between two such cells.
    let ghost ob = open@;
    let ghost wb = owner@;
    let mut i: usize = 0;
    while i < region.len()
        invariant
            i <= region@.len(),
            layers >= 1,
            r < goals,
            all_coord_ok(region@),
            grid_shape(lab@, mh as int, maze_w as int),
            grid_shape(isvia@, mh as int, maze_w as int),
            carve_ok(open@, owner@, h as int, w as int, goals as int),
            carved_by(ob, wb, open@, owner@, r as int, hh, ww),
            same_owners(wb, owner@, hh, ww),
            hh == h,
            ww == w,
            forall|j: int|
                0 <= j < i && is_background_spec(lab@, isvia@, #[trigger] region@[j], l as int, layers as int, np as int, mh as int, maze_w as int)
                    && in_bounds(gcell(region@[j]), hh, ww) ==> grid_at(open@, gcell(region@[j])),
            forall|j: int| 0 <= j < nv && in_bounds(plan.vias@[j], mh as int, maze_w as int) ==> grid_at(isvia@, #[trigger] plan.vias@[j]),
            nv == plan.vias@.len(),
            forall|q: int, c: Cell|
                0 <= q < np && in_bounds(c, mh as int, maze_w as int) && #[trigger] plan.pieces@[q]@.contains(c) ==> grid_at(lab@, c) < np,
            forall|c: Cell|
                in_bounds(c, mh as int, maze_w as int) ==> #[trigger] grid_at(lab@, c) == np || (grid_at(lab@, c)
                    < np && plan.pieces@[grid_at(lab@, c) as int]@.contains(c)),
            pieces_apart(*plan),
            np == plan.pieces@.len(),
            nv > 0,
            plan_within(*plan, region@),
            unowned_opened_in_background(o0, open@, owner@, *plan, region@, r as int, l as int, layers as int, hh, ww),
        decreases region@.len() - i,
    {
        let c = region[i];
        let ghost oi = open@;
        if is_background(&lab, &isvia, c, l, layers, np, mh, maze_w) {
            let ghost o1 = open@;
            let ghost w1 = owner@;
            open_region_cell(open, owner, c, None, Ghost(region@), r, h, w, goals);
            proof {
                if plan.vias@.contains(c) {
                    let j = choose|j: int| 0 <= j < nv && plan.vias@[j] == c;
                    assert(grid_at(isvia@, plan.vias@[j]));
                }
                lemma_background_of_label(*plan, region@, lab@, isvia@, c, l as int, layers as int, mh as int, maze_w as int);
                lemma_unowned_by_bg_cell(o0, o1, open@, w1, owner@, *plan, region@, r as int, l as int, layers as int, hh, ww, c);
                lemma_carved_by_trans(ob, wb, o1, w1, open@, owner@, r as int, hh, ww);
                assert forall|d: Cell| in_bounds(d, hh, ww) implies #[trigger] grid_at(owner@, d) == grid_at(wb, d) by {
                    assert(grid_at(w1, d) == grid_at(wb, d));
                }
            }
        }
        proof {
            assert forall|j: int|
                0 <= j < i + 1 && is_background_spec(lab@, isvia@, #[trigger] region@[j], l as int, layers as int, np as int, mh as int, maze_w as int)
                    && in_bounds(gcell(region@[j]), hh, ww) implies grid_at(open@, gcell(region@[j])) by {
                if j < i {
                    assert(grid_at(oi, gcell(region@[j])));
                }
            }
        }
        i = i + 1;
    }
    let mut t: usize = 0;
    while t < layer_tree.len()
        invariant
            t <= layer_tree@.len(),
            layers >= 1,
            r < goals,
            all_coord_ok(region@),
            edges_within(layer_tree@, region@),
            grid_shape(lab@, mh as int, maze_w as int),
            grid_shape(isvia@, mh as int, maze_w as int),
            carve_ok(open@, owner@, h as int, w as int, goals as int),
            carved_by(ob, wb, open@, owner@, r as int, hh, ww),
            same_owners(wb, owner@, hh, ww),
            forall|j: int|
                0 <= j < region@.len() && is_background_spec(lab@, isvia@, #[trigger] region@[j], l as int, layers as int, np as int, mh as int, maze_w as int)
                    && in_bounds(gcell(region@[j]), hh, ww) ==> grid_at(open@, gcell(region@[j])),
            hh == h,
            ww == w,
            forall|j: int| 0 <= j < nv && in_bounds(plan.vias@[j], mh as int, maze_w as int) ==> grid_at(isvia@, #[trigger] plan.vias@[j]),
            nv == plan.vias@.len(),
            forall|q: int, c: Cell|
                0 <= q < np && in_bounds(c, mh as int, maze_w as int) && #[trigger] plan.pieces@[q]@.contains(c) ==> grid_at(lab@, c) < np,
            forall|c: Cell|
                in_bounds(c, mh as int, maze_w as int) ==> #[trigger] grid_at(lab@, c) == np || (grid_at(lab@, c)
                    < np && plan.pieces@[grid_at(lab@, c) as int]@.contains(c)),
            pieces_apart(*plan),
            np == plan.pieces@.len(),
            nv > 0,
            plan_within(*plan, region@),
            unowned_opened_in_background(o0, open@, owner@, *plan, region@, r as int, l as int, layers as int, hh, ww),
        decreases layer_tree@.len() - t,
    {
        let e = layer_tree[t];
        if is_background(&lab, &isvia, e.0, l, layers, np, mh, maze_w) && is_background(
            &lab,
            &isvia,
            e.1,
            l,
            layers,
            np,
            mh,
            maze_w,
        ) {
            proof {
                lemma_within_coord_ok(seq![e.0, e.1], region@);
                assert(seq![e.0, e.1][0] == e.0 && seq![e.0, e.1][1] == e.1);
            }
            let ghost o1 = open@;
            let ghost w1 = owner@;
            open_passage(open, owner, e, None, h, w, goals);
            proof {
                if plan.vias@.contains(e.0) {
                    let j = choose|j: int| 0 <= j < nv && plan.vias@[j] == e.0;
                    assert(grid_at(isvia@, plan.vias@[j]));
                }
                if plan.vias@.contains(e.1) {
                    let j = choose|j: int| 0 <= j < nv && plan.vias@[j] == e.1;
                    assert(grid_at(isvia@, plan.vias@[j]));
                }
                lemma_background_of_label(*plan, region@, lab@, isvia@, e.0, l as int, layers as int, mh as int, maze_w as int);
                lemma_background_of_label(*plan, region@, lab@, isvia@, e.1, l as int, layers as int, mh as int, maze_w as int);
                lemma_unowned_by_bg_passage(o0, o1, open@, w1, owner@, *plan, region@, r as int, l as int, layers as int, hh, ww, e);
                assert forall|j: int|
                    0 <= j < region@.len() && is_background_spec(lab@, isvia@, #[trigger] region@[j], l as int, layers as int, np as int, mh as int, maze_w as int)
                        && in_bounds(gcell(region@[j]), hh, ww) implies grid_at(open@, gcell(region@[j])) by {
                    assert(grid_at(o1, gcell(region@[j])));
                }
                lemma_carved_by_trans(ob, wb, o1, w1, open@, owner@, r as int, hh, ww);
                assert forall|d: Cell| in_bounds(d, hh, ww) implies #[trigger] grid_at(owner@, d) == grid_at(wb, d) by {
                    assert(grid_at(w1, d) == grid_at(wb, d));
                }
            }
        }
        t = t + 1;
    }
    proof {
        lemma_carved_by_trans(o0, w0, ob, wb, open@, owner@, r as int, hh, ww);
        assert(walls_kept_outside(w0, owner@, region@, hh, ww)) by {
            assert forall|e: Edge|
                coord_ok(e.0) && coord_ok(e.1) && adjacent(e.0, e.1) && !(region@.contains(e.0) && region@.contains(e.1))
                    && in_bounds(wall_cell(e), hh, ww) implies #[trigger] grid_at(owner@, wall_cell(e)) == grid_at(
                w0,
                wall_cell(e),
            ) by {
                assert(grid_at(owner@, wall_cell(e)) == grid_at(wb, wall_cell(e)));
                assert(grid_at(wb, wall_cell(e)) == grid_at(w0, wall_cell(e)));
            }
        }
        assert(kept_outside(w0, owner@, region@, hh, ww)) by {
            assert forall|c: Cell| coord_ok(c) && !region@.contains(c) && in_bounds(gcell(c), hh, ww) implies #[trigger] grid_at(
                owner@,
                gcell(c),
            ) == grid_at(w0, gcell(c)) by {
                assert(grid_at(owner@, gcell(c)) == grid_at(wb, gcell(c)));
                assert(grid_at(wb, gcell(c)) == grid_at(w0, gcell(c)));
            }
            assert forall|d: Cell| in_bounds(d, hh, ww) && #[trigger] grid_at(owner@, d) != grid_at(w0, d) implies in_territory(
                region@,
                d,
            ) by {
                assert(grid_at(owner@, d) == grid_at(wb, d));
                assert(grid_at(wb, d) != grid_at(w0, d));
            }
        }
        assert forall|q: int|
            0 <= q < plan.pieces@.len() && piece_on_layer(q, l as int, layers as int) implies held_by(
            open@,
            owner@,
            #[trigger] plan.pieces@[q]@,
            r as int,
            hh,
            ww,
        ) && edges_held(open@, owner@, plan.piece_edges@[q]@, r as int, hh, ww) by {
            lemma_held_by_kept(ob, wb, open@, owner@, plan.pieces@[q]@, r as int, hh, ww);
            lemma_edges_held_kept(ob, wb, open@, owner@, plan.piece_edges@[q]@, r as int, hh, ww);
        }
        assert(owned_in_pieces(w0, owner@, *plan, r as int, l as int, layers as int, hh, ww)) by {
            assert forall|d: Cell| in_bounds(d, hh, ww) && #[trigger] grid_at(owner@, d) == r as int && grid_at(w0, d) != r as int
                implies owned_by_piece(*plan, d, l as int, layers as int) by {
                assert(grid_at(owner@, d) == grid_at(wb, d));
            }
        }
        assert forall|c: Cell|
            #[trigger] background_cell(*plan, region@, c, l as int, layers as int) && c.0 < maze_h && c.1 < maze_w
                && in_bounds(gcell(c), hh, ww) implies grid_at(open@, gcell(c)) by {
            let j = choose|j: int| 0 <= j < region@.len() && region@[j] == c;
            assert(in_bounds(c, mh as int, maze_w as int));
            if grid_at(isvia@, c) {
                assert(plan.vias@.contains(c));
            }
            if grid_at(lab@, c) < np {
                let k = grid_at(lab@, c) as int;
                assert(plan.pieces@[k]@.contains(c));
            }
            assert(is_background_spec(lab@, isvia@, region@[j], l as int, layers as int, np as int, mh as int, maze_w as int));
        }
    }
}

/// The lattice cell `c` is no via and its piece, if any, does not lie on layer `l`.
pub open spec fn is_background_spec(
    lab: Seq<Vec<usize>>,
    isvia: Seq<Vec<bool>>,
    c: Cell,
    l: int,
    layers: int,
    np: int,
    mh: int,
    mw: int,
) -> bool {
    in_bounds(c, mh, mw) && !grid_at(isvia, c) && !(grid_at(lab, c) < np && piece_on_layer(grid_at(lab, c) as int, l, layers))
}

/// A lattice cell that is no via and in no piece lying on layer `l`.
fn is_background(
    lab: &Vec<Vec<usize>>,
    isvia: &Vec<Vec<bool>>,
    c: Cell,
    l: usize,
    layers: usize,
    np: usize,
    mh: usize,
    mw: usize,
) -> (b: bool)
    requires
        grid_shape(lab@, mh as int, mw as int),
        grid_shape(isvia@, mh as int, mw as int),
        layers >= 1,
    ensures
        b == (in_bounds(c, mh as int, mw as int) && !grid_at(isvia@, c) && !(grid_at(lab@, c) < np
            && piece_on_layer(grid_at(lab@, c) as int, l as int, layers as int))),
{
    if c.0 < mh && c.1 < mw {
        let k = lab[c.0][c.1];
        !isvia[c.0][c.1] && !(k < np && k % layers == l)
    } else {
        false
    }
}


/// Every path cell of the layer is open and owned by a route.
pub open spec fn sol_ok(
    sol: Seq<Vec<bool>>,
    open: Seq<Vec<bool>>,
    owner: Seq<Vec<usize>>,
    h: int,
    w: int,
    goals: int,
) -> bool {
    &&& grid_shape(sol, h, w)
    &&& forall|c: Cell|
        in_bounds(c, h, w) && #[trigger] grid_at(sol, c) ==> grid_at(open, c) && grid_at(owner, c) < goals
}

/// Path cells stay path cells.
pub open spec fn sol_grew(sol0: Seq<Vec<bool>>, sol1: Seq<Vec<bool>>, h: int, w: int) -> bool {
    forall|d: Cell| in_bounds(d, h, w) && #[trigger] grid_at(sol0, d) ==> grid_at(sol1, d)
}

/// The grid cell of the maze cell `c` is a path cell, if it is an open cell of
/// route `r` inside the grid.
pub open spec fn drawn(sol: Seq<Vec<bool>>, open: Seq<Vec<bool>>, owner: Seq<Vec<usize>>, c: Cell, r: int, h: int, w: int) -> bool {
    in_bounds(gcell(c), h, w) && grid_at(open, gcell(c)) && grid_at(owner, gcell(c)) == r ==> grid_at(sol, gcell(c))
}

/// The grid cell `d` is a path cell, if it is an open cell of route `r` inside
/// the grid.
pub open spec fn cell_drawn(sol: Seq<Vec<bool>>, open: Seq<Vec<bool>>, owner: Seq<Vec<usize>>, d: Cell, r: int, h: int, w: int) -> bool {
    in_bounds(d, h, w) && grid_at(open, d) && grid_at(owner, d) == r ==> grid_at(sol, d)
}

/// `p` is a trail of route `r`: grid cells inside the grid, each a path cell
/// owned by `r`, each 4-adjacent to the one before.
pub open spec fn trail(sol: Seq<Vec<bool>>, owner: Seq<Vec<usize>>, p: Seq<Cell>, r: int, h: int, w: int) -> bool {
    &&& p.len() >= 1
    &&& forall|i: int|
        0 <= i < p.len() ==> in_bounds(#[trigger] p[i], h, w) && grid_at(sol, p[i]) && grid_at(owner, p[i]) == r
    &&& forall|i: int| 0 <= i < p.len() - 1 ==> #[trigger] adjacent(p[i], p[i + 1])
}

/// A trail of route `r` leads from `a` to `b`.
pub open spec fn linked(sol: Seq<Vec<bool>>, owner: Seq<Vec<usize>>, a: Cell, b: Cell, r: int, h: int, w: int) -> bool {
    exists|p: Seq<Cell>| #[trigger] trail(sol, owner, p, r, h, w) && p[0] == a && p[p.len() - 1] == b
}

/// Trails stay trails when more path cells are drawn.
proof fn lemma_linked_grew(
    s0: Seq<Vec<bool>>,
    s1: Seq<Vec<bool>>,
    owner: Seq<Vec<usize>>,
    a: Cell,
    b: Cell,
    r: int,
    h: int,
    w: int,
)
    requires
        linked(s0, owner, a, b, r, h, w),
        sol_grew(s0, s1, h, w),
    ensures
        linked(s1, owner, a, b, r, h, w),
{
    let p = choose|p: Seq<Cell>| #[trigger] trail(s0, owner, p, r, h, w) && p[0] == a && p[p.len() - 1] == b;
    assert forall|i: int| 0 <= i < p.len() implies in_bounds(#[trigger] p[i], h, w) && grid_at(s1, p[i]) && grid_at(
        owner,
        p[i],
    ) == r by {
        assert(grid_at(s0, p[i]));
    }
    assert(trail(s1, owner, p, r, h, w));
}

/// A maze cell's grid cell touches the wall toward a neighbour, and the wall
/// touches the neighbour's grid cell.
proof fn lemma_gcell_wall_adjacent(a: Cell, b: Cell)
    requires
        coord_ok(a),
        coord_ok(b),
        adjacent(a, b),
    ensures
        adjacent(gcell(a), wall_cell((a, b))),
        adjacent(wall_cell((a, b)), gcell(b)),
{
}

/// Every cell of a walk along held passages, and every wall between two of
/// its cells, is held by the route.
proof fn lemma_walk_held(
    open: Seq<Vec<bool>>,
    owner: Seq<Vec<usize>>,
    edges: Seq<Edge>,
    p: Seq<Cell>,
    a: Cell,
    b: Cell,
    r: int,
    h: int,
    w: int,
)
    requires
        walk(edges, p, a, b),
        edges_held(open, owner, edges, r, h, w),
        cell_held(open, owner, gcell(a), r, h, w),
    ensures
        forall|j: int| 0 <= j < p.len() ==> cell_held(open, owner, gcell(#[trigger] p[j]), r, h, w),
        forall|j: int|
            0 <= j < p.len() - 1 ==> cell_held(open, owner, wall_cell((#[trigger] p[j], p[j + 1])), r, h, w),
{
    let n = p.len();
    assert forall|j: int| 0 <= j < n implies cell_held(open, owner, gcell(#[trigger] p[j]), r, h, w) by {
        if j == 0 {
        } else {
            let i = j - 1;
            assert(joined(edges, p[i], p[i + 1]));
            let t = choose|t: int| 0 <= t < edges.len() && #[trigger] links(edges[t], p[i], p[i + 1]);
            assert(cell_held(open, owner, gcell(edges[t].0), r, h, w));
            assert(cell_held(open, owner, gcell(edges[t].1), r, h, w));
        }
    }
    assert forall|j: int| 0 <= j < n - 1 implies cell_held(open, owner, wall_cell((#[trigger] p[j], p[j + 1])), r, h, w) by {
        assert(joined(edges, p[j], p[j + 1]));
        let t = choose|t: int| 0 <= t < edges.len() && #[trigger] links(edges[t], p[j], p[j + 1]);
        assert(cell_held(open, owner, wall_cell(edges[t]), r, h, w));
        assert(wall_cell(edges[t]) == wall_cell((p[j], p[j + 1])));
    }
}

/// The grid cells of the maze cells of `p`, with the walls between
/// consecutive ones in between.
pub open spec fn walk_cells(p: Seq<Cell>) -> Seq<Cell> {
    Seq::new((2 * p.len() - 1) as nat, |x: int| if x % 2 == 0 { gcell(p[x / 2]) } else { wall_cell((p[x / 2], p[x / 2 + 1])) })
}

proof fn lemma_walk_cells_adjacent(p: Seq<Cell>)
    requires
        p.len() >= 1,
        all_coord_ok(p),
        forall|j: int| 0 <= j < p.len() - 1 ==> #[trigger] adjacent(p[j], p[j + 1]),
    ensures
        forall|x: int| 0 <= x < walk_cells(p).len() - 1 ==> #[trigger] adjacent(walk_cells(p)[x], walk_cells(p)[x + 1]),
        walk_cells(p)[0] == gcell(p[0]),
        walk_cells(p)[walk_cells(p).len() - 1] == gcell(p[p.len() - 1]),
{
    let gp = walk_cells(p);
    assert forall|x: int| 0 <= x < gp.len() - 1 implies #[trigger] adjacent(gp[x], gp[x + 1]) by {
        let j = x / 2;
        assert(x == 2 * j || x == 2 * j + 1);
        assert(0 <= j < p.len() - 1);
        assert(adjacent(p[j], p[j + 1]));
        lemma_gcell_wall_adjacent(p[j], p[j + 1]);
        if x == 2 * j {
            assert(gp[x] == gcell(p[j]));
            assert(gp[x + 1] == wall_cell((p[j], p[j + 1])));
        } else {
            assert((x + 1) / 2 == j + 1);
            assert(gp[x] == wall_cell((p[j], p[j + 1])));
            assert(gp[x + 1] == gcell(p[j + 1]));
        }
    }
    let n = p.len();
    assert((2 * n - 2) / 2 == n - 1);
    assert(gp[2 * n - 2] == gcell(p[n - 1]));
}

/// The grid cells of a maze walk and the walls between them form a trail, once
/// they are all inside the grid, drawn and held by the route.
#[verifier::spinoff_prover]
#[verifier::rlimit(40)]
proof fn lemma_walk_trail(
    sol: Seq<Vec<bool>>,
    open: Seq<Vec<bool>>,
    owner: Seq<Vec<usize>>,
    p: Seq<Cell>,
    r: int,
    h: int,
    w: int,
)
    requires
        p.len() >= 1,
        all_coord_ok(p),
        forall|j: int| 0 <= j < p.len() - 1 ==> #[trigger] adjacent(p[j], p[j + 1]),
        forall|j: int|
            0 <= j < p.len() ==> in_bounds(gcell(#[trigger] p[j]), h, w) && cell_held(open, owner, gcell(p[j]), r, h, w)
                && cell_drawn(sol, open, owner, gcell(p[j]), r, h, w),
        forall|j: int|
            0 <= j < p.len() - 1 ==> in_bounds(wall_cell((#[trigger] p[j], p[j + 1])), h, w) && cell_held(
                open,
                owner,
                wall_cell((p[j], p[j + 1])),
                r,
                h,
                w,
            ) && cell_drawn(sol, open, owner, wall_cell((p[j], p[j + 1])), r, h, w),
    ensures
        linked(sol, owner, gcell(p[0]), gcell(p[p.len() - 1]), r, h, w),
{
    let gp = walk_cells(p);
    lemma_walk_cells_adjacent(p);
    assert forall|x: int| 0 <= x < gp.len() implies in_bounds(#[trigger] gp[x], h, w) && grid_at(sol, gp[x]) && grid_at(
        owner,
        gp[x],
    ) == r by {
        let j = x / 2;
        assert(x == 2 * j || x == 2 * j + 1);
        if x == 2 * j {
            assert(gp[x] == gcell(p[j]));
            assert(in_bounds(gcell(p[j]), h, w));
        } else {
            assert(gp[x] == wall_cell((p[j], p[j + 1])));
            assert(in_bounds(wall_cell((p[j], p[j + 1])), h, w));
        }
    }
    assert(trail(sol, owner, gp, r, h, w));
}

/// Marks the grid cell `(y, x)` as a path cell of route `r`, provided it is an
/// open cell of that route.
fn mark_path_cell(
    sol: &mut Vec<Vec<bool>>,
    open: &Vec<Vec<bool>>,
    owner: &Vec<Vec<usize>>,
    y: usize,
    x: usize,
    r: usize,
    h: usize,
    w: usize,
    goals: usize,
)
    requires
        carve_ok(open@, owner@, h as int, w as int, goals as int),
        sol_ok(old(sol)@, open@, owner@, h as int, w as int, goals as int),
        r < goals,
    ensures
        sol_ok(final(sol)@, open@, owner@, h as int, w as int, goals as int),
        sol_grew(old(sol)@, final(sol)@, h as int, w as int),
        y < h && x < w && grid_at(open@, (y, x)) && grid_at(owner@, (y, x)) == r ==> grid_at(final(sol)@, (y, x)),
        forall|d: Cell|
            in_bounds(d, h as int, w as int) && #[trigger] grid_at(final(sol)@, d) && !grid_at(old(sol)@, d) ==> d == (y, x)
                && grid_at(owner@, d) == r,
{
    if y < h && x < w && open[y][x] && owner[y][x] == r {
        let ghost s0 = sol@;
        crate::grid::set_grid(sol, (y, x), true);
        proof {
            assert forall|c: Cell| in_bounds(c, h as int, w as int) && #[trigger] grid_at(sol@, c) implies grid_at(open@, c)
                && grid_at(owner@, c) < goals by {
                if c != (y, x) {
                    assert(grid_at(sol@, c) == grid_at(s0, c));
                }
            }
            assert forall|d: Cell| in_bounds(d, h as int, w as int) && #[trigger] grid_at(s0, d) implies grid_at(sol@, d) by {
                if d != (y, x) {
                    assert(grid_at(sol@, d) == grid_at(s0, d));
                }
            }
            assert forall|d: Cell|
                in_bounds(d, h as int, w as int) && #[trigger] grid_at(sol@, d) && !grid_at(s0, d) implies d == (y, x)
                    && grid_at(owner@, d) == r by {
                if d != (y, x) {
                    assert(grid_at(sol@, d) == grid_at(s0, d));
                }
            }
        }
    }
}

/// The grid cells of the cells of `region` lie inside the grid.
pub open spec fn region_fits(region: Seq<Cell>, h: int, w: int) -> bool {
    forall|i: int| 0 <= i < region.len() ==> in_bounds(gcell(#[trigger] region[i]), h, w)
}

/// Consecutive cells of a walk along passages between neighbours are
/// neighbours.
proof fn lemma_walk_adjacent(edges: Seq<Edge>, p: Seq<Cell>, a: Cell, b: Cell, region: Seq<Cell>)
    requires
        walk(edges, p, a, b),
        edges_within(edges, region),
    ensures
        forall|j: int| 0 <= j < p.len() - 1 ==> #[trigger] adjacent(p[j], p[j + 1]),
{
    assert forall|j: int| 0 <= j < p.len() - 1 implies #[trigger] adjacent(p[j], p[j + 1]) by {
        assert(joined(edges, p[j], p[j + 1]));
        let t = choose|t: int| 0 <= t < edges.len() && #[trigger] links(edges[t], p[j], p[j + 1]);
        assert(adjacent(edges[t].0, edges[t].1));
    }
}

/// Draws the cells of a maze walk and the walls between them as path cells of
/// route `r`, wherever they are open cells of that route.
#[verifier::spinoff_prover]
#[verifier::rlimit(50)]
fn draw_walk(
    sol: &mut Vec<Vec<bool>>,
    open: &Vec<Vec<bool>>,
    owner: &Vec<Vec<usize>>,
    p: &Vec<Cell>,
    r: usize,
    h: usize,
    w: usize,
    goals: usize,
)
    requires
        carve_ok(open@, owner@, h as int, w as int, goals as int),
        sol_ok(old(sol)@, open@, owner@, h as int, w as int, goals as int),
        r < goals,
        all_coord_ok(p@),
    ensures
        sol_ok(final(sol)@, open@, owner@, h as int, w as int, goals as int),
        sol_grew(old(sol)@, final(sol)@, h as int, w as int),
        forall|q: int| 0 <= q < p@.len() ==> drawn(final(sol)@, open@, owner@, #[trigger] p@[q], r as int, h as int, w as int),
        forall|q: int|
            0 <= q < p@.len() - 1 ==> cell_drawn(
                final(sol)@,
                open@,
                owner@,
                wall_cell((#[trigger] p@[q], p@[q + 1])),
                r as int,
                h as int,
                w as int,
            ),
        forall|d: Cell|
            in_bounds(d, h as int, w as int) && #[trigger] grid_at(final(sol)@, d) && !grid_at(old(sol)@, d) ==> p@.len()
                >= 1 && walk_cells(p@).contains(d) && grid_at(owner@, d) == r,
{
    let ghost s1 = sol@;
    let mut j: usize = 0;
    while j < p.len()
        invariant
            j <= p@.len(),
            all_coord_ok(p@),
            carve_ok(open@, owner@, h as int, w as int, goals as int),
            sol_ok(sol@, open@, owner@, h as int, w as int, goals as int),
            r < goals,
            sol_grew(s1, sol@, h as int, w as int),
            forall|q: int| 0 <= q < j ==> drawn(sol@, open@, owner@, #[trigger] p@[q], r as int, h as int, w as int),
            forall|q: int|
                0 <= q < j && q + 1 < p@.len() ==> cell_drawn(
                    sol@,
                    open@,
                    owner@,
                    wall_cell((#[trigger] p@[q], p@[q + 1])),
                    r as int,
                    h as int,
                    w as int,
                ),
            forall|d: Cell|
                in_bounds(d, h as int, w as int) && #[trigger] grid_at(sol@, d) && !grid_at(s1, d) ==> p@.len() >= 1
                    && walk_cells(p@).contains(d) && grid_at(owner@, d) == r,
        decreases p@.len() - j,
    {
        let ghost s2 = sol@;
        let c = p[j];
        assert(coord_ok(c));
        mark_path_cell(sol, open, owner, 2 * c.0 + 1, 2 * c.1 + 1, r, h, w, goals);
        let ghost s3 = sol@;
        proof {
            let wc = walk_cells(p@);
            assert(wc[2 * j as int] == gcell(c));
            assert forall|e: Cell|
                in_bounds(e, h as int, w as int) && #[trigger] grid_at(s3, e) && !grid_at(s1, e) implies p@.len() >= 1
                    && walk_cells(p@).contains(e) && grid_at(owner@, e) == r by {
                if !grid_at(s2, e) {
                    assert(e == gcell(c));
                    assert(wc[2 * j as int] == e);
                }
            }
        }
        if j + 1 < p.len() {
            let d = p[j + 1];
            assert(coord_ok(d));
            mark_path_cell(sol, open, owner, c.0 + d.0 + 1, c.1 + d.1 + 1, r, h, w, goals);
            proof {
                assert(wall_cell((c, d)) == ((c.0 + d.0 + 1) as usize, (c.1 + d.1 + 1) as usize));
                let wc = walk_cells(p@);
                assert(wc[2 * j + 1] == wall_cell((c, d)));
                assert forall|e: Cell|
                    in_bounds(e, h as int, w as int) && #[trigger] grid_at(sol@, e) && !grid_at(s1, e) implies p@.len() >= 1
                        && walk_cells(p@).contains(e) && grid_at(owner@, e) == r by {
                    if !grid_at(s3, e) {
                        assert(e == wall_cell((c, d)));
                        assert(wc[2 * j + 1] == e);
                    }
                }
            }
        }
        proof {
            assert(sol_grew(s3, sol@, h as int, w as int));
            assert(drawn(s3, open@, owner@, c, r as int, h as int, w as int));
            assert forall|q: int| 0 <= q < j + 1 implies drawn(sol@, open@, owner@, #[trigger] p@[q], r as int, h as int, w as int) by {
                if q < j {
                    assert(drawn(s2, open@, owner@, p@[q], r as int, h as int, w as int));
                }
            }
            assert forall|q: int|
                0 <= q < j + 1 && q + 1 < p@.len() implies cell_drawn(
                sol@,
                open@,
                owner@,
                wall_cell((#[trigger] p@[q], p@[q + 1])),
                r as int,
                h as int,
                w as int,
            ) by {
                if q < j {
                    assert(cell_drawn(s2, open@, owner@, wall_cell((p@[q], p@[q + 1])), r as int, h as int, w as int));
                    if in_bounds(wall_cell((p@[q], p@[q + 1])), h as int, w as int) && grid_at(
                        s2,
                        wall_cell((p@[q], p@[q + 1])),
                    ) {
                        assert(grid_at(s3, wall_cell((p@[q], p@[q + 1]))));
                    }
                }
            }
            assert forall|d: Cell| in_bounds(d, h as int, w as int) && #[trigger] grid_at(s1, d) implies grid_at(sol@, d) by {
                assert(grid_at(s2, d));
                assert(grid_at(s3, d));
            }
        }
        j = j + 1;
    }
}

/// `d` is a grid cell of the leg from waypoint `a` to waypoint `b` along
/// `edges`: a lattice cell of a walk between them that visits no cell twice,
/// or the wall between two consecutive cells of such a walk; where no walk
/// joins them, the grid cell of `a` or of `b`.
pub open spec fn on_leg(edges: Seq<Edge>, a: Cell, b: Cell, d: Cell) -> bool {
    ||| exists|p: Seq<Cell>| #[trigger] walk(edges, p, a, b) && p.no_duplicates() && walk_cells(p).contains(d)
    ||| separated(edges, a, b) && (d == gcell(a) || d == gcell(b))
}

/// `d` is a grid cell of the leg from the `i`-th waypoint of `wps` to the next.
pub open spec fn leg_of(edges: Seq<Edge>, wps: Seq<Cell>, i: int, d: Cell) -> bool {
    on_leg(edges, wps[i], wps[i + 1], d)
}

/// Cells newly drawn for leg `i`, added to those drawn for the legs before
/// it, are cells of the legs up to `i`.
proof fn lemma_legs_grew(
    s0: Seq<Vec<bool>>,
    s1: Seq<Vec<bool>>,
    s2: Seq<Vec<bool>>,
    owner: Seq<Vec<usize>>,
    edges: Seq<Edge>,
    wps: Seq<Cell>,
    i: int,
    r: int,
    h: int,
    w: int,
)
    requires
        0 <= i,
        forall|d: Cell|
            in_bounds(d, h, w) && #[trigger] grid_at(s1, d) && !grid_at(s0, d) ==> grid_at(owner, d) == r && exists|q: int|
                0 <= q < i && #[trigger] leg_of(edges, wps, q, d),
        forall|d: Cell|
            in_bounds(d, h, w) && #[trigger] grid_at(s2, d) && !grid_at(s1, d) ==> grid_at(owner, d) == r && on_leg(
                edges,
                wps[i],
                wps[i + 1],
                d,
            ),
    ensures
        forall|d: Cell|
            in_bounds(d, h, w) && #[trigger] grid_at(s2, d) && !grid_at(s0, d) ==> grid_at(owner, d) == r && exists|q: int|
                0 <= q < i + 1 && #[trigger] leg_of(edges, wps, q, d),
{
    assert forall|d: Cell| in_bounds(d, h, w) && #[trigger] grid_at(s2, d) && !grid_at(s0, d) implies grid_at(owner, d) == r
        && exists|q: int| 0 <= q < i + 1 && #[trigger] leg_of(edges, wps, q, d) by {
        if grid_at(s1, d) {
            let q = choose|q: int| 0 <= q < i && #[trigger] leg_of(edges, wps, q, d);
            assert(leg_of(edges, wps, q, d));
        } else {
            assert(leg_of(edges, wps, i, d));
        }
    }
}

/// `d` lies on the path that route `plan` draws on layer `l`: on a leg
/// between two consecutive waypoints of one of its pieces drawn there (the
/// only piece of a route without vias, on layer 0).
#[verifier::opaque]
pub open spec fn on_route_path(plan: RoutePlan, l: int, layers: int, d: Cell) -> bool {
    exists|k: int, i: int|
        0 <= k < plan.pieces@.len() && (if plan.vias@.len() == 0 {
            l == 0 && k == 0
        } else {
            piece_on_layer(k, l, layers)
        }) && 0 <= i < waypoints(plan, k).len() - 1 && #[trigger] leg_of(plan.piece_edges@[k]@, waypoints(plan, k), i, d)
}

/// Cells newly drawn along the legs of a piece drawn on layer `l` lie on the
/// route's path there.
proof fn lemma_piece_cells(
    s0: Seq<Vec<bool>>,
    s1: Seq<Vec<bool>>,
    s2: Seq<Vec<bool>>,
    owner: Seq<Vec<usize>>,
    plan: RoutePlan,
    k: int,
    wps: Seq<Cell>,
    l: int,
    layers: int,
    r: int,
    h: int,
    w: int,
)
    requires
        wps == waypoints(plan, k),
        0 <= k < plan.pieces@.len(),
        if plan.vias@.len() == 0 {
            l == 0 && k == 0
        } else {
            piece_on_layer(k, l, layers)
        },
        forall|d: Cell|
            in_bounds(d, h, w) && #[trigger] grid_at(s1, d) && !grid_at(s0, d) ==> grid_at(owner, d) == r && on_route_path(
                plan,
                l,
                layers,
                d,
            ),
        forall|d: Cell|
            in_bounds(d, h, w) && #[trigger] grid_at(s2, d) && !grid_at(s1, d) ==> grid_at(owner, d) == r && exists|i: int|
                0 <= i < wps.len() - 1 && #[trigger] leg_of(plan.piece_edges@[k]@, wps, i, d),
    ensures
        forall|d: Cell|
            in_bounds(d, h, w) && #[trigger] grid_at(s2, d) && !grid_at(s0, d) ==> grid_at(owner, d) == r && on_route_path(
                plan,
                l,
                layers,
                d,
            ),
{
    assert forall|d: Cell| in_bounds(d, h, w) && #[trigger] grid_at(s2, d) && !grid_at(s0, d) implies grid_at(owner, d) == r
        && on_route_path(plan, l, layers, d) by {
        if !grid_at(s1, d) {
            let i = choose|i: int| 0 <= i < wps.len() - 1 && #[trigger] leg_of(plan.piece_edges@[k]@, wps, i, d);
            assert(leg_of(plan.piece_edges@[k]@, waypoints(plan, k), i, d));
            reveal(on_route_path);
        }
    }
}

/// The path cells of the first `r` routes, with those route `r` adds, are
/// each on the path of the route that owns it.
proof fn lemma_path_cells_grew(
    s0: Seq<Vec<bool>>,
    s1: Seq<Vec<bool>>,
    owner: Seq<Vec<usize>>,
    plans: Seq<RoutePlan>,
    r: int,
    l: int,
    layers: int,
    h: int,
    w: int,
)
    requires
        forall|d: Cell|
            in_bounds(d, h, w) && #[trigger] grid_at(s0, d) ==> grid_at(owner, d) < r && on_route_path(
                plans[grid_at(owner, d) as int],
                l,
                layers,
                d,
            ),
        forall|d: Cell|
            in_bounds(d, h, w) && #[trigger] grid_at(s1, d) && !grid_at(s0, d) ==> grid_at(owner, d) == r && on_route_path(
                plans[r],
                l,
                layers,
                d,
            ),
    ensures
        forall|d: Cell|
            in_bounds(d, h, w) && #[trigger] grid_at(s1, d) ==> grid_at(owner, d) < r + 1 && on_route_path(
                plans[grid_at(owner, d) as int],
                l,
                layers,
                d,
            ),
{
    assert forall|d: Cell| in_bounds(d, h, w) && #[trigger] grid_at(s1, d) implies grid_at(owner, d) < r + 1 && on_route_path(
        plans[grid_at(owner, d) as int],
        l,
        layers,
        d,
    ) by {
        if grid_at(s0, d) {
        }
    }
}

/// Draws route `r`'s path through the waypoints: between each consecutive
/// pair the breadth-first walk along `edges`, its cells and the walls it
/// passes; where no walk exists, just the two waypoints. When the passages
/// and waypoints are held by the route, each pair of consecutive waypoints
/// joined by the passages is linked by a trail of the route.
#[verifier::spinoff_prover]
#[verifier::rlimit(100)]
fn draw_route_path(
    sol: &mut Vec<Vec<bool>>,
    open: &Vec<Vec<bool>>,
    owner: &Vec<Vec<usize>>,
    wps: &Vec<Cell>,
    edges: &Vec<Edge>,
    region: &Vec<Cell>,
    r: usize,
    h: usize,
    w: usize,
    goals: usize,
)
    requires
        carve_ok(open@, owner@, h as int, w as int, goals as int),
        sol_ok(old(sol)@, open@, owner@, h as int, w as int, goals as int),
        r < goals,
        all_coord_ok(region@),
        cells_within(wps@, region@),
        edges_within(edges@, region@),
    ensures
        sol_ok(final(sol)@, open@, owner@, h as int, w as int, goals as int),
        sol_grew(old(sol)@, final(sol)@, h as int, w as int),
        wps@.len() >= 2 ==> forall|i: int|
            0 <= i < wps@.len() ==> drawn(final(sol)@, open@, owner@, #[trigger] wps@[i], r as int, h as int, w as int),
        edges_held(open@, owner@, edges@, r as int, h as int, w as int) && region_fits(region@, h as int, w as int)
            && (forall|i: int|
            0 <= i < wps@.len() ==> cell_held(open@, owner@, gcell(#[trigger] wps@[i]), r as int, h as int, w as int))
            ==> forall|i: int|
            0 <= i < wps@.len() - 1 && #[trigger] reachable(edges@, wps@[i], wps@[i + 1]) ==> linked(
                final(sol)@,
                owner@,
                gcell(wps@[i]),
                gcell(wps@[i + 1]),
                r as int,
                h as int,
                w as int,
            ),
        forall|d: Cell|
            in_bounds(d, h as int, w as int) && #[trigger] grid_at(final(sol)@, d) && !grid_at(old(sol)@, d) ==> grid_at(
                owner@,
                d,
            ) == r && exists|i: int| 0 <= i < wps@.len() - 1 && #[trigger] leg_of(edges@, wps@, i, d),
{
    let ghost s0 = sol@;
    let ghost held = edges_held(open@, owner@, edges@, r as int, h as int, w as int) && region_fits(
        region@,
        h as int,
        w as int,
    ) && (forall|i: int|
        0 <= i < wps@.len() ==> cell_held(open@, owner@, gcell(#[trigger] wps@[i]), r as int, h as int, w as int));
    if wps.len() < 2 {
        return;
    }
    let mut i: usize = 0;
    let last = wps.len() - 1;
    while i < last
        invariant
            last == wps@.len() - 1,
            i <= last,
            carve_ok(open@, owner@, h as int, w as int, goals as int),
            sol_ok(sol@, open@, owner@, h as int, w as int, goals as int),
            r < goals,
            all_coord_ok(region@),
            cells_within(wps@, region@),
            edges_within(edges@, region@),
            sol_grew(s0, sol@, h as int, w as int),
            forall|q: int| 0 <= q < i ==> drawn(sol@, open@, owner@, #[trigger] wps@[q], r as int, h as int, w as int),
            i > 0 ==> drawn(sol@, open@, owner@, wps@[i as int], r as int, h as int, w as int),
            held == (edges_held(open@, owner@, edges@, r as int, h as int, w as int) && region_fits(
                region@,
                h as int,
                w as int,
            ) && (forall|i: int|
                0 <= i < wps@.len() ==> cell_held(open@, owner@, gcell(#[trigger] wps@[i]), r as int, h as int, w as int))),
            held ==> forall|q: int|
                0 <= q < i && #[trigger] reachable(edges@, wps@[q], wps@[q + 1]) ==> linked(
                    sol@,
                    owner@,
                    gcell(wps@[q]),
                    gcell(wps@[q + 1]),
                    r as int,
                    h as int,
                    w as int,
                ),
            forall|d: Cell|
                in_bounds(d, h as int, w as int) && #[trigger] grid_at(sol@, d) && !grid_at(s0, d) ==> grid_at(owner@, d) == r
                    && exists|q: int| 0 <= q < i && #[trigger] leg_of(edges@, wps@, q, d),
        decreases last - i,
    {
        let a = wps[i];
        let b = wps[i + 1];
        proof {
            assert(region@.contains(wps@[i as int]) && region@.contains(wps@[i + 1]));
            lemma_within_coord_ok(seq![a, b], region@);
            assert(seq![a, b][0] == a && seq![a, b][1] == b);
        }
        let ghost s1 = sol@;
        match trace_path(a, b, edges) {
            Some(p) => {
                proof {
                    lemma_walk_within(edges@, p@, a, b, region@);
                    lemma_within_coord_ok(p@, region@);
                }
                draw_walk(sol, open, owner, &p, r, h, w, goals);
                proof {
                    assert forall|d: Cell|
                        in_bounds(d, h as int, w as int) && #[trigger] grid_at(sol@, d) && !grid_at(s1, d) implies grid_at(
                            owner@,
                            d,
                        ) == r && on_leg(edges@, wps@[i as int], wps@[i + 1], d) by {
                        assert(walk(edges@, p@, a, b) && p@.no_duplicates() && walk_cells(p@).contains(d));
                    }
                    assert(p@[0] == a && p@[p@.len() - 1] == b);
                    assert(drawn(sol@, open@, owner@, p@[0], r as int, h as int, w as int));
                    assert(drawn(sol@, open@, owner@, p@[p@.len() - 1], r as int, h as int, w as int));
                    if held {
                        lemma_walk_adjacent(edges@, p@, a, b, region@);
                        assert(cell_held(open@, owner@, gcell(wps@[i as int]), r as int, h as int, w as int));
                        lemma_walk_held(open@, owner@, edges@, p@, a, b, r as int, h as int, w as int);
                        assert forall|q: int| 0 <= q < p@.len() implies in_bounds(gcell(#[trigger] p@[q]), h as int, w as int) by {
                            assert(region@.contains(p@[q]));
                            let x = choose|x: int| 0 <= x < region@.len() && region@[x] == p@[q];
                            assert(in_bounds(gcell(region@[x]), h as int, w as int));
                        }
                        assert forall|q: int| 0 <= q < p@.len() - 1 implies in_bounds(wall_cell((#[trigger] p@[q], p@[q + 1])), h as int, w as int) by {
                            assert(in_bounds(gcell(p@[q]), h as int, w as int));
                            assert(in_bounds(gcell(p@[q + 1]), h as int, w as int));
                            assert(adjacent(p@[q], p@[q + 1]));
                        }
                        lemma_walk_trail(sol@, open@, owner@, p@, r as int, h as int, w as int);
                    }
                }
            },
            None => {
                mark_path_cell(sol, open, owner, 2 * a.0 + 1, 2 * a.1 + 1, r, h, w, goals);
                let ghost s3 = sol@;
                mark_path_cell(sol, open, owner, 2 * b.0 + 1, 2 * b.1 + 1, r, h, w, goals);
                proof {
                    assert forall|d: Cell|
                        in_bounds(d, h as int, w as int) && #[trigger] grid_at(sol@, d) && !grid_at(s1, d) implies grid_at(
                            owner@,
                            d,
                        ) == r && on_leg(edges@, wps@[i as int], wps@[i + 1], d) by {
                        if !grid_at(s3, d) {
                            assert(d == gcell(b));
                        } else {
                            assert(d == gcell(a));
                        }
                    }
                    assert(drawn(s3, open@, owner@, a, r as int, h as int, w as int));
                    assert forall|d: Cell| in_bounds(d, h as int, w as int) && #[trigger] grid_at(s1, d) implies grid_at(sol@, d) by {
                        assert(grid_at(s3, d));
                    }
                    if reachable(edges@, a, b) {
                        let pw = choose|pw: Seq<Cell>| #[trigger] walk(edges@, pw, a, b);
                        let sset = choose|sset: Seq<Cell>| #[trigger] sset.contains(a) && !sset.contains(b) && closed_under_passages(sset, edges@);
                        lemma_separated_no_walk(edges@, pw, a, b, sset);
                    }
                }
            },
        }
        proof {
            lemma_legs_grew(s0, s1, sol@, owner@, edges@, wps@, i as int, r as int, h as int, w as int);
            assert(drawn(sol@, open@, owner@, a, r as int, h as int, w as int));
            assert(drawn(sol@, open@, owner@, b, r as int, h as int, w as int));
            assert forall|q: int| 0 <= q < i + 1 implies drawn(sol@, open@, owner@, #[trigger] wps@[q], r as int, h as int, w as int) by {
                if q < i {
                    assert(drawn(s1, open@, owner@, wps@[q], r as int, h as int, w as int));
                }
            }
            assert forall|d: Cell| in_bounds(d, h as int, w as int) && #[trigger] grid_at(s0, d) implies grid_at(sol@, d) by {
                assert(grid_at(s1, d));
            }
            if held {
                assert forall|q: int|
                    0 <= q < i + 1 && #[trigger] reachable(edges@, wps@[q], wps@[q + 1]) implies linked(
                    sol@,
                    owner@,
                    gcell(wps@[q]),
                    gcell(wps@[q + 1]),
                    r as int,
                    h as int,
                    w as int,
                ) by {
                    if q < i {
                        lemma_linked_grew(s1, sol@, owner@, gcell(wps@[q]), gcell(wps@[q + 1]), r as int, h as int, w as int);
                    }
                }
            }
        }
        i = i + 1;
    }
}

/// The waypoints of piece `k`: the via it is entered by, its checkpoints, and
/// the via it is left by.
fn piece_waypoints(plan: &RoutePlan, k: usize, region: Ghost<Seq<Cell>>) -> (wps: Vec<Cell>)
    requires
        plan_within(*plan, region@),
        k < plan.pieces@.len(),
    ensures
        cells_within(wps@, region@),
        wps@.len() == (if k > 0 { 1int } else { 0int }) + plan.checkpoints@[k as int]@.len() + (if k < plan.vias@.len() {
            1int
        } else {
            0int
        }),
        forall|i: int|
            0 <= i < plan.checkpoints@[k as int]@.len() ==> wps@[(if k > 0 { 1int } else { 0int }) + i]
                == #[trigger] plan.checkpoints@[k as int]@[i],
        wps@ == waypoints(*plan, k as int),
{
    let mut wps: Vec<Cell> = Vec::new();
    let nv = plan.vias.len();
    if k > 0 {
        wps.push(plan.vias[k - 1]);
    }
    let ghost off: int = if k > 0 { 1int } else { 0int };
    let cps = &plan.checkpoints[k];
    let mut i: usize = 0;
    while i < cps.len()
        invariant
            i <= cps@.len(),
            cps@ == plan.checkpoints@[k as int]@,
            cells_within(cps@, region@),
            cells_within(wps@, region@),
            cells_within(plan.vias@, region@),
            off == (if k > 0 { 1int } else { 0int }),
            wps@.len() == off + i,
            forall|q: int| 0 <= q < i ==> wps@[off + q] == #[trigger] cps@[q],
            k > 0 ==> wps@[0] == plan.vias@[k - 1],
            k < plan.pieces@.len(),
            plan_within(*plan, region@),
        decreases cps@.len() - i,
    {
        let ghost w0 = wps@;
        wps.push(cps[i]);
        proof {
            assert forall|q: int| 0 <= q < wps@.len() implies region@.contains(#[trigger] wps@[q]) by {
                if q < w0.len() {
                    assert(wps@[q] == w0[q]);
                }
            }
            assert forall|q: int| 0 <= q < i + 1 implies wps@[off + q] == #[trigger] cps@[q] by {
                if q < i {
                    assert(wps@[off + q] == w0[off + q]);
                }
            }
        }
        i = i + 1;
    }
    if k < nv {
        let ghost w0 = wps@;
        wps.push(plan.vias[k]);
        proof {
            assert forall|q: int| 0 <= q < wps@.len() implies region@.contains(#[trigger] wps@[q]) by {
                if q < w0.len() {
                    assert(wps@[q] == w0[q]);
                }
            }
            assert(w0.len() == off + cps@.len());
            assert(wps@ == w0.push(plan.vias@[k as int]));
            assert(wps@[wps@.len() - 1] == plan.vias@[k as int]);
            assert(k > 0 ==> wps@[0] == w0[0]);
            assert forall|q: int| 0 <= q < cps@.len() implies wps@[off + q] == #[trigger] cps@[q] by {
                assert(off + q < w0.len());
                assert(wps@[off + q] == w0[off + q]);
            }
        }
    }
    proof {
        let target = waypoints(*plan, k as int);
        assert(wps@.len() == target.len());
        assert forall|q: int| 0 <= q < wps@.len() implies wps@[q] == target[q] by {
            if k > 0 && q == 0 {
            } else if q < off + cps@.len() {
                assert(wps@[off + (q - off)] == cps@[q - off]);
            } else {
                assert(k < nv);
                assert(q == wps@.len() - 1);
            }
        }
        assert(wps@ =~= target);
    }
    wps
}


/// Writes out the owners of a layer row by row: the owning route of each open
/// cell, and the unowned marker `goals` for closed cells.
fn flatten_owner(open: &Vec<Vec<bool>>, owner: &Vec<Vec<usize>>, h: usize, w: usize, goals: usize) -> (v: Vec<u8>)
    requires
        grid_shape(open@, h as int, w as int),
        grid_shape(owner@, h as int, w as int),
        h * w <= usize::MAX,
    ensures
        v@.len() == h * w,
        forall|y: int, x: int|
            0 <= y < h && 0 <= x < w ==> #[trigger] v@[flat(y, x, w as int)] == if grid_at(
                open@,
                (y as usize, x as usize),
            ) {
                grid_at(owner@, (y as usize, x as usize)) as u8
            } else {
                goals as u8
            },
{
    let mut v: Vec<u8> = Vec::new();
    let mut y: usize = 0;
    while y < h
        invariant
            y <= h,
            grid_shape(open@, h as int, w as int),
            grid_shape(owner@, h as int, w as int),
            h * w <= usize::MAX,
            v@.len() == y * w,
            forall|yy: int, x: int|
                0 <= yy < y && 0 <= x < w ==> #[trigger] v@[flat(yy, x, w as int)] == if grid_at(
                    open@,
                    (yy as usize, x as usize),
                ) {
                    grid_at(owner@, (yy as usize, x as usize)) as u8
                } else {
                    goals as u8
                },
        decreases h - y,
    {
        proof {
            assert(y * w + w <= h * w) by (nonlinear_arith)
                requires
                    y < h,
            ;
        }
        let mut x: usize = 0;
        while x < w
            invariant
                x <= w,
                y < h,
                grid_shape(open@, h as int, w as int),
                grid_shape(owner@, h as int, w as int),
                y * w + w <= h * w,
                h * w <= usize::MAX,
                v@.len() == y * w + x,
                forall|yy: int, xx: int|
                    0 <= yy < y && 0 <= xx < w ==> #[trigger] v@[flat(yy, xx, w as int)] == if grid_at(
                        open@,
                        (yy as usize, xx as usize),
                    ) {
                        grid_at(owner@, (yy as usize, xx as usize)) as u8
                    } else {
                        goals as u8
                    },
                forall|xx: int|
                    0 <= xx < x ==> #[trigger] v@[flat(y as int, xx, w as int)] == if grid_at(
                        open@,
                        (y, xx as usize),
                    ) {
                        grid_at(owner@, (y, xx as usize)) as u8
                    } else {
                        goals as u8
                    },
            decreases w - x,
        {
            let ghost v0 = v@;
            if open[y][x] {
                v.push(owner[y][x] as u8);
            } else {
                v.push(goals as u8);
            }
            proof {
                assert forall|yy: int, xx: int|
                    0 <= yy < y && 0 <= xx < w implies #[trigger] v@[flat(yy, xx, w as int)] == if grid_at(
                        open@,
                        (yy as usize, xx as usize),
                    ) {
                        grid_at(owner@, (yy as usize, xx as usize)) as u8
                    } else {
                        goals as u8
                    } by {
                    lemma_flat(yy, xx, y as int, w as int);
                    assert(v@[flat(yy, xx, w as int)] == v0[flat(yy, xx, w as int)]);
                }
                assert forall|xx: int|
                    0 <= xx < x + 1 implies #[trigger] v@[flat(y as int, xx, w as int)] == if grid_at(
                        open@,
                        (y, xx as usize),
                    ) {
                        grid_at(owner@, (y, xx as usize)) as u8
                    } else {
                        goals as u8
                    } by {
                    if xx < x {
                        assert(v@[flat(y as int, xx, w as int)] == v0[flat(y as int, xx, w as int)]);
                    }
                }
            }
            x = x + 1;
        }
        proof {
            assert(y * w + w == (y + 1) * w) by (nonlinear_arith);
        }
        y = y + 1;
    }
    v
}

/// The grid cell of the maze cell `c`, when it lies inside the `h` by `w` grid.
fn grid_cell(c: Cell, h: usize, w: usize) -> (g: Option<Cell>)
    requires
        coord_ok(c),
    ensures
        g matches Some(gc) ==> gc == ((2 * c.0 + 1) as usize, (2 * c.1 + 1) as usize) && in_bounds(gc, h as int, w as int),
        g is None ==> !(2 * c.0 + 1 < h && 2 * c.1 + 1 < w),
{
    let (y, x) = crate::grid::maze_to_grid(c.0, c.1);
    if y < h && x < w {
        Some((y, x))
    } else {
        None
    }
}

/// The grid cell `g` stands for a checkpoint of a piece of `plan` that lies on
/// layer `l`: of the only piece, on layer 0, for a route without vias.
pub open spec fn cp_here(plan: RoutePlan, l: int, layers: int, g: Cell) -> bool {
    exists|k: int, i: int|
        0 <= k < plan.pieces@.len() && (if plan.vias@.len() == 0 {
            l == 0
        } else {
            piece_on_layer(k, l, layers)
        }) && 0 <= i < plan.checkpoints@[k]@.len() && g == gcell(#[trigger] plan.checkpoints@[k]@[i])
}

/// Both coordinates of a grid cell are odd: it stands for a maze cell.
pub open spec fn odd_cell(c: Cell) -> bool {
    c.0 % 2 == 1 && c.1 % 2 == 1
}

/// Every checkpoint listed for route `r`, on any layer, is one and the same cell.
pub open spec fn one_checkpoint_cell(data: Seq<LayerRouteData>, r: int, layers: int) -> bool {
    forall|l1: int, j1: int, l2: int, j2: int|
        0 <= l1 < layers && 0 <= l2 < layers && 0 <= j1 < data[l1].checkpoints@[r]@.len() && 0 <= j2
            < data[l2].checkpoints@[r]@.len() ==> #[trigger] data[l1].checkpoints@[r]@[j1]
            == #[trigger] data[l2].checkpoints@[r]@[j2]
}

/// The grid cell of a maze cell has odd coordinates, and different maze
/// cells have different grid cells.
proof fn lemma_gcell_odd(c: Cell)
    requires
        coord_ok(c),
    ensures
        odd_cell(gcell(c)),
{
}

/// Every listed checkpoint and via of route `r` lies on the route's path, is
/// joined to every listed checkpoint, and has odd coordinates.
proof fn lemma_listed_marks(
    m: MazeMap,
    data: Seq<LayerRouteData>,
    plan: RoutePlan,
    region: Seq<Cell>,
    layers: int,
    r: int,
    h: int,
    w: int,
)
    requires
        route_drawn(m, data, plan, layers, r, h, w),
        plan_within(plan, region),
        all_coord_ok(region),
        forall|q: int, j: int|
            0 <= q < layers && 0 <= j < data[q].checkpoints@[r]@.len() ==> cp_here(
                plan,
                q,
                layers,
                #[trigger] data[q].checkpoints@[r]@[j],
            ),
        forall|q: int, j: int|
            0 <= q < layers && 0 <= j < data[q].vias@[r]@.len() ==> via_here(plan, q, layers, #[trigger] data[q].vias@[r]@[j]),
    ensures
        forall|q: int, j: int|
            0 <= q < layers && 0 <= j < data[q].checkpoints@[r]@.len() ==> path_cell(
                block(m.solution@, q, h * w),
                data[q],
                #[trigger] data[q].checkpoints@[r]@[j],
                r,
                h,
                w,
            ),
        forall|q: int, j: int|
            0 <= q < layers && 0 <= j < data[q].vias@[r]@.len() ==> path_cell(
                block(m.solution@, q, h * w),
                data[q],
                #[trigger] data[q].vias@[r]@[j],
                r,
                h,
                w,
            ),
        forall|l1: int, j1: int, l2: int, j2: int|
            #![trigger data[l1].checkpoints@[r]@[j1], data[l2].vias@[r]@[j2]]
            0 <= l1 < layers && 0 <= l2 < layers && 0 <= j1 < data[l1].checkpoints@[r]@.len() && 0 <= j2
                < data[l2].vias@[r]@.len() ==> route_connects(
                m,
                data,
                layers,
                r,
                h,
                w,
                (l1, data[l1].checkpoints@[r]@[j1]),
                (l2, data[l2].vias@[r]@[j2]),
            ),
{
    assert forall|q: int, j: int|
        0 <= q < layers && 0 <= j < data[q].checkpoints@[r]@.len() implies path_cell(
        block(m.solution@, q, h * w),
        data[q],
        #[trigger] data[q].checkpoints@[r]@[j],
        r,
        h,
        w,
    ) by {
        let g = data[q].checkpoints@[r]@[j];
        let (k, i) = lemma_cp_stop(plan, q, layers, g);
        lemma_waypoints_connected(m, data, plan, layers, r, h, w, k, i, k, i);
        lemma_connects_ends(m, data, layers, r, h, w, (q, g), (q, g));
    }
    assert forall|q: int, j: int|
        0 <= q < layers && 0 <= j < data[q].vias@[r]@.len() implies path_cell(
        block(m.solution@, q, h * w),
        data[q],
        #[trigger] data[q].vias@[r]@[j],
        r,
        h,
        w,
    ) by {
        let g = data[q].vias@[r]@[j];
        let (k, i) = lemma_via_stop(plan, q, layers, g);
        lemma_waypoints_connected(m, data, plan, layers, r, h, w, k, i, k, i);
        lemma_connects_ends(m, data, layers, r, h, w, (q, g), (q, g));
    }
    assert forall|l1: int, j1: int, l2: int, j2: int|
        #![trigger data[l1].checkpoints@[r]@[j1], data[l2].vias@[r]@[j2]]
        0 <= l1 < layers && 0 <= l2 < layers && 0 <= j1 < data[l1].checkpoints@[r]@.len() && 0 <= j2
            < data[l2].vias@[r]@.len() implies route_connects(
        m,
        data,
        layers,
        r,
        h,
        w,
        (l1, data[l1].checkpoints@[r]@[j1]),
        (l2, data[l2].vias@[r]@[j2]),
    ) by {
        let g1 = data[l1].checkpoints@[r]@[j1];
        let g2 = data[l2].vias@[r]@[j2];
        let (k1, i1) = lemma_cp_stop(plan, l1, layers, g1);
        let (k2, i2) = lemma_via_stop(plan, l2, layers, g2);
        lemma_waypoints_connected(m, data, plan, layers, r, h, w, k1, i1, k2, i2);
    }
}

/// A grid cell in two territories stands for a maze cell of both.
proof fn lemma_territory_same(r1: Seq<Cell>, r2: Seq<Cell>, d: Cell) -> (c: Cell)
    requires
        in_territory(r1, d),
        in_territory(r2, d),
        all_coord_ok(r1),
        all_coord_ok(r2),
    ensures
        r1.contains(c) && r2.contains(c),
{
    if exists|c: Cell| #[trigger] r1.contains(c) && d == gcell(c) {
        let c1 = choose|c: Cell| #[trigger] r1.contains(c) && d == gcell(c);
        let i1 = choose|i: int| 0 <= i < r1.len() && r1[i] == c1;
        assert(coord_ok(r1[i1]));
        if exists|c: Cell| #[trigger] r2.contains(c) && d == gcell(c) {
            let c2 = choose|c: Cell| #[trigger] r2.contains(c) && d == gcell(c);
            let i2 = choose|i: int| 0 <= i < r2.len() && r2[i] == c2;
            assert(coord_ok(r2[i2]));
            lemma_gcell_injective(c1, c2);
            c1
        } else {
            let f = choose|e: Edge| #[trigger] r2.contains(e.0) && r2.contains(e.1) && adjacent(e.0, e.1) && d == wall_cell(e);
            let j0 = choose|i: int| 0 <= i < r2.len() && r2[i] == f.0;
            let j1 = choose|i: int| 0 <= i < r2.len() && r2[i] == f.1;
            assert(coord_ok(r2[j0]) && coord_ok(r2[j1]));
            lemma_wall_not_gcell(c1, f);
            c1
        }
    } else {
        let e = choose|e: Edge| #[trigger] r1.contains(e.0) && r1.contains(e.1) && adjacent(e.0, e.1) && d == wall_cell(e);
        let i0 = choose|i: int| 0 <= i < r1.len() && r1[i] == e.0;
        let i1 = choose|i: int| 0 <= i < r1.len() && r1[i] == e.1;
        assert(coord_ok(r1[i0]) && coord_ok(r1[i1]));
        if exists|c: Cell| #[trigger] r2.contains(c) && d == gcell(c) {
            let c2 = choose|c: Cell| #[trigger] r2.contains(c) && d == gcell(c);
            let i2 = choose|i: int| 0 <= i < r2.len() && r2[i] == c2;
            assert(coord_ok(r2[i2]));
            lemma_wall_not_gcell(c2, e);
            e.0
        } else {
            let f = choose|e: Edge| #[trigger] r2.contains(e.0) && r2.contains(e.1) && adjacent(e.0, e.1) && d == wall_cell(e);
            let j0 = choose|i: int| 0 <= i < r2.len() && r2[i] == f.0;
            let j1 = choose|i: int| 0 <= i < r2.len() && r2[i] == f.1;
            assert(coord_ok(r2[j0]) && coord_ok(r2[j1]));
            lemma_wall_unique(e, f);
            e.0
        }
    }
}

/// The grid cell of the maze cell `x` lies in a territory only when `x` is
/// one of its cells.
proof fn lemma_gcell_territory(r: Seq<Cell>, x: Cell)
    requires
        in_territory(r, gcell(x)),
        coord_ok(x),
        all_coord_ok(r),
    ensures
        r.contains(x),
{
    if exists|c: Cell| #[trigger] r.contains(c) && gcell(x) == gcell(c) {
        let c = choose|c: Cell| #[trigger] r.contains(c) && gcell(x) == gcell(c);
        let i = choose|i: int| 0 <= i < r.len() && r[i] == c;
        assert(coord_ok(r[i]));
        lemma_gcell_injective(x, c);
    } else {
        let e = choose|e: Edge| #[trigger] r.contains(e.0) && r.contains(e.1) && adjacent(e.0, e.1) && gcell(x) == wall_cell(e);
        let i0 = choose|i: int| 0 <= i < r.len() && r[i] == e.0;
        let i1 = choose|i: int| 0 <= i < r.len() && r[i] == e.1;
        assert(coord_ok(r[i0]) && coord_ok(r[i1]));
        lemma_wall_not_gcell(x, e);
    }
}

/// Two pieces that follow each other lie on different layers.
proof fn lemma_next_layer_differs(j: int, layers: int)
    requires
        0 <= j,
        layers >= 2,
    ensures
        j % layers != (j + 1) % layers,
{
    vstd::arithmetic::div_mod::lemma_fundamental_div_mod(j, layers);
    vstd::arithmetic::div_mod::lemma_fundamental_div_mod(j + 1, layers);
    let q1 = j / layers;
    let q2 = (j + 1) / layers;
    if j % layers == (j + 1) % layers {
        assert(layers * (q2 - q1) == 1) by (nonlinear_arith)
            requires
                j == layers * q1 + j % layers,
                j + 1 == layers * q2 + (j + 1) % layers,
                j % layers == (j + 1) % layers,
        ;
        assert(false) by (nonlinear_arith)
            requires
                layers * (q2 - q1) == 1,
                layers >= 2,
        ;
    }
}

/// Stop `s` lies in the territory of a piece of `plan` on its layer, with
/// index at most `v`.
pub open spec fn zone_at_most(plan: RoutePlan, s: (int, Cell), layers: int, v: int) -> bool {
    exists|j: int|
        0 <= j <= v && j < plan.pieces@.len() && j % layers == s.0 && #[trigger] in_territory(piece_span(plan, j), s.1)
}

/// Everything the layout shows of one route with vias: its pieces keep
/// apart, the cells it owns on a layer lie in its pieces there, and the vias
/// a layer lists are its own.
pub open spec fn route_separated(
    m: MazeMap,
    data: Seq<LayerRouteData>,
    plan: RoutePlan,
    layers: int,
    r: int,
    h: int,
    w: int,
) -> bool {
    &&& layers >= 2
    &&& pieces_apart(plan)
    &&& plan.pieces@.len() == plan.vias@.len() + 1
    &&& plan.vias@.no_duplicates()
    &&& all_coord_ok(plan.vias@)
    &&& forall|k: int| 0 <= k < plan.pieces@.len() ==> all_coord_ok(#[trigger] plan.pieces@[k]@)
    &&& forall|q: int, d: Cell|
        #![trigger data[q].route_owner@[flat(d.0 as int, d.1 as int, w)]]
        0 <= q < layers && in_bounds(d, h, w) && data[q].route_owner@[flat(d.0 as int, d.1 as int, w)] == r as u8
            ==> owned_by_piece(plan, d, q, layers)
    &&& forall|q: int, j: int|
        0 <= q < layers && 0 <= j < data[q].vias@[r]@.len() ==> via_here(plan, q, layers, #[trigger] data[q].vias@[r]@[j])
}

/// The span of a piece holds only maze cells with coordinates in range.
proof fn lemma_span_coord_ok(plan: RoutePlan, k: int)
    requires
        0 <= k < plan.pieces@.len(),
        all_coord_ok(plan.pieces@[k]@),
        all_coord_ok(plan.vias@),
    ensures
        all_coord_ok(piece_span(plan, k)),
{
    assert forall|i: int| 0 <= i < piece_span(plan, k).len() implies coord_ok(#[trigger] piece_span(plan, k)[i]) by {
        if i < plan.pieces@[k]@.len() {
            assert(piece_span(plan, k)[i] == plan.pieces@[k]@[i]);
        } else {
            assert(piece_span(plan, k)[i] == plan.vias@[k]);
        }
    }
}

/// A walk through the cells that route `r` owns, never changing layer at via
/// `v`, keeps to the pieces up to `v`: moves on a layer stay in one piece,
/// and a layer change at via `k` goes between pieces `k` and `k + 1`.
proof fn lemma_zone_stays(
    m: MazeMap,
    data: Seq<LayerRouteData>,
    plan: RoutePlan,
    layers: int,
    goals: int,
    r: int,
    h: int,
    w: int,
    p: Seq<(int, Cell)>,
    v: int,
    i: int,
)
    requires
        route_separated(m, data, plan, layers, r, h, w),
        0 <= v < plan.vias@.len(),
        open_walk_avoiding(m, data, layers, goals, r, h, w, true, p, Some(gcell(plan.vias@[v]))),
        zone_at_most(plan, p[0], layers, v),
        0 <= i < p.len(),
    ensures
        zone_at_most(plan, p[i], layers, v),
    decreases i,
{
    if i > 0 {
        lemma_zone_stays(m, data, plan, layers, goals, r, h, w, p, v, i - 1);
        let a = p[i - 1];
        let b = p[i];
        assert(p[(i - 1) + 1] == b);
        assert(open_step(data, r, p[i - 1], p[(i - 1) + 1]));
        assert(keeps_off(p[i - 1], p[(i - 1) + 1], Some(gcell(plan.vias@[v]))));
        assert(open_stop(m, data, layers, goals, r, h, w, true, p[i]));
        let ja = choose|j: int|
            0 <= j <= v && j < plan.pieces@.len() && j % layers == a.0 && #[trigger] in_territory(piece_span(plan, j), a.1);
        assert(in_bounds(b.1, h, w));
        assert(data[b.0].route_owner@[flat(b.1.0 as int, b.1.1 as int, w)] == r as u8);
        assert(owned_by_piece(plan, b.1, b.0, layers));
        let jb = choose|j: int|
            0 <= j < plan.pieces@.len() && piece_on_layer(j, b.0, layers) && #[trigger] in_territory(piece_span(plan, j), b.1);
        lemma_span_coord_ok(plan, ja);
        lemma_span_coord_ok(plan, jb);
        if a.0 == b.0 && adjacent(a.1, b.1) {
            let x = lemma_territory_meet(piece_span(plan, ja), piece_span(plan, jb), a.1, b.1);
            assert(wp_covered(plan, ja, x) && wp_covered(plan, jb, x));
            if ja < jb {
                lemma_next_layer_differs(ja, layers);
            } else if jb < ja {
                lemma_next_layer_differs(jb, layers);
            }
            assert(ja == jb);
        } else {
            let d = b.1;
            assert(a.1 == d && a.0 != b.0);
            assert(data[b.0].vias@[r]@.contains(d));
            let jj = choose|j: int| 0 <= j < data[b.0].vias@[r]@.len() && data[b.0].vias@[r]@[j] == d;
            assert(via_here(plan, b.0, layers, data[b.0].vias@[r]@[jj]));
            let k = choose|k: int|
                0 <= k < plan.vias@.len() && (k % layers == b.0 || (k + 1) % layers == b.0) && d == gcell(
                    #[trigger] plan.vias@[k],
                );
            let x = plan.vias@[k];
            assert(coord_ok(x));
            lemma_gcell_territory(piece_span(plan, ja), x);
            lemma_gcell_territory(piece_span(plan, jb), x);
            assert(piece_span(plan, k)[plan.pieces@[k]@.len() as int] == x);
            assert(piece_span(plan, k).contains(x));
            assert(wp_covered(plan, k, x));
            assert(wp_covered(plan, ja, x));
            assert(wp_covered(plan, jb, x));
            assert(k != v) by {
                if k == v {
                    assert(jump_at(a, b, gcell(plan.vias@[v])));
                }
            }
            assert(ja == k || ja == k + 1) by {
                if ja < k {
                    assert(x == plan.vias@[ja]);
                } else if ja > k + 1 {
                    assert(ja == k + 1);
                }
            }
            assert(jb == k || jb == k + 1) by {
                if jb < k {
                    assert(x == plan.vias@[jb]);
                } else if jb > k + 1 {
                    assert(jb == k + 1);
                }
            }
        }
        assert(jb % layers == b.0);
        assert(jb <= v);
        assert(in_territory(piece_span(plan, jb), b.1));
    }
}

/// Every via of a route with at least one checkpoint in its first and last
/// piece is needed over the cells the route owns: without its layer change,
/// the first checkpoint of the first piece and the first checkpoint of the
/// last piece are no longer connected.
proof fn lemma_via_needed_owned(
    m: MazeMap,
    data: Seq<LayerRouteData>,
    plan: RoutePlan,
    layers: int,
    goals: int,
    r: int,
    h: int,
    w: int,
    g: Cell,
    l0: int,
)
    requires
        route_separated(m, data, plan, layers, r, h, w),
        data.len() == layers,
        0 <= l0 < layers,
        via_here(plan, l0, layers, g),
        plan.checkpoints@.len() == plan.pieces@.len(),
        plan.checkpoints@[0]@.len() >= 1,
        plan.checkpoints@[plan.vias@.len() as int]@.len() >= 1,
        cells_within(plan.checkpoints@[0]@, plan.pieces@[0]@),
        cells_within(plan.checkpoints@[plan.vias@.len() as int]@, plan.pieces@[plan.vias@.len() as int]@),
        data[0].checkpoints@[r]@.contains(gcell(plan.checkpoints@[0]@[0])),
        data[plan.vias@.len() as int % layers].checkpoints@[r]@.contains(
            gcell(plan.checkpoints@[plan.vias@.len() as int]@[0]),
        ),
    ensures
        via_needed(m, data, layers, goals, r, h, w, true, g),
{
    let n1 = plan.vias@.len() as int;
    let ln = n1 % layers;
    let v = choose|k: int|
        0 <= k < plan.vias@.len() && (k % layers == l0 || (k + 1) % layers == l0) && g == gcell(#[trigger] plan.vias@[k]);
    let x1 = plan.checkpoints@[0]@[0];
    let x2 = plan.checkpoints@[n1]@[0];
    let c1 = gcell(x1);
    let c2 = gcell(x2);
    let j1 = choose|j: int| 0 <= j < data[0].checkpoints@[r]@.len() && data[0].checkpoints@[r]@[j] == c1;
    let j2 = choose|j: int| 0 <= j < data[ln].checkpoints@[r]@.len() && data[ln].checkpoints@[r]@[j] == c2;
    vstd::arithmetic::div_mod::lemma_mod_bound(n1, layers);
    assert(plan.pieces@[0]@.contains(x1));
    assert(plan.pieces@[n1]@.contains(x2));
    assert(coord_ok(x1)) by {
        let i = choose|i: int| 0 <= i < plan.pieces@[0]@.len() && plan.pieces@[0]@[i] == x1;
        assert(all_coord_ok(plan.pieces@[0]@));
    }
    assert(coord_ok(x2)) by {
        let i = choose|i: int| 0 <= i < plan.pieces@[n1]@.len() && plan.pieces@[n1]@[i] == x2;
        assert(all_coord_ok(plan.pieces@[n1]@));
    }
    assert(!puzzle_connects(m, data, layers, goals, r, h, w, true, (0int, c1), (ln, c2), Some(g))) by {
        if puzzle_connects(m, data, layers, goals, r, h, w, true, (0int, c1), (ln, c2), Some(g)) {
            let p = choose|p: Seq<(int, Cell)>|
                #[trigger] open_walk_avoiding(m, data, layers, goals, r, h, w, true, p, Some(g)) && p[0] == (0int, c1)
                    && p[p.len() - 1] == (ln, c2);
            let i1 = choose|i: int| 0 <= i < plan.pieces@[0]@.len() && plan.pieces@[0]@[i] == x1;
            assert(piece_span(plan, 0)[i1] == x1);
            assert(piece_span(plan, 0).contains(x1));
            assert(in_territory(piece_span(plan, 0), c1));
            vstd::arithmetic::div_mod::lemma_small_mod(0nat, layers as nat);
            assert(zone_at_most(plan, p[0], layers, v));
            lemma_zone_stays(m, data, plan, layers, goals, r, h, w, p, v, p.len() - 1);
            let j = choose|j: int|
                0 <= j <= v && j < plan.pieces@.len() && j % layers == ln && #[trigger] in_territory(piece_span(plan, j), c2);
            lemma_span_coord_ok(plan, j);
            lemma_gcell_territory(piece_span(plan, j), x2);
            assert(wp_covered(plan, j, x2));
            let i2 = choose|i: int| 0 <= i < plan.pieces@[n1]@.len() && plan.pieces@[n1]@[i] == x2;
            assert(wp_covered(plan, n1, x2));
            assert(j < n1);
            assert(n1 == j + 1);
            lemma_next_layer_differs(j, layers);
        }
    }
}

/// With at least two waypoints in every piece, every via that a layer lists
/// for a route is needed by that route over the cells it owns.
proof fn lemma_final_vias_needed_owned(
    m: MazeMap,
    data: Seq<LayerRouteData>,
    plans: Seq<RoutePlan>,
    regions: Seq<Vec<Cell>>,
    layers: int,
    goals: int,
    h: int,
    w: int,
)
    requires
        data.len() == layers,
        plans.len() == goals,
        regions.len() == goals,
        forall|q: int| 0 <= q < goals ==> all_coord_ok(#[trigger] regions[q]@),
        forall|q: int| 0 <= q < goals ==> plan_within(#[trigger] plans[q], regions[q]@),
        forall|q: int| 0 <= q < goals ==> pieces_apart(#[trigger] plans[q]) && plans[q].vias@.no_duplicates(),
        forall|q: int| 0 <= q < goals && (#[trigger] plans[q]).vias@.len() > 0 ==> layers >= 2,
        forall|q: int, k: int|
            0 <= q < goals && 0 <= k < plans[q].pieces@.len() ==> (#[trigger] waypoints(plans[q], k)).len() >= 2,
        forall|q: int, k: int, d: Cell|
            #![trigger data[q].route_owner@[flat(d.0 as int, d.1 as int, w)], plans[k]]
            0 <= q < layers && 0 <= k < goals && in_bounds(d, h, w) && data[q].route_owner@[flat(d.0 as int, d.1 as int, w)]
                == k as u8 && plans[k].vias@.len() > 0 ==> owned_by_piece(plans[k], d, q, layers),
        forall|q: int, k: int, j: int|
            0 <= q < layers && 0 <= k < goals && 0 <= j < data[q].vias@[k]@.len() ==> via_here(
                plans[k],
                q,
                layers,
                #[trigger] data[q].vias@[k]@[j],
            ),
        forall|q: int, k: int, j: int, i: int|
            #![trigger data[q].checkpoints@[k], plans[k].checkpoints@[j]@[i]]
            0 <= q < layers && 0 <= k < goals && 0 <= j < plans[k].pieces@.len() && listed_here(plans[k], j, q, layers) && 0 <= i
                < plans[k].checkpoints@[j]@.len() ==> data[q].checkpoints@[k]@.contains(gcell(plans[k].checkpoints@[j]@[i])),
    ensures
        forall|l: int, r: int, j: int|
            0 <= l < layers && 0 <= r < goals && 0 <= j < data[l].vias@[r]@.len() ==> #[trigger] via_needed(
                m,
                data,
                layers,
                goals,
                r,
                h,
                w,
                true,
                data[l].vias@[r]@[j],
            ),
{
    assert forall|l: int, r: int, j: int|
        0 <= l < layers && 0 <= r < goals && 0 <= j < data[l].vias@[r]@.len() implies #[trigger] via_needed(
        m,
        data,
        layers,
        goals,
        r,
        h,
        w,
        true,
        data[l].vias@[r]@[j],
    ) by {
        let plan = plans[r];
        let g = data[l].vias@[r]@[j];
        let n1 = plan.vias@.len() as int;
        assert(via_here(plan, l, layers, g));
        assert(n1 >= 1);
        assert(layers >= 2);
        assert(plan_within(plan, regions[r]@));
        lemma_within_coord_ok(plan.vias@, regions[r]@);
        assert forall|k: int| 0 <= k < plan.pieces@.len() implies all_coord_ok(#[trigger] plan.pieces@[k]@) by {
            lemma_within_coord_ok(plan.pieces@[k]@, regions[r]@);
        }
        assert forall|q: int, d: Cell|
            #![trigger data[q].route_owner@[flat(d.0 as int, d.1 as int, w)]]
            0 <= q < layers && in_bounds(d, h, w) && data[q].route_owner@[flat(d.0 as int, d.1 as int, w)] == r as u8
                implies owned_by_piece(plan, d, q, layers) by {
            assert(plans[r] == plan);
        }
        assert(route_separated(m, data, plan, layers, r, h, w));
        assert(waypoints(plan, 0).len() >= 2);
        assert(waypoints(plan, 0).len() == plan.checkpoints@[0]@.len() + 1);
        assert(waypoints(plan, n1).len() >= 2);
        assert(waypoints(plan, n1).len() == plan.checkpoints@[n1]@.len() + 1);
        let ln = n1 % layers;
        vstd::arithmetic::div_mod::lemma_mod_bound(n1, layers);
        vstd::arithmetic::div_mod::lemma_small_mod(0nat, layers as nat);
        assert(listed_here(plan, 0, 0, layers));
        assert(listed_here(plan, n1, ln, layers));
        assert(data[0].checkpoints@[r]@.contains(gcell(plans[r].checkpoints@[0]@[0])));
        assert(data[ln].checkpoints@[r]@.contains(gcell(plans[r].checkpoints@[n1]@[0])));
        lemma_via_needed_owned(m, data, plan, layers, goals, r, h, w, g, l);
    }
}

/// What a drawn map keeps apart: open cells next to an open cell of a route
/// belong to that route, and each listed via and checkpoint of a route is
/// owned by it.
pub open spec fn routes_sealed(m: MazeMap, data: Seq<LayerRouteData>, layers: int, goals: int, h: int, w: int) -> bool {
    &&& forall|q: int, p: Cell, p2: Cell|
        0 <= q < layers && in_bounds(p, h, w) && in_bounds(p2, h, w) && adjacent(p, p2) && block(
            m.puzzle@,
            q,
            (goals + 1) * (h * w),
        )[flat(p.0 as int, p.1 as int, w)] == 0 && block(m.puzzle@, q, (goals + 1) * (h * w))[flat(p2.0 as int, p2.1 as int, w)]
            == 0 && #[trigger] data[q].route_owner@[flat(p.0 as int, p.1 as int, w)] < goals
            ==> #[trigger] data[q].route_owner@[flat(p2.0 as int, p2.1 as int, w)] == data[q].route_owner@[flat(
            p.0 as int,
            p.1 as int,
            w,
        )]
    &&& forall|q: int, k: int, j: int|
        0 <= q < layers && 0 <= k < goals && 0 <= j < data[q].vias@[k]@.len() ==> data[q].route_owner@[flat(
            (#[trigger] data[q].vias@[k]@[j]).0 as int,
            data[q].vias@[k]@[j].1 as int,
            w,
        )] == k as u8
    &&& forall|q: int, k: int, j: int|
        0 <= q < layers && 0 <= k < goals && 0 <= j < data[q].checkpoints@[k]@.len() ==> data[q].route_owner@[flat(
            (#[trigger] data[q].checkpoints@[k]@[j]).0 as int,
            data[q].checkpoints@[k]@[j].1 as int,
            w,
        )] == k as u8
}

/// A walk through the open cells of a sealed map that starts on a cell of
/// route `r` stays on the cells of `r`.
proof fn lemma_open_walk_owned(
    m: MazeMap,
    data: Seq<LayerRouteData>,
    layers: int,
    goals: int,
    r: int,
    h: int,
    w: int,
    p: Seq<(int, Cell)>,
    g: Option<Cell>,
    i: int,
)
    requires
        0 <= r < goals <= 256,
        routes_sealed(m, data, layers, goals, h, w),
        open_walk_avoiding(m, data, layers, goals, r, h, w, false, p, g),
        data[p[0].0].route_owner@[flat(p[0].1.0 as int, p[0].1.1 as int, w)] == r as u8,
        0 <= i < p.len(),
    ensures
        data[p[i].0].route_owner@[flat(p[i].1.0 as int, p[i].1.1 as int, w)] == r as u8,
    decreases i,
{
    if i > 0 {
        lemma_open_walk_owned(m, data, layers, goals, r, h, w, p, g, i - 1);
        let a = p[i - 1];
        let b = p[i];
        assert(p[(i - 1) + 1] == b);
        assert(open_step(data, r, p[i - 1], p[(i - 1) + 1]));
        assert(open_stop(m, data, layers, goals, r, h, w, false, p[i - 1]));
        assert(open_stop(m, data, layers, goals, r, h, w, false, p[i]));
        if a.0 == b.0 && adjacent(a.1, b.1) {
            assert(data[a.0].route_owner@[flat(a.1.0 as int, a.1.1 as int, w)] < goals);
        } else {
            let jj = choose|j: int| 0 <= j < data[b.0].vias@[r]@.len() && data[b.0].vias@[r]@[j] == b.1;
            assert(data[b.0].route_owner@[flat(
                data[b.0].vias@[r]@[jj].0 as int,
                data[b.0].vias@[r]@[jj].1 as int,
                w,
            )] == r as u8);
        }
    }
}

/// In a sealed map, a via needed over the cells its route owns is needed
/// over all open cells too: every open walk from a checkpoint keeps to them.
proof fn lemma_via_needed_open(
    m: MazeMap,
    data: Seq<LayerRouteData>,
    layers: int,
    goals: int,
    r: int,
    h: int,
    w: int,
    g: Cell,
)
    requires
        0 <= r < goals <= 256,
        routes_sealed(m, data, layers, goals, h, w),
        via_needed(m, data, layers, goals, r, h, w, true, g),
    ensures
        via_needed(m, data, layers, goals, r, h, w, false, g),
{
    let (l1, j1, l2, j2) = choose|l1: int, j1: int, l2: int, j2: int|
        0 <= l1 < layers && 0 <= l2 < layers && 0 <= j1 < data[l1].checkpoints@[r]@.len() && 0 <= j2
            < data[l2].checkpoints@[r]@.len() && !#[trigger] puzzle_connects(
            m,
            data,
            layers,
            goals,
            r,
            h,
            w,
            true,
            (l1, data[l1].checkpoints@[r]@[j1]),
            (l2, data[l2].checkpoints@[r]@[j2]),
            Some(g),
        );
    let a = (l1, data[l1].checkpoints@[r]@[j1]);
    let b = (l2, data[l2].checkpoints@[r]@[j2]);
    assert(!puzzle_connects(m, data, layers, goals, r, h, w, false, a, b, Some(g))) by {
        if puzzle_connects(m, data, layers, goals, r, h, w, false, a, b, Some(g)) {
            let p = choose|p: Seq<(int, Cell)>|
                #[trigger] open_walk_avoiding(m, data, layers, goals, r, h, w, false, p, Some(g)) && p[0] == a && p[p.len() - 1] == b;
            assert(data[l1].route_owner@[flat(a.1.0 as int, a.1.1 as int, w)] == r as u8);
            assert forall|i: int| 0 <= i < p.len() implies open_stop(m, data, layers, goals, r, h, w, true, #[trigger] p[i]) by {
                assert(open_stop(m, data, layers, goals, r, h, w, false, p[i]));
                lemma_open_walk_owned(m, data, layers, goals, r, h, w, p, Some(g), i);
            }
            assert(open_walk_avoiding(m, data, layers, goals, r, h, w, true, p, Some(g)));
            assert(puzzle_connects(m, data, layers, goals, r, h, w, true, a, b, Some(g)));
        }
    }
}

/// `g` is the grid cell of a via of `plan` that joins layer `l` to the next
/// or to the previous piece's layer.
pub open spec fn via_here(plan: RoutePlan, l: int, layers: int, g: Cell) -> bool {
    exists|k: int|
        0 <= k < plan.vias@.len() && (k % layers == l || (k + 1) % layers == l) && g == gcell(
            #[trigger] plan.vias@[k],
        )
}

/// Piece `k` of `plan` has its checkpoints listed on layer `l`: the only
/// piece, on layer 0, for a route without vias.
pub open spec fn listed_here(plan: RoutePlan, k: int, l: int, layers: int) -> bool {
    if plan.vias@.len() == 0 {
        l == 0
    } else {
        piece_on_layer(k, l, layers)
    }
}

/// How many checkpoints of the first `n` pieces of `plan` go on layer `l`.
pub open spec fn layer_cps_count(plan: RoutePlan, l: int, layers: int, n: int) -> int
    decreases n,
{
    if n <= 0 {
        0
    } else {
        layer_cps_count(plan, l, layers, n - 1) + if listed_here(plan, n - 1, l, layers) {
            plan.checkpoints@[n - 1]@.len() as int
        } else {
            0int
        }
    }
}

/// How many checkpoints of route `r` the first `n` layers list.
pub open spec fn listed_count(data: Seq<LayerRouteData>, r: int, n: int) -> int
    decreases n,
{
    if n <= 0 {
        0
    } else {
        listed_count(data, r, n - 1) + data[n - 1].checkpoints@[r]@.len()
    }
}

proof fn lemma_listed_count_same(d1: Seq<LayerRouteData>, d2: Seq<LayerRouteData>, r: int, n: int)
    requires
        0 <= n <= d1.len(),
        n <= d2.len(),
        forall|q: int| 0 <= q < n ==> d1[q] == d2[q],
    ensures
        listed_count(d1, r, n) == listed_count(d2, r, n),
    decreases n,
{
    if n > 0 {
        lemma_listed_count_same(d1, d2, r, n - 1);
    }
}

proof fn lemma_listed_count_zero(d: Seq<LayerRouteData>, r: int, n: int)
    requires
        0 <= n <= d.len(),
        forall|q: int| 0 <= q < n ==> (#[trigger] d[q]).checkpoints@[r]@.len() == 0,
    ensures
        listed_count(d, r, n) == 0,
    decreases n,
{
    if n > 0 {
        lemma_listed_count_zero(d, r, n - 1);
    }
}

/// Every checkpoint of the plan stands for a grid cell inside the grid.
pub open spec fn cps_fit(plan: RoutePlan, h: int, w: int) -> bool {
    forall|k: int, i: int|
        0 <= k < plan.pieces@.len() && 0 <= i < plan.checkpoints@[k]@.len() ==> in_bounds(
            gcell(#[trigger] plan.checkpoints@[k]@[i]),
            h,
            w,
        )
}

/// Layer `q`'s share of piece `k`'s checkpoints, summed over the first `m`
/// layers.
spec fn share_sum(plan: RoutePlan, k: int, layers: int, m: int) -> int
    decreases m,
{
    if m <= 0 {
        0
    } else {
        share_sum(plan, k, layers, m - 1) + if listed_here(plan, k, m - 1, layers) {
            plan.checkpoints@[k]@.len() as int
        } else {
            0int
        }
    }
}

/// The checkpoints of the first `n` pieces listed on the first `m` layers.
spec fn layers_cps_sum(plan: RoutePlan, layers: int, n: int, m: int) -> int
    decreases m,
{
    if m <= 0 {
        0
    } else {
        layers_cps_sum(plan, layers, n, m - 1) + layer_cps_count(plan, m - 1, layers, n)
    }
}

/// Every piece lists its checkpoints on exactly one of the layers.
proof fn lemma_share_sum(plan: RoutePlan, k: int, layers: int, m: int)
    requires
        layers >= 1,
        0 <= k,
        0 <= m <= layers,
        plan.vias@.len() == 0 ==> k == 0,
    ensures
        share_sum(plan, k, layers, m) == if (if plan.vias@.len() == 0 { 0 } else { k % layers }) < m {
            plan.checkpoints@[k]@.len() as int
        } else {
            0int
        },
    decreases m,
{
    if m > 0 {
        lemma_share_sum(plan, k, layers, m - 1);
        assert(0 <= k % layers < layers) by (nonlinear_arith)
            requires
                layers >= 1,
        ;
    }
}

proof fn lemma_layers_cps_sum_step(plan: RoutePlan, layers: int, n: int, m: int)
    requires
        n >= 1,
        m >= 0,
    ensures
        layers_cps_sum(plan, layers, n, m) == layers_cps_sum(plan, layers, n - 1, m) + share_sum(plan, n - 1, layers, m),
    decreases m,
{
    if m > 0 {
        lemma_layers_cps_sum_step(plan, layers, n, m - 1);
    }
}

/// Summed over all layers, the per-layer counts give every checkpoint of the
/// plan once.
proof fn lemma_layers_cps_total(plan: RoutePlan, layers: int, n: int)
    requires
        layers >= 1,
        0 <= n <= plan.pieces@.len(),
        plan.vias@.len() == 0 ==> plan.pieces@.len() == 1,
    ensures
        layers_cps_sum(plan, layers, n, layers) == crate::plan::lens_sum(plan.checkpoints@, n),
    decreases n,
{
    if n == 0 {
        assert(layers_cps_sum(plan, layers, 0, layers) == 0) by {
            lemma_layers_cps_zero(plan, layers, layers);
        }
    } else {
        lemma_layers_cps_total(plan, layers, n - 1);
        lemma_layers_cps_sum_step(plan, layers, n, layers);
        lemma_share_sum(plan, n - 1, layers, layers);
        assert(0 <= (n - 1) % layers < layers) by (nonlinear_arith)
            requires
                layers >= 1,
                n >= 1,
        ;
    }
}

proof fn lemma_layers_cps_zero(plan: RoutePlan, layers: int, m: int)
    requires
        m >= 0,
    ensures
        layers_cps_sum(plan, layers, 0, m) == 0,
    decreases m,
{
    if m > 0 {
        lemma_layers_cps_zero(plan, layers, m - 1);
    }
}

/// Lists route checkpoints and vias that belong on layer `l`, in grid
/// coordinates, and marks them in the route's checkpoint grid `cpg`: the
/// checkpoints of the pieces on this layer (of the only piece, on layer 0,
/// for a route without vias), then each via joining a piece of this layer,
/// when its cell is open.
#[verifier::spinoff_prover]
#[verifier::rlimit(40)]
fn list_route_marks(
    cpg: &mut Vec<Vec<bool>>,
    open: &Vec<Vec<bool>>,
    l: usize,
    plan: &RoutePlan,
    region: Ghost<Seq<Cell>>,
    layers: usize,
    h: usize,
    w: usize,
) -> (res: (Vec<Cell>, Vec<Cell>))
    requires
        grid_shape(old(cpg)@, h as int, w as int),
        grid_shape(open@, h as int, w as int),
        forall|c: Cell| in_bounds(c, h as int, w as int) ==> !#[trigger] grid_at(old(cpg)@, c),
        plan_within(*plan, region@),
        all_coord_ok(region@),
        layers >= 1,
    ensures
        grid_shape(final(cpg)@, h as int, w as int),
        forall|j: int|
            0 <= j < res.0@.len() ==> in_bounds(#[trigger] res.0@[j], h as int, w as int) && grid_at(
                final(cpg)@,
                res.0@[j],
            ),
        forall|j: int|
            0 <= j < res.1@.len() ==> in_bounds(#[trigger] res.1@[j], h as int, w as int) && grid_at(
                final(cpg)@,
                res.1@[j],
            ) && grid_at(open@, res.1@[j]),
        res.1@.len() <= plan.vias@.len(),
        forall|c: Cell|
            in_bounds(c, h as int, w as int) && #[trigger] grid_at(final(cpg)@, c) ==> res.0@.contains(c) || res.1@.contains(c),
        forall|j: int| 0 <= j < res.0@.len() ==> cp_here(*plan, l as int, layers as int, #[trigger] res.0@[j]),
        forall|q: int, i: int|
            0 <= q < plan.pieces@.len() && (if plan.vias@.len() == 0 { l == 0 } else { piece_on_layer(q, l as int, layers as int) })
                && 0 <= i < plan.checkpoints@[q]@.len() && in_bounds(gcell(plan.checkpoints@[q]@[i]), h as int, w as int)
                ==> res.0@.contains(gcell(#[trigger] plan.checkpoints@[q]@[i])),
        forall|j: int| 0 <= j < res.1@.len() ==> via_here(*plan, l as int, layers as int, #[trigger] res.1@[j]),
        cps_fit(*plan, h as int, w as int) ==> res.0@.len() == layer_cps_count(*plan, l as int, layers as int, plan.pieces@.len() as int),
        forall|k: int|
            0 <= k < plan.vias@.len() && (k % (layers as int) == l || (k + 1) % (layers as int) == l) && in_bounds(
                gcell(#[trigger] plan.vias@[k]),
                h as int,
                w as int,
            ) && grid_at(open@, gcell(plan.vias@[k])) ==> res.1@.contains(gcell(plan.vias@[k])),
{
    let mut cps: Vec<Cell> = Vec::new();
    let mut vias: Vec<Cell> = Vec::new();
    let nv = plan.vias.len();
    let np = plan.pieces.len();
    let mut k: usize = 0;
    while k < np
        invariant
            k <= np,
            np == plan.pieces@.len(),
            plan_within(*plan, region@),
            all_coord_ok(region@),
            layers >= 1,
            grid_shape(cpg@, h as int, w as int),
            forall|j: int| 0 <= j < cps@.len() ==> in_bounds(#[trigger] cps@[j], h as int, w as int) && grid_at(cpg@, cps@[j]),
            vias@.len() == 0,
            forall|c: Cell| in_bounds(c, h as int, w as int) && #[trigger] grid_at(cpg@, c) ==> cps@.contains(c) || vias@.contains(c),
            nv == plan.vias@.len(),
            forall|j: int| 0 <= j < cps@.len() ==> cp_here(*plan, l as int, layers as int, #[trigger] cps@[j]),
            cps_fit(*plan, h as int, w as int) ==> cps@.len() == layer_cps_count(*plan, l as int, layers as int, k as int),
            forall|q: int, i: int|
                0 <= q < k && (if nv == 0 { l == 0 } else { piece_on_layer(q, l as int, layers as int) }) && 0 <= i
                    < plan.checkpoints@[q]@.len() && in_bounds(gcell(plan.checkpoints@[q]@[i]), h as int, w as int)
                    ==> cps@.contains(gcell(#[trigger] plan.checkpoints@[q]@[i])),
        decreases np - k,
    {
        let here = if nv == 0 { l == 0 } else { k % layers == l };
        let ghost n0 = cps@.len();
        if here {
            let list = &plan.checkpoints[k];
            proof {
                lemma_within_coord_ok(list@, region@);
            }
            let mut i: usize = 0;
            while i < list.len()
                invariant
                    i <= list@.len(),
                    all_coord_ok(list@),
                    grid_shape(cpg@, h as int, w as int),
                    forall|j: int|
                        0 <= j < cps@.len() ==> in_bounds(#[trigger] cps@[j], h as int, w as int) && grid_at(cpg@, cps@[j]),
                    vias@.len() == 0,
                    forall|c: Cell| in_bounds(c, h as int, w as int) && #[trigger] grid_at(cpg@, c) ==> cps@.contains(c) || vias@.contains(c),
                    k < np,
                    np == plan.pieces@.len(),
                    nv == plan.vias@.len(),
                    list@ == plan.checkpoints@[k as int]@,
                    if nv == 0 { l == 0 } else { piece_on_layer(k as int, l as int, layers as int) },
                    forall|j: int| 0 <= j < cps@.len() ==> cp_here(*plan, l as int, layers as int, #[trigger] cps@[j]),
                    cps_fit(*plan, h as int, w as int) ==> cps@.len() == n0 + i,
                    forall|q: int, i: int|
                        0 <= q < k && (if nv == 0 { l == 0 } else { piece_on_layer(q, l as int, layers as int) }) && 0 <= i
                            < plan.checkpoints@[q]@.len() && in_bounds(gcell(plan.checkpoints@[q]@[i]), h as int, w as int)
                            ==> cps@.contains(gcell(#[trigger] plan.checkpoints@[q]@[i])),
                    forall|i2: int|
                        0 <= i2 < i && in_bounds(gcell(plan.checkpoints@[k as int]@[i2]), h as int, w as int) ==> cps@.contains(
                            gcell(#[trigger] plan.checkpoints@[k as int]@[i2]),
                        ),
                decreases list@.len() - i,
            {
                proof {
                    if cps_fit(*plan, h as int, w as int) {
                        assert(in_bounds(gcell(plan.checkpoints@[k as int]@[i as int]), h as int, w as int));
                    }
                }
                if let Some(g) = grid_cell(list[i], h, w) {
                    let ghost g0 = cpg@;
                    let ghost c0 = cps@;
                    crate::grid::set_grid(cpg, g, true);
                    cps.push(g);
                    proof {
                        assert(g == gcell(plan.checkpoints@[k as int]@[i as int]));
                        assert(cps@[c0.len() as int] == g);
                        assert forall|x: Cell| c0.contains(x) implies cps@.contains(x) by {
                            let j = choose|j: int| 0 <= j < c0.len() && c0[j] == x;
                            assert(cps@[j] == c0[j]);
                        }
                        assert forall|c: Cell| in_bounds(c, h as int, w as int) && #[trigger] grid_at(cpg@, c) implies cps@.contains(c)
                            || vias@.contains(c) by {
                            if c != g {
                                assert(grid_at(cpg@, c) == grid_at(g0, c));
                                assert(c0.contains(c));
                            }
                        }
                        assert(cp_here(*plan, l as int, layers as int, g));
                        assert forall|j: int| 0 <= j < cps@.len() implies cp_here(*plan, l as int, layers as int, #[trigger] cps@[j]) by {
                            if j < c0.len() {
                                assert(cps@[j] == c0[j]);
                            }
                        }
                        assert forall|j: int|
                            0 <= j < cps@.len() implies in_bounds(#[trigger] cps@[j], h as int, w as int) && grid_at(cpg@, cps@[j]) by {
                            if j < c0.len() {
                                assert(cps@[j] == c0[j]);
                                if cps@[j] != g {
                                    assert(grid_at(cpg@, cps@[j]) == grid_at(g0, cps@[j]));
                                }
                            }
                        }
                    }
                }
                i = i + 1;
            }
        }
        proof {
            assert forall|q: int, i: int|
                0 <= q < k + 1 && (if nv == 0 { l == 0 } else { piece_on_layer(q, l as int, layers as int) }) && 0 <= i
                    < plan.checkpoints@[q]@.len() && in_bounds(gcell(plan.checkpoints@[q]@[i]), h as int, w as int)
                    implies cps@.contains(gcell(#[trigger] plan.checkpoints@[q]@[i])) by {
                if q == k {
                    assert(here);
                }
            }
        }
        k = k + 1;
    }
    proof {
        lemma_within_coord_ok(plan.vias@, region@);
    }
    let mut k: usize = 0;
    while k < nv
        invariant
            k <= nv,
            nv == plan.vias@.len(),
            vias@.len() <= k,
            all_coord_ok(plan.vias@),
            layers >= 1,
            grid_shape(cpg@, h as int, w as int),
            grid_shape(open@, h as int, w as int),
            forall|j: int| 0 <= j < cps@.len() ==> in_bounds(#[trigger] cps@[j], h as int, w as int) && grid_at(cpg@, cps@[j]),
            forall|j: int|
                0 <= j < vias@.len() ==> in_bounds(#[trigger] vias@[j], h as int, w as int) && grid_at(cpg@, vias@[j])
                    && grid_at(open@, vias@[j]),
            forall|c: Cell| in_bounds(c, h as int, w as int) && #[trigger] grid_at(cpg@, c) ==> cps@.contains(c) || vias@.contains(c),
            forall|j: int| 0 <= j < cps@.len() ==> cp_here(*plan, l as int, layers as int, #[trigger] cps@[j]),
            forall|q: int|
                0 <= q < k && (q % (layers as int) == l || (q + 1) % (layers as int) == l) && in_bounds(
                    gcell(#[trigger] plan.vias@[q]),
                    h as int,
                    w as int,
                ) && grid_at(open@, gcell(plan.vias@[q])) ==> vias@.contains(gcell(plan.vias@[q])),
            forall|j: int| 0 <= j < vias@.len() ==> via_here(*plan, l as int, layers as int, #[trigger] vias@[j]),
        decreases nv - k,
    {
        let ghost vk0 = vias@;
        if k % layers == l || (k + 1) % layers == l {
            if let Some(g) = grid_cell(plan.vias[k], h, w) {
                if open[g.0][g.1] {
                    let ghost g0 = cpg@;
                    let ghost c0 = cps@;
                    let ghost v0 = vias@;
                    crate::grid::set_grid(cpg, g, true);
                    vias.push(g);
                    proof {
                        assert(vias@[vias@.len() - 1] == g);
                        assert(g == gcell(plan.vias@[k as int]));
                        assert forall|c: Cell| in_bounds(c, h as int, w as int) && #[trigger] grid_at(cpg@, c) implies cps@.contains(c)
                            || vias@.contains(c) by {
                            if c != g {
                                assert(grid_at(cpg@, c) == grid_at(g0, c));
                                if v0.contains(c) {
                                    let j = choose|j: int| 0 <= j < v0.len() && v0[j] == c;
                                    assert(vias@[j] == v0[j]);
                                }
                            }
                        }
                        assert forall|j: int| 0 <= j < vias@.len() implies via_here(*plan, l as int, layers as int, #[trigger] vias@[j]) by {
                            if j < v0.len() {
                                assert(vias@[j] == v0[j]);
                            } else {
                                assert(vias@[j] == gcell(plan.vias@[k as int]));
                            }
                        }
                        assert forall|j: int|
                            0 <= j < cps@.len() implies in_bounds(#[trigger] cps@[j], h as int, w as int) && grid_at(cpg@, cps@[j]) by {
                            if cps@[j] != g {
                                assert(grid_at(cpg@, cps@[j]) == grid_at(g0, cps@[j]));
                            }
                        }
                        assert forall|j: int|
                            0 <= j < vias@.len() implies in_bounds(#[trigger] vias@[j], h as int, w as int) && grid_at(cpg@, vias@[j])
                                && grid_at(open@, vias@[j]) by {
                            if j < v0.len() {
                                assert(vias@[j] == v0[j]);
                                if vias@[j] != g {
                                    assert(grid_at(cpg@, vias@[j]) == grid_at(g0, vias@[j]));
                                }
                            }
                        }
                    }
                }
            }
        }
        proof {
            assert forall|q: int|
                0 <= q < k + 1 && (q % (layers as int) == l || (q + 1) % (layers as int) == l) && in_bounds(
                    gcell(#[trigger] plan.vias@[q]),
                    h as int,
                    w as int,
                ) && grid_at(open@, gcell(plan.vias@[q])) implies vias@.contains(gcell(plan.vias@[q])) by {
                if q < k {
                    assert(vk0.contains(gcell(plan.vias@[q])));
                    let x = choose|x: int| 0 <= x < vk0.len() && vk0[x] == gcell(plan.vias@[q]);
                    assert(vias@[x] == vk0[x]);
                } else {
                    assert(vias@[vias@.len() - 1] == gcell(plan.vias@[k as int]));
                }
            }
        }
        k = k + 1;
    }
    (cps, vias)
}


/// What a generated layer promises: its channels and solution have the right
/// sizes and hold only 0 and 1; every path cell is open and owned by a route;
/// every wall is unowned; every listed checkpoint and via is a cell of the
/// grid marked in its route's channel, and every listed via is open.
pub open spec fn layer_ok(chans: Seq<i8>, sol: Seq<i8>, d: LayerRouteData, goals: int, h: int, w: int) -> bool {
    &&& chans.len() == (goals + 1) * (h * w)
    &&& sol.len() == h * w
    &&& d.route_owner@.len() == h * w
    &&& d.checkpoints@.len() == goals
    &&& d.vias@.len() == goals
    &&& forall|i: int| 0 <= i < chans.len() ==> #[trigger] chans[i] == 0 || chans[i] == 1
    &&& forall|i: int| 0 <= i < sol.len() ==> #[trigger] sol[i] == 0 || sol[i] == 1
    &&& forall|y: int, x: int|
        0 <= y < h && 0 <= x < w && #[trigger] sol[flat(y, x, w)] == 1 ==> chans[flat(y, x, w)] == 0
            && d.route_owner@[flat(y, x, w)] < goals
    &&& forall|y: int, x: int|
        0 <= y < h && 0 <= x < w && #[trigger] chans[flat(y, x, w)] == 1 ==> d.route_owner@[flat(y, x, w)]
            == goals as u8
    &&& forall|r: int, j: int|
        0 <= r < goals && 0 <= j < d.checkpoints@[r]@.len() ==> {
            let c = #[trigger] d.checkpoints@[r]@[j];
            &&& c.0 < h
            &&& c.1 < w
            &&& chans[(r + 1) * (h * w) + flat(c.0 as int, c.1 as int, w)] == 1
        }
    &&& forall|r: int, j: int|
        0 <= r < goals && 0 <= j < d.vias@[r]@.len() ==> {
            let c = #[trigger] d.vias@[r]@[j];
            &&& c.0 < h
            &&& c.1 < w
            &&& chans[(r + 1) * (h * w) + flat(c.0 as int, c.1 as int, w)] == 1
            &&& chans[flat(c.0 as int, c.1 as int, w)] == 0
        }
}

/// The entry of route `r`'s checkpoint channel, in the channels of one layer,
/// for the cell at row `y`, column `x`.
pub open spec fn chan_at(chans: Seq<i8>, r: int, h: int, w: int, y: int, x: int) -> i8 {
    chans[(r + 1) * (h * w) + flat(y, x, w)]
}

/// Every cell marked in a route's checkpoint channel of the layer is one of
/// that route's listed checkpoints or vias there.
pub open spec fn marks_listed(chans: Seq<i8>, d: LayerRouteData, goals: int, h: int, w: int) -> bool {
    forall|r: int, y: int, x: int|
        0 <= r < goals && 0 <= y < h && 0 <= x < w && #[trigger] chan_at(chans, r, h, w, y, x) == 1
            ==> d.checkpoints@[r]@.contains((y as usize, x as usize)) || d.vias@[r]@.contains((y as usize, x as usize))
}

proof fn lemma_truncate_le(o: usize)
    ensures
        (o as u8) as int <= o as int,
{
    assert((o as u8) as usize <= o) by (bit_vector);
}

proof fn lemma_block_index(q: int, r: int, f: int, cs: int)
    requires
        0 <= q,
        q + 1 < r,
        0 <= f < cs,
    ensures
        (q + 1) * cs + f < r * cs,
        0 <= (q + 1) * cs + f,
{
    assert((q + 1) * cs + f < r * cs) by (nonlinear_arith)
        requires
            0 <= q,
            q + 1 < r,
            0 <= f < cs,
    ;
    assert(0 <= (q + 1) * cs) by (nonlinear_arith)
        requires
            0 <= q,
            0 <= cs,
    ;
}

/// Every checkpoint that route `r`'s plan puts on layer `l` is drawn as a
/// path cell: for a route without vias, the checkpoints of its only piece,
/// on layer 0, once there are two of them to join.
pub open spec fn cps_drawn(
    sol: Seq<Vec<bool>>,
    open: Seq<Vec<bool>>,
    owner: Seq<Vec<usize>>,
    plan: RoutePlan,
    r: int,
    l: int,
    layers: int,
    h: int,
    w: int,
) -> bool {
    &&& plan.vias@.len() == 0 && l == 0 && plan.checkpoints@[0]@.len() >= 2 ==> forall|i: int|
        0 <= i < plan.checkpoints@[0]@.len() ==> drawn(sol, open, owner, #[trigger] plan.checkpoints@[0]@[i], r, h, w)
    &&& plan.vias@.len() > 0 ==> forall|k: int, i: int|
        0 <= k < plan.pieces@.len() && piece_on_layer(k, l, layers) && 0 <= i < plan.checkpoints@[k]@.len() ==> drawn(
            sol,
            open,
            owner,
            #[trigger] plan.checkpoints@[k]@[i],
            r,
            h,
            w,
        )
}

/// Every listed checkpoint of the layer is a path cell of the layer.
pub open spec fn checkpoints_on_path(sol: Seq<i8>, d: LayerRouteData, goals: int, w: int) -> bool {
    forall|r: int, j: int|
        0 <= r < goals && 0 <= j < d.checkpoints@[r]@.len() ==> sol[flat(
            (#[trigger] d.checkpoints@[r]@[j]).0 as int,
            d.checkpoints@[r]@[j].1 as int,
            w,
        )] == 1
}

/// Carving another route, in a region apart from `s`, leaves the cells of `s`
/// open and owned as they were.
proof fn lemma_held_by_elsewhere(
    o0: Seq<Vec<bool>>,
    w0: Seq<Vec<usize>>,
    o1: Seq<Vec<bool>>,
    w1: Seq<Vec<usize>>,
    s: Seq<Cell>,
    other: Seq<Cell>,
    q: int,
    r: int,
    h: int,
    w: int,
)
    requires
        held_by(o0, w0, s, q, h, w),
        carved_by(o0, w0, o1, w1, r, h, w),
        kept_outside(w0, w1, other, h, w),
        all_coord_ok(s),
        forall|i: int| 0 <= i < s.len() ==> !other.contains(#[trigger] s[i]),
    ensures
        held_by(o1, w1, s, q, h, w),
{
    assert forall|i: int| 0 <= i < s.len() && in_bounds(gcell(s[i]), h, w) implies grid_at(o1, gcell(#[trigger] s[i]))
        && grid_at(w1, gcell(s[i])) == q by {
        assert(coord_ok(s[i]));
        assert(!other.contains(s[i]));
        assert(grid_at(o0, gcell(s[i])));
    }
}

/// Carving another route, in a region apart from `region`, leaves the cells
/// and walls of passages inside `region` open and owned as they were.
proof fn lemma_edges_held_elsewhere(
    o0: Seq<Vec<bool>>,
    w0: Seq<Vec<usize>>,
    o1: Seq<Vec<bool>>,
    w1: Seq<Vec<usize>>,
    edges: Seq<Edge>,
    region: Seq<Cell>,
    other: Seq<Cell>,
    q: int,
    r: int,
    h: int,
    w: int,
)
    requires
        edges_held(o0, w0, edges, q, h, w),
        carved_by(o0, w0, o1, w1, r, h, w),
        kept_outside(w0, w1, other, h, w),
        walls_kept_outside(w0, w1, other, h, w),
        edges_within(edges, region),
        all_coord_ok(region),
        forall|c: Cell| region.contains(c) ==> !other.contains(c),
    ensures
        edges_held(o1, w1, edges, q, h, w),
{
    assert forall|t: int| 0 <= t < edges.len() implies {
        &&& cell_held(o1, w1, gcell((#[trigger] edges[t]).0), q, h, w)
        &&& cell_held(o1, w1, gcell(edges[t].1), q, h, w)
        &&& cell_held(o1, w1, wall_cell(edges[t]), q, h, w)
    } by {
        let e = edges[t];
        lemma_within_coord_ok(seq![e.0, e.1], region);
        assert(seq![e.0, e.1][0] == e.0 && seq![e.0, e.1][1] == e.1);
        assert(region.contains(e.0) && region.contains(e.1) && adjacent(e.0, e.1));
        assert(!other.contains(e.0) && !other.contains(e.1));
        if in_bounds(gcell(e.0), h, w) {
            assert(grid_at(o0, gcell(e.0)));
        }
        if in_bounds(gcell(e.1), h, w) {
            assert(grid_at(o0, gcell(e.1)));
        }
        if in_bounds(wall_cell(e), h, w) {
            assert(grid_at(o0, wall_cell(e)));
            assert(grid_at(w1, wall_cell(e)) == grid_at(w0, wall_cell(e)));
        }
    }
}

/// Carving another route, in a region apart from route `q`'s, leaves what
/// route `q` holds on the layer.
proof fn lemma_held_on_layer_elsewhere(
    o0: Seq<Vec<bool>>,
    w0: Seq<Vec<usize>>,
    o1: Seq<Vec<bool>>,
    w1: Seq<Vec<usize>>,
    plan: RoutePlan,
    region: Seq<Cell>,
    tree: Seq<Edge>,
    other: Seq<Cell>,
    q: int,
    r: int,
    l: int,
    layers: int,
    h: int,
    w: int,
)
    requires
        held_on_layer(o0, w0, plan, region, tree, q, l, layers, h, w),
        carved_by(o0, w0, o1, w1, r, h, w),
        kept_outside(w0, w1, other, h, w),
        walls_kept_outside(w0, w1, other, h, w),
        plan_within(plan, region),
        edges_within(tree, region),
        all_coord_ok(region),
        forall|c: Cell| region.contains(c) ==> !other.contains(c),
    ensures
        held_on_layer(o1, w1, plan, region, tree, q, l, layers, h, w),
{
    if plan.vias@.len() == 0 {
        assert forall|i: int| 0 <= i < region.len() implies !other.contains(#[trigger] region[i]) by {
            assert(region.contains(region[i]));
        }
        lemma_held_by_elsewhere(o0, w0, o1, w1, region, other, q, r, h, w);
        lemma_edges_held_elsewhere(o0, w0, o1, w1, tree, region, other, q, r, h, w);
    } else {
        assert forall|k: int| 0 <= k < plan.pieces@.len() && piece_on_layer(k, l, layers) implies held_by(
            o1,
            w1,
            #[trigger] plan.pieces@[k]@,
            q,
            h,
            w,
        ) && edges_held(o1, w1, plan.piece_edges@[k]@, q, h, w) by {
            let s = plan.pieces@[k]@;
            assert(cells_within(s, region));
            lemma_within_coord_ok(s, region);
            assert forall|i: int| 0 <= i < s.len() implies !other.contains(#[trigger] s[i]) by {
                assert(region.contains(s[i]));
            }
            lemma_held_by_elsewhere(o0, w0, o1, w1, s, other, q, r, h, w);
            assert(edges_within(plan.piece_edges@[k]@, region));
            lemma_edges_held_elsewhere(o0, w0, o1, w1, plan.piece_edges@[k]@, region, other, q, r, h, w);
        }
    }
}

/// Drawing more path cells keeps the checkpoints drawn.
proof fn lemma_cps_drawn_grew(
    s0: Seq<Vec<bool>>,
    s1: Seq<Vec<bool>>,
    open: Seq<Vec<bool>>,
    owner: Seq<Vec<usize>>,
    plan: RoutePlan,
    r: int,
    l: int,
    layers: int,
    h: int,
    w: int,
)
    requires
        cps_drawn(s0, open, owner, plan, r, l, layers, h, w),
        sol_grew(s0, s1, h, w),
    ensures
        cps_drawn(s1, open, owner, plan, r, l, layers, h, w),
{
    if plan.vias@.len() == 0 && l == 0 && plan.checkpoints@[0]@.len() >= 2 {
        assert forall|i: int| 0 <= i < plan.checkpoints@[0]@.len() implies drawn(
            s1,
            open,
            owner,
            #[trigger] plan.checkpoints@[0]@[i],
            r,
            h,
            w,
        ) by {
            assert(drawn(s0, open, owner, plan.checkpoints@[0]@[i], r, h, w));
        }
    }
    if plan.vias@.len() > 0 {
        assert forall|k: int, i: int|
            0 <= k < plan.pieces@.len() && piece_on_layer(k, l, layers) && 0 <= i < plan.checkpoints@[k]@.len() implies drawn(
            s1,
            open,
            owner,
            #[trigger] plan.checkpoints@[k]@[i],
            r,
            h,
            w,
        ) by {
            assert(drawn(s0, open, owner, plan.checkpoints@[k]@[i], r, h, w));
        }
    }
}

/// Consecutive waypoints of every piece that route `r`'s plan puts on layer
/// `l` are linked by trails of the route in the layer's grids: for a route
/// without vias, the checkpoints of its only piece, on layer 0.
pub open spec fn route_linked_grid(
    sol: Seq<Vec<bool>>,
    owner: Seq<Vec<usize>>,
    plan: RoutePlan,
    r: int,
    l: int,
    layers: int,
    h: int,
    w: int,
) -> bool {
    forall|k: int, i: int|
        0 <= k < plan.pieces@.len() && (if plan.vias@.len() == 0 {
            l == 0
        } else {
            piece_on_layer(k, l, layers)
        }) && 0 <= i < waypoints(plan, k).len() - 1 ==> linked(
            sol,
            owner,
            gcell(#[trigger] waypoints(plan, k)[i]),
            gcell(waypoints(plan, k)[i + 1]),
            r,
            h,
            w,
        )
}

/// The cell `c` of a written layer is a path cell owned by route `r`.
pub open spec fn path_cell(sol: Seq<i8>, d: LayerRouteData, c: Cell, r: int, h: int, w: int) -> bool {
    &&& c.0 < h
    &&& c.1 < w
    &&& sol[flat(c.0 as int, c.1 as int, w)] == 1
    &&& d.route_owner@[flat(c.0 as int, c.1 as int, w)] == r as u8
}

/// `p` is a trail of route `r` in a written layer: path cells owned by `r`,
/// each 4-adjacent to the one before.
pub open spec fn flat_trail(sol: Seq<i8>, d: LayerRouteData, p: Seq<Cell>, r: int, h: int, w: int) -> bool {
    &&& p.len() >= 1
    &&& forall|i: int| 0 <= i < p.len() ==> path_cell(sol, d, #[trigger] p[i], r, h, w)
    &&& forall|i: int| 0 <= i < p.len() - 1 ==> #[trigger] adjacent(p[i], p[i + 1])
}

/// A trail of route `r` in a written layer leads from `a` to `b`.
pub open spec fn flat_linked(sol: Seq<i8>, d: LayerRouteData, a: Cell, b: Cell, r: int, h: int, w: int) -> bool {
    exists|p: Seq<Cell>| #[trigger] flat_trail(sol, d, p, r, h, w) && p[0] == a && p[p.len() - 1] == b
}

/// `route_linked_grid`, for a written layer.
pub open spec fn route_linked(
    sol: Seq<i8>,
    d: LayerRouteData,
    plan: RoutePlan,
    r: int,
    l: int,
    layers: int,
    h: int,
    w: int,
) -> bool {
    forall|k: int, i: int|
        0 <= k < plan.pieces@.len() && (if plan.vias@.len() == 0 {
            l == 0
        } else {
            piece_on_layer(k, l, layers)
        }) && 0 <= i < waypoints(plan, k).len() - 1 ==> flat_linked(
            sol,
            d,
            gcell(#[trigger] waypoints(plan, k)[i]),
            gcell(waypoints(plan, k)[i + 1]),
            r,
            h,
            w,
        )
}

proof fn lemma_route_linked_grid_grew(
    s0: Seq<Vec<bool>>,
    s1: Seq<Vec<bool>>,
    owner: Seq<Vec<usize>>,
    plan: RoutePlan,
    r: int,
    l: int,
    layers: int,
    h: int,
    w: int,
)
    requires
        route_linked_grid(s0, owner, plan, r, l, layers, h, w),
        sol_grew(s0, s1, h, w),
    ensures
        route_linked_grid(s1, owner, plan, r, l, layers, h, w),
{
    assert forall|k: int, i: int|
        0 <= k < plan.pieces@.len() && (if plan.vias@.len() == 0 {
            l == 0
        } else {
            piece_on_layer(k, l, layers)
        }) && 0 <= i < waypoints(plan, k).len() - 1 implies linked(
        s1,
        owner,
        gcell(#[trigger] waypoints(plan, k)[i]),
        gcell(waypoints(plan, k)[i + 1]),
        r,
        h,
        w,
    ) by {
        lemma_linked_grew(s0, s1, owner, gcell(waypoints(plan, k)[i]), gcell(waypoints(plan, k)[i + 1]), r, h, w);
    }
}

/// A trail in the layer's grids is a trail in the written layer.
proof fn lemma_linked_flat(
    sol: Seq<Vec<bool>>,
    open: Seq<Vec<bool>>,
    owner: Seq<Vec<usize>>,
    solflat: Seq<i8>,
    d: LayerRouteData,
    a: Cell,
    b: Cell,
    r: int,
    h: int,
    w: int,
    goals: int,
)
    requires
        linked(sol, owner, a, b, r, h, w),
        sol_ok(sol, open, owner, h, w, goals),
        forall|y: int, x: int|
            0 <= y < h && 0 <= x < w ==> #[trigger] solflat[flat(y, x, w)] == if grid_at(sol, (y as usize, x as usize)) {
                1i8
            } else {
                0i8
            },
        forall|y: int, x: int|
            0 <= y < h && 0 <= x < w ==> #[trigger] d.route_owner@[flat(y, x, w)] == if grid_at(
                open,
                (y as usize, x as usize),
            ) {
                grid_at(owner, (y as usize, x as usize)) as u8
            } else {
                goals as u8
            },
    ensures
        flat_linked(solflat, d, a, b, r, h, w),
{
    let p = choose|p: Seq<Cell>| #[trigger] trail(sol, owner, p, r, h, w) && p[0] == a && p[p.len() - 1] == b;
    assert forall|i: int| 0 <= i < p.len() implies path_cell(solflat, d, #[trigger] p[i], r, h, w) by {
        let c = p[i];
        assert(in_bounds(c, h, w) && grid_at(sol, c) && grid_at(owner, c) == r);
        assert((c.0 as int as usize, c.1 as int as usize) == c);
        assert(solflat[flat(c.0 as int, c.1 as int, w)] == 1i8);
        assert(grid_at(open, c));
        assert(d.route_owner@[flat(c.0 as int, c.1 as int, w)] == grid_at(owner, c) as u8);
    }
    assert(flat_trail(solflat, d, p, r, h, w));
}

/// What drawing a route's plan on layer `l` relies on: connected pieces,
/// waypoints on the pieces' cells or passages, the layer maze as the passages
/// of a route without vias on layer 0, and a region inside the grid.
pub open spec fn plan_drawable(plan: RoutePlan, tree: Seq<Edge>, l: int, region: Seq<Cell>, h: int, w: int) -> bool {
    &&& forall|k: int| 0 <= k < plan.pieces@.len() ==> #[trigger] piece_linked(plan, k)
    &&& forall|k: int, i: int|
        0 <= k < plan.pieces@.len() && 0 <= i < waypoints(plan, k).len() ==> wp_covered(
            plan,
            k,
            #[trigger] waypoints(plan, k)[i],
        )
    &&& l == 0 && plan.vias@.len() == 0 ==> plan.piece_edges@[0]@ == tree
    &&& region_fits(region, h, w)
}

/// The passages and waypoints of a piece on this layer are held by its route.
#[verifier::spinoff_prover]
proof fn lemma_waypoints_held(
    open: Seq<Vec<bool>>,
    owner: Seq<Vec<usize>>,
    plan: RoutePlan,
    region: Seq<Cell>,
    tree: Seq<Edge>,
    r: int,
    l: int,
    layers: int,
    k: int,
    h: int,
    w: int,
)
    requires
        held_on_layer(open, owner, plan, region, tree, r, l, layers, h, w),
        plan_within(plan, region),
        plan_drawable(plan, tree, l, region, h, w),
        0 <= k < plan.pieces@.len(),
        if plan.vias@.len() == 0 {
            l == 0
        } else {
            piece_on_layer(k, l, layers)
        },
    ensures
        edges_held(open, owner, plan.piece_edges@[k]@, r, h, w),
        forall|i: int|
            0 <= i < waypoints(plan, k).len() ==> cell_held(open, owner, gcell(#[trigger] waypoints(plan, k)[i]), r, h, w),
{
    let pe = plan.piece_edges@[k]@;
    if plan.vias@.len() == 0 {
        assert(k == 0);
        assert(pe == tree);
    } else {
        assert(piece_on_layer(k, l, layers));
        assert(plan.vias@.len() > 0 ==> forall|q: int|
            0 <= q < plan.pieces@.len() && piece_on_layer(q, l, layers) ==> held_by(
                open,
                owner,
                #[trigger] plan.pieces@[q]@,
                r,
                h,
                w,
            ) && edges_held(open, owner, plan.piece_edges@[q]@, r, h, w));
        assert(held_by(open, owner, plan.pieces@[k]@, r, h, w) && edges_held(open, owner, pe, r, h, w));
    }
    assert(edges_held(open, owner, pe, r, h, w));
    assert forall|i: int| 0 <= i < waypoints(plan, k).len() implies cell_held(
        open,
        owner,
        gcell(#[trigger] waypoints(plan, k)[i]),
        r,
        h,
        w,
    ) by {
        let c = waypoints(plan, k)[i];
        assert(wp_covered(plan, k, c));
        if plan.pieces@[k]@.contains(c) {
            let j = choose|j: int| 0 <= j < plan.pieces@[k]@.len() && plan.pieces@[k]@[j] == c;
            if plan.vias@.len() == 0 {
                assert(cells_within(plan.pieces@[k]@, region));
                assert(region.contains(c));
                let x = choose|x: int| 0 <= x < region.len() && region[x] == c;
                assert(held_by(open, owner, region, r, h, w));
                assert(in_bounds(gcell(region[x]), h, w) ==> grid_at(open, gcell(region[x])));
            } else {
                assert(held_by(open, owner, plan.pieces@[k]@, r, h, w));
                assert(in_bounds(gcell(plan.pieces@[k]@[j]), h, w) ==> grid_at(open, gcell(plan.pieces@[k]@[j])));
            }
        } else {
            let t = choose|t: int| 0 <= t < pe.len() && ((#[trigger] pe[t]).0 == c || pe[t].1 == c);
            assert(cell_held(open, owner, gcell(pe[t].0), r, h, w));
            assert(cell_held(open, owner, gcell(pe[t].1), r, h, w));
        }
    }
}

/// The grid cell of the maze cell `c` is open in the walls channel `chan` of
/// a grid `w` cells wide.
pub open spec fn maze_cell_open(chan: Seq<i8>, c: Cell, w: int) -> bool {
    chan[flat(gcell(c).0 as int, gcell(c).1 as int, w)] == 0
}

/// After a route is carved into a layer, the grid cell of every cell of its
/// region inside the maze is open, except at its vias.
proof fn lemma_region_open(
    open: Seq<Vec<bool>>,
    owner: Seq<Vec<usize>>,
    plan: RoutePlan,
    region: Seq<Cell>,
    tree: Seq<Edge>,
    r: int,
    l: int,
    layers: int,
    h: int,
    w: int,
    mh: int,
    mw: int,
)
    requires
        held_on_layer(open, owner, plan, region, tree, r, l, layers, h, w),
        forall|c: Cell|
            #[trigger] background_cell(plan, region, c, l, layers) && c.0 < mh && c.1 < mw && in_bounds(gcell(c), h, w)
                ==> grid_at(open, gcell(c)),
    ensures
        forall|c: Cell|
            #[trigger] region.contains(c) && !plan.vias@.contains(c) && c.0 < mh && c.1 < mw && in_bounds(gcell(c), h, w)
                ==> grid_at(open, gcell(c)),
{
    assert forall|c: Cell|
        #[trigger] region.contains(c) && !plan.vias@.contains(c) && c.0 < mh && c.1 < mw && in_bounds(gcell(c), h, w)
            implies grid_at(open, gcell(c)) by {
        if plan.vias@.len() == 0 {
            let i = region.index_of(c);
            assert(region[i] == c);
        } else if exists|k: int|
            0 <= k < plan.pieces@.len() && piece_on_layer(k, l, layers) && (#[trigger] plan.pieces@[k]@).contains(c) {
            let k = choose|k: int|
                0 <= k < plan.pieces@.len() && piece_on_layer(k, l, layers) && (#[trigger] plan.pieces@[k]@).contains(c);
            assert(held_by(open, owner, plan.pieces@[k]@, r, h, w));
            let i = plan.pieces@[k]@.index_of(c);
            assert(plan.pieces@[k]@[i] == c);
        } else {
            assert(background_cell(plan, region, c, l, layers));
        }
    }
}

/// In a drawn layer an open cell next to an open cell of a route belongs to
/// the same route: routes never touch each other, nor the unowned background.
proof fn lemma_open_separated(
    open: Seq<Vec<bool>>,
    owner: Seq<Vec<usize>>,
    walls: Seq<i8>,
    chans: Seq<i8>,
    owners: Seq<u8>,
    plans: Seq<RoutePlan>,
    regions: Seq<Vec<Cell>>,
    trees: Seq<Vec<Edge>>,
    l: int,
    layers: int,
    goals: int,
    h: int,
    w: int,
    p: Cell,
    q: Cell,
)
    requires
        goals < 256,
        plans.len() == goals,
        regions.len() == goals,
        pairwise_disjoint(cell_lists(regions)),
        forall|k: int| 0 <= k < goals ==> all_coord_ok(#[trigger] regions[k]@) && plan_within(plans[k], regions[k]@),
        carve_ok(open, owner, h, w, goals),
        owners_in_territory(owner, regions, goals, h, w),
        forall|y: int, x: int|
            0 <= y < h && 0 <= x < w ==> #[trigger] owners[flat(y, x, w)] == if grid_at(open, (y as usize, x as usize)) {
                grid_at(owner, (y as usize, x as usize)) as u8
            } else {
                goals as u8
            },
        forall|y: int, x: int|
            0 <= y < h && 0 <= x < w ==> #[trigger] walls[flat(y, x, w)] == if grid_at(open, (y as usize, x as usize)) {
                0i8
            } else {
                1i8
            },
        forall|i: int| 0 <= i < h * w ==> #[trigger] chans[i] == walls[i],
        forall|k: int, d: Cell|
            #![trigger grid_at(owner, d), plans[k]]
            0 <= k < goals && in_bounds(d, h, w) && grid_at(owner, d) == k ==> plans[k].vias@.len() > 0 ==> owned_by_piece(
                plans[k],
                d,
                l,
                layers,
            ),
        forall|d: Cell|
            in_bounds(d, h, w) && #[trigger] grid_at(open, d) && grid_at(owner, d) >= goals ==> exists|k: int|
                0 <= k < goals && #[trigger] bg_territory(plans[k], regions[k]@, l, layers, d),
        in_bounds(p, h, w),
        in_bounds(q, h, w),
        adjacent(p, q),
        chans[flat(p.0 as int, p.1 as int, w)] == 0,
        chans[flat(q.0 as int, q.1 as int, w)] == 0,
        owners[flat(p.0 as int, p.1 as int, w)] < goals,
    ensures
        owners[flat(q.0 as int, q.1 as int, w)] == owners[flat(p.0 as int, p.1 as int, w)],
{
    lemma_flat(p.0 as int, p.1 as int, h, w);
    lemma_flat(q.0 as int, q.1 as int, h, w);
    assert((p.0 as int as usize, p.1 as int as usize) == p);
    assert((q.0 as int as usize, q.1 as int as usize) == q);
    assert(grid_at(open, p));
    assert(grid_at(open, q));
    lemma_owner_cell(open, owner, owners, goals, h, w, p);
    let op = grid_at(owner, p) as int;
    assert(owners[flat(q.0 as int, q.1 as int, w)] == grid_at(owner, q) as u8);
    if grid_at(owner, q) < goals {
        let oq = grid_at(owner, q) as int;
        assert(in_territory(regions[op]@, p));
        assert(in_territory(regions[oq]@, q));
        let c = lemma_territory_meet(regions[op]@, regions[oq]@, p, q);
        if op != oq {
            assert(cell_lists(regions)[op] == regions[op]@);
            assert(cell_lists(regions)[oq] == regions[oq]@);
            assert(cell_lists(regions)[op].contains(c));
            assert(cell_lists(regions)[oq].contains(c));
        }
    } else {
        let k = choose|k: int| 0 <= k < goals && #[trigger] bg_territory(plans[k], regions[k]@, l, layers, q);
        let plan = plans[op];
        assert(plan_within(plan, regions[op]@));
        if plan.vias@.len() > 0 {
            assert(owned_by_piece(plan, p, l, layers));
            let j = choose|j: int| 0 <= j < plan.pieces@.len() && piece_on_layer(j, l, layers) && #[trigger] in_territory(piece_span(plan, j), p);
            lemma_within_coord_ok(plan.pieces@[j]@, regions[op]@);
            lemma_within_coord_ok(plan.vias@, regions[op]@);
            lemma_span_coord_ok(plan, j);
            let x = lemma_bg_meet(piece_span(plan, j), plans[k], regions[k]@, l, layers, p, q);
            let i = choose|i: int| 0 <= i < piece_span(plan, j).len() && piece_span(plan, j)[i] == x;
            if i < plan.pieces@[j]@.len() {
                assert(plan.pieces@[j]@.contains(x));
            } else {
                assert(plan.vias@.contains(plan.vias@[j]));
            }
            assert(regions[op]@.contains(x));
            assert(regions[k]@.contains(x));
            if k != op {
                assert(cell_lists(regions)[op] == regions[op]@);
                assert(cell_lists(regions)[k] == regions[k]@);
                assert(cell_lists(regions)[op].contains(x));
                assert(cell_lists(regions)[k].contains(x));
            }
        } else {
            assert(in_territory(regions[op]@, p));
            let x = lemma_bg_meet(regions[op]@, plans[k], regions[k]@, l, layers, p, q);
            if k != op {
                assert(cell_lists(regions)[op] == regions[op]@);
                assert(cell_lists(regions)[k] == regions[k]@);
                assert(cell_lists(regions)[op].contains(x));
                assert(cell_lists(regions)[k].contains(x));
            }
        }
    }
}

/// Piece `k` of route `plan` is drawn on layer `l`: the only piece of a route
/// without vias on layer 0, otherwise each piece on its own layer.
pub open spec fn drawn_here(plan: RoutePlan, k: int, l: int, layers: int) -> bool {
    if plan.vias@.len() == 0 {
        l == 0 && k == 0
    } else {
        piece_on_layer(k, l, layers)
    }
}

/// The grid cell `c`, if inside the grid, is open in the layer's wall channel
/// and owned by route `r`.
pub open spec fn open_owned(chans: Seq<i8>, d: LayerRouteData, c: Cell, r: int, h: int, w: int) -> bool {
    in_bounds(c, h, w) ==> chans[flat(c.0 as int, c.1 as int, w)] == 0 && d.route_owner@[flat(c.0 as int, c.1 as int, w)]
        == r as u8
}

/// Every passage of `edges`, its two cells and the wall between them, is
/// open in the layer and owned by route `r`.
pub open spec fn passages_open(chans: Seq<i8>, d: LayerRouteData, edges: Seq<Edge>, r: int, h: int, w: int) -> bool {
    forall|t: int|
        0 <= t < edges.len() ==> {
            &&& open_owned(chans, d, gcell((#[trigger] edges[t]).0), r, h, w)
            &&& open_owned(chans, d, gcell(edges[t].1), r, h, w)
            &&& open_owned(chans, d, wall_cell(edges[t]), r, h, w)
        }
}

/// Passages held by a route in the grids stay open and owned by it once the
/// layer is written out row by row.
proof fn lemma_passages_flat(
    open: Seq<Vec<bool>>,
    owner: Seq<Vec<usize>>,
    chans: Seq<i8>,
    walls: Seq<i8>,
    d: LayerRouteData,
    edges: Seq<Edge>,
    r: int,
    goals: int,
    h: int,
    w: int,
)
    requires
        edges_held(open, owner, edges, r, h, w),
        forall|i: int| 0 <= i < h * w ==> #[trigger] chans[i] == walls[i],
        forall|y: int, x: int|
            0 <= y < h && 0 <= x < w ==> #[trigger] walls[flat(y, x, w)] == if grid_at(open, (y as usize, x as usize)) {
                0i8
            } else {
                1i8
            },
        forall|y: int, x: int|
            0 <= y < h && 0 <= x < w ==> #[trigger] d.route_owner@[flat(y, x, w)] == if grid_at(
                open,
                (y as usize, x as usize),
            ) {
                grid_at(owner, (y as usize, x as usize)) as u8
            } else {
                goals as u8
            },
    ensures
        passages_open(chans, d, edges, r, h, w),
{
    assert forall|c: Cell| #[trigger] cell_held(open, owner, c, r, h, w) implies open_owned(chans, d, c, r, h, w) by {
        if in_bounds(c, h, w) {
            lemma_flat(c.0 as int, c.1 as int, h, w);
            assert(walls[flat(c.0 as int, c.1 as int, w)] == 0);
        }
    }
    assert forall|t: int| 0 <= t < edges.len() implies {
        &&& open_owned(chans, d, gcell((#[trigger] edges[t]).0), r, h, w)
        &&& open_owned(chans, d, gcell(edges[t].1), r, h, w)
        &&& open_owned(chans, d, wall_cell(edges[t]), r, h, w)
    } by {
        assert(cell_held(open, owner, gcell(edges[t].0), r, h, w));
        assert(cell_held(open, owner, gcell(edges[t].1), r, h, w));
        assert(cell_held(open, owner, wall_cell(edges[t]), r, h, w));
    }
}

/// Written out row by row, each path cell is owned by a route and lies on
/// that route's path.
proof fn lemma_flat_path_cells(
    sol: Seq<Vec<bool>>,
    open: Seq<Vec<bool>>,
    owner: Seq<Vec<usize>>,
    solflat: Seq<i8>,
    owners: Seq<u8>,
    plans: Seq<RoutePlan>,
    l: int,
    layers: int,
    goals: int,
    h: int,
    w: int,
)
    requires
        sol_ok(sol, open, owner, h, w, goals),
        forall|d: Cell|
            in_bounds(d, h, w) && #[trigger] grid_at(sol, d) ==> grid_at(owner, d) < goals && on_route_path(
                plans[grid_at(owner, d) as int],
                l,
                layers,
                d,
            ),
        forall|y: int, x: int|
            0 <= y < h && 0 <= x < w ==> #[trigger] solflat[flat(y, x, w)] == if grid_at(sol, (y as usize, x as usize)) {
                1i8
            } else {
                0i8
            },
        forall|y: int, x: int|
            0 <= y < h && 0 <= x < w ==> #[trigger] owners[flat(y, x, w)] == if grid_at(open, (y as usize, x as usize)) {
                grid_at(owner, (y as usize, x as usize)) as u8
            } else {
                goals as u8
            },
    ensures
        forall|y: int, x: int|
            0 <= y < h && 0 <= x < w && #[trigger] solflat[flat(y, x, w)] == 1 ==> exists|r: int|
                0 <= r < goals && owners[flat(y, x, w)] == r as u8 && #[trigger] on_route_path(
                    plans[r],
                    l,
                    layers,
                    (y as usize, x as usize),
                ),
{
    assert forall|y: int, x: int| 0 <= y < h && 0 <= x < w && #[trigger] solflat[flat(y, x, w)] == 1 implies exists|r: int|
        0 <= r < goals && owners[flat(y, x, w)] == r as u8 && #[trigger] on_route_path(
            plans[r],
            l,
            layers,
            (y as usize, x as usize),
        ) by {
        let d = (y as usize, x as usize);
        assert(grid_at(sol, d));
        assert(grid_at(open, d));
        let r = grid_at(owner, d) as int;
        assert(on_route_path(plans[r], l, layers, d));
    }
}

/// Builds layer `l` of the map: carves every route, draws the routes' paths,
/// lists and marks their checkpoints and vias, and writes the layer's
/// channels, solution and owners out row by row.
#[verifier::spinoff_prover]
#[verifier::rlimit(80)]
fn render_layer(
    l: usize,
    plans: &Vec<RoutePlan>,
    regions: &Vec<Vec<Cell>>,
    trees: &Vec<Vec<Edge>>,
    layers: usize,
    maze_h: usize,
    maze_w: usize,
    h: usize,
    w: usize,
    goals: usize,
) -> (res: (Vec<i8>, Vec<i8>, LayerRouteData))
    requires
        plans@.len() == goals,
        regions@.len() == goals,
        trees@.len() == goals,
        forall|r: int|
            0 <= r < goals ==> all_coord_ok(#[trigger] regions@[r]@) && plan_within(plans@[r], regions@[r]@)
                && edges_within(trees@[r]@, regions@[r]@),
        layers >= 1,
        (goals + 1) * (h * w) <= usize::MAX,
        forall|r: int|
            0 <= r < goals ==> plan_drawable(#[trigger] plans@[r], trees@[r]@, l as int, regions@[r]@, h as int, w as int),
        forall|r: int| 0 <= r < goals ==> spans_hold_edges(#[trigger] plans@[r]) && pieces_apart(plans@[r]),
    ensures
        goals < 256 && pairwise_disjoint(cell_lists(regions@)) ==> forall|p: Cell, q: Cell|
            in_bounds(p, h as int, w as int) && in_bounds(q, h as int, w as int) && adjacent(p, q) && res.0@[flat(
                p.0 as int,
                p.1 as int,
                w as int,
            )] == 0 && res.0@[flat(q.0 as int, q.1 as int, w as int)] == 0 && #[trigger] res.2.route_owner@[flat(
                p.0 as int,
                p.1 as int,
                w as int,
            )] < goals ==> #[trigger] res.2.route_owner@[flat(q.0 as int, q.1 as int, w as int)] == res.2.route_owner@[flat(
                p.0 as int,
                p.1 as int,
                w as int,
            )],
        forall|r: int, k: int, i: int|
            0 <= r < goals && 0 <= k < plans@[r].pieces@.len() && listed_here(plans@[r], k, l as int, layers as int) && 0 <= i
                < plans@[r].checkpoints@[k]@.len() ==> res.2.checkpoints@[r]@.contains(gcell(#[trigger] plans@[r].checkpoints@[k]@[i])),
        goals < 256 && pairwise_disjoint(cell_lists(regions@)) ==> forall|r: int, d: Cell|
            #![trigger res.2.route_owner@[flat(d.0 as int, d.1 as int, w as int)], plans@[r]]
            0 <= r < goals && in_bounds(d, h as int, w as int) && res.2.route_owner@[flat(d.0 as int, d.1 as int, w as int)]
                == r as u8 && plans@[r].vias@.len() > 0 ==> owned_by_piece(plans@[r], d, l as int, layers as int),
        layer_ok(res.0@, res.1@, res.2, goals as int, h as int, w as int),
        goals < 256 && pairwise_disjoint(cell_lists(regions@)) ==> forall|p: Cell, q: Cell|
            in_bounds(p, h as int, w as int) && in_bounds(q, h as int, w as int) && adjacent(p, q)
                && #[trigger] res.2.route_owner@[flat(p.0 as int, p.1 as int, w as int)] < goals
                && #[trigger] res.2.route_owner@[flat(q.0 as int, q.1 as int, w as int)] < goals
                ==> res.2.route_owner@[flat(p.0 as int, p.1 as int, w as int)] == res.2.route_owner@[flat(
                q.0 as int,
                q.1 as int,
                w as int,
            )],
        goals < 256 && pairwise_disjoint(cell_lists(regions@)) ==> forall|r: int, j: int|
            0 <= r < goals && 0 <= j < res.2.checkpoints@[r]@.len() ==> {
                let c = #[trigger] res.2.checkpoints@[r]@[j];
                &&& res.0@[flat(c.0 as int, c.1 as int, w as int)] == 0
                &&& res.2.route_owner@[flat(c.0 as int, c.1 as int, w as int)] == r as u8
            },
        goals < 256 && pairwise_disjoint(cell_lists(regions@)) ==> forall|r: int, j: int|
            0 <= r < goals && 0 <= j < res.2.vias@[r]@.len() ==> res.2.route_owner@[flat(
                (#[trigger] res.2.vias@[r]@[j]).0 as int,
                res.2.vias@[r]@[j].1 as int,
                w as int,
            )] == r as u8,
        forall|r: int| 0 <= r < goals ==> res.2.vias@[r]@.len() <= (#[trigger] plans@[r]).vias@.len(),
        forall|r: int, j: int|
            0 <= r < goals && 0 <= j < res.2.vias@[r]@.len() ==> via_here(
                plans@[r],
                l as int,
                layers as int,
                #[trigger] res.2.vias@[r]@[j],
            ),
        pairwise_disjoint(cell_lists(regions@)) ==> forall|r: int|
            0 <= r < goals ==> route_linked(res.1@, res.2, #[trigger] plans@[r], r, l as int, layers as int, h as int, w as int),
        forall|r: int, j: int|
            0 <= r < goals && 0 <= j < res.2.checkpoints@[r]@.len() ==> cp_here(
                plans@[r],
                l as int,
                layers as int,
                #[trigger] res.2.checkpoints@[r]@[j],
            ),
        forall|r: int|
            0 <= r < goals ==> res.2.checkpoints@[r]@.len() == layer_cps_count(
                #[trigger] plans@[r],
                l as int,
                layers as int,
                plans@[r].pieces@.len() as int,
            ),
        pairwise_disjoint(cell_lists(regions@)) ==> forall|r: int, k: int|
            0 <= r < goals && 0 <= k < plans@[r].vias@.len() && (k % (layers as int) == l || (k + 1) % (layers as int)
                == l) ==> res.2.vias@[r]@.contains(gcell(#[trigger] plans@[r].vias@[k])),
        pairwise_disjoint(cell_lists(regions@)) ==> forall|r: int, j: int|
            #![trigger res.2.checkpoints@[r]@[j]]
            0 <= r < goals && (plans@[r].vias@.len() > 0 || plans@[r].checkpoints@[0]@.len() >= 2) && 0 <= j
                < res.2.checkpoints@[r]@.len() ==> res.1@[flat(
                res.2.checkpoints@[r]@[j].0 as int,
                res.2.checkpoints@[r]@[j].1 as int,
                w as int,
            )] == 1,
        forall|r: int, c: Cell|
            0 <= r < goals && #[trigger] regions@[r]@.contains(c) && !plans@[r].vias@.contains(c) && c.0 < maze_h
                && c.1 < maze_w && in_bounds(gcell(c), h as int, w as int) ==> maze_cell_open(res.0@, c, w as int),
        marks_listed(res.0@, res.2, goals as int, h as int, w as int),
        pairwise_disjoint(cell_lists(regions@)) ==> forall|r: int, k: int|
            0 <= r < goals && 0 <= k < plans@[r].pieces@.len() && drawn_here(plans@[r], k, l as int, layers as int)
                ==> #[trigger] passages_open(res.0@, res.2, plans@[r].piece_edges@[k]@, r, h as int, w as int),
        forall|y: int, x: int|
            0 <= y < h && 0 <= x < w && #[trigger] res.1@[flat(y, x, w as int)] == 1 ==> exists|r: int|
                0 <= r < goals && res.2.route_owner@[flat(y, x, w as int)] == r as u8 && #[trigger] on_route_path(
                    plans@[r],
                    l as int,
                    layers as int,
                    (y as usize, x as usize),
                ),
{
    proof {
        assert(h * w <= (goals + 1) * (h * w)) by (nonlinear_arith)
            requires
                goals >= 0,
                h * w >= 0,
        ;
    }
    let ghost disj = pairwise_disjoint(cell_lists(regions@));
    let ghost hh = h as int;
    let ghost ww = w as int;
    let mut open = const_grid(h, w, false);
    let mut owner = const_grid(h, w, goals);
    let mut r: usize = 0;
    while r < goals
        invariant
            r <= goals,
            plans@.len() == goals,
            regions@.len() == goals,
            trees@.len() == goals,
            forall|q: int|
                0 <= q < goals ==> all_coord_ok(#[trigger] regions@[q]@) && plan_within(plans@[q], regions@[q]@)
                    && edges_within(trees@[q]@, regions@[q]@),
            layers >= 1,
            carve_ok(open@, owner@, h as int, w as int, goals as int),
            owners_in_territory(owner@, regions@, goals as int, h as int, w as int),
            disj == pairwise_disjoint(cell_lists(regions@)),
            hh == h,
            ww == w,
            disj ==> forall|q: int|
                0 <= q < r ==> held_on_layer(
                    open@,
                    owner@,
                    #[trigger] plans@[q],
                    regions@[q]@,
                    trees@[q]@,
                    q,
                    l as int,
                    layers as int,
                    hh,
                    ww,
                ),
            forall|q: int, c: Cell|
                0 <= q < r && #[trigger] regions@[q]@.contains(c) && !plans@[q].vias@.contains(c) && c.0 < maze_h
                    && c.1 < maze_w && in_bounds(gcell(c), hh, ww) ==> grid_at(open@, gcell(c)),
            forall|q: int| 0 <= q < goals ==> spans_hold_edges(#[trigger] plans@[q]) && pieces_apart(plans@[q]),
            forall|q: int, d: Cell|
                #![trigger grid_at(owner@, d), plans@[q]]
                0 <= q < goals && in_bounds(d, hh, ww) && grid_at(owner@, d) == q ==> q < r && (plans@[q].vias@.len()
                    > 0 ==> owned_by_piece(plans@[q], d, l as int, layers as int)),
            forall|d: Cell|
                in_bounds(d, hh, ww) && #[trigger] grid_at(open@, d) && grid_at(owner@, d) >= goals ==> exists|q: int|
                    0 <= q < r && #[trigger] bg_territory(plans@[q], regions@[q]@, l as int, layers as int, d),
        decreases goals - r,
    {
        proof {
            assert(all_coord_ok(regions@[r as int]@));
        }
        let ghost o1 = open@;
        let ghost w1 = owner@;
        carve_route(&mut open, &mut owner, l, r, &plans[r], &regions[r], &trees[r], layers, maze_h, maze_w, h, w, goals);
        proof {
            assert forall|d: Cell|
                in_bounds(d, hh, ww) && #[trigger] grid_at(owner@, d) < goals implies in_territory(
                regions@[grid_at(owner@, d) as int]@,
                d,
            ) by {
                if grid_at(owner@, d) != grid_at(w1, d) {
                    assert(grid_at(owner@, d) == r);
                    assert(in_territory(regions@[r as int]@, d));
                } else {
                    assert(grid_at(w1, d) < goals);
                }
            }
            lemma_region_open(open@, owner@, plans@[r as int], regions@[r as int]@, trees@[r as int]@, r as int, l as int, layers as int, hh, ww, maze_h as int, maze_w as int);
            assert forall|q: int, d: Cell|
                #![trigger grid_at(owner@, d), plans@[q]]
                0 <= q < goals && in_bounds(d, hh, ww) && grid_at(owner@, d) == q implies q < r + 1 && (plans@[q].vias@.len()
                    > 0 ==> owned_by_piece(plans@[q], d, l as int, layers as int)) by {
                if grid_at(owner@, d) != grid_at(w1, d) {
                    assert(grid_at(owner@, d) == r);
                    if grid_at(w1, d) == r {
                    }
                } else {
                    assert(grid_at(w1, d) == q);
                }
            }
            assert forall|d: Cell|
                in_bounds(d, hh, ww) && #[trigger] grid_at(open@, d) && grid_at(owner@, d) >= goals implies exists|q: int|
                    0 <= q < r + 1 && #[trigger] bg_territory(plans@[q], regions@[q]@, l as int, layers as int, d) by {
                if grid_at(o1, d) {
                    if grid_at(owner@, d) != grid_at(w1, d) {
                        assert(grid_at(owner@, d) == r);
                    }
                    let q = choose|q: int| 0 <= q < r && #[trigger] bg_territory(plans@[q], regions@[q]@, l as int, layers as int, d);
                    assert(bg_territory(plans@[q], regions@[q]@, l as int, layers as int, d));
                } else {
                    assert(bg_territory(plans@[r as int], regions@[r as int]@, l as int, layers as int, d));
                }
            }
            assert forall|q: int, c: Cell|
                0 <= q < r + 1 && #[trigger] regions@[q]@.contains(c) && !plans@[q].vias@.contains(c) && c.0 < maze_h
                    && c.1 < maze_w && in_bounds(gcell(c), hh, ww) implies grid_at(open@, gcell(c)) by {
                if q < r {
                    assert(grid_at(o1, gcell(c)));
                }
            }
            if disj {
                assert forall|q: int| 0 <= q < r + 1 implies held_on_layer(
                    open@,
                    owner@,
                    #[trigger] plans@[q],
                    regions@[q]@,
                    trees@[q]@,
                    q,
                    l as int,
                    layers as int,
                    hh,
                    ww,
                ) by {
                    if q < r {
                        assert forall|c: Cell| regions@[q]@.contains(c) implies !regions@[r as int]@.contains(c) by {
                            assert(cell_lists(regions@)[q] == regions@[q]@);
                            assert(cell_lists(regions@)[r as int] == regions@[r as int]@);
                            if regions@[r as int]@.contains(c) {
                                assert(cell_lists(regions@)[q].contains(c));
                                assert(cell_lists(regions@)[r as int].contains(c));
                            }
                        }
                        assert(all_coord_ok(regions@[q]@) && plan_within(plans@[q], regions@[q]@));
                        assert(edges_within(trees@[q]@, regions@[q]@));
                        lemma_held_on_layer_elsewhere(
                            o1,
                            w1,
                            open@,
                            owner@,
                            plans@[q],
                            regions@[q]@,
                            trees@[q]@,
                            regions@[r as int]@,
                            q,
                            r as int,
                            l as int,
                            layers as int,
                            hh,
                            ww,
                        );
                    }
                }
            }
        }
        r = r + 1;
    }
    let mut sol = const_grid(h, w, false);
    let mut r: usize = 0;
    while r < goals
        invariant
            r <= goals,
            plans@.len() == goals,
            regions@.len() == goals,
            forall|q: int|
                0 <= q < goals ==> all_coord_ok(#[trigger] regions@[q]@) && plan_within(plans@[q], regions@[q]@),
            layers >= 1,
            carve_ok(open@, owner@, h as int, w as int, goals as int),
            sol_ok(sol@, open@, owner@, h as int, w as int, goals as int),
            hh == h,
            ww == w,
            forall|d: Cell|
                in_bounds(d, hh, ww) && #[trigger] grid_at(sol@, d) ==> grid_at(owner@, d) < r && on_route_path(
                    plans@[grid_at(owner@, d) as int],
                    l as int,
                    layers as int,
                    d,
                ),
            forall|q: int|
                0 <= q < r ==> cps_drawn(
                    sol@,
                    open@,
                    owner@,
                    #[trigger] plans@[q],
                    q,
                    l as int,
                    layers as int,
                    hh,
                    ww,
                ),
            trees@.len() == goals,
            forall|q: int|
                0 <= q < goals ==> plan_drawable(#[trigger] plans@[q], trees@[q]@, l as int, regions@[q]@, hh, ww),
            disj == pairwise_disjoint(cell_lists(regions@)),
            disj ==> forall|q: int|
                0 <= q < goals ==> held_on_layer(
                    open@,
                    owner@,
                    #[trigger] plans@[q],
                    regions@[q]@,
                    trees@[q]@,
                    q,
                    l as int,
                    layers as int,
                    hh,
                    ww,
                ),
            disj ==> forall|q: int|
                0 <= q < r ==> route_linked_grid(sol@, owner@, #[trigger] plans@[q], q, l as int, layers as int, hh, ww),
        decreases goals - r,
    {
        let plan = &plans[r];
        proof {
            assert(all_coord_ok(regions@[r as int]@) && plan_within(*plan, regions@[r as int]@));
            assert(plan_drawable(plans@[r as int], trees@[r as int]@, l as int, regions@[r as int]@, hh, ww));
        }
        let ghost s0 = sol@;
        if plan.vias.len() == 0 {
            if l == 0 {
                draw_route_path(&mut sol, &open, &owner, &plan.checkpoints[0], &plan.piece_edges[0], &regions[r], r, h, w, goals);
                proof {
                    assert(waypoints(*plan, 0) =~= plan.checkpoints@[0]@);
                    lemma_piece_cells(s0, s0, sol@, owner@, *plan, 0, plan.checkpoints@[0]@, l as int, layers as int, r as int, hh, ww);
                    if disj {
                        assert(held_on_layer(open@, owner@, plans@[r as int], regions@[r as int]@, trees@[r as int]@, r as int, l as int, layers as int, hh, ww));
                        lemma_waypoints_held(open@, owner@, *plan, regions@[r as int]@, trees@[r as int]@, r as int, l as int, layers as int, 0, hh, ww);
                        assert(waypoints(*plan, 0) =~= plan.checkpoints@[0]@);
                        assert(piece_linked(*plan, 0));
                        assert forall|k: int, i: int|
                            0 <= k < plan.pieces@.len() && (if plan.vias@.len() == 0 {
                                l == 0
                            } else {
                                piece_on_layer(k, l as int, layers as int)
                            }) && 0 <= i < waypoints(*plan, k).len() - 1 implies linked(
                            sol@,
                            owner@,
                            gcell(#[trigger] waypoints(*plan, k)[i]),
                            gcell(waypoints(*plan, k)[i + 1]),
                            r as int,
                            hh,
                            ww,
                        ) by {
                            assert(k == 0);
                            assert(reachable(plan.piece_edges@[0]@, waypoints(*plan, 0)[i], waypoints(*plan, 0)[i + 1]));
                        }
                        assert(route_linked_grid(sol@, owner@, *plan, r as int, l as int, layers as int, hh, ww));
                    }
                }
            }
            proof {
                assert(cps_drawn(sol@, open@, owner@, plans@[r as int], r as int, l as int, layers as int, hh, ww));
                if disj && l != 0 {
                    assert(route_linked_grid(sol@, owner@, *plan, r as int, l as int, layers as int, hh, ww));
                }
            }
        } else {
            let np = plan.pieces.len();
            let mut k: usize = 0;
            while k < np
                invariant
                    k <= np,
                    np == plan.pieces@.len(),
                    r < goals,
                    regions@.len() == goals,
                    all_coord_ok(regions@[r as int]@),
                    plan_within(*plan, regions@[r as int]@),
                    plan.vias@.len() > 0,
                    layers >= 1,
                    carve_ok(open@, owner@, h as int, w as int, goals as int),
                    sol_ok(sol@, open@, owner@, h as int, w as int, goals as int),
                    sol_grew(s0, sol@, hh, ww),
                    hh == h,
                    ww == w,
                    forall|d: Cell|
                        in_bounds(d, hh, ww) && #[trigger] grid_at(sol@, d) && !grid_at(s0, d) ==> grid_at(owner@, d) == r
                            && on_route_path(*plan, l as int, layers as int, d),
                    forall|q: int, i: int|
                        0 <= q < k && piece_on_layer(q, l as int, layers as int) && 0 <= i < plan.checkpoints@[q]@.len()
                            ==> drawn(sol@, open@, owner@, #[trigger] plan.checkpoints@[q]@[i], r as int, hh, ww),
                    trees@.len() == goals,
                    plan_drawable(*plan, trees@[r as int]@, l as int, regions@[r as int]@, hh, ww),
                    disj ==> held_on_layer(open@, owner@, *plan, regions@[r as int]@, trees@[r as int]@, r as int, l as int, layers as int, hh, ww),
                    disj ==> forall|q: int, i: int|
                        0 <= q < k && piece_on_layer(q, l as int, layers as int) && 0 <= i < waypoints(*plan, q).len() - 1
                            ==> linked(
                            sol@,
                            owner@,
                            gcell(#[trigger] waypoints(*plan, q)[i]),
                            gcell(waypoints(*plan, q)[i + 1]),
                            r as int,
                            hh,
                            ww,
                        ),
                decreases np - k,
            {
                if k % layers == l {
                    assert(plan.piece_edges@.len() == np);
                    let wps = piece_waypoints(plan, k, Ghost(regions@[r as int]@));
                    let ghost s1 = sol@;
                    draw_route_path(&mut sol, &open, &owner, &wps, &plan.piece_edges[k], &regions[r], r, h, w, goals);
                    proof {
                        lemma_piece_cells(s0, s1, sol@, owner@, *plan, k as int, wps@, l as int, layers as int, r as int, hh, ww);
                        if disj {
                            lemma_waypoints_held(open@, owner@, *plan, regions@[r as int]@, trees@[r as int]@, r as int, l as int, layers as int, k as int, hh, ww);
                            assert(piece_linked(*plan, k as int));
                            assert forall|q: int, i: int|
                                0 <= q < k + 1 && piece_on_layer(q, l as int, layers as int) && 0 <= i < waypoints(*plan, q).len() - 1
                                    implies linked(
                                sol@,
                                owner@,
                                gcell(#[trigger] waypoints(*plan, q)[i]),
                                gcell(waypoints(*plan, q)[i + 1]),
                                r as int,
                                hh,
                                ww,
                            ) by {
                                if q < k {
                                    lemma_linked_grew(s1, sol@, owner@, gcell(waypoints(*plan, q)[i]), gcell(waypoints(*plan, q)[i + 1]), r as int, hh, ww);
                                } else {
                                    assert(reachable(plan.piece_edges@[k as int]@, waypoints(*plan, q)[i], waypoints(*plan, q)[i + 1]));
                                    assert(wps@[i] == waypoints(*plan, q)[i]);
                                    assert(reachable(plan.piece_edges@[k as int]@, wps@[i], wps@[i + 1]));
                                }
                            }
                        }
                    }
                    proof {
                        let off: int = if k > 0 { 1int } else { 0int };
                        assert forall|q: int, i: int|
                            0 <= q < k + 1 && piece_on_layer(q, l as int, layers as int) && 0 <= i
                                < plan.checkpoints@[q]@.len() implies drawn(
                            sol@,
                            open@,
                            owner@,
                            #[trigger] plan.checkpoints@[q]@[i],
                            r as int,
                            hh,
                            ww,
                        ) by {
                            if q < k {
                                assert(drawn(s1, open@, owner@, plan.checkpoints@[q]@[i], r as int, hh, ww));
                            } else {
                                assert(wps@.len() >= 2);
                                assert(wps@[off + i] == plan.checkpoints@[k as int]@[i]);
                                assert(drawn(sol@, open@, owner@, wps@[off + i], r as int, hh, ww));
                            }
                        }
                        assert forall|d: Cell| in_bounds(d, hh, ww) && #[trigger] grid_at(s0, d) implies grid_at(sol@, d) by {
                            assert(grid_at(s1, d));
                        }
                    }
                }
                k = k + 1;
            }
        }
        proof {
            assert(sol_grew(s0, sol@, hh, ww));
            lemma_path_cells_grew(s0, sol@, owner@, plans@, r as int, l as int, layers as int, hh, ww);
            assert forall|q: int| 0 <= q < r + 1 implies cps_drawn(
                sol@,
                open@,
                owner@,
                #[trigger] plans@[q],
                q,
                l as int,
                layers as int,
                hh,
                ww,
            ) by {
                if q < r {
                    lemma_cps_drawn_grew(s0, sol@, open@, owner@, plans@[q], q, l as int, layers as int, hh, ww);
                }
            }
            if disj {
                assert(route_linked_grid(sol@, owner@, plans@[r as int], r as int, l as int, layers as int, hh, ww));
                assert forall|q: int|
                    0 <= q < r + 1 implies route_linked_grid(sol@, owner@, #[trigger] plans@[q], q, l as int, layers as int, hh, ww) by {
                    if q < r {
                        lemma_route_linked_grid_grew(s0, sol@, owner@, plans@[q], q, l as int, layers as int, hh, ww);
                    }
                }
            }
        }
        r = r + 1;
    }
    let mut chans = flatten_flags(&open, h, w, 0, 1);
    let ghost walls = chans@;
    let solflat = flatten_flags(&sol, h, w, 1, 0);
    let owners = flatten_owner(&open, &owner, h, w, goals);
    let mut cp_lists: Vec<Vec<Cell>> = Vec::new();
    let mut via_lists: Vec<Vec<Cell>> = Vec::new();
    let ghost cs = (h * w) as int;
    assert(chans@.len() == cs);
    assert((0 + 1) * cs == cs) by (nonlinear_arith);
    let mut r: usize = 0;
    while r < goals
        invariant
            r <= goals,
            cs == h * w,
            plans@.len() == goals,
            regions@.len() == goals,
            forall|q: int|
                0 <= q < goals ==> all_coord_ok(#[trigger] regions@[q]@) && plan_within(plans@[q], regions@[q]@),
            layers >= 1,
            (goals + 1) * (h * w) <= usize::MAX,
            grid_shape(open@, h as int, w as int),
            walls.len() == cs,
            forall|y: int, x: int|
                0 <= y < h && 0 <= x < w ==> #[trigger] walls[flat(y, x, w as int)] == if grid_at(
                    open@,
                    (y as usize, x as usize),
                ) {
                    0i8
                } else {
                    1i8
                },
            chans@.len() == (r + 1) * cs,
            forall|i: int| 0 <= i < cs ==> #[trigger] chans@[i] == walls[i],
            forall|q: int, y: int, x: int|
                0 <= q < r && 0 <= y < h && 0 <= x < w && #[trigger] chan_at(chans@, q, h as int, w as int, y, x) == 1
                    ==> cp_lists@[q]@.contains((y as usize, x as usize)) || via_lists@[q]@.contains((y as usize, x as usize)),
            forall|i: int| 0 <= i < chans@.len() ==> #[trigger] chans@[i] == 0 || chans@[i] == 1,
            cp_lists@.len() == r,
            via_lists@.len() == r,
            forall|q: int, k: int, i: int|
                0 <= q < r && 0 <= k < plans@[q].pieces@.len() && listed_here(plans@[q], k, l as int, layers as int) && 0 <= i
                    < plans@[q].checkpoints@[k]@.len() ==> cp_lists@[q]@.contains(gcell(#[trigger] plans@[q].checkpoints@[k]@[i])),
            forall|q: int, j: int|
                0 <= q < r && 0 <= j < cp_lists@[q]@.len() ==> {
                    let c = #[trigger] cp_lists@[q]@[j];
                    &&& c.0 < h
                    &&& c.1 < w
                    &&& chans@[(q + 1) * cs + flat(c.0 as int, c.1 as int, w as int)] == 1
                },
            forall|q: int, j: int|
                0 <= q < r && 0 <= j < via_lists@[q]@.len() ==> {
                    let c = #[trigger] via_lists@[q]@[j];
                    &&& c.0 < h
                    &&& c.1 < w
                    &&& chans@[(q + 1) * cs + flat(c.0 as int, c.1 as int, w as int)] == 1
                    &&& grid_at(open@, c)
                },
            forall|q: int| 0 <= q < r ==> via_lists@[q]@.len() <= (#[trigger] plans@[q]).vias@.len(),
            forall|q: int, j: int|
                0 <= q < r && 0 <= j < via_lists@[q]@.len() ==> via_here(
                    plans@[q],
                    l as int,
                    layers as int,
                    #[trigger] via_lists@[q]@[j],
                ),
            forall|q: int, j: int|
                0 <= q < r && 0 <= j < cp_lists@[q]@.len() ==> cp_here(
                    plans@[q],
                    l as int,
                    layers as int,
                    #[trigger] cp_lists@[q]@[j],
                ),
            forall|q: int, k: int|
                0 <= q < r && 0 <= k < plans@[q].vias@.len() && (k % (layers as int) == l || (k + 1) % (layers as int)
                    == l) && in_bounds(gcell(#[trigger] plans@[q].vias@[k]), h as int, w as int) && grid_at(
                    open@,
                    gcell(plans@[q].vias@[k]),
                ) ==> via_lists@[q]@.contains(gcell(plans@[q].vias@[k])),
            forall|q: int|
                0 <= q < r ==> cp_lists@[q]@.len() == layer_cps_count(
                    #[trigger] plans@[q],
                    l as int,
                    layers as int,
                    plans@[q].pieces@.len() as int,
                ),
            forall|q: int|
                0 <= q < goals ==> plan_drawable(#[trigger] plans@[q], trees@[q]@, l as int, regions@[q]@, h as int, w as int),
            trees@.len() == goals,
        decreases goals - r,
    {
        proof {
            assert(all_coord_ok(regions@[r as int]@) && plan_within(plans@[r as int], regions@[r as int]@));
            assert((r + 2) * cs <= (goals + 1) * cs) by (nonlinear_arith)
                requires
                    r < goals,
                    cs >= 0,
            ;
            assert((r + 1) * cs + cs == (r + 2) * cs) by (nonlinear_arith);
            assert(cs <= (r + 1) * cs) by (nonlinear_arith)
                requires
                    cs >= 0,
            ;
        }
        proof {
            let plan = plans@[r as int];
            assert(plan_drawable(plan, trees@[r as int]@, l as int, regions@[r as int]@, h as int, w as int));
            assert(region_fits(regions@[r as int]@, h as int, w as int));
            assert forall|k: int, i: int|
                0 <= k < plan.pieces@.len() && 0 <= i < plan.checkpoints@[k]@.len() implies in_bounds(
                gcell(#[trigger] plan.checkpoints@[k]@[i]),
                h as int,
                w as int,
            ) by {
                assert(cells_within(plan.checkpoints@[k]@, regions@[r as int]@));
                assert(regions@[r as int]@.contains(plan.checkpoints@[k]@[i]));
                let x = choose|x: int| 0 <= x < regions@[r as int]@.len() && regions@[r as int]@[x] == plan.checkpoints@[k]@[i];
                assert(in_bounds(gcell(regions@[r as int]@[x]), h as int, w as int));
            }
            assert(cps_fit(plan, h as int, w as int));
        }
        let mut cpg = const_grid(h, w, false);
        let (cl, vl) = list_route_marks(&mut cpg, &open, l, &plans[r], Ghost(regions@[r as int]@), layers, h, w);
        let mut cpflat = flatten_flags(&cpg, h, w, 1, 0);
        let ghost c0 = chans@;
        let ghost cf = cpflat@;
        chans.append(&mut cpflat);
        let ghost cl0 = cp_lists@;
        let ghost vl0 = via_lists@;
        cp_lists.push(cl);
        via_lists.push(vl);
        proof {
            assert forall|q: int, y: int, x: int|
                0 <= q < r + 1 && 0 <= y < h && 0 <= x < w && #[trigger] chan_at(chans@, q, h as int, w as int, y, x) == 1
                    implies cp_lists@[q]@.contains((y as usize, x as usize)) || via_lists@[q]@.contains((y as usize, x as usize)) by {
                let f = flat(y, x, w as int);
                lemma_flat(y, x, h as int, w as int);
                if q < r {
                    lemma_block_index(q, r + 1, f, cs);
                    assert(chans@[(q + 1) * cs + f] == c0[(q + 1) * cs + f]);
                    assert(chan_at(c0, q, h as int, w as int, y, x) == 1);
                    assert(cp_lists@[q] == cl0[q]);
                    assert(via_lists@[q] == vl0[q]);
                } else {
                    assert(chans@[(q + 1) * cs + f] == cf[f]);
                    assert(grid_at(cpg@, (y as usize, x as usize)));
                    assert(cp_lists@[q]@ == cl@);
                    assert(via_lists@[q]@ == vl@);
                }
            }
        }
        proof {
            assert forall|q: int, k: int, i: int|
                0 <= q < r + 1 && 0 <= k < plans@[q].pieces@.len() && listed_here(plans@[q], k, l as int, layers as int) && 0 <= i
                    < plans@[q].checkpoints@[k]@.len() implies cp_lists@[q]@.contains(gcell(#[trigger] plans@[q].checkpoints@[k]@[i])) by {
                if q < r {
                    assert(cp_lists@[q] == cl0[q]);
                } else {
                    assert(cp_lists@[q]@ == cl@);
                    assert(in_bounds(gcell(plans@[q].checkpoints@[k]@[i]), h as int, w as int));
                }
            }
            assert(chans@ == c0 + cf);
            assert forall|i: int| 0 <= i < cs implies #[trigger] chans@[i] == walls[i] by {
                assert(chans@[i] == c0[i]);
            }
            assert forall|i: int| 0 <= i < chans@.len() implies #[trigger] chans@[i] == 0 || chans@[i] == 1 by {
                if i < c0.len() {
                    assert(chans@[i] == c0[i]);
                } else {
                    assert(chans@[i] == cf[i - c0.len()]);
                }
            }
            assert forall|q: int, j: int|
                0 <= q < r + 1 && 0 <= j < cp_lists@[q]@.len() implies {
                    let c = #[trigger] cp_lists@[q]@[j];
                    &&& c.0 < h
                    &&& c.1 < w
                    &&& chans@[(q + 1) * cs + flat(c.0 as int, c.1 as int, w as int)] == 1
                } by {
                let c = cp_lists@[q]@[j];
                if q < r {
                    assert(cp_lists@[q] == cl0[q]);
                    lemma_flat(c.0 as int, c.1 as int, h as int, w as int);
                    lemma_block_index(q, r + 1, flat(c.0 as int, c.1 as int, w as int), cs);
                    assert(chans@[(q + 1) * cs + flat(c.0 as int, c.1 as int, w as int)] == c0[(q + 1) * cs + flat(c.0 as int, c.1 as int, w as int)]);
                } else {
                    assert(cp_lists@[q]@ == cl@);
                    lemma_flat(c.0 as int, c.1 as int, h as int, w as int);
                    assert(cf[flat(c.0 as int, c.1 as int, w as int)] == 1i8);
                }
            }
            assert forall|q: int, j: int|
                0 <= q < r + 1 && 0 <= j < via_lists@[q]@.len() implies {
                    let c = #[trigger] via_lists@[q]@[j];
                    &&& c.0 < h
                    &&& c.1 < w
                    &&& chans@[(q + 1) * cs + flat(c.0 as int, c.1 as int, w as int)] == 1
                    &&& grid_at(open@, c)
                } by {
                let c = via_lists@[q]@[j];
                if q < r {
                    assert(via_lists@[q] == vl0[q]);
                    lemma_flat(c.0 as int, c.1 as int, h as int, w as int);
                    lemma_block_index(q, r + 1, flat(c.0 as int, c.1 as int, w as int), cs);
                    assert(chans@[(q + 1) * cs + flat(c.0 as int, c.1 as int, w as int)] == c0[(q + 1) * cs + flat(c.0 as int, c.1 as int, w as int)]);
                } else {
                    assert(via_lists@[q]@ == vl@);
                    lemma_flat(c.0 as int, c.1 as int, h as int, w as int);
                    assert(cf[flat(c.0 as int, c.1 as int, w as int)] == 1i8);
                }
            }
            assert forall|q: int| 0 <= q < r + 1 implies via_lists@[q]@.len() <= (#[trigger] plans@[q]).vias@.len() by {
                if q < r {
                    assert(via_lists@[q] == vl0[q]);
                }
            }
            assert forall|q: int, j: int|
                0 <= q < r + 1 && 0 <= j < via_lists@[q]@.len() implies via_here(
                plans@[q],
                l as int,
                layers as int,
                #[trigger] via_lists@[q]@[j],
            ) by {
                if q < r {
                    assert(via_lists@[q] == vl0[q]);
                } else {
                    assert(via_lists@[q]@ == vl@);
                }
            }
            assert forall|q: int, j: int|
                0 <= q < r + 1 && 0 <= j < cp_lists@[q]@.len() implies cp_here(
                plans@[q],
                l as int,
                layers as int,
                #[trigger] cp_lists@[q]@[j],
            ) by {
                if q < r {
                    assert(cp_lists@[q] == cl0[q]);
                } else {
                    assert(cp_lists@[q]@ == cl@);
                }
            }
            assert forall|q: int, k: int|
                0 <= q < r + 1 && 0 <= k < plans@[q].vias@.len() && (k % (layers as int) == l || (k + 1) % (layers as int)
                    == l) && in_bounds(gcell(#[trigger] plans@[q].vias@[k]), h as int, w as int) && grid_at(
                    open@,
                    gcell(plans@[q].vias@[k]),
                ) implies via_lists@[q]@.contains(gcell(plans@[q].vias@[k])) by {
                if q < r {
                    assert(via_lists@[q] == vl0[q]);
                } else {
                    assert(via_lists@[q]@ == vl@);
                }
            }
            assert forall|q: int|
                0 <= q < r + 1 implies cp_lists@[q]@.len() == layer_cps_count(
                #[trigger] plans@[q],
                l as int,
                layers as int,
                plans@[q].pieces@.len() as int,
            ) by {
                if q < r {
                    assert(cp_lists@[q] == cl0[q]);
                } else {
                    assert(cp_lists@[q]@ == cl@);
                }
            }
        }
        r = r + 1;
    }
    let data = LayerRouteData { route_owner: owners, checkpoints: cp_lists, vias: via_lists };
    proof {
        if goals < 256 && disj {
            assert forall|p: Cell, q: Cell|
                in_bounds(p, hh, ww) && in_bounds(q, hh, ww) && adjacent(p, q) && chans@[flat(p.0 as int, p.1 as int, ww)] == 0
                    && chans@[flat(q.0 as int, q.1 as int, ww)] == 0 && #[trigger] data.route_owner@[flat(p.0 as int, p.1 as int, ww)]
                    < goals implies #[trigger] data.route_owner@[flat(q.0 as int, q.1 as int, ww)] == data.route_owner@[flat(
                p.0 as int,
                p.1 as int,
                ww,
            )] by {
                lemma_open_separated(open@, owner@, walls, chans@, owners@, plans@, regions@, trees@, l as int, layers as int, goals as int, hh, ww, p, q);
            }
        }
        if goals < 256 && disj {
            assert forall|q: int, d: Cell|
                #![trigger data.route_owner@[flat(d.0 as int, d.1 as int, ww)], plans@[q]]
                0 <= q < goals && in_bounds(d, hh, ww) && data.route_owner@[flat(d.0 as int, d.1 as int, ww)]
                    == q as u8 && plans@[q].vias@.len() > 0 implies owned_by_piece(plans@[q], d, l as int, layers as int) by {
                lemma_owner_cell(open@, owner@, owners@, goals as int, hh, ww, d);
                assert(grid_at(owner@, d) == q);
            }
        }
        assert forall|q: int, c: Cell|
            0 <= q < goals && #[trigger] regions@[q]@.contains(c) && !plans@[q].vias@.contains(c) && c.0 < maze_h
                && c.1 < maze_w && in_bounds(gcell(c), hh, ww) implies maze_cell_open(chans@, c, ww) by {
            let d = gcell(c);
            assert(grid_at(open@, d));
            lemma_flat(d.0 as int, d.1 as int, hh, ww);
            assert(walls[flat(d.0 as int, d.1 as int, ww)] == 0i8);
            assert(chans@[flat(d.0 as int, d.1 as int, ww)] == walls[flat(d.0 as int, d.1 as int, ww)]);
        }
        if disj && goals < 256 {
            assert forall|q: int, j: int| 0 <= q < goals && 0 <= j < data.checkpoints@[q]@.len() implies {
                let c = #[trigger] data.checkpoints@[q]@[j];
                &&& chans@[flat(c.0 as int, c.1 as int, ww)] == 0
                &&& data.route_owner@[flat(c.0 as int, c.1 as int, ww)] == q as u8
            } by {
                let c = data.checkpoints@[q]@[j];
                let plan = plans@[q];
                assert(plan_within(plan, regions@[q]@));
                assert(plan_drawable(plan, trees@[q]@, l as int, regions@[q]@, hh, ww));
                assert(held_on_layer(open@, owner@, plan, regions@[q]@, trees@[q]@, q, l as int, layers as int, hh, ww));
                let (k, i) = crate::connect::lemma_cp_stop(plan, l as int, layers as int, c);
                lemma_waypoints_held(open@, owner@, plan, regions@[q]@, trees@[q]@, q, l as int, layers as int, k, hh, ww);
                assert(cell_held(open@, owner@, gcell(waypoints(plan, k)[i]), q, hh, ww));
                assert(c.0 < h && c.1 < w);
                lemma_held_flat(open@, owner@, walls, owners@, goals as int, hh, ww, c, q);
                lemma_flat(c.0 as int, c.1 as int, hh, ww);
                assert(chans@[flat(c.0 as int, c.1 as int, ww)] == walls[flat(c.0 as int, c.1 as int, ww)]);
            }
            assert forall|q: int, j: int| 0 <= q < goals && 0 <= j < data.vias@[q]@.len() implies data.route_owner@[flat(
                (#[trigger] data.vias@[q]@[j]).0 as int,
                data.vias@[q]@[j].1 as int,
                ww,
            )] == q as u8 by {
                let c = data.vias@[q]@[j];
                let plan = plans@[q];
                assert(plan_within(plan, regions@[q]@));
                assert(plan_drawable(plan, trees@[q]@, l as int, regions@[q]@, hh, ww));
                assert(held_on_layer(open@, owner@, plan, regions@[q]@, trees@[q]@, q, l as int, layers as int, hh, ww));
                let (k, i) = crate::connect::lemma_via_stop(plan, l as int, layers as int, c);
                lemma_waypoints_held(open@, owner@, plan, regions@[q]@, trees@[q]@, q, l as int, layers as int, k, hh, ww);
                assert(cell_held(open@, owner@, gcell(waypoints(plan, k)[i]), q, hh, ww));
                assert(c.0 < h && c.1 < w);
                lemma_held_flat(open@, owner@, walls, owners@, goals as int, hh, ww, c, q);
            }
        }
        if disj && goals < 256 {
            assert forall|p: Cell, q: Cell|
                in_bounds(p, hh, ww) && in_bounds(q, hh, ww) && adjacent(p, q)
                    && #[trigger] data.route_owner@[flat(p.0 as int, p.1 as int, ww)] < goals
                    && #[trigger] data.route_owner@[flat(q.0 as int, q.1 as int, ww)] < goals
                    implies data.route_owner@[flat(p.0 as int, p.1 as int, ww)] == data.route_owner@[flat(
                q.0 as int,
                q.1 as int,
                ww,
            )] by {
                lemma_owner_cell(open@, owner@, owners@, goals as int, hh, ww, p);
                lemma_owner_cell(open@, owner@, owners@, goals as int, hh, ww, q);
                let op = grid_at(owner@, p) as int;
                let oq = grid_at(owner@, q) as int;
                assert(in_territory(regions@[op]@, p));
                assert(in_territory(regions@[oq]@, q));
                let c = lemma_territory_meet(regions@[op]@, regions@[oq]@, p, q);
                if op != oq {
                    assert(cell_lists(regions@)[op] == regions@[op]@);
                    assert(cell_lists(regions@)[oq] == regions@[oq]@);
                    assert(cell_lists(regions@)[op].contains(c));
                    assert(cell_lists(regions@)[oq].contains(c));
                }
            }
        }
        if disj {
            assert forall|q: int, k: int|
                0 <= q < goals && 0 <= k < plans@[q].vias@.len() && (k % (layers as int) == l || (k + 1) % (layers as int)
                    == l) implies data.vias@[q]@.contains(gcell(#[trigger] plans@[q].vias@[k])) by {
                let plan = plans@[q];
                let v = plan.vias@[k];
                assert(plan_within(plan, regions@[q]@));
                assert(plan_drawable(plan, trees@[q]@, l as int, regions@[q]@, hh, ww));
                assert(held_on_layer(open@, owner@, plan, regions@[q]@, trees@[q]@, q, l as int, layers as int, hh, ww));
                assert(regions@[q]@.contains(v));
                let x = choose|x: int| 0 <= x < regions@[q]@.len() && regions@[q]@[x] == v;
                assert(region_fits(regions@[q]@, hh, ww));
                assert(in_bounds(gcell(regions@[q]@[x]), hh, ww));
                if k % (layers as int) == l {
                    lemma_waypoints_held(open@, owner@, plan, regions@[q]@, trees@[q]@, q, l as int, layers as int, k, hh, ww);
                    let wk = waypoints(plan, k);
                    assert(wk[wk.len() - 1] == v);
                    assert(cell_held(open@, owner@, gcell(wk[wk.len() - 1]), q, hh, ww));
                } else {
                    lemma_waypoints_held(open@, owner@, plan, regions@[q]@, trees@[q]@, q, l as int, layers as int, k + 1, hh, ww);
                    let wk = waypoints(plan, k + 1);
                    assert(wk[0] == v);
                    assert(cell_held(open@, owner@, gcell(wk[0]), q, hh, ww));
                }
                assert(grid_at(open@, gcell(v)));
                assert(via_lists@[q]@.contains(gcell(v)));
            }
            assert forall|q: int| 0 <= q < goals implies route_linked(
                solflat@,
                data,
                #[trigger] plans@[q],
                q,
                l as int,
                layers as int,
                hh,
                ww,
            ) by {
                let plan = plans@[q];
                assert(route_linked_grid(sol@, owner@, plan, q, l as int, layers as int, hh, ww));
                assert forall|k: int, i: int|
                    0 <= k < plan.pieces@.len() && (if plan.vias@.len() == 0 {
                        l == 0
                    } else {
                        piece_on_layer(k, l as int, layers as int)
                    }) && 0 <= i < waypoints(plan, k).len() - 1 implies flat_linked(
                    solflat@,
                    data,
                    gcell(#[trigger] waypoints(plan, k)[i]),
                    gcell(waypoints(plan, k)[i + 1]),
                    q,
                    hh,
                    ww,
                ) by {
                    lemma_linked_flat(
                        sol@,
                        open@,
                        owner@,
                        solflat@,
                        data,
                        gcell(waypoints(plan, k)[i]),
                        gcell(waypoints(plan, k)[i + 1]),
                        q,
                        hh,
                        ww,
                        goals as int,
                    );
                }
            }
            assert forall|q: int, j: int|
                #![trigger data.checkpoints@[q]@[j]]
                0 <= q < goals && (plans@[q].vias@.len() > 0 || plans@[q].checkpoints@[0]@.len() >= 2) && 0 <= j
                    < data.checkpoints@[q]@.len() implies solflat@[flat(
                data.checkpoints@[q]@[j].0 as int,
                data.checkpoints@[q]@[j].1 as int,
                w as int,
            )] == 1 by {
                let c = data.checkpoints@[q]@[j];
                let plan = plans@[q];
                assert(cp_here(plan, l as int, layers as int, c));
                let (k, i) = choose|k: int, i: int|
                    0 <= k < plan.pieces@.len() && (if plan.vias@.len() == 0 {
                        l == 0
                    } else {
                        piece_on_layer(k, l as int, layers as int)
                    }) && 0 <= i < plan.checkpoints@[k]@.len() && c == gcell(#[trigger] plan.checkpoints@[k]@[i]);
                let cp = plan.checkpoints@[k]@[i];
                assert(all_coord_ok(regions@[q]@) && plan_within(plan, regions@[q]@));
                assert(in_bounds(c, hh, ww));
                assert(held_on_layer(open@, owner@, plan, regions@[q]@, trees@[q]@, q, l as int, layers as int, hh, ww));
                assert(cps_drawn(sol@, open@, owner@, plan, q, l as int, layers as int, hh, ww));
                if plan.vias@.len() == 0 {
                    assert(k == 0);
                    assert(regions@[q]@.contains(cp));
                    let idx = choose|idx: int| 0 <= idx < regions@[q]@.len() && regions@[q]@[idx] == cp;
                    assert(held_by(open@, owner@, regions@[q]@, q, hh, ww));
                    assert(grid_at(open@, gcell(regions@[q]@[idx])));
                    assert(drawn(sol@, open@, owner@, plan.checkpoints@[0]@[i], q, hh, ww));
                } else {
                    assert(cells_within(plan.checkpoints@[k]@, plan.pieces@[k]@));
                    assert(plan.pieces@[k]@.contains(cp));
                    let idx = choose|idx: int| 0 <= idx < plan.pieces@[k]@.len() && plan.pieces@[k]@[idx] == cp;
                    assert(held_by(open@, owner@, plan.pieces@[k]@, q, hh, ww));
                    assert(grid_at(open@, gcell(plan.pieces@[k]@[idx])));
                    assert(drawn(sol@, open@, owner@, plan.checkpoints@[k]@[i], q, hh, ww));
                }
                assert(grid_at(sol@, c));
                lemma_flat(c.0 as int, c.1 as int, hh, ww);
                assert(solflat@[flat(c.0 as int, c.1 as int, w as int)] == 1i8);
            }
        }
        assert forall|y: int, x: int|
            0 <= y < h && 0 <= x < w && #[trigger] solflat@[flat(y, x, w as int)] == 1 implies chans@[flat(y, x, w as int)] == 0
                && data.route_owner@[flat(y, x, w as int)] < goals by {
            let c = (y as usize, x as usize);
            lemma_flat(y, x, h as int, w as int);
            assert(grid_at(sol@, c));
            assert(grid_at(open@, c) && grid_at(owner@, c) < goals);
            lemma_truncate_le(grid_at(owner@, c));
        }
        assert forall|y: int, x: int|
            0 <= y < h && 0 <= x < w && #[trigger] chans@[flat(y, x, w as int)] == 1 implies data.route_owner@[flat(
                y,
                x,
                w as int,
            )] == goals as u8 by {
            let c = (y as usize, x as usize);
            lemma_flat(y, x, h as int, w as int);
            assert(walls[flat(y, x, w as int)] == 1);
            assert(!grid_at(open@, c));
        }
        assert forall|q: int, j: int|
            0 <= q < goals && 0 <= j < data.vias@[q]@.len() implies {
                let c = #[trigger] data.vias@[q]@[j];
                &&& c.0 < h
                &&& c.1 < w
                &&& chans@[(q + 1) * (h * w) + flat(c.0 as int, c.1 as int, w as int)] == 1
                &&& chans@[flat(c.0 as int, c.1 as int, w as int)] == 0
            } by {
            let c = data.vias@[q]@[j];
            lemma_flat(c.0 as int, c.1 as int, h as int, w as int);
            assert(grid_at(open@, c));
            assert(walls[flat(c.0 as int, c.1 as int, w as int)] == 0);
        }
    }
    proof {
        lemma_flat_path_cells(sol@, open@, owner@, solflat@, data.route_owner@, plans@, l as int, layers as int, goals as int, hh, ww);
        assert(marks_listed(chans@, data, goals as int, hh, ww));
        if disj {
            assert forall|r: int, k: int|
                0 <= r < goals && 0 <= k < plans@[r].pieces@.len() && drawn_here(plans@[r], k, l as int, layers as int)
                    implies #[trigger] passages_open(chans@, data, plans@[r].piece_edges@[k]@, r, hh, ww) by {
                assert(plan_within(plans@[r], regions@[r]@));
                assert(plan_drawable(plans@[r], trees@[r]@, l as int, regions@[r]@, hh, ww));
                assert(held_on_layer(open@, owner@, plans@[r], regions@[r]@, trees@[r]@, r, l as int, layers as int, hh, ww));
                lemma_waypoints_held(open@, owner@, plans@[r], regions@[r]@, trees@[r]@, r, l as int, layers as int, k, hh, ww);
                lemma_passages_flat(open@, owner@, chans@, walls, data, plans@[r].piece_edges@[k]@, r, goals as int, hh, ww);
            }
        }
    }
    (chans, solflat, data)
}


/// The map is too small for the routes asked for: fewer lattice cells than
/// checkpoints in all, or no lattice at all.
pub open spec fn too_small(width: int, height: int, goals: int, checkpoints: int) -> bool {
    width / 2 == 0 || height / 2 == 0 || (width / 2) * (height / 2) < goals * checkpoints
}

/// `n` copies of `v`.
fn filled<T: Copy>(n: usize, v: T) -> (r: Vec<T>)
    ensures
        r@.len() == n,
        forall|i: int| 0 <= i < n ==> #[trigger] r@[i] == v,
{
    let mut r: Vec<T> = Vec::new();
    let mut i: usize = 0;
    while i < n
        invariant
            i <= n,
            r@.len() == i,
            forall|j: int| 0 <= j < i ==> #[trigger] r@[j] == v,
        decreases n - i,
    {
        r.push(v);
        i = i + 1;
    }
    r
}

/// `n` empty lists of cells.
fn empty_lists(n: usize) -> (r: Vec<Vec<Cell>>)
    ensures
        r@.len() == n,
        forall|i: int| 0 <= i < n ==> (#[trigger] r@[i])@.len() == 0,
{
    let mut r: Vec<Vec<Cell>> = Vec::new();
    let mut i: usize = 0;
    while i < n
        invariant
            i <= n,
            r@.len() == i,
            forall|j: int| 0 <= j < i ==> (#[trigger] r@[j])@.len() == 0,
        decreases n - i,
    {
        r.push(Vec::new());
        i = i + 1;
    }
    r
}

/// A map that is all wall: no routes, no checkpoints, no paths.
fn blank_map(width: usize, height: usize, layers: usize, goals: usize) -> (res: (MazeMap, Vec<LayerRouteData>))
    requires
        goals < usize::MAX,
        height * width <= usize::MAX,
        (goals + 1) * (height * width) <= usize::MAX,
        layers * ((goals + 1) * (height * width)) <= usize::MAX,
    ensures
        res.0.puzzle@.len() == layers * ((goals + 1) * (height * width)),
        res.0.solution@.len() == layers * (height * width),
        res.1@.len() == layers,
        forall|i: int| 0 <= i < res.0.puzzle@.len() ==> #[trigger] res.0.puzzle@[i] == 1,
        forall|i: int| 0 <= i < res.0.solution@.len() ==> #[trigger] res.0.solution@[i] == 0,
        forall|l: int|
            0 <= l < layers ==> {
                &&& (#[trigger] res.1@[l]).route_owner@.len() == height * width
                &&& res.1@[l].checkpoints@.len() == goals
                &&& res.1@[l].vias@.len() == goals
                &&& forall|i: int| 0 <= i < height * width ==> #[trigger] res.1@[l].route_owner@[i] == goals as u8
                &&& forall|r: int| 0 <= r < goals ==> (#[trigger] res.1@[l].checkpoints@[r])@.len() == 0
                &&& forall|r: int| 0 <= r < goals ==> (#[trigger] res.1@[l].vias@[r])@.len() == 0
            },
{
    let cs = height * width;
    proof {
        assert(cs <= (goals + 1) * cs) by (nonlinear_arith)
            requires
                cs >= 0,
        ;
        assert(layers * cs <= layers * ((goals + 1) * cs)) by (nonlinear_arith)
            requires
                cs <= (goals + 1) * cs,
        ;
    }
    let puzzle = filled(layers * ((goals + 1) * cs), 1i8);
    let solution = filled(layers * cs, 0i8);
    let mut data: Vec<LayerRouteData> = Vec::new();
    let mut l: usize = 0;
    while l < layers
        invariant
            l <= layers,
            cs == height * width,
            data@.len() == l,
            forall|q: int|
                0 <= q < l ==> {
                    &&& (#[trigger] data@[q]).route_owner@.len() == cs
                    &&& data@[q].checkpoints@.len() == goals
                    &&& data@[q].vias@.len() == goals
                    &&& forall|i: int| 0 <= i < cs ==> #[trigger] data@[q].route_owner@[i] == goals as u8
                    &&& forall|r: int| 0 <= r < goals ==> (#[trigger] data@[q].checkpoints@[r])@.len() == 0
                    &&& forall|r: int| 0 <= r < goals ==> (#[trigger] data@[q].vias@[r])@.len() == 0
                },
        decreases layers - l,
    {
        let d = LayerRouteData {
            route_owner: filled(cs, goals as u8),
            checkpoints: empty_lists(goals),
            vias: empty_lists(goals),
        };
        let ghost d0 = data@;
        data.push(d);
        proof {
            assert forall|q: int| 0 <= q < l + 1 implies {
                &&& (#[trigger] data@[q]).route_owner@.len() == cs
                &&& data@[q].checkpoints@.len() == goals
                &&& data@[q].vias@.len() == goals
                &&& forall|i: int| 0 <= i < cs ==> #[trigger] data@[q].route_owner@[i] == goals as u8
                &&& forall|r: int| 0 <= r < goals ==> (#[trigger] data@[q].checkpoints@[r])@.len() == 0
                &&& forall|r: int| 0 <= r < goals ==> (#[trigger] data@[q].vias@[r])@.len() == 0
            } by {
                if q < l {
                    assert(data@[q] == d0[q]);
                }
            }
        }
        l = l + 1;
    }
    (MazeMap { puzzle, solution }, data)
}


/// The `l`-th block of `size` entries of `v`.
pub open spec fn block<T>(v: Seq<T>, l: int, size: int) -> Seq<T> {
    v.subrange(l * size, (l + 1) * size)
}

proof fn lemma_blocks(q: int, l: int, size: int)
    requires
        0 <= q < l,
        size >= 0,
    ensures
        0 <= q * size,
        q * size <= (q + 1) * size,
        (q + 1) * size <= l * size,
        q * size + size == (q + 1) * size,
        l * size + size == (l + 1) * size,
{
    assert(q * size + size == (q + 1) * size) by (nonlinear_arith);
    assert(0 <= q * size) by (nonlinear_arith)
        requires
            0 <= q,
            size >= 0,
    ;
    assert((q + 1) * size <= l * size) by (nonlinear_arith)
        requires
            q + 1 <= l,
            size >= 0,
    ;
    assert(q * size <= (q + 1) * size) by (nonlinear_arith)
        requires
            size >= 0,
    ;
    assert(l * size + size == (l + 1) * size) by (nonlinear_arith);
}

/// The entry of route `r`'s checkpoint channel on layer `l`, for the cell at
/// row `y`, column `x`, in a puzzle tensor of `goals + 1` channels of `h` by
/// `w` cells per layer.
pub open spec fn route_mark(puzzle: Seq<i8>, l: int, r: int, goals: int, h: int, w: int, y: int, x: int) -> i8 {
    puzzle[(l * (goals + 1) + r + 1) * (h * w) + y * w + x]
}

/// The solution of every layer follows the routes' plans: the listed
/// checkpoints and vias are the plans' own, and every checkpoint of a piece
/// on a layer is listed there; with no more routes than the
/// `lattice` has cells, so that the routes' regions are apart, every
/// passage of a piece drawn on a layer is open there and owned by its route;
/// and each path cell is owned by a route and lies on a leg between two
/// consecutive waypoints of one of that route's pieces drawn on the layer.
pub open spec fn solution_follows(
    m: MazeMap,
    data: Seq<LayerRouteData>,
    plans: Seq<RoutePlan>,
    layers: int,
    goals: int,
    h: int,
    w: int,
    lattice: int,
) -> bool {
    &&& plans.len() == goals
    &&& forall|l: int, r: int, j: int|
        0 <= l < layers && 0 <= r < goals && 0 <= j < data[l].checkpoints@[r]@.len() ==> cp_here(
            plans[r],
            l,
            layers,
            #[trigger] data[l].checkpoints@[r]@[j],
        )
    &&& forall|l: int, r: int, k: int, i: int|
        #![trigger data[l].checkpoints@[r], plans[r].checkpoints@[k]@[i]]
        0 <= l < layers && 0 <= r < goals && 0 <= k < plans[r].pieces@.len() && listed_here(plans[r], k, l, layers) && 0
            <= i < plans[r].checkpoints@[k]@.len() ==> data[l].checkpoints@[r]@.contains(gcell(plans[r].checkpoints@[k]@[i]))
    &&& forall|l: int, r: int, j: int|
        0 <= l < layers && 0 <= r < goals && 0 <= j < data[l].vias@[r]@.len() ==> via_here(
            plans[r],
            l,
            layers,
            #[trigger] data[l].vias@[r]@[j],
        )
    &&& goals <= lattice ==> forall|l: int, r: int, k: int|
        0 <= l < layers && 0 <= r < goals && 0 <= k < plans[r].pieces@.len() && drawn_here(plans[r], k, l, layers)
            ==> #[trigger] passages_open(block(m.puzzle@, l, (goals + 1) * (h * w)), data[l], plans[r].piece_edges@[k]@, r, h, w)
    &&& forall|l: int, y: int, x: int|
        0 <= l < layers && 0 <= y < h && 0 <= x < w && #[trigger] block(m.solution@, l, h * w)[flat(y, x, w)] == 1
            ==> exists|r: int|
            0 <= r < goals && data[l].route_owner@[flat(y, x, w)] == r as u8 && #[trigger] on_route_path(
                plans[r],
                l,
                layers,
                (y as usize, x as usize),
            )
}

/// Appending a layer whose passages and path cells follow the plans keeps
/// the layers so far following them.
proof fn lemma_layer_follows(
    pz0: Seq<i8>,
    so0: Seq<i8>,
    da0: Seq<LayerRouteData>,
    ch: Seq<i8>,
    sl: Seq<i8>,
    dd: LayerRouteData,
    puzzle: Seq<i8>,
    solution: Seq<i8>,
    data: Seq<LayerRouteData>,
    plans: Seq<RoutePlan>,
    l: int,
    layers: int,
    goals: int,
    h: int,
    w: int,
    apart: bool,
)
    requires
        0 <= l,
        0 <= goals,
        0 <= h,
        0 <= w,
        puzzle == pz0 + ch,
        solution == so0 + sl,
        data == da0.push(dd),
        pz0.len() == l * ((goals + 1) * (h * w)),
        so0.len() == l * (h * w),
        da0.len() == l,
        ch.len() == (goals + 1) * (h * w),
        sl.len() == h * w,
        apart ==> forall|q: int, r: int, k: int|
            0 <= q < l && 0 <= r < goals && 0 <= k < plans[r].pieces@.len() && drawn_here(plans[r], k, q, layers)
                ==> #[trigger] passages_open(block(pz0, q, (goals + 1) * (h * w)), da0[q], plans[r].piece_edges@[k]@, r, h, w),
        forall|q: int, y: int, x: int|
            0 <= q < l && 0 <= y < h && 0 <= x < w && #[trigger] block(so0, q, h * w)[flat(y, x, w)] == 1 ==> exists|r: int|
                0 <= r < goals && da0[q].route_owner@[flat(y, x, w)] == r as u8 && #[trigger] on_route_path(
                    plans[r],
                    q,
                    layers,
                    (y as usize, x as usize),
                ),
        apart ==> forall|r: int, k: int|
            0 <= r < goals && 0 <= k < plans[r].pieces@.len() && drawn_here(plans[r], k, l, layers)
                ==> #[trigger] passages_open(ch, dd, plans[r].piece_edges@[k]@, r, h, w),
        forall|y: int, x: int|
            0 <= y < h && 0 <= x < w && #[trigger] sl[flat(y, x, w)] == 1 ==> exists|r: int|
                0 <= r < goals && dd.route_owner@[flat(y, x, w)] == r as u8 && #[trigger] on_route_path(
                    plans[r],
                    l,
                    layers,
                    (y as usize, x as usize),
                ),
    ensures
        apart ==> forall|q: int, r: int, k: int|
            0 <= q < l + 1 && 0 <= r < goals && 0 <= k < plans[r].pieces@.len() && drawn_here(plans[r], k, q, layers)
                ==> #[trigger] passages_open(block(puzzle, q, (goals + 1) * (h * w)), data[q], plans[r].piece_edges@[k]@, r, h, w),
        forall|q: int, y: int, x: int|
            0 <= q < l + 1 && 0 <= y < h && 0 <= x < w && #[trigger] block(solution, q, h * w)[flat(y, x, w)] == 1 ==> exists|r: int|
                0 <= r < goals && data[q].route_owner@[flat(y, x, w)] == r as u8 && #[trigger] on_route_path(
                    plans[r],
                    q,
                    layers,
                    (y as usize, x as usize),
                ),
{
    let b = (goals + 1) * (h * w);
    let cs = h * w;
    assert(cs >= 0) by (nonlinear_arith)
        requires
            h >= 0,
            w >= 0,
            cs == h * w,
    ;
    assert(b >= 0) by (nonlinear_arith)
        requires
            goals >= 0,
            cs >= 0,
            b == (goals + 1) * cs,
    ;
    assert(block(puzzle, l, b) =~= ch) by {
        lemma_blocks(l, l + 1, b);
    }
    assert(block(solution, l, cs) =~= sl) by {
        lemma_blocks(l, l + 1, cs);
    }
    if apart {
        assert forall|q: int, r: int, k: int|
            0 <= q < l + 1 && 0 <= r < goals && 0 <= k < plans[r].pieces@.len() && drawn_here(plans[r], k, q, layers)
                implies #[trigger] passages_open(block(puzzle, q, b), data[q], plans[r].piece_edges@[k]@, r, h, w) by {
            if q < l {
                lemma_blocks(q, l, b);
                assert(block(puzzle, q, b) =~= block(pz0, q, b));
                assert(data[q] == da0[q]);
                assert(passages_open(block(pz0, q, b), da0[q], plans[r].piece_edges@[k]@, r, h, w));
            } else {
                assert(data[q] == dd);
                assert(passages_open(ch, dd, plans[r].piece_edges@[k]@, r, h, w));
            }
        }
    }
    assert forall|q: int, y: int, x: int|
        0 <= q < l + 1 && 0 <= y < h && 0 <= x < w && #[trigger] block(solution, q, cs)[flat(y, x, w)] == 1 implies exists|r: int|
            0 <= r < goals && data[q].route_owner@[flat(y, x, w)] == r as u8 && #[trigger] on_route_path(
                plans[r],
                q,
                layers,
                (y as usize, x as usize),
            ) by {
        if q < l {
            lemma_blocks(q, l, cs);
            assert(block(solution, q, cs) =~= block(so0, q, cs));
            assert(data[q] == da0[q]);
            assert(block(so0, q, cs)[flat(y, x, w)] == 1);
        } else {
            assert(data[q] == dd);
            assert(sl[flat(y, x, w)] == 1);
        }
    }
}

/// In layers that keep the promises of a layer and mark no cell but listed
/// ones, a route's checkpoint channel holds 1 exactly at its listed
/// checkpoints and vias.
proof fn lemma_marks_exact(m: MazeMap, data: Seq<LayerRouteData>, layers: int, goals: int, h: int, w: int)
    requires
        0 <= layers,
        0 <= goals,
        0 <= h <= usize::MAX,
        0 <= w <= usize::MAX,
        m.puzzle@.len() == layers * ((goals + 1) * (h * w)),
        data.len() == layers,
        forall|l: int|
            0 <= l < layers ==> layer_ok(
                block(m.puzzle@, l, (goals + 1) * (h * w)),
                block(m.solution@, l, h * w),
                #[trigger] data[l],
                goals,
                h,
                w,
            ) && marks_listed(block(m.puzzle@, l, (goals + 1) * (h * w)), data[l], goals, h, w),
    ensures
        forall|l: int, r: int, y: int, x: int|
            0 <= l < layers && 0 <= r < goals && 0 <= y < h && 0 <= x < w ==> (#[trigger] route_mark(
                m.puzzle@,
                l,
                r,
                goals,
                h,
                w,
                y,
                x,
            ) == 1 <==> data[l].checkpoints@[r]@.contains((y as usize, x as usize)) || data[l].vias@[r]@.contains(
                (y as usize, x as usize),
            )),
{
    let cs = h * w;
    let b = (goals + 1) * cs;
    assert(cs >= 0) by (nonlinear_arith)
        requires
            h >= 0,
            w >= 0,
            cs == h * w,
    ;
    assert(b >= 0) by (nonlinear_arith)
        requires
            goals >= 0,
            cs >= 0,
            b == (goals + 1) * cs,
    ;
    assert forall|l: int, r: int, y: int, x: int|
        0 <= l < layers && 0 <= r < goals && 0 <= y < h && 0 <= x < w implies (#[trigger] route_mark(
            m.puzzle@,
            l,
            r,
            goals,
            h,
            w,
            y,
            x,
        ) == 1 <==> data[l].checkpoints@[r]@.contains((y as usize, x as usize)) || data[l].vias@[r]@.contains(
            (y as usize, x as usize),
        )) by {
        let f = flat(y, x, w);
        lemma_flat(y, x, h, w);
        lemma_blocks(l, layers, b);
        lemma_block_index(r, goals + 1, f, cs);
        let pb = block(m.puzzle@, l, b);
        assert((goals + 1) * cs == b);
        assert(l * b + (r + 1) * cs + f == (l * (goals + 1) + r + 1) * cs + y * w + x) by (nonlinear_arith)
            requires
                b == (goals + 1) * cs,
                f == y * w + x,
        ;
        assert(pb[(r + 1) * cs + f] == m.puzzle@[l * b + (r + 1) * cs + f]);
        assert(chan_at(pb, r, h, w, y, x) == route_mark(m.puzzle@, l, r, goals, h, w, y, x));
        assert(layer_ok(pb, block(m.solution@, l, cs), data[l], goals, h, w));
        let c = (y as usize, x as usize);
        if data[l].checkpoints@[r]@.contains(c) {
            let j = choose|j: int| 0 <= j < data[l].checkpoints@[r]@.len() && data[l].checkpoints@[r]@[j] == c;
            assert(data[l].checkpoints@[r]@[j] == c);
        }
        if data[l].vias@[r]@.contains(c) {
            let j = choose|j: int| 0 <= j < data[l].vias@[r]@.len() && data[l].vias@[r]@[j] == c;
            assert(data[l].vias@[r]@[j] == c);
        }
    }
}

/// Every layer of an all-wall map keeps the promises of a layer.
proof fn lemma_blank_layers_ok(m: MazeMap, data: Seq<LayerRouteData>, layers: int, goals: int, h: int, w: int)
    requires
        layers >= 0,
        goals >= 0,
        h >= 0,
        w >= 0,
        m.puzzle@.len() == layers * ((goals + 1) * (h * w)),
        m.solution@.len() == layers * (h * w),
        data.len() == layers,
        forall|i: int| 0 <= i < m.puzzle@.len() ==> #[trigger] m.puzzle@[i] == 1,
        forall|i: int| 0 <= i < m.solution@.len() ==> #[trigger] m.solution@[i] == 0,
        forall|l: int|
            0 <= l < layers ==> {
                &&& (#[trigger] data[l]).route_owner@.len() == h * w
                &&& data[l].checkpoints@.len() == goals
                &&& data[l].vias@.len() == goals
                &&& forall|i: int| 0 <= i < h * w ==> #[trigger] data[l].route_owner@[i] == goals as u8
                &&& forall|r: int| 0 <= r < goals ==> (#[trigger] data[l].checkpoints@[r])@.len() == 0
                &&& forall|r: int| 0 <= r < goals ==> (#[trigger] data[l].vias@[r])@.len() == 0
            },
    ensures
        forall|l: int|
            0 <= l < layers ==> layer_ok(
                block(m.puzzle@, l, (goals + 1) * (h * w)),
                block(m.solution@, l, h * w),
                #[trigger] data[l],
                goals,
                h,
                w,
            ),
{
    let b = (goals + 1) * (h * w);
    let cs = h * w;
    assert(h * w >= 0) by (nonlinear_arith)
        requires
            h >= 0,
            w >= 0,
    ;
    assert((goals + 1) * (h * w) >= 0) by (nonlinear_arith)
        requires
            goals >= 0,
            h * w >= 0,
    ;
    assert forall|l: int| 0 <= l < layers implies layer_ok(
        block(m.puzzle@, l, b),
        block(m.solution@, l, cs),
        #[trigger] data[l],
        goals,
        h,
        w,
    ) by {
        lemma_blocks(l, layers, b);
        lemma_blocks(l, layers, cs);
        let pb = block(m.puzzle@, l, b);
        let sb = block(m.solution@, l, cs);
        assert(sb.len() == cs);
        assert(pb.len() == b);
        assert((l + 1) * cs <= m.solution@.len());
        assert forall|i: int| 0 <= i < pb.len() implies #[trigger] pb[i] == 0 || pb[i] == 1 by {
            assert(pb[i] == m.puzzle@[l * b + i]);
        }
        assert forall|i: int| 0 <= i < sb.len() implies #[trigger] sb[i] == 0 || sb[i] == 1 by {
            assert(sb[i] == m.solution@[l * cs + i]);
        }
        assert forall|y: int, x: int| 0 <= y < h && 0 <= x < w && #[trigger] sb[flat(y, x, w)] == 1 implies pb[flat(
            y,
            x,
            w,
        )] == 0 && data[l].route_owner@[flat(y, x, w)] < goals by {
            lemma_flat(y, x, h, w);
            assert(sb[flat(y, x, w)] == m.solution@[l * cs + flat(y, x, w)]);
        }
        assert forall|y: int, x: int| 0 <= y < h && 0 <= x < w && #[trigger] pb[flat(y, x, w)] == 1 implies data[l].route_owner@[flat(
            y,
            x,
            w,
        )] == goals as u8 by {
            lemma_flat(y, x, h, w);
        }
    }
}

/// Generates one map from `seed`: partitions the maze lattice (half the grid
/// in each direction) into one region per route, carves a depth-first maze of
/// each region in each layer, lays each route out over the layers with its
/// vias and checkpoints, and draws every layer. A map too small for the
/// checkpoints asked for comes out all wall.
///
/// Every layer is well formed (`layer_ok`); a route lists at most
/// `via_count` vias on a layer, and none without vias asked for or with a
/// single layer; over all layers a route lists exactly `checkpoints`
/// checkpoints (none in a map too small). With at least two checkpoints per
/// route, every listed checkpoint is a path cell, and any two checkpoints of a
/// route, on any layers, are joined by a walk over the route's own path cells
/// and vias, and through the open cells of the puzzle; every maze cell of
/// every layer is open except at the vias; and every via is needed: without
/// its layer change two checkpoints of its route are no longer connected,
/// neither through the open cells the route owns nor through all open cells.
/// An open cell next to an open cell of a route belongs to that route, so
/// routes never touch each other nor the unowned background; listed
/// checkpoints are open and owned by their route, and no cell is a via of
/// two routes.
#[verifier::spinoff_prover]
#[verifier::rlimit(60)]
pub fn generate_map(
    seed: u64,
    width: usize,
    height: usize,
    layers: usize,
    goals: usize,
    checkpoints: usize,
    via_count: usize,
) -> (res: (MazeMap, Vec<LayerRouteData>))
    requires
        width < 0x8000_0000,
        height < 0x8000_0000,
        goals < usize::MAX,
        height * width <= usize::MAX,
        (goals + 1) * (height * width) <= usize::MAX,
        layers * ((goals + 1) * (height * width)) <= usize::MAX,
        goals * checkpoints <= usize::MAX,
        layers >= 1 || goals == 0 || too_small(width as int, height as int, goals as int, checkpoints as int),
    ensures
        res.0.puzzle@.len() == layers * ((goals + 1) * (height * width)),
        res.0.solution@.len() == layers * (height * width),
        res.1@.len() == layers,
        forall|l: int|
            0 <= l < layers ==> layer_ok(
                block(res.0.puzzle@, l, (goals + 1) * (height * width)),
                block(res.0.solution@, l, height * width),
                #[trigger] res.1@[l],
                goals as int,
                height as int,
                width as int,
            ),
        forall|l: int, r: int| 0 <= l < layers && 0 <= r < goals ==> (#[trigger] res.1@[l].vias@[r])@.len() <= via_count,
        checkpoints >= 2 ==> forall|l: int|
            0 <= l < layers ==> checkpoints_on_path(
                block(res.0.solution@, l, height * width),
                #[trigger] res.1@[l],
                goals as int,
                width as int,
            ),
        forall|r: int|
            0 <= r < goals ==> #[trigger] listed_count(res.1@, r, layers as int) == if too_small(
                width as int,
                height as int,
                goals as int,
                checkpoints as int,
            ) {
                0
            } else {
                checkpoints as int
            },
        checkpoints >= 2 ==> forall|r: int, l1: int, j1: int, l2: int, j2: int|
            #![trigger res.1@[l1].checkpoints@[r]@[j1], res.1@[l2].checkpoints@[r]@[j2]]
            0 <= r < goals && 0 <= l1 < layers && 0 <= l2 < layers && 0 <= j1 < res.1@[l1].checkpoints@[r]@.len() && 0
                <= j2 < res.1@[l2].checkpoints@[r]@.len() ==> route_connects(
                res.0,
                res.1@,
                layers as int,
                r,
                height as int,
                width as int,
                (l1, res.1@[l1].checkpoints@[r]@[j1]),
                (l2, res.1@[l2].checkpoints@[r]@[j2]),
            ),
        via_count == 0 || layers <= 1 ==> forall|l: int, r: int|
            0 <= l < layers && 0 <= r < goals ==> (#[trigger] res.1@[l].vias@[r])@.len() == 0,
        goals < 256 && (checkpoints >= 1 || goals <= (width / 2) * (height / 2)) ==> forall|l: int, p: Cell, q: Cell|
            0 <= l < layers && in_bounds(p, height as int, width as int) && in_bounds(q, height as int, width as int)
                && adjacent(p, q) && #[trigger] res.1@[l].route_owner@[flat(p.0 as int, p.1 as int, width as int)] < goals
                && #[trigger] res.1@[l].route_owner@[flat(q.0 as int, q.1 as int, width as int)] < goals
                ==> res.1@[l].route_owner@[flat(p.0 as int, p.1 as int, width as int)] == res.1@[l].route_owner@[flat(
                q.0 as int,
                q.1 as int,
                width as int,
            )],
        checkpoints >= 2 && via_count > 0 && layers > 1 ==> forall|r: int|
            0 <= r < goals ==> (#[trigger] res.1@[0].vias@[r])@.len() >= 1 || one_checkpoint_cell(res.1@, r, layers as int),
        goals >= 1 && checkpoints >= 2 && !too_small(width as int, height as int, goals as int, checkpoints as int)
            ==> forall|l: int, c: Cell|
            0 <= l < layers && c.0 < height / 2 && c.1 < width / 2 && (forall|l2: int, r: int, j: int|
                0 <= l2 < layers && 0 <= r < goals && 0 <= j < res.1@[l2].vias@[r]@.len() ==> res.1@[l2].vias@[r]@[j]
                    != gcell(c)) ==> #[trigger] maze_cell_open(
                block(res.0.puzzle@, l, (goals + 1) * (height * width)),
                c,
                width as int,
            ),
        goals < 256 && checkpoints >= 2 ==> forall|r: int, l1: int, j1: int, l2: int, j2: int, owned_only: bool|
            0 <= r < goals && 0 <= l1 < layers && 0 <= l2 < layers && 0 <= j1 < res.1@[l1].checkpoints@[r]@.len() && 0
                <= j2 < res.1@[l2].checkpoints@[r]@.len() ==> #[trigger] puzzle_connects(
                res.0,
                res.1@,
                layers as int,
                goals as int,
                r,
                height as int,
                width as int,
                owned_only,
                (l1, res.1@[l1].checkpoints@[r]@[j1]),
                (l2, res.1@[l2].checkpoints@[r]@[j2]),
                None,
            ),
        goals < 256 && !too_small(width as int, height as int, goals as int, checkpoints as int) && (checkpoints >= 1 || goals
            <= (width / 2) * (height / 2)) ==> forall|l: int, p: Cell, q: Cell|
            0 <= l < layers && in_bounds(p, height as int, width as int) && in_bounds(q, height as int, width as int)
                && adjacent(p, q) && block(res.0.puzzle@, l, (goals + 1) * (height * width))[flat(p.0 as int, p.1 as int, width as int)]
                == 0 && block(res.0.puzzle@, l, (goals + 1) * (height * width))[flat(q.0 as int, q.1 as int, width as int)] == 0
                && #[trigger] res.1@[l].route_owner@[flat(p.0 as int, p.1 as int, width as int)] < goals
                ==> #[trigger] res.1@[l].route_owner@[flat(q.0 as int, q.1 as int, width as int)] == res.1@[l].route_owner@[flat(
                p.0 as int,
                p.1 as int,
                width as int,
            )],
        goals < 256 && checkpoints >= 2 ==> forall|l: int, r: int, j: int, owned_only: bool|
            0 <= l < layers && 0 <= r < goals && 0 <= j < res.1@[l].vias@[r]@.len() ==> #[trigger] via_needed(
                res.0,
                res.1@,
                layers as int,
                goals as int,
                r,
                height as int,
                width as int,
                owned_only,
                res.1@[l].vias@[r]@[j],
            ),
        forall|l: int, r: int, j: int|
            0 <= l < layers && 0 <= r < goals && 0 <= j < res.1@[l].checkpoints@[r]@.len() ==> odd_cell(
                #[trigger] res.1@[l].checkpoints@[r]@[j],
            ),
        forall|l: int, r: int, j: int|
            0 <= l < layers && 0 <= r < goals && 0 <= j < res.1@[l].vias@[r]@.len() ==> odd_cell(
                #[trigger] res.1@[l].vias@[r]@[j],
            ),
        checkpoints >= 2 ==> forall|l: int, r: int, j: int|
            0 <= l < layers && 0 <= r < goals && 0 <= j < res.1@[l].checkpoints@[r]@.len() ==> path_cell(
                block(res.0.solution@, l, height * width),
                res.1@[l],
                #[trigger] res.1@[l].checkpoints@[r]@[j],
                r,
                height as int,
                width as int,
            ),
        checkpoints >= 2 ==> forall|l: int, r: int, j: int|
            0 <= l < layers && 0 <= r < goals && 0 <= j < res.1@[l].vias@[r]@.len() ==> path_cell(
                block(res.0.solution@, l, height * width),
                res.1@[l],
                #[trigger] res.1@[l].vias@[r]@[j],
                r,
                height as int,
                width as int,
            ),
        checkpoints >= 1 || goals <= (width / 2) * (height / 2) ==> forall|l1: int, r1: int, j1: int, l2: int, r2: int, j2: int|
            0 <= l1 < layers && 0 <= l2 < layers && 0 <= r1 < goals && 0 <= r2 < goals && r1 != r2 && 0 <= j1
                < res.1@[l1].vias@[r1]@.len() && 0 <= j2 < res.1@[l2].vias@[r2]@.len() ==> #[trigger] res.1@[l1].vias@[r1]@[j1]
                != #[trigger] res.1@[l2].vias@[r2]@[j2],
        goals < 256 && (checkpoints >= 1 || goals <= (width / 2) * (height / 2)) ==> forall|l: int, r: int, j: int|
            0 <= l < layers && 0 <= r < goals && 0 <= j < res.1@[l].checkpoints@[r]@.len() ==> {
                let c = #[trigger] res.1@[l].checkpoints@[r]@[j];
                &&& block(res.0.puzzle@, l, (goals + 1) * (height * width))[flat(c.0 as int, c.1 as int, width as int)] == 0
                &&& res.1@[l].route_owner@[flat(c.0 as int, c.1 as int, width as int)] == r as u8
            },
        goals < 256 && (checkpoints >= 1 || goals <= (width / 2) * (height / 2)) ==> forall|l: int, r: int, j: int|
            0 <= l < layers && 0 <= r < goals && 0 <= j < res.1@[l].vias@[r]@.len() ==> res.1@[l].route_owner@[flat(
                (#[trigger] res.1@[l].vias@[r]@[j]).0 as int,
                res.1@[l].vias@[r]@[j].1 as int,
                width as int,
            )] == r as u8,
        checkpoints >= 2 ==> forall|r: int, l1: int, j1: int, l2: int, j2: int|
            #![trigger res.1@[l1].checkpoints@[r]@[j1], res.1@[l2].vias@[r]@[j2]]
            0 <= r < goals && 0 <= l1 < layers && 0 <= l2 < layers && 0 <= j1 < res.1@[l1].checkpoints@[r]@.len() && 0
                <= j2 < res.1@[l2].vias@[r]@.len() ==> route_connects(
                res.0,
                res.1@,
                layers as int,
                r,
                height as int,
                width as int,
                (l1, res.1@[l1].checkpoints@[r]@[j1]),
                (l2, res.1@[l2].vias@[r]@[j2]),
            ),
        layers >= 1 && !too_small(width as int, height as int, goals as int, checkpoints as int) ==> exists|plans: Seq<RoutePlan>|
            #[trigger] solution_follows(
                res.0,
                res.1@,
                plans,
                layers as int,
                goals as int,
                height as int,
                width as int,
                (width / 2) * (height / 2),
            ),
        !too_small(width as int, height as int, goals as int, checkpoints as int) ==> forall|l: int, r: int, y: int, x: int|
            0 <= l < layers && 0 <= r < goals && 0 <= y < height && 0 <= x < width ==> (#[trigger] route_mark(
                res.0.puzzle@,
                l,
                r,
                goals as int,
                height as int,
                width as int,
                y,
                x,
            ) == 1 <==> res.1@[l].checkpoints@[r]@.contains((y as usize, x as usize)) || res.1@[l].vias@[r]@.contains(
                (y as usize, x as usize),
            )),
        too_small(width as int, height as int, goals as int, checkpoints as int) ==> {
            &&& forall|i: int| 0 <= i < res.0.puzzle@.len() ==> #[trigger] res.0.puzzle@[i] == 1
            &&& forall|i: int| 0 <= i < res.0.solution@.len() ==> #[trigger] res.0.solution@[i] == 0
            &&& forall|l: int, i: int|
                0 <= l < layers && 0 <= i < height * width ==> #[trigger] res.1@[l].route_owner@[i] == goals as u8
            &&& forall|l: int, r: int|
                0 <= l < layers && 0 <= r < goals ==> (#[trigger] res.1@[l].checkpoints@[r])@.len() == 0
        },
{
    let cs = height * width;
    let maze_w = width / 2;
    let maze_h = height / 2;
    proof {
        assert(maze_w * maze_h <= usize::MAX) by (nonlinear_arith)
            requires
                maze_w <= width,
                maze_h <= height,
                height * width <= usize::MAX,
        ;
    }
    if layers == 0 || maze_w == 0 || maze_h == 0 || maze_w * maze_h < goals * checkpoints {
        let (m, d) = blank_map(width, height, layers, goals);
        proof {
            lemma_blank_layers_ok(m, d@, layers as int, goals as int, height as int, width as int);
            assert forall|r: int| 0 <= r < goals implies #[trigger] listed_count(d@, r, layers as int) == if too_small(
                width as int,
                height as int,
                goals as int,
                checkpoints as int,
            ) {
                0
            } else {
                checkpoints as int
            } by {
                assert forall|q: int| 0 <= q < layers implies (#[trigger] d@[q]).checkpoints@[r]@.len() == 0 by {
                    assert(d@[q].checkpoints@[r]@.len() == 0);
                }
                lemma_listed_count_zero(d@, r, layers as int);
            }
            if goals < 256 {
                assert forall|l: int, p: Cell, q: Cell|
                    0 <= l < layers && in_bounds(p, height as int, width as int) && in_bounds(q, height as int, width as int)
                        && adjacent(p, q) && #[trigger] d@[l].route_owner@[flat(p.0 as int, p.1 as int, width as int)] < goals
                        && #[trigger] d@[l].route_owner@[flat(q.0 as int, q.1 as int, width as int)] < goals
                        implies d@[l].route_owner@[flat(p.0 as int, p.1 as int, width as int)] == d@[l].route_owner@[flat(
                    q.0 as int,
                    q.1 as int,
                    width as int,
                )] by {
                    lemma_flat(p.0 as int, p.1 as int, height as int, width as int);
                    assert(d@[l].route_owner@[flat(p.0 as int, p.1 as int, width as int)] == goals as u8);
                }
            }
        }
        return (m, d);
    }
    let mut rng = seeded_rng(seed);
    proof {
        assert(maze_w * maze_h <= usize::MAX) by (nonlinear_arith)
            requires
                maze_w <= width,
                maze_h <= height,
                height * width <= usize::MAX,
        ;
        assert(checkpoints >= 1 ==> goals <= maze_w * maze_h) by (nonlinear_arith)
            requires
                maze_w * maze_h >= goals * checkpoints,
        ;
    }
    // Regions, shared by all layers.
    let regions = partition_regions(&mut rng, maze_w, maze_h, goals);
    proof {
        assert forall|r: int| 0 <= r < goals implies all_coord_ok(#[trigger] regions@[r]@) && regions@[r]@.len() > 0
            && regions@[r]@.no_duplicates() && grows_connected(regions@[r]@) && all_in_bounds(
            regions@[r]@,
            maze_h as int,
            maze_w as int,
        ) by {
            assert(cell_lists(regions@)[r] == regions@[r]@);
            assert(well_formed_regions(cell_lists(regions@), maze_h as int, maze_w as int));
            assert(all_in_bounds(cell_lists(regions@)[r], maze_h as int, maze_w as int));
        }
    }
    proof {
        if checkpoints >= 2 {
            assert(goals <= goals * checkpoints) by (nonlinear_arith)
                requires
                    checkpoints >= 2,
            ;
        }
        assert forall|r: int| 0 <= r < goals implies region_fits(#[trigger] regions@[r]@, height as int, width as int) by {
            assert(all_in_bounds(regions@[r]@, maze_h as int, maze_w as int));
            assert forall|i: int| 0 <= i < regions@[r]@.len() implies in_bounds(
                gcell(#[trigger] regions@[r]@[i]),
                height as int,
                width as int,
            ) by {
                assert(in_bounds(regions@[r]@[i], maze_h as int, maze_w as int));
            }
        }
    }
    // A maze of each region in each layer.
    let mut layer_edges: Vec<Vec<Vec<Edge>>> = Vec::new();
    let mut l: usize = 0;
    while l < layers
        invariant
            l <= layers,
            regions@.len() == goals,
            forall|r: int| 0 <= r < goals ==> all_coord_ok(#[trigger] regions@[r]@) && regions@[r]@.len() > 0,
            forall|r: int|
                0 <= r < goals ==> grows_connected(#[trigger] regions@[r]@) && all_in_bounds(
                    regions@[r]@,
                    maze_h as int,
                    maze_w as int,
                ),
            layer_edges@.len() == l,
            forall|q: int| 0 <= q < l ==> (#[trigger] layer_edges@[q])@.len() == goals,
            forall|q: int, r: int|
                #![trigger layer_edges@[q]@[r]]
                0 <= q < l && 0 <= r < goals ==> edges_within(layer_edges@[q]@[r]@, regions@[r]@) && tree_spans(
                    layer_edges@[q]@[r]@,
                    regions@[r]@,
                ),
            forall|q: int, r: int|
                #![trigger layer_edges@[q]@[r]]
                0 <= q < l && 0 <= r < goals ==> is_grown_tree(layer_edges@[q]@[r]@),
        decreases layers - l,
    {
        let mut per_region: Vec<Vec<Edge>> = Vec::new();
        let mut r: usize = 0;
        while r < goals
            invariant
                r <= goals,
                regions@.len() == goals,
                forall|q: int| 0 <= q < goals ==> all_coord_ok(#[trigger] regions@[q]@) && regions@[q]@.len() > 0,
                forall|q: int|
                    0 <= q < goals ==> grows_connected(#[trigger] regions@[q]@) && all_in_bounds(
                        regions@[q]@,
                        maze_h as int,
                        maze_w as int,
                    ),
                per_region@.len() == r,
                forall|q: int|
                    0 <= q < r ==> edges_within(#[trigger] per_region@[q]@, regions@[q]@) && tree_spans(
                        per_region@[q]@,
                        regions@[q]@,
                    ),
                forall|q: int| 0 <= q < r ==> is_grown_tree(#[trigger] per_region@[q]@),
            decreases goals - r,
        {
            proof {
                assert(all_coord_ok(regions@[r as int]@));
                assert(grows_connected(regions@[r as int]@));
            }
            let edges = generate_maze_dfs_in(&mut rng, &regions[r], maze_w, maze_h);
            let ghost p0 = per_region@;
            per_region.push(edges);
            proof {
                assert forall|q: int| 0 <= q < r + 1 implies is_grown_tree(#[trigger] per_region@[q]@) by {
                    if q < r {
                        assert(per_region@[q] == p0[q]);
                    }
                }
                assert forall|q: int| 0 <= q < r + 1 implies edges_within(#[trigger] per_region@[q]@, regions@[q]@)
                    && tree_spans(per_region@[q]@, regions@[q]@) by {
                    if q < r {
                        assert(per_region@[q] == p0[q]);
                    }
                }
            }
            r = r + 1;
        }
        let ghost e0 = layer_edges@;
        layer_edges.push(per_region);
        proof {
            assert forall|q: int| 0 <= q < l + 1 implies (#[trigger] layer_edges@[q])@.len() == goals by {
                if q < l {
                    assert(layer_edges@[q] == e0[q]);
                }
            }
            assert forall|q: int, r: int|
                #![trigger layer_edges@[q]@[r]]
                0 <= q < l + 1 && 0 <= r < goals implies edges_within(layer_edges@[q]@[r]@, regions@[r]@) && tree_spans(
                    layer_edges@[q]@[r]@,
                    regions@[r]@,
                ) by {
                if q < l {
                    assert(layer_edges@[q] == e0[q]);
                } else {
                    assert(layer_edges@[q] == per_region);
                    assert(edges_within(per_region@[r]@, regions@[r]@) && tree_spans(per_region@[r]@, regions@[r]@));
                }
            }
            assert forall|q: int, r: int|
                #![trigger layer_edges@[q]@[r]]
                0 <= q < l + 1 && 0 <= r < goals implies is_grown_tree(layer_edges@[q]@[r]@) by {
                if q < l {
                    assert(layer_edges@[q] == e0[q]);
                } else {
                    assert(layer_edges@[q] == per_region);
                    assert(is_grown_tree(per_region@[r]@));
                }
            }
        }
        l = l + 1;
    }
    // Each route's layout over the layers.
    assert forall|q: int| 0 <= q < goals implies is_grown_tree(#[trigger] layer_edges@[0]@[q]@) by {
        assert(layer_edges@[0]@.len() == goals);
    }
    let mut plans: Vec<RoutePlan> = Vec::new();
    let mut r: usize = 0;
    while r < goals
        invariant
            r <= goals,
            layers >= 1,
            regions@.len() == goals,
            forall|q: int| 0 <= q < goals ==> (#[trigger] regions@[q]@).no_duplicates(),
            layer_edges@.len() == layers,
            forall|q: int| 0 <= q < goals ==> all_coord_ok(#[trigger] regions@[q]@) && regions@[q]@.len() > 0,
            forall|q: int| 0 <= q < layers ==> (#[trigger] layer_edges@[q])@.len() == goals,
            forall|q: int, k: int|
                #![trigger layer_edges@[q]@[k]]
                0 <= q < layers && 0 <= k < goals ==> edges_within(layer_edges@[q]@[k]@, regions@[k]@) && tree_spans(
                    layer_edges@[q]@[k]@,
                    regions@[k]@,
                ),
            plans@.len() == r,
            forall|q: int| 0 <= q < goals ==> is_grown_tree(#[trigger] layer_edges@[0]@[q]@),
            forall|q: int| 0 <= q < r ==> plan_within(#[trigger] plans@[q], regions@[q]@),
            forall|q: int| 0 <= q < r ==> route_laid_out(#[trigger] plans@[q], layer_edges@[0]@[q]@, checkpoints as int),
            forall|q: int| 0 <= q < r ==> plan_cps_count(#[trigger] plans@[q]) == checkpoints,
            forall|q: int|
                0 <= q < r && (via_count == 0 || layers <= 1) ==> (#[trigger] plans@[q]).vias@.len() == 0,
            forall|q: int| 0 <= q < r ==> (#[trigger] plans@[q]).vias@.len() <= via_count,
            forall|q: int|
                0 <= q < r ==> (#[trigger] plans@[q]).vias@.len() == 0 ==> plans@[q].checkpoints@[0]@.len() >= checkpoints,
            forall|q: int|
                0 <= q < r && via_count > 0 && layers > 1 && regions@[q]@.len() >= 2 ==> (#[trigger] plans@[q]).vias@.len()
                    >= 1,
            forall|q: int| 0 <= q < r ==> (#[trigger] plans@[q]).vias@.no_duplicates(),
            forall|q: int| 0 <= q < r ==> spans_hold_edges(#[trigger] plans@[q]) && pieces_apart(plans@[q]),
        decreases goals - r,
    {
        proof {
            assert(layer_edges@[0]@.len() == goals);
            assert(edges_within(layer_edges@[0]@[r as int]@, regions@[r as int]@));
            assert(tree_spans(layer_edges@[0]@[r as int]@, regions@[r as int]@));
            assert(all_coord_ok(regions@[r as int]@) && regions@[r as int]@.len() > 0);
            assert(is_grown_tree(layer_edges@[0]@[r as int]@));
        }
        let plan = build_plan(&mut rng, &regions[r], &layer_edges[0][r], layers, checkpoints, via_count);
        let ghost p0 = plans@;
        plans.push(plan);
        proof {
            assert forall|q: int| 0 <= q < r + 1 implies route_laid_out(#[trigger] plans@[q], layer_edges@[0]@[q]@, checkpoints as int) by {
                if q < r {
                    assert(plans@[q] == p0[q]);
                }
            }
            assert forall|q: int| 0 <= q < r + 1 implies plan_cps_count(#[trigger] plans@[q]) == checkpoints by {
                if q < r {
                    assert(plans@[q] == p0[q]);
                }
            }
            assert forall|q: int| 0 <= q < r + 1 implies plan_within(#[trigger] plans@[q], regions@[q]@) by {
                if q < r {
                    assert(plans@[q] == p0[q]);
                }
            }
            assert forall|q: int|
                0 <= q < r + 1 && (via_count == 0 || layers <= 1) implies (#[trigger] plans@[q]).vias@.len() == 0 by {
                if q < r {
                    assert(plans@[q] == p0[q]);
                }
            }
            assert forall|q: int| 0 <= q < r + 1 implies (#[trigger] plans@[q]).vias@.len() <= via_count by {
                if q < r {
                    assert(plans@[q] == p0[q]);
                }
            }
            assert forall|q: int|
                0 <= q < r + 1 && via_count > 0 && layers > 1 && regions@[q]@.len() >= 2 implies (#[trigger] plans@[q]).vias@.len()
                    >= 1 by {
                if q < r {
                    assert(plans@[q] == p0[q]);
                }
            }
            assert forall|q: int|
                0 <= q < r + 1 implies (#[trigger] plans@[q]).vias@.len() == 0 ==> plans@[q].checkpoints@[0]@.len()
                    >= checkpoints by {
                if q < r {
                    assert(plans@[q] == p0[q]);
                }
            }
            assert forall|q: int| 0 <= q < r + 1 implies (#[trigger] plans@[q]).vias@.no_duplicates() by {
                if q < r {
                    assert(plans@[q] == p0[q]);
                }
            }
            assert forall|q: int| 0 <= q < r + 1 implies spans_hold_edges(#[trigger] plans@[q]) && pieces_apart(plans@[q]) by {
                if q < r {
                    assert(plans@[q] == p0[q]);
                }
            }
        }
        r = r + 1;
    }
    // Draw the layers.
    let ghost b = (goals + 1) * (height * width);
    let ghost csi = (height * width) as int;
    let mut puzzle: Vec<i8> = Vec::new();
    let mut solution: Vec<i8> = Vec::new();
    let mut data: Vec<LayerRouteData> = Vec::new();
    proof {
        assert(0 * b == 0 && 0 * csi == 0) by (nonlinear_arith);
        assert(b >= 0 && csi >= 0) by (nonlinear_arith)
            requires
                b == (goals + 1) * (height * width),
                csi == height * width,
        ;
    }
    let mut l: usize = 0;
    while l < layers
        invariant
            l <= layers,
            b == (goals + 1) * (height * width),
            csi == height * width,
            b >= 0,
            csi >= 0,
            layers * ((goals + 1) * (height * width)) <= usize::MAX,
            (goals + 1) * (height * width) <= usize::MAX,
            layers >= 1,
            regions@.len() == goals,
            plans@.len() == goals,
            layer_edges@.len() == layers,
            forall|q: int| 0 <= q < goals ==> all_coord_ok(#[trigger] regions@[q]@),
            forall|q: int| 0 <= q < goals ==> plan_within(#[trigger] plans@[q], regions@[q]@),
            forall|q: int|
                0 <= q < goals && (via_count == 0 || layers <= 1) ==> (#[trigger] plans@[q]).vias@.len() == 0,
            forall|q: int| 0 <= q < goals ==> (#[trigger] plans@[q]).vias@.len() <= via_count,
            forall|q: int|
                0 <= q < goals ==> (#[trigger] plans@[q]).vias@.len() == 0 ==> plans@[q].checkpoints@[0]@.len()
                    >= checkpoints,
            checkpoints >= 2 ==> pairwise_disjoint(cell_lists(regions@)),
            forall|q: int| 0 <= q < goals ==> route_laid_out(#[trigger] plans@[q], layer_edges@[0]@[q]@, checkpoints as int),
            forall|q: int| 0 <= q < goals ==> (#[trigger] plans@[q]).vias@.no_duplicates(),
            forall|q: int| 0 <= q < goals ==> spans_hold_edges(#[trigger] plans@[q]) && pieces_apart(plans@[q]),
            goals < 256 && goals <= maze_w * maze_h ==> forall|q: int, p: Cell, p2: Cell|
                0 <= q < l && in_bounds(p, height as int, width as int) && in_bounds(p2, height as int, width as int)
                    && adjacent(p, p2) && block(puzzle@, q, b)[flat(p.0 as int, p.1 as int, width as int)] == 0 && block(
                    puzzle@,
                    q,
                    b,
                )[flat(p2.0 as int, p2.1 as int, width as int)] == 0 && #[trigger] data@[q].route_owner@[flat(
                    p.0 as int,
                    p.1 as int,
                    width as int,
                )] < goals ==> #[trigger] data@[q].route_owner@[flat(p2.0 as int, p2.1 as int, width as int)]
                    == data@[q].route_owner@[flat(p.0 as int, p.1 as int, width as int)],
            forall|q: int, k: int, j: int, i: int|
                #![trigger data@[q].checkpoints@[k], plans@[k].checkpoints@[j]@[i]]
                0 <= q < l && 0 <= k < goals && 0 <= j < plans@[k].pieces@.len() && listed_here(plans@[k], j, q, layers as int)
                    && 0 <= i < plans@[k].checkpoints@[j]@.len() ==> data@[q].checkpoints@[k]@.contains(
                    gcell(plans@[k].checkpoints@[j]@[i]),
                ),
            goals < 256 && goals <= maze_w * maze_h ==> forall|q: int, k: int, d: Cell|
                #![trigger data@[q].route_owner@[flat(d.0 as int, d.1 as int, width as int)], plans@[k]]
                0 <= q < l && 0 <= k < goals && in_bounds(d, height as int, width as int) && data@[q].route_owner@[flat(
                    d.0 as int,
                    d.1 as int,
                    width as int,
                )] == k as u8 && plans@[k].vias@.len() > 0 ==> owned_by_piece(plans@[k], d, q, layers as int),
            forall|q: int, k: int, c: Cell|
                0 <= q < l && 0 <= k < goals && #[trigger] regions@[k]@.contains(c) && !plans@[k].vias@.contains(c) && c.0
                    < maze_h && c.1 < maze_w ==> #[trigger] maze_cell_open(block(puzzle@, q, b), c, width as int),
            maze_h == height / 2,
            maze_w == width / 2,
            forall|q: int, k: int|
                0 <= q < l && 0 <= k < goals ==> (#[trigger] data@[q].checkpoints@[k])@.len() == layer_cps_count(
                    plans@[k],
                    q,
                    layers as int,
                    plans@[k].pieces@.len() as int,
                ),
            forall|q: int| 0 <= q < goals ==> region_fits(#[trigger] regions@[q]@, height as int, width as int),
            forall|q: int| 0 <= q < goals ==> plan_cps_count(#[trigger] plans@[q]) == checkpoints,
            forall|k: int|
                0 <= k < goals ==> #[trigger] listed_count(data@, k, l as int) == layers_cps_sum(
                    plans@[k],
                    layers as int,
                    plans@[k].pieces@.len() as int,
                    l as int,
                ),
            forall|q: int| 0 <= q < layers ==> (#[trigger] layer_edges@[q])@.len() == goals,
            forall|q: int, k: int|
                #![trigger layer_edges@[q]@[k]]
                0 <= q < layers && 0 <= k < goals ==> edges_within(layer_edges@[q]@[k]@, regions@[k]@),
            puzzle@.len() == l * b,
            solution@.len() == l * csi,
            data@.len() == l,
            forall|q: int|
                0 <= q < l ==> layer_ok(block(puzzle@, q, b), block(solution@, q, csi), #[trigger] data@[q], goals as int, height as int, width as int),
            forall|q: int| 0 <= q < l ==> marks_listed(block(puzzle@, q, b), #[trigger] data@[q], goals as int, height as int, width as int),
            goals <= maze_w * maze_h ==> forall|q: int, r: int, k: int|
                0 <= q < l && 0 <= r < goals && 0 <= k < plans@[r].pieces@.len() && drawn_here(plans@[r], k, q, layers as int)
                    ==> #[trigger] passages_open(block(puzzle@, q, b), data@[q], plans@[r].piece_edges@[k]@, r, height as int, width as int),
            forall|q: int, y: int, x: int|
                0 <= q < l && 0 <= y < height && 0 <= x < width && #[trigger] block(solution@, q, csi)[flat(y, x, width as int)] == 1
                    ==> exists|r: int|
                    0 <= r < goals && data@[q].route_owner@[flat(y, x, width as int)] == r as u8 && #[trigger] on_route_path(
                        plans@[r],
                        q,
                        layers as int,
                        (y as usize, x as usize),
                    ),
            forall|q: int, k: int| 0 <= q < l && 0 <= k < goals ==> (#[trigger] data@[q].vias@[k])@.len() <= via_count,
            via_count == 0 || layers <= 1 ==> forall|q: int, k: int|
                0 <= q < l && 0 <= k < goals ==> (#[trigger] data@[q].vias@[k])@.len() == 0,
            checkpoints >= 2 ==> forall|q: int|
                0 <= q < l ==> checkpoints_on_path(block(solution@, q, csi), #[trigger] data@[q], goals as int, width as int),
            checkpoints >= 2 ==> forall|q: int, k: int|
                0 <= q < l && 0 <= k < goals ==> route_linked(
                    block(solution@, q, csi),
                    #[trigger] data@[q],
                    #[trigger] plans@[k],
                    k,
                    q,
                    layers as int,
                    height as int,
                    width as int,
                ),
            forall|q: int, k: int, j: int|
                0 <= q < l && 0 <= k < goals && 0 <= j < data@[q].checkpoints@[k]@.len() ==> cp_here(
                    plans@[k],
                    q,
                    layers as int,
                    #[trigger] data@[q].checkpoints@[k]@[j],
                ),
            goals <= maze_w * maze_h ==> pairwise_disjoint(cell_lists(regions@)),
            goals < 256 && goals <= maze_w * maze_h ==> forall|q: int, k: int, j: int|
                0 <= q < l && 0 <= k < goals && 0 <= j < data@[q].checkpoints@[k]@.len() ==> {
                    let c = #[trigger] data@[q].checkpoints@[k]@[j];
                    &&& block(puzzle@, q, b)[flat(c.0 as int, c.1 as int, width as int)] == 0
                    &&& data@[q].route_owner@[flat(c.0 as int, c.1 as int, width as int)] == k as u8
                },
            goals < 256 && goals <= maze_w * maze_h ==> forall|q: int, k: int, j: int|
                0 <= q < l && 0 <= k < goals && 0 <= j < data@[q].vias@[k]@.len() ==> data@[q].route_owner@[flat(
                    (#[trigger] data@[q].vias@[k]@[j]).0 as int,
                    data@[q].vias@[k]@[j].1 as int,
                    width as int,
                )] == k as u8,
            goals < 256 && goals <= maze_w * maze_h ==> forall|q: int, p: Cell, p2: Cell|
                0 <= q < l && in_bounds(p, height as int, width as int) && in_bounds(p2, height as int, width as int)
                    && adjacent(p, p2) && #[trigger] data@[q].route_owner@[flat(p.0 as int, p.1 as int, width as int)]
                    < goals && #[trigger] data@[q].route_owner@[flat(p2.0 as int, p2.1 as int, width as int)] < goals
                    ==> data@[q].route_owner@[flat(p.0 as int, p.1 as int, width as int)] == data@[q].route_owner@[flat(
                    p2.0 as int,
                    p2.1 as int,
                    width as int,
                )],
            forall|q: int, k: int, j: int|
                0 <= q < l && 0 <= k < goals && 0 <= j < data@[q].vias@[k]@.len() ==> via_here(
                    plans@[k],
                    q,
                    layers as int,
                    #[trigger] data@[q].vias@[k]@[j],
                ),
            checkpoints >= 2 ==> forall|q: int, k: int, v: int|
                0 <= q < l && 0 <= k < goals && 0 <= v < plans@[k].vias@.len() && (v % (layers as int) == q || (v + 1)
                    % (layers as int) == q) ==> #[trigger] data@[q].vias@[k]@.contains(gcell(#[trigger] plans@[k].vias@[v])),
        decreases layers - l,
    {
        proof {
            assert(layer_edges@[l as int]@.len() == goals);
            assert forall|k: int|
                0 <= k < goals implies all_coord_ok(#[trigger] regions@[k]@) && plan_within(plans@[k], regions@[k]@)
                    && edges_within(layer_edges@[l as int]@[k]@, regions@[k]@) by {
                assert(all_coord_ok(regions@[k]@));
                assert(plan_within(plans@[k], regions@[k]@));
                assert(edges_within(layer_edges@[l as int]@[k]@, regions@[k]@));
            }
            assert forall|k: int|
                0 <= k < goals implies plan_drawable(
                #[trigger] plans@[k],
                layer_edges@[l as int]@[k]@,
                l as int,
                regions@[k]@,
                height as int,
                width as int,
            ) by {
                assert(route_laid_out(plans@[k], layer_edges@[0]@[k]@, checkpoints as int));
                assert(region_fits(regions@[k]@, height as int, width as int));
            }
        }
        let (mut chans, mut sol, d) = render_layer(l, &plans, &regions, &layer_edges[l], layers, maze_h, maze_w, height, width, goals);
        let ghost pz0 = puzzle@;
        let ghost so0 = solution@;
        let ghost da0 = data@;
        let ghost ch = chans@;
        let ghost sl = sol@;
        let ghost dd = d;
        proof {
            lemma_blocks(l as int, l as int + 1, b);
            lemma_blocks(l as int, l as int + 1, csi);
            assert((l + 1) * b <= layers * b) by (nonlinear_arith)
                requires
                    l + 1 <= layers,
                    b >= 0,
            ;
        }
        puzzle.append(&mut chans);
        solution.append(&mut sol);
        data.push(d);
        proof {
            assert(puzzle@ == pz0 + ch);
            assert(solution@ == so0 + sl);
            lemma_layer_follows(pz0, so0, da0, ch, sl, dd, puzzle@, solution@, data@, plans@, l as int, layers as int, goals as int, height as int, width as int, goals <= maze_w * maze_h);
            lemma_layer_marks_push(da0, dd, data@, plans@, l as int, layers as int, goals as int, height as int, width as int, goals < 256 && goals <= maze_w * maze_h);
            if goals < 256 && goals <= maze_w * maze_h {
                assert forall|q: int, p: Cell, p2: Cell|
                    0 <= q < l + 1 && in_bounds(p, height as int, width as int) && in_bounds(p2, height as int, width as int)
                        && adjacent(p, p2) && block(puzzle@, q, b)[flat(p.0 as int, p.1 as int, width as int)] == 0 && block(
                        puzzle@,
                        q,
                        b,
                    )[flat(p2.0 as int, p2.1 as int, width as int)] == 0 && #[trigger] data@[q].route_owner@[flat(
                        p.0 as int,
                        p.1 as int,
                        width as int,
                    )] < goals implies #[trigger] data@[q].route_owner@[flat(p2.0 as int, p2.1 as int, width as int)]
                        == data@[q].route_owner@[flat(p.0 as int, p.1 as int, width as int)] by {
                    if q < l {
                        lemma_blocks(q, l as int, b);
                        assert(block(puzzle@, q, b) =~= block(pz0, q, b));
                        assert(data@[q] == da0[q]);
                    } else {
                        assert(ch.len() == b);
                        assert(pz0.len() == q * b);
                        assert((q + 1) * b == q * b + b);
                        assert(block(puzzle@, q, b) =~= ch);
                        assert(data@[q] == dd);
                    }
                }
            }
            assert forall|q: int, k: int, c: Cell|
                0 <= q < l + 1 && 0 <= k < goals && #[trigger] regions@[k]@.contains(c) && !plans@[k].vias@.contains(c)
                    && c.0 < maze_h && c.1 < maze_w implies #[trigger] maze_cell_open(block(puzzle@, q, b), c, width as int) by {
                if q < l {
                    lemma_blocks(q, l as int, b);
                    assert(block(puzzle@, q, b) =~= block(pz0, q, b));
                } else {
                    assert(ch.len() == b);
                    assert(pz0.len() == q * b);
                    assert((q + 1) * b == q * b + b);
                    assert(block(puzzle@, q, b) =~= ch);
                    assert(in_bounds(gcell(c), height as int, width as int));
                }
            }
            assert forall|q: int|
                0 <= q < l + 1 implies layer_ok(block(puzzle@, q, b), block(solution@, q, csi), #[trigger] data@[q], goals as int, height as int, width as int)
                    && marks_listed(block(puzzle@, q, b), data@[q], goals as int, height as int, width as int) by {
                if q < l {
                    lemma_blocks(q, l as int, b);
                    lemma_blocks(q, l as int, csi);
                    assert(block(puzzle@, q, b) =~= block(pz0, q, b));
                    assert(block(solution@, q, csi) =~= block(so0, q, csi));
                    assert(data@[q] == da0[q]);
                } else {
                    assert(ch.len() == b);
                    assert(sl.len() == csi);
                    assert(pz0.len() == q * b);
                    assert(so0.len() == q * csi);
                    assert((q + 1) * b == q * b + b);
                    assert((q + 1) * csi == q * csi + csi);
                    assert(block(puzzle@, q, b) =~= ch);
                    assert(block(solution@, q, csi) =~= sl);
                }
            }
            assert forall|q: int, k: int| 0 <= q < l + 1 && 0 <= k < goals implies (#[trigger] data@[q].vias@[k])@.len() <= via_count by {
                if q < l {
                    assert(data@[q] == da0[q]);
                    assert(da0[q].vias@[k]@.len() <= via_count);
                } else {
                    assert(data@[q] == dd);
                    assert(plans@[k].vias@.len() <= via_count);
                    assert(dd.vias@[k]@.len() <= plans@[k].vias@.len());
                }
            }
            if via_count == 0 || layers <= 1 {
                assert forall|q: int, k: int| 0 <= q < l + 1 && 0 <= k < goals implies (#[trigger] data@[q].vias@[k])@.len() == 0 by {
                    if q < l {
                        assert(data@[q] == da0[q]);
                        assert(da0[q].vias@[k]@.len() == 0);
                    } else {
                        assert(data@[q] == dd);
                        assert(plans@[k].vias@.len() == 0);
                        assert(dd.vias@[k]@.len() == 0);
                    }
                }
            }
            assert forall|k: int|
                0 <= k < goals implies #[trigger] listed_count(data@, k, l as int + 1) == layers_cps_sum(
                plans@[k],
                layers as int,
                plans@[k].pieces@.len() as int,
                l as int + 1,
            ) by {
                assert forall|q: int| 0 <= q < l implies data@[q] == da0[q] by {}
                lemma_listed_count_same(data@, da0, k, l as int);
                assert(data@[l as int] == dd);
                assert(dd.checkpoints@[k]@.len() == layer_cps_count(plans@[k], l as int, layers as int, plans@[k].pieces@.len() as int));
            }
            assert forall|q: int, k: int|
                0 <= q < l + 1 && 0 <= k < goals implies (#[trigger] data@[q].checkpoints@[k])@.len() == layer_cps_count(
                plans@[k],
                q,
                layers as int,
                plans@[k].pieces@.len() as int,
            ) by {
                if q < l {
                    assert(data@[q] == da0[q]);
                    assert(da0[q].checkpoints@[k]@.len() == layer_cps_count(plans@[k], q, layers as int, plans@[k].pieces@.len() as int));
                } else {
                    assert(data@[q] == dd);
                    assert(dd.checkpoints@[k]@.len() == layer_cps_count(plans@[k], l as int, layers as int, plans@[k].pieces@.len() as int));
                }
            }
            assert forall|q: int, k: int, j: int|
                0 <= q < l + 1 && 0 <= k < goals && 0 <= j < data@[q].checkpoints@[k]@.len() implies cp_here(
                plans@[k],
                q,
                layers as int,
                #[trigger] data@[q].checkpoints@[k]@[j],
            ) by {
                if q < l {
                    assert(data@[q] == da0[q]);
                    assert(cp_here(plans@[k], q, layers as int, da0[q].checkpoints@[k]@[j]));
                } else {
                    assert(data@[q] == dd);
                    assert(cp_here(plans@[k], l as int, layers as int, dd.checkpoints@[k]@[j]));
                }
            }
            if goals < 256 && goals <= maze_w * maze_h {
                assert forall|q: int, k: int, j: int|
                    0 <= q < l + 1 && 0 <= k < goals && 0 <= j < data@[q].checkpoints@[k]@.len() implies {
                        let c = #[trigger] data@[q].checkpoints@[k]@[j];
                        &&& block(puzzle@, q, b)[flat(c.0 as int, c.1 as int, width as int)] == 0
                        &&& data@[q].route_owner@[flat(c.0 as int, c.1 as int, width as int)] == k as u8
                    } by {
                    let c = data@[q].checkpoints@[k]@[j];
                    if q < l {
                        lemma_blocks(q, l as int, b);
                        assert(block(puzzle@, q, b) =~= block(pz0, q, b));
                        assert(data@[q] == da0[q]);
                    } else {
                        assert(ch.len() == b);
                        assert(pz0.len() == q * b);
                        assert((q + 1) * b == q * b + b);
                        assert(block(puzzle@, q, b) =~= ch);
                        assert(data@[q] == dd);
                    }
                }
                assert forall|q: int, k: int, j: int|
                    0 <= q < l + 1 && 0 <= k < goals && 0 <= j < data@[q].vias@[k]@.len() implies data@[q].route_owner@[flat(
                    (#[trigger] data@[q].vias@[k]@[j]).0 as int,
                    data@[q].vias@[k]@[j].1 as int,
                    width as int,
                )] == k as u8 by {
                    if q < l {
                        assert(data@[q] == da0[q]);
                    } else {
                        assert(data@[q] == dd);
                    }
                }
                assert forall|q: int, p: Cell, p2: Cell|
                    0 <= q < l + 1 && in_bounds(p, height as int, width as int) && in_bounds(p2, height as int, width as int)
                        && adjacent(p, p2) && #[trigger] data@[q].route_owner@[flat(p.0 as int, p.1 as int, width as int)]
                        < goals && #[trigger] data@[q].route_owner@[flat(p2.0 as int, p2.1 as int, width as int)] < goals
                        implies data@[q].route_owner@[flat(p.0 as int, p.1 as int, width as int)] == data@[q].route_owner@[flat(
                    p2.0 as int,
                    p2.1 as int,
                    width as int,
                )] by {
                    if q < l {
                        assert(data@[q] == da0[q]);
                    } else {
                        assert(data@[q] == dd);
                    }
                }
            }
            assert forall|q: int, k: int, j: int|
                0 <= q < l + 1 && 0 <= k < goals && 0 <= j < data@[q].vias@[k]@.len() implies via_here(
                plans@[k],
                q,
                layers as int,
                #[trigger] data@[q].vias@[k]@[j],
            ) by {
                if q < l {
                    assert(data@[q] == da0[q]);
                    assert(via_here(plans@[k], q, layers as int, da0[q].vias@[k]@[j]));
                } else {
                    assert(data@[q] == dd);
                    assert(via_here(plans@[k], l as int, layers as int, dd.vias@[k]@[j]));
                }
            }
            if checkpoints >= 2 {
                assert forall|q: int, k: int|
                    0 <= q < l + 1 && 0 <= k < goals implies route_linked(
                    block(solution@, q, csi),
                    #[trigger] data@[q],
                    #[trigger] plans@[k],
                    k,
                    q,
                    layers as int,
                    height as int,
                    width as int,
                ) by {
                    if q < l {
                        lemma_blocks(q, l as int, csi);
                        assert(block(solution@, q, csi) =~= block(so0, q, csi));
                        assert(data@[q] == da0[q]);
                        assert(route_linked(block(so0, q, csi), da0[q], plans@[k], k, q, layers as int, height as int, width as int));
                    } else {
                        assert(sl.len() == csi);
                        assert(so0.len() == q * csi);
                        assert((q + 1) * csi == q * csi + csi);
                        assert(block(solution@, q, csi) =~= sl);
                        assert(data@[q] == dd);
                    }
                }
                assert forall|q: int, k: int, v: int|
                    0 <= q < l + 1 && 0 <= k < goals && 0 <= v < plans@[k].vias@.len() && (v % (layers as int) == q || (v
                        + 1) % (layers as int) == q) implies #[trigger] data@[q].vias@[k]@.contains(
                    gcell(#[trigger] plans@[k].vias@[v]),
                ) by {
                    if q < l {
                        assert(data@[q] == da0[q]);
                    } else {
                        assert(data@[q] == dd);
                    }
                }
                assert forall|q: int|
                    0 <= q < l + 1 implies checkpoints_on_path(
                    block(solution@, q, csi),
                    #[trigger] data@[q],
                    goals as int,
                    width as int,
                ) by {
                    if q < l {
                        lemma_blocks(q, l as int, csi);
                        assert(block(solution@, q, csi) =~= block(so0, q, csi));
                        assert(data@[q] == da0[q]);
                    } else {
                        assert(sl.len() == csi);
                        assert(so0.len() == q * csi);
                        assert((q + 1) * csi == q * csi + csi);
                        assert(block(solution@, q, csi) =~= sl);
                        assert(data@[q] == dd);
                        assert forall|k: int, j: int|
                            0 <= k < goals && 0 <= j < dd.checkpoints@[k]@.len() implies sl[flat(
                            (#[trigger] dd.checkpoints@[k]@[j]).0 as int,
                            dd.checkpoints@[k]@[j].1 as int,
                            width as int,
                        )] == 1 by {
                            assert(plans@[k].vias@.len() == 0 ==> plans@[k].checkpoints@[0]@.len() >= checkpoints);
                        }
                    }
                }
            }
        }
        l = l + 1;
    }
    let m = MazeMap { puzzle, solution };
    proof {
        assert forall|r: int| 0 <= r < goals implies #[trigger] listed_count(data@, r, layers as int) == checkpoints by {
            let plan = plans@[r];
            assert(plan_within(plan, regions@[r]@));
            lemma_layers_cps_total(plan, layers as int, plan.pieces@.len() as int);
            assert(plan_cps_count(plan) == checkpoints);
        }
        if checkpoints >= 2 {
            assert forall|r: int, l1: int, j1: int, l2: int, j2: int|
                #![trigger data@[l1].checkpoints@[r]@[j1], data@[l2].checkpoints@[r]@[j2]]
                0 <= r < goals && 0 <= l1 < layers && 0 <= l2 < layers && 0 <= j1 < data@[l1].checkpoints@[r]@.len() && 0
                    <= j2 < data@[l2].checkpoints@[r]@.len() implies route_connects(
                m,
                data@,
                layers as int,
                r,
                height as int,
                width as int,
                (l1, data@[l1].checkpoints@[r]@[j1]),
                (l2, data@[l2].checkpoints@[r]@[j2]),
            ) by {
                let plan = plans@[r];
                let hh = height as int;
                let ww = width as int;
                assert(plan_within(plan, regions@[r]@));
                assert(route_laid_out(plan, layer_edges@[0]@[r]@, checkpoints as int));
                assert(route_drawn(m, data@, plan, layers as int, r, hh, ww)) by {
                    assert forall|q: int| 0 <= q < layers implies #[trigger] route_linked(
                        block(m.solution@, q, hh * ww),
                        data@[q],
                        plan,
                        r,
                        q,
                        layers as int,
                        hh,
                        ww,
                    ) by {
                        assert(route_linked(block(solution@, q, csi), data@[q], plans@[r], r, q, layers as int, hh, ww));
                    }
                    assert forall|q: int, v: int|
                        0 <= q < layers && 0 <= v < plan.vias@.len() && (v % (layers as int) == q || (v + 1) % (layers as int)
                            == q) implies #[trigger] data@[q].vias@[r]@.contains(gcell(#[trigger] plan.vias@[v])) by {
                        assert(data@[q].vias@[r]@.contains(gcell(plans@[r].vias@[v])));
                    }
                    if plan.vias@.len() > 0 {
                        assert(!(via_count == 0 || layers <= 1));
                    }
                }
                let c1 = data@[l1].checkpoints@[r]@[j1];
                let c2 = data@[l2].checkpoints@[r]@[j2];
                assert(cp_here(plan, l1, layers as int, c1));
                assert(cp_here(plan, l2, layers as int, c2));
                let (k1, i1) = choose|k: int, i: int|
                    0 <= k < plan.pieces@.len() && (if plan.vias@.len() == 0 {
                        l1 == 0
                    } else {
                        piece_on_layer(k, l1, layers as int)
                    }) && 0 <= i < plan.checkpoints@[k]@.len() && c1 == gcell(#[trigger] plan.checkpoints@[k]@[i]);
                let (k2, i2) = choose|k: int, i: int|
                    0 <= k < plan.pieces@.len() && (if plan.vias@.len() == 0 {
                        l2 == 0
                    } else {
                        piece_on_layer(k, l2, layers as int)
                    }) && 0 <= i < plan.checkpoints@[k]@.len() && c2 == gcell(#[trigger] plan.checkpoints@[k]@[i]);
                let o1: int = if k1 > 0 { 1int } else { 0int };
                let o2: int = if k2 > 0 { 1int } else { 0int };
                assert(waypoints(plan, k1)[o1 + i1] == plan.checkpoints@[k1]@[i1]);
                assert(waypoints(plan, k2)[o2 + i2] == plan.checkpoints@[k2]@[i2]);
                lemma_waypoints_connected(m, data@, plan, layers as int, r, hh, ww, k1, o1 + i1, k2, o2 + i2);
                assert(waypoint_stop(plan, k1, o1 + i1, layers as int) == (l1, c1));
                assert(waypoint_stop(plan, k2, o2 + i2, layers as int) == (l2, c2));
            }
        }
        lemma_marks_exact(m, data@, layers as int, goals as int, height as int, width as int);
        assert(solution_follows(m, data@, plans@, layers as int, goals as int, height as int, width as int, (width / 2) * (height / 2)));
        lemma_final_marks(
            m,
            data@,
            plans@,
            regions@,
            layers as int,
            goals as int,
            checkpoints as int,
            via_count as int,
            height as int,
            width as int,
            goals <= maze_w * maze_h,
        );
        if goals >= 1 && checkpoints >= 2 {
            lemma_final_open(m, data@, plans@, regions@, layers as int, goals as int, maze_h as int, maze_w as int, width as int, b);
        }
        if goals < 256 && checkpoints >= 2 {
            lemma_checkpoints_connected_in_puzzle(m, data@, layers as int, goals as int, height as int, width as int);
            assert forall|q: int, k: int|
                0 <= q < goals && 0 <= k < plans@[q].pieces@.len() implies (#[trigger] waypoints(plans@[q], k)).len()
                >= 2 by {
                assert(route_laid_out(plans@[q], layer_edges@[0]@[q]@, checkpoints as int));
            }
            assert forall|q: int| 0 <= q < goals implies pieces_apart(#[trigger] plans@[q]) && plans@[q].vias@.no_duplicates() by {
                assert(spans_hold_edges(plans@[q]) && pieces_apart(plans@[q]));
            }
            assert forall|q: int| 0 <= q < goals && (#[trigger] plans@[q]).vias@.len() > 0 implies layers >= 2 by {
                if layers <= 1 {
                    assert(plans@[q].vias@.len() == 0);
                }
            }
            lemma_final_vias_needed_owned(m, data@, plans@, regions@, layers as int, goals as int, height as int, width as int);
            assert(routes_sealed(m, data@, layers as int, goals as int, height as int, width as int));
            assert forall|l: int, r: int, j: int, owned_only: bool|
                0 <= l < layers && 0 <= r < goals && 0 <= j < data@[l].vias@[r]@.len() implies #[trigger] via_needed(
                m,
                data@,
                layers as int,
                goals as int,
                r,
                height as int,
                width as int,
                owned_only,
                data@[l].vias@[r]@[j],
            ) by {
                assert(via_needed(m, data@, layers as int, goals as int, r, height as int, width as int, true, data@[l].vias@[r]@[j]));
                if !owned_only {
                    lemma_via_needed_open(m, data@, layers as int, goals as int, r, height as int, width as int, data@[l].vias@[r]@[j]);
                }
            }
        }
    }
    (m, data)
}

/// Every maze cell of every layer is open in the finished map, but for the
/// vias: each cell lies in some route's region, where it is open unless it is
/// one of that route's vias, and those are listed.
proof fn lemma_final_open(
    m: MazeMap,
    data: Seq<LayerRouteData>,
    plans: Seq<RoutePlan>,
    regions: Seq<Vec<Cell>>,
    layers: int,
    goals: int,
    mh: int,
    mw: int,
    w: int,
    b: int,
)
    requires
        data.len() == layers,
        plans.len() == goals,
        regions.len() == goals,
        layers >= 1,
        forall|c: Cell| in_bounds(c, mh, mw) ==> #[trigger] covered(cell_lists(regions), c),
        forall|q: int, k: int, c: Cell|
            0 <= q < layers && 0 <= k < goals && #[trigger] regions[k]@.contains(c) && !plans[k].vias@.contains(c) && c.0
                < mh && c.1 < mw ==> #[trigger] maze_cell_open(block(m.puzzle@, q, b), c, w),
        forall|q: int, k: int, v: int|
            0 <= q < layers && 0 <= k < goals && 0 <= v < plans[k].vias@.len() && (v % layers == q || (v + 1) % layers == q)
                ==> #[trigger] data[q].vias@[k]@.contains(gcell(#[trigger] plans[k].vias@[v])),
    ensures
        forall|q: int, c: Cell|
            0 <= q < layers && c.0 < mh && c.1 < mw && (forall|l2: int, r: int, j: int|
                0 <= l2 < layers && 0 <= r < goals && 0 <= j < data[l2].vias@[r]@.len() ==> data[l2].vias@[r]@[j] != gcell(
                    c,
                )) ==> #[trigger] maze_cell_open(block(m.puzzle@, q, b), c, w),
{
    assert forall|q: int, c: Cell|
        0 <= q < layers && c.0 < mh && c.1 < mw && (forall|l2: int, r: int, j: int|
            0 <= l2 < layers && 0 <= r < goals && 0 <= j < data[l2].vias@[r]@.len() ==> data[l2].vias@[r]@[j] != gcell(
                c,
            )) implies #[trigger] maze_cell_open(block(m.puzzle@, q, b), c, w) by {
        assert(in_bounds(c, mh, mw));
        assert(covered(cell_lists(regions), c));
        let k = choose|k: int| 0 <= k < cell_lists(regions).len() && #[trigger] cell_lists(regions)[k].contains(c);
        assert(cell_lists(regions)[k] == regions[k]@);
        if plans[k].vias@.contains(c) {
            let v = plans[k].vias@.index_of(c);
            let q2 = v % layers;
            assert(data[q2].vias@[k]@.contains(gcell(plans[k].vias@[v])));
            let j = data[q2].vias@[k]@.index_of(gcell(c));
            assert(data[q2].vias@[k]@[j] == gcell(c));
        }
    }
}

/// Appending a drawn layer keeps what the layers so far list of the routes'
/// checkpoints, and where the cells each route owns lie.
proof fn lemma_layer_marks_push(
    da0: Seq<LayerRouteData>,
    dd: LayerRouteData,
    data: Seq<LayerRouteData>,
    plans: Seq<RoutePlan>,
    l: int,
    layers: int,
    goals: int,
    height: int,
    width: int,
    owners_kept: bool,
)
    requires
        da0.len() == l,
        data == da0.push(dd),
        forall|q: int, k: int, j: int, i: int|
            #![trigger da0[q].checkpoints@[k], plans[k].checkpoints@[j]@[i]]
            0 <= q < l && 0 <= k < goals && 0 <= j < plans[k].pieces@.len() && listed_here(plans[k], j, q, layers) && 0 <= i
                < plans[k].checkpoints@[j]@.len() ==> da0[q].checkpoints@[k]@.contains(gcell(plans[k].checkpoints@[j]@[i])),
        forall|r: int, k: int, i: int|
            0 <= r < goals && 0 <= k < plans[r].pieces@.len() && listed_here(plans[r], k, l, layers) && 0 <= i
                < plans[r].checkpoints@[k]@.len() ==> dd.checkpoints@[r]@.contains(gcell(#[trigger] plans[r].checkpoints@[k]@[i])),
        owners_kept ==> forall|q: int, k: int, d: Cell|
            #![trigger da0[q].route_owner@[flat(d.0 as int, d.1 as int, width)], plans[k]]
            0 <= q < l && 0 <= k < goals && in_bounds(d, height, width) && da0[q].route_owner@[flat(d.0 as int, d.1 as int, width)]
                == k as u8 && plans[k].vias@.len() > 0 ==> owned_by_piece(plans[k], d, q, layers),
        owners_kept ==> forall|r: int, d: Cell|
            #![trigger dd.route_owner@[flat(d.0 as int, d.1 as int, width)], plans[r]]
            0 <= r < goals && in_bounds(d, height, width) && dd.route_owner@[flat(d.0 as int, d.1 as int, width)] == r as u8
                && plans[r].vias@.len() > 0 ==> owned_by_piece(plans[r], d, l, layers),
    ensures
        forall|q: int, k: int, j: int, i: int|
            #![trigger data[q].checkpoints@[k], plans[k].checkpoints@[j]@[i]]
            0 <= q < l + 1 && 0 <= k < goals && 0 <= j < plans[k].pieces@.len() && listed_here(plans[k], j, q, layers) && 0 <= i
                < plans[k].checkpoints@[j]@.len() ==> data[q].checkpoints@[k]@.contains(gcell(plans[k].checkpoints@[j]@[i])),
        owners_kept ==> forall|q: int, k: int, d: Cell|
            #![trigger data[q].route_owner@[flat(d.0 as int, d.1 as int, width)], plans[k]]
            0 <= q < l + 1 && 0 <= k < goals && in_bounds(d, height, width) && data[q].route_owner@[flat(d.0 as int, d.1 as int, width)]
                == k as u8 && plans[k].vias@.len() > 0 ==> owned_by_piece(plans[k], d, q, layers),
{
    assert forall|q: int, k: int, j: int, i: int|
        #![trigger data[q].checkpoints@[k], plans[k].checkpoints@[j]@[i]]
        0 <= q < l + 1 && 0 <= k < goals && 0 <= j < plans[k].pieces@.len() && listed_here(plans[k], j, q, layers) && 0 <= i
            < plans[k].checkpoints@[j]@.len() implies data[q].checkpoints@[k]@.contains(gcell(plans[k].checkpoints@[j]@[i])) by {
        if q < l {
            assert(data[q] == da0[q]);
        } else {
            assert(data[q] == dd);
        }
    }
    if owners_kept {
        assert forall|q: int, k: int, d: Cell|
            #![trigger data[q].route_owner@[flat(d.0 as int, d.1 as int, width)], plans[k]]
            0 <= q < l + 1 && 0 <= k < goals && in_bounds(d, height, width) && data[q].route_owner@[flat(d.0 as int, d.1 as int, width)]
                == k as u8 && plans[k].vias@.len() > 0 implies owned_by_piece(plans[k], d, q, layers) by {
            if q < l {
                assert(data[q] == da0[q]);
            } else {
                assert(data[q] == dd);
            }
        }
    }
}

/// What the finished layers show of every route's checkpoints and vias.
#[verifier::rlimit(50)]
proof fn lemma_final_marks(
    m: MazeMap,
    data: Seq<LayerRouteData>,
    plans: Seq<RoutePlan>,
    regions: Seq<Vec<Cell>>,
    layers: int,
    goals: int,
    checkpoints: int,
    via_count: int,
    height: int,
    width: int,
    disj: bool,
)
    requires
        disj ==> pairwise_disjoint(cell_lists(regions)),
        layers >= 1,
        data.len() == layers,
        plans.len() == goals,
        regions.len() == goals,
        forall|q: int| 0 <= q < goals ==> all_coord_ok(#[trigger] regions[q]@) && regions[q]@.len() > 0,
        forall|q: int| 0 <= q < goals ==> plan_within(#[trigger] plans[q], regions[q]@),
        forall|q: int| 0 <= q < goals && (via_count == 0 || layers <= 1) ==> (#[trigger] plans[q]).vias@.len() == 0,
        forall|q: int|
            0 <= q < goals && via_count > 0 && layers > 1 && regions[q]@.len() >= 2 ==> (#[trigger] plans[q]).vias@.len() >= 1,
        checkpoints >= 2 ==> pairwise_disjoint(cell_lists(regions)),
        forall|q: int| 0 <= q < layers ==> (#[trigger] data[q]).checkpoints@.len() == goals && data[q].vias@.len() == goals,
        forall|q: int, k: int, j: int|
            0 <= q < layers && 0 <= k < goals && 0 <= j < data[q].checkpoints@[k]@.len() ==> cp_here(
                plans[k],
                q,
                layers,
                #[trigger] data[q].checkpoints@[k]@[j],
            ),
        forall|q: int, k: int, j: int|
            0 <= q < layers && 0 <= k < goals && 0 <= j < data[q].vias@[k]@.len() ==> via_here(
                plans[k],
                q,
                layers,
                #[trigger] data[q].vias@[k]@[j],
            ),
        checkpoints >= 2 ==> forall|q: int, k: int, v: int|
            0 <= q < layers && 0 <= k < goals && 0 <= v < plans[k].vias@.len() && (v % layers == q || (v + 1) % layers == q)
                ==> #[trigger] data[q].vias@[k]@.contains(gcell(#[trigger] plans[k].vias@[v])),
        checkpoints >= 2 ==> forall|k: int| 0 <= k < goals ==> route_drawn(m, data, #[trigger] plans[k], layers, k, height, width),
    ensures
        checkpoints >= 2 && via_count > 0 && layers > 1 ==> forall|r: int|
            0 <= r < goals ==> (#[trigger] data[0].vias@[r])@.len() >= 1 || one_checkpoint_cell(data, r, layers),
        forall|l: int, r: int, j: int|
            0 <= l < layers && 0 <= r < goals && 0 <= j < data[l].checkpoints@[r]@.len() ==> odd_cell(
                #[trigger] data[l].checkpoints@[r]@[j],
            ),
        forall|l: int, r: int, j: int|
            0 <= l < layers && 0 <= r < goals && 0 <= j < data[l].vias@[r]@.len() ==> odd_cell(
                #[trigger] data[l].vias@[r]@[j],
            ),
        checkpoints >= 2 ==> forall|l: int, r: int, j: int|
            0 <= l < layers && 0 <= r < goals && 0 <= j < data[l].checkpoints@[r]@.len() ==> path_cell(
                block(m.solution@, l, height * width),
                data[l],
                #[trigger] data[l].checkpoints@[r]@[j],
                r,
                height,
                width,
            ),
        checkpoints >= 2 ==> forall|l: int, r: int, j: int|
            0 <= l < layers && 0 <= r < goals && 0 <= j < data[l].vias@[r]@.len() ==> path_cell(
                block(m.solution@, l, height * width),
                data[l],
                #[trigger] data[l].vias@[r]@[j],
                r,
                height,
                width,
            ),
        disj ==> forall|l1: int, r1: int, j1: int, l2: int, r2: int, j2: int|
            0 <= l1 < layers && 0 <= l2 < layers && 0 <= r1 < goals && 0 <= r2 < goals && r1 != r2 && 0 <= j1
                < data[l1].vias@[r1]@.len() && 0 <= j2 < data[l2].vias@[r2]@.len() ==> #[trigger] data[l1].vias@[r1]@[j1]
                != #[trigger] data[l2].vias@[r2]@[j2],
        checkpoints >= 2 ==> forall|r: int, l1: int, j1: int, l2: int, j2: int|
            #![trigger data[l1].checkpoints@[r]@[j1], data[l2].vias@[r]@[j2]]
            0 <= r < goals && 0 <= l1 < layers && 0 <= l2 < layers && 0 <= j1 < data[l1].checkpoints@[r]@.len() && 0
                <= j2 < data[l2].vias@[r]@.len() ==> route_connects(
                m,
                data,
                layers,
                r,
                height,
                width,
                (l1, data[l1].checkpoints@[r]@[j1]),
                (l2, data[l2].vias@[r]@[j2]),
            ),
{
    assert forall|l: int, r: int, j: int|
        0 <= l < layers && 0 <= r < goals && 0 <= j < data[l].checkpoints@[r]@.len() implies odd_cell(
        #[trigger] data[l].checkpoints@[r]@[j],
    ) by {
        let plan = plans[r];
        let g = data[l].checkpoints@[r]@[j];
        assert(cp_here(plan, l, layers, g));
        let (k, i) = choose|k: int, i: int|
            0 <= k < plan.pieces@.len() && (if plan.vias@.len() == 0 {
                l == 0
            } else {
                piece_on_layer(k, l, layers)
            }) && 0 <= i < plan.checkpoints@[k]@.len() && g == gcell(#[trigger] plan.checkpoints@[k]@[i]);
        assert(plan_within(plan, regions[r]@));
        assert(cells_within(plan.checkpoints@[k]@, regions[r]@));
        lemma_within_coord_ok(plan.checkpoints@[k]@, regions[r]@);
        lemma_gcell_odd(plan.checkpoints@[k]@[i]);
    }
    assert forall|l: int, r: int, j: int|
        0 <= l < layers && 0 <= r < goals && 0 <= j < data[l].vias@[r]@.len() implies odd_cell(
        #[trigger] data[l].vias@[r]@[j],
    ) by {
        let plan = plans[r];
        let g = data[l].vias@[r]@[j];
        assert(via_here(plan, l, layers, g));
        let k = choose|k: int|
            0 <= k < plan.vias@.len() && (k % layers == l || (k + 1) % layers == l) && g == gcell(
                #[trigger] plan.vias@[k],
            );
        assert(plan_within(plan, regions[r]@));
        lemma_within_coord_ok(plan.vias@, regions[r]@);
        lemma_gcell_odd(plan.vias@[k]);
    }
    if disj {
        assert forall|l1: int, r1: int, j1: int, l2: int, r2: int, j2: int|
            0 <= l1 < layers && 0 <= l2 < layers && 0 <= r1 < goals && 0 <= r2 < goals && r1 != r2 && 0 <= j1
                < data[l1].vias@[r1]@.len() && 0 <= j2 < data[l2].vias@[r2]@.len() implies #[trigger] data[l1].vias@[r1]@[j1]
                != #[trigger] data[l2].vias@[r2]@[j2] by {
            let p1 = plans[r1];
            let p2 = plans[r2];
            let g1 = data[l1].vias@[r1]@[j1];
            let g2 = data[l2].vias@[r2]@[j2];
            assert(via_here(p1, l1, layers, g1));
            assert(via_here(p2, l2, layers, g2));
            let k1 = choose|k: int| 0 <= k < p1.vias@.len() && (k % layers == l1 || (k + 1) % layers == l1) && g1 == gcell(#[trigger] p1.vias@[k]);
            let k2 = choose|k: int| 0 <= k < p2.vias@.len() && (k % layers == l2 || (k + 1) % layers == l2) && g2 == gcell(#[trigger] p2.vias@[k]);
            assert(plan_within(p1, regions[r1]@) && plan_within(p2, regions[r2]@));
            lemma_within_coord_ok(p1.vias@, regions[r1]@);
            lemma_within_coord_ok(p2.vias@, regions[r2]@);
            assert(regions[r1]@.contains(p1.vias@[k1]));
            assert(regions[r2]@.contains(p2.vias@[k2]));
            if g1 == g2 {
                lemma_gcell_injective(p1.vias@[k1], p2.vias@[k2]);
                assert(cell_lists(regions)[r1] == regions[r1]@);
                assert(cell_lists(regions)[r2] == regions[r2]@);
                assert(cell_lists(regions)[r1].contains(p1.vias@[k1]));
                assert(cell_lists(regions)[r2].contains(p1.vias@[k1]));
            }
        }
    }
    if checkpoints >= 2 {
        assert forall|l: int, r: int, j: int|
            0 <= l < layers && 0 <= r < goals && 0 <= j < data[l].checkpoints@[r]@.len() implies path_cell(
            block(m.solution@, l, height * width),
            data[l],
            #[trigger] data[l].checkpoints@[r]@[j],
            r,
            height,
            width,
        ) by {
            assert(route_drawn(m, data, plans[r], layers, r, height, width));
            assert(all_coord_ok(regions[r]@));
            lemma_listed_marks(m, data, plans[r], regions[r]@, layers, r, height, width);
        }
        assert forall|l: int, r: int, j: int|
            0 <= l < layers && 0 <= r < goals && 0 <= j < data[l].vias@[r]@.len() implies path_cell(
            block(m.solution@, l, height * width),
            data[l],
            #[trigger] data[l].vias@[r]@[j],
            r,
            height,
            width,
        ) by {
            assert(route_drawn(m, data, plans[r], layers, r, height, width));
            assert(all_coord_ok(regions[r]@));
            lemma_listed_marks(m, data, plans[r], regions[r]@, layers, r, height, width);
        }
        assert forall|r: int, l1: int, j1: int, l2: int, j2: int|
            #![trigger data[l1].checkpoints@[r]@[j1], data[l2].vias@[r]@[j2]]
            0 <= r < goals && 0 <= l1 < layers && 0 <= l2 < layers && 0 <= j1 < data[l1].checkpoints@[r]@.len() && 0
                <= j2 < data[l2].vias@[r]@.len() implies route_connects(
            m,
            data,
            layers,
            r,
            height,
            width,
            (l1, data[l1].checkpoints@[r]@[j1]),
            (l2, data[l2].vias@[r]@[j2]),
        ) by {
            assert(route_drawn(m, data, plans[r], layers, r, height, width));
            assert(all_coord_ok(regions[r]@));
            lemma_listed_marks(m, data, plans[r], regions[r]@, layers, r, height, width);
        }
        if via_count > 0 && layers > 1 {
            assert forall|r: int| 0 <= r < goals implies (#[trigger] data[0].vias@[r])@.len() >= 1 || one_checkpoint_cell(
                data,
                r,
                layers,
            ) by {
                let plan = plans[r];
                if plan.vias@.len() >= 1 {
                    assert(0int % layers == 0);
                    assert(data[0].vias@[r]@.contains(gcell(plan.vias@[0])));
                } else {
                    assert(regions[r]@.len() == 1);
                    assert(plan_within(plan, regions[r]@));
                    assert forall|l1: int, j1: int, l2: int, j2: int|
                        0 <= l1 < layers && 0 <= l2 < layers && 0 <= j1 < data[l1].checkpoints@[r]@.len() && 0 <= j2
                            < data[l2].checkpoints@[r]@.len() implies #[trigger] data[l1].checkpoints@[r]@[j1]
                            == #[trigger] data[l2].checkpoints@[r]@[j2] by {
                        let g1 = data[l1].checkpoints@[r]@[j1];
                        let g2 = data[l2].checkpoints@[r]@[j2];
                        assert(cp_here(plan, l1, layers, g1));
                        assert(cp_here(plan, l2, layers, g2));
                        let (a1, b1) = choose|k: int, i: int|
                            0 <= k < plan.pieces@.len() && (if plan.vias@.len() == 0 {
                                l1 == 0
                            } else {
                                piece_on_layer(k, l1, layers)
                            }) && 0 <= i < plan.checkpoints@[k]@.len() && g1 == gcell(#[trigger] plan.checkpoints@[k]@[i]);
                        let (a2, b2) = choose|k: int, i: int|
                            0 <= k < plan.pieces@.len() && (if plan.vias@.len() == 0 {
                                l2 == 0
                            } else {
                                piece_on_layer(k, l2, layers)
                            }) && 0 <= i < plan.checkpoints@[k]@.len() && g2 == gcell(#[trigger] plan.checkpoints@[k]@[i]);
                        assert(cells_within(plan.checkpoints@[a1]@, regions[r]@));
                        assert(cells_within(plan.checkpoints@[a2]@, regions[r]@));
                        assert(regions[r]@.contains(plan.checkpoints@[a1]@[b1]));
                        assert(regions[r]@.contains(plan.checkpoints@[a2]@[b2]));
                    }
                }
            }
        }
    }
}

/// Carves a depth-first maze over a region and returns its passages.
fn generate_maze_dfs_in(
    rng: &mut rand::rngs::StdRng,
    region: &Vec<Cell>,
    maze_w: usize,
    maze_h: usize,
) -> (edges: Vec<Edge>)
    requires
        all_coord_ok(region@),
        region@.len() > 0,
        grows_connected(region@),
        all_in_bounds(region@, maze_h as int, maze_w as int),
    ensures
        edges_within(edges@, region@),
        tree_spans(edges@, region@),
        is_grown_tree(edges@),
{
    let edges = crate::maze::generate_maze_dfs(rng, region, maze_w, maze_h);
    proof {
        assert(passages_in(edges@, region@));
        let (order, par) = choose|order: Seq<Cell>, par: Seq<int>|
            {
                &&& #[trigger] tree_parents(edges@, order, par)
                &&& grown_tree(edges@, order)
                &&& region@.contains(order[0])
                &&& closed_in_region(order, region@, maze_h as int, maze_w as int)
                &&& depth_first(order, par)
            };
        lemma_maze_spans_region(edges@, order, region@, maze_h as int, maze_w as int);
        assert forall|i: int| 0 <= i < region@.len() implies #[trigger] reachable(edges@, order[0], region@[i]) by {
            assert(order.contains(region@[i]));
            let t = choose|t: int| 0 <= t < order.len() && order[t] == region@[i];
            lemma_grown_tree_reachable(edges@, order, t);
        }
        assert(spans_from(edges@, region@, order[0]));
        assert(grown_tree(edges@, order));
    }
    edges
}


/// The seed of map number `i` in a batch: `i * 0xDEADBEEF + 0xCAFE`, wrapping
/// around at 2^64.
pub fn map_seed(i: u64) -> (seed: u64)
    ensures
        seed == ((i as int * 0xDEADBEEF) % 0x1_0000_0000_0000_0000 + 0xCAFE) % 0x1_0000_0000_0000_0000,
{
    let m = i.wrapping_mul(0xDEADBEEF);
    m.wrapping_add(0xCAFE)
}

} // verus!
