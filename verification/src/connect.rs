use vstd::prelude::*;
use crate::generation::{block, cp_here, flat_linked, flat_trail, gcell, layer_ok, path_cell, piece_on_layer, route_linked, via_here};
use crate::grid::{Cell, adjacent, flat};
use crate::plan::{RoutePlan, waypoints};
use crate::types::{LayerRouteData, MazeMap};

verus! {

/// The stop `s` (a layer and a cell of its grid) is a path cell of route `r`
/// on that layer.
pub open spec fn route_stop(m: MazeMap, data: Seq<LayerRouteData>, layers: int, r: int, h: int, w: int, s: (int, Cell)) -> bool {
    &&& 0 <= s.0 < layers
    &&& path_cell(block(m.solution@, s.0, h * w), data[s.0], s.1, r, h, w)
}

/// One move of route `r`: to a 4-adjacent cell on the same layer, or through
/// a via of the route, listed on both layers, to the same cell on another
/// layer.
pub open spec fn route_step(data: Seq<LayerRouteData>, r: int, a: (int, Cell), b: (int, Cell)) -> bool {
    ||| a.0 == b.0 && adjacent(a.1, b.1)
    ||| a.1 == b.1 && a.0 != b.0 && data[a.0].vias@[r]@.contains(a.1) && data[b.0].vias@[r]@.contains(b.1)
}

/// `p` is a walk of route `r` through the layers of a map: path cells of the
/// route, one move apart.
pub open spec fn route_walk(m: MazeMap, data: Seq<LayerRouteData>, layers: int, r: int, h: int, w: int, p: Seq<(int, Cell)>) -> bool {
    &&& p.len() >= 1
    &&& forall|i: int| 0 <= i < p.len() ==> route_stop(m, data, layers, r, h, w, #[trigger] p[i])
    &&& forall|i: int| 0 <= i < p.len() - 1 ==> #[trigger] route_step(data, r, p[i], p[i + 1])
}

/// Route `r` leads from stop `a` to stop `b` along its own path cells and vias.
pub open spec fn route_connects(
    m: MazeMap,
    data: Seq<LayerRouteData>,
    layers: int,
    r: int,
    h: int,
    w: int,
    a: (int, Cell),
    b: (int, Cell),
) -> bool {
    exists|p: Seq<(int, Cell)>| #[trigger] route_walk(m, data, layers, r, h, w, p) && p[0] == a && p[p.len() - 1] == b
}

/// A move from `a` to `b` that jumps between layers at the cell `g`.
pub open spec fn jump_at(a: (int, Cell), b: (int, Cell), g: Cell) -> bool {
    a.0 != b.0 && a.1 == g
}

/// The stop `s` is an open cell of the puzzle: its walls channel is 0 on its
/// layer; with `owned_only`, route `r` also owns it.
pub open spec fn open_stop(
    m: MazeMap,
    data: Seq<LayerRouteData>,
    layers: int,
    goals: int,
    r: int,
    h: int,
    w: int,
    owned_only: bool,
    s: (int, Cell),
) -> bool {
    &&& 0 <= s.0 < layers
    &&& s.1.0 < h
    &&& s.1.1 < w
    &&& block(m.puzzle@, s.0, (goals + 1) * (h * w))[flat(s.1.0 as int, s.1.1 as int, w)] == 0
    &&& owned_only ==> data[s.0].route_owner@[flat(s.1.0 as int, s.1.1 as int, w)] == r as u8
}

/// The move from `a` to `b` does not change layer at the cell `g`, if any.
pub open spec fn keeps_off(a: (int, Cell), b: (int, Cell), g: Option<Cell>) -> bool {
    match g {
        Some(c) => !jump_at(a, b, c),
        None => true,
    }
}

/// One move through the puzzle for route `r`: to a 4-adjacent cell on the
/// same layer, or to the same cell on another layer that lists it as a via
/// of `r`.
pub open spec fn open_step(data: Seq<LayerRouteData>, r: int, a: (int, Cell), b: (int, Cell)) -> bool {
    ||| a.0 == b.0 && adjacent(a.1, b.1)
    ||| a.1 == b.1 && a.0 != b.0 && data[b.0].vias@[r]@.contains(b.1)
}

/// `p` is a walk of route `r` through the open cells of the puzzle (those it
/// owns, with `owned_only`) that never changes layer at the cell `g`.
pub open spec fn open_walk_avoiding(
    m: MazeMap,
    data: Seq<LayerRouteData>,
    layers: int,
    goals: int,
    r: int,
    h: int,
    w: int,
    owned_only: bool,
    p: Seq<(int, Cell)>,
    g: Option<Cell>,
) -> bool {
    &&& p.len() >= 1
    &&& forall|i: int| 0 <= i < p.len() ==> open_stop(m, data, layers, goals, r, h, w, owned_only, #[trigger] p[i])
    &&& forall|i: int| 0 <= i < p.len() - 1 ==> #[trigger] open_step(data, r, p[i], p[i + 1])
    &&& forall|i: int| 0 <= i < p.len() - 1 ==> #[trigger] keeps_off(p[i], p[i + 1], g)
}

/// Route `r` leads from stop `a` to stop `b` through the open cells of the
/// puzzle (those it owns, with `owned_only`), without changing layer at the
/// via `g` when one is given.
pub open spec fn puzzle_connects(
    m: MazeMap,
    data: Seq<LayerRouteData>,
    layers: int,
    goals: int,
    r: int,
    h: int,
    w: int,
    owned_only: bool,
    a: (int, Cell),
    b: (int, Cell),
    g: Option<Cell>,
) -> bool {
    exists|p: Seq<(int, Cell)>|
        #[trigger] open_walk_avoiding(m, data, layers, goals, r, h, w, owned_only, p, g) && p[0] == a && p[p.len() - 1] == b
}

/// The via at `g` is needed by route `r` in the puzzle: without its layer
/// change, two of the route's listed checkpoints are no longer connected
/// through the open cells (those it owns, with `owned_only`).
pub open spec fn via_needed(
    m: MazeMap,
    data: Seq<LayerRouteData>,
    layers: int,
    goals: int,
    r: int,
    h: int,
    w: int,
    owned_only: bool,
    g: Cell,
) -> bool {
    exists|l1: int, j1: int, l2: int, j2: int|
        0 <= l1 < layers && 0 <= l2 < layers && 0 <= j1 < data[l1].checkpoints@[r]@.len() && 0 <= j2
            < data[l2].checkpoints@[r]@.len() && !#[trigger] puzzle_connects(
            m,
            data,
            layers,
            goals,
            r,
            h,
            w,
            owned_only,
            (l1, data[l1].checkpoints@[r]@[j1]),
            (l2, data[l2].checkpoints@[r]@[j2]),
            Some(g),
        )
}

/// A walk of route `r` over its own path cells and vias is a walk through
/// the open cells it owns, and through all open cells.
pub proof fn lemma_route_walk_in_puzzle(
    m: MazeMap,
    data: Seq<LayerRouteData>,
    layers: int,
    goals: int,
    r: int,
    h: int,
    w: int,
    owned_only: bool,
    p: Seq<(int, Cell)>,
)
    requires
        0 <= r < 256,
        0 <= h,
        0 <= w,
        data.len() == layers,
        forall|l: int|
            0 <= l < layers ==> layer_ok(
                block(m.puzzle@, l, (goals + 1) * (h * w)),
                block(m.solution@, l, h * w),
                #[trigger] data[l],
                goals,
                h,
                w,
            ),
        route_walk(m, data, layers, r, h, w, p),
    ensures
        open_walk_avoiding(m, data, layers, goals, r, h, w, owned_only, p, None),
{
    assert forall|i: int| 0 <= i < p.len() implies open_stop(m, data, layers, goals, r, h, w, owned_only, #[trigger] p[i]) by {
        assert(route_stop(m, data, layers, r, h, w, p[i]));
        let s = p[i];
        assert(layer_ok(
            block(m.puzzle@, s.0, (goals + 1) * (h * w)),
            block(m.solution@, s.0, h * w),
            data[s.0],
            goals,
            h,
            w,
        ));
        assert(block(m.solution@, s.0, h * w)[flat(s.1.0 as int, s.1.1 as int, w)] == 1);
    }
    assert forall|i: int| 0 <= i < p.len() - 1 implies #[trigger] open_step(data, r, p[i], p[i + 1]) by {
        assert(route_step(data, r, p[i], p[i + 1]));
    }
}

/// Checkpoints joined over a route's path cells and vias are joined through
/// the open cells it owns, and through all open cells.
pub proof fn lemma_checkpoints_connected_in_puzzle(
    m: MazeMap,
    data: Seq<LayerRouteData>,
    layers: int,
    goals: int,
    h: int,
    w: int,
)
    requires
        0 <= goals <= 256,
        0 <= h,
        0 <= w,
        data.len() == layers,
        forall|l: int|
            0 <= l < layers ==> layer_ok(
                block(m.puzzle@, l, (goals + 1) * (h * w)),
                block(m.solution@, l, h * w),
                #[trigger] data[l],
                goals,
                h,
                w,
            ),
        forall|r: int, l1: int, j1: int, l2: int, j2: int|
            #![trigger data[l1].checkpoints@[r]@[j1], data[l2].checkpoints@[r]@[j2]]
            0 <= r < goals && 0 <= l1 < layers && 0 <= l2 < layers && 0 <= j1 < data[l1].checkpoints@[r]@.len() && 0
                <= j2 < data[l2].checkpoints@[r]@.len() ==> route_connects(
                m,
                data,
                layers,
                r,
                h,
                w,
                (l1, data[l1].checkpoints@[r]@[j1]),
                (l2, data[l2].checkpoints@[r]@[j2]),
            ),
    ensures
        forall|r: int, l1: int, j1: int, l2: int, j2: int, owned_only: bool|
            0 <= r < goals && 0 <= l1 < layers && 0 <= l2 < layers && 0 <= j1 < data[l1].checkpoints@[r]@.len() && 0
                <= j2 < data[l2].checkpoints@[r]@.len() ==> #[trigger] puzzle_connects(
                m,
                data,
                layers,
                goals,
                r,
                h,
                w,
                owned_only,
                (l1, data[l1].checkpoints@[r]@[j1]),
                (l2, data[l2].checkpoints@[r]@[j2]),
                None,
            ),
{
    assert forall|r: int, l1: int, j1: int, l2: int, j2: int, owned_only: bool|
        0 <= r < goals && 0 <= l1 < layers && 0 <= l2 < layers && 0 <= j1 < data[l1].checkpoints@[r]@.len() && 0 <= j2
            < data[l2].checkpoints@[r]@.len() implies #[trigger] puzzle_connects(
        m,
        data,
        layers,
        goals,
        r,
        h,
        w,
        owned_only,
        (l1, data[l1].checkpoints@[r]@[j1]),
        (l2, data[l2].checkpoints@[r]@[j2]),
        None,
    ) by {
        let a = (l1, data[l1].checkpoints@[r]@[j1]);
        let b = (l2, data[l2].checkpoints@[r]@[j2]);
        assert(route_connects(m, data, layers, r, h, w, a, b));
        let p = choose|p: Seq<(int, Cell)>| #[trigger] route_walk(m, data, layers, r, h, w, p) && p[0] == a && p[p.len() - 1] == b;
        lemma_route_walk_in_puzzle(m, data, layers, goals, r, h, w, owned_only, p);
    }
}

proof fn lemma_connects_refl(m: MazeMap, data: Seq<LayerRouteData>, layers: int, r: int, h: int, w: int, a: (int, Cell))
    requires
        route_stop(m, data, layers, r, h, w, a),
    ensures
        route_connects(m, data, layers, r, h, w, a, a),
{
    assert(route_walk(m, data, layers, r, h, w, seq![a]));
}

proof fn lemma_connects_trans(
    m: MazeMap,
    data: Seq<LayerRouteData>,
    layers: int,
    r: int,
    h: int,
    w: int,
    a: (int, Cell),
    b: (int, Cell),
    c: (int, Cell),
)
    requires
        route_connects(m, data, layers, r, h, w, a, b),
        route_connects(m, data, layers, r, h, w, b, c),
    ensures
        route_connects(m, data, layers, r, h, w, a, c),
{
    let p = choose|p: Seq<(int, Cell)>| #[trigger] route_walk(m, data, layers, r, h, w, p) && p[0] == a && p[p.len() - 1] == b;
    let q = choose|q: Seq<(int, Cell)>| #[trigger] route_walk(m, data, layers, r, h, w, q) && q[0] == b && q[q.len() - 1] == c;
    let s = p + q.drop_first();
    let n = p.len();
    assert forall|i: int| 0 <= i < s.len() implies route_stop(m, data, layers, r, h, w, #[trigger] s[i]) by {
        if i < n {
            assert(s[i] == p[i]);
        } else {
            assert(s[i] == q[i - n + 1]);
        }
    }
    assert forall|i: int| 0 <= i < s.len() - 1 implies #[trigger] route_step(data, r, s[i], s[i + 1]) by {
        if i < n - 1 {
            assert(s[i] == p[i] && s[i + 1] == p[i + 1]);
            assert(route_step(data, r, p[i], p[i + 1]));
        } else {
            let j = i - (n - 1);
            assert(s[i] == q[j] && s[i + 1] == q[j + 1]);
            assert(route_step(data, r, q[j], q[j + 1]));
        }
    }
    if q.len() == 1 {
        assert(s =~= p);
    } else {
        assert(s[s.len() - 1] == q[q.len() - 1]);
    }
    assert(route_walk(m, data, layers, r, h, w, s));
}

proof fn lemma_connects_symm(
    m: MazeMap,
    data: Seq<LayerRouteData>,
    layers: int,
    r: int,
    h: int,
    w: int,
    a: (int, Cell),
    b: (int, Cell),
)
    requires
        route_connects(m, data, layers, r, h, w, a, b),
    ensures
        route_connects(m, data, layers, r, h, w, b, a),
{
    let p = choose|p: Seq<(int, Cell)>| #[trigger] route_walk(m, data, layers, r, h, w, p) && p[0] == a && p[p.len() - 1] == b;
    let q = p.reverse();
    let n = p.len();
    assert forall|i: int| 0 <= i < q.len() implies route_stop(m, data, layers, r, h, w, #[trigger] q[i]) by {
        assert(q[i] == p[n - 1 - i]);
    }
    assert forall|i: int| 0 <= i < q.len() - 1 implies #[trigger] route_step(data, r, q[i], q[i + 1]) by {
        let j = n - 2 - i;
        assert(q[i] == p[j + 1] && q[i + 1] == p[j]);
        assert(route_step(data, r, p[j], p[j + 1]));
    }
    assert(route_walk(m, data, layers, r, h, w, q));
}

/// A trail of the route inside one layer is a walk of the route.
proof fn lemma_connects_layer(
    m: MazeMap,
    data: Seq<LayerRouteData>,
    layers: int,
    r: int,
    h: int,
    w: int,
    l: int,
    a: Cell,
    b: Cell,
)
    requires
        0 <= l < layers,
        flat_linked(block(m.solution@, l, h * w), data[l], a, b, r, h, w),
    ensures
        route_connects(m, data, layers, r, h, w, (l, a), (l, b)),
        route_stop(m, data, layers, r, h, w, (l, a)),
        route_stop(m, data, layers, r, h, w, (l, b)),
{
    let sol = block(m.solution@, l, h * w);
    let p = choose|p: Seq<Cell>| #[trigger] flat_trail(sol, data[l], p, r, h, w) && p[0] == a && p[p.len() - 1] == b;
    let q = Seq::new(p.len(), |i: int| (l, p[i]));
    assert forall|i: int| 0 <= i < q.len() implies route_stop(m, data, layers, r, h, w, #[trigger] q[i]) by {
        assert(path_cell(sol, data[l], p[i], r, h, w));
    }
    assert forall|i: int| 0 <= i < q.len() - 1 implies #[trigger] route_step(data, r, q[i], q[i + 1]) by {
        assert(adjacent(p[i], p[i + 1]));
    }
    assert(route_walk(m, data, layers, r, h, w, q));
    assert(q[0] == (l, a));
    assert(q[q.len() - 1] == (l, b));
}

/// A via of the route, a path cell listed on two layers, joins them.
proof fn lemma_connects_hop(
    m: MazeMap,
    data: Seq<LayerRouteData>,
    layers: int,
    r: int,
    h: int,
    w: int,
    l1: int,
    l2: int,
    c: Cell,
)
    requires
        l1 != l2,
        route_stop(m, data, layers, r, h, w, (l1, c)),
        route_stop(m, data, layers, r, h, w, (l2, c)),
        data[l1].vias@[r]@.contains(c),
        data[l2].vias@[r]@.contains(c),
    ensures
        route_connects(m, data, layers, r, h, w, (l1, c), (l2, c)),
{
    let q = seq![(l1, c), (l2, c)];
    assert(route_step(data, r, q[0], q[1]));
    assert(route_walk(m, data, layers, r, h, w, q));
}

/// The layer that piece `k` of a plan is drawn on.
pub open spec fn piece_layer(plan: RoutePlan, k: int, layers: int) -> int {
    if plan.vias@.len() == 0 {
        0
    } else {
        k % layers
    }
}

/// What the drawn layers of a map give of one route's plan: each layer links
/// the consecutive waypoints of the pieces it holds, every via is listed on
/// the layers of the two pieces it joins, and every piece has two waypoints
/// or more.
pub open spec fn route_drawn(m: MazeMap, data: Seq<LayerRouteData>, plan: RoutePlan, layers: int, r: int, h: int, w: int) -> bool {
    &&& layers >= 1
    &&& data.len() == layers
    &&& plan.pieces@.len() == plan.vias@.len() + 1
    &&& plan.vias@.len() > 0 ==> layers >= 2
    &&& forall|l: int| 0 <= l < layers ==> #[trigger] route_linked(block(m.solution@, l, h * w), data[l], plan, r, l, layers, h, w)
    &&& forall|l: int, k: int|
        0 <= l < layers && 0 <= k < plan.vias@.len() && (k % layers == l || (k + 1) % layers == l) ==> #[trigger] data[l].vias@[r]@.contains(
            gcell(#[trigger] plan.vias@[k]),
        )
    &&& forall|k: int| 0 <= k < plan.pieces@.len() ==> (#[trigger] waypoints(plan, k)).len() >= 2
}

/// The stop of waypoint `i` of piece `k`.
pub open spec fn waypoint_stop(plan: RoutePlan, k: int, i: int, layers: int) -> (int, Cell) {
    (piece_layer(plan, k, layers), gcell(waypoints(plan, k)[i]))
}

/// Consecutive waypoints of a drawn piece are linked on the piece's layer.
proof fn lemma_piece_step(
    m: MazeMap,
    data: Seq<LayerRouteData>,
    plan: RoutePlan,
    layers: int,
    r: int,
    h: int,
    w: int,
    k: int,
    i: int,
)
    requires
        route_drawn(m, data, plan, layers, r, h, w),
        0 <= k < plan.pieces@.len(),
        0 <= i < waypoints(plan, k).len() - 1,
    ensures
        route_connects(m, data, layers, r, h, w, waypoint_stop(plan, k, i, layers), waypoint_stop(plan, k, i + 1, layers)),
        route_stop(m, data, layers, r, h, w, waypoint_stop(plan, k, i, layers)),
        route_stop(m, data, layers, r, h, w, waypoint_stop(plan, k, i + 1, layers)),
{
    let l = piece_layer(plan, k, layers);
    assert(0 <= l < layers) by {
        if plan.vias@.len() > 0 {
            assert(0 <= k % layers < layers) by (nonlinear_arith)
                requires
                    layers >= 1,
            ;
        }
    }
    assert(route_linked(block(m.solution@, l, h * w), data[l], plan, r, l, layers, h, w));
    if plan.vias@.len() > 0 {
        assert(piece_on_layer(k, l, layers));
    }
    assert(flat_linked(
        block(m.solution@, l, h * w),
        data[l],
        gcell(waypoints(plan, k)[i]),
        gcell(waypoints(plan, k)[i + 1]),
        r,
        h,
        w,
    ));
    lemma_connects_layer(m, data, layers, r, h, w, l, gcell(waypoints(plan, k)[i]), gcell(waypoints(plan, k)[i + 1]));
}

/// Every waypoint of every piece is reached from the first waypoint of the
/// first piece.
proof fn lemma_reaches_waypoint(
    m: MazeMap,
    data: Seq<LayerRouteData>,
    plan: RoutePlan,
    layers: int,
    r: int,
    h: int,
    w: int,
    k: int,
    i: int,
)
    requires
        route_drawn(m, data, plan, layers, r, h, w),
        0 <= k < plan.pieces@.len(),
        0 <= i < waypoints(plan, k).len(),
    ensures
        route_connects(m, data, layers, r, h, w, waypoint_stop(plan, 0, 0, layers), waypoint_stop(plan, k, i, layers)),
    decreases k, i,
{
    if i > 0 {
        lemma_reaches_waypoint(m, data, plan, layers, r, h, w, k, i - 1);
        lemma_piece_step(m, data, plan, layers, r, h, w, k, i - 1);
        lemma_connects_trans(
            m,
            data,
            layers,
            r,
            h,
            w,
            waypoint_stop(plan, 0, 0, layers),
            waypoint_stop(plan, k, i - 1, layers),
            waypoint_stop(plan, k, i, layers),
        );
    } else if k == 0 {
        lemma_piece_step(m, data, plan, layers, r, h, w, 0, 0);
        lemma_connects_refl(m, data, layers, r, h, w, waypoint_stop(plan, 0, 0, layers));
    } else {
        let last = waypoints(plan, k - 1).len() - 1;
        lemma_reaches_waypoint(m, data, plan, layers, r, h, w, k - 1, last);
        lemma_piece_step(m, data, plan, layers, r, h, w, k - 1, last - 1);
        lemma_piece_step(m, data, plan, layers, r, h, w, k, 0);
        let v = plan.vias@[k - 1];
        assert(waypoints(plan, k - 1)[last] == v);
        assert(waypoints(plan, k)[0] == v);
        let l1 = (k - 1) % layers;
        let l2 = k % layers;
        assert(l1 != l2 && 0 <= l1 < layers && 0 <= l2 < layers) by (nonlinear_arith)
            requires
                layers >= 2,
                k >= 1,
                l1 == (k - 1) % layers,
                l2 == k % layers,
        ;
        assert(data[l1].vias@[r]@.contains(gcell(plan.vias@[k - 1])));
        assert(((k - 1) + 1) % layers == l2);
        assert(data[l2].vias@[r]@.contains(gcell(plan.vias@[k - 1])));
        lemma_connects_hop(m, data, layers, r, h, w, l1, l2, gcell(v));
        lemma_connects_trans(
            m,
            data,
            layers,
            r,
            h,
            w,
            waypoint_stop(plan, 0, 0, layers),
            waypoint_stop(plan, k - 1, last, layers),
            waypoint_stop(plan, k, 0, layers),
        );
    }
}

/// Any two waypoints of a drawn route are joined by a walk of the route.
pub proof fn lemma_waypoints_connected(
    m: MazeMap,
    data: Seq<LayerRouteData>,
    plan: RoutePlan,
    layers: int,
    r: int,
    h: int,
    w: int,
    k1: int,
    i1: int,
    k2: int,
    i2: int,
)
    requires
        route_drawn(m, data, plan, layers, r, h, w),
        0 <= k1 < plan.pieces@.len(),
        0 <= i1 < waypoints(plan, k1).len(),
        0 <= k2 < plan.pieces@.len(),
        0 <= i2 < waypoints(plan, k2).len(),
    ensures
        route_connects(m, data, layers, r, h, w, waypoint_stop(plan, k1, i1, layers), waypoint_stop(plan, k2, i2, layers)),
{
    lemma_reaches_waypoint(m, data, plan, layers, r, h, w, k1, i1);
    lemma_reaches_waypoint(m, data, plan, layers, r, h, w, k2, i2);
    lemma_connects_symm(m, data, layers, r, h, w, waypoint_stop(plan, 0, 0, layers), waypoint_stop(plan, k1, i1, layers));
    lemma_connects_trans(
        m,
        data,
        layers,
        r,
        h,
        w,
        waypoint_stop(plan, k1, i1, layers),
        waypoint_stop(plan, 0, 0, layers),
        waypoint_stop(plan, k2, i2, layers),
    );
}

/// Both ends of a connection are stops of the route.
pub proof fn lemma_connects_ends(
    m: MazeMap,
    data: Seq<LayerRouteData>,
    layers: int,
    r: int,
    h: int,
    w: int,
    a: (int, Cell),
    b: (int, Cell),
)
    requires
        route_connects(m, data, layers, r, h, w, a, b),
    ensures
        route_stop(m, data, layers, r, h, w, a),
        route_stop(m, data, layers, r, h, w, b),
{
    let p = choose|p: Seq<(int, Cell)>| #[trigger] route_walk(m, data, layers, r, h, w, p) && p[0] == a && p[p.len() - 1] == b;
    assert(route_stop(m, data, layers, r, h, w, p[0]));
    assert(route_stop(m, data, layers, r, h, w, p[p.len() - 1]));
}

/// A checkpoint listed on layer `l` is the stop of a waypoint of the plan.
pub proof fn lemma_cp_stop(plan: RoutePlan, l: int, layers: int, g: Cell) -> (ki: (int, int))
    requires
        cp_here(plan, l, layers, g),
        plan.pieces@.len() == plan.vias@.len() + 1,
        plan.checkpoints@.len() == plan.pieces@.len(),
        layers >= 1,
    ensures
        0 <= ki.0 < plan.pieces@.len(),
        0 <= ki.1 < waypoints(plan, ki.0).len(),
        waypoint_stop(plan, ki.0, ki.1, layers) == (l, g),
{
    let (k, i) = choose|k: int, i: int|
        0 <= k < plan.pieces@.len() && (if plan.vias@.len() == 0 {
            l == 0
        } else {
            piece_on_layer(k, l, layers)
        }) && 0 <= i < plan.checkpoints@[k]@.len() && g == gcell(#[trigger] plan.checkpoints@[k]@[i]);
    let o: int = if k > 0 { 1int } else { 0int };
    assert(waypoints(plan, k)[o + i] == plan.checkpoints@[k]@[i]);
    (k, o + i)
}

/// A via listed on layer `l` is the stop of a waypoint of the plan: the last
/// of the piece it leaves, or the first of the piece it enters.
pub proof fn lemma_via_stop(plan: RoutePlan, l: int, layers: int, g: Cell) -> (ki: (int, int))
    requires
        via_here(plan, l, layers, g),
        plan.pieces@.len() == plan.vias@.len() + 1,
        plan.checkpoints@.len() == plan.pieces@.len(),
        layers >= 1,
    ensures
        0 <= ki.0 < plan.pieces@.len(),
        0 <= ki.1 < waypoints(plan, ki.0).len(),
        waypoint_stop(plan, ki.0, ki.1, layers) == (l, g),
{
    let k = choose|k: int|
        0 <= k < plan.vias@.len() && (k % layers == l || (k + 1) % layers == l) && g == gcell(
            #[trigger] plan.vias@[k],
        );
    if k % layers == l {
        let wk = waypoints(plan, k);
        assert(wk[wk.len() - 1] == plan.vias@[k]);
        (k, wk.len() - 1)
    } else {
        assert(waypoints(plan, k + 1)[0] == plan.vias@[k]);
        (k + 1, 0)
    }
}

} // verus!
