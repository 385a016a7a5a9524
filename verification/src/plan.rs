use vstd::prelude::*;
use crate::checkpoint::{available, pick_checkpoints_in_region};
use crate::grid::{Cell, adjacent, all_coord_ok, contains_cell, coord_ok};
use crate::maze::{
    Edge, bfs_tree, joined, lemma_reachable_end, lemma_reachable_step, lemma_reachable_symmetric, lemma_reachable_trans,
    lemma_search_tree_reachable, lemma_walk_in_closed, links, reachable, search_tree, trace_back, walk,
    closed_under_passages, tree_depth, grown_tree, is_grown_tree, lemma_simple_walk,
};

verus! {

/// Every passage joins two 4-adjacent cells of `region`.
pub open spec fn edges_within(edges: Seq<Edge>, region: Seq<Cell>) -> bool {
    forall|t: int|
        0 <= t < edges.len() ==> region.contains((#[trigger] edges[t]).0) && region.contains(edges[t].1) && adjacent(
            edges[t].0,
            edges[t].1,
        )
}

/// Every cell of `s` lies in `region`.
pub open spec fn cells_within(s: Seq<Cell>, region: Seq<Cell>) -> bool {
    forall|i: int| 0 <= i < s.len() ==> region.contains(#[trigger] s[i])
}

/// How one route is laid out. The route's region is split into pieces visited
/// in turn; piece `k` lies on layer `k % layers`, and `vias[k]`, a cell of piece
/// `k + 1` reached by a passage from piece `k`, is where the route changes
/// layer between them. A route without vias has one piece, the whole region,
/// present on every layer.
pub struct RoutePlan {
    /// The cells of each piece.
    pub pieces: Vec<Vec<Cell>>,
    /// The passages carved for each piece.
    pub piece_edges: Vec<Vec<Edge>>,
    /// The cells where the route changes layer.
    pub vias: Vec<Cell>,
    /// The checkpoints placed in each piece.
    pub checkpoints: Vec<Vec<Cell>>,
}

/// The plan has one entry per piece in each list, one via fewer than pieces,
/// all its cells inside `region`, and each piece's checkpoints inside it.
pub open spec fn plan_within(p: RoutePlan, region: Seq<Cell>) -> bool {
    &&& p.pieces@.len() == p.vias@.len() + 1
    &&& p.piece_edges@.len() == p.pieces@.len()
    &&& p.checkpoints@.len() == p.pieces@.len()
    &&& cells_within(p.vias@, region)
    &&& forall|k: int| 0 <= k < p.pieces@.len() ==> cells_within(#[trigger] p.pieces@[k]@, region)
    &&& forall|k: int| 0 <= k < p.pieces@.len() ==> cells_within(#[trigger] p.checkpoints@[k]@, region)
    &&& forall|k: int| 0 <= k < p.pieces@.len() ==> cells_within(#[trigger] p.checkpoints@[k]@, p.pieces@[k]@)
    &&& forall|k: int| 0 <= k < p.pieces@.len() ==> edges_within(#[trigger] p.piece_edges@[k]@, region)
}

/// The cells a route passes through in piece `k`, in order: the via it enters
/// by, the piece's checkpoints, then the via it leaves by.
pub open spec fn waypoints(p: RoutePlan, k: int) -> Seq<Cell> {
    (if k > 0 {
        seq![p.vias@[k - 1]]
    } else {
        Seq::empty()
    }) + p.checkpoints@[k]@ + (if k < p.vias@.len() {
        seq![p.vias@[k]]
    } else {
        Seq::empty()
    })
}

/// Each waypoint of piece `k` can be reached from the one before it along the
/// piece's passages.
pub open spec fn piece_linked(p: RoutePlan, k: int) -> bool {
    forall|i: int|
        0 <= i < waypoints(p, k).len() - 1 ==> #[trigger] reachable(
            p.piece_edges@[k]@,
            waypoints(p, k)[i],
            waypoints(p, k)[i + 1],
        )
}

/// `root` reaches every cell of `region` along `edges`.
pub open spec fn spans_from(edges: Seq<Edge>, region: Seq<Cell>, root: Cell) -> bool {
    forall|i: int| 0 <= i < region.len() ==> #[trigger] reachable(edges, root, region[i])
}

/// The cell `c` is a cell of piece `k` or of one of the piece's passages.
pub open spec fn wp_covered(p: RoutePlan, k: int, c: Cell) -> bool {
    p.pieces@[k]@.contains(c) || exists|t: int|
        0 <= t < p.piece_edges@[k]@.len() && ((#[trigger] p.piece_edges@[k]@[t]).0 == c || p.piece_edges@[k]@[t].1 == c)
}

/// Some cell reaches every cell of `region` along `edges`.
pub open spec fn tree_spans(edges: Seq<Edge>, region: Seq<Cell>) -> bool {
    exists|root: Cell| #[trigger] spans_from(edges, region, root)
}

/// Everything piece `k` connects is reached from `root` along its passages:
/// its cells, the via it is entered by and the via it is left by.
spec fn piece_reach(pieces: Seq<Vec<Cell>>, pe: Seq<Vec<Edge>>, vias: Seq<Cell>, k: int, root: Cell) -> bool {
    &&& forall|i: int| 0 <= i < pieces[k]@.len() ==> #[trigger] reachable(pe[k]@, root, pieces[k]@[i])
    &&& k > 0 ==> reachable(pe[k]@, root, vias[k - 1])
    &&& k < vias.len() ==> reachable(pe[k]@, root, vias[k])
}

/// Cells all reached from one root reach each other in turn.
proof fn lemma_chain_from_root(edges: Seq<Edge>, s: Seq<Cell>, root: Cell)
    requires
        forall|i: int| 0 <= i < s.len() ==> #[trigger] reachable(edges, root, s[i]),
    ensures
        forall|i: int| 0 <= i < s.len() - 1 ==> #[trigger] reachable(edges, s[i], s[i + 1]),
{
    assert forall|i: int| 0 <= i < s.len() - 1 implies #[trigger] reachable(edges, s[i], s[i + 1]) by {
        assert(reachable(edges, root, s[i]));
        assert(reachable(edges, root, s[i + 1]));
        lemma_reachable_symmetric(edges, root, s[i]);
        lemma_reachable_trans(edges, s[i], root, s[i + 1]);
    }
}

/// The sum of the first `n` counts.
pub open spec fn count_sum(s: Seq<usize>, n: int) -> int
    decreases n,
{
    if n <= 0 {
        0
    } else {
        count_sum(s, n - 1) + s[n - 1]
    }
}

/// The total length of the first `n` cell lists.
pub open spec fn lens_sum(v: Seq<Vec<Cell>>, n: int) -> int
    decreases n,
{
    if n <= 0 {
        0
    } else {
        lens_sum(v, n - 1) + v[n - 1]@.len()
    }
}

/// The number of checkpoints a plan lists, over all its pieces.
pub open spec fn plan_cps_count(p: RoutePlan) -> int {
    lens_sum(p.checkpoints@, p.pieces@.len() as int)
}

proof fn lemma_count_sum_update(s: Seq<usize>, p: int, v: usize, n: int)
    requires
        0 <= p < s.len(),
        0 <= n <= s.len(),
    ensures
        count_sum(s.update(p, v), n) == count_sum(s, n) + if p < n { v - s[p] } else { 0 },
    decreases n,
{
    if n > 0 {
        lemma_count_sum_update(s, p, v, n - 1);
    }
}

proof fn lemma_count_sum_same(s: Seq<usize>, t: Seq<usize>, n: int)
    requires
        0 <= n <= s.len(),
        n <= t.len(),
        forall|i: int| 0 <= i < n ==> s[i] == t[i],
    ensures
        count_sum(s, n) == count_sum(t, n),
    decreases n,
{
    if n > 0 {
        lemma_count_sum_same(s, t, n - 1);
    }
}

proof fn lemma_count_sum_mono(s: Seq<usize>, a: int, b: int)
    requires
        0 <= a <= b <= s.len(),
    ensures
        count_sum(s, a) <= count_sum(s, b),
    decreases b - a,
{
    if a < b {
        lemma_count_sum_mono(s, a, b - 1);
    }
}

proof fn lemma_lens_sum_same(v: Seq<Vec<Cell>>, u: Seq<Vec<Cell>>, n: int)
    requires
        0 <= n <= v.len(),
        n <= u.len(),
        forall|i: int| 0 <= i < n ==> (#[trigger] v[i])@.len() == u[i]@.len(),
    ensures
        lens_sum(v, n) == lens_sum(u, n),
    decreases n,
{
    if n > 0 {
        lemma_lens_sum_same(v, u, n - 1);
    }
}

proof fn lemma_lens_sum_first_grew(v: Seq<Vec<Cell>>, u: Seq<Vec<Cell>>, n: int)
    requires
        1 <= n <= v.len(),
        n <= u.len(),
        u[0]@.len() == v[0]@.len() + 1,
        forall|i: int| 1 <= i < n ==> (#[trigger] v[i])@.len() == u[i]@.len(),
    ensures
        lens_sum(u, n) == lens_sum(v, n) + 1,
    decreases n,
{
    if n > 1 {
        lemma_lens_sum_first_grew(v, u, n - 1);
    } else {
        assert(lens_sum(u, 0) == 0 && lens_sum(v, 0) == 0);
    }
}

/// A search tree over passages inside `region`, rooted in `region`, stays in `region`.
proof fn lemma_search_tree_within(edges: Seq<Edge>, order: Seq<Cell>, parent: Seq<usize>, region: Seq<Cell>)
    requires
        search_tree(edges, order, parent),
        edges_within(edges, region),
        region.contains(order[0]),
    ensures
        cells_within(order, region),
{
    assert forall|k: int| 0 <= k < order.len() implies region.contains(#[trigger] order[k]) by {
        if k > 0 {
            assert(joined(edges, order[k], order[parent[k] as int]));
            let t = choose|t: int| 0 <= t < edges.len() && #[trigger] links(edges[t], order[k], order[parent[k] as int]);
            assert(region.contains(edges[t].0) && region.contains(edges[t].1));
        }
    }
}

/// A walk over passages inside `region` that starts in `region` stays in `region`.
pub proof fn lemma_walk_within(edges: Seq<Edge>, p: Seq<Cell>, a: Cell, b: Cell, region: Seq<Cell>)
    requires
        walk(edges, p, a, b),
        edges_within(edges, region),
        region.contains(a),
    ensures
        cells_within(p, region),
{
    assert forall|i: int| 0 <= i < p.len() implies region.contains(#[trigger] p[i]) by {
        if i > 0 {
            let j = i - 1;
            assert(joined(edges, p[j], p[j + 1]));
            let t = choose|t: int| 0 <= t < edges.len() && #[trigger] links(edges[t], p[j], p[j + 1]);
            assert(region.contains(edges[t].0) && region.contains(edges[t].1));
            assert(p[j + 1] == p[i]);
        }
    }
}

/// Cells of `region` have small coordinates when the region's do.
pub proof fn lemma_within_coord_ok(s: Seq<Cell>, region: Seq<Cell>)
    requires
        cells_within(s, region),
        all_coord_ok(region),
    ensures
        all_coord_ok(s),
{
    assert forall|i: int| 0 <= i < s.len() implies coord_ok(#[trigger] s[i]) by {
        assert(region.contains(s[i]));
        let j = choose|j: int| 0 <= j < region.len() && region[j] == s[i];
        assert(coord_ok(region[j]));
    }
}

/// The piece that checkpoint `i` of `n` goes to when a route has `pieces`
/// pieces. With no more pieces than checkpoints, each piece but the last
/// takes `n / pieces` checkpoints in turn and the last takes the rest; with
/// more pieces than checkpoints, the first and the last checkpoint go to the
/// first and the last piece and the others are spread evenly in between.
pub open spec fn piece_of_checkpoint(i: int, n: int, pieces: int) -> int {
    if n <= 1 {
        0
    } else if pieces <= n {
        if i / (n / pieces) < pieces - 1 {
            i / (n / pieces)
        } else {
            pieces - 1
        }
    } else {
        i * (pieces - 1) / (n - 1)
    }
}

/// The piece that checkpoint `i` of `n` goes to.
fn piece_of_checkpoint_exec(i: usize, n: usize, pieces: usize) -> (k: usize)
    requires
        i < n,
        pieces >= 1,
    ensures
        k == piece_of_checkpoint(i as int, n as int, pieces as int),
        k < pieces,
        i == 0 ==> k == 0,
        n >= 2 && i + 1 == n ==> k + 1 == pieces,
{
    if n <= 1 {
        return 0;
    }
    if pieces <= n {
        let per = n / pieces;
        proof {
            vstd::arithmetic::div_mod::lemma_div_is_ordered(pieces as int, n as int, pieces as int);
            vstd::arithmetic::div_mod::lemma_div_by_multiple(1, pieces as int);
            assert(per >= 1);
            if i + 1 == n {
                let pp = pieces as int;
                let pe = per as int;
                vstd::arithmetic::div_mod::lemma_fundamental_div_mod(n as int, pp);
                assert(pe * pp <= n) by {
                    vstd::arithmetic::div_mod::lemma_mod_pos_bound(n as int, pp);
                    assert(pp * pe + (n as int) % pp == n);
                    assert(pe * pp == pp * pe) by (nonlinear_arith);
                }
                assert((pp - 1) * pe <= (n as int) - 1) by (nonlinear_arith)
                    requires
                        pe * pp <= n,
                        pe >= 1,
                ;
                vstd::arithmetic::div_mod::lemma_div_is_ordered((pp - 1) * pe, (n as int) - 1, pe);
                vstd::arithmetic::div_mod::lemma_div_by_multiple(pp - 1, pe);
            }
        }
        let q = i / per;
        if q < pieces - 1 {
            return q;
        } else {
            return pieces - 1;
        }
    }
    proof {
        assert((i as int) * ((pieces - 1) as int) < 0x1_0000_0000_0000_0000_0000_0000_0000_0000) by (nonlinear_arith)
            requires
                0 <= i < 0x1_0000_0000_0000_0000,
                0 <= pieces - 1 < 0x1_0000_0000_0000_0000,
        ;
    }
    let num: u128 = (i as u128) * ((pieces - 1) as u128);
    let k128: u128 = num / ((n - 1) as u128);
    proof {
        let a = i as int;
        let b = (pieces - 1) as int;
        let d = (n - 1) as int;
        assert(a * b <= d * b) by (nonlinear_arith)
            requires
                0 <= a <= d,
                0 <= b,
        ;
        vstd::arithmetic::div_mod::lemma_div_is_ordered(a * b, d * b, d);
        assert(d * b == b * d) by (nonlinear_arith);
        vstd::arithmetic::div_mod::lemma_div_by_multiple(b, d);
        assert(a * b < 0x1_0000_0000_0000_0000_0000_0000_0000_0000) by (nonlinear_arith)
            requires
                0 <= a < 0x1_0000_0000_0000_0000,
                0 <= b < 0x1_0000_0000_0000_0000,
        ;
        if i + 1 == n {
            assert(a * b == b * d) by (nonlinear_arith)
                requires
                    a == d,
            ;
        }
    }
    k128 as usize
}

/// Copies a list of passages.
fn copy_edges(v: &Vec<Edge>) -> (r: Vec<Edge>)
    ensures
        r@ == v@,
{
    let mut r: Vec<Edge> = Vec::new();
    let mut i: usize = 0;
    while i < v.len()
        invariant
            i <= v@.len(),
            r@ == v@.take(i as int),
        decreases v@.len() - i,
    {
        r.push(v[i]);
        proof {
            assert(v@.take(i + 1) =~= v@.take(i as int).push(v@[i as int]));
        }
        i = i + 1;
    }
    proof {
        assert(v@.take(v@.len() as int) =~= v@);
    }
    r
}

/// Copies a list of cells.
fn copy_cells(v: &Vec<Cell>) -> (r: Vec<Cell>)
    ensures
        r@ == v@,
{
    let mut r: Vec<Cell> = Vec::new();
    let mut i: usize = 0;
    while i < v.len()
        invariant
            i <= v@.len(),
            r@ == v@.take(i as int),
        decreases v@.len() - i,
    {
        r.push(v[i]);
        proof {
            assert(v@.take(i + 1) =~= v@.take(i as int).push(v@[i as int]));
        }
        i = i + 1;
    }
    proof {
        assert(v@.take(v@.len() as int) =~= v@);
    }
    r
}

/// Whether the passage `e` is the cut between `a` and `b`.
fn is_cut(e: Edge, a: Cell, b: Cell) -> (r: bool)
    ensures
        r == links(e, a, b),
{
    (e.0.0 == a.0 && e.0.1 == a.1 && e.1.0 == b.0 && e.1.1 == b.1) || (e.0.0 == b.0 && e.0.1 == b.1
        && e.1.0 == a.0 && e.1.1 == a.1)
}

/// Every cell of a piece can be reached from the piece's first cell along the
/// piece's passages.
pub open spec fn piece_rooted(cells: Seq<Cell>, edges: Seq<Edge>) -> bool {
    &&& cells.len() > 0
    &&& forall|i: int| 0 <= i < cells.len() ==> #[trigger] reachable(edges, cells[0], cells[i])
}

/// A walk inside `s` along `e1` is a walk along `e2` when `e2` holds every
/// passage of `e1` that starts in `s`.
proof fn lemma_walk_transfer(e1: Seq<Edge>, e2: Seq<Edge>, p: Seq<Cell>, a: Cell, b: Cell, s: Seq<Cell>)
    requires
        walk(e1, p, a, b),
        forall|i: int| 0 <= i < p.len() ==> s.contains(#[trigger] p[i]),
        forall|t: int| 0 <= t < e1.len() && s.contains((#[trigger] e1[t]).0) ==> e2.contains(e1[t]),
    ensures
        walk(e2, p, a, b),
{
    assert forall|i: int| 0 <= i < p.len() - 1 implies #[trigger] joined(e2, p[i], p[i + 1]) by {
        assert(joined(e1, p[i], p[i + 1]));
        let t = choose|t: int| 0 <= t < e1.len() && #[trigger] links(e1[t], p[i], p[i + 1]);
        assert(s.contains(p[i]) && s.contains(p[i + 1]));
        assert(e2.contains(e1[t]));
        let u = choose|u: int| 0 <= u < e2.len() && e2[u] == e1[t];
        assert(links(e2[u], p[i], p[i + 1]));
    }
}

/// Some passage of `edges` has `c` as one of its two cells.
pub open spec fn touches(edges: Seq<Edge>, c: Cell) -> bool {
    exists|t: int| 0 <= t < edges.len() && ((#[trigger] edges[t]).0 == c || edges[t].1 == c)
}

/// A breadth-first search from `c` reaches a second cell exactly when some
/// passage touches `c`.
proof fn lemma_search_reaches_more(edges: Seq<Edge>, region: Seq<Cell>, order: Seq<Cell>, parent: Seq<usize>)
    requires
        search_tree(edges, order, parent),
        closed_under_passages(order, edges),
        edges_within(edges, region),
    ensures
        order.len() >= 2 <==> touches(edges, order[0]),
{
    let c = order[0];
    if order.len() >= 2 {
        assert(parent[1] < 1);
        assert(joined(edges, order[1], order[parent[1] as int]));
        let t = choose|t: int| 0 <= t < edges.len() && #[trigger] links(edges[t], order[1], order[parent[1] as int]);
        assert(edges[t].0 == c || edges[t].1 == c);
    } else if touches(edges, c) {
        let t = choose|t: int| 0 <= t < edges.len() && ((#[trigger] edges[t]).0 == c || edges[t].1 == c);
        assert(adjacent(edges[t].0, edges[t].1));
        assert(order.contains(c));
        assert(order.contains(edges[t].0) <==> order.contains(edges[t].1));
        if edges[t].0 == c {
            let q = choose|q: int| 0 <= q < order.len() && order[q] == edges[t].1;
            assert(q == 0);
        } else {
            let q = choose|q: int| 0 <= q < order.len() && order[q] == edges[t].0;
            assert(q == 0);
        }
    }
}

/// The passage `e` is one of the cut passages of `path`, those between
/// `path[c]` and `path[c + 1]` for `c` in `cuts`.
spec fn is_cut_edge(e: Edge, path: Seq<Cell>, cuts: Seq<usize>) -> bool {
    exists|j: int| 0 <= j < cuts.len() && #[trigger] links(e, path[cuts[j] as int], path[cuts[j] + 1])
}

/// In a tree, once the cut passages are gone no walk leads across a cut of
/// the path: the only walk between two path cells without repeats is the
/// stretch of the path between them, and that stretch holds the cut.
proof fn lemma_cut_separates(
    tree: Seq<Edge>,
    order: Seq<Cell>,
    kept: Seq<Edge>,
    path: Seq<Cell>,
    cuts: Seq<usize>,
    i: int,
    j: int,
    k: int,
)
    requires
        grown_tree(tree, order),
        path.no_duplicates(),
        forall|x: int| 0 <= x < path.len() - 1 ==> #[trigger] joined(tree, path[x], path[x + 1]),
        0 <= k < cuts.len(),
        0 <= i <= cuts[k],
        cuts[k] < j < path.len(),
        forall|q: int| 0 <= q < kept.len() ==> tree.contains(#[trigger] kept[q]) && !is_cut_edge(kept[q], path, cuts),
    ensures
        !reachable(kept, path[i], path[j]),
{
    if reachable(kept, path[i], path[j]) {
        let w = choose|w: Seq<Cell>| #[trigger] walk(kept, w, path[i], path[j]);
        let s = lemma_simple_walk(kept, w, path[i], path[j]);
        assert forall|x: int| 0 <= x < s.len() - 1 implies #[trigger] joined(tree, s[x], s[x + 1]) by {
            assert(joined(kept, s[x], s[x + 1]));
            let t = choose|t: int| 0 <= t < kept.len() && #[trigger] links(kept[t], s[x], s[x + 1]);
            assert(tree.contains(kept[t]));
            let u = choose|u: int| 0 <= u < tree.len() && tree[u] == kept[t];
            assert(links(tree[u], s[x], s[x + 1]));
        }
        let sub = path.subrange(i, j + 1);
        assert forall|x: int| 0 <= x < sub.len() - 1 implies #[trigger] joined(tree, sub[x], sub[x + 1]) by {
            assert(sub[x] == path[i + x] && sub[x + 1] == path[i + x + 1]);
            assert(joined(tree, path[i + x], path[i + x + 1]));
        }
        assert(sub.no_duplicates()) by {
            assert forall|a: int, b: int| 0 <= a < sub.len() && 0 <= b < sub.len() && a != b implies sub[a] != sub[b] by {
                assert(sub[a] == path[i + a] && sub[b] == path[i + b]);
            }
        }
        assert(walk(tree, sub, path[i], path[j]));
        crate::properties::lemma_maze_walks_unique(tree, order, s, sub, path[i], path[j]);
        let c = cuts[k] as int;
        let x = c - i;
        assert(s[x] == path[c] && s[x + 1] == path[c + 1]);
        assert(joined(kept, s[x], s[x + 1]));
        let t = choose|t: int| 0 <= t < kept.len() && #[trigger] links(kept[t], s[x], s[x + 1]);
        assert(links(kept[t], path[cuts[k] as int], path[cuts[k] + 1]));
        assert(is_cut_edge(kept[t], path, cuts));
    }
}

/// Two pieces of the chain share a cell only when they follow each other,
/// and then only the via between them.
proof fn lemma_pieces_apart(
    tree: Seq<Edge>,
    order: Seq<Cell>,
    kept: Seq<Edge>,
    path: Seq<Cell>,
    cuts: Seq<usize>,
    pieces: Seq<Vec<Cell>>,
    pe: Seq<Vec<Edge>>,
    vias: Seq<Cell>,
    nv: int,
    m: int,
)
    requires
        grown_tree(tree, order),
        path.no_duplicates(),
        m + 1 == path.len(),
        forall|x: int| 0 <= x < m ==> #[trigger] joined(tree, path[x], path[x + 1]),
        cuts.len() == nv,
        vias.len() == nv,
        pieces.len() == nv + 1,
        pe.len() == nv + 1,
        forall|j: int| 0 <= j < nv ==> #[trigger] cuts[j] < m,
        forall|i: int, j: int| 0 <= i < j < cuts.len() ==> #[trigger] cuts[i] < #[trigger] cuts[j],
        forall|q: int| 0 <= q < nv ==> #[trigger] vias[q] == path[cuts[q] + 1],
        forall|q: int| 0 <= q < kept.len() ==> tree.contains(#[trigger] kept[q]) && !is_cut_edge(kept[q], path, cuts),
        forall|q: int, x: Cell|
            0 <= q < pieces.len() && #[trigger] touches_cell(pieces[q]@, pe[q]@, x) ==> reachable(
                kept,
                path[seg_start(cuts, q)],
                x,
            ) || (q < nv && x == path[cuts[q] + 1]),
    ensures
        forall|a: int, b: int, x: Cell|
            0 <= a < b < pieces.len() && #[trigger] touches_cell(pieces[a]@, pe[a]@, x) && #[trigger] touches_cell(
                pieces[b]@,
                pe[b]@,
                x,
            ) ==> b == a + 1 && x == vias[a],
{
    assert forall|a: int, b: int, x: Cell|
            0 <= a < b < pieces.len() && #[trigger] touches_cell(pieces[a]@, pe[a]@, x) && #[trigger] touches_cell(
                pieces[b]@,
                pe[b]@,
                x,
            ) implies b == a + 1 && x == vias[a] by {
            let sa = seg_start(cuts, a);
            let sb = seg_start(cuts, b);
            let ca = cuts[a] as int;
            assert(sa <= ca);
            assert(sb == cuts[b - 1] + 1);
            if a < b - 1 {
                assert(cuts[a] < cuts[b - 1]);
            }
            assert(ca < sb);
            assert(sb <= m);
            let ra = reachable(kept, path[sa], x);
            let rb = reachable(kept, path[sb], x);
            if ra && rb {
                lemma_reachable_symmetric(kept, path[sb], x);
                lemma_reachable_trans(kept, path[sa], x, path[sb]);
                lemma_cut_separates(tree, order, kept, path, cuts, sa, sb, a);
            } else if !ra && rb {
                assert(x == path[ca + 1]);
                if b > a + 1 {
                    assert(ca + 1 <= cuts[a + 1]) by {
                        assert(cuts[a] < cuts[a + 1]);
                    }
                    assert(cuts[a + 1] < sb) by {
                        if a + 1 < b - 1 {
                            assert(cuts[a + 1] < cuts[b - 1]);
                        }
                    }
                    lemma_reachable_symmetric(kept, path[sb], x);
                    lemma_cut_separates(tree, order, kept, path, cuts, ca + 1, sb, a + 1);
                }
            } else if ra && !rb {
                assert(b < nv && x == path[cuts[b] + 1]);
                assert(cuts[a] < cuts[b]);
                lemma_cut_separates(tree, order, kept, path, cuts, sa, cuts[b] + 1, b);
            } else {
                assert(x == path[ca + 1]);
                assert(b < nv && x == path[cuts[b] + 1]);
                assert(cuts[a] < cuts[b]);
            }
        }
}

/// Two pieces of `plan` share a cell only when they follow each other, and
/// then only the via between them; the span of a piece is all its own.
pub open spec fn pieces_apart(plan: RoutePlan) -> bool {
    &&& forall|a: int, b: int, x: Cell|
        0 <= a < b < plan.pieces@.len() && #[trigger] wp_covered(plan, a, x) && #[trigger] wp_covered(plan, b, x) ==> b
            == a + 1 && x == plan.vias@[a]
    &&& forall|k: int, x: Cell| 0 <= k < plan.pieces@.len() && #[trigger] piece_span(plan, k).contains(x) ==> wp_covered(plan, k, x)
}

/// Each passage of a piece joins two cells of the piece's span.
pub open spec fn spans_hold_edges(plan: RoutePlan) -> bool {
    forall|k: int, t: int|
        0 <= k < plan.pieces@.len() && 0 <= t < plan.piece_edges@[k]@.len() ==> piece_span(plan, k).contains(
            (#[trigger] plan.piece_edges@[k]@[t]).0,
        ) && piece_span(plan, k).contains(plan.piece_edges@[k]@[t].1)
}

/// The cells of piece `k` of `plan` and the via it leaves by.
pub open spec fn piece_span(plan: RoutePlan, k: int) -> Seq<Cell> {
    if k < plan.vias@.len() {
        plan.pieces@[k]@.push(plan.vias@[k])
    } else {
        plan.pieces@[k]@
    }
}

/// `x` is a cell of piece `k` or the via that piece `k` leaves by.
pub open spec fn in_span(piece: Seq<Cell>, vias: Seq<Cell>, k: int, x: Cell) -> bool {
    piece.contains(x) || (k < vias.len() && x == vias[k])
}

/// Some passage of `edges` starts or ends at `x`, or `x` is one of `cells`.
pub open spec fn touches_cell(cells: Seq<Cell>, edges: Seq<Edge>, x: Cell) -> bool {
    cells.contains(x) || exists|t: int| 0 <= t < edges.len() && ((#[trigger] edges[t]).0 == x || edges[t].1 == x)
}

/// Evenly spaced cuts strictly increase: the `i`-th comes before the `j`-th.
proof fn lemma_cut_before(i: int, j: int, m: int, nv: int)
    requires
        0 <= i < j < nv,
        nv <= m,
    ensures
        (i + 1) * m / (nv + 1) < (j + 1) * m / (nv + 1),
{
    let d = nv + 1;
    let a = (i + 1) * m;
    let b = (j + 1) * m;
    assert(a >= 0 && b >= a + m) by (nonlinear_arith)
        requires
            0 <= i < j,
            m >= 0,
            a == (i + 1) * m,
            b == (j + 1) * m,
    ;
    let q = a / d;
    vstd::arithmetic::div_mod::lemma_fundamental_div_mod(a, d);
    vstd::arithmetic::div_mod::lemma_mod_pos_bound(a, d);
    let rem = a % d;
    if m == nv {
        assert(a == i * d + (d - i - 1)) by (nonlinear_arith)
            requires
                a == (i + 1) * m,
                m == nv,
                d == nv + 1,
        ;
        vstd::arithmetic::div_mod::lemma_fundamental_div_mod_converse(a, d, i, d - i - 1);
        assert(rem >= 1);
    }
    assert(d * q + rem == a);
    assert((q + 1) * d == d * q + d) by (nonlinear_arith);
    assert(rem + m >= d);
    assert(b >= (q + 1) * d);
    vstd::arithmetic::div_mod::lemma_div_is_ordered((q + 1) * d, b, d);
    vstd::arithmetic::div_mod::lemma_div_multiples_vanish(q + 1, d);
    assert((q + 1) * d == d * (q + 1)) by (nonlinear_arith);
}

/// Where piece `k` of the split starts on the path: its first cell, or the
/// cell just beyond the previous cut.
spec fn seg_start(cuts: Seq<usize>, k: int) -> int {
    if k == 0 {
        0
    } else {
        cuts[k - 1] + 1
    }
}

/// With the cut passages removed, the stretch of the path from piece `k`'s
/// start up to its cut still walks along the kept passages.
proof fn lemma_segment_kept(tree: Seq<Edge>, kept: Seq<Edge>, path: Seq<Cell>, cuts: Seq<usize>, k: int)
    requires
        path.len() >= 1,
        path.no_duplicates(),
        forall|i: int| 0 <= i < path.len() - 1 ==> #[trigger] joined(tree, path[i], path[i + 1]),
        0 <= k < cuts.len(),
        forall|j: int| 0 <= j < cuts.len() ==> #[trigger] cuts[j] < path.len() - 1,
        forall|i: int, j: int| 0 <= i < j < cuts.len() ==> #[trigger] cuts[i] < #[trigger] cuts[j],
        forall|q: int| 0 <= q < tree.len() && !is_cut_edge(#[trigger] tree[q], path, cuts) ==> kept.contains(tree[q]),
    ensures
        seg_start(cuts, k) <= cuts[k],
        reachable(kept, path[seg_start(cuts, k)], path[cuts[k] as int]),
{
    let s0 = seg_start(cuts, k);
    let c0 = cuts[k] as int;
    if k > 0 {
        assert(cuts[k - 1] < cuts[k]);
    }
    let w = path.subrange(s0, c0 + 1);
    assert forall|i: int| 0 <= i < w.len() - 1 implies #[trigger] joined(kept, w[i], w[i + 1]) by {
        let x = s0 + i;
        assert(w[i] == path[x] && w[i + 1] == path[x + 1]);
        assert(joined(tree, path[x], path[x + 1]));
        let t = choose|t: int| 0 <= t < tree.len() && #[trigger] links(tree[t], path[x], path[x + 1]);
        assert(!is_cut_edge(tree[t], path, cuts)) by {
            if is_cut_edge(tree[t], path, cuts) {
                let j = choose|j: int| 0 <= j < cuts.len() && #[trigger] links(tree[t], path[cuts[j] as int], path[cuts[j] + 1]);
                let c = cuts[j] as int;
                if path[x] == path[c] {
                    assert(x == c);
                    if j < k {
                        if j < k - 1 {
                            assert(cuts[j] < cuts[k - 1]);
                        }
                    } else if j > k {
                        assert(cuts[k] < cuts[j]);
                    }
                } else {
                    assert(path[x] == path[c + 1]);
                    assert(path[x + 1] == path[c]);
                    assert(x == c + 1 && x + 1 == c);
                }
            }
        }
        let y = choose|y: int| 0 <= y < kept.len() && kept[y] == tree[t];
        assert(links(kept[y], w[i], w[i + 1]));
    }
    assert(walk(kept, w, path[s0], path[c0]));
}

/// A tree that spans a region of two or more cells has a passage at the
/// region's first cell.
proof fn lemma_spanning_touches(tree: Seq<Edge>, region: Seq<Cell>)
    requires
        edges_within(tree, region),
        tree_spans(tree, region),
        region.no_duplicates(),
        region.len() >= 2,
    ensures
        touches(tree, region[0]),
{
    let root = choose|root: Cell| #[trigger] spans_from(tree, region, root);
    assert(reachable(tree, root, region[0]));
    assert(reachable(tree, root, region[1]));
    lemma_reachable_symmetric(tree, root, region[0]);
    lemma_reachable_trans(tree, region[0], root, region[1]);
    let p = choose|p: Seq<Cell>| #[trigger] walk(tree, p, region[0], region[1]);
    assert(region[0] != region[1]);
    assert(p.len() >= 2);
    let z: int = 0;
    assert(joined(tree, p[z], p[z + 1]));
    let t = choose|t: int| 0 <= t < tree.len() && #[trigger] links(tree[t], p[z], p[z + 1]);
    assert(tree[t].0 == region[0] || tree[t].1 == region[0]);
}

/// Depths in a search tree are never negative.
proof fn lemma_tree_depth_nonneg(parent: Seq<usize>, k: int)
    ensures
        tree_depth(parent, k) >= 0,
    decreases k,
{
    if 0 < k < parent.len() && parent[k] < k {
        lemma_tree_depth_nonneg(parent, parent[k] as int);
    }
}

/// Splits the route's tree into a chain of pieces along its longest path.
/// Returns the pieces, their passages and the vias, at least one of them; or
/// nothing, exactly when no passage touches the region's first cell, so that
/// the path is too short for any via. Piece `k` is what remains connected to its
/// first cell once the cut passages are removed; its first cell is the via it
/// is entered by, and the via it is left by lies one passage beyond it. The
/// chain stops early at a piece that does not reach its cut.
#[verifier::spinoff_prover]
#[verifier::rlimit(40)]
fn split_along_path(tree: &Vec<Edge>, region: &Vec<Cell>, via_count: usize) -> (res: (Vec<Vec<Cell>>, Vec<Vec<Edge>>, Vec<Cell>))
    requires
        region@.len() > 0,
        edges_within(tree@, region@),
        via_count > 0,
        is_grown_tree(tree@),
    ensures
        res.0@.len() == res.2@.len() + 1 || (res.0@.len() == 0 && res.2@.len() == 0),
        forall|a: int, k: int|
            0 <= a < k < res.2@.len() ==> !#[trigger] touches_cell(res.0@[a]@, res.1@[a]@, res.2@[k]),
        forall|a: int, b: int, x: Cell|
            0 <= a < b < res.0@.len() && #[trigger] touches_cell(res.0@[a]@, res.1@[a]@, x) && #[trigger] touches_cell(
                res.0@[b]@,
                res.1@[b]@,
                x,
            ) ==> b == a + 1 && x == res.2@[a],
        forall|k: int, t: int|
            0 <= k < res.1@.len() && 0 <= t < res.1@[k]@.len() ==> in_span(res.0@[k]@, res.2@, k, (#[trigger] res.1@[k]@[t]).0)
                && in_span(res.0@[k]@, res.2@, k, res.1@[k]@[t].1),
        res.1@.len() == res.0@.len(),
        res.2@.len() <= via_count,
        cells_within(res.2@, region@),
        forall|k: int| 0 <= k < res.0@.len() ==> cells_within(#[trigger] res.0@[k]@, region@),
        forall|k: int| 0 <= k < res.1@.len() ==> edges_within(#[trigger] res.1@[k]@, region@),
        forall|k: int| 0 <= k < res.0@.len() ==> (#[trigger] res.0@[k]@).no_duplicates(),
        forall|k: int| 0 <= k < res.0@.len() ==> piece_rooted(#[trigger] res.0@[k]@, res.1@[k]@),
        forall|k: int| 0 < k < res.0@.len() ==> (#[trigger] res.0@[k]@)[0] == res.2@[k - 1],
        forall|k: int| 0 <= k < res.2@.len() ==> #[trigger] reachable(res.1@[k]@, res.0@[k]@[0], res.2@[k]),
        res.0@.len() > 0 <==> touches(tree@, region@[0]),
        res.0@.len() > 0 ==> res.2@.len() >= 1,
        res.2@.no_duplicates(),
        res.0@.len() > 0 ==> exists|p: Seq<Cell>|
            #[trigger] walk(tree@, p, p[0], p[p.len() - 1]) && p.no_duplicates() && res.2@.len() == (if via_count
                < p.len() - 1 {
                via_count as int
            } else {
                p.len() - 1
            }) && forall|k: int| 0 <= k < res.2@.len() ==> p.contains(#[trigger] res.2@[k]),
{
    let mut pieces: Vec<Vec<Cell>> = Vec::new();
    let mut piece_edges: Vec<Vec<Edge>> = Vec::new();
    let mut vias: Vec<Cell> = Vec::new();
    let (o1, p1) = bfs_tree(region[0], tree);
    proof {
        assert(region@.contains(region@[0]));
        lemma_search_tree_within(tree@, o1@, p1@, region@);
    }
    let u = o1[o1.len() - 1];
    let (o2, p2) = bfs_tree(u, tree);
    proof {
        assert(region@.contains(o1@[o1@.len() - 1]));
        lemma_search_tree_within(tree@, o2@, p2@, region@);
    }
    let path = trace_back(tree, &o2, &p2, o2.len() - 1);
    proof {
        lemma_walk_within(tree@, path@, o2@[0], o2@[o2@.len() - 1], region@);
        lemma_search_reaches_more(tree@, region@, o1@, p1@);
        lemma_search_reaches_more(tree@, region@, o2@, p2@);
        let l1 = o1@.len() - 1;
        let l2 = o2@.len() - 1;
        if o1@.len() >= 2 {
            assert(p1@[l1] < l1);
            assert(joined(tree@, o1@[l1], o1@[p1@[l1] as int]));
            let t = choose|t: int| 0 <= t < tree@.len() && #[trigger] links(tree@[t], o1@[l1], o1@[p1@[l1] as int]);
            assert(tree@[t].0 == u || tree@[t].1 == u);
            assert(o2@.len() >= 2);
            assert(p2@[l2] < l2);
            lemma_tree_depth_nonneg(p2@, p2@[l2] as int);
            assert(path@.len() >= 2);
        } else {
            assert(u == region@[0]);
            assert(o2@.len() == 1);
            assert(path@.len() == 1);
        }
    }
    let m: usize = path.len() - 1;
    let nv: usize = if via_count < m { via_count } else { m };
    if nv == 0 {
        return (pieces, piece_edges, vias);
    }
    let mut cuts: Vec<usize> = Vec::new();
    let mut k: usize = 0;
    while k < nv
        invariant
            k <= nv,
            nv <= m,
            m + 1 == path@.len(),
            cuts@.len() == k,
            forall|j: int| 0 <= j < k ==> #[trigger] cuts@[j] < m,
            forall|j: int| 0 <= j < k ==> #[trigger] cuts@[j] as int == (j + 1) * (m as int) / (nv as int + 1),
        decreases nv - k,
    {
        proof {
            assert(((k + 1) as int) * (m as int) < 0x1_0000_0000_0000_0000_0000_0000_0000_0000) by (nonlinear_arith)
                requires
                    0 <= k + 1 < 0x1_0000_0000_0000_0000,
                    0 <= m < 0x1_0000_0000_0000_0000,
            ;
        }
        let x: u128 = ((k + 1) as u128) * (m as u128);
        let idx128: u128 = x / ((nv as u128) + 1);
        proof {
            let a = (k + 1) as int;
            let mm = m as int;
            let d = nv as int + 1;
            assert(a * mm < d * mm) by (nonlinear_arith)
                requires
                    1 <= a < d,
                    mm >= 1,
            ;
            assert(a * mm < 0x1_0000_0000_0000_0000_0000_0000_0000_0000) by (nonlinear_arith)
                requires
                    0 <= a < 0x1_0000_0000_0000_0000,
                    0 <= mm < 0x1_0000_0000_0000_0000,
            ;
            vstd::arithmetic::div_mod::lemma_multiply_divide_lt(a * mm, d, mm);
        }
        let ghost c0 = cuts@;
        cuts.push(idx128 as usize);
        proof {
            assert(idx128 as int == (k + 1) * (m as int) / (nv as int + 1));
            assert forall|j: int| 0 <= j < k + 1 implies #[trigger] cuts@[j] as int == (j + 1) * (m as int) / (
            nv as int + 1) by {
                if j < k {
                    assert(cuts@[j] == c0[j]);
                }
            }
        }
        k = k + 1;
    }
    proof {
        assert forall|i: int, j: int| 0 <= i < j < cuts@.len() implies #[trigger] cuts@[i] < #[trigger] cuts@[j] by {
            lemma_cut_before(i, j, m as int, nv as int);
        }
    }
    let mut kept: Vec<Edge> = Vec::new();
    let mut t: usize = 0;
    while t < tree.len()
        invariant
            t <= tree@.len(),
            m + 1 == path@.len(),
            forall|q: int| 0 <= q < cuts@.len() ==> #[trigger] cuts@[q] < m,
            edges_within(tree@, region@),
            edges_within(kept@, region@),
            forall|q: int| 0 <= q < t && !is_cut_edge(#[trigger] tree@[q], path@, cuts@) ==> kept@.contains(tree@[q]),
            forall|q: int| 0 <= q < kept@.len() ==> tree@.contains(#[trigger] kept@[q]) && !is_cut_edge(kept@[q], path@, cuts@),
        decreases tree@.len() - t,
    {
        let e = tree[t];
        let mut cut = false;
        let mut j: usize = 0;
        while j < cuts.len()
            invariant
                j <= cuts@.len(),
                m + 1 == path@.len(),
                forall|q: int| 0 <= q < cuts@.len() ==> #[trigger] cuts@[q] < m,
                cut == exists|jj: int| 0 <= jj < j && #[trigger] links(e, path@[cuts@[jj] as int], path@[cuts@[jj] + 1]),
            decreases cuts@.len() - j,
        {
            let c = cuts[j];
            if is_cut(e, path[c], path[c + 1]) {
                cut = true;
            }
            proof {
                if links(e, path@[c as int], path@[c + 1]) {
                    assert(links(e, path@[cuts@[j as int] as int], path@[cuts@[j as int] + 1]));
                }
                if cut && !links(e, path@[c as int], path@[c + 1]) {
                    let jj = choose|jj: int| 0 <= jj < j && #[trigger] links(e, path@[cuts@[jj] as int], path@[cuts@[jj] + 1]);
                }
            }
            j = j + 1;
        }
        proof {
            if !cut {
                assert(!is_cut_edge(e, path@, cuts@));
            }
        }
        let ghost k0 = kept@;
        if !cut {
            kept.push(e);
            proof {
                assert forall|q: int| 0 <= q < kept@.len() implies region@.contains((#[trigger] kept@[q]).0)
                    && region@.contains(kept@[q].1) by {
                    if q < k0.len() {
                        assert(kept@[q] == k0[q]);
                    }
                }
                assert forall|q: int| 0 <= q < kept@.len() implies tree@.contains(#[trigger] kept@[q]) && !is_cut_edge(
                    kept@[q],
                    path@,
                    cuts@,
                ) by {
                    if q < k0.len() {
                        assert(kept@[q] == k0[q]);
                    } else {
                        assert(tree@[t as int] == e);
                    }
                }
            }
        }
        proof {
            assert forall|q: int| 0 <= q < t + 1 && !is_cut_edge(#[trigger] tree@[q], path@, cuts@) implies kept@.contains(
                tree@[q],
            ) by {
                if q < t {
                    let x = choose|x: int| 0 <= x < k0.len() && k0[x] == tree@[q];
                    assert(kept@[x] == k0[x]);
                } else {
                    assert(kept@[k0.len() as int] == e);
                }
            }
        }
        t = t + 1;
    }
    // The path up to the first cut is left whole.
    proof {
        assert forall|k: int| 0 <= k < nv implies seg_start(cuts@, k) <= #[trigger] cuts@[k] && reachable(
            kept@,
            path@[seg_start(cuts@, k)],
            path@[cuts@[k] as int],
        ) by {
            lemma_segment_kept(tree@, kept@, path@, cuts@, k);
        }
    }
    let mut k: usize = 0;
    let mut stop = false;
    while k <= nv && !stop
        invariant
            k <= nv + 1,
            nv <= m,
            nv < usize::MAX,
            nv <= via_count,
            m + 1 == path@.len(),
            cuts@.len() == nv,
            forall|j: int| 0 <= j < nv ==> #[trigger] cuts@[j] < m,
            cells_within(path@, region@),
            edges_within(tree@, region@),
            forall|i: int| 0 <= i < m ==> #[trigger] joined(tree@, path@[i], path@[i + 1]),
            edges_within(kept@, region@),
            pieces@.len() == k,
            piece_edges@.len() == k,
            stop ==> vias@.len() + 1 == k,
            !stop ==> vias@.len() == if k <= nv { k } else { nv },
            k > nv ==> vias@.len() == nv,
            vias@.len() <= nv,
            cells_within(vias@, region@),
            forall|q: int| 0 <= q < pieces@.len() ==> cells_within(#[trigger] pieces@[q]@, region@),
            forall|q: int| 0 <= q < piece_edges@.len() ==> edges_within(#[trigger] piece_edges@[q]@, region@),
            forall|q: int| 0 <= q < pieces@.len() ==> (#[trigger] pieces@[q]@).no_duplicates(),
            forall|q: int| 0 <= q < pieces@.len() ==> piece_rooted(#[trigger] pieces@[q]@, piece_edges@[q]@),
            forall|q: int| 0 < q < pieces@.len() ==> (#[trigger] pieces@[q]@)[0] == vias@[q - 1],
            forall|q: int| 0 <= q < vias@.len() ==> #[trigger] reachable(piece_edges@[q]@, pieces@[q]@[0], vias@[q]),
            !stop && 0 < k <= nv ==> vias@[k - 1] == path@[cuts@[k - 1] + 1],
            nv >= 1,
            forall|j: int| 0 <= j < nv ==> seg_start(cuts@, j) <= #[trigger] cuts@[j] && reachable(
                kept@,
                path@[seg_start(cuts@, j)],
                path@[cuts@[j] as int],
            ),
            forall|i: int, j: int| 0 <= i < j < cuts@.len() ==> #[trigger] cuts@[i] < #[trigger] cuts@[j],
            path@.no_duplicates(),
            !stop,
            forall|q: int| 0 <= q < vias@.len() ==> #[trigger] vias@[q] == path@[cuts@[q] + 1],
            k >= 1 ==> vias@.len() >= 1,
            forall|q: int| 0 <= q < kept@.len() ==> tree@.contains(#[trigger] kept@[q]) && !is_cut_edge(kept@[q], path@, cuts@),
            forall|q: int, x: Cell|
                0 <= q < pieces@.len() && #[trigger] touches_cell(pieces@[q]@, piece_edges@[q]@, x) ==> reachable(
                    kept@,
                    path@[seg_start(cuts@, q)],
                    x,
                ) || (q < nv && x == path@[cuts@[q] + 1]),
            forall|q: int, t: int|
                0 <= q < piece_edges@.len() && 0 <= t < piece_edges@[q]@.len() ==> (pieces@[q]@.contains(
                    (#[trigger] piece_edges@[q]@[t]).0,
                ) || (q < nv && piece_edges@[q]@[t].0 == path@[cuts@[q] + 1])) && (pieces@[q]@.contains(piece_edges@[q]@[t].1)
                    || (q < nv && piece_edges@[q]@[t].1 == path@[cuts@[q] + 1])),
        decreases nv + 1 - k,
    {
        let start: Cell = if k == 0 { path[0] } else { path[cuts[k - 1] + 1] };
        let (piece, pp) = bfs_tree(start, &kept);
        proof {
            assert(region@.contains(start));
            lemma_search_tree_within(kept@, piece@, pp@, region@);
        }
        let mut pe: Vec<Edge> = Vec::new();
        let mut t: usize = 0;
        while t < kept.len()
            invariant
                t <= kept@.len(),
                edges_within(kept@, region@),
                edges_within(pe@, region@),
                forall|q: int| 0 <= q < t && piece@.contains((#[trigger] kept@[q]).0) ==> pe@.contains(kept@[q]),
                forall|q: int| 0 <= q < pe@.len() ==> kept@.contains(#[trigger] pe@[q]) && piece@.contains(pe@[q].0),
            decreases kept@.len() - t,
        {
            let e = kept[t];
            let ghost e0 = pe@;
            if contains_cell(&piece, e.0) {
                pe.push(e);
                proof {
                    assert forall|q: int| 0 <= q < pe@.len() implies kept@.contains(#[trigger] pe@[q]) && piece@.contains(pe@[q].0) by {
                        if q < e0.len() {
                            assert(pe@[q] == e0[q]);
                        } else {
                            assert(kept@[t as int] == e);
                        }
                    }
                    assert forall|q: int| 0 <= q < pe@.len() implies region@.contains((#[trigger] pe@[q]).0)
                        && region@.contains(pe@[q].1) && adjacent(pe@[q].0, pe@[q].1) by {
                        if q < e0.len() {
                            assert(pe@[q] == e0[q]);
                        }
                    }
                    assert(pe@[e0.len() as int] == e);
                }
            }
            proof {
                assert forall|q: int| 0 <= q < t + 1 && piece@.contains((#[trigger] kept@[q]).0) implies pe@.contains(kept@[q]) by {
                    if q < t {
                        assert(e0.contains(kept@[q]));
                        let x = choose|x: int| 0 <= x < e0.len() && e0[x] == kept@[q];
                        assert(pe@[x] == e0[x]);
                    } else {
                        assert(pe@[e0.len() as int] == e);
                    }
                }
            }
            t = t + 1;
        }
        // Every cell of the piece is reached from its start along `pe`.
        proof {
            assert forall|i: int| 0 <= i < piece@.len() implies #[trigger] reachable(pe@, piece@[0], piece@[i]) by {
                lemma_search_tree_reachable(kept@, piece@, pp@, i);
                let w = choose|w: Seq<Cell>| #[trigger] walk(kept@, w, piece@[0], piece@[i]);
                assert(piece@.contains(piece@[0]));
                lemma_walk_in_closed(kept@, w, piece@[0], piece@[i], piece@);
                lemma_walk_transfer(kept@, pe@, w, piece@[0], piece@[i], piece@);
            }
        }
        let ghost pk = pe@;
        let mut has_via = false;
        proof {
            if k < nv {
                assert(start == path@[seg_start(cuts@, k as int)]);
                assert(reachable(kept@, path@[seg_start(cuts@, k as int)], path@[cuts@[k as int] as int]));
                let w = choose|w: Seq<Cell>| #[trigger] walk(kept@, w, start, path@[cuts@[k as int] as int]);
                assert(piece@.contains(piece@[0]));
                lemma_walk_in_closed(kept@, w, start, path@[cuts@[k as int] as int], piece@);
                assert(piece@.contains(w[w.len() - 1]));
            }
        }
        if k < nv {
            let c = cuts[k];
            if contains_cell(&piece, path[c]) {
                let ghost e0 = pe@;
                pe.push((path[c], path[c + 1]));
                let ghost v0 = vias@;
                vias.push(path[c + 1]);
                has_via = true;
                proof {
                    assert(region@.contains(path@[c as int]) && region@.contains(path@[c + 1]));
                    assert(joined(tree@, path@[c as int], path@[c + 1]));
                    let t = choose|t: int| 0 <= t < tree@.len() && #[trigger] links(tree@[t], path@[c as int], path@[c + 1]);
                    assert(adjacent(tree@[t].0, tree@[t].1));
                    assert forall|q: int| 0 <= q < pe@.len() implies region@.contains((#[trigger] pe@[q]).0)
                        && region@.contains(pe@[q].1) && adjacent(pe@[q].0, pe@[q].1) by {
                        if q < e0.len() {
                            assert(pe@[q] == e0[q]);
                        }
                    }
                    assert forall|q: int| 0 <= q < vias@.len() implies region@.contains(#[trigger] vias@[q]) by {
                        if q < v0.len() {
                            assert(vias@[q] == v0[q]);
                        }
                    }
                    // The new passage keeps every earlier walk and adds one step.
                    assert forall|i: int| 0 <= i < piece@.len() implies #[trigger] reachable(pe@, piece@[0], piece@[i]) by {
                        assert(reachable(e0, piece@[0], piece@[i]));
                        let w = choose|w: Seq<Cell>| #[trigger] walk(e0, w, piece@[0], piece@[i]);
                        assert forall|j: int| 0 <= j < w.len() - 1 implies #[trigger] joined(pe@, w[j], w[j + 1]) by {
                            assert(joined(e0, w[j], w[j + 1]));
                            let x = choose|x: int| 0 <= x < e0.len() && #[trigger] links(e0[x], w[j], w[j + 1]);
                            assert(pe@[x] == e0[x]);
                        }
                        assert(walk(pe@, w, piece@[0], piece@[i]));
                    }
                    let pi = choose|pi: int| 0 <= pi < piece@.len() && piece@[pi] == path@[c as int];
                    assert(reachable(pe@, piece@[0], piece@[pi]));
                    assert(links(pe@[e0.len() as int], path@[c as int], path@[c + 1]));
                    assert(joined(pe@, path@[c as int], path@[c + 1]));
                    lemma_reachable_step(pe@, piece@[0], path@[c as int], path@[c + 1]);
                }
            }
        }
        proof {
            assert(start == path@[seg_start(cuts@, k as int)]);
            assert(pe@ == pk || (k < nv && pe@ == pk.push((path@[cuts@[k as int] as int], path@[cuts@[k as int] + 1]))));
            assert forall|x: Cell| #[trigger] touches_cell(piece@, pe@, x) implies reachable(kept@, start, x) || (k < nv
                && x == path@[cuts@[k as int] + 1]) by {
                if piece@.contains(x) {
                    let i = choose|i: int| 0 <= i < piece@.len() && piece@[i] == x;
                    lemma_search_tree_reachable(kept@, piece@, pp@, i);
                } else {
                    let t = choose|t: int| 0 <= t < pe@.len() && ((#[trigger] pe@[t]).0 == x || pe@[t].1 == x);
                    if t < pk.len() {
                        assert(pe@[t] == pk[t]);
                        assert(kept@.contains(pk[t]) && piece@.contains(pk[t].0));
                        let u = choose|u: int| 0 <= u < kept@.len() && kept@[u] == pk[t];
                        assert(piece@.contains(kept@[u].1));
                    } else {
                        assert(pe@[t] == (path@[cuts@[k as int] as int], path@[cuts@[k as int] + 1]));
                    }
                }
            }
        }
        proof {
            assert forall|t: int| 0 <= t < pe@.len() implies (piece@.contains((#[trigger] pe@[t]).0) || (k < nv && pe@[t].0
                == path@[cuts@[k as int] + 1])) && (piece@.contains(pe@[t].1) || (k < nv && pe@[t].1 == path@[cuts@[k as int]
                + 1])) by {
                if t < pk.len() {
                    assert(pe@[t] == pk[t]);
                    assert(kept@.contains(pk[t]) && piece@.contains(pk[t].0));
                    let u = choose|u: int| 0 <= u < kept@.len() && kept@[u] == pk[t];
                    assert(piece@.contains(kept@[u].1));
                } else {
                    assert(pe@[t] == (path@[cuts@[k as int] as int], path@[cuts@[k as int] + 1]));
                    let c = cuts@[k as int] as int;
                    assert(piece@.contains(path@[c]));
                }
            }
        }
        let ghost pc0 = pieces@;
        let ghost pe0 = piece_edges@;
        let ghost vv = vias@;
        pieces.push(piece);
        piece_edges.push(pe);
        proof {
            assert forall|q: int, t: int|
                0 <= q < piece_edges@.len() && 0 <= t < piece_edges@[q]@.len() implies (pieces@[q]@.contains(
                (#[trigger] piece_edges@[q]@[t]).0,
            ) || (q < nv && piece_edges@[q]@[t].0 == path@[cuts@[q] + 1])) && (pieces@[q]@.contains(piece_edges@[q]@[t].1)
                || (q < nv && piece_edges@[q]@[t].1 == path@[cuts@[q] + 1])) by {
                if q < pc0.len() {
                    assert(pieces@[q] == pc0[q]);
                    assert(piece_edges@[q] == pe0[q]);
                }
            }
            assert forall|q: int, x: Cell|
                0 <= q < pieces@.len() && #[trigger] touches_cell(pieces@[q]@, piece_edges@[q]@, x) implies reachable(
                kept@,
                path@[seg_start(cuts@, q)],
                x,
            ) || (q < nv && x == path@[cuts@[q] + 1]) by {
                if q < pc0.len() {
                    assert(pieces@[q] == pc0[q]);
                    assert(piece_edges@[q] == pe0[q]);
                }
            }
            assert forall|q: int| 0 <= q < pieces@.len() implies cells_within(#[trigger] pieces@[q]@, region@) by {
                if q < pc0.len() {
                    assert(pieces@[q] == pc0[q]);
                }
            }
            assert forall|q: int| 0 <= q < piece_edges@.len() implies edges_within(#[trigger] piece_edges@[q]@, region@) by {
                if q < pe0.len() {
                    assert(piece_edges@[q] == pe0[q]);
                }
            }
            assert forall|q: int| 0 <= q < pieces@.len() implies (#[trigger] pieces@[q]@).no_duplicates() by {
                if q < pc0.len() {
                    assert(pieces@[q] == pc0[q]);
                }
            }
            assert forall|q: int| 0 <= q < pieces@.len() implies piece_rooted(#[trigger] pieces@[q]@, piece_edges@[q]@) by {
                if q < pc0.len() {
                    assert(pieces@[q] == pc0[q]);
                    assert(piece_edges@[q] == pe0[q]);
                }
            }
            assert forall|q: int| 0 < q < pieces@.len() implies (#[trigger] pieces@[q]@)[0] == vias@[q - 1] by {
                if q < pc0.len() {
                    assert(pieces@[q] == pc0[q]);
                } else {
                    assert(pieces@[q]@[0] == start);
                }
            }
            assert forall|q: int| 0 <= q < vias@.len() implies #[trigger] reachable(piece_edges@[q]@, pieces@[q]@[0], vias@[q]) by {
                if q < pc0.len() {
                    assert(pieces@[q] == pc0[q]);
                    assert(piece_edges@[q] == pe0[q]);
                }
            }
        }
        if k < nv && !has_via {
            stop = true;
        }
        k = k + 1;
    }
    proof {
        assert(vias@.len() == nv);
        assert forall|a: int, b: int| 0 <= a < b < vias@.len() implies vias@[a] != vias@[b] by {
            assert(cuts@[a] < cuts@[b]);
            assert(vias@[a] == path@[cuts@[a] + 1] && vias@[b] == path@[cuts@[b] + 1]);
        }
        assert(walk(tree@, path@, path@[0], path@[path@.len() - 1]));
        assert forall|q: int| 0 <= q < vias@.len() implies path@.contains(#[trigger] vias@[q]) by {
            assert(path@[cuts@[q] + 1] == vias@[q]);
        }
        let order = choose|order: Seq<Cell>| grown_tree(tree@, order);
        lemma_pieces_apart(tree@, order, kept@, path@, cuts@, pieces@, piece_edges@, vias@, nv as int, m as int);
        assert forall|k: int, t: int|
            0 <= k < piece_edges@.len() && 0 <= t < piece_edges@[k]@.len() implies in_span(pieces@[k]@, vias@, k, (#[trigger] piece_edges@[k]@[t]).0)
                && in_span(pieces@[k]@, vias@, k, piece_edges@[k]@[t].1) by {
            if k < nv {
                assert(vias@[k] == path@[cuts@[k] + 1]);
            }
        }
        assert forall|a: int, k: int|
            0 <= a < k < vias@.len() implies !#[trigger] touches_cell(pieces@[a]@, piece_edges@[a]@, vias@[k]) by {
            if touches_cell(pieces@[a]@, piece_edges@[a]@, vias@[k]) {
                assert(cuts@[a] < cuts@[k]);
                assert(vias@[a] != vias@[k]);
                assert(vias@[k] == path@[cuts@[k] + 1]);
                assert(seg_start(cuts@, a) <= cuts@[a]);
                lemma_cut_separates(tree@, order, kept@, path@, cuts@, seg_start(cuts@, a), cuts@[k] + 1, k);
            }
        }
    }
    (pieces, piece_edges, vias)
}

/// Lays out one route over its region: with vias asked for and more than one
/// layer, the region's tree is split along its longest path into a chain of
/// pieces joined by vias; then the checkpoints are spread over the pieces,
/// first and last checkpoint in the first and last piece, and topped up in
/// the first piece when a piece had too few free cells.
#[verifier::spinoff_prover]
#[verifier::rlimit(40)]
pub fn build_plan(
    rng: &mut rand::rngs::StdRng,
    region: &Vec<Cell>,
    tree: &Vec<Edge>,
    layers: usize,
    checkpoints: usize,
    via_count: usize,
) -> (plan: RoutePlan)
    requires
        region@.len() > 0,
        region@.no_duplicates(),
        all_coord_ok(region@),
        edges_within(tree@, region@),
        tree_spans(tree@, region@),
        is_grown_tree(tree@),
    ensures
        forall|a: int, k: int| 0 <= a < k < plan.vias@.len() ==> !#[trigger] wp_covered(plan, a, plan.vias@[k]),
        pieces_apart(plan),
        spans_hold_edges(plan),
        plan_within(plan, region@),
        plan.vias@.len() <= via_count,
        via_count == 0 || layers <= 1 ==> plan.vias@.len() == 0,
        plan.vias@.len() == 0 ==> plan.checkpoints@[0]@.len() >= checkpoints,
        plan_cps_count(plan) == checkpoints,
        plan.vias@.len() == 0 ==> plan.piece_edges@[0]@ == tree@,
        via_count > 0 && layers > 1 && region@.len() >= 2 ==> plan.vias@.len() >= 1,
        plan.vias@.no_duplicates(),
        via_count > 0 && layers > 1 && region@.len() >= 2 ==> exists|p: Seq<Cell>|
            #[trigger] walk(tree@, p, p[0], p[p.len() - 1]) && p.no_duplicates() && plan.vias@.len() == (if via_count
                < p.len() - 1 {
                via_count as int
            } else {
                p.len() - 1
            }) && forall|k: int| 0 <= k < plan.vias@.len() ==> p.contains(#[trigger] plan.vias@[k]),
        forall|k: int| 0 <= k < plan.pieces@.len() ==> #[trigger] piece_linked(plan, k),
        checkpoints >= 2 ==> forall|k: int| 0 <= k < plan.pieces@.len() ==> (#[trigger] waypoints(plan, k)).len() >= 2,
        forall|k: int, i: int|
            0 <= k < plan.pieces@.len() && 0 <= i < waypoints(plan, k).len() ==> wp_covered(
                plan,
                k,
                #[trigger] waypoints(plan, k)[i],
            ),
{
    let mut pieces: Vec<Vec<Cell>> = Vec::new();
    let mut piece_edges: Vec<Vec<Edge>> = Vec::new();
    let mut vias: Vec<Cell> = Vec::new();
    if via_count > 0 && layers > 1 {
        let (a, b, c) = split_along_path(tree, region, via_count);
        pieces = a;
        piece_edges = b;
        vias = c;
        proof {
            if region@.len() >= 2 {
                lemma_spanning_touches(tree@, region@);
            }
        }
    }
    if vias.len() == 0 {
        pieces = Vec::new();
        piece_edges = Vec::new();
        pieces.push(copy_cells(region));
        piece_edges.push(copy_edges(tree));
        proof {
            assert(cells_within(pieces@[0]@, region@));
            assert forall|q: int| 0 <= q < pieces@.len() implies cells_within(#[trigger] pieces@[q]@, region@) by {}
        }
    }
    let np = pieces.len();
    assert(vias@.len() == 0 ==> np == 1 && pieces@[0]@ == region@);
    assert(forall|a: int, b: int, x: Cell|
        0 <= a < b < pieces@.len() && #[trigger] touches_cell(pieces@[a]@, piece_edges@[a]@, x) && #[trigger] touches_cell(
            pieces@[b]@,
            piece_edges@[b]@,
            x,
        ) ==> b == a + 1 && x == vias@[a]);
    assert(forall|k: int, t: int|
        0 <= k < piece_edges@.len() && 0 <= t < piece_edges@[k]@.len() ==> in_span(pieces@[k]@, vias@, k, (#[trigger] piece_edges@[k]@[t]).0)
            && in_span(pieces@[k]@, vias@, k, piece_edges@[k]@[t].1)) by {
        if vias@.len() == 0 {
            assert forall|k: int, t: int|
                0 <= k < piece_edges@.len() && 0 <= t < piece_edges@[k]@.len() implies in_span(pieces@[k]@, vias@, k, (#[trigger] piece_edges@[k]@[t]).0)
                    && in_span(pieces@[k]@, vias@, k, piece_edges@[k]@[t].1) by {
                assert(k == 0);
                assert(piece_edges@[0]@ == tree@);
            }
        }
    }
    assert(forall|a: int, k: int|
        0 <= a < k < vias@.len() ==> !#[trigger] touches_cell(pieces@[a]@, piece_edges@[a]@, vias@[k]));
    // What each piece connects, reached from one root per piece.
    let ghost roots: Seq<Cell> = if vias@.len() == 0 {
        seq![choose|root: Cell| #[trigger] spans_from(tree@, region@, root)]
    } else {
        Seq::new(np as nat, |k: int| pieces@[k]@[0])
    };
    proof {
        assert forall|k: int| 0 <= k < np implies #[trigger] piece_reach(pieces@, piece_edges@, vias@, k, roots[k]) by {
            if vias@.len() == 0 {
                assert(k == 0);
                assert(piece_edges@[0]@ == tree@);
            } else {
                assert(piece_rooted(pieces@[k]@, piece_edges@[k]@));
                if k > 0 {
                    assert(pieces@[k]@[0] == vias@[k - 1]);
                    assert(reachable(piece_edges@[k]@, pieces@[k]@[0], pieces@[k]@[0]));
                }
                if k < vias@.len() {
                    assert(reachable(piece_edges@[k]@, pieces@[k]@[0], vias@[k]));
                }
            }
        }
        assert forall|k: int| 0 <= k < np implies (#[trigger] pieces@[k]@).len() > 0 && pieces@[k]@.no_duplicates() by {
            if vias@.len() != 0 {
                assert(piece_rooted(pieces@[k]@, piece_edges@[k]@));
            }
        }
        if vias@.len() != 0 {
            assert forall|k: int| 0 < k < np implies (#[trigger] pieces@[k]@).contains(vias@[k - 1]) by {
                assert(pieces@[k]@[0] == vias@[k - 1]);
            }
            assert forall|k: int| 0 <= k < vias@.len() implies pieces@[k]@.contains(#[trigger] vias@[k]) || exists|t: int|
                0 <= t < piece_edges@[k]@.len() && ((#[trigger] piece_edges@[k]@[t]).0 == vias@[k] || piece_edges@[k]@[t].1
                    == vias@[k]) by {
                assert(reachable(piece_edges@[k]@, pieces@[k]@[0], vias@[k]));
                lemma_reachable_end(piece_edges@[k]@, pieces@[k]@[0], vias@[k]);
                assert(piece_rooted(pieces@[k]@, piece_edges@[k]@));
            }
        }
    }
    // How many checkpoints each piece gets.
    let mut counts: Vec<usize> = Vec::new();
    let mut k: usize = 0;
    while k < np
        invariant
            k <= np,
            counts@.len() == k,
            forall|q: int| 0 <= q < k ==> #[trigger] counts@[q] == 0,
            count_sum(counts@, k as int) == 0,
        decreases np - k,
    {
        let ghost c0 = counts@;
        counts.push(0);
        proof {
            assert forall|q: int| 0 <= q < k implies counts@[q] == c0[q] by {}
            lemma_count_sum_same(c0, counts@, k as int);
        }
        k = k + 1;
    }
    let mut i: usize = 0;
    while i < checkpoints
        invariant
            i <= checkpoints,
            np >= 1,
            counts@.len() == np,
            forall|q: int| 0 <= q < np ==> #[trigger] counts@[q] <= i,
            np == 1 ==> counts@[0] == i,
            i > 0 ==> counts@[0] >= 1,
            checkpoints >= 2 && i == checkpoints ==> counts@[np - 1] >= 1,
            count_sum(counts@, np as int) == i,
        decreases checkpoints - i,
    {
        let p = piece_of_checkpoint_exec(i, checkpoints, np);
        let v = counts[p];
        proof {
            lemma_count_sum_update(counts@, p as int, (v + 1) as usize, np as int);
        }
        counts.set(p, v + 1);
        i = i + 1;
    }
    let mut cps: Vec<Vec<Cell>> = Vec::new();
    let mut total: usize = 0;
    let mut k: usize = 0;
    while k < np
        invariant
            k <= np,
            np == pieces@.len(),
            counts@.len() == np,
            all_coord_ok(region@),
            forall|q: int| 0 <= q < np ==> #[trigger] counts@[q] <= checkpoints,
            forall|q: int| 0 <= q < np ==> cells_within(#[trigger] pieces@[q]@, region@),
            cps@.len() == k,
            total <= checkpoints,
            forall|q: int| 0 <= q < k ==> cells_within(#[trigger] cps@[q]@, region@),
            forall|q: int| 0 <= q < k ==> cells_within(#[trigger] cps@[q]@, pieces@[q]@),
            np == 1 && k == 1 ==> cps@[0]@.len() >= total,
            k == 0 ==> total == 0,
            forall|q: int| 0 <= q < np ==> (#[trigger] pieces@[q]@).len() > 0 && pieces@[q]@.no_duplicates(),
            forall|q: int| 0 <= q < k ==> #[trigger] counts@[q] >= 1 ==> cps@[q]@.len() >= 1,
            count_sum(counts@, np as int) == checkpoints,
            total == lens_sum(cps@, k as int),
            total <= count_sum(counts@, k as int),
        decreases np - k,
    {
        let piece = &pieces[k];
        proof {
            lemma_within_coord_ok(piece@, region@);
        }
        let mut got: Vec<Cell> = Vec::new();
        if counts[k] > 0 {
            got = pick_checkpoints_in_region(rng, piece, counts[k], &vias);
            proof {
                assert(piece@.len() > 0 && piece@.no_duplicates());
                let avail = available(piece@, vias@);
                if 0 < avail.len() <= counts@[k as int] {
                    vstd::seq_lib::to_multiset_len(got@);
                    vstd::seq_lib::to_multiset_len(avail);
                }
                assert(got@.len() >= 1);
                assert(got@.len() <= counts@[k as int]);
            }
        }
        proof {
            lemma_count_sum_mono(counts@, k as int + 1, np as int);
            assert(count_sum(counts@, k as int + 1) == count_sum(counts@, k as int) + counts@[k as int]);
            assert(total + got@.len() <= checkpoints);
        }
        proof {
            assert forall|q: int| 0 <= q < got@.len() implies region@.contains(#[trigger] got@[q]) by {
                assert(piece@.contains(got@[q]));
                let j = choose|j: int| 0 <= j < piece@.len() && piece@[j] == got@[q];
                assert(region@.contains(piece@[j]));
            }
        }
        if total < checkpoints {
            let room = checkpoints - total;
            total = total + if got.len() < room { got.len() } else { room };
        }
        let ghost c0 = cps@;
        cps.push(got);
        proof {
            lemma_lens_sum_same(cps@, c0, k as int);
            assert(lens_sum(cps@, k as int + 1) == lens_sum(cps@, k as int) + cps@[k as int]@.len());
            assert forall|q: int| 0 <= q < k + 1 implies cells_within(#[trigger] cps@[q]@, region@) by {
                if q < k {
                    assert(cps@[q] == c0[q]);
                }
            }
            assert forall|q: int| 0 <= q < k + 1 implies cells_within(#[trigger] cps@[q]@, pieces@[q]@) by {
                if q < k {
                    assert(cps@[q] == c0[q]);
                }
            }
            assert forall|q: int| 0 <= q < k + 1 implies #[trigger] counts@[q] >= 1 ==> cps@[q]@.len() >= 1 by {
                if q < k {
                    assert(cps@[q] == c0[q]);
                }
            }
        }
        k = k + 1;
    }
    assert(checkpoints >= 2 ==> cps@[0]@.len() >= 1 && cps@[np - 1]@.len() >= 1);
    // Top up in the first piece.
    while total < checkpoints
        invariant
            total <= checkpoints,
            np == pieces@.len(),
            np >= 1,
            cps@.len() == np,
            all_coord_ok(region@),
            region@.len() > 0,
            region@.no_duplicates(),
            vias@.len() == 0 ==> np == 1 && pieces@[0]@ == region@,
            np == 1 ==> cps@[0]@.len() >= total,
            checkpoints >= 2 ==> cps@[0]@.len() >= 1 && cps@[np - 1]@.len() >= 1,
            forall|q: int| 0 <= q < np ==> cells_within(#[trigger] pieces@[q]@, region@),
            forall|q: int| 0 <= q < np ==> cells_within(#[trigger] cps@[q]@, region@),
            forall|q: int| 0 <= q < np ==> cells_within(#[trigger] cps@[q]@, pieces@[q]@),
            pieces@[0]@.len() > 0,
            pieces@[0]@.no_duplicates(),
            total == lens_sum(cps@, np as int),
        ensures
            total == checkpoints,
            total == lens_sum(cps@, np as int),
            vias@.len() == 0 ==> total == checkpoints,
            np == 1 ==> cps@[0]@.len() >= total,
            checkpoints >= 2 ==> cps@[0]@.len() >= 1 && cps@[np - 1]@.len() >= 1,
            forall|q: int| 0 <= q < np ==> cells_within(#[trigger] cps@[q]@, region@),
            forall|q: int| 0 <= q < np ==> cells_within(#[trigger] cps@[q]@, pieces@[q]@),
        decreases checkpoints - total,
    {
        proof {
            lemma_within_coord_ok(pieces@[0]@, region@);
        }
        let more = pick_checkpoints_in_region(rng, &pieces[0], 1, &vias);
        if more.len() == 0 {
            proof {
                let avail = available(pieces@[0]@, vias@);
                if 0 < avail.len() <= 1 {
                    vstd::seq_lib::to_multiset_len(more@);
                    vstd::seq_lib::to_multiset_len(avail);
                }
                assert(false);
            }
            break;
        }
        let c = more[0];
        proof {
            assert(pieces@[0]@.contains(c));
            let j = choose|j: int| 0 <= j < pieces@[0]@.len() && pieces@[0]@[j] == c;
            assert(region@.contains(pieces@[0]@[j]));
        }
        let ghost c0 = cps@;
        let ghost first0 = cps@[0]@;
        cps[0].push(c);
        proof {
            assert(cps@[0]@ == first0.push(c));
            assert forall|q: int| 1 <= q < np implies (#[trigger] c0[q])@.len() == cps@[q]@.len() by {
                assert(cps@[q] == c0[q]);
            }
            lemma_lens_sum_first_grew(c0, cps@, np as int);
            assert forall|q: int| 0 <= q < np implies cells_within(#[trigger] cps@[q]@, region@) by {
                if q != 0 {
                    assert(cps@[q] == c0[q]);
                } else {
                    assert forall|i: int| 0 <= i < cps@[0]@.len() implies region@.contains(#[trigger] cps@[0]@[i]) by {
                        if i < first0.len() {
                            assert(cps@[0]@[i] == first0[i]);
                        }
                    }
                }
            }
            assert forall|q: int| 0 <= q < np implies cells_within(#[trigger] cps@[q]@, pieces@[q]@) by {
                if q != 0 {
                    assert(cps@[q] == c0[q]);
                } else {
                    assert forall|i: int| 0 <= i < cps@[0]@.len() implies pieces@[0]@.contains(#[trigger] cps@[0]@[i]) by {
                        if i < first0.len() {
                            assert(cps@[0]@[i] == first0[i]);
                        }
                    }
                }
            }
        }
        total = total + 1;
    }
    let plan = RoutePlan { pieces, piece_edges, vias, checkpoints: cps };
    proof {
        assert forall|a: int, k: int| 0 <= a < k < plan.vias@.len() implies !#[trigger] wp_covered(plan, a, plan.vias@[k]) by {
            assert(!touches_cell(pieces@[a]@, piece_edges@[a]@, vias@[k]));
        }
        assert forall|a: int, b: int, x: Cell|
            0 <= a < b < plan.pieces@.len() && #[trigger] wp_covered(plan, a, x) && #[trigger] wp_covered(plan, b, x) implies b
                == a + 1 && x == plan.vias@[a] by {
            assert(touches_cell(pieces@[a]@, piece_edges@[a]@, x));
            assert(touches_cell(pieces@[b]@, piece_edges@[b]@, x));
        }
        assert forall|k: int, t: int|
            0 <= k < plan.pieces@.len() && 0 <= t < plan.piece_edges@[k]@.len() implies piece_span(plan, k).contains(
                (#[trigger] plan.piece_edges@[k]@[t]).0,
            ) && piece_span(plan, k).contains(plan.piece_edges@[k]@[t].1) by {
            let e = plan.piece_edges@[k]@[t];
            assert(in_span(pieces@[k]@, vias@, k, e.0) && in_span(pieces@[k]@, vias@, k, e.1));
            if k < vias@.len() {
                assert(piece_span(plan, k)[pieces@[k]@.len() as int] == vias@[k]);
            }
            if pieces@[k]@.contains(e.0) {
                let i = choose|i: int| 0 <= i < pieces@[k]@.len() && pieces@[k]@[i] == e.0;
                assert(piece_span(plan, k)[i] == e.0);
            }
            if pieces@[k]@.contains(e.1) {
                let i = choose|i: int| 0 <= i < pieces@[k]@.len() && pieces@[k]@[i] == e.1;
                assert(piece_span(plan, k)[i] == e.1);
            }
        }
        assert forall|k: int, x: Cell| 0 <= k < plan.pieces@.len() && #[trigger] piece_span(plan, k).contains(x) implies wp_covered(plan, k, x) by {
            let i = choose|i: int| 0 <= i < piece_span(plan, k).len() && piece_span(plan, k)[i] == x;
            if i < pieces@[k]@.len() {
                assert(pieces@[k]@[i] == x);
            } else {
                assert(k < vias@.len() && x == vias@[k]);
                assert(pieces@[k]@.contains(vias@[k]) || exists|t: int|
                    0 <= t < piece_edges@[k]@.len() && ((#[trigger] piece_edges@[k]@[t]).0 == vias@[k]
                        || piece_edges@[k]@[t].1 == vias@[k]));
                if !pieces@[k]@.contains(vias@[k]) {
                    let t = choose|t: int|
                        0 <= t < piece_edges@[k]@.len() && ((#[trigger] piece_edges@[k]@[t]).0 == vias@[k]
                            || piece_edges@[k]@[t].1 == vias@[k]);
                    assert(plan.piece_edges@[k]@[t] == piece_edges@[k]@[t]);
                }
            }
        }
        assert forall|k: int| 0 <= k < plan.pieces@.len() implies #[trigger] piece_linked(plan, k) by {
            let wps = waypoints(plan, k);
            let e = plan.piece_edges@[k]@;
            let root = roots[k];
            let off: int = if k > 0 { 1int } else { 0int };
            let c = plan.checkpoints@[k]@;
            assert(piece_reach(pieces@, piece_edges@, vias@, k, root));
            assert(cells_within(c, plan.pieces@[k]@));
            assert forall|i: int| 0 <= i < wps.len() implies #[trigger] reachable(e, root, wps[i]) by {
                if k > 0 && i == 0 {
                    assert(wps[i] == plan.vias@[k - 1]);
                } else if i < off + c.len() {
                    assert(wps[i] == c[i - off]);
                    assert(plan.pieces@[k]@.contains(c[i - off]));
                    let idx = choose|idx: int| 0 <= idx < plan.pieces@[k]@.len() && plan.pieces@[k]@[idx] == c[i - off];
                    assert(reachable(e, root, plan.pieces@[k]@[idx]));
                } else {
                    assert(wps[i] == plan.vias@[k]);
                }
            }
            lemma_chain_from_root(e, wps, root);
        }
        assert forall|k: int, i: int|
            0 <= k < plan.pieces@.len() && 0 <= i < waypoints(plan, k).len() implies wp_covered(
            plan,
            k,
            #[trigger] waypoints(plan, k)[i],
        ) by {
            let wps = waypoints(plan, k);
            let off: int = if k > 0 { 1int } else { 0int };
            let c = plan.checkpoints@[k]@;
            assert(cells_within(c, plan.pieces@[k]@));
            if k > 0 && i == 0 {
                assert(wps[i] == plan.vias@[k - 1]);
                assert(plan.pieces@[k]@.contains(vias@[k - 1]));
            } else if i < off + c.len() {
                assert(wps[i] == c[i - off]);
                assert(plan.pieces@[k]@.contains(c[i - off]));
            } else {
                assert(wps[i] == plan.vias@[k]);
                assert(pieces@[k]@.contains(vias@[k]) || exists|t: int|
                    0 <= t < piece_edges@[k]@.len() && ((#[trigger] piece_edges@[k]@[t]).0 == vias@[k]
                        || piece_edges@[k]@[t].1 == vias@[k]));
                if !pieces@[k]@.contains(vias@[k]) {
                    let t = choose|t: int|
                        0 <= t < piece_edges@[k]@.len() && ((#[trigger] piece_edges@[k]@[t]).0 == vias@[k]
                            || piece_edges@[k]@[t].1 == vias@[k]);
                    assert(plan.piece_edges@[k]@[t] == piece_edges@[k]@[t]);
                }
            }
        }
        if checkpoints >= 2 {
            assert forall|k: int| 0 <= k < plan.pieces@.len() implies (#[trigger] waypoints(plan, k)).len() >= 2 by {
                if plan.vias@.len() == 0 {
                    assert(k == 0);
                } else if k == 0 {
                    assert(plan.checkpoints@[0]@.len() >= 1);
                } else if k == np - 1 {
                    assert(plan.checkpoints@[np - 1]@.len() >= 1);
                }
            }
        }
    }
    plan
}

} // verus!
