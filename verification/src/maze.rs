use vstd::prelude::*;
use crate::grid::{
    Cell, adjacent, all_coord_ok, bool_grid_shape, cell_lt, coord_ok, false_grid, flag,
    in_bounds, lemma_distinct_within, lemma_neighbors, membership_grid, neighbors, set_flag,
    spec_neighbors,
};
use crate::rng::{choose_cell, random_below};

verus! {

/// A maze passage, written with its smaller cell first.
pub type Edge = (Cell, Cell);

/// The passage `e` links `a` and `b`, in either direction.
pub open spec fn links(e: Edge, a: Cell, b: Cell) -> bool {
    (e.0 == a && e.1 == b) || (e.0 == b && e.1 == a)
}

/// Some passage of `edges` links `a` and `b`.
pub open spec fn joined(edges: Seq<Edge>, a: Cell, b: Cell) -> bool {
    exists|t: int| 0 <= t < edges.len() && #[trigger] links(edges[t], a, b)
}

/// `order` lists the cells of a tree grown passage by passage from `order[0]`:
/// passage `t` brings in the new cell `order[t + 1]` and links it to a cell
/// already there. Such passages are acyclic and connect every listed cell.
pub open spec fn grown_tree(edges: Seq<Edge>, order: Seq<Cell>) -> bool {
    &&& order.len() == edges.len() + 1
    &&& order.no_duplicates()
    &&& forall|t: int| 0 <= t < edges.len() ==> #[trigger] tree_step(edges, order, t)
}

/// The passages are those of a tree grown cell by cell, in some order.
pub open spec fn is_grown_tree(edges: Seq<Edge>) -> bool {
    exists|order: Seq<Cell>| grown_tree(edges, order)
}

/// Passage `t` links the cell `order[t + 1]` to one listed before it.
pub open spec fn tree_step(edges: Seq<Edge>, order: Seq<Cell>, t: int) -> bool {
    exists|u: int| 0 <= u <= t && #[trigger] links(edges[t], order[t + 1], order[u])
}

/// Every in-lattice cell of `region` that touches a listed cell is listed itself.
pub open spec fn closed_in_region(order: Seq<Cell>, region: Seq<Cell>, h: int, w: int) -> bool {
    forall|c: Cell, n: Cell|
        #![trigger order.contains(c), region.contains(n)]
        order.contains(c) && region.contains(n) && in_bounds(n, h, w) && adjacent(c, n)
            ==> order.contains(n)
}

/// Each passage joins two 4-adjacent cells of `region`, smaller cell first,
/// and no passage is listed twice.
pub open spec fn passages_in(edges: Seq<Edge>, region: Seq<Cell>) -> bool {
    &&& edges.no_duplicates()
    &&& forall|t: int|
        0 <= t < edges.len() ==> {
            &&& adjacent((#[trigger] edges[t]).0, edges[t].1)
            &&& cell_lt(edges[t].0, edges[t].1)
            &&& region.contains(edges[t].0)
            &&& region.contains(edges[t].1)
        }
}

/// `par[k]` is the position of the cell that passage `k - 1` joins `order[k]` to.
pub open spec fn tree_parents(edges: Seq<Edge>, order: Seq<Cell>, par: Seq<int>) -> bool {
    &&& par.len() == order.len()
    &&& forall|k: int|
        1 <= k < order.len() ==> 0 <= #[trigger] par[k] < k && links(edges[k - 1], order[k], order[par[k]])
}

/// Position `a` lies on the way from position `b` back to the root, following `par`.
pub open spec fn tree_ancestor(par: Seq<int>, a: int, b: int) -> bool
    decreases b,
{
    if a == b {
        true
    } else if 0 < b < par.len() && 0 <= par[b] < b {
        tree_ancestor(par, a, par[b])
    } else {
        false
    }
}

/// The tree is a depth-first one: any two adjacent cells of it lie on one
/// branch, one an ancestor of the other, so no adjacency crosses between branches.
pub open spec fn depth_first(order: Seq<Cell>, par: Seq<int>) -> bool {
    forall|a: int, b: int|
        0 <= a < order.len() && 0 <= b < order.len() && #[trigger] adjacent(order[a], order[b]) ==> tree_ancestor(
            par,
            a,
            b,
        ) || tree_ancestor(par, b, a)
}

/// The state of the depth-first search: the stack is a branch of the tree
/// (positions `sidx`, increasing), every cell found while a stacked cell was
/// on the stack descends from it, and a cell that has left the stack lies on
/// one branch with each adjacent tree cell.
#[verifier::opaque]
spec fn dfs_state(edges: Seq<Edge>, order: Seq<Cell>, par: Seq<int>, stack: Seq<Cell>, sidx: Seq<int>) -> bool {
    &&& tree_parents(edges, order, par)
    &&& sidx.len() == stack.len()
    &&& forall|i: int| 0 <= i < stack.len() ==> 0 <= #[trigger] sidx[i] < order.len() && stack[i] == order[sidx[i]]
    &&& forall|i: int, j: int| 0 <= i < j < stack.len() ==> #[trigger] sidx[i] < #[trigger] sidx[j]
    &&& forall|i: int, k: int|
        0 <= i < stack.len() && sidx[i] <= k < order.len() ==> #[trigger] tree_ancestor(par, sidx[i], k)
    &&& forall|a: int, b: int|
        0 <= a < order.len() && 0 <= b < order.len() && !stack.contains(order[a]) && #[trigger] adjacent(
            order[a],
            order[b],
        ) ==> tree_ancestor(par, a, b) || tree_ancestor(par, b, a)
}

/// Appending to the parent list leaves ancestry among earlier positions alone.
proof fn lemma_ancestor_push(par: Seq<int>, x: int, a: int, b: int)
    requires
        0 <= b < par.len(),
    ensures
        tree_ancestor(par.push(x), a, b) == tree_ancestor(par, a, b),
    decreases b,
{
    assert(par.push(x)[b] == par[b]);
    if a != b && 0 < b && 0 <= par[b] < b {
        lemma_ancestor_push(par, x, a, par[b]);
    }
}

/// The search starts with its first cell alone on the stack.
proof fn lemma_dfs_start(start: Cell)
    ensures
        dfs_state(Seq::empty(), seq![start], seq![0int], seq![start], seq![0int]),
{
    reveal(dfs_state);
    let order = seq![start];
    assert forall|a: int, b: int|
        0 <= a < order.len() && 0 <= b < order.len() && !seq![start].contains(order[a]) && #[trigger] adjacent(
            order[a],
            order[b],
        ) implies tree_ancestor(seq![0int], a, b) || tree_ancestor(seq![0int], b, a) by {
        assert(seq![start][0] == order[a]);
    }
}

/// Stepping from the top of the stack to a new cell next to it, through the
/// passage `edge`.
proof fn lemma_dfs_push(
    edges: Seq<Edge>,
    order: Seq<Cell>,
    par: Seq<int>,
    stack: Seq<Cell>,
    sidx: Seq<int>,
    next: Cell,
    edge: Edge,
    region: Seq<Cell>,
    h: int,
    w: int,
)
    requires
        dfs_state(edges, order, par, stack, sidx),
        stack.len() > 0,
        order.len() == edges.len() + 1,
        links(edge, next, stack[stack.len() - 1]),
        !order.contains(next),
        region.contains(next),
        in_bounds(next, h, w),
        forall|c: Cell, n: Cell|
            #![trigger order.contains(c), region.contains(n)]
            order.contains(c) && !stack.contains(c) && region.contains(n) && in_bounds(n, h, w) && adjacent(c, n)
                ==> order.contains(n),
    ensures
        dfs_state(
            edges.push(edge),
            order.push(next),
            par.push(sidx[sidx.len() - 1]),
            stack.push(next),
            sidx.push(order.len() as int),
        ),
{
    reveal(dfs_state);
    let len = order.len() as int;
    let ta = sidx[sidx.len() - 1];
    let e1 = edges.push(edge);
    let o1 = order.push(next);
    let p1 = par.push(ta);
    let s1 = stack.push(next);
    let x1 = sidx.push(len);
    let last = stack.len() - 1;
    assert(stack[last] == order[ta]);
    assert forall|k: int| 1 <= k < o1.len() implies 0 <= #[trigger] p1[k] < k && links(e1[k - 1], o1[k], o1[p1[k]]) by {
        if k < len {
            assert(p1[k] == par[k] && e1[k - 1] == edges[k - 1] && o1[k] == order[k]);
            assert(0 <= par[k] < k && links(edges[k - 1], order[k], order[par[k]]));
            assert(o1[p1[k]] == order[par[k]]);
        } else {
            assert(o1[p1[k]] == order[ta]);
        }
    }
    assert(tree_parents(e1, o1, p1));
    assert forall|i: int| 0 <= i < s1.len() implies 0 <= #[trigger] x1[i] < o1.len() && s1[i] == o1[x1[i]] by {
        if i < stack.len() {
            assert(x1[i] == sidx[i] && s1[i] == stack[i]);
            assert(0 <= sidx[i] < order.len() && stack[i] == order[sidx[i]]);
        }
    }
    assert forall|i: int, j: int| 0 <= i < j < s1.len() implies #[trigger] x1[i] < #[trigger] x1[j] by {
        assert(x1[i] == sidx[i]);
        assert(0 <= sidx[i] < order.len());
        if j < stack.len() {
            assert(x1[j] == sidx[j]);
            assert(sidx[i] < sidx[j]);
        }
    }
    assert forall|i: int, k: int| 0 <= i < s1.len() && x1[i] <= k < o1.len() implies #[trigger] tree_ancestor(
        p1,
        x1[i],
        k,
    ) by {
        if i < stack.len() {
            assert(x1[i] == sidx[i]);
            if k < len {
                assert(tree_ancestor(par, sidx[i], k));
                lemma_ancestor_push(par, ta, sidx[i], k);
            } else {
                assert(0 <= sidx[i] < order.len());
                if i < last {
                    assert(sidx[i] < sidx[last]);
                }
                assert(tree_ancestor(par, sidx[i], ta));
                lemma_ancestor_push(par, ta, sidx[i], ta);
                assert(p1[k] == ta);
            }
        }
    }
    assert forall|a: int, b: int|
        0 <= a < o1.len() && 0 <= b < o1.len() && !s1.contains(o1[a]) && #[trigger] adjacent(o1[a], o1[b])
            implies tree_ancestor(p1, a, b) || tree_ancestor(p1, b, a) by {
        if a == len {
            assert(s1[s1.len() - 1] == next);
        } else {
            assert(o1[a] == order[a]);
            assert(!stack.contains(order[a])) by {
                if stack.contains(order[a]) {
                    let q = choose|q: int| 0 <= q < stack.len() && stack[q] == order[a];
                    assert(s1[q] == order[a]);
                }
            }
            if b == len {
                assert(order.contains(order[a]));
                assert(o1[b] == next);
                assert(order.contains(next));
            } else {
                assert(o1[b] == order[b]);
                assert(adjacent(order[a], order[b]));
                lemma_ancestor_push(par, ta, a, b);
                lemma_ancestor_push(par, ta, b, a);
            }
        }
    }
}

/// Taking the top cell off the stack.
proof fn lemma_dfs_pop(edges: Seq<Edge>, order: Seq<Cell>, par: Seq<int>, stack: Seq<Cell>, sidx: Seq<int>)
    requires
        dfs_state(edges, order, par, stack, sidx),
        stack.len() > 0,
        stack.no_duplicates(),
        order.no_duplicates(),
    ensures
        dfs_state(edges, order, par, stack.drop_last(), sidx.drop_last()),
{
    reveal(dfs_state);
    let last = stack.len() - 1;
    let s1 = stack.drop_last();
    let x1 = sidx.drop_last();
    let ta = sidx[last];
    assert(0 <= ta < order.len() && stack[last] == order[ta]);
    assert forall|i: int| 0 <= i < s1.len() implies 0 <= #[trigger] x1[i] < order.len() && s1[i] == order[x1[i]] by {
        assert(x1[i] == sidx[i] && s1[i] == stack[i]);
        assert(0 <= sidx[i] < order.len() && stack[i] == order[sidx[i]]);
    }
    assert forall|i: int, j: int| 0 <= i < j < s1.len() implies #[trigger] x1[i] < #[trigger] x1[j] by {
        assert(x1[i] == sidx[i] && x1[j] == sidx[j]);
        assert(sidx[i] < sidx[j]);
    }
    assert forall|i: int, k: int| 0 <= i < s1.len() && x1[i] <= k < order.len() implies #[trigger] tree_ancestor(
        par,
        x1[i],
        k,
    ) by {
        assert(x1[i] == sidx[i]);
        assert(tree_ancestor(par, sidx[i], k));
    }
    assert forall|a: int, b: int|
        0 <= a < order.len() && 0 <= b < order.len() && !s1.contains(order[a]) && #[trigger] adjacent(
            order[a],
            order[b],
        ) implies tree_ancestor(par, a, b) || tree_ancestor(par, b, a) by {
        if a == ta {
            if b >= ta {
                assert(tree_ancestor(par, sidx[last], b));
            } else if s1.contains(order[b]) {
                let i = choose|i: int| 0 <= i < s1.len() && s1[i] == order[b];
                assert(stack[i] == order[sidx[i]]);
                assert(0 <= sidx[i] < order.len());
                assert(sidx[i] == b);
                assert(sidx[i] < sidx[last]);
                assert(tree_ancestor(par, sidx[i], ta));
            } else {
                assert(!stack.contains(order[b])) by {
                    if stack.contains(order[b]) {
                        let q = choose|q: int| 0 <= q < stack.len() && stack[q] == order[b];
                        if q == last {
                            assert(order[b] == order[ta]);
                        } else {
                            assert(s1[q] == order[b]);
                        }
                    }
                }
                assert(adjacent(order[b], order[a]));
            }
        } else {
            assert(!stack.contains(order[a])) by {
                if stack.contains(order[a]) {
                    let q = choose|q: int| 0 <= q < stack.len() && stack[q] == order[a];
                    if q == last {
                        assert(order[a] == order[ta]);
                    } else {
                        assert(s1[q] == order[a]);
                    }
                }
            }
        }
    }
}

/// With the stack empty, every pair of adjacent tree cells lies on one branch.
proof fn lemma_dfs_done(edges: Seq<Edge>, order: Seq<Cell>, par: Seq<int>, sidx: Seq<int>)
    requires
        dfs_state(edges, order, par, Seq::empty(), sidx),
    ensures
        tree_parents(edges, order, par),
        depth_first(order, par),
{
    reveal(dfs_state);
}

/// Carves a perfect maze over `region` by randomised depth-first search from a
/// random cell of the region: the passages form a tree grown from that cell
/// that reaches every region cell connected to it, and, the search being
/// depth-first, any two adjacent cells of the tree lie on one branch of it.
pub fn generate_maze_dfs(
    rng: &mut rand::rngs::StdRng,
    region: &Vec<Cell>,
    maze_w: usize,
    maze_h: usize,
) -> (edges: Vec<Edge>)
    requires
        all_coord_ok(region@),
    ensures
        region@.len() == 0 ==> edges@.len() == 0,
        passages_in(edges@, region@),
        region@.len() > 0 ==> exists|order: Seq<Cell>, par: Seq<int>|
            {
                &&& #[trigger] tree_parents(edges@, order, par)
                &&& grown_tree(edges@, order)
                &&& region@.contains(order[0])
                &&& closed_in_region(order, region@, maze_h as int, maze_w as int)
                &&& depth_first(order, par)
            },
{
    let mut edges: Vec<Edge> = Vec::new();
    if region.len() == 0 {
        return edges;
    }
    let ghost h = maze_h as int;
    let ghost w = maze_w as int;
    let hh: usize = if maze_h == 0 { 1 } else { maze_h };
    let in_region = membership_grid(region, hh, maze_w);
    let mut visited = false_grid(hh, maze_w);
    let start = choose_cell(rng, region);
    if start.0 < maze_h && start.1 < maze_w {
        set_flag(&mut visited, start, true);
    }
    let mut stack: Vec<Cell> = Vec::new();
    stack.push(start);
    let ghost mut order: Seq<Cell> = seq![start];
    let ghost mut par: Seq<int> = seq![0int];
    let ghost mut sidx: Seq<int> = seq![0int];
    proof {
        assert(edges@ =~= Seq::<Edge>::empty());
        assert(stack@ =~= seq![start]);
        lemma_dfs_start(start);
        assert forall|c: Cell| in_bounds(c, h, w) implies #[trigger] flag(visited@, c) == order.contains(c) by {
            if c == start {
                assert(order[0] == c);
            }
        }
    }
    while stack.len() > 0
        invariant
            h == maze_h,
            w == maze_w,
            hh >= maze_h,
            hh > 0,
            all_coord_ok(region@),
            region@.contains(start),
            bool_grid_shape(in_region@, hh as int, w),
            bool_grid_shape(visited@, hh as int, w),
            forall|c: Cell| in_bounds(c, hh as int, w) ==> #[trigger] flag(in_region@, c) == region@.contains(c),
            forall|c: Cell| in_bounds(c, h, w) ==> #[trigger] flag(visited@, c) == order.contains(c),
            order.len() >= 1,
            order[0] == start,
            forall|i: int| 0 <= i < order.len() ==> region@.contains(#[trigger] order[i]),
            forall|i: int| 1 <= i < order.len() ==> in_bounds(#[trigger] order[i], h, w),
            grown_tree(edges@, order),
            passages_in(edges@, region@),
            stack@.no_duplicates(),
            forall|i: int| 0 <= i < stack@.len() ==> order.contains(#[trigger] stack@[i]),
            forall|c: Cell, n: Cell|
                #![trigger order.contains(c), region@.contains(n)]
                order.contains(c) && !stack@.contains(c) && region@.contains(n) && in_bounds(n, h, w)
                    && adjacent(c, n) ==> order.contains(n),
            dfs_state(edges@, order, par, stack@, sidx),
        decreases 2 * region@.len() - 2 * order.len() + stack@.len(),
    {
        proof {
            lemma_distinct_within(order, region@);
            lemma_distinct_within(stack@, order);
        }
        let top = stack[stack.len() - 1];
        assert(coord_ok(top)) by {
            let i = choose|i: int| 0 <= i < order.len() && order[i] == top;
            assert(region@.contains(top));
            let k = choose|k: int| 0 <= k < region@.len() && region@[k] == top;
            assert(coord_ok(region@[k]));
        }
        let ns = neighbors(top, maze_h, maze_w);
        proof {
            lemma_neighbors(top, h, w);
        }
        let mut cand: Vec<Cell> = Vec::new();
        let mut j: usize = 0;
        while j < ns.len()
            invariant
                j <= ns@.len(),
                ns@ == spec_neighbors(top, h, w),
                h == maze_h,
                w == maze_w,
                hh >= maze_h,
                forall|t: int| 0 <= t < ns@.len() ==> in_bounds(#[trigger] ns@[t], h, w) && adjacent(top, ns@[t]),
                bool_grid_shape(in_region@, hh as int, w),
                bool_grid_shape(visited@, hh as int, w),
                forall|c: Cell| in_bounds(c, hh as int, w) ==> #[trigger] flag(in_region@, c) == region@.contains(c),
                forall|c: Cell| in_bounds(c, h, w) ==> #[trigger] flag(visited@, c) == order.contains(c),
                forall|t: int|
                    0 <= t < cand@.len() ==> in_bounds(#[trigger] cand@[t], h, w) && adjacent(top, cand@[t])
                        && region@.contains(cand@[t]) && !order.contains(cand@[t]),
                forall|t: int|
                    0 <= t < j && region@.contains(#[trigger] ns@[t]) && !order.contains(ns@[t]) ==> cand@.contains(ns@[t]),
            decreases ns@.len() - j,
        {
            let n = ns[j];
            let ghost c0 = cand@;
            let take = in_region[n.0][n.1] && !visited[n.0][n.1];
            proof {
                assert(in_bounds(n, h, w));
                assert(in_bounds(n, hh as int, w));
                assert(flag(in_region@, n) == region@.contains(n));
                assert(flag(visited@, n) == order.contains(n));
                assert(take == (region@.contains(n) && !order.contains(n)));
            }
            if take {
                cand.push(n);
            }
            assert forall|t: int|
                0 <= t < j + 1 && region@.contains(#[trigger] ns@[t]) && !order.contains(ns@[t]) implies cand@.contains(ns@[t]) by {
                if t == j {
                    assert(flag(in_region@, n) == region@.contains(n));
                    assert(cand@[cand@.len() - 1] == n);
                } else {
                    assert(c0.contains(ns@[t]));
                    let q = choose|q: int| 0 <= q < c0.len() && c0[q] == ns@[t];
                    assert(cand@[q] == ns@[t]);
                }
            }
            j = j + 1;
        }
        if cand.len() == 0 {
            let ghost s0 = stack@;
            stack.pop();
            proof {
                assert(s0 == stack@.push(top));
                lemma_dfs_pop(edges@, order, par, s0, sidx);
                assert(stack@ =~= s0.drop_last());
                sidx = sidx.drop_last();
                assert forall|c: Cell, n: Cell|
                    #![trigger order.contains(c), region@.contains(n)]
                    order.contains(c) && !stack@.contains(c) && region@.contains(n) && in_bounds(n, h, w)
                        && adjacent(c, n) implies order.contains(n) by {
                    if c == top {
                        assert(ns@.contains(n));
                        let t = choose|t: int| 0 <= t < ns@.len() && ns@[t] == n;
                        if !order.contains(n) {
                            assert(cand@.contains(ns@[t]));
                        }
                    } else {
                        if s0.contains(c) {
                            let q = choose|q: int| 0 <= q < s0.len() && s0[q] == c;
                            assert(stack@[q] == c);
                        }
                    }
                }
                assert forall|i: int| 0 <= i < stack@.len() implies order.contains(#[trigger] stack@[i]) by {
                    assert(stack@[i] == s0[i]);
                }
            }
        } else {
            let next = cand[random_below(rng, cand.len())];
            let ghost v0 = visited@;
            set_flag(&mut visited, next, true);
            let edge: Edge = if top.0 < next.0 || (top.0 == next.0 && top.1 < next.1) {
                (top, next)
            } else {
                (next, top)
            };
            let ghost e0 = edges@;
            let ghost o0 = order;
            let ghost s0 = stack@;
            proof {
                assert(links(edge, next, s0[s0.len() - 1]));
                lemma_dfs_push(e0, o0, par, s0, sidx, next, edge, region@, h, w);
            }
            edges.push(edge);
            stack.push(next);
            proof {
                par = par.push(sidx[sidx.len() - 1]);
                sidx = sidx.push(o0.len() as int);
                order = order.push(next);
                assert(!o0.contains(next));
                assert forall|c: Cell| in_bounds(c, h, w) implies #[trigger] flag(visited@, c) == order.contains(c) by {
                    if c == next {
                        assert(order[order.len() - 1] == next);
                    } else {
                        assert(v0[c.0 as int]@.len() == w);
                        assert(flag(visited@, c) == flag(v0, c));
                        assert(flag(v0, c) == o0.contains(c));
                        if order.contains(c) {
                            let q = choose|q: int| 0 <= q < order.len() && order[q] == c;
                            assert(q < o0.len());
                            assert(o0[q] == c);
                            assert(o0.contains(c));
                        }
                        if o0.contains(c) {
                            let q = choose|q: int| 0 <= q < o0.len() && o0[q] == c;
                            assert(order[q] == c);
                            assert(order.contains(c));
                        }
                    }
                }
                let ti = choose|ti: int| 0 <= ti < o0.len() && o0[ti] == top;
                assert(grown_tree(edges@, order)) by {
                    assert forall|t: int| 0 <= t < edges@.len() implies #[trigger] tree_step(edges@, order, t) by {
                        if t == e0.len() {
                            assert(links(edges@[t], order[t + 1], order[ti]));
                        } else {
                            assert(edges@[t] == e0[t]);
                            assert(tree_step(e0, o0, t));
                            let u = choose|u: int| 0 <= u <= t && #[trigger] links(e0[t], o0[t + 1], o0[u]);
                            assert(order[u] == o0[u] && order[t + 1] == o0[t + 1]);
                        }
                    }
                    assert forall|a: int, b: int| 0 <= a < b < order.len() implies order[a] != order[b] by {
                        if b == order.len() - 1 {
                            assert(o0.contains(order[a]));
                        } else {
                            assert(order[a] == o0[a] && order[b] == o0[b]);
                        }
                    }
                }
                assert(region@.contains(top));
                assert(passages_in(edges@, region@)) by {
                    assert forall|t: int| 0 <= t < edges@.len() implies {
                        &&& adjacent((#[trigger] edges@[t]).0, edges@[t].1)
                        &&& cell_lt(edges@[t].0, edges@[t].1)
                        &&& region@.contains(edges@[t].0)
                        &&& region@.contains(edges@[t].1)
                    } by {
                        if t < e0.len() {
                            assert(edges@[t] == e0[t]);
                        }
                    }
                    assert forall|a: int, b: int| 0 <= a < b < edges@.len() implies edges@[a] != edges@[b] by {
                        if b == e0.len() {
                            assert(edges@[a] == e0[a]);
                            // every older passage has both cells in the tree already
                            assert(tree_step(e0, o0, a));
                            let u = choose|u: int| 0 <= u <= a && #[trigger] links(e0[a], o0[a + 1], o0[u]);
                            assert(o0.contains(o0[a + 1]));
                            assert(o0.contains(o0[u]));
                        } else {
                            assert(edges@[a] == e0[a] && edges@[b] == e0[b]);
                        }
                    }
                }
                assert forall|i: int| 0 <= i < order.len() implies region@.contains(#[trigger] order[i]) by {
                    if i < o0.len() {
                        assert(order[i] == o0[i]);
                    }
                }
                assert forall|i: int| 1 <= i < order.len() implies in_bounds(#[trigger] order[i], h, w) by {
                    if i < o0.len() {
                        assert(order[i] == o0[i]);
                    }
                }
                assert(stack@ == s0.push(next));
                assert forall|i: int| 0 <= i < stack@.len() implies order.contains(#[trigger] stack@[i]) by {
                    if i < s0.len() {
                        assert(o0.contains(s0[i]));
                        let q = choose|q: int| 0 <= q < o0.len() && o0[q] == s0[i];
                        assert(order[q] == s0[i]);
                    } else {
                        assert(order[order.len() - 1] == next);
                    }
                }
                assert(stack@.no_duplicates()) by {
                    assert forall|a: int, b: int| 0 <= a < b < stack@.len() implies stack@[a] != stack@[b] by {
                        if b == s0.len() {
                            assert(o0.contains(s0[a]));
                        } else {
                            assert(stack@[a] == s0[a] && stack@[b] == s0[b]);
                        }
                    }
                }
                assert forall|c: Cell, n: Cell|
                    #![trigger order.contains(c), region@.contains(n)]
                    order.contains(c) && !stack@.contains(c) && region@.contains(n) && in_bounds(n, h, w)
                        && adjacent(c, n) implies order.contains(n) by {
                    if c != next {
                        let q = choose|q: int| 0 <= q < order.len() && order[q] == c;
                        assert(o0[q] == c);
                        assert(o0.contains(c));
                        if s0.contains(c) {
                            let q2 = choose|q2: int| 0 <= q2 < s0.len() && s0[q2] == c;
                            assert(stack@[q2] == c);
                        }
                        assert(o0.contains(n));
                        let q3 = choose|q3: int| 0 <= q3 < o0.len() && o0[q3] == n;
                        assert(order[q3] == n);
                    } else {
                        assert(stack@[stack@.len() - 1] == next);
                    }
                }
            }
        }
    }
    proof {
        assert(closed_in_region(order, region@, h, w));
        assert(stack@ =~= Seq::<Cell>::empty());
        lemma_dfs_done(edges@, order, par, sidx);
        assert(region@.contains(order[0]));
    }
    edges
}

} // verus!

verus! {

/// `p` walks from `a` to `b`, each step along a passage of `edges`.
pub open spec fn walk(edges: Seq<Edge>, p: Seq<Cell>, a: Cell, b: Cell) -> bool {
    &&& p.len() >= 1
    &&& p[0] == a
    &&& p[p.len() - 1] == b
    &&& forall|i: int| 0 <= i < p.len() - 1 ==> #[trigger] joined(edges, p[i], p[i + 1])
}

/// Every passage has both of its cells in `s` or neither: no walk leaves `s`.
pub open spec fn closed_under_passages(s: Seq<Cell>, edges: Seq<Edge>) -> bool {
    forall|t: int| 0 <= t < edges.len() ==> (s.contains((#[trigger] edges[t]).0) <==> s.contains(edges[t].1))
}

/// No walk along `edges` leads from `a` to `b`: some set holds `a`, leaves out
/// `b`, and is closed under the passages.
pub open spec fn separated(edges: Seq<Edge>, a: Cell, b: Cell) -> bool {
    exists|s: Seq<Cell>| #[trigger] s.contains(a) && !s.contains(b) && closed_under_passages(s, edges)
}

/// A walk along passages never crosses a set that is closed under them.
pub proof fn lemma_separated_no_walk(edges: Seq<Edge>, p: Seq<Cell>, a: Cell, b: Cell, s: Seq<Cell>)
    requires
        walk(edges, p, a, b),
        s.contains(a),
        closed_under_passages(s, edges),
    ensures
        s.contains(b),
{
    lemma_walk_stays(edges, p, a, b, s, p.len() - 1);
}

proof fn lemma_walk_stays(edges: Seq<Edge>, p: Seq<Cell>, a: Cell, b: Cell, s: Seq<Cell>, i: int)
    requires
        walk(edges, p, a, b),
        s.contains(a),
        closed_under_passages(s, edges),
        0 <= i < p.len(),
    ensures
        s.contains(p[i]),
    decreases i,
{
    if i > 0 {
        lemma_walk_stays(edges, p, a, b, s, i - 1);
        let j = i - 1;
        assert(joined(edges, p[j], p[j + 1]));
        assert(p[j + 1] == p[i]);
        let t = choose|t: int| 0 <= t < edges.len() && #[trigger] links(edges[t], p[j], p[j + 1]);
        assert(s.contains(edges[t].0) <==> s.contains(edges[t].1));
    }
}

/// `b` can be reached from `a` by a walk along `edges`.
pub open spec fn reachable(edges: Seq<Edge>, a: Cell, b: Cell) -> bool {
    exists|p: Seq<Cell>| #[trigger] walk(edges, p, a, b)
}

/// A passage links its cells in both directions.
pub proof fn lemma_joined_symmetric(edges: Seq<Edge>, a: Cell, b: Cell)
    requires
        joined(edges, a, b),
    ensures
        joined(edges, b, a),
{
    let t = choose|t: int| 0 <= t < edges.len() && #[trigger] links(edges[t], a, b);
    assert(links(edges[t], b, a));
}

/// Every cell reaches itself.
pub proof fn lemma_reachable_refl(edges: Seq<Edge>, a: Cell)
    ensures
        reachable(edges, a, a),
{
    assert(walk(edges, seq![a], a, a));
}

/// A walk extended by one passage.
pub proof fn lemma_reachable_step(edges: Seq<Edge>, a: Cell, b: Cell, c: Cell)
    requires
        reachable(edges, a, b),
        joined(edges, b, c),
    ensures
        reachable(edges, a, c),
{
    let p = choose|p: Seq<Cell>| #[trigger] walk(edges, p, a, b);
    let q = p.push(c);
    assert forall|i: int| 0 <= i < q.len() - 1 implies #[trigger] joined(edges, q[i], q[i + 1]) by {
        if i < p.len() - 1 {
            assert(q[i] == p[i] && q[i + 1] == p[i + 1]);
            assert(joined(edges, p[i], p[i + 1]));
        }
    }
    assert(walk(edges, q, a, c));
}

/// Walks can be turned around.
pub proof fn lemma_reachable_symmetric(edges: Seq<Edge>, a: Cell, b: Cell)
    requires
        reachable(edges, a, b),
    ensures
        reachable(edges, b, a),
{
    let p = choose|p: Seq<Cell>| #[trigger] walk(edges, p, a, b);
    let q = p.reverse();
    let n = p.len();
    assert forall|i: int| 0 <= i < q.len() - 1 implies #[trigger] joined(edges, q[i], q[i + 1]) by {
        let j = n - 2 - i;
        assert(q[i] == p[j + 1] && q[i + 1] == p[j]);
        assert(joined(edges, p[j], p[j + 1]));
        lemma_joined_symmetric(edges, p[j], p[j + 1]);
    }
    assert(walk(edges, q, b, a));
}

/// Walks can be joined end to end.
pub proof fn lemma_reachable_trans(edges: Seq<Edge>, a: Cell, b: Cell, c: Cell)
    requires
        reachable(edges, a, b),
        reachable(edges, b, c),
    ensures
        reachable(edges, a, c),
{
    let p = choose|p: Seq<Cell>| #[trigger] walk(edges, p, a, b);
    let q = choose|q: Seq<Cell>| #[trigger] walk(edges, q, b, c);
    let r = p + q.drop_first();
    let n = p.len();
    assert forall|i: int| 0 <= i < r.len() - 1 implies #[trigger] joined(edges, r[i], r[i + 1]) by {
        if i < n - 1 {
            assert(r[i] == p[i] && r[i + 1] == p[i + 1]);
            assert(joined(edges, p[i], p[i + 1]));
        } else {
            let j = i - (n - 1);
            assert(r[i] == q[j]);
            assert(r[i + 1] == q[j + 1]);
            assert(joined(edges, q[j], q[j + 1]));
        }
    }
    if q.len() == 1 {
        assert(r =~= p);
    } else {
        assert(r[r.len() - 1] == q[q.len() - 1]);
    }
    assert(walk(edges, r, a, c));
}

/// Every cell of a search tree is reached from its root.
pub proof fn lemma_search_tree_reachable(edges: Seq<Edge>, order: Seq<Cell>, parent: Seq<usize>, i: int)
    requires
        search_tree(edges, order, parent),
        0 <= i < order.len(),
    ensures
        reachable(edges, order[0], order[i]),
    decreases i,
{
    if i == 0 {
        lemma_reachable_refl(edges, order[0]);
    } else {
        let j = parent[i] as int;
        lemma_search_tree_reachable(edges, order, parent, j);
        lemma_joined_symmetric(edges, order[i], order[j]);
        lemma_reachable_step(edges, order[0], order[j], order[i]);
    }
}

/// A cell reached from another is that cell or a cell of some passage.
pub proof fn lemma_reachable_end(edges: Seq<Edge>, a: Cell, b: Cell)
    requires
        reachable(edges, a, b),
    ensures
        b == a || exists|t: int| 0 <= t < edges.len() && ((#[trigger] edges[t]).0 == b || edges[t].1 == b),
{
    let p = choose|p: Seq<Cell>| #[trigger] walk(edges, p, a, b);
    if p.len() > 1 {
        let j = p.len() - 2;
        assert(joined(edges, p[j], p[j + 1]));
        let t = choose|t: int| 0 <= t < edges.len() && #[trigger] links(edges[t], p[j], p[j + 1]);
        assert(edges[t].0 == b || edges[t].1 == b);
    }
}

/// Every cell of a grown tree is reached from its first cell.
pub proof fn lemma_grown_tree_reachable(edges: Seq<Edge>, order: Seq<Cell>, t: int)
    requires
        grown_tree(edges, order),
        0 <= t < order.len(),
    ensures
        reachable(edges, order[0], order[t]),
    decreases t,
{
    if t == 0 {
        lemma_reachable_refl(edges, order[0]);
    } else {
        assert(tree_step(edges, order, t - 1));
        let u = choose|u: int| 0 <= u <= t - 1 && #[trigger] links(edges[t - 1], order[t], order[u]);
        lemma_grown_tree_reachable(edges, order, u);
        assert(links(edges[t - 1], order[u], order[t]));
        assert(joined(edges, order[u], order[t]));
        lemma_reachable_step(edges, order[0], order[u], order[t]);
    }
}

/// Every walk can be shortened to one between the same cells that visits no
/// cell twice, using only steps of the first.
pub proof fn lemma_simple_walk(edges: Seq<Edge>, p: Seq<Cell>, a: Cell, b: Cell) -> (q: Seq<Cell>)
    requires
        walk(edges, p, a, b),
    ensures
        walk(edges, q, a, b),
        q.no_duplicates(),
    decreases p.len(),
{
    if p.no_duplicates() {
        p
    } else {
        let (i0, j0) = choose|i: int, j: int| 0 <= i < p.len() && 0 <= j < p.len() && i != j && p[i] == p[j];
        let i = if i0 < j0 { i0 } else { j0 };
        let j = if i0 < j0 { j0 } else { i0 };
        let r = p.subrange(0, i + 1) + p.subrange(j + 1, p.len() as int);
        assert(r.len() == p.len() - (j - i));
        assert forall|x: int| 0 <= x < r.len() - 1 implies #[trigger] joined(edges, r[x], r[x + 1]) by {
            if x < i {
                assert(r[x] == p[x] && r[x + 1] == p[x + 1]);
            } else if x == i {
                assert(r[x] == p[j] && r[x + 1] == p[j + 1]);
                assert(joined(edges, p[j], p[j + 1]));
            } else {
                let y = x + (j - i);
                assert(r[x] == p[y] && r[x + 1] == p[y + 1]);
                assert(joined(edges, p[y], p[y + 1]));
            }
        }
        assert(r[0] == a);
        if j + 1 < p.len() {
            assert(r[r.len() - 1] == p[p.len() - 1]);
        } else {
            assert(r[r.len() - 1] == p[i]);
        }
        lemma_simple_walk(edges, r, a, b)
    }
}

/// A walk that starts in a set closed under the passages stays in it.
pub proof fn lemma_walk_in_closed(edges: Seq<Edge>, p: Seq<Cell>, a: Cell, b: Cell, s: Seq<Cell>)
    requires
        walk(edges, p, a, b),
        s.contains(a),
        closed_under_passages(s, edges),
    ensures
        forall|i: int| 0 <= i < p.len() ==> s.contains(#[trigger] p[i]),
{
    assert forall|i: int| 0 <= i < p.len() implies s.contains(#[trigger] p[i]) by {
        lemma_walk_stays(edges, p, a, b, s, i);
    }
}

spec fn passage_cells(start: Cell, edges: Seq<Edge>) -> Seq<Cell> {
    Seq::new(
        (2 * edges.len() + 1) as nat,
        |i: int|
            if i == 0 {
                start
            } else if i % 2 == 1 {
                edges[(i - 1) / 2].0
            } else {
                edges[(i - 2) / 2].1
            },
    )
}

/// `order` with `parent` is a breadth-first search tree rooted at `order[0]`:
/// each later cell is reached along a passage from an earlier cell.
pub open spec fn search_tree(edges: Seq<Edge>, order: Seq<Cell>, parent: Seq<usize>) -> bool {
    &&& order.len() == parent.len()
    &&& order.len() >= 1
    &&& order.no_duplicates()
    &&& forall|k: int|
        1 <= k < order.len() ==> #[trigger] parent[k] < k && joined(edges, order[k], order[parent[k] as int])
}

/// How many parent steps lead from position `k` of a search tree back to its root.
pub open spec fn tree_depth(parent: Seq<usize>, k: int) -> int
    decreases k,
{
    if 0 < k < parent.len() && parent[k] < k {
        tree_depth(parent, parent[k] as int) + 1
    } else {
        0
    }
}

/// Breadth-first layering: two cells linked by a passage lie at most one layer apart.
pub open spec fn bfs_layered(edges: Seq<Edge>, order: Seq<Cell>, parent: Seq<usize>) -> bool {
    forall|q: int, t: int, j: int|
        0 <= q < order.len() && 0 <= t < edges.len() && 0 <= j < order.len() && #[trigger] links(
            edges[t],
            order[q],
            order[j],
        ) ==> tree_depth(parent, j) <= tree_depth(parent, q) + 1
}

/// Appending to the parent list leaves the depth of earlier positions alone.
proof fn lemma_depth_push(parent: Seq<usize>, x: usize, k: int)
    requires
        0 <= k < parent.len(),
    ensures
        tree_depth(parent.push(x), k) == tree_depth(parent, k),
    decreases k,
{
    assert(parent.push(x)[k] == parent[k]);
    if 0 < k && parent[k] < k {
        lemma_depth_push(parent, x, parent[k] as int);
    }
}

/// Breadth-first search along `edges` from `start`, neighbours taken in the
/// order of the passage list. Returns the cells in the order they are reached
/// and, for each, the position of the cell it was reached from. The cells
/// reached are exactly those connected to `start`: the set is closed under
/// the passages.
pub fn bfs_tree(start: Cell, edges: &Vec<Edge>) -> (res: (Vec<Cell>, Vec<usize>))
    ensures
        res.0@[0] == start,
        search_tree(edges@, res.0@, res.1@),
        closed_under_passages(res.0@, edges@),
        bfs_layered(edges@, res.0@, res.1@),
{
    let mut order: Vec<Cell> = Vec::new();
    let mut parent: Vec<usize> = Vec::new();
    order.push(start);
    parent.push(0);
    let mut head: usize = 0;
    let ghost univ = passage_cells(start, edges@);
    proof {
        assert(univ[0] == start);
    }
    while head < order.len()
        invariant
            univ == passage_cells(start, edges@),
            order@[0] == start,
            search_tree(edges@, order@, parent@),
            forall|k: int| 0 <= k < order@.len() ==> univ.contains(#[trigger] order@[k]),
            head <= order@.len(),
            forall|q: int, t: int|
                0 <= q < head && 0 <= t < edges@.len() && (#[trigger] edges@[t]).0 == #[trigger] order@[q]
                    ==> order@.contains(edges@[t].1),
            forall|q: int, t: int|
                0 <= q < head && 0 <= t < edges@.len() && (#[trigger] edges@[t]).1 == #[trigger] order@[q]
                    ==> order@.contains(edges@[t].0),
            forall|a: int, b: int|
                0 <= a <= b < order@.len() ==> #[trigger] tree_depth(parent@, a) <= #[trigger] tree_depth(parent@, b),
            head < order@.len() ==> forall|k: int|
                0 <= k < order@.len() ==> #[trigger] tree_depth(parent@, k) <= tree_depth(parent@, head as int) + 1,
            forall|q: int, t: int, j: int|
                0 <= q < head && 0 <= t < edges@.len() && 0 <= j < order@.len() && #[trigger] links(
                    edges@[t],
                    order@[q],
                    order@[j],
                ) ==> tree_depth(parent@, j) <= tree_depth(parent@, q) + 1,
        decreases 2 * univ.len() - order@.len() - head,
    {
        proof {
            lemma_distinct_within(order@, univ);
        }
        let cur = order[head];
        let ghost len0 = order@.len();
        let mut t: usize = 0;
        while t < edges.len()
            invariant
                univ == passage_cells(start, edges@),
                order@.len() >= len0,
                head < order@.len(),
                order@[head as int] == cur,
                order@[0] == start,
                search_tree(edges@, order@, parent@),
                forall|k: int| 0 <= k < order@.len() ==> univ.contains(#[trigger] order@[k]),
                forall|q: int, u: int|
                    0 <= q < head && 0 <= u < edges@.len() && (#[trigger] edges@[u]).0 == #[trigger] order@[q]
                        ==> order@.contains(edges@[u].1),
                forall|q: int, u: int|
                    0 <= q < head && 0 <= u < edges@.len() && (#[trigger] edges@[u]).1 == #[trigger] order@[q]
                        ==> order@.contains(edges@[u].0),
                forall|u: int| 0 <= u < t && (#[trigger] edges@[u]).0 == cur ==> order@.contains(edges@[u].1),
                forall|u: int| 0 <= u < t && (#[trigger] edges@[u]).1 == cur ==> order@.contains(edges@[u].0),
                forall|a: int, b: int|
                    0 <= a <= b < order@.len() ==> #[trigger] tree_depth(parent@, a) <= #[trigger] tree_depth(parent@, b),
                forall|k: int|
                    0 <= k < order@.len() ==> #[trigger] tree_depth(parent@, k) <= tree_depth(parent@, head as int) + 1,
                forall|q: int, u: int, j: int|
                    0 <= q < head && 0 <= u < edges@.len() && 0 <= j < order@.len() && #[trigger] links(
                        edges@[u],
                        order@[q],
                        order@[j],
                    ) ==> tree_depth(parent@, j) <= tree_depth(parent@, q) + 1,
            decreases edges@.len() - t,
        {
            let e = edges[t];
            let ghost o0 = order@;
            let ghost p0 = parent@;
            let mut nb: Option<Cell> = None;
            if e.0.0 == cur.0 && e.0.1 == cur.1 {
                nb = Some(e.1);
            } else if e.1.0 == cur.0 && e.1.1 == cur.1 {
                nb = Some(e.0);
            }
            if let Some(n) = nb {
                if !crate::grid::contains_cell(&order, n) {
                    order.push(n);
                    parent.push(head);
                    proof {
                        assert(o0.len() < order.len());
                        lemma_bfs_push_depths(edges@, o0, p0, n, head as int);
                        assert(links(edges@[t as int], n, cur));
                        assert(joined(edges@, order@[order@.len() - 1], order@[head as int]));
                        assert forall|k: int|
                            1 <= k < order@.len() implies #[trigger] parent@[k] < k && joined(
                                edges@,
                                order@[k],
                                order@[parent@[k] as int],
                            ) by {
                            if k < o0.len() {
                                assert(parent@[k] == p0[k]);
                                assert(order@[k] == o0[k]);
                                assert(order@[parent@[k] as int] == o0[p0[k] as int]);
                            }
                        }
                        assert(univ.contains(n)) by {
                            if n == e.1 {
                                assert(univ[2 * t + 2] == edges@[t as int].1);
                            } else {
                                assert(univ[2 * t + 1] == edges@[t as int].0);
                            }
                        }
                        assert forall|k: int| 0 <= k < order@.len() implies univ.contains(#[trigger] order@[k]) by {
                            if k < o0.len() {
                                assert(order@[k] == o0[k]);
                            }
                        }
                        assert(order@.no_duplicates()) by {
                            assert forall|a: int, b: int| 0 <= a < b < order@.len() implies order@[a] != order@[b] by {
                                if b == o0.len() {
                                    assert(o0.contains(order@[a]));
                                } else {
                                    assert(order@[a] == o0[a] && order@[b] == o0[b]);
                                }
                            }
                        }
                    }
                }
            }
            proof {
                assert forall|x: Cell| o0.contains(x) implies order@.contains(x) by {
                    let q = choose|q: int| 0 <= q < o0.len() && o0[q] == x;
                    assert(order@[q] == x);
                }
                assert forall|q: int, u: int|
                    0 <= q < head && 0 <= u < edges@.len() && (#[trigger] edges@[u]).0 == #[trigger] order@[q]
                        implies order@.contains(edges@[u].1) by {
                    assert(order@[q] == o0[q]);
                }
                assert forall|q: int, u: int|
                    0 <= q < head && 0 <= u < edges@.len() && (#[trigger] edges@[u]).1 == #[trigger] order@[q]
                        implies order@.contains(edges@[u].0) by {
                    assert(order@[q] == o0[q]);
                }
                assert forall|u: int| 0 <= u < t + 1 && (#[trigger] edges@[u]).0 == cur implies order@.contains(edges@[u].1) by {
                    if u == t {
                        if !o0.contains(e.1) {
                            assert(order@[order@.len() - 1] == e.1);
                        }
                    }
                }
                assert forall|u: int| 0 <= u < t + 1 && (#[trigger] edges@[u]).1 == cur implies order@.contains(edges@[u].0) by {
                    if u == t {
                        if e.0 != cur && !o0.contains(e.0) {
                            assert(order@[order@.len() - 1] == e.0);
                        }
                    }
                }
            }
            t = t + 1;
        }
        proof {
            lemma_distinct_within(order@, univ);
            let h = head as int;
            assert forall|q: int, u: int, j: int|
                0 <= q < h + 1 && 0 <= u < edges@.len() && 0 <= j < order@.len() && #[trigger] links(
                    edges@[u],
                    order@[q],
                    order@[j],
                ) implies tree_depth(parent@, j) <= tree_depth(parent@, q) + 1 by {
                if q == h {
                    assert(tree_depth(parent@, j) <= tree_depth(parent@, h) + 1);
                }
            }
            if h + 1 < order@.len() {
                assert forall|k: int| 0 <= k < order@.len() implies #[trigger] tree_depth(parent@, k) <= tree_depth(parent@, h + 1) + 1 by {
                    assert(tree_depth(parent@, h) <= tree_depth(parent@, h + 1));
                    assert(tree_depth(parent@, k) <= tree_depth(parent@, h) + 1);
                }
            }
        }
        head = head + 1;
    }
    proof {
        assert(closed_under_passages(order@, edges@)) by {
            assert forall|t: int| 0 <= t < edges@.len() implies (order@.contains((#[trigger] edges@[t]).0)
                <==> order@.contains(edges@[t].1)) by {
                if order@.contains(edges@[t].0) {
                    let q = choose|q: int| 0 <= q < order@.len() && order@[q] == edges@[t].0;
                }
                if order@.contains(edges@[t].1) {
                    let q = choose|q: int| 0 <= q < order@.len() && order@[q] == edges@[t].1;
                }
            }
        }
    }
    (order, parent)
}

/// Appending `n`, reached from position `h`, one layer below `h`: earlier depths
/// stay, the new one is one more than that of `h`, and the layering facts
/// carry over to the longer lists.
proof fn lemma_bfs_push_depths(edges: Seq<Edge>, o0: Seq<Cell>, p0: Seq<usize>, n: Cell, h: int)
    requires
        0 <= h < o0.len() == p0.len() < usize::MAX,
        search_tree(edges, o0, p0),
        !o0.contains(n),
        forall|a: int, b: int|
            0 <= a <= b < o0.len() ==> #[trigger] tree_depth(p0, a) <= #[trigger] tree_depth(p0, b),
        forall|k: int| 0 <= k < o0.len() ==> #[trigger] tree_depth(p0, k) <= tree_depth(p0, h) + 1,
        forall|q: int, t: int|
            0 <= q < h && 0 <= t < edges.len() && (#[trigger] edges[t]).0 == #[trigger] o0[q] ==> o0.contains(edges[t].1),
        forall|q: int, t: int|
            0 <= q < h && 0 <= t < edges.len() && (#[trigger] edges[t]).1 == #[trigger] o0[q] ==> o0.contains(edges[t].0),
        forall|q: int, u: int, j: int|
            0 <= q < h && 0 <= u < edges.len() && 0 <= j < o0.len() && #[trigger] links(edges[u], o0[q], o0[j])
                ==> tree_depth(p0, j) <= tree_depth(p0, q) + 1,
    ensures
        ({
            let o1 = o0.push(n);
            let p1 = p0.push(h as usize);
            &&& forall|k: int| 0 <= k < o0.len() ==> #[trigger] tree_depth(p1, k) == tree_depth(p0, k)
            &&& tree_depth(p1, o0.len() as int) == tree_depth(p0, h) + 1
            &&& forall|a: int, b: int|
                0 <= a <= b < o1.len() ==> #[trigger] tree_depth(p1, a) <= #[trigger] tree_depth(p1, b)
            &&& forall|k: int| 0 <= k < o1.len() ==> #[trigger] tree_depth(p1, k) <= tree_depth(p1, h) + 1
            &&& forall|q: int, u: int, j: int|
                0 <= q < h && 0 <= u < edges.len() && 0 <= j < o1.len() && #[trigger] links(edges[u], o1[q], o1[j])
                    ==> tree_depth(p1, j) <= tree_depth(p1, q) + 1
        }),
{
    let o1 = o0.push(n);
    let p1 = p0.push(h as usize);
    let len = o0.len() as int;
    assert forall|k: int| 0 <= k < o0.len() implies #[trigger] tree_depth(p1, k) == tree_depth(p0, k) by {
        lemma_depth_push(p0, h as usize, k);
    }
    assert(p1[len] == h as usize);
    assert(tree_depth(p1, len) == tree_depth(p1, h) + 1);
    assert(tree_depth(p1, h) == tree_depth(p0, h));
    assert forall|a: int, b: int| 0 <= a <= b < o1.len() implies #[trigger] tree_depth(p1, a) <= #[trigger] tree_depth(p1, b) by {
        assert(tree_depth(p1, a) == tree_depth(p0, a) || a == len);
        if b < len {
            assert(tree_depth(p0, a) <= tree_depth(p0, b));
        } else if a < len {
            assert(tree_depth(p0, a) <= tree_depth(p0, h) + 1);
        }
    }
    assert forall|k: int| 0 <= k < o1.len() implies #[trigger] tree_depth(p1, k) <= tree_depth(p1, h) + 1 by {
        if k < len {
            assert(tree_depth(p0, k) <= tree_depth(p0, h) + 1);
        }
    }
    assert forall|q: int, u: int, j: int|
        0 <= q < h && 0 <= u < edges.len() && 0 <= j < o1.len() && #[trigger] links(edges[u], o1[q], o1[j])
            implies tree_depth(p1, j) <= tree_depth(p1, q) + 1 by {
        assert(o1[q] == o0[q]);
        if j == len {
            assert(o1[j] == n);
            if edges[u].0 == o0[q] {
                assert(o0.contains(edges[u].1));
            } else {
                assert(o0.contains(edges[u].0));
            }
        } else {
            assert(o1[j] == o0[j]);
            assert(links(edges[u], o0[q], o0[j]));
        }
    }
}

/// No walk along `edges` from `a` to `b` has fewer cells than `p`.
#[verifier::opaque]
pub open spec fn no_shorter_walk(edges: Seq<Edge>, p: Seq<Cell>, a: Cell, b: Cell) -> bool {
    forall|q: Seq<Cell>| #[trigger] walk(edges, q, a, b) ==> p.len() <= q.len()
}

/// In a breadth-first search tree, no walk from the root reaches a cell in
/// fewer steps than the cell's depth.
proof fn lemma_bfs_depth_bound(edges: Seq<Edge>, order: Seq<Cell>, parent: Seq<usize>, p: Seq<Cell>, x: Cell, m: int)
    requires
        search_tree(edges, order, parent),
        closed_under_passages(order, edges),
        bfs_layered(edges, order, parent),
        walk(edges, p, order[0], x),
        0 <= m < p.len(),
    ensures
        order.contains(p[m]),
        forall|j: int| 0 <= j < order.len() && order[j] == p[m] ==> tree_depth(parent, j) <= m,
    decreases m,
{
    if m == 0 {
        assert(order[0] == p[0]);
        assert forall|j: int| 0 <= j < order.len() && order[j] == p[m] implies tree_depth(parent, j) <= m by {
            if j != 0 {
                assert(order[j] != order[0]);
            }
        }
    } else {
        let k = m - 1;
        lemma_bfs_depth_bound(edges, order, parent, p, x, k);
        assert(p[k + 1] == p[m]);
        assert(joined(edges, p[k], p[k + 1]));
        let t = choose|t: int| 0 <= t < edges.len() && #[trigger] links(edges[t], p[k], p[k + 1]);
        let q = choose|q: int| 0 <= q < order.len() && order[q] == p[k];
        assert(order.contains(edges[t].0) <==> order.contains(edges[t].1));
        assert(order.contains(p[m]));
        assert forall|j: int| 0 <= j < order.len() && order[j] == p[m] implies tree_depth(parent, j) <= m by {
            assert(links(edges[t], order[q], order[j]));
        }
    }
}

/// The walk from the root of a search tree to its cell at position `i`, found
/// by following parents back. It visits no cell twice.
pub fn trace_back(edges: &Vec<Edge>, order: &Vec<Cell>, parent: &Vec<usize>, i: usize) -> (path: Vec<Cell>)
    requires
        search_tree(edges@, order@, parent@),
        i < order@.len(),
    ensures
        walk(edges@, path@, order@[0], order@[i as int]),
        path@.no_duplicates(),
        path@.len() == tree_depth(parent@, i as int) + 1,
{
    let mut rev: Vec<Cell> = Vec::new();
    let mut k: usize = i;
    let ghost mut idx: Seq<int> = Seq::empty();
    while k != 0
        invariant
            k < order@.len(),
            search_tree(edges@, order@, parent@),
            i < order@.len(),
            rev@.len() == 0 ==> k == i,
            rev@.len() > 0 ==> rev@[0] == order@[i as int] && joined(edges@, rev@[rev@.len() - 1], order@[k as int]),
            forall|j: int| 0 <= j < rev@.len() - 1 ==> #[trigger] joined(edges@, rev@[j], rev@[j + 1]),
            idx.len() == rev@.len(),
            forall|j: int| 0 <= j < idx.len() ==> k < #[trigger] idx[j] < order@.len() && rev@[j] == order@[idx[j]],
            forall|a: int, b: int| 0 <= a < b < idx.len() ==> #[trigger] idx[a] > #[trigger] idx[b],
            rev@.len() + tree_depth(parent@, k as int) == tree_depth(parent@, i as int),
        decreases k,
    {
        let ghost r0 = rev@;
        let ghost i0 = idx;
        rev.push(order[k]);
        proof {
            idx = idx.push(k as int);
            assert forall|j: int| 0 <= j < rev@.len() - 1 implies #[trigger] joined(edges@, rev@[j], rev@[j + 1]) by {
                if j < r0.len() - 1 {
                    assert(rev@[j] == r0[j] && rev@[j + 1] == r0[j + 1]);
                } else {
                    assert(rev@[j] == r0[r0.len() - 1]);
                }
            }
            assert forall|a: int, b: int| 0 <= a < b < idx.len() implies #[trigger] idx[a] > #[trigger] idx[b] by {
                if b < i0.len() {
                    assert(idx[a] == i0[a] && idx[b] == i0[b]);
                } else {
                    assert(idx[a] == i0[a]);
                }
            }
        }
        k = parent[k];
        proof {
            assert forall|j: int| 0 <= j < idx.len() implies k < #[trigger] idx[j] < order@.len() && rev@[j] == order@[idx[j]] by {
                if j < i0.len() {
                    assert(idx[j] == i0[j] && rev@[j] == r0[j]);
                }
            }
        }
    }
    let ghost r0 = rev@;
    let ghost i0 = idx;
    rev.push(order[0]);
    proof {
        idx = idx.push(0);
        assert forall|j: int| 0 <= j < rev@.len() - 1 implies #[trigger] joined(edges@, rev@[j], rev@[j + 1]) by {
            if j < r0.len() - 1 {
                assert(rev@[j] == r0[j] && rev@[j + 1] == r0[j + 1]);
            } else {
                assert(rev@[j] == r0[r0.len() - 1]);
            }
        }
        assert(rev@[0] == order@[i as int]);
        assert forall|a: int, b: int| 0 <= a < b < rev@.len() implies rev@[a] != rev@[b] by {
            assert(idx[a] == i0[a]);
            assert(rev@[a] == order@[idx[a]]);
            if b < i0.len() {
                assert(idx[b] == i0[b]);
                assert(idx[a] > idx[b]);
            }
            assert(rev@[b] == order@[idx[b]]);
        }
    }
    let mut path: Vec<Cell> = Vec::new();
    let mut m: usize = rev.len();
    while m > 0
        invariant
            m <= rev@.len(),
            rev@.len() >= 1,
            rev@.len() == tree_depth(parent@, i as int) + 1,
            rev@[0] == order@[i as int],
            rev@[rev@.len() - 1] == order@[0],
            rev@.no_duplicates(),
            path@.len() == rev@.len() - m,
            forall|j: int| 0 <= j < path@.len() ==> #[trigger] path@[j] == rev@[rev@.len() - 1 - j],
            forall|j: int| 0 <= j < rev@.len() - 1 ==> #[trigger] joined(edges@, rev@[j], rev@[j + 1]),
        decreases m,
    {
        m = m - 1;
        path.push(rev[m]);
    }
    proof {
        assert forall|j: int| 0 <= j < path@.len() - 1 implies #[trigger] joined(edges@, path@[j], path@[j + 1]) by {
            let a = rev@.len() - 2 - j;
            assert(joined(edges@, rev@[a], rev@[a + 1]));
            let t = choose|t: int| 0 <= t < edges@.len() && #[trigger] links(edges@[t], rev@[a], rev@[a + 1]);
            assert(links(edges@[t], path@[j], path@[j + 1]));
        }
        assert forall|a: int, b: int| 0 <= a < b < path@.len() implies path@[a] != path@[b] by {
            assert(path@[a] == rev@[rev@.len() - 1 - a]);
            assert(path@[b] == rev@[rev@.len() - 1 - b]);
        }
    }
    path
}

/// The position of `c` in `s`, if it occurs there.
pub fn position_of(s: &Vec<Cell>, c: Cell) -> (r: Option<usize>)
    ensures
        r matches Some(i) ==> i < s@.len() && s@[i as int] == c,
        r is None ==> !s@.contains(c),
{
    let mut i: usize = 0;
    while i < s.len()
        invariant
            i <= s@.len(),
            forall|j: int| 0 <= j < i ==> s@[j] != c,
        decreases s@.len() - i,
    {
        if s[i].0 == c.0 && s[i].1 == c.1 {
            return Some(i);
        }
        i = i + 1;
    }
    None
}

/// The breadth-first walk from `start` to `end` along `edges`: a shortest
/// one, visiting no cell twice; or `None` when `end` cannot be reached from `start`.
pub fn trace_path(start: Cell, end: Cell, edges: &Vec<Edge>) -> (p: Option<Vec<Cell>>)
    ensures
        p matches Some(path) ==> walk(edges@, path@, start, end) && path@.no_duplicates() && no_shorter_walk(
            edges@,
            path@,
            start,
            end,
        ),
        p is None ==> start != end && separated(edges@, start, end),
{
    let (order, parent) = bfs_tree(start, edges);
    match position_of(&order, end) {
        Some(i) => {
            let path = trace_back(edges, &order, &parent, i);
            proof {
                reveal(no_shorter_walk);
                assert forall|q: Seq<Cell>| #[trigger] walk(edges@, q, start, end) implies path@.len() <= q.len() by {
                    lemma_bfs_depth_bound(edges@, order@, parent@, q, end, q.len() - 1);
                }
            }
            Some(path)
        },
        None => {
            proof {
                assert(order@.contains(start)) by {
                    assert(order@[0] == start);
                }
            }
            None
        },
    }
}

/// The breadth-first walk from `start` to `end` along the passages, a shortest
/// one and visiting no cell twice, or just `[start, end]` when `end` cannot be
/// reached from `start`.
pub fn find_path_in_maze(
    start: Cell,
    end: Cell,
    edges: &Vec<Edge>,
    region: &Vec<Cell>,
) -> (path: Vec<Cell>)
    ensures
        (walk(edges@, path@, start, end) && path@.no_duplicates() && no_shorter_walk(edges@, path@, start, end))
            || (path@ == seq![start, end]
            && start != end && separated(
            edges@,
            start,
            end,
        )),
{
    match trace_path(start, end, edges) {
        Some(p) => p,
        None => {
            let mut v: Vec<Cell> = Vec::new();
            v.push(start);
            v.push(end);
            assert(v@ =~= seq![start, end]);
            v
        },
    }
}

} // verus!
