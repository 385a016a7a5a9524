use vstd::prelude::*;
use crate::grid::{
    Cell, adjacent, all_coord_ok, all_in_bounds, coord_ok, in_bounds, lemma_min_sq_dist, min_sq_dist,
    min_sq_dist_exec, sq_dist,
};
use crate::grid::lemma_neighbors;
use crate::grid::lemma_distinct_within;
use crate::grid::neighbors;
use crate::rng::random_below;

verus! {

/// The contents of each vector of cells.
pub open spec fn cell_lists(v: Seq<Vec<Cell>>) -> Seq<Seq<Cell>> {
    v.map_values(|r: Vec<Cell>| r@)
}

/// Cell `s[t]` is 4-adjacent to some cell listed before it.
pub open spec fn has_earlier_neighbor(s: Seq<Cell>, t: int) -> bool {
    exists|u: int| 0 <= u < t && adjacent(s[u], s[t])
}

/// Every cell after the first touches an earlier one, so the cells of `s`
/// form one 4-connected piece grown outward from `s[0]`.
pub open spec fn grows_connected(s: Seq<Cell>) -> bool {
    forall|t: int| 0 < t < s.len() ==> #[trigger] has_earlier_neighbor(s, t)
}

/// The cell `c` lies in some region.
pub open spec fn covered(regions: Seq<Seq<Cell>>, c: Cell) -> bool {
    exists|k: int| 0 <= k < regions.len() && #[trigger] regions[k].contains(c)
}

/// No cell lies in two different regions.
pub open spec fn pairwise_disjoint(regions: Seq<Seq<Cell>>) -> bool {
    forall|k1: int, k2: int, c: Cell|
        0 <= k1 < regions.len() && 0 <= k2 < regions.len() && k1 != k2
            && #[trigger] regions[k1].contains(c) ==> !#[trigger] regions[k2].contains(c)
}

/// The first cell of each region: the seed it grew from.
pub open spec fn region_seeds(regions: Seq<Seq<Cell>>) -> Seq<Cell> {
    Seq::new(regions.len(), |r: int| regions[r][0])
}

/// Seed `g` lies at least three quarters as far from the seeds before it as
/// cell `c` does (squared distances to the nearest earlier seed, the three
/// quarters rounded down).
pub open spec fn spread_from_earlier(seeds: Seq<Cell>, g: int, c: Cell) -> bool {
    min_sq_dist(seeds[g], seeds.take(g)) >= min_sq_dist(c, seeds.take(g)) * 3 / 4
}

/// The number of unit steps between two cells of the lattice, across and down.
pub open spec fn manhattan(a: Cell, b: Cell) -> int {
    (if a.0 >= b.0 { a.0 - b.0 } else { b.0 - a.0 }) + (if a.1 >= b.1 { a.1 - b.1 } else { b.1 - a.1 })
}

/// No seed is fewer steps away from `c` than seed `r`.
pub open spec fn nearest_seed(seeds: Seq<Cell>, r: int, c: Cell) -> bool {
    forall|q: int| 0 <= q < seeds.len() ==> manhattan(c, seeds[r]) <= #[trigger] manhattan(c, seeds[q])
}

/// The breadth-first growth of the regions: `queue` lists each claimed cell
/// with its region, the seeds first; `dep[p]` is the number of growth steps
/// that reached `queue[p]`, never fewer than its distance to its own seed,
/// non-decreasing along the queue, at most one more than at `head` while the
/// queue is worked on, and at most one more than at any processed cell next to it.
#[verifier::opaque]
spec fn growth_layers(queue: Seq<(usize, Cell)>, dep: Seq<int>, head: int, seeds: Seq<Cell>) -> bool {
    &&& dep.len() == queue.len()
    &&& seeds.len() <= queue.len() <= usize::MAX
    &&& 0 <= head <= queue.len()
    &&& forall|p: int|
        #![trigger queue[p]]
        #![trigger dep[p]]
        0 <= p < seeds.len() ==> dep[p] == 0 && queue[p].0 as int == p && queue[p].1 == seeds[p]
    &&& forall|p: int|
        0 <= p < queue.len() ==> (#[trigger] queue[p]).0 < seeds.len() && dep[p] >= manhattan(
            queue[p].1,
            seeds[queue[p].0 as int],
        )
    &&& forall|a: int, b: int| 0 <= a <= b < queue.len() ==> #[trigger] dep[a] <= #[trigger] dep[b]
    &&& head < queue.len() ==> forall|p: int| 0 <= p < queue.len() ==> #[trigger] dep[p] <= dep[head] + 1
    &&& forall|p: int, j: int|
        0 <= p < head && 0 <= j < queue.len() && #[trigger] adjacent(queue[p].1, queue[j].1) ==> dep[j] <= dep[p]
            + 1
}

/// No cell stands twice in the queue.
spec fn queue_cells_distinct(queue: Seq<(usize, Cell)>) -> bool {
    forall|p: int, j: int| 0 <= p < j < queue.len() ==> (#[trigger] queue[p]).1 != (#[trigger] queue[j]).1
}

/// The growth starts from the seeds alone, none of them processed.
proof fn lemma_growth_start(queue: Seq<(usize, Cell)>, seeds: Seq<Cell>)
    requires
        queue.len() == seeds.len() <= usize::MAX,
        forall|p: int| 0 <= p < seeds.len() ==> #[trigger] queue[p] == (p as usize, seeds[p]),
    ensures
        growth_layers(queue, Seq::new(seeds.len(), |p: int| 0int), 0, seeds),
{
    reveal(growth_layers);
    let dep = Seq::new(seeds.len(), |p: int| 0int);
    assert forall|p: int| 0 <= p < queue.len() implies (#[trigger] queue[p]).0 < seeds.len() && dep[p] >= manhattan(
        queue[p].1,
        seeds[queue[p].0 as int],
    ) by {
        assert(queue[p] == (p as usize, seeds[p]));
    }
}

/// Claiming `n`, next to the cell at `head`, for the same region.
proof fn lemma_growth_push(queue: Seq<(usize, Cell)>, dep: Seq<int>, head: int, seeds: Seq<Cell>, n: Cell)
    requires
        growth_layers(queue, dep, head, seeds),
        head < queue.len(),
        adjacent(queue[head].1, n),
        forall|p: int| 0 <= p < head ==> !adjacent(#[trigger] queue[p].1, n),
        queue.len() < usize::MAX,
    ensures
        growth_layers(queue.push((queue[head].0, n)), dep.push(dep[head] + 1), head, seeds),
{
    reveal(growth_layers);
    let q1 = queue.push((queue[head].0, n));
    let d1 = dep.push(dep[head] + 1);
    let len = queue.len() as int;
    assert(d1[head] == dep[head] && q1[head] == queue[head]);
    assert forall|p: int|
        #![trigger q1[p]]
        #![trigger d1[p]]
        0 <= p < seeds.len() implies d1[p] == 0 && q1[p].0 as int == p && q1[p].1 == seeds[p] by {
        assert(q1[p] == queue[p] && d1[p] == dep[p]);
    }
    assert forall|p: int| 0 <= p < q1.len() implies (#[trigger] q1[p]).0 < seeds.len() && d1[p] >= manhattan(
        q1[p].1,
        seeds[q1[p].0 as int],
    ) by {
        if p < len {
            assert(q1[p] == queue[p] && d1[p] == dep[p]);
            assert(queue[p].0 < seeds.len());
        } else {
            assert(queue[head].0 < seeds.len());
            assert(dep[head] >= manhattan(queue[head].1, seeds[queue[head].0 as int]));
        }
    }
    assert forall|a: int, b: int| 0 <= a <= b < q1.len() implies #[trigger] d1[a] <= #[trigger] d1[b] by {
        if b < len {
            assert(d1[a] == dep[a] && d1[b] == dep[b]);
            assert(dep[a] <= dep[b]);
        } else if a < len {
            assert(d1[a] == dep[a]);
            assert(dep[a] <= dep[head] + 1);
        }
    }
    assert forall|p: int| 0 <= p < q1.len() implies #[trigger] d1[p] <= d1[head] + 1 by {
        if p < len {
            assert(d1[p] == dep[p]);
            assert(dep[p] <= dep[head] + 1);
        }
    }
    assert forall|p: int, j: int|
        0 <= p < head && 0 <= j < q1.len() && #[trigger] adjacent(q1[p].1, q1[j].1) implies d1[j] <= d1[p] + 1 by {
        assert(q1[p] == queue[p]);
        if j < len {
            assert(q1[j] == queue[j]);
            assert(adjacent(queue[p].1, queue[j].1));
        } else {
            assert(!adjacent(queue[p].1, n));
        }
    }
}

/// Done with the cell at `head`: every cell next to it is at most one step deeper.
proof fn lemma_growth_advance(queue: Seq<(usize, Cell)>, dep: Seq<int>, head: int, seeds: Seq<Cell>)
    requires
        growth_layers(queue, dep, head, seeds),
        head < queue.len(),
    ensures
        growth_layers(queue, dep, head + 1, seeds),
{
    reveal(growth_layers);
    assert forall|p: int, j: int|
        0 <= p < head + 1 && 0 <= j < queue.len() && #[trigger] adjacent(queue[p].1, queue[j].1) implies dep[j]
        <= dep[p] + 1 by {
        if p == head {
            assert(dep[j] <= dep[head] + 1);
        }
    }
    assert(head + 1 < queue.len() ==> forall|p: int| 0 <= p < queue.len() ==> #[trigger] dep[p] <= dep[head + 1] + 1) by {
        if head + 1 < queue.len() {
            assert forall|p: int| 0 <= p < queue.len() implies #[trigger] dep[p] <= dep[head + 1] + 1 by {
                assert(dep[head] <= dep[head + 1]);
                assert(dep[p] <= dep[head] + 1);
            }
        }
    }
}

/// After the growth, a cell is at most as many steps deep as its distance to
/// any queued cell `s` plus the depth of `s`.
proof fn lemma_growth_depth_bound(
    queue: Seq<(usize, Cell)>,
    dep: Seq<int>,
    seeds: Seq<Cell>,
    h: int,
    w: int,
    ps: int,
    c: Cell,
)
    requires
        growth_layers(queue, dep, queue.len() as int, seeds),
        queue_cells_distinct(queue),
        0 <= ps < queue.len(),
        in_bounds(queue[ps].1, h, w),
        in_bounds(c, h, w),
        forall|x: Cell| in_bounds(x, h, w) ==> exists|p: int| 0 <= p < queue.len() && (#[trigger] queue[p]).1 == x,
    ensures
        forall|j: int| 0 <= j < queue.len() && (#[trigger] queue[j]).1 == c ==> dep[j] <= dep[ps] + manhattan(
            c,
            queue[ps].1,
        ),
    decreases manhattan(c, queue[ps].1),
{
    let s = queue[ps].1;
    if c == s {
        assert forall|j: int| 0 <= j < queue.len() && (#[trigger] queue[j]).1 == c implies dep[j] <= dep[ps]
            + manhattan(c, queue[ps].1) by {
            if j != ps {
                if j < ps {
                    assert(queue[j].1 != queue[ps].1);
                } else {
                    assert(queue[ps].1 != queue[j].1);
                }
            }
        }
    } else {
        let c2: Cell = if c.0 > s.0 {
            ((c.0 - 1) as usize, c.1)
        } else if c.0 < s.0 {
            ((c.0 + 1) as usize, c.1)
        } else if c.1 > s.1 {
            (c.0, (c.1 - 1) as usize)
        } else {
            (c.0, (c.1 + 1) as usize)
        };
        assert(in_bounds(c2, h, w));
        assert(adjacent(c2, c));
        assert(manhattan(c2, s) == manhattan(c, s) - 1);
        lemma_growth_depth_bound(queue, dep, seeds, h, w, ps, c2);
        let p2 = choose|p: int| 0 <= p < queue.len() && (#[trigger] queue[p]).1 == c2;
        assert(dep[p2] <= dep[ps] + manhattan(c2, s));
        assert forall|j: int| 0 <= j < queue.len() && (#[trigger] queue[j]).1 == c implies dep[j] <= dep[ps]
            + manhattan(c, queue[ps].1) by {
            reveal(growth_layers);
            assert(adjacent(queue[p2].1, queue[j].1));
        }
    }
}

/// After the growth, each queued cell is no farther from the seed of its own
/// region than from any other seed.
proof fn lemma_growth_nearest(queue: Seq<(usize, Cell)>, dep: Seq<int>, seeds: Seq<Cell>, h: int, w: int, p: int)
    requires
        growth_layers(queue, dep, queue.len() as int, seeds),
        queue_cells_distinct(queue),
        0 <= p < queue.len(),
        forall|x: Cell| in_bounds(x, h, w) ==> exists|j: int| 0 <= j < queue.len() && (#[trigger] queue[j]).1 == x,
        forall|j: int| 0 <= j < queue.len() ==> in_bounds((#[trigger] queue[j]).1, h, w),
    ensures
        queue[p].0 < seeds.len(),
        nearest_seed(seeds, queue[p].0 as int, queue[p].1),
{
    reveal(growth_layers);
    let c = queue[p].1;
    assert(queue[p].0 < seeds.len());
    assert(dep[p] >= manhattan(c, seeds[queue[p].0 as int]));
    assert forall|q: int| 0 <= q < seeds.len() implies manhattan(c, seeds[queue[p].0 as int]) <= #[trigger] manhattan(
        c,
        seeds[q],
    ) by {
        assert(queue[q].1 == seeds[q]);
        assert(dep[q] == 0);
        lemma_growth_depth_bound(queue, dep, seeds, h, w, q, c);
        assert(dep[p] <= dep[q] + manhattan(c, queue[q].1));
    }
}

/// Each region is a non-empty, duplicate-free, connected list of cells of the
/// `h` by `w` lattice.
pub open spec fn well_formed_regions(regions: Seq<Seq<Cell>>, h: int, w: int) -> bool {
    forall|k: int|
        0 <= k < regions.len() ==> {
            &&& #[trigger] regions[k].len() > 0
            &&& regions[k].no_duplicates()
            &&& all_in_bounds(regions[k], h, w)
            &&& grows_connected(regions[k])
        }
}

spec fn label(cl: Seq<Vec<usize>>, c: Cell) -> usize {
    cl[c.0 as int]@[c.1 as int]
}

spec fn claimed_at(cl: Seq<Vec<usize>>, c: Cell) -> bool {
    label(cl, c) != 0
}

spec fn grid_shape(cl: Seq<Vec<usize>>, h: int, w: int) -> bool {
    &&& cl.len() == h
    &&& forall|i: int| 0 <= i < h ==> #[trigger] cl[i]@.len() == w
}

spec fn closed_under_adjacency(cl: Seq<Vec<usize>>, h: int, w: int) -> bool {
    forall|c: Cell, n: Cell|
        in_bounds(c, h, w) && in_bounds(n, h, w) && #[trigger] claimed_at(cl, c) && adjacent(c, n)
            ==> #[trigger] claimed_at(cl, n)
}

proof fn lemma_walk_rows(cl: Seq<Vec<usize>>, h: int, w: int, i0: usize, i1: usize, j: usize)
    requires
        grid_shape(cl, h, w),
        closed_under_adjacency(cl, h, w),
        i0 < h,
        i1 < h,
        j < w,
        claimed_at(cl, (i0, j)),
    ensures
        claimed_at(cl, (i1, j)),
    decreases (if i0 < i1 { i1 - i0 } else { i0 - i1 }),
{
    if i0 < i1 {
        let n: Cell = ((i0 + 1) as usize, j);
        assert(adjacent((i0, j), n));
        assert(claimed_at(cl, n));
        lemma_walk_rows(cl, h, w, (i0 + 1) as usize, i1, j);
    } else if i0 > i1 {
        let n: Cell = ((i0 - 1) as usize, j);
        assert(adjacent((i0, j), n));
        assert(claimed_at(cl, n));
        lemma_walk_rows(cl, h, w, (i0 - 1) as usize, i1, j);
    }
}

proof fn lemma_walk_cols(cl: Seq<Vec<usize>>, h: int, w: int, i: usize, j0: usize, j1: usize)
    requires
        grid_shape(cl, h, w),
        closed_under_adjacency(cl, h, w),
        i < h,
        j0 < w,
        j1 < w,
        claimed_at(cl, (i, j0)),
    ensures
        claimed_at(cl, (i, j1)),
    decreases (if j0 < j1 { j1 - j0 } else { j0 - j1 }),
{
    if j0 < j1 {
        let n: Cell = (i, (j0 + 1) as usize);
        assert(adjacent((i, j0), n));
        assert(claimed_at(cl, n));
        lemma_walk_cols(cl, h, w, i, (j0 + 1) as usize, j1);
    } else if j0 > j1 {
        let n: Cell = (i, (j0 - 1) as usize);
        assert(adjacent((i, j0), n));
        assert(claimed_at(cl, n));
        lemma_walk_cols(cl, h, w, i, (j0 - 1) as usize, j1);
    }
}

/// A set of lattice cells that is closed under adjacency and not empty is the whole lattice.
proof fn lemma_flood_covers(cl: Seq<Vec<usize>>, h: int, w: int, start: Cell)
    requires
        grid_shape(cl, h, w),
        closed_under_adjacency(cl, h, w),
        in_bounds(start, h, w),
        claimed_at(cl, start),
    ensures
        forall|c: Cell| in_bounds(c, h, w) ==> #[trigger] claimed_at(cl, c),
{
    assert forall|c: Cell| in_bounds(c, h, w) implies #[trigger] claimed_at(cl, c) by {
        lemma_walk_rows(cl, h, w, start.0, c.0, start.1);
        lemma_walk_cols(cl, h, w, c.0, start.1, c.1);
    }
}

/// The cells of the `h` by `w` lattice in row-major order.
fn lattice_cells(h: usize, w: usize) -> (cells: Vec<Cell>)
    requires
        h * w <= usize::MAX,
    ensures
        cells@.len() == h * w,
        cells@.no_duplicates(),
        all_in_bounds(cells@, h as int, w as int),
        forall|c: Cell| in_bounds(c, h as int, w as int) ==> #[trigger] cells@.contains(c),
{
    let mut cells: Vec<Cell> = Vec::new();
    let mut mi: usize = 0;
    while mi < h
        invariant
            mi <= h,
            h * w <= usize::MAX,
            cells@.len() == mi * w,
            cells@.no_duplicates(),
            forall|k: int| 0 <= k < cells@.len() ==> (#[trigger] cells@[k]).0 < mi && cells@[k].1 < w,
            forall|c: Cell| c.0 < mi && c.1 < w ==> #[trigger] cells@.contains(c),
        decreases h - mi,
    {
        let mut mj: usize = 0;
        while mj < w
            invariant
                mi < h,
                mj <= w,
                cells@.len() == mi * w + mj,
                cells@.no_duplicates(),
                forall|k: int|
                    0 <= k < cells@.len() ==> (#[trigger] cells@[k]).0 < mi || (cells@[k].0 == mi
                        && cells@[k].1 < mj),
                forall|k: int| 0 <= k < cells@.len() ==> (#[trigger] cells@[k]).1 < w && cells@[k].0 <= mi,
                forall|c: Cell| c.0 < mi && c.1 < w ==> #[trigger] cells@.contains(c),
                forall|c: Cell| c.0 == mi && c.1 < mj ==> #[trigger] cells@.contains(c),
            decreases w - mj,
        {
            let ghost old_cells = cells@;
            cells.push((mi, mj));
            assert forall|c: Cell| c.0 < mi && c.1 < w implies #[trigger] cells@.contains(c) by {
                assert(old_cells.contains(c));
                let k = choose|k: int| 0 <= k < old_cells.len() && old_cells[k] == c;
                assert(cells@[k] == c);
            }
            assert forall|c: Cell| c.0 == mi && c.1 < mj + 1 implies #[trigger] cells@.contains(
                c,
            ) by {
                if c.1 == mj {
                    assert(cells@[cells@.len() - 1] == c);
                } else {
                    assert(old_cells.contains(c));
                    let k = choose|k: int| 0 <= k < old_cells.len() && old_cells[k] == c;
                    assert(cells@[k] == c);
                }
            }
            mj = mj + 1;
        }
        assert(mi * w + w == (mi + 1) * w) by (nonlinear_arith);
        mi = mi + 1;
    }
    cells
}

/// The smallest squared distance from each cell of `cells` to the seeds.
fn distances_to(cells: &Vec<Cell>, seeds: &Vec<Cell>) -> (d: Vec<i64>)
    requires
        all_coord_ok(cells@),
        all_coord_ok(seeds@),
    ensures
        d@.len() == cells@.len(),
        forall|i: int| 0 <= i < cells@.len() ==> #[trigger] d@[i] == min_sq_dist(cells@[i], seeds@),
{
    let mut d: Vec<i64> = Vec::new();
    let mut i: usize = 0;
    while i < cells.len()
        invariant
            i <= cells@.len(),
            all_coord_ok(cells@),
            all_coord_ok(seeds@),
            d@.len() == i,
            forall|k: int| 0 <= k < i ==> #[trigger] d@[k] == min_sq_dist(cells@[k], seeds@),
        decreases cells@.len() - i,
    {
        let v = min_sq_dist_exec(cells[i], seeds);
        d.push(v);
        i = i + 1;
    }
    d
}

/// Picks the next region seed: a cell whose distance to the nearest seed is at
/// least three quarters of the largest such distance, chosen at random among
/// those; with no cell away from the seeds it falls back to the first cell.
fn next_seed(rng: &mut rand::rngs::StdRng, cells: &Vec<Cell>, seeds: &Vec<Cell>) -> (next: Cell)
    requires
        cells@.len() > 0,
        seeds@.len() > 0,
        forall|k: int| 0 <= k < cells@.len() ==> (#[trigger] cells@[k]).0 < 0x4000_0000 && cells@[k].1
            < 0x4000_0000,
        forall|k: int| 0 <= k < seeds@.len() ==> (#[trigger] seeds@[k]).0 < 0x4000_0000 && seeds@[k].1
            < 0x4000_0000,
    ensures
        cells@.contains(next),
        (exists|k: int| 0 <= k < cells@.len() && !seeds@.contains(#[trigger] cells@[k]))
            ==> !seeds@.contains(next),
        forall|k: int|
            0 <= k < cells@.len() ==> min_sq_dist(next, seeds@) >= #[trigger] min_sq_dist(cells@[k], seeds@) * 3 / 4,
{
    assert(all_coord_ok(cells@));
    assert(all_coord_ok(seeds@));
    let dists = distances_to(cells, seeds);
    let mut best: Cell = cells[0];
    let mut best_dist: i64 = 0;
    let mut i: usize = 0;
    while i < cells.len()
        invariant
            i <= cells@.len(),
            dists@.len() == cells@.len(),
            forall|k: int| 0 <= k < cells@.len() ==> #[trigger] dists@[k] == min_sq_dist(cells@[k], seeds@),
            cells@.contains(best),
            best_dist >= 0,
            best_dist > 0 ==> min_sq_dist(best, seeds@) == best_dist,
            forall|k: int| 0 <= k < i ==> #[trigger] dists@[k] <= best_dist,
        decreases cells@.len() - i,
    {
        if dists[i] > best_dist {
            best_dist = dists[i];
            best = cells[i];
        }
        i = i + 1;
    }
    // Squared distances between lattice cells stay below 2^61, so the
    // threshold below cannot overflow.
    assert(best_dist < 0x2000_0000_0000_0000) by {
        if best_dist > 0 {
            lemma_min_sq_dist(best, seeds@);
            let j = choose|j: int| 0 <= j < seeds@.len() && min_sq_dist(best, seeds@) == sq_dist(best, seeds@[j]);
            let ci = choose|ci: int| 0 <= ci < cells@.len() && cells@[ci] == best;
            let s = seeds@[j];
            assert(s.0 < 0x4000_0000 && s.1 < 0x4000_0000);
            assert(best.0 < 0x4000_0000 && best.1 < 0x4000_0000);
            let dy: int = best.0 - s.0;
            let dx: int = best.1 - s.1;
            assert(dy * dy + dx * dx < 0x2000_0000_0000_0000) by (nonlinear_arith)
                requires
                    -0x4000_0000 < dy < 0x4000_0000,
                    -0x4000_0000 < dx < 0x4000_0000,
            ;
        }
    }
    let threshold: i64 = best_dist * 3 / 4;
    let mut candidates: Vec<Cell> = Vec::new();
    let mut i: usize = 0;
    while i < cells.len()
        invariant
            i <= cells@.len(),
            dists@.len() == cells@.len(),
            forall|k: int| 0 <= k < cells@.len() ==> #[trigger] dists@[k] == min_sq_dist(cells@[k], seeds@),
            seeds@.len() > 0,
            forall|k: int| 0 <= k < candidates@.len() ==> cells@.contains(#[trigger] candidates@[k])
                && !seeds@.contains(candidates@[k]) && min_sq_dist(candidates@[k], seeds@) >= threshold,
            forall|k: int| 0 <= k < cells@.len() ==> #[trigger] dists@[k] <= best_dist,
            best_dist > 0 && (exists|k: int| 0 <= k < i && cells@[k] == best) ==> candidates@.len() > 0,
            best_dist > 0 ==> min_sq_dist(best, seeds@) == best_dist,
            threshold == best_dist * 3 / 4,
            best_dist >= 0,
        decreases cells@.len() - i,
    {
        let ghost old_c = candidates@;
        if dists[i] >= threshold && dists[i] > 0 {
            proof {
                lemma_min_sq_dist(cells@[i as int], seeds@);
            }
            candidates.push(cells[i]);
            assert forall|k: int| 0 <= k < candidates@.len() implies cells@.contains(
                #[trigger] candidates@[k],
            ) && !seeds@.contains(candidates@[k]) && min_sq_dist(candidates@[k], seeds@) >= threshold by {
                if k < old_c.len() {
                    assert(candidates@[k] == old_c[k]);
                } else {
                    assert(candidates@[k] == cells@[i as int]);
                }
            }
        } else {
            proof {
                if best_dist > 0 && cells@[i as int] == best {
                    assert(dists@[i as int] == best_dist);
                }
            }
        }
        i = i + 1;
    }
    proof {
        lemma_min_sq_dist(best, seeds@);
        if exists|k: int| 0 <= k < cells@.len() && !seeds@.contains(#[trigger] cells@[k]) {
            let k = choose|k: int| 0 <= k < cells@.len() && !seeds@.contains(#[trigger] cells@[k]);
            lemma_min_sq_dist(cells@[k], seeds@);
            assert(dists@[k] > 0);
            assert(best_dist > 0);
            let bi = choose|bi: int| 0 <= bi < cells@.len() && cells@[bi] == best;
        }
    }
    if candidates.len() == 0 {
        proof {
            assert(best_dist == 0) by {
                if best_dist > 0 {
                    let bi = choose|bi: int| 0 <= bi < cells@.len() && cells@[bi] == best;
                }
            }
            assert forall|k: int| 0 <= k < cells@.len() implies min_sq_dist(best, seeds@) >= #[trigger] min_sq_dist(
                cells@[k],
                seeds@,
            ) * 3 / 4 by {
                assert(dists@[k] <= 0);
            }
        }
        best
    } else {
        let pick = random_below(rng, candidates.len());
        let next = candidates[pick];
        proof {
            assert forall|k: int| 0 <= k < cells@.len() implies min_sq_dist(next, seeds@) >= #[trigger] min_sq_dist(
                cells@[k],
                seeds@,
            ) * 3 / 4 by {
                let d: int = dists@[k] as int;
                let b: int = best_dist as int;
                assert(d <= b);
                assert(d * 3 / 4 <= b * 3 / 4) by (nonlinear_arith)
                    requires
                        d <= b,
                ;
            }
        }
        next
    }
}

/// Splits the `maze_h` by `maze_w` lattice into `goals` regions: seeds are
/// spread by farthest-point sampling (each later seed at least three quarters
/// as far from the earlier ones as the farthest cell, in squared distance),
/// then all seeds grow together breadth-first, each cell joining the first
/// region to reach it, so that no seed is fewer steps from a cell than the
/// seed of its own region.
pub fn partition_regions(
    rng: &mut rand::rngs::StdRng,
    maze_w: usize,
    maze_h: usize,
    goals: usize,
) -> (regions: Vec<Vec<Cell>>)
    requires
        goals > 0 ==> maze_w > 0 && maze_h > 0,
        maze_w < 0x4000_0000,
        maze_h < 0x4000_0000,
        maze_w * maze_h <= usize::MAX,
    ensures
        regions@.len() == goals,
        well_formed_regions(cell_lists(regions@), maze_h as int, maze_w as int),
        goals > 0 ==> forall|c: Cell|
            in_bounds(c, maze_h as int, maze_w as int) ==> #[trigger] covered(
                cell_lists(regions@),
                c,
            ),
        goals <= maze_w * maze_h ==> pairwise_disjoint(cell_lists(regions@)),
        forall|g: int, c: Cell|
            1 <= g < goals && in_bounds(c, maze_h as int, maze_w as int) ==> #[trigger] spread_from_earlier(
                region_seeds(cell_lists(regions@)),
                g,
                c,
            ),
        goals <= maze_w * maze_h ==> forall|r: int, c: Cell|
            0 <= r < goals && #[trigger] cell_lists(regions@)[r].contains(c) ==> nearest_seed(
                region_seeds(cell_lists(regions@)),
                r,
                c,
            ),
{
    let mut regions: Vec<Vec<Cell>> = Vec::new();
    if goals == 0 {
        return regions;
    }
    let ghost h = maze_h as int;
    let ghost w = maze_w as int;
    let ghost distinct = goals <= maze_w * maze_h;
    let cells = lattice_cells(maze_h, maze_w);
    assert(cells@.len() > 0) by (nonlinear_arith)
        requires
            cells@.len() == maze_h * maze_w,
            maze_h > 0,
            maze_w > 0,
    ;
    // Step 1: spread the seeds.
    let mut seeds: Vec<Cell> = Vec::new();
    let first = random_below(rng, cells.len());
    seeds.push(cells[first]);
    let mut g: usize = 1;
    while g < goals
        invariant
            1 <= g <= goals,
            seeds@.len() == g,
            cells@.len() == maze_h * maze_w,
            cells@.len() > 0,
            cells@.no_duplicates(),
            all_in_bounds(cells@, h, w),
            maze_w < 0x4000_0000,
            maze_h < 0x4000_0000,
            forall|c: Cell| in_bounds(c, h, w) ==> #[trigger] cells@.contains(c),
            all_in_bounds(seeds@, h, w),
            h == maze_h,
            w == maze_w,
            distinct == (goals <= maze_w * maze_h),
            distinct ==> seeds@.no_duplicates(),
            forall|q: int, k: int|
                1 <= q < seeds@.len() && 0 <= k < cells@.len() ==> #[trigger] spread_from_earlier(
                    seeds@,
                    q,
                    cells@[k],
                ),
        decreases goals - g,
    {
        proof {
            if distinct {
                if forall|k: int| 0 <= k < cells@.len() ==> seeds@.contains(#[trigger] cells@[k]) {
                    lemma_distinct_within(cells@, seeds@);
                }
            }
        }
        assert forall|k: int| 0 <= k < cells@.len() implies (#[trigger] cells@[k]).0 < 0x4000_0000 && cells@[k].1
            < 0x4000_0000 by {
            assert(in_bounds(cells@[k], h, w));
        }
        assert forall|k: int| 0 <= k < seeds@.len() implies (#[trigger] seeds@[k]).0 < 0x4000_0000 && seeds@[k].1
            < 0x4000_0000 by {
            assert(in_bounds(seeds@[k], h, w));
        }
        let next = next_seed(rng, &cells, &seeds);
        let ghost old_seeds = seeds@;
        seeds.push(next);
        proof {
            assert(seeds@ == old_seeds.push(next));
            assert forall|q: int, k: int|
                1 <= q < seeds@.len() && 0 <= k < cells@.len() implies #[trigger] spread_from_earlier(
                    seeds@,
                    q,
                    cells@[k],
                ) by {
                if q < old_seeds.len() {
                    assert(seeds@.take(q) =~= old_seeds.take(q));
                    assert(seeds@[q] == old_seeds[q]);
                    assert(spread_from_earlier(old_seeds, q, cells@[k]));
                } else {
                    assert(seeds@.take(q) =~= old_seeds);
                    assert(min_sq_dist(next, old_seeds) >= min_sq_dist(cells@[k], old_seeds) * 3 / 4);
                }
            }
            if distinct {
                assert forall|i: int, j: int| 0 <= i < j < seeds@.len() implies seeds@[i] != seeds@[j] by {
                    if j == seeds@.len() - 1 {
                        assert(old_seeds.contains(seeds@[i]));
                    } else {
                        assert(old_seeds[i] == seeds@[i] && old_seeds[j] == seeds@[j]);
                    }
                }
            }
        }
        g = g + 1;
    }
    // Step 2: every seed claims its cell.
    let mut claimed: Vec<Vec<usize>> = Vec::new();
    let mut i: usize = 0;
    while i < maze_h
        invariant
            i <= maze_h,
            claimed@.len() == i,
            forall|r: int| 0 <= r < i ==> #[trigger] claimed@[r]@.len() == maze_w,
            forall|r: int, c: int| 0 <= r < i && 0 <= c < maze_w ==> #[trigger] claimed@[r]@[c] == 0,
        decreases maze_h - i,
    {
        let mut row: Vec<usize> = Vec::new();
        let mut j: usize = 0;
        while j < maze_w
            invariant
                j <= maze_w,
                row@.len() == j,
                forall|c: int| 0 <= c < j ==> #[trigger] row@[c] == 0,
            decreases maze_w - j,
        {
            row.push(0);
            j = j + 1;
        }
        claimed.push(row);
        i = i + 1;
    }
    let mut k: usize = 0;
    while k < goals
        invariant
            k <= goals,
            regions@.len() == k,
            forall|r: int| 0 <= r < k ==> (#[trigger] regions@[r])@.len() == 0,
        decreases goals - k,
    {
        regions.push(Vec::new());
        k = k + 1;
    }
    let mut queue: Vec<(usize, Cell)> = Vec::new();
    let ghost mut pushed: Seq<Cell> = Seq::empty();
    let mut i: usize = 0;
    while i < goals
        invariant
            i <= goals,
            seeds@.len() == goals,
            all_in_bounds(seeds@, h, w),
            distinct ==> seeds@.no_duplicates(),
            regions@.len() == goals,
            grid_shape(claimed@, h, w),
            forall|r: int| 0 <= r < i ==> (#[trigger] cell_lists(regions@)[r]) == seq![seeds@[r]],
            forall|r: int| i <= r < goals ==> (#[trigger] cell_lists(regions@)[r]).len() == 0,
            forall|c: Cell| in_bounds(c, h, w) ==> #[trigger] label(claimed@, c) <= i,
            forall|c: Cell|
                #![trigger label(claimed@, c)]
                in_bounds(c, h, w) && label(claimed@, c) != 0 ==> cell_lists(regions@)[label(claimed@, c) - 1].contains(c),
            forall|r: int, c: Cell|
                0 <= r < goals && #[trigger] cell_lists(regions@)[r].contains(c) ==> in_bounds(c, h, w)
                    && label(claimed@, c) != 0,
            distinct ==> forall|r: int, c: Cell|
                0 <= r < goals && #[trigger] cell_lists(regions@)[r].contains(c) ==> label(claimed@, c) == r + 1,
            queue@.len() == i,
            forall|p: int| 0 <= p < i ==> #[trigger] queue@[p] == (p as usize, seeds@[p]),
            forall|c: Cell|
                in_bounds(c, h, w) && label(claimed@, c) != 0 ==> exists|p: int|
                    0 <= p < queue@.len() && (#[trigger] queue@[p]).1 == c,
        decreases goals - i,
    {
        let s = seeds[i];
        let ghost old_regions = cell_lists(regions@);
        let ghost old_vecs = regions@;
        let ghost old_claimed = claimed@;
        let ghost old_queue = queue@;
        regions[i].push(s);
        claimed[s.0].set(s.1, i + 1);
        queue.push((i, s));
        proof {
            assert(regions@.len() == old_vecs.len());
            assert(old_regions[i as int].len() == 0);
            assert(old_vecs[i as int]@.len() == 0);
            assert(regions@[i as int]@ =~= seq![s]);
            assert forall|r: int| 0 <= r < goals && r != i implies regions@[r] == old_vecs[r] by {}
            assert(cell_lists(regions@) =~= old_regions.update(i as int, seq![s]));
            assert forall|c: Cell| c != s && in_bounds(c, h, w) implies #[trigger] label(claimed@, c) == label(old_claimed, c) by {
                if c.0 == s.0 {
                    assert(claimed@[c.0 as int]@ == old_claimed[c.0 as int]@.update(s.1 as int, (i + 1) as usize));
                } else {
                    assert(claimed@[c.0 as int] == old_claimed[c.0 as int]);
                }
            }
            assert(label(claimed@, s) == i + 1);
            assert forall|r: int| 0 <= r < i + 1 implies (#[trigger] cell_lists(regions@)[r]) == seq![seeds@[r]] by {
            }
            assert forall|c: Cell|
                in_bounds(c, h, w) && label(claimed@, c) != 0 implies exists|p: int|
                    0 <= p < queue@.len() && (#[trigger] queue@[p]).1 == c by {
                if c == s {
                    assert(queue@[i as int].1 == c);
                } else {
                    assert(label(old_claimed, c) == label(claimed@, c));
                    let p = choose|p: int| 0 <= p < old_queue.len() && (#[trigger] old_queue[p]).1 == c;
                    assert(queue@[p] == old_queue[p]);
                }
            }
            assert forall|c: Cell|
                #![trigger label(claimed@, c)]
                in_bounds(c, h, w) && label(claimed@, c) != 0 implies cell_lists(regions@)[label(claimed@, c) - 1].contains(c) by {
                if c == s {
                    assert(cell_lists(regions@)[i as int][0] == s);
                } else {
                    assert(label(old_claimed, c) == label(claimed@, c));
                    let r = label(claimed@, c) - 1;
                    assert(old_regions[r].contains(c));
                    assert(r != i);
                }
            }
            assert forall|r: int, c: Cell|
                0 <= r < goals && #[trigger] cell_lists(regions@)[r].contains(c) implies in_bounds(c, h, w)
                    && label(claimed@, c) != 0 by {
                if r == i {
                    assert(c == s);
                } else {
                    assert(old_regions[r].contains(c));
                    if c != s {
                        assert(label(old_claimed, c) == label(claimed@, c));
                    }
                }
            }
            if distinct {
                assert forall|r: int, c: Cell|
                    0 <= r < goals && #[trigger] cell_lists(regions@)[r].contains(c) implies label(claimed@, c) == r + 1 by {
                    if r == i {
                        assert(c == s);
                    } else {
                        assert(old_regions[r].contains(c));
                        assert(r < i);
                        assert(c == seeds@[r]);
                        assert(c != s);
                        assert(label(old_claimed, c) == label(claimed@, c));
                    }
                }
            }
        }
        i = i + 1;
    }
    // Step 3: grow all regions together, breadth-first.
    proof {
        assert forall|r: int| 0 <= r < goals implies #[trigger] cell_lists(regions@)[r].contains(seeds@[r]) by {
            assert(cell_lists(regions@)[r][0] == seeds@[r]);
        }
        assert(well_formed_regions(cell_lists(regions@), h, w)) by {
            assert forall|r: int| 0 <= r < cell_lists(regions@).len() implies {
                &&& #[trigger] cell_lists(regions@)[r].len() > 0
                &&& cell_lists(regions@)[r].no_duplicates()
                &&& all_in_bounds(cell_lists(regions@)[r], h, w)
                &&& grows_connected(cell_lists(regions@)[r])
            } by {
                assert(cell_lists(regions@)[r] == seq![seeds@[r]]);
            }
        }
        lemma_growth_start(queue@, seeds@);
        if distinct {
            assert forall|p: int, j: int| 0 <= p < j < queue@.len() implies (#[trigger] queue@[p]).1 != (
            #[trigger] queue@[j]).1 by {
                assert(queue@[p] == (p as usize, seeds@[p]) && queue@[j] == (j as usize, seeds@[j]));
            }
        }
    }
    let ghost mut dep: Seq<int> = Seq::new(seeds@.len(), |p: int| 0int);
    let mut head: usize = 0;
    while head < queue.len()
        invariant
            head <= queue@.len(),
            h == maze_h,
            w == maze_w,
            distinct == (goals <= maze_w * maze_h),
            regions@.len() == goals,
            seeds@.len() == goals,
            goals > 0,
            grid_shape(claimed@, h, w),
            all_in_bounds(cells@, h, w),
            cells@.len() == maze_h * maze_w,
            forall|c: Cell| in_bounds(c, h, w) ==> #[trigger] cells@.contains(c),
            maze_w < 0x4000_0000,
            maze_h < 0x4000_0000,
            forall|r: int| 0 <= r < goals ==> #[trigger] cell_lists(regions@)[r][0] == seeds@[r],
            well_formed_regions(cell_lists(regions@), h, w),
            forall|c: Cell| in_bounds(c, h, w) ==> #[trigger] label(claimed@, c) <= goals,
            forall|c: Cell|
                #![trigger label(claimed@, c)]
                in_bounds(c, h, w) && label(claimed@, c) != 0 ==> cell_lists(regions@)[label(claimed@, c) - 1].contains(c),
            forall|r: int, c: Cell|
                0 <= r < goals && #[trigger] cell_lists(regions@)[r].contains(c) ==> in_bounds(c, h, w)
                    && label(claimed@, c) != 0,
            distinct ==> forall|r: int, c: Cell|
                0 <= r < goals && #[trigger] cell_lists(regions@)[r].contains(c) ==> label(claimed@, c) == r + 1,
            forall|p: int|
                0 <= p < queue@.len() ==> (#[trigger] queue@[p]).0 < goals && in_bounds(queue@[p].1, h, w)
                    && cell_lists(regions@)[queue@[p].0 as int].contains(queue@[p].1),
            forall|c: Cell|
                in_bounds(c, h, w) && label(claimed@, c) != 0 ==> exists|p: int|
                    0 <= p < queue@.len() && (#[trigger] queue@[p]).1 == c,
            forall|p: int, n: Cell|
                0 <= p < head && in_bounds(n, h, w) && adjacent((#[trigger] queue@[p]).1, n) ==> #[trigger] label(claimed@, n) != 0,
            queue@.len() == goals + pushed.len(),
            pushed.no_duplicates(),
            forall|t: int| 0 <= t < pushed.len() ==> in_bounds(#[trigger] pushed[t], h, w) && label(claimed@, pushed[t]) != 0,
            growth_layers(queue@, dep, head as int, seeds@),
            distinct ==> queue_cells_distinct(queue@),
        decreases 2 * (goals + maze_h * maze_w) - queue@.len() - head,
    {
        proof {
            assert forall|t: int| 0 <= t < pushed.len() implies cells@.contains(#[trigger] pushed[t]) by {}
            lemma_distinct_within(pushed, cells@);
        }
        let (ri, cell) = queue[head];
        assert(coord_ok(cell));
        let ns = neighbors(cell, maze_h, maze_w);
        proof {
            lemma_neighbors(cell, h, w);
        }
        let ghost len0 = queue@.len();
        let mut j: usize = 0;
        while j < ns.len()
            invariant
                j <= ns@.len(),
                queue@.len() >= len0,
                ns@ == crate::grid::spec_neighbors(cell, h, w),
                forall|t: int|
                    0 <= t < ns@.len() ==> in_bounds(#[trigger] ns@[t], h, w) && adjacent(cell, ns@[t]),
                forall|n: Cell| adjacent(cell, n) && in_bounds(n, h, w) ==> #[trigger] ns@.contains(n),
                forall|t: int| 0 <= t < j ==> #[trigger] label(claimed@, ns@[t]) != 0,
                head < queue@.len(),
                h == maze_h,
                w == maze_w,
                maze_w < 0x4000_0000,
                maze_h < 0x4000_0000,
                distinct == (goals <= maze_w * maze_h),
                queue@[head as int] == (ri, cell),
                ri < goals,
                in_bounds(cell, h, w),
                cell_lists(regions@)[ri as int].contains(cell),
                regions@.len() == goals,
                seeds@.len() == goals,
                goals > 0,
                grid_shape(claimed@, h, w),
                all_in_bounds(cells@, h, w),
                cells@.len() == maze_h * maze_w,
                forall|c: Cell| in_bounds(c, h, w) ==> #[trigger] cells@.contains(c),
                forall|r: int| 0 <= r < goals ==> #[trigger] cell_lists(regions@)[r][0] == seeds@[r],
                well_formed_regions(cell_lists(regions@), h, w),
                forall|c: Cell| in_bounds(c, h, w) ==> #[trigger] label(claimed@, c) <= goals,
                forall|c: Cell|
                    #![trigger label(claimed@, c)]
                    in_bounds(c, h, w) && label(claimed@, c) != 0 ==> cell_lists(regions@)[label(claimed@, c) - 1].contains(c),
                forall|r: int, c: Cell|
                    0 <= r < goals && #[trigger] cell_lists(regions@)[r].contains(c) ==> in_bounds(c, h, w)
                        && label(claimed@, c) != 0,
                distinct ==> forall|r: int, c: Cell|
                    0 <= r < goals && #[trigger] cell_lists(regions@)[r].contains(c) ==> label(claimed@, c) == r + 1,
                forall|p: int|
                    0 <= p < queue@.len() ==> (#[trigger] queue@[p]).0 < goals && in_bounds(queue@[p].1, h, w)
                        && cell_lists(regions@)[queue@[p].0 as int].contains(queue@[p].1),
                forall|c: Cell|
                    in_bounds(c, h, w) && label(claimed@, c) != 0 ==> exists|p: int|
                        0 <= p < queue@.len() && (#[trigger] queue@[p]).1 == c,
                forall|p: int, n: Cell|
                    0 <= p < head && in_bounds(n, h, w) && adjacent((#[trigger] queue@[p]).1, n) ==> #[trigger] label(claimed@, n) != 0,
                queue@.len() == goals + pushed.len(),
                pushed.no_duplicates(),
                forall|t: int| 0 <= t < pushed.len() ==> in_bounds(#[trigger] pushed[t], h, w) && label(claimed@, pushed[t]) != 0,
                growth_layers(queue@, dep, head as int, seeds@),
                distinct ==> queue_cells_distinct(queue@),
            decreases ns@.len() - j,
        {
            let n = ns[j];
            if claimed[n.0][n.1] == 0 {
                let ghost old_regions = cell_lists(regions@);
                let ghost old_vecs = regions@;
                let ghost old_claimed = claimed@;
                let ghost old_queue = queue@;
                let ghost old_pushed = pushed;
                let ghost u = choose|u: int| 0 <= u < old_regions[ri as int].len() && old_regions[ri as int][u] == cell;
                regions[ri].push(n);
                claimed[n.0].set(n.1, ri + 1);
                queue.push((ri, n));
                proof {
                    assert(old_queue.len() < queue.len());
                    assert forall|p: int| 0 <= p < head implies !adjacent(#[trigger] old_queue[p].1, n) by {
                        if adjacent(old_queue[p].1, n) {
                            assert(label(old_claimed, n) != 0);
                        }
                    }
                    lemma_growth_push(old_queue, dep, head as int, seeds@, n);
                    assert(queue@ == old_queue.push((old_queue[head as int].0, n)));
                    dep = dep.push(dep[head as int] + 1);
                    if distinct {
                        assert forall|p: int, j: int| 0 <= p < j < queue@.len() implies (#[trigger] queue@[p]).1 != (
                        #[trigger] queue@[j]).1 by {
                            if j == old_queue.len() {
                                assert(queue@[p] == old_queue[p]);
                                assert(old_regions[old_queue[p].0 as int].contains(old_queue[p].1));
                                assert(label(old_claimed, old_queue[p].1) != 0);
                            } else {
                                assert(queue@[p] == old_queue[p] && queue@[j] == old_queue[j]);
                            }
                        }
                    }
                    pushed = pushed.push(n);
                    let nr = old_regions[ri as int].push(n);
                    assert(regions@.len() == old_vecs.len());
                    assert(regions@[ri as int]@ =~= nr);
                    assert forall|r: int| 0 <= r < goals && r != ri implies regions@[r] == old_vecs[r] by {}
                    assert(cell_lists(regions@) =~= old_regions.update(ri as int, nr));
                    assert forall|r: int, c: Cell| 0 <= r < goals && r != ri && #[trigger] old_regions[r].contains(c)
                        implies c != n by {}
                    assert(!old_regions[ri as int].contains(n));
                    // the grown region keeps its shape
                    assert(nr.no_duplicates());
                    assert(grows_connected(nr)) by {
                        assert forall|t: int| 0 < t < nr.len() implies #[trigger] has_earlier_neighbor(nr, t) by {
                            if t == nr.len() - 1 {
                                assert(nr[u] == cell);
                                assert(adjacent(nr[u], nr[t]));
                            } else {
                                assert(has_earlier_neighbor(old_regions[ri as int], t));
                                let v = choose|v: int| 0 <= v < t && adjacent(old_regions[ri as int][v], old_regions[ri as int][t]);
                                assert(nr[v] == old_regions[ri as int][v]);
                            }
                        }
                    }
                    assert(well_formed_regions(cell_lists(regions@), h, w)) by {
                        assert forall|r: int| 0 <= r < cell_lists(regions@).len() implies {
                            &&& #[trigger] cell_lists(regions@)[r].len() > 0
                            &&& cell_lists(regions@)[r].no_duplicates()
                            &&& all_in_bounds(cell_lists(regions@)[r], h, w)
                            &&& grows_connected(cell_lists(regions@)[r])
                        } by {
                            if r == ri {
                                assert(cell_lists(regions@)[r] == nr);
                                assert(old_regions[r].len() > 0);
                            } else {
                                assert(cell_lists(regions@)[r] == old_regions[r]);
                                assert(old_regions[r].len() > 0);
                            }
                        }
                    }
                    assert forall|r: int| 0 <= r < goals implies #[trigger] cell_lists(regions@)[r][0] == seeds@[r] by {
                        assert(old_regions[r].len() > 0);
                        assert(old_regions[r][0] == seeds@[r]);
                        if r == ri {
                            assert(nr[0] == old_regions[r][0]);
                        }
                    }
                    assert forall|c: Cell| c != n && in_bounds(c, h, w) implies #[trigger] label(claimed@, c) == label(old_claimed, c) by {
                        if c.0 == n.0 {
                            assert(claimed@[c.0 as int]@ == old_claimed[c.0 as int]@.update(n.1 as int, (ri + 1) as usize));
                        } else {
                            assert(claimed@[c.0 as int] == old_claimed[c.0 as int]);
                        }
                    }
                    assert(label(claimed@, n) == ri + 1);
                    assert(cell_lists(regions@)[ri as int].contains(cell)) by {
                        assert(nr[u] == cell);
                    }
                    assert forall|c: Cell|
                        #![trigger label(claimed@, c)]
                        in_bounds(c, h, w) && label(claimed@, c) != 0 implies cell_lists(regions@)[label(claimed@, c) - 1].contains(c) by {
                        if c == n {
                            assert(nr[nr.len() - 1] == n);
                        } else {
                            assert(label(claimed@, c) == label(old_claimed, c));
                            let r = label(claimed@, c) - 1;
                            assert(old_regions[r].contains(c));
                            if r == ri {
                                let q = choose|q: int| 0 <= q < old_regions[r].len() && old_regions[r][q] == c;
                                assert(nr[q] == c);
                            }
                        }
                    }
                    assert forall|r: int, c: Cell|
                        0 <= r < goals && #[trigger] cell_lists(regions@)[r].contains(c) implies in_bounds(c, h, w)
                            && label(claimed@, c) != 0 by {
                        if c == n {
                        } else if r == ri {
                            let q = choose|q: int| 0 <= q < nr.len() && nr[q] == c;
                            assert(old_regions[r][q] == c);
                            assert(old_regions[r].contains(c));
                            assert(label(claimed@, c) == label(old_claimed, c));
                        } else {
                            assert(old_regions[r].contains(c));
                            assert(label(claimed@, c) == label(old_claimed, c));
                        }
                    }
                    if distinct {
                        assert forall|r: int, c: Cell|
                            0 <= r < goals && #[trigger] cell_lists(regions@)[r].contains(c) implies label(claimed@, c) == r + 1 by {
                            if c == n {
                                if r != ri {
                                    assert(old_regions[r].contains(c));
                                }
                            } else if r == ri {
                                let q = choose|q: int| 0 <= q < nr.len() && nr[q] == c;
                                assert(old_regions[r][q] == c);
                                assert(old_regions[r].contains(c));
                                assert(label(claimed@, c) == label(old_claimed, c));
                            } else {
                                assert(old_regions[r].contains(c));
                                assert(label(claimed@, c) == label(old_claimed, c));
                            }
                        }
                    }
                    assert forall|p: int|
                        0 <= p < queue@.len() implies (#[trigger] queue@[p]).0 < goals && in_bounds(queue@[p].1, h, w)
                            && cell_lists(regions@)[queue@[p].0 as int].contains(queue@[p].1) by {
                        if p == queue@.len() - 1 {
                            assert(nr[nr.len() - 1] == n);
                        } else {
                            assert(queue@[p] == old_queue[p]);
                            let r = queue@[p].0 as int;
                            let c = queue@[p].1;
                            assert(old_regions[r].contains(c));
                            if r == ri {
                                let q = choose|q: int| 0 <= q < old_regions[r].len() && old_regions[r][q] == c;
                                assert(nr[q] == c);
                            }
                        }
                    }
                    assert forall|c: Cell|
                        in_bounds(c, h, w) && label(claimed@, c) != 0 implies exists|p: int|
                            0 <= p < queue@.len() && (#[trigger] queue@[p]).1 == c by {
                        if c == n {
                            assert(queue@[queue@.len() - 1].1 == c);
                        } else {
                            assert(label(claimed@, c) == label(old_claimed, c));
                            let p = choose|p: int| 0 <= p < old_queue.len() && (#[trigger] old_queue[p]).1 == c;
                            assert(queue@[p] == old_queue[p]);
                        }
                    }
                    assert forall|p: int, m: Cell|
                        0 <= p < head && in_bounds(m, h, w) && adjacent((#[trigger] queue@[p]).1, m) implies #[trigger] label(claimed@, m) != 0 by {
                        assert(queue@[p] == old_queue[p]);
                        if m != n {
                            assert(label(old_claimed, m) != 0);
                        }
                    }
                    assert forall|t: int| 0 <= t < j + 1 implies #[trigger] label(claimed@, ns@[t]) != 0 by {
                        if ns@[t] != n {
                            assert(label(old_claimed, ns@[t]) != 0);
                        }
                    }
                    assert(pushed.no_duplicates()) by {
                        assert forall|t: int| 0 <= t < old_pushed.len() implies old_pushed[t] != n by {
                            assert(label(old_claimed, old_pushed[t]) != 0);
                        }
                        assert forall|a: int, b: int| 0 <= a < b < pushed.len() implies pushed[a] != pushed[b] by {
                            if b == pushed.len() - 1 {
                                assert(pushed[a] == old_pushed[a]);
                            } else {
                                assert(pushed[a] == old_pushed[a] && pushed[b] == old_pushed[b]);
                            }
                        }
                    }
                    assert forall|t: int| 0 <= t < pushed.len() implies in_bounds(#[trigger] pushed[t], h, w)
                        && label(claimed@, pushed[t]) != 0 by {
                        if t < old_pushed.len() {
                            assert(pushed[t] == old_pushed[t]);
                            if pushed[t] != n {
                                assert(label(old_claimed, pushed[t]) != 0);
                            }
                        }
                    }
                }
            }
            j = j + 1;
        }
        proof {
            assert forall|p: int, m: Cell|
                0 <= p < head + 1 && in_bounds(m, h, w) && adjacent((#[trigger] queue@[p]).1, m) implies #[trigger] label(claimed@, m) != 0 by {
                if p == head {
                    assert(ns@.contains(m));
                    let t = choose|t: int| 0 <= t < ns@.len() && ns@[t] == m;
                    assert(label(claimed@, ns@[t]) != 0);
                }
            }
            assert forall|t: int| 0 <= t < pushed.len() implies cells@.contains(#[trigger] pushed[t]) by {}
            lemma_distinct_within(pushed, cells@);
            lemma_growth_advance(queue@, dep, head as int, seeds@);
        }
        head = head + 1;
    }
    proof {
        assert(closed_under_adjacency(claimed@, h, w)) by {
            assert forall|c: Cell, n: Cell|
                in_bounds(c, h, w) && in_bounds(n, h, w) && #[trigger] claimed_at(claimed@, c) && adjacent(c, n)
                    implies #[trigger] claimed_at(claimed@, n) by {
                assert(label(claimed@, c) != 0);
                let p = choose|p: int| 0 <= p < queue@.len() && (#[trigger] queue@[p]).1 == c;
                assert(label(claimed@, n) != 0);
            }
        }
        let s0 = seeds@[0];
        assert(cell_lists(regions@)[0].contains(s0)) by {
            assert(cell_lists(regions@)[0].len() > 0);
            assert(cell_lists(regions@)[0][0] == s0);
        }
        assert(claimed_at(claimed@, s0));
        lemma_flood_covers(claimed@, h, w, s0);
        assert forall|c: Cell|
            in_bounds(c, h, w) implies #[trigger] covered(cell_lists(regions@), c) by {
            assert(claimed_at(claimed@, c));
            assert(label(claimed@, c) != 0);
            let r = label(claimed@, c) - 1;
            assert(cell_lists(regions@)[r].contains(c));
        }
        assert(region_seeds(cell_lists(regions@)) =~= seeds@) by {
            assert forall|r: int| 0 <= r < goals implies region_seeds(cell_lists(regions@))[r] == seeds@[r] by {
                assert(cell_lists(regions@)[r][0] == seeds@[r]);
            }
        }
        assert forall|g: int, c: Cell|
            1 <= g < goals && in_bounds(c, h, w) implies #[trigger] spread_from_earlier(
                region_seeds(cell_lists(regions@)),
                g,
                c,
            ) by {
            assert(cells@.contains(c));
            let k = choose|k: int| 0 <= k < cells@.len() && cells@[k] == c;
            assert(spread_from_earlier(seeds@, g, cells@[k]));
        }
        if distinct {
            assert forall|r: int, c: Cell|
                0 <= r < goals && #[trigger] cell_lists(regions@)[r].contains(c) implies nearest_seed(
                    region_seeds(cell_lists(regions@)),
                    r,
                    c,
                ) by {
                assert(in_bounds(c, h, w) && label(claimed@, c) != 0);
                let p = choose|p: int| 0 <= p < queue@.len() && (#[trigger] queue@[p]).1 == c;
                let r2 = queue@[p].0 as int;
                assert(cell_lists(regions@)[r2].contains(c));
                assert(label(claimed@, c) == r2 + 1);
                assert(forall|x: Cell| in_bounds(x, h, w) ==> exists|j: int| 0 <= j < queue@.len() && (#[trigger] queue@[j]).1 == x) by {
                    assert forall|x: Cell| in_bounds(x, h, w) implies exists|j: int| 0 <= j < queue@.len() && (#[trigger] queue@[j]).1 == x by {
                        assert(covered(cell_lists(regions@), x));
                        assert(claimed_at(claimed@, x));
                        assert(label(claimed@, x) != 0);
                    }
                }
                lemma_growth_nearest(queue@, dep, seeds@, h, w, p);
            }
            assert(pairwise_disjoint(cell_lists(regions@))) by {
                assert forall|k1: int, k2: int, c: Cell|
                    0 <= k1 < cell_lists(regions@).len() && 0 <= k2 < cell_lists(regions@).len() && k1 != k2
                        && #[trigger] cell_lists(regions@)[k1].contains(c) implies !#[trigger] cell_lists(regions@)[k2].contains(c) by {
                    assert(label(claimed@, c) == k1 + 1);
                }
            }
        }
    }
    regions
}

} // verus!
