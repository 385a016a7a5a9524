use vstd::prelude::*;
use crate::grid::{
    Cell, all_coord_ok, coord_ok, contains_cell, lemma_distinct_within, min_sq_dist,
    min_sq_dist_exec,
};
use crate::rng::{random_below, shuffle_cells};

verus! {

/// `r[t]` is the first index, among those not in `r[0..t]`, of a largest value
/// of `d`: `r` is a prefix of the indices of `d` stably sorted by decreasing value.
pub open spec fn ranked_prefix(d: Seq<i64>, r: Seq<usize>) -> bool {
    &&& r.no_duplicates()
    &&& forall|t: int| 0 <= t < r.len() ==> #[trigger] r[t] < d.len()
    &&& forall|t: int, j: int|
        #![trigger r[t], d[j]]
        0 <= t < r.len() && 0 <= j < d.len() && !r.take(t).contains(j as usize) ==> d[j] < d[r[t] as int]
            || (d[j] == d[r[t] as int] && j >= r[t])
}

/// The indices of the `k` largest values of `d` (all of them when `d` is
/// shorter), largest first, earlier index first among equal values: the
/// first `k` positions of a stable sort by decreasing value.
pub fn rank_farthest(d: &Vec<i64>, k: usize) -> (r: Vec<usize>)
    ensures
        r@.len() == if k < d@.len() { k as int } else { d@.len() as int },
        ranked_prefix(d@, r@),
{
    let n = d.len();
    let m: usize = if k < n { k } else { n };
    let mut taken: Vec<bool> = Vec::new();
    let mut i: usize = 0;
    while i < n
        invariant
            i <= n,
            n == d@.len(),
            taken@.len() == i,
            forall|j: int| 0 <= j < i ==> !#[trigger] taken@[j],
        decreases n - i,
    {
        taken.push(false);
        i = i + 1;
    }
    let mut r: Vec<usize> = Vec::new();
    while r.len() < m
        invariant
            m <= n,
            n == d@.len(),
            r@.len() <= m,
            taken@.len() == n,
            forall|j: int| 0 <= j < n ==> #[trigger] taken@[j] == r@.contains(j as usize),
            ranked_prefix(d@, r@),
        decreases m - r@.len(),
    {
        proof {
            if forall|j: int| 0 <= j < n ==> #[trigger] taken@[j] {
                let full = Seq::new(n as nat, |j: int| j as usize);
                assert forall|j: int| 0 <= j < full.len() implies r@.contains(#[trigger] full[j]) by {
                    assert(taken@[j]);
                }
                assert(full.no_duplicates());
                lemma_distinct_within(full, r@);
                assert(false);
            }
        }
        let mut best: usize = n;
        let mut j: usize = 0;
        while j < n
            invariant
                j <= n,
                n == d@.len(),
                taken@.len() == n,
                best == n || (best < j && !taken@[best as int]),
                forall|q: int|
                    0 <= q < j && !#[trigger] taken@[q] ==> best < n && (d@[q] < d@[best as int] || (d@[q]
                        == d@[best as int] && q >= best)),
                (exists|q: int| 0 <= q < n && !#[trigger] taken@[q]) || best == n,
            decreases n - j,
        {
            if !taken[j] {
                if best == n || d[j] > d[best] {
                    best = j;
                }
            }
            j = j + 1;
        }
        assert(best < n) by {
            let q = choose|q: int| 0 <= q < n && !#[trigger] taken@[q];
        }
        let ghost r0 = r@;
        r.push(best);
        taken.set(best, true);
        proof {
            assert(r@.take(r0.len() as int) =~= r0);
            assert(!r0.contains(best));
            assert forall|q: int| 0 <= q < n implies #[trigger] taken@[q] == r@.contains(q as usize) by {
                if q == best {
                    assert(r@[r0.len() as int] == best);
                } else {
                    if r@.contains(q as usize) {
                        let t = choose|t: int| 0 <= t < r@.len() && r@[t] == q as usize;
                        assert(t < r0.len());
                        assert(r0[t] == q as usize);
                    }
                    if r0.contains(q as usize) {
                        let t = choose|t: int| 0 <= t < r0.len() && r0[t] == q as usize;
                        assert(r@[t] == q as usize);
                    }
                }
            }
            assert(ranked_prefix(d@, r@)) by {
                assert forall|a: int, b: int| 0 <= a < b < r@.len() implies r@[a] != r@[b] by {
                    if b == r0.len() {
                        assert(r0.contains(r@[a]));
                    } else {
                        assert(r@[a] == r0[a] && r@[b] == r0[b]);
                    }
                }
                assert forall|t: int, q: int|
                    #![trigger r@[t], d@[q]]
                    0 <= t < r@.len() && 0 <= q < d@.len() && !r@.take(t).contains(q as usize) implies d@[q] < d@[r@[t] as int]
                        || (d@[q] == d@[r@[t] as int] && q >= r@[t]) by {
                    if t < r0.len() {
                        assert(r@.take(t) =~= r0.take(t));
                        assert(r@[t] == r0[t]);
                    } else {
                        assert(r@.take(t) =~= r0);
                        assert(!r0.contains(q as usize));
                        assert(!taken@[q] || q == best);
                    }
                }
            }
        }
    }
    r
}

/// The cells of `region` that do not occur in `exclude`, in order.
pub open spec fn available(region: Seq<Cell>, exclude: Seq<Cell>) -> Seq<Cell> {
    region.filter(|c: Cell| !exclude.contains(c))
}

proof fn lemma_filter_step(region: Seq<Cell>, exclude: Seq<Cell>, i: int)
    requires
        0 <= i < region.len(),
    ensures
        available(region.take(i + 1), exclude) == if !exclude.contains(region[i]) {
            available(region.take(i), exclude).push(region[i])
        } else {
            available(region.take(i), exclude)
        },
{
    reveal(Seq::filter);
    assert(region.take(i + 1).drop_last() =~= region.take(i));
    assert(region.take(i + 1).last() == region[i]);
}

/// The cells of `region` not in `exclude`, and the facts the callers use of them.
fn collect_available(region: &Vec<Cell>, exclude: &Vec<Cell>) -> (a: Vec<Cell>)
    ensures
        a@ == available(region@, exclude@),
        forall|i: int| 0 <= i < a@.len() ==> region@.contains(#[trigger] a@[i]) && !exclude@.contains(a@[i]),
        forall|i: int| 0 <= i < region@.len() && !exclude@.contains(#[trigger] region@[i]) ==> a@.contains(region@[i]),
        region@.no_duplicates() ==> a@.no_duplicates(),
{
    let mut a: Vec<Cell> = Vec::new();
    let mut i: usize = 0;
    proof {
        reveal(Seq::filter);
        assert(region@.take(0) =~= Seq::<Cell>::empty());
    }
    while i < region.len()
        invariant
            i <= region@.len(),
            a@ == available(region@.take(i as int), exclude@),
            forall|j: int| 0 <= j < a@.len() ==> region@.take(i as int).contains(#[trigger] a@[j]) && !exclude@.contains(a@[j]),
            forall|j: int| 0 <= j < i && !exclude@.contains(#[trigger] region@[j]) ==> a@.contains(region@[j]),
            region@.no_duplicates() ==> a@.no_duplicates(),
        decreases region@.len() - i,
    {
        let c = region[i];
        let ghost a0 = a@;
        proof {
            lemma_filter_step(region@, exclude@, i as int);
        }
        if !contains_cell(exclude, c) {
            a.push(c);
        }
        proof {
            let t1 = region@.take(i + 1);
            assert forall|j: int| 0 <= j < a@.len() implies t1.contains(#[trigger] a@[j]) && !exclude@.contains(a@[j]) by {
                if j < a0.len() {
                    assert(a@[j] == a0[j]);
                    let q = choose|q: int| 0 <= q < i && region@.take(i as int)[q] == a0[j];
                    assert(t1[q] == a0[j]);
                } else {
                    assert(t1[i as int] == c);
                }
            }
            assert forall|j: int| 0 <= j < i + 1 && !exclude@.contains(#[trigger] region@[j]) implies a@.contains(region@[j]) by {
                if j == i {
                    assert(a@[a@.len() - 1] == c);
                } else {
                    let q = choose|q: int| 0 <= q < a0.len() && a0[q] == region@[j];
                    assert(a@[q] == region@[j]);
                }
            }
            if region@.no_duplicates() && !exclude@.contains(c) {
                assert forall|x: int, y: int| 0 <= x < y < a@.len() implies a@[x] != a@[y] by {
                    if y == a0.len() {
                        let q = choose|q: int| 0 <= q < i && region@.take(i as int)[q] == a0[x];
                        assert(region@[q] == a0[x]);
                    } else {
                        assert(a@[x] == a0[x] && a@[y] == a0[y]);
                    }
                }
            }
        }
        i = i + 1;
    }
    proof {
        assert(region@.take(region@.len() as int) =~= region@);
    }
    a
}

/// The cells of `pool`, not yet in `chosen`, that lie strictly farther from
/// `chosen` than `c` does (distance to the nearest chosen cell, squared).
pub open spec fn farther_cells(pool: Seq<Cell>, chosen: Seq<Cell>, c: Cell) -> Set<Cell> {
    pool.to_set().filter(
        |x: Cell| !chosen.contains(x) && min_sq_dist(x, chosen) > min_sq_dist(c, chosen),
    )
}

/// Picking the candidate at rank `t` of the farthest-first ranking leaves at
/// most `t` candidates strictly farther away.
proof fn lemma_pick_among_farthest(
    pool: Seq<Cell>,
    chosen: Seq<Cell>,
    cands: Seq<Cell>,
    dists: Seq<i64>,
    ranked: Seq<usize>,
    t: int,
)
    requires
        cands.len() == dists.len() <= usize::MAX,
        forall|s: int| 0 <= s < cands.len() ==> #[trigger] dists[s] == min_sq_dist(cands[s], chosen),
        forall|s: int|
            0 <= s < pool.len() && !chosen.contains(#[trigger] pool[s]) ==> cands.contains(pool[s]),
        ranked_prefix(dists, ranked),
        0 <= t < ranked.len(),
    ensures
        farther_cells(pool, chosen, cands[ranked[t] as int]).len() <= t,
{
    let pick = cands[ranked[t] as int];
    let f = farther_cells(pool, chosen, pick);
    let w = Seq::new(t as nat, |s: int| cands[ranked[s] as int]);
    assert forall|x: Cell| f.contains(x) implies w.to_set().contains(x) by {
        let s0 = choose|s0: int| 0 <= s0 < pool.len() && pool[s0] == x;
        assert(!chosen.contains(pool[s0]));
        let j = choose|j: int| 0 <= j < cands.len() && cands[j] == x;
        let rt = ranked[t] as int;
        assert(dists[j] == min_sq_dist(cands[j], chosen));
        assert(dists[rt] == min_sq_dist(cands[rt], chosen));
        assert(dists[j] > dists[rt]);
        let s = lemma_ranked_before(dists, ranked, t, j);
        assert(w[s] == cands[ranked[s] as int]);
        assert(w.contains(x));
    }
    vstd::set_lib::lemma_len_subset(f, w.to_set());
    w.lemma_cardinality_of_set();
}

/// A value of `d` larger than the one ranked at `t` is ranked before `t`.
proof fn lemma_ranked_before(d: Seq<i64>, r: Seq<usize>, t: int, j: int) -> (s: int)
    requires
        ranked_prefix(d, r),
        0 <= t < r.len(),
        0 <= j < d.len() <= usize::MAX,
        d[j] > d[r[t] as int],
    ensures
        0 <= s < t,
        r[s] as int == j,
{
    if !r.take(t).contains(j as usize) {
        assert(d[j] < d[r[t] as int] || (d[j] == d[r[t] as int] && j >= r[t]));
    }
    let s = choose|s: int| 0 <= s < t && r.take(t)[s] == j as usize;
    assert(r[s] == r.take(t)[s]);
    s
}

/// Copies a list of cells.
fn copy_cells(v: &Vec<Cell>) -> (r: Vec<Cell>)
    ensures
        r@ == v@,
{
    let mut r: Vec<Cell> = Vec::new();
    let mut i: usize = 0;
    while i < v.len()
        invariant
            i <= v@.len(),
            r@ == v@.take(i as int),
        decreases v@.len() - i,
    {
        r.push(v[i]);
        proof {
            assert(v@.take(i + 1) =~= v@.take(i as int).push(v@[i as int]));
        }
        i = i + 1;
    }
    proof {
        assert(v@.take(v@.len() as int) =~= v@);
    }
    r
}

/// Picks up to `count` checkpoint cells of `region`, avoiding `exclude`.
/// With nothing left after the exclusion it falls back to a random selection
/// from the whole region; with no more cells left than asked for it returns
/// them all in random order; otherwise it spreads the picks: a random first
/// cell, then each next one drawn at random among the five cells farthest from
/// those already chosen.
pub fn pick_checkpoints_in_region(
    rng: &mut rand::rngs::StdRng,
    region: &Vec<Cell>,
    count: usize,
    exclude: &Vec<Cell>,
) -> (cps: Vec<Cell>)
    requires
        all_coord_ok(region@),
    ensures
        forall|i: int| 0 <= i < cps@.len() ==> region@.contains(#[trigger] cps@[i]),
        region@.no_duplicates() ==> cps@.no_duplicates(),
        available(region@, exclude@).len() == 0 ==> cps@.len() == if count < region@.len() {
            count as int
        } else {
            region@.len() as int
        },
        available(region@, exclude@).len() > 0 ==> forall|i: int|
            0 <= i < cps@.len() ==> !exclude@.contains(#[trigger] cps@[i]),
        0 < available(region@, exclude@).len() <= count ==> cps@.to_multiset() == available(
            region@,
            exclude@,
        ).to_multiset(),
        available(region@, exclude@).len() > count ==> cps@.len() <= (if count == 0 { 1 } else { count })
            && cps@.no_duplicates(),
        available(region@, exclude@).len() > count && region@.no_duplicates() ==> cps@.len() == (if count
            == 0 {
            1
        } else {
            count
        }),
        available(region@, exclude@).len() > count ==> forall|k: int|
            1 <= k < cps@.len() ==> (#[trigger] farther_cells(
                available(region@, exclude@),
                cps@.take(k),
                cps@[k],
            )).len() < 5,
{
    let avail = collect_available(region, exclude);
    if avail.len() == 0 {
        let mut fallback = copy_cells(region);
        let ghost f0 = fallback@;
        shuffle_cells(rng, &mut fallback);
        let ghost f1 = fallback@;
        fallback.truncate(count);
        proof {
            assert forall|i: int| 0 <= i < fallback@.len() implies region@.contains(#[trigger] fallback@[i]) by {
                vstd::seq_lib::to_multiset_contains(f1, f1[i]);
                vstd::seq_lib::to_multiset_contains(f0, f1[i]);
                assert(f1.contains(f1[i]));
                assert(f0.contains(f1[i]));
            }
            if region@.no_duplicates() {
                lemma_permutation_keeps_distinct(f0, f1);
            }
        }
        return fallback;
    }
    if avail.len() <= count {
        let mut cps = copy_cells(&avail);
        let ghost f0 = cps@;
        shuffle_cells(rng, &mut cps);
        let ghost f1 = cps@;
        cps.truncate(count);
        proof {
            assert(cps@ =~= f1);
            assert forall|i: int| 0 <= i < cps@.len() implies region@.contains(#[trigger] cps@[i]) && !exclude@.contains(cps@[i]) by {
                vstd::seq_lib::to_multiset_contains(f1, f1[i]);
                vstd::seq_lib::to_multiset_contains(f0, f1[i]);
                assert(f1.contains(f1[i]));
                assert(f0.contains(f1[i]));
            }
            if region@.no_duplicates() {
                lemma_permutation_keeps_distinct(f0, f1);
            }
        }
        return cps;
    }
    let mut chosen: Vec<Cell> = Vec::new();
    chosen.push(avail[random_below(rng, avail.len())]);
    while chosen.len() < count
        invariant
            chosen@.len() >= 1,
            chosen@.no_duplicates(),
            avail@.len() > count,
            forall|i: int| 0 <= i < chosen@.len() ==> avail@.contains(#[trigger] chosen@[i]),
            forall|i: int| 0 <= i < avail@.len() ==> region@.contains(#[trigger] avail@[i]) && !exclude@.contains(avail@[i]),
            region@.no_duplicates() ==> avail@.no_duplicates(),
            all_coord_ok(region@),
            chosen@.len() <= (if count == 0 { 1 } else { count }),
            forall|k: int|
                1 <= k < chosen@.len() ==> (#[trigger] farther_cells(avail@, chosen@.take(k), chosen@[k])).len()
                    < 5,
        ensures
            region@.no_duplicates() ==> chosen@.len() == (if count == 0 { 1 } else { count }),
            chosen@.len() <= (if count == 0 { 1 } else { count }),
            chosen@.no_duplicates(),
            forall|i: int| 0 <= i < chosen@.len() ==> avail@.contains(#[trigger] chosen@[i]),
            forall|k: int|
                1 <= k < chosen@.len() ==> (#[trigger] farther_cells(avail@, chosen@.take(k), chosen@[k])).len()
                    < 5,
        decreases avail@.len() - chosen@.len(),
    {
        proof {
            lemma_distinct_within(chosen@, avail@);
        }
        let mut cands: Vec<Cell> = Vec::new();
        let mut dists: Vec<i64> = Vec::new();
        let mut i: usize = 0;
        while i < avail.len()
            invariant
                i <= avail@.len(),
                cands@.len() == dists@.len(),
                forall|t: int| 0 <= t < cands@.len() ==> #[trigger] dists@[t] == min_sq_dist(cands@[t], chosen@),
                forall|t: int| 0 <= t < cands@.len() ==> avail@.contains(#[trigger] cands@[t]) && !chosen@.contains(cands@[t]),
                forall|t: int| 0 <= t < i && !chosen@.contains(#[trigger] avail@[t]) ==> cands@.contains(avail@[t]),
                forall|t: int| 0 <= t < avail@.len() ==> region@.contains(#[trigger] avail@[t]) && !exclude@.contains(avail@[t]),
                forall|t: int| 0 <= t < chosen@.len() ==> avail@.contains(#[trigger] chosen@[t]),
                all_coord_ok(region@),
            decreases avail@.len() - i,
        {
            let c = avail[i];
            let ghost c0 = cands@;
            let ghost d0 = dists@;
            if !contains_cell(&chosen, c) {
                proof {
                    assert(region@.contains(c));
                    let q = choose|q: int| 0 <= q < region@.len() && region@[q] == c;
                    assert(coord_ok(region@[q]));
                    assert forall|t: int| 0 <= t < chosen@.len() implies coord_ok(#[trigger] chosen@[t]) by {
                        assert(avail@.contains(chosen@[t]));
                        let a = choose|a: int| 0 <= a < avail@.len() && avail@[a] == chosen@[t];
                        assert(region@.contains(avail@[a]));
                        let b = choose|b: int| 0 <= b < region@.len() && region@[b] == chosen@[t];
                        assert(coord_ok(region@[b]));
                    }
                }
                let md = min_sq_dist_exec(c, &chosen);
                cands.push(c);
                dists.push(md);
            }
            proof {
                assert forall|t: int| 0 <= t < cands@.len() implies avail@.contains(#[trigger] cands@[t]) && !chosen@.contains(cands@[t]) by {
                    if t < c0.len() {
                        assert(cands@[t] == c0[t]);
                    } else {
                        assert(avail@[i as int] == c);
                    }
                }
                assert forall|t: int| 0 <= t < cands@.len() implies #[trigger] dists@[t] == min_sq_dist(cands@[t], chosen@) by {
                    if t < c0.len() {
                        assert(cands@[t] == c0[t] && dists@[t] == d0[t]);
                    }
                }
                assert forall|t: int| 0 <= t < i + 1 && !chosen@.contains(#[trigger] avail@[t]) implies cands@.contains(avail@[t]) by {
                    if t == i {
                        assert(cands@[cands@.len() - 1] == c);
                    } else {
                        let q = choose|q: int| 0 <= q < c0.len() && c0[q] == avail@[t];
                        assert(cands@[q] == avail@[t]);
                    }
                }
            }
            i = i + 1;
        }
        if cands.len() == 0 {
            proof {
                if region@.no_duplicates() {
                    assert forall|t: int| 0 <= t < avail@.len() implies chosen@.contains(#[trigger] avail@[t]) by {
                        if !chosen@.contains(avail@[t]) {
                            assert(cands@.contains(avail@[t]));
                        }
                    }
                    lemma_distinct_within(avail@, chosen@);
                }
            }
            break;
        }
        let top_n: usize = if cands.len() < 5 { cands.len() } else { 5 };
        let ranked = rank_farthest(&dists, top_n);
        let rank = random_below(rng, top_n);
        let pick = cands[ranked[rank]];
        let ghost ch0 = chosen@;
        proof {
            lemma_pick_among_farthest(avail@, ch0, cands@, dists@, ranked@, rank as int);
        }
        chosen.push(pick);
        proof {
            assert forall|k: int| 1 <= k < chosen@.len() implies (#[trigger] farther_cells(
                avail@,
                chosen@.take(k),
                chosen@[k],
            )).len() < 5 by {
                if k < ch0.len() {
                    assert(chosen@.take(k) =~= ch0.take(k));
                    assert(chosen@[k] == ch0[k]);
                } else {
                    assert(chosen@.take(k) =~= ch0);
                }
            }
            assert forall|a: int, b: int| 0 <= a < b < chosen@.len() implies chosen@[a] != chosen@[b] by {
                if b == ch0.len() {
                    assert(ch0.contains(chosen@[a]));
                } else {
                    assert(chosen@[a] == ch0[a] && chosen@[b] == ch0[b]);
                }
            }
            assert forall|t: int| 0 <= t < chosen@.len() implies avail@.contains(#[trigger] chosen@[t]) by {
                if t < ch0.len() {
                    assert(chosen@[t] == ch0[t]);
                }
            }
        }
    }
    proof {
        assert forall|i: int| 0 <= i < chosen@.len() implies region@.contains(#[trigger] chosen@[i]) && !exclude@.contains(chosen@[i]) by {
            let a = choose|a: int| 0 <= a < avail@.len() && avail@[a] == chosen@[i];
            assert(region@.contains(avail@[a]));
        }
        if region@.no_duplicates() {
            lemma_distinct_within(chosen@, avail@);
        }
    }
    chosen
}

/// A reordering of a duplicate-free sequence is duplicate-free.
proof fn lemma_permutation_keeps_distinct(a: Seq<Cell>, b: Seq<Cell>)
    requires
        a.no_duplicates(),
        a.to_multiset() == b.to_multiset(),
        a.len() == b.len(),
    ensures
        b.no_duplicates(),
{
    a.lemma_multiset_has_no_duplicates();
    b.lemma_multiset_has_no_duplicates_conv();
}

} // verus!
