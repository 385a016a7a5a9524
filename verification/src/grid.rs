use vstd::prelude::*;

verus! {

/// A cell as (row, column), either of the coarse maze lattice or of the fine grid.
pub type Cell = (usize, usize);

/// Coordinates small enough that the signed 32-bit neighbour arithmetic of the
/// generator and the 64-bit squared distances cannot overflow.
pub open spec fn coord_ok(c: Cell) -> bool {
    c.0 < 0x7fff_ffff && c.1 < 0x7fff_ffff
}

/// Every cell of `s` has small coordinates.
pub open spec fn all_coord_ok(s: Seq<Cell>) -> bool {
    forall|i: int| 0 <= i < s.len() ==> coord_ok(#[trigger] s[i])
}

/// `c` lies inside an `h` by `w` lattice.
pub open spec fn in_bounds(c: Cell, h: int, w: int) -> bool {
    c.0 < h && c.1 < w
}

/// Every cell of `s` lies inside an `h` by `w` lattice.
pub open spec fn all_in_bounds(s: Seq<Cell>, h: int, w: int) -> bool {
    forall|i: int| 0 <= i < s.len() ==> in_bounds(#[trigger] s[i], h, w)
}

/// `a` and `b` are 4-neighbours.
pub open spec fn adjacent(a: Cell, b: Cell) -> bool {
    ||| a.0 == b.0 && (a.1 + 1 == b.1 || b.1 + 1 == a.1)
    ||| a.1 == b.1 && (a.0 + 1 == b.0 || b.0 + 1 == a.0)
}

/// Lexicographic strict order on cells, the order of Rust tuples.
pub open spec fn cell_lt(a: Cell, b: Cell) -> bool {
    a.0 < b.0 || (a.0 == b.0 && a.1 < b.1)
}

/// Maps a maze cell to the fine-grid cell that represents it: `(2*mi+1, 2*mj+1)`.
pub fn maze_to_grid(mi: usize, mj: usize) -> (g: (usize, usize))
    requires
        2 * mi + 1 <= usize::MAX,
        2 * mj + 1 <= usize::MAX,
    ensures
        g.0 == 2 * mi + 1,
        g.1 == 2 * mj + 1,
{
    (2 * mi + 1, 2 * mj + 1)
}

/// Maps a fine-grid cell back to the maze cell it lies in: `((y-1)/2, (x-1)/2)`.
pub fn grid_to_maze(y: usize, x: usize) -> (m: (usize, usize))
    requires
        y >= 1,
        x >= 1,
    ensures
        m.0 == (y - 1) / 2,
        m.1 == (x - 1) / 2,
{
    ((y - 1) / 2, (x - 1) / 2)
}

/// Going from the maze lattice to the grid and back gives the same maze cell.
pub proof fn lemma_grid_round_trip(mi: usize, mj: usize)
    requires
        2 * mi + 1 <= usize::MAX,
        2 * mj + 1 <= usize::MAX,
    ensures
        ((2 * mi + 1 - 1) / 2) as usize == mi,
        ((2 * mj + 1 - 1) / 2) as usize == mj,
{
}

/// The in-lattice 4-neighbours of `c`, in the order right, left, down, up.
pub open spec fn spec_neighbors(c: Cell, h: int, w: int) -> Seq<Cell> {
    let right: Seq<Cell> = if c.0 < h && c.1 + 1 < w {
        seq![(c.0, (c.1 + 1) as usize)]
    } else {
        Seq::empty()
    };
    let left: Seq<Cell> = if c.1 >= 1 && c.0 < h && c.1 - 1 < w {
        seq![(c.0, (c.1 - 1) as usize)]
    } else {
        Seq::empty()
    };
    let down: Seq<Cell> = if c.0 + 1 < h && c.1 < w {
        seq![((c.0 + 1) as usize, c.1)]
    } else {
        Seq::empty()
    };
    let up: Seq<Cell> = if c.0 >= 1 && c.0 - 1 < h && c.1 < w {
        seq![((c.0 - 1) as usize, c.1)]
    } else {
        Seq::empty()
    };
    right + left + down + up
}

/// Each listed neighbour is in the lattice and 4-adjacent to `c`, and every
/// in-lattice 4-neighbour of `c` is listed.
pub proof fn lemma_neighbors(c: Cell, h: int, w: int)
    requires
        h <= usize::MAX,
        w <= usize::MAX,
    ensures
        forall|i: int|
            0 <= i < spec_neighbors(c, h, w).len() ==> in_bounds(
                #[trigger] spec_neighbors(c, h, w)[i],
                h,
                w,
            ) && adjacent(c, spec_neighbors(c, h, w)[i]),
        forall|n: Cell|
            adjacent(c, n) && in_bounds(n, h, w) ==> #[trigger] spec_neighbors(c, h, w).contains(n),
        spec_neighbors(c, h, w).len() <= 4,
{
    let ns = spec_neighbors(c, h, w);
    assert forall|i: int| 0 <= i < ns.len() implies in_bounds(#[trigger] ns[i], h, w) && adjacent(
        c,
        ns[i],
    ) by {
        let right: Seq<Cell> = if c.0 < h && c.1 + 1 < w {
            seq![(c.0, (c.1 + 1) as usize)]
        } else {
            Seq::empty()
        };
        let left: Seq<Cell> = if c.1 >= 1 && c.0 < h && c.1 - 1 < w {
            seq![(c.0, (c.1 - 1) as usize)]
        } else {
            Seq::empty()
        };
        let down: Seq<Cell> = if c.0 + 1 < h && c.1 < w {
            seq![((c.0 + 1) as usize, c.1)]
        } else {
            Seq::empty()
        };
        let up: Seq<Cell> = if c.0 >= 1 && c.0 - 1 < h && c.1 < w {
            seq![((c.0 - 1) as usize, c.1)]
        } else {
            Seq::empty()
        };
        let a = right + left;
        let b = a + down;
        assert(ns == b + up);
        if i < a.len() {
            if i < right.len() {
            } else {
                assert(a[i] == left[i - right.len()]);
            }
            assert(ns[i] == a[i]);
        } else if i < b.len() {
            assert(ns[i] == down[i - a.len()]);
        } else {
            assert(ns[i] == up[i - b.len()]);
        }
    }
    assert forall|n: Cell| adjacent(c, n) && in_bounds(n, h, w) implies #[trigger] ns.contains(
        n,
    ) by {
        if n.0 == c.0 && n.1 == c.1 + 1 {
            assert(ns[0] == n);
        } else if n.0 == c.0 && n.1 + 1 == c.1 {
            let k: int = if c.0 < h && c.1 + 1 < w { 1 } else { 0 };
            assert(ns[k] == n);
        } else if n.1 == c.1 && n.0 == c.0 + 1 {
            let k: int = (if c.0 < h && c.1 + 1 < w { 1int } else { 0int }) + (if c.1 >= 1 && c.0
                < h && c.1 - 1 < w {
                1int
            } else {
                0int
            });
            assert(ns[k] == n);
        } else {
            let k: int = ns.len() - 1;
            assert(ns[k] == n);
        }
    }
}

/// The in-lattice 4-neighbours of `c`, in the order right, left, down, up.
pub fn neighbors(c: Cell, h: usize, w: usize) -> (r: Vec<Cell>)
    requires
        coord_ok(c),
    ensures
        r@ == spec_neighbors(c, h as int, w as int),
{
    let mut r: Vec<Cell> = Vec::new();
    if c.0 < h && c.1 + 1 < w {
        r.push((c.0, c.1 + 1));
    }
    if c.1 >= 1 && c.0 < h && c.1 - 1 < w {
        r.push((c.0, c.1 - 1));
    }
    if c.0 + 1 < h && c.1 < w {
        r.push((c.0 + 1, c.1));
    }
    if c.0 >= 1 && c.0 - 1 < h && c.1 < w {
        r.push((c.0 - 1, c.1));
    }
    assert(r@ =~= spec_neighbors(c, h as int, w as int));
    r
}

/// Squared Euclidean distance between two cells.
pub open spec fn sq_dist(a: Cell, b: Cell) -> int {
    (a.0 - b.0) * (a.0 - b.0) + (a.1 - b.1) * (a.1 - b.1)
}

/// The squared distance is never negative, and it is zero exactly for equal cells.
pub proof fn lemma_sq_dist(a: Cell, b: Cell)
    ensures
        sq_dist(a, b) >= 0,
        sq_dist(a, b) == 0 <==> a == b,
        sq_dist(a, b) == sq_dist(b, a),
{
    let dy: int = a.0 - b.0;
    let dx: int = a.1 - b.1;
    assert(dy * dy >= 0) by (nonlinear_arith);
    assert(dx * dx >= 0) by (nonlinear_arith);
    assert(dy * dy == 0 ==> dy == 0) by (nonlinear_arith);
    assert(dx * dx == 0 ==> dx == 0) by (nonlinear_arith);
    assert((-dy) * (-dy) == dy * dy) by (nonlinear_arith);
    assert((-dx) * (-dx) == dx * dx) by (nonlinear_arith);
    assert(b.0 - a.0 == -dy);
    assert(b.1 - a.1 == -dx);
    if sq_dist(a, b) == 0 {
        assert(dy == 0 && dx == 0);
    }
}

/// Squared Euclidean distance, computed in 64-bit signed arithmetic.
pub fn sq_dist_exec(a: Cell, b: Cell) -> (d: i64)
    requires
        coord_ok(a),
        coord_ok(b),
    ensures
        d == sq_dist(a, b),
{
    let dy: i64 = a.0 as i64 - b.0 as i64;
    let dx: i64 = a.1 as i64 - b.1 as i64;
    assert(dy * dy < 0x4000_0000_0000_0000) by (nonlinear_arith)
        requires
            -0x7fff_ffff < dy < 0x7fff_ffff,
    ;
    assert(dx * dx < 0x4000_0000_0000_0000) by (nonlinear_arith)
        requires
            -0x7fff_ffff < dx < 0x7fff_ffff,
    ;
    assert(dy * dy >= 0) by (nonlinear_arith);
    assert(dx * dx >= 0) by (nonlinear_arith);
    dy * dy + dx * dx
}

/// The smallest squared distance from `c` to a cell of `s`, or 0 when `s` is empty.
pub open spec fn min_sq_dist(c: Cell, s: Seq<Cell>) -> int
    decreases s.len(),
{
    if s.len() == 0 {
        0
    } else if s.len() == 1 {
        sq_dist(c, s[0])
    } else {
        let m = min_sq_dist(c, s.drop_last());
        let d = sq_dist(c, s.last());
        if d < m {
            d
        } else {
            m
        }
    }
}

/// The minimum is at most the distance to every cell of `s`, is attained by
/// some cell of `s`, is zero exactly when `c` occurs in `s`, and is never negative.
pub proof fn lemma_min_sq_dist(c: Cell, s: Seq<Cell>)
    ensures
        forall|i: int| 0 <= i < s.len() ==> min_sq_dist(c, s) <= sq_dist(c, #[trigger] s[i]),
        s.len() > 0 ==> exists|i: int| 0 <= i < s.len() && min_sq_dist(c, s) == sq_dist(c, s[i]),
        min_sq_dist(c, s) >= 0,
        s.len() > 0 ==> (min_sq_dist(c, s) == 0 <==> s.contains(c)),
    decreases s.len(),
{
    if s.len() == 0 {
    } else if s.len() == 1 {
        lemma_sq_dist(c, s[0]);
        if s.contains(c) {
            assert(s[0] == c);
        }
    } else {
        let t = s.drop_last();
        lemma_min_sq_dist(c, t);
        lemma_sq_dist(c, s.last());
        assert forall|i: int| 0 <= i < s.len() implies min_sq_dist(c, s) <= sq_dist(
            c,
            #[trigger] s[i],
        ) by {
            if i < s.len() - 1 {
                assert(s[i] == t[i]);
            }
        }
        if sq_dist(c, s.last()) < min_sq_dist(c, t) {
            assert(min_sq_dist(c, s) == sq_dist(c, s[s.len() - 1]));
        } else {
            let j = choose|j: int| 0 <= j < t.len() && min_sq_dist(c, t) == sq_dist(c, t[j]);
            assert(s[j] == t[j]);
        }
        if s.contains(c) {
            let k = choose|k: int| 0 <= k < s.len() && s[k] == c;
            lemma_sq_dist(c, s[k]);
        }
        if min_sq_dist(c, s) == 0 {
            let j = choose|j: int| 0 <= j < s.len() && min_sq_dist(c, s) == sq_dist(c, s[j]);
            lemma_sq_dist(c, s[j]);
            assert(s[j] == c);
        }
    }
}

/// The smallest squared distance from `c` to a cell of `s`, or 0 when `s` is empty.
pub fn min_sq_dist_exec(c: Cell, s: &Vec<Cell>) -> (d: i64)
    requires
        coord_ok(c),
        all_coord_ok(s@),
    ensures
        d == min_sq_dist(c, s@),
{
    if s.len() == 0 {
        return 0;
    }
    let mut m: i64 = sq_dist_exec(c, s[0]);
    let mut i: usize = 1;
    while i < s.len()
        invariant
            1 <= i <= s.len(),
            coord_ok(c),
            all_coord_ok(s@),
            m == min_sq_dist(c, s@.take(i as int)),
        decreases s.len() - i,
    {
        let d = sq_dist_exec(c, s[i]);
        assert(s@.take(i as int + 1).drop_last() =~= s@.take(i as int));
        if d < m {
            m = d;
        }
        i = i + 1;
    }
    assert(s@.take(s.len() as int) =~= s@);
    m
}

/// Whether `c` occurs in `s`.
pub fn contains_cell(s: &Vec<Cell>, c: Cell) -> (b: bool)
    ensures
        b == s@.contains(c),
{
    let mut i: usize = 0;
    while i < s.len()
        invariant
            i <= s.len(),
            forall|j: int| 0 <= j < i ==> s@[j] != c,
        decreases s.len() - i,
    {
        if s[i].0 == c.0 && s[i].1 == c.1 {
            return true;
        }
        i = i + 1;
    }
    false
}

/// A duplicate-free sequence whose items all occur in `r` is no longer than `r`.
pub proof fn lemma_distinct_within<A>(s: Seq<A>, r: Seq<A>)
    requires
        s.no_duplicates(),
        forall|i: int| 0 <= i < s.len() ==> r.contains(#[trigger] s[i]),
    ensures
        s.len() <= r.len(),
{
    s.unique_seq_to_set();
    r.lemma_cardinality_of_set();
    assert(s.to_set().subset_of(r.to_set())) by {
        assert forall|x: A| s.to_set().contains(x) implies r.to_set().contains(x) by {
            let i = choose|i: int| 0 <= i < s.len() && s[i] == x;
            assert(r.contains(s[i]));
        }
    }
    vstd::set_lib::lemma_len_subset(s.to_set(), r.to_set());
}

} // verus!

verus! {

/// The value of a grid of flags at cell `c`.
pub open spec fn flag(g: Seq<Vec<bool>>, c: Cell) -> bool {
    g[c.0 as int]@[c.1 as int]
}

/// `g` has `h` rows of `w` entries each.
pub open spec fn bool_grid_shape(g: Seq<Vec<bool>>, h: int, w: int) -> bool {
    &&& g.len() == h
    &&& forall|i: int| 0 <= i < h ==> #[trigger] g[i]@.len() == w
}

/// An `h` by `w` grid of flags, all false.
pub fn false_grid(h: usize, w: usize) -> (g: Vec<Vec<bool>>)
    ensures
        bool_grid_shape(g@, h as int, w as int),
        forall|c: Cell| in_bounds(c, h as int, w as int) ==> !#[trigger] flag(g@, c),
{
    let mut g: Vec<Vec<bool>> = Vec::new();
    let mut i: usize = 0;
    while i < h
        invariant
            i <= h,
            g@.len() == i,
            forall|r: int| 0 <= r < i ==> #[trigger] g@[r]@.len() == w,
            forall|r: int, c: int| 0 <= r < i && 0 <= c < w ==> !#[trigger] g@[r]@[c],
        decreases h - i,
    {
        let mut row: Vec<bool> = Vec::new();
        let mut j: usize = 0;
        while j < w
            invariant
                j <= w,
                row@.len() == j,
                forall|c: int| 0 <= c < j ==> !#[trigger] row@[c],
            decreases w - j,
        {
            row.push(false);
            j = j + 1;
        }
        g.push(row);
        i = i + 1;
    }
    g
}

/// Sets the flag of the in-grid cell `c`, leaving every other flag as it was.
pub fn set_flag(g: &mut Vec<Vec<bool>>, c: Cell, v: bool)
    requires
        c.0 < old(g)@.len(),
        c.1 < old(g)@[c.0 as int]@.len(),
    ensures
        final(g)@.len() == old(g)@.len(),
        forall|i: int| 0 <= i < final(g)@.len() ==> #[trigger] final(g)@[i]@.len() == old(g)@[i]@.len(),
        flag(final(g)@, c) == v,
        forall|d: Cell|
            d != c && d.0 < old(g)@.len() && d.1 < old(g)@[d.0 as int]@.len() ==> #[trigger] flag(final(g)@, d)
                == flag(old(g)@, d),
{
    let ghost g0 = g@;
    g[c.0].set(c.1, v);
    assert forall|d: Cell|
        d != c && d.0 < g0.len() && d.1 < g0[d.0 as int]@.len() implies #[trigger] flag(g@, d) == flag(g0, d) by {
        if d.0 == c.0 {
            assert(g@[d.0 as int]@ == g0[d.0 as int]@.update(c.1 as int, v));
        } else {
            assert(g@[d.0 as int] == g0[d.0 as int]);
        }
    }
    assert forall|i: int| 0 <= i < g@.len() implies #[trigger] g@[i]@.len() == g0[i]@.len() by {
        if i != c.0 {
            assert(g@[i] == g0[i]);
        }
    }
}

/// A grid whose flag at each in-grid cell says whether the cell occurs in `cells`.
pub fn membership_grid(cells: &Vec<Cell>, h: usize, w: usize) -> (g: Vec<Vec<bool>>)
    requires
        h > 0,
    ensures
        bool_grid_shape(g@, h as int, w as int),
        forall|c: Cell| in_bounds(c, h as int, w as int) ==> #[trigger] flag(g@, c) == cells@.contains(c),
{
    let mut g = false_grid(h, w);
    let mut k: usize = 0;
    while k < cells.len()
        invariant
            k <= cells@.len(),
            h > 0,
            bool_grid_shape(g@, h as int, w as int),
            forall|c: Cell| in_bounds(c, h as int, w as int) ==> #[trigger] flag(g@, c) == cells@.take(k as int).contains(c),
        decreases cells@.len() - k,
    {
        let c = cells[k];
        let ghost g0 = g@;
        if c.0 < h && c.1 < w {
            set_flag(&mut g, c, true);
        }
        assert(bool_grid_shape(g@, h as int, w as int));
        assert forall|d: Cell| in_bounds(d, h as int, w as int) implies #[trigger] flag(g@, d) == cells@.take(k + 1).contains(d) by {
            assert(cells@.take(k + 1) == cells@.take(k as int).push(c));
            if d == c {
                assert(cells@.take(k + 1)[k as int] == c);
            } else {
                assert(flag(g@, d) == flag(g0, d));
                let tk = cells@.take(k + 1);
                if tk.contains(d) {
                    let t = choose|t: int| 0 <= t < k + 1 && #[trigger] tk[t] == d;
                    assert(cells@.take(k as int)[t] == d);
                }
            }
        }
        k = k + 1;
    }
    assert(cells@.take(cells@.len() as int) =~= cells@);
    g
}

} // verus!

verus! {

/// The entry of a grid at cell `c`.
pub open spec fn grid_at<T>(g: Seq<Vec<T>>, c: Cell) -> T {
    g[c.0 as int]@[c.1 as int]
}

/// `g` has `h` rows of `w` entries each.
pub open spec fn grid_shape<T>(g: Seq<Vec<T>>, h: int, w: int) -> bool {
    &&& g.len() == h
    &&& forall|i: int| 0 <= i < h ==> #[trigger] g[i]@.len() == w
}

/// An `h` by `w` grid holding `v` everywhere.
pub fn const_grid<T: Copy>(h: usize, w: usize, v: T) -> (g: Vec<Vec<T>>)
    ensures
        grid_shape(g@, h as int, w as int),
        forall|c: Cell| in_bounds(c, h as int, w as int) ==> #[trigger] grid_at(g@, c) == v,
{
    let mut g: Vec<Vec<T>> = Vec::new();
    let mut i: usize = 0;
    while i < h
        invariant
            i <= h,
            g@.len() == i,
            forall|r: int| 0 <= r < i ==> #[trigger] g@[r]@.len() == w,
            forall|r: int, c: int| 0 <= r < i && 0 <= c < w ==> #[trigger] g@[r]@[c] == v,
        decreases h - i,
    {
        let mut row: Vec<T> = Vec::new();
        let mut j: usize = 0;
        while j < w
            invariant
                j <= w,
                row@.len() == j,
                forall|c: int| 0 <= c < j ==> #[trigger] row@[c] == v,
            decreases w - j,
        {
            row.push(v);
            j = j + 1;
        }
        g.push(row);
        i = i + 1;
    }
    g
}

/// Writes `v` at the in-grid cell `c`, leaving every other entry as it was.
pub fn set_grid<T>(g: &mut Vec<Vec<T>>, c: Cell, v: T)
    requires
        c.0 < old(g)@.len(),
        c.1 < old(g)@[c.0 as int]@.len(),
    ensures
        final(g)@.len() == old(g)@.len(),
        forall|i: int| 0 <= i < final(g)@.len() ==> #[trigger] final(g)@[i]@.len() == old(g)@[i]@.len(),
        grid_at(final(g)@, c) == v,
        forall|d: Cell|
            d != c && d.0 < old(g)@.len() && d.1 < old(g)@[d.0 as int]@.len() ==> #[trigger] grid_at(final(g)@, d)
                == grid_at(old(g)@, d),
{
    let ghost g0 = g@;
    g[c.0].set(c.1, v);
    assert forall|d: Cell|
        d != c && d.0 < g0.len() && d.1 < g0[d.0 as int]@.len() implies #[trigger] grid_at(g@, d) == grid_at(g0, d) by {
        if d.0 == c.0 {
            assert(g@[d.0 as int]@ == g0[d.0 as int]@.update(c.1 as int, v));
        } else {
            assert(g@[d.0 as int] == g0[d.0 as int]);
        }
    }
    assert forall|i: int| 0 <= i < g@.len() implies #[trigger] g@[i]@.len() == g0[i]@.len() by {
        if i != c.0 {
            assert(g@[i] == g0[i]);
        }
    }
}

/// Row-major position of the cell `(y, x)` in an image `w` wide.
pub open spec fn flat(y: int, x: int, w: int) -> int {
    y * w + x
}

/// Row-major positions of distinct in-image cells are distinct and below `h * w`.
pub proof fn lemma_flat(y: int, x: int, h: int, w: int)
    requires
        0 <= y < h,
        0 <= x < w,
    ensures
        0 <= flat(y, x, w) < h * w,
        y * w + w <= h * w,
        forall|y2: int, x2: int|
            0 <= y2 < h && 0 <= x2 < w && flat(y2, x2, w) == flat(y, x, w) ==> y2 == y && x2 == x,
{
    assert(0 <= y * w + x < h * w) by (nonlinear_arith)
        requires
            0 <= y < h,
            0 <= x < w,
    ;
    assert forall|y2: int, x2: int|
        0 <= y2 < h && 0 <= x2 < w && flat(y2, x2, w) == flat(y, x, w) implies y2 == y && x2 == x by {
        assert(y2 == y) by (nonlinear_arith)
            requires
                0 <= x < w,
                0 <= x2 < w,
                y2 * w + x2 == y * w + x,
        ;
    }
    assert(y * w + w <= h * w) by (nonlinear_arith)
        requires
            0 <= y < h,
            0 <= x < w,
    ;
}

/// The grid written out row by row, each entry mapped through `f`.
pub fn flatten_flags(g: &Vec<Vec<bool>>, h: usize, w: usize, on: i8, off: i8) -> (v: Vec<i8>)
    requires
        grid_shape(g@, h as int, w as int),
        h * w <= usize::MAX,
    ensures
        v@.len() == h * w,
        forall|i: int| 0 <= i < v@.len() ==> #[trigger] v@[i] == on || v@[i] == off,
        forall|y: int, x: int|
            0 <= y < h && 0 <= x < w ==> #[trigger] v@[flat(y, x, w as int)] == if grid_at(
                g@,
                (y as usize, x as usize),
            ) {
                on
            } else {
                off
            },
{
    let mut v: Vec<i8> = Vec::new();
    let mut y: usize = 0;
    while y < h
        invariant
            y <= h,
            grid_shape(g@, h as int, w as int),
            h * w <= usize::MAX,
            v@.len() == y * w,
            forall|i: int| 0 <= i < v@.len() ==> #[trigger] v@[i] == on || v@[i] == off,
            forall|yy: int, x: int|
                0 <= yy < y && 0 <= x < w ==> #[trigger] v@[flat(yy, x, w as int)] == if grid_at(
                    g@,
                    (yy as usize, x as usize),
                ) {
                    on
                } else {
                    off
                },
        decreases h - y,
    {
        let mut x: usize = 0;
        proof {
            assert(y * w <= h * w) by (nonlinear_arith)
                requires
                    y < h,
            ;
            assert(y * w + w <= h * w) by (nonlinear_arith)
                requires
                    y < h,
            ;
        }
        while x < w
            invariant
                x <= w,
                y < h,
                grid_shape(g@, h as int, w as int),
                y * w + w <= h * w,
                h * w <= usize::MAX,
                v@.len() == y * w + x,
                forall|i: int| 0 <= i < v@.len() ==> #[trigger] v@[i] == on || v@[i] == off,
                forall|yy: int, xx: int|
                    0 <= yy < y && 0 <= xx < w ==> #[trigger] v@[flat(yy, xx, w as int)] == if grid_at(
                        g@,
                        (yy as usize, xx as usize),
                    ) {
                        on
                    } else {
                        off
                    },
                forall|xx: int|
                    0 <= xx < x ==> #[trigger] v@[flat(y as int, xx, w as int)] == if grid_at(
                        g@,
                        (y, xx as usize),
                    ) {
                        on
                    } else {
                        off
                    },
            decreases w - x,
        {
            let b = g[y][x];
            let ghost v0 = v@;
            v.push(if b { on } else { off });
            proof {
                assert forall|i: int| 0 <= i < v@.len() implies #[trigger] v@[i] == on || v@[i] == off by {
                    if i < v0.len() {
                        assert(v@[i] == v0[i]);
                    }
                }
                assert forall|yy: int, xx: int|
                    0 <= yy < y && 0 <= xx < w implies #[trigger] v@[flat(yy, xx, w as int)] == if grid_at(
                        g@,
                        (yy as usize, xx as usize),
                    ) {
                        on
                    } else {
                        off
                    } by {
                    lemma_flat(yy, xx, y as int, w as int);
                    assert(v@[flat(yy, xx, w as int)] == v0[flat(yy, xx, w as int)]);
                }
                assert forall|xx: int|
                    0 <= xx < x + 1 implies #[trigger] v@[flat(y as int, xx, w as int)] == if grid_at(
                        g@,
                        (y, xx as usize),
                    ) {
                        on
                    } else {
                        off
                    } by {
                    if xx < x {
                        assert(v@[flat(y as int, xx, w as int)] == v0[flat(y as int, xx, w as int)]);
                    }
                }
            }
            x = x + 1;
        }
        proof {
            assert(y * w + w == (y + 1) * w) by (nonlinear_arith);
        }
        y = y + 1;
    }
    v
}

} // verus!
