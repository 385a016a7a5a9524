use vstd::prelude::*;
use crate::types::MazeMap;

verus! {

/// Calls `bytemuck::cast_slice` to view signed bytes as unsigned bytes and
/// copies the result. `i8` and `u8` have the same size and every bit pattern
/// is valid for both, so the crate reinterprets each byte unchanged: byte `i`
/// of the result is `v[i]` read as unsigned (two's complement).
#[verifier::external_body]
fn reinterpret_bytes(v: &Vec<i8>) -> (r: Vec<u8>)
    ensures
        r@.len() == v@.len(),
        forall|i: int| 0 <= i < v@.len() ==> #[trigger] r@[i] == v@[i] as u8,
{
    bytemuck::cast_slice::<i8, u8>(v.as_slice()).to_vec()
}

/// The puzzles of the maps, or their solutions.
pub open spec fn map_parts(maps: Seq<MazeMap>, puzzles: bool) -> Seq<Seq<i8>> {
    maps.map_values(|m: MazeMap| if puzzles { m.puzzle@ } else { m.solution@ })
}

/// Byte `j` of a zero-filled buffer once the first `k` parts are written into
/// it, part `i` at offset `i` times its own length, a later part over an
/// earlier one.
pub open spec fn laid_out(parts: Seq<Seq<i8>>, k: int, j: int) -> i8
    decreases k,
{
    if k <= 0 {
        0
    } else {
        let i = k - 1;
        let s = parts[i];
        if i * s.len() <= j < i * s.len() + s.len() {
            s[j - i * s.len()]
        } else {
            laid_out(parts, k - 1, j)
        }
    }
}

/// A batch of maps laid out for storing as two 8-bit integer tensors.
pub struct PackedMaps {
    /// All puzzles, map after map, as raw bytes.
    pub puzzle_bytes: Vec<u8>,
    /// All solutions, map after map, as raw bytes.
    pub solution_bytes: Vec<u8>,
    /// `[maps, layers, goals + 1, height, width]`.
    pub puzzle_shape: Vec<usize>,
    /// `[maps, layers, height, width]`.
    pub solution_shape: Vec<usize>,
}

/// A zero-filled buffer of `total` bytes with the puzzles (or the solutions)
/// of the maps written into it, map `i` at `i` times its own length.
fn lay_out(maps: &Vec<MazeMap>, puzzles: bool, total: usize) -> (buf: Vec<i8>)
    requires
        forall|i: int|
            0 <= i < maps@.len() ==> (i + 1) * (#[trigger] map_parts(maps@, puzzles)[i]).len() <= total,
    ensures
        buf@.len() == total,
        forall|j: int|
            0 <= j < total ==> #[trigger] buf@[j] == laid_out(map_parts(maps@, puzzles), maps@.len() as int, j),
{
    let ghost parts = map_parts(maps@, puzzles);
    let mut buf: Vec<i8> = Vec::new();
    let mut j: usize = 0;
    while j < total
        invariant
            j <= total,
            buf@.len() == j,
            forall|q: int| 0 <= q < j ==> #[trigger] buf@[q] == 0,
        decreases total - j,
    {
        buf.push(0);
        j = j + 1;
    }
    let mut k: usize = 0;
    while k < maps.len()
        invariant
            k <= maps@.len(),
            buf@.len() == total,
            parts == map_parts(maps@, puzzles),
            parts.len() == maps@.len(),
            forall|i: int| 0 <= i < maps@.len() ==> (i + 1) * (#[trigger] parts[i]).len() <= total,
            forall|q: int| 0 <= q < total ==> #[trigger] buf@[q] == laid_out(parts, k as int, q),
        decreases maps@.len() - k,
    {
        let s: &Vec<i8> = if puzzles {
            &maps[k].puzzle
        } else {
            &maps[k].solution
        };
        assert(s@ == parts[k as int]);
        let n = s.len();
        proof {
            assert((k + 1) * n <= total);
            assert(k * n + n == (k + 1) * n) by (nonlinear_arith);
            assert(k * n <= (k + 1) * n) by (nonlinear_arith)
                requires
                    n >= 0,
            ;
        }
        let o = k * n;
        let mut i: usize = 0;
        while i < n
            invariant
                i <= n,
                n == s@.len(),
                o + n <= total,
                o == k * n,
                buf@.len() == total,
                forall|q: int|
                    0 <= q < total ==> #[trigger] buf@[q] == if o <= q < o + i {
                        s@[q - o]
                    } else {
                        laid_out(parts, k as int, q)
                    },
            decreases n - i,
        {
            buf.set(o + i, s[i]);
            i = i + 1;
        }
        proof {
            assert forall|q: int| 0 <= q < total implies #[trigger] buf@[q] == laid_out(parts, k + 1, q) by {
                assert(parts[k as int] == s@);
            }
        }
        k = k + 1;
    }
    buf
}

/// Lays a batch of maps out for storage as two zero-filled tensors of the
/// given shape: map `i`'s puzzle written at `i` times its length, likewise its
/// solution, as raw bytes, with the tensor shapes that describe them.
pub fn pack_maps(maps: &Vec<MazeMap>, width: usize, height: usize, layers: usize, goals: usize) -> (p: PackedMaps)
    requires
        goals < usize::MAX,
        height * width <= usize::MAX,
        maps@.len() * layers <= usize::MAX,
        maps@.len() * layers * (goals + 1) <= usize::MAX,
        maps@.len() * layers * (goals + 1) * (height * width) <= usize::MAX,
        maps@.len() * layers * (height * width) <= usize::MAX,
        forall|i: int|
            0 <= i < maps@.len() ==> (i + 1) * (#[trigger] maps@[i]).puzzle@.len() <= maps@.len() * layers * (goals + 1) * (
            height * width),
        forall|i: int|
            0 <= i < maps@.len() ==> (i + 1) * (#[trigger] maps@[i]).solution@.len() <= maps@.len() * layers * (height
                * width),
    ensures
        p.puzzle_bytes@.len() == maps@.len() * layers * (goals + 1) * (height * width),
        p.solution_bytes@.len() == maps@.len() * layers * (height * width),
        forall|j: int|
            0 <= j < p.puzzle_bytes@.len() ==> #[trigger] p.puzzle_bytes@[j] == laid_out(
                map_parts(maps@, true),
                maps@.len() as int,
                j,
            ) as u8,
        forall|j: int|
            0 <= j < p.solution_bytes@.len() ==> #[trigger] p.solution_bytes@[j] == laid_out(
                map_parts(maps@, false),
                maps@.len() as int,
                j,
            ) as u8,
        p.puzzle_shape@ == seq![maps@.len() as usize, layers, (goals + 1) as usize, height, width],
        p.solution_shape@ == seq![maps@.len() as usize, layers, height, width],
{
    let n = maps.len();
    let cs = height * width;
    let total_puzzle = n * layers * (goals + 1) * cs;
    let total_solution = n * layers * cs;
    proof {
        assert forall|i: int| 0 <= i < maps@.len() implies (i + 1) * (#[trigger] map_parts(maps@, true)[i]).len()
            <= total_puzzle by {
            assert(map_parts(maps@, true)[i] == maps@[i].puzzle@);
        }
        assert forall|i: int| 0 <= i < maps@.len() implies (i + 1) * (#[trigger] map_parts(maps@, false)[i]).len()
            <= total_solution by {
            assert(map_parts(maps@, false)[i] == maps@[i].solution@);
        }
    }
    let puzzles = lay_out(maps, true, total_puzzle);
    let solutions = lay_out(maps, false, total_solution);
    let puzzle_bytes = reinterpret_bytes(&puzzles);
    let solution_bytes = reinterpret_bytes(&solutions);
    let mut puzzle_shape: Vec<usize> = Vec::new();
    puzzle_shape.push(n);
    puzzle_shape.push(layers);
    puzzle_shape.push(goals + 1);
    puzzle_shape.push(height);
    puzzle_shape.push(width);
    let mut solution_shape: Vec<usize> = Vec::new();
    solution_shape.push(n);
    solution_shape.push(layers);
    solution_shape.push(height);
    solution_shape.push(width);
    proof {
        assert(puzzle_shape@ =~= seq![maps@.len() as usize, layers, (goals + 1) as usize, height, width]);
        assert(solution_shape@ =~= seq![maps@.len() as usize, layers, height, width]);
    }
    PackedMaps { puzzle_bytes, solution_bytes, puzzle_shape, solution_shape }
}

} // verus!
