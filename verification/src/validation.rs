use vstd::prelude::*;
use crate::types::MazeMap;

verus! {

/// A problem found in a generated map.
pub enum MapIssue {
    /// Cells of a layer that are both wall and path.
    WallSolutionOverlap { layer: usize, count: usize },
    /// A route has fewer marked checkpoint cells, over all layers, than asked for.
    TooFewCheckpoints { route: usize, found: usize, expected: usize },
    /// A layer has no path cells although routes should pass through every layer.
    NoSolutionCells { layer: usize },
}

/// The number of `i` below `n` with `s[start + i] == 1`.
pub open spec fn count_ones(s: Seq<i8>, start: int, n: int) -> int
    decreases n,
{
    if n <= 0 {
        0
    } else {
        count_ones(s, start, n - 1) + if s[start + n - 1] == 1 { 1int } else { 0int }
    }
}

/// The number of `i` below `n` with both `p[ps + i] == 1` and `q[qs + i] == 1`.
pub open spec fn count_both(p: Seq<i8>, ps: int, q: Seq<i8>, qs: int, n: int) -> int
    decreases n,
{
    if n <= 0 {
        0
    } else {
        count_both(p, ps, q, qs, n - 1) + if p[ps + n - 1] == 1 && q[qs + n - 1] == 1 {
            1int
        } else {
            0int
        }
    }
}

/// The checkpoint cells of route `r` marked in the first `k` layers.
pub open spec fn route_marks(puzzle: Seq<i8>, r: int, k: int, goals: int, cs: int) -> int
    decreases k,
{
    if k <= 0 {
        0
    } else {
        route_marks(puzzle, r, k - 1, goals, cs) + count_ones(
            puzzle,
            (k - 1) * (goals + 1) * cs + (r + 1) * cs,
            cs,
        )
    }
}

/// The overlap issues of the first `k` layers, in layer order.
pub open spec fn overlap_issues(m: MazeMap, k: int, goals: int, cs: int) -> Seq<MapIssue>
    decreases k,
{
    if k <= 0 {
        Seq::empty()
    } else {
        let n = count_both(m.puzzle@, (k - 1) * (goals + 1) * cs, m.solution@, (k - 1) * cs, cs);
        overlap_issues(m, k - 1, goals, cs) + if n > 0 {
            seq![MapIssue::WallSolutionOverlap { layer: (k - 1) as usize, count: n as usize }]
        } else {
            Seq::empty()
        }
    }
}

/// The checkpoint issues of the first `k` routes, in route order.
pub open spec fn checkpoint_issues(m: MazeMap, k: int, layers: int, goals: int, cs: int, checkpoints: int) -> Seq<MapIssue>
    decreases k,
{
    if k <= 0 {
        Seq::empty()
    } else {
        let t = route_marks(m.puzzle@, k - 1, layers, goals, cs);
        checkpoint_issues(m, k - 1, layers, goals, cs, checkpoints) + if t < checkpoints {
            seq![
                MapIssue::TooFewCheckpoints {
                    route: (k - 1) as usize,
                    found: t as usize,
                    expected: checkpoints as usize,
                },
            ]
        } else {
            Seq::empty()
        }
    }
}

/// The empty-path issues of the first `k` layers, in layer order.
pub open spec fn path_issues(m: MazeMap, k: int, layers: int, cs: int, via_count: int) -> Seq<MapIssue>
    decreases k,
{
    if k <= 0 {
        Seq::empty()
    } else {
        let n = count_ones(m.solution@, (k - 1) * cs, cs);
        path_issues(m, k - 1, layers, cs, via_count) + if via_count > 0 && layers > 1 && n == 0 {
            seq![MapIssue::NoSolutionCells { layer: (k - 1) as usize }]
        } else {
            Seq::empty()
        }
    }
}

/// All issues of a map: wall/path overlaps per layer, then routes with too
/// few checkpoint cells, then layers without path cells.
pub open spec fn map_issues_spec(
    m: MazeMap,
    width: int,
    height: int,
    layers: int,
    goals: int,
    checkpoints: int,
    via_count: int,
) -> Seq<MapIssue> {
    let cs = height * width;
    overlap_issues(m, layers, goals, cs) + checkpoint_issues(m, goals, layers, goals, cs, checkpoints)
        + path_issues(m, layers, layers, cs, via_count)
}

proof fn lemma_count_bounds_ones(s: Seq<i8>, start: int, n: int)
    ensures
        0 <= count_ones(s, start, n) <= if n < 0 { 0 } else { n },
    decreases n,
{
    if n > 0 {
        lemma_count_bounds_ones(s, start, n - 1);
    }
}

proof fn lemma_count_bounds_both(p: Seq<i8>, ps: int, q: Seq<i8>, qs: int, n: int)
    ensures
        0 <= count_both(p, ps, q, qs, n) <= if n < 0 { 0 } else { n },
    decreases n,
{
    if n > 0 {
        lemma_count_bounds_both(p, ps, q, qs, n - 1);
    }
}

proof fn lemma_route_marks_bound(puzzle: Seq<i8>, r: int, k: int, goals: int, cs: int)
    requires
        cs >= 0,
    ensures
        0 <= route_marks(puzzle, r, k, goals, cs) <= if k < 0 { 0 } else { k * cs },
    decreases k,
{
    if k > 0 {
        lemma_route_marks_bound(puzzle, r, k - 1, goals, cs);
        lemma_count_bounds_ones(puzzle, (k - 1) * (goals + 1) * cs + (r + 1) * cs, cs);
        assert((k - 1) * cs + cs == k * cs) by (nonlinear_arith);
    }
}

/// Some issue among `issues` reports route `r` for too few checkpoint cells.
pub open spec fn shortfall_reported(issues: Seq<MapIssue>, r: int) -> bool {
    exists|i: int|
        #![trigger issues[i]]
        0 <= i < issues.len() && (issues[i] matches MapIssue::TooFewCheckpoints { route, .. } && route == r)
}

/// Every report of too few checkpoint cells among `issues` names a route below
/// `goals`, the number of that route's marks over the first `layers` layers of
/// `puzzle`, which is below `checkpoints`, and `checkpoints` as the number
/// asked for.
pub open spec fn shortfalls_exact(
    issues: Seq<MapIssue>,
    puzzle: Seq<i8>,
    layers: int,
    goals: int,
    cs: int,
    checkpoints: int,
) -> bool {
    forall|i: int|
        #![trigger issues[i]]
        0 <= i < issues.len() ==> (issues[i] matches MapIssue::TooFewCheckpoints { route, found, expected } ==> route
            < goals && found == route_marks(puzzle, route as int, layers, goals, cs) && found < checkpoints
            && expected == checkpoints)
}

/// Some issue among `issues` reports wall/path overlaps on layer `l`.
pub open spec fn overlap_reported(issues: Seq<MapIssue>, l: int) -> bool {
    exists|i: int|
        #![trigger issues[i]]
        0 <= i < issues.len() && (issues[i] matches MapIssue::WallSolutionOverlap { layer, .. } && layer == l)
}

/// Every overlap report among `issues` names a layer below `layers` and the
/// number, above 0, of its cells that are both wall and path.
pub open spec fn overlaps_exact(
    issues: Seq<MapIssue>,
    puzzle: Seq<i8>,
    solution: Seq<i8>,
    layers: int,
    goals: int,
    cs: int,
) -> bool {
    forall|i: int|
        #![trigger issues[i]]
        0 <= i < issues.len() ==> (issues[i] matches MapIssue::WallSolutionOverlap { layer, count } ==> layer < layers
            && count == count_both(puzzle, (layer as int) * (goals + 1) * cs, solution, (layer as int) * cs, cs) && count
            > 0)
}

/// Some issue among `issues` reports layer `l` as having no path cells.
pub open spec fn empty_layer_reported(issues: Seq<MapIssue>, l: int) -> bool {
    exists|i: int|
        #![trigger issues[i]]
        0 <= i < issues.len() && (issues[i] matches MapIssue::NoSolutionCells { layer } && layer == l)
}

/// Every report of a layer without path cells among `issues` names a layer
/// below `layers` whose solution block holds no 1.
pub open spec fn empty_layers_exact(issues: Seq<MapIssue>, solution: Seq<i8>, layers: int, cs: int) -> bool {
    forall|i: int|
        #![trigger issues[i]]
        0 <= i < issues.len() ==> (issues[i] matches MapIssue::NoSolutionCells { layer } ==> layer < layers
            && count_ones(solution, (layer as int) * cs, cs) == 0)
}

proof fn lemma_overlap_issues_exact(m: MazeMap, k: int, goals: int, cs: int)
    requires
        k <= usize::MAX,
    ensures
        forall|i: int|
            0 <= i < overlap_issues(m, k, goals, cs).len() ==> (#[trigger] overlap_issues(
                m,
                k,
                goals,
                cs,
            )[i] matches MapIssue::WallSolutionOverlap { layer, .. } && layer < k),
        0 <= cs <= usize::MAX ==> overlaps_exact(overlap_issues(m, k, goals, cs), m.puzzle@, m.solution@, k, goals, cs),
        forall|l: int|
            0 <= l < k ==> (overlap_reported(overlap_issues(m, k, goals, cs), l) <==> count_both(
                m.puzzle@,
                l * (goals + 1) * cs,
                m.solution@,
                l * cs,
                cs,
            ) > 0),
    decreases k,
{
    let s = overlap_issues(m, k, goals, cs);
    if k > 0 {
        lemma_overlap_issues_exact(m, k - 1, goals, cs);
        let p = overlap_issues(m, k - 1, goals, cs);
        let n = count_both(m.puzzle@, (k - 1) * (goals + 1) * cs, m.solution@, (k - 1) * cs, cs);
        lemma_count_bounds_both(m.puzzle@, (k - 1) * (goals + 1) * cs, m.solution@, (k - 1) * cs, cs);
        let e = MapIssue::WallSolutionOverlap { layer: (k - 1) as usize, count: n as usize };
        assert forall|i: int| 0 <= i < p.len() implies s[i] == #[trigger] p[i] by {}
        assert forall|i: int| 0 <= i < s.len() implies (#[trigger] s[i] matches MapIssue::WallSolutionOverlap {
            layer,
            ..
        } && layer < k) by {
            if i < p.len() {
                assert(s[i] == p[i]);
            } else {
                assert(s[i] == e);
            }
        }
        assert(0 <= cs <= usize::MAX ==> overlaps_exact(s, m.puzzle@, m.solution@, k, goals, cs)) by {
            assert forall|i: int|
                #![trigger s[i]]
                0 <= cs <= usize::MAX && 0 <= i < s.len() implies (s[i] matches MapIssue::WallSolutionOverlap {
                layer,
                count,
            } ==> layer < k && count == count_both(
                m.puzzle@,
                (layer as int) * (goals + 1) * cs,
                m.solution@,
                (layer as int) * cs,
                cs,
            ) && count > 0) by {
                if i < p.len() {
                    assert(s[i] == p[i]);
                } else {
                    assert(n > 0);
                    assert(s[i] == e);
                }
            }
        }
        assert forall|l: int|
            0 <= l < k implies (overlap_reported(s, l) <==> count_both(m.puzzle@, l * (goals + 1) * cs, m.solution@, l * cs, cs)
                > 0) by {
            if overlap_reported(s, l) {
                let i = choose|i: int|
                    #![trigger s[i]]
                    0 <= i < s.len() && (s[i] matches MapIssue::WallSolutionOverlap { layer, .. } && layer == l);
                if i < p.len() {
                    assert(s[i] == p[i]);
                    if l == k - 1 {
                        assert(false);
                    }
                    assert(overlap_reported(p, l));
                } else {
                    assert(s[i] == e);
                }
            }
            if count_both(m.puzzle@, l * (goals + 1) * cs, m.solution@, l * cs, cs) > 0 {
                if l < k - 1 {
                    assert(overlap_reported(p, l));
                    let i = choose|i: int|
                        #![trigger p[i]]
                        0 <= i < p.len() && (p[i] matches MapIssue::WallSolutionOverlap { layer, .. } && layer == l);
                    assert(s[i] == p[i]);
                } else {
                    assert(s[p.len() as int] == e);
                }
            }
        }
    }
}

proof fn lemma_path_issues_exact(m: MazeMap, k: int, layers: int, cs: int, via_count: int)
    requires
        k <= usize::MAX,
    ensures
        forall|i: int|
            0 <= i < path_issues(m, k, layers, cs, via_count).len() ==> #[trigger] path_issues(
                m,
                k,
                layers,
                cs,
                via_count,
            )[i] is NoSolutionCells,
        empty_layers_exact(path_issues(m, k, layers, cs, via_count), m.solution@, k, cs),
        forall|l: int|
            0 <= l < k ==> (empty_layer_reported(path_issues(m, k, layers, cs, via_count), l) <==> via_count > 0 && layers
                > 1 && count_ones(m.solution@, l * cs, cs) == 0),
    decreases k,
{
    let s = path_issues(m, k, layers, cs, via_count);
    if k > 0 {
        lemma_path_issues_exact(m, k - 1, layers, cs, via_count);
        let p = path_issues(m, k - 1, layers, cs, via_count);
        let e = MapIssue::NoSolutionCells { layer: (k - 1) as usize };
        assert forall|i: int| 0 <= i < p.len() implies s[i] == #[trigger] p[i] by {}
        assert forall|i: int| 0 <= i < s.len() implies #[trigger] s[i] is NoSolutionCells by {
            if i < p.len() {
                assert(s[i] == p[i]);
            } else {
                assert(s[i] == e);
            }
        }
        assert(empty_layers_exact(s, m.solution@, k, cs)) by {
            assert forall|i: int|
                #![trigger s[i]]
                0 <= i < s.len() implies (s[i] matches MapIssue::NoSolutionCells { layer } ==> layer < k && count_ones(
                m.solution@,
                (layer as int) * cs,
                cs,
            ) == 0) by {
                if i < p.len() {
                    assert(s[i] == p[i]);
                } else {
                    assert(s[i] == e);
                }
            }
        }
        assert forall|l: int|
            0 <= l < k implies (empty_layer_reported(s, l) <==> via_count > 0 && layers > 1 && count_ones(
                m.solution@,
                l * cs,
                cs,
            ) == 0) by {
            if empty_layer_reported(s, l) {
                let i = choose|i: int|
                    #![trigger s[i]]
                    0 <= i < s.len() && (s[i] matches MapIssue::NoSolutionCells { layer } && layer == l);
                if i < p.len() {
                    assert(s[i] == p[i]);
                    if l == k - 1 {
                        assert(false);
                    }
                    assert(empty_layer_reported(p, l));
                } else {
                    assert(s[i] == e);
                }
            }
            if via_count > 0 && layers > 1 && count_ones(m.solution@, l * cs, cs) == 0 {
                if l < k - 1 {
                    assert(empty_layer_reported(p, l));
                    let i = choose|i: int|
                        #![trigger p[i]]
                        0 <= i < p.len() && (p[i] matches MapIssue::NoSolutionCells { layer } && layer == l);
                    assert(s[i] == p[i]);
                } else {
                    assert(s[p.len() as int] == e);
                }
            }
        }
    }
}

proof fn lemma_checkpoint_issues_all(m: MazeMap, k: int, layers: int, goals: int, cs: int, checkpoints: int)
    ensures
        forall|i: int|
            0 <= i < checkpoint_issues(m, k, layers, goals, cs, checkpoints).len() ==> #[trigger] checkpoint_issues(
                m,
                k,
                layers,
                goals,
                cs,
                checkpoints,
            )[i] is TooFewCheckpoints,
    decreases k,
{
    if k > 0 {
        lemma_checkpoint_issues_all(m, k - 1, layers, goals, cs, checkpoints);
        let s = checkpoint_issues(m, k, layers, goals, cs, checkpoints);
        let p = checkpoint_issues(m, k - 1, layers, goals, cs, checkpoints);
        assert forall|i: int| 0 <= i < s.len() implies #[trigger] s[i] is TooFewCheckpoints by {
            if i < p.len() {
                assert(s[i] == p[i]);
            }
        }
    }
}

proof fn lemma_checkpoint_issues_exact(
    m: MazeMap,
    k: int,
    layers: int,
    goals: int,
    cs: int,
    checkpoints: int,
)
    requires
        0 <= cs,
        0 <= layers,
        0 <= checkpoints <= usize::MAX,
        layers * cs <= usize::MAX,
        k <= goals <= usize::MAX,
    ensures
        shortfalls_exact(checkpoint_issues(m, k, layers, goals, cs, checkpoints), m.puzzle@, layers, goals, cs, checkpoints),
        forall|i: int|
            #![trigger checkpoint_issues(m, k, layers, goals, cs, checkpoints)[i]]
            0 <= i < checkpoint_issues(m, k, layers, goals, cs, checkpoints).len() ==> (checkpoint_issues(
                m,
                k,
                layers,
                goals,
                cs,
                checkpoints,
            )[i] matches MapIssue::TooFewCheckpoints { route, .. } ==> route < k),
        forall|r: int|
            0 <= r < k ==> (shortfall_reported(checkpoint_issues(m, k, layers, goals, cs, checkpoints), r)
                <==> route_marks(m.puzzle@, r, layers, goals, cs) < checkpoints),
    decreases k,
{
    let s = checkpoint_issues(m, k, layers, goals, cs, checkpoints);
    if k > 0 {
        lemma_checkpoint_issues_exact(m, k - 1, layers, goals, cs, checkpoints);
        let p = checkpoint_issues(m, k - 1, layers, goals, cs, checkpoints);
        let t = route_marks(m.puzzle@, k - 1, layers, goals, cs);
        lemma_route_marks_bound(m.puzzle@, k - 1, layers, goals, cs);
        assert forall|i: int| 0 <= i < p.len() implies s[i] == #[trigger] p[i] by {}
        assert(shortfalls_exact(s, m.puzzle@, layers, goals, cs, checkpoints)) by {
            assert forall|i: int|
                #![trigger s[i]]
                0 <= i < s.len() implies (s[i] matches MapIssue::TooFewCheckpoints { route, found, expected }
                ==> route < k && route < goals && found == route_marks(m.puzzle@, route as int, layers, goals, cs)
                && found < checkpoints && expected == checkpoints) by {
                if i < p.len() {
                    assert(s[i] == p[i]);
                } else {
                    assert(t < checkpoints);
                    assert(s[i] == MapIssue::TooFewCheckpoints {
                        route: (k - 1) as usize,
                        found: t as usize,
                        expected: checkpoints as usize,
                    });
                }
            }
        }
        assert forall|r: int|
            0 <= r < k implies (shortfall_reported(s, r) <==> route_marks(m.puzzle@, r, layers, goals, cs)
                < checkpoints) by {
            if shortfall_reported(s, r) {
                let i = choose|i: int|
                    #![trigger s[i]]
                    0 <= i < s.len() && (s[i] matches MapIssue::TooFewCheckpoints { route, .. } && route == r);
                if i < p.len() {
                    assert(s[i] == p[i]);
                    if r == k - 1 {
                        assert(false);
                    }
                    assert(shortfall_reported(p, r));
                }
            }
            if route_marks(m.puzzle@, r, layers, goals, cs) < checkpoints {
                if r < k - 1 {
                    assert(shortfall_reported(p, r));
                    let i = choose|i: int|
                        #![trigger p[i]]
                        0 <= i < p.len() && (p[i] matches MapIssue::TooFewCheckpoints { route, .. } && route == r);
                    assert(s[i] == p[i]);
                } else {
                    assert(s[p.len() as int] == MapIssue::TooFewCheckpoints {
                        route: (k - 1) as usize,
                        found: t as usize,
                        expected: checkpoints as usize,
                    });
                }
            }
        }
    }
}

/// A route below `goals` is reported for too few checkpoint cells exactly when
/// the number of 1s in its checkpoint channel, summed over all layers, is
/// below `checkpoints`, a route with no marked cell at all included; each such
/// report gives that number and the number asked for.
pub proof fn lemma_shortfall_reported(
    m: MazeMap,
    width: usize,
    height: usize,
    layers: usize,
    goals: usize,
    checkpoints: usize,
    via_count: usize,
)
    requires
        layers * (height * width) <= usize::MAX,
    ensures
        forall|r: int|
            0 <= r < goals ==> (shortfall_reported(
                map_issues_spec(
                    m,
                    width as int,
                    height as int,
                    layers as int,
                    goals as int,
                    checkpoints as int,
                    via_count as int,
                ),
                r,
            ) <==> route_marks(m.puzzle@, r, layers as int, goals as int, height * width) < checkpoints),
        shortfalls_exact(
            map_issues_spec(
                m,
                width as int,
                height as int,
                layers as int,
                goals as int,
                checkpoints as int,
                via_count as int,
            ),
            m.puzzle@,
            layers as int,
            goals as int,
            height * width,
            checkpoints as int,
        ),
{
    let cs = height * width;
    let a = overlap_issues(m, layers as int, goals as int, cs);
    let b = checkpoint_issues(m, goals as int, layers as int, goals as int, cs, checkpoints as int);
    let c = path_issues(m, layers as int, layers as int, cs, via_count as int);
    let s = map_issues_spec(
        m,
        width as int,
        height as int,
        layers as int,
        goals as int,
        checkpoints as int,
        via_count as int,
    );
    assert(s == a + b + c);
    lemma_overlap_issues_exact(m, layers as int, goals as int, cs);
    lemma_path_issues_exact(m, layers as int, layers as int, cs, via_count as int);
    lemma_checkpoint_issues_exact(m, goals as int, layers as int, goals as int, cs, checkpoints as int);
    assert forall|i: int| 0 <= i < b.len() implies s[a.len() + i] == #[trigger] b[i] by {}
    assert(shortfalls_exact(s, m.puzzle@, layers as int, goals as int, cs, checkpoints as int)) by {
        assert forall|i: int|
            #![trigger s[i]]
            0 <= i < s.len() implies (s[i] matches MapIssue::TooFewCheckpoints { route, found, expected } ==> route
                < goals && found == route_marks(m.puzzle@, route as int, layers as int, goals as int, cs) && found
                < checkpoints && expected == checkpoints) by {
            if i < a.len() {
                assert(s[i] == a[i]);
            } else if i < a.len() + b.len() {
                assert(s[i] == b[i - a.len()]);
            } else {
                assert(s[i] == c[i - a.len() - b.len()]);
            }
        }
    }
    assert forall|r: int|
        0 <= r < goals implies (shortfall_reported(s, r) <==> route_marks(
            m.puzzle@,
            r,
            layers as int,
            goals as int,
            cs,
        ) < checkpoints) by {
        if shortfall_reported(s, r) {
            let i = choose|i: int|
                #![trigger s[i]]
                0 <= i < s.len() && (s[i] matches MapIssue::TooFewCheckpoints { route, .. } && route == r);
            if i < a.len() {
                assert(s[i] == a[i]);
            } else if i < a.len() + b.len() {
                assert(s[i] == b[i - a.len()]);
                assert(shortfall_reported(b, r));
            } else {
                assert(s[i] == c[i - a.len() - b.len()]);
            }
        }
        if route_marks(m.puzzle@, r, layers as int, goals as int, cs) < checkpoints {
            assert(shortfall_reported(b, r));
            let j = choose|j: int|
                #![trigger b[j]]
                0 <= j < b.len() && (b[j] matches MapIssue::TooFewCheckpoints { route, .. } && route == r);
            assert(s[a.len() + j] == b[j]);
        }
    }
}

/// A layer is reported for wall/path overlaps exactly when some cell of it is
/// both wall and path, with the number of such cells; and it is reported as
/// having no path cells exactly when vias are asked for across several
/// layers and its solution block holds no 1.
pub proof fn lemma_layer_issues_reported(
    m: MazeMap,
    width: usize,
    height: usize,
    layers: usize,
    goals: usize,
    checkpoints: usize,
    via_count: usize,
)
    requires
        height * width <= usize::MAX,
    ensures
        forall|l: int|
            0 <= l < layers ==> (overlap_reported(
                map_issues_spec(
                    m,
                    width as int,
                    height as int,
                    layers as int,
                    goals as int,
                    checkpoints as int,
                    via_count as int,
                ),
                l,
            ) <==> count_both(m.puzzle@, l * (goals + 1) * (height * width), m.solution@, l * (height * width), height * width)
                > 0),
        overlaps_exact(
            map_issues_spec(
                m,
                width as int,
                height as int,
                layers as int,
                goals as int,
                checkpoints as int,
                via_count as int,
            ),
            m.puzzle@,
            m.solution@,
            layers as int,
            goals as int,
            height * width,
        ),
        forall|l: int|
            0 <= l < layers ==> (empty_layer_reported(
                map_issues_spec(
                    m,
                    width as int,
                    height as int,
                    layers as int,
                    goals as int,
                    checkpoints as int,
                    via_count as int,
                ),
                l,
            ) <==> via_count > 0 && layers > 1 && count_ones(m.solution@, l * (height * width), height * width) == 0),
        empty_layers_exact(
            map_issues_spec(
                m,
                width as int,
                height as int,
                layers as int,
                goals as int,
                checkpoints as int,
                via_count as int,
            ),
            m.solution@,
            layers as int,
            height * width,
        ),
{
    let cs = height * width;
    let a = overlap_issues(m, layers as int, goals as int, cs);
    let b = checkpoint_issues(m, goals as int, layers as int, goals as int, cs, checkpoints as int);
    let c = path_issues(m, layers as int, layers as int, cs, via_count as int);
    let s = map_issues_spec(
        m,
        width as int,
        height as int,
        layers as int,
        goals as int,
        checkpoints as int,
        via_count as int,
    );
    assert(s == a + b + c);
    assert(0 <= cs) by (nonlinear_arith)
        requires
            cs == height * width,
    ;
    lemma_overlap_issues_exact(m, layers as int, goals as int, cs);
    lemma_path_issues_exact(m, layers as int, layers as int, cs, via_count as int);
    lemma_checkpoint_issues_all(m, goals as int, layers as int, goals as int, cs, checkpoints as int);
    assert forall|i: int| 0 <= i < a.len() implies s[i] == #[trigger] a[i] by {}
    assert forall|i: int| 0 <= i < c.len() implies s[a.len() + b.len() + i] == #[trigger] c[i] by {}
    assert forall|i: int|
        #![trigger s[i]]
        0 <= i < s.len() implies (i < a.len() ==> s[i] == a[i]) && (a.len() <= i < a.len() + b.len() ==> s[i] == b[i
            - a.len()]) && (a.len() + b.len() <= i ==> s[i] == c[i - a.len() - b.len()]) by {}
    assert forall|l: int|
        0 <= l < layers implies (overlap_reported(s, l) <==> count_both(m.puzzle@, l * (goals + 1) * cs, m.solution@, l * cs, cs)
            > 0) by {
        if overlap_reported(s, l) {
            let i = choose|i: int|
                #![trigger s[i]]
                0 <= i < s.len() && (s[i] matches MapIssue::WallSolutionOverlap { layer, .. } && layer == l);
            if i < a.len() {
                assert(overlap_reported(a, l));
            } else if i < a.len() + b.len() {
                assert(b[i - a.len()] is TooFewCheckpoints);
            } else {
                assert(c[i - a.len() - b.len()] is NoSolutionCells);
            }
        }
        if count_both(m.puzzle@, l * (goals + 1) * cs, m.solution@, l * cs, cs) > 0 {
            assert(overlap_reported(a, l));
            let j = choose|j: int|
                #![trigger a[j]]
                0 <= j < a.len() && (a[j] matches MapIssue::WallSolutionOverlap { layer, .. } && layer == l);
            assert(s[j] == a[j]);
        }
    }
    assert forall|l: int|
        0 <= l < layers implies (empty_layer_reported(s, l) <==> via_count > 0 && layers > 1 && count_ones(
            m.solution@,
            l * cs,
            cs,
        ) == 0) by {
        if empty_layer_reported(s, l) {
            let i = choose|i: int|
                #![trigger s[i]]
                0 <= i < s.len() && (s[i] matches MapIssue::NoSolutionCells { layer } && layer == l);
            if i < a.len() {
                assert(a[i] matches MapIssue::WallSolutionOverlap { .. });
            } else if i < a.len() + b.len() {
                assert(b[i - a.len()] is TooFewCheckpoints);
            } else {
                assert(empty_layer_reported(c, l));
            }
        }
        if via_count > 0 && layers > 1 && count_ones(m.solution@, l * cs, cs) == 0 {
            assert(empty_layer_reported(c, l));
            let j = choose|j: int|
                #![trigger c[j]]
                0 <= j < c.len() && (c[j] matches MapIssue::NoSolutionCells { layer } && layer == l);
            assert(s[a.len() + b.len() + j] == c[j]);
        }
    }
    assert(overlaps_exact(s, m.puzzle@, m.solution@, layers as int, goals as int, cs)) by {
        assert forall|i: int|
            #![trigger s[i]]
            0 <= i < s.len() implies (s[i] matches MapIssue::WallSolutionOverlap { layer, count } ==> layer < layers
                && count == count_both(m.puzzle@, (layer as int) * (goals + 1) * cs, m.solution@, (layer as int) * cs, cs)
                && count > 0) by {
            if i < a.len() {
            } else if i < a.len() + b.len() {
                assert(b[i - a.len()] is TooFewCheckpoints);
            } else {
                assert(c[i - a.len() - b.len()] is NoSolutionCells);
            }
        }
    }
    assert(empty_layers_exact(s, m.solution@, layers as int, cs)) by {
        assert forall|i: int|
            #![trigger s[i]]
            0 <= i < s.len() implies (s[i] matches MapIssue::NoSolutionCells { layer } ==> layer < layers && count_ones(
                m.solution@,
                (layer as int) * cs,
                cs,
            ) == 0) by {
            if i < a.len() {
                assert(a[i] matches MapIssue::WallSolutionOverlap { .. });
            } else if i < a.len() + b.len() {
                assert(b[i - a.len()] is TooFewCheckpoints);
            } else {
            }
        }
    }
}

/// The number of cells among `n` from `start` that hold 1.
fn count_ones_exec(s: &Vec<i8>, start: usize, n: usize) -> (c: usize)
    requires
        start + n <= s@.len(),
        start + n <= usize::MAX,
    ensures
        c == count_ones(s@, start as int, n as int),
{
    let mut c: usize = 0;
    let mut i: usize = 0;
    while i < n
        invariant
            i <= n,
            start + n <= s@.len(),
            start + n <= usize::MAX,
            c == count_ones(s@, start as int, i as int),
        decreases n - i,
    {
        proof {
            lemma_count_bounds_ones(s@, start as int, i as int);
        }
        if s[start + i] == 1 {
            c = c + 1;
        }
        i = i + 1;
    }
    c
}

/// The number of positions among `n` that hold 1 in both sequences.
fn count_both_exec(p: &Vec<i8>, ps: usize, q: &Vec<i8>, qs: usize, n: usize) -> (c: usize)
    requires
        ps + n <= p@.len(),
        qs + n <= q@.len(),
        ps + n <= usize::MAX,
        qs + n <= usize::MAX,
    ensures
        c == count_both(p@, ps as int, q@, qs as int, n as int),
{
    let mut c: usize = 0;
    let mut i: usize = 0;
    while i < n
        invariant
            i <= n,
            ps + n <= p@.len(),
            qs + n <= q@.len(),
            ps + n <= usize::MAX,
            qs + n <= usize::MAX,
            c == count_both(p@, ps as int, q@, qs as int, i as int),
        decreases n - i,
    {
        proof {
            lemma_count_bounds_both(p@, ps as int, q@, qs as int, i as int);
        }
        if p[ps + i] == 1 && q[qs + i] == 1 {
            c = c + 1;
        }
        i = i + 1;
    }
    c
}

/// Checks a map against what generation promises: no cell is both wall and
/// path, every route has at least `checkpoints` checkpoint cells over all
/// layers, and, when routes use vias across several layers, every layer has
/// path cells.
pub fn map_issues(
    map: &MazeMap,
    width: usize,
    height: usize,
    layers: usize,
    goals: usize,
    checkpoints: usize,
    via_count: usize,
) -> (issues: Vec<MapIssue>)
    requires
        goals < usize::MAX,
        height * width <= usize::MAX,
        layers * (goals + 1) <= usize::MAX,
        layers * ((goals + 1) * (height * width)) <= usize::MAX,
        map.puzzle@.len() >= layers * ((goals + 1) * (height * width)),
        map.solution@.len() >= layers * (height * width),
    ensures
        issues@ == map_issues_spec(
            *map,
            width as int,
            height as int,
            layers as int,
            goals as int,
            checkpoints as int,
            via_count as int,
        ),
        forall|r: int|
            0 <= r < goals ==> (shortfall_reported(issues@, r) <==> route_marks(
                map.puzzle@,
                r,
                layers as int,
                goals as int,
                height * width,
            ) < checkpoints),
        shortfalls_exact(issues@, map.puzzle@, layers as int, goals as int, height * width, checkpoints as int),
        forall|l: int|
            0 <= l < layers ==> (overlap_reported(issues@, l) <==> count_both(
                map.puzzle@,
                l * (goals + 1) * (height * width),
                map.solution@,
                l * (height * width),
                height * width,
            ) > 0),
        overlaps_exact(issues@, map.puzzle@, map.solution@, layers as int, goals as int, height * width),
        forall|l: int|
            0 <= l < layers ==> (empty_layer_reported(issues@, l) <==> via_count > 0 && layers > 1 && count_ones(
                map.solution@,
                l * (height * width),
                height * width,
            ) == 0),
        empty_layers_exact(issues@, map.solution@, layers as int, height * width),
{
    let ghost csi = (height * width) as int;
    let ghost gi = goals as int;
    let cs = height * width;
    proof {
        assert(csi >= 0);
    }
    let mut issues: Vec<MapIssue> = Vec::new();
    let mut l: usize = 0;
    while l < layers
        invariant
            l <= layers,
            cs == csi,
            csi == height * width,
            gi == goals,
            goals < usize::MAX,
            layers * (goals + 1) <= usize::MAX,
            layers * ((goals + 1) * (height * width)) <= usize::MAX,
            map.puzzle@.len() >= layers * ((goals + 1) * (height * width)),
            map.solution@.len() >= layers * (height * width),
            issues@ == overlap_issues(*map, l as int, gi, csi),
        decreases layers - l,
    {
        proof {
            assert(l * (gi + 1) * csi + csi <= layers * ((gi + 1) * csi)) by (nonlinear_arith)
                requires
                    l < layers,
                    gi >= 0,
                    csi >= 0,
            ;
            assert(l * csi + csi <= layers * csi) by (nonlinear_arith)
                requires
                    l < layers,
                    csi >= 0,
            ;
            assert(layers * csi <= layers * ((gi + 1) * csi)) by (nonlinear_arith)
                requires
                    gi >= 0,
                    csi >= 0,
                    layers >= 0,
            ;
            assert(l * (gi + 1) * csi == l * ((gi + 1) * csi)) by (nonlinear_arith);
            assert(l * (gi + 1) <= layers * (gi + 1)) by (nonlinear_arith)
                requires
                    l < layers,
                    gi >= 0,
            ;
        }
        let lo = l * (goals + 1) * cs;
        let so = l * cs;
        let n = count_both_exec(&map.puzzle, lo, &map.solution, so, cs);
        if n > 0 {
            issues.push(MapIssue::WallSolutionOverlap { layer: l, count: n });
        }
        proof {
            lemma_count_bounds_both(map.puzzle@, lo as int, map.solution@, so as int, csi);
            assert(issues@ =~= overlap_issues(*map, l as int + 1, gi, csi));
        }
        l = l + 1;
    }
    let ghost part1 = issues@;
    let mut r: usize = 0;
    while r < goals
        invariant
            r <= goals,
            cs == csi,
            csi == height * width,
            gi == goals,
            goals < usize::MAX,
            layers * (goals + 1) <= usize::MAX,
            layers * ((goals + 1) * (height * width)) <= usize::MAX,
            map.puzzle@.len() >= layers * ((goals + 1) * (height * width)),
            issues@ == part1 + checkpoint_issues(*map, r as int, layers as int, gi, csi, checkpoints as int),
        decreases goals - r,
    {
        let mut total: usize = 0;
        let mut l: usize = 0;
        while l < layers
            invariant
                l <= layers,
                r < goals,
                cs == csi,
                csi == height * width,
                gi == goals,
                goals < usize::MAX,
                layers * (goals + 1) <= usize::MAX,
                layers * ((goals + 1) * (height * width)) <= usize::MAX,
                map.puzzle@.len() >= layers * ((goals + 1) * (height * width)),
                total == route_marks(map.puzzle@, r as int, l as int, gi, csi),
            decreases layers - l,
        {
            proof {
                assert(l * (gi + 1) * csi + (r + 1) * csi + csi <= layers * ((gi + 1) * csi)) by (nonlinear_arith)
                    requires
                        l < layers,
                        r < gi,
                        csi >= 0,
                ;
                lemma_route_marks_bound(map.puzzle@, r as int, l as int + 1, gi, csi);
                assert(l * (gi + 1) <= layers * (gi + 1)) by (nonlinear_arith)
                    requires
                        l < layers,
                        gi >= 0,
                ;
                assert(l * (gi + 1) * csi == l * ((gi + 1) * csi)) by (nonlinear_arith);
                assert((r + 1) * csi <= (gi + 1) * csi) by (nonlinear_arith)
                    requires
                        r < gi,
                        csi >= 0,
                ;
                assert(l * (gi + 1) * csi <= layers * ((gi + 1) * csi)) by (nonlinear_arith)
                    requires
                        l < layers,
                        gi >= 0,
                        csi >= 0,
                ;
                assert((l + 1) * csi <= layers * ((gi + 1) * csi)) by (nonlinear_arith)
                    requires
                        l < layers,
                        gi >= 0,
                        csi >= 0,
                ;
            }
            let off = l * (goals + 1) * cs + (r + 1) * cs;
            let c = count_ones_exec(&map.puzzle, off, cs);
            total = total + c;
            l = l + 1;
        }
        if total < checkpoints {
            issues.push(MapIssue::TooFewCheckpoints { route: r, found: total, expected: checkpoints });
        }
        proof {
            assert(issues@ =~= part1 + checkpoint_issues(*map, r as int + 1, layers as int, gi, csi, checkpoints as int));
        }
        r = r + 1;
    }
    let ghost part2 = issues@;
    let mut l: usize = 0;
    while l < layers
        invariant
            l <= layers,
            cs == csi,
            csi == height * width,
            goals < usize::MAX,
            layers * ((goals + 1) * (height * width)) <= usize::MAX,
            map.solution@.len() >= layers * (height * width),
            issues@ == part2 + path_issues(*map, l as int, layers as int, csi, via_count as int),
        decreases layers - l,
    {
        proof {
            assert(l * csi + csi <= layers * csi) by (nonlinear_arith)
                requires
                    l < layers,
                    csi >= 0,
            ;
            assert(layers * csi <= layers * ((goals + 1) * csi)) by (nonlinear_arith)
                requires
                    csi >= 0,
                    layers >= 0,
            ;
        }
        let n = count_ones_exec(&map.solution, l * cs, cs);
        if via_count > 0 && layers > 1 && n == 0 {
            issues.push(MapIssue::NoSolutionCells { layer: l });
        }
        proof {
            assert(issues@ =~= part2 + path_issues(*map, l as int + 1, layers as int, csi, via_count as int));
        }
        l = l + 1;
    }
    proof {
        assert(issues@ =~= map_issues_spec(
            *map,
            width as int,
            height as int,
            layers as int,
            goals as int,
            checkpoints as int,
            via_count as int,
        ));
        assert(layers * (height * width) <= usize::MAX) by (nonlinear_arith)
            requires
                layers * ((goals + 1) * (height * width)) <= usize::MAX,
                height * width >= 0,
                layers >= 0,
        ;
        lemma_shortfall_reported(*map, width, height, layers, goals, checkpoints, via_count);
        lemma_layer_issues_reported(*map, width, height, layers, goals, checkpoints, via_count);
    }
    issues
}


/// The character of the decimal digit `d`.
pub open spec fn digit(d: nat) -> char {
    (d + 48) as char
}

/// The decimal writing of `n`, most significant digit first, as `{}` prints it.
pub open spec fn decimal(n: nat) -> Seq<char>
    decreases n,
{
    if n < 10 {
        seq![digit(n)]
    } else {
        decimal(n / 10).push(digit(n % 10))
    }
}

/// The message that reports an issue.
pub open spec fn issue_text(issue: MapIssue) -> Seq<char> {
    match issue {
        MapIssue::WallSolutionOverlap { layer, count } => "Layer "@ + decimal(layer as nat) + ": "@ + decimal(
            count as nat,
        ) + " wall/solution overlaps"@,
        MapIssue::TooFewCheckpoints { route, found, expected } => "Route "@ + decimal(route as nat)
            + ": only "@ + decimal(found as nat) + " checkpoint cells (expected >= "@ + decimal(
            expected as nat,
        ) + ")"@,
        MapIssue::NoSolutionCells { layer } => "Layer "@ + decimal(layer as nat) + ": no solution path cells"@,
    }
}

/// Writes the decimal digit `d` at the end of `s`.
fn push_digit(s: &mut String, d: usize)
    requires
        d < 10,
    ensures
        final(s)@ == old(s)@ + seq![digit(d as nat)],
{
    proof {
        reveal_strlit("0");
        reveal_strlit("1");
        reveal_strlit("2");
        reveal_strlit("3");
        reveal_strlit("4");
        reveal_strlit("5");
        reveal_strlit("6");
        reveal_strlit("7");
        reveal_strlit("8");
        reveal_strlit("9");
    }
    match d {
        0 => s.append("0"),
        1 => s.append("1"),
        2 => s.append("2"),
        3 => s.append("3"),
        4 => s.append("4"),
        5 => s.append("5"),
        6 => s.append("6"),
        7 => s.append("7"),
        8 => s.append("8"),
        _ => s.append("9"),
    }
}

/// Writes `n` in decimal at the end of `s`, as `{}` prints it.
fn push_decimal(s: &mut String, n: usize)
    ensures
        final(s)@ == old(s)@ + decimal(n as nat),
    decreases n,
{
    if n >= 10 {
        push_decimal(s, n / 10);
    }
    push_digit(s, n % 10);
    proof {
        if n >= 10 {
            assert(decimal(n as nat) == decimal((n / 10) as nat).push(digit((n % 10) as nat)));
        } else {
            assert(decimal(n as nat) == seq![digit(n as nat)]);
        }
    }
}

/// The report of a wall/path overlap.
fn overlap_message(layer: usize, count: usize) -> (s: String)
    ensures
        s@ == "Layer "@ + decimal(layer as nat) + ": "@ + decimal(count as nat) + " wall/solution overlaps"@,
{
    let mut s = String::from_str("Layer ");
    push_decimal(&mut s, layer);
    s.append(": ");
    push_decimal(&mut s, count);
    s.append(" wall/solution overlaps");
    s
}

/// The report of a route with too few checkpoint cells.
fn few_checkpoints_message(route: usize, found: usize, expected: usize) -> (s: String)
    ensures
        s@ == "Route "@ + decimal(route as nat) + ": only "@ + decimal(found as nat)
            + " checkpoint cells (expected >= "@ + decimal(expected as nat) + ")"@,
{
    let mut s = String::from_str("Route ");
    push_decimal(&mut s, route);
    s.append(": only ");
    push_decimal(&mut s, found);
    s.append(" checkpoint cells (expected >= ");
    push_decimal(&mut s, expected);
    s.append(")");
    s
}

/// The report of a layer without path cells.
fn no_path_message(layer: usize) -> (s: String)
    ensures
        s@ == "Layer "@ + decimal(layer as nat) + ": no solution path cells"@,
{
    let mut s = String::from_str("Layer ");
    push_decimal(&mut s, layer);
    s.append(": no solution path cells");
    s
}

/// The message that reports `issue`.
pub fn issue_message(issue: &MapIssue) -> (s: String)
    ensures
        s@ == issue_text(*issue),
{
    match issue {
        MapIssue::WallSolutionOverlap { layer, count } => overlap_message(*layer, *count),
        MapIssue::TooFewCheckpoints { route, found, expected } => few_checkpoints_message(*route, *found, *expected),
        MapIssue::NoSolutionCells { layer } => no_path_message(*layer),
    }
}

/// Checks a generated map and describes each problem found, in the order of
/// `map_issues`: wall/path overlaps per layer, routes with too few
/// checkpoint cells, and layers without any path cell.
pub fn validate_map(
    map: &MazeMap,
    width: usize,
    height: usize,
    layers: usize,
    goals: usize,
    checkpoints: usize,
    via_count: usize,
) -> (errors: Vec<String>)
    requires
        goals < usize::MAX,
        height * width <= usize::MAX,
        layers * (goals + 1) <= usize::MAX,
        layers * ((goals + 1) * (height * width)) <= usize::MAX,
        map.puzzle@.len() >= layers * ((goals + 1) * (height * width)),
        map.solution@.len() >= layers * (height * width),
    ensures
        errors@.len() == map_issues_spec(*map, width as int, height as int, layers as int, goals as int, checkpoints as int, via_count as int).len(),
        forall|i: int|
            0 <= i < errors@.len() ==> (#[trigger] errors@[i])@ == issue_text(
                map_issues_spec(*map, width as int, height as int, layers as int, goals as int, checkpoints as int, via_count as int)[i],
            ),
{
    let issues = map_issues(map, width, height, layers, goals, checkpoints, via_count);
    let mut errors: Vec<String> = Vec::new();
    let mut i: usize = 0;
    while i < issues.len()
        invariant
            i <= issues@.len(),
            errors@.len() == i,
            forall|j: int| 0 <= j < i ==> (#[trigger] errors@[j])@ == issue_text(issues@[j]),
        decreases issues@.len() - i,
    {
        let s = issue_message(&issues[i]);
        errors.push(s);
        i = i + 1;
    }
    errors
}

} // verus!
