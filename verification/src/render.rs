use vstd::prelude::*;
use crate::grid::{Cell, flat, lemma_flat};
use crate::types::{LayerRouteData, MazeMap};

verus! {

/// An RGB color.
pub type Rgb = (u8, u8, u8);

/// The color of route `k` in rendered images; routes beyond the tenth reuse
/// the palette from the start.
pub open spec fn route_color(k: int) -> Rgb {
    let i = k % 10;
    if i == 0 {
        (220, 50, 50)
    } else if i == 1 {
        (50, 180, 50)
    } else if i == 2 {
        (50, 80, 220)
    } else if i == 3 {
        (220, 180, 30)
    } else if i == 4 {
        (180, 50, 180)
    } else if i == 5 {
        (50, 180, 180)
    } else if i == 6 {
        (200, 120, 50)
    } else if i == 7 {
        (120, 50, 200)
    } else if i == 8 {
        (50, 200, 100)
    } else {
        (200, 50, 120)
    }
}

/// The color of route `k`.
pub fn route_color_exec(k: usize) -> (c: Rgb)
    ensures
        c == route_color(k as int),
{
    let i = k % 10;
    if i == 0 {
        (220, 50, 50)
    } else if i == 1 {
        (50, 180, 50)
    } else if i == 2 {
        (50, 80, 220)
    } else if i == 3 {
        (220, 180, 30)
    } else if i == 4 {
        (180, 50, 180)
    } else if i == 5 {
        (50, 180, 180)
    } else if i == 6 {
        (200, 120, 50)
    } else if i == 7 {
        (120, 50, 200)
    } else if i == 8 {
        (50, 200, 100)
    } else {
        (200, 50, 120)
    }
}

/// The color of a cell before checkpoints and vias are drawn: black walls,
/// path cells in their route's color, grey elsewhere.
pub open spec fn base_color(m: MazeMap, rd: LayerRouteData, l: int, goals: int, h: int, w: int, y: int, x: int) -> Rgb {
    let cs = h * w;
    let f = flat(y, x, w);
    if m.puzzle@[l * (goals + 1) * cs + f] == 1 {
        (0, 0, 0)
    } else if (rd.route_owner@[f] as int) < goals && m.solution@[l * cs + f] == 1 {
        route_color(rd.route_owner@[f] as int)
    } else {
        (128, 128, 128)
    }
}

/// Some list among the first `n` of `lists` holds the cell `c`.
pub open spec fn listed(lists: Seq<Vec<Cell>>, n: int, c: Cell) -> bool {
    exists|r: int, j: int| 0 <= r < n && 0 <= j < lists[r]@.len() && #[trigger] lists[r]@[j] == c
}

/// The rendered color of a cell: vias yellow, checkpoints white, otherwise
/// the base color.
pub open spec fn pixel_color(m: MazeMap, rd: LayerRouteData, l: int, goals: int, h: int, w: int, y: int, x: int) -> Rgb {
    let c = (y as usize, x as usize);
    if listed(rd.vias@, goals, c) {
        (255, 255, 0)
    } else if listed(rd.checkpoints@, goals, c) {
        (255, 255, 255)
    } else {
        base_color(m, rd, l, goals, h, w, y, x)
    }
}

/// The color stored for the cell at row-major position `f` of a pixel buffer
/// with three bytes per cell.
pub open spec fn pixel_at(px: Seq<u8>, f: int) -> Rgb {
    (px[3 * f], px[3 * f + 1], px[3 * f + 2])
}

/// Every cell of the first `goals` lists lies in the image.
pub open spec fn lists_in_image(lists: Seq<Vec<Cell>>, goals: int, h: int, w: int) -> bool {
    forall|r: int, j: int| 0 <= r < goals && 0 <= j < lists[r]@.len() ==> {
        let c = #[trigger] lists[r]@[j];
        c.0 < h && c.1 < w
    }
}

/// Paints the cells of the first `n` lists with `color`.
fn paint_lists(colors: &mut Vec<Rgb>, lists: &Vec<Vec<Cell>>, n: usize, h: usize, w: usize, color: Rgb)
    requires
        n <= lists@.len(),
        old(colors)@.len() == h * w,
        lists_in_image(lists@, n as int, h as int, w as int),
    ensures
        final(colors)@.len() == h * w,
        forall|y: int, x: int|
            0 <= y < h && 0 <= x < w ==> #[trigger] final(colors)@[flat(y, x, w as int)] == if listed(
                lists@,
                n as int,
                (y as usize, x as usize),
            ) {
                color
            } else {
                old(colors)@[flat(y, x, w as int)]
            },
{
    let ghost c0 = colors@;
    let cells = colors.len();
    let mut r: usize = 0;
    while r < n
        invariant
            r <= n,
            n <= lists@.len(),
            cells == h * w,
            colors@.len() == h * w,
            lists_in_image(lists@, n as int, h as int, w as int),
            forall|y: int, x: int|
                0 <= y < h && 0 <= x < w ==> #[trigger] colors@[flat(y, x, w as int)] == if listed(
                    lists@,
                    r as int,
                    (y as usize, x as usize),
                ) {
                    color
                } else {
                    c0[flat(y, x, w as int)]
                },
        decreases n - r,
    {
        let list = &lists[r];
        let mut j: usize = 0;
        while j < list.len()
            invariant
                j <= list@.len(),
                r < n,
                n <= lists@.len(),
                list@ == lists@[r as int]@,
                cells == h * w,
                colors@.len() == h * w,
                lists_in_image(lists@, n as int, h as int, w as int),
                forall|y: int, x: int|
                    0 <= y < h && 0 <= x < w ==> #[trigger] colors@[flat(y, x, w as int)] == if listed(
                        lists@,
                        r as int,
                        (y as usize, x as usize),
                    ) || (exists|q: int| 0 <= q < j && #[trigger] list@[q] == (y as usize, x as usize)) {
                        color
                    } else {
                        c0[flat(y, x, w as int)]
                    },
            decreases list@.len() - j,
        {
            let c = list[j];
            proof {
                assert(lists@[r as int]@[j as int] == c);
                lemma_flat(c.0 as int, c.1 as int, h as int, w as int);
            }
            let ghost k0 = colors@;
            let idx = c.0 * w + c.1;
            colors.set(idx, color);
            proof {
                assert forall|y: int, x: int|
                    0 <= y < h && 0 <= x < w implies #[trigger] colors@[flat(y, x, w as int)] == if listed(
                        lists@,
                        r as int,
                        (y as usize, x as usize),
                    ) || (exists|q: int| 0 <= q < j + 1 && #[trigger] list@[q] == (y as usize, x as usize)) {
                        color
                    } else {
                        c0[flat(y, x, w as int)]
                    } by {
                    lemma_flat(y, x, h as int, w as int);
                    if (y as usize, x as usize) == c {
                        assert(list@[j as int] == (y as usize, x as usize));
                    } else {
                        assert(flat(y, x, w as int) != flat(c.0 as int, c.1 as int, w as int));
                        assert(colors@[flat(y, x, w as int)] == k0[flat(y, x, w as int)]);
                        if exists|q: int| 0 <= q < j + 1 && #[trigger] list@[q] == (y as usize, x as usize) {
                            let q = choose|q: int| 0 <= q < j + 1 && #[trigger] list@[q] == (y as usize, x as usize);
                            assert(q < j);
                        }
                    }
                }
            }
            j = j + 1;
        }
        proof {
            assert forall|y: int, x: int|
                0 <= y < h && 0 <= x < w implies #[trigger] colors@[flat(y, x, w as int)] == if listed(
                    lists@,
                    r as int + 1,
                    (y as usize, x as usize),
                ) {
                    color
                } else {
                    c0[flat(y, x, w as int)]
                } by {
                let c = (y as usize, x as usize);
                if listed(lists@, r as int + 1, c) && !listed(lists@, r as int, c) {
                    let (rr, jj) = choose|rr: int, jj: int|
                        0 <= rr < r + 1 && 0 <= jj < lists@[rr]@.len() && #[trigger] lists@[rr]@[jj] == c;
                    assert(rr == r);
                    assert(list@[jj] == c);
                }
                if exists|q: int| 0 <= q < list@.len() && #[trigger] list@[q] == c {
                    let q = choose|q: int| 0 <= q < list@.len() && #[trigger] list@[q] == c;
                    assert(lists@[r as int]@[q] == c);
                    assert(listed(lists@, r as int + 1, c));
                }
                if listed(lists@, r as int, c) {
                    let (rr, jj) = choose|rr: int, jj: int|
                        0 <= rr < r && 0 <= jj < lists@[rr]@.len() && #[trigger] lists@[rr]@[jj] == c;
                    assert(listed(lists@, r as int + 1, c));
                }
            }
        }
        r = r + 1;
    }
}

/// The pixels of layer `l` as the image would show them, row by row, three
/// bytes (red, green, blue) per cell: walls black, path cells in their route's
/// color, other open cells grey, then checkpoints white and vias yellow.
pub fn layer_pixels(map: &MazeMap, rd: &LayerRouteData, width: usize, height: usize, goals: usize, l: usize) -> (px: Vec<u8>)
    requires
        goals < usize::MAX,
        3 * (height * width) <= usize::MAX,
        (l + 1) * ((goals + 1) * (height * width)) <= map.puzzle@.len(),
        (l + 1) * (height * width) <= map.solution@.len(),
        rd.route_owner@.len() >= height * width,
        rd.checkpoints@.len() >= goals,
        rd.vias@.len() >= goals,
        lists_in_image(rd.checkpoints@, goals as int, height as int, width as int),
        lists_in_image(rd.vias@, goals as int, height as int, width as int),
    ensures
        px@.len() == 3 * (height * width),
        forall|y: int, x: int|
            0 <= y < height && 0 <= x < width ==> #[trigger] pixel_at(px@, flat(y, x, width as int))
                == pixel_color(*map, *rd, l as int, goals as int, height as int, width as int, y, x),
        forall|y: int, x: int|
            0 <= y < height && 0 <= x < width && !listed(rd.vias@, goals as int, (y as usize, x as usize))
                && !listed(rd.checkpoints@, goals as int, (y as usize, x as usize))
                && map.puzzle@[l * (goals + 1) * (height * width) + y * width + x] != 1
                ==> #[trigger] pixel_at(px@, y * width + x) == (if (rd.route_owner@[y * width + x] as int) < goals
                && map.solution@[l * (height * width) + y * width + x] == 1 {
                route_color(rd.route_owner@[y * width + x] as int)
            } else {
                (128u8, 128u8, 128u8)
            }),
        forall|y: int, x: int|
            0 <= y < height && 0 <= x < width && listed(rd.vias@, goals as int, (y as usize, x as usize)) ==> #[trigger] pixel_at(
                px@,
                y * width + x,
            ) == (255u8, 255u8, 0u8),
        forall|y: int, x: int|
            0 <= y < height && 0 <= x < width && !listed(rd.vias@, goals as int, (y as usize, x as usize)) && listed(
                rd.checkpoints@,
                goals as int,
                (y as usize, x as usize),
            ) ==> #[trigger] pixel_at(px@, y * width + x) == (255u8, 255u8, 255u8),
        forall|y: int, x: int|
            0 <= y < height && 0 <= x < width && !listed(rd.vias@, goals as int, (y as usize, x as usize)) && !listed(
                rd.checkpoints@,
                goals as int,
                (y as usize, x as usize),
            ) && map.puzzle@[l * (goals + 1) * (height * width) + y * width + x] == 1 ==> #[trigger] pixel_at(
                px@,
                y * width + x,
            ) == (0u8, 0u8, 0u8),
{
    let ghost h = height as int;
    let ghost w = width as int;
    let ghost cs = h * w;
    let cs_e = height * width;
    let puzzle_len = map.puzzle.len();
    let solution_len = map.solution.len();
    proof {
        assert((goals + 1) * cs_e <= (l + 1) * ((goals + 1) * cs_e)) by (nonlinear_arith)
            requires
                cs_e >= 0,
        ;
        assert(l * ((goals + 1) * cs_e) <= (l + 1) * ((goals + 1) * cs_e)) by (nonlinear_arith)
            requires
                cs_e >= 0,
        ;
        assert(l * cs_e <= (l + 1) * cs_e) by (nonlinear_arith)
            requires
                cs_e >= 0,
        ;
    }
    let block = (goals + 1) * cs_e;
    proof {
        assert(cs_e <= block) by (nonlinear_arith)
            requires
                block == (goals + 1) * cs_e,
        ;
        assert(l * block + block <= map.puzzle@.len()) by (nonlinear_arith)
            requires
                (l + 1) * block <= map.puzzle@.len(),
        ;
        assert(l * cs_e + cs_e <= map.solution@.len()) by (nonlinear_arith)
            requires
                (l + 1) * cs_e <= map.solution@.len(),
        ;
        assert(l * block == l * (goals + 1) * cs_e) by (nonlinear_arith)
            requires
                block == (goals + 1) * cs_e,
        ;
    }
    let pz_off = l * block;
    let sol_off = l * cs_e;
    let mut colors: Vec<Rgb> = Vec::new();
    let mut y: usize = 0;
    while y < height
        invariant
            y <= height,
            h == height,
            w == width,
            cs == h * w,
            cs_e == height * width,
            pz_off == l * (goals + 1) * cs,
            sol_off == l * cs,
            pz_off + cs_e <= map.puzzle@.len(),
            sol_off + cs_e <= map.solution@.len(),
            puzzle_len == map.puzzle@.len(),
            solution_len == map.solution@.len(),
            rd.route_owner@.len() >= cs_e,
            colors@.len() == y * width,
            forall|yy: int, x: int|
                0 <= yy < y && 0 <= x < width ==> #[trigger] colors@[flat(yy, x, w)] == base_color(
                    *map,
                    *rd,
                    l as int,
                    goals as int,
                    h,
                    w,
                    yy,
                    x,
                ),
        decreases height - y,
    {
        proof {
            assert(y * width + width <= height * width) by (nonlinear_arith)
                requires
                    y < height,
            ;
        }
        let mut x: usize = 0;
        while x < width
            invariant
                x <= width,
                y < height,
                h == height,
                w == width,
                cs == h * w,
                cs_e == height * width,
                y * width + width <= height * width,
                pz_off == l * (goals + 1) * cs,
                sol_off == l * cs,
                pz_off + cs_e <= map.puzzle@.len(),
                sol_off + cs_e <= map.solution@.len(),
                puzzle_len == map.puzzle@.len(),
                solution_len == map.solution@.len(),
                rd.route_owner@.len() >= cs_e,
                colors@.len() == y * width + x,
                forall|yy: int, xx: int|
                    0 <= yy < y && 0 <= xx < width ==> #[trigger] colors@[flat(yy, xx, w)] == base_color(
                        *map,
                        *rd,
                        l as int,
                        goals as int,
                        h,
                        w,
                        yy,
                        xx,
                    ),
                forall|xx: int|
                    0 <= xx < x ==> #[trigger] colors@[flat(y as int, xx, w)] == base_color(
                        *map,
                        *rd,
                        l as int,
                        goals as int,
                        h,
                        w,
                        y as int,
                        xx,
                    ),
            decreases width - x,
        {
            let f = y * width + x;
            let owner = rd.route_owner[f] as usize;
            let c: Rgb = if map.puzzle[pz_off + f] == 1 {
                (0, 0, 0)
            } else if owner < goals && map.solution[sol_off + f] == 1 {
                route_color_exec(owner)
            } else {
                (128, 128, 128)
            };
            let ghost k0 = colors@;
            colors.push(c);
            proof {
                assert(c == base_color(*map, *rd, l as int, goals as int, h, w, y as int, x as int));
                assert forall|yy: int, xx: int|
                    0 <= yy < y && 0 <= xx < width implies #[trigger] colors@[flat(yy, xx, w)] == base_color(
                        *map,
                        *rd,
                        l as int,
                        goals as int,
                        h,
                        w,
                        yy,
                        xx,
                    ) by {
                    lemma_flat(yy, xx, y as int, w);
                    assert(colors@[flat(yy, xx, w)] == k0[flat(yy, xx, w)]);
                }
                assert forall|xx: int|
                    0 <= xx < x + 1 implies #[trigger] colors@[flat(y as int, xx, w)] == base_color(
                        *map,
                        *rd,
                        l as int,
                        goals as int,
                        h,
                        w,
                        y as int,
                        xx,
                    ) by {
                    if xx < x {
                        assert(colors@[flat(y as int, xx, w)] == k0[flat(y as int, xx, w)]);
                    }
                }
            }
            x = x + 1;
        }
        proof {
            assert(y * width + width == (y + 1) * width) by (nonlinear_arith);
        }
        y = y + 1;
    }
    let ghost base = colors@;
    paint_lists(&mut colors, &rd.checkpoints, goals, height, width, (255, 255, 255));
    let ghost painted = colors@;
    paint_lists(&mut colors, &rd.vias, goals, height, width, (255, 255, 0));
    let mut px: Vec<u8> = Vec::new();
    let mut i: usize = 0;
    while i < colors.len()
        invariant
            i <= colors@.len(),
            colors@.len() == cs_e,
            3 * cs_e <= usize::MAX,
            px@.len() == 3 * i,
            forall|j: int|
                0 <= j < i ==> #[trigger] px@[3 * j] == colors@[j].0 && px@[3 * j + 1] == colors@[j].1 && px@[3 * j + 2]
                    == colors@[j].2,
        decreases colors@.len() - i,
    {
        let c = colors[i];
        let ghost p0 = px@;
        px.push(c.0);
        px.push(c.1);
        px.push(c.2);
        proof {
            assert forall|j: int|
                0 <= j < i + 1 implies #[trigger] px@[3 * j] == colors@[j].0 && px@[3 * j + 1] == colors@[j].1 && px@[3
                    * j + 2] == colors@[j].2 by {
                if j < i {
                    assert(px@[3 * j] == p0[3 * j]);
                    assert(px@[3 * j + 1] == p0[3 * j + 1]);
                    assert(px@[3 * j + 2] == p0[3 * j + 2]);
                }
            }
        }
        i = i + 1;
    }
    proof {
        assert forall|y: int, x: int|
            0 <= y < height && 0 <= x < width implies #[trigger] pixel_at(px@, flat(y, x, width as int))
                == pixel_color(*map, *rd, l as int, goals as int, height as int, width as int, y, x) by {
            let f = flat(y, x, width as int);
            lemma_flat(y, x, h, w);
            assert(base[flat(y, x, w)] == base_color(*map, *rd, l as int, goals as int, h, w, y, x));
            assert(painted[flat(y, x, w)] == if listed(rd.checkpoints@, goals as int, (y as usize, x as usize)) {
                (255u8, 255u8, 255u8)
            } else {
                base[flat(y, x, w)]
            });
            assert(colors@[flat(y, x, w)] == if listed(rd.vias@, goals as int, (y as usize, x as usize)) {
                (255u8, 255u8, 0u8)
            } else {
                painted[flat(y, x, w)]
            });
            assert(px@[3 * f] == colors@[f].0);
        }
        assert forall|y: int, x: int|
            0 <= y < height && 0 <= x < width && !listed(rd.vias@, goals as int, (y as usize, x as usize))
                && !listed(rd.checkpoints@, goals as int, (y as usize, x as usize))
                && map.puzzle@[l * (goals + 1) * (height * width) + y * width + x] != 1
                implies #[trigger] pixel_at(px@, y * width + x) == (if (rd.route_owner@[y * width + x] as int) < goals
                && map.solution@[l * (height * width) + y * width + x] == 1 {
                route_color(rd.route_owner@[y * width + x] as int)
            } else {
                (128u8, 128u8, 128u8)
            }) by {
            assert(pixel_at(px@, flat(y, x, width as int)) == pixel_color(
                *map,
                *rd,
                l as int,
                goals as int,
                height as int,
                width as int,
                y,
                x,
            ));
        }
        assert forall|y: int, x: int| 0 <= y < height && 0 <= x < width implies #[trigger] pixel_at(px@, y * width + x)
            == pixel_color(*map, *rd, l as int, goals as int, height as int, width as int, y, x) by {
            assert(pixel_at(px@, flat(y, x, width as int)) == pixel_color(
                *map,
                *rd,
                l as int,
                goals as int,
                height as int,
                width as int,
                y,
                x,
            ));
        }
    }
    px
}

} // verus!
