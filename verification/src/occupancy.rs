use vstd::prelude::*;
use crate::bresenham::{Bresenham, LineState, line_points, line_fits, fits_i32, lemma_step};

verus! {

/// The cell at column `i` and row `j` of a grid stored row by row, `nw` cells a row.
pub open spec fn cell(g: Seq<bool>, nw: int, i: int, j: int) -> bool {
    g[i + j * nw]
}

/// Whether the square of side `2 * rad` around `(x, y)` (columns `x - rad`
/// up to `x + rad`, rows likewise, the upper bounds excluded) leaves the grid
/// or holds an occupied cell. The square must keep one cell of margin to the
/// right and at the bottom of the grid.
pub open spec fn blocked_around(g: Seq<bool>, nh: int, nw: int, x: int, y: int, rad: int) -> bool {
    ||| x + rad + 1 > nw
    ||| y + rad + 1 > nh
    ||| x < rad
    ||| y < rad
    ||| exists|i: int, j: int|
        x - rad <= i < x + rad && y - rad <= j < y + rad && #[trigger] cell(g, nw, i, j)
}

/// Whether the square around `(x, y)` is clear of the grid's borders and of
/// occupied cells.
pub fn checkaround(grid: &Vec<bool>, nh: usize, nw: usize, x: usize, y: usize, rad: usize) -> (r:
    bool)
    requires
        x + rad + 1 <= usize::MAX,
        y + rad + 1 <= usize::MAX,
        nh * nw <= grid.len(),
    ensures
        r == blocked_around(grid@, nh as int, nw as int, x as int, y as int, rad as int),
        r <==> (x < rad || y < rad || x + rad + 1 > nw || y + rad + 1 > nh || exists|i: int, j: int|
            #![trigger grid@[i + j * nw]]
            x - rad <= i < x + rad && y - rad <= j < y + rad && grid@[i + j * nw]),
{
    if (x + rad + 1 > nw) || (y + rad + 1 > nh) {
        return true;
    }
    if x < rad || y < rad {
        return true;
    }
    let ghost g = grid@;
    let mut i: usize = x - rad;
    while i < x + rad
        invariant
            x + rad + 1 <= nw,
            y + rad + 1 <= nh,
            rad <= x,
            rad <= y,
            nh * nw <= grid.len(),
            g == grid@,
            x - rad <= i <= x + rad,
            forall|i2: int, j2: int|
                x - rad <= i2 < i && y - rad <= j2 < y + rad ==> !#[trigger] cell(g, nw as int, i2, j2),
        decreases x + rad - i,
    {
        let mut j: usize = y - rad;
        while j < y + rad
            invariant
                x + rad + 1 <= nw,
                y + rad + 1 <= nh,
                rad <= x,
                rad <= y,
                nh * nw <= grid.len(),
                g == grid@,
                x - rad <= i < x + rad,
                y - rad <= j <= y + rad,
                forall|i2: int, j2: int|
                    x - rad <= i2 < i && y - rad <= j2 < y + rad ==> !#[trigger] cell(g, nw as int, i2, j2),
                forall|j2: int| y - rad <= j2 < j ==> !#[trigger] cell(g, nw as int, i as int, j2),
            decreases y + rad - j,
        {
            assert(i + j * nw < nh * nw) by (nonlinear_arith)
                requires
                    i < nw,
                    j + 1 < nh,
            ;
            if grid[i + j * nw] {
                assert(cell(g, nw as int, i as int, j as int));
                return true;
            }
            j += 1;
        }
        i += 1;
    }
    assert forall|i2: int, j2: int|
        #![trigger grid@[i2 + j2 * nw]]
        x - rad <= i2 < x + rad && y - rad <= j2 < y + rad implies !grid@[i2 + j2 * nw] by {
        assert(!cell(g, nw as int, i2, j2));
    }
    false
}

/// The square test sees every cell of the square: an occupied cell in
/// columns `x - rad .. x + rad` and rows `y - rad .. y + rad` (upper bounds
/// excluded) blocks the square.
pub proof fn lemma_blocked_by_cell(
    g: Seq<bool>,
    nh: int,
    nw: int,
    x: int,
    y: int,
    rad: int,
    i: int,
    j: int,
)
    requires
        x - rad <= i < x + rad,
        y - rad <= j < y + rad,
        g[i + j * nw],
    ensures
        blocked_around(g, nh, nw, x, y, rad),
{
    assert(cell(g, nw, i, j));
}

/// A square that reaches the grid's left or top border, or comes within one
/// cell of its right or bottom border, is blocked; one that does neither and
/// holds no occupied cell is clear.
pub proof fn lemma_blocked_bounds(g: Seq<bool>, nh: int, nw: int, x: int, y: int, rad: int)
    ensures
        x < rad || y < rad || x + rad + 1 > nw || y + rad + 1 > nh ==> blocked_around(
            g,
            nh,
            nw,
            x,
            y,
            rad,
        ),
        rad <= x && rad <= y && x + rad + 1 <= nw && y + rad + 1 <= nh && (forall|i: int, j: int|
            #![trigger g[i + j * nw]]
            x - rad <= i < x + rad && y - rad <= j < y + rad ==> !g[i + j * nw]) ==> !blocked_around(
            g,
            nh,
            nw,
            x,
            y,
            rad,
        ),
{
}

/// A cell that the placement scan accepts: on the grid, on both axes a
/// multiple of five, and with a clear square of half-side `rad` around it.
pub open spec fn start_ok(g: Seq<bool>, nh: int, nw: int, rad: int, i: int, j: int) -> bool {
    &&& 0 <= i < nw
    &&& 0 <= j < nh
    &&& i % 5 == 0
    &&& j % 5 == 0
    &&& !blocked_around(g, nh, nw, i, j, rad)
}

/// The scan accepts exactly the grid cells on a multiple of five on both
/// axes whose square of half-side `rad` stays off the left and top borders,
/// keeps one cell to the right and bottom borders, and holds no occupied cell.
pub proof fn lemma_start_ok_cells(g: Seq<bool>, nh: int, nw: int, rad: int, i: int, j: int)
    ensures
        start_ok(g, nh, nw, rad, i, j) <==> {
            &&& 0 <= i < nw && 0 <= j < nh && i % 5 == 0 && j % 5 == 0
            &&& rad <= i && rad <= j && i + rad + 1 <= nw && j + rad + 1 <= nh
            &&& forall|a: int, b: int|
                #![trigger g[a + b * nw]]
                i - rad <= a < i + rad && j - rad <= b < j + rad ==> !g[a + b * nw]
        },
{
    lemma_blocked_bounds(g, nh, nw, i, j, rad);
    if start_ok(g, nh, nw, rad, i, j) {
        assert forall|a: int, b: int|
            #![trigger g[a + b * nw]]
            i - rad <= a < i + rad && j - rad <= b < j + rad implies !g[a + b * nw] by {
            if g[a + b * nw] {
                lemma_blocked_by_cell(g, nh, nw, i, j, rad, a, b);
            }
        }
    }
}

/// Scans the grid column by column (every fifth column, and in each every
/// fifth row) for the first cell with a clear square of half-side `rad`
/// around it.
pub fn find_start_cell(grid: &Vec<bool>, nh: usize, nw: usize, rad: usize) -> (r: Option<
    (usize, usize),
>)
    requires
        nw + rad + 1 <= usize::MAX,
        nh + rad + 1 <= usize::MAX,
        nh * nw <= grid.len(),
    ensures
        match r {
            Some(c) => {
                &&& c.0 < nw && c.1 < nh && c.0 % 5 == 0 && c.1 % 5 == 0
                &&& rad <= c.0 && rad <= c.1 && c.0 + rad + 1 <= nw && c.1 + rad + 1 <= nh
                &&& forall|i: int, j: int|
                    #![trigger grid@[i + j * nw]]
                    c.0 - rad <= i < c.0 + rad && c.1 - rad <= j < c.1 + rad ==> !grid@[i + j * nw]
                &&& start_ok(grid@, nh as int, nw as int, rad as int, c.0 as int, c.1 as int)
                &&& forall|i: int, j: int|
                    #[trigger] start_ok(grid@, nh as int, nw as int, rad as int, i, j) ==> c.0 < i
                        || (c.0 == i && c.1 <= j)
            },
            None => forall|i: int, j: int| !#[trigger] start_ok(grid@, nh as int, nw as int, rad as int, i, j),
        },
{
    let ghost g = grid@;
    let mut i: usize = 0;
    while i < nw
        invariant
            nw + rad + 1 <= usize::MAX,
            nh + rad + 1 <= usize::MAX,
            nh * nw <= grid.len(),
            g == grid@,
            i <= nw,
            i < nw ==> i % 5 == 0,
            forall|i2: int, j2: int|
                i2 < i ==> !#[trigger] start_ok(g, nh as int, nw as int, rad as int, i2, j2),
        decreases nw - i,
    {
        let mut j: usize = 0;
        while j < nh
            invariant
                nw + rad + 1 <= usize::MAX,
                nh + rad + 1 <= usize::MAX,
                nh * nw <= grid.len(),
                g == grid@,
                i < nw,
                i % 5 == 0,
                j <= nh,
                j < nh ==> j % 5 == 0,
                forall|i2: int, j2: int|
                    i2 < i ==> !#[trigger] start_ok(g, nh as int, nw as int, rad as int, i2, j2),
                forall|j2: int|
                    j2 < j ==> !#[trigger] start_ok(g, nh as int, nw as int, rad as int, i as int, j2),
            decreases nh - j,
        {
            if !checkaround(grid, nh, nw, i, j, rad) {
                return Some((i, j));
            }
            if nh - j <= 5 {
                j = nh;
            } else {
                j = j + 5;
            }
        }
        if nw - i <= 5 {
            i = nw;
        } else {
            i = i + 5;
        }
    }
    None
}

/// A cell as mathematical integers.
pub open spec fn cell_of(r: Option<(i32, i32)>) -> Option<(int, int)> {
    match r {
        Some(p) => Some((p.0 as int, p.1 as int)),
        None => None,
    }
}

pub open spec fn in_grid(nh: int, nw: int, p: (int, int)) -> bool {
    0 <= p.0 < nw && 0 <= p.1 < nh
}

/// Where a ray along the cells `pts` stops: at the first occupied cell, or
/// nowhere (`None`) when it leaves the grid first or crosses no occupied cell.
pub open spec fn ray_stop(g: Seq<bool>, nh: int, nw: int, pts: Seq<(int, int)>) -> Option<
    (int, int),
>
    decreases pts.len(),
{
    if pts.len() == 0 {
        None
    } else if !in_grid(nh, nw, pts[0]) {
        None
    } else if cell(g, nw, pts[0].0, pts[0].1) {
        Some(pts[0])
    } else {
        ray_stop(g, nh, nw, pts.drop_first())
    }
}

/// The cells that a ray along `pts` reads have their row-major index in
/// `i32` and within the grid's storage.
pub open spec fn ray_readable(g: Seq<bool>, nh: int, nw: int, pts: Seq<(int, int)>) -> bool
    decreases pts.len(),
{
    if pts.len() == 0 {
        true
    } else if !in_grid(nh, nw, pts[0]) {
        true
    } else {
        &&& fits_i32(pts[0].1 * nw)
        &&& fits_i32(pts[0].0 + pts[0].1 * nw)
        &&& pts[0].0 + pts[0].1 * nw < g.len()
        &&& (cell(g, nw, pts[0].0, pts[0].1) || ray_readable(g, nh, nw, pts.drop_first()))
    }
}

/// Follows the line from `(start_x, start_y)` towards `(end_x, end_y)` over
/// a grid of `nh` rows of `nw` cells and returns the first occupied cell
/// met before the ray leaves the grid or reaches its end cell.
///
/// The ray reports the `n`-th cell of the line whenever that cell is an
/// occupied cell of the grid (`0 <= x < nw`, `0 <= y < nh`, slot `x + y * nw`)
/// and every cell before it is a free cell of the grid; a reported cell is
/// always such a cell.
pub fn first_hit(
    grid: &Vec<bool>,
    nh: usize,
    nw: usize,
    start_x: i32,
    start_y: i32,
    end_x: i32,
    end_y: i32,
) -> (r: Option<(i32, i32)>)
    requires
        line_fits(start_x as int, start_y as int, end_x as int, end_y as int),
        nh <= i32::MAX,
        nw <= i32::MAX,
        ray_readable(
            grid@,
            nh as int,
            nw as int,
            line_points(start_x as int, start_y as int, end_x as int, end_y as int),
        ),
    ensures
        cell_of(r) == ray_stop(
            grid@,
            nh as int,
            nw as int,
            line_points(start_x as int, start_y as int, end_x as int, end_y as int),
        ),
        ({
            let pts = line_points(start_x as int, start_y as int, end_x as int, end_y as int);
            forall|n: int|
                0 <= n < pts.len() && 0 <= #[trigger] pts[n].0 < nw && 0 <= pts[n].1 < nh
                    && grid@[pts[n].0 + pts[n].1 * nw] && (forall|m: int|
                    0 <= m < n ==> 0 <= #[trigger] pts[m].0 < nw && 0 <= pts[m].1 < nh
                        && !grid@[pts[m].0 + pts[m].1 * nw]) ==> (r matches Some(p) && p.0
                    == pts[n].0 && p.1 == pts[n].1)
        }),
        ({
            let pts = line_points(start_x as int, start_y as int, end_x as int, end_y as int);
            r matches Some(p) ==> exists|n: int|
                0 <= n < pts.len() && #[trigger] pts[n] == (p.0 as int, p.1 as int) && 0 <= p.0
                    < nw && 0 <= p.1 < nh && grid@[p.0 + p.1 * nw] && forall|m: int|
                    0 <= m < n ==> 0 <= #[trigger] pts[m].0 < nw && 0 <= pts[m].1 < nh
                        && !grid@[pts[m].0 + pts[m].1 * nw]
        }),
{
    let r = trace_ray(grid, nh, nw, start_x, start_y, end_x, end_y);
    let ghost pts = line_points(start_x as int, start_y as int, end_x as int, end_y as int);
    proof {
        lemma_ray_stop_hit(grid@, nh as int, nw as int, pts);
        assert forall|n: int|
            0 <= n < pts.len() && 0 <= #[trigger] pts[n].0 < nw && 0 <= pts[n].1 < nh
                && grid@[pts[n].0 + pts[n].1 * nw] && (forall|m: int|
                0 <= m < n ==> 0 <= #[trigger] pts[m].0 < nw && 0 <= pts[m].1 < nh
                    && !grid@[pts[m].0 + pts[m].1 * nw]) implies (r matches Some(p) && p.0
                == pts[n].0 && p.1 == pts[n].1) by {
            lemma_ray_stop_first_occupied(grid@, nh as int, nw as int, pts, n);
        }
    }
    r
}

/// The cell where a ray along the line stops, as `ray_stop` describes.
fn trace_ray(
    grid: &Vec<bool>,
    nh: usize,
    nw: usize,
    start_x: i32,
    start_y: i32,
    end_x: i32,
    end_y: i32,
) -> (r: Option<(i32, i32)>)
    requires
        line_fits(start_x as int, start_y as int, end_x as int, end_y as int),
        nh <= i32::MAX,
        nw <= i32::MAX,
        ray_readable(
            grid@,
            nh as int,
            nw as int,
            line_points(start_x as int, start_y as int, end_x as int, end_y as int),
        ),
    ensures
        cell_of(r) == ray_stop(
            grid@,
            nh as int,
            nw as int,
            line_points(start_x as int, start_y as int, end_x as int, end_y as int),
        ),
{
    let ghost g = grid@;
    let ghost line = line_points(start_x as int, start_y as int, end_x as int, end_y as int);
    let mut walk = Bresenham::new(start_x, start_y, end_x, end_y);
    let nw_i: i32 = nw as i32;
    let nh_i: i32 = nh as i32;
    loop
        invariant
            g == grid@,
            nw_i == nw,
            nh_i == nh,
            walk@.inv(),
            line == line_points(start_x as int, start_y as int, end_x as int, end_y as int),
            ray_stop(g, nh as int, nw as int, line) == ray_stop(g, nh as int, nw as int, walk@.points()),
            ray_readable(g, nh as int, nw as int, walk@.points()),
        decreases walk@.rem_x() + walk@.rem_y(),
    {
        let ghost before = walk@;
        match walk.next() {
            None => {
                return None;
            },
            Some((x, y)) => {
                proof {
                    lemma_step_points(before);
                }
                if x < 0 || x >= nw_i || y < 0 || y >= nh_i {
                    return None;
                }
                let idx = (y * nw_i + x) as usize;
                if grid[idx] {
                    return Some((x, y));
                }
            },
        }
    }
}

/// Where a walk along the cells `pts` comes to rest, having started on
/// `target`: on the first cell whose storage slot `x + y * nh` is occupied,
/// else on the last cell of `pts` (or on `target` when `pts` is empty).
pub open spec fn walk_stop(g: Seq<bool>, nh: int, target: (int, int), pts: Seq<(int, int)>) -> (
    int,
    int,
)
    decreases pts.len(),
{
    if pts.len() == 0 {
        target
    } else if g[pts[0].0 + pts[0].1 * nh] {
        pts[0]
    } else {
        walk_stop(g, nh, pts[0], pts.drop_first())
    }
}

/// A ray stops only on an occupied cell of the grid that lies on its path,
/// and every cell it crosses before is a free cell of the grid.
pub proof fn lemma_ray_stop_hit(g: Seq<bool>, nh: int, nw: int, pts: Seq<(int, int)>)
    ensures
        ray_stop(g, nh, nw, pts) matches Some(p) ==> exists|n: int|
            0 <= n < pts.len() && pts[n] == p && 0 <= p.0 < nw && 0 <= p.1 < nh && g[p.0 + p.1 * nw]
                && forall|m: int|
                0 <= m < n ==> 0 <= #[trigger] pts[m].0 < nw && 0 <= pts[m].1 < nh && !g[pts[m].0
                    + pts[m].1 * nw],
    decreases pts.len(),
{
    if pts.len() > 0 && in_grid(nh, nw, pts[0]) && !cell(g, nw, pts[0].0, pts[0].1) {
        let rest = pts.drop_first();
        lemma_ray_stop_hit(g, nh, nw, rest);
        if let Some(p) = ray_stop(g, nh, nw, pts) {
            let n = choose|n: int|
                0 <= n < rest.len() && rest[n] == p && 0 <= p.0 < nw && 0 <= p.1 < nh && g[p.0 + p.1
                    * nw] && forall|m: int|
                    0 <= m < n ==> 0 <= #[trigger] rest[m].0 < nw && 0 <= rest[m].1 < nh && !g[rest[m].0
                        + rest[m].1 * nw];
            assert(pts[n + 1] == p);
            assert forall|m: int| 0 <= m < n + 1 implies 0 <= #[trigger] pts[m].0 < nw && 0 <= pts[m].1
                < nh && !g[pts[m].0 + pts[m].1 * nw] by {
                if m > 0 {
                    assert(pts[m] == rest[m - 1]);
                }
            }
        }
    } else if pts.len() > 0 {
        if let Some(p) = ray_stop(g, nh, nw, pts) {
            assert(pts[0] == p);
        }
    }
}

/// A ray does not miss an occupied cell: when its `n`-th cell is an occupied
/// cell of the grid and all cells before are free cells of the grid, the ray
/// stops there.
pub proof fn lemma_ray_stop_first_occupied(g: Seq<bool>, nh: int, nw: int, pts: Seq<(int, int)>, n: int)
    requires
        0 <= n < pts.len(),
        0 <= pts[n].0 < nw && 0 <= pts[n].1 < nh && g[pts[n].0 + pts[n].1 * nw],
        forall|m: int|
            0 <= m < n ==> 0 <= #[trigger] pts[m].0 < nw && 0 <= pts[m].1 < nh && !g[pts[m].0
                + pts[m].1 * nw],
    ensures
        ray_stop(g, nh, nw, pts) == Some(pts[n]),
    decreases n,
{
    if n > 0 {
        let rest = pts.drop_first();
        assert(0 <= pts[0].0 < nw && 0 <= pts[0].1 < nh && !g[pts[0].0 + pts[0].1 * nw]);
        assert forall|m: int| 0 <= m < n - 1 implies 0 <= #[trigger] rest[m].0 < nw && 0 <= rest[m].1
            < nh && !g[rest[m].0 + rest[m].1 * nw] by {
            assert(rest[m] == pts[m + 1]);
        }
        assert(rest[n - 1] == pts[n]);
        lemma_ray_stop_first_occupied(g, nh, nw, rest, n - 1);
    }
}

/// A walk rests on its starting cell only when it has no cell to visit;
/// otherwise on a visited cell that is occupied or the last one, all cells
/// visited before it being free.
pub proof fn lemma_walk_stop_free_path(g: Seq<bool>, nh: int, target: (int, int), pts: Seq<(int, int)>)
    ensures
        pts.len() == 0 ==> walk_stop(g, nh, target, pts) == target,
        pts.len() > 0 ==> exists|n: int|
            0 <= n < pts.len() && pts[n] == walk_stop(g, nh, target, pts) && (g[pts[n].0 + pts[n].1
                * nh] || n == pts.len() - 1) && forall|m: int|
                0 <= m < n ==> !g[#[trigger] pts[m].0 + pts[m].1 * nh],
    decreases pts.len(),
{
    if pts.len() > 0 && !g[pts[0].0 + pts[0].1 * nh] && pts.len() > 1 {
        let rest = pts.drop_first();
        lemma_walk_stop_free_path(g, nh, pts[0], rest);
        let n = choose|n: int|
            0 <= n < rest.len() && rest[n] == walk_stop(g, nh, pts[0], rest) && (g[rest[n].0
                + rest[n].1 * nh] || n == rest.len() - 1) && forall|m: int|
                0 <= m < n ==> !g[#[trigger] rest[m].0 + rest[m].1 * nh];
        assert(pts[n + 1] == rest[n]);
        assert forall|m: int| 0 <= m < n + 1 implies !g[#[trigger] pts[m].0 + pts[m].1 * nh] by {
            if m > 0 {
                assert(pts[m] == rest[m - 1]);
            }
        }
    } else if pts.len() > 0 {
        if !g[pts[0].0 + pts[0].1 * nh] {
            assert(pts.drop_first().len() == 0);
            assert(walk_stop(g, nh, pts[0], pts.drop_first()) == pts[0]);
        }
        assert(pts[0] == walk_stop(g, nh, target, pts));
    }
}

/// The slots `x + y * nh` that a walk along `pts` reads are computed in
/// `i32` and lie within the grid's storage.
pub open spec fn walk_readable(g: Seq<bool>, nh: int, pts: Seq<(int, int)>) -> bool
    decreases pts.len(),
{
    if pts.len() == 0 {
        true
    } else {
        &&& fits_i32(pts[0].1 * nh)
        &&& fits_i32(pts[0].0 + pts[0].1 * nh)
        &&& 0 <= pts[0].0 + pts[0].1 * nh < g.len()
        &&& (g[pts[0].0 + pts[0].1 * nh] || walk_readable(g, nh, pts.drop_first()))
    }
}

/// A walk can read its slots exactly when every cell it reaches, all cells
/// before being free, has its slot `x + y * nh` (and `y * nh`) in `i32` and
/// within the grid's storage.
pub proof fn lemma_walk_readable_cells(g: Seq<bool>, nh: int, pts: Seq<(int, int)>)
    ensures
        walk_readable(g, nh, pts) <==> forall|n: int|
            0 <= n < pts.len() && (forall|m: int|
                0 <= m < n ==> i32::MIN <= #[trigger] pts[m].1 * nh <= i32::MAX && i32::MIN
                    <= pts[m].0 + pts[m].1 * nh <= i32::MAX && 0 <= pts[m].0 + pts[m].1 * nh
                    < g.len() && !g[pts[m].0 + pts[m].1 * nh]) ==> i32::MIN <= #[trigger] pts[n].1
                * nh <= i32::MAX && i32::MIN <= pts[n].0 + pts[n].1 * nh <= i32::MAX && 0 <= pts[n].0
                + pts[n].1 * nh < g.len(),
    decreases pts.len(),
{
    if pts.len() > 0 {
        let rest = pts.drop_first();
        lemma_walk_readable_cells(g, nh, rest);
        let p0 = pts[0];
        let ok0 = i32::MIN <= p0.1 * nh <= i32::MAX && i32::MIN <= p0.0 + p0.1 * nh <= i32::MAX
            && 0 <= p0.0 + p0.1 * nh < g.len();
        if walk_readable(g, nh, pts) {
            assert forall|n: int|
                0 <= n < pts.len() && (forall|m: int|
                    0 <= m < n ==> i32::MIN <= #[trigger] pts[m].1 * nh <= i32::MAX && i32::MIN
                        <= pts[m].0 + pts[m].1 * nh <= i32::MAX && 0 <= pts[m].0 + pts[m].1 * nh
                        < g.len() && !g[pts[m].0 + pts[m].1 * nh]) implies i32::MIN <= #[trigger] pts[n].1
                * nh <= i32::MAX && i32::MIN <= pts[n].0 + pts[n].1 * nh <= i32::MAX && 0
                <= pts[n].0 + pts[n].1 * nh < g.len() by {
                if n > 0 {
                    assert(i32::MIN <= pts[0].1 * nh <= i32::MAX);
                    assert(!g[p0.0 + p0.1 * nh]);
                    assert(rest[n - 1] == pts[n]);
                    assert forall|m: int|
                        0 <= m < n - 1 implies i32::MIN <= #[trigger] rest[m].1 * nh <= i32::MAX
                        && i32::MIN <= rest[m].0 + rest[m].1 * nh <= i32::MAX && 0 <= rest[m].0
                        + rest[m].1 * nh < g.len() && !g[rest[m].0 + rest[m].1 * nh] by {
                        assert(rest[m] == pts[m + 1]);
                    }
                }
            }
        } else {
            assert(pts[0] == p0);
            if ok0 && !g[p0.0 + p0.1 * nh] {
                // Some later cell is out of reach: lift the witness from the rest.
                let n = choose|n: int|
                    0 <= n < rest.len() && (forall|m: int|
                        0 <= m < n ==> i32::MIN <= #[trigger] rest[m].1 * nh <= i32::MAX && i32::MIN
                            <= rest[m].0 + rest[m].1 * nh <= i32::MAX && 0 <= rest[m].0 + rest[m].1
                            * nh < g.len() && !g[rest[m].0 + rest[m].1 * nh]) && !(i32::MIN
                        <= #[trigger] rest[n].1 * nh <= i32::MAX && i32::MIN <= rest[n].0 + rest[n].1
                        * nh <= i32::MAX && 0 <= rest[n].0 + rest[n].1 * nh < g.len());
                assert(pts[n + 1] == rest[n]);
                assert forall|m: int|
                    0 <= m < n + 1 implies i32::MIN <= #[trigger] pts[m].1 * nh <= i32::MAX
                    && i32::MIN <= pts[m].0 + pts[m].1 * nh <= i32::MAX && 0 <= pts[m].0 + pts[m].1
                    * nh < g.len() && !g[pts[m].0 + pts[m].1 * nh] by {
                    if m > 0 {
                        assert(pts[m] == rest[m - 1]);
                    }
                }
            } else {
                assert(!ok0);
            }
        }
    }
}

/// The walk of `advance_until_blocked`, as `walk_stop` and `walk_readable` describe.
fn walk_to_obstacle(
    grid: &Vec<bool>,
    nh: usize,
    start_x: i32,
    start_y: i32,
    end_x: i32,
    end_y: i32,
) -> (r: Option<(i32, i32)>)
    requires
        line_fits(start_x as int, start_y as int, end_x as int, end_y as int),
        nh <= i32::MAX,
    ensures
        r is Some <==> walk_readable(
            grid@,
            nh as int,
            line_points(start_x as int, start_y as int, end_x as int, end_y as int),
        ),
        r matches Some(p) ==> (p.0 as int, p.1 as int) == walk_stop(
            grid@,
            nh as int,
            (start_x as int, start_y as int),
            line_points(start_x as int, start_y as int, end_x as int, end_y as int),
        ),
{
    let ghost g = grid@;
    let ghost line = line_points(start_x as int, start_y as int, end_x as int, end_y as int);
    let mut walk = Bresenham::new(start_x, start_y, end_x, end_y);
    let nh_w: i64 = nh as i64;
    let mut target: (i32, i32) = (start_x, start_y);
    loop
        invariant
            g == grid@,
            nh_w == nh,
            nh <= i32::MAX,
            walk@.inv(),
            line == line_points(start_x as int, start_y as int, end_x as int, end_y as int),
            walk_readable(g, nh as int, line) == walk_readable(g, nh as int, walk@.points()),
            walk_readable(g, nh as int, walk@.points()) ==> walk_stop(
                g,
                nh as int,
                (start_x as int, start_y as int),
                line,
            ) == walk_stop(g, nh as int, (target.0 as int, target.1 as int), walk@.points()),
        decreases walk@.rem_x() + walk@.rem_y(),
    {
        let ghost before = walk@;
        match walk.next() {
            None => {
                return Some(target);
            },
            Some((x, y)) => {
                proof {
                    lemma_step_points(before);
                }
                target = (x, y);
                assert(-0x8000_0000_0000_0000 < (y as i64) * nh_w < 0x8000_0000_0000_0000)
                    by (nonlinear_arith)
                    requires
                        i32::MIN <= y <= i32::MAX,
                        0 <= nh_w <= i32::MAX,
                ;
                let row = (y as i64) * nh_w;
                if row < i32::MIN as i64 || row > i32::MAX as i64 {
                    return None;
                }
                let slot = (x as i64) + row;
                if slot < 0 || slot > i32::MAX as i64 {
                    return None;
                }
                let idx = slot as usize;
                if idx >= grid.len() {
                    return None;
                }
                if grid[idx] {
                    return Some(target);
                }
            },
        }
    }
}

/// Moves from `(start_x, start_y)` along the line towards `(end_x, end_y)`
/// and stops on the first cell whose slot `x + y * nh` of the grid is
/// occupied, or on the last cell before the end cell. `None` when the walk
/// would read a slot outside the grid's storage or one whose index leaves
/// `i32`.
pub fn advance_until_blocked(
    grid: &Vec<bool>,
    nh: usize,
    start_x: i32,
    start_y: i32,
    end_x: i32,
    end_y: i32,
) -> (r: Option<(i32, i32)>)
    requires
        line_fits(start_x as int, start_y as int, end_x as int, end_y as int),
        nh <= i32::MAX,
    ensures
        r is Some <==> walk_readable(
            grid@,
            nh as int,
            line_points(start_x as int, start_y as int, end_x as int, end_y as int),
        ),
        r matches Some(p) ==> (p.0 as int, p.1 as int) == walk_stop(
            grid@,
            nh as int,
            (start_x as int, start_y as int),
            line_points(start_x as int, start_y as int, end_x as int, end_y as int),
        ),
        ({
            let pts = line_points(start_x as int, start_y as int, end_x as int, end_y as int);
            r is Some <==> forall|n: int|
                0 <= n < pts.len() && (forall|m: int|
                    0 <= m < n ==> i32::MIN <= #[trigger] pts[m].1 * nh <= i32::MAX && i32::MIN
                        <= pts[m].0 + pts[m].1 * nh <= i32::MAX && 0 <= pts[m].0 + pts[m].1 * nh
                        < grid.len() && !grid@[pts[m].0 + pts[m].1 * nh]) ==> i32::MIN
                    <= #[trigger] pts[n].1 * nh <= i32::MAX && i32::MIN <= pts[n].0 + pts[n].1 * nh
                    <= i32::MAX && 0 <= pts[n].0 + pts[n].1 * nh < grid.len()
        }),
        ({
            let pts = line_points(start_x as int, start_y as int, end_x as int, end_y as int);
            r matches Some(p) ==> (pts.len() == 0 && p.0 == start_x && p.1 == start_y) || exists|n: int|
                0 <= n < pts.len() && #[trigger] pts[n] == (p.0 as int, p.1 as int) && (grid@[pts[n].0
                    + pts[n].1 * nh] || n == pts.len() - 1) && forall|m: int|
                    0 <= m < n ==> !grid@[#[trigger] pts[m].0 + pts[m].1 * nh]
        }),
{
    let r = walk_to_obstacle(grid, nh, start_x, start_y, end_x, end_y);
    proof {
        let pts = line_points(start_x as int, start_y as int, end_x as int, end_y as int);
        lemma_walk_readable_cells(grid@, nh as int, pts);
        lemma_walk_stop_free_path(grid@, nh as int, (start_x as int, start_y as int), pts);
    }
    r
}

/// Unfolds the cells still to come of a walk that is not finished.
proof fn lemma_step_points(s: LineState)
    requires
        s.inv(),
    ensures
        !s.finished() ==> s.step().inv() && s.step().rem_x() + s.step().rem_y() < s.rem_x()
            + s.rem_y(),
        !s.finished() ==> s.points() == seq![(s.x, s.y)] + s.step().points() && s.points().drop_first()
            == s.step().points(),
        s.finished() ==> s.points().len() == 0,
{
    if !s.finished() {
        lemma_step(s);
        assert(s.points().drop_first() =~= s.step().points());
    }
}

} // verus!
