use vstd::prelude::*;
use crate::bresenham::fits_i32;

verus! {

/// Side of the square drawing grid in cells: 20 m at 0.05 m a cell.
pub const L: usize = 400;

/// A cell position on the drawing grid, or an extent of cells.
pub struct iPoint {
    pub x: i32,
    pub y: i32,
}

impl iPoint {
    /// The componentwise sum of two points.
    pub fn add(a: &iPoint, b: &iPoint) -> (r: iPoint)
        requires
            fits_i32(a.x + b.x),
            fits_i32(a.y + b.y),
        ensures
            r.x == a.x + b.x,
            r.y == a.y + b.y,
    {
        iPoint { x: a.x + b.x, y: a.y + b.y }
    }
}

/// Whether the cell in column `i`, row `j` lies in the rectangle with corner
/// `x0` and extent `r` (the far sides excluded).
pub open spec fn in_rect(x0: iPoint, r: iPoint, i: int, j: int) -> bool {
    x0.x <= i < x0.x + r.x && x0.y <= j < x0.y + r.y
}

/// Whether storage slot `k` of a row-major `L` by `L` grid holds a cell of
/// the rectangle.
pub open spec fn rect_slot(x0: iPoint, r: iPoint, k: int) -> bool {
    0 <= k < L * L && in_rect(x0, r, k % (L as int), k / (L as int))
}

pub open spec fn min(a: int, b: int) -> int {
    if a <= b {
        a
    } else {
        b
    }
}

pub open spec fn max(a: int, b: int) -> int {
    if a >= b {
        a
    } else {
        b
    }
}

/// The grid's storage reaches the last slot that the rectangle touches.
pub open spec fn rect_fits(len: int, x0: iPoint, r: iPoint) -> bool {
    let i_hi = min(x0.x + r.x, L as int);
    let j_hi = min(x0.y + r.y, L as int);
    (max(x0.x as int, 0) < i_hi && max(x0.y as int, 0) < j_hi) ==> (j_hi - 1) * L + i_hi - 1
        < len
}

proof fn lemma_slot(i: int, j: int)
    requires
        0 <= i < L,
        0 <= j,
    ensures
        (j * L + i) % (L as int) == i,
        (j * L + i) / (L as int) == j,
{
    vstd::arithmetic::div_mod::lemma_fundamental_div_mod_converse(j * L + i, L as int, j, i);
}

/// Slot `j * L + i` of the grid holds the cell in column `i`, row `j`, which
/// is in the rectangle exactly when `x0.x <= i < x0.x + r.x` and
/// `x0.y <= j < x0.y + r.y`; slots past `L * L` hold no cell of it.
pub proof fn lemma_rect_slot_cells(x0: iPoint, r: iPoint, i: int, j: int, k: int)
    ensures
        0 <= i < L && 0 <= j < L ==> (rect_slot(x0, r, j * L + i) <==> (x0.x <= i < x0.x + r.x
            && x0.y <= j < x0.y + r.y)),
        k >= L * L ==> !rect_slot(x0, r, k),
{
    if 0 <= i < L && 0 <= j < L {
        lemma_slot(i, j);
        assert(j * L + i < L * L);
    }
}

/// Marks as occupied the cells of the rectangle with corner `x0` and extent
/// `r` that lie on the `L` by `L` grid.
pub fn draw_rect(grid: &mut Vec<bool>, x0: iPoint, r: iPoint)
    requires
        fits_i32(x0.x + r.x),
        fits_i32(x0.y + r.y),
        rect_fits(old(grid).len() as int, x0, r),
    ensures
        final(grid).len() == old(grid).len(),
        forall|k: int|
            0 <= k < old(grid).len() ==> #[trigger] final(grid)[k] == (old(grid)[k] || rect_slot(
                x0,
                r,
                k,
            )),
        forall|i: int, j: int|
            0 <= i < L && 0 <= j < L && j * L + i < old(grid).len() ==> #[trigger] final(grid)[j * L
                + i] == (old(grid)[j * L + i] || (x0.x <= i < x0.x + r.x && x0.y <= j < x0.y + r.y)),
        forall|k: int| L * L <= k < old(grid).len() ==> #[trigger] final(grid)[k] == old(grid)[k],
{
    let x1 = iPoint { x: x0.x + r.x, y: x0.y + r.y };
    let ghost g0 = grid@;
    let i_lo: i32 = if x0.x > 0 { x0.x } else { 0 };
    let i_hi: i32 = if x1.x < L as i32 { x1.x } else { L as i32 };
    let j_lo: i32 = if x0.y > 0 { x0.y } else { 0 };
    let j_hi: i32 = if x1.y < L as i32 { x1.y } else { L as i32 };
    let mut i: i32 = i_lo;
    while i < i_hi
        invariant
            grid.len() == g0.len(),
            rect_fits(g0.len() as int, x0, r),
            x1.x == x0.x + r.x,
            x1.y == x0.y + r.y,
            i_lo == max(x0.x as int, 0),
            j_lo == max(x0.y as int, 0),
            i_hi == min(x1.x as int, L as int),
            j_hi == min(x1.y as int, L as int),
            i_lo <= i,
            i <= i_hi || i == i_lo,
            forall|k: int|
                0 <= k < g0.len() ==> #[trigger] grid@[k] == (g0[k] || (rect_slot(x0, r, k) && k
                    % (L as int) < i)),
        decreases i_hi - i,
    {
        let mut j: i32 = j_lo;
        while j < j_hi
            invariant
                grid.len() == g0.len(),
                rect_fits(g0.len() as int, x0, r),
                x1.x == x0.x + r.x,
                x1.y == x0.y + r.y,
                i_lo == max(x0.x as int, 0),
                j_lo == max(x0.y as int, 0),
                i_hi == min(x1.x as int, L as int),
                j_hi == min(x1.y as int, L as int),
                i_lo <= i < i_hi,
                j_lo <= j,
                j <= j_hi || j == j_lo,
                forall|k: int|
                    0 <= k < g0.len() ==> #[trigger] grid@[k] == (g0[k] || (rect_slot(x0, r, k) && (k
                        % (L as int) < i || (k % (L as int) == i && k / (L as int) < j)))),
            decreases j_hi - j,
        {
            let idx: usize = (j as usize) * L + (i as usize);
            proof {
                lemma_slot(i as int, j as int);
                assert((j_hi - 1) * L + i_hi - 1 < g0.len());
                assert(idx <= (j_hi - 1) * L + i_hi - 1) by (nonlinear_arith)
                    requires
                        idx == j * L + i,
                        j <= j_hi - 1,
                        i <= i_hi - 1,
                ;
            }
            grid.set(idx, true);
            proof {
                assert forall|k: int| 0 <= k < g0.len() implies #[trigger] grid@[k] == (g0[k] || (
                rect_slot(x0, r, k) && (k % (L as int) < i || (k % (L as int) == i && k / (L as int)
                    < j + 1)))) by {
                    if k != idx {
                        if 0 <= k && k % (L as int) == i && k / (L as int) == j {
                            vstd::arithmetic::div_mod::lemma_fundamental_div_mod(k, L as int);
                            assert(k == j * L + i);
                        }
                    }
                }
            }
            j = j + 1;
        }
        proof {
            assert forall|k: int| 0 <= k < g0.len() implies #[trigger] grid@[k] == (g0[k] || (
            rect_slot(x0, r, k) && k % (L as int) < i + 1)) by {
                if rect_slot(x0, r, k) && k % (L as int) == i {
                    assert(k / (L as int) < j_hi);
                }
            }
        }
        i = i + 1;
    }
    proof {
        assert forall|k: int| 0 <= k < g0.len() implies #[trigger] grid@[k] == (g0[k] || rect_slot(
            x0,
            r,
            k,
        )) by {
            if rect_slot(x0, r, k) {
                assert(k % (L as int) < i_hi);
            }
        }
        assert forall|i2: int, j2: int|
            0 <= i2 < L && 0 <= j2 < L && j2 * L + i2 < g0.len() implies #[trigger] grid@[j2 * L
                + i2] == (g0[j2 * L + i2] || (x0.x <= i2 < x0.x + r.x && x0.y <= j2 < x0.y + r.y)) by {
            lemma_rect_slot_cells(x0, r, i2, j2, 0);
        }
        assert forall|k: int| L * L <= k < g0.len() implies #[trigger] grid@[k] == g0[k] by {
            lemma_rect_slot_cells(x0, r, 0, 0, k);
        }
    }
}

/// Whether slot `k` lies in one of the rectangles of the first test map.
pub open spec fn map1_slot(k: int) -> bool {
    ||| rect_slot(iPoint { x: 80, y: 80 }, iPoint { x: 200, y: 80 }, k)
    ||| rect_slot(iPoint { x: 300, y: 80 }, iPoint { x: 60, y: 80 }, k)
    ||| rect_slot(iPoint { x: 360, y: 0 }, iPoint { x: 40, y: 40 }, k)
    ||| rect_slot(iPoint { x: 80, y: 240 }, iPoint { x: 80, y: 80 }, k)
    ||| rect_slot(iPoint { x: 0, y: 280 }, iPoint { x: 120, y: 40 }, k)
    ||| rect_slot(iPoint { x: 220, y: 240 }, iPoint { x: 120, y: 80 }, k)
    ||| rect_slot(iPoint { x: 360, y: 360 }, iPoint { x: 40, y: 40 }, k)
    ||| rect_slot(iPoint { x: 0, y: 360 }, iPoint { x: 40, y: 40 }, k)
    ||| rect_slot(iPoint { x: 180, y: 368 }, iPoint { x: 30, y: 32 }, k)
}

/// The cell in column `i`, row `j` of the first test map is occupied exactly
/// when it lies in one of the map's nine walls and blocks.
pub proof fn lemma_map1_cells(i: int, j: int)
    requires
        0 <= i < L,
        0 <= j < L,
    ensures
        map1_slot(j * L + i) == {
            ||| (80 <= i < 280 && 80 <= j < 160)
            ||| (300 <= i < 360 && 80 <= j < 160)
            ||| (360 <= i < 400 && 0 <= j < 40)
            ||| (80 <= i < 160 && 240 <= j < 320)
            ||| (0 <= i < 120 && 280 <= j < 320)
            ||| (220 <= i < 340 && 240 <= j < 320)
            ||| (360 <= i < 400 && 360 <= j < 400)
            ||| (0 <= i < 40 && 360 <= j < 400)
            ||| (180 <= i < 210 && 368 <= j < 400)
        },
{
    lemma_slot(i, j);
    assert(j * L + i < L * L);
}

/// The first test map: an `L` by `L` grid with nine walls and blocks.
pub fn map1_grid() -> (grid: Vec<bool>)
    ensures
        grid.len() == L * L,
        forall|k: int| 0 <= k < L * L ==> #[trigger] grid@[k] == map1_slot(k),
        forall|i: int, j: int|
            0 <= i < L && 0 <= j < L ==> #[trigger] grid@[j * L + i] == {
            ||| (80 <= i < 280 && 80 <= j < 160)
            ||| (300 <= i < 360 && 80 <= j < 160)
            ||| (360 <= i < 400 && 0 <= j < 40)
            ||| (80 <= i < 160 && 240 <= j < 320)
            ||| (0 <= i < 120 && 280 <= j < 320)
            ||| (220 <= i < 340 && 240 <= j < 320)
            ||| (360 <= i < 400 && 360 <= j < 400)
            ||| (0 <= i < 40 && 360 <= j < 400)
            ||| (180 <= i < 210 && 368 <= j < 400)
        },
{
    let mut grid: Vec<bool> = Vec::new();
    let mut k: usize = 0;
    while k < L * L
        invariant
            k <= L * L,
            grid.len() == k,
            forall|m: int| 0 <= m < k ==> !#[trigger] grid@[m],
        decreases L * L - k,
    {
        grid.push(false);
        k += 1;
    }
    let ghost g0 = grid@;
    draw_rect(&mut grid, iPoint { x: 80, y: 80 }, iPoint { x: 200, y: 80 });
    let ghost g1 = grid@;
    draw_rect(&mut grid, iPoint { x: 300, y: 80 }, iPoint { x: 60, y: 80 });
    let ghost g2 = grid@;
    draw_rect(&mut grid, iPoint { x: 360, y: 0 }, iPoint { x: 40, y: 40 });
    let ghost g3 = grid@;
    draw_rect(&mut grid, iPoint { x: 80, y: 240 }, iPoint { x: 80, y: 80 });
    let ghost g4 = grid@;
    draw_rect(&mut grid, iPoint { x: 0, y: 280 }, iPoint { x: 120, y: 40 });
    let ghost g5 = grid@;
    draw_rect(&mut grid, iPoint { x: 220, y: 240 }, iPoint { x: 120, y: 80 });
    let ghost g6 = grid@;
    draw_rect(&mut grid, iPoint { x: 360, y: 360 }, iPoint { x: 40, y: 40 });
    let ghost g7 = grid@;
    draw_rect(&mut grid, iPoint { x: 0, y: 360 }, iPoint { x: 40, y: 40 });
    let ghost g8 = grid@;
    draw_rect(&mut grid, iPoint { x: 180, y: 368 }, iPoint { x: 30, y: 32 });
    assert forall|k: int| 0 <= k < L * L implies #[trigger] grid@[k] == map1_slot(k) by {
        assert(grid@[k] == (g8[k] || rect_slot(iPoint { x: 180, y: 368 }, iPoint { x: 30, y: 32 }, k)));
        assert(g8[k] == (g7[k] || rect_slot(iPoint { x: 0, y: 360 }, iPoint { x: 40, y: 40 }, k)));
        assert(g7[k] == (g6[k] || rect_slot(iPoint { x: 360, y: 360 }, iPoint { x: 40, y: 40 }, k)));
        assert(g6[k] == (g5[k] || rect_slot(iPoint { x: 220, y: 240 }, iPoint { x: 120, y: 80 }, k)));
        assert(g5[k] == (g4[k] || rect_slot(iPoint { x: 0, y: 280 }, iPoint { x: 120, y: 40 }, k)));
        assert(g4[k] == (g3[k] || rect_slot(iPoint { x: 80, y: 240 }, iPoint { x: 80, y: 80 }, k)));
        assert(g3[k] == (g2[k] || rect_slot(iPoint { x: 360, y: 0 }, iPoint { x: 40, y: 40 }, k)));
        assert(g2[k] == (g1[k] || rect_slot(iPoint { x: 300, y: 80 }, iPoint { x: 60, y: 80 }, k)));
        assert(g1[k] == (g0[k] || rect_slot(iPoint { x: 80, y: 80 }, iPoint { x: 200, y: 80 }, k)));
        assert(!g0[k]);
    }
    assert forall|i: int, j: int| 0 <= i < L && 0 <= j < L implies #[trigger] grid@[j * L + i] == {
    ||| (80 <= i < 280 && 80 <= j < 160)
    ||| (300 <= i < 360 && 80 <= j < 160)
    ||| (360 <= i < 400 && 0 <= j < 40)
    ||| (80 <= i < 160 && 240 <= j < 320)
    ||| (0 <= i < 120 && 280 <= j < 320)
    ||| (220 <= i < 340 && 240 <= j < 320)
    ||| (360 <= i < 400 && 360 <= j < 400)
    ||| (0 <= i < 40 && 360 <= j < 400)
    ||| (180 <= i < 210 && 368 <= j < 400)
    } by {
        lemma_map1_cells(i, j);
        assert(j * L + i < L * L);
        assert(grid@[j * L + i] == map1_slot(j * L + i));
    }
    grid
}

} // verus!
