use vstd::prelude::*;
use vstd::arithmetic::div_mod::lemma_fundamental_div_mod_converse;
use crate::map_draw::min;

verus! {

/// The colour of pixel `(r, c)` of a `max_w` by `max_h` frame that shows an
/// `src_w` by `src_h` image scaled to `cols.len()` by `rows.len()` pixels,
/// centred on a background of `bg`: output column `x` of the scaled image
/// samples source column `cols[x]` and output row `y` source row `rows[y]`,
/// both clamped to the image.
pub open spec fn canvas_pixel(
    src: Seq<u32>,
    src_w: int,
    src_h: int,
    max_w: int,
    max_h: int,
    bg: u32,
    cols: Seq<usize>,
    rows: Seq<usize>,
    r: int,
    c: int,
) -> u32 {
    if src_w == 0 || src_h == 0 {
        bg
    } else {
        let pad_left = (max_w - cols.len()) / 2;
        let pad_top = (max_h - rows.len()) / 2;
        if pad_top <= r < pad_top + rows.len() && pad_left <= c < pad_left + cols.len() {
            src[min(rows[r - pad_top] as int, src_h - 1) * src_w + min(
                cols[c - pad_left] as int,
                src_w - 1,
            )]
        } else {
            bg
        }
    }
}

/// `canvas_pixel` at storage slot `k` of the frame, rows `max_w` wide.
pub open spec fn canvas_slot(
    src: Seq<u32>,
    src_w: int,
    src_h: int,
    max_w: int,
    max_h: int,
    bg: u32,
    cols: Seq<usize>,
    rows: Seq<usize>,
    k: int,
) -> u32 {
    canvas_pixel(src, src_w, src_h, max_w, max_h, bg, cols, rows, k / max_w, k % max_w)
}

fn filled(v: u32, n: usize) -> (r: Vec<u32>)
    ensures
        r@ == Seq::new(n as nat, |k: int| v),
{
    let mut out: Vec<u32> = Vec::new();
    let mut k: usize = 0;
    while k < n
        invariant
            k <= n,
            out@ =~= Seq::new(k as nat, |m: int| v),
        decreases n - k,
    {
        out.push(v);
        k += 1;
    }
    out
}

proof fn lemma_row_col(k: int, w: int, r: int, c: int)
    requires
        0 <= c < w,
        0 <= r,
        k == r * w + c,
    ensures
        k / w == r,
        k % w == c,
{
    lemma_fundamental_div_mod_converse(k, w, r, c);
}

/// The frame of `fit_to_canvas`, slot by slot.
fn canvas_slots(
    src_data: &[u32],
    src_w: usize,
    src_h: usize,
    max_w: usize,
    max_h: usize,
    bg_color: u32,
    cols: &[usize],
    rows: &[usize],
) -> (out: Vec<u32>)
    requires
        max_w * max_h <= usize::MAX,
        src_w > 0 && src_h > 0 ==> cols.len() <= max_w && rows.len() <= max_h,
        src_w > 0 && src_h > 0 && cols.len() > 0 && rows.len() > 0 ==> src_w * src_h
            <= src_data.len(),
    ensures
        out.len() == max_w * max_h,
        forall|k: int|
            0 <= k < out.len() ==> #[trigger] out@[k] == canvas_pixel(
                src_data@,
                src_w as int,
                src_h as int,
                max_w as int,
                max_h as int,
                bg_color,
                cols@,
                rows@,
                k / max_w as int,
                k % max_w as int,
            ),
{
    if src_w == 0 || src_h == 0 {
        return filled(bg_color, max_w * max_h);
    }
    let new_w = cols.len();
    let new_h = rows.len();
    let pad_left = (max_w - new_w) / 2;
    let pad_top = (max_h - new_h) / 2;
    let mut out = filled(bg_color, max_w * max_h);
    let ghost src = src_data@;
    let mut dst_y: usize = 0;
    while dst_y < new_h
        invariant
            src == src_data@,
            src_w > 0 && src_h > 0,
            new_w == cols.len() <= max_w,
            new_h == rows.len() <= max_h,
            new_w > 0 && new_h > 0 ==> src_w * src_h <= src_data.len(),
            pad_left == (max_w - new_w) / 2,
            pad_top == (max_h - new_h) / 2,
            out.len() == max_w * max_h,
            dst_y <= new_h,
            forall|k: int|
                0 <= k < out.len() ==> #[trigger] out@[k] == if k / max_w as int - pad_top
                    < dst_y {
                    canvas_slot(src, src_w as int, src_h as int, max_w as int, max_h as int, bg_color, cols@, rows@, k)
                } else {
                    bg_color
                },
        decreases new_h - dst_y,
    {
        let mut dst_x: usize = 0;
        while dst_x < new_w
            invariant
                src == src_data@,
                src_w > 0 && src_h > 0,
                new_w == cols.len() <= max_w,
                new_h == rows.len() <= max_h,
                new_w > 0 && new_h > 0 ==> src_w * src_h <= src_data.len(),
                pad_left == (max_w - new_w) / 2,
                pad_top == (max_h - new_h) / 2,
                out.len() == max_w * max_h,
                dst_y < new_h,
                dst_x <= new_w,
                forall|k: int|
                    0 <= k < out.len() ==> #[trigger] out@[k] == if k / max_w as int - pad_top
                        < dst_y || (k / max_w as int - pad_top == dst_y && k % max_w as int
                        - pad_left < dst_x) {
                        canvas_slot(src, src_w as int, src_h as int, max_w as int, max_h as int, bg_color, cols@, rows@, k)
                    } else {
                        bg_color
                    },
            decreases new_w - dst_x,
        {
            let sx = if cols[dst_x] < src_w - 1 { cols[dst_x] } else { src_w - 1 };
            let sy = if rows[dst_y] < src_h - 1 { rows[dst_y] } else { src_h - 1 };
            let row = dst_y + pad_top;
            let col = dst_x + pad_left;
            proof {
                assert(row * max_w + col < max_w * max_h) by (nonlinear_arith)
                    requires
                        row < max_h,
                        col < max_w,
                ;
                assert(sy * src_w + sx < src_w * src_h) by (nonlinear_arith)
                    requires
                        sy < src_h,
                        sx < src_w,
                ;
                lemma_row_col(row * max_w + col, max_w as int, row as int, col as int);
            }
            let out_idx = row * max_w + col;
            let src_idx = sy * src_w + sx;
            let v = src_data[src_idx];
            assert(v == canvas_slot(src, src_w as int, src_h as int, max_w as int, max_h as int, bg_color, cols@, rows@, out_idx as int));
            out.set(out_idx, v);
            proof {
                assert forall|k: int| 0 <= k < out.len() implies #[trigger] out@[k] == if k
                    / max_w as int - pad_top < dst_y || (k / max_w as int - pad_top == dst_y && k
                    % max_w as int - pad_left < dst_x + 1) {
                    canvas_slot(src, src_w as int, src_h as int, max_w as int, max_h as int, bg_color, cols@, rows@, k)
                } else {
                    bg_color
                } by {
                    if k != out_idx {
                        if k / max_w as int == row && k % max_w as int == col {
                            vstd::arithmetic::div_mod::lemma_fundamental_div_mod(k, max_w as int);
                            assert(k == row * max_w + col) by (nonlinear_arith)
                                requires
                                    k == max_w * (k / max_w as int) + k % max_w as int,
                                    k / max_w as int == row,
                                    k % max_w as int == col,
                            ;
                        }
                    }
                }
            }
            dst_x += 1;
        }
        proof {
            assert forall|k: int| 0 <= k < out.len() implies #[trigger] out@[k] == if k
                / max_w as int - pad_top < dst_y + 1 {
                canvas_slot(src, src_w as int, src_h as int, max_w as int, max_h as int, bg_color, cols@, rows@, k)
            } else {
                bg_color
            } by {
                if k / max_w as int - pad_top == dst_y && k % max_w as int - pad_left >= new_w {
                    assert(canvas_slot(src, src_w as int, src_h as int, max_w as int, max_h as int, bg_color, cols@, rows@, k) == bg_color);
                }
            }
        }
        dst_y += 1;
    }
    proof {
        assert forall|k: int| 0 <= k < out.len() implies #[trigger] out@[k] == canvas_slot(src, src_w as int, src_h as int, max_w as int, max_h as int, bg_color, cols@, rows@, k) by {
            if k / max_w as int - pad_top >= new_h {
                assert(canvas_slot(src, src_w as int, src_h as int, max_w as int, max_h as int, bg_color, cols@, rows@, k) == bg_color);
            }
        }
    }
    out
}

/// The frame pixel in row `r`, column `c`: the background for an empty image
/// or outside the scaled block centred in the frame; inside it, the source
/// pixel at the sampled row and column, each clamped to the image.
pub proof fn lemma_canvas_pixel_samples(
    src: Seq<u32>,
    src_w: int,
    src_h: int,
    max_w: int,
    max_h: int,
    bg: u32,
    cols: Seq<usize>,
    rows: Seq<usize>,
    r: int,
    c: int,
)
    ensures
        src_w == 0 || src_h == 0 ==> canvas_pixel(src, src_w, src_h, max_w, max_h, bg, cols, rows, r, c)
            == bg,
        !(((max_h - rows.len()) / 2 <= r < (max_h - rows.len()) / 2 + rows.len()) && ((max_w
            - cols.len()) / 2 <= c < (max_w - cols.len()) / 2 + cols.len())) ==> canvas_pixel(
            src,
            src_w,
            src_h,
            max_w,
            max_h,
            bg,
            cols,
            rows,
            r,
            c,
        ) == bg,
        src_w != 0 && src_h != 0 && (max_h - rows.len()) / 2 <= r < (max_h - rows.len()) / 2
            + rows.len() && (max_w - cols.len()) / 2 <= c < (max_w - cols.len()) / 2 + cols.len()
            ==> canvas_pixel(src, src_w, src_h, max_w, max_h, bg, cols, rows, r, c) == src[(if rows[r
            - (max_h - rows.len()) / 2] < src_h {
            rows[r - (max_h - rows.len()) / 2] as int
        } else {
            src_h - 1
        }) * src_w + (if cols[c - (max_w - cols.len()) / 2] < src_w {
            cols[c - (max_w - cols.len()) / 2] as int
        } else {
            src_w - 1
        })],
{
}

/// Draws an `src_w` by `src_h` image, scaled by the sample maps `cols` and
/// `rows`, in the middle of a `max_w` by `max_h` frame filled with
/// `bg_color`; an empty image gives the bare background.
///
/// Pixel `(r, c)` is the background outside the `cols.len()` by `rows.len()`
/// block centred in the frame; inside it, output column `c` samples source
/// column `cols[c - left margin]` and row `r` samples source row
/// `rows[r - top margin]`, each clamped to the last column or row.
pub fn fit_to_canvas(
    src_data: &[u32],
    src_w: usize,
    src_h: usize,
    max_w: usize,
    max_h: usize,
    bg_color: u32,
    cols: &[usize],
    rows: &[usize],
) -> (out: Vec<u32>)
    requires
        max_w * max_h <= usize::MAX,
        src_w > 0 && src_h > 0 ==> cols.len() <= max_w && rows.len() <= max_h,
        src_w > 0 && src_h > 0 && cols.len() > 0 && rows.len() > 0 ==> src_w * src_h
            <= src_data.len(),
    ensures
        out.len() == max_w * max_h,
        forall|k: int|
            0 <= k < out.len() ==> #[trigger] out@[k] == canvas_pixel(
                src_data@,
                src_w as int,
                src_h as int,
                max_w as int,
                max_h as int,
                bg_color,
                cols@,
                rows@,
                k / max_w as int,
                k % max_w as int,
            ),
        src_w == 0 || src_h == 0 ==> forall|r: int, c: int|
            0 <= r < max_h && 0 <= c < max_w ==> #[trigger] out@[r * max_w + c] == bg_color,
        forall|r: int, c: int|
            0 <= r < max_h && 0 <= c < max_w && !(((max_h - rows.len()) / 2 <= r < (max_h
                - rows.len()) / 2 + rows.len()) && ((max_w - cols.len()) / 2 <= c < (max_w
                - cols.len()) / 2 + cols.len())) ==> #[trigger] out@[r * max_w + c] == bg_color,
        forall|r: int, c: int|
            0 <= r < max_h && 0 <= c < max_w && src_w > 0 && src_h > 0 && (max_h - rows.len()) / 2
                <= r < (max_h - rows.len()) / 2 + rows.len() && (max_w - cols.len()) / 2 <= c < (
            max_w - cols.len()) / 2 + cols.len() && rows[r - (max_h - rows.len()) / 2] < src_h && cols[c
                - (max_w - cols.len()) / 2] < src_w ==> #[trigger] out@[r * max_w + c]
                == src_data@[rows[r - (max_h - rows.len()) / 2] * src_w + cols[c - (max_w
                - cols.len()) / 2]],
        forall|r: int, c: int|
            0 <= r < max_h && 0 <= c < max_w && src_w > 0 && src_h > 0 && (max_h - rows.len()) / 2
                <= r < (max_h - rows.len()) / 2 + rows.len() && (max_w - cols.len()) / 2 <= c < (
            max_w - cols.len()) / 2 + cols.len() ==> #[trigger] out@[r * max_w + c]
                == src_data@[min(rows[r - (max_h - rows.len()) / 2] as int, src_h - 1) * src_w
                + min(cols[c - (max_w - cols.len()) / 2] as int, src_w - 1)],
{
    let out = canvas_slots(src_data, src_w, src_h, max_w, max_h, bg_color, cols, rows);
    assert forall|r: int, c: int| 0 <= r < max_h && 0 <= c < max_w implies #[trigger] out@[r * max_w
        + c] == canvas_pixel(
        src_data@,
        src_w as int,
        src_h as int,
        max_w as int,
        max_h as int,
        bg_color,
        cols@,
        rows@,
        r,
        c,
    ) by {
        assert(r * max_w + c < max_w * max_h) by (nonlinear_arith)
            requires
                0 <= r < max_h,
                0 <= c < max_w,
        ;
        lemma_row_col(r * max_w + c, max_w as int, r, c);
        lemma_canvas_pixel_samples(
            src_data@,
            src_w as int,
            src_h as int,
            max_w as int,
            max_h as int,
            bg_color,
            cols@,
            rows@,
            r,
            c,
        );
    }
    out
}

/// Slot `k` of two `panel` by `panel` frames laid side by side.
pub open spec fn joined_pixel(left: Seq<u32>, right: Seq<u32>, panel: int, k: int) -> u32 {
    if k % (2 * panel) < panel {
        left[k / (2 * panel) * panel + k % (2 * panel)]
    } else {
        right[k / (2 * panel) * panel + k % (2 * panel) - panel]
    }
}

/// Row `y` of the joined frame holds row `y` of `left` in its first `panel`
/// pixels and row `y` of `right` in the next `panel`.
pub proof fn lemma_joined_rows(left: Seq<u32>, right: Seq<u32>, panel: int, y: int, x: int)
    requires
        0 <= y,
        0 <= x < 2 * panel,
    ensures
        x < panel ==> joined_pixel(left, right, panel, y * (2 * panel) + x) == left[y * panel + x],
        panel <= x ==> joined_pixel(left, right, panel, y * (2 * panel) + x) == right[y * panel + x
            - panel],
{
    lemma_row_col(y * (2 * panel) + x, 2 * panel, y, x);
}

/// Lays two `panel` by `panel` frames side by side, `left` on the left, in a
/// frame twice as wide.
pub fn join_panels(left: &[u32], right: &[u32], panel: usize) -> (out: Vec<u32>)
    requires
        2 * panel * panel <= usize::MAX,
        panel * panel <= left.len(),
        panel * panel <= right.len(),
    ensures
        out.len() == 2 * panel * panel,
        forall|k: int|
            0 <= k < out.len() ==> #[trigger] out@[k] == joined_pixel(left@, right@, panel as int, k),
        forall|y: int, x: int|
            0 <= y < panel && 0 <= x < panel ==> #[trigger] out@[y * (2 * panel) + x] == left@[y
                * panel + x] && out@[y * (2 * panel) + panel + x] == right@[y * panel + x],
{
    let ghost w = 2 * panel as int;
    let mut out: Vec<u32> = Vec::new();
    let mut y: usize = 0;
    while y < panel
        invariant
            w == 2 * panel,
            2 * panel * panel <= usize::MAX,
            panel * panel <= left.len(),
            panel * panel <= right.len(),
            y <= panel,
            out.len() == y * w,
            forall|k: int| 0 <= k < out.len() ==> #[trigger] out@[k] == joined_pixel(left@, right@, panel as int, k),
        decreases panel - y,
    {
        assert(2 * panel <= 2 * panel * panel) by (nonlinear_arith)
            requires
                y < panel,
        ;
        let mut x: usize = 0;
        while x < 2 * panel
            invariant
                w == 2 * panel,
                2 * panel * panel <= usize::MAX,
                panel * panel <= left.len(),
                panel * panel <= right.len(),
                y < panel,
                2 * panel <= usize::MAX,
                x <= 2 * panel,
                out.len() == y * w + x,
                forall|k: int| 0 <= k < out.len() ==> #[trigger] out@[k] == joined_pixel(left@, right@, panel as int, k),
            decreases 2 * panel - x,
        {
            proof {
                assert(y * w + x < 2 * panel * panel) by (nonlinear_arith)
                    requires
                        w == 2 * panel,
                        y < panel,
                        x < 2 * panel,
                ;
                assert((y * panel + x) + 1 <= panel * panel + panel) by (nonlinear_arith)
                    requires
                        y < panel,
                        x < 2 * panel,
                ;
                lemma_row_col(y * w + x, w, y as int, x as int);
            }
            if x < panel {
                proof {
                    assert(y * panel + x < panel * panel) by (nonlinear_arith)
                        requires
                            y < panel,
                            x < panel,
                    ;
                }
                out.push(left[y * panel + x]);
            } else {
                proof {
                    assert(y * panel + (x - panel) < panel * panel) by (nonlinear_arith)
                        requires
                            y < panel,
                            panel <= x < 2 * panel,
                    ;
                }
                out.push(right[y * panel + (x - panel)]);
            }
            x += 1;
        }
        assert(y * w + 2 * panel == (y + 1) * w) by (nonlinear_arith)
            requires
                w == 2 * panel,
        ;
        y += 1;
    }
    assert(y * w == 2 * panel * panel) by (nonlinear_arith)
        requires
            w == 2 * panel,
            y == panel,
    ;
    assert forall|y: int, x: int| 0 <= y < panel && 0 <= x < panel implies #[trigger] out@[y * (2
        * panel) + x] == left@[y * panel + x] && out@[y * (2 * panel) + panel + x] == right@[y
        * panel + x] by {
        assert(y * (2 * panel) + panel + x < 2 * panel * panel) by (nonlinear_arith)
            requires
                0 <= y < panel,
                0 <= x < panel,
        ;
        lemma_joined_rows(left@, right@, panel as int, y, x);
        lemma_joined_rows(left@, right@, panel as int, y, panel + x);
    }
    out
}

} // verus!
