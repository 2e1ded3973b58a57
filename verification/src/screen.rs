use vstd::prelude::*;

use crate::color::{blended, Color};
use crate::bytes::ByteOrder;
use crate::connection_handler::{pixels_from_bytes, pixels_in};

verus! {

/// A place in a character cell.
#[derive(Clone, Copy, Debug, Default)]
pub struct CharBoundary {
    pub start_x: usize,
    pub start_y: usize,
    pub end_x: usize,
    pub end_y: usize,
}

/// A rectangle of the screen, as text is laid out in it.
#[derive(Clone, Copy, Debug)]
pub struct Boundaries {
    pub start_x: usize,
    pub start_y: usize,
    pub width: usize,
    pub height: usize,
}

/// A frame of `0x00RRGGBB` pixels, row after row.
#[derive(Clone, Debug)]
pub struct ScreenBuffer {
    pub height: usize,
    pub width: usize,
    pub buffer: Vec<u32>,
}

/// One write of a drawing: the pixel index it touches and what it makes of the
/// pixel's value. An index outside the buffer touches nothing.
pub type Stroke = (int, spec_fn(u32) -> u32);

/// A stroke that sets the pixel to `v`.
pub open spec fn set_to(i: int, v: u32) -> Stroke {
    (i, |old: u32| v)
}

/// The stroke that touches nothing.
pub open spec fn no_stroke() -> Stroke {
    (-1, |old: u32| old)
}

/// `buf` after stroke `s`.
pub open spec fn apply_stroke(buf: Seq<u32>, s: Stroke) -> Seq<u32> {
    if 0 <= s.0 < buf.len() {
        buf.update(s.0, (s.1)(buf[s.0]))
    } else {
        buf
    }
}

/// `buf` after the strokes `ws`, in order.
pub open spec fn paint(buf: Seq<u32>, ws: Seq<Stroke>) -> Seq<u32>
    decreases ws.len(),
{
    if ws.len() == 0 {
        buf
    } else {
        apply_stroke(paint(buf, ws.drop_last()), ws.last())
    }
}

/// `buf` after the rows of strokes `rows`, in order.
pub open spec fn paint_rows(buf: Seq<u32>, rows: Seq<Seq<Stroke>>) -> Seq<u32>
    decreases rows.len(),
{
    if rows.len() == 0 {
        buf
    } else {
        paint(paint_rows(buf, rows.drop_last()), rows.last())
    }
}

pub proof fn lemma_paint_len(buf: Seq<u32>, ws: Seq<Stroke>)
    ensures
        paint(buf, ws).len() == buf.len(),
    decreases ws.len(),
{
    if ws.len() > 0 {
        lemma_paint_len(buf, ws.drop_last());
    }
}

pub proof fn lemma_paint_rows_len(buf: Seq<u32>, rows: Seq<Seq<Stroke>>)
    ensures
        paint_rows(buf, rows).len() == buf.len(),
    decreases rows.len(),
{
    if rows.len() > 0 {
        lemma_paint_rows_len(buf, rows.drop_last());
        lemma_paint_len(paint_rows(buf, rows.drop_last()), rows.last());
    }
}

pub proof fn lemma_paint_step(buf: Seq<u32>, ws: Seq<Stroke>, c: int)
    requires
        0 <= c < ws.len(),
    ensures
        paint(buf, ws.take(c + 1)) == apply_stroke(paint(buf, ws.take(c)), ws[c]),
{
    assert(ws.take(c + 1).drop_last() =~= ws.take(c));
}

pub proof fn lemma_rows_step(buf: Seq<u32>, rows: Seq<Seq<Stroke>>, r: int)
    requires
        0 <= r < rows.len(),
    ensures
        paint_rows(buf, rows.take(r + 1)) == paint(paint_rows(buf, rows.take(r)), rows[r]),
{
    assert(rows.take(r + 1).drop_last() =~= rows.take(r));
}

/// Some stroke of `ws` touches index `i`.
pub open spec fn touches(ws: Seq<Stroke>, i: int) -> bool {
    exists|k: int| 0 <= k < ws.len() && (#[trigger] ws[k]).0 == i
}

/// Every stroke of `ws` sets its pixel to `v`.
pub open spec fn all_set_to(ws: Seq<Stroke>, v: u32) -> bool {
    forall|k: int, o: u32| 0 <= k < ws.len() ==> #[trigger] (ws[k].1)(o) == v
}

proof fn lemma_paint_const(buf: Seq<u32>, ws: Seq<Stroke>, v: u32, i: int)
    requires
        all_set_to(ws, v),
        0 <= i < buf.len(),
    ensures
        paint(buf, ws)[i] == if touches(ws, i) {
            v
        } else {
            buf[i]
        },
    decreases ws.len(),
{
    if ws.len() > 0 {
        let prev = ws.drop_last();
        assert(all_set_to(prev, v)) by {
            assert forall|k: int, o: u32| 0 <= k < prev.len() implies #[trigger] (prev[k].1)(o) == v by {
                assert(prev[k] == ws[k]);
            }
        }
        lemma_paint_const(buf, prev, v, i);
        lemma_paint_len(buf, prev);
        let last = ws.last();
        assert(last == ws[ws.len() - 1]);
        if touches(ws, i) && last.0 != i {
            let k = choose|k: int| 0 <= k < ws.len() && (#[trigger] ws[k]).0 == i;
            assert(prev[k] == ws[k]);
        }
        if touches(prev, i) {
            let k = choose|k: int| 0 <= k < prev.len() && (#[trigger] prev[k]).0 == i;
            assert(ws[k] == prev[k]);
        }
    }
}

/// The index of pixel `(x, y)` in a buffer `width` pixels wide.
pub open spec fn pixel_index(width: usize, x: int, y: int) -> int {
    y * width + x
}

/// The strokes of a rectangle filled with `v`: row by row, left to right.
pub open spec fn rect_rows(width: usize, x0: int, y0: int, w: int, h: int, v: u32) -> Seq<
    Seq<Stroke>,
> {
    Seq::new(
        h as nat,
        |r: int| Seq::new(w as nat, |c: int| set_to(pixel_index(width, x0 + c, y0 + r), v)),
    )
}

/// The strokes of a translucent rectangle: each of its pixels that lies on the
/// screen (`x < width`, `y < height`) is mixed with `fg` at coverage `a`.
pub open spec fn alpha_rect_rows(
    width: usize,
    height: usize,
    x0: int,
    y0: int,
    w: int,
    h: int,
    fg: u32,
    a: u8,
) -> Seq<Seq<Stroke>> {
    Seq::new(
        h as nat,
        |r: int|
            Seq::new(
                w as nat,
                |c: int|
                    if x0 + c < width && y0 + r < height {
                        (pixel_index(width, x0 + c, y0 + r), |old: u32| blended(old, fg, a))
                    } else {
                        no_stroke()
                    },
            ),
    )
}

/// The strokes of a bitmap drawn at the origin: row `y` sets pixel `(x, y)` to
/// `bitmap[y][x]`, for each `x` of that row.
pub open spec fn bitmap_rows(width: usize, bitmap: Seq<Seq<u32>>) -> Seq<Seq<Stroke>> {
    Seq::new(
        bitmap.len(),
        |y: int| Seq::new(bitmap[y].len(), |x: int| set_to(pixel_index(width, x, y), bitmap[y][x])),
    )
}

/// The strokes of an image of `w` by `h` pixels: with colour type 0 pixel
/// `k = y w + x` is three bytes `r g b` at `3k` and is drawn at `(x, y)`;
/// otherwise it is four bytes `r g b a` at `4k` and is drawn, with its alpha,
/// at `(x + 1, y + 1)`.
pub open spec fn image_rows(width: usize, image: Seq<u8>, w: int, h: int, color_type: u8) -> Seq<
    Seq<Stroke>,
> {
    Seq::new(
        h as nat,
        |y: int|
            Seq::new(
                w as nat,
                |x: int|
                    {
                        let k = y * w + x;
                        if color_type == 0 {
                            set_to(
                                pixel_index(width, x, y),
                                crate::color::pack_rgb(
                                    image[3 * k] as u32,
                                    image[3 * k + 1] as u32,
                                    image[3 * k + 2] as u32,
                                ),
                            )
                        } else {
                            set_to(
                                pixel_index(width, x + 1, y + 1),
                                crate::color::pack_argb(
                                    image[4 * k + 3] as u32,
                                    image[4 * k] as u32,
                                    image[4 * k + 1] as u32,
                                    image[4 * k + 2] as u32,
                                ),
                            )
                        }
                    },
            ),
    )
}

/// Where the first loop of `draw_line` puts column `k`: `(x0 + k, y0 + dy k / dx)`.
pub open spec fn line_first_point(x0: int, y0: int, dx: int, dy: int, k: int) -> (int, int) {
    (x0 + k, y0 + dy * k / dx)
}

/// Where the second loop of `draw_line` puts row `k`: `(y0 + dx (y0 + k - x0) / dy, y0 + k)`.
pub open spec fn line_second_point(x0: int, y0: int, dx: int, dy: int, k: int) -> (int, int) {
    (y0 + dx * (y0 + k - x0) / dy, y0 + k)
}

/// The strokes of `draw_line` from `(x0, y0)` to `(x1, y1)`: one per column
/// of the span, then one per row.
pub open spec fn line_rows(width: usize, x0: int, y0: int, x1: int, y1: int, v: u32) -> Seq<
    Seq<Stroke>,
> {
    let dx = x1 - x0;
    let dy = y1 - y0;
    seq![
        Seq::new(
            dx as nat,
            |k: int|
                set_to(
                    pixel_index(width, line_first_point(x0, y0, dx, dy, k).0, line_first_point(x0, y0, dx, dy, k).1),
                    v,
                ),
        ),
        Seq::new(
            dy as nat,
            |k: int|
                set_to(
                    pixel_index(width, line_second_point(x0, y0, dx, dy, k).0, line_second_point(x0, y0, dx, dy, k).1),
                    v,
                ),
        ),
    ]
}

/// The strokes of the rows, one row after another.
pub open spec fn flat(rows: Seq<Seq<Stroke>>) -> Seq<Stroke>
    decreases rows.len(),
{
    if rows.len() == 0 {
        seq![]
    } else {
        flat(rows.drop_last()) + rows.last()
    }
}

proof fn lemma_paint_concat(buf: Seq<u32>, a: Seq<Stroke>, b: Seq<Stroke>)
    ensures
        paint(buf, a + b) == paint(paint(buf, a), b),
    decreases b.len(),
{
    if b.len() == 0 {
        assert(a + b =~= a);
    } else {
        lemma_paint_concat(buf, a, b.drop_last());
        assert((a + b).drop_last() =~= a + b.drop_last());
        assert((a + b).last() == b.last());
    }
}

proof fn lemma_paint_rows_flat(buf: Seq<u32>, rows: Seq<Seq<Stroke>>)
    ensures
        paint_rows(buf, rows) == paint(buf, flat(rows)),
    decreases rows.len(),
{
    if rows.len() > 0 {
        lemma_paint_rows_flat(buf, rows.drop_last());
        lemma_paint_concat(buf, flat(rows.drop_last()), rows.last());
    }
}

proof fn lemma_flat_index(rows: Seq<Seq<Stroke>>, k: int)
    requires
        0 <= k < flat(rows).len(),
    ensures
        exists|r: int, c: int|
            0 <= r < rows.len() && 0 <= c < rows[r].len() && flat(rows)[k] == #[trigger] rows[r][c],
    decreases rows.len(),
{
    if rows.len() > 0 {
        let prev = flat(rows.drop_last());
        if k < prev.len() {
            lemma_flat_index(rows.drop_last(), k);
            let (r, c) = choose|r: int, c: int|
                0 <= r < rows.drop_last().len() && 0 <= c < rows.drop_last()[r].len() && prev[k]
                    == #[trigger] rows.drop_last()[r][c];
            assert(rows[r] == rows.drop_last()[r]);
            assert(flat(rows)[k] == rows[r][c]);
        } else {
            assert(flat(rows)[k] == rows.last()[k - prev.len()]);
            assert(rows.last() == rows[rows.len() - 1]);
        }
    }
}

proof fn lemma_flat_has(rows: Seq<Seq<Stroke>>, r: int, c: int)
    requires
        0 <= r < rows.len(),
        0 <= c < rows[r].len(),
    ensures
        exists|k: int| 0 <= k < flat(rows).len() && flat(rows)[k] == rows[r][c],
    decreases rows.len(),
{
    let prev = flat(rows.drop_last());
    if r < rows.len() - 1 {
        lemma_flat_has(rows.drop_last(), r, c);
        let k = choose|k: int| 0 <= k < prev.len() && prev[k] == rows.drop_last()[r][c];
        assert(flat(rows)[k] == prev[k]);
    } else {
        assert(flat(rows)[prev.len() + c] == rows.last()[c]);
    }
}

/// Filling a rectangle with one colour sets exactly the pixels that some point
/// of the rectangle lands on (`y * width + x`) to that colour and leaves every
/// other pixel as it was.
pub proof fn law_rect_fills(buf: Seq<u32>, width: usize, x0: int, y0: int, w: int, h: int, v: u32, i: int)
    requires
        0 <= i < buf.len(),
        0 <= w,
        0 <= h,
    ensures
        paint_rows(buf, rect_rows(width, x0, y0, w, h, v))[i] == if exists|x: int, y: int|
            x0 <= x < x0 + w && y0 <= y < y0 + h && #[trigger] pixel_index(width, x, y) == i {
            v
        } else {
            buf[i]
        },
{
    let rows = rect_rows(width, x0, y0, w, h, v);
    let ws = flat(rows);
    lemma_paint_rows_flat(buf, rows);
    assert(all_set_to(ws, v)) by {
        assert forall|k: int, o: u32| 0 <= k < ws.len() implies #[trigger] (ws[k].1)(o) == v by {
            lemma_flat_index(rows, k);
        }
    }
    lemma_paint_const(buf, ws, v, i);
    let hit = exists|x: int, y: int|
        x0 <= x < x0 + w && y0 <= y < y0 + h && #[trigger] pixel_index(width, x, y) == i;
    if touches(ws, i) {
        let k = choose|k: int| 0 <= k < ws.len() && (#[trigger] ws[k]).0 == i;
        lemma_flat_index(rows, k);
        let (r, c) = choose|r: int, c: int|
            0 <= r < rows.len() && 0 <= c < rows[r].len() && ws[k] == #[trigger] rows[r][c];
        assert(pixel_index(width, x0 + c, y0 + r) == i);
    }
    if hit {
        let (x, y) = choose|x: int, y: int|
            x0 <= x < x0 + w && y0 <= y < y0 + h && #[trigger] pixel_index(width, x, y) == i;
        lemma_flat_has(rows, y - y0, x - x0);
        let k = choose|k: int| 0 <= k < ws.len() && ws[k] == rows[y - y0][x - x0];
        assert(ws[k].0 == i);
    }
}

/// Some stroke of some row of `rows` touches index `i`.
pub open spec fn hits(rows: Seq<Seq<Stroke>>, i: int) -> bool {
    exists|r: int, c: int| 0 <= r < rows.len() && 0 <= c < rows[r].len() && (#[trigger] rows[r][c]).0 == i
}

proof fn lemma_paint_pointwise(buf: Seq<u32>, ws: Seq<Stroke>, v: u32, i: int)
    requires
        0 <= i < buf.len(),
        forall|k: int, o: u32| 0 <= k < ws.len() && ws[k].0 == i ==> #[trigger] (ws[k].1)(o) == v,
    ensures
        paint(buf, ws)[i] == if touches(ws, i) {
            v
        } else {
            buf[i]
        },
    decreases ws.len(),
{
    if ws.len() > 0 {
        let prev = ws.drop_last();
        assert forall|k: int, o: u32| 0 <= k < prev.len() && prev[k].0 == i implies #[trigger] (
        prev[k].1)(o) == v by {
            assert(prev[k] == ws[k]);
            assert((ws[k].1)(o) == v);
        }
        lemma_paint_pointwise(buf, prev, v, i);
        lemma_paint_len(buf, prev);
        let last = ws.last();
        assert(last == ws[ws.len() - 1]);
        if last.0 == i {
            assert((ws[ws.len() - 1].1)(paint(buf, prev)[i]) == v);
        }
        if touches(ws, i) && last.0 != i {
            let k = choose|k: int| 0 <= k < ws.len() && (#[trigger] ws[k]).0 == i;
            assert(prev[k] == ws[k]);
        }
        if touches(prev, i) {
            let k = choose|k: int| 0 <= k < prev.len() && (#[trigger] prev[k]).0 == i;
            assert(ws[k] == prev[k]);
        }
    }
}

/// Where every stroke of `rows` that touches index `i` sets it to `v`, the
/// pixel ends up `v` if some stroke touches it and unchanged otherwise.
proof fn lemma_rows_pointwise(buf: Seq<u32>, rows: Seq<Seq<Stroke>>, v: u32, i: int)
    requires
        0 <= i < buf.len(),
        forall|r: int, c: int, o: u32|
            0 <= r < rows.len() && 0 <= c < rows[r].len() && rows[r][c].0 == i ==> #[trigger] (
            rows[r][c].1)(o) == v,
    ensures
        paint_rows(buf, rows)[i] == if hits(rows, i) {
            v
        } else {
            buf[i]
        },
{
    let ws = flat(rows);
    lemma_paint_rows_flat(buf, rows);
    assert forall|k: int, o: u32| 0 <= k < ws.len() && ws[k].0 == i implies #[trigger] (ws[k].1)(o)
        == v by {
        lemma_flat_index(rows, k);
        let (r, c) = choose|r: int, c: int|
            0 <= r < rows.len() && 0 <= c < rows[r].len() && ws[k] == #[trigger] rows[r][c];
        assert((rows[r][c].1)(o) == v);
    }
    lemma_paint_pointwise(buf, ws, v, i);
    if touches(ws, i) {
        let k = choose|k: int| 0 <= k < ws.len() && (#[trigger] ws[k]).0 == i;
        lemma_flat_index(rows, k);
        let (r, c) = choose|r: int, c: int|
            0 <= r < rows.len() && 0 <= c < rows[r].len() && ws[k] == #[trigger] rows[r][c];
        assert(rows[r][c].0 == i);
    }
    if hits(rows, i) {
        let (r, c) = choose|r: int, c: int|
            0 <= r < rows.len() && 0 <= c < rows[r].len() && (#[trigger] rows[r][c]).0 == i;
        lemma_flat_has(rows, r, c);
        let k = choose|k: int| 0 <= k < ws.len() && ws[k] == rows[r][c];
        assert(ws[k].0 == i);
    }
}

proof fn lemma_paint_once(buf: Seq<u32>, ws: Seq<Stroke>, i: int)
    requires
        0 <= i < buf.len(),
        forall|k1: int, k2: int|
            0 <= k1 < ws.len() && 0 <= k2 < ws.len() && #[trigger] ws[k1].0 == i && #[trigger] ws[k2].0
                == i ==> k1 == k2,
    ensures
        paint(buf, ws)[i] == if touches(ws, i) {
            (ws[choose|k: int| 0 <= k < ws.len() && (#[trigger] ws[k]).0 == i].1)(buf[i])
        } else {
            buf[i]
        },
    decreases ws.len(),
{
    if ws.len() > 0 {
        let prev = ws.drop_last();
        let n = ws.len() - 1;
        assert forall|k1: int, k2: int|
            0 <= k1 < prev.len() && 0 <= k2 < prev.len() && #[trigger] prev[k1].0 == i
                && #[trigger] prev[k2].0 == i implies k1 == k2 by {
            assert(prev[k1] == ws[k1] && prev[k2] == ws[k2]);
        }
        lemma_paint_once(buf, prev, i);
        lemma_paint_len(buf, prev);
        assert(ws.last() == ws[n]);
        if ws[n].0 == i {
            if touches(prev, i) {
                let k = choose|k: int| 0 <= k < prev.len() && (#[trigger] prev[k]).0 == i;
                assert(ws[k] == prev[k]);
            }
            assert(touches(ws, i));
            let kc = choose|k: int| 0 <= k < ws.len() && (#[trigger] ws[k]).0 == i;
            assert(kc == n);
        } else {
            if touches(ws, i) {
                let kc = choose|k: int| 0 <= k < ws.len() && (#[trigger] ws[k]).0 == i;
                assert(prev[kc] == ws[kc]);
                assert(touches(prev, i));
                let kp = choose|k: int| 0 <= k < prev.len() && (#[trigger] prev[k]).0 == i;
                assert(ws[kp] == prev[kp]);
                assert(kp == kc);
            }
            if touches(prev, i) {
                let kp = choose|k: int| 0 <= k < prev.len() && (#[trigger] prev[k]).0 == i;
                assert(ws[kp] == prev[kp]);
            }
        }
    }
}

/// Where at most one stroke of all of `rows` touches index `i`, the pixel ends
/// up as that stroke makes it of its old value, or unchanged if none does.
proof fn lemma_rows_once(buf: Seq<u32>, rows: Seq<Seq<Stroke>>, i: int)
    requires
        0 <= i < buf.len(),
        forall|r1: int, c1: int, r2: int, c2: int|
            0 <= r1 < rows.len() && 0 <= c1 < rows[r1].len() && 0 <= r2 < rows.len() && 0 <= c2
                < rows[r2].len() && #[trigger] rows[r1][c1].0 == i && #[trigger] rows[r2][c2].0 == i
                ==> r1 == r2 && c1 == c2,
    ensures
        paint_rows(buf, rows)[i] == if hits(rows, i) {
            (rows[(choose|r: int, c: int|
                0 <= r < rows.len() && 0 <= c < rows[r].len() && (#[trigger] rows[r][c]).0 == i).0][(
            choose|r: int, c: int|
                0 <= r < rows.len() && 0 <= c < rows[r].len() && (#[trigger] rows[r][c]).0 == i).1].1)(
            buf[i])
        } else {
            buf[i]
        },
    decreases rows.len(),
{
    if rows.len() > 0 {
        let prev = rows.drop_last();
        let n = rows.len() - 1;
        let row = rows[n];
        assert(rows.last() == row);
        assert forall|r1: int, c1: int, r2: int, c2: int|
            0 <= r1 < prev.len() && 0 <= c1 < prev[r1].len() && 0 <= r2 < prev.len() && 0 <= c2
                < prev[r2].len() && #[trigger] prev[r1][c1].0 == i && #[trigger] prev[r2][c2].0 == i
                implies r1 == r2 && c1 == c2 by {
            assert(prev[r1] == rows[r1] && prev[r2] == rows[r2]);
        }
        lemma_rows_once(buf, prev, i);
        lemma_paint_rows_len(buf, prev);
        let mid = paint_rows(buf, prev);
        assert forall|k1: int, k2: int|
            0 <= k1 < row.len() && 0 <= k2 < row.len() && #[trigger] row[k1].0 == i
                && #[trigger] row[k2].0 == i implies k1 == k2 by {
            assert(rows[n][k1].0 == i && rows[n][k2].0 == i);
        }
        lemma_paint_once(mid, row, i);
        if touches(row, i) {
            let c = choose|k: int| 0 <= k < row.len() && (#[trigger] row[k]).0 == i;
            assert(rows[n][c].0 == i);
            if hits(prev, i) {
                let (r, c2) = choose|r: int, c: int|
                    0 <= r < prev.len() && 0 <= c < prev[r].len() && (#[trigger] prev[r][c]).0 == i;
                assert(prev[r] == rows[r]);
                assert(rows[r][c2].0 == i);
            }
            assert(hits(rows, i));
            let (rc, cc) = choose|r: int, c: int|
                0 <= r < rows.len() && 0 <= c < rows[r].len() && (#[trigger] rows[r][c]).0 == i;
            assert(rc == n && cc == c);
        } else {
            if hits(rows, i) {
                let (rc, cc) = choose|r: int, c: int|
                    0 <= r < rows.len() && 0 <= c < rows[r].len() && (#[trigger] rows[r][c]).0 == i;
                if rc == n {
                    assert(row[cc].0 == i);
                }
                assert(prev[rc] == rows[rc]);
                assert(prev[rc][cc].0 == i);
                assert(hits(prev, i));
                let (rp, cp) = choose|r: int, c: int|
                    0 <= r < prev.len() && 0 <= c < prev[r].len() && (#[trigger] prev[r][c]).0 == i;
                assert(prev[rp] == rows[rp]);
                assert(rows[rp][cp].0 == i);
                assert(rp == rc && cp == cc);
            }
            if hits(prev, i) {
                let (rp, cp) = choose|r: int, c: int|
                    0 <= r < prev.len() && 0 <= c < prev[r].len() && (#[trigger] prev[r][c]).0 == i;
                assert(prev[rp] == rows[rp]);
                assert(rows[rp][cp].0 == i);
            }
        }
    }
}

/// Pixel index `i` of a buffer `width` pixels wide is `(x, y)` exactly where
/// `x = i % width` and `y = i / width`.
proof fn lemma_index_cell(width: int, x: int, y: int, i: int)
    requires
        0 <= x < width,
        i == y * width + x,
    ensures
        x == i % width,
        y == i / width,
{
    vstd::arithmetic::div_mod::lemma_fundamental_div_mod_converse(i, width, y, x);
}

proof fn lemma_index_split(width: int, i: int)
    requires
        width > 0,
        0 <= i,
    ensures
        i == (i / width) * width + i % width,
        0 <= i % width < width,
        0 <= i / width,
{
    vstd::arithmetic::div_mod::lemma_fundamental_div_mod(i, width);
    vstd::arithmetic::div_mod::lemma_mod_bound(i, width);
    vstd::arithmetic::div_mod::lemma_div_pos_is_pos(i, width);
    assert((i / width) * width == width * (i / width)) by (nonlinear_arith);
}

/// A translucent rectangle mixes the colour, at its coverage, over exactly its
/// pixels that lie on the screen (`x < width`, `y < height`), each once, and
/// leaves every other pixel as it was.
pub proof fn law_alpha_rect_blends(
    buf: Seq<u32>,
    width: usize,
    height: usize,
    x0: int,
    y0: int,
    w: int,
    h: int,
    fg: u32,
    a: u8,
    i: int,
)
    requires
        0 <= i < buf.len(),
        0 <= x0,
        0 <= y0,
        0 <= w,
        0 <= h,
    ensures
        paint_rows(buf, alpha_rect_rows(width, height, x0, y0, w, h, fg, a))[i] == if exists|
            x: int,
            y: int,
        |
            x0 <= x < x0 + w && y0 <= y < y0 + h && x < width && y < height && #[trigger] pixel_index(
                width,
                x,
                y,
            ) == i {
            blended(buf[i], fg, a)
        } else {
            buf[i]
        },
{
    let rows = alpha_rect_rows(width, height, x0, y0, w, h, fg, a);
    let wd = width as int;
    assert forall|r1: int, c1: int, r2: int, c2: int|
        0 <= r1 < rows.len() && 0 <= c1 < rows[r1].len() && 0 <= r2 < rows.len() && 0 <= c2
            < rows[r2].len() && #[trigger] rows[r1][c1].0 == i && #[trigger] rows[r2][c2].0 == i
            implies r1 == r2 && c1 == c2 by {
        assert(x0 + c1 < width && y0 + r1 < height);
        assert(x0 + c2 < width && y0 + r2 < height);
        lemma_index_cell(wd, x0 + c1, y0 + r1, i);
        lemma_index_cell(wd, x0 + c2, y0 + r2, i);
    }
    lemma_rows_once(buf, rows, i);
    let hit = exists|x: int, y: int|
        x0 <= x < x0 + w && y0 <= y < y0 + h && x < width && y < height && #[trigger] pixel_index(
            width,
            x,
            y,
        ) == i;
    if hits(rows, i) {
        let (r, c) = choose|r: int, c: int|
            0 <= r < rows.len() && 0 <= c < rows[r].len() && (#[trigger] rows[r][c]).0 == i;
        assert(x0 + c < width && y0 + r < height);
        assert(pixel_index(width, x0 + c, y0 + r) == i);
        assert((rows[r][c].1)(buf[i]) == blended(buf[i], fg, a));
    }
    if hit {
        let (x, y) = choose|x: int, y: int|
            x0 <= x < x0 + w && y0 <= y < y0 + h && x < width && y < height && #[trigger] pixel_index(
                width,
                x,
                y,
            ) == i;
        assert(rows[y - y0][x - x0].0 == i);
    }
}

/// `draw_line` from `(x0, y0)` to `(x1, y1)` sets to the colour exactly the
/// pixels of its two passes, one pixel per column and one per row of the
/// span, and leaves every other pixel as it was: column `x` in `x0..x1` at
/// `y = y0 + (y1 - y0) (x - x0) / (x1 - x0)`, and row `y` in `y0..y1` at
/// `x = y0 + (x1 - x0) (y - x0) / (y1 - y0)`.
pub proof fn law_line_lights(
    buf: Seq<u32>,
    width: usize,
    x0: int,
    y0: int,
    x1: int,
    y1: int,
    v: u32,
    i: int,
)
    requires
        0 <= i < buf.len(),
        x0 <= x1,
        y0 <= y1,
    ensures
        paint_rows(buf, line_rows(width, x0, y0, x1, y1, v))[i] == if (exists|x: int, y: int|
            x0 <= x < x1 && y == y0 + (y1 - y0) * (x - x0) / (x1 - x0) && #[trigger] pixel_index(
                width,
                x,
                y,
            ) == i) || (exists|x: int, y: int|
            y0 <= y < y1 && x == y0 + (x1 - x0) * (y - x0) / (y1 - y0) && #[trigger] pixel_index(
                width,
                x,
                y,
            ) == i) {
            v
        } else {
            buf[i]
        },
{
    let rows = line_rows(width, x0, y0, x1, y1, v);
    let dx = x1 - x0;
    let dy = y1 - y0;
    assert(rows.len() == 2);
    assert(rows[0].len() == dx && rows[1].len() == dy);
    assert forall|r: int, c: int, o: u32|
        0 <= r < rows.len() && 0 <= c < rows[r].len() && rows[r][c].0 == i implies #[trigger] (
        rows[r][c].1)(o) == v by {
        if r == 0 {
            assert(rows[0][c] == set_to(
                pixel_index(width, line_first_point(x0, y0, dx, dy, c).0, line_first_point(x0, y0, dx, dy, c).1),
                v,
            ));
        } else {
            assert(rows[1][c] == set_to(
                pixel_index(width, line_second_point(x0, y0, dx, dy, c).0, line_second_point(x0, y0, dx, dy, c).1),
                v,
            ));
        }
    }
    lemma_rows_pointwise(buf, rows, v, i);
    let first = exists|x: int, y: int|
        x0 <= x < x1 && y == y0 + (y1 - y0) * (x - x0) / (x1 - x0) && #[trigger] pixel_index(
            width,
            x,
            y,
        ) == i;
    let second = exists|x: int, y: int|
        y0 <= y < y1 && x == y0 + (x1 - x0) * (y - x0) / (y1 - y0) && #[trigger] pixel_index(
            width,
            x,
            y,
        ) == i;
    if hits(rows, i) {
        let (r, c) = choose|r: int, c: int|
            0 <= r < rows.len() && 0 <= c < rows[r].len() && (#[trigger] rows[r][c]).0 == i;
        if r == 0 {
            let p = line_first_point(x0, y0, dx, dy, c);
            assert(rows[0][c].0 == pixel_index(width, p.0, p.1));
            assert(p.0 - x0 == c);
            assert(pixel_index(width, p.0, p.1) == i);
            assert(first);
        } else {
            let p = line_second_point(x0, y0, dx, dy, c);
            assert(rows[1][c].0 == pixel_index(width, p.0, p.1));
            assert(p.1 - y0 == c);
            assert(pixel_index(width, p.0, p.1) == i);
            assert(second);
        }
    }
    if first {
        let (x, y) = choose|x: int, y: int|
            x0 <= x < x1 && y == y0 + (y1 - y0) * (x - x0) / (x1 - x0) && #[trigger] pixel_index(
                width,
                x,
                y,
            ) == i;
        let c = x - x0;
        assert(line_first_point(x0, y0, dx, dy, c) == (x, y));
        assert(rows[0][c].0 == i);
    }
    if second {
        let (x, y) = choose|x: int, y: int|
            y0 <= y < y1 && x == y0 + (x1 - x0) * (y - x0) / (y1 - y0) && #[trigger] pixel_index(
                width,
                x,
                y,
            ) == i;
        let c = y - y0;
        assert(line_second_point(x0, y0, dx, dy, c) == (x, y));
        assert(rows[1][c].0 == i);
    }
}

/// Drawing a bitmap whose rows fit the screen's width sets the pixel at
/// `(i % width, i / width)` of the bitmap to its value there, and leaves each
/// pixel the bitmap does not cover as it was.
pub proof fn law_bitmap_draws(buf: Seq<u32>, width: usize, bitmap: Seq<Seq<u32>>, i: int)
    requires
        0 <= i < buf.len(),
        forall|y: int| 0 <= y < bitmap.len() ==> #[trigger] bitmap[y].len() <= width,
    ensures
        paint_rows(buf, bitmap_rows(width, bitmap))[i] == if width > 0 && i / (width as int)
            < bitmap.len() && i % (width as int) < bitmap[i / (width as int)].len() {
            bitmap[i / (width as int)][i % (width as int)]
        } else {
            buf[i]
        },
{
    let rows = bitmap_rows(width, bitmap);
    let w = width as int;
    let covered = w > 0 && i / w < bitmap.len() && i % w < bitmap[i / w].len();
    let v = if covered {
        bitmap[i / w][i % w]
    } else {
        buf[i]
    };
    assert forall|r: int, c: int, o: u32|
        0 <= r < rows.len() && 0 <= c < rows[r].len() && rows[r][c].0 == i implies #[trigger] (
        rows[r][c].1)(o) == v by {
        assert(bitmap[r].len() <= width);
        lemma_index_cell(w, c, r, i);
    }
    lemma_rows_pointwise(buf, rows, v, i);
    if hits(rows, i) {
        let (r, c) = choose|r: int, c: int|
            0 <= r < rows.len() && 0 <= c < rows[r].len() && (#[trigger] rows[r][c]).0 == i;
        assert(bitmap[r].len() <= width);
        lemma_index_cell(w, c, r, i);
    }
    if covered {
        lemma_index_split(w, i);
        assert(rows[i / w][i % w].0 == i);
    }
}

/// What `draw_image` leaves at index `i` of a buffer `width` pixels wide that
/// held `old` there: with colour type 0, the pixel `(x, y) = (i % width, i / width)`
/// takes image pixel `(x, y)` (its three bytes packed); otherwise it takes image
/// pixel `(x - 1, y - 1)` (its four bytes, alpha first); outside the image it
/// keeps `old`.
pub open spec fn image_value_at(
    width: usize,
    image: Seq<u8>,
    w: int,
    h: int,
    color_type: u8,
    i: int,
    old: u32,
) -> u32 {
    let shift: int = if color_type == 0 { 0 } else { 1 };
    let x = i % (width as int) - shift;
    let y = i / (width as int) - shift;
    let k = y * w + x;
    if width > 0 && 0 <= x < w && 0 <= y < h {
        if color_type == 0 {
            crate::color::pack_rgb(image[3 * k] as u32, image[3 * k + 1] as u32, image[3 * k + 2] as u32)
        } else {
            crate::color::pack_argb(
                image[4 * k + 3] as u32,
                image[4 * k] as u32,
                image[4 * k + 1] as u32,
                image[4 * k + 2] as u32,
            )
        }
    } else {
        old
    }
}

/// Drawing an image whose rows fit the screen's width (one column to spare
/// for the shifted colour types) sets each pixel it covers to the image's
/// pixel there and leaves every other pixel as it was (see `image_value_at`).
pub proof fn law_image_draws(
    buf: Seq<u32>,
    width: usize,
    image: Seq<u8>,
    w: int,
    h: int,
    color_type: u8,
    i: int,
)
    requires
        0 <= i < buf.len(),
        0 <= w,
        0 <= h,
        color_type == 0 ==> w <= width,
        color_type != 0 ==> w + 1 <= width,
    ensures
        paint_rows(buf, image_rows(width, image, w, h, color_type))[i] == image_value_at(
            width,
            image,
            w,
            h,
            color_type,
            i,
            buf[i],
        ),
{
    let rows = image_rows(width, image, w, h, color_type);
    let wd = width as int;
    let v = image_value_at(width, image, w, h, color_type, i, buf[i]);
    let shift: int = if color_type == 0 { 0 } else { 1 };
    assert forall|r: int, c: int, o: u32|
        0 <= r < rows.len() && 0 <= c < rows[r].len() && rows[r][c].0 == i implies #[trigger] (
        rows[r][c].1)(o) == v by {
        lemma_index_cell(wd, c + shift, r + shift, i);
    }
    lemma_rows_pointwise(buf, rows, v, i);
    let x = i % wd - shift;
    let y = i / wd - shift;
    if hits(rows, i) {
        let (r, c) = choose|r: int, c: int|
            0 <= r < rows.len() && 0 <= c < rows[r].len() && (#[trigger] rows[r][c]).0 == i;
        lemma_index_cell(wd, c + shift, r + shift, i);
    }
    if wd > 0 && 0 <= x < w && 0 <= y < h {
        lemma_index_split(wd, i);
        assert(rows[y][x].0 == i);
    }
}

impl ScreenBuffer {
    /// A black buffer of `width` by `height` pixels.
    pub fn new(width: usize, height: usize) -> (s: ScreenBuffer)
        requires
            width * height <= usize::MAX,
        ensures
            s.width == width,
            s.height == height,
            s.buffer@ == Seq::new((width * height) as nat, |i: int| 0u32),
    {
        let s = ScreenBuffer { width, height, buffer: vec![0; width * height] };
        assert(s.buffer@ =~= Seq::new((width * height) as nat, |i: int| 0u32));
        s
    }

    /// The screen of a received frame: its bytes read as pixels in byte order
    /// `order` (a whole number of pixels must have come).
    pub fn from_frame_bytes(width: usize, height: usize, raw: &[u8], order: ByteOrder) -> (s: ScreenBuffer)
        requires
            raw@.len() % 4 == 0,
        ensures
            s.width == width,
            s.height == height,
            s.buffer@ == pixels_in(order, raw@),
    {
        ScreenBuffer { width, height, buffer: pixels_from_bytes(raw, order) }
    }

    /// The index of pixel `(x, y)` in the buffer.
    pub fn calc_buf_pos(&self, x: usize, y: usize) -> (p: usize)
        requires
            y * self.width + x <= usize::MAX,
        ensures
            p == pixel_index(self.width, x as int, y as int),
    {
        y * self.width + x
    }

    /// Sets pixel `(x, y)` to the colour, where the buffer has such an index.
    pub fn put_pixel(&mut self, x: usize, y: usize, color: Color)
        requires
            y * old(self).width + x <= usize::MAX,
        ensures
            final(self).width == old(self).width,
            final(self).height == old(self).height,
            final(self).buffer@ == apply_stroke(
                old(self).buffer@,
                set_to(pixel_index(old(self).width, x as int, y as int), color.rgb()),
            ),
    {
        let buf_pos = self.calc_buf_pos(x, y);
        if self.buffer.len() > buf_pos {
            self.buffer.set(buf_pos, color.to_hex_rgb());
        }
    }

    /// Sets pixel `(x, y)` to the colour with its alpha, where the buffer has such an index.
    pub fn put_pixel_a(&mut self, x: usize, y: usize, color: Color)
        requires
            y * old(self).width + x <= usize::MAX,
        ensures
            final(self).width == old(self).width,
            final(self).height == old(self).height,
            final(self).buffer@ == apply_stroke(
                old(self).buffer@,
                set_to(pixel_index(old(self).width, x as int, y as int), color.argb()),
            ),
    {
        let buf_pos = self.calc_buf_pos(x, y);
        if self.buffer.len() > buf_pos {
            self.buffer.set(buf_pos, color.to_hex_rgba());
        }
    }

    /// Fills the rectangle `width` by `height` at `(start_x, start_y)` with the colour.
    pub fn draw_rect(&mut self, start_x: usize, start_y: usize, width: usize, height: usize, color: Color)
        requires
            start_x + width <= usize::MAX,
            start_y + height <= usize::MAX,
            width > 0 && height > 0 ==> (start_y + height - 1) * old(self).width + (start_x + width
                - 1) <= usize::MAX,
        ensures
            final(self).width == old(self).width,
            final(self).height == old(self).height,
            final(self).buffer@ == paint_rows(
                old(self).buffer@,
                rect_rows(old(self).width, start_x as int, start_y as int, width as int, height as int, color.rgb()),
            ),
    {
        let ghost old_buf = self.buffer@;
        let ghost rows = rect_rows(self.width, start_x as int, start_y as int, width as int, height as int, color.rgb());
        let mut y = start_y;
        while y < start_y + height
            invariant
                start_y <= y <= start_y + height,
                start_x + width <= usize::MAX,
                start_y + height <= usize::MAX,
                width > 0 && height > 0 ==> (start_y + height - 1) * self.width + (start_x + width
                    - 1) <= usize::MAX,
                self.width == old(self).width,
                self.height == old(self).height,
                rows == rect_rows(self.width, start_x as int, start_y as int, width as int, height as int, color.rgb()),
                self.buffer@ == paint_rows(old_buf, rows.take(y - start_y)),
            decreases start_y + height - y,
        {
            let ghost row_start = self.buffer@;
            let mut x = start_x;
            while x < start_x + width
                invariant
                    start_y <= y < start_y + height,
                    start_x <= x <= start_x + width,
                    start_x + width <= usize::MAX,
                    width > 0 ==> (start_y + height - 1) * self.width + (start_x + width - 1)
                        <= usize::MAX,
                    self.width == old(self).width,
                    self.height == old(self).height,
                    rows == rect_rows(self.width, start_x as int, start_y as int, width as int, height as int, color.rgb()),
                    row_start == paint_rows(old_buf, rows.take(y - start_y)),
                    self.buffer@ == paint(row_start, rows[y - start_y].take(x - start_x)),
                decreases start_x + width - x,
            {
                proof {
                    assert(y * self.width <= (start_y + height - 1) * self.width) by (nonlinear_arith)
                        requires
                            y <= start_y + height - 1,
                    ;
                    lemma_paint_step(row_start, rows[y - start_y], x - start_x);
                }
                self.put_pixel(x, y, color);
                x = x + 1;
            }
            proof {
                assert(rows[y - start_y].take(width as int) =~= rows[y - start_y]);
                lemma_rows_step(old_buf, rows, y - start_y);
            }
            y = y + 1;
        }
        assert(rows.take(height as int) =~= rows);
    }
}

impl ScreenBuffer {
    /// Fills the whole screen with the colour.
    pub fn clear(&mut self, color: Color)
        requires
            old(self).width > 0 && old(self).height > 0 ==> (old(self).height - 1) * old(self).width
                + (old(self).width - 1) <= usize::MAX,
        ensures
            final(self).width == old(self).width,
            final(self).height == old(self).height,
            final(self).buffer@ == paint_rows(
                old(self).buffer@,
                rect_rows(old(self).width, 0, 0, old(self).width as int, old(self).height as int, color.rgb()),
            ),
    {
        let w = self.width;
        let h = self.height;
        self.draw_rect(0, 0, w, h, color);
    }

    /// `fg` laid over `bg` with coverage `alpha` (see `blended`).
    pub fn blend_pixels(&self, bg: u32, fg: u32, alpha: u8) -> (p: u32)
        ensures
            p == blended(bg, fg, alpha),
    {
        if alpha == 255 {
            return fg;
        }
        if alpha == 0 {
            return bg;
        }
        let a = alpha as u32;
        let inv_a = 255 - a;
        proof {
            crate::color::lemma_lane_blend(bg, fg, a);
        }
        let rb = ((fg & 0xFF00FF) * a + (bg & 0xFF00FF) * inv_a) >> 8;
        let g = ((fg & 0x00FF00) * a + (bg & 0x00FF00) * inv_a) >> 8;
        (rb & 0xFF00FF) | (g & 0x00FF00)
    }

    /// Lays the colour, at its alpha, over the part of the rectangle that lies on the screen.
    pub fn draw_rect_alpha(&mut self, start_x: usize, start_y: usize, width: usize, height: usize, color: Color)
        requires
            start_x + width <= usize::MAX,
            start_y + height <= usize::MAX,
            forall|x: int, y: int|
                start_x <= x < start_x + width && start_y <= y < start_y + height && x < old(
                    self,
                ).width && y < old(self).height ==> #[trigger] pixel_index(old(self).width, x, y)
                    < old(self).buffer@.len(),
        ensures
            final(self).width == old(self).width,
            final(self).height == old(self).height,
            final(self).buffer@ == paint_rows(
                old(self).buffer@,
                alpha_rect_rows(
                    old(self).width,
                    old(self).height,
                    start_x as int,
                    start_y as int,
                    width as int,
                    height as int,
                    color.argb(),
                    color.alpha as u8,
                ),
            ),
    {
        let alpha = #[verifier::truncate] (color.alpha as u8);
        let fg_u32 = color.to_u32_argb();
        let buf_len = self.buffer.len();
        let ghost old_buf = self.buffer@;
        let ghost rows = alpha_rect_rows(self.width, self.height, start_x as int, start_y as int, width as int, height as int, fg_u32, alpha);
        let mut y = start_y;
        while y < start_y + height
            invariant
                start_y <= y <= start_y + height,
                start_x + width <= usize::MAX,
                start_y + height <= usize::MAX,
                self.width == old(self).width,
                self.height == old(self).height,
                self.buffer@.len() == old_buf.len(),
                buf_len == old_buf.len(),
                forall|x: int, y: int|
                    start_x <= x < start_x + width && start_y <= y < start_y + height && x < self.width
                        && y < self.height ==> #[trigger] pixel_index(self.width, x, y) < old_buf.len(),
                rows == alpha_rect_rows(self.width, self.height, start_x as int, start_y as int, width as int, height as int, fg_u32, alpha),
                self.buffer@ == paint_rows(old_buf, rows.take(y - start_y)),
            decreases start_y + height - y,
        {
            let ghost row_start = self.buffer@;
            let mut x = start_x;
            while x < start_x + width
                invariant
                    start_y <= y < start_y + height,
                    start_x <= x <= start_x + width,
                    start_x + width <= usize::MAX,
                    self.width == old(self).width,
                    self.height == old(self).height,
                    self.buffer@.len() == old_buf.len(),
                    buf_len == old_buf.len(),
                    forall|x: int, y: int|
                        start_x <= x < start_x + width && start_y <= y < start_y + height && x
                            < self.width && y < self.height ==> #[trigger] pixel_index(self.width, x, y)
                            < old_buf.len(),
                    rows == alpha_rect_rows(self.width, self.height, start_x as int, start_y as int, width as int, height as int, fg_u32, alpha),
                    row_start == paint_rows(old_buf, rows.take(y - start_y)),
                    self.buffer@ == paint(row_start, rows[y - start_y].take(x - start_x)),
                decreases start_x + width - x,
            {
                proof {
                    lemma_paint_step(row_start, rows[y - start_y], x - start_x);
                }
                if x < self.width && y < self.height {
                    proof {
                        assert(pixel_index(self.width, x as int, y as int) < old_buf.len());
                    }
                    let index = self.calc_buf_pos(x, y);
                    let bg_pixel = self.buffer[index];
                    let mixed = self.blend_pixels(bg_pixel, fg_u32, alpha);
                    self.buffer.set(index, mixed);
                }
                x = x + 1;
            }
            proof {
                assert(rows[y - start_y].take(width as int) =~= rows[y - start_y]);
                lemma_rows_step(old_buf, rows, y - start_y);
                lemma_paint_len(row_start, rows[y - start_y]);
            }
            y = y + 1;
        }
        assert(rows.take(height as int) =~= rows);
    }
}

impl ScreenBuffer {
    /// Copies a bitmap onto the screen at the origin, row `y` onto screen row `y`.
    pub fn draw_bitmap(&mut self, bitmap: Vec<Vec<u32>>)
        requires
            forall|y: int, x: int|
                0 <= y < bitmap@.len() && 0 <= x < bitmap@[y]@.len() ==> #[trigger] pixel_index(
                    old(self).width,
                    x,
                    y,
                ) < old(self).buffer@.len(),
        ensures
            final(self).width == old(self).width,
            final(self).height == old(self).height,
            final(self).buffer@ == paint_rows(
                old(self).buffer@,
                bitmap_rows(old(self).width, bitmap@.map_values(|r: Vec<u32>| r@)),
            ),
    {
        let ghost old_buf = self.buffer@;
        let ghost rows = bitmap_rows(self.width, bitmap@.map_values(|r: Vec<u32>| r@));
        let buf_len = self.buffer.len();
        let mut y: usize = 0;
        while y < bitmap.len()
            invariant
                y <= bitmap@.len(),
                self.width == old(self).width,
                self.height == old(self).height,
                buf_len == old_buf.len(),
                self.buffer@.len() == old_buf.len(),
                forall|y: int, x: int|
                    0 <= y < bitmap@.len() && 0 <= x < bitmap@[y]@.len() ==> #[trigger] pixel_index(
                        self.width,
                        x,
                        y,
                    ) < old_buf.len(),
                rows == bitmap_rows(self.width, bitmap@.map_values(|r: Vec<u32>| r@)),
                self.buffer@ == paint_rows(old_buf, rows.take(y as int)),
            decreases bitmap@.len() - y,
        {
            let ghost row_start = self.buffer@;
            let mut x: usize = 0;
            while x < bitmap[y].len()
                invariant
                    y < bitmap@.len(),
                    x <= bitmap@[y as int]@.len(),
                    self.width == old(self).width,
                    self.height == old(self).height,
                    buf_len == old_buf.len(),
                    self.buffer@.len() == old_buf.len(),
                    forall|y: int, x: int|
                        0 <= y < bitmap@.len() && 0 <= x < bitmap@[y]@.len() ==> #[trigger] pixel_index(
                            self.width,
                            x,
                            y,
                        ) < old_buf.len(),
                    rows == bitmap_rows(self.width, bitmap@.map_values(|r: Vec<u32>| r@)),
                    row_start == paint_rows(old_buf, rows.take(y as int)),
                    self.buffer@ == paint(row_start, rows[y as int].take(x as int)),
                decreases bitmap@[y as int]@.len() - x,
            {
                proof {
                    assert(pixel_index(self.width, x as int, y as int) < old_buf.len());
                    lemma_paint_step(row_start, rows[y as int], x as int);
                }
                let buf_pos = self.calc_buf_pos(x, y);
                self.buffer.set(buf_pos, bitmap[y][x]);
                x = x + 1;
            }
            proof {
                assert(rows[y as int].take(x as int) =~= rows[y as int]);
                lemma_rows_step(old_buf, rows, y as int);
                lemma_paint_len(row_start, rows[y as int]);
            }
            y = y + 1;
        }
        assert(rows.take(bitmap@.len() as int) =~= rows);
    }
}

proof fn lemma_cell_index(w: int, h: int, x: int, y: int)
    by (nonlinear_arith)
    requires
        0 <= x < w,
        0 <= y < h,
    ensures
        0 <= y * w + x,
        y * w + x + 1 <= w * h,
        (y * w + x) + 1 == y * w + (x + 1),
        (y + 1) * w == y * w + w,
{
}

impl ScreenBuffer {
    /// Draws an image of `w` by `h` pixels stored as bytes (see `image_rows`).
    pub fn draw_image(&mut self, image: Vec<u8>, w: usize, h: usize, color_type: u8)
        requires
            color_type == 0 ==> 3 * (w * h) <= image@.len(),
            color_type != 0 ==> 4 * (w * h) <= image@.len(),
            forall|x: int, y: int|
                0 <= x < w && 0 <= y < h ==> #[trigger] pixel_index(old(self).width, x, y) + (if color_type
                    == 0 {
                    0
                } else {
                    old(self).width + 1
                }) <= usize::MAX,
        ensures
            final(self).width == old(self).width,
            final(self).height == old(self).height,
            final(self).buffer@ == paint_rows(
                old(self).buffer@,
                image_rows(old(self).width, image@, w as int, h as int, color_type),
            ),
    {
        let ghost old_buf = self.buffer@;
        let ghost rows = image_rows(self.width, image@, w as int, h as int, color_type);
        let step: usize = if color_type == 0 {
            3
        } else {
            4
        };
        let mut px: usize = 0;
        let mut y: usize = 0;
        while y < h
            invariant
                y <= h,
                step == (if color_type == 0 { 3usize } else { 4usize }),
                step * (w * h) <= image@.len(),
                color_type == 0 ==> 3 * (w * h) <= image@.len(),
                color_type != 0 ==> 4 * (w * h) <= image@.len(),
                forall|x: int, y: int|
                    0 <= x < w && 0 <= y < h ==> #[trigger] pixel_index(self.width, x, y) + (if color_type
                        == 0 {
                        0
                    } else {
                        self.width + 1
                    }) <= usize::MAX,
                px == (step - 1) * (y * w),
                self.width == old(self).width,
                self.height == old(self).height,
                rows == image_rows(self.width, image@, w as int, h as int, color_type),
                self.buffer@ == paint_rows(old_buf, rows.take(y as int)),
            decreases h - y,
        {
            let ghost row_start = self.buffer@;
            let mut x: usize = 0;
            while x < w
                invariant
                    y < h,
                    x <= w,
                    step == (if color_type == 0 { 3usize } else { 4usize }),
                    step * (w * h) <= image@.len(),
                    color_type == 0 ==> 3 * (w * h) <= image@.len(),
                    color_type != 0 ==> 4 * (w * h) <= image@.len(),
                    forall|x: int, y: int|
                        0 <= x < w && 0 <= y < h ==> #[trigger] pixel_index(self.width, x, y) + (if color_type
                            == 0 {
                            0
                        } else {
                            self.width + 1
                        }) <= usize::MAX,
                    px == (step - 1) * (y * w + x),
                    self.width == old(self).width,
                    self.height == old(self).height,
                    rows == image_rows(self.width, image@, w as int, h as int, color_type),
                    row_start == paint_rows(old_buf, rows.take(y as int)),
                    self.buffer@ == paint(row_start, rows[y as int].take(x as int)),
                decreases w - x,
            {
                let ghost k = y * w + x;
                proof {
                    lemma_cell_index(w as int, h as int, x as int, y as int);
                    assert(step * (k + 1) <= step * (w * h)) by (nonlinear_arith)
                        requires
                            k + 1 <= w * h,
                            step >= 0,
                    ;
                    assert(px == (step - 1) * k);
                    assert(k + px == step * k) by (nonlinear_arith)
                        requires
                            px == (step - 1) * k,
                    ;
                    assert(step * (k + 1) == step * k + step) by (nonlinear_arith);
                    assert((step - 1) * (k + 1) == (step - 1) * k + (step - 1)) by (nonlinear_arith);
                    assert(pixel_index(self.width, x as int, y as int) + (if color_type == 0 {
                        0
                    } else {
                        self.width + 1
                    }) <= usize::MAX);
                    assert(pixel_index(self.width, (x + 1) as int, (y + 1) as int) == pixel_index(
                        self.width,
                        x as int,
                        y as int,
                    ) + self.width + 1) by (nonlinear_arith);
                    lemma_paint_step(row_start, rows[y as int], x as int);
                }
                let idx = y * w;
                let idy = (idx + x) + px;
                let r = idy;
                let g = idy + 1;
                let b = idy + 2;
                if color_type == 0 {
                    px = px + 2;
                    let color = Color::from_rgb(image[r] as u32, image[g] as u32, image[b] as u32);
                    self.put_pixel(x, y, color);
                } else {
                    let a = idy + 3;
                    px = px + 3;
                    let color = Color::from_rgba(
                        image[r] as u32,
                        image[g] as u32,
                        image[b] as u32,
                        image[a] as u32,
                    );
                    self.put_pixel_a(x + 1, y + 1, color);
                }
                x = x + 1;
            }
            proof {
                assert(rows[y as int].take(x as int) =~= rows[y as int]);
                lemma_rows_step(old_buf, rows, y as int);
                assert(y * w + w == (y + 1) * w) by (nonlinear_arith);
            }
            y = y + 1;
        }
        assert(rows.take(h as int) =~= rows);
    }
}

/// `draw_line`'s arithmetic stays within `usize` for the span from `(x0, y0)` to `(x1, y1)`.
pub open spec fn line_fits(width: usize, x0: int, y0: int, x1: int, y1: int) -> bool {
    let dx = x1 - x0;
    let dy = y1 - y0;
    &&& forall|k: int|
        0 <= k < dx ==> dy * k <= usize::MAX && #[trigger] pixel_index(
            width,
            line_first_point(x0, y0, dx, dy, k).0,
            line_first_point(x0, y0, dx, dy, k).1,
        ) <= usize::MAX
    &&& forall|k: int|
        0 <= k < dy ==> dx * (y0 + k - x0) <= usize::MAX && line_second_point(x0, y0, dx, dy, k).0
            <= usize::MAX && #[trigger] pixel_index(
            width,
            line_second_point(x0, y0, dx, dy, k).0,
            line_second_point(x0, y0, dx, dy, k).1,
        ) <= usize::MAX
}

impl ScreenBuffer {
    /// Draws a line by the two loops of `line_rows`: one put per column of the
    /// span, then one per row.
    pub fn draw_line(&mut self, start_x: usize, start_y: usize, end_x: usize, end_y: usize, color: Color)
        requires
            start_x <= end_x,
            start_y <= end_y,
            start_y < end_y ==> start_x <= start_y,
            line_fits(old(self).width, start_x as int, start_y as int, end_x as int, end_y as int),
        ensures
            final(self).width == old(self).width,
            final(self).height == old(self).height,
            final(self).buffer@ == paint_rows(
                old(self).buffer@,
                line_rows(old(self).width, start_x as int, start_y as int, end_x as int, end_y as int, color.rgb()),
            ),
    {
        let ghost old_buf = self.buffer@;
        let ghost width = self.width;
        let ghost rows = line_rows(self.width, start_x as int, start_y as int, end_x as int, end_y as int, color.rgb());
        let dx = end_x - start_x;
        let dy = end_y - start_y;
        let plain = Color::from_rgb(color.red, color.green, color.blue);
        assert(plain.rgb() == color.rgb());
        assert(rows.take(0) =~= Seq::<Seq<Stroke>>::empty());
        let mut x = start_x;
        while x < end_x
            invariant
                start_x <= x <= end_x,
                dx == end_x - start_x,
                dy == end_y - start_y,
                line_fits(width, start_x as int, start_y as int, end_x as int, end_y as int),
                plain.rgb() == color.rgb(),
                self.width == width,
                self.height == old(self).height,
                rows == line_rows(width, start_x as int, start_y as int, end_x as int, end_y as int, color.rgb()),
                self.buffer@ == paint(paint_rows(old_buf, rows.take(0)), rows[0].take(x - start_x)),
            decreases end_x - x,
        {
            let ghost k = x - start_x;
            proof {
                assert(pixel_index(
                    width,
                    line_first_point(start_x as int, start_y as int, dx as int, dy as int, k).0,
                    line_first_point(start_x as int, start_y as int, dx as int, dy as int, k).1,
                ) <= usize::MAX);
                assert((dy as int) * k / (dx as int) <= dy as int) by (nonlinear_arith)
                    requires
                        0 <= k < dx,
                        0 <= dy,
                ;
                lemma_paint_step(paint_rows(old_buf, rows.take(0)), rows[0], k);
            }
            let y = start_y + dy * (x - start_x) / dx;
            self.put_pixel(x, y, plain);
            x = x + 1;
        }
        proof {
            assert(rows[0].take(dx as int) =~= rows[0]);
            lemma_rows_step(old_buf, rows, 0);
        }
        let mut y = start_y;
        while y < end_y
            invariant
                start_y <= y <= end_y,
                dx == end_x - start_x,
                dy == end_y - start_y,
                start_y < end_y ==> start_x <= start_y,
                line_fits(width, start_x as int, start_y as int, end_x as int, end_y as int),
                plain.rgb() == color.rgb(),
                self.width == width,
                self.height == old(self).height,
                rows == line_rows(width, start_x as int, start_y as int, end_x as int, end_y as int, color.rgb()),
                self.buffer@ == paint(paint_rows(old_buf, rows.take(1)), rows[1].take(y - start_y)),
            decreases end_y - y,
        {
            let ghost k = y - start_y;
            proof {
                assert(pixel_index(
                    width,
                    line_second_point(start_x as int, start_y as int, dx as int, dy as int, k).0,
                    line_second_point(start_x as int, start_y as int, dx as int, dy as int, k).1,
                ) <= usize::MAX);
                lemma_paint_step(paint_rows(old_buf, rows.take(1)), rows[1], k);
            }
            let x = start_y + dx * (y - start_x) / dy;
            self.put_pixel(x, y, plain);
            y = y + 1;
        }
        proof {
            assert(rows[1].take(dy as int) =~= rows[1]);
            lemma_rows_step(old_buf, rows, 1);
            assert(rows.take(2) =~= rows);
        }
    }
}

/// A character rasterized for drawing: its coverage bitmap, `width` by
/// `height` bytes row after row, its offsets from the pen position, and the
/// font's size in whole pixels.
#[derive(Clone, Debug)]
pub struct Glyph {
    pub width: usize,
    pub height: usize,
    pub xmin: i32,
    pub ymin: i32,
    pub bitmap: Vec<u8>,
    pub font_size: usize,
}

/// `a + b`, or `usize::MAX` where that is larger.
pub open spec fn sat_add(a: int, b: int) -> int {
    if a + b > usize::MAX {
        usize::MAX as int
    } else {
        a + b
    }
}

/// How far below the pen `draw_char` puts a glyph's top row: `|ymin|`, plus
/// the font size less the glyph's height where that is not negative (both
/// sums saturating).
pub open spec fn char_y_offset(g: Glyph) -> int {
    let ymin_abs: int = if g.ymin < 0 {
        -(g.ymin as int)
    } else {
        g.ymin as int
    };
    sat_add(ymin_abs, if g.font_size < g.height { 0 } else { g.font_size - g.height })
}

/// The strokes of `draw_char`: each glyph pixel on the screen is set to the
/// colour where it is covered and to the background where it is not.
pub open spec fn char_rows(width: usize, height: usize, g: Glyph, x: int, y: int, fg: u32, bg: u32) -> Seq<
    Seq<Stroke>,
> {
    Seq::new(
        g.height as nat,
        |gy: int|
            Seq::new(
                g.width as nat,
                |gx: int|
                    {
                        let cx = x + gx;
                        let fy = sat_add(y + gy, char_y_offset(g));
                        if cx < width && fy < height {
                            set_to(
                                pixel_index(width, cx, fy),
                                if g.bitmap@[gx + gy * g.width] != 0 {
                                    fg
                                } else {
                                    bg
                                },
                            )
                        } else {
                            no_stroke()
                        }
                    },
            ),
    )
}

/// What `draw_char` leaves at index `i` of a buffer `width` by `height`
/// pixels that held `old` there: where `(i % width, i / width)` is glyph pixel
/// `(gx, gy)` drawn at `(x, y)` (its rows pushed down by `char_y_offset`), the
/// colour if that glyph pixel is covered and the background if not; `old`
/// elsewhere.
pub open spec fn char_value_at(
    width: usize,
    height: usize,
    g: Glyph,
    x: int,
    y: int,
    fg: u32,
    bg: u32,
    i: int,
    old: u32,
) -> u32 {
    let fy = i / (width as int);
    let gx = i % (width as int) - x;
    let gy = fy - char_y_offset(g) - y;
    if width > 0 && 0 <= gx < g.width && 0 <= gy < g.height && fy < height {
        if g.bitmap@[gx + gy * g.width] != 0 {
            fg
        } else {
            bg
        }
    } else {
        old
    }
}

/// Drawing a glyph sets each on-screen pixel it covers to the colour or the
/// background, as its bitmap says, and leaves every other pixel as it was
/// (see `char_value_at`).
pub proof fn law_char_draws(
    buf: Seq<u32>,
    width: usize,
    height: usize,
    g: Glyph,
    x: int,
    y: int,
    fg: u32,
    bg: u32,
    i: int,
)
    requires
        0 <= i < buf.len(),
        0 <= x,
        0 <= y,
    ensures
        paint_rows(buf, char_rows(width, height, g, x, y, fg, bg))[i] == char_value_at(
            width,
            height,
            g,
            x,
            y,
            fg,
            bg,
            i,
            buf[i],
        ),
{
    let rows = char_rows(width, height, g, x, y, fg, bg);
    let wd = width as int;
    let off = char_y_offset(g);
    let v = char_value_at(width, height, g, x, y, fg, bg, i, buf[i]);
    assert(off >= 0);
    assert forall|r: int, c: int, o: u32|
        0 <= r < rows.len() && 0 <= c < rows[r].len() && rows[r][c].0 == i implies #[trigger] (
        rows[r][c].1)(o) == v by {
        let fy = sat_add(y + r, off);
        assert(x + c < width && fy < height);
        assert(fy == y + r + off);
        lemma_index_cell(wd, x + c, fy, i);
    }
    lemma_rows_pointwise(buf, rows, v, i);
    if hits(rows, i) {
        let (r, c) = choose|r: int, c: int|
            0 <= r < rows.len() && 0 <= c < rows[r].len() && (#[trigger] rows[r][c]).0 == i;
        let fy = sat_add(y + r, off);
        assert(x + c < width && fy < height);
        assert(fy == y + r + off);
        lemma_index_cell(wd, x + c, fy, i);
    }
    let fy = i / wd;
    let gx = i % wd - x;
    let gy = fy - off - y;
    if wd > 0 && 0 <= gx < g.width && 0 <= gy < g.height && fy < height {
        lemma_index_split(wd, i);
        assert(sat_add(y + gy, off) == fy);
        assert(rows[gy][gx].0 == i);
    }
}

/// Where `draw_char_transparent` puts glyph pixel `(col, row)`.
pub open spec fn glyph_target(g: Glyph, x: int, y: int, col: int, row: int) -> (int, int) {
    (x + col + (g.xmin as usize), y + row + (g.font_size - g.height - (g.ymin as usize)))
}

/// The strokes of `draw_char_transparent`: each covered glyph pixel on the
/// screen mixes the colour over what is there, at the pixel's coverage.
pub open spec fn transparent_char_rows(width: usize, height: usize, g: Glyph, x: int, y: int, fg: u32) -> Seq<
    Seq<Stroke>,
> {
    Seq::new(
        g.height as nat,
        |row: int|
            Seq::new(
                g.width as nat,
                |col: int|
                    {
                        let a = g.bitmap@[row * g.width + col];
                        let t = glyph_target(g, x, y, col, row);
                        if a > 0 && t.0 < width && t.1 < height {
                            (pixel_index(width, t.0, t.1), |old: u32| blended(old, fg, a))
                        } else {
                            no_stroke()
                        }
                    },
            ),
    )
}

/// `draw_char_transparent` stays within `usize` and the buffer.
pub open spec fn transparent_char_fits(s: ScreenBuffer, g: Glyph, x: int, y: int) -> bool {
    forall|row: int, col: int|
        0 <= row < g.height && 0 <= col < g.width && #[trigger] g.bitmap@[row * g.width + col] > 0
            ==> {
            &&& x + col + (g.xmin as usize) <= usize::MAX
            &&& g.font_size >= g.height
            &&& g.font_size - g.height >= (g.ymin as usize)
            &&& y + row + (g.font_size - g.height - (g.ymin as usize)) <= usize::MAX
            &&& (glyph_target(g, x, y, col, row).0 < s.width && glyph_target(g, x, y, col, row).1
                < s.height ==> pixel_index(
                s.width,
                glyph_target(g, x, y, col, row).0,
                glyph_target(g, x, y, col, row).1,
            ) < s.buffer@.len())
        }
}

fn sat_add_usize(a: usize, b: usize) -> (r: usize)
    ensures
        r == sat_add(a as int, b as int),
{
    if a > usize::MAX - b {
        usize::MAX
    } else {
        a + b
    }
}

proof fn lemma_on_screen_index(width: int, height: int, x: int, y: int)
    by (nonlinear_arith)
    requires
        0 <= x < width,
        0 <= y < height,
    ensures
        y * width + x <= (height - 1) * width + (width - 1),
{
}

impl ScreenBuffer {
    /// Draws a glyph at `(x, y)` with its background filled in (see `char_rows`).
    pub fn draw_char(&mut self, glyph: &Glyph, x: usize, y: usize, color: Color, background_color: Color)
        requires
            glyph.bitmap@.len() >= glyph.width * glyph.height,
            glyph.ymin != i32::MIN,
            x + glyph.width <= usize::MAX,
            y + glyph.height <= usize::MAX,
            old(self).width > 0 && old(self).height > 0 ==> (old(self).height - 1) * old(self).width
                + (old(self).width - 1) <= usize::MAX,
        ensures
            final(self).width == old(self).width,
            final(self).height == old(self).height,
            final(self).buffer@ == paint_rows(
                old(self).buffer@,
                char_rows(old(self).width, old(self).height, *glyph, x as int, y as int, color.rgb(), background_color.rgb()),
            ),
    {
        let ghost old_buf = self.buffer@;
        let ghost rows = char_rows(self.width, self.height, *glyph, x as int, y as int, color.rgb(), background_color.rgb());
        let w = glyph.width;
        let h = glyph.height;
        let blen = glyph.bitmap.len();
        let ymin_abs: usize = if glyph.ymin < 0 {
            (-(glyph.ymin as i64)) as usize
        } else {
            glyph.ymin as usize
        };
        let y_offset = sat_add_usize(
            ymin_abs,
            if glyph.font_size < h {
                0
            } else {
                glyph.font_size - h
            },
        );
        assert(y_offset == char_y_offset(*glyph));
        let mut current_x = x;
        let mut current_y = y;
        let mut gy: usize = 0;
        while gy < h
            invariant
                gy <= h,
                h == glyph.height,
                w == glyph.width,
                current_x == x,
                current_y == y + gy,
                y_offset == char_y_offset(*glyph),
                glyph.bitmap@.len() >= w * h,
                blen == glyph.bitmap@.len(),
                x + w <= usize::MAX,
                y + h <= usize::MAX,
                self.width == old(self).width,
                self.height == old(self).height,
                self.width > 0 && self.height > 0 ==> (self.height - 1) * self.width + (self.width - 1)
                    <= usize::MAX,
                rows == char_rows(self.width, self.height, *glyph, x as int, y as int, color.rgb(), background_color.rgb()),
                self.buffer@ == paint_rows(old_buf, rows.take(gy as int)),
            decreases h - gy,
        {
            let ghost row_start = self.buffer@;
            let mut gx: usize = 0;
            while gx < w
                invariant
                    gy < h,
                    gx <= w,
                    h == glyph.height,
                    w == glyph.width,
                    current_x == x + gx,
                    current_y == y + gy,
                    y_offset == char_y_offset(*glyph),
                    glyph.bitmap@.len() >= w * h,
                blen == glyph.bitmap@.len(),
                    x + w <= usize::MAX,
                    y + h <= usize::MAX,
                    self.width == old(self).width,
                    self.height == old(self).height,
                    self.width > 0 && self.height > 0 ==> (self.height - 1) * self.width + (self.width
                        - 1) <= usize::MAX,
                    rows == char_rows(self.width, self.height, *glyph, x as int, y as int, color.rgb(), background_color.rgb()),
                    row_start == paint_rows(old_buf, rows.take(gy as int)),
                    self.buffer@ == paint(row_start, rows[gy as int].take(gx as int)),
                decreases w - gx,
            {
                proof {
                    lemma_cell_index(w as int, h as int, gx as int, gy as int);
                    assert(gx + gy * w == gy * w + gx) by (nonlinear_arith);
                    lemma_paint_step(row_start, rows[gy as int], gx as int);
                }
                let char_s = glyph.bitmap[gx + gy * w];
                let char_color = if char_s != 0 {
                    color
                } else {
                    background_color
                };
                let final_y = sat_add_usize(current_y, y_offset);
                if current_x < self.width && final_y < self.height {
                    proof {
                        lemma_on_screen_index(self.width as int, self.height as int, current_x as int, final_y as int);
                    }
                    self.put_pixel(current_x, final_y, char_color);
                }
                current_x = current_x + 1;
                gx = gx + 1;
            }
            proof {
                assert(rows[gy as int].take(gx as int) =~= rows[gy as int]);
                lemma_rows_step(old_buf, rows, gy as int);
            }
            current_y = current_y + 1;
            current_x = x;
            gy = gy + 1;
        }
        assert(rows.take(h as int) =~= rows);
    }

    /// Mixes a glyph over the screen at `(x, y)` (see `transparent_char_rows`).
    pub fn draw_char_transparent(&mut self, glyph: &Glyph, x: usize, y: usize, color: Color)
        requires
            glyph.bitmap@.len() >= glyph.width * glyph.height,
            transparent_char_fits(*old(self), *glyph, x as int, y as int),
        ensures
            final(self).width == old(self).width,
            final(self).height == old(self).height,
            final(self).buffer@ == paint_rows(
                old(self).buffer@,
                transparent_char_rows(old(self).width, old(self).height, *glyph, x as int, y as int, color.argb()),
            ),
    {
        let ghost old_buf = self.buffer@;
        let ghost old_self = *self;
        let ghost rows = transparent_char_rows(self.width, self.height, *glyph, x as int, y as int, color.argb());
        let w = glyph.width;
        let h = glyph.height;
        let blen = glyph.bitmap.len();
        let buf_len = self.buffer.len();
        let mut row: usize = 0;
        while row < h
            invariant
                row <= h,
                h == glyph.height,
                w == glyph.width,
                glyph.bitmap@.len() >= w * h,
                blen == glyph.bitmap@.len(),
                transparent_char_fits(old_self, *glyph, x as int, y as int),
                old_self.width == self.width,
                old_self.height == self.height,
                old_self.buffer@ == old_buf,
                buf_len == old_buf.len(),
                self.buffer@.len() == old_buf.len(),
                self.width == old(self).width,
                self.height == old(self).height,
                rows == transparent_char_rows(self.width, self.height, *glyph, x as int, y as int, color.argb()),
                self.buffer@ == paint_rows(old_buf, rows.take(row as int)),
            decreases h - row,
        {
            let ghost row_start = self.buffer@;
            let mut col: usize = 0;
            while col < w
                invariant
                    row < h,
                    col <= w,
                    h == glyph.height,
                    w == glyph.width,
                    glyph.bitmap@.len() >= w * h,
                blen == glyph.bitmap@.len(),
                    transparent_char_fits(old_self, *glyph, x as int, y as int),
                    old_self.width == self.width,
                    old_self.height == self.height,
                    old_self.buffer@ == old_buf,
                    buf_len == old_buf.len(),
                    self.buffer@.len() == old_buf.len(),
                    self.width == old(self).width,
                    self.height == old(self).height,
                    rows == transparent_char_rows(self.width, self.height, *glyph, x as int, y as int, color.argb()),
                    row_start == paint_rows(old_buf, rows.take(row as int)),
                    self.buffer@ == paint(row_start, rows[row as int].take(col as int)),
                decreases w - col,
            {
                proof {
                    lemma_cell_index(w as int, h as int, col as int, row as int);
                    assert(row * w + col == (row as int) * (w as int) + (col as int));
                    lemma_paint_step(row_start, rows[row as int], col as int);
                    lemma_paint_len(row_start, rows[row as int].take(col as int));
                }
                let font_alpha = glyph.bitmap[row * w + col];
                if font_alpha > 0 {
                    proof {
                        assert(glyph.bitmap@[row * w + col] > 0);
                    }
                    let px = x + col + #[verifier::truncate] (glyph.xmin as usize);
                    let py = y + row + (glyph.font_size - h - #[verifier::truncate] (glyph.ymin as usize));
                    if px < self.width && py < self.height {
                        let index = py * self.width + px;
                        let bg_pixel = self.buffer[index];
                        let fg_pixel = color.to_u32_argb();
                        let mixed = self.blend_pixels(bg_pixel, fg_pixel, font_alpha);
                        self.buffer.set(index, mixed);
                    }
                }
                col = col + 1;
            }
            proof {
                assert(rows[row as int].take(col as int) =~= rows[row as int]);
                lemma_rows_step(old_buf, rows, row as int);
                lemma_paint_len(row_start, rows[row as int]);
            }
            row = row + 1;
        }
        assert(rows.take(h as int) =~= rows);
    }
}

/// One step of Bresenham's walk from `p = (x, y, err)`: with `e2 = 2 err`, `x`
/// moves by `sx` (and `err` drops by `dy`) where `e2 > -dy`, and `y` moves by
/// `sy` (and `err` grows by `dx`) where `e2 < dx`.
pub open spec fn bres_step(p: (int, int, int), dx: int, dy: int, sx: int, sy: int) -> (int, int, int) {
    let (x, y, err) = p;
    let e2 = 2 * err;
    let (x2, err2) = if e2 > -dy {
        (x + sx, err - dy)
    } else {
        (x, err)
    };
    if e2 < dx {
        (x2, y + sy, err2 + dx)
    } else {
        (x2, y, err2)
    }
}

/// The points Bresenham's walk visits from `p` until it reaches `(x1, y1)`,
/// taking at most `fuel` steps.
pub open spec fn bres_trace(
    p: (int, int, int),
    x1: int,
    y1: int,
    dx: int,
    dy: int,
    sx: int,
    sy: int,
    fuel: nat,
) -> Seq<(int, int)>
    decreases fuel,
{
    if fuel == 0 || (p.0 == x1 && p.1 == y1) {
        seq![(p.0, p.1)]
    } else {
        seq![(p.0, p.1)] + bres_trace(bres_step(p, dx, dy, sx, sy), x1, y1, dx, dy, sx, sy, (fuel - 1) as nat)
    }
}

pub open spec fn abs_diff(a: int, b: int) -> int {
    if a < b {
        b - a
    } else {
        a - b
    }
}

/// The points of Bresenham's line from `(x0, y0)` to `(x1, y1)`, in order.
pub open spec fn line_points(x0: int, y0: int, x1: int, y1: int) -> Seq<(int, int)> {
    let dx = abs_diff(x0, x1);
    let dy = abs_diff(y0, y1);
    let sx = if x0 < x1 { 1int } else { -1int };
    let sy = if y0 < y1 { 1int } else { -1int };
    bres_trace((x0, y0, dx - dy), x1, y1, dx, dy, sx, sy, (dx + dy) as nat)
}

/// The strokes that set each point of `points` to `v`.
pub open spec fn point_strokes(width: usize, points: Seq<(int, int)>, v: u32) -> Seq<Stroke> {
    points.map_values(|p: (int, int)| set_to(pixel_index(width, p.0, p.1), v))
}

/// `v` is a value of `i32`.
pub open spec fn in_i32(v: int) -> bool {
    -0x8000_0000 <= v <= 0x7FFF_FFFF
}

/// The `i32` arithmetic of one step of the walk from `p` stays in range:
/// `2 err`, then the error after each of its two updates.
pub open spec fn step_fits(p: (int, int, int), dx: int, dy: int) -> bool {
    let e2 = 2 * p.2;
    let err2 = if e2 > -dy {
        p.2 - dy
    } else {
        p.2
    };
    &&& in_i32(e2)
    &&& in_i32(err2)
    &&& in_i32(
        if e2 < dx {
            err2 + dx
        } else {
            err2
        },
    )
}

/// Every step that the walk from `p` takes (until it reaches `(x1, y1)`, at
/// most `fuel` steps) keeps its arithmetic within `i32`.
pub open spec fn walk_fits(
    p: (int, int, int),
    x1: int,
    y1: int,
    dx: int,
    dy: int,
    sx: int,
    sy: int,
    fuel: nat,
) -> bool
    decreases fuel,
{
    if fuel == 0 || (p.0 == x1 && p.1 == y1) {
        true
    } else {
        step_fits(p, dx, dy) && walk_fits(
            bres_step(p, dx, dy, sx, sy),
            x1,
            y1,
            dx,
            dy,
            sx,
            sy,
            (fuel - 1) as nat,
        )
    }
}

/// Bresenham's walk from `(x0, y0)` to `(x1, y1)` computes within `i32`
/// (the domain on which `draw_line_safe`'s arithmetic does not overflow).
pub open spec fn line_fits_i32(x0: int, y0: int, x1: int, y1: int) -> bool {
    let dx = abs_diff(x0, x1);
    let dy = abs_diff(y0, y1);
    let sx = if x0 < x1 { 1int } else { -1int };
    let sy = if y0 < y1 { 1int } else { -1int };
    walk_fits((x0, y0, dx - dy), x1, y1, dx, dy, sx, sy, (dx + dy) as nat)
}

/// `b` follows `a` on a line walked in directions `sx`, `sy`: each
/// coordinate stays or moves one step that way, and the point changes.
pub open spec fn unit_step(a: (int, int), b: (int, int), sx: int, sy: int) -> bool {
    &&& (b.0 == a.0 || b.0 == a.0 + sx)
    &&& (b.1 == a.1 || b.1 == a.1 + sy)
    &&& a != b
}

/// Each point of `t` after the first is a unit step (see `unit_step`) from the one before.
pub open spec fn unit_steps(t: Seq<(int, int)>, sx: int, sy: int) -> bool {
    forall|k: int| 0 <= k < t.len() - 1 ==> unit_step(#[trigger] t[k], t[k + 1], sx, sy)
}

proof fn lemma_bres_invariant(dx: int, dy: int, i: int, j: int, d: int, e2: int)
    by (nonlinear_arith)
    requires
        0 <= i <= dx,
        0 <= j <= dy,
        d == j * dx - i * dy,
        e2 == 2 * (dx - dy + d),
        !(i == dx && j == dy),
    ensures
        i == dx ==> !(e2 > -dy),
        j == dy ==> !(e2 < dx),
        e2 > -dy || e2 < dx,
        d - dy == j * dx - (i + 1) * dy,
        d + dx == (j + 1) * dx - i * dy,
        d + dx - dy == (j + 1) * dx - (i + 1) * dy,
{
}

proof fn lemma_trace_reaches(
    x0: int,
    y0: int,
    x1: int,
    y1: int,
    i: int,
    j: int,
    d: int,
    fuel: nat,
)
    requires
        0 <= i <= abs_diff(x0, x1),
        0 <= j <= abs_diff(y0, y1),
        d == j * abs_diff(x0, x1) - i * abs_diff(y0, y1),
        fuel >= (abs_diff(x0, x1) - i) + (abs_diff(y0, y1) - j),
    ensures
        ({
            let dx = abs_diff(x0, x1);
            let dy = abs_diff(y0, y1);
            let sx = if x0 < x1 { 1int } else { -1int };
            let sy = if y0 < y1 { 1int } else { -1int };
            let p = (if x0 < x1 { x0 + i } else { x0 - i }, if y0 < y1 { y0 + j } else { y0 - j }, dx - dy + d);
            let t = bres_trace(p, x1, y1, dx, dy, sx, sy, fuel);
            t.len() > 0 && t[0] == (p.0, p.1) && t.last() == (x1, y1)
        }),
    decreases (abs_diff(x0, x1) - i) + (abs_diff(y0, y1) - j),
{
    let dx = abs_diff(x0, x1);
    let dy = abs_diff(y0, y1);
    let sx = if x0 < x1 { 1int } else { -1int };
    let sy = if y0 < y1 { 1int } else { -1int };
    let p = (if x0 < x1 { x0 + i } else { x0 - i }, if y0 < y1 { y0 + j } else { y0 - j }, dx - dy + d);
    if !(p.0 == x1 && p.1 == y1) {
        lemma_bres_invariant(dx, dy, i, j, d, 2 * p.2);
        let e2 = 2 * p.2;
        let i2 = if e2 > -dy { i + 1 } else { i };
        let j2 = if e2 < dx { j + 1 } else { j };
        let d2 = j2 * dx - i2 * dy;
        assert(d2 == d + (if e2 < dx { dx } else { 0 }) - (if e2 > -dy { dy } else { 0 }));
        lemma_trace_reaches(x0, y0, x1, y1, i2, j2, d2, (fuel - 1) as nat);
        let q = bres_step(p, dx, dy, sx, sy);
        assert(q == (if x0 < x1 { x0 + i2 } else { x0 - i2 }, if y0 < y1 { y0 + j2 } else { y0 - j2 }, dx - dy + d2));
    }
}

/// Bresenham's line starts at its first end and finishes at its second.
pub proof fn law_line_joins_ends(x0: int, y0: int, x1: int, y1: int)
    ensures
        line_points(x0, y0, x1, y1).len() > 0,
        line_points(x0, y0, x1, y1)[0] == (x0, y0),
        line_points(x0, y0, x1, y1).last() == (x1, y1),
{
    lemma_trace_reaches(x0, y0, x1, y1, 0, 0, 0, (abs_diff(x0, x1) + abs_diff(y0, y1)) as nat);
}

proof fn lemma_equal_spans(dx: int, dy: int, i: int, j: int, d: int)
    by (nonlinear_arith)
    requires
        dx == dy,
        dx > 0,
        d == j * dx - i * dy,
        2 * d >= -dx,
    ensures
        d >= 0,
{
    assert(d == dx * (j - i));
    if j - i < 0 {
        assert(dx * (j - i) <= -dx);
    }
}

proof fn lemma_trace_shape(
    x0: int,
    y0: int,
    x1: int,
    y1: int,
    i: int,
    j: int,
    d: int,
    fuel: nat,
)
    requires
        0 <= i <= abs_diff(x0, x1),
        0 <= j <= abs_diff(y0, y1),
        d == j * abs_diff(x0, x1) - i * abs_diff(y0, y1),
        fuel >= (abs_diff(x0, x1) - i) + (abs_diff(y0, y1) - j),
        abs_diff(x0, x1) >= abs_diff(y0, y1) ==> 2 * d >= -abs_diff(x0, x1),
        abs_diff(x0, x1) < abs_diff(y0, y1) ==> 2 * d <= abs_diff(y0, y1),
    ensures
        ({
            let dx = abs_diff(x0, x1);
            let dy = abs_diff(y0, y1);
            let sx = if x0 < x1 { 1int } else { -1int };
            let sy = if y0 < y1 { 1int } else { -1int };
            let p = (if x0 < x1 { x0 + i } else { x0 - i }, if y0 < y1 { y0 + j } else { y0 - j }, dx - dy + d);
            let t = bres_trace(p, x1, y1, dx, dy, sx, sy, fuel);
            &&& t.len() == (if dx >= dy { dx - i } else { dy - j }) + 1
            &&& unit_steps(t, sx, sy)
        }),
    decreases (abs_diff(x0, x1) - i) + (abs_diff(y0, y1) - j),
{
    let dx = abs_diff(x0, x1);
    let dy = abs_diff(y0, y1);
    let sx = if x0 < x1 { 1int } else { -1int };
    let sy = if y0 < y1 { 1int } else { -1int };
    let p = (if x0 < x1 { x0 + i } else { x0 - i }, if y0 < y1 { y0 + j } else { y0 - j }, dx - dy + d);
    let t = bres_trace(p, x1, y1, dx, dy, sx, sy, fuel);
    if !(p.0 == x1 && p.1 == y1) {
        lemma_bres_invariant(dx, dy, i, j, d, 2 * p.2);
        let e2 = 2 * p.2;
        if dx == dy {
            lemma_equal_spans(dx, dy, i, j, d);
        }
        assert(dx >= dy ==> e2 > -dy);
        assert(dx < dy ==> e2 < dx);
        let i2 = if e2 > -dy { i + 1 } else { i };
        let j2 = if e2 < dx { j + 1 } else { j };
        let d2 = j2 * dx - i2 * dy;
        assert(d2 == d + (if e2 < dx { dx } else { 0 }) - (if e2 > -dy { dy } else { 0 }));
        lemma_trace_shape(x0, y0, x1, y1, i2, j2, d2, (fuel - 1) as nat);
        let q = bres_step(p, dx, dy, sx, sy);
        assert(q == (if x0 < x1 { x0 + i2 } else { x0 - i2 }, if y0 < y1 { y0 + j2 } else { y0 - j2 }, dx - dy + d2));
        let t2 = bres_trace(q, x1, y1, dx, dy, sx, sy, (fuel - 1) as nat);
        assert(t == seq![(p.0, p.1)] + t2);
        assert(t2[0] == (q.0, q.1));
        assert forall|k: int| 0 <= k < t.len() - 1 implies unit_step(#[trigger] t[k], t[k + 1], sx, sy) by {
            if k == 0 {
                assert(t[0] == (p.0, p.1));
                assert(t[1] == t2[0]);
            } else {
                assert(t[k] == t2[k - 1]);
                assert(t[k + 1] == t2[k]);
                assert(unit_steps(t2, sx, sy));
                assert(unit_step(t2[k - 1], t2[k], sx, sy));
            }
        }
    }
}

/// Bresenham's line from `(x0, y0)` to `(x1, y1)` has one point more than the
/// longer of its two spans, and each point after the first moves one step
/// toward the far end in `x`, in `y` or in both.
pub proof fn law_line_shape(x0: int, y0: int, x1: int, y1: int)
    ensures
        line_points(x0, y0, x1, y1).len() == (if abs_diff(x0, x1) >= abs_diff(y0, y1) {
            abs_diff(x0, x1)
        } else {
            abs_diff(y0, y1)
        }) + 1,
        unit_steps(
            line_points(x0, y0, x1, y1),
            if x0 < x1 { 1int } else { -1int },
            if y0 < y1 { 1int } else { -1int },
        ),
{
    lemma_trace_shape(x0, y0, x1, y1, 0, 0, 0, (abs_diff(x0, x1) + abs_diff(y0, y1)) as nat);
}

proof fn lemma_walk_fits(
    x0: int,
    y0: int,
    x1: int,
    y1: int,
    i: int,
    j: int,
    d: int,
    fuel: nat,
)
    requires
        abs_diff(x0, x1) <= 0x2AAA_AAAA,
        abs_diff(y0, y1) <= 0x2AAA_AAAA,
        0 <= i <= abs_diff(x0, x1),
        0 <= j <= abs_diff(y0, y1),
        d == j * abs_diff(x0, x1) - i * abs_diff(y0, y1),
        -(abs_diff(x0, x1) + abs_diff(y0, y1)) <= 2 * d <= abs_diff(x0, x1) + abs_diff(y0, y1),
    ensures
        ({
            let dx = abs_diff(x0, x1);
            let dy = abs_diff(y0, y1);
            let sx = if x0 < x1 { 1int } else { -1int };
            let sy = if y0 < y1 { 1int } else { -1int };
            let p = (if x0 < x1 { x0 + i } else { x0 - i }, if y0 < y1 { y0 + j } else { y0 - j }, dx - dy + d);
            walk_fits(p, x1, y1, dx, dy, sx, sy, fuel)
        }),
    decreases fuel,
{
    let dx = abs_diff(x0, x1);
    let dy = abs_diff(y0, y1);
    let sx = if x0 < x1 { 1int } else { -1int };
    let sy = if y0 < y1 { 1int } else { -1int };
    let p = (if x0 < x1 { x0 + i } else { x0 - i }, if y0 < y1 { y0 + j } else { y0 - j }, dx - dy + d);
    if fuel > 0 && !(p.0 == x1 && p.1 == y1) {
        lemma_bres_invariant(dx, dy, i, j, d, 2 * p.2);
        let e2 = 2 * p.2;
        let i2 = if e2 > -dy { i + 1 } else { i };
        let j2 = if e2 < dx { j + 1 } else { j };
        let d2 = j2 * dx - i2 * dy;
        assert(d2 == d + (if e2 < dx { dx } else { 0 }) - (if e2 > -dy { dy } else { 0 }));
        lemma_walk_fits(x0, y0, x1, y1, i2, j2, d2, (fuel - 1) as nat);
        let q = bres_step(p, dx, dy, sx, sy);
        assert(q == (if x0 < x1 { x0 + i2 } else { x0 - i2 }, if y0 < y1 { y0 + j2 } else { y0 - j2 }, dx - dy + d2));
    }
}

/// A line whose spans are both at most `0x2AAA_AAAA` (a third of `i32::MAX`)
/// computes within `i32`.
pub proof fn law_short_lines_fit(x0: int, y0: int, x1: int, y1: int)
    requires
        abs_diff(x0, x1) <= 0x2AAA_AAAA,
        abs_diff(y0, y1) <= 0x2AAA_AAAA,
    ensures
        line_fits_i32(x0, y0, x1, y1),
{
    lemma_walk_fits(x0, y0, x1, y1, 0, 0, 0, (abs_diff(x0, x1) + abs_diff(y0, y1)) as nat);
}

impl ScreenBuffer {
    /// Draws Bresenham's line from `(x0, y0)` to `(x1, y1)`, both ends included.
    pub fn draw_line_safe(&mut self, x0: usize, y0: usize, x1: usize, y1: usize, color: Color)
        requires
            x0 <= 0x7FFF_FFFF,
            y0 <= 0x7FFF_FFFF,
            x1 <= 0x7FFF_FFFF,
            y1 <= 0x7FFF_FFFF,
            line_fits_i32(x0 as int, y0 as int, x1 as int, y1 as int),
            pixel_index(
                old(self).width,
                if x0 < x1 { x1 as int } else { x0 as int },
                if y0 < y1 { y1 as int } else { y0 as int },
            ) <= usize::MAX,
        ensures
            final(self).width == old(self).width,
            final(self).height == old(self).height,
            final(self).buffer@ == paint(
                old(self).buffer@,
                point_strokes(old(self).width, line_points(x0 as int, y0 as int, x1 as int, y1 as int), color.rgb()),
            ),
    {
        let ghost old_buf = self.buffer@;
        let ghost width = self.width;
        let ghost maxx: int = if x0 < x1 { x1 as int } else { x0 as int };
        let ghost maxy: int = if y0 < y1 { y1 as int } else { y0 as int };
        let ddx = x1 as i32 - x0 as i32;
        let ddy = y1 as i32 - y0 as i32;
        let dx = if ddx < 0 { -ddx } else { ddx };
        let dy = if ddy < 0 { -ddy } else { ddy };
        let sx: i32 = if x0 < x1 { 1 } else { -1 };
        let sy: i32 = if y0 < y1 { 1 } else { -1 };
        let mut err = dx - dy;
        let mut x = x0 as i32;
        let mut y = y0 as i32;
        let ghost fuel: nat = (dx + dy) as nat;
        let ghost trace = line_points(x0 as int, y0 as int, x1 as int, y1 as int);
        let ghost mut i: int = 0;
        let ghost mut j: int = 0;
        let ghost mut d: int = 0;
        let ghost mut steps: int = 0;
        let ghost mut visited: Seq<(int, int)> = seq![];
        assert(trace == visited + bres_trace((x as int, y as int, err as int), x1 as int, y1 as int, dx as int, dy as int, sx as int, sy as int, (fuel - steps) as nat));
        assert(walk_fits((x as int, y as int, err as int), x1 as int, y1 as int, dx as int, dy as int, sx as int, sy as int, (fuel - steps) as nat));
        proof {
            assert(y0 * width <= maxy * width) by (nonlinear_arith)
                requires
                    y0 <= maxy,
                    width >= 0,
            ;
        }
        self.put_pixel(x as usize, y as usize, color);
        proof {
            let s = set_to(pixel_index(width, x as int, y as int), color.rgb());
            let ws = point_strokes(width, visited, color.rgb());
            assert(ws =~= Seq::<Stroke>::empty());
            assert(paint(old_buf, ws) == old_buf);
            assert(point_strokes(width, visited.push((x as int, y as int)), color.rgb()) =~= ws.push(s));
            assert(ws.push(s).drop_last() =~= ws);
            visited = visited.push((x as int, y as int));
        }
        while !(x == x1 as i32 && y == y1 as i32)
            invariant
                x0 <= 0x7FFF_FFFF,
                y0 <= 0x7FFF_FFFF,
                x1 <= 0x7FFF_FFFF,
                y1 <= 0x7FFF_FFFF,
                walk_fits((x as int, y as int, err as int), x1 as int, y1 as int, dx as int, dy as int, sx as int, sy as int, (fuel - steps) as nat),
                pixel_index(width, maxx, maxy) <= usize::MAX,
                maxx == (if x0 < x1 { x1 as int } else { x0 as int }),
                maxy == (if y0 < y1 { y1 as int } else { y0 as int }),
                dx == abs_diff(x0 as int, x1 as int),
                dy == abs_diff(y0 as int, y1 as int),
                sx == (if x0 < x1 { 1int } else { -1int }),
                sy == (if y0 < y1 { 1int } else { -1int }),
                fuel == dx + dy,
                0 <= i <= dx,
                0 <= j <= dy,
                x == (if x0 < x1 { x0 + i } else { x0 - i }),
                y == (if y0 < y1 { y0 + j } else { y0 - j }),
                d == j * dx - i * dy,
                err == dx - dy + d,
                -(dx + dy) <= 2 * d <= dx + dy,
                0 <= steps <= i + j,
                trace == line_points(x0 as int, y0 as int, x1 as int, y1 as int),
                visited.len() > 0,
                visited.last() == (x as int, y as int),
                trace == visited.drop_last() + bres_trace((x as int, y as int, err as int), x1 as int, y1 as int, dx as int, dy as int, sx as int, sy as int, (fuel - steps) as nat),
                self.width == width,
                self.height == old(self).height,
                self.buffer@ == paint(old_buf, point_strokes(width, visited, color.rgb())),
            decreases (dx - i) + (dy - j),
        {
            let ghost p = (x as int, y as int, err as int);
            proof {
                assert(!(i == dx && j == dy));
                lemma_bres_invariant(dx as int, dy as int, i, j, d, 2 * err);
                assert((fuel - steps) > 0);
                assert(step_fits(p, dx as int, dy as int));
                assert(walk_fits(bres_step(p, dx as int, dy as int, sx as int, sy as int), x1 as int, y1 as int, dx as int, dy as int, sx as int, sy as int, (fuel - steps - 1) as nat));
                assert(bres_trace(p, x1 as int, y1 as int, dx as int, dy as int, sx as int, sy as int, (fuel - steps) as nat)
                    == seq![(p.0, p.1)] + bres_trace(bres_step(p, dx as int, dy as int, sx as int, sy as int), x1 as int, y1 as int, dx as int, dy as int, sx as int, sy as int, (fuel - steps - 1) as nat));
            }
            let e2 = 2 * err;
            if e2 > -dy {
                err = err - dy;
                x = x + sx;
                proof {
                    i = i + 1;
                    d = d - dy;
                }
            }
            if e2 < dx {
                err = err + dx;
                y = y + sy;
                proof {
                    j = j + 1;
                    d = d + dx;
                }
            }
            proof {
                steps = steps + 1;
                assert((x as int, y as int, err as int) == bres_step(p, dx as int, dy as int, sx as int, sy as int));
                assert(visited.drop_last() + seq![(p.0, p.1)] =~= visited);
                assert(trace =~= visited + bres_trace((x as int, y as int, err as int), x1 as int, y1 as int, dx as int, dy as int, sx as int, sy as int, (fuel - steps) as nat));
                assert(y * width <= maxy * width) by (nonlinear_arith)
                    requires
                        y <= maxy,
                        width >= 0,
                ;
            }
            self.put_pixel(x as usize, y as usize, color);
            proof {
                let s = set_to(pixel_index(width, x as int, y as int), color.rgb());
                let ws = point_strokes(width, visited, color.rgb());
                assert(point_strokes(width, visited.push((x as int, y as int)), color.rgb()) =~= ws.push(s));
                assert(ws.push(s).drop_last() =~= ws);
                assert(visited.push((x as int, y as int)).drop_last() =~= visited);
                visited = visited.push((x as int, y as int));
            }
        }
        proof {
            let p = (x as int, y as int, err as int);
            assert(bres_trace(p, x1 as int, y1 as int, dx as int, dy as int, sx as int, sy as int, (fuel - steps) as nat) == seq![(p.0, p.1)]);
            assert(trace =~= visited);
        }
    }
}

impl ScreenBuffer {
    /// Fills `buf` with the low bytes of the first `buf.len()` pixels.
    pub fn read(&self, buf: &mut [u8]) -> (n: usize)
        requires
            old(buf)@.len() <= self.buffer@.len(),
        ensures
            n == old(buf)@.len(),
            final(buf)@ == Seq::new(old(buf)@.len(), |i: int| self.buffer@[i] as u8),
    {
        let n = buf.len();
        let mut i: usize = 0;
        while i < n
            invariant
                n == buf@.len(),
                n == old(buf)@.len(),
                n <= self.buffer@.len(),
                i <= n,
                forall|k: int| 0 <= k < i ==> #[trigger] buf@[k] == self.buffer@[k] as u8,
            decreases n - i,
        {
            buf[i] = #[verifier::truncate] (self.buffer[i] as u8);
            i = i + 1;
        }
        assert(buf@ =~= Seq::new(old(buf)@.len(), |i: int| self.buffer@[i] as u8));
        n
    }

    /// Sets the first `buf.len()` pixels to the bytes of `buf`.
    pub fn write(&mut self, buf: &[u8]) -> (n: usize)
        requires
            buf@.len() <= old(self).buffer@.len(),
        ensures
            n == buf@.len(),
            final(self).width == old(self).width,
            final(self).height == old(self).height,
            final(self).buffer@.len() == old(self).buffer@.len(),
            forall|i: int|
                0 <= i < final(self).buffer@.len() ==> #[trigger] final(self).buffer@[i] == if i
                    < buf@.len() {
                    buf@[i] as u32
                } else {
                    old(self).buffer@[i]
                },
    {
        let n = buf.len();
        let mut i: usize = 0;
        while i < n
            invariant
                n == buf@.len(),
                n <= self.buffer@.len(),
                i <= n,
                self.width == old(self).width,
                self.height == old(self).height,
                self.buffer@.len() == old(self).buffer@.len(),
                forall|k: int|
                    0 <= k < self.buffer@.len() ==> #[trigger] self.buffer@[k] == if k < i {
                        buf@[k] as u32
                    } else {
                        old(self).buffer@[k]
                    },
            decreases n - i,
        {
            self.buffer.set(i, buf[i] as u32);
            i = i + 1;
        }
        n
    }

    /// Nothing is buffered, so there is nothing to flush.
    pub fn flush(&mut self)
        ensures
            *final(self) == *old(self),
    {
    }
}

} // verus!
