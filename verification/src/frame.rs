//! Pixel buffers of the 1620x2160 portrait panel.
//!
//! Three layouts share one row width: RGBA frames (four bytes a pixel), the
//! RGB888 framebuffer (three bytes a pixel) and the ink coverage layer (one byte
//! a pixel). The specification functions below read one pixel of each, so that
//! contracts speak of pixels and never of byte offsets.

use vstd::prelude::*;

verus! {

/// Panel width in pixels; every buffer has rows of this many pixels.
pub const WIDTH: usize = 1620;

/// Panel height in pixels.
pub const HEIGHT: usize = 2160;

/// Height of the top status bar.
pub const TOP_H: usize = 110;

/// Height of the bottom action bar.
pub const BOTTOM_H: usize = 240;

/// First row of the card band.
pub const CARD_Y: usize = TOP_H;

/// Number of rows of the card band.
pub const CARD_H: usize = HEIGHT - TOP_H - BOTTOM_H;

/// Pixels of the panel.
pub const PIXELS: usize = WIDTH * HEIGHT;

/// `(x, y)` is a pixel of the panel.
pub open spec fn in_panel(x: int, y: int) -> bool {
    0 <= x < WIDTH && 0 <= y < HEIGHT
}

/// Row `y` belongs to the card band.
pub open spec fn in_band(y: int) -> bool {
    CARD_Y <= y < CARD_Y + CARD_H
}

/// Position of pixel `(x, y)` in row-major order.
pub open spec fn cell(x: int, y: int) -> int {
    y * WIDTH + x
}

/// The four bytes of pixel `(x, y)` of an RGBA buffer.
pub open spec fn rgba_at(buf: Seq<u8>, x: int, y: int) -> (u8, u8, u8, u8) {
    (
        buf[cell(x, y) * 4],
        buf[cell(x, y) * 4 + 1],
        buf[cell(x, y) * 4 + 2],
        buf[cell(x, y) * 4 + 3],
    )
}

/// The three bytes of pixel `(x, y)` of an RGB888 buffer.
pub open spec fn rgb_at(buf: Seq<u8>, x: int, y: int) -> (u8, u8, u8) {
    (buf[cell(x, y) * 3], buf[cell(x, y) * 3 + 1], buf[cell(x, y) * 3 + 2])
}

/// The coverage of pixel `(x, y)` of an ink layer.
pub open spec fn cov_at(ink: Seq<u8>, x: int, y: int) -> u8 {
    ink[cell(x, y)]
}

/// The two buffers are equally long and agree from byte `from` on.
pub open spec fn same_tail(a: Seq<u8>, b: Seq<u8>, from: int) -> bool {
    a.len() == b.len() && forall|i: int| from <= i < a.len() ==> #[trigger] a[i] == b[i]
}

/// Different pixels of a row-major buffer never share a position.
pub proof fn lemma_cells_differ(x: int, y: int, u: int, v: int)
    requires
        0 <= x < WIDTH,
        0 <= u < WIDTH,
        x != u || y != v,
    ensures
        cell(x, y) != cell(u, v),
{
}

/// A pixel of the first `rows` rows lies inside a buffer of that many rows.
pub proof fn lemma_cell_inside(x: int, y: int, rows: int)
    requires
        0 <= x < WIDTH,
        0 <= y < rows,
    ensures
        0 <= cell(x, y) < WIDTH * rows,
{
    assert(y * WIDTH + WIDTH <= WIDTH * rows) by (nonlinear_arith)
        requires
            0 <= y < rows,
    ;
}

/// Writes one pixel of an RGBA buffer; every other pixel keeps its bytes.
pub fn put_rgba(buf: &mut [u8], x: usize, y: usize, px: (u8, u8, u8, u8))
    requires
        x < WIDTH,
        y < HEIGHT,
        cell(x as int, y as int) * 4 + 4 <= old(buf)@.len(),
    ensures
        final(buf)@.len() == old(buf)@.len(),
        rgba_at(final(buf)@, x as int, y as int) == px,
        forall|u: int, v: int|
            0 <= u < WIDTH && 0 <= v && (u != x || v != y) && cell(u, v) * 4 + 4 <= old(
                buf,
            )@.len() ==> #[trigger] rgba_at(final(buf)@, u, v) == rgba_at(old(buf)@, u, v),
        same_tail(final(buf)@, old(buf)@, cell(x as int, y as int) * 4 + 4),
{
    let i: usize = (y * WIDTH + x) * 4;
    let ghost before = buf@;
    buf[i] = px.0;
    buf[i + 1] = px.1;
    buf[i + 2] = px.2;
    buf[i + 3] = px.3;
    proof {
        assert forall|u: int, v: int|
            0 <= u < WIDTH && 0 <= v && (u != x || v != y) && cell(u, v) * 4 + 4
                <= before.len() implies #[trigger] rgba_at(buf@, u, v) == rgba_at(before, u, v) by {
            lemma_cells_differ(u, v, x as int, y as int);
        }
    }
}

/// Reads one pixel of an RGBA buffer.
pub fn get_rgba(buf: &[u8], x: usize, y: usize) -> (px: (u8, u8, u8, u8))
    requires
        x < WIDTH,
        y < HEIGHT,
        cell(x as int, y as int) * 4 + 4 <= buf@.len(),
    ensures
        px == rgba_at(buf@, x as int, y as int),
{
    let i: usize = (y * WIDTH + x) * 4;
    (buf[i], buf[i + 1], buf[i + 2], buf[i + 3])
}

/// Writes one pixel of an RGB888 buffer; every other byte stays.
pub fn put_rgb(buf: &mut [u8], x: usize, y: usize, px: (u8, u8, u8))
    requires
        x < WIDTH,
        y < HEIGHT,
        cell(x as int, y as int) * 3 + 3 <= old(buf)@.len(),
    ensures
        final(buf)@.len() == old(buf)@.len(),
        rgb_at(final(buf)@, x as int, y as int) == px,
        forall|u: int, v: int|
            0 <= u < WIDTH && 0 <= v && (u != x || v != y) && cell(u, v) * 3 + 3 <= old(
                buf,
            )@.len() ==> #[trigger] rgb_at(final(buf)@, u, v) == rgb_at(old(buf)@, u, v),
        forall|i: int|
            PIXELS * 3 <= i < old(buf)@.len() ==> #[trigger] final(buf)@[i] == old(buf)@[i],
{
    let i: usize = (y * WIDTH + x) * 3;
    let ghost before = buf@;
    buf[i] = px.0;
    buf[i + 1] = px.1;
    buf[i + 2] = px.2;
    proof {
        lemma_cell_inside(x as int, y as int, HEIGHT as int);
        assert forall|u: int, v: int|
            0 <= u < WIDTH && 0 <= v && (u != x || v != y) && cell(u, v) * 3 + 3
                <= before.len() implies #[trigger] rgb_at(buf@, u, v) == rgb_at(before, u, v) by {
            lemma_cells_differ(u, v, x as int, y as int);
        }
    }
}

/// How many pixels of an image of `w` by `h` pixels at `(x, y)` have to be there: up
/// to the last one that comes to lie on the panel.
pub open spec fn pixels_on_panel(w: int, h: int, x: int, y: int) -> int {
    let rows = if h < HEIGHT - y {
        h
    } else {
        HEIGHT - y
    };
    let cols = if w < WIDTH - x {
        w
    } else {
        WIDTH - x
    };
    if rows <= 0 || cols <= 0 {
        0
    } else {
        (rows - 1) * w + cols
    }
}

/// The pixels on the panel are among those.
pub proof fn lemma_pixels_on_panel(w: int, h: int, x: int, y: int, col: int, row: int)
    requires
        0 <= col < w,
        0 <= row < h,
        x + col < WIDTH,
        y + row < HEIGHT,
    ensures
        row * w + col < pixels_on_panel(w, h, x, y),
{
    let rows = if h < HEIGHT - y {
        h
    } else {
        HEIGHT - y
    };
    assert(row * w <= (rows - 1) * w) by (nonlinear_arith)
        requires
            row <= rows - 1,
            0 <= w,
    ;
}

/// The buffers are row by row, 1620 pixels a row: coverage takes one byte a pixel, the
/// framebuffer red, green and blue, and a frame alpha behind them.
pub proof fn law_pixels_lie_row_by_row(buf: Seq<u8>, x: int, y: int)
    ensures
        ({
            let n = y * 1620 + x;
            &&& cov_at(buf, x, y) == buf[n]
            &&& rgb_at(buf, x, y) == (buf[3 * n], buf[3 * n + 1], buf[3 * n + 2])
            &&& rgba_at(buf, x, y) == (
                buf[4 * n],
                buf[4 * n + 1],
                buf[4 * n + 2],
                buf[4 * n + 3],
            )
        }),
        in_panel(x, y) == (0 <= x < 1620 && 0 <= y < 2160),
        in_band(y) == (110 <= y < 1920),
{
}

} // verus!
