//! The whiteboard: a pen scratch surface over the card.
//!
//! The board keeps the composed review frame without ink (the base, RGBA) and
//! one byte of ink coverage a pixel. The panel shows the base darkened by the ink.
//! Strokes are kept as lists of points, so that the ink can be drawn anew: for
//! undo, and when the card is scrolled or zoomed.
//!
//! Points are stored in content coordinates: panel coordinates divided by the
//! zoom and shifted by the scroll offset at capture. Drawing them anew applies the
//! present scroll and zoom, so the ink stays with the content it was written on.
//! The zoom is held in thousandths and the scroll offset in hundredths of a
//! content pixel. Points are held so finely that drawing a stroke anew through the
//! view that it was written in gives the very pixels that it had.
//!
//! Ink stays in the card band; samples over the bars above and below are ignored.

use vstd::prelude::*;

use crate::frame::{
    cell, cov_at, get_rgba, in_band, in_panel, put_rgb, rgb_at, rgba_at, same_tail, CARD_H, CARD_Y,
    HEIGHT, PIXELS, WIDTH,
};
use crate::frame::lemma_cell_inside;
use crate::ink::{
    drawn, gap, ink_value, segment_covers, segment_ink, step_covers, steps, toward,
};
use crate::ink::{lemma_outside_disc, lemma_toward};
use crate::pen::PenSample;
use crate::qtfb::{
    ClientMessage, Qtfb, REFRESH_MODE_ANIMATE, REFRESH_MODE_CONTENT, REFRESH_MODE_FAST,
    UPDATE_ALL, UPDATE_PARTIAL,
};

verus! {

/// Radius of the eraser brush in pixels.
pub const ERASE_RADIUS: i32 = 26;

/// The zoom at which content and panel pixels are the same.
pub const ZOOM_ONE: u32 = 1000;

/// Content coordinates are counted in ten-millionths of a content pixel. This many of
/// them make a panel pixel at a zoom of one thousandth.
pub const ZOOM_PARTS: i64 = 10_000_000_000;

/// Ten-millionths of a content pixel in the unit of the scroll offset.
pub const SCROLL_PARTS: i64 = 100_000;

/// A rectangle of panel pixels, both corners included.
#[derive(Clone, Copy, Debug, PartialEq, Eq, Structural)]
pub struct Rect {
    pub x0: i32,
    pub y0: i32,
    pub x1: i32,
    pub y1: i32,
}

/// A refresh to ask the panel server for: first the mode, then the update.
#[derive(Clone, Copy, Debug, PartialEq, Eq, Structural)]
pub struct Refresh {
    pub mode: i32,
    pub update: ClientMessage,
}

impl Rect {
    /// The rectangle lies in the card band.
    pub open spec fn in_card(self) -> bool {
        &&& 0 <= self.x0 <= self.x1 < WIDTH
        &&& CARD_Y <= self.y0 <= self.y1 < CARD_Y + CARD_H
    }

    /// The pixel belongs to the rectangle.
    pub open spec fn has(self, x: int, y: int) -> bool {
        self.x0 <= x <= self.x1 && self.y0 <= y <= self.y1
    }

    /// The smallest rectangle around two.
    pub open spec fn hull(self, other: Rect) -> Rect {
        Rect {
            x0: if self.x0 <= other.x0 {
                self.x0
            } else {
                other.x0
            },
            y0: if self.y0 <= other.y0 {
                self.y0
            } else {
                other.y0
            },
            x1: if self.x1 >= other.x1 {
                self.x1
            } else {
                other.x1
            },
            y1: if self.y1 >= other.y1 {
                self.y1
            } else {
                other.y1
            },
        }
    }

    /// The request to refresh this rectangle.
    pub open spec fn update(self) -> ClientMessage {
        ClientMessage::Update {
            msg_type: UPDATE_PARTIAL,
            x: self.x0,
            y: self.y0,
            w: (self.x1 - self.x0 + 1) as i32,
            h: (self.y1 - self.y0 + 1) as i32,
        }
    }

    fn around(self, other: Rect) -> (r: Rect)
        ensures
            r == self.hull(other),
    {
        Rect {
            x0: if self.x0 <= other.x0 {
                self.x0
            } else {
                other.x0
            },
            y0: if self.y0 <= other.y0 {
                self.y0
            } else {
                other.y0
            },
            x1: if self.x1 >= other.x1 {
                self.x1
            } else {
                other.x1
            },
            y1: if self.y1 >= other.y1 {
                self.y1
            } else {
                other.y1
            },
        }
    }

    fn request(self) -> (m: ClientMessage)
        requires
            self.in_card(),
        ensures
            m == self.update(),
    {
        Qtfb::update_partial(self.x0, self.y0, self.x1 - self.x0 + 1, self.y1 - self.y0 + 1)
    }
}

/// A region that may not be there yet, grown by another.
pub open spec fn grown(r: Option<Rect>, by: Rect) -> Rect {
    match r {
        None => by,
        Some(r) => r.hull(by),
    }
}

fn grow(r: Option<Rect>, by: Rect) -> (g: Rect)
    ensures
        g == grown(r, by),
{
    match r {
        None => by,
        Some(r) => r.around(by),
    }
}

// ------------------------------------------------------------- coordinates

/// `a / b` rounded to the nearest integer, halves away from zero.
pub open spec fn round_div(a: int, b: int) -> int {
    if a >= 0 {
        (2 * a + b) / (2 * b)
    } else {
        -((2 * (-a) + b) / (2 * b))
    }
}

/// `v` brought into the range of 32-bit coordinates.
pub open spec fn saturated(v: int) -> int {
    if v < i32::MIN {
        i32::MIN as int
    } else if v > i32::MAX {
        i32::MAX as int
    } else {
        v
    }
}

/// Panel column of content column `cx`.
pub open spec fn shown_x(cx: int, zoom: int) -> int {
    saturated(round_div(cx * zoom, ZOOM_PARTS as int))
}

/// Panel row of content row `cy`.
pub open spec fn shown_y(cy: int, scroll: int, zoom: int) -> int {
    saturated(round_div((cy - scroll * SCROLL_PARTS) * zoom, ZOOM_PARTS as int) + CARD_Y)
}

/// Panel radius of a point of content width `w`.
pub open spec fn shown_r(w: int, zoom: int) -> int {
    let half = saturated(w * zoom / (ZOOM_PARTS as int)) / 2;
    if half >= 1 {
        half
    } else {
        1
    }
}

/// Content column of panel column `x`.
pub open spec fn captured_x(x: int, zoom: int) -> int {
    round_div(x * ZOOM_PARTS, zoom)
}

/// Content row of panel row `y`.
pub open spec fn captured_y(y: int, scroll: int, zoom: int) -> int {
    round_div((y - CARD_Y) * ZOOM_PARTS, zoom) + scroll * SCROLL_PARTS
}

/// Content width of panel width `w`, with a part of a part rounded up.
pub open spec fn captured_w(w: int, zoom: int) -> int {
    (w * ZOOM_PARTS + zoom - 1) / zoom
}

/// A panel coordinate comes back from its content coordinate.
proof fn lemma_there_and_back(x: int, zoom: int)
    requires
        0 <= x,
        0 < zoom < ZOOM_PARTS,
    ensures
        round_div(round_div(x * ZOOM_PARTS, zoom) * zoom, ZOOM_PARTS as int) == x,
        0 <= round_div(x * ZOOM_PARTS, zoom) <= x * ZOOM_PARTS + 1,
{
    let k = ZOOM_PARTS as int;
    let a = x * k;
    let c = (2 * a + zoom) / (2 * zoom);
    vstd::arithmetic::div_mod::lemma_fundamental_div_mod(2 * a + zoom, 2 * zoom);
    let m = (2 * a + zoom) % (2 * zoom);
    assert(0 <= m < 2 * zoom);
    let p = c * zoom;
    assert(2 * zoom * c == 2 * p) by (nonlinear_arith)
        requires
            p == c * zoom,
    ;
    assert(2 * a - zoom < 2 * p <= 2 * a + zoom);
    assert(0 <= c <= a + 1) by (nonlinear_arith)
        requires
            p == c * zoom,
            2 * a - zoom < 2 * p <= 2 * a + zoom,
            0 < zoom,
            0 <= a,
    ;
    assert(0 <= p) by (nonlinear_arith)
        requires
            p == c * zoom,
            0 <= c,
            0 < zoom,
    ;
    assert((2 * p + k) / (2 * k) == x) by (nonlinear_arith)
        requires
            k == 10_000_000_000,
            2 * (x * k) - zoom < 2 * p <= 2 * (x * k) + zoom,
            0 < zoom < k,
    ;
}

/// A panel width comes back from its content width.
proof fn lemma_width_there_and_back(w: int, zoom: int)
    requires
        0 <= w,
        0 < zoom < ZOOM_PARTS,
    ensures
        captured_w(w, zoom) * zoom / (ZOOM_PARTS as int) == w,
        0 <= captured_w(w, zoom) <= w * ZOOM_PARTS + 1,
{
    let a = w * ZOOM_PARTS + zoom - 1;
    let c = captured_w(w, zoom);
    vstd::arithmetic::div_mod::lemma_fundamental_div_mod(a, zoom);
    let p = c * zoom;
    assert(zoom * c == p) by (nonlinear_arith)
        requires
            p == c * zoom,
    ;
    assert(w * ZOOM_PARTS <= p < w * ZOOM_PARTS + zoom);
    assert(0 <= c <= w * ZOOM_PARTS + 1) by (nonlinear_arith)
        requires
            p == c * zoom,
            w * ZOOM_PARTS <= p < w * ZOOM_PARTS + zoom,
            0 < zoom,
            0 <= w * ZOOM_PARTS,
    ;
}

/// Content coordinates of panel pixels fit their types.
proof fn lemma_captured_range(x: int, y: int, w: int, scroll: int, zoom: int)
    requires
        0 <= x < WIDTH,
        in_band(y),
        0 <= w <= 255,
        i32::MIN <= scroll <= i32::MAX,
        0 < zoom <= u32::MAX,
    ensures
        i64::MIN <= captured_x(x, zoom) <= i64::MAX,
        i64::MIN <= captured_y(y, scroll, zoom) <= i64::MAX,
        0 <= captured_w(w, zoom) <= u64::MAX,
{
    lemma_there_and_back(x, zoom);
    lemma_there_and_back(y - CARD_Y, zoom);
    lemma_width_there_and_back(w, zoom);
}

/// Drawn anew through the view that it was captured in, a point stands where it was.
proof fn lemma_kept_in_place(x: int, y: int, w: int, scroll: int, zoom: int)
    requires
        0 <= x < WIDTH,
        in_band(y),
        0 <= w <= 255,
        0 < zoom <= u32::MAX,
    ensures
        shown_x(captured_x(x, zoom), zoom) == x,
        shown_y(captured_y(y, scroll, zoom), scroll, zoom) == y,
        shown_r(captured_w(w, zoom), zoom) == (if w / 2 >= 1 {
            w / 2
        } else {
            1
        }),
{
    lemma_there_and_back(x, zoom);
    lemma_there_and_back(y - CARD_Y, zoom);
    lemma_width_there_and_back(w, zoom);
}

fn rounded(a: i128, b: i128) -> (q: i128)
    requires
        -0x1_0000_0000_0000_0000_0000_0000 < a < 0x1_0000_0000_0000_0000_0000_0000,
        0 < b < 0x1_0000_0000_0000,
    ensures
        q == round_div(a as int, b as int),
        -0x2_0000_0000_0000_0000_0000_0000 < q < 0x2_0000_0000_0000_0000_0000_0000,
{
    let (m, neg): (i128, bool) = if a >= 0 {
        (a, false)
    } else {
        (-a, true)
    };
    let q: i128 = (2 * m + b) / (2 * b);
    assert(0 <= q <= m + 1) by (nonlinear_arith)
        requires
            q == (2 * m + b) / (2 * b),
            0 <= m,
            0 < b,
    ;
    if neg {
        -q
    } else {
        q
    }
}

/// Brings a number into the range of 32-bit coordinates.
pub fn saturate(v: i128) -> (r: i32)
    ensures
        r == saturated(v as int),
{
    if v < i32::MIN as i128 {
        i32::MIN
    } else if v > i32::MAX as i128 {
        i32::MAX
    } else {
        v as i32
    }
}

fn show_x(cx: i64, zoom: u32) -> (x: i32)
    ensures
        x == shown_x(cx as int, zoom as int),
{
    assert(-0x8000_0000_0000_0000 * 0x1_0000_0000 < cx * zoom < 0x8000_0000_0000_0000
        * 0x1_0000_0000 + 1) by (nonlinear_arith)
        requires
            -0x8000_0000_0000_0000 <= cx <= 0x8000_0000_0000_0000,
            0 <= zoom < 0x1_0000_0000,
    ;
    saturate(rounded(cx as i128 * zoom as i128, ZOOM_PARTS as i128))
}

fn show_y(cy: i64, scroll: i32, zoom: u32) -> (y: i32)
    ensures
        y == shown_y(cy as int, scroll as int, zoom as int),
{
    let offset: i128 = cy as i128 - scroll as i128 * SCROLL_PARTS as i128;
    assert(-0x9000_0000_0000_0000 * 0x1_0000_0000 <= offset * zoom <= 0x9000_0000_0000_0000
        * 0x1_0000_0000) by (nonlinear_arith)
        requires
            -0x9000_0000_0000_0000 <= offset <= 0x9000_0000_0000_0000,
            0 <= zoom <= 0x1_0000_0000,
    ;
    saturate(rounded(offset * zoom as i128, ZOOM_PARTS as i128) + CARD_Y as i128)
}

fn show_r(w: u64, zoom: u32) -> (r: i32)
    ensures
        r == shown_r(w as int, zoom as int),
        1 <= r,
{
    assert(0 <= w * zoom <= 0x1_0000_0000_0000_0000 * 0x1_0000_0000) by (nonlinear_arith)
        requires
            0 <= w <= 0x1_0000_0000_0000_0000,
            0 <= zoom <= 0x1_0000_0000,
    ;
    let half: i32 = saturate(w as i128 * zoom as i128 / ZOOM_PARTS as i128) / 2;
    if half >= 1 {
        half
    } else {
        1
    }
}

fn capture_x(x: i32, zoom: u32) -> (cx: i64)
    requires
        0 <= x < WIDTH,
        zoom > 0,
    ensures
        cx == captured_x(x as int, zoom as int),
{
    proof {
        lemma_there_and_back(x as int, zoom as int);
    }
    rounded(x as i128 * ZOOM_PARTS as i128, zoom as i128) as i64
}

fn capture_y(y: i32, scroll: i32, zoom: u32) -> (cy: i64)
    requires
        in_band(y as int),
        zoom > 0,
    ensures
        cy == captured_y(y as int, scroll as int, zoom as int),
{
    proof {
        lemma_there_and_back(y - CARD_Y, zoom as int);
    }
    let row: i128 = y as i128 - CARD_Y as i128;
    let cy: i128 = rounded(row * ZOOM_PARTS as i128, zoom as i128);
    let parts: i64 = SCROLL_PARTS;
    assert(scroll * parts == scroll * 100_000);
    cy as i64 + scroll as i64 * parts
}

fn capture_w(w: u32, zoom: u32) -> (cw: u64)
    requires
        w <= 255,
        zoom > 0,
    ensures
        cw == captured_w(w as int, zoom as int),
{
    proof {
        lemma_width_there_and_back(w as int, zoom as int);
    }
    let parts: u64 = ZOOM_PARTS as u64;
    assert(w * parts == w * 10_000_000_000);
    (w as u64 * parts + (zoom as u64 - 1)) / zoom as u64
}

// ----------------------------------------------------------------- strokes

/// A point of a stroke, in content coordinates with its width.
#[derive(Clone, Copy, Debug, PartialEq, Eq, Structural)]
pub struct InkPoint {
    pub x: i64,
    pub y: i64,
    pub w: u64,
    /// The point starts a part of the stroke: no line leads to it.
    pub start: bool,
    /// The point erases.
    pub erase: bool,
}

/// The segment that ends in point `k` of a stroke covers pixel `(x, y)`. A point that
/// starts a part is a segment by itself.
pub open spec fn piece_covers(
    pts: Seq<InkPoint>,
    k: int,
    scroll: int,
    zoom: int,
    x: int,
    y: int,
) -> bool {
    let from = if k == 0 || pts[k].start {
        pts[k]
    } else {
        pts[k - 1]
    };
    segment_covers(
        shown_x(from.x as int, zoom),
        shown_y(from.y as int, scroll, zoom),
        shown_x(pts[k].x as int, zoom),
        shown_y(pts[k].y as int, scroll, zoom),
        shown_r(pts[k].w as int, zoom),
        x,
        y,
    )
}

/// The coverage that drawing the first `n` points of a stroke leaves at pixel
/// `(x, y)`, over `below`: the last segment that covers the pixel decides.
pub open spec fn stroke_over(
    pts: Seq<InkPoint>,
    n: int,
    below: u8,
    scroll: int,
    zoom: int,
    x: int,
    y: int,
) -> u8
    decreases n,
{
    if n <= 0 {
        below
    } else if piece_covers(pts, n - 1, scroll, zoom, x, y) {
        ink_value(pts[n - 1].erase)
    } else {
        stroke_over(pts, n - 1, below, scroll, zoom, x, y)
    }
}

/// The coverage that drawing the strokes in order leaves at pixel `(x, y)` of a
/// clean board.
pub open spec fn replayed(
    strokes: Seq<Seq<InkPoint>>,
    scroll: int,
    zoom: int,
    x: int,
    y: int,
) -> u8
    decreases strokes.len(),
{
    if strokes.len() == 0 {
        0
    } else {
        stroke_over(
            strokes.last(),
            strokes.last().len() as int,
            replayed(strokes.drop_last(), scroll, zoom, x, y),
            scroll,
            zoom,
            x,
            y,
        )
    }
}

/// `ink` is what drawing `strokes` on a clean board leaves.
pub open spec fn ink_is(
    ink: Seq<u8>,
    strokes: Seq<Seq<InkPoint>>,
    scroll: int,
    zoom: int,
) -> bool {
    ink.len() == PIXELS && forall|x: int, y: int|
        in_panel(x, y) ==> #[trigger] cov_at(ink, x, y) == replayed(strokes, scroll, zoom, x, y)
}

/// No ink anywhere.
pub open spec fn blank(ink: Seq<u8>) -> bool {
    ink.len() == PIXELS && forall|i: int| 0 <= i < PIXELS ==> #[trigger] ink[i] == 0
}

/// A clean board is what drawing no stroke leaves.
pub proof fn lemma_blank_is_empty(ink: Seq<u8>, scroll: int, zoom: int)
    requires
        blank(ink),
    ensures
        ink_is(ink, Seq::empty(), scroll, zoom),
{
    assert forall|x: int, y: int| in_panel(x, y) implies #[trigger] cov_at(ink, x, y) == replayed(
        Seq::empty(),
        scroll,
        zoom,
        x,
        y,
    ) by {
        lemma_cell_inside(x, y, HEIGHT as int);
    }
}

fn wipe(ink: &mut [u8])
    requires
        old(ink)@.len() == PIXELS,
    ensures
        blank(final(ink)@),
{
    let mut i: usize = 0;
    while i < PIXELS
        invariant
            i <= PIXELS,
            ink@.len() == PIXELS,
            forall|j: int| 0 <= j < i ==> #[trigger] ink@[j] == 0,
        decreases PIXELS - i,
    {
        ink[i] = 0;
        i += 1;
    }
}

spec fn models(strokes: Seq<Vec<InkPoint>>) -> Seq<Seq<InkPoint>> {
    strokes.map_values(|s: Vec<InkPoint>| s@)
}

/// Draws the points of a stroke.
fn draw_stroke(ink: &mut [u8], pts: &Vec<InkPoint>, scroll: i32, zoom: u32)
    requires
        old(ink)@.len() == PIXELS,
    ensures
        final(ink)@.len() == PIXELS,
        forall|x: int, y: int|
            in_panel(x, y) ==> #[trigger] cov_at(final(ink)@, x, y) == stroke_over(
                pts@,
                pts@.len() as int,
                cov_at(old(ink)@, x, y),
                scroll as int,
                zoom as int,
                x,
                y,
            ),
{
    let ghost before = ink@;
    let mut k: usize = 0;
    while k < pts.len()
        invariant
            k <= pts@.len(),
            ink@.len() == PIXELS,
            forall|x: int, y: int|
                in_panel(x, y) ==> #[trigger] cov_at(ink@, x, y) == stroke_over(
                    pts@,
                    k as int,
                    cov_at(before, x, y),
                    scroll as int,
                    zoom as int,
                    x,
                    y,
                ),
        decreases pts@.len() - k,
    {
        let to: InkPoint = pts[k];
        let from: InkPoint = if k == 0 || to.start {
            to
        } else {
            pts[k - 1]
        };
        let fx: i32 = show_x(from.x, zoom);
        let fy: i32 = show_y(from.y, scroll, zoom);
        let x1: i32 = show_x(to.x, zoom);
        let y1: i32 = show_y(to.y, scroll, zoom);
        let r: i32 = show_r(to.w, zoom);
        let ghost prev = ink@;
        segment_ink(ink, fx, fy, x1, y1, r, to.erase);
        proof {
            assert forall|x: int, y: int| in_panel(x, y) implies #[trigger] cov_at(ink@, x, y)
                == stroke_over(
                pts@,
                k + 1,
                cov_at(before, x, y),
                scroll as int,
                zoom as int,
                x,
                y,
            ) by {
                let below = cov_at(prev, x, y);
                assert(piece_covers(pts@, k as int, scroll as int, zoom as int, x, y)
                    == segment_covers(
                    fx as int,
                    fy as int,
                    x1 as int,
                    y1 as int,
                    r as int,
                    x,
                    y,
                ));
            }
        }
        k += 1;
    }
}

/// Draws the strokes on a clean board through the given scroll and zoom.
fn replay(ink: &mut [u8], strokes: &Vec<Vec<InkPoint>>, scroll: i32, zoom: u32)
    requires
        old(ink)@.len() == PIXELS,
    ensures
        ink_is(final(ink)@, models(strokes@), scroll as int, zoom as int),
{
    wipe(ink);
    let ghost all = models(strokes@);
    let mut n: usize = 0;
    proof {
        lemma_blank_is_empty(ink@, scroll as int, zoom as int);
        assert(all.take(0) =~= Seq::empty());
    }
    while n < strokes.len()
        invariant
            n <= strokes@.len(),
            all == models(strokes@),
            ink_is(ink@, all.take(n as int), scroll as int, zoom as int),
        decreases strokes@.len() - n,
    {
        let ghost before = ink@;
        assert(all[n as int] == strokes@[n as int]@);
        assert(all.take(n + 1).drop_last() =~= all.take(n as int));
        assert(all.take(n + 1).last() == strokes@[n as int]@);
        draw_stroke(ink, &strokes[n], scroll, zoom);
        assert forall|x: int, y: int| in_panel(x, y) implies #[trigger] cov_at(ink@, x, y)
            == replayed(all.take(n + 1), scroll as int, zoom as int, x, y) by {
            assert(cov_at(before, x, y) == replayed(
                all.take(n as int),
                scroll as int,
                zoom as int,
                x,
                y,
            ));
        }
        n += 1;
    }
    assert(all.take(n as int) =~= all);
}

// ----------------------------------------------------------------- showing

/// One colour channel of the base under ink of this coverage.
pub open spec fn darkened(base: u8, cov: u8) -> u8 {
    ((base * (255 - cov)) / 255) as u8
}

/// A pixel of the base under ink of this coverage.
pub open spec fn shade(base: (u8, u8, u8, u8), cov: u8) -> (u8, u8, u8) {
    (darkened(base.0, cov), darkened(base.1, cov), darkened(base.2, cov))
}

/// The framebuffer shows the base with the ink over it.
pub open spec fn shows(shm: Seq<u8>, base: Seq<u8>, ink: Seq<u8>) -> bool {
    forall|x: int, y: int|
        in_panel(x, y) ==> #[trigger] rgb_at(shm, x, y) == shade(
            rgba_at(base, x, y),
            cov_at(ink, x, y),
        )
}

fn darken(base: u8, cov: u8) -> (c: u8)
    ensures
        c == darkened(base, cov),
{
    let ia: u32 = 255 - cov as u32;
    assert(0 <= base * ia <= 255 * 255) by (nonlinear_arith)
        requires
            0 <= base <= 255,
            0 <= ia <= 255,
    ;
    assert(base * ia == base * (255 - cov));
    ((base as u32 * ia) / 255) as u8
}

/// Brings a rectangle of the framebuffer up to date with base and ink.
fn show_rect(shm: &mut [u8], base: &[u8], ink: &[u8], x0: usize, y0: usize, x1: usize, y1: usize)
    requires
        old(shm)@.len() >= PIXELS * 3,
        base@.len() == PIXELS * 4,
        ink@.len() == PIXELS,
        x1 <= WIDTH,
        y1 <= HEIGHT,
        x0 <= x1,
        y0 <= y1,
    ensures
        same_tail(final(shm)@, old(shm)@, PIXELS * 3),
        forall|x: int, y: int|
            in_panel(x, y) ==> #[trigger] rgb_at(final(shm)@, x, y) == (if x0 <= x < x1 && y0 <= y
                < y1 {
                shade(rgba_at(base@, x, y), cov_at(ink@, x, y))
            } else {
                rgb_at(old(shm)@, x, y)
            }),
{
    let ghost before = shm@;
    let mut y: usize = y0;
    while y < y1
        invariant
            same_tail(shm@, before, PIXELS * 3),
            before.len() >= PIXELS * 3,
            base@.len() == PIXELS * 4,
            ink@.len() == PIXELS,
            x0 <= x1 <= WIDTH,
            y0 <= y <= y1 <= HEIGHT,
            forall|u: int, v: int|
                in_panel(u, v) ==> #[trigger] rgb_at(shm@, u, v) == (if x0 <= u < x1 && y0 <= v
                    < y {
                    shade(rgba_at(base@, u, v), cov_at(ink@, u, v))
                } else {
                    rgb_at(before, u, v)
                }),
        decreases y1 - y,
    {
        let mut x: usize = x0;
        while x < x1
            invariant
                same_tail(shm@, before, PIXELS * 3),
                before.len() >= PIXELS * 3,
                base@.len() == PIXELS * 4,
                ink@.len() == PIXELS,
                x0 <= x <= x1 <= WIDTH,
                y0 <= y < y1 <= HEIGHT,
                forall|u: int, v: int|
                    in_panel(u, v) ==> #[trigger] rgb_at(shm@, u, v) == (if x0 <= u < x1 && y0 <= v
                        && (v < y || v == y && u < x) {
                        shade(rgba_at(base@, u, v), cov_at(ink@, u, v))
                    } else {
                        rgb_at(before, u, v)
                    }),
            decreases x1 - x,
        {
            proof {
                lemma_cell_inside(x as int, y as int, HEIGHT as int);
            }
            let b: (u8, u8, u8, u8) = get_rgba(base, x, y);
            let cov: u8 = ink[y * WIDTH + x];
            put_rgb(shm, x, y, (darken(b.0, cov), darken(b.1, cov), darken(b.2, cov)));
            x += 1;
        }
        y += 1;
    }
}

// ------------------------------------------------------------------- board

/// What the whiteboard holds.
#[verifier::ext_equal]
pub struct Board {
    /// The composed frame without ink, RGBA.
    pub base: Seq<u8>,
    /// Ink coverage, one byte a pixel.
    pub ink: Seq<u8>,
    /// The finished strokes.
    pub strokes: Seq<Seq<InkPoint>>,
    /// The stroke in progress.
    pub active: Option<Seq<InkPoint>>,
    /// Panel position of the last sample of the present run of samples.
    pub last: Option<(i32, i32)>,
    /// Scroll offset in hundredths of a content pixel.
    pub scroll: i32,
    /// Zoom in thousandths.
    pub zoom: u32,
    /// Inked since the last flush.
    pub dirty: Option<Rect>,
    /// Shown with a fast waveform since the last colour refresh.
    pub settle: Option<Rect>,
    /// The pen tip erases too.
    pub eraser: bool,
}

/// A coverage layer of full and empty pixels only.
pub open spec fn two_valued(ink: Seq<u8>) -> bool {
    forall|x: int, y: int|
        in_panel(x, y) ==> #[trigger] cov_at(ink, x, y) == 0 || cov_at(ink, x, y) == 255
}

/// No ink lies outside the card band.
pub open spec fn confined(ink: Seq<u8>) -> bool {
    forall|x: int, y: int|
        in_panel(x, y) && !in_band(y) ==> #[trigger] cov_at(ink, x, y) == 0
}

impl Board {
    /// What every operation keeps: buffers of the panel's size, ink that is there
    /// or not and never on the bars, a positive zoom, pending regions inside the
    /// card band, and a last position only where the stroke in progress has the
    /// point captured there.
    pub open spec fn valid(self) -> bool {
        &&& self.base.len() == PIXELS * 4
        &&& self.ink.len() == PIXELS
        &&& two_valued(self.ink)
        &&& confined(self.ink)
        &&& self.zoom > 0
        &&& self.dirty matches Some(r) ==> r.in_card()
        &&& self.settle matches Some(r) ==> r.in_card()
        &&& self.last matches Some(p) ==> {
            &&& in_panel(p.0 as int, p.1 as int)
            &&& in_band(p.1 as int)
            &&& self.active is Some
            &&& self.active->0.len() > 0
            &&& self.active->0.last().x == captured_x(p.0 as int, self.zoom as int)
            &&& self.active->0.last().y == captured_y(
                p.1 as int,
                self.scroll as int,
                self.zoom as int,
            )
        }
    }

    /// All strokes with points, the one in progress last.
    pub open spec fn all_strokes(self) -> Seq<Seq<InkPoint>> {
        match self.active {
            Some(st) if st.len() > 0 => self.strokes.push(st),
            _ => self.strokes,
        }
    }

    /// The board once the stroke in progress is ended.
    pub open spec fn ended(self) -> Board {
        Board { strokes: self.all_strokes(), active: None, last: None, ..self }
    }

    /// The sample erases.
    pub open spec fn erases(self, s: PenSample) -> bool {
        s.erase || self.eraser
    }

    /// Radius that the sample draws with.
    pub open spec fn brush(self, s: PenSample) -> int {
        if self.erases(s) {
            ERASE_RADIUS as int
        } else if s.w as int / 2 >= 1 {
            s.w as int / 2
        } else {
            1
        }
    }

    /// The sample begins a stroke.
    pub open spec fn begins(self, s: PenSample) -> bool {
        s.down || self.active is None
    }

    /// Where the segment drawn by the sample starts.
    pub open spec fn from(self, s: PenSample) -> (int, int) {
        match self.last {
            Some(p) if !self.begins(s) => (p.0 as int, p.1 as int),
            _ => (clamped_x(s.x as int), s.y as int),
        }
    }

    /// The rectangle that the sample touches: the segment's extent, padded by one
    /// more than the radius and clipped to the card band.
    pub open spec fn touched(self, s: PenSample) -> Rect {
        let f = self.from(s);
        let (x, y) = (clamped_x(s.x as int), s.y as int);
        let pad = self.brush(s) + 1;
        let (left, right) = if f.0 <= x {
            (f.0 - pad, x + pad)
        } else {
            (x - pad, f.0 + pad)
        };
        let (top, bottom) = if f.1 <= y {
            (f.1 - pad, y + pad)
        } else {
            (y - pad, f.1 + pad)
        };
        Rect {
            x0: (if left >= 0 {
                left
            } else {
                0
            }) as i32,
            y0: (if top >= CARD_Y {
                top
            } else {
                CARD_Y as int
            }) as i32,
            x1: (if right < WIDTH {
                right
            } else {
                WIDTH - 1
            }) as i32,
            y1: (if bottom < CARD_Y + CARD_H {
                bottom
            } else {
                CARD_Y + CARD_H - 1
            }) as i32,
        }
    }

    /// The point that the sample adds to its stroke. It starts a part where no line
    /// leads to it.
    pub open spec fn captured(self, s: PenSample) -> InkPoint {
        InkPoint {
            x: captured_x(clamped_x(s.x as int), self.zoom as int) as i64,
            y: captured_y(s.y as int, self.scroll as int, self.zoom as int) as i64,
            w: captured_w(
                if self.erases(s) {
                    (ERASE_RADIUS * 2) as int
                } else {
                    s.w as int
                },
                self.zoom as int,
            ) as u64,
            start: self.begins(s) || self.last is None,
            erase: self.erases(s),
        }
    }

    /// The sample draws: the pen is down inside the card band.
    pub open spec fn draws(self, s: PenSample) -> bool {
        !s.up && in_band(s.y as int)
    }

    /// The stroke in progress once the sample has come, its own point left out.
    pub open spec fn joined(self, s: PenSample) -> Seq<InkPoint> {
        if self.begins(s) {
            Seq::empty()
        } else {
            self.active->0
        }
    }

    /// The board after a pen sample, given the ink after it: lifting the pen ends
    /// the stroke, a sample outside the card band breaks the line, and any other
    /// sample adds a point and grows the dirty region.
    pub open spec fn sampled(self, s: PenSample, ink: Seq<u8>) -> Board {
        if s.up {
            self.ended()
        } else if !in_band(s.y as int) {
            Board { active: Some(self.joined(s)), last: None, ..self }
        } else {
            Board {
                ink,
                active: Some(self.joined(s).push(self.captured(s))),
                last: Some((clamped_x(s.x as int) as i32, s.y)),
                dirty: Some(grown(self.dirty, self.touched(s))),
                ..self
            }
        }
    }

    /// `ink` is the board's ink after the sample.
    pub open spec fn inked(self, s: PenSample, ink: Seq<u8>) -> bool {
        if self.draws(s) {
            ink.len() == PIXELS && forall|x: int, y: int|
                in_panel(x, y) ==> #[trigger] cov_at(ink, x, y) == drawn(
                    self.ink,
                    self.from(s).0,
                    self.from(s).1,
                    clamped_x(s.x as int),
                    s.y as int,
                    self.brush(s),
                    self.erases(s),
                    x,
                    y,
                )
        } else {
            ink == self.ink
        }
    }
}

/// A column brought onto the panel.
pub open spec fn clamped_x(x: int) -> int {
    if x < 0 {
        0
    } else if x >= WIDTH {
        WIDTH - 1
    } else {
        x
    }
}

/// The whole card band.
pub open spec fn band_rect() -> Rect {
    Rect {
        x0: 0,
        y0: CARD_Y as i32,
        x1: (WIDTH - 1) as i32,
        y1: (CARD_Y + CARD_H - 1) as i32,
    }
}

/// Ink that a segment leaves is inside the rectangle its sample touches.
proof fn lemma_touched(b: Board, s: PenSample, x: int, y: int)
    requires
        b.valid(),
        b.draws(s),
        in_panel(x, y),
        segment_covers(
            b.from(s).0,
            b.from(s).1,
            clamped_x(s.x as int),
            s.y as int,
            b.brush(s),
            x,
            y,
        ),
    ensures
        b.touched(s).has(x, y),
{
    let f = b.from(s);
    let (x1, y1) = (clamped_x(s.x as int), s.y as int);
    let r = b.brush(s);
    let n = steps(f.0, f.1, x1, y1);
    let i = choose|i: int|
        0 <= i <= n && #[trigger] step_covers(f.0, f.1, x1, y1, r, i, x, y);
    lemma_toward(f.0, x1, i, n);
    lemma_toward(f.1, y1, i, n);
    let cx = toward(f.0, x1, i, n);
    let cy = toward(f.1, y1, i, n);
    if gap(cx, x) > r || gap(cy, y) > r {
        lemma_outside_disc(cx, cy, r, x, y);
    }
}

/// Drawing a sample leaves a valid board.
proof fn lemma_sampled_valid(b: Board, s: PenSample, ink: Seq<u8>)
    requires
        b.valid(),
        b.draws(s),
        b.inked(s, ink),
    ensures
        b.sampled(s, ink).valid(),
{
    lemma_touched_in_card(b, s);
    lemma_captured_range(clamped_x(s.x as int), s.y as int, 0, b.scroll as int, b.zoom as int);
    assert forall|x: int, y: int| in_panel(x, y) implies #[trigger] cov_at(ink, x, y) == 0
        || cov_at(ink, x, y) == 255 by {
        assert(cov_at(b.ink, x, y) == 0 || cov_at(b.ink, x, y) == 255);
    }
    assert forall|x: int, y: int| in_panel(x, y) && !in_band(y) implies #[trigger] cov_at(
        ink,
        x,
        y,
    ) == 0 by {
        assert(cov_at(b.ink, x, y) == 0);
    }
    let pts = b.joined(s).push(b.captured(s));
    assert(pts.last() == b.captured(s));
}

/// A framebuffer that showed the board still does once the touched rectangle is
/// brought up to date.
proof fn lemma_shows_kept(b: Board, s: PenSample, ink: Seq<u8>, before: Seq<u8>, after: Seq<u8>)
    requires
        b.valid(),
        b.draws(s),
        b.inked(s, ink),
        shows(before, b.base, b.ink),
        forall|x: int, y: int|
            in_panel(x, y) ==> #[trigger] rgb_at(after, x, y) == (if b.touched(s).has(x, y) {
                shade(rgba_at(b.base, x, y), cov_at(ink, x, y))
            } else {
                rgb_at(before, x, y)
            }),
    ensures
        shows(after, b.base, ink),
{
    assert forall|x: int, y: int| in_panel(x, y) implies #[trigger] rgb_at(after, x, y) == shade(
        rgba_at(b.base, x, y),
        cov_at(ink, x, y),
    ) by {
        if !b.touched(s).has(x, y) {
            if segment_covers(
                b.from(s).0,
                b.from(s).1,
                clamped_x(s.x as int),
                s.y as int,
                b.brush(s),
                x,
                y,
            ) {
                lemma_touched(b, s, x, y);
            }
            assert(cov_at(ink, x, y) == cov_at(b.ink, x, y));
            assert(rgb_at(before, x, y) == shade(rgba_at(b.base, x, y), cov_at(b.ink, x, y)));
        }
    }
}

/// The touched rectangle lies in the card band.
proof fn lemma_touched_in_card(b: Board, s: PenSample)
    requires
        b.valid(),
        b.draws(s),
    ensures
        b.touched(s).in_card(),
{
}

/// The pen scratch surface.
pub struct Whiteboard {
    base: Vec<u8>,
    ink: Vec<u8>,
    strokes: Vec<Vec<InkPoint>>,
    active: Option<Vec<InkPoint>>,
    last: Option<(i32, i32)>,
    scroll: i32,
    zoom: u32,
    dirty: Option<Rect>,
    settle: Option<Rect>,
    pub eraser: bool,
}

impl View for Whiteboard {
    type V = Board;

    closed spec fn view(&self) -> Board {
        Board {
            base: self.base@,
            ink: self.ink@,
            strokes: models(self.strokes@),
            active: match self.active {
                Some(st) => Some(st@),
                None => None,
            },
            last: self.last,
            scroll: self.scroll,
            zoom: self.zoom,
            dirty: self.dirty,
            settle: self.settle,
            eraser: self.eraser,
        }
    }
}

/// `y` is a row of the card band.
pub fn in_card(y: i32) -> (b: bool)
    ensures
        b == in_band(y as int),
{
    y >= CARD_Y as i32 && y < (CARD_Y + CARD_H) as i32
}

fn full_refresh() -> (r: Refresh)
    ensures
        r == (Refresh {
            mode: REFRESH_MODE_CONTENT,
            update: (ClientMessage::Update { msg_type: UPDATE_ALL, x: 0, y: 0, w: 0, h: 0 }),
        }),
{
    Refresh { mode: REFRESH_MODE_CONTENT, update: Qtfb::update_full() }
}

/// The full refresh in colour.
pub open spec fn clean_refresh() -> Refresh {
    Refresh {
        mode: REFRESH_MODE_CONTENT,
        update: ClientMessage::Update { msg_type: UPDATE_ALL, x: 0, y: 0, w: 0, h: 0 },
    }
}

impl Whiteboard {
    /// A white board without ink, unscrolled, at zoom one.
    pub fn new() -> (w: Self)
        ensures
            w@.valid(),
            in_step(w@),
            w@.base.len() == PIXELS * 4,
            forall|i: int| 0 <= i < PIXELS * 4 ==> #[trigger] w@.base[i] == 255,
            blank(w@.ink),
            w@ == (Board {
                base: w@.base,
                ink: w@.ink,
                strokes: Seq::empty(),
                active: None,
                last: None,
                scroll: 0,
                zoom: ZOOM_ONE,
                dirty: None,
                settle: None,
                eraser: false,
            }),
    {
        let w: Whiteboard = Whiteboard {
            base: vec![255u8; PIXELS * 4],
            ink: vec![0u8; PIXELS],
            strokes: Vec::new(),
            active: None,
            last: None,
            scroll: 0,
            zoom: ZOOM_ONE,
            dirty: None,
            settle: None,
            eraser: false,
        };
        proof {
            assert(w@.strokes =~= Seq::empty());
            lemma_blank_two_valued(w@.ink);
            law_clean_board_in_step(w@);
        }
        w
    }

    /// Some stroke is there, finished or in progress.
    pub fn has_ink(&self) -> (b: bool)
        ensures
            b == (self@.strokes.len() > 0 || self@.active is Some),
    {
        self.strokes.len() > 0 || self.active.is_some()
    }

    /// Replaces the base frame; the ink is kept.
    pub fn set_base(&mut self, frame: Vec<u8>)
        requires
            frame@.len() == PIXELS * 4,
        ensures
            final(self)@ == (Board { base: frame@, ..old(self)@ }),
            old(self)@.valid() ==> final(self)@.valid(),
    {
        self.base = frame;
    }

    /// The base frame, to be patched in place.
    pub fn base_mut(&mut self) -> (frame: &mut [u8])
        ensures
            frame@ == old(self)@.base,
            final(self)@ == (Board { base: final(frame)@, ..old(self)@ }),
            old(self)@.valid() && final(frame)@.len() == frame@.len() ==> final(self)@.valid(),
    {
        self.base.as_mut_slice()
    }

    /// Moves the ink along with the card: a new scroll offset (hundredths) or zoom
    /// (thousandths) ends the stroke in progress and draws all strokes anew.
    pub fn set_view(&mut self, scroll: i32, zoom: u32)
        requires
            old(self)@.valid(),
            zoom > 0,
        ensures
            final(self)@.valid(),
            scroll == old(self)@.scroll && zoom == old(self)@.zoom ==> final(self)@ == old(self)@,
            scroll != old(self)@.scroll || zoom != old(self)@.zoom ==> {
                &&& final(self)@ == (Board { scroll, zoom, ink: final(self)@.ink, ..old(
                    self,
                )@.ended() })
                &&& ink_is(final(self)@.ink, final(self)@.strokes, scroll as int, zoom as int)
            },
    {
        if scroll == self.scroll && zoom == self.zoom {
            return;
        }
        self.end_stroke();
        self.scroll = scroll;
        self.zoom = zoom;
        self.rebuild_ink();
    }

    /// Drops all ink and strokes.
    pub fn clear_ink(&mut self)
        requires
            old(self)@.valid(),
        ensures
            final(self)@.valid(),
            blank(final(self)@.ink),
            final(self)@ == (Board {
                ink: final(self)@.ink,
                strokes: Seq::empty(),
                active: None,
                last: None,
                dirty: None,
                settle: None,
                ..old(self)@
            }),
    {
        self.strokes = Vec::new();
        self.active = None;
        self.last = None;
        self.dirty = None;
        self.settle = None;
        wipe(&mut self.ink);
        proof {
            assert(self@.strokes =~= Seq::empty());
            lemma_blank_two_valued(self@.ink);
        }
    }

    /// The pen tip erases too.
    pub fn is_erasing(&self) -> (b: bool)
        ensures
            b == self@.eraser,
    {
        self.eraser
    }

    /// Turns the eraser on or off.
    pub fn toggle_eraser(&mut self)
        ensures
            final(self)@ == (Board { eraser: !old(self)@.eraser, ..old(self)@ }),
            old(self)@.valid() ==> final(self)@.valid(),
    {
        self.eraser = !self.eraser;
    }

    /// Ends the stroke in progress as lifting the pen would; a stroke without
    /// points is dropped.
    pub fn end_stroke(&mut self)
        ensures
            final(self)@ == old(self)@.ended(),
            old(self)@.valid() ==> final(self)@.valid(),
    {
        let ghost before = self@;
        let ghost done = self.strokes@;
        match self.active.take() {
            Some(st) => {
                if st.len() > 0 {
                    self.strokes.push(st);
                    assert(models(done.push(st)) =~= models(done).push(st@));
                }
            },
            None => {},
        }
        self.last = None;
        assert(self@ =~= before.ended());
    }

    /// Gives up a pending colour refresh.
    pub fn discard_settle(&mut self)
        ensures
            final(self)@ == (Board { settle: None, ..old(self)@ }),
            old(self)@.valid() ==> final(self)@.valid(),
    {
        self.settle = None;
    }

    /// Shows base and ink on the whole panel and asks for a full refresh in
    /// colour, which supersedes all pending ones.
    pub fn blit_full(&mut self, shm: &mut [u8]) -> (r: Refresh)
        requires
            old(self)@.valid(),
            old(shm)@.len() >= PIXELS * 3,
        ensures
            final(self)@ == (Board { dirty: None, settle: None, ..old(self)@ }),
            final(self)@.valid(),
            same_tail(final(shm)@, old(shm)@, PIXELS * 3),
            shows(final(shm)@, old(self)@.base, old(self)@.ink),
            r == clean_refresh(),
    {
        show_rect(shm, &self.base, &self.ink, 0, 0, WIDTH, HEIGHT);
        self.dirty = None;
        self.settle = None;
        full_refresh()
    }

    /// Shows base and ink in the card band and asks for a fast refresh of it; the
    /// whole band then waits for its colour.
    pub fn blit_band_fast(&mut self, shm: &mut [u8]) -> (r: Refresh)
        requires
            old(self)@.valid(),
            old(shm)@.len() >= PIXELS * 3,
        ensures
            final(self)@ == (Board { dirty: None, settle: Some(band_rect()), ..old(self)@ }),
            final(self)@.valid(),
            same_tail(final(shm)@, old(shm)@, PIXELS * 3),
            forall|x: int, y: int|
                in_panel(x, y) ==> #[trigger] rgb_at(final(shm)@, x, y) == (if in_band(y) {
                    shade(rgba_at(old(self)@.base, x, y), cov_at(old(self)@.ink, x, y))
                } else {
                    rgb_at(old(shm)@, x, y)
                }),
            r == (Refresh { mode: REFRESH_MODE_FAST, update: band_rect().update() }),
    {
        show_rect(shm, &self.base, &self.ink, 0, CARD_Y, WIDTH, CARD_Y + CARD_H);
        let band: Rect = Rect {
            x0: 0,
            y0: CARD_Y as i32,
            x1: (WIDTH - 1) as i32,
            y1: (CARD_Y + CARD_H - 1) as i32,
        };
        self.settle = Some(band);
        self.dirty = None;
        Refresh { mode: REFRESH_MODE_FAST, update: band.request() }
    }

    /// Takes back the last finished stroke: the rest is drawn anew and shown.
    /// `None` when there is no stroke to take back.
    pub fn undo(&mut self, shm: &mut [u8]) -> (r: Option<Refresh>)
        requires
            old(self)@.valid(),
            old(shm)@.len() >= PIXELS * 3,
        ensures
            final(self)@.valid(),
            same_tail(final(shm)@, old(shm)@, PIXELS * 3),
            old(self)@.strokes.len() == 0 ==> {
                &&& r is None
                &&& final(self)@ == old(self)@
                &&& final(shm)@ == old(shm)@
            },
            old(self)@.strokes.len() > 0 ==> {
                &&& r == Some(clean_refresh())
                &&& final(self)@ == (Board {
                    ink: final(self)@.ink,
                    strokes: old(self)@.strokes.drop_last(),
                    dirty: None,
                    settle: None,
                    ..old(self)@
                })
                &&& ink_is(
                    final(self)@.ink,
                    old(self)@.strokes.drop_last(),
                    old(self)@.scroll as int,
                    old(self)@.zoom as int,
                )
                &&& shows(final(shm)@, final(self)@.base, final(self)@.ink)
            },
    {
        let ghost done = self.strokes@;
        if self.strokes.pop().is_none() {
            return None;
        }
        assert(models(self.strokes@) =~= models(done).drop_last());
        self.rebuild_ink();
        Some(self.blit_full(shm))
    }

    /// Drops all ink and strokes and shows the bare base.
    pub fn clear(&mut self, shm: &mut [u8]) -> (r: Refresh)
        requires
            old(self)@.valid(),
            old(shm)@.len() >= PIXELS * 3,
        ensures
            final(self)@.valid(),
            blank(final(self)@.ink),
            final(self)@ == (Board {
                ink: final(self)@.ink,
                strokes: Seq::empty(),
                active: None,
                last: None,
                dirty: None,
                settle: None,
                ..old(self)@
            }),
            same_tail(final(shm)@, old(shm)@, PIXELS * 3),
            shows(final(shm)@, final(self)@.base, final(self)@.ink),
            r == clean_refresh(),
    {
        self.clear_ink();
        self.blit_full(shm)
    }

    /// Draws the finished strokes anew. Where they were all that was drawn, the ink
    /// stays as it is, pixel by pixel.
    pub fn rebuild_ink(&mut self)
        requires
            old(self)@.valid(),
        ensures
            final(self)@.valid(),
            final(self)@ == (Board { ink: final(self)@.ink, ..old(self)@ }),
            ink_is(
                final(self)@.ink,
                old(self)@.strokes,
                old(self)@.scroll as int,
                old(self)@.zoom as int,
            ),
            old(self)@.active is None && in_step(old(self)@) ==> final(self)@ == old(self)@,
    {
        let ghost before = self@;
        replay(&mut self.ink, &self.strokes, self.scroll, self.zoom);
        proof {
            let (scroll, zoom) = (self@.scroll as int, self@.zoom as int);
            lemma_replayed_two_valued(self@.ink, self@.strokes, scroll, zoom);
            if before.active is None && in_step(before) {
                law_strokes_determine_ink(self@.ink, before.ink, before.strokes, scroll, zoom);
            }
        }
    }

    /// Begins a stroke where the sample begins one.
    fn join_stroke(&mut self, s: PenSample)
        ensures
            final(self)@ == (Board {
                active: Some(old(self)@.joined(s)),
                last: if old(self)@.begins(s) {
                    None
                } else {
                    old(self)@.last
                },
                ..old(self)@
            }),
    {
        if s.down || self.active.is_none() {
            let pts: Vec<InkPoint> = Vec::new();
            assert(pts@ =~= Seq::empty());
            self.active = Some(pts);
            self.last = None;
        }
    }

    /// The radius that the sample draws with.
    fn radius(&self, s: PenSample) -> (r: i32)
        ensures
            r == self@.brush(s),
            1 <= r <= 127,
    {
        if s.erase || self.eraser {
            ERASE_RADIUS
        } else if s.w / 2 >= 1 {
            (s.w / 2) as i32
        } else {
            1
        }
    }

    /// Adds the sample's point to the stroke in progress.
    fn add_point(&mut self, s: PenSample, at: (i32, i32), rect: Rect)
        requires
            old(self)@.active is Some,
            old(self)@.zoom > 0,
            in_band(s.y as int),
            at == (clamped_x(s.x as int) as i32, s.y),
        ensures
            final(self)@ == (Board {
                active: Some(old(self)@.active->0.push(old(self)@.captured(s))),
                last: Some(at),
                dirty: Some(grown(old(self)@.dirty, rect)),
                ..old(self)@
            }),
    {
        let erase: bool = s.erase || self.eraser;
        let width: u32 = if erase {
            (ERASE_RADIUS * 2) as u32
        } else {
            s.w as u32
        };
        let pt: InkPoint = InkPoint {
            x: capture_x(at.0, self.zoom),
            y: capture_y(at.1, self.scroll, self.zoom),
            w: capture_w(width, self.zoom),
            start: s.down || self.last.is_none(),
            erase,
        };
        match self.active.take() {
            Some(st) => {
                let mut st: Vec<InkPoint> = st;
                st.push(pt);
                self.active = Some(st);
            },
            None => {},
        }
        self.last = Some(at);
        self.dirty = Some(grow(self.dirty, rect));
    }

    /// Takes one pen sample: draws its segment into the ink and brings the touched
    /// part of the framebuffer up to date. The refresh is left to `flush_ink`.
    pub fn ink_sample(&mut self, s: PenSample, shm: &mut [u8])
        requires
            old(self)@.valid(),
            old(shm)@.len() >= PIXELS * 3,
        ensures
            final(self)@.valid(),
            final(self)@ == old(self)@.sampled(s, final(self)@.ink),
            old(self)@.inked(s, final(self)@.ink),
            in_step(old(self)@) && continues(old(self)@, s) ==> in_step(final(self)@),
            same_tail(final(shm)@, old(shm)@, PIXELS * 3),
            !old(self)@.draws(s) ==> final(shm)@ == old(shm)@,
            old(self)@.draws(s) ==> forall|x: int, y: int|
                in_panel(x, y) ==> #[trigger] rgb_at(final(shm)@, x, y) == (if old(
                    self,
                )@.touched(s).has(x, y) {
                    shade(rgba_at(old(self)@.base, x, y), cov_at(final(self)@.ink, x, y))
                } else {
                    rgb_at(old(shm)@, x, y)
                }),
            shows(old(shm)@, old(self)@.base, old(self)@.ink) ==> shows(
                final(shm)@,
                final(self)@.base,
                final(self)@.ink,
            ),
    {
        let ghost before = self@;
        if s.up {
            self.end_stroke();
            proof {
                lemma_stays_in_step(before, s, self@);
            }
            return;
        }
        self.join_stroke(s);
        if !in_card(s.y) {
            self.last = None;
            proof {
                assert(self@ =~= before.sampled(s, self@.ink));
                lemma_stays_in_step(before, s, self@);
            }
            return;
        }
        let erasing: bool = s.erase || self.eraser;
        let (x, y): (i32, i32) = (column(s.x), s.y);
        let r: i32 = self.radius(s);
        let (fx, fy): (i32, i32) = match self.last {
            Some(p) => p,
            None => (x, y),
        };
        segment_ink(&mut self.ink, fx, fy, x, y, r, erasing);
        let rect: Rect = touch(fx, fy, x, y, r + 1);
        assert(rect == before.touched(s));
        show_rect(
            shm,
            &self.base,
            &self.ink,
            rect.x0 as usize,
            rect.y0 as usize,
            rect.x1 as usize + 1,
            rect.y1 as usize + 1,
        );
        self.add_point(s, (x, y), rect);
        proof {
            assert(before.inked(s, self@.ink));
            lemma_sampled_valid(before, s, self@.ink);
            assert(self@ =~= before.sampled(s, self@.ink));
            lemma_stays_in_step(before, s, self@);
            if shows(old(shm)@, before.base, before.ink) {
                lemma_shows_kept(before, s, self@.ink, old(shm)@, shm@);
            }
        }
    }

    /// The refresh that would show what was inked since the last flush, in the
    /// fastest mode; nothing when nothing was inked. The region stays pending until
    /// `ink_flushed` says that the request went out.
    pub fn flush_ink(&self) -> (r: Option<Refresh>)
        requires
            self@.valid(),
        ensures
            r == (match self@.dirty {
                Some(d) => Some(Refresh { mode: REFRESH_MODE_ANIMATE, update: d.update() }),
                None => None,
            }),
    {
        match self.dirty {
            Some(d) => Some(Refresh { mode: REFRESH_MODE_ANIMATE, update: d.request() }),
            None => None,
        }
    }

    /// Takes note of whether the refresh of `flush_ink` was sent: if so, the
    /// region waits for its colour; if not, it stays to be flushed again.
    pub fn ink_flushed(&mut self, sent: bool)
        requires
            old(self)@.valid(),
        ensures
            final(self)@.valid(),
            final(self)@ == (match old(self)@.dirty {
                Some(d) if sent => Board {
                    dirty: None,
                    settle: Some(grown(old(self)@.settle, d)),
                    ..old(self)@
                },
                _ => old(self)@,
            }),
    {
        match self.dirty {
            Some(d) => {
                if sent {
                    self.settle = Some(grow(self.settle, d));
                    self.dirty = None;
                }
            },
            None => {},
        }
    }

    /// Ink waits to be flushed.
    pub fn has_pending_ink(&self) -> (b: bool)
        ensures
            b == self@.dirty is Some,
    {
        self.dirty.is_some()
    }

    /// A region waits for its colour.
    pub fn needs_settle(&self) -> (b: bool)
        ensures
            b == self@.settle is Some,
    {
        self.settle.is_some()
    }

    /// The refresh in colour of the region that waits for it, and of nothing else.
    pub fn settle_color(&mut self) -> (r: Option<Refresh>)
        requires
            old(self)@.valid(),
        ensures
            final(self)@.valid(),
            final(self)@ == (Board { settle: None, ..old(self)@ }),
            r == (match old(self)@.settle {
                Some(d) => Some(Refresh { mode: REFRESH_MODE_CONTENT, update: d.update() }),
                None => None,
            }),
    {
        match self.settle.take() {
            Some(d) => Some(Refresh { mode: REFRESH_MODE_CONTENT, update: d.request() }),
            None => None,
        }
    }

    /// A stroke is in progress.
    pub fn is_inking(&self) -> (b: bool)
        ensures
            b == self@.active is Some,
    {
        self.active.is_some()
    }
}

impl Default for Whiteboard {
    fn default() -> (w: Self)
        ensures
            w@.valid(),
            forall|i: int| 0 <= i < PIXELS * 4 ==> #[trigger] w@.base[i] == 255,
            blank(w@.ink),
            w@ == (Board {
                base: w@.base,
                ink: w@.ink,
                strokes: Seq::empty(),
                active: None,
                last: None,
                scroll: 0,
                zoom: ZOOM_ONE,
                dirty: None,
                settle: None,
                eraser: false,
            }),
    {
        Whiteboard::new()
    }
}

/// Brings a column onto the panel.
fn column(x: i32) -> (c: i32)
    ensures
        c == clamped_x(x as int),
{
    if x < 0 {
        0
    } else if x >= WIDTH as i32 {
        (WIDTH - 1) as i32
    } else {
        x
    }
}

/// The rectangle around a segment, padded and clipped to the card band.
fn touch(fx: i32, fy: i32, x: i32, y: i32, pad: i32) -> (r: Rect)
    requires
        0 <= fx < WIDTH,
        0 <= x < WIDTH,
        in_band(fy as int),
        in_band(y as int),
        0 < pad < 1000,
    ensures
        r.in_card(),
        r.x0 == (if fx <= x {
            if fx >= pad {
                fx - pad
            } else {
                0
            }
        } else if x >= pad {
            x - pad
        } else {
            0
        }),
        r.y0 == (if fy <= y {
            if fy - pad >= CARD_Y {
                fy - pad
            } else {
                CARD_Y as int
            }
        } else if y - pad >= CARD_Y {
            y - pad
        } else {
            CARD_Y as int
        }),
        r.x1 == (if fx <= x {
            if x + pad < WIDTH {
                x + pad
            } else {
                WIDTH - 1
            }
        } else if fx + pad < WIDTH {
            fx + pad
        } else {
            WIDTH - 1
        }),
        r.y1 == (if fy <= y {
            if y + pad < CARD_Y + CARD_H {
                y + pad
            } else {
                CARD_Y + CARD_H - 1
            }
        } else if fy + pad < CARD_Y + CARD_H {
            fy + pad
        } else {
            CARD_Y + CARD_H - 1
        }),
{
    let (left, right): (i32, i32) = if fx <= x {
        (fx - pad, x + pad)
    } else {
        (x - pad, fx + pad)
    };
    let (top, bottom): (i32, i32) = if fy <= y {
        (fy - pad, y + pad)
    } else {
        (y - pad, fy + pad)
    };
    Rect {
        x0: if left >= 0 {
            left
        } else {
            0
        },
        y0: if top >= CARD_Y as i32 {
            top
        } else {
            CARD_Y as i32
        },
        x1: if right < WIDTH as i32 {
            right
        } else {
            (WIDTH - 1) as i32
        },
        y1: if bottom < (CARD_Y + CARD_H) as i32 {
            bottom
        } else {
            (CARD_Y + CARD_H - 1) as i32
        },
    }
}

proof fn lemma_blank_two_valued(ink: Seq<u8>)
    requires
        blank(ink),
    ensures
        two_valued(ink),
        confined(ink),
{
    assert forall|x: int, y: int| in_panel(x, y) implies #[trigger] cov_at(ink, x, y) == 0 by {
        lemma_cell_inside(x, y, HEIGHT as int);
    }
}

proof fn lemma_stroke_value(
    pts: Seq<InkPoint>,
    n: int,
    below: u8,
    scroll: int,
    zoom: int,
    x: int,
    y: int,
)
    ensures
        stroke_over(pts, n, below, scroll, zoom, x, y) == below || stroke_over(
            pts,
            n,
            below,
            scroll,
            zoom,
            x,
            y,
        ) == 0 || stroke_over(pts, n, below, scroll, zoom, x, y) == 255,
        !in_band(y) ==> stroke_over(pts, n, below, scroll, zoom, x, y) == below,
    decreases n,
{
    if n > 0 {
        lemma_stroke_value(pts, n - 1, below, scroll, zoom, x, y);
    }
}

proof fn lemma_replayed_value(
    strokes: Seq<Seq<InkPoint>>,
    scroll: int,
    zoom: int,
    x: int,
    y: int,
)
    ensures
        replayed(strokes, scroll, zoom, x, y) == 0 || replayed(strokes, scroll, zoom, x, y) == 255,
        !in_band(y) ==> replayed(strokes, scroll, zoom, x, y) == 0,
    decreases strokes.len(),
{
    if strokes.len() > 0 {
        lemma_replayed_value(strokes.drop_last(), scroll, zoom, x, y);
        lemma_stroke_value(
            strokes.last(),
            strokes.last().len() as int,
            replayed(strokes.drop_last(), scroll, zoom, x, y),
            scroll,
            zoom,
            x,
            y,
        );
    }
}

proof fn lemma_replayed_two_valued(
    ink: Seq<u8>,
    strokes: Seq<Seq<InkPoint>>,
    scroll: int,
    zoom: int,
)
    requires
        ink_is(ink, strokes, scroll, zoom),
    ensures
        two_valued(ink),
        confined(ink),
{
    assert forall|x: int, y: int| in_panel(x, y) implies #[trigger] cov_at(ink, x, y) == 0
        || cov_at(ink, x, y) == 255 by {
        lemma_replayed_value(strokes, scroll, zoom, x, y);
    }
    assert forall|x: int, y: int| in_panel(x, y) && !in_band(y) implies #[trigger] cov_at(
        ink,
        x,
        y,
    ) == 0 by {
        lemma_replayed_value(strokes, scroll, zoom, x, y);
    }
}

// -------------------------------------------------------------------- laws

/// The strokes, the scroll offset and the zoom determine the ink: two layers
/// drawn from the same strokes through the same view are the same. So taking back
/// a stroke leaves what was there before it, and scrolling or zooming away and
/// back changes nothing.
pub proof fn law_strokes_determine_ink(
    a: Seq<u8>,
    b: Seq<u8>,
    strokes: Seq<Seq<InkPoint>>,
    scroll: int,
    zoom: int,
)
    requires
        ink_is(a, strokes, scroll, zoom),
        ink_is(b, strokes, scroll, zoom),
    ensures
        a == b,
{
    assert forall|i: int| 0 <= i < PIXELS implies a[i] == b[i] by {
        let (x, y) = (i % (WIDTH as int), i / (WIDTH as int));
        assert(in_panel(x, y) && cell(x, y) == i) by {
            assert(PIXELS == 3_499_200);
        }
        assert(cov_at(a, x, y) == replayed(strokes, scroll, zoom, x, y));
        assert(cov_at(b, x, y) == replayed(strokes, scroll, zoom, x, y));
    }
    assert(a =~= b);
}

/// Ending a stroke changes neither the ink nor what drawing the strokes gives.
pub proof fn law_ending_keeps_strokes(b: Board)
    ensures
        b.ended().all_strokes() == b.all_strokes(),
        b.ended().ink == b.ink,
{
}

/// The ink is what drawing all strokes of the board gives, the one in progress
/// too.
pub open spec fn in_step(b: Board) -> bool {
    ink_is(b.ink, b.all_strokes(), b.scroll as int, b.zoom as int)
}

/// The sample drops no unfinished stroke: a pen that touches down has been lifted
/// before.
pub open spec fn continues(b: Board, s: PenSample) -> bool {
    s.down && !s.up ==> (b.active matches Some(st) ==> st.len() == 0)
}

/// Live inking and drawing the strokes anew agree pixel by pixel, at every scroll
/// offset and zoom: a sample that drops no stroke keeps the ink in step with the
/// strokes, also where the stroke leaves the card band and comes back, and where the
/// eraser is switched on its way.
pub proof fn law_live_ink_matches_replay(b: Board, s: PenSample, after: Board)
    requires
        b.valid(),
        in_step(b),
        continues(b, s),
        after == b.sampled(s, after.ink),
        b.inked(s, after.ink),
    ensures
        in_step(after),
{
    let (scroll, zoom) = (b.scroll as int, b.zoom as int);
    if !b.draws(s) {
        assert(after.all_strokes() =~= b.all_strokes());
    } else {
        lemma_sample_in_place(b, s);
        let pts = b.joined(s);
        let n = pts.len() as int;
        let new = pts.push(b.captured(s));
        let all = after.all_strokes();
        assert(all.drop_last() =~= b.strokes);
        assert(all.last() == new);
        assert forall|x: int, y: int| in_panel(x, y) implies #[trigger] cov_at(after.ink, x, y)
            == replayed(all, scroll, zoom, x, y) by {
            let (from, to) = (b.from(s), (clamped_x(s.x as int), s.y as int));
            assert(piece_covers(new, n, scroll, zoom, x, y) == segment_covers(
                from.0,
                from.1,
                to.0,
                to.1,
                b.brush(s),
                x,
                y,
            ));
            let below = replayed(b.strokes, scroll, zoom, x, y);
            lemma_stroke_front(pts, new, n, below, scroll, zoom, x, y);
            assert(cov_at(b.ink, x, y) == replayed(b.all_strokes(), scroll, zoom, x, y));
            if n > 0 {
                assert(b.all_strokes().drop_last() =~= b.strokes);
                assert(b.all_strokes().last() == pts);
            } else {
                assert(b.all_strokes() =~= b.strokes);
            }
        }
    }
}

proof fn lemma_stays_in_step(b: Board, s: PenSample, after: Board)
    requires
        b.valid(),
        after == b.sampled(s, after.ink),
        b.inked(s, after.ink),
    ensures
        in_step(b) && continues(b, s) ==> in_step(after),
{
    if in_step(b) && continues(b, s) {
        law_live_ink_matches_replay(b, s, after);
    }
}

/// A sample's point, and the one before it, are drawn anew where they were drawn.
proof fn lemma_sample_in_place(b: Board, s: PenSample)
    requires
        b.valid(),
        b.draws(s),
    ensures
        ({
            let (scroll, zoom) = (b.scroll as int, b.zoom as int);
            let c = b.captured(s);
            &&& shown_x(c.x as int, zoom) == clamped_x(s.x as int)
            &&& shown_y(c.y as int, scroll, zoom) == s.y
            &&& shown_r(c.w as int, zoom) == b.brush(s)
            &&& b.last matches Some(p) ==> {
                let before = b.active->0.last();
                &&& shown_x(before.x as int, zoom) == p.0
                &&& shown_y(before.y as int, scroll, zoom) == p.1
            }
        }),
{
    let (scroll, zoom) = (b.scroll as int, b.zoom as int);
    let w = if b.erases(s) {
        (ERASE_RADIUS * 2) as int
    } else {
        s.w as int
    };
    lemma_captured_range(clamped_x(s.x as int), s.y as int, w, scroll, zoom);
    lemma_kept_in_place(clamped_x(s.x as int), s.y as int, w, scroll, zoom);
    if b.last is Some {
        let p = b.last->0;
        lemma_kept_in_place(p.0 as int, p.1 as int, 0, scroll, zoom);
    }
}

/// Points behind the first `n` do not matter to them.
proof fn lemma_stroke_front(
    a: Seq<InkPoint>,
    b: Seq<InkPoint>,
    n: int,
    below: u8,
    scroll: int,
    zoom: int,
    x: int,
    y: int,
)
    requires
        n <= a.len(),
        n <= b.len(),
        forall|k: int| 0 <= k < n ==> #[trigger] a[k] == b[k],
    ensures
        stroke_over(a, n, below, scroll, zoom, x, y) == stroke_over(
            b,
            n,
            below,
            scroll,
            zoom,
            x,
            y,
        ),
    decreases n,
{
    if n > 0 {
        lemma_stroke_front(a, b, n - 1, below, scroll, zoom, x, y);
        assert(a[n - 1] == b[n - 1]);
        if n > 1 {
            assert(a[n - 2] == b[n - 2]);
        }
    }
}

/// A clean board without strokes is in step.
pub proof fn law_clean_board_in_step(b: Board)
    requires
        blank(b.ink),
        b.all_strokes().len() == 0,
    ensures
        in_step(b),
{
    lemma_blank_is_empty(b.ink, b.scroll as int, b.zoom as int);
    assert(b.all_strokes() =~= Seq::empty());
}

/// `after` is the board once the sample has come.
pub open spec fn steps_to(b: Board, s: PenSample, after: Board) -> bool {
    after == b.sampled(s, after.ink) && b.inked(s, after.ink)
}

/// The boards are those that the samples lead through, from the first on.
pub open spec fn run_of(boards: Seq<Board>, samples: Seq<PenSample>) -> bool {
    &&& boards.len() == samples.len() + 1
    &&& forall|i: int|
        #![trigger boards[i]]
        0 <= i < samples.len() ==> steps_to(boards[i], samples[i], boards[i + 1])
}

/// The pen touches down only at the start and where it has been lifted.
pub open spec fn well_lifted(samples: Seq<PenSample>) -> bool {
    forall|i: int|
        #![trigger samples[i]]
        0 < i < samples.len() && samples[i].down && !samples[i].up ==> samples[i - 1].up
}

/// Every sample leaves a valid board.
pub proof fn law_samples_keep_order(b: Board, s: PenSample, after: Board)
    requires
        b.valid(),
        steps_to(b, s, after),
    ensures
        after.valid(),
{
    if b.draws(s) {
        lemma_sampled_valid(b, s, after.ink);
    }
}

/// Strokes are drawn anew pixel by pixel as they were drawn live: after any run of
/// samples the ink is what drawing all strokes gives. Once the pen is lifted, any
/// layer drawn from the board's strokes through its view is its very ink.
pub proof fn law_run_matches_replay(boards: Seq<Board>, samples: Seq<PenSample>)
    requires
        run_of(boards, samples),
        well_lifted(samples),
        boards[0].valid(),
        boards[0].active is None,
        in_step(boards[0]),
    ensures
        boards.last().valid(),
        in_step(boards.last()),
        samples.len() > 0 && samples.last().up ==> boards.last().active is None && forall|
            ink: Seq<u8>,
        | #[trigger]
            ink_is(
                ink,
                boards.last().strokes,
                boards.last().scroll as int,
                boards.last().zoom as int,
            ) ==> ink == boards.last().ink,
    decreases samples.len(),
{
    if samples.len() > 0 {
        let n = samples.len() - 1;
        let (b, s, after) = (boards[n], samples[n], boards[n + 1]);
        let front = samples.drop_last();
        assert forall|i: int|
            #![trigger front[i]]
            0 < i < front.len() && front[i].down && !front[i].up implies front[i - 1].up by {
            assert(samples[i] == front[i]);
        }
        assert forall|i: int|
            #![trigger boards.drop_last()[i]]
            0 <= i < front.len() implies steps_to(
            boards.drop_last()[i],
            front[i],
            boards.drop_last()[i + 1],
        ) by {
            assert(steps_to(boards[i], samples[i], boards[i + 1]));
        }
        law_run_matches_replay(boards.drop_last(), front);
        assert(boards.drop_last().last() == b);
        assert(steps_to(b, s, after));
        assert(continues(b, s)) by {
            if n > 0 && s.down && !s.up {
                assert(front.last() == samples[n - 1]);
            }
        }
        law_samples_keep_order(b, s, after);
        law_live_ink_matches_replay(b, s, after);
        if s.up {
            assert forall|ink: Seq<u8>| #[trigger]
                ink_is(ink, after.strokes, after.scroll as int, after.zoom as int) implies ink
                == after.ink by {
                law_strokes_determine_ink(
                    ink,
                    after.ink,
                    after.strokes,
                    after.scroll as int,
                    after.zoom as int,
                );
            }
        }
    }
}

/// Scrolling or zooming away and back gives the ink back, pixel by pixel, and keeps
/// the strokes.
pub proof fn law_away_and_back(b: Board, away: Board, back: Board)
    requires
        in_step(b),
        away == (Board { scroll: away.scroll, zoom: away.zoom, ink: away.ink, ..b.ended() }),
        back == (Board { scroll: b.scroll, zoom: b.zoom, ink: back.ink, ..away.ended() }),
        ink_is(back.ink, back.strokes, back.scroll as int, back.zoom as int),
    ensures
        back.ink == b.ink,
        back.strokes == b.all_strokes(),
{
    law_strokes_determine_ink(
        back.ink,
        b.ink,
        b.all_strokes(),
        b.scroll as int,
        b.zoom as int,
    );
}

/// Rounding is off by half a step at most.
proof fn lemma_round_div(a: int, b: int)
    requires
        0 < b,
    ensures
        -b <= 2 * (round_div(a, b) * b - a) <= b,
{
    let m = if a >= 0 {
        a
    } else {
        -a
    };
    let q = (2 * m + b) / (2 * b);
    vstd::arithmetic::div_mod::lemma_fundamental_div_mod(2 * m + b, 2 * b);
    let p = q * b;
    assert(2 * b * q == 2 * p) by (nonlinear_arith)
        requires
            p == q * b,
    ;
    assert((-q) * b == -p) by (nonlinear_arith)
        requires
            p == q * b,
    ;
}

/// Ink stays on the column of the content that it was written on: captured at panel
/// column `x` under zoom `z0`, it is shown under zoom `z1` at the column nearest to
/// `x * z1 / z0`, to within a ten-millionth of a content pixel.
pub proof fn law_columns_follow_the_content(x: int, z0: int, z1: int)
    requires
        0 < z0,
        0 < z1,
    ensures
        ({
            let u = shown_x(captured_x(x, z0), z1);
            let off = u * z0 - x * z1;
            i32::MIN < u < i32::MAX ==> {
                &&& 10_000_000_000 * (2 * off - z0) <= z0 * z1
                &&& 10_000_000_000 * (-2 * off - z0) <= z0 * z1
            }
        }),
{
    let k = 10_000_000_000int;
    let c = captured_x(x, z0);
    let u = round_div(c * z1, k);
    lemma_round_div(x * k, z0);
    lemma_round_div(c * z1, k);
    let e = c * z0 - x * k;
    let d = u * k - c * z1;
    let off = u * z0 - x * z1;
    assert(k * off == z0 * d + e * z1) by (nonlinear_arith)
        requires
            e == c * z0 - x * k,
            d == u * k - c * z1,
            off == u * z0 - x * z1,
    ;
    assert(-(z0 * k) <= 2 * (z0 * d) <= z0 * k) by (nonlinear_arith)
        requires
            -k <= 2 * d <= k,
            0 < z0,
    ;
    assert(-(z0 * z1) <= 2 * (e * z1) <= z0 * z1) by (nonlinear_arith)
        requires
            -z0 <= 2 * e <= z0,
            0 < z1,
    ;
    assert(k * z0 == z0 * k) by (nonlinear_arith);
}

/// Ink stays on the row of the content that it was written on, when the card is
/// scrolled and when it is zoomed: captured at panel row `y` under scroll `s0` and zoom
/// `z0`, it is shown under scroll `s1` and zoom `z1` at the row nearest to
/// `110 + ((y - 110) / z0 + s0 - s1) * z1`, to within a ten-millionth of a content
/// pixel. Zoom is in thousandths, scroll in hundredths of a content pixel.
pub proof fn law_rows_follow_the_content(y: int, s0: int, z0: int, s1: int, z1: int)
    requires
        0 < z0,
        0 < z1,
    ensures
        ({
            let v = shown_y(captured_y(y, s0, z0), s1, z1);
            let off = 100_000 * z0 * (v - 110) - ((y - 110) * 100_000 + (s0 - s1) * z0) * z1;
            i32::MIN < v < i32::MAX ==> {
                &&& 100_000 * (2 * off - 100_000 * z0) <= z0 * z1
                &&& 100_000 * (-2 * off - 100_000 * z0) <= z0 * z1
            }
        }),
{
    let k = 10_000_000_000int;
    let h = 100_000int;
    let row = y - 110;
    let c0 = round_div(row * k, z0);
    let a = (c0 + s0 * h - s1 * h) * z1;
    let q = round_div(a, k);
    lemma_round_div(row * k, z0);
    lemma_round_div(a, k);
    let e = c0 * z0 - row * k;
    let d = q * k - a;
    let exact = (row * h + (s0 - s1) * z0) * z1;
    let off = h * z0 * q - exact;
    assert(a * z0 == (row * k + e) * z1 + (s0 - s1) * h * z0 * z1) by (nonlinear_arith)
        requires
            a == (c0 + s0 * h - s1 * h) * z1,
            e == c0 * z0 - row * k,
    ;
    let up = row * h * z1;
    let down = (s0 - s1) * z0 * z1;
    assert(exact == up + down) by (nonlinear_arith)
        requires
            exact == (row * h + (s0 - s1) * z0) * z1,
            up == row * h * z1,
            down == (s0 - s1) * z0 * z1,
    ;
    assert(h * up == row * k * z1) by (nonlinear_arith)
        requires
            up == row * h * z1,
            k == h * h,
    ;
    assert(h * down == (s0 - s1) * h * z0 * z1) by (nonlinear_arith)
        requires
            down == (s0 - s1) * z0 * z1,
    ;
    assert(h * exact == h * up + h * down) by (nonlinear_arith)
        requires
            exact == up + down,
    ;
    assert((row * k + e) * z1 == row * k * z1 + e * z1) by (nonlinear_arith);
    assert(a * z0 == h * exact + e * z1);
    assert(h * off == z0 * d + e * z1) by (nonlinear_arith)
        requires
            off == h * z0 * q - exact,
            d == q * k - a,
            a * z0 == h * exact + e * z1,
            k == h * h,
    ;
    assert(-(z0 * k) <= 2 * (z0 * d) <= z0 * k) by (nonlinear_arith)
        requires
            -k <= 2 * d <= k,
            0 < z0,
    ;
    assert(-(z0 * z1) <= 2 * (e * z1) <= z0 * z1) by (nonlinear_arith)
        requires
            -z0 <= 2 * e <= z0,
            0 < z1,
    ;
    assert(h * (h * z0) == z0 * k) by (nonlinear_arith)
        requires
            k == h * h,
    ;
    assert(captured_y(y, s0, z0) - s1 * h == c0 + s0 * h - s1 * h);
}

/// Ink grows and shrinks with the content: a stroke of width `w` under zoom `z0` is
/// drawn under zoom `z1` with half of the width `w * z1 / z0`, cut to whole pixels, and
/// at least one.
pub proof fn law_widths_follow_the_content(w: int, z0: int, z1: int)
    requires
        0 <= w,
        0 < z0,
        0 < z1,
    ensures
        ({
            let r = shown_r(captured_w(w, z0), z1);
            &&& 1 <= r
            &&& r < 1_000_000_000 ==> w * z1 < (2 * r + 2) * z0
            &&& 1 < r < 1_000_000_000 ==> 10_000_000_000 * (2 * r * z0 - w * z1) < z0 * z1
        }),
{
    let k = 10_000_000_000int;
    let a = w * k + z0 - 1;
    let c = a / z0;
    vstd::arithmetic::div_mod::lemma_fundamental_div_mod(a, z0);
    let p = c * z0;
    assert(z0 * c == p) by (nonlinear_arith)
        requires
            p == c * z0,
    ;
    assert(w * k <= p < w * k + z0);
    let b = c * z1;
    let t = b / k;
    vstd::arithmetic::div_mod::lemma_fundamental_div_mod(b, k);
    assert(k * t <= b < k * t + k);
    assert(0 <= c) by (nonlinear_arith)
        requires
            p == c * z0,
            0 <= w * k <= p,
            0 < z0,
    ;
    assert(0 <= b) by (nonlinear_arith)
        requires
            b == c * z1,
            0 <= c,
            0 < z1,
    ;
    assert(b * z0 == p * z1) by (nonlinear_arith)
        requires
            b == c * z1,
            p == c * z0,
    ;
    assert(w * k * z1 <= p * z1 < w * k * z1 + z0 * z1) by (nonlinear_arith)
        requires
            w * k <= p < w * k + z0,
            0 < z1,
    ;
    assert(k * (t * z0) <= b * z0 < k * (t * z0 + z0)) by (nonlinear_arith)
        requires
            k * t <= b < k * t + k,
            0 < z0,
    ;
    assert(w * k * z1 == k * (w * z1)) by (nonlinear_arith);
    assert(w * z1 < t * z0 + z0);
    assert(k * (t * z0 - w * z1) < z0 * z1);
    let r = shown_r(captured_w(w, z0), z1);
    assert(0 <= t);
    if r < 1_000_000_000 {
        assert(t <= 2 * r + 1);
        assert(t * z0 + z0 <= (2 * r + 2) * z0) by (nonlinear_arith)
            requires
                t <= 2 * r + 1,
                0 < z0,
        ;
        if 1 < r {
            assert(2 * r <= t);
            assert(2 * r * z0 <= t * z0) by (nonlinear_arith)
                requires
                    2 * r <= t,
                    0 < z0,
            ;
        }
    }
}

/// The point that a sample adds is that of the pen: its column, brought onto the panel,
/// and its row, with its width, or the eraser's of 52 pixels, under the board's view.
pub proof fn law_sample_is_captured_where_it_is(b: Board, s: PenSample)
    requires
        b.valid(),
        b.draws(s),
    ensures
        ({
            let c = b.captured(s);
            let x = if s.x < 0 {
                0
            } else if s.x > 1619 {
                1619
            } else {
                s.x as int
            };
            let w = if s.erase || b.eraser {
                52
            } else {
                s.w as int
            };
            &&& c.x == captured_x(x, b.zoom as int)
            &&& c.y == captured_y(s.y as int, b.scroll as int, b.zoom as int)
            &&& c.w == captured_w(w, b.zoom as int)
            &&& c.erase == (s.erase || b.eraser)
            &&& c.start == (s.down || b.active is None || b.last is None)
        }),
{
    let w = if b.erases(s) {
        52
    } else {
        s.w as int
    };
    lemma_captured_range(
        clamped_x(s.x as int),
        s.y as int,
        w,
        b.scroll as int,
        b.zoom as int,
    );
}

/// A sample draws a line from the one before it, or a dot where none leads to it: full
/// ink where it covers, none where it erases, and every other pixel stays. The radius
/// is half the pen's width, at least one, and 26 for the eraser.
pub proof fn law_sample_draws_its_line(b: Board, s: PenSample, ink: Seq<u8>, u: int, v: int)
    requires
        b.draws(s),
        b.inked(s, ink),
        in_panel(u, v),
    ensures
        ({
            let x = if s.x < 0 {
                0
            } else if s.x > 1619 {
                1619
            } else {
                s.x as int
            };
            let erasing = s.erase || b.eraser;
            let r = if erasing {
                26
            } else if s.w < 2 {
                1
            } else {
                s.w as int / 2
            };
            let from = if s.down || b.active is None || b.last is None {
                (x, s.y as int)
            } else {
                ((b.last->0).0 as int, (b.last->0).1 as int)
            };
            cov_at(ink, u, v) == (if segment_covers(from.0, from.1, x, s.y as int, r, u, v) {
                if erasing {
                    0u8
                } else {
                    255u8
                }
            } else {
                cov_at(b.ink, u, v)
            })
        }),
{
}

/// A sample inside the card band joins the stroke in progress, or begins one, and the
/// next line starts from it. One outside breaks the line and draws nothing. Lifting the
/// pen finishes the stroke, if it has a point.
pub proof fn law_samples_build_strokes(b: Board, s: PenSample, after: Board)
    requires
        b.valid(),
        steps_to(b, s, after),
    ensures
        s.up ==> after.active is None && after.last is None && after.ink == b.ink,
        s.up ==> after.strokes == (match b.active {
            Some(st) if st.len() > 0 => b.strokes.push(st),
            _ => b.strokes,
        }),
        !s.up ==> after.strokes == b.strokes && after.active is Some,
        !s.up && !(110 <= s.y < 1920) ==> after.ink == b.ink && after.last is None,
        !s.up && !(110 <= s.y < 1920) ==> after.active->0 == (if s.down || b.active is None {
            Seq::<InkPoint>::empty()
        } else {
            b.active->0
        }),
        !s.up && 110 <= s.y < 1920 ==> after.active->0 == (if s.down || b.active is None {
            Seq::<InkPoint>::empty()
        } else {
            b.active->0
        }).push(b.captured(s)),
        !s.up && 110 <= s.y < 1920 ==> after.last == Some(
            (
                if s.x < 0 {
                    0i32
                } else if s.x > 1619 {
                    1619i32
                } else {
                    s.x
                },
                s.y,
            ),
        ),
        after.base == b.base && after.scroll == b.scroll && after.zoom == b.zoom && after.eraser
            == b.eraser,
{
}

/// Drawing strokes anew draws their points one by one: a point draws the line from the
/// point before it, or a dot where it starts a part, through the present view, over all
/// that was drawn before.
pub proof fn law_replay_draws_point_by_point(
    strokes: Seq<Seq<InkPoint>>,
    pts: Seq<InkPoint>,
    p: InkPoint,
    scroll: int,
    zoom: int,
    x: int,
    y: int,
)
    ensures
        ({
            let from = if pts.len() == 0 || p.start {
                p
            } else {
                pts.last()
            };
            let covers = segment_covers(
                shown_x(from.x as int, zoom),
                shown_y(from.y as int, scroll, zoom),
                shown_x(p.x as int, zoom),
                shown_y(p.y as int, scroll, zoom),
                shown_r(p.w as int, zoom),
                x,
                y,
            );
            &&& replayed(Seq::empty(), scroll, zoom, x, y) == 0
            &&& replayed(strokes.push(Seq::empty()), scroll, zoom, x, y) == replayed(
                strokes,
                scroll,
                zoom,
                x,
                y,
            )
            &&& covers && p.erase ==> replayed(strokes.push(pts.push(p)), scroll, zoom, x, y) == 0
            &&& covers && !p.erase ==> replayed(strokes.push(pts.push(p)), scroll, zoom, x, y)
                == 255
            &&& !covers ==> replayed(strokes.push(pts.push(p)), scroll, zoom, x, y) == replayed(
                strokes.push(pts),
                scroll,
                zoom,
                x,
                y,
            )
        }),
{
    let none = strokes.push(Seq::<InkPoint>::empty());
    let before = strokes.push(pts);
    let after = strokes.push(pts.push(p));
    assert(none.drop_last() =~= strokes);
    assert(before.drop_last() =~= strokes);
    assert(after.drop_last() =~= strokes);
    let n = pts.len() as int;
    let below = replayed(strokes, scroll, zoom, x, y);
    lemma_stroke_front(pts, pts.push(p), n, below, scroll, zoom, x, y);
    if n > 0 {
        assert(pts.push(p)[n - 1] == pts.last());
    }
    assert(pts.push(p)[n] == p);
}

/// Taking back the last stroke gives the ink that was there before it.
pub proof fn law_undo_gives_the_ink_back(b: Board, after: Board, undone: Board)
    requires
        in_step(b),
        b.active is None,
        after.strokes.len() == b.strokes.len() + 1,
        after.strokes.drop_last() == b.strokes,
        after.scroll == b.scroll,
        after.zoom == b.zoom,
        ink_is(
            undone.ink,
            after.strokes.drop_last(),
            after.scroll as int,
            after.zoom as int,
        ),
    ensures
        undone.ink == b.ink,
{
    law_strokes_determine_ink(
        undone.ink,
        b.ink,
        b.strokes,
        b.scroll as int,
        b.zoom as int,
    );
}

/// Ink darkens what is below: none leaves it, full ink makes it black, and between them
/// it keeps the part that is not covered.
pub proof fn law_ink_darkens(base: u8, cov: u8)
    ensures
        darkened(base, 0) == base,
        darkened(base, 255) == 0,
        255 * darkened(base, cov) <= base * (255 - cov) < 255 * (darkened(base, cov) + 1),
{
    let p = base * (255 - cov);
    assert(0 <= p <= 255 * 255) by (nonlinear_arith)
        requires
            p == base * (255 - cov),
            0 <= base <= 255,
            0 <= cov <= 255,
    ;
    assert(base * (255 - 0) == 255 * base) by (nonlinear_arith);
    assert(base * (255 - 255) == 0) by (nonlinear_arith);
}

/// The panel shows the board: black where there is ink, and the composed frame's red,
/// green and blue where there is none.
pub proof fn law_panel_shows_base_and_ink(
    shm: Seq<u8>,
    base: Seq<u8>,
    ink: Seq<u8>,
    x: int,
    y: int,
)
    requires
        shows(shm, base, ink),
        0 <= x < 1620,
        0 <= y < 2160,
    ensures
        ({
            let n = y * 1620 + x;
            &&& ink[n] == 255 ==> shm[3 * n] == 0 && shm[3 * n + 1] == 0 && shm[3 * n + 2] == 0
            &&& ink[n] == 0 ==> shm[3 * n] == base[4 * n] && shm[3 * n + 1] == base[4 * n + 1]
                && shm[3 * n + 2] == base[4 * n + 2]
        }),
{
    assert(rgb_at(shm, x, y) == shade(rgba_at(base, x, y), cov_at(ink, x, y)));
    law_ink_darkens(base[4 * (y * 1620 + x)], 0);
    law_ink_darkens(base[4 * (y * 1620 + x) + 1], 0);
    law_ink_darkens(base[4 * (y * 1620 + x) + 2], 0);
}

/// Every pixel that a sample inks lies in the region that it asks to be shown.
pub proof fn law_touched_region_holds_the_ink(
    b: Board,
    s: PenSample,
    ink: Seq<u8>,
    x: int,
    y: int,
)
    requires
        b.valid(),
        b.draws(s),
        b.inked(s, ink),
        in_panel(x, y),
        cov_at(ink, x, y) != cov_at(b.ink, x, y),
    ensures
        b.touched(s).x0 <= x <= b.touched(s).x1,
        b.touched(s).y0 <= y <= b.touched(s).y1,
        ({
            let after = b.sampled(s, ink);
            &&& (after.dirty->0).x0 <= x <= (after.dirty->0).x1
            &&& (after.dirty->0).y0 <= y <= (after.dirty->0).y1
        }),
{
    lemma_touched(b, s, x, y);
}

/// A region that grew holds both, and nothing that it need not hold.
pub proof fn law_regions_grow_together(a: Rect, b: Rect)
    ensures
        ({
            let g = grown(Some(a), b);
            &&& grown(None, b) == b
            &&& g.x0 <= a.x0 && g.y0 <= a.y0 && g.x1 >= a.x1 && g.y1 >= a.y1
            &&& g.x0 <= b.x0 && g.y0 <= b.y0 && g.x1 >= b.x1 && g.y1 >= b.y1
            &&& g.x0 == a.x0 || g.x0 == b.x0
            &&& g.y0 == a.y0 || g.y0 == b.y0
            &&& g.x1 == a.x1 || g.x1 == b.x1
            &&& g.y1 == a.y1 || g.y1 == b.y1
        }),
{
}

/// The request for a region names its corner and its size, both corners included; a
/// full refresh asks for everything in the clean mode.
pub proof fn law_refresh_names_its_region(r: Rect)
    requires
        r.in_card(),
    ensures
        r.update() == (ClientMessage::Update {
            msg_type: 1,
            x: r.x0,
            y: r.y0,
            w: (r.x1 - r.x0 + 1) as i32,
            h: (r.y1 - r.y0 + 1) as i32,
        }),
        clean_refresh() == (Refresh {
            mode: 3,
            update: (ClientMessage::Update { msg_type: 0, x: 0, y: 0, w: 0, h: 0 }),
        }),
        band_rect() == (Rect { x0: 0, y0: 110, x1: 1619, y1: 1919 }),
{
}

} // verus!
