//! Thick lines on the ink coverage layer.
//!
//! A pen segment is a run of filled discs stamped from one end to the other. Ink
//! never leaves the card band: a pixel above or below it keeps its coverage.

use vstd::prelude::*;

use crate::frame::{cov_at, in_band, in_panel, CARD_H, CARD_Y, PIXELS, WIDTH};
use crate::frame::{lemma_cell_inside, lemma_cells_differ};

verus! {

/// Coverage that a stamp leaves: full for the pen, none for the eraser.
pub open spec fn ink_value(erase: bool) -> u8 {
    if erase {
        0
    } else {
        255
    }
}

/// `(x, y)` lies in the filled disc of radius `r` around `(cx, cy)`.
pub open spec fn in_disc(cx: int, cy: int, r: int, x: int, y: int) -> bool {
    (x - cx) * (x - cx) + (y - cy) * (y - cy) <= r * r
}

/// The point `i/n` of the way from `a` to `b`, truncated toward `a`.
pub open spec fn toward(a: int, b: int, i: int, n: int) -> int {
    if b >= a {
        a + ((b - a) * i) / n
    } else {
        a - ((a - b) * i) / n
    }
}

/// Distance between two numbers.
pub open spec fn gap(a: int, b: int) -> int {
    if a <= b {
        b - a
    } else {
        a - b
    }
}

/// Number of steps of the segment: the longer of its two extents, at least one.
pub open spec fn steps(x0: int, y0: int, x1: int, y1: int) -> int {
    if gap(x0, x1) >= gap(y0, y1) && gap(x0, x1) >= 1 {
        gap(x0, x1)
    } else if gap(y0, y1) >= 1 {
        gap(y0, y1)
    } else {
        1
    }
}

/// The disc stamped at step `i` of the segment covers `(x, y)`.
pub open spec fn step_covers(
    x0: int,
    y0: int,
    x1: int,
    y1: int,
    r: int,
    i: int,
    x: int,
    y: int,
) -> bool {
    in_disc(
        toward(x0, x1, i, steps(x0, y0, x1, y1)),
        toward(y0, y1, i, steps(x0, y0, x1, y1)),
        r,
        x,
        y,
    )
}

/// The thick segment from `(x0, y0)` to `(x1, y1)` covers pixel `(x, y)` of the
/// card band.
pub open spec fn segment_covers(
    x0: int,
    y0: int,
    x1: int,
    y1: int,
    r: int,
    x: int,
    y: int,
) -> bool {
    in_band(y) && exists|i: int|
        0 <= i <= steps(x0, y0, x1, y1) && #[trigger] step_covers(x0, y0, x1, y1, r, i, x, y)
}

/// A pixel farther than `r` from the centre along one axis is outside the disc.
pub proof fn lemma_outside_disc(cx: int, cy: int, r: int, x: int, y: int)
    requires
        0 <= r,
        gap(cx, x) > r || gap(cy, y) > r,
    ensures
        !in_disc(cx, cy, r, x, y),
{
    let dx = gap(cx, x);
    let dy = gap(cy, y);
    assert((x - cx) * (x - cx) == dx * dx) by (nonlinear_arith)
        requires
            dx == x - cx || dx == cx - x,
    ;
    assert((y - cy) * (y - cy) == dy * dy) by (nonlinear_arith)
        requires
            dy == y - cy || dy == cy - y,
    ;
    if dx > r {
        assert(dx * dx + dy * dy > r * r) by (nonlinear_arith)
            requires
                dx > r,
                r >= 0,
        ;
    } else {
        assert(dx * dx + dy * dy > r * r) by (nonlinear_arith)
            requires
                dy > r,
                r >= 0,
        ;
    }
}

/// A point of a segment lies between its ends, and both ends are reached.
pub proof fn lemma_toward(a: int, b: int, i: int, n: int)
    requires
        0 <= i <= n,
        1 <= n,
    ensures
        a <= b ==> a <= toward(a, b, i, n) <= b,
        b <= a ==> b <= toward(a, b, i, n) <= a,
        toward(a, b, 0, n) == a,
        toward(a, b, n, n) == b,
{
    let d = gap(a, b);
    assert(0 <= d * i <= d * n) by (nonlinear_arith)
        requires
            0 <= d,
            0 <= i <= n,
    ;
    assert(d * n / n == d) by (nonlinear_arith)
        requires
            1 <= n,
    ;
    assert(0 <= d * i / n <= d * n / n) by (nonlinear_arith)
        requires
            0 <= d * i <= d * n,
            1 <= n,
    ;
    assert(d * 0 == 0);
    assert(0int / n == 0) by (nonlinear_arith)
        requires
            1 <= n,
    ;
}

/// What one stamp leaves at a pixel.
pub open spec fn stamped(
    ink: Seq<u8>,
    cx: int,
    cy: int,
    r: int,
    erase: bool,
    x: int,
    y: int,
) -> u8 {
    if in_band(y) && in_disc(cx, cy, r, x, y) {
        ink_value(erase)
    } else {
        cov_at(ink, x, y)
    }
}

/// What one segment leaves at a pixel.
pub open spec fn drawn(
    ink: Seq<u8>,
    x0: int,
    y0: int,
    x1: int,
    y1: int,
    r: int,
    erase: bool,
    x: int,
    y: int,
) -> u8 {
    if segment_covers(x0, y0, x1, y1, r, x, y) {
        ink_value(erase)
    } else {
        cov_at(ink, x, y)
    }
}

/// Stamps a filled disc of radius `r` at `(cx, cy)`, clipped to the card band.
pub fn stamp(ink: &mut [u8], cx: i32, cy: i32, r: i32, erase: bool)
    requires
        old(ink)@.len() == PIXELS,
        0 <= r,
    ensures
        final(ink)@.len() == PIXELS,
        forall|x: int, y: int|
            in_panel(x, y) ==> #[trigger] cov_at(final(ink)@, x, y) == stamped(
                old(ink)@,
                cx as int,
                cy as int,
                r as int,
                erase,
                x,
                y,
            ),
{
    let val: u8 = if erase {
        0
    } else {
        255
    };
    let ghost before = ink@;
    let (cx, cy, r): (i64, i64, i64) = (cx as i64, cy as i64, r as i64);
    let top: i64 = CARD_Y as i64;
    let bottom: i64 = (CARD_Y + CARD_H) as i64;
    let right: i64 = WIDTH as i64;
    let mut y: i64 = if cy - r > top {
        cy - r
    } else {
        top
    };
    let y_end: i64 = if cy + r + 1 < bottom {
        cy + r + 1
    } else {
        bottom
    };
    let x_first: i64 = if cx - r > 0 {
        cx - r
    } else {
        0
    };
    let x_end: i64 = if cx + r + 1 < right {
        cx + r + 1
    } else {
        right
    };
    proof {
        assert forall|u: int, v: int|
            in_panel(u, v) && v < y implies #[trigger] cov_at(ink@, u, v) == stamped(
            before,
            cx as int,
            cy as int,
            r as int,
            erase,
            u,
            v,
        ) by {
            if in_band(v) {
                lemma_outside_disc(cx as int, cy as int, r as int, u, v);
            }
        }
    }
    while y < y_end
        invariant
            ink@.len() == PIXELS,
            before.len() == PIXELS,
            0 <= r <= i32::MAX,
            i32::MIN <= cx <= i32::MAX,
            i32::MIN <= cy <= i32::MAX,
            top == CARD_Y,
            bottom == CARD_Y + CARD_H,
            right == WIDTH,
            val == ink_value(erase),
            top <= y,
            y_end <= bottom,
            y_end <= cy + r + 1,
            y >= cy - r,
            y_end == bottom || y_end == cy + r + 1,
            0 <= x_first,
            x_end <= right,
            x_first >= cx - r,
            x_first == 0 || x_first == cx - r,
            x_end <= cx + r + 1,
            x_end == right || x_end == cx + r + 1,
            forall|u: int, v: int|
                in_panel(u, v) && v < y ==> #[trigger] cov_at(ink@, u, v) == stamped(
                    before,
                    cx as int,
                    cy as int,
                    r as int,
                    erase,
                    u,
                    v,
                ),
            forall|u: int, v: int|
                in_panel(u, v) && v >= y ==> #[trigger] cov_at(ink@, u, v) == cov_at(before, u, v),
        decreases y_end - y,
    {
        let dy: i64 = y - cy;
        let mut x: i64 = x_first;
        proof {
            assert forall|u: int| in_panel(u, y as int) && u < x implies #[trigger] cov_at(
                ink@,
                u,
                y as int,
            ) == stamped(before, cx as int, cy as int, r as int, erase, u, y as int) by {
                lemma_outside_disc(cx as int, cy as int, r as int, u, y as int);
            }
        }
        while x < x_end
            invariant
                ink@.len() == PIXELS,
                before.len() == PIXELS,
                0 <= r <= i32::MAX,
                i32::MIN <= cx <= i32::MAX,
                i32::MIN <= cy <= i32::MAX,
                top == CARD_Y,
                bottom == CARD_Y + CARD_H,
                right == WIDTH,
                val == ink_value(erase),
                top <= y < bottom,
                -r <= dy <= r,
                dy == y - cy,
                0 <= x,
                x_end <= right,
                x_end <= cx + r + 1,
                x >= cx - r,
                forall|u: int, v: int|
                    in_panel(u, v) && v < y ==> #[trigger] cov_at(ink@, u, v) == stamped(
                        before,
                        cx as int,
                        cy as int,
                        r as int,
                        erase,
                        u,
                        v,
                    ),
                forall|u: int|
                    in_panel(u, y as int) && u < x ==> #[trigger] cov_at(ink@, u, y as int)
                        == stamped(before, cx as int, cy as int, r as int, erase, u, y as int),
                forall|u: int|
                    in_panel(u, y as int) && u >= x ==> #[trigger] cov_at(ink@, u, y as int)
                        == cov_at(before, u, y as int),
                forall|u: int, v: int|
                    in_panel(u, v) && v > y ==> #[trigger] cov_at(ink@, u, v) == cov_at(
                        before,
                        u,
                        v,
                    ),
            decreases x_end - x,
        {
            let dx: i64 = x - cx;
            let limit: i64 = 0x8000_0000;
            assert(0 <= dx * dx <= limit * limit && 0 <= dy * dy <= limit * limit && 0 <= r * r
                <= limit * limit) by (nonlinear_arith)
                requires
                    -limit <= dx <= limit,
                    -limit <= dy <= limit,
                    -limit <= r <= limit,
            ;
            assert(limit * limit == 0x4000_0000_0000_0000) by (nonlinear_arith)
                requires
                    limit == 0x8000_0000,
            ;
            if dx * dx <= r * r && dy * dy <= r * r - dx * dx {
                let i: usize = y as usize * WIDTH + x as usize;
                let ghost prev = ink@;
                proof {
                    lemma_cell_inside(x as int, y as int, crate::frame::HEIGHT as int);
                }
                ink[i] = val;
                proof {
                    assert forall|u: int, v: int|
                        in_panel(u, v) && (u != x || v != y) implies #[trigger] cov_at(ink@, u, v)
                        == cov_at(prev, u, v) by {
                        lemma_cells_differ(u, v, x as int, y as int);
                    }
                    assert(cov_at(ink@, x as int, y as int) == val);
                }
            }
            x += 1;
        }
        proof {
            assert forall|u: int| in_panel(u, y as int) && u >= x_end implies !in_disc(
                cx as int,
                cy as int,
                r as int,
                u,
                y as int,
            ) by {
                lemma_outside_disc(cx as int, cy as int, r as int, u, y as int);
            }
        }
        y += 1;
    }
    proof {
        assert forall|u: int, v: int| in_panel(u, v) && v >= y_end && in_band(v) implies !in_disc(
            cx as int,
            cy as int,
            r as int,
            u,
            v,
        ) by {
            lemma_outside_disc(cx as int, cy as int, r as int, u, v);
        }
    }
}

/// The distance between two coordinates.
fn distance(a: i32, b: i32) -> (d: u64)
    ensures
        d == gap(a as int, b as int),
        d <= u32::MAX,
{
    if a <= b {
        (b as i64 - a as i64) as u64
    } else {
        (a as i64 - b as i64) as u64
    }
}

/// The coordinate `i/n` of the way from `a` to `b`.
fn between(a: i32, b: i32, i: u64, n: u64) -> (c: i32)
    requires
        i <= n <= u32::MAX,
        1 <= n,
    ensures
        c == toward(a as int, b as int, i as int, n as int),
{
    let d: u64 = distance(a, b);
    proof {
        lemma_toward(a as int, b as int, i as int, n as int);
    }
    assert(0 <= d * i <= 0xffff_ffff * 0xffff_ffff) by (nonlinear_arith)
        requires
            d <= 0xffff_ffff,
            i <= 0xffff_ffff,
    ;
    let q: u64 = d * i / n;
    assert(0 <= q <= d) by (nonlinear_arith)
        requires
            q == (d * i) / (n as int),
            i <= n,
            1 <= n,
    ;
    if a <= b {
        (a as i64 + q as i64) as i32
    } else {
        (a as i64 - q as i64) as i32
    }
}

/// Rasterizes a thick line of stamped discs from `(x0, y0)` to `(x1, y1)`.
pub fn segment_ink(ink: &mut [u8], x0: i32, y0: i32, x1: i32, y1: i32, r: i32, erase: bool)
    requires
        old(ink)@.len() == PIXELS,
        0 <= r,
    ensures
        final(ink)@.len() == PIXELS,
        forall|x: int, y: int|
            in_panel(x, y) ==> #[trigger] cov_at(final(ink)@, x, y) == drawn(
                old(ink)@,
                x0 as int,
                y0 as int,
                x1 as int,
                y1 as int,
                r as int,
                erase,
                x,
                y,
            ),
{
    let ghost before = ink@;
    let (dx, dy): (u64, u64) = (distance(x0, x1), distance(y0, y1));
    let n: u64 = if dx >= dy && dx >= 1 {
        dx
    } else if dy >= 1 {
        dy
    } else {
        1
    };
    let mut i: u64 = 0;
    while i <= n
        invariant
            ink@.len() == PIXELS,
            0 <= r,
            1 <= n <= u32::MAX,
            i <= n + 1,
            n == steps(x0 as int, y0 as int, x1 as int, y1 as int),
            forall|x: int, y: int|
                in_panel(x, y) ==> #[trigger] cov_at(ink@, x, y) == (if in_band(y) && exists|j: int|
                    0 <= j < i && #[trigger] step_covers(
                        x0 as int,
                        y0 as int,
                        x1 as int,
                        y1 as int,
                        r as int,
                        j,
                        x,
                        y,
                    ) {
                    ink_value(erase)
                } else {
                    cov_at(before, x, y)
                }),
        decreases n + 1 - i,
    {
        let ghost prev = ink@;
        let x: i32 = between(x0, x1, i, n);
        let y: i32 = between(y0, y1, i, n);
        stamp(ink, x, y, r, erase);
        proof {
            assert forall|u: int, v: int| in_panel(u, v) implies #[trigger] cov_at(ink@, u, v) == (
            if in_band(v) && exists|j: int|
                0 <= j < i + 1 && #[trigger] step_covers(
                    x0 as int,
                    y0 as int,
                    x1 as int,
                    y1 as int,
                    r as int,
                    j,
                    u,
                    v,
                ) {
                ink_value(erase)
            } else {
                cov_at(before, u, v)
            }) by {
                assert(cov_at(ink@, u, v) == stamped(
                    prev,
                    x as int,
                    y as int,
                    r as int,
                    erase,
                    u,
                    v,
                ));
                let here = step_covers(
                    x0 as int,
                    y0 as int,
                    x1 as int,
                    y1 as int,
                    r as int,
                    i as int,
                    u,
                    v,
                );
                assert(here == in_disc(x as int, y as int, r as int, u, v));
            }
        }
        i += 1;
    }
    assert forall|x: int, y: int| in_panel(x, y) implies #[trigger] cov_at(ink@, x, y) == drawn(
        before,
        x0 as int,
        y0 as int,
        x1 as int,
        y1 as int,
        r as int,
        erase,
        x,
        y,
    ) by {
        assert(cov_at(ink@, x, y) == cov_at(ink@, x, y));
    }
}

// -------------------------------------------------------------------- laws

/// A stamp is a filled disc: it leaves its ink on the pixels of the card band whose
/// distance from the centre is at most the radius, and touches no other.
pub proof fn law_stamp_is_a_disc(
    ink: Seq<u8>,
    cx: int,
    cy: int,
    r: int,
    erase: bool,
    x: int,
    y: int,
)
    ensures
        stamped(ink, cx, cy, r, erase, x, y) == (if 110 <= y < 1920 && (x - cx) * (x - cx) + (y
            - cy) * (y - cy) <= r * r {
            if erase {
                0u8
            } else {
                255u8
            }
        } else {
            cov_at(ink, x, y)
        }),
{
}

/// A segment leaves full ink, or none for the eraser, where it covers, and touches no
/// other pixel. It covers nothing outside the card band.
pub proof fn law_segment_leaves_its_ink(
    ink: Seq<u8>,
    x0: int,
    y0: int,
    x1: int,
    y1: int,
    r: int,
    erase: bool,
    x: int,
    y: int,
)
    ensures
        segment_covers(x0, y0, x1, y1, r, x, y) ==> 110 <= y < 1920,
        segment_covers(x0, y0, x1, y1, r, x, y) && !erase ==> drawn(
            ink,
            x0,
            y0,
            x1,
            y1,
            r,
            erase,
            x,
            y,
        ) == 255,
        segment_covers(x0, y0, x1, y1, r, x, y) && erase ==> drawn(
            ink,
            x0,
            y0,
            x1,
            y1,
            r,
            erase,
            x,
            y,
        ) == 0,
        !segment_covers(x0, y0, x1, y1, r, x, y) ==> drawn(ink, x0, y0, x1, y1, r, erase, x, y)
            == cov_at(ink, x, y),
{
}

/// The point `(x, y)` is less than a pixel from the straight line through the two
/// ends, measured across the longer extent.
pub open spec fn near_line(x0: int, y0: int, x1: int, y1: int, x: int, y: int) -> bool {
    let off = (y - y0) * (x1 - x0) - (x - x0) * (y1 - y0);
    let across = if gap(x0, x1) >= gap(y0, y1) {
        gap(x0, x1)
    } else {
        gap(y0, y1)
    };
    off == 0 || -across < off < across
}

/// The segment covers every pixel of the card band in the disc of radius `r` around
/// `(cx, cy)`.
pub open spec fn whole_disc(
    x0: int,
    y0: int,
    x1: int,
    y1: int,
    r: int,
    cx: int,
    cy: int,
) -> bool {
    forall|u: int, v: int|
        110 <= v < 1920 && (u - cx) * (u - cx) + (v - cy) * (v - cy) <= r * r
            ==> #[trigger] segment_covers(x0, y0, x1, y1, r, u, v)
}

/// The point of step `i` lies near the line, between the ends.
proof fn lemma_step_near(x0: int, y0: int, x1: int, y1: int, i: int)
    requires
        0 <= i <= steps(x0, y0, x1, y1),
    ensures
        ({
            let n = steps(x0, y0, x1, y1);
            near_line(x0, y0, x1, y1, toward(x0, x1, i, n), toward(y0, y1, i, n))
        }),
{
    let n = steps(x0, y0, x1, y1);
    let (cx, cy) = (toward(x0, x1, i, n), toward(y0, y1, i, n));
    let (dx, dy) = (gap(x0, x1), gap(y0, y1));
    let (px, py) = (dx * i / n, dy * i / n);
    if dx == 0 && dy == 0 {
        assert(0 * i == 0) by (nonlinear_arith);
        assert(0int / n == 0) by (nonlinear_arith)
            requires
                1 <= n,
        ;
        assert((cy - y0) * (x1 - x0) - (cx - x0) * (y1 - y0) == 0) by (nonlinear_arith)
            requires
                x1 == x0,
                y1 == y0,
        ;
    } else {
        assert(-n < py * dx - px * dy < n) by (nonlinear_arith)
            requires
                px == dx * i / n,
                py == dy * i / n,
                n == dx || n == dy,
                0 <= dx <= n,
                0 <= dy <= n,
                0 <= i <= n,
                1 <= n,
        {
            if n == dx {
                assert(dx * i / n == i) by (nonlinear_arith)
                    requires
                        n == dx,
                        1 <= n,
                ;
                assert(n * (dy * i / n) <= dy * i < n * (dy * i / n) + n) by (nonlinear_arith)
                    requires
                        1 <= n,
                ;
            } else {
                assert(dy * i / n == i) by (nonlinear_arith)
                    requires
                        n == dy,
                        1 <= n,
                ;
                assert(n * (dx * i / n) <= dx * i < n * (dx * i / n) + n) by (nonlinear_arith)
                    requires
                        1 <= n,
                ;
            }
        }
        let off = (cy - y0) * (x1 - x0) - (cx - x0) * (y1 - y0);
        assert(off == py * dx - px * dy || off == -(py * dx - px * dy)) by (nonlinear_arith)
            requires
                off == (cy - y0) * (x1 - x0) - (cx - x0) * (y1 - y0),
                x1 - x0 == dx && cx - x0 == px || x1 - x0 == -dx && cx - x0 == -px,
                y1 - y0 == dy && cy - y0 == py || y1 - y0 == -dy && cy - y0 == -py,
        ;
    }
}

/// A flat segment is an unbroken line: over every column between its ends there is a
/// point near the straight line around which the whole disc is inked.
pub proof fn law_flat_line_is_unbroken(x0: int, y0: int, x1: int, y1: int, r: int, x: int)
    requires
        gap(y0, y1) <= gap(x0, x1),
        x0 <= x <= x1 || x1 <= x <= x0,
    ensures
        exists|y: int|
            near_line(x0, y0, x1, y1, x, y) && #[trigger] whole_disc(x0, y0, x1, y1, r, x, y),
{
    let n = steps(x0, y0, x1, y1);
    let i = gap(x0, x);
    let y = toward(y0, y1, i, n);
    if gap(x0, x1) >= 1 {
        assert(gap(x0, x1) * i / n == i) by (nonlinear_arith)
            requires
                n == gap(x0, x1),
                1 <= n,
        ;
    } else {
        lemma_toward(x0, x1, i, n);
    }
    assert(toward(x0, x1, i, n) == x);
    lemma_step_near(x0, y0, x1, y1, i);
    assert forall|u: int, v: int|
        110 <= v < 1920 && (u - x) * (u - x) + (v - y) * (v - y) <= r * r implies #[trigger]
        segment_covers(
        x0,
        y0,
        x1,
        y1,
        r,
        u,
        v,
    ) by {
        assert(step_covers(x0, y0, x1, y1, r, i, u, v));
    }
    assert(whole_disc(x0, y0, x1, y1, r, x, y));
}

/// A steep segment is an unbroken line: over every row between its ends there is a
/// point near the straight line around which the whole disc is inked.
pub proof fn law_steep_line_is_unbroken(x0: int, y0: int, x1: int, y1: int, r: int, y: int)
    requires
        gap(x0, x1) <= gap(y0, y1),
        y0 <= y <= y1 || y1 <= y <= y0,
    ensures
        exists|x: int|
            near_line(x0, y0, x1, y1, x, y) && #[trigger] whole_disc(x0, y0, x1, y1, r, x, y),
{
    let n = steps(x0, y0, x1, y1);
    let i = gap(y0, y);
    let x = toward(x0, x1, i, n);
    if gap(y0, y1) >= 1 {
        assert(gap(y0, y1) * i / n == i) by (nonlinear_arith)
            requires
                n == gap(y0, y1),
                1 <= n,
        ;
    } else {
        lemma_toward(y0, y1, i, n);
    }
    assert(toward(y0, y1, i, n) == y);
    lemma_step_near(x0, y0, x1, y1, i);
    assert forall|u: int, v: int|
        110 <= v < 1920 && (u - x) * (u - x) + (v - y) * (v - y) <= r * r implies #[trigger]
        segment_covers(
        x0,
        y0,
        x1,
        y1,
        r,
        u,
        v,
    ) by {
        assert(step_covers(x0, y0, x1, y1, r, i, u, v));
    }
    assert(whole_disc(x0, y0, x1, y1, r, x, y));
}

/// A segment inks nothing beside its line: a covered pixel is within the radius of a
/// point between the ends that is near the straight line.
pub proof fn law_line_inks_nothing_else(
    x0: int,
    y0: int,
    x1: int,
    y1: int,
    r: int,
    x: int,
    y: int,
)
    requires
        segment_covers(x0, y0, x1, y1, r, x, y),
    ensures
        exists|cx: int, cy: int| #[trigger]
            near_line(x0, y0, x1, y1, cx, cy) && (x0 <= cx <= x1 || x1 <= cx <= x0) && (y0 <= cy
                <= y1 || y1 <= cy <= y0) && (x - cx) * (x - cx) + (y - cy) * (y - cy) <= r * r,
{
    let n = steps(x0, y0, x1, y1);
    let i = choose|i: int|
        0 <= i <= n && #[trigger] step_covers(x0, y0, x1, y1, r, i, x, y);
    lemma_toward(x0, x1, i, n);
    lemma_toward(y0, y1, i, n);
    lemma_step_near(x0, y0, x1, y1, i);
    let (cx, cy) = (toward(x0, x1, i, n), toward(y0, y1, i, n));
    assert(near_line(x0, y0, x1, y1, cx, cy));
}

/// A segment covers its two ends, with the whole disc around each.
pub proof fn law_line_joins_its_ends(x0: int, y0: int, x1: int, y1: int, r: int)
    ensures
        whole_disc(x0, y0, x1, y1, r, x0, y0),
        whole_disc(x0, y0, x1, y1, r, x1, y1),
{
    let n = steps(x0, y0, x1, y1);
    lemma_toward(x0, x1, 0, n);
    lemma_toward(y0, y1, 0, n);
    assert forall|u: int, v: int|
        110 <= v < 1920 && (u - x0) * (u - x0) + (v - y0) * (v - y0) <= r
            * r implies #[trigger] segment_covers(x0, y0, x1, y1, r, u, v) by {
        assert(step_covers(x0, y0, x1, y1, r, 0, u, v));
    }
    assert forall|u: int, v: int|
        110 <= v < 1920 && (u - x1) * (u - x1) + (v - y1) * (v - y1) <= r
            * r implies #[trigger] segment_covers(x0, y0, x1, y1, r, u, v) by {
        assert(step_covers(x0, y0, x1, y1, r, n, u, v));
    }
}

} // verus!
