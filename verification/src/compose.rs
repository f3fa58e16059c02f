//! Putting rendered pieces together into frames.
//!
//! Each piece of the screen is rendered by itself, possibly with transparent
//! pixels. A frame starts white and the pieces are laid over it.

use vstd::prelude::*;

use crate::frame::{
    cell, get_rgba, in_band, in_panel, pixels_on_panel, put_rgba, rgba_at, same_tail, BOTTOM_H,
    CARD_H, CARD_Y, HEIGHT, PIXELS, TOP_H, WIDTH,
};
use crate::frame::{lemma_cell_inside, lemma_pixels_on_panel};
use crate::ui::{
    button_rect, item_count, menu_btn_rect, menu_items, menu_panel_rect, panel_rect, MenuState,
    MENU_BTN, MENU_ITEM_H, MENU_PANEL_W,
};

verus! {

/// A pixel: red, green, blue, alpha.
pub type Px = (u8, u8, u8, u8);

/// Opaque white.
pub open spec fn white() -> Px {
    (255, 255, 255, 255)
}

/// Opaque black.
pub open spec fn black() -> Px {
    (0, 0, 0, 255)
}

/// Pixel `(u, v)` of an RGBA image `w` pixels wide.
pub open spec fn image_px(src: Seq<u8>, w: int, u: int, v: int) -> Px {
    (
        src[(v * w + u) * 4],
        src[(v * w + u) * 4 + 1],
        src[(v * w + u) * 4 + 2],
        src[(v * w + u) * 4 + 3],
    )
}

/// One channel of a source with alpha `a` over a destination.
pub open spec fn mixed(s: u8, d: u8, a: u8) -> u8 {
    ((s * a + d * (255 - a)) / 255) as u8
}

/// A source pixel over a destination pixel. A transparent source leaves the
/// destination as it is; any other result is opaque.
pub open spec fn over(s: Px, d: Px) -> Px {
    if s.3 == 0 {
        d
    } else {
        (mixed(s.0, d.0, s.3), mixed(s.1, d.1, s.3), mixed(s.2, d.2, s.3), 255)
    }
}

/// The pixel at `(u, v)` once an image of `w` by `h` pixels is laid at `(x, y)`
/// over `d`.
pub open spec fn laid(
    d: Px,
    src: Seq<u8>,
    w: int,
    h: int,
    x: int,
    y: int,
    u: int,
    v: int,
) -> Px {
    if x <= u < x + w && y <= v < y + h {
        over(image_px(src, w, u - x, v - y), d)
    } else {
        d
    }
}

/// The grey of a pixel; alpha stays.
pub open spec fn grey(p: Px) -> Px {
    let l = ((p.0 * 299 + p.1 * 587 + p.2 * 114) / 1000) as u8;
    (l, l, l, p.3)
}

/// A grey pixel stays as it is, so that greying twice is greying once.
pub proof fn law_grey_twice(p: Px)
    ensures
        grey(grey(p)) == grey(p),
{
}

/// An opaque source hides what is below it.
pub proof fn law_opaque_hides(s: Px, d: Px)
    requires
        s.3 == 255,
    ensures
        over(s, d) == s,
{
}

fn mix(s: u8, d: u8, a: u8) -> (c: u8)
    ensures
        c == mixed(s, d, a),
{
    let ia: u32 = 255 - a as u32;
    assert(0 <= s * a <= 255 * 255) by (nonlinear_arith)
        requires
            0 <= s <= 255,
            0 <= a <= 255,
    ;
    assert(0 <= d * ia <= 255 * ia) by (nonlinear_arith)
        requires
            0 <= d <= 255,
            0 <= ia,
    ;
    assert(d * ia == d * (255 - a));
    assert(s * a <= 255 * a) by (nonlinear_arith)
        requires
            0 <= s <= 255,
            0 <= a,
    ;
    ((s as u32 * a as u32 + d as u32 * ia) / 255) as u8
}

/// Lays an RGBA image of `sw` by `sh` pixels over a frame at `(x, y)`, clipped to
/// the panel. Only the pixels that come to lie on the panel have to be there.
pub fn blit(dst: &mut [u8], src: &[u8], sw: usize, sh: usize, x: usize, y: usize)
    requires
        old(dst)@.len() >= PIXELS * 4,
        src@.len() >= pixels_on_panel(sw as int, sh as int, x as int, y as int) * 4,
    ensures
        same_tail(final(dst)@, old(dst)@, PIXELS * 4),
        forall|u: int, v: int|
            in_panel(u, v) ==> #[trigger] rgba_at(final(dst)@, u, v) == laid(
                rgba_at(old(dst)@, u, v),
                src@,
                sw as int,
                sh as int,
                x as int,
                y as int,
                u,
                v,
            ),
{
    let ghost before = dst@;
    let mut row: usize = 0;
    while row < sh && y < HEIGHT && row < HEIGHT - y
        invariant
            same_tail(dst@, before, PIXELS * 4),
            before.len() >= PIXELS * 4,
            src@.len() >= pixels_on_panel(sw as int, sh as int, x as int, y as int) * 4,
            row <= sh,
            y < HEIGHT ==> row <= HEIGHT - y,
            forall|u: int, v: int|
                in_panel(u, v) ==> #[trigger] rgba_at(dst@, u, v) == laid(
                    rgba_at(before, u, v),
                    src@,
                    sw as int,
                    row as int,
                    x as int,
                    y as int,
                    u,
                    v,
                ),
        decreases sh - row,
    {
        let mut col: usize = 0;
        while col < sw && x < WIDTH && col < WIDTH - x
            invariant
                same_tail(dst@, before, PIXELS * 4),
                before.len() >= PIXELS * 4,
                src@.len() >= pixels_on_panel(sw as int, sh as int, x as int, y as int) * 4,
                row < sh,
                y + row < HEIGHT,
                col <= sw,
                x < WIDTH ==> col <= WIDTH - x,
                forall|u: int, v: int|
                    in_panel(u, v) ==> #[trigger] rgba_at(dst@, u, v) == (if x <= u && y <= v && (v
                        < y + row && u < x + sw || v == y + row && u < x + col) {
                        over(image_px(src@, sw as int, u - x, v - y), rgba_at(before, u, v))
                    } else {
                        rgba_at(before, u, v)
                    }),
            decreases sw - col,
        {
            proof {
                lemma_pixels_on_panel(
                    sw as int,
                    sh as int,
                    x as int,
                    y as int,
                    col as int,
                    row as int,
                );
            }
            let n: usize = src.len();
            assert(0 <= row * sw) by (nonlinear_arith);
            let si: usize = (row * sw + col) * 4;
            proof {
                lemma_cell_inside(x + col, y + row, HEIGHT as int);
            }
            let a: u8 = src[si + 3];
            if a != 0 {
                let d: Px = get_rgba(dst, x + col, y + row);
                put_rgba(
                    dst,
                    x + col,
                    y + row,
                    (mix(src[si], d.0, a), mix(src[si + 1], d.1, a), mix(src[si + 2], d.2, a), 255),
                );
            }
            col += 1;
        }
        row += 1;
    }
}

/// Fills rows `y0` up to `y1` of a frame with one colour.
fn fill_rows(dst: &mut [u8], y0: usize, y1: usize, px: Px)
    requires
        old(dst)@.len() >= PIXELS * 4,
        y0 <= y1 <= HEIGHT,
    ensures
        same_tail(final(dst)@, old(dst)@, PIXELS * 4),
        forall|u: int, v: int|
            in_panel(u, v) ==> #[trigger] rgba_at(final(dst)@, u, v) == (if y0 <= v < y1 {
                px
            } else {
                rgba_at(old(dst)@, u, v)
            }),
{
    let ghost before = dst@;
    let mut y: usize = y0;
    while y < y1
        invariant
            same_tail(dst@, before, PIXELS * 4),
            before.len() >= PIXELS * 4,
            y0 <= y <= y1 <= HEIGHT,
            forall|u: int, v: int|
                in_panel(u, v) ==> #[trigger] rgba_at(dst@, u, v) == (if y0 <= v < y {
                    px
                } else {
                    rgba_at(before, u, v)
                }),
        decreases y1 - y,
    {
        let mut x: usize = 0;
        while x < WIDTH
            invariant
                same_tail(dst@, before, PIXELS * 4),
                before.len() >= PIXELS * 4,
                x <= WIDTH,
                y0 <= y < y1 <= HEIGHT,
                forall|u: int, v: int|
                    in_panel(u, v) ==> #[trigger] rgba_at(dst@, u, v) == (if y0 <= v && (v < y || v
                        == y && u < x) {
                        px
                    } else {
                        rgba_at(before, u, v)
                    }),
            decreases WIDTH - x,
        {
            proof {
                lemma_cell_inside(x as int, y as int, HEIGHT as int);
            }
            put_rgba(dst, x, y, px);
            x += 1;
        }
        y += 1;
    }
}

/// Draws a black line of this thickness across the frame, from row `y` down.
pub fn hline_black(dst: &mut [u8], y: usize, thickness: usize)
    requires
        old(dst)@.len() >= PIXELS * 4,
        y + thickness <= usize::MAX,
    ensures
        same_tail(final(dst)@, old(dst)@, PIXELS * 4),
        forall|u: int, v: int|
            in_panel(u, v) ==> #[trigger] rgba_at(final(dst)@, u, v) == (if y <= v < y + thickness {
                black()
            } else {
                rgba_at(old(dst)@, u, v)
            }),
{
    if y < HEIGHT {
        let end: usize = if y + thickness < HEIGHT {
            y + thickness
        } else {
            HEIGHT
        };
        fill_rows(dst, y, end, (0, 0, 0, 255));
    }
}

/// Pixel number `p` of an RGBA buffer.
pub open spec fn px_at(buf: Seq<u8>, p: int) -> Px {
    (buf[p * 4], buf[p * 4 + 1], buf[p * 4 + 2], buf[p * 4 + 3])
}

/// `after` is `before` with the pixels from number `p0` up to `p1` turned grey.
pub open spec fn greyed(before: Seq<u8>, after: Seq<u8>, p0: int, p1: int) -> bool {
    &&& same_tail(after, before, p1 * 4)
    &&& forall|p: int| p0 <= p < p1 ==> #[trigger] px_at(after, p) == grey(px_at(before, p))
    &&& forall|i: int| 0 <= i < p0 * 4 ==> #[trigger] after[i] == before[i]
}

/// Greying a buffer twice is greying it once.
pub proof fn law_greyed_twice(a: Seq<u8>, b: Seq<u8>, c: Seq<u8>, p0: int, p1: int)
    requires
        0 <= p0 <= p1,
        p1 * 4 <= a.len(),
        greyed(a, b, p0, p1),
        greyed(b, c, p0, p1),
    ensures
        b == c,
{
    assert forall|i: int| 0 <= i < b.len() implies b[i] == c[i] by {
        if p0 * 4 <= i < p1 * 4 {
            let p = i / 4;
            law_grey_twice(px_at(a, p));
            assert(px_at(b, p) == grey(px_at(a, p)));
            assert(px_at(c, p) == grey(px_at(b, p)));
            assert(i == p * 4 || i == p * 4 + 1 || i == p * 4 + 2 || i == p * 4 + 3);
        }
    }
    assert(b =~= c);
}

/// Turns the pixels from number `p0` up to `p1` of a buffer grey.
fn grey_pixels(buf: &mut [u8], p0: usize, p1: usize)
    requires
        p0 <= p1,
        p1 * 4 <= old(buf)@.len(),
    ensures
        greyed(old(buf)@, final(buf)@, p0 as int, p1 as int),
{
    let ghost before = buf@;
    let len: usize = buf.len();
    let mut p: usize = p0;
    while p < p1
        invariant
            p0 <= p <= p1,
            len == before.len(),
            p1 * 4 <= len,
            greyed(before, buf@, p0 as int, p as int),
        decreases p1 - p,
    {
        let i: usize = p * 4;
        let ghost mid = buf@;
        let px: Px = (buf[i], buf[i + 1], buf[i + 2], buf[i + 3]);
        assert(px == px_at(before, p as int));
        let l: u8 = ((px.0 as u32 * 299 + px.1 as u32 * 587 + px.2 as u32 * 114) / 1000) as u8;
        buf[i] = l;
        buf[i + 1] = l;
        buf[i + 2] = l;
        proof {
            assert forall|q: int| p0 <= q < p + 1 implies #[trigger] px_at(buf@, q) == grey(
                px_at(before, q),
            ) by {
                if q < p {
                    assert(px_at(buf@, q) == px_at(mid, q));
                }
            }
        }
        p += 1;
    }
}

/// Turns a buffer grey, whatever its size. Bytes that make no whole pixel stay.
pub fn desaturate(buf: &mut [u8])
    ensures
        greyed(old(buf)@, final(buf)@, 0, old(buf)@.len() as int / 4),
{
    let n: usize = buf.len() / 4;
    grey_pixels(buf, 0, n);
}

/// Turns rows `y0` up to `y1` of a frame grey.
pub fn desaturate_rows(buf: &mut [u8], y0: usize, y1: usize)
    requires
        old(buf)@.len() >= PIXELS * 4,
        y0 <= y1 <= HEIGHT,
    ensures
        same_tail(final(buf)@, old(buf)@, PIXELS * 4),
        forall|u: int, v: int|
            in_panel(u, v) ==> #[trigger] rgba_at(final(buf)@, u, v) == (if y0 <= v < y1 {
                grey(rgba_at(old(buf)@, u, v))
            } else {
                rgba_at(old(buf)@, u, v)
            }),
{
    let ghost before = buf@;
    grey_pixels(buf, y0 * WIDTH, y1 * WIDTH);
    proof {
        assert forall|u: int, v: int| in_panel(u, v) implies #[trigger] rgba_at(buf@, u, v) == (
        if y0 <= v < y1 {
            grey(rgba_at(before, u, v))
        } else {
            rgba_at(before, u, v)
        }) by {
            lemma_cell_inside(u, v, HEIGHT as int);
            assert(rgba_at(buf@, u, v) == px_at(buf@, cell(u, v)));
        }
    }
}

fn white_frame() -> (fb: Vec<u8>)
    ensures
        fb@.len() == PIXELS * 4,
        forall|u: int, v: int| in_panel(u, v) ==> #[trigger] rgba_at(fb@, u, v) == white(),
{
    let fb: Vec<u8> = vec![255u8; PIXELS * 4];
    proof {
        assert forall|u: int, v: int| in_panel(u, v) implies #[trigger] rgba_at(fb@, u, v)
            == white() by {
            lemma_cell_inside(u, v, HEIGHT as int);
        }
    }
    fb
}

// ----------------------------------------------------------- review screen

/// A pixel of the menu over `d`: the button, and the open panel over it.
pub open spec fn with_menu(
    d: Px,
    button: Seq<u8>,
    panel: Seq<u8>,
    menu: MenuState,
    u: int,
    v: int,
) -> Px {
    let n = MENU_BTN as int;
    let items = item_count(menu);
    laid(
        laid(d, button, n, n, button_rect().0, button_rect().1, u, v),
        panel,
        MENU_PANEL_W as int,
        MENU_ITEM_H * items,
        panel_rect(items).0,
        panel_rect(items).1,
        u,
        v,
    )
}

/// A pixel of the bars of the review screen over `d`, with the lines between bars
/// and card.
pub open spec fn with_bars(d: Px, top: Seq<u8>, bottom: Seq<u8>, u: int, v: int) -> Px {
    if CARD_Y - 2 <= v < CARD_Y || HEIGHT - BOTTOM_H <= v < HEIGHT - BOTTOM_H + 2 {
        black()
    } else {
        laid(
            laid(d, top, WIDTH as int, TOP_H as int, 0, 0, u, v),
            bottom,
            WIDTH as int,
            BOTTOM_H as int,
            0,
            HEIGHT - BOTTOM_H,
            u,
            v,
        )
    }
}

/// A pixel, in colour or in black and white.
pub open spec fn toned(p: Px, mono: bool) -> Px {
    if mono {
        grey(p)
    } else {
        p
    }
}

/// A pixel of the review screen: the card on white, the bars, the menu.
pub open spec fn review_px(
    window: Seq<u8>,
    top: Seq<u8>,
    bottom: Seq<u8>,
    button: Seq<u8>,
    panel: Seq<u8>,
    menu: MenuState,
    mono: bool,
    u: int,
    v: int,
) -> Px {
    toned(
        with_menu(
            with_bars(
                laid(white(), window, WIDTH as int, CARD_H as int, 0, CARD_Y as int, u, v),
                top,
                bottom,
                u,
                v,
            ),
            button,
            panel,
            menu,
            u,
            v,
        ),
        mono,
    )
}

/// A pixel of a frame whose card band has been painted anew.
pub open spec fn patched_px(
    old_px: Px,
    window: Seq<u8>,
    button: Seq<u8>,
    panel: Seq<u8>,
    menu: MenuState,
    mono: bool,
    u: int,
    v: int,
) -> Px {
    if in_band(v) {
        toned(
            with_menu(
                laid(white(), window, WIDTH as int, CARD_H as int, 0, CARD_Y as int, u, v),
                button,
                panel,
                menu,
                u,
                v,
            ),
            mono,
        )
    } else {
        old_px
    }
}

fn draw_menu(fb: &mut [u8], button: &[u8], panel: &[u8], menu: MenuState)
    requires
        old(fb)@.len() >= PIXELS * 4,
        button@.len() >= MENU_BTN * MENU_BTN * 4,
        panel@.len() >= MENU_PANEL_W * (MENU_ITEM_H * item_count(menu)) * 4,
    ensures
        same_tail(final(fb)@, old(fb)@, PIXELS * 4),
        forall|u: int, v: int|
            in_panel(u, v) ==> #[trigger] rgba_at(final(fb)@, u, v) == with_menu(
                rgba_at(old(fb)@, u, v),
                button@,
                panel@,
                menu,
                u,
                v,
            ),
{
    let b: (usize, usize, usize, usize) = menu_btn_rect();
    blit(fb, button, MENU_BTN, MENU_BTN, b.0, b.1);
    let items: usize = menu_items(menu);
    let p: (usize, usize, usize, usize) = menu_panel_rect(items);
    blit(fb, panel, MENU_PANEL_W, MENU_ITEM_H * items, p.0, p.1);
}

/// Puts the review screen together from the card window, the two bars, the menu
/// button and the menu panel. A closed menu needs no panel.
pub fn compose_review(
    card_window: &[u8],
    top: &[u8],
    bottom: &[u8],
    button: &[u8],
    panel: &[u8],
    menu: MenuState,
    mono: bool,
) -> (fb: Vec<u8>)
    requires
        card_window@.len() >= WIDTH * CARD_H * 4,
        top@.len() >= WIDTH * TOP_H * 4,
        bottom@.len() >= WIDTH * BOTTOM_H * 4,
        button@.len() >= MENU_BTN * MENU_BTN * 4,
        panel@.len() >= MENU_PANEL_W * (MENU_ITEM_H * item_count(menu)) * 4,
    ensures
        fb@.len() == PIXELS * 4,
        forall|u: int, v: int|
            in_panel(u, v) ==> #[trigger] rgba_at(fb@, u, v) == review_px(
                card_window@,
                top@,
                bottom@,
                button@,
                panel@,
                menu,
                mono,
                u,
                v,
            ),
{
    let mut fb: Vec<u8> = white_frame();
    blit(&mut fb, card_window, WIDTH, CARD_H, 0, CARD_Y);
    blit(&mut fb, top, WIDTH, TOP_H, 0, 0);
    blit(&mut fb, bottom, WIDTH, BOTTOM_H, 0, HEIGHT - BOTTOM_H);
    hline_black(&mut fb, CARD_Y - 2, 2);
    hline_black(&mut fb, HEIGHT - BOTTOM_H, 2);
    draw_menu(&mut fb, button, panel, menu);
    if mono {
        desaturate_rows(&mut fb, 0, HEIGHT);
    }
    fb
}

/// Paints the card band of a composed frame anew, with the menu over it; the bars
/// stay.
pub fn patch_card_band(
    fb: &mut [u8],
    card_window: &[u8],
    button: &[u8],
    panel: &[u8],
    menu: MenuState,
    mono: bool,
)
    requires
        old(fb)@.len() >= PIXELS * 4,
        card_window@.len() >= WIDTH * CARD_H * 4,
        button@.len() >= MENU_BTN * MENU_BTN * 4,
        panel@.len() >= MENU_PANEL_W * (MENU_ITEM_H * item_count(menu)) * 4,
    ensures
        same_tail(final(fb)@, old(fb)@, PIXELS * 4),
        forall|u: int, v: int|
            in_panel(u, v) ==> #[trigger] rgba_at(final(fb)@, u, v) == patched_px(
                rgba_at(old(fb)@, u, v),
                card_window@,
                button@,
                panel@,
                menu,
                mono,
                u,
                v,
            ),
{
    fill_rows(fb, CARD_Y, CARD_Y + CARD_H, (255, 255, 255, 255));
    blit(fb, card_window, WIDTH, CARD_H, 0, CARD_Y);
    draw_menu(fb, button, panel, menu);
    if mono {
        desaturate_rows(fb, CARD_Y, CARD_Y + CARD_H);
    }
}

/// Patching the card band of a composed frame gives what composing the frame anew
/// with the new card window would give.
pub proof fn law_patch_matches_compose(
    before: Seq<u8>,
    window: Seq<u8>,
    top: Seq<u8>,
    bottom: Seq<u8>,
    button: Seq<u8>,
    panel: Seq<u8>,
    menu: MenuState,
    mono: bool,
    u: int,
    v: int,
)
    requires
        in_panel(u, v),
    ensures
        patched_px(
            review_px(before, top, bottom, button, panel, menu, mono, u, v),
            window,
            button,
            panel,
            menu,
            mono,
            u,
            v,
        ) == review_px(window, top, bottom, button, panel, menu, mono, u, v),
{
}

/// A pixel of the review screen without a card: the message area and the status
/// bar, with a line between.
pub open spec fn empty_px(area: Seq<u8>, top: Seq<u8>, u: int, v: int) -> Px {
    if TOP_H - 2 <= v < TOP_H {
        black()
    } else {
        laid(
            laid(white(), area, WIDTH as int, HEIGHT - TOP_H, 0, TOP_H as int, u, v),
            top,
            WIDTH as int,
            TOP_H as int,
            0,
            0,
            u,
            v,
        )
    }
}

/// Puts the review screen together when no card is due.
pub fn compose_review_empty(area: &[u8], top: &[u8]) -> (fb: Vec<u8>)
    requires
        area@.len() >= WIDTH * (HEIGHT - TOP_H) * 4,
        top@.len() >= WIDTH * TOP_H * 4,
    ensures
        fb@.len() == PIXELS * 4,
        forall|u: int, v: int|
            in_panel(u, v) ==> #[trigger] rgba_at(fb@, u, v) == empty_px(area@, top@, u, v),
{
    let mut fb: Vec<u8> = white_frame();
    blit(&mut fb, area, WIDTH, HEIGHT - TOP_H, 0, TOP_H);
    blit(&mut fb, top, WIDTH, TOP_H, 0, 0);
    hline_black(&mut fb, TOP_H - 2, 2);
    fb
}

// -------------------------------------------------------- scroll indicator

/// Least height of the scroll indicator's thumb.
pub const MIN_THUMB: i128 = 60;

/// Height of the thumb as a fraction: the share of the card that the window shows,
/// but not less than the least height. The content height is in hundredths.
pub open spec fn thumb_height(content_h: int) -> (int, int) {
    if CARD_H * CARD_H * 100 >= MIN_THUMB * content_h {
        (CARD_H * CARD_H * 100, content_h)
    } else {
        (MIN_THUMB as int, 1)
    }
}

/// The whole part of a fraction with a positive denominator; 0 below zero.
pub open spec fn whole(n: int, d: int) -> int {
    if n < 0 {
        0
    } else {
        n / d
    }
}

/// First row of the thumb and the row behind it: the thumb moves over the track as
/// the scroll offset moves from 0 to its greatest value.
pub open spec fn thumb_rows(scroll: int, max_scroll: int, content_h: int) -> (int, int) {
    let (h, d) = thumb_height(content_h);
    let top = scroll * (CARD_H * d - h);
    (whole(top, max_scroll * d), whole(top + h * max_scroll, max_scroll * d))
}

/// Pixel `(u, v)` of the window belongs to the thumb.
pub open spec fn in_thumb(scroll: int, max_scroll: int, content_h: int, u: int, v: int) -> bool {
    &&& max_scroll > 0
    &&& content_h > 0
    &&& WIDTH - 8 <= u < WIDTH - 2
    &&& thumb_rows(scroll, max_scroll, content_h).0 <= v < thumb_rows(
        scroll,
        max_scroll,
        content_h,
    ).1
}

fn whole_part(n: i128, d: i128) -> (q: i128)
    requires
        d > 0,
    ensures
        q == whole(n as int, d as int),
        q >= 0,
{
    if n < 0 {
        0
    } else {
        assert(n as int / d as int >= 0) by (nonlinear_arith)
            requires
                n >= 0,
                d > 0,
        ;
        n / d
    }
}

/// Draws the scroll position along the right edge of the card window. Offsets and
/// heights are in hundredths of a pixel; a card that fits has no indicator.
pub fn draw_scroll_indicator(window: &mut [u8], scroll: i32, max_scroll: i32, content_h: i32)
    requires
        old(window)@.len() >= WIDTH * CARD_H * 4,
    ensures
        same_tail(final(window)@, old(window)@, WIDTH * CARD_H * 4),
        forall|u: int, v: int|
            0 <= u < WIDTH && 0 <= v < CARD_H ==> #[trigger] rgba_at(final(window)@, u, v) == (
            if in_thumb(scroll as int, max_scroll as int, content_h as int, u, v) {
                (60u8, 60u8, 60u8, 255u8)
            } else {
                rgba_at(old(window)@, u, v)
            }),
{
    if max_scroll <= 0 || content_h <= 0 {
        return;
    }
    let (s, m, c): (i128, i128, i128) = (scroll as i128, max_scroll as i128, content_h as i128);
    let track: i128 = CARD_H as i128;
    assert(track * track == 3_276_100) by (nonlinear_arith)
        requires
            track == 1810,
    ;
    let (h, d): (i128, i128) = if track * track * 100 >= MIN_THUMB * c {
        (track * track * 100, c)
    } else {
        (MIN_THUMB, 1)
    };
    let free: i128 = track * d - h;
    assert(-0x8000_0000 * 0x400_0000_0000 <= s * free <= 0x8000_0000 * 0x400_0000_0000)
        by (nonlinear_arith)
        requires
            -0x8000_0000 <= s <= 0x8000_0000,
            -0x400_0000_0000 <= free <= 0x400_0000_0000,
    ;
    assert(0 < m * d <= 0x8000_0000 * 0x8000_0000) by (nonlinear_arith)
        requires
            0 < m <= 0x8000_0000,
            0 < d <= 0x8000_0000,
    ;
    assert(0 <= h * m <= 0x4000_0000 * 0x8000_0000) by (nonlinear_arith)
        requires
            0 < m <= 0x8000_0000,
            0 <= h <= 0x4000_0000,
    ;
    let top: i128 = s * free;
    let y0: i128 = whole_part(top, m * d);
    let y1: i128 = whole_part(top + h * m, m * d);
    let end: usize = if y1 < track {
        y1 as usize
    } else {
        CARD_H
    };
    if y0 >= end as i128 {
        return;
    }
    let begin: usize = y0 as usize;
    let ghost before = window@;
    let mut y: usize = begin;
    while y < end
        invariant
            same_tail(window@, before, WIDTH * CARD_H * 4),
            before.len() >= WIDTH * CARD_H * 4,
            begin <= y <= end <= CARD_H,
            forall|u: int, v: int|
                0 <= u < WIDTH && 0 <= v < CARD_H ==> #[trigger] rgba_at(window@, u, v) == (
                if WIDTH - 8 <= u < WIDTH - 2 && begin <= v < y {
                    (60u8, 60u8, 60u8, 255u8)
                } else {
                    rgba_at(before, u, v)
                }),
        decreases end - y,
    {
        let mut x: usize = WIDTH - 8;
        while x < WIDTH - 2
            invariant
                same_tail(window@, before, WIDTH * CARD_H * 4),
                before.len() >= WIDTH * CARD_H * 4,
                begin <= y < end <= CARD_H,
                WIDTH - 8 <= x <= WIDTH - 2,
                forall|u: int, v: int|
                    0 <= u < WIDTH && 0 <= v < CARD_H ==> #[trigger] rgba_at(window@, u, v) == (
                    if WIDTH - 8 <= u < WIDTH - 2 && begin <= v && (v < y || v == y && u < x) {
                        (60u8, 60u8, 60u8, 255u8)
                    } else {
                        rgba_at(before, u, v)
                    }),
            decreases WIDTH - 2 - x,
        {
            proof {
                lemma_cell_inside(x as int, y as int, CARD_H as int);
                assert forall|u: int, v: int| 0 <= u < WIDTH && 0 <= v < CARD_H implies #[trigger]
                    cell(u, v) * 4 + 4 <= before.len() by {
                    lemma_cell_inside(u, v, CARD_H as int);
                }
            }
            put_rgba(window, x, y, (60, 60, 60, 255));
            x += 1;
        }
        y += 1;
    }
}

/// While the scroll offset stays in range, the thumb stays on the track.
pub proof fn law_thumb_stays_on_track(scroll: int, max_scroll: int, content_h: int)
    requires
        0 <= scroll <= max_scroll,
        0 < max_scroll,
        content_h >= CARD_H * 100,
    ensures
        0 <= thumb_rows(scroll, max_scroll, content_h).0,
        thumb_rows(scroll, max_scroll, content_h).1 <= CARD_H,
        thumb_rows(scroll, max_scroll, content_h).0 < thumb_rows(scroll, max_scroll, content_h).1,
{
    let (h, d) = thumb_height(content_h);
    let free = CARD_H * d - h;
    let top = scroll * free;
    assert(MIN_THUMB * d <= h);
    assert(free >= 0) by (nonlinear_arith)
        requires
            free == 1810 * d - h,
            h == 1810 * 1810 * 100 && d >= 1810 * 100 || h == 60 && d == 1,
    ;
    assert(0 <= top <= max_scroll * free) by (nonlinear_arith)
        requires
            top == scroll * free,
            0 <= scroll <= max_scroll,
            0 <= free,
    ;
    assert(max_scroll * d >= 1) by (nonlinear_arith)
        requires
            max_scroll >= 1,
            d >= 1,
    ;
    assert(top + h * max_scroll <= CARD_H * (max_scroll * d)) by (nonlinear_arith)
        requires
            top <= max_scroll * free,
            free == CARD_H * d - h,
    ;
    let m = max_scroll * d;
    assert((top + h * max_scroll) / m <= CARD_H) by (nonlinear_arith)
        requires
            top + h * max_scroll <= CARD_H * m,
            m >= 1,
    ;
    assert(h * max_scroll >= m) by (nonlinear_arith)
        requires
            h >= MIN_THUMB * d,
            m == max_scroll * d,
            MIN_THUMB == 60,
            max_scroll >= 1,
            d >= 1,
    ;
    assert(top / m < (top + h * max_scroll) / m) by (nonlinear_arith)
        requires
            h * max_scroll >= m,
            m >= 1,
    ;
    assert(top / m >= 0) by (nonlinear_arith)
        requires
            top >= 0,
            m >= 1,
    ;
}

/// A pixel over another is the mean of the two, weighted by its alpha and rounded down,
/// and opaque; a transparent one leaves the other as it is.
pub proof fn law_pixels_blend_by_alpha(s: Px, d: Px)
    ensures
        s.3 == 0 ==> over(s, d) == d,
        s.3 > 0 ==> {
            let p = over(s, d);
            let a = s.3 as int;
            &&& p.3 == 255
            &&& 255 * p.0 <= s.0 * a + d.0 * (255 - a) < 255 * p.0 + 255
            &&& 255 * p.1 <= s.1 * a + d.1 * (255 - a) < 255 * p.1 + 255
            &&& 255 * p.2 <= s.2 * a + d.2 * (255 - a) < 255 * p.2 + 255
        },
{
    lemma_mixed(s.0, d.0, s.3);
    lemma_mixed(s.1, d.1, s.3);
    lemma_mixed(s.2, d.2, s.3);
}

proof fn lemma_mixed(s: u8, d: u8, a: u8)
    ensures
        255 * mixed(s, d, a) <= s * a + d * (255 - a) < 255 * mixed(s, d, a) + 255,
{
    assert(0 <= s * a + d * (255 - a) <= 255 * 255) by (nonlinear_arith)
        requires
            0 <= s <= 255,
            0 <= d <= 255,
            0 <= a <= 255,
    ;
}

/// The grey of a pixel is its brightness: 0.299 of the red, 0.587 of the green and 0.114
/// of the blue, rounded down, the same in all three channels; its alpha stays.
pub proof fn law_grey_is_the_brightness(p: Px)
    ensures
        grey(p).0 == grey(p).1 && grey(p).1 == grey(p).2 && grey(p).3 == p.3,
        1000 * grey(p).0 <= 299 * p.0 + 587 * p.1 + 114 * p.2 < 1000 * grey(p).0 + 1000,
        grey((0, 0, 0, p.3)) == (0u8, 0u8, 0u8, p.3),
        grey((255, 255, 255, p.3)) == (255u8, 255u8, 255u8, p.3),
{
}

/// An image is laid where it is put and nowhere else: its pixel in column `i` and row `j`
/// comes `i` columns and `j` rows behind its place. Its pixels lie row by row, four bytes
/// each.
pub proof fn law_images_are_laid_where_they_are_put(
    d: Px,
    src: Seq<u8>,
    w: int,
    h: int,
    x: int,
    y: int,
    i: int,
    j: int,
)
    ensures
        0 <= i < w && 0 <= j < h ==> laid(d, src, w, h, x, y, x + i, y + j) == over(
            (
                src[4 * (j * w + i)],
                src[4 * (j * w + i) + 1],
                src[4 * (j * w + i) + 2],
                src[4 * (j * w + i) + 3],
            ),
            d,
        ),
        !(0 <= i < w && 0 <= j < h) ==> laid(d, src, w, h, x, y, x + i, y + j) == d,
        px_at(src, i) == (src[4 * i], src[4 * i + 1], src[4 * i + 2], src[4 * i + 3]),
{
}

/// The pixel of an image of the panel's width, in colour or grey, over white.
pub open spec fn over_white(src: Seq<u8>, u: int, v: int, mono: bool) -> Px {
    let p = over(
        (
            src[4 * (1620 * v + u)],
            src[4 * (1620 * v + u) + 1],
            src[4 * (1620 * v + u) + 2],
            src[4 * (1620 * v + u) + 3],
        ),
        (255, 255, 255, 255),
    );
    if mono {
        grey(p)
    } else {
        p
    }
}

/// The review screen, with the menu closed and beside its button: the status bar in the
/// upper 108 rows, the card from row 110 to row 1919, the action bar from row 1922 down,
/// and two black rows between each two of them.
pub proof fn law_review_screen_is_laid_out(
    window: Seq<u8>,
    top: Seq<u8>,
    bottom: Seq<u8>,
    button: Seq<u8>,
    panel: Seq<u8>,
    mono: bool,
    u: int,
    v: int,
)
    requires
        0 <= u < 1620,
        0 <= v < 2160,
        !(1486 <= u < 1590 && 1786 <= v < 1890),
    ensures
        ({
            let p = review_px(window, top, bottom, button, panel, MenuState::Closed, mono, u, v);
            &&& v < 108 ==> p == over_white(top, u, v, mono)
            &&& 108 <= v < 110 || 1920 <= v < 1922 ==> p == (0u8, 0u8, 0u8, 255u8)
            &&& 110 <= v < 1920 ==> p == over_white(window, u, v - 110, mono)
            &&& 1922 <= v ==> p == over_white(bottom, u, v - 1920, mono)
        }),
{
    assert(v * 1620 == 1620 * v);
    assert((v - 110) * 1620 == 1620 * (v - 110));
    assert((v - 1920) * 1620 == 1620 * (v - 1920));
}

/// The menu lies over the card: its button 30 pixels from the card's lower right corner,
/// an open panel above it, with a row of 118 pixels for each of its items; it hides
/// nothing elsewhere.
pub proof fn law_menu_lies_over_the_card(
    d: Px,
    button: Seq<u8>,
    panel: Seq<u8>,
    menu: MenuState,
    u: int,
    v: int,
)
    ensures
        ({
            let high = match menu {
                MenuState::Closed => 0int,
                MenuState::Root => 354,
                MenuState::Flags => 944,
            };
            let p = with_menu(d, button, panel, menu, u, v);
            let on_button = 1486 <= u < 1590 && 1786 <= v < 1890;
            let on_panel = 1070 <= u < 1590 && 1772 - high <= v < 1772;
            &&& on_button ==> p == over(px_at(button, (v - 1786) * 104 + (u - 1486)), d)
            &&& on_panel ==> p == over(px_at(panel, (v - (1772 - high)) * 520 + (u - 1070)), d)
            &&& !on_button && !on_panel ==> p == d
        }),
{
}

/// Painting the card band anew changes the rows from 110 to 1919 and no others.
pub proof fn law_patch_keeps_the_bars(
    before: Px,
    window: Seq<u8>,
    button: Seq<u8>,
    panel: Seq<u8>,
    mono: bool,
    u: int,
    v: int,
)
    requires
        0 <= u < 1620,
        0 <= v < 2160,
    ensures
        ({
            let p = patched_px(before, window, button, panel, MenuState::Closed, mono, u, v);
            &&& v < 110 || v >= 1920 ==> p == before
            &&& 110 <= v < 1920 && !(1486 <= u < 1590 && 1786 <= v < 1890) ==> p == over_white(
                window,
                u,
                v - 110,
                mono,
            )
        }),
{
    assert((v - 110) * 1620 == 1620 * (v - 110));
}

/// Without a card the status bar keeps its place, with the two black rows below it, and
/// the message takes the rest.
pub proof fn law_empty_screen_is_laid_out(area: Seq<u8>, top: Seq<u8>, u: int, v: int)
    requires
        0 <= u < 1620,
        0 <= v < 2160,
    ensures
        v < 108 ==> empty_px(area, top, u, v) == over_white(top, u, v, false),
        108 <= v < 110 ==> empty_px(area, top, u, v) == (0u8, 0u8, 0u8, 255u8),
        110 <= v ==> empty_px(area, top, u, v) == over_white(area, u, v - 110, false),
{
    assert(v * 1620 == 1620 * v);
    assert((v - 110) * 1620 == 1620 * (v - 110));
}

/// The scroll indicator stands in six columns at the right edge. At the top of the card it
/// starts with the first row, at the end it reaches the last; it moves down with the
/// offset; and it is as high as the share of the card that the window shows, but 60 rows
/// at least. A card that fits has none.
pub proof fn law_indicator_follows_the_offset(
    scroll: int,
    later: int,
    max_scroll: int,
    content_h: int,
    u: int,
    v: int,
)
    requires
        0 <= scroll <= later <= max_scroll,
        0 < max_scroll,
        content_h >= 181_000,
    ensures
        ({
            let first = thumb_rows(0, max_scroll, content_h);
            let last = thumb_rows(max_scroll, max_scroll, content_h);
            let now = thumb_rows(scroll, max_scroll, content_h);
            let then_rows = thumb_rows(later, max_scroll, content_h);
            &&& first.0 == 0
            &&& content_h * 60 <= 327_610_000 ==> content_h * first.1 <= 327_610_000 < content_h * (
            first.1 + 1)
            &&& content_h * 60 > 327_610_000 ==> first.1 == 60
            &&& last.1 == 1810
            &&& now.0 <= then_rows.0 && now.1 <= then_rows.1
            &&& in_thumb(scroll, max_scroll, content_h, u, v) == (1612 <= u < 1618 && now.0 <= v
                < now.1)
            &&& !in_thumb(scroll, 0, content_h, u, v)
        }),
{
    let (h, d) = thumb_height(content_h);
    let free = CARD_H * d - h;
    let m = max_scroll;
    assert(CARD_H * CARD_H * 100 == 327_610_000) by (nonlinear_arith)
        requires
            CARD_H == 1810,
    ;
    assert(free >= 0) by (nonlinear_arith)
        requires
            free == 1810 * d - h,
            h == 327_610_000 && d >= 181_000 || h == 60 && d == 1,
    ;
    assert(m * d >= 1) by (nonlinear_arith)
        requires
            m >= 1,
            d >= 1,
    ;
    assert(0 * free == 0);
    assert(0int / (m * d) == 0) by (nonlinear_arith)
        requires
            m * d >= 1,
    ;
    assert((h * m) / (m * d) == h / d) by (nonlinear_arith)
        requires
            m >= 1,
            d >= 1,
            h >= 0,
    ;
    assert(d * (h / d) <= h < d * (h / d + 1)) by (nonlinear_arith)
        requires
            d >= 1,
    ;
    if content_h * 60 > 327_610_000 {
        assert(60int / 1 == 60);
    }
    assert(m * free + h * m == 1810 * (m * d)) by (nonlinear_arith)
        requires
            free == 1810 * d - h,
    ;
    assert((1810 * (m * d)) / (m * d) == 1810) by (nonlinear_arith)
        requires
            m * d >= 1,
    ;
    assert(0 <= scroll * free <= later * free) by (nonlinear_arith)
        requires
            0 <= scroll <= later,
            0 <= free,
    ;
    assert(h * m >= 0) by (nonlinear_arith)
        requires
            h >= 0,
            m >= 0,
    ;
    lemma_whole_grows(scroll * free, later * free, m * d);
    lemma_whole_grows(scroll * free + h * m, later * free + h * m, m * d);
    assert(m * free >= 0) by (nonlinear_arith)
        requires
            m >= 0,
            free >= 0,
    ;
}

proof fn lemma_whole_grows(a: int, b: int, d: int)
    requires
        0 <= a <= b,
        d >= 1,
    ensures
        whole(a, d) <= whole(b, d),
{
    assert(a / d <= b / d) by (nonlinear_arith)
        requires
            0 <= a <= b,
            d >= 1,
    ;
}

} // verus!
