use ankimarkable::compose::{
    blit, compose_review, compose_review_empty, desaturate, desaturate_rows,
    draw_scroll_indicator, hline_black, patch_card_band,
};
use ankimarkable::frame::{BOTTOM_H, CARD_H, HEIGHT, PIXELS, TOP_H, WIDTH};
use ankimarkable::ui::{MenuState, MENU_BTN, MENU_ITEM_H, MENU_PANEL_W};

fn solid(w: usize, h: usize, px: [u8; 4]) -> Vec<u8> {
    px.iter().copied().cycle().take(w * h * 4).collect()
}

fn at(fb: &[u8], x: usize, y: usize) -> [u8; 4] {
    let i = (y * WIDTH + x) * 4;
    [fb[i], fb[i + 1], fb[i + 2], fb[i + 3]]
}

#[test]
fn blit_blends_by_alpha_and_clips() {
    let mut fb = solid(WIDTH, HEIGHT, [255, 255, 255, 255]);
    let src = vec![10, 20, 30, 0, 10, 20, 30, 128, 10, 20, 30, 255];
    blit(&mut fb, &src, 3, 1, 100, 200);
    assert_eq!(at(&fb, 100, 200), [255, 255, 255, 255]);
    assert_eq!(at(&fb, 101, 200), [132, 137, 142, 255]);
    assert_eq!(at(&fb, 102, 200), [10, 20, 30, 255]);
    blit(&mut fb, &src, 3, 1, WIDTH - 1, 0);
    blit(&mut fb, &src, 1, 3, 0, HEIGHT - 2);
    assert_eq!(at(&fb, 0, HEIGHT - 1), [132, 137, 142, 255]);
    assert_eq!(at(&fb, 0, 1), [255, 255, 255, 255]);
    blit(&mut fb, &src, 3, 1, usize::MAX, usize::MAX);
    blit(&mut fb, &[1, 2, 3, 255], 5, 5, WIDTH - 1, HEIGHT - 1);
    assert_eq!(at(&fb, WIDTH - 1, HEIGHT - 1), [1, 2, 3, 255]);
    blit(&mut fb, &[], 5, 5, 0, HEIGHT);
}

#[test]
fn lines_and_greys() {
    let mut fb = solid(WIDTH, HEIGHT, [200, 100, 50, 77]);
    hline_black(&mut fb, 5, 2);
    assert_eq!(at(&fb, 0, 4), [200, 100, 50, 77]);
    assert_eq!(at(&fb, 1619, 5), [0, 0, 0, 255]);
    assert_eq!(at(&fb, 0, 7), [200, 100, 50, 77]);
    hline_black(&mut fb, HEIGHT, 2);
    desaturate_rows(&mut fb, 10, 11);
    assert_eq!(at(&fb, 3, 10), [124, 124, 124, 77]);
    assert_eq!(at(&fb, 3, 11), [200, 100, 50, 77]);
    desaturate_rows(&mut fb, 10, 11);
    assert_eq!(at(&fb, 3, 10), [124, 124, 124, 77]);
}

#[test]
fn any_buffer_is_greyed() {
    let mut buf = vec![200, 100, 50, 77, 0, 255, 0, 1, 9, 8, 7];
    desaturate(&mut buf);
    let once = vec![124, 124, 124, 77, 149, 149, 149, 1, 9, 8, 7];
    assert_eq!(buf, once);
    desaturate(&mut buf);
    assert_eq!(buf, once);
    desaturate(&mut []);
}

#[test]
fn bytes_behind_the_picture_stay() {
    let mut fb = vec![9u8; PIXELS * 4 + 5];
    let (card, _, _, button) = pieces();
    blit(&mut fb, &card, WIDTH, CARD_H, 0, 400);
    hline_black(&mut fb, HEIGHT - 1, 9);
    patch_card_band(&mut fb, &card, &button, &[], MenuState::Closed, true);
    assert_eq!(&fb[PIXELS * 4..], &[9, 9, 9, 9, 9]);
    let mut window = vec![9u8; WIDTH * CARD_H * 4 + 5];
    draw_scroll_indicator(&mut window, 181_000, 181_000, 362_000);
    assert_eq!(&window[WIDTH * CARD_H * 4..], &[9, 9, 9, 9, 9]);
}

fn pieces() -> (Vec<u8>, Vec<u8>, Vec<u8>, Vec<u8>) {
    (
        solid(WIDTH, CARD_H, [250, 240, 230, 255]),
        solid(WIDTH, TOP_H, [1, 2, 3, 255]),
        solid(WIDTH, BOTTOM_H, [4, 5, 6, 255]),
        solid(MENU_BTN, MENU_BTN, [70, 80, 90, 255]),
    )
}

#[test]
fn the_review_screen() {
    let (card, top, bottom, button) = pieces();
    let fb = compose_review(&card, &top, &bottom, &button, &[], MenuState::Closed, false);
    assert_eq!(fb.len(), PIXELS * 4);
    assert_eq!(at(&fb, 7, 0), [1, 2, 3, 255]);
    assert_eq!(at(&fb, 7, 107), [1, 2, 3, 255]);
    assert_eq!(at(&fb, 7, 108), [0, 0, 0, 255]);
    assert_eq!(at(&fb, 7, 109), [0, 0, 0, 255]);
    assert_eq!(at(&fb, 7, 110), [250, 240, 230, 255]);
    assert_eq!(at(&fb, 1486, 1786), [70, 80, 90, 255]);
    assert_eq!(at(&fb, 7, 1920), [0, 0, 0, 255]);
    assert_eq!(at(&fb, 7, 1922), [4, 5, 6, 255]);
    let panel = solid(MENU_PANEL_W, MENU_ITEM_H * 3, [9, 9, 9, 255]);
    let fb = compose_review(&card, &top, &bottom, &button, &panel, MenuState::Root, true);
    assert_eq!(at(&fb, 1070, 1418), [9, 9, 9, 255]);
    assert_eq!(at(&fb, 1069, 1418), [241, 241, 241, 255]);
    assert_eq!(at(&fb, 7, 0), [1, 1, 1, 255]);
}

#[test]
fn patching_matches_composing() {
    let (card, top, bottom, button) = pieces();
    let other = solid(WIDTH, CARD_H, [10, 200, 30, 100]);
    for mono in [false, true] {
        let mut fb = compose_review(&card, &top, &bottom, &button, &[], MenuState::Closed, mono);
        let want = compose_review(&other, &top, &bottom, &button, &[], MenuState::Closed, mono);
        assert_ne!(fb, want);
        patch_card_band(&mut fb, &other, &button, &[], MenuState::Closed, mono);
        assert_eq!(fb, want);
    }
}

#[test]
fn the_empty_review_screen() {
    let area = solid(WIDTH, HEIGHT - TOP_H, [50, 50, 50, 0]);
    let top = solid(WIDTH, TOP_H, [1, 2, 3, 255]);
    let fb = compose_review_empty(&area, &top);
    assert_eq!(at(&fb, 0, 0), [1, 2, 3, 255]);
    assert_eq!(at(&fb, 0, 109), [0, 0, 0, 255]);
    assert_eq!(at(&fb, 0, 110), [255, 255, 255, 255]);
    assert_eq!(at(&fb, 0, 2159), [255, 255, 255, 255]);
}

fn thumb(scroll: i32, max: i32, content: i32) -> Option<(usize, usize)> {
    let mut w = solid(WIDTH, CARD_H, [255, 255, 255, 255]);
    draw_scroll_indicator(&mut w, scroll, max, content);
    let dark = |y: usize| at(&w, 1613, y) == [60, 60, 60, 255];
    assert!((0..CARD_H).all(|y| at(&w, 1611, y)[0] == 255 && at(&w, 1618, y)[0] == 255));
    let first = (0..CARD_H).find(|&y| dark(y))?;
    let last = (0..CARD_H).rev().find(|&y| dark(y))?;
    Some((first, last + 1))
}

#[test]
fn the_scroll_indicator() {
    assert_eq!(thumb(0, 0, 100_000), None);
    assert_eq!(thumb(0, 100, 0), None);
    assert_eq!(thumb(0, 181_000, 362_000), Some((0, 905)));
    assert_eq!(thumb(181_000, 181_000, 362_000), Some((905, 1810)));
    assert_eq!(thumb(90_500, 181_000, 362_000), Some((452, 1357)));
    assert_eq!(thumb(0, 1_000_000, 20_000_000), Some((0, 60)));
    assert_eq!(thumb(1_000_000, 1_000_000, 20_000_000), Some((1750, 1810)));
    assert_eq!(thumb(-500, 1000, 362_000), Some((0, 452)));
}
