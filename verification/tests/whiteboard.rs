use ankimarkable::frame::{CARD_H, CARD_Y, HEIGHT, PIXELS, WIDTH};
use ankimarkable::ink::{segment_ink, stamp};
use ankimarkable::pen::PenSample;
use ankimarkable::qtfb::{
    ClientMessage, REFRESH_MODE_ANIMATE, REFRESH_MODE_CONTENT, REFRESH_MODE_FAST, UPDATE_ALL,
    UPDATE_PARTIAL,
};
use ankimarkable::whiteboard::{in_card, Refresh, Whiteboard};

fn sample(x: i32, y: i32, w: u8) -> PenSample {
    PenSample { x, y, w, down: false, up: false, erase: false }
}

fn lift(x: i32, y: i32) -> PenSample {
    PenSample { x, y, w: 2, down: false, up: true, erase: false }
}

fn shm() -> Vec<u8> {
    vec![0u8; PIXELS * 3]
}

fn red(shm: &[u8], x: usize, y: usize) -> u8 {
    shm[(y * WIDTH + x) * 3]
}

fn full() -> Refresh {
    Refresh {
        mode: REFRESH_MODE_CONTENT,
        update: ClientMessage::Update { msg_type: UPDATE_ALL, x: 0, y: 0, w: 0, h: 0 },
    }
}

fn part(mode: i32, x: i32, y: i32, w: i32, h: i32) -> Refresh {
    Refresh { mode, update: ClientMessage::Update { msg_type: UPDATE_PARTIAL, x, y, w, h } }
}

#[test]
fn card_band_rows() {
    assert!(!in_card(109));
    assert!(in_card(110));
    assert!(in_card(1919));
    assert!(!in_card(1920));
    assert!(!in_card(-1));
    assert_eq!(CARD_Y, 110);
    assert_eq!(CARD_H, 1810);
    assert_eq!(HEIGHT, 2160);
}

#[test]
fn stamp_is_a_disc_clipped_to_the_band() {
    let mut ink = vec![0u8; PIXELS];
    stamp(&mut ink, 500, 500, 2, false);
    let covered: usize = ink.iter().filter(|&&c| c == 255).count();
    assert_eq!(covered, 13);
    assert_eq!(ink[500 * WIDTH + 502], 255);
    assert_eq!(ink[501 * WIDTH + 502], 0);
    stamp(&mut ink, 500, 500, 1, true);
    assert_eq!(ink.iter().filter(|&&c| c == 255).count(), 8);
    let mut edge = vec![0u8; PIXELS];
    stamp(&mut edge, 0, 110, 1, false);
    assert_eq!(edge.iter().filter(|&&c| c == 255).count(), 3);
    assert_eq!(edge[109 * WIDTH], 0);
}

#[test]
fn segment_reaches_both_ends() {
    let mut ink = vec![0u8; PIXELS];
    segment_ink(&mut ink, 100, 200, 110, 203, 1, false);
    assert_eq!(ink[200 * WIDTH + 100], 255);
    assert_eq!(ink[203 * WIDTH + 110], 255);
    assert_eq!(ink[201 * WIDTH + 104], 255);
    assert_eq!(ink[206 * WIDTH + 110], 0);
}

#[test]
fn a_new_board_is_white_and_clean() {
    let mut wb = Whiteboard::new();
    let mut fb = shm();
    assert!(!wb.has_ink());
    assert!(!wb.is_inking());
    assert!(!wb.has_pending_ink());
    assert!(!wb.needs_settle());
    assert!(!wb.eraser);
    assert_eq!(wb.blit_full(&mut fb), full());
    assert!(fb.iter().all(|&b| b == 255));
    assert!(!Whiteboard::default().has_ink());
}

#[test]
fn inking_darkens_the_framebuffer_and_asks_for_the_fast_waveform() {
    let mut wb = Whiteboard::new();
    let mut fb = shm();
    wb.blit_full(&mut fb);
    wb.ink_sample(sample(800, 900, 6), &mut fb);
    assert!(wb.is_inking());
    assert!(wb.has_ink());
    assert_eq!(red(&fb, 800, 900), 0);
    assert_eq!(red(&fb, 803, 900), 0);
    assert_eq!(red(&fb, 804, 900), 255);
    assert_eq!(wb.flush_ink(), Some(part(REFRESH_MODE_ANIMATE, 796, 896, 9, 9)));
    wb.ink_flushed(false);
    assert!(wb.has_pending_ink());
    assert!(!wb.needs_settle());
    wb.ink_flushed(true);
    assert!(!wb.has_pending_ink());
    assert!(wb.needs_settle());
    assert_eq!(wb.flush_ink(), None);
    assert_eq!(wb.settle_color(), Some(part(REFRESH_MODE_CONTENT, 796, 896, 9, 9)));
    assert_eq!(wb.settle_color(), None);
}

#[test]
fn dirty_regions_grow_together() {
    let mut wb = Whiteboard::new();
    let mut fb = shm();
    wb.ink_sample(sample(100, 200, 2), &mut fb);
    wb.ink_sample(lift(100, 200), &mut fb);
    wb.ink_sample(sample(120, 260, 2), &mut fb);
    assert_eq!(wb.flush_ink(), Some(part(REFRESH_MODE_ANIMATE, 98, 198, 25, 65)));
}

#[test]
fn samples_outside_the_band_break_the_line() {
    let mut wb = Whiteboard::new();
    let mut fb = shm();
    wb.blit_full(&mut fb);
    wb.ink_sample(sample(300, 115, 2), &mut fb);
    wb.ink_sample(sample(300, 50, 2), &mut fb);
    wb.ink_sample(sample(340, 115, 2), &mut fb);
    assert_eq!(red(&fb, 300, 115), 0);
    assert_eq!(red(&fb, 340, 115), 0);
    assert_eq!(red(&fb, 320, 115), 255);
    assert_eq!(red(&fb, 300, 109), 255);
}

#[test]
fn columns_beyond_the_edge_are_brought_back() {
    let mut wb = Whiteboard::new();
    let mut fb = shm();
    wb.blit_full(&mut fb);
    wb.ink_sample(sample(1620, 500, 2), &mut fb);
    assert_eq!(red(&fb, 1619, 500), 0);
    assert_eq!(wb.flush_ink(), Some(part(REFRESH_MODE_ANIMATE, 1617, 498, 3, 5)));
}

#[test]
fn both_erasers_erase() {
    let mut wb = Whiteboard::new();
    let mut fb = shm();
    wb.blit_full(&mut fb);
    wb.ink_sample(sample(400, 400, 6), &mut fb);
    wb.ink_sample(lift(400, 400), &mut fb);
    let mut flipped = sample(420, 400, 2);
    flipped.erase = true;
    wb.ink_sample(flipped, &mut fb);
    wb.ink_sample(lift(420, 400), &mut fb);
    assert_eq!(red(&fb, 400, 400), 255);
    wb.ink_sample(sample(700, 700, 6), &mut fb);
    wb.ink_sample(lift(700, 700), &mut fb);
    wb.toggle_eraser();
    assert!(wb.eraser);
    assert!(wb.is_erasing());
    wb.ink_sample(sample(700, 700, 2), &mut fb);
    assert_eq!(red(&fb, 700, 700), 255);
}

#[test]
fn undo_takes_back_the_last_stroke() {
    let mut wb = Whiteboard::new();
    let mut fb = shm();
    wb.blit_full(&mut fb);
    wb.ink_sample(sample(200, 300, 4), &mut fb);
    wb.ink_sample(sample(260, 330, 4), &mut fb);
    wb.ink_sample(lift(260, 330), &mut fb);
    let one = fb.clone();
    wb.ink_sample(sample(900, 900, 4), &mut fb);
    wb.ink_sample(sample(950, 880, 4), &mut fb);
    wb.ink_sample(lift(950, 880), &mut fb);
    assert_ne!(fb, one);
    assert_eq!(wb.undo(&mut fb), Some(full()));
    assert_eq!(fb, one);
    assert_eq!(wb.undo(&mut fb), Some(full()));
    assert!(fb.iter().all(|&b| b == 255));
    assert_eq!(wb.undo(&mut fb), None);
}

#[test]
fn live_ink_matches_replay_at_zoom_one() {
    let mut wb = Whiteboard::new();
    let mut fb = shm();
    for (x, y, w) in [(100, 400, 2), (180, 450, 6), (300, 430, 5), (310, 700, 3)] {
        wb.ink_sample(sample(x, y, w), &mut fb);
    }
    wb.end_stroke();
    wb.blit_full(&mut fb);
    let live = fb.clone();
    wb.set_view(12_300, 1000);
    wb.blit_full(&mut fb);
    assert_ne!(fb, live);
    assert_eq!(red(&fb, 100, 277), 0);
    wb.set_view(0, 1000);
    wb.blit_full(&mut fb);
    assert_eq!(fb, live);
}

#[test]
fn live_ink_matches_replay_in_every_view() {
    for (scroll, zoom) in [(0, 2000), (50, 1000), (12_345, 1337), (-777, 330), (3, 10_001)] {
        let mut wb = Whiteboard::new();
        let mut fb = shm();
        wb.set_view(scroll, zoom);
        wb.blit_full(&mut fb);
        for (x, y, w) in [(5, 500, 3), (101, 433, 6), (300, 50, 2), (310, 701, 5)] {
            wb.ink_sample(sample(x, y, w), &mut fb);
        }
        let mut flipped = sample(305, 650, 2);
        flipped.erase = true;
        wb.ink_sample(flipped, &mut fb);
        wb.ink_sample(lift(310, 701), &mut fb);
        let live = fb.clone();
        assert_eq!(red(&live, 4, 500), 0);
        wb.rebuild_ink();
        wb.blit_full(&mut fb);
        assert_eq!(fb, live);
        wb.set_view(scroll + 1, 777);
        wb.set_view(scroll, zoom);
        wb.blit_full(&mut fb);
        assert_eq!(fb, live);
    }
}

#[test]
fn a_stroke_that_left_the_band_is_replayed_with_its_gap() {
    let mut wb = Whiteboard::new();
    let mut fb = shm();
    wb.blit_full(&mut fb);
    wb.ink_sample(sample(100, 200, 2), &mut fb);
    wb.ink_sample(sample(100, 50, 2), &mut fb);
    wb.ink_sample(sample(300, 200, 2), &mut fb);
    wb.ink_sample(lift(300, 200), &mut fb);
    let live = fb.clone();
    assert_eq!(red(&live, 100, 200), 0);
    assert_eq!(red(&live, 300, 200), 0);
    assert_eq!(red(&live, 200, 200), 255);
    wb.set_view(50_000, 1000);
    wb.set_view(0, 1000);
    wb.blit_full(&mut fb);
    assert_eq!(fb, live);
}

#[test]
fn an_eraser_switched_within_a_stroke_is_replayed() {
    let mut wb = Whiteboard::new();
    let mut fb = shm();
    wb.blit_full(&mut fb);
    wb.ink_sample(sample(600, 600, 3), &mut fb);
    wb.ink_sample(sample(700, 600, 3), &mut fb);
    let mut flipped = sample(650, 600, 3);
    flipped.erase = true;
    wb.ink_sample(flipped, &mut fb);
    wb.ink_sample(lift(650, 600), &mut fb);
    let live = fb.clone();
    assert_eq!(red(&live, 600, 600), 0);
    assert_eq!(red(&live, 650, 600), 255);
    wb.set_view(50_000, 1000);
    wb.set_view(0, 1000);
    wb.blit_full(&mut fb);
    assert_eq!(fb, live);
}

#[test]
fn bytes_behind_the_screen_stay() {
    let mut wb = Whiteboard::new();
    let mut fb = vec![7u8; PIXELS * 3 + 5];
    wb.blit_full(&mut fb);
    wb.ink_sample(sample(200, 300, 4), &mut fb);
    wb.ink_sample(lift(200, 300), &mut fb);
    wb.blit_band_fast(&mut fb);
    wb.undo(&mut fb);
    wb.clear(&mut fb);
    assert_eq!(&fb[PIXELS * 3..], &[7u8; 5]);
    assert!(fb[..PIXELS * 3].iter().all(|&b| b == 255));
}

#[test]
fn zoom_moves_and_widens_the_ink() {
    let mut wb = Whiteboard::new();
    let mut fb = shm();
    wb.ink_sample(sample(100, 210, 6), &mut fb);
    wb.end_stroke();
    assert!(!wb.is_inking());
    wb.set_view(0, 2000);
    wb.blit_full(&mut fb);
    assert_eq!(red(&fb, 200, 310), 0);
    assert_eq!(red(&fb, 206, 310), 0);
    assert_eq!(red(&fb, 207, 310), 255);
    assert_eq!(red(&fb, 100, 210), 255);
}

#[test]
fn an_unchanged_view_keeps_the_stroke_going() {
    let mut wb = Whiteboard::new();
    let mut fb = shm();
    wb.ink_sample(sample(100, 210, 6), &mut fb);
    wb.set_view(0, 1000);
    assert!(wb.is_inking());
    wb.set_view(1, 1000);
    assert!(!wb.is_inking());
    assert!(wb.has_ink());
}

#[test]
fn set_base_keeps_the_ink() {
    let mut wb = Whiteboard::new();
    let mut fb = shm();
    wb.ink_sample(sample(500, 600, 4), &mut fb);
    wb.end_stroke();
    wb.set_base(vec![200u8; PIXELS * 4]);
    wb.blit_full(&mut fb);
    assert_eq!(red(&fb, 500, 600), 0);
    assert_eq!(red(&fb, 520, 600), 200);
    wb.base_mut()[(600 * WIDTH + 520) * 4] = 17;
    wb.blit_full(&mut fb);
    assert_eq!(red(&fb, 520, 600), 17);
}

#[test]
fn the_band_is_shown_fast_and_waits_for_colour() {
    let mut wb = Whiteboard::new();
    let mut fb = shm();
    assert_eq!(wb.blit_band_fast(&mut fb), part(REFRESH_MODE_FAST, 0, 110, 1620, 1810));
    assert_eq!(red(&fb, 0, 109), 0);
    assert_eq!(red(&fb, 0, 110), 255);
    assert_eq!(red(&fb, 1619, 1919), 255);
    assert_eq!(red(&fb, 0, 1920), 0);
    assert!(wb.needs_settle());
    wb.discard_settle();
    assert!(!wb.needs_settle());
}

#[test]
fn clearing_drops_everything() {
    let mut wb = Whiteboard::new();
    let mut fb = shm();
    wb.ink_sample(sample(500, 600, 4), &mut fb);
    assert_eq!(wb.clear(&mut fb), full());
    assert!(!wb.has_ink());
    assert!(!wb.has_pending_ink());
    assert!(fb.iter().all(|&b| b == 255));
    wb.ink_sample(sample(500, 600, 4), &mut fb);
    wb.clear_ink();
    assert!(!wb.has_ink());
    assert_eq!(wb.undo(&mut fb), None);
}

#[test]
fn a_stroke_without_points_is_dropped() {
    let mut wb = Whiteboard::new();
    let mut fb = shm();
    wb.ink_sample(sample(500, 50, 4), &mut fb);
    assert!(wb.is_inking());
    wb.ink_sample(lift(500, 50), &mut fb);
    assert!(!wb.has_ink());
}
