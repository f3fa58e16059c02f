use ankimarkable::backend::{Counts, Grade, Stats};
use ankimarkable::decks::DeckInfo;
use ankimarkable::frame::{PIXELS, WIDTH};
use ankimarkable::pen::PenSample;
use ankimarkable::qtfb::{
    ClientMessage, InputEvent, INPUT_TOUCH_PRESS, INPUT_TOUCH_RELEASE, REFRESH_MODE_CONTENT,
    UPDATE_ALL,
};
use ankimarkable::session::{wants_exit, Action, Session, Settle, Task};
use ankimarkable::ui::{MenuState, Phase};
use ankimarkable::whiteboard::Refresh;

fn deck(id: i64, name: &str, level: u32, has_children: bool) -> DeckInfo {
    DeckInfo {
        id,
        name: name.to_string(),
        level,
        has_children,
        collapsed: false,
        new: 0,
        learn: 0,
        review: 0,
    }
}

fn decks() -> Vec<DeckInfo> {
    vec![deck(5, "uni", 0, true), deck(6, "algo", 1, false), deck(7, "zoo", 0, false)]
}

fn full() -> Refresh {
    Refresh {
        mode: REFRESH_MODE_CONTENT,
        update: ClientMessage::Update { msg_type: UPDATE_ALL, x: 0, y: 0, w: 0, h: 0 },
    }
}

fn home() -> (Session, Vec<u8>) {
    let s = Session::new(decks(), Stats { streak: 4, reviewed_today: 0 });
    (s, vec![0u8; PIXELS * 3])
}

fn reviewing() -> (Session, Vec<u8>) {
    let (mut s, mut fb) = home();
    assert_eq!(s.touch(500, 110, &mut fb), Action::OpenDeck(5));
    s.card_loaded(Counts { new: 1, learning: 2, review: 3 }, true);
    (s, fb)
}

fn scribble(s: &mut Session, fb: &mut [u8]) {
    let p = PenSample { x: 500, y: 700, w: 4, down: true, up: false, erase: false };
    s.whiteboard().ink_sample(p, fb);
    s.whiteboard().end_stroke();
}

const EXIT: (i32, i32) = (1500, 50);
const SYNC: (i32, i32) = (1300, 50);
const CLEAR: (i32, i32) = (1200, 50);
const ERASER: (i32, i32) = (1000, 50);
const UNDO: (i32, i32) = (800, 50);
const HOME: (i32, i32) = (700, 50);
const COUNTS: (i32, i32) = (100, 50);
const MENU: (i32, i32) = (1500, 1800);
const SHOW: (i32, i32) = (800, 2000);

#[test]
fn the_home_screen_starts() {
    let (mut s, mut fb) = home();
    assert!(!s.reviewing());
    assert_eq!(s.visible().len(), 3);
    assert_eq!(s.scroll(), 0);
    assert_eq!(s.stats(), Stats { streak: 4, reviewed_today: 0 });
    assert_eq!(s.counts(), Counts { new: 0, learning: 0, review: 0 });
    assert_eq!(s.status(), "");
    assert_eq!(s.menu(), MenuState::Closed);
    assert!(!s.mono());
    assert_eq!(s.touch(EXIT.0, EXIT.1, &mut fb), Action::Quit);
    assert_eq!(s.touch(SYNC.0, SYNC.1, &mut fb), Action::Sync);
    assert_eq!(s.touch(10, 10, &mut fb), Action::Wait);
    assert_eq!(s.touch(500, 1000, &mut fb), Action::Wait);
}

#[test]
fn decks_collapse_and_expand() {
    let (mut s, mut fb) = home();
    assert_eq!(s.touch(40, 120, &mut fb), Action::DrawHome);
    assert_eq!(s.visible().len(), 2);
    assert!(s.visible()[0].collapsed);
    assert_eq!(s.touch(500, 230, &mut fb), Action::OpenDeck(7));
    assert_eq!(s.status(), "zoo");
    s.card_loaded(Counts { new: 0, learning: 0, review: 0 }, false);
    assert_eq!(s.touch(HOME.0, HOME.1, &mut fb), Action::ReloadHome);
    s.decks_loaded(decks());
    assert_eq!(s.visible().len(), 2);
    assert_eq!(s.touch(40, 120, &mut fb), Action::DrawHome);
    assert_eq!(s.visible().len(), 3);
    assert!(!s.visible()[0].collapsed);
}

#[test]
fn the_deck_list_pages() {
    let many: Vec<DeckInfo> = (0..40).map(|i| deck(i, "d", 0, false)).collect();
    let mut s = Session::new(many, Stats { streak: 0, reviewed_today: 0 });
    let mut fb = vec![0u8; PIXELS * 3];
    assert_eq!(s.touch(1200, 50, &mut fb), Action::DrawHome);
    assert_eq!(s.scroll(), 16);
    s.touch(1200, 50, &mut fb);
    assert_eq!(s.scroll(), 23);
    assert_eq!(s.touch(500, 110, &mut fb), Action::OpenDeck(23));
    s.touch(HOME.0, HOME.1, &mut fb);
    assert_eq!(s.touch(1100, 50, &mut fb), Action::DrawHome);
    assert_eq!(s.scroll(), 7);
    s.decks_loaded(decks());
    assert_eq!(s.scroll(), 0);
}

#[test]
fn a_review_goes_round() {
    let (mut s, mut fb) = reviewing();
    assert!(s.reviewing());
    assert_eq!(s.status(), "uni");
    assert_eq!(s.phase(), Phase::Question);
    scribble(&mut s, &mut fb);
    assert_eq!(s.touch(SHOW.0, SHOW.1, &mut fb), Action::Redraw);
    assert_eq!(s.phase(), Phase::Answer);
    assert!(s.whiteboard().has_ink());
    assert_eq!(s.touch(500, 2000, &mut fb), Action::Answer(Grade::Hard));
    assert_eq!(s.task_done(Task::Answer, Ok(())), Action::NextCard);
    s.card_loaded(Counts { new: 0, learning: 2, review: 3 }, true);
    assert!(!s.whiteboard().has_ink());
    assert_eq!(s.phase(), Phase::Question);
    assert_eq!(s.counts(), Counts { new: 0, learning: 2, review: 3 });
    assert_eq!(s.stats(), Stats { streak: 5, reviewed_today: 1 });
    assert_eq!(s.status(), "uni");
    assert_eq!(s.touch(UNDO.0, UNDO.1, &mut fb), Action::UndoGrade);
    assert_eq!(s.undo_done(false), Action::Wait);
    assert_eq!(s.stats(), Stats { streak: 5, reviewed_today: 1 });
    assert_eq!(s.undo_done(true), Action::NextCard);
    assert_eq!(s.stats(), Stats { streak: 4, reviewed_today: 0 });
    assert_eq!(s.undo_done(true), Action::NextCard);
    assert_eq!(s.stats(), Stats { streak: 4, reviewed_today: 0 });
}

#[test]
fn undo_takes_strokes_before_grades() {
    let (mut s, mut fb) = reviewing();
    let r = s.redraw(vec![255u8; PIXELS * 4], &mut fb);
    assert_eq!(r, full());
    scribble(&mut s, &mut fb);
    assert_eq!(fb[(700 * WIDTH + 500) * 3], 0);
    assert_eq!(s.touch(UNDO.0, UNDO.1, &mut fb), Action::Show(full()));
    assert_eq!(fb[(700 * WIDTH + 500) * 3], 255);
    assert_eq!(s.touch(UNDO.0, UNDO.1, &mut fb), Action::UndoGrade);
}

#[test]
fn clear_eraser_and_colour() {
    let (mut s, mut fb) = reviewing();
    scribble(&mut s, &mut fb);
    assert_eq!(s.touch(CLEAR.0, CLEAR.1, &mut fb), Action::Show(full()));
    assert!(!s.whiteboard().has_ink());
    assert_eq!(s.touch(ERASER.0, ERASER.1, &mut fb), Action::Redraw);
    assert!(s.eraser());
    assert_eq!(s.touch(COUNTS.0, COUNTS.1, &mut fb), Action::Redraw);
    assert!(s.mono());
    assert_eq!(s.touch(800, 1000, &mut fb), Action::Wait);
    assert_eq!(s.touch(SYNC.0, SYNC.1, &mut fb), Action::Sync);
    assert_eq!(s.touch(EXIT.0, EXIT.1, &mut fb), Action::Quit);
}

#[test]
fn going_home_drops_the_ink() {
    let (mut s, mut fb) = reviewing();
    scribble(&mut s, &mut fb);
    assert_eq!(s.touch(HOME.0, HOME.1, &mut fb), Action::ReloadHome);
    assert!(!s.whiteboard().has_ink());
    assert!(!s.reviewing());
}

#[test]
fn the_menu_acts_and_closes() {
    let (mut s, mut fb) = reviewing();
    assert_eq!(s.touch(MENU.0, MENU.1, &mut fb), Action::Redraw);
    assert_eq!(s.menu(), MenuState::Root);
    assert_eq!(s.touch(EXIT.0, EXIT.1, &mut fb), Action::Redraw);
    assert_eq!(s.menu(), MenuState::Closed);
    s.touch(MENU.0, MENU.1, &mut fb);
    assert_eq!(s.touch(1100, 1600, &mut fb), Action::Bury);
    assert_eq!(s.menu(), MenuState::Closed);
    assert_eq!(s.task_done(Task::Bury, Err("locked")), Action::NextCard);
    assert_eq!(s.status(), "bury error: locked");
    s.touch(MENU.0, MENU.1, &mut fb);
    assert_eq!(s.touch(1100, 1700, &mut fb), Action::Suspend);
    assert_eq!(s.task_done(Task::Suspend, Err("x")), Action::NextCard);
    assert_eq!(s.status(), "suspend error: x");
    s.touch(MENU.0, MENU.1, &mut fb);
    assert_eq!(s.touch(1100, 1450, &mut fb), Action::Redraw);
    assert_eq!(s.menu(), MenuState::Flags);
    assert_eq!(s.touch(1100, 950, &mut fb), Action::SetFlag(2));
    assert_eq!(s.menu(), MenuState::Closed);
    assert_eq!(s.task_done(Task::Flag, Err("y")), Action::Redraw);
    assert_eq!(s.status(), "flag error: y");
    assert_eq!(s.task_done(Task::Flag, Ok(())), Action::Redraw);
    assert_eq!(s.stats().reviewed_today, 0);
}

#[test]
fn without_a_card() {
    let (mut s, mut fb) = reviewing();
    s.card_loaded(Counts { new: 0, learning: 0, review: 0 }, false);
    assert_eq!(s.touch(SHOW.0, SHOW.1, &mut fb), Action::Wait);
    s.touch(MENU.0, MENU.1, &mut fb);
    assert_eq!(s.touch(1100, 1600, &mut fb), Action::NextCard);
    s.touch(MENU.0, MENU.1, &mut fb);
    assert_eq!(s.touch(1100, 1700, &mut fb), Action::NextCard);
    assert_eq!(s.task_done(Task::Answer, Err("gone")), Action::NextCard);
    assert_eq!(s.status(), "answer error: gone");
}

#[test]
fn syncing_shows_its_status_on_the_review_screen() {
    let (mut s, _) = home();
    assert_eq!(s.synced("synced"), Action::ReloadHome);
    assert_eq!(s.status(), "");
    let (mut s, _) = reviewing();
    assert_eq!(s.synced("up to date"), Action::NextCard);
    assert_eq!(s.status(), "up to date");
}

#[test]
fn palms_are_rejected_while_reviewing() {
    let (s, _) = home();
    assert!(s.accepts(INPUT_TOUCH_PRESS, Some(0)));
    assert!(!s.accepts(INPUT_TOUCH_RELEASE, None));
    let (s, _) = reviewing();
    assert!(!s.accepts(INPUT_TOUCH_PRESS, Some(249)));
    assert!(s.accepts(INPUT_TOUCH_PRESS, Some(250)));
    assert!(s.accepts(INPUT_TOUCH_PRESS, None));
}

#[test]
fn waiting_and_settling() {
    let (mut s, mut fb) = reviewing();
    assert_eq!(s.poll_timeout(), 1000);
    assert_eq!(s.settle(None), Settle::Wait);
    let p = PenSample { x: 500, y: 700, w: 4, down: true, up: false, erase: false };
    s.whiteboard().ink_sample(p, &mut fb);
    assert_eq!(s.poll_timeout(), 30);
    s.whiteboard().ink_flushed(true);
    assert_eq!(s.poll_timeout(), 120);
    assert_eq!(s.settle(Some(1199)), Settle::Wait);
    assert_eq!(s.settle(Some(1200)), Settle::Restore);
    assert_eq!(s.settle(None), Settle::Restore);
    s.touch(COUNTS.0, COUNTS.1, &mut fb);
    assert_eq!(s.settle(Some(5000)), Settle::Discard);
}

#[test]
fn leaving_the_first_message() {
    let ev = |input_type: i32, x: i32| InputEvent { input_type, dev_id: 0, x, y: 50, d: 0 };
    assert!(wants_exit(ev(INPUT_TOUCH_PRESS, 1500)));
    assert!(!wants_exit(ev(INPUT_TOUCH_PRESS, 1300)));
    assert!(!wants_exit(ev(INPUT_TOUCH_RELEASE, 1500)));
}
