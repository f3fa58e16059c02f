use ankimarkable::gesture::{CardGesture, CardTouch};
use ankimarkable::qtfb::{
    INPUT_BTN_PRESS, INPUT_TOUCH_PRESS, INPUT_TOUCH_RELEASE, INPUT_TOUCH_UPDATE,
};

fn press(t: &mut CardTouch, id: i32, x: i32, y: i32) -> (CardGesture, bool) {
    let f = t.feed(INPUT_TOUCH_PRESS, id, x, y, true);
    (f.gesture, f.new_contact)
}

fn release(t: &mut CardTouch, id: i32, x: i32, y: i32) -> CardGesture {
    let f = t.feed(INPUT_TOUCH_RELEASE, id, x, y, true);
    assert!(!f.new_contact);
    f.gesture
}

#[test]
fn a_contact_is_new_once() {
    let mut t = CardTouch::new();
    assert_eq!(press(&mut t, 1, 10, 10), (CardGesture::Nothing, true));
    assert_eq!(press(&mut t, 1, 20, 10), (CardGesture::Nothing, false));
    assert!(t.is_tracked(1));
    assert!(!t.is_tracked(2));
    assert_eq!(release(&mut t, 1, 20, 10), CardGesture::Nothing);
    assert!(!t.is_tracked(1));
    assert_eq!(press(&mut t, 1, 20, 10), (CardGesture::Nothing, true));
}

#[test]
fn one_finger_makes_no_gesture() {
    let mut t = CardTouch::default();
    press(&mut t, 1, 500, 500);
    assert_eq!(press(&mut t, 1, 500, 1500), (CardGesture::Nothing, false));
    assert!(!t.multi_active());
    assert_eq!(release(&mut t, 1, 500, 100), CardGesture::Nothing);
}

#[test]
fn chrome_contacts_take_no_part() {
    let mut t = CardTouch::new();
    t.feed(INPUT_TOUCH_PRESS, 1, 500, 50, false);
    press(&mut t, 2, 500, 900);
    assert!(!t.multi_active());
    assert_eq!(press(&mut t, 2, 500, 300).0, CardGesture::Nothing);
}

#[test]
fn a_drag_with_motion_scrolls_in_steps() {
    let mut t = CardTouch::new();
    press(&mut t, 1, 400, 1000);
    press(&mut t, 2, 600, 1000);
    assert!(t.multi_active());
    assert_eq!(press(&mut t, 1, 400, 900).0, CardGesture::Nothing);
    assert_eq!(press(&mut t, 2, 600, 900).0, CardGesture::ScrollStep(100));
    assert_eq!(press(&mut t, 1, 400, 800).0, CardGesture::Nothing);
    assert_eq!(
        t.feed(INPUT_TOUCH_UPDATE, 2, 600, 810, true).gesture,
        CardGesture::ScrollStep(95)
    );
    assert_eq!(release(&mut t, 1, 400, 800), CardGesture::Nothing);
    assert!(t.multi_active());
    assert_eq!(release(&mut t, 2, 600, 810), CardGesture::Nothing);
    assert!(!t.multi_active());
}

#[test]
fn scrolling_down_gives_negative_steps_cut_to_whole_pixels() {
    let mut t = CardTouch::new();
    press(&mut t, 1, 400, 500);
    press(&mut t, 2, 600, 500);
    press(&mut t, 1, 400, 590);
    assert_eq!(press(&mut t, 2, 600, 601).0, CardGesture::ScrollStep(-95));
}

#[test]
fn a_pinch_with_motion_is_reported_at_the_end() {
    let mut t = CardTouch::new();
    press(&mut t, 1, 400, 1000);
    press(&mut t, 2, 600, 1000);
    assert_eq!(press(&mut t, 2, 740, 1000).0, CardGesture::Nothing);
    assert_eq!(press(&mut t, 2, 741, 1000).0, CardGesture::Nothing);
    assert_eq!(press(&mut t, 2, 800, 1000).0, CardGesture::Nothing);
    assert_eq!(release(&mut t, 2, 800, 1000), CardGesture::Nothing);
    assert_eq!(
        release(&mut t, 1, 400, 1000),
        CardGesture::PinchEnd { last_d2: 160_000, start_d2: 40_000 }
    );
}

#[test]
fn without_motion_the_ratio_decides() {
    let mut t = CardTouch::new();
    press(&mut t, 1, 400, 1000);
    press(&mut t, 2, 500, 1000);
    release(&mut t, 2, 516, 1000);
    assert_eq!(
        release(&mut t, 1, 400, 1000),
        CardGesture::PinchEnd { last_d2: 13_456, start_d2: 10_000 }
    );
    press(&mut t, 1, 400, 1000);
    press(&mut t, 2, 500, 1000);
    release(&mut t, 2, 515, 1000);
    assert_eq!(release(&mut t, 1, 400, 1000), CardGesture::Nothing);
    press(&mut t, 1, 400, 1000);
    press(&mut t, 2, 500, 1000);
    release(&mut t, 2, 486, 1000);
    assert_eq!(
        release(&mut t, 1, 400, 1000),
        CardGesture::PinchEnd { last_d2: 7_396, start_d2: 10_000 }
    );
}

#[test]
fn without_motion_the_travel_decides_next() {
    let mut t = CardTouch::new();
    press(&mut t, 1, 400, 1000);
    press(&mut t, 2, 400, 1000);
    release(&mut t, 2, 400, 840);
    assert_eq!(release(&mut t, 1, 400, 1000), CardGesture::ScrollStep(80));
    press(&mut t, 1, 400, 1000);
    press(&mut t, 2, 401, 1000);
    release(&mut t, 2, 401, 841);
    assert_eq!(release(&mut t, 1, 400, 1000), CardGesture::Nothing);
}

#[test]
fn without_motion_both_end_positions_count() {
    let mut t = CardTouch::new();
    press(&mut t, 1, 100, 1000);
    press(&mut t, 2, 1300, 1000);
    assert_eq!(release(&mut t, 1, 100, 700), CardGesture::Nothing);
    assert_eq!(release(&mut t, 2, 1300, 700), CardGesture::ScrollStep(300));
    press(&mut t, 1, 400, 1000);
    press(&mut t, 2, 600, 1000);
    release(&mut t, 1, 300, 1000);
    assert_eq!(
        release(&mut t, 2, 700, 1000),
        CardGesture::PinchEnd { last_d2: 160_000, start_d2: 40_000 }
    );
}

#[test]
fn either_finger_may_lift_first() {
    let ends = [(1, 150, 1260), (2, 1250, 1300)];
    for (first, second) in [(ends[0], ends[1]), (ends[1], ends[0])] {
        let mut t = CardTouch::new();
        press(&mut t, 1, 100, 1000);
        press(&mut t, 2, 1300, 1000);
        release(&mut t, first.0, first.1, first.2);
        let g = release(&mut t, second.0, second.1, second.2);
        assert_eq!(g, CardGesture::ScrollStep(-280));
    }
}

#[test]
fn a_third_finger_joins_the_mean_travel() {
    let mut t = CardTouch::new();
    press(&mut t, 1, 400, 1000);
    press(&mut t, 2, 600, 1000);
    press(&mut t, 3, 500, 1200);
    release(&mut t, 3, 500, 1110);
    release(&mut t, 2, 600, 900);
    assert_eq!(release(&mut t, 1, 400, 890), CardGesture::ScrollStep(100));
}

#[test]
fn a_forgotten_finger_is_not_judged() {
    let mut t = CardTouch::new();
    press(&mut t, 1, 400, 1000);
    press(&mut t, 2, 600, 1000);
    t.forget(1);
    assert_eq!(release(&mut t, 2, 900, 700), CardGesture::Nothing);
}

#[test]
fn forgetting_the_last_contact_ends_the_gesture() {
    let mut t = CardTouch::new();
    press(&mut t, 1, 400, 1000);
    press(&mut t, 2, 600, 1000);
    t.forget(1);
    assert!(t.multi_active());
    t.forget(2);
    assert!(!t.multi_active());
    t.forget(7);
    press(&mut t, 3, 10, 200);
    assert!(!t.multi_active());
}

#[test]
fn other_events_are_ignored() {
    let mut t = CardTouch::new();
    let f = t.feed(INPUT_BTN_PRESS, 1, 10, 10, true);
    assert_eq!(f.gesture, CardGesture::Nothing);
    assert!(!f.new_contact);
    assert!(!t.is_tracked(1));
}
