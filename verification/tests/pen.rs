use ankimarkable::pen::{
    abs_max, device_path, eviocgabs, eviocgname, is_marker, is_marker_name, judge_read, Pen,
    PenRead, PenSample, ABS_PRESSURE, ABS_X, ABS_Y, BTN_TOOL_PEN, BTN_TOOL_RUBBER, BTN_TOUCH,
    EV_ABS, EV_KEY, EV_SYN, SYN_REPORT,
};

fn event(kind: u16, code: u16, value: i32) -> Vec<u8> {
    let mut b = vec![7u8; 16];
    b.extend_from_slice(&kind.to_le_bytes());
    b.extend_from_slice(&code.to_le_bytes());
    b.extend_from_slice(&value.to_le_bytes());
    b
}

fn pen() -> Pen {
    Pen::open(Some(16200), Some(21600))
}

#[test]
fn extents() {
    let p = Pen::open(None, None);
    assert_eq!((p.xmax, p.ymax), (11180, 15340));
    let p = Pen::open(Some(0), Some(-4));
    assert_eq!((p.xmax, p.ymax), (1, 1));
    assert_eq!(abs_max(true, 0, 11180), Some(11180));
    assert_eq!(abs_max(true, 5, 5), None);
    assert_eq!(abs_max(false, 0, 11180), None);
}

#[test]
fn positions_and_widths() {
    let mut p = pen();
    assert_eq!(p.map_x(0), 0);
    assert_eq!(p.map_x(8105), 810);
    assert_eq!(p.map_x(16200), 1620);
    assert_eq!(p.map_x(99999), 1620);
    assert_eq!(p.map_x(-3), 0);
    assert_eq!(p.map_y(10800), 1080);
    p.pressure = -1;
    assert_eq!(p.width(), 2);
    p.pressure = 1024;
    assert_eq!(p.width(), 3);
    p.pressure = 4096;
    assert_eq!(p.width(), 6);
    p.pressure = 100_000;
    assert_eq!(p.width(), 6);
}

#[test]
fn a_stroke_goes_down_moves_and_up() {
    let mut p = pen();
    let mut b = Vec::new();
    b.extend(event(EV_ABS, ABS_X, 1000));
    b.extend(event(EV_ABS, ABS_Y, 2000));
    b.extend(event(EV_SYN, SYN_REPORT, 0));
    b.extend(event(EV_KEY, BTN_TOUCH, 1));
    b.extend(event(EV_ABS, ABS_PRESSURE, 2048));
    b.extend(event(EV_SYN, SYN_REPORT, 0));
    b.extend(event(EV_ABS, ABS_X, 1100));
    b.extend(event(EV_SYN, SYN_REPORT, 0));
    b.extend(event(EV_ABS, ABS_PRESSURE, 0));
    b.extend(event(EV_KEY, BTN_TOUCH, 0));
    b.extend(event(EV_SYN, SYN_REPORT, 0));
    b.extend(event(EV_SYN, SYN_REPORT, 0));
    let s = p.drain(&b);
    assert_eq!(
        s,
        vec![
            PenSample { x: 100, y: 200, w: 4, down: true, up: false, erase: false },
            PenSample { x: 110, y: 200, w: 4, down: false, up: false, erase: false },
            PenSample { x: 110, y: 200, w: 2, down: false, up: true, erase: false },
        ]
    );
}

#[test]
fn contact_by_pressure_alone_and_the_eraser_end() {
    let mut p = pen();
    let mut b = Vec::new();
    b.extend(event(EV_KEY, BTN_TOOL_RUBBER, 1));
    b.extend(event(EV_ABS, ABS_PRESSURE, 1));
    b.extend(event(EV_SYN, SYN_REPORT, 0));
    b.extend(event(EV_KEY, BTN_TOOL_PEN, 1));
    b.extend(event(EV_SYN, SYN_REPORT, 0));
    b.extend(event(EV_ABS, ABS_PRESSURE, 0));
    b.extend(event(EV_KEY, BTN_TOUCH, 1));
    b.extend(event(EV_KEY, BTN_TOOL_PEN, 0));
    b.extend(event(EV_SYN, SYN_REPORT, 0));
    let s = p.drain(&b);
    assert_eq!(s.len(), 3);
    assert!(s[0].erase && s[0].down);
    assert!(!s[1].erase && !s[1].down && !s[1].up);
    assert!(s[2].up);
}

#[test]
fn parts_of_events_are_left_out() {
    let mut p = pen();
    let mut b = event(EV_ABS, ABS_X, 1000);
    b.extend_from_slice(&event(EV_ABS, ABS_X, 5000)[..23]);
    assert!(p.drain(&b).is_empty());
    assert_eq!(p.x, 1000);
}

#[test]
fn draining_in_parts_gives_the_same() {
    let mut a = Vec::new();
    a.extend(event(EV_KEY, BTN_TOUCH, 1));
    a.extend(event(EV_SYN, SYN_REPORT, 0));
    let mut b = Vec::new();
    b.extend(event(EV_ABS, ABS_Y, 400));
    b.extend(event(EV_SYN, SYN_REPORT, 0));
    let (mut p, mut q) = (pen(), pen());
    let mut both = a.clone();
    both.extend(b.clone());
    let whole = p.drain(&both);
    let mut parts = q.drain(&a);
    parts.extend(q.drain(&b));
    assert_eq!(whole, parts);
    assert_eq!(p, q);
}

#[test]
fn unknown_events_are_ignored() {
    let mut p = pen();
    let before = p;
    let mut b = event(EV_ABS, 0x33, 9);
    b.extend(event(EV_KEY, 0x10, 1));
    b.extend(event(EV_SYN, 3, 1));
    b.extend(event(0x15, 0, 1));
    assert!(p.drain(&b).is_empty());
    assert_eq!(p, before);
}

#[test]
fn reads_are_judged() {
    assert_eq!(judge_read(48, false), PenRead::Events(48));
    assert_eq!(judge_read(0, false), PenRead::Closed);
    assert_eq!(judge_read(-1, true), PenRead::Drained);
    assert_eq!(judge_read(-1, false), PenRead::Failed);
}

#[test]
fn request_numbers_and_paths() {
    assert_eq!(eviocgname(256), 0x8100_4506);
    assert_eq!(eviocgabs(0), 0x8018_4540);
    assert_eq!(eviocgabs(1), 0x8018_4541);
    assert_eq!(device_path(12), "/dev/input/event12");
}

#[test]
fn the_marker_is_found_by_name() {
    assert!(is_marker(b"Elan marker input\0\0\0"));
    assert!(is_marker(b"ELAN Pen"));
    assert!(!is_marker(b"Elan touch input\0marker"));
    assert!(!is_marker(b"pencil"));
    assert!(is_marker(b"\xffMARKER"));
    assert!(!is_marker(b""));
    assert!(is_marker_name("marker"));
    assert!(!is_marker_name("MARKER"));
}
