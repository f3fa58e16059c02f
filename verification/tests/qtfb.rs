use ankimarkable::frame::PIXELS;
use ankimarkable::qtfb::{
    init_response, parse_key, shm_name, ClientMessage, InputEvent, KeyError, Qtfb,
    INPUT_TOUCH_PRESS, MESSAGE_USERINPUT, REFRESH_MODE_ANIMATE, REFRESH_MODE_CONTENT,
};

#[test]
fn messages_on_the_wire() {
    let m = Qtfb::connect(0x0102_0304);
    let mut want = vec![0u8, 0, 0, 0, 4, 3, 2, 1, 1];
    want.resize(24, 0);
    assert_eq!(m.encode(), want);
    let m = Qtfb::update_partial(-1, 2, 3, 256);
    assert_eq!(
        m.encode(),
        vec![
            1, 0, 0, 0, 1, 0, 0, 0, 255, 255, 255, 255, 2, 0, 0, 0, 3, 0, 0, 0, 0, 1, 0, 0
        ]
    );
    let mut want = vec![1u8];
    want.resize(24, 0);
    assert_eq!(Qtfb::update_full().encode(), want);
    want[0] = 6;
    assert_eq!(Qtfb::request_full_refresh().encode(), want);
    want[0] = 3;
    assert_eq!(ClientMessage::Terminate.encode(), want);
    let mut want = vec![5u8, 0, 0, 0, 3];
    want.resize(24, 0);
    let mut q = Qtfb::new();
    assert_eq!(q.set_refresh_mode(REFRESH_MODE_CONTENT).encode(), want);
}

#[test]
fn a_mode_is_told_once() {
    let mut q = Qtfb::new();
    let m = q.try_set_refresh_mode(REFRESH_MODE_ANIMATE).unwrap();
    assert_eq!(m, ClientMessage::SetRefreshMode { mode: REFRESH_MODE_ANIMATE });
    assert!(q.try_set_refresh_mode(REFRESH_MODE_ANIMATE).is_some());
    q.mode_sent(m);
    assert_eq!(q.try_set_refresh_mode(REFRESH_MODE_ANIMATE), None);
    assert!(q.try_set_refresh_mode(REFRESH_MODE_CONTENT).is_some());
    q.mode_sent(Qtfb::update_full());
    assert_eq!(q.try_set_refresh_mode(REFRESH_MODE_ANIMATE), None);
}

#[test]
fn input_messages() {
    let mut b = vec![0u8; 32];
    b[0] = MESSAGE_USERINPUT;
    b[8] = 0x10;
    b[12] = 5;
    b[16..20].copy_from_slice(&1234i32.to_le_bytes());
    b[20..24].copy_from_slice(&(-7i32).to_le_bytes());
    b[24] = 9;
    assert_eq!(
        Qtfb::poll_input(&b),
        Some(InputEvent { input_type: INPUT_TOUCH_PRESS, dev_id: 5, x: 1234, y: -7, d: 9 })
    );
    b[0] = 0;
    assert_eq!(Qtfb::poll_input(&b), None);
}

#[test]
fn the_answer_to_the_first_message() {
    let mut b = vec![0u8; 32];
    b[8..12].copy_from_slice(&(-2i32).to_le_bytes());
    b[16..24].copy_from_slice(&10_497_600u64.to_le_bytes());
    assert_eq!(init_response(&b), (-2, 10_497_600));
    assert_eq!(shm_name(-2), "/dev/shm/qtfb_-2");
    assert_eq!(shm_name(245), "/dev/shm/qtfb_245");
}

#[test]
fn keys_from_the_environment() {
    assert_eq!(parse_key(None), Err(KeyError::Unset));
    assert_eq!(parse_key(Some("")), Err(KeyError::NotANumber));
    assert_eq!(parse_key(Some("+")), Err(KeyError::NotANumber));
    assert_eq!(parse_key(Some("12x")), Err(KeyError::NotANumber));
    assert_eq!(parse_key(Some("-1")), Err(KeyError::NotANumber));
    assert_eq!(parse_key(Some("4294967296")), Err(KeyError::NotANumber));
    assert_eq!(parse_key(Some("4294967295")), Ok(u32::MAX));
    assert_eq!(parse_key(Some("+17")), Ok(17));
    assert_eq!(
        Qtfb::connect_from_env(Some("17")),
        Ok(ClientMessage::Initialize { framebuffer_key: 17, framebuffer_type: 1 })
    );
    assert_eq!(Qtfb::connect_from_env(None), Err(KeyError::Unset));
    assert_eq!(KeyError::Unset.message(), "QTFB_KEY unset (not launched via appload?)");
    assert_eq!(KeyError::NotANumber.message(), "QTFB_KEY not a number");
}

#[test]
fn drawing_into_the_framebuffer() {
    let mut fb = vec![9u8; PIXELS * 3];
    Qtfb::clear(&mut fb, 255);
    assert!(fb.iter().all(|&b| b == 255));
    Qtfb::fill_rect(&mut fb, -5, 2158, 7, 100, 40);
    assert_eq!(fb.iter().filter(|&&b| b == 40).count(), 2 * 2 * 3);
    assert_eq!(fb[2158 * 1620 * 3], 40);
    assert_eq!(fb[(2159 * 1620 + 2) * 3], 255);
    let src = vec![1u8, 2, 3, 0, 4, 5, 6, 255];
    Qtfb::blit_rgba(&mut fb, &src, 2, 1, 1619, 0);
    assert_eq!(&fb[1619 * 3..1620 * 3], &[1, 2, 3]);
    assert_eq!(&fb[1620 * 3..1621 * 3], &[255, 255, 255]);
    Qtfb::blit_rgba(&mut fb, &[7, 8, 9], 2, 100, 1619, 2159);
    assert_eq!(&fb[PIXELS * 3 - 3..], &[7, 8, 9]);
    Qtfb::blit_rgba(&mut fb, &[], 2, 1, 0, 2160);
}
