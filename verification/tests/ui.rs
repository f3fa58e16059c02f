use ankimarkable::backend::Grade;
use ankimarkable::decks::DeckInfo;
use ankimarkable::ui::{
    clamp_scroll, hit_menu, hit_test, hit_test_home, home_page_rows, in_card_region,
    menu_btn_rect, menu_items, menu_panel_rect, page_down, page_up, Hit, HomeHit, MenuHit,
    MenuState, Phase,
};

fn deck(level: u32, has_children: bool) -> DeckInfo {
    DeckInfo {
        id: 1,
        name: "d".to_string(),
        level,
        has_children,
        collapsed: false,
        new: 0,
        learn: 0,
        review: 0,
    }
}

#[test]
fn status_bar_buttons() {
    let at = |x: i32| hit_test(x, 50, Phase::Question);
    assert_eq!(at(0), Hit::ColorToggle);
    assert_eq!(at(609), Hit::ColorToggle);
    assert_eq!(at(610), Hit::Home);
    assert_eq!(at(769), Hit::Home);
    assert_eq!(at(770), Hit::Undo);
    assert_eq!(at(930), Hit::EraserToggle);
    assert_eq!(at(1110), Hit::Clear);
    assert_eq!(at(1270), Hit::Sync);
    assert_eq!(at(1459), Hit::Sync);
    assert_eq!(at(1460), Hit::Exit);
    assert_eq!(at(5000), Hit::Exit);
    assert_eq!(at(-1), Hit::Nothing);
    assert_eq!(hit_test(0, -1, Phase::Question), Hit::Nothing);
}

#[test]
fn action_bar_shows_the_answer_or_grades() {
    assert_eq!(hit_test(800, 1920, Phase::Question), Hit::ShowAnswer);
    assert_eq!(hit_test(0, 2000, Phase::Answer), Hit::Grade(Grade::Again));
    assert_eq!(hit_test(404, 2000, Phase::Answer), Hit::Grade(Grade::Again));
    assert_eq!(hit_test(405, 2000, Phase::Answer), Hit::Grade(Grade::Hard));
    assert_eq!(hit_test(810, 2000, Phase::Answer), Hit::Grade(Grade::Good));
    assert_eq!(hit_test(1215, 2000, Phase::Answer), Hit::Grade(Grade::Easy));
    assert_eq!(hit_test(9999, 9999, Phase::Answer), Hit::Grade(Grade::Easy));
}

#[test]
fn the_card_is_inert_but_for_the_menu_button() {
    assert_eq!(menu_btn_rect(), (1486, 1786, 1590, 1890));
    assert_eq!(hit_test(1486, 1786, Phase::Question), Hit::Menu);
    assert_eq!(hit_test(1589, 1889, Phase::Answer), Hit::Menu);
    assert_eq!(hit_test(1590, 1889, Phase::Answer), Hit::Nothing);
    assert_eq!(hit_test(800, 1000, Phase::Question), Hit::Nothing);
    assert!(in_card_region(800, 1000));
    assert!(in_card_region(0, 110));
    assert!(!in_card_region(0, 109));
    assert!(!in_card_region(0, 1920));
    assert!(!in_card_region(1620, 500));
    assert!(!in_card_region(-1, 500));
    assert!(!in_card_region(1500, 1800));
}

#[test]
fn menu_rows() {
    assert_eq!(menu_items(MenuState::Closed), 0);
    assert_eq!(menu_items(MenuState::Root), 3);
    assert_eq!(menu_items(MenuState::Flags), 8);
    assert_eq!(menu_panel_rect(3), (1070, 1418, 1590, 1772));
    assert_eq!(menu_panel_rect(8), (1070, 828, 1590, 1772));
    assert_eq!(hit_menu(1100, 1418, MenuState::Root), MenuHit::OpenFlags);
    assert_eq!(hit_menu(1100, 1535, MenuState::Root), MenuHit::OpenFlags);
    assert_eq!(hit_menu(1100, 1536, MenuState::Root), MenuHit::Bury);
    assert_eq!(hit_menu(1100, 1771, MenuState::Root), MenuHit::Suspend);
    assert_eq!(hit_menu(1100, 1772, MenuState::Root), MenuHit::Nothing);
    assert_eq!(hit_menu(1069, 1500, MenuState::Root), MenuHit::Nothing);
    assert_eq!(hit_menu(1100, 1000, MenuState::Root), MenuHit::Nothing);
    assert_eq!(hit_menu(1100, 828, MenuState::Flags), MenuHit::Flag(1));
    assert_eq!(hit_menu(1100, 1600, MenuState::Flags), MenuHit::Flag(7));
    assert_eq!(hit_menu(1100, 1700, MenuState::Flags), MenuHit::Flag(0));
    assert_eq!(hit_menu(1100, 1500, MenuState::Closed), MenuHit::Nothing);
    assert_eq!(hit_menu(-5, 1500, MenuState::Root), MenuHit::Nothing);
}

#[test]
fn home_header_and_rows() {
    let rows = vec![deck(0, true), deck(1, false), deck(2, true)];
    let at = |x: i32, y: i32| hit_test_home(x, y, &rows, 0);
    assert_eq!(at(1460, 0), HomeHit::Exit);
    assert_eq!(at(1270, 109), HomeHit::Sync);
    assert_eq!(at(1182, 10), HomeHit::ScrollDown);
    assert_eq!(at(1094, 10), HomeHit::ScrollUp);
    assert_eq!(at(1093, 10), HomeHit::Nothing);
    assert_eq!(at(32, 110), HomeHit::Toggle(0));
    assert_eq!(at(115, 110), HomeHit::Toggle(0));
    assert_eq!(at(116, 110), HomeHit::Deck(0));
    assert_eq!(at(31, 110), HomeHit::Deck(0));
    assert_eq!(at(90, 226), HomeHit::Deck(1));
    assert_eq!(at(124, 342), HomeHit::Toggle(2));
    assert_eq!(at(124, 458), HomeHit::Nothing);
    assert_eq!(at(-1, 200), HomeHit::Nothing);
    assert_eq!(hit_test_home(500, 110, &rows, 2), HomeHit::Deck(2));
    assert_eq!(hit_test_home(500, 226, &rows, 2), HomeHit::Nothing);
    assert_eq!(hit_test_home(500, 226, &rows, usize::MAX), HomeHit::Nothing);
}

#[test]
fn nothing_is_hit_below_the_page() {
    let rows: Vec<DeckInfo> = (0..40).map(|_| deck(0, true)).collect();
    assert_eq!(hit_test_home(500, 2081, &rows, 3), HomeHit::Deck(19));
    assert_eq!(hit_test_home(500, 2082, &rows, 3), HomeHit::Nothing);
    assert_eq!(hit_test_home(40, 2082, &rows, 3), HomeHit::Nothing);
    assert_eq!(hit_test_home(500, 2159, &rows, 0), HomeHit::Nothing);
}

#[test]
fn paging_the_deck_list() {
    assert_eq!(home_page_rows(), 17);
    assert_eq!(page_up(40), 24);
    assert_eq!(page_up(10), 0);
    assert_eq!(page_down(0, 40), 16);
    assert_eq!(page_down(16, 40), 23);
    assert_eq!(page_down(0, 10), 0);
    let mut s: usize = 30;
    clamp_scroll(&mut s, 40);
    assert_eq!(s, 23);
    clamp_scroll(&mut s, 40);
    assert_eq!(s, 23);
    clamp_scroll(&mut s, 5);
    assert_eq!(s, 0);
}
