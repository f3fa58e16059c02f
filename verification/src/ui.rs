//! Screen layout and touch targets.
//!
//! The review screen has a status bar with buttons at the top, the card in the
//! middle and an action bar at the bottom; a menu button floats over the card's
//! lower right corner, and its panel opens above it. The home screen has a header
//! with buttons over the rows of the deck list.

use vstd::prelude::*;

use crate::backend::Grade;
use crate::decks::{rows, DeckInfo, DeckRow};
use crate::frame::{in_band, in_panel, BOTTOM_H, CARD_H, CARD_Y, HEIGHT, TOP_H, WIDTH};

verus! {

/// Width of the Home button.
pub const HOME_W: usize = 160;

/// Width of the Undo button.
pub const UNDO_W: usize = 160;

/// Width of the Eraser button.
pub const ERASE_W: usize = 180;

/// Width of the Clear button.
pub const CLEAR_W: usize = 160;

/// Width of the Sync button.
pub const SYNC_W: usize = 190;

/// Width of the Exit button.
pub const EXIT_W: usize = 160;

/// First column of the Exit button; the others follow to its left.
pub const EXIT_X: usize = WIDTH - EXIT_W;

/// First column of the Sync button.
pub const SYNC_X: usize = EXIT_X - SYNC_W;

/// First column of the Clear button.
pub const CLEAR_X: usize = SYNC_X - CLEAR_W;

/// First column of the Eraser button.
pub const ERASE_X: usize = CLEAR_X - ERASE_W;

/// First column of the Undo button.
pub const UNDO_X: usize = ERASE_X - UNDO_W;

/// First column of the Home button.
pub const HOME_X: usize = UNDO_X - HOME_W;

/// Side of the square menu button.
pub const MENU_BTN: usize = 104;

/// Distance of the menu button from the right edge and the action bar.
pub const MENU_GAP: usize = 30;

/// Width of the menu panel.
pub const MENU_PANEL_W: usize = 520;

/// Height of one row of the menu panel.
pub const MENU_ITEM_H: usize = 118;

/// Distance of the panel from the menu button.
pub const MENU_PANEL_GAP: usize = 14;

/// Number of card flags.
pub const FLAG_COUNT: usize = 7;

/// Height of a row of the deck list.
pub const HOME_ROW_H: usize = 116;

/// Indentation of a level of the deck tree.
pub const HOME_INDENT: usize = 46;

/// Left padding of the deck list.
pub const HOME_PAD_L: usize = 32;

/// Width of the zone that expands and collapses a deck.
pub const HOME_CHEV_W: usize = 84;

/// Width of each of the two scroll buttons.
pub const SCROLL_BTN_W: usize = 88;

/// First column of the scroll-down button.
pub const SCROLL_DOWN_X: usize = SYNC_X - SCROLL_BTN_W;

/// First column of the scroll-up button.
pub const SCROLL_UP_X: usize = SCROLL_DOWN_X - SCROLL_BTN_W;

/// Rows of the deck list that fit on the screen.
pub const PAGE_ROWS: usize = (HEIGHT - TOP_H) / HOME_ROW_H;

/// The menu panel that is showing.
#[derive(Clone, Copy, Debug, PartialEq, Eq, Structural)]
pub enum MenuState {
    Closed,
    /// The actions on the card.
    Root,
    /// The card's flags.
    Flags,
}

/// The side of the card that is showing.
#[derive(Clone, Copy, Debug, PartialEq, Eq, Structural)]
pub enum Phase {
    Question,
    Answer,
}

/// What a touch on the review screen asks for.
#[derive(Clone, Copy, Debug, PartialEq, Eq, Structural)]
pub enum Hit {
    ShowAnswer,
    Grade(Grade),
    Sync,
    Exit,
    Home,
    Undo,
    Clear,
    EraserToggle,
    /// The menu button.
    Menu,
    /// The counts: colour or black and white.
    ColorToggle,
    Nothing,
}

/// What a touch asks for while the menu is open.
#[derive(Clone, Copy, Debug, PartialEq, Eq, Structural)]
pub enum MenuHit {
    /// Show the flags; the menu stays open.
    OpenFlags,
    Bury,
    Suspend,
    /// Set this flag; 0 removes the flag.
    Flag(u32),
    /// Outside the panel: close the menu.
    Nothing,
}

/// What a touch on the home screen asks for. Decks are given by their position
/// among the visible rows.
#[derive(Clone, Copy, Debug, PartialEq, Eq, Structural)]
pub enum HomeHit {
    Deck(usize),
    Toggle(usize),
    Sync,
    Exit,
    ScrollUp,
    ScrollDown,
    Nothing,
}

// -------------------------------------------------------------------- menu

/// Rows of a menu panel.
pub open spec fn item_count(state: MenuState) -> int {
    match state {
        MenuState::Closed => 0,
        MenuState::Root => 3,
        MenuState::Flags => FLAG_COUNT + 1,
    }
}

/// Number of rows of a menu panel.
pub fn menu_items(state: MenuState) -> (n: usize)
    ensures
        n == item_count(state),
{
    match state {
        MenuState::Closed => 0,
        MenuState::Root => 3,
        MenuState::Flags => FLAG_COUNT + 1,
    }
}

/// The menu button: left, top, and the column and row behind it.
pub open spec fn button_rect() -> (int, int, int, int) {
    (
        WIDTH - MENU_GAP - MENU_BTN,
        HEIGHT - BOTTOM_H - MENU_GAP - MENU_BTN,
        WIDTH - MENU_GAP,
        HEIGHT - BOTTOM_H - MENU_GAP,
    )
}

/// The panel of `items` rows: left, top, and the column and row behind it. It
/// shares its right edge with the button and ends a little above it.
pub open spec fn panel_rect(items: int) -> (int, int, int, int) {
    let bottom = button_rect().1 - MENU_PANEL_GAP;
    (
        button_rect().2 - MENU_PANEL_W,
        bottom - MENU_ITEM_H * items,
        button_rect().2,
        bottom,
    )
}

/// The point lies in the rectangle.
pub open spec fn within(r: (int, int, int, int), x: int, y: int) -> bool {
    r.0 <= x < r.2 && r.1 <= y < r.3
}

/// Rectangle of the menu button.
pub fn menu_btn_rect() -> (r: (usize, usize, usize, usize))
    ensures
        (r.0 as int, r.1 as int, r.2 as int, r.3 as int) == button_rect(),
{
    let x1: usize = WIDTH - MENU_GAP;
    let y1: usize = HEIGHT - BOTTOM_H - MENU_GAP;
    (x1 - MENU_BTN, y1 - MENU_BTN, x1, y1)
}

/// Rectangle of a menu panel with `items` rows.
pub fn menu_panel_rect(items: usize) -> (r: (usize, usize, usize, usize))
    requires
        items <= FLAG_COUNT + 1,
    ensures
        (r.0 as int, r.1 as int, r.2 as int, r.3 as int) == panel_rect(items as int),
{
    let b: (usize, usize, usize, usize) = menu_btn_rect();
    let y1: usize = b.1 - MENU_PANEL_GAP;
    (b.2 - MENU_PANEL_W, y1 - MENU_ITEM_H * items, b.2, y1)
}

/// What row `row` of a panel does: in the root panel flags, bury, suspend; in the
/// flags panel the flags in order, then removal.
pub open spec fn row_action(state: MenuState, row: int) -> MenuHit {
    match state {
        MenuState::Closed => MenuHit::Nothing,
        MenuState::Root => if row == 0 {
            MenuHit::OpenFlags
        } else if row == 1 {
            MenuHit::Bury
        } else if row == 2 {
            MenuHit::Suspend
        } else {
            MenuHit::Nothing
        },
        MenuState::Flags => if 0 <= row < FLAG_COUNT {
            MenuHit::Flag((row + 1) as u32)
        } else if row == FLAG_COUNT {
            MenuHit::Flag(0)
        } else {
            MenuHit::Nothing
        },
    }
}

/// What a touch does while the panel is open.
pub open spec fn menu_hit_at(x: int, y: int, state: MenuState) -> MenuHit {
    let panel = panel_rect(item_count(state));
    if within(panel, x, y) {
        row_action(state, (y - panel.1) / (MENU_ITEM_H as int))
    } else {
        MenuHit::Nothing
    }
}

/// Finds what a touch does while the menu is open.
pub fn hit_menu(x: i32, y: i32, state: MenuState) -> (h: MenuHit)
    ensures
        h == menu_hit_at(x as int, y as int, state),
{
    if x < 0 || y < 0 {
        return MenuHit::Nothing;
    }
    let (x, y): (usize, usize) = (x as usize, y as usize);
    let p: (usize, usize, usize, usize) = menu_panel_rect(menu_items(state));
    if x >= p.0 && x < p.2 && y >= p.1 && y < p.3 {
        let row: usize = (y - p.1) / MENU_ITEM_H;
        match state {
            MenuState::Closed => MenuHit::Nothing,
            MenuState::Root => if row == 0 {
                MenuHit::OpenFlags
            } else if row == 1 {
                MenuHit::Bury
            } else if row == 2 {
                MenuHit::Suspend
            } else {
                MenuHit::Nothing
            },
            MenuState::Flags => if row < FLAG_COUNT {
                MenuHit::Flag(row as u32 + 1)
            } else if row == FLAG_COUNT {
                MenuHit::Flag(0)
            } else {
                MenuHit::Nothing
            },
        }
    } else {
        MenuHit::Nothing
    }
}

/// Every touch inside an open panel does something, and no touch outside does.
pub proof fn law_menu_acts_inside_only(x: int, y: int, state: MenuState)
    ensures
        (menu_hit_at(x, y, state) != MenuHit::Nothing) == within(
            panel_rect(item_count(state)),
            x,
            y,
        ),
{
}

/// Each panel lies in the card band, above the menu button.
pub proof fn law_panel_fits(state: MenuState, x: int, y: int)
    requires
        within(panel_rect(item_count(state)), x, y),
    ensures
        in_panel(x, y),
        in_band(y),
        !within(button_rect(), x, y),
{
}

// ------------------------------------------------------------ review screen

/// The button of the status bar at column `x`.
pub open spec fn top_button(x: int) -> Hit {
    if x >= EXIT_X {
        Hit::Exit
    } else if x >= SYNC_X {
        Hit::Sync
    } else if x >= CLEAR_X {
        Hit::Clear
    } else if x >= ERASE_X {
        Hit::EraserToggle
    } else if x >= UNDO_X {
        Hit::Undo
    } else if x >= HOME_X {
        Hit::Home
    } else {
        Hit::ColorToggle
    }
}

/// The grade of the action bar at column `x`: a quarter of the bar each.
pub open spec fn grade_at(x: int) -> Grade {
    if x < WIDTH / 4 {
        Grade::Again
    } else if x < 2 * (WIDTH / 4) {
        Grade::Hard
    } else if x < 3 * (WIDTH / 4) {
        Grade::Good
    } else {
        Grade::Easy
    }
}

/// What a touch on the review screen asks for.
pub open spec fn hit_at(x: int, y: int, phase: Phase) -> Hit {
    if x < 0 || y < 0 {
        Hit::Nothing
    } else if y < TOP_H {
        top_button(x)
    } else if y >= HEIGHT - BOTTOM_H {
        match phase {
            Phase::Question => Hit::ShowAnswer,
            Phase::Answer => Hit::Grade(grade_at(x)),
        }
    } else if within(button_rect(), x, y) {
        Hit::Menu
    } else {
        Hit::Nothing
    }
}

/// Finds what a touch on the review screen asks for. The card itself does not
/// react, since the pen writes and the palm rests there.
pub fn hit_test(x: i32, y: i32, phase: Phase) -> (h: Hit)
    ensures
        h == hit_at(x as int, y as int, phase),
{
    if x < 0 || y < 0 {
        return Hit::Nothing;
    }
    let (x, y): (usize, usize) = (x as usize, y as usize);
    if y < TOP_H {
        return if x >= EXIT_X {
            Hit::Exit
        } else if x >= SYNC_X {
            Hit::Sync
        } else if x >= CLEAR_X {
            Hit::Clear
        } else if x >= ERASE_X {
            Hit::EraserToggle
        } else if x >= UNDO_X {
            Hit::Undo
        } else if x >= HOME_X {
            Hit::Home
        } else {
            Hit::ColorToggle
        };
    }
    if y >= HEIGHT - BOTTOM_H {
        return match phase {
            Phase::Question => Hit::ShowAnswer,
            Phase::Answer => {
                let quarter: usize = x / (WIDTH / 4);
                Hit::Grade(
                    if quarter == 0 {
                        Grade::Again
                    } else if quarter == 1 {
                        Grade::Hard
                    } else if quarter == 2 {
                        Grade::Good
                    } else {
                        Grade::Easy
                    },
                )
            },
        };
    }
    let m: (usize, usize, usize, usize) = menu_btn_rect();
    if x >= m.0 && x < m.2 && y >= m.1 && y < m.3 {
        return Hit::Menu;
    }
    Hit::Nothing
}

/// The point lies on the card and not on the menu button.
pub open spec fn on_card(x: int, y: int) -> bool {
    in_panel(x, y) && in_band(y) && !within(button_rect(), x, y)
}

/// Whether the point lies on the card, the menu button left out.
pub fn in_card_region(x: i32, y: i32) -> (b: bool)
    ensures
        b == on_card(x as int, y as int),
{
    if x < 0 || x >= WIDTH as i32 || y < CARD_Y as i32 || y >= (CARD_Y + CARD_H) as i32 {
        return false;
    }
    let m: (usize, usize, usize, usize) = menu_btn_rect();
    let (x, y): (usize, usize) = (x as usize, y as usize);
    !(x >= m.0 && x < m.2 && y >= m.1 && y < m.3)
}

/// On the panel, exactly the touches on the card ask for nothing, whichever side
/// is showing.
pub proof fn law_only_the_card_is_inert(x: int, y: int, phase: Phase)
    requires
        in_panel(x, y),
    ensures
        on_card(x, y) == (hit_at(x, y, phase) == Hit::Nothing),
{
}

// -------------------------------------------------------------- home screen

/// Rows of the deck list that fit on the screen.
pub fn home_page_rows() -> (n: usize)
    ensures
        n == PAGE_ROWS,
        n == 17,
{
    (HEIGHT - TOP_H) / HOME_ROW_H
}

/// Left edge of the zone that expands and collapses a deck of this level.
pub open spec fn chevron_x(level: int) -> int {
    HOME_PAD_L + level * HOME_INDENT
}

/// What a touch on the home screen asks for. Below the rows of the page there is
/// nothing.
pub open spec fn home_hit_at(x: int, y: int, visible: Seq<DeckRow>, scroll: int) -> HomeHit {
    let i = scroll + (y - TOP_H) / (HOME_ROW_H as int);
    if x < 0 || y < 0 {
        HomeHit::Nothing
    } else if y < TOP_H {
        if x >= EXIT_X {
            HomeHit::Exit
        } else if x >= SYNC_X {
            HomeHit::Sync
        } else if x >= SCROLL_DOWN_X {
            HomeHit::ScrollDown
        } else if x >= SCROLL_UP_X {
            HomeHit::ScrollUp
        } else {
            HomeHit::Nothing
        }
    } else if (y - TOP_H) / (HOME_ROW_H as int) >= PAGE_ROWS || i >= visible.len() {
        HomeHit::Nothing
    } else if visible[i].has_children && chevron_x(visible[i].level as int) <= x < chevron_x(
        visible[i].level as int,
    ) + HOME_CHEV_W {
        HomeHit::Toggle(i as usize)
    } else {
        HomeHit::Deck(i as usize)
    }
}

/// Finds what a touch on the home screen asks for; `scroll` is the first row that
/// is displayed.
pub fn hit_test_home(x: i32, y: i32, visible: &[DeckInfo], scroll: usize) -> (h: HomeHit)
    ensures
        h == home_hit_at(x as int, y as int, rows(visible@), scroll as int),
        h matches HomeHit::Deck(i) ==> i < visible@.len(),
        h matches HomeHit::Toggle(i) ==> i < visible@.len(),
{
    if x < 0 || y < 0 {
        return HomeHit::Nothing;
    }
    let (x, y): (usize, usize) = (x as usize, y as usize);
    if y < TOP_H {
        return if x >= EXIT_X {
            HomeHit::Exit
        } else if x >= SYNC_X {
            HomeHit::Sync
        } else if x >= SCROLL_DOWN_X {
            HomeHit::ScrollDown
        } else if x >= SCROLL_UP_X {
            HomeHit::ScrollUp
        } else {
            HomeHit::Nothing
        };
    }
    let row: usize = (y - TOP_H) / HOME_ROW_H;
    if row >= home_page_rows() || scroll >= visible.len() || row >= visible.len() - scroll {
        return HomeHit::Nothing;
    }
    let i: usize = scroll + row;
    let d: &DeckInfo = &visible[i];
    if d.has_children {
        let indent: u64 = HOME_PAD_L as u64 + d.level as u64 * HOME_INDENT as u64;
        if x as u64 >= indent && (x as u64) < indent + HOME_CHEV_W as u64 {
            return HomeHit::Toggle(i);
        }
    }
    HomeHit::Deck(i)
}

/// A touch on the `k`-th row of the page finds the deck that is displayed there.
pub proof fn law_rows_match_hits(
    x: int,
    y: int,
    visible: Seq<DeckRow>,
    scroll: int,
    k: int,
)
    requires
        0 <= x,
        0 <= k < PAGE_ROWS,
        TOP_H + k * HOME_ROW_H <= y < TOP_H + (k + 1) * HOME_ROW_H,
        0 <= scroll,
        scroll + k < visible.len() <= usize::MAX,
    ensures
        home_hit_at(x, y, visible, scroll) == HomeHit::Deck((scroll + k) as usize) || home_hit_at(
            x,
            y,
            visible,
            scroll,
        ) == HomeHit::Toggle((scroll + k) as usize),
{
    assert((y - TOP_H) / (HOME_ROW_H as int) == k) by (nonlinear_arith)
        requires
            HOME_ROW_H == 116,
            k * HOME_ROW_H <= y - TOP_H < (k + 1) * HOME_ROW_H,
    ;
}

/// A touch below the rows of the page finds no deck, however many are visible.
pub proof fn law_nothing_below_the_rows(x: int, y: int, visible: Seq<DeckRow>, scroll: int)
    requires
        TOP_H + PAGE_ROWS * HOME_ROW_H <= y,
    ensures
        home_hit_at(x, y, visible, scroll) == HomeHit::Nothing,
{
}

/// The last row that the list may start with.
pub open spec fn max_scroll(len: int) -> int {
    if len > PAGE_ROWS {
        len - PAGE_ROWS
    } else {
        0
    }
}

/// The first row after one page up: one row of the old page stays visible.
pub fn page_up(scroll: usize) -> (s: usize)
    ensures
        s == (if scroll >= PAGE_ROWS - 1 {
            scroll - (PAGE_ROWS - 1)
        } else {
            0
        }),
{
    let step: usize = home_page_rows() - 1;
    if scroll >= step {
        scroll - step
    } else {
        0
    }
}

/// The first row after one page down, at most the last one that fills the page.
pub fn page_down(scroll: usize, len: usize) -> (s: usize)
    ensures
        s == (if scroll + PAGE_ROWS - 1 <= max_scroll(len as int) {
            scroll + PAGE_ROWS - 1
        } else {
            max_scroll(len as int)
        }),
{
    let step: usize = home_page_rows() - 1;
    let max: usize = if len > home_page_rows() {
        len - home_page_rows()
    } else {
        0
    };
    if max >= step && scroll <= max - step {
        scroll + step
    } else {
        max
    }
}

/// Brings the first row back into range after the list has changed.
pub fn clamp_scroll(scroll: &mut usize, len: usize)
    ensures
        *final(scroll) == (if *old(scroll) > max_scroll(len as int) {
            max_scroll(len as int)
        } else {
            *old(scroll) as int
        }),
{
    let max: usize = if len > home_page_rows() {
        len - home_page_rows()
    } else {
        0
    };
    if *scroll > max {
        *scroll = max;
    }
}

/// The review screen is laid out as it is drawn: the status bar's buttons stand side by
/// side from the right edge, the action bar is one button or four equal ones, and the
/// menu button is a square of 104 pixels in the lower right corner of the card.
pub proof fn law_review_layout(x: int, y: int, phase: Phase)
    requires
        0 <= x < 1620,
        0 <= y < 2160,
    ensures
        y < 110 ==> hit_at(x, y, phase) == (if x < 610 {
            Hit::ColorToggle
        } else if x < 610 + 160 {
            Hit::Home
        } else if x < 770 + 160 {
            Hit::Undo
        } else if x < 930 + 180 {
            Hit::EraserToggle
        } else if x < 1110 + 160 {
            Hit::Clear
        } else if x < 1270 + 190 {
            Hit::Sync
        } else {
            Hit::Exit
        }),
        y >= 1920 && phase == Phase::Question ==> hit_at(x, y, phase) == Hit::ShowAnswer,
        y >= 1920 && phase == Phase::Answer && x < 405 ==> hit_at(x, y, phase) == Hit::Grade(
            Grade::Again,
        ),
        y >= 1920 && phase == Phase::Answer && 405 <= x < 810 ==> hit_at(x, y, phase)
            == Hit::Grade(Grade::Hard),
        y >= 1920 && phase == Phase::Answer && 810 <= x < 1215 ==> hit_at(x, y, phase)
            == Hit::Grade(Grade::Good),
        y >= 1920 && phase == Phase::Answer && 1215 <= x ==> hit_at(x, y, phase) == Hit::Grade(
            Grade::Easy,
        ),
        110 <= y < 1920 ==> hit_at(x, y, phase) == (if 1486 <= x < 1590 && 1786 <= y < 1890 {
            Hit::Menu
        } else {
            Hit::Nothing
        }),
        on_card(x, y) == (110 <= y < 1920 && !(1486 <= x < 1590 && 1786 <= y < 1890)),
{
}

/// Outside the panel nothing is hit on the left and above, and nothing is on the card.
pub proof fn law_nothing_off_the_panel(x: int, y: int, phase: Phase)
    ensures
        x < 0 || y < 0 ==> hit_at(x, y, phase) == Hit::Nothing,
        !(0 <= x < 1620 && 0 <= y < 2160) ==> !on_card(x, y),
{
}

/// The menu panel stands above its button, 520 pixels wide, with rows of 118 pixels;
/// each row does what is written on it.
pub proof fn law_menu_layout(x: int, y: int)
    ensures
        menu_hit_at(x, y, MenuState::Closed) == MenuHit::Nothing,
        menu_hit_at(x, y, MenuState::Root) == (if !(1070 <= x < 1590 && 1418 <= y < 1772) {
            MenuHit::Nothing
        } else if y < 1536 {
            MenuHit::OpenFlags
        } else if y < 1654 {
            MenuHit::Bury
        } else {
            MenuHit::Suspend
        }),
        menu_hit_at(x, y, MenuState::Flags) == (if !(1070 <= x < 1590 && 828 <= y < 1772) {
            MenuHit::Nothing
        } else if y < 1654 {
            MenuHit::Flag(((y - 828) / 118 + 1) as u32)
        } else {
            MenuHit::Flag(0)
        }),
{
}

/// The home screen's header has Exit, Sync and the two scroll buttons at its right, and
/// nothing else to touch.
pub proof fn law_home_header_layout(x: int, y: int, visible: Seq<DeckRow>, scroll: int)
    requires
        0 <= y < 110,
    ensures
        home_hit_at(x, y, visible, scroll) == (if x < 1094 {
            HomeHit::Nothing
        } else if x < 1094 + 88 {
            HomeHit::ScrollUp
        } else if x < 1182 + 88 {
            HomeHit::ScrollDown
        } else if x < 1270 + 190 {
            HomeHit::Sync
        } else {
            HomeHit::Exit
        }),
{
}

/// A deck with subdecks has a zone of 84 pixels behind its indentation of 46 pixels a
/// level; a touch there switches the subdecks, and anywhere else in a row opens the
/// deck.
pub proof fn law_chevrons_switch_subdecks(
    x: int,
    y: int,
    visible: Seq<DeckRow>,
    scroll: int,
    k: int,
)
    requires
        0 <= x,
        0 <= k < 17,
        110 + k * 116 <= y < 110 + (k + 1) * 116,
        0 <= scroll,
        scroll + k < visible.len() <= usize::MAX,
    ensures
        ({
            let d = visible[scroll + k];
            let left = 32 + 46 * d.level;
            home_hit_at(x, y, visible, scroll) == (if d.has_children && left <= x < left + 84 {
                HomeHit::Toggle((scroll + k) as usize)
            } else {
                HomeHit::Deck((scroll + k) as usize)
            })
        }),
{
    assert((y - 110) / 116 == k);
}

/// A touch behind the last deck finds none.
pub proof fn law_nothing_behind_the_last_deck(
    x: int,
    y: int,
    visible: Seq<DeckRow>,
    scroll: int,
)
    requires
        0 <= scroll,
        y >= 110 + 116 * (visible.len() - scroll),
        y >= 110,
    ensures
        home_hit_at(x, y, visible, scroll) == HomeHit::Nothing,
{
    assert((y - 110) / 116 >= visible.len() - scroll) by (nonlinear_arith)
        requires
            y - 110 >= 116 * (visible.len() - scroll),
    ;
}

/// A list of up to 17 rows does not scroll, and a longer one up to where its last row
/// ends the page.
pub proof fn law_list_scrolls_to_its_end(len: int)
    ensures
        len <= 17 ==> max_scroll(len) == 0,
        len > 17 ==> max_scroll(len) + 17 == len,
{
}

} // verus!
