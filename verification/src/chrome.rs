//! The HTML of everything around the card: bars, menu, messages and deck list.
//!
//! Each function gives one document as text. Its specification is the same
//! concatenation of fixed pieces, numerals and escaped texts.

use vstd::prelude::*;

use crate::backend::{CardKind, Counts, Stats};
use crate::decks::{DeckInfo, DeckRow, FIRST_DECK};
use crate::frame::{HEIGHT, TOP_H};
use crate::text::{
    copy_of, dec, esc, esc_lines, escaped, escaped_lines, push_dec, same_text,
};
use crate::ui::{
    chevron_x, item_count, menu_items, row_action, MenuHit, MenuState, Phase, CLEAR_W,
    ERASE_W, EXIT_W, FLAG_COUNT, HOME_CHEV_W, HOME_INDENT, HOME_PAD_L, HOME_ROW_H, HOME_W,
    MENU_BTN, MENU_ITEM_H, MENU_PANEL_W, PAGE_ROWS, SCROLL_BTN_W, SYNC_W, UNDO_W,
};

verus! {

// ------------------------------------------------------------- status bar

// The fixed pieces of the status bar, in order.
pub const TOP_BAR_1: &'static str =
    "<!DOCTYPE html><html><head><style>body{font-family:sans-serif;margin:0;\
    padding:0;height:";

pub const TOP_BAR_2: &'static str =
    "px;color:#111;background:#fff;display:flex;align-items:center;}.counts{flex:1;\
    display:flex;align-items:center;gap:26px;font-size:42px;padding-left:32px;}\
    .n{color:#1565c0;font-weight:700;} .l{color:#c62828;font-weight:700;} \
    .r{color:#2e7d32;font-weight:700;} .und{border-bottom:7px solid;}\
    .status{font-size:24px;color:#666;padding-right:20px;overflow:hidden;\
    text-overflow:ellipsis;max-width:560px;}.btn{font-size:30px;font-weight:700;\
    text-align:center;color:#fff;height:";

pub const TOP_BAR_3: &'static str =
    "px;display:flex;align-items:center;justify-content:center;border-left:2px solid \
    #fff;}.home{width:";

pub const TOP_BAR_4: &'static str = "px;background:#37474f;}.undo{width:";

pub const TOP_BAR_5: &'static str = "px;background:#607d8b;}.erase{width:";

pub const TOP_BAR_6: &'static str = "px;background:";

pub const TOP_BAR_7: &'static str = ";color:";

pub const TOP_BAR_8: &'static str = ";}.clear{width:";

pub const TOP_BAR_9: &'static str = "px;background:#8d6e63;}.sync{width:";

pub const TOP_BAR_10: &'static str = "px;background:#455a64;} .exit{width:";

pub const TOP_BAR_11: &'static str =
    "px;background:#333;}</style></head><body><div class=\"counts\"><span class=\"";

pub const TOP_BAR_12: &'static str = "\">";

pub const TOP_BAR_13: &'static str = "</span><span class=\"";

pub const TOP_BAR_14: &'static str = "\">";

pub const TOP_BAR_15: &'static str = "</span><span class=\"";

pub const TOP_BAR_16: &'static str = "\">";

pub const TOP_BAR_17: &'static str = "</span></div><div class=\"status\">";

pub const TOP_BAR_18: &'static str =
    "</div><div class=\"btn home\">Home</div><div class=\"btn undo\">Undo</div><div \
    class=\"btn erase\">Eraser</div><div class=\"btn clear\">Clear</div><div \
    class=\"btn sync\">Sync</div><div class=\"btn exit\">Exit</div></body></html>";

pub const ERASER_ON_BG: &'static str = "#111";

pub const ERASER_ON_FG: &'static str = "#fff";

pub const ERASER_OFF_BG: &'static str = "#e8e8e8";

pub const ERASER_OFF_FG: &'static str = "#333";

/// Background of the Eraser button; it is inverted while the eraser is on.
pub open spec fn eraser_background(on: bool) -> Seq<char> {
    if on {
        ERASER_ON_BG@
    } else {
        ERASER_OFF_BG@
    }
}

/// Text colour of the Eraser button.
pub open spec fn eraser_color(on: bool) -> Seq<char> {
    if on {
        ERASER_ON_FG@
    } else {
        ERASER_OFF_FG@
    }
}

/// Class of a count; the one of the present card's queue is underlined.
pub open spec fn count_class(base: Seq<char>, current: bool) -> Seq<char> {
    if current {
        base + " und"@
    } else {
        base
    }
}

fn count_css(base: &str, current: bool) -> (s: String)
    ensures
        s@ == count_class(base@, current),
{
    let mut s: String = copy_of(base);
    if current {
        s.append(" und");
    }
    s
}

fn is_kind(kind: Option<CardKind>, k: CardKind) -> (b: bool)
    ensures
        b == (kind == Some(k)),
{
    match kind {
        Some(have) => have == k,
        None => false,
    }
}

/// The status bar of the review screen.
pub open spec fn top_bar(
    counts: Counts,
    kind: Option<CardKind>,
    status: Seq<char>,
    eraser: bool,
) -> Seq<char> {
    TOP_BAR_1@
        + dec(TOP_H as int)
        + TOP_BAR_2@
        + dec(TOP_H as int)
        + TOP_BAR_3@
        + dec(HOME_W as int)
        + TOP_BAR_4@
        + dec(UNDO_W as int)
        + TOP_BAR_5@
        + dec(ERASE_W as int)
        + TOP_BAR_6@
        + eraser_background(eraser)
        + TOP_BAR_7@
        + eraser_color(eraser)
        + TOP_BAR_8@
        + dec(CLEAR_W as int)
        + TOP_BAR_9@
        + dec(SYNC_W as int)
        + TOP_BAR_10@
        + dec(EXIT_W as int)
        + TOP_BAR_11@
        + count_class("n"@, kind == Some(CardKind::New))
        + TOP_BAR_12@
        + dec(counts.new as int)
        + TOP_BAR_13@
        + count_class("l"@, kind == Some(CardKind::Learning))
        + TOP_BAR_14@
        + dec(counts.learning as int)
        + TOP_BAR_15@
        + count_class("r"@, kind == Some(CardKind::Review))
        + TOP_BAR_16@
        + dec(counts.review as int)
        + TOP_BAR_17@
        + escaped(status)
        + TOP_BAR_18@
}

/// Gives the status bar: the counts, the status text and the buttons.
pub fn top_bar_html(
    counts: Counts,
    kind: Option<CardKind>,
    status: &str,
    eraser: bool,
) -> (html: String)
    ensures
        html@ == top_bar(counts, kind, status@, eraser),
{
    let mut out: String = copy_of(TOP_BAR_1);
    push_dec(&mut out, TOP_H as u64);
    out.append(TOP_BAR_2);
    push_dec(&mut out, TOP_H as u64);
    out.append(TOP_BAR_3);
    push_dec(&mut out, HOME_W as u64);
    out.append(TOP_BAR_4);
    push_dec(&mut out, UNDO_W as u64);
    out.append(TOP_BAR_5);
    push_dec(&mut out, ERASE_W as u64);
    out.append(TOP_BAR_6);
    out.append(if eraser {
        ERASER_ON_BG
    } else {
        ERASER_OFF_BG
    });
    out.append(TOP_BAR_7);
    out.append(if eraser {
        ERASER_ON_FG
    } else {
        ERASER_OFF_FG
    });
    out.append(TOP_BAR_8);
    push_dec(&mut out, CLEAR_W as u64);
    out.append(TOP_BAR_9);
    push_dec(&mut out, SYNC_W as u64);
    out.append(TOP_BAR_10);
    push_dec(&mut out, EXIT_W as u64);
    out.append(TOP_BAR_11);
    out.append(count_css("n", is_kind(kind, CardKind::New)).as_str());
    out.append(TOP_BAR_12);
    push_dec(&mut out, counts.new as u64);
    out.append(TOP_BAR_13);
    out.append(count_css("l", is_kind(kind, CardKind::Learning)).as_str());
    out.append(TOP_BAR_14);
    push_dec(&mut out, counts.learning as u64);
    out.append(TOP_BAR_15);
    out.append(count_css("r", is_kind(kind, CardKind::Review)).as_str());
    out.append(TOP_BAR_16);
    push_dec(&mut out, counts.review as u64);
    out.append(TOP_BAR_17);
    out.append(esc(status).as_str());
    out.append(TOP_BAR_18);
    out
}

// ------------------------------------------------------------- action bar

// The fixed pieces of the action bar.
pub const BOTTOM_HEAD: &'static str =
    "<!DOCTYPE html><html><head><style>body{font-family:sans-serif;margin:0;\
    padding:0;height:100%;background:#fff;}.row{display:flex;height:100%;}\
    .cell{flex:1;display:flex;flex-direction:column;align-items:center;\
    justify-content:center;border-left:2px solid #fff;}.name{font-size:40px;\
    font-weight:700;color:#fff;}.iv{font-size:28px;color:#eee;margin-top:8px;}\
    .show{display:flex;align-items:center;justify-content:center;height:150px;\
    font-size:48px;font-weight:700;color:#fff;background:#1565c0;}</style></head>\
    <body>";

pub const SHOW_ANSWER: &'static str = "<div class=\"show\">Show Answer</div></body></html>";

pub const GRADE_ROW: &'static str = "<div class=\"row\">";

pub const GRADE_END: &'static str = "</div></body></html>";

pub const CELL_1: &'static str = "<div class=\"cell\" style=\"background:";

pub const CELL_2: &'static str = ";\"><div class=\"name\">";

pub const CELL_3: &'static str = "</div><div class=\"iv\">";

pub const CELL_4: &'static str = "</div></div>";

/// A grade button: colour, name and the interval that the grade would give.
pub open spec fn cell(color: Seq<char>, name: Seq<char>, interval: Seq<char>) -> Seq<char> {
    CELL_1@ + color + CELL_2@ + name + CELL_3@ + escaped(interval) + CELL_4@
}

fn push_cell(out: &mut String, color: &str, name: &str, interval: &str)
    ensures
        final(out)@ == old(out)@ + cell(color@, name@, interval@),
{
    let mut c: String = copy_of(CELL_1);
    c.append(color);
    c.append(CELL_2);
    c.append(name);
    c.append(CELL_3);
    c.append(esc(interval).as_str());
    c.append(CELL_4);
    out.append(c.as_str());
}

/// The action bar of the review screen.
pub open spec fn bottom_bar(labels: Seq<Seq<char>>, phase: Phase) -> Seq<char> {
    match phase {
        Phase::Question => BOTTOM_HEAD@ + SHOW_ANSWER@,
        Phase::Answer => BOTTOM_HEAD@ + GRADE_ROW@
            + cell("#c62828"@, "Again"@, labels[0])
            + cell("#ef6c00"@, "Hard"@, labels[1])
            + cell("#2e7d32"@, "Good"@, labels[2])
            + cell("#1565c0"@, "Easy"@, labels[3])
            + GRADE_END@,
    }
}

/// Gives the action bar: the button that shows the answer, or the four grades with
/// their intervals.
pub fn bottom_bar_html(labels: &[String; 4], phase: Phase) -> (html: String)
    ensures
        html@ == bottom_bar(seq![labels@[0]@, labels@[1]@, labels@[2]@, labels@[3]@], phase),
{
    let mut out: String = copy_of(BOTTOM_HEAD);
    match phase {
        Phase::Question => {
            out.append(SHOW_ANSWER);
        },
        Phase::Answer => {
            out.append(GRADE_ROW);
            push_cell(&mut out, "#c62828", "Again", labels[0].as_str());
            push_cell(&mut out, "#ef6c00", "Hard", labels[1].as_str());
            push_cell(&mut out, "#2e7d32", "Good", labels[2].as_str());
            push_cell(&mut out, "#1565c0", "Easy", labels[3].as_str());
            out.append(GRADE_END);
        },
    }
    out
}

// --------------------------------------------------------------- messages

// The fixed pieces of the message without a card, in order.
pub const EMPTY_1: &'static str = "<!DOCTYPE html><html><head><style>body{margin:0;padding:0 120px;\
    box-sizing:border-box;font-family:sans-serif;color:#111;background:#fff;height:";

pub const EMPTY_2: &'static str =
    "px;display:flex;flex-direction:column;align-items:center;justify-content:center;\
    text-align:center;}.t{font-size:60px;font-weight:700;margin-bottom:24px;}\
    .b{font-size:34px;color:#444;line-height:1.5;max-width:1100px;}</style></head>\
    <body><div class=\"t\">";

pub const EMPTY_3: &'static str = "</div><div class=\"b\">";

pub const EMPTY_4: &'static str = "</div></body></html>";

// The fixed pieces of a message, in order.
pub const MESSAGE_1: &'static str =
    "<!DOCTYPE html><html><head><style>body{font-family:sans-serif;margin:0;\
    padding:0 120px;box-sizing:border-box;color:#111;background:#fff;\
    text-align:center;display:flex;flex-direction:column;align-items:center;\
    justify-content:center;height:100%;}.t{font-size:64px;font-weight:700;\
    margin-bottom:28px;}.b{font-size:36px;color:#444;line-height:1.5;\
    max-width:1100px;}</style></head><body><div class=\"t\">";

pub const MESSAGE_2: &'static str = "</div><div class=\"b\">";

pub const MESSAGE_3: &'static str = "</div></body></html>";

/// Height of the screen below the status bar.
pub const AREA_H: usize = HEIGHT - TOP_H;

/// The message below the status bar when no card is due.
pub open spec fn empty_notice(title: Seq<char>, body: Seq<char>) -> Seq<char> {
    EMPTY_1@
        + dec(AREA_H as int)
        + EMPTY_2@
        + escaped(title)
        + EMPTY_3@
        + escaped(body)
        + EMPTY_4@
}

/// Gives the message that fills the review screen when no card is due.
pub fn review_empty_html(title: &str, body: &str) -> (html: String)
    ensures
        html@ == empty_notice(title@, body@),
{
    let mut out: String = copy_of(EMPTY_1);
    push_dec(&mut out, AREA_H as u64);
    out.append(EMPTY_2);
    out.append(esc(title).as_str());
    out.append(EMPTY_3);
    out.append(esc(body).as_str());
    out.append(EMPTY_4);
    out
}

/// A message that fills the screen; the lines of the body stay lines.
pub open spec fn message(title: Seq<char>, body: Seq<char>) -> Seq<char> {
    MESSAGE_1@
        + escaped(title)
        + MESSAGE_2@
        + escaped_lines(body)
        + MESSAGE_3@
}

/// Gives a message that fills the screen.
pub fn message_html(title: &str, body: &str) -> (html: String)
    ensures
        html@ == message(title@, body@),
{
    let mut out: String = copy_of(MESSAGE_1);
    out.append(esc(title).as_str());
    out.append(MESSAGE_2);
    out.append(esc_lines(body).as_str());
    out.append(MESSAGE_3);
    out
}

// ------------------------------------------------------------------- menu

// The fixed pieces of the menu button, in order.
pub const MENU_BUTTON_1: &'static str =
    "<!DOCTYPE html><html><head><style>body{margin:0;padding:0;}.m{width:";

pub const MENU_BUTTON_2: &'static str = "px;height:";

pub const MENU_BUTTON_3: &'static str =
    "px;background:#37474f;color:#fff;box-sizing:border-box;display:flex;\
    align-items:center;justify-content:center;font-size:82px;font-weight:700;\
    border-radius:18px;}</style></head><body><div class=\"m\">⋮</div></body></html>";

/// The menu button.
pub open spec fn menu_button() -> Seq<char> {
    MENU_BUTTON_1@
        + dec(MENU_BTN as int)
        + MENU_BUTTON_2@
        + dec(MENU_BTN as int)
        + MENU_BUTTON_3@
}

/// Gives the menu button.
pub fn menu_button_html() -> (html: String)
    ensures
        html@ == menu_button(),
{
    let mut out: String = copy_of(MENU_BUTTON_1);
    push_dec(&mut out, MENU_BTN as u64);
    out.append(MENU_BUTTON_2);
    push_dec(&mut out, MENU_BTN as u64);
    out.append(MENU_BUTTON_3);
    out
}

/// Name of flag `n`, from 1 to 7.
pub open spec fn flag_title(n: int) -> Seq<char> {
    if n == 1 {
        "Red"@
    } else if n == 2 {
        "Orange"@
    } else if n == 3 {
        "Green"@
    } else if n == 4 {
        "Blue"@
    } else if n == 5 {
        "Pink"@
    } else if n == 6 {
        "Turquoise"@
    } else {
        "Purple"@
    }
}

/// Colour of flag `n`, from 1 to 7.
pub open spec fn flag_shade(n: int) -> Seq<char> {
    if n == 1 {
        "#d32f2f"@
    } else if n == 2 {
        "#f57c00"@
    } else if n == 3 {
        "#388e3c"@
    } else if n == 4 {
        "#1976d2"@
    } else if n == 5 {
        "#e91e63"@
    } else if n == 6 {
        "#00bcd4"@
    } else {
        "#7b1fa2"@
    }
}

/// Name of a flag.
pub fn flag_name(n: u32) -> (s: &'static str)
    requires
        1 <= n <= FLAG_COUNT,
    ensures
        s@ == flag_title(n as int),
{
    if n == 1 {
        "Red"
    } else if n == 2 {
        "Orange"
    } else if n == 3 {
        "Green"
    } else if n == 4 {
        "Blue"
    } else if n == 5 {
        "Pink"
    } else if n == 6 {
        "Turquoise"
    } else {
        "Purple"
    }
}

/// Colour of a flag.
pub fn flag_color(n: u32) -> (s: &'static str)
    requires
        1 <= n <= FLAG_COUNT,
    ensures
        s@ == flag_shade(n as int),
{
    if n == 1 {
        "#d32f2f"
    } else if n == 2 {
        "#f57c00"
    } else if n == 3 {
        "#388e3c"
    } else if n == 4 {
        "#1976d2"
    } else if n == 5 {
        "#e91e63"
    } else if n == 6 {
        "#00bcd4"
    } else {
        "#7b1fa2"
    }
}

// The fixed pieces of the rows of the panels.
pub const FLAG_ROW_1: &'static str = "<div class=\"it sep";

pub const FLAG_ROW_2: &'static str = "\"><span class=\"sw\" style=\"background:";

pub const FLAG_ROW_3: &'static str = ";\"></span>";

pub const FLAG_ROW_END: &'static str = "</div>";

pub const FLAG_CURRENT: &'static str = " cur";

pub const FLAG_TICK: &'static str = " ✓";

pub const REMOVE_FLAG: &'static str = "<div class=\"it\">Remove flag</div>";

pub const ROOT_FLAG: &'static str = "<div class=\"it sep\">Flag…";

pub const ROOT_FLAG_OPEN: &'static str = " ▸</div>";

pub const ROOT_REST: &'static str =
    "<div class=\"it sep\">Bury card</div><div class=\"it\">Suspend note</div>";

/// The row of flag `n`; the card's flag is bold and ticked.
pub open spec fn flag_row(n: int, current: int) -> Seq<char> {
    FLAG_ROW_1@ + (if n == current {
        FLAG_CURRENT@
    } else {
        ""@
    }) + FLAG_ROW_2@ + flag_shade(n) + FLAG_ROW_3@ + dec(n) + " "@ + flag_title(n) + (if n
        == current {
        FLAG_TICK@
    } else {
        ""@
    }) + FLAG_ROW_END@
}

/// The rows of the first `n` flags.
pub open spec fn flag_rows(n: int, current: int) -> Seq<char>
    decreases n,
{
    if n <= 0 {
        Seq::empty()
    } else {
        flag_rows(n - 1, current) + flag_row(n, current)
    }
}

/// The flags panel draws each flag in the row in which a touch finds it.
pub proof fn law_flag_rows_match_hits(row: int, current: int)
    requires
        0 <= row < FLAG_COUNT,
    ensures
        flag_rows(row + 1, current) == flag_rows(row, current) + flag_row(row + 1, current),
        row_action(MenuState::Flags, row) == MenuHit::Flag((row + 1) as u32),
{
}

/// The rows of a panel. The root panel names the card's flag, where it has one.
pub open spec fn panel_rows(state: MenuState, current: int) -> Seq<char> {
    match state {
        MenuState::Closed => Seq::empty(),
        MenuState::Root => ROOT_FLAG@ + (if 1 <= current <= FLAG_COUNT {
            " ("@ + flag_title(current) + ")"@
        } else {
            Seq::empty()
        }) + ROOT_FLAG_OPEN@ + ROOT_REST@,
        MenuState::Flags => flag_rows(FLAG_COUNT as int, current) + REMOVE_FLAG@,
    }
}

fn panel_rows_html(state: MenuState, current: u8) -> (rows: String)
    ensures
        rows@ == panel_rows(state, current as int),
{
    let mut rows: String = String::new();
    match state {
        MenuState::Closed => {
            assert(rows@ =~= Seq::empty());
        },
        MenuState::Root => {
            let mut name: String = String::new();
            assert(name@ =~= Seq::empty());
            if 1 <= current && current as usize <= FLAG_COUNT {
                name = copy_of(" (");
                name.append(flag_name(current as u32));
                name.append(")");
            }
            rows = copy_of(ROOT_FLAG);
            rows.append(name.as_str());
            rows.append(ROOT_FLAG_OPEN);
            rows.append(ROOT_REST);
        },
        MenuState::Flags => {
            let mut n: u32 = 0;
            assert(rows@ =~= flag_rows(0, current as int));
            while n < FLAG_COUNT as u32
                invariant
                    n <= FLAG_COUNT,
                    rows@ == flag_rows(n as int, current as int),
                decreases FLAG_COUNT - n,
            {
                n += 1;
                let mut row: String = copy_of(FLAG_ROW_1);
                row.append(if n == current as u32 {
                    FLAG_CURRENT
                } else {
                    ""
                });
                row.append(FLAG_ROW_2);
                row.append(flag_color(n));
                row.append(FLAG_ROW_3);
                push_dec(&mut row, n as u64);
                row.append(" ");
                row.append(flag_name(n));
                row.append(if n == current as u32 {
                    FLAG_TICK
                } else {
                    ""
                });
                row.append(FLAG_ROW_END);
                rows.append(row.as_str());
            }
            rows.append(REMOVE_FLAG);
        },
    }
    rows
}

// The fixed pieces of a panel, in order.
pub const PANEL_1: &'static str =
    "<!DOCTYPE html><html><head><style>body{margin:0;padding:0;}.p{width:";

pub const PANEL_2: &'static str = "px;height:";

pub const PANEL_3: &'static str =
    "px;background:#fff;border:3px solid #333;box-sizing:border-box;}.it{height:";

pub const PANEL_4: &'static str =
    "px;display:flex;align-items:center;padding-left:36px;font-size:46px;color:#111;\
    box-sizing:border-box;}.sep{border-bottom:2px solid #cccccc;}\
    .cur{font-weight:700;}.sw{display:inline-block;width:34px;height:34px;flex:none;\
    border:2px solid #888;margin-right:26px;}</style></head><body><div class=\"p\">";

pub const PANEL_5: &'static str = "</div></body></html>";

/// A menu panel, for a card with flag `current` (0 for none).
pub open spec fn menu_panel(state: MenuState, current: int) -> Seq<char> {
    PANEL_1@
        + dec(MENU_PANEL_W as int)
        + PANEL_2@
        + dec(MENU_ITEM_H * item_count(state))
        + PANEL_3@
        + dec(MENU_ITEM_H as int)
        + PANEL_4@
        + panel_rows(state, current)
        + PANEL_5@
}

/// Gives a menu panel; the rows stand in the order in which touches find them.
pub fn menu_panel_html(state: MenuState, current: u8) -> (html: String)
    ensures
        html@ == menu_panel(state, current as int),
{
    let mut out: String = copy_of(PANEL_1);
    push_dec(&mut out, MENU_PANEL_W as u64);
    out.append(PANEL_2);
    push_dec(&mut out, (MENU_ITEM_H * menu_items(state)) as u64);
    out.append(PANEL_3);
    push_dec(&mut out, MENU_ITEM_H as u64);
    out.append(PANEL_4);
    out.append(panel_rows_html(state, current).as_str());
    out.append(PANEL_5);
    out
}

// -------------------------------------------------------------- home screen

// The fixed pieces of a row of the deck list.
pub const ROW_1: &'static str = "<div class=\"";

pub const ROW_2: &'static str = "\" style=\"padding-left:";

pub const ROW_3: &'static str = "px;\"><div class=\"chev\">";

pub const ROW_4: &'static str = "</div><div class=\"nm\">";

pub const ROW_5: &'static str = "</div><div class=\"chips\">";

pub const ROW_6: &'static str = "</div></div>";

pub const UNI_ROW: &'static str = "row uni";

pub const PLAIN_ROW: &'static str = "row";

pub const NO_CHEVRON: &'static str = "";

pub const COLLAPSED_CHEVRON: &'static str = "&#9656;";

pub const EXPANDED_CHEVRON: &'static str = "&#9662;";

pub const ZERO_CHIP: &'static str = "<span class=\"z\">0</span>";

/// A due count; a zero is greyed out.
pub open spec fn chip(class: Seq<char>, v: int) -> Seq<char> {
    if v == 0 {
        ZERO_CHIP@
    } else {
        "<span class=\""@ + class + "\">"@ + dec(v) + "</span>"@
    }
}

fn chip_html(class: &str, v: u32) -> (s: String)
    ensures
        s@ == chip(class@, v as int),
{
    if v == 0 {
        copy_of(ZERO_CHIP)
    } else {
        let mut s: String = copy_of("<span class=\"");
        s.append(class);
        s.append("\">");
        push_dec(&mut s, v as u64);
        s.append("</span>");
        s
    }
}

/// Class of a row; the deck `uni` at the top is set off.
pub open spec fn row_class(d: DeckRow) -> Seq<char> {
    if d.name == FIRST_DECK@ && d.level == 0 {
        UNI_ROW@
    } else {
        PLAIN_ROW@
    }
}

fn row_css(d: &DeckInfo) -> (s: &'static str)
    ensures
        s@ == row_class(d@),
{
    if same_text(d.name.as_str(), FIRST_DECK) && d.level == 0 {
        UNI_ROW
    } else {
        PLAIN_ROW
    }
}

/// The chevron of a row: none without subdecks, else pointing right while the
/// deck is collapsed and down while it is expanded.
pub open spec fn chevron(d: DeckRow) -> Seq<char> {
    if !d.has_children {
        NO_CHEVRON@
    } else if d.collapsed {
        COLLAPSED_CHEVRON@
    } else {
        EXPANDED_CHEVRON@
    }
}

fn chevron_html(d: &DeckInfo) -> (s: &'static str)
    ensures
        s@ == chevron(d@),
{
    if !d.has_children {
        NO_CHEVRON
    } else if d.collapsed {
        COLLAPSED_CHEVRON
    } else {
        EXPANDED_CHEVRON
    }
}

// The fixed pieces of the home screen, in order.
pub const HOME_1: &'static str =
    "<!DOCTYPE html><html><head><meta charset=\"utf-8\"><style>html,body{margin:0;\
    padding:0;background:#fff;color:#111;font-family:sans-serif;}.top{height:";

pub const HOME_2: &'static str =
    "px;display:flex;align-items:center;box-sizing:border-box;border-bottom:3px \
    solid #000;}.title{font-size:44px;font-weight:800;padding-left:36px;}\
    .pos{font-size:26px;color:#888;padding-left:20px;} .sp{flex:1;}\
    .streak{font-size:30px;color:#555;padding-right:22px;white-space:nowrap;}\
    .btn{font-size:34px;font-weight:700;color:#fff;height:";

pub const HOME_3: &'static str =
    "px;display:flex;align-items:center;justify-content:center;border-left:2px solid \
    #fff;box-sizing:border-box;}.up,.dn{width:";

pub const HOME_4: &'static str = "px;background:#607d8b;}.sync{width:";

pub const HOME_5: &'static str = "px;background:#455a64;} .exit{width:";

pub const HOME_6: &'static str = "px;background:#333;}.row{height:";

pub const HOME_7: &'static str =
    "px;display:flex;align-items:center;box-sizing:border-box;border-bottom:1px \
    solid #dddddd;padding-right:40px;}.row.uni{background:#eef4ff;}.chev{width:";

pub const HOME_8: &'static str =
    "px;font-size:34px;color:#888;flex:none;}.nm{flex:1;font-size:40px;\
    font-weight:600;overflow:hidden;white-space:nowrap;text-overflow:ellipsis;}\
    .row.uni .nm{color:#1565c0;font-weight:800;}.chips{font-size:32px;\
    font-weight:700;white-space:nowrap;}.chips span{margin-left:32px;\
    display:inline-block;min-width:1.1em;text-align:right;}.n{color:#1565c0;} \
    .l{color:#c62828;} .r{color:#2e7d32;} .z{color:#c8c8c8;}</style></head><body>\
    <div class=\"top\"><div class=\"title\">Decks</div>";

pub const HOME_9: &'static str = "<div class=\"sp\"></div><div class=\"streak\">&#128293; ";

pub const HOME_10: &'static str = " day streak &#183; ";

pub const HOME_11: &'static str =
    " today</div><div class=\"btn up\">&#9650;</div><div class=\"btn dn\">&#9660;\
    </div><div class=\"btn sync\">Sync</div><div class=\"btn exit\">Exit</div></div>";

pub const HOME_12: &'static str = "</body></html>";

/// A row of the deck list.
pub open spec fn deck_row(d: DeckRow) -> Seq<char> {
    ROW_1@
        + row_class(d)
        + ROW_2@
        + dec(chevron_x(d.level as int))
        + ROW_3@
        + chevron(d)
        + ROW_4@
        + escaped(d.name)
        + ROW_5@
        + chip("n"@, d.new as int)
        + chip("l"@, d.learn as int)
        + chip("r"@, d.review as int)
        + ROW_6@
}

fn deck_row_html(d: &DeckInfo) -> (html: String)
    ensures
        html@ == deck_row(d@),
{
    let mut out: String = copy_of(ROW_1);
    out.append(row_css(d));
    out.append(ROW_2);
    assert(HOME_PAD_L == 32 && HOME_INDENT == 46);
    assert(d.level * HOME_INDENT <= 0xffff_ffff * 46) by (nonlinear_arith)
        requires
            HOME_INDENT == 46,
            0 <= d.level <= 0xffff_ffff,
    ;
    push_dec(&mut out, HOME_PAD_L as u64 + d.level as u64 * HOME_INDENT as u64);
    out.append(ROW_3);
    out.append(chevron_html(d));
    out.append(ROW_4);
    out.append(esc(d.name.as_str()).as_str());
    out.append(ROW_5);
    out.append(chip_html("n", d.new).as_str());
    out.append(chip_html("l", d.learn).as_str());
    out.append(chip_html("r", d.review).as_str());
    out.append(ROW_6);
    out
}

/// The rows from `from` up to `to`.
pub open spec fn deck_row_list(visible: Seq<DeckInfo>, from: int, to: int) -> Seq<char>
    decreases to - from,
{
    if to <= from {
        Seq::empty()
    } else {
        deck_row_list(visible, from, to - 1) + deck_row(visible[to - 1]@)
    }
}

/// The row behind the page that starts with row `scroll`.
pub open spec fn page_end(scroll: int, len: int) -> int {
    if scroll + PAGE_ROWS < len {
        scroll + PAGE_ROWS
    } else {
        len
    }
}

/// The lesser number.
pub open spec fn lesser(a: int, b: int) -> int {
    if a <= b {
        a
    } else {
        b
    }
}

/// Where in the list the page is, given only when the list is longer than a page.
pub open spec fn page_position(scroll: int, len: int) -> Seq<char> {
    if len > PAGE_ROWS {
        "<div class=\"pos\">"@ + dec(lesser(scroll + 1, len)) + "\u{2013}"@ + dec(
            page_end(scroll, len),
        ) + " / "@ + dec(len) + "</div>"@
    } else {
        Seq::empty()
    }
}

fn page_end_of(scroll: usize, len: usize) -> (end: usize)
    ensures
        end == page_end(scroll as int, len as int),
{
    if scroll < len && len - scroll > PAGE_ROWS {
        scroll + PAGE_ROWS
    } else {
        len
    }
}

fn page_position_html(scroll: usize, len: usize) -> (s: String)
    ensures
        s@ == page_position(scroll as int, len as int),
{
    if len > PAGE_ROWS {
        let mut s: String = copy_of("<div class=\"pos\">");
        push_dec(
            &mut s,
            (if scroll < len {
                scroll + 1
            } else {
                len
            }) as u64,
        );
        s.append("\u{2013}");
        push_dec(&mut s, page_end_of(scroll, len) as u64);
        s.append(" / ");
        push_dec(&mut s, len as u64);
        s.append("</div>");
        s
    } else {
        let s: String = String::new();
        assert(s@ =~= Seq::empty());
        s
    }
}

fn deck_row_list_html(visible: &[DeckInfo], from: usize, to: usize) -> (s: String)
    requires
        to <= visible@.len(),
    ensures
        s@ == deck_row_list(visible@, from as int, to as int),
{
    let mut s: String = String::new();
    let mut i: usize = from;
    assert(s@ =~= deck_row_list(visible@, from as int, from as int));
    while i < to
        invariant
            i == from || i <= to,
            from <= i,
            to <= visible@.len(),
            s@ == deck_row_list(visible@, from as int, i as int),
        decreases to - i,
    {
        s.append(deck_row_html(&visible[i]).as_str());
        i += 1;
    }
    if from > to {
        assert(s@ =~= deck_row_list(visible@, from as int, to as int));
    }
    s
}

/// The home screen: the header, and one page of the deck list.
pub open spec fn home(visible: Seq<DeckInfo>, scroll: int, stats: Stats) -> Seq<char> {
    HOME_1@
        + dec(TOP_H as int)
        + HOME_2@
        + dec(TOP_H as int)
        + HOME_3@
        + dec(SCROLL_BTN_W as int)
        + HOME_4@
        + dec(SYNC_W as int)
        + HOME_5@
        + dec(EXIT_W as int)
        + HOME_6@
        + dec(HOME_ROW_H as int)
        + HOME_7@
        + dec(HOME_CHEV_W as int)
        + HOME_8@
        + page_position(scroll, visible.len() as int)
        + HOME_9@
        + dec(stats.streak as int)
        + HOME_10@
        + dec(stats.reviewed_today as int)
        + HOME_11@
        + deck_row_list(visible, scroll, page_end(scroll, visible.len() as int))
        + HOME_12@
}

/// Gives the home screen; `scroll` is the first row that is displayed.
pub fn home_html(visible: &[DeckInfo], scroll: usize, stats: Stats) -> (html: String)
    ensures
        html@ == home(visible@, scroll as int, stats),
{
    let mut out: String = copy_of(HOME_1);
    push_dec(&mut out, TOP_H as u64);
    out.append(HOME_2);
    push_dec(&mut out, TOP_H as u64);
    out.append(HOME_3);
    push_dec(&mut out, SCROLL_BTN_W as u64);
    out.append(HOME_4);
    push_dec(&mut out, SYNC_W as u64);
    out.append(HOME_5);
    push_dec(&mut out, EXIT_W as u64);
    out.append(HOME_6);
    push_dec(&mut out, HOME_ROW_H as u64);
    out.append(HOME_7);
    push_dec(&mut out, HOME_CHEV_W as u64);
    out.append(HOME_8);
    out.append(page_position_html(scroll, visible.len()).as_str());
    out.append(HOME_9);
    push_dec(&mut out, stats.streak as u64);
    out.append(HOME_10);
    push_dec(&mut out, stats.reviewed_today as u64);
    out.append(HOME_11);
    out.append(deck_row_list_html(visible, scroll, page_end_of(scroll, visible.len())).as_str());
    out.append(HOME_12);
    out
}

// -------------------------------------------------------------------- laws

/// A text ends with another.
pub open spec fn closes(page: Seq<char>, tail: Seq<char>) -> bool {
    page.len() >= tail.len() && page.skip(page.len() - tail.len()) == tail
}

proof fn lemma_behind(front: Seq<char>, a: Seq<char>, b: Seq<char>)
    ensures
        front + (a + b) == front + a + b,
{
    assert(front + (a + b) =~= front + a + b);
}

proof fn lemma_closes(front: Seq<char>, tail: Seq<char>)
    ensures
        closes(front + tail, tail),
        (front + tail).take(front.len() as int) == front,
{
    assert((front + tail).skip(front.len() as int) =~= tail);
    assert((front + tail).take(front.len() as int) =~= front);
}

/// The status bar tells the counts of new cards, cards being learnt and reviews, in this
/// order, the one of the present card's queue underlined, and behind them the status;
/// what stands before the counts depends on the eraser alone.
pub proof fn law_status_bar_tells_counts_and_status(
    counts: Counts,
    kind: Option<CardKind>,
    status: Seq<char>,
    eraser: bool,
)
    ensures
        ({
            let new = if kind == Some(CardKind::New) {
                "n"@ + " und"@
            } else {
                "n"@
            };
            let learning = if kind == Some(CardKind::Learning) {
                "l"@ + " und"@
            } else {
                "l"@
            };
            let review = if kind == Some(CardKind::Review) {
                "r"@ + " und"@
            } else {
                "r"@
            };
            let none = Counts { new: 0, learning: 0, review: 0 };
            let tail = new + "\">"@ + dec(counts.new as int) + "</span><span class=\""@ + learning
                + "\">"@ + dec(counts.learning as int) + "</span><span class=\""@ + review + "\">"@
                + dec(counts.review as int) + "</span></div><div class=\"status\">"@
                + escaped(status) + TOP_BAR_18@;
            let page = top_bar(counts, kind, status, eraser);
            let other = top_bar(none, None, Seq::empty(), eraser);
            &&& closes(page, tail)
            &&& page.take(page.len() - tail.len()).is_prefix_of(other)
        }),
{
    let front = TOP_BAR_1@ + dec(110) + TOP_BAR_2@ + dec(110) + TOP_BAR_3@ + dec(160) + TOP_BAR_4@
        + dec(160) + TOP_BAR_5@ + dec(180) + TOP_BAR_6@ + eraser_background(eraser) + TOP_BAR_7@
        + eraser_color(eraser) + TOP_BAR_8@ + dec(160) + TOP_BAR_9@ + dec(190) + TOP_BAR_10@
        + dec(160) + TOP_BAR_11@;
    let t0 = count_class("n"@, kind == Some(CardKind::New));
    lemma_behind(front, t0, "\">"@);
    let t1 = t0 + "\">"@;
    lemma_behind(front, t1, dec(counts.new as int));
    let t2 = t1 + dec(counts.new as int);
    lemma_behind(front, t2, "</span><span class=\""@);
    let t3 = t2 + "</span><span class=\""@;
    lemma_behind(front, t3, count_class("l"@, kind == Some(CardKind::Learning)));
    let t4 = t3 + count_class("l"@, kind == Some(CardKind::Learning));
    lemma_behind(front, t4, "\">"@);
    let t5 = t4 + "\">"@;
    lemma_behind(front, t5, dec(counts.learning as int));
    let t6 = t5 + dec(counts.learning as int);
    lemma_behind(front, t6, "</span><span class=\""@);
    let t7 = t6 + "</span><span class=\""@;
    lemma_behind(front, t7, count_class("r"@, kind == Some(CardKind::Review)));
    let t8 = t7 + count_class("r"@, kind == Some(CardKind::Review));
    lemma_behind(front, t8, "\">"@);
    let t9 = t8 + "\">"@;
    lemma_behind(front, t9, dec(counts.review as int));
    let t10 = t9 + dec(counts.review as int);
    lemma_behind(front, t10, "</span></div><div class=\"status\">"@);
    let t11 = t10 + "</span></div><div class=\"status\">"@;
    lemma_behind(front, t11, escaped(status));
    let t12 = t11 + escaped(status);
    lemma_behind(front, t12, TOP_BAR_18@);
    let t13 = t12 + TOP_BAR_18@;
    lemma_closes(front, t13);
    assert(top_bar(counts, kind, status, eraser) == front + t13);
    lemma_status_bar_front(counts, kind, status, eraser);
    lemma_status_bar_front(Counts { new: 0, learning: 0, review: 0 }, None, Seq::empty(), eraser);
    let other = top_bar(Counts { new: 0, learning: 0, review: 0 }, None, Seq::empty(), eraser);
    assert(other.take(front.len() as int) =~= front);
}

proof fn lemma_status_bar_front(
    counts: Counts,
    kind: Option<CardKind>,
    status: Seq<char>,
    eraser: bool,
)
    ensures
        ({
            let front = TOP_BAR_1@ + dec(110) + TOP_BAR_2@ + dec(110) + TOP_BAR_3@ + dec(160)
                + TOP_BAR_4@ + dec(160) + TOP_BAR_5@ + dec(180) + TOP_BAR_6@
                + eraser_background(eraser) + TOP_BAR_7@
                + eraser_color(eraser) + TOP_BAR_8@ + dec(160) + TOP_BAR_9@ + dec(190) + TOP_BAR_10@
                + dec(160) + TOP_BAR_11@;
            front.is_prefix_of(top_bar(counts, kind, status, eraser))
        }),
{
    let front = TOP_BAR_1@ + dec(110) + TOP_BAR_2@ + dec(110) + TOP_BAR_3@ + dec(160) + TOP_BAR_4@
        + dec(160) + TOP_BAR_5@ + dec(180) + TOP_BAR_6@ + eraser_background(eraser) + TOP_BAR_7@
        + eraser_color(eraser) + TOP_BAR_8@ + dec(160) + TOP_BAR_9@ + dec(190) + TOP_BAR_10@
        + dec(160) + TOP_BAR_11@;
    let t0 = count_class("n"@, kind == Some(CardKind::New));
    lemma_behind(front, t0, "\">"@);
    let t1 = t0 + "\">"@;
    lemma_behind(front, t1, dec(counts.new as int));
    let t2 = t1 + dec(counts.new as int);
    lemma_behind(front, t2, "</span><span class=\""@);
    let t3 = t2 + "</span><span class=\""@;
    lemma_behind(front, t3, count_class("l"@, kind == Some(CardKind::Learning)));
    let t4 = t3 + count_class("l"@, kind == Some(CardKind::Learning));
    lemma_behind(front, t4, "\">"@);
    let t5 = t4 + "\">"@;
    lemma_behind(front, t5, dec(counts.learning as int));
    let t6 = t5 + dec(counts.learning as int);
    lemma_behind(front, t6, "</span><span class=\""@);
    let t7 = t6 + "</span><span class=\""@;
    lemma_behind(front, t7, count_class("r"@, kind == Some(CardKind::Review)));
    let t8 = t7 + count_class("r"@, kind == Some(CardKind::Review));
    lemma_behind(front, t8, "\">"@);
    let t9 = t8 + "\">"@;
    lemma_behind(front, t9, dec(counts.review as int));
    let t10 = t9 + dec(counts.review as int);
    lemma_behind(front, t10, "</span></div><div class=\"status\">"@);
    let t11 = t10 + "</span></div><div class=\"status\">"@;
    lemma_behind(front, t11, escaped(status));
    let t12 = t11 + escaped(status);
    lemma_behind(front, t12, TOP_BAR_18@);
    let t13 = t12 + TOP_BAR_18@;
    lemma_closes(front, t13);
    assert(top_bar(counts, kind, status, eraser) == front + t13);
}

/// The buttons of the status bar are drawn as wide and as high as touches find them, and
/// named in that order; the Eraser button is dark while the eraser is on.
pub proof fn law_status_bar_draws_its_buttons(
    counts: Counts,
    kind: Option<CardKind>,
    status: Seq<char>,
    eraser: bool,
)
    ensures
        ({
            let ground = if eraser {
                "#111"@
            } else {
                "#e8e8e8"@
            };
            let ink = if eraser {
                "#fff"@
            } else {
                "#333"@
            };
            let front = TOP_BAR_1@ + dec(110) + TOP_BAR_2@ + dec(110) + TOP_BAR_3@ + dec(160)
                + "px;background:#37474f;}.undo{width:"@ + dec(160)
                + "px;background:#607d8b;}.erase{width:"@ + dec(180) + "px;background:"@ + ground
                + ";color:"@ + ink + ";}.clear{width:"@ + dec(160)
                + "px;background:#8d6e63;}.sync{width:"@ + dec(190)
                + "px;background:#455a64;} .exit{width:"@ + dec(160) + TOP_BAR_11@;
            let page = top_bar(counts, kind, status, eraser);
            let buttons =
                "</div><div class=\"btn home\">Home</div><div class=\"btn undo\">Undo</div><div \
                class=\"btn erase\">Eraser</div><div class=\"btn clear\">Clear</div><div \
                class=\"btn sync\">Sync</div><div class=\"btn exit\">Exit</div></body></html>"@;
            &&& front.is_prefix_of(page)
            &&& closes(page, buttons)
        }),
{
    lemma_status_bar_front(counts, kind, status, eraser);
    let page = top_bar(counts, kind, status, eraser);
    assert(closes(page, TOP_BAR_18@)) by {
        assert(page.skip(page.len() - TOP_BAR_18@.len()) =~= TOP_BAR_18@);
    }
}

/// Before the answer the action bar is the button that shows it; then it is the four
/// grades from left to right, each with the interval that was given for it.
pub proof fn law_action_bar_offers_answer_and_grades(labels: Seq<Seq<char>>)
    ensures
        closes(
            bottom_bar(labels, Phase::Question),
            "<div class=\"show\">Show Answer</div></body></html>"@,
        ),
        ({
            let colors = seq!["#c62828"@, "#ef6c00"@, "#2e7d32"@, "#1565c0"@];
            let names = seq!["Again"@, "Hard"@, "Good"@, "Easy"@];
            let button = |i: int|
                "<div class=\"cell\" style=\"background:"@ + colors[i] + ";\"><div class=\"name\">"@
                    + names[i] + "</div><div class=\"iv\">"@ + escaped(labels[i]) + "</div></div>"@;
            closes(
                bottom_bar(labels, Phase::Answer),
                "<div class=\"row\">"@ + button(0) + button(1) + button(2) + button(3)
                    + "</div></body></html>"@,
            )
        }),
{
    lemma_closes(BOTTOM_HEAD@, SHOW_ANSWER@);
    let front = BOTTOM_HEAD@;
    let t0 = GRADE_ROW@;
    lemma_behind(front, t0, cell("#c62828"@, "Again"@, labels[0]));
    let t1 = t0 + cell("#c62828"@, "Again"@, labels[0]);
    lemma_behind(front, t1, cell("#ef6c00"@, "Hard"@, labels[1]));
    let t2 = t1 + cell("#ef6c00"@, "Hard"@, labels[1]);
    lemma_behind(front, t2, cell("#2e7d32"@, "Good"@, labels[2]));
    let t3 = t2 + cell("#2e7d32"@, "Good"@, labels[2]);
    lemma_behind(front, t3, cell("#1565c0"@, "Easy"@, labels[3]));
    let t4 = t3 + cell("#1565c0"@, "Easy"@, labels[3]);
    lemma_behind(front, t4, GRADE_END@);
    let t5 = t4 + GRADE_END@;
    lemma_closes(front, t5);
}

/// A message shows its title, then its text, both escaped; the lines of a text that fills
/// the screen stay lines.
pub proof fn law_messages_show_title_and_text(title: Seq<char>, body: Seq<char>)
    ensures
        closes(
            empty_notice(title, body),
            escaped(title) + "</div><div class=\"b\">"@ + escaped(body) + "</div></body></html>"@,
        ),
        closes(
            message(title, body),
            escaped(title) + "</div><div class=\"b\">"@ + escaped_lines(body)
                + "</div></body></html>"@,
        ),
{
    lemma_closing(
        EMPTY_1@ + dec(AREA_H as int) + EMPTY_2@,
        escaped(title),
        "</div><div class=\"b\">"@,
        escaped(body),
        "</div></body></html>"@,
    );
    lemma_closing(
        MESSAGE_1@,
        escaped(title),
        "</div><div class=\"b\">"@,
        escaped_lines(body),
        "</div></body></html>"@,
    );
}

proof fn lemma_closing(
    front: Seq<char>,
    a: Seq<char>,
    b: Seq<char>,
    c: Seq<char>,
    d: Seq<char>,
)
    ensures
        closes(front + a + b + c + d, a + b + c + d),
        closes(front + a + b + c, a + b + c),
{
    lemma_behind(front, a, b);
    lemma_behind(front, a + b, c);
    lemma_behind(front, a + b + c, d);
    lemma_closes(front, a + b + c + d);
    lemma_closes(front, a + b + c);
}

/// The seven flags, with their names and colours.
pub proof fn law_flags_have_names_and_colours()
    ensures
        flag_title(1) == "Red"@ && flag_shade(1) == "#d32f2f"@,
        flag_title(2) == "Orange"@ && flag_shade(2) == "#f57c00"@,
        flag_title(3) == "Green"@ && flag_shade(3) == "#388e3c"@,
        flag_title(4) == "Blue"@ && flag_shade(4) == "#1976d2"@,
        flag_title(5) == "Pink"@ && flag_shade(5) == "#e91e63"@,
        flag_title(6) == "Turquoise"@ && flag_shade(6) == "#00bcd4"@,
        flag_title(7) == "Purple"@ && flag_shade(7) == "#7b1fa2"@,
{
}

/// The flags panel lists the flags one to seven in order, each with its colour, number
/// and name, the card's own ticked, and then the row that removes it. The root panel
/// names the card's flag where it has one.
pub proof fn law_panels_list_their_rows(n: int, current: int)
    requires
        1 <= n <= 7,
    ensures
        flag_rows(0, current).len() == 0,
        flag_rows(n, current) == flag_rows(n - 1, current) + (if n == current {
            "<div class=\"it sep"@ + " cur"@ + "\"><span class=\"sw\" style=\"background:"@
                + flag_shade(n) + ";\"></span>"@ + dec(n) + " "@ + flag_title(n) + " \u{2713}"@
                + "</div>"@
        } else {
            "<div class=\"it sep"@ + ""@ + "\"><span class=\"sw\" style=\"background:"@
                + flag_shade(n) + ";\"></span>"@ + dec(n) + " "@ + flag_title(n) + ""@
                + "</div>"@
        }),
        panel_rows(MenuState::Closed, current).len() == 0,
        panel_rows(MenuState::Flags, current) == flag_rows(7, current)
            + "<div class=\"it\">Remove flag</div>"@,
        closes(
            panel_rows(MenuState::Root, current),
            "<div class=\"it sep\">Bury card</div><div class=\"it\">Suspend note</div>"@,
        ),
        1 <= current <= 7 ==> panel_rows(MenuState::Root, current) == ROOT_FLAG@ + (" ("@
            + flag_title(current) + ")"@) + ROOT_FLAG_OPEN@ + ROOT_REST@,
        !(1 <= current <= 7) ==> panel_rows(MenuState::Root, current) == ROOT_FLAG@ + Seq::empty()
            + ROOT_FLAG_OPEN@ + ROOT_REST@,
        menu_panel(MenuState::Root, current) == PANEL_1@ + dec(520) + PANEL_2@ + dec(354)
            + PANEL_3@ + dec(118) + PANEL_4@ + panel_rows(MenuState::Root, current) + PANEL_5@,
        menu_panel(MenuState::Flags, current) == PANEL_1@ + dec(520) + PANEL_2@ + dec(944)
            + PANEL_3@ + dec(118) + PANEL_4@ + panel_rows(MenuState::Flags, current) + PANEL_5@,
        menu_button() == MENU_BUTTON_1@ + dec(104) + MENU_BUTTON_2@ + dec(104) + MENU_BUTTON_3@,
{
    let root = panel_rows(MenuState::Root, current);
    assert(root.skip(root.len() - ROOT_REST@.len()) =~= ROOT_REST@);
}

/// A row of the deck list is indented by 46 pixels for each level, has a chevron where the
/// deck has subdecks, pointing right while it is collapsed and down while it is not, and
/// tells the deck's name and its counts of new cards, cards being learnt and reviews.
pub proof fn law_deck_row_tells_the_deck(d: DeckRow)
    ensures
        deck_row(d) == "<div class=\""@ + (if d.name == "uni"@ && d.level == 0 {
            "row uni"@
        } else {
            "row"@
        }) + "\" style=\"padding-left:"@ + dec(32 + 46 * d.level)
            + "px;\"><div class=\"chev\">"@ + (if !d.has_children {
            ""@
        } else if d.collapsed {
            "&#9656;"@
        } else {
            "&#9662;"@
        }) + "</div><div class=\"nm\">"@ + escaped(d.name) + "</div><div class=\"chips\">"@ + chip(
            "n"@,
            d.new as int,
        ) + chip("l"@, d.learn as int) + chip("r"@, d.review as int) + "</div></div>"@,
        forall|class: Seq<char>| #[trigger] chip(class, 0) == "<span class=\"z\">0</span>"@,
        forall|class: Seq<char>, v: int|
            v > 0 ==> #[trigger] chip(class, v) == "<span class=\""@ + class + "\">"@ + dec(v)
                + "</span>"@,
{
    assert(d.level * 46 == 46 * d.level);
}

/// The home screen shows seventeen rows of the list at most, from the first that it is
/// scrolled to, in order and none left out; a longer list says which of how many.
pub proof fn law_home_shows_a_page(visible: Seq<DeckInfo>, scroll: int, stats: Stats, i: int)
    requires
        0 <= scroll <= visible.len(),
        0 <= i,
    ensures
        ({
            let len = visible.len() as int;
            let end = page_end(scroll, len);
            let shown = deck_row_list(visible, scroll, end);
            &&& end == (if len - scroll > 17 {
                scroll + 17
            } else {
                len
            })
            &&& deck_row_list(visible, scroll, scroll).len() == 0
            &&& scroll + i < end ==> deck_row_list(visible, scroll, scroll + i + 1)
                == deck_row_list(visible, scroll, scroll + i) + deck_row(visible[scroll + i]@)
            &&& closes(
                home(visible, scroll, stats),
                dec(stats.streak as int) + " day streak &#183; "@ + dec(stats.reviewed_today as int)
                    + HOME_11@ + shown + "</body></html>"@,
            )
            &&& len <= 17 ==> page_position(scroll, len).len() == 0
            &&& len > 17 && scroll < len ==> page_position(scroll, len) == "<div class=\"pos\">"@
                + dec(scroll + 1) + "\u{2013}"@ + dec(end) + " / "@ + dec(len) + "</div>"@
        }),
{
    let len = visible.len() as int;
    let shown = deck_row_list(visible, scroll, page_end(scroll, len));
    let front = HOME_1@ + dec(110) + HOME_2@ + dec(110) + HOME_3@ + dec(88) + HOME_4@ + dec(190)
        + HOME_5@ + dec(160) + HOME_6@ + dec(116) + HOME_7@ + dec(84) + HOME_8@ + page_position(
        scroll,
        len,
    ) + HOME_9@;
    let t0 = dec(stats.streak as int);
    lemma_behind(front, t0, HOME_10@);
    let t1 = t0 + HOME_10@;
    lemma_behind(front, t1, dec(stats.reviewed_today as int));
    let t2 = t1 + dec(stats.reviewed_today as int);
    lemma_behind(front, t2, HOME_11@);
    let t3 = t2 + HOME_11@;
    lemma_behind(front, t3, shown);
    let t4 = t3 + shown;
    lemma_behind(front, t4, HOME_12@);
    let t5 = t4 + HOME_12@;
    lemma_closes(front, t5);
}

/// The header of the home screen and its rows are drawn as wide and as high as touches
/// find them.
pub proof fn law_home_is_drawn_as_touched(visible: Seq<DeckInfo>, scroll: int, stats: Stats)
    ensures
        (HOME_1@ + dec(110) + HOME_2@ + dec(110) + HOME_3@ + dec(88)
            + "px;background:#607d8b;}.sync{width:"@ + dec(190)
            + "px;background:#455a64;} .exit{width:"@ + dec(160)
            + "px;background:#333;}.row{height:"@ + dec(116) + HOME_7@ + dec(84) + HOME_8@
            + page_position(scroll, visible.len() as int) + HOME_9@).is_prefix_of(
            home(visible, scroll, stats),
        ),
{
    let len = visible.len() as int;
    let shown = deck_row_list(visible, scroll, page_end(scroll, len));
    let front = HOME_1@ + dec(110) + HOME_2@ + dec(110) + HOME_3@ + dec(88) + HOME_4@ + dec(190)
        + HOME_5@ + dec(160) + HOME_6@ + dec(116) + HOME_7@ + dec(84) + HOME_8@ + page_position(
        scroll,
        len,
    ) + HOME_9@;
    let t0 = dec(stats.streak as int);
    lemma_behind(front, t0, HOME_10@);
    let t1 = t0 + HOME_10@;
    lemma_behind(front, t1, dec(stats.reviewed_today as int));
    let t2 = t1 + dec(stats.reviewed_today as int);
    lemma_behind(front, t2, HOME_11@);
    let t3 = t2 + HOME_11@;
    lemma_behind(front, t3, shown);
    let t4 = t3 + shown;
    lemma_behind(front, t4, HOME_12@);
    let t5 = t4 + HOME_12@;
    lemma_closes(front, t5);
}

} // verus!
