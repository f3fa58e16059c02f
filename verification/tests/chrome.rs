use ankimarkable::backend::{CardKind, Counts, Stats};
use ankimarkable::chrome::{
    bottom_bar_html, flag_color, flag_name, home_html, menu_button_html, menu_panel_html,
    message_html, review_empty_html, top_bar_html,
};
use ankimarkable::decks::DeckInfo;
use ankimarkable::ui::{MenuState, Phase};

fn top_bar(und: [&str; 3], n: [usize; 3], status: &str, erase: [&str; 2]) -> String {
    format!(
        "<!DOCTYPE html><html><head><style>\
         body{{font-family:sans-serif;margin:0;padding:0;height:110px;color:#111;background:#fff;\
         display:flex;align-items:center;}}\
         .counts{{flex:1;display:flex;align-items:center;gap:26px;\
         font-size:42px;padding-left:32px;}}\
         .n{{color:#1565c0;font-weight:700;}} .l{{color:#c62828;font-weight:700;}} \
         .r{{color:#2e7d32;font-weight:700;}} \
         .und{{border-bottom:7px solid;}}\
         .status{{font-size:24px;color:#666;padding-right:20px;\
         overflow:hidden;text-overflow:ellipsis;max-width:560px;}}\
         .btn{{font-size:30px;font-weight:700;text-align:center;color:#fff;\
         height:110px;display:flex;align-items:center;justify-content:center;\
         border-left:2px solid #fff;}}\
         .home{{width:160px;background:#37474f;}}\
         .undo{{width:160px;background:#607d8b;}}\
         .erase{{width:180px;background:{};color:{};}}\
         .clear{{width:160px;background:#8d6e63;}}\
         .sync{{width:190px;background:#455a64;}} .exit{{width:160px;background:#333;}}</style></head>\
         <body><div class=\"counts\"><span class=\"{}\">{}</span>\
         <span class=\"{}\">{}</span><span class=\"{}\">{}</span></div>\
         <div class=\"status\">{}</div>\
         <div class=\"btn home\">Home</div>\
         <div class=\"btn undo\">Undo</div>\
         <div class=\"btn erase\">Eraser</div>\
         <div class=\"btn clear\">Clear</div>\
         <div class=\"btn sync\">Sync</div><div class=\"btn exit\">Exit</div></body></html>",
        erase[0], erase[1], und[0], n[0], und[1], n[1], und[2], n[2], status
    )
}

#[test]
fn the_status_bar() {
    let counts = Counts { new: 12, learning: 0, review: 345 };
    assert_eq!(
        top_bar_html(counts, Some(CardKind::Learning), "a & <b>", true),
        top_bar(["n", "l und", "r"], [12, 0, 345], "a &amp; &lt;b&gt;", ["#111", "#fff"])
    );
    assert_eq!(
        top_bar_html(counts, Some(CardKind::New), "", false),
        top_bar(["n und", "l", "r"], [12, 0, 345], "", ["#e8e8e8", "#333"])
    );
    assert_eq!(
        top_bar_html(counts, Some(CardKind::Review), "x", false),
        top_bar(["n", "l", "r und"], [12, 0, 345], "x", ["#e8e8e8", "#333"])
    );
    assert_eq!(
        top_bar_html(counts, None, "x", false),
        top_bar(["n", "l", "r"], [12, 0, 345], "x", ["#e8e8e8", "#333"])
    );
}

const BOTTOM: &str = "<!DOCTYPE html><html><head><style>\
        body{font-family:sans-serif;margin:0;padding:0;height:100%;background:#fff;}\
        .row{display:flex;height:100%;}\
        .cell{flex:1;display:flex;flex-direction:column;align-items:center;justify-content:center;\
        border-left:2px solid #fff;}\
        .name{font-size:40px;font-weight:700;color:#fff;}\
        .iv{font-size:28px;color:#eee;margin-top:8px;}\
        .show{display:flex;align-items:center;justify-content:center;height:150px;\
        font-size:48px;font-weight:700;color:#fff;background:#1565c0;}</style></head><body>";

#[test]
fn the_action_bar() {
    let labels = ["<1m", "6m", "1d", "4d"].map(str::to_string);
    assert_eq!(
        bottom_bar_html(&labels, Phase::Question),
        format!("{BOTTOM}<div class=\"show\">Show Answer</div></body></html>")
    );
    let cell = |color: &str, name: &str, iv: &str| {
        format!(
            "<div class=\"cell\" style=\"background:{color};\">\
             <div class=\"name\">{name}</div><div class=\"iv\">{iv}</div></div>"
        )
    };
    assert_eq!(
        bottom_bar_html(&labels, Phase::Answer),
        format!(
            "{BOTTOM}<div class=\"row\">{}{}{}{}</div></body></html>",
            cell("#c62828", "Again", "&lt;1m"),
            cell("#ef6c00", "Hard", "6m"),
            cell("#2e7d32", "Good", "1d"),
            cell("#1565c0", "Easy", "4d")
        )
    );
}

#[test]
fn messages() {
    assert_eq!(
        message_html("T<", "a\nb&"),
        "<!DOCTYPE html><html><head><style>\
         body{font-family:sans-serif;margin:0;padding:0 120px;box-sizing:border-box;\
         color:#111;background:#fff;text-align:center;\
         display:flex;flex-direction:column;align-items:center;justify-content:center;height:100%;}\
         .t{font-size:64px;font-weight:700;margin-bottom:28px;}\
         .b{font-size:36px;color:#444;line-height:1.5;max-width:1100px;}</style></head>\
         <body><div class=\"t\">T&lt;</div><div class=\"b\">a<br>b&amp;</div></body></html>"
    );
    assert_eq!(
        review_empty_html("All done", "x\ny"),
        "<!DOCTYPE html><html><head><style>\
         body{margin:0;padding:0 120px;box-sizing:border-box;font-family:sans-serif;\
         color:#111;background:#fff;height:2050px;display:flex;flex-direction:column;\
         align-items:center;justify-content:center;text-align:center;}\
         .t{font-size:60px;font-weight:700;margin-bottom:24px;}\
         .b{font-size:34px;color:#444;line-height:1.5;max-width:1100px;}</style></head>\
         <body><div class=\"t\">All done</div><div class=\"b\">x\ny</div></body></html>"
    );
}

#[test]
fn the_menu_button() {
    assert_eq!(
        menu_button_html(),
        "<!DOCTYPE html><html><head><style>body{margin:0;padding:0;}\
         .m{width:104px;height:104px;background:#37474f;color:#fff;box-sizing:border-box;\
         display:flex;align-items:center;justify-content:center;\
         font-size:82px;font-weight:700;border-radius:18px;}</style></head>\
         <body><div class=\"m\">\u{22EE}</div></body></html>"
    );
}

fn panel(h: usize, rows: &str) -> String {
    format!(
        "<!DOCTYPE html><html><head><style>body{{margin:0;padding:0;}}\
         .p{{width:520px;height:{h}px;background:#fff;border:3px solid #333;box-sizing:border-box;}}\
         .it{{height:118px;display:flex;align-items:center;padding-left:36px;\
         font-size:46px;color:#111;box-sizing:border-box;}}\
         .sep{{border-bottom:2px solid #cccccc;}}\
         .cur{{font-weight:700;}}\
         .sw{{display:inline-block;width:34px;height:34px;flex:none;\
         border:2px solid #888;margin-right:26px;}}</style></head>\
         <body><div class=\"p\">{rows}</div></body></html>"
    )
}

#[test]
fn the_root_panel() {
    let rows = |flag: &str| {
        format!(
            "<div class=\"it sep\">{flag}</div><div class=\"it sep\">Bury card</div>\
             <div class=\"it\">Suspend note</div>"
        )
    };
    assert_eq!(
        menu_panel_html(MenuState::Root, 0),
        panel(354, &rows("Flag\u{2026} \u{25B8}"))
    );
    assert_eq!(
        menu_panel_html(MenuState::Root, 6),
        panel(354, &rows("Flag\u{2026} (Turquoise) \u{25B8}"))
    );
    assert_eq!(
        menu_panel_html(MenuState::Root, 8),
        panel(354, &rows("Flag\u{2026} \u{25B8}"))
    );
}

#[test]
fn the_flags_panel() {
    let flags = [
        (1, "Red", "#d32f2f"),
        (2, "Orange", "#f57c00"),
        (3, "Green", "#388e3c"),
        (4, "Blue", "#1976d2"),
        (5, "Pink", "#e91e63"),
        (6, "Turquoise", "#00bcd4"),
        (7, "Purple", "#7b1fa2"),
    ];
    let mut rows = String::new();
    for (n, name, hex) in flags {
        assert_eq!(flag_name(n), name);
        assert_eq!(flag_color(n), hex);
        let (cur, tick) = if n == 2 { (" cur", " \u{2713}") } else { ("", "") };
        rows.push_str(&format!(
            "<div class=\"it sep{cur}\"><span class=\"sw\" \
             style=\"background:{hex};\"></span>{n} {name}{tick}</div>"
        ));
    }
    rows.push_str("<div class=\"it\">Remove flag</div>");
    assert_eq!(menu_panel_html(MenuState::Flags, 2), panel(944, &rows));
}

fn deck(name: &str, level: u32, has_children: bool, collapsed: bool) -> DeckInfo {
    DeckInfo {
        id: 1,
        name: name.to_string(),
        level,
        has_children,
        collapsed,
        new: 5,
        learn: 0,
        review: 4_000_000_000,
    }
}

fn home(more: &str, streak: u32, today: u32, rows: &str) -> String {
    format!(
        "<!DOCTYPE html><html><head><meta charset=\"utf-8\"><style>\
         html,body{{margin:0;padding:0;background:#fff;color:#111;font-family:sans-serif;}}\
         .top{{height:110px;display:flex;align-items:center;box-sizing:border-box;\
         border-bottom:3px solid #000;}}\
         .title{{font-size:44px;font-weight:800;padding-left:36px;}}\
         .pos{{font-size:26px;color:#888;padding-left:20px;}} .sp{{flex:1;}}\
         .streak{{font-size:30px;color:#555;padding-right:22px;white-space:nowrap;}}\
         .btn{{font-size:34px;font-weight:700;color:#fff;height:110px;display:flex;\
         align-items:center;justify-content:center;border-left:2px solid #fff;box-sizing:border-box;}}\
         .up,.dn{{width:88px;background:#607d8b;}}\
         .sync{{width:190px;background:#455a64;}} .exit{{width:160px;background:#333;}}\
         .row{{height:116px;display:flex;align-items:center;box-sizing:border-box;\
         border-bottom:1px solid #dddddd;padding-right:40px;}}\
         .row.uni{{background:#eef4ff;}}\
         .chev{{width:84px;font-size:34px;color:#888;flex:none;}}\
         .nm{{flex:1;font-size:40px;font-weight:600;overflow:hidden;white-space:nowrap;\
         text-overflow:ellipsis;}}\
         .row.uni .nm{{color:#1565c0;font-weight:800;}}\
         .chips{{font-size:32px;font-weight:700;white-space:nowrap;}}\
         .chips span{{margin-left:32px;display:inline-block;min-width:1.1em;text-align:right;}}\
         .n{{color:#1565c0;}} .l{{color:#c62828;}} .r{{color:#2e7d32;}} .z{{color:#c8c8c8;}}</style></head>\
         <body><div class=\"top\"><div class=\"title\">Decks</div>{more}<div class=\"sp\"></div>\
         <div class=\"streak\">&#128293; {streak} day streak &#183; {today} today</div>\
         <div class=\"btn up\">&#9650;</div><div class=\"btn dn\">&#9660;</div>\
         <div class=\"btn sync\">Sync</div><div class=\"btn exit\">Exit</div></div>\
         {rows}</body></html>"
    )
}

fn row(cls: &str, pad: usize, chev: &str, name: &str) -> String {
    format!(
        "<div class=\"{cls}\" style=\"padding-left:{pad}px;\">\
         <div class=\"chev\">{chev}</div><div class=\"nm\">{name}</div>\
         <div class=\"chips\"><span class=\"n\">5</span><span class=\"z\">0</span>\
         <span class=\"r\">4000000000</span></div></div>"
    )
}

#[test]
fn the_home_screen() {
    let decks = vec![
        deck("uni", 0, true, false),
        deck("uni", 1, true, true),
        deck("A&B", 2, false, false),
    ];
    let rows = row("row uni", 32, "&#9662;", "uni")
        + &row("row", 78, "&#9656;", "uni")
        + &row("row", 124, "", "A&amp;B");
    let stats = Stats { streak: 3, reviewed_today: 41 };
    assert_eq!(home_html(&decks, 0, stats), home("", 3, 41, &rows));
    assert_eq!(home_html(&decks, 9, stats), home("", 3, 41, ""));
}

#[test]
fn the_home_screen_shows_one_page() {
    let decks: Vec<DeckInfo> = (0..30).map(|_| deck("d", 0, false, false)).collect();
    let stats = Stats { streak: 0, reviewed_today: 0 };
    let one = row("row", 32, "", "d");
    let pos = |a: usize, b: usize| format!("<div class=\"pos\">{a}\u{2013}{b} / 30</div>");
    assert_eq!(home_html(&decks, 0, stats), home(&pos(1, 17), 0, 0, &one.repeat(17)));
    assert_eq!(home_html(&decks, 13, stats), home(&pos(14, 30), 0, 0, &one.repeat(17)));
    assert_eq!(home_html(&decks, 20, stats), home(&pos(21, 30), 0, 0, &one.repeat(10)));
    assert_eq!(home_html(&decks, usize::MAX, stats), home(&pos(30, 30), 0, 0, ""));
}
