use ankimarkable::backend::{
    card_kind, credentials, day_index, describe_sync_error, download_endpoint, home_stats,
    nodes_to_html, note_query, read_stats, review_card, review_days, reviews_on, sync, sync_status,
    with_media, wrap_card, CardKind, CardNode, CardQueue, Counts, Grade, LogEntry, NextStates,
    Revlog, Stats, SyncFailure, SyncOutcome, SyncReport, SyncRequired, SyncStep,
};

#[test]
fn days_are_counted_from_creation() {
    assert_eq!(day_index(1_700_000_000, 1_600_000_000), 1157);
    assert_eq!(day_index(100, 100), 0);
    assert_eq!(day_index(999_990, 1_000_000), -1);
    assert_eq!(day_index(0, 86_400), -1);
    assert_eq!(day_index(0, 86_401), -2);
    assert_eq!(day_index(i64::MAX, i64::MIN), 213_503_982_334_601);
    assert_eq!(day_index(i64::MIN, i64::MAX), -213_503_982_334_602);
}

fn entry(id: i64, kind: i64) -> LogEntry {
    LogEntry { id, kind }
}

#[test]
fn entries_fall_on_days() {
    let log = vec![
        entry(999_990_000, 1),
        entry(1_000_000_999, 0),
        entry(1_000_000_000, 4),
        entry(1_086_400_000, 2),
    ];
    let days = review_days(&log, 1_000_000);
    assert_eq!(days, vec![-1, 0, 1]);
    assert_eq!(reviews_on(&days, 0), 1);
    assert_eq!(reviews_on(&days, 7), 0);
    let log = Revlog { entries: vec![entry(999_990_000, 1)], created: 1_000_000, now: 1_000_010 };
    assert_eq!(read_stats(Some(&log)), Stats { streak: 1, reviewed_today: 0 });
}

fn log(days: Vec<i64>, today: i64) -> Stats {
    let entries = days.iter().map(|d| entry((d * 86_400 + 50) * 1000, 1)).collect();
    read_stats(Some(&Revlog { entries, created: 0, now: today * 86_400 + 100 }))
}

#[test]
fn streaks() {
    assert_eq!(read_stats(None), Stats { streak: 0, reviewed_today: 0 });
    assert_eq!(log(vec![10, 8, 10, 9, 6], 10), Stats { streak: 3, reviewed_today: 2 });
    assert_eq!(log(vec![9, 8], 10), Stats { streak: 2, reviewed_today: 0 });
    assert_eq!(log(vec![8, 7], 10), Stats { streak: 0, reviewed_today: 0 });
    assert_eq!(log(vec![0, -1, -2], 0), Stats { streak: 3, reviewed_today: 1 });
    assert_eq!(log(vec![], 0).streak, 0);
}

#[test]
fn reviews_of_the_session_count() {
    let fresh = Stats { streak: 5, reviewed_today: 0 };
    assert_eq!(home_stats(fresh, 0), fresh);
    assert_eq!(home_stats(fresh, 3), Stats { streak: 6, reviewed_today: 3 });
    let started = Stats { streak: 5, reviewed_today: 2 };
    assert_eq!(home_stats(started, 3), Stats { streak: 5, reviewed_today: 5 });
    assert_eq!(Stats::default(), Stats { streak: 0, reviewed_today: 0 });
}

#[test]
fn the_first_review_extends_the_streak() {
    let before = log(vec![9, 8, 7], 10);
    let after = log(vec![9, 8, 7, 10], 10);
    assert_eq!(home_stats(before, 1), after);
}

#[test]
fn template_pieces_are_joined() {
    let nodes = vec![
        CardNode::Text("<b>".to_string()),
        CardNode::Replacement("x".to_string()),
        CardNode::Text("</b>".to_string()),
    ];
    assert_eq!(nodes_to_html(&nodes), "<b>x</b>");
    assert_eq!(nodes_to_html(&vec![]), "");
}

#[test]
fn cards_are_wrapped() {
    let css = ".front{color:red}";
    let body = "<p>hi</p>";
    let want = format!(
        "<!DOCTYPE html><html><head><meta charset=\"utf-8\"><style>\
         html,body{{background:#fff;color:#000;margin:0;padding:0;}}\
         body.card{{font-size:40px;line-height:2.0;}}\
         .am-pad{{box-sizing:border-box;padding:64px 88px;max-width:1500px;\
         margin:0 auto;}}\
         .am-pad img{{max-width:100%;height:auto;}}\
         .am-pad hr{{border:none;border-top:2px solid #d0d0d0;margin:40px 0;}}\
         {css}\
         /* am-overrides — win over the notetype CSS */\
         :root{{--font-size-regular:30px!important;--font-size-small:24px!important;\
         --card-max-width:60em!important;--img-width:66%!important;}}\
         body.card{{font-size:36px!important;line-height:2.0!important;}}\
         .am-pad,#qa{{line-height:2.0!important;}}\
         .prettify-flashcard{{max-width:none!important;}}\
         .am-pad{{max-width:1520px!important;}}\
         #note-content,#example-content{{display:block!important;}}\
         #note-button,#example-button{{display:none!important;}}\
         /* Math images are TEXT, not pictures: a notetype's `img{{…}}` rules \
            (anki-prettify: display:block; margin:1em auto; max-width:50%) would \
            otherwise drop every inline \\(x\\) onto its own centred line, and cap \
            display math at half width. Desktop Anki never sees this because \
            MathJax isn't an <img>. */\
         img.am-math{{display:inline!important;margin:0 0.12em!important;\
         max-width:100%!important;border-radius:0!important;opacity:1!important;\
         filter:none!important;}}\
         img.am-math+br{{display:inline!important;}}\
         img.am-math-block{{display:block!important;margin:26px auto!important;\
         max-width:100%!important;border-radius:0!important;opacity:1!important;\
         filter:none!important;}}\
         </style></head>\
         <body class=\"card\"><div class=\"am-pad\"><div id=\"qa\">{body}</div></div></body></html>"
    );
    assert_eq!(wrap_card(css, body), want);
}

#[test]
fn review_cards() {
    let labels = vec!["<1m".to_string(), "6m".to_string(), "1d".to_string()];
    let c = review_card(7, -8, CardQueue::Learning, 3, "c", "q", "a", &labels);
    assert_eq!((c.card_id, c.note_id, c.flags), (7, -8, 3));
    assert_eq!(c.kind, CardKind::Learning);
    assert_eq!(c.question_html, wrap_card("c", "q"));
    assert_eq!(c.answer_html, wrap_card("c", "a"));
    assert_eq!(c.button_labels, ["<1m", "6m", "1d", ""]);
    assert_eq!(card_kind(CardQueue::New), CardKind::New);
    assert_eq!(card_kind(CardQueue::Review), CardKind::Review);
    assert_eq!(card_kind(CardQueue::Other), CardKind::Review);
    assert_eq!(Counts::default(), Counts { new: 0, learning: 0, review: 0 });
}

#[test]
fn grades_choose_states() {
    let s = NextStates { again: 1, hard: 2, good: 3, easy: 4 };
    assert_eq!(*s.answer(Grade::Again), 1);
    assert_eq!(*s.answer(Grade::Hard), 2);
    assert_eq!(*s.answer(Grade::Good), 3);
    assert_eq!(*s.answer(Grade::Easy), 4);
    assert_eq!(note_query(1234), "nid:1234");
    assert_eq!(note_query(-5), "nid:-5");
}

fn outcome(required: SyncRequired, message: &str) -> SyncOutcome {
    SyncOutcome {
        required,
        server_message: message.to_string(),
        progress: Some(("Added: 1".to_string(), "Removed: 2".to_string())),
    }
}

#[test]
fn a_normal_sync() {
    let (r, step) = sync(outcome(SyncRequired::NormalSync, ""));
    assert_eq!(step, SyncStep::Media);
    assert_eq!(r.headline, "synced");
    assert_eq!(r.added.as_deref(), Some("Added: 1"));
    assert_eq!(r.removed.as_deref(), Some("Removed: 2"));
    assert_eq!(r.server_message, None);
    assert_eq!(r.media, None);
    let lines = ("Checked: 3".to_string(), "Added: 1".to_string(), "Removed: 0".to_string());
    let r = with_media(r, Some(lines));
    assert_eq!(r.media.as_deref(), Some("media: Checked: 3 · Added: 1 · Removed: 0"));
    let r = with_media(r, None);
    assert!(r.media.is_some());
    assert_eq!(sync_status(Ok(&r)), "synced");
}

#[test]
fn other_syncs() {
    let mut o = outcome(SyncRequired::NoChanges, "hello");
    o.progress = None;
    let (r, step) = sync(o);
    assert_eq!((r.headline.as_str(), step), ("up to date", SyncStep::Media));
    assert_eq!(r.server_message.as_deref(), Some("hello"));
    assert_eq!(r.added, None);
    let (r, step) = sync(outcome(SyncRequired::FullSync { download_ok: true }, ""));
    assert_eq!((r.headline.as_str(), step), ("downloaded", SyncStep::Download));
    assert_eq!((r.added, r.removed), (None, None));
    let (r, step) = sync(outcome(SyncRequired::FullSync { download_ok: false }, ""));
    assert_eq!(step, SyncStep::Stop);
    assert_eq!(r.headline, "full sync needs upload — resolve on desktop");
    assert_eq!(r.added.as_deref(), Some("Added: 1"));
    assert_eq!(SyncReport::default().headline, "");
}

#[test]
fn failures_are_described() {
    let f = SyncFailure::Network { kind: "Timeout".to_string(), info: "slow".to_string() };
    assert_eq!(describe_sync_error(f), "network Timeout: slow");
    let f = SyncFailure::Server { kind: "AuthFailed".to_string(), info: String::new() };
    assert_eq!(describe_sync_error(f), "sync AuthFailed: ");
    let f = SyncFailure::Other { text: "Interrupted".to_string() };
    assert_eq!(describe_sync_error(f), "Interrupted");
    assert_eq!(sync_status(Err("no net")), "sync failed: no net");
}

#[test]
fn credentials_are_two_lines() {
    assert_eq!(
        credentials(Some(" me@x.org \r\n pw \nrest")),
        Ok(("me@x.org".to_string(), "pw".to_string()))
    );
    assert_eq!(
        credentials(Some("only\n")),
        Err("ankiweb.txt needs user + pass lines".to_string())
    );
    assert_eq!(credentials(None), Err("no AnkiWeb creds (ankiweb.txt)".to_string()));
}

#[test]
fn downloads_follow_the_server() {
    let url = "https://sync7.ankiweb.net/";
    assert_eq!(download_endpoint(Some(url)), Some(url.to_string()));
    assert_eq!(download_endpoint(Some("not a url")), None);
    assert_eq!(download_endpoint(None), None);
}
