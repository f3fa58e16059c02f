//! Cards, counts and grades, and what the review loop asks of the collection.

use std::collections::HashSet;

use vstd::prelude::*;

use crate::text::{
    copy_of, dec_signed, lines, push_signed, split_lines, texts, trim, trimmed,
};

verus! {

/// The four grades, in the order of their buttons.
#[derive(Clone, Copy, Debug, PartialEq, Eq, Structural)]
pub enum Grade {
    Again,
    Hard,
    Good,
    Easy,
}

/// Cards due in the current queue.
#[derive(Clone, Copy, Debug, PartialEq, Eq, Structural)]
pub struct Counts {
    pub new: usize,
    pub learning: usize,
    pub review: usize,
}

impl Default for Counts {
    fn default() -> (c: Self)
        ensures
            c == (Counts { new: 0, learning: 0, review: 0 }),
    {
        Counts { new: 0, learning: 0, review: 0 }
    }
}

/// Review statistics of the home screen.
#[derive(Clone, Copy, Debug, PartialEq, Eq, Structural)]
pub struct Stats {
    /// Consecutive days with reviews, up to today or yesterday.
    pub streak: u32,
    pub reviewed_today: u32,
}

impl Default for Stats {
    fn default() -> (s: Self)
        ensures
            s == (Stats { streak: 0, reviewed_today: 0 }),
    {
        Stats { streak: 0, reviewed_today: 0 }
    }
}

/// The queue that a card came from.
#[derive(Clone, Copy, Debug, PartialEq, Eq, Structural)]
pub enum CardKind {
    New,
    Learning,
    Review,
}

// ------------------------------------------------------------------- cards

/// A piece of a rendered card template.
pub enum CardNode {
    Text(String),
    /// A field, with its present text.
    Replacement(String),
}

/// The HTML of a piece.
pub open spec fn node_html(n: CardNode) -> Seq<char> {
    match n {
        CardNode::Text(s) => s@,
        CardNode::Replacement(s) => s@,
    }
}

/// The HTML of the first `n` pieces.
pub open spec fn nodes_html(nodes: Seq<CardNode>, n: int) -> Seq<char>
    decreases n,
{
    if n <= 0 {
        Seq::empty()
    } else {
        nodes_html(nodes, n - 1) + node_html(nodes[n - 1])
    }
}

/// Joins the pieces of a rendered template.
pub fn nodes_to_html(nodes: &Vec<CardNode>) -> (s: String)
    ensures
        s@ == nodes_html(nodes@, nodes@.len() as int),
{
    let mut s: String = String::new();
    let mut n: usize = 0;
    assert(s@ =~= nodes_html(nodes@, 0));
    while n < nodes.len()
        invariant
            n <= nodes@.len(),
            s@ == nodes_html(nodes@, n as int),
        decreases nodes@.len() - n,
    {
        match &nodes[n] {
            CardNode::Text(t) => s.append(t.as_str()),
            CardNode::Replacement(t) => s.append(t.as_str()),
        }
        n += 1;
    }
    s
}

// The card's page: our own style, the note type's, then overrides that win over it.
pub const CARD_1: &'static str = "<!DOCTYPE html><html><head><meta charset=\"utf-8\"><style>\
    html,body{background:#fff;color:#000;margin:0;padding:0;}\
    body.card{font-size:40px;line-height:2.0;}.am-pad{box-sizing:border-box;\
    padding:64px 88px;max-width:1500px;margin:0 auto;}.am-pad img{max-width:100%;\
    height:auto;}.am-pad hr{border:none;border-top:2px solid #d0d0d0;margin:40px 0;}";

pub const CARD_2: &'static str = "/* am-overrides — win over the notetype CSS \
    */:root{--font-size-regular:30px!important;--font-size-small:24px!important;\
    --card-max-width:60em!important;--img-width:66%!important;}\
    body.card{font-size:36px!important;line-height:2.0!important;}\
    .am-pad,#qa{line-height:2.0!important;}\
    .prettify-flashcard{max-width:none!important;}\
    .am-pad{max-width:1520px!important;}\
    #note-content,#example-content{display:block!important;}\
    #note-button,#example-button{display:none!important;}/* Math images are TEXT, \
    not pictures: a notetype's `img{…}` rules (anki-prettify: display:block; \
    margin:1em auto; max-width:50%) would otherwise drop every inline \\(x\\) onto \
    its own centred line, and cap display math at half width. Desktop Anki never \
    sees this because MathJax isn't an <img>. \
    */img.am-math{display:inline!important;margin:0 0.12em!important;\
    max-width:100%!important;border-radius:0!important;opacity:1!important;\
    filter:none!important;}img.am-math+br{display:inline!important;}\
    img.am-math-block{display:block!important;margin:26px auto!important;\
    max-width:100%!important;border-radius:0!important;opacity:1!important;\
    filter:none!important;}</style></head><body class=\"card\"><div \
    class=\"am-pad\"><div id=\"qa\">";

pub const CARD_3: &'static str = "</div></div></body></html>";

/// The page of one side of a card.
pub open spec fn card_page(css: Seq<char>, body: Seq<char>) -> Seq<char> {
    CARD_1@
        + css
        + CARD_2@
        + body
        + CARD_3@
}

/// Wraps one side of a card in a page. The style of the note type stands behind our
/// own, so that it can restyle its content, and before the overrides.
pub fn wrap_card(css: &str, body: &str) -> (html: String)
    ensures
        html@ == card_page(css@, body@),
{
    let mut out: String = copy_of(CARD_1);
    out.append(css);
    out.append(CARD_2);
    out.append(body);
    out.append(CARD_3);
    out
}

/// The queue that the scheduler took a card from.
#[derive(Clone, Copy, Debug, PartialEq, Eq, Structural)]
pub enum CardQueue {
    New,
    Learning,
    Review,
    Other,
}

/// A card ready to be reviewed.
pub struct ReviewCard {
    pub card_id: i64,
    pub note_id: i64,
    pub kind: CardKind,
    /// The card's flag, 0 for none.
    pub flags: u8,
    pub question_html: String,
    pub answer_html: String,
    /// The intervals that the four grades would give.
    pub button_labels: [String; 4],
}

/// The queue that is shown for a card; an unknown one counts as review.
pub open spec fn kind_of(q: CardQueue) -> CardKind {
    match q {
        CardQueue::New => CardKind::New,
        CardQueue::Learning => CardKind::Learning,
        CardQueue::Review => CardKind::Review,
        CardQueue::Other => CardKind::Review,
    }
}

/// Gives the queue that is shown for a card.
pub fn card_kind(q: CardQueue) -> (k: CardKind)
    ensures
        k == kind_of(q),
{
    match q {
        CardQueue::New => CardKind::New,
        CardQueue::Learning => CardKind::Learning,
        CardQueue::Review => CardKind::Review,
        CardQueue::Other => CardKind::Review,
    }
}

/// The label of button `i`; an empty one where the scheduler gave fewer.
pub open spec fn label(labels: Seq<String>, i: int) -> Seq<char> {
    if i < labels.len() {
        labels[i]@
    } else {
        Seq::empty()
    }
}

fn label_at(labels: &Vec<String>, i: usize) -> (s: String)
    ensures
        s@ == label(labels@, i as int),
{
    if i < labels.len() {
        copy_of(labels[i].as_str())
    } else {
        let s: String = String::new();
        assert(s@ =~= Seq::empty());
        s
    }
}

/// Puts a card together from what the collection gives: the sides' HTML, the note
/// type's style and the intervals.
pub fn review_card(
    card_id: i64,
    note_id: i64,
    queue: CardQueue,
    flags: u8,
    css: &str,
    question: &str,
    answer: &str,
    labels: &Vec<String>,
) -> (c: ReviewCard)
    ensures
        c.card_id == card_id,
        c.note_id == note_id,
        c.kind == kind_of(queue),
        c.flags == flags,
        c.question_html@ == card_page(css@, question@),
        c.answer_html@ == card_page(css@, answer@),
        forall|i: int|
            0 <= i < 4 ==> (#[trigger] c.button_labels@[i])@ == label(labels@, i),
{
    ReviewCard {
        card_id,
        note_id,
        kind: card_kind(queue),
        flags,
        question_html: wrap_card(css, question),
        answer_html: wrap_card(css, answer),
        button_labels: [
            label_at(labels, 0),
            label_at(labels, 1),
            label_at(labels, 2),
            label_at(labels, 3),
        ],
    }
}

/// The states that a card would get, by grade.
pub struct NextStates<S> {
    pub again: S,
    pub hard: S,
    pub good: S,
    pub easy: S,
}

impl<S> NextStates<S> {
    /// The state that a grade leads to.
    pub open spec fn chosen(self, g: Grade) -> S {
        match g {
            Grade::Again => self.again,
            Grade::Hard => self.hard,
            Grade::Good => self.good,
            Grade::Easy => self.easy,
        }
    }

    /// Gives the state that a grade leads to.
    pub fn answer(&self, g: Grade) -> (s: &S)
        ensures
            *s == self.chosen(g),
    {
        match g {
            Grade::Again => &self.again,
            Grade::Hard => &self.hard,
            Grade::Good => &self.good,
            Grade::Easy => &self.easy,
        }
    }
}

/// The search for the cards of a note.
pub fn note_query(note_id: i64) -> (q: String)
    ensures
        q@ == "nid:"@ + dec_signed(note_id as int),
{
    let mut q: String = copy_of("nid:");
    push_signed(&mut q, note_id);
    q
}

// ------------------------------------------------------------------- stats

/// Seconds of a day.
pub const DAY: i128 = 86_400;

/// The day of a time, counted from the creation of the collection: whole days,
/// rounded down.
pub open spec fn day_of(secs: int, created: int) -> int {
    (secs - created) / (DAY as int)
}

/// Gives the day of a time; both times are in seconds.
pub fn day_index(now: i64, created: i64) -> (d: i64)
    ensures
        d == (now - created) / 86_400,
        d == day_of(now as int, created as int),
{
    floor_div(now as i128 - created as i128, DAY) as i64
}

/// Whole division, rounded down.
fn floor_div(a: i128, b: i128) -> (q: i128)
    requires
        -0x1_0000_0000_0000_0000 <= a <= 0x1_0000_0000_0000_0000,
        0 < b < 0x1_0000_0000,
    ensures
        q == a as int / (b as int),
{
    if a >= 0 {
        a / b
    } else {
        let m: i128 = -a - 1;
        assert(a as int / (b as int) == -(m as int / (b as int)) - 1) by (nonlinear_arith)
            requires
                a == -m - 1,
                m >= 0,
                b > 0,
        ;
        assert(0 <= m as int / (b as int) <= m) by (nonlinear_arith)
            requires
                m >= 0,
                b > 0,
        ;
        -(m / b) - 1
    }
}

/// An entry of the review log: its time in milliseconds, and its kind.
#[derive(Clone, Copy, Debug, PartialEq, Eq, Structural)]
pub struct LogEntry {
    pub id: i64,
    pub kind: i64,
}

/// The kind of entries that are no reviews: manual changes of the schedule.
pub const MANUAL: i64 = 4;

/// The day of an entry.
pub open spec fn entry_day(e: LogEntry, created: int) -> int {
    day_of(e.id as int / 1000, created)
}

/// The days of the reviews among the first `n` entries.
pub open spec fn days_of(log: Seq<LogEntry>, created: int, n: int) -> Seq<i64>
    decreases n,
{
    if n <= 0 {
        Seq::empty()
    } else if log[n - 1].kind == MANUAL {
        days_of(log, created, n - 1)
    } else {
        days_of(log, created, n - 1).push(entry_day(log[n - 1], created) as i64)
    }
}

/// How many of the days are day `d`.
pub open spec fn times(days: Seq<i64>, d: int) -> int
    decreases days.len(),
{
    if days.len() == 0 {
        0
    } else {
        times(days.drop_last(), d) + (if days.last() == d {
            1int
        } else {
            0
        })
    }
}

/// Gives the day of each review in the log, in the order of the entries.
pub fn review_days(log: &Vec<LogEntry>, created: i64) -> (days: Vec<i64>)
    ensures
        days@ == days_of(log@, created as int, log@.len() as int),
{
    let mut days: Vec<i64> = Vec::new();
    let mut i: usize = 0;
    while i < log.len()
        invariant
            i <= log@.len(),
            days@ == days_of(log@, created as int, i as int),
        decreases log@.len() - i,
    {
        let e: LogEntry = log[i];
        if e.kind != MANUAL {
            days.push(day_index(floor_div(e.id as i128, 1000) as i64, created));
        }
        i += 1;
    }
    days
}

/// Gives how many of the days are the given one.
pub fn reviews_on(days: &Vec<i64>, day: i64) -> (n: usize)
    ensures
        n == times(days@, day as int),
{
    let mut n: usize = 0;
    let mut i: usize = 0;
    while i < days.len()
        invariant
            i <= days@.len(),
            n <= i,
            n == times(days@.take(i as int), day as int),
        decreases days@.len() - i,
    {
        assert(days@.take(i + 1).drop_last() =~= days@.take(i as int));
        if days[i] == day {
            n += 1;
        }
        i += 1;
    }
    assert(days@.take(i as int) =~= days@);
    n
}

/// The day is among those with reviews.
pub open spec fn reviewed(days: Seq<i64>, d: int) -> bool {
    i64::MIN <= d <= i64::MAX && days.contains(d as i64)
}

/// The day that a streak counts back from: today, or yesterday while nothing was
/// reviewed today.
pub open spec fn streak_end(days: Seq<i64>, today: int) -> int {
    if reviewed(days, today) {
        today
    } else {
        today - 1
    }
}

/// `n` is the streak: reviews on each of the last `n` days, and none on the day
/// before. A streak of more days than can be counted is cut.
pub open spec fn is_streak(days: Seq<i64>, today: int, n: u32) -> bool {
    let end = streak_end(days, today);
    &&& forall|k: int| #![trigger reviewed(days, end - k)] 0 <= k < n ==> reviewed(days, end - k)
    &&& n < u32::MAX ==> !reviewed(days, end - n)
}

fn streak(days: &Vec<i64>, today: i64) -> (n: u32)
    ensures
        is_streak(days@, today as int, n),
{
    broadcast use vstd::std_specs::hash::group_hash_axioms;

    let mut set: HashSet<i64> = HashSet::new();
    let mut i: usize = 0;
    while i < days.len()
        invariant
            i <= days@.len(),
            forall|d: i64| #[trigger] set@.contains(d) == days@.take(i as int).contains(d),
        decreases days@.len() - i,
    {
        let d: i64 = days[i];
        let ghost before = days@.take(i as int);
        set.insert(d);
        proof {
            let after = days@.take(i + 1);
            assert(after =~= before.push(d));
            assert forall|e: i64| #[trigger] set@.contains(e) == after.contains(e) by {
                if before.contains(e) {
                    let k = choose|k: int| 0 <= k < before.len() && before[k] == e;
                    assert(after[k] == e);
                }
                if e == d {
                    assert(after[i as int] == e);
                }
                if after.contains(e) && e != d {
                    let k = choose|k: int| 0 <= k < after.len() && after[k] == e;
                    assert(before[k] == e);
                }
            }
        }
        i += 1;
    }
    assert(days@.take(i as int) =~= days@);
    let end: i128 = if set.contains(&today) {
        today as i128
    } else {
        today as i128 - 1
    };
    let mut n: u32 = 0;
    while n < u32::MAX && is_day(&set, end - n as i128)
        invariant
            i64::MIN - 1 <= end <= i64::MAX,
            end == streak_end(days@, today as int),
            forall|d: i64| #[trigger] set@.contains(d) == days@.contains(d),
            forall|k: int|
                #![trigger reviewed(days@, end - k)]
                0 <= k < n ==> reviewed(days@, end - k),
        decreases u32::MAX - n,
    {
        n += 1;
    }
    n
}

fn is_day(set: &HashSet<i64>, d: i128) -> (b: bool)
    ensures
        b == (i64::MIN <= d <= i64::MAX && set@.contains(d as i64)),
{
    broadcast use vstd::std_specs::hash::group_hash_axioms;

    i64::MIN as i128 <= d && d <= i64::MAX as i128 && set.contains(&(d as i64))
}

/// The review log, the time at which the collection was created, and the time now,
/// in seconds.
pub struct Revlog {
    pub entries: Vec<LogEntry>,
    pub created: i64,
    pub now: i64,
}

impl Revlog {
    /// The days of the reviews.
    pub open spec fn days(self) -> Seq<i64> {
        days_of(self.entries@, self.created as int, self.entries@.len() as int)
    }

    /// Today.
    pub open spec fn today(self) -> int {
        day_of(self.now as int, self.created as int)
    }
}

/// Gives the statistics from the review log; zeroes where it could not be read. The
/// reviews of today are counted in 32 bits.
pub fn read_stats(log: Option<&Revlog>) -> (s: Stats)
    ensures
        match log {
            None => s == (Stats { streak: 0, reviewed_today: 0 }),
            Some(log) => {
                &&& is_streak(log.days(), log.today(), s.streak)
                &&& s.reviewed_today == times(log.days(), log.today()) % 0x1_0000_0000
            },
        },
{
    match log {
        None => Stats { streak: 0, reviewed_today: 0 },
        Some(log) => {
            let days: Vec<i64> = review_days(&log.entries, log.created);
            let today: i64 = day_index(log.now, log.created);
            Stats {
                streak: streak(&days, today),
                reviewed_today: (reviews_on(&days, today) as u64 % 0x1_0000_0000) as u32,
            }
        },
    }
}

/// The lesser of a sum and the greatest number that can be held.
pub open spec fn capped(n: int) -> int {
    if n <= u32::MAX {
        n
    } else {
        u32::MAX as int
    }
}

/// The statistics at start with the reviews of this session: the first review of
/// the day extends the streak.
pub open spec fn stats_now(base: Stats, session_reviews: u32) -> Stats {
    Stats {
        reviewed_today: capped(base.reviewed_today + session_reviews) as u32,
        streak: if base.reviewed_today == 0 && session_reviews > 0 {
            capped(base.streak + 1) as u32
        } else {
            base.streak
        },
    }
}

/// Gives the statistics with the reviews of this session.
pub fn home_stats(base: Stats, session_reviews: u32) -> (s: Stats)
    ensures
        s == stats_now(base, session_reviews),
{
    Stats {
        reviewed_today: if base.reviewed_today <= u32::MAX - session_reviews {
            base.reviewed_today + session_reviews
        } else {
            u32::MAX
        },
        streak: if base.reviewed_today == 0 && session_reviews > 0 && base.streak < u32::MAX {
            base.streak + 1
        } else {
            base.streak
        },
    }
}

// -------------------------------------------------------------------- sync

/// What a sync did. The headline is short enough for the status bar; the other
/// lines are there where a stage ran and reported something.
pub struct SyncReport {
    pub headline: String,
    pub added: Option<String>,
    pub removed: Option<String>,
    pub media: Option<String>,
    pub server_message: Option<String>,
}

/// What a sync report says.
#[verifier::ext_equal]
pub struct ReportText {
    pub headline: Seq<char>,
    pub added: Option<Seq<char>>,
    pub removed: Option<Seq<char>>,
    pub media: Option<Seq<char>>,
    pub server_message: Option<Seq<char>>,
}

/// The text of an optional string.
pub open spec fn text_of(s: Option<String>) -> Option<Seq<char>> {
    match s {
        Some(s) => Some(s@),
        None => None,
    }
}

impl View for SyncReport {
    type V = ReportText;

    open spec fn view(&self) -> ReportText {
        ReportText {
            headline: self.headline@,
            added: text_of(self.added),
            removed: text_of(self.removed),
            media: text_of(self.media),
            server_message: text_of(self.server_message),
        }
    }
}

/// A report that says nothing.
pub open spec fn no_report() -> ReportText {
    ReportText {
        headline: Seq::empty(),
        added: None,
        removed: None,
        media: None,
        server_message: None,
    }
}

impl Default for SyncReport {
    fn default() -> (r: Self)
        ensures
            r@ == no_report(),
    {
        let r: SyncReport = SyncReport {
            headline: String::new(),
            added: None,
            removed: None,
            media: None,
            server_message: None,
        };
        assert(r@ =~= no_report());
        r
    }
}

/// What the server asked for when the collection was compared.
#[derive(Clone, Copy, Debug, PartialEq, Eq, Structural)]
pub enum SyncRequired {
    NoChanges,
    NormalSync,
    /// The collections have to be replaced as a whole.
    FullSync { download_ok: bool },
}

/// How the sync of the collection ended.
pub struct SyncOutcome {
    pub required: SyncRequired,
    pub server_message: String,
    /// The lines on added and removed items, where the stage reported them.
    pub progress: Option<(String, String)>,
}

/// What the sync does next.
#[derive(Clone, Copy, Debug, PartialEq, Eq, Structural)]
pub enum SyncStep {
    /// Sync the media.
    Media,
    /// Replace the collection by the server's, then sync the media.
    Download,
    /// Nothing: only an upload would help, and that is never done here.
    Stop,
}

pub const UP_TO_DATE: &'static str = "up to date";

pub const SYNCED: &'static str = "synced";

pub const DOWNLOADED: &'static str = "downloaded";

pub const NEEDS_UPLOAD: &'static str = "full sync needs upload \u{2014} resolve on desktop";

/// What has to be done next.
pub open spec fn step_for(required: SyncRequired) -> SyncStep {
    match required {
        SyncRequired::NoChanges => SyncStep::Media,
        SyncRequired::NormalSync => SyncStep::Media,
        SyncRequired::FullSync { download_ok } => if download_ok {
            SyncStep::Download
        } else {
            SyncStep::Stop
        },
    }
}

/// The headline, should the rest of the sync succeed.
pub open spec fn headline_for(required: SyncRequired) -> Seq<char> {
    match required {
        SyncRequired::NoChanges => UP_TO_DATE@,
        SyncRequired::NormalSync => SYNCED@,
        SyncRequired::FullSync { download_ok } => if download_ok {
            DOWNLOADED@
        } else {
            NEEDS_UPLOAD@
        },
    }
}

/// The report so far. The counts of a sync that ends in a download are moot.
pub open spec fn report_for(o: SyncOutcome) -> ReportText {
    let counted = step_for(o.required) != SyncStep::Download;
    ReportText {
        headline: headline_for(o.required),
        added: match o.progress {
            Some((added, _)) if counted => Some(added@),
            _ => None,
        },
        removed: match o.progress {
            Some((_, removed)) if counted => Some(removed@),
            _ => None,
        },
        media: None,
        server_message: if o.server_message@.len() > 0 {
            Some(o.server_message@)
        } else {
            None
        },
    }
}

/// Judges how the sync of the collection ended: the report so far, and what has to
/// be done before it holds.
pub fn sync(o: SyncOutcome) -> (r: (SyncReport, SyncStep))
    ensures
        r.0@ == report_for(o),
        r.1 == step_for(o.required),
{
    let (headline, step): (&str, SyncStep) = match o.required {
        SyncRequired::NoChanges => (UP_TO_DATE, SyncStep::Media),
        SyncRequired::NormalSync => (SYNCED, SyncStep::Media),
        SyncRequired::FullSync { download_ok } => if download_ok {
            (DOWNLOADED, SyncStep::Download)
        } else {
            (NEEDS_UPLOAD, SyncStep::Stop)
        },
    };
    let server_message: Option<String> = if is_blank(o.server_message.as_str()) {
        None
    } else {
        Some(o.server_message)
    };
    let (added, removed): (Option<String>, Option<String>) = match o.progress {
        Some((added, removed)) => if step == SyncStep::Download {
            (None, None)
        } else {
            (Some(added), Some(removed))
        },
        None => (None, None),
    };
    (SyncReport { headline: copy_of(headline), added, removed, media: None, server_message }, step)
}

fn is_blank(s: &str) -> (b: bool)
    ensures
        b == (s@.len() == 0),
{
    s.unicode_len() == 0
}

/// Whether `reqwest::Url::parse` takes a text for a URL.
pub uninterp spec fn is_url(s: Seq<char>) -> bool;

/// Calls `reqwest::Url::parse`, which takes a text for a URL or refuses it. That
/// depends on the text alone; which texts are taken is not said.
#[verifier::external_body]
fn parses_as_url(s: &str) -> (b: bool)
    ensures
        b == is_url(s@),
{
    reqwest::Url::parse(s).is_ok()
}

/// The server to download from, where the sync was told of another one. A text that
/// is no URL is passed over.
pub fn download_endpoint(told: Option<&str>) -> (r: Option<String>)
    ensures
        match told {
            Some(s) => if is_url(s@) {
                r matches Some(url) && url@ == s@
            } else {
                r is None
            },
            None => r is None,
        },
{
    match told {
        Some(s) => if parses_as_url(s) {
            Some(copy_of(s))
        } else {
            None
        },
        None => None,
    }
}

/// The line on the media: checked, added, removed.
pub open spec fn media_line(checked: Seq<char>, added: Seq<char>, removed: Seq<char>) -> Seq<
    char,
> {
    "media: "@ + checked + " \u{b7} "@ + added + " \u{b7} "@ + removed
}

/// Adds what the media stage reported, if it did.
pub fn with_media(report: SyncReport, media: Option<(String, String, String)>) -> (r: SyncReport)
    ensures
        r@ == (match media {
            Some((checked, added, removed)) => ReportText {
                media: Some(media_line(checked@, added@, removed@)),
                ..report@
            },
            None => report@,
        }),
        r@.headline == report@.headline,
{
    match media {
        Some((checked, added, removed)) => {
            let mut line: String = copy_of("media: ");
            line.append(checked.as_str());
            line.append(" \u{b7} ");
            line.append(added.as_str());
            line.append(" \u{b7} ");
            line.append(removed.as_str());
            SyncReport { media: Some(line), ..report }
        },
        None => report,
    }
}

/// Why a sync failed.
pub enum SyncFailure {
    Network { kind: String, info: String },
    Server { kind: String, info: String },
    Other { text: String },
}

/// What is said of a failure: its kind and what is known of it.
pub open spec fn failure_text(f: SyncFailure) -> Seq<char> {
    match f {
        SyncFailure::Network { kind, info } => "network "@ + kind@ + ": "@ + info@,
        SyncFailure::Server { kind, info } => "sync "@ + kind@ + ": "@ + info@,
        SyncFailure::Other { text } => text@,
    }
}

/// Describes why a sync failed.
pub fn describe_sync_error(f: SyncFailure) -> (s: String)
    ensures
        s@ == failure_text(f),
{
    match f {
        SyncFailure::Network { kind, info } => {
            let mut s: String = copy_of("network ");
            s.append(kind.as_str());
            s.append(": ");
            s.append(info.as_str());
            s
        },
        SyncFailure::Server { kind, info } => {
            let mut s: String = copy_of("sync ");
            s.append(kind.as_str());
            s.append(": ");
            s.append(info.as_str());
            s
        },
        SyncFailure::Other { text } => text,
    }
}

pub const NO_CREDENTIALS: &'static str = "no AnkiWeb creds (ankiweb.txt)";

pub const BAD_CREDENTIALS: &'static str = "ankiweb.txt needs user + pass lines";

/// The user name and the password in the credentials file: its first two lines,
/// trimmed. Else what is missing.
pub open spec fn credentials_in(file: Option<&str>) -> Result<(Seq<char>, Seq<char>), Seq<char>> {
    match file {
        None => Err(NO_CREDENTIALS@),
        Some(text) => if lines(text@).len() < 2 {
            Err(BAD_CREDENTIALS@)
        } else {
            Ok((trimmed(lines(text@)[0]), trimmed(lines(text@)[1])))
        },
    }
}

/// Reads the credentials from the text of their file, if it is there.
pub fn credentials(file: Option<&str>) -> (r: Result<(String, String), String>)
    ensures
        match r {
            Ok((user, pass)) => credentials_in(file) == Ok::<_, Seq<char>>((user@, pass@)),
            Err(e) => credentials_in(file) == Err::<(Seq<char>, Seq<char>), _>(e@),
        },
{
    match file {
        None => Err(copy_of(NO_CREDENTIALS)),
        Some(text) => {
            let ls: Vec<String> = split_lines(text);
            assert(texts(ls@).len() == ls@.len());
            if ls.len() < 2 {
                Err(copy_of(BAD_CREDENTIALS))
            } else {
                assert(texts(ls@)[0] == ls@[0]@ && texts(ls@)[1] == ls@[1]@);
                Ok((trim(ls[0].as_str()), trim(ls[1].as_str())))
            }
        },
    }
}

/// The status that a report or a failure gives.
pub open spec fn status_text(report: Option<Seq<char>>, failure: Seq<char>) -> Seq<char> {
    match report {
        Some(headline) => headline,
        None => "sync failed: "@ + failure,
    }
}

/// The status after a sync: the headline, or the failure.
pub fn sync_status(r: Result<&SyncReport, &str>) -> (s: String)
    ensures
        s@ == (match r {
            Ok(report) => status_text(Some(report@.headline), Seq::empty()),
            Err(e) => status_text(None, e@),
        }),
        s@ == (match r {
            Ok(report) => report.headline@,
            Err(e) => "sync failed: "@ + e@,
        }),
{
    match r {
        Ok(report) => copy_of(report.headline.as_str()),
        Err(e) => {
            let mut s: String = copy_of("sync failed: ");
            s.append(e);
            s
        },
    }
}

// -------------------------------------------------------------------- laws

/// There is one streak for given days.
pub proof fn law_one_streak(days: Seq<i64>, today: int, n: u32, m: u32)
    requires
        is_streak(days, today, n),
        is_streak(days, today, m),
    ensures
        n == m,
{
    let end = streak_end(days, today);
    if n < m {
        assert(reviewed(days, end - n));
    }
    if m < n {
        assert(reviewed(days, end - m));
    }
}

/// The first review of a day extends the streak by one.
pub proof fn law_first_review_extends_streak(days: Seq<i64>, today: i64, n: u32)
    requires
        is_streak(days, today as int, n),
        !reviewed(days, today as int),
        n < u32::MAX,
    ensures
        is_streak(days.push(today), today as int, (n + 1) as u32),
{
    let now = days.push(today);
    assert(now[days.len() as int] == today);
    assert(now.contains(today));
    assert forall|d: int| d != today implies #[trigger] reviewed(now, d) == reviewed(days, d) by {
        if reviewed(days, d) {
            let k = choose|k: int| 0 <= k < days.len() && days[k] == d as i64;
            assert(now[k] == d as i64);
        }
        if reviewed(now, d) {
            let k = choose|k: int| 0 <= k < now.len() && now[k] == d as i64;
            assert(days[k] == d as i64);
        }
    }
    assert forall|k: int| #![trigger reviewed(now, today - k)] 0 <= k < n + 1 implies reviewed(
        now,
        today - k,
    ) by {
        if k > 0 {
            assert(reviewed(days, today - 1 - (k - 1)));
        }
    }
    assert(!reviewed(days, today - 1 - n));
}

/// Nothing is ever uploaded: a sync that would need an upload stops, and says so.
pub proof fn law_never_uploads(o: SyncOutcome)
    ensures
        (step_for(o.required) == SyncStep::Stop) == (o.required == (SyncRequired::FullSync {
            download_ok: false,
        })),
        step_for(o.required) == SyncStep::Stop ==> report_for(o).headline == NEEDS_UPLOAD@,
{
}

/// A card's page is its body in a frame that is the same for every card, with the style
/// of its note type at one place in front: behind our own style and before the overrides.
pub proof fn law_page_holds_style_and_body(css: Seq<char>, body: Seq<char>)
    ensures
        ({
            let page = card_page(css, body);
            let a = CARD_1@.len() as int;
            let b = a + css.len();
            let c = b + CARD_2@.len();
            let d = c + body.len();
            &&& page.len() == d + CARD_3@.len()
            &&& page.take(a) == CARD_1@
            &&& page.subrange(a, b) == css
            &&& page.subrange(b, c) == CARD_2@
            &&& page.subrange(c, d) == body
            &&& page.skip(d) == "</div></div></body></html>"@
        }),
{
    let page = card_page(css, body);
    let a = CARD_1@.len() as int;
    let b = a + css.len();
    let c = b + CARD_2@.len();
    let d = c + body.len();
    assert(page.take(a) =~= CARD_1@);
    assert(page.subrange(a, b) =~= css);
    assert(page.subrange(b, c) =~= CARD_2@);
    assert(page.subrange(c, d) =~= body);
    assert(page.skip(d) =~= CARD_3@);
}

/// The pieces of a template are joined in order: each adds its text behind those before
/// it, a field the same as a plain text.
pub proof fn law_pieces_are_joined_in_order(nodes: Seq<CardNode>, n: int)
    requires
        0 <= n < nodes.len(),
    ensures
        nodes_html(nodes, 0).len() == 0,
        nodes[n] matches CardNode::Text(t) ==> nodes_html(nodes, n + 1) == nodes_html(nodes, n)
            + t@,
        nodes[n] matches CardNode::Replacement(t) ==> nodes_html(nodes, n + 1) == nodes_html(
            nodes,
            n,
        ) + t@,
{
}

/// A card counts for the queue that it came from, a card of an unknown one for the
/// reviews; each button has the interval that the scheduler gave for it, in order; and
/// each grade leads to its own state.
pub proof fn law_card_keeps_queue_intervals_and_states<S>(
    labels: Seq<String>,
    i: int,
    next: NextStates<S>,
)
    requires
        0 <= i < 4,
    ensures
        kind_of(CardQueue::New) == CardKind::New,
        kind_of(CardQueue::Learning) == CardKind::Learning,
        kind_of(CardQueue::Review) == CardKind::Review,
        kind_of(CardQueue::Other) == CardKind::Review,
        i < labels.len() ==> label(labels, i) == labels[i]@,
        i >= labels.len() ==> label(labels, i).len() == 0,
        next.chosen(Grade::Again) == next.again,
        next.chosen(Grade::Hard) == next.hard,
        next.chosen(Grade::Good) == next.good,
        next.chosen(Grade::Easy) == next.easy,
{
}

/// A time lies in its day: day `d` holds the 86400 seconds from `d` whole days after the
/// creation of the collection on. Entries of the log tell their time in milliseconds.
pub proof fn law_time_lies_in_its_day(secs: int, created: int, e: LogEntry)
    ensures
        86_400 * day_of(secs, created) <= secs - created < 86_400 * day_of(secs, created) + 86_400,
        86_400_000 * entry_day(e, created) <= e.id - 1000 * created < 86_400_000 * entry_day(
            e,
            created,
        ) + 86_400_000,
{
}

/// Every entry of the log but the manual changes, which have kind 4, is a review on the
/// day that its time lies in, in the order of the log.
pub proof fn law_log_gives_the_days(log: Seq<LogEntry>, created: i64, n: int)
    requires
        0 <= n < log.len(),
    ensures
        days_of(log, created as int, 0).len() == 0,
        log[n].kind == 4 ==> days_of(log, created as int, n + 1) == days_of(
            log,
            created as int,
            n,
        ),
        log[n].kind != 4 ==> {
            let days = days_of(log, created as int, n + 1);
            let d = days.last();
            &&& days.len() > 0
            &&& days.drop_last() == days_of(log, created as int, n)
            &&& 86_400_000 * d <= log[n].id - 1000 * created < 86_400_000 * d + 86_400_000
        },
{
    if log[n].kind != 4 {
        law_time_lies_in_its_day(0, created as int, log[n]);
        assert(days_of(log, created as int, n + 1).drop_last() =~= days_of(
            log,
            created as int,
            n,
        ));
    }
}

/// A day is counted once for each of its reviews, and for nothing else.
pub proof fn law_each_review_counts_once(days: Seq<i64>, d: i64, e: i64)
    ensures
        times(Seq::empty(), d as int) == 0,
        times(days.push(d), d as int) == times(days, d as int) + 1,
        e != d ==> times(days.push(e), d as int) == times(days, d as int),
        (times(days, d as int) > 0) == days.contains(d),
        times(days, d as int) >= 0,
    decreases days.len(),
{
    assert(days.push(d).drop_last() =~= days);
    assert(days.push(e).drop_last() =~= days);
    if days.len() > 0 {
        law_each_review_counts_once(days.drop_last(), d, e);
        if days.contains(d) && days.last() != d {
            let k = choose|k: int| 0 <= k < days.len() && days[k] == d;
            assert(days.drop_last()[k] == d);
        }
        if days.drop_last().contains(d) {
            let k = choose|k: int| 0 <= k < days.drop_last().len() && days.drop_last()[k] == d;
            assert(days[k] == d);
        }
        if days.last() == d {
            assert(days[days.len() - 1] == d);
        }
    }
}

/// A streak of `n` days ends today, or yesterday while nothing was reviewed today: there
/// are reviews on its last day and on the `n - 1` days before, and none on the day before
/// these. Without reviews today and yesterday there is none.
pub proof fn law_streak_is_unbroken(days: Seq<i64>, today: i64, n: u32, k: int)
    requires
        is_streak(days, today as int, n),
        -0x4000_0000_0000_0000 <= today <= 0x4000_0000_0000_0000,
        0 <= k < n,
    ensures
        days.contains(today) ==> days.contains((today - k) as i64) && (n < u32::MAX
            ==> !days.contains((today - n) as i64)),
        !days.contains(today) ==> days.contains((today - 1 - k) as i64) && (n < u32::MAX
            ==> !days.contains((today - 1 - n) as i64)),
{
    let end = streak_end(days, today as int);
    assert(reviewed(days, end - k));
}

/// With no review today and none yesterday the streak is 0; with one it is not.
pub proof fn law_streak_begins_with_a_review(days: Seq<i64>, today: i64, n: u32)
    requires
        is_streak(days, today as int, n),
        -0x4000_0000_0000_0000 <= today <= 0x4000_0000_0000_0000,
    ensures
        (n == 0) == (!days.contains(today) && !days.contains((today - 1) as i64)),
{
    let end = streak_end(days, today as int);
    if n > 0 {
        assert(reviewed(days, end - 0));
    } else {
        assert(!reviewed(days, end - n));
    }
}

/// The statistics are of the reviews in the log up to now: its days and today count from
/// the creation of the collection, in days of 86400 seconds.
pub proof fn law_statistics_are_of_the_log(log: Revlog)
    ensures
        log.days() == days_of(log.entries@, log.created as int, log.entries@.len() as int),
        86_400 * log.today() <= log.now - log.created < 86_400 * log.today() + 86_400,
{
}

/// The reviews of a session come on top of those that the day had; the first of the day
/// extends the streak by one, and no other does. Numbers that grow too large stay at the
/// greatest that can be held.
pub proof fn law_session_adds_its_reviews(base: Stats, n: u32)
    ensures
        base.reviewed_today + n <= 0xffff_ffff ==> stats_now(base, n).reviewed_today
            == base.reviewed_today + n,
        base.reviewed_today + n > 0xffff_ffff ==> stats_now(base, n).reviewed_today == 0xffff_ffff,
        base.reviewed_today == 0 && n > 0 && base.streak < 0xffff_ffff ==> stats_now(base, n).streak
            == base.streak + 1,
        base.reviewed_today > 0 || n == 0 ==> stats_now(base, n).streak == base.streak,
{
}

/// What a sync comes to: nothing to change and a plain sync go on with the media, a full
/// sync downloads where it may and else stops; the headline says which it was. What was
/// added and removed is told unless all of it is replaced by a download, and what the
/// server said where it said something.
pub proof fn law_sync_goes_on(o: SyncOutcome)
    ensures
        o.required == SyncRequired::NoChanges ==> step_for(o.required) == SyncStep::Media
            && report_for(o).headline == "up to date"@,
        o.required == SyncRequired::NormalSync ==> step_for(o.required) == SyncStep::Media
            && report_for(o).headline == "synced"@,
        o.required == (SyncRequired::FullSync { download_ok: true }) ==> step_for(o.required)
            == SyncStep::Download && report_for(o).headline == "downloaded"@,
        o.required == (SyncRequired::FullSync { download_ok: false }) ==> step_for(o.required)
            == SyncStep::Stop && report_for(o).headline
            == "full sync needs upload \u{2014} resolve on desktop"@,
        o.required == (SyncRequired::FullSync { download_ok: true }) || o.progress is None
            ==> report_for(o).added is None && report_for(o).removed is None,
        o.required != (SyncRequired::FullSync { download_ok: true }) ==> (o.progress matches Some(
            (added, removed),
        ) ==> report_for(o).added == Some(added@) && report_for(o).removed == Some(removed@)),
        o.server_message@.len() > 0 ==> report_for(o).server_message == Some(o.server_message@),
        o.server_message@.len() == 0 ==> report_for(o).server_message is None,
        report_for(o).media is None,
{
}

/// A report says what was checked, added and removed, in this order; a failure says
/// where it came from, its kind and what is known; the status is the headline or says
/// that the sync failed and why.
pub proof fn law_sync_tells_what_happened(a: Seq<char>, b: Seq<char>, c: Seq<char>, f: SyncFailure)
    ensures
        media_line(a, b, c) == "media: "@ + a + " \u{b7} "@ + b + " \u{b7} "@ + c,
        f matches SyncFailure::Network { kind, info } ==> failure_text(f) == "network "@ + kind@
            + ": "@ + info@,
        f matches SyncFailure::Server { kind, info } ==> failure_text(f) == "sync "@ + kind@ + ": "@
            + info@,
        f matches SyncFailure::Other { text } ==> failure_text(f) == text@,
        status_text(Some(a), b) == a,
        status_text(None, b) == "sync failed: "@ + b,
{
}

/// The file with the credentials holds the user name in its first line and the password
/// in its second, whatever follows; white space around them does not count.
pub proof fn law_credentials_are_the_first_two_lines(
    user: Seq<char>,
    pass: Seq<char>,
    rest: Seq<char>,
    text: &str,
)
    requires
        forall|i: int| 0 <= i < user.len() ==> #[trigger] user[i] != '\n' && user[i] != '\r',
        forall|i: int| 0 <= i < pass.len() ==> #[trigger] pass[i] != '\n' && pass[i] != '\r',
        text@ == user + seq!['\n'] + (pass + seq!['\n'] + rest),
    ensures
        credentials_in(Some(text)) == Ok::<_, Seq<char>>((trimmed(user), trimmed(pass))),
        credentials_in(None) == Err::<(Seq<char>, Seq<char>), _>(
            "no AnkiWeb creds (ankiweb.txt)"@,
        ),
{
    crate::text::law_lines_split_at_line_feeds(user, pass + seq!['\n'] + rest);
    crate::text::law_lines_split_at_line_feeds(pass, rest);
    assert(lines(text@)[0] == user);
    assert(lines(text@)[1] == pass);
}

/// A file of one line holds no credentials.
pub proof fn law_one_line_is_not_enough(line: Seq<char>, text: &str)
    requires
        forall|i: int| 0 <= i < line.len() ==> #[trigger] line[i] != '\n' && line[i] != '\r',
        text@ == line || text@ == line + seq!['\n'],
    ensures
        credentials_in(Some(text)) == Err::<(Seq<char>, Seq<char>), _>(
            "ankiweb.txt needs user + pass lines"@,
        ),
{
    crate::text::law_lines_split_at_line_feeds(line, Seq::empty());
    assert(line + seq!['\n'] + Seq::<char>::empty() =~= line + seq!['\n']);
    assert(line.len() == 0 ==> line =~= Seq::<char>::empty());
}

} // verus!
