//! The review session: what the screens show and how touches change it.
//!
//! The session decides; the program around it performs. A touch gives an action,
//! the program carries it out on the collection or the panel, and reports back what
//! came of it.

use std::collections::HashSet;

use vstd::prelude::*;

use crate::backend::{home_stats, stats_now, Counts, Grade, Stats};
use crate::decks::{rows, shown_rows, visible_decks, DeckInfo, DeckRow};
use crate::frame::{same_tail, PIXELS};
use crate::qtfb::{InputEvent, INPUT_TOUCH_PRESS};
use crate::text::copy_of;
use crate::ui::{
    clamp_scroll, hit_at, hit_menu, hit_test, hit_test_home, home_hit_at, max_scroll, menu_hit_at,
    on_card, page_down, page_up, Hit, HomeHit, MenuHit, MenuState, Phase, PAGE_ROWS,
};
use crate::whiteboard::{blank, clean_refresh, ink_is, shows, Board, Refresh, Whiteboard};

verus! {

/// Milliseconds after a pen sample in which touches count as the palm.
pub const PALM_WINDOW: u64 = 250;

/// Milliseconds without a pen sample after which colour is restored.
pub const SETTLE_IDLE: u64 = 1200;

/// The screen that is showing.
#[derive(Clone, Copy, Debug, PartialEq, Eq, Structural)]
pub enum Screen {
    Home,
    Review,
}

/// What the program has to do.
#[derive(Clone, Copy, Debug, PartialEq, Eq, Structural)]
pub enum Action {
    /// Nothing.
    Wait,
    /// Leave the program.
    Quit,
    /// Draw the home screen.
    DrawHome,
    /// Read the deck list again and draw the home screen.
    ReloadHome,
    /// Select this deck, get its next card and draw the review screen.
    OpenDeck(i64),
    /// Sync, and report it with `synced`.
    Sync,
    /// Draw the review screen.
    Redraw,
    /// Get the next card and draw the review screen.
    NextCard,
    /// Bury the card, and report it with `task_done`.
    Bury,
    /// Suspend the card's note, and report it with `task_done`.
    Suspend,
    /// Set the card's flag, and report it with `task_done`.
    SetFlag(u32),
    /// Grade the card, and report it with `task_done`.
    Answer(Grade),
    /// Take back the last grade, and report it with `undo_done`.
    UndoGrade,
    /// Send this refresh; the framebuffer is up to date.
    Show(Refresh),
}

/// A task on the card that can fail.
#[derive(Clone, Copy, Debug, PartialEq, Eq, Structural)]
pub enum Task {
    Bury,
    Suspend,
    Flag,
    Answer,
}

/// What happens to a region that waits for its colour.
#[derive(Clone, Copy, Debug, PartialEq, Eq, Structural)]
pub enum Settle {
    /// Not yet.
    Wait,
    /// Refresh it in colour.
    Restore,
    /// Nothing: there is no colour in black and white.
    Discard,
}

/// What the session knows, the whiteboard left out.
#[verifier::ext_equal]
pub struct State {
    pub screen: Screen,
    /// All rows of the deck list.
    pub all: Seq<DeckRow>,
    /// The decks that are collapsed.
    pub collapsed: Set<i64>,
    /// The rows that are visible.
    pub visible: Seq<DeckRow>,
    /// The first row that is displayed.
    pub scroll: int,
    /// Statistics at the start, and the reviews since.
    pub base_stats: Stats,
    pub session_reviews: u32,
    pub counts: Counts,
    /// A card is there to be reviewed.
    pub has_card: bool,
    pub menu: MenuState,
    /// Black and white.
    pub mono: bool,
    pub phase: Phase,
    pub status: Seq<char>,
}

/// The session.
pub struct Session {
    screen: Screen,
    all: Vec<DeckInfo>,
    collapsed: HashSet<i64>,
    visible: Vec<DeckInfo>,
    scroll: usize,
    base_stats: Stats,
    session_reviews: u32,
    counts: Counts,
    has_card: bool,
    menu: MenuState,
    mono: bool,
    phase: Phase,
    status: String,
    wb: Whiteboard,
}

impl View for Session {
    type V = State;

    closed spec fn view(&self) -> State {
        State {
            screen: self.screen,
            all: rows(self.all@),
            collapsed: self.collapsed@,
            visible: rows(self.visible@),
            scroll: self.scroll as int,
            base_stats: self.base_stats,
            session_reviews: self.session_reviews,
            counts: self.counts,
            has_card: self.has_card,
            menu: self.menu,
            mono: self.mono,
            phase: self.phase,
            status: self.status@,
        }
    }
}

/// `scroll` brought into the range for a list of `len` rows.
pub open spec fn in_range(scroll: int, len: int) -> int {
    if scroll > max_scroll(len) {
        max_scroll(len)
    } else {
        scroll
    }
}

impl State {
    /// The visible rows are those of the list that are not below a collapsed deck,
    /// and the first one displayed is in range.
    pub open spec fn valid(self) -> bool {
        &&& self.visible == shown_rows(self.all, self.collapsed, self.all.len() as int)
        &&& 0 <= self.scroll <= max_scroll(self.visible.len() as int)
    }

    /// The state with the list and the collapsed decks replaced.
    pub open spec fn relisted(self, all: Seq<DeckRow>, collapsed: Set<i64>) -> State {
        let visible = shown_rows(all, collapsed, all.len() as int);
        State {
            all,
            collapsed,
            visible,
            scroll: in_range(self.scroll, visible.len() as int),
            ..self
        }
    }

    /// A touch on the home screen.
    pub open spec fn home_touched(self, x: int, y: int) -> (State, Action) {
        match home_hit_at(x, y, self.visible, self.scroll) {
            HomeHit::Deck(i) => (
                State {
                    screen: Screen::Review,
                    phase: Phase::Question,
                    status: self.visible[i as int].name,
                    ..self
                },
                Action::OpenDeck(self.visible[i as int].id),
            ),
            HomeHit::Toggle(i) => {
                let id = self.visible[i as int].id;
                (
                    self.relisted(
                        self.all,
                        if self.collapsed.contains(id) {
                            self.collapsed.remove(id)
                        } else {
                            self.collapsed.insert(id)
                        },
                    ),
                    Action::DrawHome,
                )
            },
            HomeHit::ScrollUp => (
                State {
                    scroll: if self.scroll >= PAGE_ROWS - 1 {
                        self.scroll - (PAGE_ROWS - 1)
                    } else {
                        0
                    },
                    ..self
                },
                Action::DrawHome,
            ),
            HomeHit::ScrollDown => (
                State {
                    scroll: in_range(self.scroll + PAGE_ROWS - 1, self.visible.len() as int),
                    ..self
                },
                Action::DrawHome,
            ),
            HomeHit::Sync => (self, Action::Sync),
            HomeHit::Exit => (self, Action::Quit),
            HomeHit::Nothing => (self, Action::Wait),
        }
    }

    /// A touch while the menu is open. It closes the menu, unless it opens the
    /// flags.
    pub open spec fn menu_touched(self, x: int, y: int) -> (State, Action) {
        let closed = State { menu: MenuState::Closed, ..self };
        match menu_hit_at(x, y, self.menu) {
            MenuHit::OpenFlags => (State { menu: MenuState::Flags, ..self }, Action::Redraw),
            MenuHit::Bury => (
                closed,
                if self.has_card {
                    Action::Bury
                } else {
                    Action::NextCard
                },
            ),
            MenuHit::Suspend => (
                closed,
                if self.has_card {
                    Action::Suspend
                } else {
                    Action::NextCard
                },
            ),
            MenuHit::Flag(n) => (
                closed,
                if self.has_card {
                    Action::SetFlag(n)
                } else {
                    Action::Redraw
                },
            ),
            MenuHit::Nothing => (closed, Action::Redraw),
        }
    }

    /// A touch on the review screen, with this many finished strokes on the board.
    pub open spec fn review_touched(self, strokes: nat, x: int, y: int) -> (State, Action) {
        match hit_at(x, y, self.phase) {
            Hit::Exit => (self, Action::Quit),
            Hit::Home => (State { screen: Screen::Home, ..self }, Action::ReloadHome),
            Hit::Sync => (self, Action::Sync),
            Hit::ShowAnswer => if self.has_card && self.phase == Phase::Question {
                (State { phase: Phase::Answer, ..self }, Action::Redraw)
            } else {
                (self, Action::Wait)
            },
            Hit::Grade(g) => (
                self,
                if self.phase != Phase::Answer {
                    Action::Wait
                } else if self.has_card {
                    Action::Answer(g)
                } else {
                    Action::NextCard
                },
            ),
            Hit::Undo => (
                self,
                if strokes > 0 {
                    Action::Show(clean_refresh())
                } else {
                    Action::UndoGrade
                },
            ),
            Hit::Clear => (self, Action::Show(clean_refresh())),
            Hit::EraserToggle => (self, Action::Redraw),
            Hit::Menu => (State { menu: MenuState::Root, ..self }, Action::Redraw),
            Hit::ColorToggle => (State { mono: !self.mono, ..self }, Action::Redraw),
            Hit::Nothing => (self, Action::Wait),
        }
    }

    /// A touch, with this many finished strokes on the board.
    pub open spec fn touched(self, strokes: nat, x: int, y: int) -> (State, Action) {
        if self.screen == Screen::Home {
            self.home_touched(x, y)
        } else if self.menu != MenuState::Closed {
            self.menu_touched(x, y)
        } else {
            self.review_touched(strokes, x, y)
        }
    }

    /// The button that a touch on the bare review screen finds.
    pub open spec fn button(self, x: int, y: int) -> Hit {
        if self.screen == Screen::Review && self.menu == MenuState::Closed {
            hit_at(x, y, self.phase)
        } else {
            Hit::Nothing
        }
    }

    /// The next card is there, or none is left: the question shows.
    pub open spec fn with_card(self, counts: Counts, has_card: bool) -> State {
        State { counts, has_card, phase: Phase::Question, ..self }
    }
}

/// What comes after a task on the card, done or failed: a flag shows on the card, and
/// after every other the next card comes.
pub open spec fn after_task(t: Task) -> Action {
    if t == Task::Flag {
        Action::Redraw
    } else {
        Action::NextCard
    }
}

/// A press counts, unless it is the palm's: on the review screen, and close behind a
/// pen sample.
pub open spec fn is_touch(screen: Screen, input_type: i32, since_pen: Option<u64>) -> bool {
    input_type == INPUT_TOUCH_PRESS && (screen == Screen::Review ==> (since_pen matches Some(ms)
        ==> ms >= PALM_WINDOW))
}

/// What happens to a region that waits for its colour.
pub open spec fn settling(
    screen: Screen,
    mono: bool,
    waiting: bool,
    since_pen: Option<u64>,
) -> Settle {
    if screen == Screen::Review && waiting && (since_pen matches Some(ms) ==> ms >= SETTLE_IDLE) {
        if mono {
            Settle::Discard
        } else {
            Settle::Restore
        }
    } else {
        Settle::Wait
    }
}

/// Milliseconds to wait for input.
pub open spec fn patience(screen: Screen, inked: bool, waiting: bool) -> int {
    if screen == Screen::Home {
        1000
    } else if inked {
        30
    } else if waiting {
        120
    } else {
        1000
    }
}

impl State {
    /// The state once a task on the card is done, or has failed with a message.
    pub open spec fn after_result(self, task: Task, error: Option<Seq<char>>) -> State {
        match error {
            Some(e) => State { status: failure(task, e), ..self },
            None => if task == Task::Answer && self.session_reviews < u32::MAX {
                State { session_reviews: (self.session_reviews + 1) as u32, ..self }
            } else {
                self
            },
        }
    }

    /// The state once the collection was asked to take back the last grade, and what to
    /// do then.
    pub open spec fn after_undo(self, undone: bool) -> (State, Action) {
        if undone {
            (
                State {
                    session_reviews: if self.session_reviews > 0 {
                        (self.session_reviews - 1) as u32
                    } else {
                        0
                    },
                    ..self
                },
                Action::NextCard,
            )
        } else {
            (self, Action::Wait)
        }
    }

    /// The state once a sync is over, and what to do then.
    pub open spec fn after_sync(self, status: Seq<char>) -> (State, Action) {
        if self.screen == Screen::Review {
            (State { status, ..self }, Action::NextCard)
        } else {
            (self, Action::ReloadHome)
        }
    }
}

/// What is said of a task that failed.
pub open spec fn failure(t: Task, e: Seq<char>) -> Seq<char> {
    (match t {
        Task::Bury => "bury error: "@,
        Task::Suspend => "suspend error: "@,
        Task::Flag => "flag error: "@,
        Task::Answer => "answer error: "@,
    }) + e
}

/// A board without ink and with nothing pending; base, view and eraser stay.
pub open spec fn cleared(b: Board, ink: Seq<u8>) -> Board {
    Board {
        ink,
        strokes: Seq::empty(),
        active: None,
        last: None,
        dirty: None,
        settle: None,
        ..b
    }
}

/// What a button does to the board: undo takes back the last stroke, clear wipes it,
/// the eraser is switched, leaving for the home screen wipes it, and nothing else
/// touches it.
pub open spec fn board_after(before: Board, after: Board, button: Hit) -> bool {
    match button {
        Hit::Undo => if before.strokes.len() > 0 {
            &&& after == (Board {
                ink: after.ink,
                strokes: before.strokes.drop_last(),
                dirty: None,
                settle: None,
                ..before
            })
            &&& ink_is(
                after.ink,
                before.strokes.drop_last(),
                before.scroll as int,
                before.zoom as int,
            )
        } else {
            after == before
        },
        Hit::Clear => blank(after.ink) && after == cleared(before, after.ink),
        Hit::Home => blank(after.ink) && after == cleared(before, after.ink),
        Hit::EraserToggle => after == (Board { eraser: !before.eraser, ..before }),
        _ => after == before,
    }
}

impl Session {
    /// The whiteboard over the card.
    pub closed spec fn board(self) -> Board {
        self.wb@
    }

    /// Everything that the session holds is in order.
    pub open spec fn valid(self) -> bool {
        self@.valid() && self.board().valid()
    }

    /// A session on the home screen with this deck list, nothing collapsed.
    pub fn new(decks: Vec<DeckInfo>, base_stats: Stats) -> (s: Self)
        ensures
            s.valid(),
            blank(s.board().ink),
            s.board().strokes.len() == 0,
            s@ == (State {
                screen: Screen::Home,
                all: rows(decks@),
                collapsed: Set::empty(),
                visible: shown_rows(rows(decks@), Set::empty(), decks@.len() as int),
                scroll: 0,
                base_stats,
                session_reviews: 0,
                counts: Counts { new: 0, learning: 0, review: 0 },
                has_card: false,
                menu: MenuState::Closed,
                mono: false,
                phase: Phase::Question,
                status: Seq::empty(),
            }),
    {
        broadcast use vstd::std_specs::hash::group_hash_axioms;

        let collapsed: HashSet<i64> = HashSet::new();
        assert(collapsed@ =~= Set::empty());
        let visible: Vec<DeckInfo> = visible_decks(&decks, &collapsed);
        let s: Session = Session {
            screen: Screen::Home,
            all: decks,
            collapsed,
            visible,
            scroll: 0,
            base_stats,
            session_reviews: 0,
            counts: Counts { new: 0, learning: 0, review: 0 },
            has_card: false,
            menu: MenuState::Closed,
            mono: false,
            phase: Phase::Question,
            status: String::new(),
            wb: Whiteboard::new(),
        };
        assert(s@.status =~= Seq::empty());
        s
    }

    /// The review screen is showing.
    pub fn reviewing(&self) -> (b: bool)
        ensures
            b == (self@.screen == Screen::Review),
    {
        self.screen == Screen::Review
    }

    /// The whiteboard.
    pub fn whiteboard(&mut self) -> (wb: &mut Whiteboard)
        ensures
            wb@ == old(self).board(),
            final(self).board() == final(wb)@,
            final(self)@ == old(self)@,
    {
        &mut self.wb
    }

    /// The pen tip erases too.
    pub fn eraser(&self) -> (b: bool)
        ensures
            b == self.board().eraser,
    {
        self.wb.is_erasing()
    }

    /// The rows of the deck list that are visible.
    pub fn visible(&self) -> (v: &Vec<DeckInfo>)
        ensures
            rows(v@) == self@.visible,
    {
        &self.visible
    }

    /// The first row that is displayed.
    pub fn scroll(&self) -> (n: usize)
        ensures
            n == self@.scroll,
    {
        self.scroll
    }

    /// The statistics to be shown now.
    pub fn stats(&self) -> (s: Stats)
        ensures
            s == stats_now(self@.base_stats, self@.session_reviews),
    {
        home_stats(self.base_stats, self.session_reviews)
    }

    /// The due counts.
    pub fn counts(&self) -> (c: Counts)
        ensures
            c == self@.counts,
    {
        self.counts
    }

    /// The open menu.
    pub fn menu(&self) -> (m: MenuState)
        ensures
            m == self@.menu,
    {
        self.menu
    }

    /// Black and white.
    pub fn mono(&self) -> (b: bool)
        ensures
            b == self@.mono,
    {
        self.mono
    }

    /// The side of the card that is showing.
    pub fn phase(&self) -> (p: Phase)
        ensures
            p == self@.phase,
    {
        self.phase
    }

    /// The status text.
    pub fn status(&self) -> (s: &str)
        ensures
            s@ == self@.status,
    {
        self.status.as_str()
    }

    // ------------------------------------------------------------- timing

    /// Whether an input event is a touch to act on: a press that does not come from
    /// the palm. While reviewing, touches within a moment of the last pen sample
    /// are the palm's.
    pub fn accepts(&self, input_type: i32, since_pen: Option<u64>) -> (b: bool)
        ensures
            b == (input_type == INPUT_TOUCH_PRESS && !(self@.screen == Screen::Review && (
            since_pen matches Some(ms) && ms < PALM_WINDOW))),
            b == is_touch(self@.screen, input_type, since_pen),
    {
        let palm: bool = match since_pen {
            Some(ms) => ms < PALM_WINDOW,
            None => false,
        };
        input_type == INPUT_TOUCH_PRESS && !(self.screen == Screen::Review && palm)
    }

    /// What to do about a region that waits for its colour: nothing before the pen
    /// has rested.
    pub fn settle(&self, since_pen: Option<u64>) -> (s: Settle)
        ensures
            s == (if self@.screen != Screen::Review || self.board().settle is None || (
            since_pen matches Some(ms) && ms < SETTLE_IDLE) {
                Settle::Wait
            } else if self@.mono {
                Settle::Discard
            } else {
                Settle::Restore
            }),
            s == settling(self@.screen, self@.mono, self.board().settle is Some, since_pen),
    {
        let busy: bool = match since_pen {
            Some(ms) => ms < SETTLE_IDLE,
            None => false,
        };
        if self.screen != Screen::Review || !self.wb.needs_settle() || busy {
            Settle::Wait
        } else if self.mono {
            Settle::Discard
        } else {
            Settle::Restore
        }
    }

    /// Milliseconds to wait for input: short while ink is pending, longer while a
    /// region waits for its colour.
    pub fn poll_timeout(&self) -> (ms: i32)
        ensures
            ms == (if self@.screen == Screen::Review && self.board().dirty is Some {
                30int
            } else if self@.screen == Screen::Review && self.board().settle is Some {
                120
            } else {
                1000
            }),
            ms == patience(
                self@.screen,
                self.board().dirty is Some,
                self.board().settle is Some,
            ),
    {
        if self.screen == Screen::Review && self.wb.has_pending_ink() {
            30
        } else if self.screen == Screen::Review && self.wb.needs_settle() {
            120
        } else {
            1000
        }
    }

    // ------------------------------------------------------------- touches

    fn relist(&mut self)
        requires
            0 <= old(self)@.scroll,
        ensures
            final(self)@ == old(self)@.relisted(old(self)@.all, old(self)@.collapsed),
            final(self).board() == old(self).board(),
            final(self)@.valid(),
    {
        self.visible = visible_decks(&self.all, &self.collapsed);
        clamp_scroll(&mut self.scroll, self.visible.len());
    }

    fn touch_home(&mut self, x: i32, y: i32) -> (a: Action)
        requires
            old(self).valid(),
        ensures
            final(self).valid(),
            (final(self)@, a) == old(self)@.home_touched(x as int, y as int),
            final(self).board() == old(self).board(),
    {
        broadcast use vstd::std_specs::hash::group_hash_axioms;

        let ghost before = self@;
        match hit_test_home(x, y, self.visible.as_slice(), self.scroll) {
            HomeHit::Deck(i) => {
                let d: &DeckInfo = &self.visible[i];
                assert(before.visible[i as int] == d@);
                let id: i64 = d.id;
                self.status = copy_of(d.name.as_str());
                self.screen = Screen::Review;
                self.phase = Phase::Question;
                Action::OpenDeck(id)
            },
            HomeHit::Toggle(i) => {
                let id: i64 = self.visible[i].id;
                assert(before.visible[i as int].id == id);
                if !self.collapsed.remove(&id) {
                    self.collapsed.insert(id);
                }
                proof {
                    if before.collapsed.contains(id) {
                        assert(self.collapsed@ =~= before.collapsed.remove(id));
                    } else {
                        assert(self.collapsed@ =~= before.collapsed.insert(id));
                    }
                }
                self.relist();
                Action::DrawHome
            },
            HomeHit::ScrollUp => {
                self.scroll = page_up(self.scroll);
                Action::DrawHome
            },
            HomeHit::ScrollDown => {
                self.scroll = page_down(self.scroll, self.visible.len());
                Action::DrawHome
            },
            HomeHit::Sync => Action::Sync,
            HomeHit::Exit => Action::Quit,
            HomeHit::Nothing => Action::Wait,
        }
    }

    fn touch_menu(&mut self, x: i32, y: i32) -> (a: Action)
        requires
            old(self).valid(),
        ensures
            final(self).valid(),
            (final(self)@, a) == old(self)@.menu_touched(x as int, y as int),
            final(self).board() == old(self).board(),
    {
        let hit: MenuHit = hit_menu(x, y, self.menu);
        self.menu = MenuState::Closed;
        match hit {
            MenuHit::OpenFlags => {
                self.menu = MenuState::Flags;
                Action::Redraw
            },
            MenuHit::Bury => if self.has_card {
                Action::Bury
            } else {
                Action::NextCard
            },
            MenuHit::Suspend => if self.has_card {
                Action::Suspend
            } else {
                Action::NextCard
            },
            MenuHit::Flag(n) => if self.has_card {
                Action::SetFlag(n)
            } else {
                Action::Redraw
            },
            MenuHit::Nothing => Action::Redraw,
        }
    }

    fn touch_review(&mut self, x: i32, y: i32, shm: &mut [u8]) -> (a: Action)
        requires
            old(self).valid(),
            old(shm)@.len() >= PIXELS * 3,
        ensures
            final(self).valid(),
            (final(self)@, a) == old(self)@.review_touched(
                old(self).board().strokes.len(),
                x as int,
                y as int,
            ),
            board_after(
                old(self).board(),
                final(self).board(),
                hit_at(x as int, y as int, old(self)@.phase),
            ),
            same_tail(final(shm)@, old(shm)@, PIXELS * 3),
            a matches Action::Show(_) ==> shows(
                final(shm)@,
                final(self).board().base,
                final(self).board().ink,
            ),
            !(a is Show) ==> final(shm)@ == old(shm)@,
    {
        match hit_test(x, y, self.phase) {
            Hit::Exit => Action::Quit,
            Hit::Home => {
                self.screen = Screen::Home;
                self.wb.clear_ink();
                Action::ReloadHome
            },
            Hit::Sync => Action::Sync,
            Hit::ShowAnswer => if self.has_card && self.phase == Phase::Question {
                self.phase = Phase::Answer;
                Action::Redraw
            } else {
                Action::Wait
            },
            Hit::Grade(g) => if self.phase != Phase::Answer {
                Action::Wait
            } else if self.has_card {
                Action::Answer(g)
            } else {
                Action::NextCard
            },
            Hit::Undo => match self.wb.undo(shm) {
                Some(r) => Action::Show(r),
                None => Action::UndoGrade,
            },
            Hit::Clear => Action::Show(self.wb.clear(shm)),
            Hit::EraserToggle => {
                self.wb.toggle_eraser();
                Action::Redraw
            },
            Hit::Menu => {
                self.menu = MenuState::Root;
                Action::Redraw
            },
            Hit::ColorToggle => {
                self.mono = !self.mono;
                Action::Redraw
            },
            Hit::Nothing => Action::Wait,
        }
    }

    /// Takes a touch and tells what to do.
    pub fn touch(&mut self, x: i32, y: i32, shm: &mut [u8]) -> (a: Action)
        requires
            old(self).valid(),
            old(shm)@.len() >= PIXELS * 3,
        ensures
            final(self).valid(),
            (final(self)@, a) == old(self)@.touched(
                old(self).board().strokes.len(),
                x as int,
                y as int,
            ),
            board_after(
                old(self).board(),
                final(self).board(),
                old(self)@.button(x as int, y as int),
            ),
            same_tail(final(shm)@, old(shm)@, PIXELS * 3),
            a is Show ==> shows(final(shm)@, final(self).board().base, final(self).board().ink),
            !(a is Show) ==> final(shm)@ == old(shm)@,
    {
        if self.screen == Screen::Home {
            self.touch_home(x, y)
        } else if self.menu != MenuState::Closed {
            self.touch_menu(x, y)
        } else {
            self.touch_review(x, y, shm)
        }
    }

    // ------------------------------------------------------------- reports

    /// The deck list has been read anew.
    pub fn decks_loaded(&mut self, decks: Vec<DeckInfo>)
        requires
            old(self).valid(),
        ensures
            final(self).valid(),
            final(self)@ == old(self)@.relisted(rows(decks@), old(self)@.collapsed),
            final(self).board() == old(self).board(),
    {
        self.all = decks;
        self.relist();
    }

    /// The next card is there, or none is left. It starts on a clean board.
    pub fn card_loaded(&mut self, counts: Counts, has_card: bool)
        requires
            old(self).valid(),
        ensures
            final(self).valid(),
            final(self)@ == old(self)@.with_card(counts, has_card),
            blank(final(self).board().ink),
            final(self).board() == cleared(old(self).board(), final(self).board().ink),
    {
        self.counts = counts;
        self.has_card = has_card;
        self.phase = Phase::Question;
        self.wb.clear_ink();
    }

    /// A task on the card is done, or failed with this message. A grade that went
    /// through counts as a review. Tells what to do next.
    pub fn task_done(&mut self, task: Task, result: Result<(), &str>) -> (a: Action)
        requires
            old(self).valid(),
        ensures
            final(self).valid(),
            a == after_task(task),
            final(self).board() == old(self).board(),
            final(self)@ == (match result {
                Ok(_) => if task == Task::Answer && old(self)@.session_reviews < u32::MAX {
                    State {
                        session_reviews: (old(self)@.session_reviews + 1) as u32,
                        ..old(self)@
                    }
                } else {
                    old(self)@
                },
                Err(e) => State { status: failure(task, e@), ..old(self)@ },
            }),
            final(self)@ == old(self)@.after_result(
                task,
                match result {
                    Ok(_) => None,
                    Err(e) => Some(e@),
                },
            ),
    {
        match result {
            Ok(_) => {
                if task == Task::Answer && self.session_reviews < u32::MAX {
                    self.session_reviews += 1;
                }
            },
            Err(e) => {
                let mut s: String = copy_of(match task {
                    Task::Bury => "bury error: ",
                    Task::Suspend => "suspend error: ",
                    Task::Flag => "flag error: ",
                    Task::Answer => "answer error: ",
                });
                s.append(e);
                self.status = s;
            },
        }
        match task {
            Task::Flag => Action::Redraw,
            _ => Action::NextCard,
        }
    }

    /// The collection was asked to take back the last grade. Where there was one,
    /// there is one review less and the card comes again; else nothing happens.
    pub fn undo_done(&mut self, undone: bool) -> (a: Action)
        requires
            old(self).valid(),
        ensures
            final(self).valid(),
            final(self).board() == old(self).board(),
            a == (if undone {
                Action::NextCard
            } else {
                Action::Wait
            }),
            (final(self)@, a) == old(self)@.after_undo(undone),
            final(self)@ == (if undone {
                State {
                    session_reviews: if old(self)@.session_reviews > 0 {
                        (old(self)@.session_reviews - 1) as u32
                    } else {
                        0
                    },
                    ..old(self)@
                }
            } else {
                old(self)@
            }),
    {
        if !undone {
            return Action::Wait;
        }
        if self.session_reviews > 0 {
            self.session_reviews -= 1;
        }
        Action::NextCard
    }

    /// A sync is over. The review screen shows how it went and gets the next card;
    /// the home screen reads its decks again.
    pub fn synced(&mut self, status: &str) -> (a: Action)
        requires
            old(self).valid(),
        ensures
            final(self).valid(),
            final(self).board() == old(self).board(),
            (final(self)@, a) == old(self)@.after_sync(status@),
            a == (if old(self)@.screen == Screen::Review {
                Action::NextCard
            } else {
                Action::ReloadHome
            }),
            final(self)@ == (if old(self)@.screen == Screen::Review {
                State { status: status@, ..old(self)@ }
            } else {
                old(self)@
            }),
    {
        if self.screen == Screen::Review {
            self.status = copy_of(status);
            Action::NextCard
        } else {
            Action::ReloadHome
        }
    }

    /// The review screen has been composed anew: shows it with the ink over it.
    pub fn redraw(&mut self, frame: Vec<u8>, shm: &mut [u8]) -> (r: Refresh)
        requires
            old(self).valid(),
            frame@.len() == PIXELS * 4,
            old(shm)@.len() >= PIXELS * 3,
        ensures
            final(self).valid(),
            final(self)@ == old(self)@,
            final(self).board() == (Board {
                base: frame@,
                dirty: None,
                settle: None,
                ..old(self).board()
            }),
            same_tail(final(shm)@, old(shm)@, PIXELS * 3),
            shows(final(shm)@, frame@, old(self).board().ink),
            r == clean_refresh(),
    {
        self.wb.set_base(frame);
        self.wb.blit_full(shm)
    }
}

/// Whether an event is a press of the Exit button.
pub fn wants_exit(ev: InputEvent) -> (b: bool)
    ensures
        b == (ev.input_type == INPUT_TOUCH_PRESS && hit_at(
            ev.x as int,
            ev.y as int,
            Phase::Question,
        ) == Hit::Exit),
{
    ev.input_type == INPUT_TOUCH_PRESS && hit_test(ev.x, ev.y, Phase::Question) == Hit::Exit
}

// -------------------------------------------------------------------- laws

/// Ink stays when the answer is shown, so that it can be compared with the card.
pub proof fn law_answer_keeps_ink(st: State, x: int, y: int, before: Board, after: Board)
    requires
        st.button(x, y) == Hit::ShowAnswer,
        board_after(before, after, st.button(x, y)),
    ensures
        after == before,
{
}

/// Undo takes back strokes first: a grade is taken back only on a board without
/// finished strokes.
pub proof fn law_undo_takes_strokes_first(st: State, strokes: nat, x: int, y: int)
    requires
        st.button(x, y) == Hit::Undo,
    ensures
        st.touched(strokes, x, y).1 == (if strokes > 0 {
            Action::Show(clean_refresh())
        } else {
            Action::UndoGrade
        }),
        st.touched(strokes, x, y).0 == st,
{
}

/// A card is graded only while its answer is showing.
pub proof fn law_grading_needs_the_answer(st: State, strokes: nat, x: int, y: int)
    requires
        st.touched(strokes, x, y).1 is Answer,
    ensures
        st.screen == Screen::Review,
        st.has_card,
        st.phase == Phase::Answer,
        st.menu == MenuState::Closed,
{
}

/// Touching the card does nothing while no menu is open.
pub proof fn law_card_touch_is_ignored(st: State, strokes: nat, x: int, y: int)
    requires
        st.screen == Screen::Review,
        st.menu == MenuState::Closed,
        on_card(x, y),
    ensures
        st.touched(strokes, x, y) == (st, Action::Wait),
{
}

/// An open menu takes every touch: it acts on its rows or closes, and no button
/// below it is found.
pub proof fn law_open_menu_takes_touches(st: State, strokes: nat, x: int, y: int)
    requires
        st.screen == Screen::Review,
        st.menu != MenuState::Closed,
    ensures
        st.button(x, y) == Hit::Nothing,
        ({
            let (next, a) = st.touched(strokes, x, y);
            &&& a == Action::Redraw || a == Action::NextCard || a == Action::Bury || a
                == Action::Suspend || a is SetFlag
            &&& next.menu == MenuState::Closed || next.menu == MenuState::Flags && a
                == Action::Redraw
        }),
{
}

/// Collapsing a deck and expanding it again brings the same rows back.
pub proof fn law_toggle_twice(st: State, id: i64)
    requires
        st.valid(),
        !st.collapsed.contains(id),
    ensures
        ({
            let once = st.relisted(st.all, st.collapsed.insert(id));
            let twice = once.relisted(once.all, once.collapsed.remove(id));
            twice.visible == st.visible && twice.collapsed == st.collapsed
        }),
{
    assert(st.collapsed.insert(id).remove(id) =~= st.collapsed);
}

/// Every touch leaves the list and the scroll position in order.
pub proof fn law_touch_keeps_order(st: State, strokes: nat, x: int, y: int)
    requires
        st.valid(),
    ensures
        st.touched(strokes, x, y).0.valid(),
{
}

/// The review screen shows and no menu is open.
pub open spec fn bare(st: State) -> bool {
    st.screen == Screen::Review && st.menu == MenuState::Closed
}

/// While a card's answer shows, the action bar has four buttons of a quarter of its
/// width each, from left to right Again, Hard, Good and Easy: a touch in one of them
/// grades the card with just that grade and changes nothing else.
pub proof fn law_quarters_give_their_grade(st: State, strokes: nat, x: int, y: int)
    requires
        bare(st),
        st.has_card,
        st.phase == Phase::Answer,
        0 <= x < 1620,
        1920 <= y < 2160,
    ensures
        st.touched(strokes, x, y).0 == st,
        x < 405 ==> st.touched(strokes, x, y).1 == Action::Answer(Grade::Again),
        405 <= x < 810 ==> st.touched(strokes, x, y).1 == Action::Answer(Grade::Hard),
        810 <= x < 1215 ==> st.touched(strokes, x, y).1 == Action::Answer(Grade::Good),
        1215 <= x ==> st.touched(strokes, x, y).1 == Action::Answer(Grade::Easy),
{
}

/// While the question shows, the whole action bar turns the card: the answer shows and
/// nothing else changes. Without a card it does nothing.
pub proof fn law_action_bar_shows_the_answer(st: State, strokes: nat, x: int, y: int)
    requires
        bare(st),
        st.phase == Phase::Question,
        0 <= x < 1620,
        1920 <= y < 2160,
    ensures
        st.has_card ==> st.touched(strokes, x, y) == (
            State { phase: Phase::Answer, ..st },
            Action::Redraw,
        ),
        !st.has_card ==> st.touched(strokes, x, y) == (st, Action::Wait),
{
}

/// Without a card, the grades ask for the next one.
pub proof fn law_grades_without_a_card(st: State, strokes: nat, x: int, y: int)
    requires
        bare(st),
        !st.has_card,
        st.phase == Phase::Answer,
        0 <= x < 1620,
        1920 <= y < 2160,
    ensures
        st.touched(strokes, x, y) == (st, Action::NextCard),
{
}

/// The status bar's buttons, from the right: Exit, Sync, Clear, Eraser, Undo and Home;
/// what is left of them switches the colour.
pub proof fn law_status_bar_buttons(st: State, strokes: nat, x: int, y: int)
    requires
        bare(st),
        0 <= x < 1620,
        0 <= y < 110,
    ensures
        x >= 1460 ==> st.touched(strokes, x, y) == (st, Action::Quit),
        1270 <= x < 1460 ==> st.touched(strokes, x, y) == (st, Action::Sync),
        1110 <= x < 1270 ==> st.touched(strokes, x, y) == (st, Action::Show(clean_refresh())),
        1110 <= x < 1270 ==> st.button(x, y) == Hit::Clear,
        930 <= x < 1110 ==> st.touched(strokes, x, y) == (st, Action::Redraw),
        930 <= x < 1110 ==> st.button(x, y) == Hit::EraserToggle,
        770 <= x < 930 && strokes > 0 ==> st.touched(strokes, x, y) == (
            st,
            Action::Show(clean_refresh()),
        ),
        770 <= x < 930 && strokes == 0 ==> st.touched(strokes, x, y) == (st, Action::UndoGrade),
        770 <= x < 930 ==> st.button(x, y) == Hit::Undo,
        610 <= x < 770 ==> st.touched(strokes, x, y) == (
            State { screen: Screen::Home, ..st },
            Action::ReloadHome,
        ),
        610 <= x < 770 ==> st.button(x, y) == Hit::Home,
        x < 610 ==> st.touched(strokes, x, y) == (State { mono: !st.mono, ..st }, Action::Redraw),
{
}

/// The menu button floats over the lower right corner of the card and opens the menu.
pub proof fn law_menu_button_opens_the_menu(st: State, strokes: nat, x: int, y: int)
    requires
        bare(st),
        1486 <= x < 1590,
        1786 <= y < 1890,
    ensures
        st.touched(strokes, x, y) == (State { menu: MenuState::Root, ..st }, Action::Redraw),
{
}

/// The menu has three rows of 118 pixels: the flags, which open a panel of their own,
/// burying the card, and suspending its note. Without a card the last two ask for the
/// next one. A touch beside the rows closes the menu.
pub proof fn law_menu_rows(st: State, strokes: nat, x: int, y: int)
    requires
        st.screen == Screen::Review,
        st.menu == MenuState::Root,
    ensures
        ({
            let (next, a) = st.touched(strokes, x, y);
            let inside = 1070 <= x < 1590;
            &&& inside && 1418 <= y < 1536 ==> next == State { menu: MenuState::Flags, ..st } && a
                == Action::Redraw
            &&& inside && 1536 <= y < 1654 ==> a == (if st.has_card {
                Action::Bury
            } else {
                Action::NextCard
            })
            &&& inside && 1654 <= y < 1772 ==> a == (if st.has_card {
                Action::Suspend
            } else {
                Action::NextCard
            })
            &&& !(inside && 1418 <= y < 1772) ==> a == Action::Redraw
            &&& !(inside && 1418 <= y < 1536) ==> next == State { menu: MenuState::Closed, ..st }
        }),
{
}

/// The flags panel has eight rows of 118 pixels: the flags 1 to 7 in order, and the
/// removal of the flag. Every touch closes it.
pub proof fn law_flag_rows(st: State, strokes: nat, x: int, y: int)
    requires
        st.screen == Screen::Review,
        st.menu == MenuState::Flags,
    ensures
        ({
            let (next, a) = st.touched(strokes, x, y);
            let row = (y - 828) / 118;
            let inside = 1070 <= x < 1590 && 828 <= y < 1772;
            &&& next == State { menu: MenuState::Closed, ..st }
            &&& inside && st.has_card && row < 7 ==> a == Action::SetFlag((row + 1) as u32)
            &&& inside && st.has_card && row == 7 ==> a == Action::SetFlag(0)
            &&& !(inside && st.has_card) ==> a == Action::Redraw
        }),
{
}

/// The header's buttons on the home screen, from the right: Exit, Sync, and a page down
/// and up. A page moves by 16 of its 17 rows, and never past either end of the list.
pub proof fn law_home_header_buttons(st: State, strokes: nat, x: int, y: int)
    requires
        st.valid(),
        st.screen == Screen::Home,
        0 <= x < 1620,
        0 <= y < 110,
    ensures
        ({
            let (next, a) = st.touched(strokes, x, y);
            let len = st.visible.len() as int;
            let last = if len > 17 {
                len - 17
            } else {
                0
            };
            &&& x >= 1460 ==> (next, a) == (st, Action::Quit)
            &&& 1270 <= x < 1460 ==> (next, a) == (st, Action::Sync)
            &&& 1094 <= x < 1270 ==> a == Action::DrawHome && next == State {
                scroll: next.scroll,
                ..st
            }
            &&& 1182 <= x < 1270 ==> next.scroll == (if st.scroll + 16 <= last {
                st.scroll + 16
            } else {
                last
            })
            &&& 1094 <= x < 1182 ==> next.scroll == (if st.scroll >= 16 {
                st.scroll - 16
            } else {
                0
            })
            &&& x < 1094 ==> (next, a) == (st, Action::Wait)
        }),
{
}

/// A touch on a row of the home screen goes to the deck that is displayed there: on the
/// zone of a deck with subdecks it switches whether they show, and anywhere else it
/// opens the deck for review, with the question up and the deck's name as the status.
pub proof fn law_home_rows(st: State, strokes: nat, x: int, y: int, k: int)
    requires
        st.valid(),
        st.screen == Screen::Home,
        0 <= x,
        0 <= k < 17,
        110 + 116 * k <= y < 110 + 116 * (k + 1),
        st.scroll + k < st.visible.len() <= usize::MAX,
    ensures
        ({
            let (next, a) = st.touched(strokes, x, y);
            let d = st.visible[st.scroll + k];
            let left = 32 + 46 * d.level;
            let zone = d.has_children && left <= x < left + 84;
            &&& !zone ==> a == Action::OpenDeck(d.id) && next == State {
                screen: Screen::Review,
                phase: Phase::Question,
                status: d.name,
                ..st
            }
            &&& zone ==> a == Action::DrawHome && next.all == st.all && next.screen
                == Screen::Home && next.status == st.status
            &&& zone ==> forall|id: i64| #[trigger]
                next.collapsed.contains(id) == (if id == d.id {
                    !st.collapsed.contains(id)
                } else {
                    st.collapsed.contains(id)
                })
        }),
{
    assert((y - 110) / 116 == k);
}

/// What a button does to the board: Clear and Home leave no ink and no stroke, Undo
/// takes the last stroke away and draws the others, Eraser switches the eraser, and
/// every other button leaves the board alone.
pub proof fn law_buttons_and_the_board(before: Board, after: Board, button: Hit)
    requires
        board_after(before, after, button),
    ensures
        button == Hit::Clear || button == Hit::Home ==> {
            &&& after.strokes.len() == 0
            &&& after.active is None
            &&& forall|i: int| 0 <= i < 3_499_200 ==> #[trigger] after.ink[i] == 0
            &&& after.base == before.base
        },
        button == Hit::Undo && before.strokes.len() > 0 ==> {
            &&& after.strokes == before.strokes.take(before.strokes.len() - 1)
            &&& ink_is(after.ink, after.strokes, before.scroll as int, before.zoom as int)
            &&& after.base == before.base && after.scroll == before.scroll && after.zoom
                == before.zoom
        },
        button == Hit::Undo && before.strokes.len() == 0 ==> after == before,
        button == Hit::EraserToggle ==> after.eraser == !before.eraser && after.ink == before.ink
            && after.strokes == before.strokes,
        button != Hit::Clear && button != Hit::Home && button != Hit::Undo && button
            != Hit::EraserToggle ==> after == before,
{
    if button == Hit::Undo && before.strokes.len() > 0 {
        assert(before.strokes.drop_last() =~= before.strokes.take(before.strokes.len() - 1));
    }
}

/// The next card comes on a clean board, with its question up and the counts as told;
/// nothing else changes.
pub proof fn law_next_card_starts_afresh(
    st: State,
    counts: Counts,
    has_card: bool,
    before: Board,
    ink: Seq<u8>,
)
    ensures
        st.with_card(counts, has_card) == (State {
            counts,
            has_card,
            phase: Phase::Question,
            ..st
        }),
        cleared(before, ink).strokes.len() == 0,
        cleared(before, ink).active is None,
        cleared(before, ink).last is None,
        cleared(before, ink).ink == ink,
        cleared(before, ink).base == before.base,
{
}

/// While reviewing, a press within a quarter of a second of the pen is the palm's and
/// does not count; at any other time, and on the home screen always, it does. Nothing
/// but a press counts.
pub proof fn law_palms_do_not_count(screen: Screen, input_type: i32, ms: u64)
    ensures
        input_type != 16 ==> !is_touch(screen, input_type, Some(ms)) && !is_touch(
            screen,
            input_type,
            None,
        ),
        is_touch(screen, 16, None),
        is_touch(Screen::Home, 16, Some(ms)),
        is_touch(Screen::Review, 16, Some(ms)) == (ms >= 250),
{
}

/// Colour comes back once the pen has rested for 1200 milliseconds, and not before; in
/// black and white there is none to come back.
pub proof fn law_colour_waits_for_the_pen(mono: bool, ms: u64)
    ensures
        settling(Screen::Review, mono, true, Some(ms)) == (if ms < 1200 {
            Settle::Wait
        } else if mono {
            Settle::Discard
        } else {
            Settle::Restore
        }),
        settling(Screen::Review, mono, true, None) != Settle::Wait,
        settling(Screen::Review, mono, false, Some(ms)) == Settle::Wait,
        settling(Screen::Home, mono, true, Some(ms)) == Settle::Wait,
{
}

/// The program looks again soon while something is pending: sooner for ink than for
/// colour, and for colour sooner than for nothing.
pub proof fn law_pending_work_shortens_the_wait(waiting: bool)
    ensures
        0 < patience(Screen::Review, true, waiting) < patience(Screen::Review, false, true),
        patience(Screen::Review, false, true) < patience(Screen::Review, false, false),
        patience(Screen::Home, true, waiting) == patience(Screen::Review, false, false),
        patience(Screen::Review, true, waiting) == 30,
        patience(Screen::Review, false, true) == 120,
        patience(Screen::Review, false, false) == 1000,
{
}

/// A grade that went through is one review more, and taking it back is one less, so the
/// two together change nothing. A task that failed, or is no grade, counts nothing.
pub proof fn law_reviews_are_counted(st: State, task: Task, e: Seq<char>)
    ensures
        st.session_reviews < u32::MAX ==> st.after_result(
            Task::Answer,
            None,
        ).session_reviews == st.session_reviews + 1,
        st.session_reviews < u32::MAX ==> st.after_result(Task::Answer, None).after_undo(true) == (
            st,
            Action::NextCard,
        ),
        st.after_undo(false) == (st, Action::Wait),
        st.after_undo(true).1 == Action::NextCard,
        st.session_reviews == 0 ==> st.after_undo(true).0 == st,
        task != Task::Answer ==> st.after_result(task, None) == st,
        st.after_result(task, Some(e)) == (State {
            status: st.after_result(task, Some(e)).status,
            ..st
        }),
{
}

/// What failed is told with the reason behind it.
pub proof fn law_failures_are_told(st: State, e: Seq<char>)
    ensures
        st.after_result(Task::Bury, Some(e)).status == "bury error: "@ + e,
        st.after_result(Task::Suspend, Some(e)).status == "suspend error: "@ + e,
        st.after_result(Task::Flag, Some(e)).status == "flag error: "@ + e,
        st.after_result(Task::Answer, Some(e)).status == "answer error: "@ + e,
{
}

/// After a task on the card the next card comes, but a new flag shows on the card that
/// is there. After a sync the screen that shows is filled anew, and the review screen
/// tells how it went.
pub proof fn law_what_comes_next(st: State, task: Task, status: Seq<char>)
    ensures
        after_task(task) == (match task {
            Task::Bury => Action::NextCard,
            Task::Suspend => Action::NextCard,
            Task::Flag => Action::Redraw,
            Task::Answer => Action::NextCard,
        }),
        st.screen == Screen::Review ==> st.after_sync(status) == (
            State { status, ..st },
            Action::NextCard,
        ),
        st.screen == Screen::Home ==> st.after_sync(status) == (st, Action::ReloadHome),
{
}

/// A new deck list keeps what was collapsed, and the list does not start past its end.
pub proof fn law_new_list_keeps_what_was_collapsed(
    st: State,
    all: Seq<DeckRow>,
    collapsed: Set<i64>,
)
    requires
        0 <= st.scroll,
    ensures
        ({
            let next = st.relisted(all, collapsed);
            let len = next.visible.len() as int;
            &&& next.all == all && next.collapsed == collapsed
            &&& next.valid()
            &&& 0 <= next.scroll <= st.scroll
            &&& next.scroll == st.scroll || next.scroll + 17 == len || len < 17 && next.scroll == 0
            &&& next.screen == st.screen && next.phase == st.phase && next.status == st.status
                && next.menu == st.menu && next.session_reviews == st.session_reviews
        }),
{
}

} // verus!
