//! Two-finger scrolling and pinch zoom from the panel server's touch events.
//!
//! Touches come as presses and releases tagged with a contact number. A finger
//! that moves may send its press again with the same number, or an update; or it
//! may send nothing until its release, which carries the end position. Where motion
//! arrives, a two-finger drag gives scroll steps while it lasts, and a pinch is
//! reported when the last finger lifts. Where none arrives, the whole gesture is
//! judged when the last finger lifts, from where each finger started and where it
//! lifted.
//!
//! Only contacts that started in the card band take part in gestures. Every first
//! press of a contact is reported, so that a button fires once for each touch.
//!
//! Distances are kept as squares and centroids as fractions, so every threshold is
//! decided exactly.

use vstd::prelude::*;

use crate::qtfb::{INPUT_TOUCH_PRESS, INPUT_TOUCH_RELEASE, INPUT_TOUCH_UPDATE};
use crate::whiteboard::saturated;

verus! {

/// Travel of the centroid, in pixels, that one scroll step collects.
pub const SCROLL_STEP_PX: i128 = 90;

/// Change of the finger distance, in pixels, that makes a pinch.
pub const PINCH_THRESHOLD_PX: i128 = 140;

/// Travel of the centroid, in pixels, that makes a scroll.
pub const SCROLL_THRESHOLD_PX: i128 = 60;

/// Travel of the centroid, in pixels, that makes a scroll when no motion arrived.
pub const RELEASE_SCROLL_MIN_PX: i128 = 80;

/// Without motion, a distance ratio above this many hundredths zooms in.
pub const RATIO_IN: i128 = 115;

/// Without motion, a distance ratio below this many hundredths zooms out.
pub const RATIO_OUT: i128 = 87;

/// A gesture on the card.
#[derive(Clone, Copy, Debug, PartialEq, Eq, Structural)]
pub enum CardGesture {
    Nothing,
    /// Scroll by this many pixels; positive when the fingers moved up.
    ScrollStep(i32),
    /// A pinch is over. The ratio of the final to the initial distance of the
    /// fingers is the square root of the ratio of these two squared distances.
    PinchEnd { last_d2: i128, start_d2: i128 },
}

/// What one touch event brought.
#[derive(Clone, Copy, Debug, PartialEq, Eq, Structural)]
pub struct Feed {
    pub gesture: CardGesture,
    /// The event was the first press of a contact.
    pub new_contact: bool,
}

/// What a two-finger gesture has turned out to be.
#[derive(Clone, Copy, Debug, PartialEq, Eq, Structural)]
pub enum Mode {
    Undecided,
    Scroll,
    Pinch,
}

/// A finger on the panel.
#[derive(Clone, Copy, Debug, PartialEq, Eq, Structural)]
pub struct Contact {
    pub id: i32,
    /// Where the finger was seen last.
    pub x: i32,
    pub y: i32,
    /// The finger came down in the card band.
    pub card: bool,
    /// Row from which the finger's travel counts: where it came down, or where it
    /// was when the gesture was measured.
    pub start_y: i32,
    /// One of the two fingers whose distance the gesture was measured by.
    pub lead: bool,
}

/// A mean height: a sum of rows and how many they are.
#[derive(Clone, Copy, Debug, PartialEq, Eq, Structural)]
pub struct Mean {
    pub sum: i128,
    pub count: i128,
}

/// What the recognizer knows.
#[verifier::ext_equal]
pub struct Touch {
    /// The fingers that are down, in the order in which they came.
    pub contacts: Seq<Contact>,
    /// The most card contacts that were down at once in this gesture.
    pub peak_card: nat,
    pub mode: Mode,
    /// Squared finger distance when the second card contact came down.
    pub start_d2: i128,
    /// Squared finger distance seen last.
    pub last_d2: i128,
    /// Centroid when the second card contact came down.
    pub start_cy: Mean,
    /// Centroid up to which the scrolling has been reported.
    pub applied_cy: Mean,
    /// Motion has decided the gesture.
    pub moved: bool,
    /// The card contacts that lifted since the gesture was measured, where they
    /// lifted.
    pub ended: Seq<Contact>,
}

// ---------------------------------------------------------------- geometry

/// The contacts that started in the card band, in order.
pub open spec fn cards(contacts: Seq<Contact>) -> Seq<Contact>
    decreases contacts.len(),
{
    if contacts.len() == 0 {
        Seq::empty()
    } else if contacts.last().card {
        cards(contacts.drop_last()).push(contacts.last())
    } else {
        cards(contacts.drop_last())
    }
}

/// The sum of the contacts' rows.
pub open spec fn sum_y(contacts: Seq<Contact>) -> int
    decreases contacts.len(),
{
    if contacts.len() == 0 {
        0
    } else {
        sum_y(contacts.drop_last()) + contacts.last().y
    }
}

/// Squared distance of two contacts.
pub open spec fn distance2(a: Contact, b: Contact) -> int {
    (a.x - b.x) * (a.x - b.x) + (a.y - b.y) * (a.y - b.y)
}

/// Squared distance of the first two card contacts and centroid of all of them,
/// when there are two or more.
pub open spec fn two_fingers(contacts: Seq<Contact>) -> Option<(i128, Mean)> {
    let c = cards(contacts);
    if c.len() < 2 {
        None
    } else {
        Some(
            (
                distance2(c[0], c[1]) as i128,
                Mean { sum: sum_y(c) as i128, count: c.len() as i128 },
            ),
        )
    }
}

/// The roots of two squared distances differ by more than the pinch threshold `t`:
/// `hi > lo + 2 t sqrt(lo) + t * t`, without the root.
pub open spec fn apart(a: int, b: int, t: int) -> bool {
    let (hi, lo) = if a >= b {
        (a, b)
    } else {
        (b, a)
    };
    let rest = hi - lo - t * t;
    rest > 0 && rest * rest > 4 * t * t * lo
}

/// Travel from one mean to another, multiplied by `scale`.
pub open spec fn travel(from: Mean, to: Mean) -> int {
    to.sum * from.count - from.sum * to.count
}

/// What `travel` is multiplied by.
pub open spec fn scale(from: Mean, to: Mean) -> int {
    from.count * to.count
}

/// The number without its sign.
pub open spec fn size(n: int) -> int {
    if n < 0 {
        -n
    } else {
        n
    }
}

/// The scroll for a travel of `t / n` pixels: against the travel, cut to whole pixels.
pub open spec fn scrolled(t: int, n: int) -> CardGesture {
    let whole = size(t) / n;
    CardGesture::ScrollStep(
        saturated(
            if t <= 0 {
                whole
            } else {
                -whole
            },
        ) as i32,
    )
}

/// The contacts that the gesture was measured by, in order.
pub open spec fn leads(contacts: Seq<Contact>) -> Seq<Contact>
    decreases contacts.len(),
{
    if contacts.len() == 0 {
        Seq::empty()
    } else if contacts.last().lead {
        leads(contacts.drop_last()).push(contacts.last())
    } else {
        leads(contacts.drop_last())
    }
}

/// How far the contacts have travelled down, all together.
pub open spec fn drift(contacts: Seq<Contact>) -> int
    decreases contacts.len(),
{
    if contacts.len() == 0 {
        0
    } else {
        drift(contacts.drop_last()) + (contacts.last().y - contacts.last().start_y)
    }
}

/// Fingers with squared distances `start` and then `d2` have zoomed: the ratio of the
/// distances left the band between the two ratios.
pub open spec fn zoomed(start: int, d2: int) -> bool {
    start > 1 && (d2 * 10_000 > RATIO_IN * RATIO_IN * start || d2 * 10_000 < RATIO_OUT
        * RATIO_OUT * start)
}

/// What fingers that sent no motion did, with `start` the squared distance at first:
/// a pinch where the two that it was measured by ended at a zoomed distance, else a
/// scroll where two fingers or more travelled far enough in the mean.
pub open spec fn unseen(start: i128, ended: Seq<Contact>) -> CardGesture {
    let pair = leads(ended);
    let n = ended.len() as int;
    if pair.len() == 2 && zoomed(start as int, distance2(pair[0], pair[1])) {
        CardGesture::PinchEnd {
            last_d2: distance2(pair[0], pair[1]) as i128,
            start_d2: start,
        }
    } else if n >= 2 && size(drift(ended)) >= RELEASE_SCROLL_MIN_PX * n {
        scrolled(drift(ended), n)
    } else {
        CardGesture::Nothing
    }
}

// ------------------------------------------------------------------- model


/// A contact with this number is down.
pub open spec fn is_down(contacts: Seq<Contact>, id: i32) -> bool {
    exists|i: int| 0 <= i < contacts.len() && #[trigger] contacts[i].id == id
}

/// The contacts with the one of this number moved.
pub open spec fn moved_to(contacts: Seq<Contact>, id: i32, x: i32, y: i32) -> Seq<Contact> {
    contacts.map_values(
        |c: Contact|
            if c.id == id {
                Contact { x, y, ..c }
            } else {
                c
            },
    )
}

/// The contacts without those of this number.
pub open spec fn lifted(contacts: Seq<Contact>, id: i32) -> Seq<Contact>
    decreases contacts.len(),
{
    if contacts.len() == 0 {
        contacts
    } else if contacts.last().id == id {
        lifted(contacts.drop_last(), id)
    } else {
        lifted(contacts.drop_last(), id).push(contacts.last())
    }
}

/// The card contacts of this number.
pub open spec fn leaving(contacts: Seq<Contact>, id: i32) -> Seq<Contact>
    decreases contacts.len(),
{
    if contacts.len() == 0 {
        contacts
    } else if contacts.last().id == id && contacts.last().card {
        leaving(contacts.drop_last(), id).push(contacts.last())
    } else {
        leaving(contacts.drop_last(), id)
    }
}

/// The contacts with the travel of the card contacts counted from here.
pub open spec fn anchored(contacts: Seq<Contact>) -> Seq<Contact> {
    contacts.map_values(
        |c: Contact|
            if c.card {
                Contact { start_y: c.y, lead: true, ..c }
            } else {
                c
            },
    )
}

/// No mean.
pub open spec fn level() -> Mean {
    Mean { sum: 0, count: 1 }
}

/// A recognizer between two gestures.
pub open spec fn at_rest() -> Touch {
    Touch {
        contacts: Seq::empty(),
        peak_card: 0,
        mode: Mode::Undecided,
        start_d2: 0,
        last_d2: 0,
        start_cy: level(),
        applied_cy: level(),
        moved: false,
        ended: Seq::empty(),
    }
}

/// A mean of at most as many rows as there are contact numbers.
pub open spec fn sound(m: Mean) -> bool {
    &&& 1 <= m.count <= 0x1_0000_0000
    &&& -0x8000_0000 * m.count <= m.sum <= 0x8000_0000 * m.count
}

impl Touch {
    /// What every operation keeps: contact numbers are distinct, the peak covers
    /// the present card contacts, motion and a decided mode go together, and a
    /// recognizer without contacts is at rest.
    pub open spec fn valid(self) -> bool {
        &&& distinct(self.contacts)
        &&& cards(self.contacts).len() <= self.peak_card
        &&& self.moved == (self.mode != Mode::Undecided)
        &&& self.contacts.len() == 0 ==> self == at_rest()
        &&& 0 <= self.start_d2 <= 0x2_0000_0000_0000_0000
        &&& 0 <= self.last_d2 <= 0x2_0000_0000_0000_0000
        &&& sound(self.start_cy)
        &&& sound(self.applied_cy)
    }

    /// A gesture of two or more fingers is going on.
    pub open spec fn busy(self) -> bool {
        cards(self.contacts).len() >= 2 || self.peak_card >= 2 && self.contacts.len() > 0
    }

    /// At rest once the last contact is gone.
    pub open spec fn settled(self) -> Touch {
        if self.contacts.len() == 0 {
            at_rest()
        } else {
            self
        }
    }

    /// The second card contact came down: the gesture is measured from here.
    pub open spec fn measured(self) -> Touch {
        match two_fingers(self.contacts) {
            Some((d2, cy)) => Touch {
                contacts: anchored(self.contacts),
                start_d2: d2,
                last_d2: d2,
                start_cy: cy,
                applied_cy: cy,
                mode: Mode::Undecided,
                moved: false,
                ended: Seq::empty(),
                ..self
            },
            None => self,
        }
    }

    /// What two-finger motion decides while it is undecided: a pinch where the
    /// distance has changed enough, else a scroll where the centroid has.
    pub open spec fn decided(self, d2: i128, cy: Mean) -> Mode {
        if self.mode != Mode::Undecided {
            self.mode
        } else if apart(d2 as int, self.start_d2 as int, PINCH_THRESHOLD_PX as int) {
            Mode::Pinch
        } else if size(travel(self.start_cy, cy)) > SCROLL_THRESHOLD_PX * scale(
            self.start_cy,
            cy,
        ) {
            Mode::Scroll
        } else {
            Mode::Undecided
        }
    }

    /// Two-finger motion: decides the mode once, then gives a scroll step whenever
    /// the centroid has travelled far enough since the last.
    pub open spec fn in_motion(self) -> (Touch, CardGesture) {
        match two_fingers(self.contacts) {
            None => (self, CardGesture::Nothing),
            Some((d2, cy)) => {
                let mode = self.decided(d2, cy);
                let next = Touch {
                    last_d2: d2,
                    mode,
                    moved: mode != Mode::Undecided,
                    ..self
                };
                if mode == Mode::Scroll && size(travel(self.applied_cy, cy)) >= SCROLL_STEP_PX
                    * scale(self.applied_cy, cy) {
                    (
                        Touch { applied_cy: cy, ..next },
                        scrolled(travel(self.applied_cy, cy), scale(self.applied_cy, cy)),
                    )
                } else {
                    (next, CardGesture::Nothing)
                }
            },
        }
    }

    /// A press: the first of its contact, or a motion of a contact that is down.
    pub open spec fn pressed(self, id: i32, x: i32, y: i32, in_card: bool) -> (Touch, Feed) {
        if is_down(self.contacts, id) {
            let (next, gesture) = Touch {
                contacts: moved_to(self.contacts, id, x, y),
                ..self
            }.in_motion();
            (next, Feed { gesture, new_contact: false })
        } else {
            let contacts = self.contacts.push(
                Contact { id, x, y, card: in_card, start_y: y, lead: false },
            );
            let now = cards(contacts).len();
            let next = Touch {
                contacts,
                peak_card: if now > self.peak_card {
                    now
                } else {
                    self.peak_card
                },
                ..self
            };
            (
                if in_card && now == 2 {
                    next.measured()
                } else {
                    next
                },
                Feed { gesture: CardGesture::Nothing, new_contact: true },
            )
        }
    }

    /// What the gesture was, now that the last finger is gone.
    pub open spec fn concluded(self) -> CardGesture {
        if self.peak_card < 2 {
            CardGesture::Nothing
        } else if !self.moved {
            unseen(self.start_d2, self.ended)
        } else if self.mode == Mode::Pinch && self.start_d2 > 1 {
            CardGesture::PinchEnd { last_d2: self.last_d2, start_d2: self.start_d2 }
        } else {
            CardGesture::Nothing
        }
    }

    /// A release: the final geometry is noted while the contact still counts, then
    /// the contact goes, and a card contact is kept with its end position; the last
    /// one concludes the gesture.
    pub open spec fn released(self, id: i32, x: i32, y: i32) -> (Touch, Feed) {
        let contacts = moved_to(self.contacts, id, x, y);
        let noted = match two_fingers(contacts) {
            Some((d2, cy)) => Touch {
                last_d2: d2,
                applied_cy: if self.moved {
                    self.applied_cy
                } else {
                    cy
                },
                ..self
            },
            None => self,
        };
        let gone = Touch {
            contacts: lifted(contacts, id),
            ended: self.ended + leaving(contacts, id),
            ..noted
        };
        if gone.contacts.len() > 0 {
            (gone, Feed { gesture: CardGesture::Nothing, new_contact: false })
        } else {
            (at_rest(), Feed { gesture: gone.concluded(), new_contact: false })
        }
    }

    /// One touch event.
    pub open spec fn fed(self, ty: i32, id: i32, x: i32, y: i32, in_card: bool) -> (Touch, Feed) {
        if ty == INPUT_TOUCH_PRESS {
            self.pressed(id, x, y, in_card)
        } else if ty == INPUT_TOUCH_UPDATE {
            let (next, gesture) = Touch {
                contacts: moved_to(self.contacts, id, x, y),
                ..self
            }.in_motion();
            (next, Feed { gesture, new_contact: false })
        } else if ty == INPUT_TOUCH_RELEASE {
            self.released(id, x, y)
        } else {
            (self, Feed { gesture: CardGesture::Nothing, new_contact: false })
        }
    }
}

// --------------------------------------------------------------- proof help

/// No two contacts share a number.
pub open spec fn distinct(contacts: Seq<Contact>) -> bool {
    forall|i: int, j: int|
        0 <= i < j < contacts.len() ==> (#[trigger] contacts[i]).id != (#[trigger] contacts[j]).id
}

/// There are no more contacts than contact numbers.
proof fn lemma_few(contacts: Seq<Contact>)
    requires
        distinct(contacts),
    ensures
        contacts.len() <= 0x1_0000_0000,
{
    let ids: Seq<int> = contacts.map_values(|c: Contact| c.id as int);
    assert(ids.no_duplicates()) by {
        assert forall|i: int, j: int| 0 <= i < ids.len() && 0 <= j < ids.len() && i != j implies
            ids[i] != ids[j] by {
            if i < j {
                assert(contacts[i].id != contacts[j].id);
            } else {
                assert(contacts[j].id != contacts[i].id);
            }
        }
    }
    ids.unique_seq_to_set();
    let all = vstd::set_lib::set_int_range(-0x8000_0000, 0x8000_0000);
    vstd::set_lib::lemma_int_range(-0x8000_0000, 0x8000_0000);
    assert(ids.to_set().subset_of(all)) by {
        assert forall|n: int| ids.to_set().contains(n) implies all.contains(n) by {
            let i = choose|i: int| 0 <= i < ids.len() && ids[i] == n;
            assert(ids[i] == contacts[i].id);
        }
    }
    vstd::set_lib::lemma_len_subset(ids.to_set(), all);
}

proof fn lemma_cards_len(contacts: Seq<Contact>)
    ensures
        cards(contacts).len() <= contacts.len(),
    decreases contacts.len(),
{
    if contacts.len() > 0 {
        lemma_cards_len(contacts.drop_last());
    }
}

proof fn lemma_cards_push(contacts: Seq<Contact>, c: Contact)
    ensures
        cards(contacts.push(c)) == (if c.card {
            cards(contacts).push(c)
        } else {
            cards(contacts)
        }),
{
    assert(contacts.push(c).drop_last() =~= contacts);
}

proof fn lemma_sum_push(contacts: Seq<Contact>, c: Contact)
    ensures
        sum_y(contacts.push(c)) == sum_y(contacts) + c.y,
{
    assert(contacts.push(c).drop_last() =~= contacts);
}

proof fn lemma_sum_bound(contacts: Seq<Contact>)
    ensures
        -0x8000_0000 * contacts.len() <= sum_y(contacts) <= 0x8000_0000 * contacts.len(),
    decreases contacts.len(),
{
    if contacts.len() > 0 {
        lemma_sum_bound(contacts.drop_last());
    }
}

proof fn lemma_leads_push(contacts: Seq<Contact>, c: Contact)
    ensures
        leads(contacts.push(c)) == (if c.lead {
            leads(contacts).push(c)
        } else {
            leads(contacts)
        }),
{
    assert(contacts.push(c).drop_last() =~= contacts);
}

proof fn lemma_drift_push(contacts: Seq<Contact>, c: Contact)
    ensures
        drift(contacts.push(c)) == drift(contacts) + (c.y - c.start_y),
{
    assert(contacts.push(c).drop_last() =~= contacts);
}

/// Counting the travel from here keeps the numbers and who takes part.
proof fn lemma_anchored(contacts: Seq<Contact>)
    requires
        distinct(contacts),
    ensures
        distinct(anchored(contacts)),
        cards(anchored(contacts)).len() == cards(contacts).len(),
    decreases contacts.len(),
{
    let m = anchored(contacts);
    assert forall|i: int, j: int| 0 <= i < j < m.len() implies (#[trigger] m[i]).id != (
    #[trigger] m[j]).id by {
        assert(contacts[i].id != contacts[j].id);
    }
    if contacts.len() > 0 {
        lemma_anchored(contacts.drop_last());
        assert(m.drop_last() =~= anchored(contacts.drop_last()));
    }
}

/// Moving a contact keeps the numbers and who takes part.
proof fn lemma_moved_to(contacts: Seq<Contact>, id: i32, x: i32, y: i32)
    requires
        distinct(contacts),
    ensures
        distinct(moved_to(contacts, id, x, y)),
        cards(moved_to(contacts, id, x, y)).len() == cards(contacts).len(),
    decreases contacts.len(),
{
    let m = moved_to(contacts, id, x, y);
    assert forall|i: int, j: int| 0 <= i < j < m.len() implies (#[trigger] m[i]).id != (
    #[trigger] m[j]).id by {
        assert(contacts[i].id != contacts[j].id);
    }
    if contacts.len() > 0 {
        lemma_moved_to(contacts.drop_last(), id, x, y);
        assert(m.drop_last() =~= moved_to(contacts.drop_last(), id, x, y));
    }
}

proof fn lemma_lifted_absent(contacts: Seq<Contact>, id: i32)
    requires
        !is_down(contacts, id),
    ensures
        lifted(contacts, id) == contacts,
        leaving(contacts, id) == Seq::<Contact>::empty(),
    decreases contacts.len(),
{
    if contacts.len() > 0 {
        let rest = contacts.drop_last();
        assert forall|i: int| 0 <= i < rest.len() implies #[trigger] rest[i].id != id by {
            assert(contacts[i].id != id);
        }
        lemma_lifted_absent(rest, id);
        assert(contacts.last().id != id);
        assert(rest.push(contacts.last()) =~= contacts);
    }
}

proof fn lemma_lifted(contacts: Seq<Contact>, id: i32, i: int)
    requires
        distinct(contacts),
        0 <= i < contacts.len(),
        contacts[i].id == id,
    ensures
        lifted(contacts, id) == contacts.remove(i),
        leaving(contacts, id) == (if contacts[i].card {
            seq![contacts[i]]
        } else {
            Seq::empty()
        }),
        distinct(contacts.remove(i)),
        cards(contacts.remove(i)).len() <= cards(contacts).len(),
    decreases contacts.len(),
{
    let rest = contacts.drop_last();
    if i == contacts.len() - 1 {
        assert forall|k: int| 0 <= k < rest.len() implies #[trigger] rest[k].id != id by {
            assert(contacts[k].id != contacts[i].id);
        }
        lemma_lifted_absent(rest, id);
        assert(contacts.remove(i) =~= rest);
        assert(Seq::<Contact>::empty().push(contacts[i]) =~= seq![contacts[i]]);
    } else {
        assert(contacts[i].id != contacts.last().id);
        lemma_lifted(rest, id, i);
        assert(contacts.remove(i) =~= rest.remove(i).push(contacts.last()));
        lemma_cards_push(rest.remove(i), contacts.last());
    }
}

/// Travel and scale of sound means stay far from the limits of the arithmetic.
proof fn lemma_travel(from: Mean, to: Mean)
    requires
        sound(from),
        sound(to),
    ensures
        size(travel(from, to)) <= 0x1_0000_0000_0000_0000_0000_0000,
        1 <= scale(from, to) <= 0x1_0000_0000_0000_0000,
        size(to.sum * from.count) <= 0x8000_0000_0000_0000_0000_0000,
        size(from.sum * to.count) <= 0x8000_0000_0000_0000_0000_0000,
{
    assert(1 <= from.count * to.count <= 0x1_0000_0000 * 0x1_0000_0000) by (nonlinear_arith)
        requires
            1 <= from.count <= 0x1_0000_0000,
            1 <= to.count <= 0x1_0000_0000,
    ;
    assert(-0x8000_0000_0000_0000 * 0x1_0000_0000 <= to.sum * from.count <= 0x8000_0000_0000_0000
        * 0x1_0000_0000) by (nonlinear_arith)
        requires
            -0x8000_0000_0000_0000 <= to.sum <= 0x8000_0000_0000_0000,
            1 <= from.count <= 0x1_0000_0000,
    ;
    assert(-0x8000_0000_0000_0000 * 0x1_0000_0000 <= from.sum * to.count <= 0x8000_0000_0000_0000
        * 0x1_0000_0000) by (nonlinear_arith)
        requires
            -0x8000_0000_0000_0000 <= from.sum <= 0x8000_0000_0000_0000,
            1 <= to.count <= 0x1_0000_0000,
    ;
}

/// One more contact, if it started in the card band.
spec fn joined(ended: Seq<Contact>, c: Contact) -> Seq<Contact> {
    if c.card {
        ended.push(c)
    } else {
        ended
    }
}

/// The order of the last two contacts does not count.
proof fn lemma_unseen_swapped(start: i128, ended: Seq<Contact>, a: Contact, b: Contact)
    ensures
        unseen(start, joined(joined(ended, a), b)) == unseen(start, joined(joined(ended, b), a)),
{
    if a.card && b.card {
        lemma_leads_push(ended, a);
        lemma_leads_push(ended.push(a), b);
        lemma_leads_push(ended, b);
        lemma_leads_push(ended.push(b), a);
        lemma_drift_push(ended, a);
        lemma_drift_push(ended.push(a), b);
        lemma_drift_push(ended, b);
        lemma_drift_push(ended.push(b), a);
        assert(distance2(a, b) == distance2(b, a)) by {
            lemma_square_of_opposite(a.x - b.x);
            lemma_square_of_opposite(a.y - b.y);
        }
    }
}

proof fn lemma_square_of_opposite(d: int)
    ensures
        d * d == (-d) * (-d),
{
    assert(d * d == (-d) * (-d)) by (nonlinear_arith);
}

/// The one contact that is down lifts.
proof fn lemma_last_release(t: Touch, x: i32, y: i32)
    requires
        t.valid(),
        t.contacts.len() == 1,
    ensures
        t.released(t.contacts[0].id, x, y) == (
            at_rest(),
            Feed {
                gesture: Touch {
                    contacts: Seq::empty(),
                    ended: joined(t.ended, Contact { x, y, ..t.contacts[0] }),
                    ..t
                }.concluded(),
                new_contact: false,
            },
        ),
{
    let c = t.contacts[0];
    let m = moved_to(t.contacts, c.id, x, y);
    lemma_moved_to(t.contacts, c.id, x, y);
    lemma_cards_len(m);
    lemma_lifted(m, c.id, 0);
    assert(m[0] == Contact { x, y, ..c });
    assert(m.remove(0) =~= Seq::<Contact>::empty());
    assert(t.ended + leaving(m, c.id) =~= joined(t.ended, m[0]));
}

/// One of the two contacts that are down lifts.
proof fn lemma_first_release(t: Touch, i: int, x: i32, y: i32)
    requires
        t.valid(),
        t.contacts.len() == 2,
        0 <= i < 2,
    ensures
        ({
            let c = Contact { x, y, ..t.contacts[i] };
            let after = t.released(t.contacts[i].id, x, y).0;
            &&& after.valid()
            &&& after.contacts == seq![t.contacts[1 - i]]
            &&& after.ended == joined(t.ended, c)
            &&& after.peak_card == t.peak_card
            &&& after.mode == t.mode
            &&& after.moved == t.moved
            &&& after.start_d2 == t.start_d2
            &&& after.last_d2 == (match two_fingers(t.contacts.update(i, c)) {
                Some((d2, cy)) => d2,
                None => t.last_d2,
            })
        }),
{
    let c = Contact { x, y, ..t.contacts[i] };
    let id = c.id;
    let m = moved_to(t.contacts, id, x, y);
    lemma_moved_to(t.contacts, id, x, y);
    assert(t.contacts[0].id != t.contacts[1].id);
    assert(m =~= t.contacts.update(i, c));
    lemma_lifted(m, id, i);
    assert(m.remove(i) =~= seq![t.contacts[1 - i]]);
    assert(t.ended + leaving(m, id) =~= joined(t.ended, c));
    lemma_two_fingers(m);
}

/// What two contacts or more measure stays in bounds.
proof fn lemma_two_fingers(contacts: Seq<Contact>)
    requires
        distinct(contacts),
    ensures
        two_fingers(contacts) matches Some((d2, cy)) ==> 0 <= d2 <= 0x2_0000_0000_0000_0000
            && sound(cy),
{
    let c = cards(contacts);
    lemma_few(contacts);
    lemma_cards_len(contacts);
    lemma_sum_bound(c);
    if c.len() >= 2 {
        lemma_square_bound(c[0].x - c[1].x);
        lemma_square_bound(c[0].y - c[1].y);
    }
}

proof fn lemma_square_bound(d: int)
    requires
        -0x1_0000_0000 <= d <= 0x1_0000_0000,
    ensures
        0 <= d * d <= 0x1_0000_0000_0000_0000,
{
    assert(0 <= d * d <= 0x1_0000_0000 * 0x1_0000_0000) by (nonlinear_arith)
        requires
            -0x1_0000_0000 <= d <= 0x1_0000_0000,
    ;
}

// -------------------------------------------------------------- computation

fn square(d: i128) -> (q: i128)
    requires
        -0x1_0000_0000 <= d <= 0x1_0000_0000,
    ensures
        q == d * d,
        0 <= q <= 0x1_0000_0000_0000_0000,
{
    proof {
        lemma_square_bound(d as int);
    }
    d * d
}

fn card_down(contacts: &Vec<Contact>) -> (n: usize)
    ensures
        n == cards(contacts@).len(),
        n <= contacts@.len(),
{
    let mut n: usize = 0;
    let mut i: usize = 0;
    while i < contacts.len()
        invariant
            i <= contacts@.len(),
            n <= i,
            n == cards(contacts@.take(i as int)).len(),
        decreases contacts@.len() - i,
    {
        proof {
            assert(contacts@.take(i + 1) =~= contacts@.take(i as int).push(contacts@[i as int]));
            lemma_cards_push(contacts@.take(i as int), contacts@[i as int]);
        }
        if contacts[i].card {
            n += 1;
        }
        i += 1;
    }
    assert(contacts@.take(i as int) =~= contacts@);
    n
}

fn nobody() -> Contact {
    Contact { id: 0, x: 0, y: 0, card: false, start_y: 0, lead: false }
}

fn two_finger_state(contacts: &Vec<Contact>) -> (r: Option<(i128, Mean)>)
    requires
        distinct(contacts@),
    ensures
        r == two_fingers(contacts@),
        r matches Some((d2, cy)) ==> 0 <= d2 <= 0x2_0000_0000_0000_0000 && sound(cy),
{
    let mut first: Contact = nobody();
    let mut second: Contact = first;
    let mut sum: i128 = 0;
    let mut n: i128 = 0;
    let mut i: usize = 0;
    proof {
        lemma_few(contacts@);
    }
    while i < contacts.len()
        invariant
            i <= contacts@.len() <= 0x1_0000_0000,
            0 <= n <= i,
            n == cards(contacts@.take(i as int)).len(),
            n >= 1 ==> first == cards(contacts@.take(i as int))[0],
            n >= 2 ==> second == cards(contacts@.take(i as int))[1],
            sum == sum_y(cards(contacts@.take(i as int))),
            -0x8000_0000 * n <= sum <= 0x8000_0000 * n,
        decreases contacts@.len() - i,
    {
        let c: Contact = contacts[i];
        proof {
            assert(contacts@.take(i + 1) =~= contacts@.take(i as int).push(c));
            lemma_cards_push(contacts@.take(i as int), c);
            lemma_sum_push(cards(contacts@.take(i as int)), c);
        }
        if c.card {
            if n == 0 {
                first = c;
            } else if n == 1 {
                second = c;
            }
            sum = sum + c.y as i128;
            n = n + 1;
        }
        i += 1;
    }
    assert(contacts@.take(i as int) =~= contacts@);
    if n < 2 {
        None
    } else {
        let d2: i128 = square(first.x as i128 - second.x as i128) + square(
            first.y as i128 - second.y as i128,
        );
        Some((d2, Mean { sum, count: n }))
    }
}

fn is_apart(a: i128, b: i128) -> (r: bool)
    requires
        0 <= a <= 0x2_0000_0000_0000_0000,
        0 <= b <= 0x2_0000_0000_0000_0000,
    ensures
        r == apart(a as int, b as int, PINCH_THRESHOLD_PX as int),
{
    let (hi, lo): (i128, i128) = if a >= b {
        (a, b)
    } else {
        (b, a)
    };
    let rest: i128 = hi - lo - PINCH_THRESHOLD_PX * PINCH_THRESHOLD_PX;
    if rest <= 0 {
        return false;
    }
    let edge: i128 = 4 * PINCH_THRESHOLD_PX * PINCH_THRESHOLD_PX * lo;
    assert(edge == 78_400 * lo);
    if rest >= 0x1_0000_0000_0000 {
        assert(rest * rest >= 0x1_0000_0000_0000_0000_0000_0000) by (nonlinear_arith)
            requires
                rest >= 0x1_0000_0000_0000,
        ;
        return true;
    }
    assert(0 <= rest * rest <= 0x1_0000_0000_0000_0000_0000_0000) by (nonlinear_arith)
        requires
            0 <= rest <= 0x1_0000_0000_0000,
    ;
    rest * rest > edge
}

/// Travel and scale between two means.
fn measure(from: Mean, to: Mean) -> (r: (i128, i128))
    requires
        sound(from),
        sound(to),
    ensures
        r.0 == travel(from, to),
        r.1 == scale(from, to),
        size(r.0 as int) <= 0x1_0000_0000_0000_0000_0000_0000,
        1 <= r.1 <= 0x1_0000_0000_0000_0000,
{
    proof {
        lemma_travel(from, to);
    }
    (to.sum * from.count - from.sum * to.count, from.count * to.count)
}

fn magnitude(n: i128) -> (m: i128)
    requires
        n > i128::MIN,
    ensures
        m == size(n as int),
{
    if n < 0 {
        -n
    } else {
        n
    }
}

fn scroll(t: i128, n: i128) -> (g: CardGesture)
    requires
        size(t as int) <= 0x1_0000_0000_0000_0000_0000_0000,
        1 <= n,
    ensures
        g == scrolled(t as int, n as int),
{
    let whole: i128 = magnitude(t) / n;
    assert(0 <= whole <= size(t as int)) by (nonlinear_arith)
        requires
            whole == size(t as int) / (n as int),
            0 <= size(t as int),
            1 <= n,
    ;
    let dy: i128 = if t <= 0 {
        whole
    } else {
        -whole
    };
    CardGesture::ScrollStep(crate::whiteboard::saturate(dy))
}

/// Counts the travel of the card contacts from where they are.
fn anchor(contacts: &mut Vec<Contact>)
    ensures
        final(contacts)@ == anchored(old(contacts)@),
{
    let ghost before = contacts@;
    let mut i: usize = 0;
    while i < contacts.len()
        invariant
            i <= contacts@.len() == before.len(),
            forall|k: int| 0 <= k < i ==> #[trigger] contacts@[k] == anchored(before)[k],
            forall|k: int| i <= k < contacts@.len() ==> #[trigger] contacts@[k] == before[k],
        decreases contacts@.len() - i,
    {
        let c: Contact = contacts[i];
        if c.card {
            contacts.set(i, Contact { start_y: c.y, lead: true, ..c });
        }
        i += 1;
    }
    assert(contacts@ =~= anchored(before));
}

/// Squared distance of the two leading contacts, when there are two.
fn lead_distance(contacts: &Vec<Contact>) -> (r: Option<i128>)
    ensures
        r is Some == (leads(contacts@).len() == 2),
        r matches Some(d2) ==> d2 == distance2(leads(contacts@)[0], leads(contacts@)[1]),
        r matches Some(d2) ==> 0 <= d2 <= 0x2_0000_0000_0000_0000,
{
    let mut first: Contact = nobody();
    let mut second: Contact = first;
    let mut n: usize = 0;
    let mut i: usize = 0;
    while i < contacts.len()
        invariant
            i <= contacts@.len(),
            n <= i,
            n == leads(contacts@.take(i as int)).len(),
            n >= 1 ==> first == leads(contacts@.take(i as int))[0],
            n >= 2 ==> second == leads(contacts@.take(i as int))[1],
        decreases contacts@.len() - i,
    {
        let c: Contact = contacts[i];
        proof {
            assert(contacts@.take(i + 1) =~= contacts@.take(i as int).push(c));
            lemma_leads_push(contacts@.take(i as int), c);
        }
        if c.lead {
            if n == 0 {
                first = c;
            } else if n == 1 {
                second = c;
            }
            n += 1;
        }
        i += 1;
    }
    assert(contacts@.take(i as int) =~= contacts@);
    if n == 2 {
        Some(
            square(first.x as i128 - second.x as i128) + square(
                first.y as i128 - second.y as i128,
            ),
        )
    } else {
        None
    }
}

fn is_zoom(start: i128, d2: i128) -> (r: bool)
    requires
        0 <= start <= 0x2_0000_0000_0000_0000,
        0 <= d2 <= 0x2_0000_0000_0000_0000,
    ensures
        r == zoomed(start as int, d2 as int),
{
    let most: i128 = RATIO_IN * RATIO_IN;
    let least: i128 = RATIO_OUT * RATIO_OUT;
    assert(most == 13_225 && least == 7_569);
    start > 1 && (d2 * 10_000 > most * start || d2 * 10_000 < least * start)
}

fn drift_of(contacts: &Vec<Contact>) -> (t: i128)
    ensures
        t == drift(contacts@),
        size(t as int) <= 0x1_0000_0000 * contacts@.len(),
{
    let mut t: i128 = 0;
    let mut i: usize = 0;
    while i < contacts.len()
        invariant
            i <= contacts@.len(),
            t == drift(contacts@.take(i as int)),
            size(t as int) <= 0x1_0000_0000 * i,
        decreases contacts@.len() - i,
    {
        let c: Contact = contacts[i];
        proof {
            assert(contacts@.take(i + 1) =~= contacts@.take(i as int).push(c));
            lemma_drift_push(contacts@.take(i as int), c);
        }
        t = t + (c.y as i128 - c.start_y as i128);
        i += 1;
    }
    assert(contacts@.take(i as int) =~= contacts@);
    t
}

/// The gesture recognizer.
pub struct CardTouch {
    contacts: Vec<Contact>,
    peak_card: usize,
    mode: Mode,
    start_d2: i128,
    last_d2: i128,
    start_cy: Mean,
    applied_cy: Mean,
    moved: bool,
    ended: Vec<Contact>,
}

impl View for CardTouch {
    type V = Touch;

    closed spec fn view(&self) -> Touch {
        Touch {
            contacts: self.contacts@,
            peak_card: self.peak_card as nat,
            mode: self.mode,
            start_d2: self.start_d2,
            last_d2: self.last_d2,
            start_cy: self.start_cy,
            applied_cy: self.applied_cy,
            moved: self.moved,
            ended: self.ended@,
        }
    }
}

impl Default for CardTouch {
    fn default() -> (t: Self)
        ensures
            t@ == at_rest(),
    {
        CardTouch::new()
    }
}

impl CardTouch {
    /// A recognizer with no finger down.
    pub fn new() -> (t: Self)
        ensures
            t@ == at_rest(),
            t@.valid(),
    {
        let t: CardTouch = CardTouch {
            contacts: Vec::new(),
            peak_card: 0,
            mode: Mode::Undecided,
            start_d2: 0,
            last_d2: 0,
            start_cy: Mean { sum: 0, count: 1 },
            applied_cy: Mean { sum: 0, count: 1 },
            moved: false,
            ended: Vec::new(),
        };
        assert(t@ =~= at_rest());
        t
    }

    /// A gesture of two or more fingers is going on: two card contacts are down, or
    /// were and not all fingers have lifted.
    pub fn multi_active(&self) -> (b: bool)
        ensures
            b == (cards(self@.contacts).len() >= 2 || self@.peak_card >= 2
                && self@.contacts.len() > 0),
            b == self@.busy(),
    {
        card_down(&self.contacts) >= 2 || (self.peak_card >= 2 && self.contacts.len() > 0)
    }

    /// The contact is down.
    pub fn is_tracked(&self, dev_id: i32) -> (b: bool)
        ensures
            b == is_down(self@.contacts, dev_id),
    {
        self.find(dev_id) < self.contacts.len()
    }

    fn find(&self, id: i32) -> (i: usize)
        ensures
            i <= self.contacts@.len(),
            i < self.contacts@.len() ==> self.contacts@[i as int].id == id,
            (i < self.contacts@.len()) == is_down(self@.contacts, id),
    {
        let mut i: usize = 0;
        while i < self.contacts.len()
            invariant
                i <= self.contacts@.len(),
                forall|k: int| 0 <= k < i ==> (#[trigger] self.contacts@[k]).id != id,
            decreases self.contacts@.len() - i,
        {
            if self.contacts[i].id == id {
                assert(self@.contacts[i as int].id == id);
                return i;
            }
            i += 1;
        }
        i
    }

    /// Drops a contact whose events are ignored from now on.
    pub fn forget(&mut self, dev_id: i32)
        requires
            old(self)@.valid(),
        ensures
            final(self)@.valid(),
            final(self)@ == (Touch {
                contacts: lifted(old(self)@.contacts, dev_id),
                ..old(self)@
            }).settled(),
            !is_down(final(self)@.contacts, dev_id),
    {
        let i: usize = self.find(dev_id);
        if i < self.contacts.len() {
            proof {
                lemma_lifted(self.contacts@, dev_id, i as int);
            }
            self.contacts.remove(i);
        } else {
            proof {
                lemma_lifted_absent(self.contacts@, dev_id);
            }
        }
        proof {
            lemma_lifted_others(
                old(self).contacts@,
                dev_id,
                if dev_id == 0 {
                    1
                } else {
                    0
                },
            );
        }
        if self.contacts.len() == 0 {
            *self = CardTouch::new();
        }
    }

    /// Notes where a contact is now.
    fn relocate(&mut self, id: i32, x: i32, y: i32)
        requires
            old(self)@.valid(),
        ensures
            final(self)@.valid(),
            final(self)@ == (Touch {
                contacts: moved_to(old(self)@.contacts, id, x, y),
                ..old(self)@
            }),
    {
        let ghost before = self@;
        let i: usize = self.find(id);
        proof {
            lemma_moved_to(before.contacts, id, x, y);
        }
        if i < self.contacts.len() {
            let c: Contact = self.contacts[i];
            self.contacts.set(i, Contact { x, y, ..c });
            proof {
                assert forall|k: int| 0 <= k < before.contacts.len() && k != i implies (
                #[trigger] before.contacts[k]).id != id by {
                    if k < i {
                        assert(before.contacts[k].id != before.contacts[i as int].id);
                    } else {
                        assert(before.contacts[i as int].id != before.contacts[k].id);
                    }
                }
                assert(self@.contacts =~= moved_to(before.contacts, id, x, y));
            }
        } else {
            assert(self@.contacts =~= moved_to(before.contacts, id, x, y)) by {
                assert forall|k: int| 0 <= k < before.contacts.len() implies (
                #[trigger] before.contacts[k]).id != id by {}
            }
        }
    }

    /// Takes one touch event. `in_card` tells whether the position lies in the card
    /// band; it matters for the first press of a contact.
    pub fn feed(&mut self, ty: i32, dev_id: i32, x: i32, y: i32, in_card: bool) -> (f: Feed)
        requires
            old(self)@.valid(),
        ensures
            final(self)@.valid(),
            (final(self)@, f) == old(self)@.fed(ty, dev_id, x, y, in_card),
    {
        if ty == INPUT_TOUCH_PRESS {
            if self.find(dev_id) < self.contacts.len() {
                self.relocate(dev_id, x, y);
                let gesture: CardGesture = self.on_motion();
                Feed { gesture, new_contact: false }
            } else {
                self.land(dev_id, x, y, in_card);
                Feed { gesture: CardGesture::Nothing, new_contact: true }
            }
        } else if ty == INPUT_TOUCH_UPDATE {
            self.relocate(dev_id, x, y);
            let gesture: CardGesture = self.on_motion();
            Feed { gesture, new_contact: false }
        } else if ty == INPUT_TOUCH_RELEASE {
            self.relocate(dev_id, x, y);
            let gesture: CardGesture = self.lift(dev_id);
            Feed { gesture, new_contact: false }
        } else {
            Feed { gesture: CardGesture::Nothing, new_contact: false }
        }
    }

    fn land(&mut self, id: i32, x: i32, y: i32, in_card: bool)
        requires
            old(self)@.valid(),
            !is_down(old(self)@.contacts, id),
        ensures
            final(self)@.valid(),
            final(self)@ == old(self)@.pressed(id, x, y, in_card).0,
    {
        let ghost before = self@;
        let c: Contact = Contact { id, x, y, card: in_card, start_y: y, lead: false };
        self.contacts.push(c);
        proof {
            lemma_cards_push(before.contacts, c);
            assert forall|i: int, j: int| 0 <= i < j < self@.contacts.len() implies (
            #[trigger] self@.contacts[i]).id != (#[trigger] self@.contacts[j]).id by {
                assert(before.contacts[i].id != id);
                if j < before.contacts.len() {
                    assert(before.contacts[i].id != before.contacts[j].id);
                }
            }
        }
        let now: usize = card_down(&self.contacts);
        if now > self.peak_card {
            self.peak_card = now;
        }
        if in_card && now == 2 {
            match two_finger_state(&self.contacts) {
                Some((d2, cy)) => {
                    self.start_d2 = d2;
                    self.last_d2 = d2;
                    self.start_cy = cy;
                    self.applied_cy = cy;
                    self.mode = Mode::Undecided;
                    self.moved = false;
                    self.ended = Vec::new();
                    proof {
                        lemma_anchored(self.contacts@);
                    }
                    anchor(&mut self.contacts);
                },
                None => {},
            }
        }
        assert(self@ =~= before.pressed(id, x, y, in_card).0);
    }

    fn on_motion(&mut self) -> (g: CardGesture)
        requires
            old(self)@.valid(),
        ensures
            final(self)@.valid(),
            (final(self)@, g) == old(self)@.in_motion(),
    {
        let (d2, cy): (i128, Mean) = match two_finger_state(&self.contacts) {
            Some(s) => s,
            None => return CardGesture::Nothing,
        };
        proof {
            lemma_travel(self.start_cy, cy);
            lemma_travel(self.applied_cy, cy);
        }
        self.last_d2 = d2;
        if self.mode == Mode::Undecided {
            let (t, n): (i128, i128) = measure(self.start_cy, cy);
            if is_apart(d2, self.start_d2) {
                self.mode = Mode::Pinch;
                self.moved = true;
            } else if magnitude(t) > SCROLL_THRESHOLD_PX * n {
                self.mode = Mode::Scroll;
                self.moved = true;
            }
        }
        if self.mode == Mode::Scroll {
            let (t, n): (i128, i128) = measure(self.applied_cy, cy);
            if magnitude(t) >= SCROLL_STEP_PX * n {
                let g: CardGesture = scroll(t, n);
                self.applied_cy = cy;
                return g;
            }
        }
        CardGesture::Nothing
    }

    fn lift(&mut self, id: i32) -> (g: CardGesture)
        requires
            old(self)@.valid(),
        ensures
            final(self)@.valid(),
            ({
                let noted = match two_fingers(old(self)@.contacts) {
                    Some((d2, cy)) => Touch {
                        last_d2: d2,
                        applied_cy: if old(self)@.moved {
                            old(self)@.applied_cy
                        } else {
                            cy
                        },
                        ..old(self)@
                    },
                    None => old(self)@,
                };
                let gone = Touch {
                    contacts: lifted(old(self)@.contacts, id),
                    ended: old(self)@.ended + leaving(old(self)@.contacts, id),
                    ..noted
                };
                if gone.contacts.len() > 0 {
                    final(self)@ == gone && g == CardGesture::Nothing
                } else {
                    final(self)@ == at_rest() && g == gone.concluded()
                }
            }),
    {
        match two_finger_state(&self.contacts) {
            Some((d2, cy)) => {
                self.last_d2 = d2;
                if !self.moved {
                    self.applied_cy = cy;
                }
            },
            None => {},
        }
        let ghost before = self@;
        let i: usize = self.find(id);
        if i < self.contacts.len() {
            proof {
                lemma_lifted(self.contacts@, id, i as int);
            }
            let c: Contact = self.contacts[i];
            if c.card {
                self.ended.push(c);
            }
            self.contacts.remove(i);
        } else {
            proof {
                lemma_lifted_absent(self.contacts@, id);
            }
        }
        assert(self.ended@ =~= before.ended + leaving(before.contacts, id));
        if self.contacts.len() > 0 {
            return CardGesture::Nothing;
        }
        let g: CardGesture = if self.peak_card < 2 {
            CardGesture::Nothing
        } else if !self.moved {
            self.classify_at_release()
        } else if self.mode == Mode::Pinch && self.start_d2 > 1 {
            CardGesture::PinchEnd { last_d2: self.last_d2, start_d2: self.start_d2 }
        } else {
            CardGesture::Nothing
        };
        *self = CardTouch::new();
        g
    }

    fn classify_at_release(&self) -> (g: CardGesture)
        requires
            0 <= self@.start_d2 <= 0x2_0000_0000_0000_0000,
        ensures
            g == unseen(self@.start_d2, self@.ended),
    {
        match lead_distance(&self.ended) {
            Some(d2) => if is_zoom(self.start_d2, d2) {
                return CardGesture::PinchEnd { last_d2: d2, start_d2: self.start_d2 };
            },
            None => {},
        }
        let t: i128 = drift_of(&self.ended);
        let n: i128 = self.ended.len() as i128;
        if n >= 2 && magnitude(t) >= RELEASE_SCROLL_MIN_PX * n {
            return scroll(t, n);
        }
        CardGesture::Nothing
    }
}

// -------------------------------------------------------------------- laws

/// Once every finger has lifted nothing of the gesture is left, so no later touch
/// is taken for a part of it.
pub proof fn law_no_contact_at_rest(t: Touch)
    requires
        t.valid(),
        t.contacts.len() == 0,
    ensures
        t == at_rest(),
        cards(t.contacts).len() < 2 && t.peak_card < 2,
{
}

/// A contact is new once for each touch: its first press reports it and makes it
/// known, and until it is lifted none of its presses reports it again.
pub proof fn law_press_reports_once(t: Touch, id: i32, x: i32, y: i32, in_card: bool)
    requires
        t.valid(),
    ensures
        t.fed(INPUT_TOUCH_PRESS, id, x, y, in_card).1.new_contact == !is_down(t.contacts, id),
        is_down(t.fed(INPUT_TOUCH_PRESS, id, x, y, in_card).0.contacts, id),
{
    let after = t.fed(INPUT_TOUCH_PRESS, id, x, y, in_card).0;
    if is_down(t.contacts, id) {
        let i = choose|i: int| 0 <= i < t.contacts.len() && #[trigger] t.contacts[i].id == id;
        assert(after.contacts[i].id == id);
    } else {
        assert(after.contacts[t.contacts.len() as int].id == id);
    }
}

/// An event of one contact neither adds nor removes another.
pub proof fn law_others_stay_down(
    t: Touch,
    ty: i32,
    id: i32,
    x: i32,
    y: i32,
    in_card: bool,
    other: i32,
)
    requires
        t.valid(),
        other != id,
    ensures
        is_down(t.fed(ty, id, x, y, in_card).0.contacts, other) == is_down(t.contacts, other),
{
    let after = t.fed(ty, id, x, y, in_card).0;
    let m = moved_to(t.contacts, id, x, y);
    lemma_moved_to(t.contacts, id, x, y);
    assert(is_down(m, other) == is_down(t.contacts, other)) by {
        if is_down(t.contacts, other) {
            let i = choose|i: int| 0 <= i < t.contacts.len() && #[trigger] t.contacts[i].id
                == other;
            assert(m[i].id == other);
        }
        if is_down(m, other) {
            let i = choose|i: int| 0 <= i < m.len() && #[trigger] m[i].id == other;
            assert(t.contacts[i].id == other);
        }
    }
    if ty == INPUT_TOUCH_PRESS && !is_down(t.contacts, id) {
        if is_down(t.contacts, other) {
            let i = choose|i: int| 0 <= i < t.contacts.len() && #[trigger] t.contacts[i].id
                == other;
            assert(after.contacts[i].id == other);
        }
        if is_down(after.contacts, other) {
            let i = choose|i: int| 0 <= i < after.contacts.len() && #[trigger] after.contacts[i].id
                == other;
            assert(t.contacts[i].id == other);
        }
    } else if ty == INPUT_TOUCH_RELEASE {
        lemma_lifted_others(m, id, other);
    }
}

proof fn lemma_lifted_others(contacts: Seq<Contact>, id: i32, other: i32)
    requires
        other != id,
    ensures
        is_down(lifted(contacts, id), other) == is_down(contacts, other),
        !is_down(lifted(contacts, id), id),
    decreases contacts.len(),
{
    if contacts.len() > 0 {
        let rest = contacts.drop_last();
        lemma_lifted_others(rest, id, other);
        let l = lifted(contacts, id);
        if is_down(rest, other) {
            let i = choose|i: int| 0 <= i < rest.len() && #[trigger] rest[i].id == other;
            assert(contacts[i].id == other);
        }
        if is_down(contacts, other) && contacts.last().id != other {
            let i = choose|i: int| 0 <= i < contacts.len() && #[trigger] contacts[i].id == other;
            assert(rest[i].id == other);
        }
        if contacts.last().id != id {
            let lr = lifted(rest, id);
            if is_down(lr, other) {
                let i = choose|i: int| 0 <= i < lr.len() && #[trigger] lr[i].id == other;
                assert(l[i].id == other);
            }
            if contacts.last().id == other {
                assert(l[l.len() - 1].id == other);
                assert(contacts[contacts.len() - 1].id == other);
            }
            if is_down(l, other) && contacts.last().id != other {
                let i = choose|i: int| 0 <= i < l.len() && #[trigger] l[i].id == other;
                assert(lr[i].id == other);
            }
            if is_down(l, id) {
                let i = choose|i: int| 0 <= i < l.len() && #[trigger] l[i].id == id;
                assert(lr[i].id == id);
            }
        }
    }
}

/// A release takes its contact away: the next press of that number is a new touch.
pub proof fn law_release_lifts(t: Touch, id: i32, x: i32, y: i32, in_card: bool)
    requires
        t.valid(),
    ensures
        !is_down(t.fed(INPUT_TOUCH_RELEASE, id, x, y, in_card).0.contacts, id),
{
    lemma_lifted_others(
        moved_to(t.contacts, id, x, y),
        id,
        if id == 0 {
            1
        } else {
            0
        },
    );
}

/// One finger makes no gesture: without two card contacts down at once, no event
/// gives one.
pub proof fn law_one_finger_no_gesture(
    t: Touch,
    ty: i32,
    id: i32,
    x: i32,
    y: i32,
    in_card: bool,
)
    requires
        t.valid(),
        t.peak_card < 2,
    ensures
        t.fed(ty, id, x, y, in_card).1.gesture == CardGesture::Nothing,
{
    lemma_moved_to(t.contacts, id, x, y);
}

/// It does not matter which of the last two fingers lifts first: the gesture is the
/// same. Of a pinch that motion has shown this holds where the fingers lift from
/// where they were seen last, since its distance is the last that was seen with both
/// down.
pub proof fn law_lifting_order_does_not_matter(
    t: Touch,
    xa: i32,
    ya: i32,
    xb: i32,
    yb: i32,
)
    requires
        t.valid(),
        t.contacts.len() == 2,
        t.mode == Mode::Pinch ==> t.contacts[0].x == xa && t.contacts[0].y == ya
            && t.contacts[1].x == xb && t.contacts[1].y == yb,
    ensures
        ({
            let a = t.contacts[0].id;
            let b = t.contacts[1].id;
            t.released(a, xa, ya).0.released(b, xb, yb) == t.released(b, xb, yb).0.released(
                a,
                xa,
                ya,
            )
        }),
{
    let a = t.contacts[0];
    let b = t.contacts[1];
    let ta = t.released(a.id, xa, ya).0;
    let tb = t.released(b.id, xb, yb).0;
    lemma_first_release(t, 0, xa, ya);
    lemma_first_release(t, 1, xb, yb);
    lemma_last_release(ta, xb, yb);
    lemma_last_release(tb, xa, ya);
    let ea = Contact { x: xa, y: ya, ..a };
    let eb = Contact { x: xb, y: yb, ..b };
    lemma_unseen_swapped(t.start_d2, t.ended, ea, eb);
    if t.mode == Mode::Pinch {
        assert(t.contacts.update(0, ea) =~= t.contacts);
        assert(t.contacts.update(1, eb) =~= t.contacts);
    }
}

/// Without motion, two fingers on the card are judged by where each came down and
/// where each lifted: a pinch where the ratio of their distances left its band, else
/// a scroll by their mean travel where it is long enough, else nothing.
pub proof fn law_two_fingers_without_motion(
    a: i32,
    b: i32,
    down_a: (i32, i32),
    down_b: (i32, i32),
    up_a: (i32, i32),
    up_b: (i32, i32),
)
    requires
        a != b,
    ensures
        ({
            let start = (down_a.0 - down_b.0) * (down_a.0 - down_b.0) + (down_a.1 - down_b.1) * (
            down_a.1 - down_b.1);
            let end = (up_a.0 - up_b.0) * (up_a.0 - up_b.0) + (up_a.1 - up_b.1) * (up_a.1
                - up_b.1);
            let far = (up_a.1 - down_a.1) + (up_b.1 - down_b.1);
            let both = at_rest().pressed(a, down_a.0, down_a.1, true).0.pressed(
                b,
                down_b.0,
                down_b.1,
                true,
            ).0;
            let g = both.released(a, up_a.0, up_a.1).0.released(b, up_b.0, up_b.1).1.gesture;
            g == if zoomed(start, end) {
                CardGesture::PinchEnd { last_d2: end as i128, start_d2: start as i128 }
            } else if size(far) >= 2 * RELEASE_SCROLL_MIN_PX {
                scrolled(far, 2)
            } else {
                CardGesture::Nothing
            }
        }),
{
    let one = at_rest().pressed(a, down_a.0, down_a.1, true).0;
    let both = one.pressed(b, down_b.0, down_b.1, true).0;
    let ca = Contact {
        id: a,
        x: down_a.0,
        y: down_a.1,
        card: true,
        start_y: down_a.1,
        lead: false,
    };
    let cb = Contact {
        id: b,
        x: down_b.0,
        y: down_b.1,
        card: true,
        start_y: down_b.1,
        lead: false,
    };
    let none = Seq::<Contact>::empty();
    lemma_cards_push(none, ca);
    lemma_cards_push(none.push(ca), cb);
    assert(one.contacts == none.push(ca));
    assert(one.contacts[0].id == a);
    assert(!is_down(one.contacts, b));
    let pair = none.push(ca).push(cb);
    assert(cards(pair) == pair);
    assert(distinct(pair));
    lemma_two_fingers(pair);
    lemma_anchored(pair);
    let la = Contact { lead: true, ..ca };
    let lb = Contact { lead: true, ..cb };
    assert(anchored(pair) =~= seq![la, lb]);
    assert(both.contacts == seq![la, lb]);
    assert(both.ended == none);
    assert(both.valid());
    lemma_first_release(both, 0, up_a.0, up_a.1);
    let later = both.released(a, up_a.0, up_a.1).0;
    lemma_last_release(later, up_b.0, up_b.1);
    let ea = Contact { x: up_a.0, y: up_a.1, ..la };
    let eb = Contact { x: up_b.0, y: up_b.1, ..lb };
    lemma_leads_push(none, ea);
    lemma_leads_push(none.push(ea), eb);
    lemma_drift_push(none, ea);
    lemma_drift_push(none.push(ea), eb);
    lemma_square_bound(down_a.0 - down_b.0);
    lemma_square_bound(down_a.1 - down_b.1);
    assert(both.start_d2 == distance2(ca, cb));
    assert(later.ended.push(eb) =~= none.push(ea).push(eb));
}

/// Of distances that are whole numbers, `apart` says that they differ by more than
/// the threshold.
pub proof fn law_apart_of_squares(p: int, q: int, t: int)
    requires
        0 <= p,
        0 <= q,
        0 <= t,
    ensures
        apart(p * p, q * q, t) == (p - q > t || q - p > t),
{
    let (hi, lo) = if p >= q {
        (p, q)
    } else {
        (q, p)
    };
    assert((p * p >= q * q) == (p >= q)) by (nonlinear_arith)
        requires
            0 <= p,
            0 <= q,
    ;
    let rest = hi * hi - lo * lo - t * t;
    let edge = 2 * t * lo;
    assert(edge * edge == 4 * t * t * (lo * lo)) by (nonlinear_arith)
        requires
            edge == 2 * t * lo,
    ;
    assert((rest > 0 && rest * rest > edge * edge) == (rest > edge)) by (nonlinear_arith)
        requires
            edge >= 0,
    ;
    assert((rest > edge) == (hi - lo > t)) by (nonlinear_arith)
        requires
            rest == hi * hi - lo * lo - t * t,
            edge == 2 * t * lo,
            0 <= lo <= hi,
            0 <= t,
    ;
}

/// A gesture of two fingers is going on from the moment when the second one comes down
/// on the card until every finger has lifted; one finger alone is none.
pub proof fn law_gesture_lasts_until_all_lift(
    t: Touch,
    ty: i32,
    id: i32,
    x: i32,
    y: i32,
    in_card: bool,
)
    requires
        t.valid(),
    ensures
        !at_rest().busy(),
        t.peak_card < 2 ==> !t.busy(),
        ({
            let after = t.fed(ty, id, x, y, in_card).0;
            &&& t.busy() ==> after.busy() == (after.contacts.len() > 0)
            &&& cards(t.contacts).len() == 1 && ty == 0x10 && in_card && !is_down(t.contacts, id)
                ==> after.busy()
            &&& t.peak_card == 0 && ty == 0x10 ==> !after.busy()
            &&& ty == 0x11 ==> !(after.busy() && !t.busy())
        }),
{
    let m = moved_to(t.contacts, id, x, y);
    lemma_moved_to(t.contacts, id, x, y);
    let c = Contact { id, x, y, card: in_card, start_y: y, lead: false };
    lemma_cards_push(t.contacts, c);
    lemma_cards_len(t.contacts);
    if is_down(t.contacts, id) {
        let i = choose|i: int| 0 <= i < t.contacts.len() && #[trigger] t.contacts[i].id == id;
        assert(m[i].id == id);
        lemma_lifted(m, id, i);
    } else {
        assert(m =~= t.contacts);
        lemma_lifted_absent(m, id);
        assert forall|i: int, j: int| 0 <= i < j < t.contacts.push(c).len() implies (
        #[trigger] t.contacts.push(c)[i]).id != (#[trigger] t.contacts.push(c)[j]).id by {
            assert(t.contacts[i].id != id);
        }
        lemma_anchored(t.contacts.push(c));
    }
    assert(cards(Seq::<Contact>::empty()).len() == 0);
}

/// Dropping a contact takes that one away and no other; nothing else of the gesture
/// changes while a finger is down.
pub proof fn law_forgotten_contact_is_gone(t: Touch, id: i32, other: i32)
    requires
        t.valid(),
        other != id,
    ensures
        ({
            let after = Touch { contacts: lifted(t.contacts, id), ..t }.settled();
            &&& !is_down(after.contacts, id)
            &&& is_down(after.contacts, other) == is_down(t.contacts, other)
            &&& after.contacts.len() > 0 ==> after == Touch { contacts: after.contacts, ..t }
            &&& after.contacts.len() == 0 ==> after == at_rest()
        }),
{
    lemma_lifted_others(t.contacts, id, other);
}

/// The second finger on the card starts the measuring: the distance of the two fingers,
/// their mean height and where each of them is. A finger beside the card does not.
pub proof fn law_second_finger_starts_the_measuring(
    t: Touch,
    id: i32,
    x: i32,
    y: i32,
    in_card: bool,
)
    requires
        t.valid(),
        t.contacts.len() == 1,
        t.contacts[0].card,
        id != t.contacts[0].id,
    ensures
        ({
            let a = t.contacts[0];
            let (after, f) = t.fed(0x10, id, x, y, in_card);
            let d2 = (a.x - x) * (a.x - x) + (a.y - y) * (a.y - y);
            &&& f == Feed { gesture: CardGesture::Nothing, new_contact: true }
            &&& after.contacts.len() == 2
            &&& after.contacts[0].id == a.id && after.contacts[1].id == id
            &&& after.contacts[0].x == a.x && after.contacts[0].y == a.y
            &&& after.contacts[1].x == x && after.contacts[1].y == y
            &&& after.contacts[0].card && after.contacts[1].card == in_card
            &&& in_card ==> {
                &&& after.start_d2 == d2 && after.last_d2 == d2
                &&& after.start_cy == (Mean { sum: (a.y + y) as i128, count: 2 })
                &&& after.applied_cy == (Mean { sum: (a.y + y) as i128, count: 2 })
                &&& after.mode == Mode::Undecided && !after.moved
                &&& after.ended.len() == 0
                &&& after.peak_card >= 2
                &&& after.contacts[0].start_y == a.y && after.contacts[1].start_y == y
                &&& after.contacts[0].lead && after.contacts[1].lead
            }
            &&& !in_card ==> {
                &&& after.start_d2 == t.start_d2 && after.last_d2 == t.last_d2
                &&& after.mode == t.mode && after.ended == t.ended
                &&& after.contacts[0] == a
            }
        }),
{
    let a = t.contacts[0];
    let c = Contact { id, x, y, card: in_card, start_y: y, lead: false };
    let none = Seq::<Contact>::empty();
    assert(t.contacts =~= none.push(a));
    lemma_cards_push(none, a);
    lemma_cards_push(none.push(a), c);
    lemma_sum_push(none, a);
    lemma_sum_push(none.push(a), c);
    assert(!is_down(t.contacts, id));
    let pair = t.contacts.push(c);
    assert(distinct(pair));
    if in_card {
        lemma_two_fingers(pair);
        lemma_square_bound(a.x - x);
        lemma_square_bound(a.y - y);
    }
}

/// What two fingers on the card measure.
proof fn lemma_pair_measured(contacts: Seq<Contact>)
    requires
        contacts.len() == 2,
        contacts[0].card,
        contacts[1].card,
    ensures
        ({
            let (a, b) = (contacts[0], contacts[1]);
            let d2 = (a.x - b.x) * (a.x - b.x) + (a.y - b.y) * (a.y - b.y);
            &&& two_fingers(contacts) == Some(
                (d2 as i128, Mean { sum: (a.y + b.y) as i128, count: 2 }),
            )
            &&& 0 <= d2 <= 0x2_0000_0000_0000_0000
        }),
{
    let (a, b) = (contacts[0], contacts[1]);
    let none = Seq::<Contact>::empty();
    assert(contacts =~= none.push(a).push(b));
    lemma_cards_push(none, a);
    lemma_cards_push(none.push(a), b);
    lemma_sum_push(none, a);
    lemma_sum_push(none.push(a), b);
    lemma_square_bound(a.x - b.x);
    lemma_square_bound(a.y - b.y);
}

/// Travel between two means of two fingers each.
proof fn lemma_pair_travel(from: Mean, to: Mean)
    requires
        from.count == 2,
        to.count == 2,
    ensures
        travel(from, to) == 2 * (to.sum - from.sum),
        scale(from, to) == 4,
{
    assert(to.sum * from.count == 2 * to.sum) by (nonlinear_arith)
        requires
            from.count == 2,
    ;
    assert(from.sum * to.count == 2 * from.sum) by (nonlinear_arith)
        requires
            to.count == 2,
    ;
    assert(from.count * to.count == 4) by (nonlinear_arith)
        requires
            from.count == 2,
            to.count == 2,
    ;
}

/// The scroll for two fingers that rose by `rise` rows together.
proof fn lemma_pair_scroll(rise: int)
    ensures
        0 <= rise <= 0xffff_ffff ==> (scrolled(2 * rise, 4) matches CardGesture::ScrollStep(n) && 2
            * n >= -rise > 2 * n - 2),
        -0xffff_ffff <= rise < 0 ==> (scrolled(2 * rise, 4) matches CardGesture::ScrollStep(n) && 2
            * n <= -rise < 2 * n + 2),
{
    let whole = size(2 * rise) / 4;
    assert(4 * whole <= size(2 * rise) < 4 * whole + 4);
}

proof fn lemma_apart_140(a: int, b: int)
    ensures
        ({
            let (hi, lo) = if a >= b {
                (a, b)
            } else {
                (b, a)
            };
            let rest = hi - lo - 19_600;
            apart(a, b, 140) == (rest > 0 && rest * rest > 78_400 * lo)
        }),
{
    let t: int = 140;
    assert(t * t == 19_600);
    assert(4 * t * t == 78_400);
}

/// Distances with these squares differ by more than 140 pixels where they must, and do
/// not where they cannot.
proof fn lemma_apart_between(hi: int, lo: int, p: int, q: int)
    requires
        0 <= lo,
        0 <= hi,
        0 <= q <= p,
    ensures
        hi >= p * p && lo <= q * q && p - q > 140 ==> apart(hi, lo, 140) && apart(lo, hi, 140),
        p * p >= hi >= lo >= q * q && p - q <= 140 ==> !apart(hi, lo, 140) && !apart(lo, hi, 140),
{
    law_apart_of_squares(p, q, 140);
    lemma_apart_140(hi, lo);
    lemma_apart_140(lo, hi);
    lemma_apart_140(p * p, q * q);
    let inner = p * p - q * q - 19_600;
    let rest = hi - lo - 19_600;
    assert(p * p >= q * q) by (nonlinear_arith)
        requires
            0 <= q <= p,
    ;
    if hi >= p * p && lo <= q * q && p - q > 140 {
        assert(rest * rest >= inner * inner) by (nonlinear_arith)
            requires
                rest >= inner,
                inner > 0,
        ;
    }
    if p * p >= hi >= lo >= q * q && p - q <= 140 {
        if rest > 0 {
            assert(rest * rest <= inner * inner) by (nonlinear_arith)
                requires
                    0 < rest <= inner,
            ;
        }
    }
}

/// Motion of one of two fingers decides the gesture once: a pinch where their distance
/// has changed by more than 140 pixels, else a scroll where their mean height has changed
/// by more than 60, else nothing yet. `p` and `q` are whole distances that bound the
/// larger and the smaller of the two.
pub proof fn law_motion_decides_the_gesture(
    t: Touch,
    i: int,
    x: i32,
    y: i32,
    again: bool,
    p: int,
    q: int,
)
    requires
        t.valid(),
        t.contacts.len() == 2,
        t.contacts[0].card && t.contacts[1].card,
        0 <= i < 2,
        t.start_cy.count == 2,
        0 <= q <= p,
    ensures
        ({
            let o = t.contacts[1 - i];
            let d2 = (x - o.x) * (x - o.x) + (y - o.y) * (y - o.y);
            let rise = y + o.y - t.start_cy.sum;
            let (hi, lo) = if d2 >= t.start_d2 {
                (d2, t.start_d2 as int)
            } else {
                (t.start_d2 as int, d2)
            };
            let ty: i32 = if again {
                0x10
            } else {
                0x12
            };
            let (after, f) = t.fed(ty, t.contacts[i].id, x, y, true);
            &&& !f.new_contact
            &&& after.last_d2 == d2 && after.start_d2 == t.start_d2
            &&& after.start_cy == t.start_cy
            &&& after.contacts.len() == 2
            &&& after.contacts[i] == Contact { x, y, ..t.contacts[i] }
            &&& after.contacts[1 - i] == o
            &&& t.mode != Mode::Undecided ==> after.mode == t.mode
            &&& t.mode == Mode::Undecided ==> {
                &&& hi >= p * p && lo <= q * q && p - q > 140 ==> after.mode == Mode::Pinch
                &&& p * p >= hi && lo >= q * q && p - q <= 140 ==> after.mode == (if rise > 120
                    || rise < -120 {
                    Mode::Scroll
                } else {
                    Mode::Undecided
                })
            }
        }),
{
    let c = t.contacts[i];
    let o = t.contacts[1 - i];
    let m = moved_to(t.contacts, c.id, x, y);
    assert(is_down(t.contacts, c.id));
    assert(t.contacts[0].id != t.contacts[1].id);
    assert(m =~= t.contacts.update(i, Contact { x, y, ..c }));
    lemma_pair_measured(m);
    lemma_pair_travel(t.start_cy, Mean { sum: (y + o.y) as i128, count: 2 });
    lemma_square_of_opposite(x - o.x);
    lemma_square_of_opposite(y - o.y);
    let d2 = (x - o.x) * (x - o.x) + (y - o.y) * (y - o.y);
    assert((m[0].x - m[1].x) * (m[0].x - m[1].x) + (m[0].y - m[1].y) * (m[0].y - m[1].y) == d2);
    if d2 >= t.start_d2 {
        lemma_apart_between(d2, t.start_d2 as int, p, q);
    } else {
        lemma_apart_between(t.start_d2 as int, d2, p, q);
    }
}

/// While two fingers scroll, their mean height is followed in steps: nothing until it has
/// changed by 90 pixels since the last step, then a scroll by the change, cut to whole
/// pixels, forward when the fingers moved up; the next step counts from there.
pub proof fn law_drag_scrolls_in_steps(t: Touch, i: int, x: i32, y: i32, again: bool)
    requires
        t.valid(),
        t.contacts.len() == 2,
        t.contacts[0].card && t.contacts[1].card,
        0 <= i < 2,
        t.applied_cy.count == 2,
        t.mode == Mode::Scroll,
    ensures
        ({
            let rise = y + t.contacts[1 - i].y - t.applied_cy.sum;
            let ty: i32 = if again {
                0x10
            } else {
                0x12
            };
            let (after, f) = t.fed(ty, t.contacts[i].id, x, y, true);
            &&& -180 < rise < 180 ==> f.gesture == CardGesture::Nothing && after.applied_cy
                == t.applied_cy
            &&& (rise >= 180 || rise <= -180) ==> after.applied_cy.count == 2
                && after.applied_cy.sum == y + t.contacts[1 - i].y
            &&& 180 <= rise <= 0xffff_ffff ==> (f.gesture matches CardGesture::ScrollStep(n) && 2
                * n >= -rise > 2 * n - 2)
            &&& -0xffff_ffff <= rise <= -180 ==> (f.gesture matches CardGesture::ScrollStep(n) && 2
                * n <= -rise < 2 * n + 2)
        }),
{
    let c = t.contacts[i];
    let m = moved_to(t.contacts, c.id, x, y);
    assert(is_down(t.contacts, c.id));
    assert(t.contacts[0].id != t.contacts[1].id);
    assert(m =~= t.contacts.update(i, Contact { x, y, ..c }));
    lemma_pair_measured(m);
    let cy = Mean { sum: (y + t.contacts[1 - i].y) as i128, count: 2 };
    assert(m[0].y + m[1].y == y + t.contacts[1 - i].y);
    lemma_pair_travel(t.applied_cy, cy);
    lemma_pair_scroll(cy.sum - t.applied_cy.sum);
}

/// A pinch is told when the last finger lifts, with the distance at first and the last
/// distance that was seen, that of the first lift included; the end of a scroll tells
/// nothing.
pub proof fn law_pinch_is_told_at_the_end(t: Touch, i: int, x: i32, y: i32, u: i32, v: i32)
    requires
        t.valid(),
        t.contacts.len() == 2,
        t.contacts[0].card && t.contacts[1].card,
        0 <= i < 2,
        t.peak_card >= 2,
    ensures
        ({
            let o = t.contacts[1 - i];
            let d2 = (x - o.x) * (x - o.x) + (y - o.y) * (y - o.y);
            let (one, f) = t.fed(0x11, t.contacts[i].id, x, y, true);
            let (none, g) = one.fed(0x11, o.id, u, v, true);
            &&& f == Feed { gesture: CardGesture::Nothing, new_contact: false }
            &&& one.contacts == seq![o]
            &&& none == at_rest()
            &&& !g.new_contact
            &&& t.mode == Mode::Pinch && t.start_d2 > 1 ==> g.gesture == (
            CardGesture::PinchEnd { last_d2: d2 as i128, start_d2: t.start_d2 })
            &&& t.mode == Mode::Scroll ==> g.gesture == CardGesture::Nothing
        }),
{
    let c = t.contacts[i];
    let o = t.contacts[1 - i];
    lemma_first_release(t, i, x, y);
    let one = t.released(c.id, x, y).0;
    lemma_last_release(one, u, v);
    lemma_pair_measured(t.contacts.update(i, Contact { x, y, ..c }));
    lemma_square_of_opposite(x - o.x);
    lemma_square_of_opposite(y - o.y);
}

/// Two fingers that send nothing but where they come down and where they lift: the ratio
/// of their distances above 1.15 or below 0.87 is a pinch; else a mean travel of 80 pixels
/// or more scrolls by it, cut to whole pixels, forward when the fingers moved up; else
/// nothing.
pub proof fn law_two_fingers_that_jump(
    a: i32,
    b: i32,
    down_a: (i32, i32),
    down_b: (i32, i32),
    up_a: (i32, i32),
    up_b: (i32, i32),
)
    requires
        a != b,
    ensures
        ({
            let start = (down_a.0 - down_b.0) * (down_a.0 - down_b.0) + (down_a.1 - down_b.1) * (
            down_a.1 - down_b.1);
            let end = (up_a.0 - up_b.0) * (up_a.0 - up_b.0) + (up_a.1 - up_b.1) * (up_a.1
                - up_b.1);
            let far = (up_a.1 - down_a.1) + (up_b.1 - down_b.1);
            let wide = start > 1 && 10_000 * end > 13_225 * start;
            let narrow = start > 1 && 10_000 * end < 7_569 * start;
            let one = at_rest().fed(0x10, a, down_a.0, down_a.1, true).0;
            let both = one.fed(0x10, b, down_b.0, down_b.1, true).0;
            let left = both.fed(0x11, a, up_a.0, up_a.1, true).0;
            let g = left.fed(0x11, b, up_b.0, up_b.1, true).1.gesture;
            &&& wide || narrow ==> g == (CardGesture::PinchEnd {
                last_d2: end as i128,
                start_d2: start as i128,
            })
            &&& !wide && !narrow && -160 < far < 160 ==> g == CardGesture::Nothing
            &&& !wide && !narrow && 160 <= far <= 0xffff_ffff ==> (g matches
                CardGesture::ScrollStep(n) && 2 * n >= -far > 2 * n - 2)
            &&& !wide && !narrow && -0xffff_ffff <= far <= -160 ==> (g matches
                CardGesture::ScrollStep(n) && 2 * n <= -far < 2 * n + 2)
        }),
{
    law_two_fingers_without_motion(a, b, down_a, down_b, up_a, up_b);
    let one = at_rest().pressed(a, down_a.0, down_a.1, true).0;
    assert(!is_down(at_rest().contacts, a));
}

} // verus!
