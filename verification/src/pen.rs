//! The pen: decoding its input events into inking samples.
//!
//! The pen is an input device of its own. Its events set one axis or button at a
//! time; a report event closes a group of them. Each report during contact gives a
//! sample in panel coordinates, and so does the first report after it.

use vstd::prelude::*;

use crate::frame::{HEIGHT, WIDTH};
use crate::qtfb::{le_i32, read_i32};
use crate::text::{contains_text, copy_of, lower, lowercase, occurs, push_dec, dec};

verus! {

/// Event type of reports.
pub const EV_SYN: u16 = 0x00;

/// Event type of buttons.
pub const EV_KEY: u16 = 0x01;

/// Event type of axes.
pub const EV_ABS: u16 = 0x03;

/// Code of the report that closes a group.
pub const SYN_REPORT: u16 = 0x00;

/// Code of the horizontal axis.
pub const ABS_X: u16 = 0x00;

/// Code of the vertical axis.
pub const ABS_Y: u16 = 0x01;

/// Code of the pressure axis.
pub const ABS_PRESSURE: u16 = 0x18;

/// Code of the contact button.
pub const BTN_TOUCH: u16 = 0x14a;

/// Code of the pen tip's proximity.
pub const BTN_TOOL_PEN: u16 = 0x140;

/// Code of the eraser end's proximity.
pub const BTN_TOOL_RUBBER: u16 = 0x141;

/// Greatest value of the horizontal axis where the device does not tell.
pub const FALLBACK_XMAX: i32 = 11180;

/// Greatest value of the vertical axis where the device does not tell.
pub const FALLBACK_YMAX: i32 = 15340;

/// Pressure at which the stroke is widest.
pub const PRESSURE_MAX: i32 = 4096;

/// Bytes of one input event.
pub const EVENT_SIZE: usize = 24;

/// Number of input devices that are looked through for the pen.
pub const DEVICES: u32 = 32;

/// One inking sample in panel coordinates.
#[derive(Clone, Copy, Debug, PartialEq, Eq, Structural)]
pub struct PenSample {
    pub x: i32,
    pub y: i32,
    /// Stroke width in pixels.
    pub w: u8,
    /// First contact sample of a stroke.
    pub down: bool,
    /// The pen was lifted; the position is the last known one.
    pub up: bool,
    /// The eraser end of the pen is in use.
    pub erase: bool,
}

/// What is known of the pen.
#[derive(Clone, Copy, Debug, PartialEq, Eq, Structural)]
pub struct Pen {
    /// Greatest values of the axes.
    pub xmax: i32,
    pub ymax: i32,
    /// Axes and buttons as last set.
    pub x: i32,
    pub y: i32,
    pub pressure: i32,
    pub contact: bool,
    /// The eraser end is the one near the surface.
    pub rubber: bool,
    /// The last sample was one of contact.
    pub was_contact: bool,
}

/// An input event.
#[derive(Clone, Copy, Debug, PartialEq, Eq, Structural)]
pub struct PenEvent {
    pub kind: u16,
    pub code: u16,
    pub value: i32,
}

// --------------------------------------------------------------- positions

/// `v` brought between 0 and `max`.
pub open spec fn clamped(v: int, max: int) -> int {
    if v < 0 {
        0
    } else if v > max {
        max
    } else {
        v
    }
}

impl Pen {
    /// Both axes have an extent.
    pub open spec fn valid(self) -> bool {
        self.xmax >= 1 && self.ymax >= 1
    }

    /// Panel column of an axis value.
    pub open spec fn panel_x(self, raw: int) -> int {
        clamped(raw, self.xmax as int) * WIDTH / (self.xmax as int)
    }

    /// Panel row of an axis value.
    pub open spec fn panel_y(self, raw: int) -> int {
        clamped(raw, self.ymax as int) * HEIGHT / (self.ymax as int)
    }

    /// Stroke width for the present pressure, from 2 to 6 pixels.
    pub open spec fn stroke_width(self) -> int {
        2 + clamped(self.pressure as int, PRESSURE_MAX as int) * 4 / (PRESSURE_MAX as int)
    }

    /// The pen touches: the button says so, or there is pressure.
    pub open spec fn touches(self) -> bool {
        self.contact || self.pressure > 0
    }

    /// The sample that a report gives now.
    pub open spec fn sample(self) -> PenSample {
        PenSample {
            x: self.panel_x(self.x as int) as i32,
            y: self.panel_y(self.y as int) as i32,
            w: self.stroke_width() as u8,
            down: self.touches() && !self.was_contact,
            up: !self.touches(),
            erase: self.rubber,
        }
    }

    /// The pen after one event, and the sample that the event gives.
    pub open spec fn after(self, e: PenEvent) -> (Pen, Option<PenSample>) {
        if e.kind == EV_ABS && e.code == ABS_X {
            (Pen { x: e.value, ..self }, None)
        } else if e.kind == EV_ABS && e.code == ABS_Y {
            (Pen { y: e.value, ..self }, None)
        } else if e.kind == EV_ABS && e.code == ABS_PRESSURE {
            (Pen { pressure: e.value, ..self }, None)
        } else if e.kind == EV_KEY && e.code == BTN_TOUCH {
            (Pen { contact: e.value != 0, ..self }, None)
        } else if e.kind == EV_KEY && e.code == BTN_TOOL_RUBBER {
            (Pen { rubber: e.value != 0, ..self }, None)
        } else if e.kind == EV_KEY && e.code == BTN_TOOL_PEN {
            if e.value != 0 {
                (Pen { rubber: false, ..self }, None)
            } else {
                (Pen { contact: false, ..self }, None)
            }
        } else if e.kind == EV_SYN && e.code == SYN_REPORT && (self.touches()
            || self.was_contact) {
            (Pen { was_contact: self.touches(), ..self }, Some(self.sample()))
        } else {
            (self, None)
        }
    }

    /// The pen after the first `n` events of a buffer, and the samples they give.
    pub open spec fn after_all(self, b: Seq<u8>, n: int) -> (Pen, Seq<PenSample>)
        decreases n,
    {
        if n <= 0 {
            (self, Seq::empty())
        } else {
            let (pen, samples) = self.after_all(b, n - 1);
            let (next, sample) = pen.after(event_at(b, n - 1));
            (
                next,
                match sample {
                    Some(s) => samples.push(s),
                    None => samples,
                },
            )
        }
    }

    /// A pen at rest. The extents are those that the device reports, where it does.
    pub fn open(xmax: Option<i32>, ymax: Option<i32>) -> (p: Self)
        ensures
            p.valid(),
            p == (Pen {
                xmax: extent(xmax, FALLBACK_XMAX),
                ymax: extent(ymax, FALLBACK_YMAX),
                x: 0,
                y: 0,
                pressure: 0,
                contact: false,
                rubber: false,
                was_contact: false,
            }),
    {
        Pen {
            xmax: extent_or(xmax, FALLBACK_XMAX),
            ymax: extent_or(ymax, FALLBACK_YMAX),
            x: 0,
            y: 0,
            pressure: 0,
            contact: false,
            rubber: false,
            was_contact: false,
        }
    }

    /// Panel column of an axis value.
    pub fn map_x(&self, raw: i32) -> (x: i32)
        requires
            self.valid(),
        ensures
            x == self.panel_x(raw as int),
            0 <= x <= WIDTH,
    {
        scaled(raw, self.xmax, WIDTH as i32)
    }

    /// Panel row of an axis value.
    pub fn map_y(&self, raw: i32) -> (y: i32)
        requires
            self.valid(),
        ensures
            y == self.panel_y(raw as int),
            0 <= y <= HEIGHT,
    {
        scaled(raw, self.ymax, HEIGHT as i32)
    }

    /// Stroke width for the present pressure.
    pub fn width(&self) -> (w: u8)
        ensures
            w == self.stroke_width(),
            2 <= w <= 6,
    {
        let p: i32 = if self.pressure < 0 {
            0
        } else if self.pressure > PRESSURE_MAX {
            PRESSURE_MAX
        } else {
            self.pressure
        };
        (2 + p * 4 / PRESSURE_MAX) as u8
    }

    /// Takes one event.
    pub fn feed(&mut self, e: PenEvent) -> (s: Option<PenSample>)
        requires
            old(self).valid(),
        ensures
            final(self).valid(),
            (*final(self), s) == old(self).after(e),
    {
        if e.kind == EV_ABS {
            if e.code == ABS_X {
                self.x = e.value;
            } else if e.code == ABS_Y {
                self.y = e.value;
            } else if e.code == ABS_PRESSURE {
                self.pressure = e.value;
            }
        } else if e.kind == EV_KEY {
            if e.code == BTN_TOUCH {
                self.contact = e.value != 0;
            } else if e.code == BTN_TOOL_RUBBER {
                self.rubber = e.value != 0;
            } else if e.code == BTN_TOOL_PEN {
                if e.value != 0 {
                    self.rubber = false;
                } else {
                    self.contact = false;
                }
            }
        } else if e.kind == EV_SYN && e.code == SYN_REPORT {
            let touching: bool = self.contact || self.pressure > 0;
            if touching || self.was_contact {
                let s: PenSample = PenSample {
                    x: self.map_x(self.x),
                    y: self.map_y(self.y),
                    w: self.width(),
                    down: touching && !self.was_contact,
                    up: !touching,
                    erase: self.rubber,
                };
                self.was_contact = touching;
                return Some(s);
            }
        }
        None
    }

    /// Takes the whole events in a buffer and gives their samples in order.
    pub fn drain(&mut self, buf: &[u8]) -> (samples: Vec<PenSample>)
        requires
            old(self).valid(),
        ensures
            final(self).valid(),
            (*final(self), samples@) == old(self).after_all(
                buf@,
                buf@.len() as int / (EVENT_SIZE as int),
            ),
    {
        let mut samples: Vec<PenSample> = Vec::new();
        let len: usize = buf.len();
        let count: usize = len / EVENT_SIZE;
        let mut i: usize = 0;
        let ghost before = *self;
        while i < count
            invariant
                i <= count,
                len == buf@.len(),
                count == len / EVENT_SIZE,
                self.valid(),
                (*self, samples@) == before.after_all(buf@, i as int),
            decreases count - i,
        {
            let at: usize = i * EVENT_SIZE;
            let e: PenEvent = PenEvent {
                kind: read_u16(buf, at + 16),
                code: read_u16(buf, at + 18),
                value: read_i32(buf, at + 20),
            };
            match self.feed(e) {
                Some(s) => samples.push(s),
                None => {},
            }
            i += 1;
        }
        samples
    }
}

/// The extent of an axis: as reported, else the fallback; at least 1.
pub open spec fn extent(reported: Option<i32>, fallback: i32) -> i32 {
    match reported {
        Some(v) => if v >= 1 {
            v
        } else {
            1
        },
        None => fallback,
    }
}

fn extent_or(reported: Option<i32>, fallback: i32) -> (v: i32)
    ensures
        v == extent(reported, fallback),
{
    match reported {
        Some(v) => if v >= 1 {
            v
        } else {
            1
        },
        None => fallback,
    }
}

fn scaled(raw: i32, max: i32, size: i32) -> (v: i32)
    requires
        1 <= max,
        0 <= size,
    ensures
        v == clamped(raw as int, max as int) * size / (max as int),
        0 <= v <= size,
{
    let r: i64 = if raw < 0 {
        0
    } else if raw > max {
        max as i64
    } else {
        raw as i64
    };
    assert(0 <= r * size <= 0x8000_0000 * 0x8000_0000) by (nonlinear_arith)
        requires
            0 <= r <= 0x8000_0000,
            0 <= size <= 0x8000_0000,
    ;
    assert(0 <= r * size / (max as int) <= size) by (nonlinear_arith)
        requires
            0 <= r <= max,
            0 <= size,
            1 <= max,
    ;
    (r * size as i64 / max as i64) as i32
}

/// The unsigned 16-bit number in the two bytes at `at`.
pub open spec fn le_u16(b: Seq<u8>, at: int) -> int {
    b[at] + 0x100 * b[at + 1]
}

fn read_u16(b: &[u8], at: usize) -> (n: u16)
    requires
        at + 2 <= b@.len(),
    ensures
        n == le_u16(b@, at as int),
{
    b[at] as u16 + 0x100 * b[at + 1] as u16
}

/// Event `i` of a buffer: behind a time stamp of 16 bytes the type, the code and
/// the value.
pub open spec fn event_at(b: Seq<u8>, i: int) -> PenEvent {
    PenEvent {
        kind: le_u16(b, i * EVENT_SIZE + 16) as u16,
        code: le_u16(b, i * EVENT_SIZE + 18) as u16,
        value: le_i32(b, i * EVENT_SIZE + 20) as i32,
    }
}

// ------------------------------------------------------------ the device

/// What a read from the device amounts to.
#[derive(Clone, Copy, Debug, PartialEq, Eq, Structural)]
pub enum PenRead {
    /// This many bytes of events.
    Events(usize),
    /// Nothing more to read for now.
    Drained,
    /// The device is gone.
    Closed,
    /// The read failed.
    Failed,
}

/// Judges what a read returned; `would_block` tells whether a failed one only found
/// nothing to read.
pub fn judge_read(n: isize, would_block: bool) -> (r: PenRead)
    ensures
        r == (if n > 0 {
            PenRead::Events(n as usize)
        } else if n == 0 {
            PenRead::Closed
        } else if would_block {
            PenRead::Drained
        } else {
            PenRead::Failed
        }),
{
    if n > 0 {
        PenRead::Events(n as usize)
    } else if n == 0 {
        PenRead::Closed
    } else if would_block {
        PenRead::Drained
    } else {
        PenRead::Failed
    }
}

/// The greatest value of an axis, from what the device reports of it: nothing
/// where the query failed or the axis has no extent.
pub fn abs_max(answered: bool, min: i32, max: i32) -> (r: Option<i32>)
    ensures
        r == (if answered && max > min {
            Some(max)
        } else {
            None
        }),
{
    if answered && max > min {
        Some(max)
    } else {
        None
    }
}

/// Number of the request for a device's name into a buffer of `len` bytes: a read
/// of that size, group `E`, number 6.
pub fn eviocgname(len: u64) -> (n: u64)
    requires
        len < 0x4000,
    ensures
        n == 0x8000_0000 + len * 0x1_0000 + 0x45 * 0x100 + 0x06,
{
    0x8000_0000 + len * 0x1_0000 + 0x45 * 0x100 + 0x06
}

/// Number of the request for an axis's range: a read of 24 bytes, group `E`, number
/// 0x40 and the axis.
pub fn eviocgabs(axis: u16) -> (n: u64)
    requires
        axis < 0x40,
    ensures
        n == 0x8000_0000 + 24 * 0x1_0000 + 0x45 * 0x100 + 0x40 + axis,
{
    0x8000_0000 + 24 * 0x1_0000 + 0x45 * 0x100 + 0x40 + axis as u64
}

/// Path of input device `i`.
pub fn device_path(i: u32) -> (path: String)
    ensures
        path@ == "/dev/input/event"@ + dec(i as int),
{
    let mut path: String = copy_of("/dev/input/event");
    push_dec(&mut path, i as u64);
    path
}

/// The text that `String::from_utf8_lossy` gives.
pub uninterp spec fn lossy(b: Seq<u8>) -> Seq<char>;

/// Calls `String::from_utf8_lossy`, which reads bytes as UTF-8. Bytes that are
/// valid come out as their characters; what stands for invalid ones is not said,
/// but depends on the bytes alone.
#[verifier::external_body]
pub(crate) fn lossy_text(b: &[u8]) -> (s: String)
    ensures
        s@ == lossy(b@),
        vstd::utf8::valid_utf8(b@) ==> s@ == vstd::utf8::decode_utf8(b@),
{
    String::from_utf8_lossy(b).into_owned()
}

/// Position of the first zero byte; the length if there is none.
pub open spec fn first_zero(b: Seq<u8>) -> int
    decreases b.len(),
{
    if b.len() == 0 || b[0] == 0 {
        0
    } else {
        1 + first_zero(b.skip(1))
    }
}

/// A device of this name, in lower case, is the pen.
pub open spec fn names_marker(name: Seq<char>) -> bool {
    occurs(name, "marker"@) || occurs(name, "elan"@) && occurs(name, "pen"@)
}

/// Whether a name in lower case is that of the pen, and not of the touch screen.
pub fn is_marker_name(name: &str) -> (b: bool)
    ensures
        b == names_marker(name@),
{
    contains_text(name, "marker") || (contains_text(name, "elan") && contains_text(name, "pen"))
}

/// Whether a device is the pen, by the name that it reports, which ends at the
/// first zero byte.
pub fn is_marker(name: &[u8]) -> (b: bool)
    ensures
        b == names_marker(lowercase(lossy(name@.take(first_zero(name@))))),
{
    let mut end: usize = 0;
    assert(name@.skip(0) =~= name@);
    while end < name.len() && name[end] != 0
        invariant
            end <= name@.len(),
            first_zero(name@) == end + first_zero(name@.skip(end as int)),
        decreases name@.len() - end,
    {
        assert(name@.skip(end as int).skip(1) =~= name@.skip(end + 1));
        end += 1;
    }
    let text: String = lossy_text(vstd::slice::slice_subrange(name, 0, end));
    assert(name@.subrange(0, end as int) =~= name@.take(end as int));
    is_marker_name(lower(text.as_str()).as_str())
}

// -------------------------------------------------------------------- laws

/// Strokes follow one another: between two samples, the later begins a stroke
/// exactly when the earlier ended one, and the first begins one exactly when the
/// pen was not in contact before.
pub proof fn law_strokes_alternate(pen: Pen, b: Seq<u8>, n: int)
    ensures
        ({
            let (after, samples) = pen.after_all(b, n);
            &&& samples.len() == 0 ==> after.was_contact == pen.was_contact
            &&& samples.len() > 0 ==> samples[0].down == !pen.was_contact
            &&& samples.len() > 0 ==> after.was_contact == !samples.last().up
            &&& forall|i: int|
                0 <= i < samples.len() ==> !((#[trigger] samples[i]).down && samples[i].up)
            &&& forall|i: int|
                0 < i < samples.len() ==> (#[trigger] samples[i]).down == samples[i - 1].up
        }),
    decreases n,
{
    if n > 0 {
        law_strokes_alternate(pen, b, n - 1);
    }
}

/// Every sample lies on the panel or on its far edge, with a width from 2 to 6.
pub proof fn law_samples_in_range(pen: Pen, b: Seq<u8>, n: int, i: int)
    requires
        pen.valid(),
        0 <= i < pen.after_all(b, n).1.len(),
    ensures
        pen.after_all(b, n).0.valid(),
        0 <= pen.after_all(b, n).1[i].x <= WIDTH,
        0 <= pen.after_all(b, n).1[i].y <= HEIGHT,
        2 <= pen.after_all(b, n).1[i].w <= 6,
    decreases n,
{
    lemma_after_all_valid(pen, b, n);
    if n > 0 {
        let (before, samples) = pen.after_all(b, n - 1);
        lemma_after_all_valid(pen, b, n - 1);
        if i < samples.len() {
            law_samples_in_range(pen, b, n - 1, i);
        } else {
            lemma_scaled(before.x as int, before.xmax as int, WIDTH as int);
            lemma_scaled(before.y as int, before.ymax as int, HEIGHT as int);
        }
    }
}

proof fn lemma_after_all_valid(pen: Pen, b: Seq<u8>, n: int)
    requires
        pen.valid(),
    ensures
        pen.after_all(b, n).0.valid(),
    decreases n,
{
    if n > 0 {
        lemma_after_all_valid(pen, b, n - 1);
    }
}

proof fn lemma_scaled(raw: int, max: int, size: int)
    requires
        1 <= max,
        0 <= size,
    ensures
        0 <= clamped(raw, max) * size / max <= size,
{
    let r = clamped(raw, max);
    assert(0 <= r * size / max <= size) by (nonlinear_arith)
        requires
            0 <= r <= max,
            0 <= size,
            1 <= max,
    ;
}

/// Reading events in two parts gives the same samples and leaves the same pen as
/// reading them in one, as long as no event is torn apart.
pub proof fn law_drain_in_parts(pen: Pen, a: Seq<u8>, b: Seq<u8>, n: int, m: int)
    requires
        0 <= n,
        0 <= m,
        a.len() == n * EVENT_SIZE,
        m * EVENT_SIZE <= b.len(),
    ensures
        ({
            let (mid, first) = pen.after_all(a, n);
            let (end, second) = mid.after_all(b, m);
            pen.after_all(a + b, n + m) == (end, first + second)
        }),
    decreases n + m,
{
    if m > 0 {
        law_drain_in_parts(pen, a, b, n, m - 1);
        let (mid, first) = pen.after_all(a, n);
        assert(event_at(a + b, n + m - 1) == event_at(b, m - 1));
        let (end, second) = mid.after_all(b, m);
        assert(pen.after_all(a + b, n + m).1 =~= first + second);
    } else if n > 0 {
        lemma_front(pen, a, b, n);
        assert(pen.after_all(a, n).1 + Seq::<PenSample>::empty() =~= pen.after_all(a, n).1);
    } else {
        assert(Seq::<PenSample>::empty() + Seq::<PenSample>::empty() =~= Seq::empty());
    }
}

proof fn lemma_front(pen: Pen, a: Seq<u8>, b: Seq<u8>, n: int)
    requires
        0 <= n,
        n * EVENT_SIZE <= a.len(),
    ensures
        pen.after_all(a + b, n) == pen.after_all(a, n),
    decreases n,
{
    if n > 0 {
        lemma_front(pen, a, b, n - 1);
        assert(event_at(a + b, n - 1) == event_at(a, n - 1));
    }
}

/// `v` is `raw` out of `max` carried over to `size` in proportion, cut to a whole
/// number.
pub open spec fn in_proportion(v: int, raw: int, max: int, size: int) -> bool {
    v * max <= raw * size < (v + 1) * max
}

proof fn lemma_proportion(raw: int, max: int, size: int)
    requires
        0 <= raw <= max,
        1 <= max,
        0 <= size,
    ensures
        in_proportion(raw * size / max, raw, max, size),
        raw == 0 ==> raw * size / max == 0,
        raw == max ==> raw * size / max == size,
{
    let a = raw * size;
    vstd::arithmetic::div_mod::lemma_fundamental_div_mod(a, max);
    let q = a / max;
    assert(q * max <= a < (q + 1) * max) by (nonlinear_arith)
        requires
            a == max * q + a % max,
            0 <= a % max < max,
    ;
    if raw == 0 {
        assert(0 * size / max == 0) by (nonlinear_arith)
            requires
                1 <= max,
        ;
    }
    if raw == max {
        assert(max * size / max == size) by (nonlinear_arith)
            requires
                1 <= max,
        ;
    }
}

/// The pen reaches the whole panel: the ends of each axis go to the ends of the panel,
/// what lies between is carried over in proportion, and what lies outside goes to the
/// nearer end.
pub proof fn law_axes_span_the_panel(pen: Pen, raw: int)
    requires
        pen.valid(),
    ensures
        pen.panel_x(0) == 0,
        pen.panel_x(pen.xmax as int) == 1620,
        0 <= raw <= pen.xmax ==> in_proportion(pen.panel_x(raw), raw, pen.xmax as int, 1620),
        raw < 0 ==> pen.panel_x(raw) == 0,
        raw > pen.xmax ==> pen.panel_x(raw) == 1620,
        pen.panel_y(0) == 0,
        pen.panel_y(pen.ymax as int) == 2160,
        0 <= raw <= pen.ymax ==> in_proportion(pen.panel_y(raw), raw, pen.ymax as int, 2160),
        raw < 0 ==> pen.panel_y(raw) == 0,
        raw > pen.ymax ==> pen.panel_y(raw) == 2160,
{
    lemma_proportion(0, pen.xmax as int, 1620);
    lemma_proportion(pen.xmax as int, pen.xmax as int, 1620);
    lemma_proportion(0, pen.ymax as int, 2160);
    lemma_proportion(pen.ymax as int, pen.ymax as int, 2160);
    if 0 <= raw <= pen.xmax {
        lemma_proportion(raw, pen.xmax as int, 1620);
    }
    if 0 <= raw <= pen.ymax {
        lemma_proportion(raw, pen.ymax as int, 2160);
    }
}

/// Pressure makes the stroke wider, from 2 pixels without any to 6 at 4096 and above:
/// one pixel more with every 1024.
pub proof fn law_pressure_widens_the_stroke(pen: Pen)
    ensures
        pen.pressure <= 0 ==> pen.stroke_width() == 2,
        pen.pressure >= 4096 ==> pen.stroke_width() == 6,
        0 <= pen.pressure < 4096 ==> 1024 * (pen.stroke_width() - 2) <= pen.pressure < 1024 * (
        pen.stroke_width() - 1),
{
}

/// A report during contact, and the first one after it, gives a sample where the pen
/// last was on both axes; no other report does. It begins a stroke where the report
/// before was not one of contact, and ends one where this is not.
pub proof fn law_reports_give_samples(pen: Pen)
    requires
        pen.valid(),
    ensures
        ({
            let touching = pen.contact || pen.pressure > 0;
            let (next, sample) = pen.after(PenEvent { kind: 0, code: 0, value: 0 });
            &&& next == Pen { was_contact: touching, ..pen }
            &&& sample is Some == (touching || pen.was_contact)
            &&& sample matches Some(s) ==> {
                &&& s.x == pen.panel_x(pen.x as int)
                &&& s.y == pen.panel_y(pen.y as int)
                &&& s.w == pen.stroke_width()
                &&& s.down == (touching && !pen.was_contact)
                &&& s.up == !touching
                &&& s.erase == pen.rubber
            }
        }),
{
    lemma_scaled(pen.x as int, pen.xmax as int, 1620);
    lemma_scaled(pen.y as int, pen.ymax as int, 2160);
}

/// An axis event sets its axis and nothing else, and gives no sample: code 0 is the
/// horizontal axis, 1 the vertical one and 24 the pressure.
pub proof fn law_axis_events_set_their_axis(pen: Pen, value: i32, code: u16)
    ensures
        pen.after(PenEvent { kind: 3, code, value }) == (
            if code == 0 {
                Pen { x: value, ..pen }
            } else if code == 1 {
                Pen { y: value, ..pen }
            } else if code == 24 {
                Pen { pressure: value, ..pen }
            } else {
                pen
            },
            None::<PenSample>,
        ),
{
}

/// A button event gives no sample: 330 tells contact, 321 the eraser end, and 320 the
/// tip, which when it comes near takes the eraser's place and when it leaves ends the
/// contact.
pub proof fn law_button_events_tell_contact_and_end(pen: Pen, value: i32, code: u16)
    ensures
        pen.after(PenEvent { kind: 1, code, value }) == (
            if code == 330 {
                Pen { contact: value != 0, ..pen }
            } else if code == 321 {
                Pen { rubber: value != 0, ..pen }
            } else if code == 320 && value != 0 {
                Pen { rubber: false, ..pen }
            } else if code == 320 {
                Pen { contact: false, ..pen }
            } else {
                pen
            },
            None::<PenSample>,
        ),
{
}

/// Events of other kinds change nothing.
pub proof fn law_other_events_change_nothing(pen: Pen, e: PenEvent)
    requires
        e.kind != 0 && e.kind != 1 && e.kind != 3 || e.kind == 0 && e.code != 0,
    ensures
        pen.after(e) == (pen, None::<PenSample>),
{
}

/// An event takes 24 bytes: behind 16 bytes of time, type and code in two bytes each
/// and the value in four, the least byte first, with the sign in the last.
pub proof fn law_events_are_read_from_bytes(b: Seq<u8>, i: int)
    ensures
        ({
            let e = event_at(b, i);
            let at = 24 * i + 16;
            let bits = b[at + 4] + 256 * b[at + 5] + 65_536 * b[at + 6] + 16_777_216 * b[at + 7];
            &&& e.kind == b[at] + 256 * b[at + 1]
            &&& e.code == b[at + 2] + 256 * b[at + 3]
            &&& e.value >= 0 ==> e.value == bits
            &&& e.value < 0 ==> e.value + 4_294_967_296 == bits
        }),
{
}

/// Every event counts, in order: after one event more, the pen is what that event makes
/// of it, and its sample comes last.
pub proof fn law_events_are_taken_in_order(pen: Pen, b: Seq<u8>, n: int)
    requires
        0 <= n,
    ensures
        ({
            let (before, samples) = pen.after_all(b, n);
            let (next, sample) = before.after(event_at(b, n));
            &&& pen.after_all(b, 0) == (pen, Seq::<PenSample>::empty())
            &&& pen.after_all(b, n + 1).0 == next
            &&& sample is None ==> pen.after_all(b, n + 1).1 == samples
            &&& sample matches Some(s) ==> pen.after_all(b, n + 1).1 == samples.push(s)
        }),
{
}

/// An axis reaches as far as the device says, or as far as is known where it says nothing,
/// and never less than one.
pub proof fn law_axes_reach_as_far_as_reported(v: i32, fallback: i32)
    ensures
        v >= 1 ==> extent(Some(v), fallback) == v,
        v < 1 ==> extent(Some(v), fallback) == 1,
        extent(None, fallback) == fallback,
{
}

/// The pen is told by its name, up to the first zero byte: one with `marker` in it, or
/// with both `elan` and `pen`.
pub proof fn law_pen_is_told_by_its_name(name: Seq<char>, b: Seq<u8>)
    ensures
        occurs(name, "marker"@) ==> names_marker(name),
        occurs(name, "elan"@) && occurs(name, "pen"@) ==> names_marker(name),
        names_marker(name) && !occurs(name, "marker"@) ==> occurs(name, "elan"@) && occurs(
            name,
            "pen"@,
        ),
        0 <= first_zero(b) <= b.len(),
        first_zero(b) < b.len() ==> b[first_zero(b)] == 0,
        forall|i: int| 0 <= i < first_zero(b) ==> #[trigger] b[i] != 0,
    decreases b.len(),
{
    if b.len() > 0 && b[0] != 0 {
        law_pen_is_told_by_its_name(name, b.skip(1));
        assert forall|i: int| 0 <= i < first_zero(b) implies #[trigger] b[i] != 0 by {
            if i > 0 {
                assert(b.skip(1)[i - 1] == b[i]);
            }
        }
    }
}

} // verus!
