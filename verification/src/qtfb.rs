//! The QTFB protocol: messages between the client and the panel server, and
//! drawing into the shared RGB888 framebuffer.
//!
//! Messages are C structures of a 64-bit little-endian machine. A client message
//! is 24 bytes: the kind, three bytes of padding, and a union of 20 bytes. A
//! server message is 32 bytes: the kind, seven bytes of padding, and a union
//! aligned to eight bytes. Padding is sent as zero.

use vstd::prelude::*;

use crate::frame::{in_panel, pixels_on_panel, put_rgb, rgb_at, HEIGHT, PIXELS, WIDTH};
use crate::frame::{lemma_cell_inside, lemma_pixels_on_panel};
use crate::text::{bounded_numeral, chars_of, dec_signed, parse_numeral, push_signed};

verus! {

pub const MESSAGE_INITIALIZE: u8 = 0;

pub const MESSAGE_UPDATE: u8 = 1;

pub const MESSAGE_TERMINATE: u8 = 3;

pub const MESSAGE_USERINPUT: u8 = 4;

pub const MESSAGE_SET_REFRESH_MODE: u8 = 5;

pub const MESSAGE_REQUEST_FULL_REFRESH: u8 = 6;

/// The panel's pixel format: three bytes a pixel.
pub const FBFMT_RMPP_RGB888: u8 = 1;

pub const UPDATE_ALL: i32 = 0;

pub const UPDATE_PARTIAL: i32 = 1;

/// Quick two-level waveform, for feedback and scroll steps.
pub const REFRESH_MODE_FAST: i32 = 1;

/// Lowest-latency waveform, for ink.
pub const REFRESH_MODE_ANIMATE: i32 = 2;

/// Clean full-colour waveform, for card content.
pub const REFRESH_MODE_CONTENT: i32 = 3;

pub const INPUT_TOUCH_PRESS: i32 = 0x10;

pub const INPUT_TOUCH_RELEASE: i32 = 0x11;

pub const INPUT_TOUCH_UPDATE: i32 = 0x12;

pub const INPUT_BTN_PRESS: i32 = 0x30;

pub const RMPP_WIDTH: usize = 1620;

pub const RMPP_HEIGHT: usize = 2160;

/// Bytes of a client message.
pub const CLIENT_MESSAGE_LEN: usize = 24;

/// Bytes of a server message.
pub const SERVER_MESSAGE_LEN: usize = 32;

/// Where the server listens.
pub const SOCKET_PATH: &'static str = "/tmp/qtfb.sock";

/// Start of the name of a shared framebuffer; its key follows.
pub const SHM_PREFIX: &'static str = "/dev/shm/qtfb_";

/// One input event of the panel server.
#[derive(Clone, Copy, Debug, PartialEq, Eq, Structural)]
pub struct InputEvent {
    pub input_type: i32,
    pub dev_id: i32,
    pub x: i32,
    pub y: i32,
    pub d: i32,
}

/// A message from the client to the server.
#[derive(Clone, Copy, Debug, PartialEq, Eq, Structural)]
pub enum ClientMessage {
    Initialize { framebuffer_key: u32, framebuffer_type: u8 },
    Update { msg_type: i32, x: i32, y: i32, w: i32, h: i32 },
    Terminate,
    SetRefreshMode { mode: i32 },
    RequestFullRefresh,
}

/// Why the framebuffer key in the environment cannot be used.
#[derive(Clone, Copy, Debug, PartialEq, Eq, Structural)]
pub enum KeyError {
    Unset,
    NotANumber,
}

impl KeyError {
    /// What is said of the error.
    pub fn message(&self) -> (s: &'static str)
        ensures
            s@ == (match self {
                KeyError::Unset => "QTFB_KEY unset (not launched via appload?)"@,
                KeyError::NotANumber => "QTFB_KEY not a number"@,
            }),
    {
        match self {
            KeyError::Unset => "QTFB_KEY unset (not launched via appload?)",
            KeyError::NotANumber => "QTFB_KEY not a number",
        }
    }
}

// ------------------------------------------------------------------- bytes

/// Byte `k` of `n`, counted from the least significant.
pub open spec fn byte_of(n: int, k: nat) -> u8
    decreases k,
{
    if k == 0 {
        (n % 256) as u8
    } else {
        byte_of(n / 256, (k - 1) as nat)
    }
}

/// A signed 32-bit number as the unsigned number of the same bits.
pub open spec fn wrapped(n: int) -> int {
    if n < 0 {
        n + 0x1_0000_0000
    } else {
        n
    }
}

/// The four little-endian bytes of a 32-bit number.
pub open spec fn le_bytes(n: int) -> Seq<u8> {
    seq![byte_of(wrapped(n), 0), byte_of(wrapped(n), 1), byte_of(wrapped(n), 2), byte_of(
        wrapped(n),
        3,
    )]
}

/// The unsigned number in the four bytes at `at`.
pub open spec fn le_u32(b: Seq<u8>, at: int) -> int {
    b[at] + 0x100 * b[at + 1] + 0x1_0000 * b[at + 2] + 0x100_0000 * b[at + 3]
}

/// The signed number in the four bytes at `at`.
pub open spec fn le_i32(b: Seq<u8>, at: int) -> int {
    if le_u32(b, at) >= 0x8000_0000 {
        le_u32(b, at) - 0x1_0000_0000
    } else {
        le_u32(b, at)
    }
}

/// `n` zero bytes.
pub open spec fn zeros(n: nat) -> Seq<u8> {
    Seq::new(n, |i: int| 0u8)
}

/// Appends the four bytes of an unsigned number.
fn push_u32(out: &mut Vec<u8>, n: u32)
    ensures
        final(out)@ == old(out)@ + le_bytes(n as int),
{
    let ghost before = out@;
    let n0: u32 = n;
    out.push((n0 % 256) as u8);
    let n1: u32 = n0 / 256;
    out.push((n1 % 256) as u8);
    let n2: u32 = n1 / 256;
    out.push((n2 % 256) as u8);
    let n3: u32 = n2 / 256;
    out.push((n3 % 256) as u8);
    proof {
        reveal_with_fuel(byte_of, 4);
    }
    assert(out@ =~= before + le_bytes(n as int));
}

/// Appends the four bytes of a signed number.
fn push_i32(out: &mut Vec<u8>, n: i32)
    ensures
        final(out)@ == old(out)@ + le_bytes(n as int),
{
    let bits: u32 = if n < 0 {
        (n as i64 + 0x1_0000_0000) as u32
    } else {
        n as u32
    };
    push_u32(out, bits);
}

/// Appends `n` zero bytes.
fn push_zeros(out: &mut Vec<u8>, n: usize)
    ensures
        final(out)@ == old(out)@ + zeros(n as nat),
{
    let ghost before = out@;
    let mut i: usize = 0;
    while i < n
        invariant
            i <= n,
            out@ == before + zeros(i as nat),
        decreases n - i,
    {
        out.push(0);
        i += 1;
        assert(out@ =~= before + zeros(i as nat));
    }
}

/// Reads an unsigned number.
pub fn read_u32(b: &[u8], at: usize) -> (n: u32)
    requires
        at + 4 <= b@.len(),
    ensures
        n == le_u32(b@, at as int),
{
    b[at] as u32 + 0x100 * b[at + 1] as u32 + 0x1_0000 * b[at + 2] as u32 + 0x100_0000 * b[at
        + 3] as u32
}

/// Reads a signed number.
pub fn read_i32(b: &[u8], at: usize) -> (n: i32)
    requires
        at + 4 <= b@.len(),
    ensures
        n == le_i32(b@, at as int),
{
    let u: u32 = read_u32(b, at);
    if u >= 0x8000_0000 {
        (u as i64 - 0x1_0000_0000) as i32
    } else {
        u as i32
    }
}

/// Reading the bytes of a number gives the number back.
pub proof fn law_le_round_trip(n: int, b: Seq<u8>, at: int)
    requires
        0 <= at,
        at + 4 <= b.len(),
        b.subrange(at, at + 4) == le_bytes(n),
    ensures
        0 <= n < 0x1_0000_0000 ==> le_u32(b, at) == n,
        -0x8000_0000 <= n < 0x8000_0000 ==> le_i32(b, at) == n,
{
    reveal_with_fuel(byte_of, 4);
    let s = b.subrange(at, at + 4);
    assert(s[0] == b[at] && s[1] == b[at + 1] && s[2] == b[at + 2] && s[3] == b[at + 3]);
}

// ---------------------------------------------------------------- messages

impl ClientMessage {
    /// The kind byte that starts the message.
    pub open spec fn kind(&self) -> u8 {
        match self {
            ClientMessage::Initialize { .. } => MESSAGE_INITIALIZE,
            ClientMessage::Update { .. } => MESSAGE_UPDATE,
            ClientMessage::Terminate => MESSAGE_TERMINATE,
            ClientMessage::SetRefreshMode { .. } => MESSAGE_SET_REFRESH_MODE,
            ClientMessage::RequestFullRefresh => MESSAGE_REQUEST_FULL_REFRESH,
        }
    }

    /// The union of the message, padded to its 20 bytes.
    pub open spec fn contents(&self) -> Seq<u8> {
        match self {
            ClientMessage::Initialize { framebuffer_key, framebuffer_type } => le_bytes(
                *framebuffer_key as int,
            ) + seq![*framebuffer_type] + zeros(15),
            ClientMessage::Update { msg_type, x, y, w, h } => le_bytes(*msg_type as int) + le_bytes(
                *x as int,
            ) + le_bytes(*y as int) + le_bytes(*w as int) + le_bytes(*h as int),
            ClientMessage::Terminate => zeros(20),
            ClientMessage::SetRefreshMode { mode } => le_bytes(*mode as int) + zeros(16),
            ClientMessage::RequestFullRefresh => zeros(20),
        }
    }

    /// The bytes on the wire.
    pub open spec fn wire(&self) -> Seq<u8> {
        seq![self.kind()] + zeros(3) + self.contents()
    }

    /// Encodes the message.
    pub fn encode(&self) -> (b: Vec<u8>)
        ensures
            b@ == self.wire(),
            b@.len() == CLIENT_MESSAGE_LEN,
    {
        let kind: u8 = match self {
            ClientMessage::Initialize { .. } => MESSAGE_INITIALIZE,
            ClientMessage::Update { .. } => MESSAGE_UPDATE,
            ClientMessage::Terminate => MESSAGE_TERMINATE,
            ClientMessage::SetRefreshMode { .. } => MESSAGE_SET_REFRESH_MODE,
            ClientMessage::RequestFullRefresh => MESSAGE_REQUEST_FULL_REFRESH,
        };
        let mut b: Vec<u8> = Vec::new();
        b.push(kind);
        push_zeros(&mut b, 3);
        let ghost head = b@;
        assert(head =~= seq![self.kind()] + zeros(3));
        match self {
            ClientMessage::Initialize { framebuffer_key, framebuffer_type } => {
                push_u32(&mut b, *framebuffer_key);
                b.push(*framebuffer_type);
                push_zeros(&mut b, 15);
            },
            ClientMessage::Update { msg_type, x, y, w, h } => {
                push_i32(&mut b, *msg_type);
                push_i32(&mut b, *x);
                push_i32(&mut b, *y);
                push_i32(&mut b, *w);
                push_i32(&mut b, *h);
            },
            ClientMessage::Terminate => {
                push_zeros(&mut b, 20);
            },
            ClientMessage::SetRefreshMode { mode } => {
                push_i32(&mut b, *mode);
                push_zeros(&mut b, 16);
            },
            ClientMessage::RequestFullRefresh => {
                push_zeros(&mut b, 20);
            },
        }
        assert(b@ =~= head + self.contents());
        b
    }
}

/// The event in a server message; `None` for a message that is no input.
pub open spec fn input_of(b: Seq<u8>) -> Option<InputEvent> {
    if b[0] != MESSAGE_USERINPUT {
        None
    } else {
        Some(
            InputEvent {
                input_type: le_i32(b, 8) as i32,
                dev_id: le_i32(b, 12) as i32,
                x: le_i32(b, 16) as i32,
                y: le_i32(b, 20) as i32,
                d: le_i32(b, 24) as i32,
            },
        )
    }
}

/// Decodes the answer to `Initialize`: the key and the size of the shared
/// framebuffer.
pub fn init_response(b: &[u8]) -> (r: (i32, u64))
    requires
        b@.len() == SERVER_MESSAGE_LEN,
    ensures
        r.0 == le_i32(b@, 8),
        r.1 == le_u32(b@, 16) + 0x1_0000_0000 * le_u32(b@, 20),
{
    (read_i32(b, 8), read_u32(b, 16) as u64 + 0x1_0000_0000 * read_u32(b, 20) as u64)
}

/// Name of the shared framebuffer with this key.
pub fn shm_name(key: i32) -> (s: String)
    ensures
        s@ == SHM_PREFIX@ + dec_signed(key as int),
{
    let mut s: String = String::new();
    s.append(SHM_PREFIX);
    assert(s@ =~= SHM_PREFIX@);
    push_signed(&mut s, key as i64);
    s
}

/// The framebuffer key in its environment variable.
pub open spec fn key_in(text: Option<&str>) -> Result<u32, KeyError> {
    match text {
        None => Err(KeyError::Unset),
        Some(t) => match bounded_numeral(t@, 10, u32::MAX as int) {
            Some(n) => Ok(n as u32),
            None => Err(KeyError::NotANumber),
        },
    }
}

/// Reads the framebuffer key out of its environment variable.
pub fn parse_key(text: Option<&str>) -> (r: Result<u32, KeyError>)
    ensures
        r == key_in(text),
{
    match text {
        None => Err(KeyError::Unset),
        Some(t) => {
            let v: Vec<char> = chars_of(t);
            match parse_numeral(v.as_slice(), 10, u32::MAX as u64) {
                Some(n) => Ok(n as u32),
                None => Err(KeyError::NotANumber),
            }
        },
    }
}

// ------------------------------------------------------------- framebuffer

/// The client's side of the connection: the requests it makes of the server, and
/// the refresh mode that the server was last told.
pub struct Qtfb {
    pub mode: Option<i32>,
}

impl Qtfb {
    /// A client that has told the server no mode yet.
    pub fn new() -> (q: Self)
        ensures
            q.mode is None,
    {
        Qtfb { mode: None }
    }

    /// The first message: which framebuffer to share, in which format.
    pub fn connect(key: u32) -> (m: ClientMessage)
        ensures
            m == (ClientMessage::Initialize {
                framebuffer_key: key,
                framebuffer_type: FBFMT_RMPP_RGB888,
            }),
    {
        ClientMessage::Initialize { framebuffer_key: key, framebuffer_type: FBFMT_RMPP_RGB888 }
    }

    /// The first message, for the key in its environment variable.
    pub fn connect_from_env(text: Option<&str>) -> (r: Result<ClientMessage, KeyError>)
        ensures
            match key_in(text) {
                Ok(key) => r == Ok::<ClientMessage, KeyError>(
                    ClientMessage::Initialize {
                        framebuffer_key: key,
                        framebuffer_type: FBFMT_RMPP_RGB888,
                    },
                ),
                Err(e) => r == Err::<ClientMessage, KeyError>(e),
            },
    {
        match parse_key(text) {
            Ok(key) => Ok(Qtfb::connect(key)),
            Err(e) => Err(e),
        }
    }

    /// Decodes a received server message into the input event it carries.
    pub fn poll_input(b: &[u8]) -> (r: Option<InputEvent>)
        requires
            b@.len() == SERVER_MESSAGE_LEN,
        ensures
            r == input_of(b@),
    {
        if b[0] != MESSAGE_USERINPUT {
            return None;
        }
        Some(
            InputEvent {
                input_type: read_i32(b, 8),
                dev_id: read_i32(b, 12),
                x: read_i32(b, 16),
                y: read_i32(b, 20),
                d: read_i32(b, 24),
            },
        )
    }

    /// Asks for a refresh mode, whatever the mode was.
    pub fn set_refresh_mode(&mut self, mode: i32) -> (m: ClientMessage)
        ensures
            m == (ClientMessage::SetRefreshMode { mode }),
            final(self).mode == Some(mode),
    {
        self.mode = Some(mode);
        ClientMessage::SetRefreshMode { mode }
    }

    /// Asks for a refresh mode only when the server has not been told it already.
    /// The mode counts as told once `mode_sent` reports the message as sent.
    pub fn try_set_refresh_mode(&self, mode: i32) -> (m: Option<ClientMessage>)
        ensures
            m == (if self.mode == Some(mode) {
                None
            } else {
                Some(ClientMessage::SetRefreshMode { mode })
            }),
    {
        if self.mode.is_some() && self.mode.unwrap() == mode {
            None
        } else {
            Some(ClientMessage::SetRefreshMode { mode })
        }
    }

    /// Takes note that a message was sent.
    pub fn mode_sent(&mut self, m: ClientMessage)
        ensures
            final(self).mode == (match m {
                ClientMessage::SetRefreshMode { mode } => Some(mode),
                _ => old(self).mode,
            }),
    {
        if let ClientMessage::SetRefreshMode { mode } = m {
            self.mode = Some(mode);
        }
    }

    /// Asks for a refresh of the whole panel.
    pub fn update_full() -> (m: ClientMessage)
        ensures
            m == (ClientMessage::Update { msg_type: UPDATE_ALL, x: 0, y: 0, w: 0, h: 0 }),
    {
        ClientMessage::Update { msg_type: UPDATE_ALL, x: 0, y: 0, w: 0, h: 0 }
    }

    /// Asks for a refresh of one rectangle.
    pub fn update_partial(x: i32, y: i32, w: i32, h: i32) -> (m: ClientMessage)
        ensures
            m == (ClientMessage::Update { msg_type: UPDATE_PARTIAL, x, y, w, h }),
    {
        ClientMessage::Update { msg_type: UPDATE_PARTIAL, x, y, w, h }
    }

    /// Asks the server for a full refresh of its own.
    pub fn request_full_refresh() -> (m: ClientMessage)
        ensures
            m == ClientMessage::RequestFullRefresh,
    {
        ClientMessage::RequestFullRefresh
    }

    /// Copies an RGBA image of `bw` by `bh` pixels into the framebuffer at `(x, y)`,
    /// dropping alpha and clipping to the panel. Only the pixels that come to lie on
    /// the panel have to be there, the alpha of the last one aside.
    pub fn blit_rgba(shm: &mut [u8], src: &[u8], bw: usize, bh: usize, x: usize, y: usize)
        requires
            old(shm)@.len() >= PIXELS * 3,
            src@.len() >= pixels_on_panel(bw as int, bh as int, x as int, y as int) * 4 - 1,
        ensures
            final(shm)@.len() == old(shm)@.len(),
            forall|u: int, v: int|
                in_panel(u, v) ==> #[trigger] rgb_at(final(shm)@, u, v) == (if x <= u < x + bw && y
                    <= v < y + bh {
                    image_rgb(src@, bw as int, u - x, v - y)
                } else {
                    rgb_at(old(shm)@, u, v)
                }),
            forall|i: int|
                PIXELS * 3 <= i < old(shm)@.len() ==> #[trigger] final(shm)@[i] == old(shm)@[i],
    {
        let ghost before = shm@;
        let mut row: usize = 0;
        while row < bh && y < HEIGHT && row < HEIGHT - y
            invariant
                shm@.len() == before.len(),
                before.len() >= PIXELS * 3,
                src@.len() >= pixels_on_panel(bw as int, bh as int, x as int, y as int) * 4 - 1,
                row <= bh,
                y < HEIGHT ==> row <= HEIGHT - y,
                forall|u: int, v: int|
                    in_panel(u, v) ==> #[trigger] rgb_at(shm@, u, v) == (if x <= u < x + bw && y
                        <= v < y + row {
                        image_rgb(src@, bw as int, u - x, v - y)
                    } else {
                        rgb_at(before, u, v)
                    }),
                forall|i: int| PIXELS * 3 <= i < before.len() ==> #[trigger] shm@[i] == before[i],
            decreases bh - row,
        {
            let mut col: usize = 0;
            while col < bw && x < WIDTH && col < WIDTH - x
                invariant
                    shm@.len() == before.len(),
                    before.len() >= PIXELS * 3,
                    src@.len() >= pixels_on_panel(bw as int, bh as int, x as int, y as int) * 4
                        - 1,
                    row < bh,
                    y + row < HEIGHT,
                    col <= bw,
                    x < WIDTH ==> col <= WIDTH - x,
                    forall|u: int, v: int|
                        in_panel(u, v) ==> #[trigger] rgb_at(shm@, u, v) == (if x <= u && y <= v
                            && (v < y + row && u < x + bw || v == y + row && u < x + col) {
                            image_rgb(src@, bw as int, u - x, v - y)
                        } else {
                            rgb_at(before, u, v)
                        }),
                    forall|i: int|
                        PIXELS * 3 <= i < before.len() ==> #[trigger] shm@[i] == before[i],
                decreases bw - col,
            {
                proof {
                    lemma_pixels_on_panel(
                        bw as int,
                        bh as int,
                        x as int,
                        y as int,
                        col as int,
                        row as int,
                    );
                }
                let n: usize = src.len();
                assert(0 <= row * bw) by (nonlinear_arith);
                let si: usize = (row * bw + col) * 4;
                proof {
                    lemma_cell_inside(x + col, y + row, HEIGHT as int);
                }
                put_rgb(shm, x + col, y + row, (src[si], src[si + 1], src[si + 2]));
                col += 1;
            }
            row += 1;
        }
    }

    /// Fills a rectangle with one grey, clipped to the panel.
    pub fn fill_rect(shm: &mut [u8], x: i32, y: i32, w: i32, h: i32, gray: u8)
        requires
            old(shm)@.len() >= PIXELS * 3,
            i32::MIN <= x + w <= i32::MAX,
            i32::MIN <= y + h <= i32::MAX,
        ensures
            final(shm)@.len() == old(shm)@.len(),
            forall|u: int, v: int|
                in_panel(u, v) ==> #[trigger] rgb_at(final(shm)@, u, v) == (if x <= u < x + w && y
                    <= v < y + h {
                    (gray, gray, gray)
                } else {
                    rgb_at(old(shm)@, u, v)
                }),
            forall|i: int|
                PIXELS * 3 <= i < old(shm)@.len() ==> #[trigger] final(shm)@[i] == old(shm)@[i],
    {
        let ghost before = shm@;
        let x0: usize = if x > 0 {
            x as usize
        } else {
            0
        };
        let y0: usize = if y > 0 {
            y as usize
        } else {
            0
        };
        let right: usize = if x + w > 0 {
            (x + w) as usize
        } else {
            0
        };
        let low: usize = if y + h > 0 {
            (y + h) as usize
        } else {
            0
        };
        let x1: usize = if right < WIDTH {
            right
        } else {
            WIDTH
        };
        let y1: usize = if low < HEIGHT {
            low
        } else {
            HEIGHT
        };
        let mut yy: usize = y0;
        while yy < y1
            invariant
                shm@.len() == before.len(),
                before.len() >= PIXELS * 3,
                y0 <= yy,
                yy == y0 || yy <= y1,
                x1 <= WIDTH,
                y1 <= HEIGHT,
                forall|u: int, v: int|
                    in_panel(u, v) ==> #[trigger] rgb_at(shm@, u, v) == (if x0 <= u < x1 && y0 <= v
                        < yy {
                        (gray, gray, gray)
                    } else {
                        rgb_at(before, u, v)
                    }),
                forall|i: int| PIXELS * 3 <= i < before.len() ==> #[trigger] shm@[i] == before[i],
            decreases y1 - yy,
        {
            let mut xx: usize = x0;
            while xx < x1
                invariant
                    shm@.len() == before.len(),
                    before.len() >= PIXELS * 3,
                    y0 <= yy < y1,
                    x0 <= xx,
                    xx == x0 || xx <= x1,
                    x1 <= WIDTH,
                    y1 <= HEIGHT,
                    forall|u: int, v: int|
                        in_panel(u, v) ==> #[trigger] rgb_at(shm@, u, v) == (if x0 <= u < x1 && y0
                            <= v && (v < yy || v == yy && u < xx) {
                            (gray, gray, gray)
                        } else {
                            rgb_at(before, u, v)
                        }),
                    forall|i: int|
                        PIXELS * 3 <= i < before.len() ==> #[trigger] shm@[i] == before[i],
                decreases x1 - xx,
            {
                proof {
                    lemma_cell_inside(xx as int, yy as int, HEIGHT as int);
                }
                put_rgb(shm, xx, yy, (gray, gray, gray));
                xx += 1;
            }
            yy += 1;
        }
    }

    /// Fills the whole framebuffer with one grey.
    pub fn clear(shm: &mut [u8], gray: u8)
        ensures
            final(shm)@.len() == old(shm)@.len(),
            forall|i: int| 0 <= i < final(shm)@.len() ==> #[trigger] final(shm)@[i] == gray,
    {
        let n: usize = shm.len();
        let mut i: usize = 0;
        while i < n
            invariant
                i <= n,
                n == shm@.len(),
                n == old(shm)@.len(),
                forall|j: int| 0 <= j < i ==> shm@[j] == gray,
            decreases n - i,
        {
            shm[i] = gray;
            i += 1;
        }
    }
}

/// The colour of pixel `(u, v)` of an RGBA image `w` pixels wide.
pub open spec fn image_rgb(src: Seq<u8>, w: int, u: int, v: int) -> (u8, u8, u8) {
    (src[(v * w + u) * 4], src[(v * w + u) * 4 + 1], src[(v * w + u) * 4 + 2])
}

// -------------------------------------------------------------------- laws

/// The numbers of the protocol.
pub proof fn law_protocol_numbers()
    ensures
        MESSAGE_INITIALIZE == 0 && MESSAGE_UPDATE == 1 && MESSAGE_TERMINATE == 3,
        MESSAGE_USERINPUT == 4 && MESSAGE_SET_REFRESH_MODE == 5,
        MESSAGE_REQUEST_FULL_REFRESH == 6,
        FBFMT_RMPP_RGB888 == 1,
        UPDATE_ALL == 0 && UPDATE_PARTIAL == 1,
        REFRESH_MODE_FAST == 1 && REFRESH_MODE_ANIMATE == 2 && REFRESH_MODE_CONTENT == 3,
        INPUT_TOUCH_PRESS == 0x10 && INPUT_TOUCH_RELEASE == 0x11 && INPUT_TOUCH_UPDATE == 0x12,
        INPUT_BTN_PRESS == 0x30,
        RMPP_WIDTH == 1620 && RMPP_HEIGHT == 2160,
        CLIENT_MESSAGE_LEN == 24 && SERVER_MESSAGE_LEN == 32,
        SOCKET_PATH@ == "/tmp/qtfb.sock"@,
        SHM_PREFIX@ == "/dev/shm/qtfb_"@,
{
}

/// Numbers travel as four bytes, the lowest first; a negative one as the number of the
/// same bits.
pub proof fn law_numbers_travel_low_byte_first(n: int, b: Seq<u8>, at: int)
    requires
        -0x8000_0000 <= n < 0x1_0000_0000,
        0 <= at,
        at + 4 <= b.len(),
    ensures
        le_bytes(n).len() == 4,
        le_bytes(n)[0] + 256 * le_bytes(n)[1] + 65_536 * le_bytes(n)[2] + 16_777_216 * le_bytes(
            n,
        )[3] == (if n < 0 {
            n + 4_294_967_296
        } else {
            n
        }),
        le_u32(b, at) == b[at] + 256 * b[at + 1] + 65_536 * b[at + 2] + 16_777_216 * b[at + 3],
        le_i32(b, at) == le_u32(b, at) || le_i32(b, at) == le_u32(b, at) - 4_294_967_296,
        -0x8000_0000 <= le_i32(b, at) < 0x8000_0000,
{
    reveal_with_fuel(byte_of, 4);
}

/// A client message is 24 bytes: its kind, three zero bytes, and its fields, one behind
/// the other, with zeroes behind them.
pub proof fn law_messages_on_the_wire(m: ClientMessage)
    ensures
        ({
            let w = m.wire();
            &&& w.len() == 24
            &&& w[1] == 0 && w[2] == 0 && w[3] == 0
            &&& m matches ClientMessage::Initialize { framebuffer_key, framebuffer_type } ==> {
                &&& w[0] == 0
                &&& le_u32(w, 4) == framebuffer_key
                &&& w[8] == framebuffer_type
                &&& forall|i: int| 9 <= i < 24 ==> #[trigger] w[i] == 0
            }
            &&& m matches ClientMessage::Update { msg_type, x, y, w: width, h } ==> {
                &&& w[0] == 1
                &&& le_i32(w, 4) == msg_type
                &&& le_i32(w, 8) == x
                &&& le_i32(w, 12) == y
                &&& le_i32(w, 16) == width
                &&& le_i32(w, 20) == h
            }
            &&& m == ClientMessage::Terminate ==> w[0] == 3 && forall|i: int|
                4 <= i < 24 ==> #[trigger] w[i] == 0
            &&& m matches ClientMessage::SetRefreshMode { mode } ==> {
                &&& w[0] == 5
                &&& le_i32(w, 4) == mode
                &&& forall|i: int| 8 <= i < 24 ==> #[trigger] w[i] == 0
            }
            &&& m == ClientMessage::RequestFullRefresh ==> w[0] == 6 && forall|i: int|
                4 <= i < 24 ==> #[trigger] w[i] == 0
        }),
{
    let w = m.wire();
    match m {
        ClientMessage::Initialize { framebuffer_key, framebuffer_type } => {
            assert(w.subrange(4, 8) =~= le_bytes(framebuffer_key as int));
            law_le_round_trip(framebuffer_key as int, w, 4);
        },
        ClientMessage::Update { msg_type, x, y, w: width, h } => {
            assert(w.subrange(4, 8) =~= le_bytes(msg_type as int));
            assert(w.subrange(8, 12) =~= le_bytes(x as int));
            assert(w.subrange(12, 16) =~= le_bytes(y as int));
            assert(w.subrange(16, 20) =~= le_bytes(width as int));
            assert(w.subrange(20, 24) =~= le_bytes(h as int));
            law_le_round_trip(msg_type as int, w, 4);
            law_le_round_trip(x as int, w, 8);
            law_le_round_trip(y as int, w, 12);
            law_le_round_trip(width as int, w, 16);
            law_le_round_trip(h as int, w, 20);
        },
        ClientMessage::SetRefreshMode { mode } => {
            assert(w.subrange(4, 8) =~= le_bytes(mode as int));
            law_le_round_trip(mode as int, w, 4);
        },
        ClientMessage::Terminate => {},
        ClientMessage::RequestFullRefresh => {},
    }
}

/// A server message of kind 4 is an input event, with its fields at the eighth byte and
/// every four bytes behind it; a message of another kind is none.
pub proof fn law_input_is_read_from_its_bytes(b: Seq<u8>, e: InputEvent)
    requires
        b.len() == 32,
        b.subrange(8, 12) == le_bytes(e.input_type as int),
        b.subrange(12, 16) == le_bytes(e.dev_id as int),
        b.subrange(16, 20) == le_bytes(e.x as int),
        b.subrange(20, 24) == le_bytes(e.y as int),
        b.subrange(24, 28) == le_bytes(e.d as int),
    ensures
        b[0] == 4 ==> input_of(b) == Some(e),
        b[0] != 4 ==> input_of(b) is None,
{
    law_le_round_trip(e.input_type as int, b, 8);
    law_le_round_trip(e.dev_id as int, b, 12);
    law_le_round_trip(e.x as int, b, 16);
    law_le_round_trip(e.y as int, b, 20);
    law_le_round_trip(e.d as int, b, 24);
}

/// The key in the environment is a decimal number of 32 bits; without one, or with
/// anything else, there is an error that says which it was.
pub proof fn law_key_is_a_number(n: u32, text: &str)
    ensures
        text@ == crate::text::dec(n as int) ==> key_in(Some(text)) == Ok::<u32, KeyError>(n),
        key_in(None) == Err::<u32, KeyError>(KeyError::Unset),
        crate::text::numeral(text@, 10) is None ==> key_in(Some(text)) == Err::<u32, KeyError>(
            KeyError::NotANumber,
        ),
        crate::text::numeral(text@, 10) matches Some(v) ==> (v > 0xffff_ffff ==> key_in(Some(text))
            == Err::<u32, KeyError>(KeyError::NotANumber)),
{
    crate::text::law_decimal_reads_back(n as int);
}

/// The pixels of an image lie row by row, four bytes each, red first, then green, then
/// blue.
pub proof fn law_image_lies_row_by_row(src: Seq<u8>, w: int, u: int, v: int)
    ensures
        image_rgb(src, w, 0, 0) == (src[0], src[1], src[2]),
        image_rgb(src, w, u, v).0 == src[4 * (v * w + u)],
        image_rgb(src, w, u, v).1 == src[4 * (v * w + u) + 1],
        image_rgb(src, w, u, v).2 == src[4 * (v * w + u) + 2],
{
    assert(0 * w == 0) by (nonlinear_arith);
}

} // verus!
