//! Cropping rendered formulas and storing them as PNG images.
//!
//! A formula comes as an image with much empty space. It is cropped to its ink with
//! a small margin, so that its size in the text is that of the glyphs.

use vstd::prelude::*;

verus! {

/// An RGBA image with premultiplied alpha.
pub struct Image {
    pub w: u32,
    pub h: u32,
    pub data: Vec<u8>,
}

/// What an image shows.
#[verifier::ext_equal]
pub struct Picture {
    pub w: u32,
    pub h: u32,
    pub data: Seq<u8>,
}

impl View for Image {
    type V = Picture;

    open spec fn view(&self) -> Picture {
        Picture { w: self.w, h: self.h, data: self.data@ }
    }
}

/// What counts as ink.
#[derive(Clone, Copy, Debug, PartialEq, Eq, Structural)]
pub enum Ink {
    /// Any pixel that is not nearly transparent.
    Covered,
    /// Any pixel that is not nearly white.
    Dark,
}

/// Alpha above which a pixel counts as covered.
pub const ALPHA_FLOOR: u8 = 3;

/// A channel below this value makes a pixel dark.
pub const WHITE_FLOOR: u8 = 245;

/// The least rectangle that holds all ink, both corners included.
#[derive(Clone, Copy, Debug, PartialEq, Eq, Structural)]
pub struct InkBox {
    pub x0: usize,
    pub y0: usize,
    pub x1: usize,
    pub y1: usize,
}

/// Channel `k` of pixel `(x, y)`.
pub open spec fn channel(data: Seq<u8>, w: int, x: int, y: int, k: int) -> u8 {
    data[(y * w + x) * 4 + k]
}

/// Pixel `(x, y)` is ink.
pub open spec fn is_ink(kind: Ink, data: Seq<u8>, w: int, x: int, y: int) -> bool {
    match kind {
        Ink::Covered => channel(data, w, x, y, 3) > ALPHA_FLOOR,
        Ink::Dark => channel(data, w, x, y, 0) < WHITE_FLOOR || channel(data, w, x, y, 1)
            < WHITE_FLOOR || channel(data, w, x, y, 2) < WHITE_FLOOR,
    }
}

impl Picture {
    /// The image has an extent, and data for just that; its rows are as long as the
    /// PNG library allows.
    pub open spec fn valid(self) -> bool {
        &&& 0 < self.w <= i32::MAX / 4
        &&& 0 < self.h
        &&& self.data.len() == self.w * self.h * 4
    }

    /// Pixel `(x, y)` is ink of this image.
    pub open spec fn inked(self, kind: Ink, x: int, y: int) -> bool {
        0 <= x < self.w && 0 <= y < self.h && is_ink(kind, self.data, self.w as int, x, y)
    }

    /// Some pixel is ink.
    pub open spec fn has_ink(self, kind: Ink) -> bool {
        exists|x: int, y: int| #[trigger] self.inked(kind, x, y)
    }

    /// `b` holds all ink and each of its sides touches some.
    pub open spec fn boxed(self, kind: Ink, b: InkBox) -> bool {
        &&& forall|x: int, y: int| #[trigger]
            self.inked(kind, x, y) ==> b.x0 <= x <= b.x1 && b.y0 <= y <= b.y1
        &&& exists|y: int| #[trigger] self.inked(kind, b.x0 as int, y)
        &&& exists|y: int| #[trigger] self.inked(kind, b.x1 as int, y)
        &&& exists|x: int| #[trigger] self.inked(kind, x, b.y0 as int)
        &&& exists|x: int| #[trigger] self.inked(kind, x, b.y1 as int)
    }

    /// The ink's box.
    pub open spec fn box_of(self, kind: Ink) -> InkBox {
        choose|b: InkBox| #[trigger] self.boxed(kind, b)
    }

    /// Alpha of pixel `(x, y)`; 0 outside the image.
    pub open spec fn alpha(self, x: int, y: int) -> u8 {
        if 0 <= x < self.w && 0 <= y < self.h {
            channel(self.data, self.w as int, x, y, 3)
        } else {
            0
        }
    }
}

impl Picture {
    /// `b` is the box of the ink above row `y` and, in that row, left of column `x`.
    spec fn boxed_so_far(self, kind: Ink, b: InkBox, x: int, y: int) -> bool {
        &&& b.x0 <= b.x1
        &&& b.y0 <= b.y1 <= y
        &&& forall|u: int, v: int| #[trigger]
            self.inked(kind, u, v) && (v < y || v == y && u < x) ==> b.x0 <= u <= b.x1 && b.y0 <= v
                <= b.y1
        &&& exists|v: int| #[trigger] self.inked(kind, b.x0 as int, v)
        &&& exists|v: int| #[trigger] self.inked(kind, b.x1 as int, v)
        &&& exists|u: int| #[trigger] self.inked(kind, u, b.y0 as int)
        &&& exists|u: int| #[trigger] self.inked(kind, u, b.y1 as int)
    }
}

/// An image has one box at most.
pub proof fn lemma_box_unique(img: Picture, kind: Ink, a: InkBox, b: InkBox)
    requires
        img.boxed(kind, a),
        img.boxed(kind, b),
    ensures
        a == b,
{
    let y = choose|y: int| #[trigger] img.inked(kind, a.x0 as int, y);
    let y = choose|y: int| #[trigger] img.inked(kind, b.x0 as int, y);
    let y = choose|y: int| #[trigger] img.inked(kind, a.x1 as int, y);
    let y = choose|y: int| #[trigger] img.inked(kind, b.x1 as int, y);
    let x = choose|x: int| #[trigger] img.inked(kind, x, a.y0 as int);
    let x = choose|x: int| #[trigger] img.inked(kind, x, b.y0 as int);
    let x = choose|x: int| #[trigger] img.inked(kind, x, a.y1 as int);
    let x = choose|x: int| #[trigger] img.inked(kind, x, b.y1 as int);
}

/// A pixel of the image has its four bytes inside the data.
proof fn lemma_pixel_inside(x: int, y: int, w: int, h: int)
    requires
        0 <= x < w,
        0 <= y < h,
    ensures
        0 <= y * w + x < w * h,
        0 <= y * w,
{
    assert(y * w + w <= w * h && 0 <= y * w) by (nonlinear_arith)
        requires
            0 <= y < h,
            0 <= w,
    ;
}

/// The box of the first pixel of ink.
proof fn lemma_box_starts(img: Picture, kind: Ink, b: InkBox, x: int, y: int)
    requires
        forall|u: int, v: int| #[trigger] img.inked(kind, u, v) ==> v > y || v == y && u >= x,
        img.inked(kind, x, y),
        b.x0 == x,
        b.x1 == x,
        b.y0 == y,
        b.y1 == y,
    ensures
        img.boxed_so_far(kind, b, x + 1, y),
{
    assert(img.inked(kind, b.x0 as int, y));
    assert(img.inked(kind, b.x1 as int, y));
    assert(img.inked(kind, x, b.y0 as int));
    assert(img.inked(kind, x, b.y1 as int));
}

/// The box of the ink so far, grown by one more pixel.
proof fn lemma_box_grows(img: Picture, kind: Ink, o: InkBox, b: InkBox, x: int, y: int)
    requires
        img.boxed_so_far(kind, o, x, y),
        img.inked(kind, x, y),
        b.x0 == (if x < o.x0 {
            x
        } else {
            o.x0 as int
        }),
        b.x1 == (if x > o.x1 {
            x
        } else {
            o.x1 as int
        }),
        b.y0 == o.y0,
        b.y1 == y,
    ensures
        img.boxed_so_far(kind, b, x + 1, y),
{
    let v0 = choose|v: int| #[trigger] img.inked(kind, o.x0 as int, v);
    let v1 = choose|v: int| #[trigger] img.inked(kind, o.x1 as int, v);
    let u0 = choose|u: int| #[trigger] img.inked(kind, u, o.y0 as int);
    assert(img.inked(
        kind,
        b.x0 as int,
        if x < o.x0 {
            y
        } else {
            v0
        },
    ));
    assert(img.inked(
        kind,
        b.x1 as int,
        if x > o.x1 {
            y
        } else {
            v1
        },
    ));
    assert(img.inked(kind, u0, b.y0 as int));
    assert(img.inked(kind, x, b.y1 as int));
}

impl Image {
    fn ink_at(&self, kind: Ink, x: usize, y: usize) -> (b: bool)
        requires
            self@.valid(),
            x < self.w,
            y < self.h,
        ensures
            b == self@.inked(kind, x as int, y as int),
    {
        let (w, n): (usize, usize) = (self.w as usize, self.data.len());
        proof {
            lemma_pixel_inside(x as int, y as int, self.w as int, self.h as int);
        }
        let i: usize = (y * w + x) * 4;
        match kind {
            Ink::Covered => self.data[i + 3] > ALPHA_FLOOR,
            Ink::Dark => self.data[i] < WHITE_FLOOR || self.data[i + 1] < WHITE_FLOOR
                || self.data[i + 2] < WHITE_FLOOR,
        }
    }

    /// Finds the ink's box; nothing in an image without ink.
    pub fn ink_box(&self, kind: Ink) -> (r: Option<InkBox>)
        requires
            self@.valid(),
        ensures
            match r {
                Some(b) => {
                    &&& self@.has_ink(kind)
                    &&& self@.boxed(kind, b)
                    &&& b == self@.box_of(kind)
                    &&& b.x0 <= b.x1 < self.w
                    &&& b.y0 <= b.y1 < self.h
                },
                None => !self@.has_ink(kind),
            },
    {
        let (w, h): (usize, usize) = (self.w as usize, self.h as usize);
        let mut found: Option<InkBox> = None;
        let mut y: usize = 0;
        while y < h
            invariant
                self@.valid(),
                w == self.w,
                h == self.h,
                y <= h,
                match found {
                    Some(b) => self@.boxed_so_far(kind, b, 0, y as int),
                    None => forall|u: int, v: int| #[trigger] self@.inked(kind, u, v) ==> v >= y,
                },
            decreases h - y,
        {
            let mut x: usize = 0;
            while x < w
                invariant
                    self@.valid(),
                    w == self.w,
                    h == self.h,
                    x <= w,
                    y < h,
                    match found {
                        Some(b) => self@.boxed_so_far(kind, b, x as int, y as int),
                        None => forall|u: int, v: int| #[trigger]
                            self@.inked(kind, u, v) ==> v > y || v == y && u >= x,
                    },
                decreases w - x,
            {
                if self.ink_at(kind, x, y) {
                    let ghost before = found;
                    let b: InkBox = match found {
                        None => InkBox { x0: x, y0: y, x1: x, y1: y },
                        Some(b) => InkBox {
                            x0: if x < b.x0 {
                                x
                            } else {
                                b.x0
                            },
                            y0: b.y0,
                            x1: if x > b.x1 {
                                x
                            } else {
                                b.x1
                            },
                            y1: y,
                        },
                    };
                    found = Some(b);
                    proof {
                        match before {
                            Some(o) => {
                                lemma_box_grows(self@, kind, o, b, x as int, y as int);
                            },
                            None => {
                                lemma_box_starts(self@, kind, b, x as int, y as int);
                            },
                        }
                    }
                } else {
                    proof {
                        match found {
                            Some(b) => {
                                assert(self@.boxed_so_far(kind, b, x + 1, y as int));
                            },
                            None => {},
                        }
                    }
                }
                x += 1;
            }
            y += 1;
        }
        match found {
            Some(b) => {
                proof {
                    assert(self@.boxed(kind, b));
                    lemma_box_unique(self@, kind, b, self@.box_of(kind));
                    let v = choose|v: int| #[trigger] self@.inked(kind, b.x0 as int, v);
                    let v = choose|v: int| #[trigger] self@.inked(kind, b.x1 as int, v);
                    let u = choose|u: int| #[trigger] self@.inked(kind, u, b.y0 as int);
                    let u = choose|u: int| #[trigger] self@.inked(kind, u, b.y1 as int);
                }
            },
            None => {},
        }
        found
    }
}

// ---------------------------------------------------------------- cropping

/// Columns kept free on both sides of a formula.
pub const SIDE_MARGIN: usize = 12;

/// Rows kept free above and below a formula.
pub const EDGE_MARGIN: usize = 3;

/// Distance of the lower edge of an inline formula from its baseline.
pub const INLINE_DESCENT: usize = 9;

/// Most rows by which the lower edge of an inline formula lies below the upper one.
pub const INLINE_LIMIT: usize = 4000;

/// Margin of a cropped picture.
pub const CROP_MARGIN: usize = 6;

/// `a - b`, but not below 0.
pub open spec fn less(a: int, b: int) -> int {
    if a >= b {
        a - b
    } else {
        0
    }
}

/// The lesser number.
pub open spec fn least(a: int, b: int) -> int {
    if a <= b {
        a
    } else {
        b
    }
}

/// The greater number.
pub open spec fn most(a: int, b: int) -> int {
    if a >= b {
        a
    } else {
        b
    }
}

/// The part of a formula image that is kept. An inline formula ends a fixed
/// distance below its baseline, so that all of them sit alike in the line: a short
/// one is padded, also beyond the image, and very deep ink is cut off.
pub open spec fn formula_crop(b: InkBox, w: int, h: int, inline: bool, baseline: int) -> (
    int,
    int,
    int,
    int,
) {
    let top = less(b.y0 as int, EDGE_MARGIN as int);
    (
        less(b.x0 as int, SIDE_MARGIN as int),
        top,
        least(b.x1 + SIDE_MARGIN, w - 1),
        if inline {
            least(most(baseline + INLINE_DESCENT, top), top + INLINE_LIMIT)
        } else {
            least(b.y1 + EDGE_MARGIN, h - 1)
        },
    )
}

/// The part of a picture that is kept.
pub open spec fn picture_crop(b: InkBox, w: int, h: int) -> (int, int, int, int) {
    (
        less(b.x0 as int, CROP_MARGIN as int),
        less(b.y0 as int, CROP_MARGIN as int),
        least(b.x1 + CROP_MARGIN, w - 1),
        least(b.y1 + CROP_MARGIN, h - 1),
    )
}

/// The first `n` pixels of row `y` from column `x` on, as black ink: the alpha of
/// the image, and nothing outside it.
pub open spec fn black_row(img: Picture, x: int, y: int, n: int) -> Seq<u8>
    decreases n,
{
    if n <= 0 {
        Seq::empty()
    } else {
        black_row(img, x, y, n - 1) + seq![0u8, 0u8, 0u8, img.alpha(x + n - 1, y)]
    }
}

/// The first `n` rows from `(x, y)` on, `w` pixels each, as black ink.
pub open spec fn black_rows(img: Picture, x: int, y: int, w: int, n: int) -> Seq<u8>
    decreases n,
{
    if n <= 0 {
        Seq::empty()
    } else {
        black_rows(img, x, y, w, n - 1) + black_row(img, x, y + n - 1, w)
    }
}

/// The first `n` pixels of row `y` from column `x` on.
pub open spec fn pixel_row(img: Picture, x: int, y: int, n: int) -> Seq<u8>
    decreases n,
{
    if n <= 0 {
        Seq::empty()
    } else {
        pixel_row(img, x, y, n - 1) + seq![
            channel(img.data, img.w as int, x + n - 1, y, 0),
            channel(img.data, img.w as int, x + n - 1, y, 1),
            channel(img.data, img.w as int, x + n - 1, y, 2),
            channel(img.data, img.w as int, x + n - 1, y, 3),
        ]
    }
}

/// The first `n` rows from `(x, y)` on, `w` pixels each.
pub open spec fn pixel_rows(img: Picture, x: int, y: int, w: int, n: int) -> Seq<u8>
    decreases n,
{
    if n <= 0 {
        Seq::empty()
    } else {
        pixel_rows(img, x, y, w, n - 1) + pixel_row(img, x, y + n - 1, w)
    }
}

proof fn lemma_pixel_row_len(img: Picture, x: int, y: int, n: int)
    requires
        0 <= n,
    ensures
        pixel_row(img, x, y, n).len() == n * 4,
    decreases n,
{
    if n > 0 {
        lemma_pixel_row_len(img, x, y, n - 1);
    }
}

proof fn lemma_pixel_rows_len(img: Picture, x: int, y: int, w: int, n: int)
    requires
        0 <= n,
        0 <= w,
    ensures
        pixel_rows(img, x, y, w, n).len() == w * n * 4,
    decreases n,
{
    if n > 0 {
        lemma_pixel_rows_len(img, x, y, w, n - 1);
        lemma_pixel_row_len(img, x, y + n - 1, w);
        assert(w * (n - 1) * 4 + w * 4 == w * n * 4) by (nonlinear_arith);
    } else {
        assert(w * 0 * 4 == 0) by (nonlinear_arith);
    }
}

impl Image {
    fn alpha_at(&self, x: usize, y: usize) -> (a: u8)
        requires
            self@.valid(),
        ensures
            a == self@.alpha(x as int, y as int),
    {
        let (w, h, n): (usize, usize, usize) = (self.w as usize, self.h as usize, self.data.len());
        if x < w && y < h {
            proof {
                lemma_pixel_inside(x as int, y as int, self.w as int, self.h as int);
            }
            self.data[(y * w + x) * 4 + 3]
        } else {
            0
        }
    }

    fn black_part(&self, x0: usize, y0: usize, w: usize, h: usize) -> (data: Vec<u8>)
        requires
            self@.valid(),
            x0 + w <= usize::MAX,
            y0 + h <= usize::MAX,
        ensures
            data@ == black_rows(self@, x0 as int, y0 as int, w as int, h as int),
    {
        let mut data: Vec<u8> = Vec::new();
        let mut y: usize = 0;
        while y < h
            invariant
                self@.valid(),
                x0 + w <= usize::MAX,
                y0 + h <= usize::MAX,
                y <= h,
                data@ == black_rows(self@, x0 as int, y0 as int, w as int, y as int),
            decreases h - y,
        {
            let ghost rows = data@;
            let mut x: usize = 0;
            assert(data@ =~= rows + black_row(self@, x0 as int, y0 + y, 0));
            while x < w
                invariant
                    self@.valid(),
                    x0 + w <= usize::MAX,
                    y0 + h <= usize::MAX,
                    y < h,
                    x <= w,
                    data@ == rows + black_row(self@, x0 as int, y0 + y, x as int),
                decreases w - x,
            {
                let a: u8 = self.alpha_at(x0 + x, y0 + y);
                let ghost before = data@;
                data.push(0);
                data.push(0);
                data.push(0);
                data.push(a);
                x += 1;
                assert(data@ =~= before + seq![0u8, 0u8, 0u8, a]);
                assert(data@ =~= rows + black_row(self@, x0 as int, y0 + y, x as int));
            }
            y += 1;
        }
        data
    }

    fn pixel_part(&self, x0: usize, y0: usize, w: usize, h: usize) -> (data: Vec<u8>)
        requires
            self@.valid(),
            x0 + w <= self.w,
            y0 + h <= self.h,
        ensures
            data@ == pixel_rows(self@, x0 as int, y0 as int, w as int, h as int),
    {
        let mut data: Vec<u8> = Vec::new();
        let (iw, n): (usize, usize) = (self.w as usize, self.data.len());
        let mut y: usize = 0;
        while y < h
            invariant
                self@.valid(),
                iw == self.w,
                n == self.data@.len(),
                x0 + w <= self.w,
                y0 + h <= self.h,
                y <= h,
                data@ == pixel_rows(self@, x0 as int, y0 as int, w as int, y as int),
            decreases h - y,
        {
            let ghost rows = data@;
            let mut x: usize = 0;
            assert(data@ =~= rows + pixel_row(self@, x0 as int, y0 + y, 0));
            while x < w
                invariant
                    self@.valid(),
                    iw == self.w,
                    n == self.data@.len(),
                    x0 + w <= self.w,
                    y0 + h <= self.h,
                    y < h,
                    x <= w,
                    data@ == rows + pixel_row(self@, x0 as int, y0 + y, x as int),
                decreases w - x,
            {
                proof {
                    lemma_pixel_inside(x0 + x, y0 + y, self.w as int, self.h as int);
                }
                let i: usize = ((y0 + y) * iw + x0 + x) * 4;
                let ghost before = data@;
                data.push(self.data[i]);
                data.push(self.data[i + 1]);
                data.push(self.data[i + 2]);
                data.push(self.data[i + 3]);
                assert(data@ =~= before + seq![
                    self.data@[i as int],
                    self.data@[i + 1],
                    self.data@[i + 2],
                    self.data@[i + 3],
                ]);
                x += 1;
                assert(data@ =~= rows + pixel_row(self@, x0 as int, y0 + y, x as int));
            }
            y += 1;
        }
        data
    }
}

/// A picture cropped to its ink and a small margin; one without ink is whole.
pub open spec fn cropped(img: Picture) -> Picture {
    if img.has_ink(Ink::Dark) {
        let c = picture_crop(img.box_of(Ink::Dark), img.w as int, img.h as int);
        Picture {
            w: (c.2 - c.0 + 1) as u32,
            h: (c.3 - c.1 + 1) as u32,
            data: pixel_rows(img, c.0, c.1, c.2 - c.0 + 1, c.3 - c.1 + 1),
        }
    } else {
        img
    }
}

/// Crops a picture on white.
pub fn autocrop(img: Image) -> (out: Image)
    requires
        img@.valid(),
    ensures
        out@.valid(),
        out@ == cropped(img@),
{
    match img.ink_box(Ink::Dark) {
        None => img,
        Some(b) => {
            let (w, h): (usize, usize) = (img.w as usize, img.h as usize);
            let x0: usize = if b.x0 >= CROP_MARGIN {
                b.x0 - CROP_MARGIN
            } else {
                0
            };
            let y0: usize = if b.y0 >= CROP_MARGIN {
                b.y0 - CROP_MARGIN
            } else {
                0
            };
            let x1: usize = if w - b.x1 > CROP_MARGIN {
                b.x1 + CROP_MARGIN
            } else {
                w - 1
            };
            let y1: usize = if h - b.y1 > CROP_MARGIN {
                b.y1 + CROP_MARGIN
            } else {
                h - 1
            };
            let (cw, ch): (usize, usize) = (x1 - x0 + 1, y1 - y0 + 1);
            let data: Vec<u8> = img.pixel_part(x0, y0, cw, ch);
            proof {
                lemma_pixel_rows_len(img@, x0 as int, y0 as int, cw as int, ch as int);
            }
            Image { w: cw as u32, h: ch as u32, data }
        },
    }
}

/// An image of this size can be held.
pub open spec fn holdable(w: int, h: int) -> bool {
    0 < w <= i32::MAX / 4 && 0 < h <= u32::MAX && w * h * 4 <= usize::MAX
}

/// A formula cropped to its ink, in pure black. Nothing without ink, or where the
/// result is too large to be held.
pub open spec fn formula(img: Picture, inline: bool, baseline: int) -> Option<Picture> {
    let c = formula_crop(
        img.box_of(Ink::Covered),
        img.w as int,
        img.h as int,
        inline,
        baseline,
    );
    let (w, h) = (c.2 - c.0 + 1, c.3 - c.1 + 1);
    if img.has_ink(Ink::Covered) && holdable(w, h) {
        Some(Picture { w: w as u32, h: h as u32, data: black_rows(img, c.0, c.1, w, h) })
    } else {
        None
    }
}

proof fn lemma_black_row_len(img: Picture, x: int, y: int, n: int)
    requires
        0 <= n,
    ensures
        black_row(img, x, y, n).len() == n * 4,
    decreases n,
{
    if n > 0 {
        lemma_black_row_len(img, x, y, n - 1);
    }
}

proof fn lemma_black_rows_len(img: Picture, x: int, y: int, w: int, n: int)
    requires
        0 <= n,
        0 <= w,
    ensures
        black_rows(img, x, y, w, n).len() == w * n * 4,
    decreases n,
{
    if n > 0 {
        lemma_black_rows_len(img, x, y, w, n - 1);
        lemma_black_row_len(img, x, y + n - 1, w);
        assert(w * (n - 1) * 4 + w * 4 == w * n * 4) by (nonlinear_arith);
    } else {
        assert(w * 0 * 4 == 0) by (nonlinear_arith);
    }
}

/// The part of a formula image that is kept.
fn formula_bounds(b: InkBox, w: usize, h: usize, inline: bool, baseline: usize) -> (r: (
    usize,
    usize,
    usize,
    u64,
))
    requires
        b.x0 <= b.x1 < w <= u32::MAX,
        b.y0 <= b.y1 < h <= u32::MAX,
    ensures
        (r.0 as int, r.1 as int, r.2 as int, r.3 as int) == formula_crop(
            b,
            w as int,
            h as int,
            inline,
            baseline as int,
        ),
        r.0 <= r.2 < w,
        r.1 <= b.y0,
        r.1 <= r.3,
        r.3 <= 0x2_0000_0000,
{
    let x0: usize = if b.x0 >= SIDE_MARGIN {
        b.x0 - SIDE_MARGIN
    } else {
        0
    };
    let x1: usize = if w - b.x1 > SIDE_MARGIN {
        b.x1 + SIDE_MARGIN
    } else {
        w - 1
    };
    let y0: usize = if b.y0 >= EDGE_MARGIN {
        b.y0 - EDGE_MARGIN
    } else {
        0
    };
    let y1: u64 = if inline {
        let limit: u64 = y0 as u64 + INLINE_LIMIT as u64;
        if baseline as u64 >= limit {
            limit
        } else {
            let end: u64 = baseline as u64 + INLINE_DESCENT as u64;
            if end < y0 as u64 {
                y0 as u64
            } else if end <= limit {
                end
            } else {
                limit
            }
        }
    } else if h - b.y1 > EDGE_MARGIN {
        b.y1 as u64 + EDGE_MARGIN as u64
    } else {
        h as u64 - 1
    };
    (x0, y0, x1, y1)
}

/// Crops a formula to its ink and makes the ink pure black.
pub fn crop_formula(img: &Image, inline: bool, baseline: usize) -> (r: Option<Image>)
    requires
        img@.valid(),
    ensures
        match r {
            Some(out) => formula(img@, inline, baseline as int) == Some(out@) && out@.valid(),
            None => formula(img@, inline, baseline as int) is None,
        },
{
    let b: InkBox = match img.ink_box(Ink::Covered) {
        Some(b) => b,
        None => return None,
    };
    let h: usize = img.h as usize;
    let (x0, y0, x1, y1): (usize, usize, usize, u64) = formula_bounds(
        b,
        img.w as usize,
        h,
        inline,
        baseline,
    );
    let (cw, ch): (u64, u64) = (x1 as u64 - x0 as u64 + 1, y1 - y0 as u64 + 1);
    if ch > u32::MAX as u64 {
        return None;
    }
    assert(cw * ch <= 0x2000_0000 * 0x1_0000_0000) by (nonlinear_arith)
        requires
            0 <= cw <= 0x2000_0000,
            0 <= ch <= 0x1_0000_0000,
    ;
    if cw * ch * 4 > usize::MAX as u64 {
        return None;
    }
    let n: usize = img.data.len();
    assert(h * 4 <= n) by (nonlinear_arith)
        requires
            n == img.w * h * 4,
            img.w >= 1,
            h >= 0,
    ;
    assert(ch * 4 <= cw * ch * 4) by (nonlinear_arith)
        requires
            cw >= 1,
            ch >= 0,
    ;
    let data: Vec<u8> = img.black_part(x0, y0, cw as usize, ch as usize);
    proof {
        lemma_black_rows_len(img@, x0 as int, y0 as int, cw as int, ch as int);
    }
    Some(Image { w: cw as u32, h: ch as u32, data })
}

// --------------------------------------------------------------------- PNG

/// What `tiny_skia::Pixmap::decode_png` makes of some bytes.
pub uninterp spec fn decoded_png(png: Seq<u8>) -> Option<Picture>;

/// Calls `tiny_skia::Pixmap::decode_png`, which decodes a PNG file to premultiplied
/// RGBA or refuses it. What comes out depends on the bytes alone, has an extent,
/// and has four bytes for each pixel and rows of at most `i32::MAX` bytes. Which
/// pixels it holds is not said.
#[verifier::external_body]
fn decode_png(png: &[u8]) -> (r: Option<Image>)
    ensures
        match r {
            Some(img) => decoded_png(png@) == Some(img@) && img@.valid(),
            None => decoded_png(png@) is None,
        },
{
    let p = tiny_skia::Pixmap::decode_png(png).ok()?;
    Some(Image { w: p.width(), h: p.height(), data: p.take() })
}

/// What `tiny_skia::Pixmap::encode_png` makes of a picture.
pub uninterp spec fn encoded_png(img: Picture) -> Option<Seq<u8>>;

/// Calls `tiny_skia::Pixmap::encode_png`, which stores premultiplied RGBA pixels as
/// a PNG file or fails. What comes out depends on the picture alone; which bytes
/// they are is not said.
#[verifier::external_body]
fn encode_png(img: Image) -> (r: Option<Vec<u8>>)
    requires
        img@.valid(),
    ensures
        match r {
            Some(png) => encoded_png(img@) == Some(png@),
            None => encoded_png(img@) is None,
        },
{
    let size = tiny_skia::IntSize::from_wh(img.w, img.h)?;
    tiny_skia::Pixmap::from_vec(img.data, size)?.encode_png().ok()
}

/// The PNG file of a formula with its size, from the file of the raw formula.
pub open spec fn finalized(png: Seq<u8>, inline: bool, baseline: int) -> Option<
    (Seq<u8>, u32, u32),
> {
    match decoded_png(png) {
        None => None,
        Some(img) => match formula(img, inline, baseline) {
            None => None,
            Some(f) => match encoded_png(f) {
                None => None,
                Some(out) => Some((out, f.w, f.h)),
            },
        },
    }
}

/// Decodes the PNG file of a raw formula, crops it, makes the ink black and stores
/// it again. Gives the new file and its size in pixels. `baseline` is the row of
/// the formula's baseline.
pub fn finalize_math_png(png: &[u8], inline: bool, baseline: usize) -> (r: Option<
    (Vec<u8>, u32, u32),
>)
    ensures
        match r {
            Some((out, w, h)) => finalized(png@, inline, baseline as int) == Some((out@, w, h)),
            None => finalized(png@, inline, baseline as int) is None,
        },
{
    let img: Image = match decode_png(png) {
        Some(img) => img,
        None => return None,
    };
    let f: Image = match crop_formula(&img, inline, baseline) {
        Some(f) => f,
        None => return None,
    };
    let (w, h): (u32, u32) = (f.w, f.h);
    match encode_png(f) {
        Some(out) => Some((out, w, h)),
        None => None,
    }
}

/// Crops a picture on white and stores it as a PNG file.
pub fn picture_png(img: Image) -> (r: Option<Vec<u8>>)
    requires
        img@.valid(),
    ensures
        match r {
            Some(png) => encoded_png(cropped(img@)) == Some(png@),
            None => encoded_png(cropped(img@)) is None,
        },
{
    encode_png(autocrop(img))
}

/// What `png::Encoder` makes of an RGBA image.
pub uninterp spec fn screen_png(rgba: Seq<u8>, w: u32, h: u32) -> Option<Seq<u8>>;

/// Calls `png::Encoder` with `write_header` and `write_image_data`, which store an
/// RGBA image as a PNG file with fast compression or fail. What comes out depends
/// on the image alone; which bytes they are is not said.
#[verifier::external_body]
fn encode_screen(rgba: &[u8], w: u32, h: u32) -> (r: Option<Vec<u8>>)
    requires
        w > 0,
        h > 0,
        rgba@.len() == w * h * 4,
    ensures
        match r {
            Some(png) => screen_png(rgba@, w, h) == Some(png@),
            None => screen_png(rgba@, w, h) is None,
        },
{
    let mut out = Vec::new();
    let mut enc = png::Encoder::new(&mut out, w, h);
    enc.set_color(png::ColorType::Rgba);
    enc.set_depth(png::BitDepth::Eight);
    enc.set_compression(png::Compression::Fast);
    enc.write_header().ok()?.write_image_data(rgba).ok()?;
    Some(out)
}

/// The size is that of the data.
pub open spec fn sized(rgba: Seq<u8>, w: u32, h: u32) -> bool {
    w > 0 && h > 0 && rgba.len() == w * h * 4
}

/// Stores an RGBA image as a PNG file. Nothing where the size is not that of the
/// data.
pub fn save_png(rgba: &[u8], w: u32, h: u32) -> (r: Option<Vec<u8>>)
    ensures
        match r {
            Some(png) => sized(rgba@, w, h) && screen_png(rgba@, w, h) == Some(png@),
            None => !sized(rgba@, w, h) || screen_png(rgba@, w, h) is None,
        },
{
    assert(0 <= w * h <= 0xffff_ffff * 0xffff_ffff) by (nonlinear_arith)
        requires
            0 <= w <= 0xffff_ffff,
            0 <= h <= 0xffff_ffff,
    ;
    if w == 0 || h == 0 || w as u128 * h as u128 * 4 != rgba.len() as u128 {
        return None;
    }
    encode_screen(rgba, w, h)
}

// -------------------------------------------------------------------- laws

/// Cropping a display formula never cuts ink off.
pub proof fn law_crop_keeps_ink(img: Picture, b: InkBox, baseline: int, x: int, y: int)
    requires
        img.valid(),
        img.boxed(Ink::Covered, b),
        img.inked(Ink::Covered, x, y),
    ensures
        ({
            let c = formula_crop(b, img.w as int, img.h as int, false, baseline);
            c.0 <= x <= c.2 && c.1 <= y <= c.3
        }),
{
}

/// The least number from `lo` on, below `hi`, with a property that some of them have.
proof fn lemma_first(p: spec_fn(int) -> bool, lo: int, hi: int, some: int) -> (m: int)
    requires
        lo <= some < hi,
        p(some),
    ensures
        lo <= m < hi,
        p(m),
        forall|k: int| lo <= k < m ==> !#[trigger] p(k),
    decreases hi - lo,
{
    if p(lo) {
        lo
    } else {
        lemma_first(p, lo + 1, hi, some)
    }
}

/// The greatest number from `lo` on, below `hi`, with a property that some have.
proof fn lemma_last(p: spec_fn(int) -> bool, lo: int, hi: int, some: int) -> (m: int)
    requires
        lo <= some < hi,
        p(some),
    ensures
        lo <= m < hi,
        p(m),
        forall|k: int| m < k < hi ==> !#[trigger] p(k),
    decreases hi - lo,
{
    if p(hi - 1) {
        hi - 1
    } else {
        lemma_last(p, lo, hi - 1, some)
    }
}

/// Ink has a box, and it lies in the image.
proof fn lemma_box_exists(img: Picture, kind: Ink)
    requires
        img.has_ink(kind),
    ensures
        img.boxed(kind, img.box_of(kind)),
        img.box_of(kind).x0 <= img.box_of(kind).x1 < img.w,
        img.box_of(kind).y0 <= img.box_of(kind).y1 < img.h,
{
    let (x, y) = choose|x: int, y: int| #[trigger] img.inked(kind, x, y);
    let col = |u: int| exists|v: int| #[trigger] img.inked(kind, u, v);
    let row = |v: int| exists|u: int| #[trigger] img.inked(kind, u, v);
    assert(col(x) && row(y));
    let x0 = lemma_first(col, 0, img.w as int, x);
    let x1 = lemma_last(col, 0, img.w as int, x);
    let y0 = lemma_first(row, 0, img.h as int, y);
    let y1 = lemma_last(row, 0, img.h as int, y);
    let b = InkBox { x0: x0 as usize, y0: y0 as usize, x1: x1 as usize, y1: y1 as usize };
    assert forall|u: int, v: int| #[trigger] img.inked(kind, u, v) implies b.x0 <= u <= b.x1 && b.y0
        <= v <= b.y1 by {
        assert(col(u) && row(v));
    }
    assert(img.boxed(kind, b));
    lemma_box_unique(img, kind, b, img.box_of(kind));
}

/// A pixel of a row that was cut out.
proof fn lemma_pixel_row_channel(img: Picture, x: int, y: int, n: int, u: int, k: int)
    requires
        0 <= u < n,
        0 <= k < 4,
    ensures
        pixel_row(img, x, y, n)[u * 4 + k] == channel(img.data, img.w as int, x + u, y, k),
    decreases n,
{
    lemma_pixel_row_len(img, x, y, n - 1);
    if u < n - 1 {
        lemma_pixel_row_channel(img, x, y, n - 1, u, k);
    }
}

/// A pixel of a part that was cut out.
proof fn lemma_pixel_rows_channel(
    img: Picture,
    x: int,
    y: int,
    w: int,
    n: int,
    u: int,
    v: int,
    k: int,
)
    requires
        0 <= u < w,
        0 <= v < n,
        0 <= k < 4,
    ensures
        channel(pixel_rows(img, x, y, w, n), w, u, v, k) == channel(
            img.data,
            img.w as int,
            x + u,
            y + v,
            k,
        ),
    decreases n,
{
    lemma_pixel_rows_len(img, x, y, w, n - 1);
    lemma_pixel_row_len(img, x, y + n - 1, w);
    let i = (v * w + u) * 4 + k;
    if v < n - 1 {
        lemma_pixel_inside(u, v, w, n - 1);
        lemma_pixel_rows_channel(img, x, y, w, n - 1, u, v, k);
        assert(i < pixel_rows(img, x, y, w, n - 1).len());
    } else {
        assert(w * (n - 1) * 4 == v * w * 4) by (nonlinear_arith)
            requires
                v == n - 1,
        ;
        lemma_pixel_inside(u, v, w, n);
        lemma_pixel_row_channel(img, x, y + n - 1, w, u, k);
        assert(i - pixel_rows(img, x, y, w, n - 1).len() == u * 4 + k);
    }
}

/// Data of an image of this size are determined by its channels.
proof fn lemma_channels_determine(a: Seq<u8>, b: Seq<u8>, w: int, h: int)
    requires
        0 < w,
        0 <= h,
        a.len() == w * h * 4,
        b.len() == w * h * 4,
        forall|u: int, v: int, k: int|
            0 <= u < w && 0 <= v < h && 0 <= k < 4 ==> #[trigger] channel(a, w, u, v, k) == channel(
                b,
                w,
                u,
                v,
                k,
            ),
    ensures
        a == b,
{
    assert forall|i: int| 0 <= i < a.len() implies a[i] == b[i] by {
        let (p, k) = (i / 4, i % 4);
        let (v, u) = (p / w, p % w);
        vstd::arithmetic::div_mod::lemma_fundamental_div_mod(p, w);
        assert(w * v == v * w) by (nonlinear_arith);
        assert(0 <= v < h) by (nonlinear_arith)
            requires
                p == v * w + u,
                0 <= u < w,
                0 <= p < w * h,
        ;
        assert(channel(a, w, u, v, k) == channel(b, w, u, v, k));
    }
    assert(a =~= b);
}

/// Cropping a picture twice is cropping it once.
pub proof fn law_crop_twice(img: Picture)
    requires
        img.valid(),
    ensures
        cropped(cropped(img)) == cropped(img),
{
    if img.has_ink(Ink::Dark) {
        let b = img.box_of(Ink::Dark);
        lemma_box_exists(img, Ink::Dark);
        let c = picture_crop(b, img.w as int, img.h as int);
        let (w, h) = (c.2 - c.0 + 1, c.3 - c.1 + 1);
        let once = cropped(img);
        lemma_pixel_rows_len(img, c.0, c.1, w, h);
        lemma_inked_in_crop(img, c.0, c.1, once);
        let inner = InkBox {
            x0: (b.x0 - c.0) as usize,
            y0: (b.y0 - c.1) as usize,
            x1: (b.x1 - c.0) as usize,
            y1: (b.y1 - c.1) as usize,
        };
        lemma_box_in_crop(img, b, c.0, c.1, once, inner);
        lemma_box_unique(once, Ink::Dark, inner, once.box_of(Ink::Dark));
        let all = picture_crop(inner, w, h);
        assert(all == (0int, 0int, w - 1, h - 1));
        let again = pixel_rows(once, 0, 0, w, h);
        lemma_pixel_rows_len(once, 0, 0, w, h);
        assert forall|u: int, v: int, k: int|
            0 <= u < w && 0 <= v < h && 0 <= k < 4 implies #[trigger] channel(again, w, u, v, k)
            == channel(once.data, w, u, v, k) by {
            lemma_pixel_rows_channel(once, 0, 0, w, h, u, v, k);
        }
        lemma_channels_determine(again, once.data, w, h);
    }
}

/// The ink of a part that was cut out is that of the image.
proof fn lemma_inked_in_crop(img: Picture, x: int, y: int, part: Picture)
    requires
        0 <= x,
        0 <= y,
        x + part.w <= img.w,
        y + part.h <= img.h,
        part.data == pixel_rows(img, x, y, part.w as int, part.h as int),
    ensures
        forall|u: int, v: int| #[trigger]
            part.inked(Ink::Dark, u, v) == (0 <= u < part.w && 0 <= v < part.h && img.inked(
                Ink::Dark,
                x + u,
                y + v,
            )),
{
    assert forall|u: int, v: int| #[trigger]
        part.inked(Ink::Dark, u, v) == (0 <= u < part.w && 0 <= v < part.h && img.inked(
            Ink::Dark,
            x + u,
            y + v,
        )) by {
        if 0 <= u < part.w && 0 <= v < part.h {
            lemma_pixel_rows_channel(img, x, y, part.w as int, part.h as int, u, v, 0);
            lemma_pixel_rows_channel(img, x, y, part.w as int, part.h as int, u, v, 1);
            lemma_pixel_rows_channel(img, x, y, part.w as int, part.h as int, u, v, 2);
        }
    }
}

/// A part that holds all ink has the ink's box, moved.
proof fn lemma_box_in_crop(img: Picture, b: InkBox, x: int, y: int, part: Picture, inner: InkBox)
    requires
        img.boxed(Ink::Dark, b),
        0 <= x <= b.x0 <= b.x1 < x + part.w,
        0 <= y <= b.y0 <= b.y1 < y + part.h,
        inner.x0 == b.x0 - x,
        inner.y0 == b.y0 - y,
        inner.x1 == b.x1 - x,
        inner.y1 == b.y1 - y,
        forall|u: int, v: int| #[trigger]
            part.inked(Ink::Dark, u, v) == (0 <= u < part.w && 0 <= v < part.h && img.inked(
                Ink::Dark,
                x + u,
                y + v,
            )),
    ensures
        part.boxed(Ink::Dark, inner),
        part.has_ink(Ink::Dark),
{
    let v0 = choose|v: int| #[trigger] img.inked(Ink::Dark, b.x0 as int, v);
    let v1 = choose|v: int| #[trigger] img.inked(Ink::Dark, b.x1 as int, v);
    let u0 = choose|u: int| #[trigger] img.inked(Ink::Dark, u, b.y0 as int);
    let u1 = choose|u: int| #[trigger] img.inked(Ink::Dark, u, b.y1 as int);
    assert(part.inked(Ink::Dark, inner.x0 as int, v0 - y));
    assert(part.inked(Ink::Dark, inner.x1 as int, v1 - y));
    assert(part.inked(Ink::Dark, u0 - x, inner.y0 as int));
    assert(part.inked(Ink::Dark, u1 - x, inner.y1 as int));
}

/// All inline formulas end at one distance from their baselines, whatever their ink,
/// as long as that edge is not above the upper one or too far below it.
pub proof fn law_inline_formulas_align(b: InkBox, w: int, h: int, baseline: int)
    requires
        less(b.y0 as int, EDGE_MARGIN as int) <= baseline + INLINE_DESCENT,
        baseline + INLINE_DESCENT <= less(b.y0 as int, EDGE_MARGIN as int) + INLINE_LIMIT,
    ensures
        formula_crop(b, w, h, true, baseline).3 == baseline + INLINE_DESCENT,
{
}

/// What counts as ink: a pixel with an alpha above 3, or on white one with a channel
/// below 245. Pixels lie row by row, four bytes each, alpha last.
pub proof fn law_what_counts_as_ink(data: Seq<u8>, w: int, x: int, y: int)
    ensures
        ({
            let i = 4 * (y * w + x);
            &&& is_ink(Ink::Covered, data, w, x, y) == (data[i + 3] >= 4)
            &&& is_ink(Ink::Dark, data, w, x, y) == (data[i] <= 244 || data[i + 1] <= 244 || data[i
                + 2] <= 244)
        }),
{
}

/// A display formula is cut out with 12 columns on both sides of its ink and 3 rows above
/// and below it, as far as the image goes. An inline formula is cut out alike but for its
/// lower edge, which lies 9 rows below its baseline, within 4000 rows from the upper one.
pub proof fn law_formula_is_cut_out_with_a_margin(
    b: InkBox,
    w: int,
    h: int,
    inline: bool,
    baseline: int,
)
    requires
        b.x0 <= b.x1 < w,
        b.y0 <= b.y1 < h,
    ensures
        ({
            let c = formula_crop(b, w, h, inline, baseline);
            &&& b.x0 >= 12 ==> c.0 == b.x0 - 12
            &&& b.x0 < 12 ==> c.0 == 0
            &&& b.y0 >= 3 ==> c.1 == b.y0 - 3
            &&& b.y0 < 3 ==> c.1 == 0
            &&& b.x1 + 12 < w ==> c.2 == b.x1 + 12
            &&& b.x1 + 12 >= w ==> c.2 == w - 1
            &&& !inline && b.y1 + 3 < h ==> c.3 == b.y1 + 3
            &&& !inline && b.y1 + 3 >= h ==> c.3 == h - 1
            &&& inline && c.1 <= baseline + 9 <= c.1 + 4000 ==> c.3 == baseline + 9
            &&& inline && baseline + 9 < c.1 ==> c.3 == c.1
            &&& inline && baseline + 9 > c.1 + 4000 ==> c.3 == c.1 + 4000
        }),
{
}

proof fn lemma_black_row_pixel(img: Picture, x: int, y: int, n: int, u: int)
    requires
        0 <= u < n,
    ensures
        black_row(img, x, y, n)[u * 4] == 0,
        black_row(img, x, y, n)[u * 4 + 1] == 0,
        black_row(img, x, y, n)[u * 4 + 2] == 0,
        black_row(img, x, y, n)[u * 4 + 3] == img.alpha(x + u, y),
    decreases n,
{
    lemma_black_row_len(img, x, y, n - 1);
    if u < n - 1 {
        lemma_black_row_pixel(img, x, y, n - 1, u);
    }
}

proof fn lemma_black_rows_pixel(img: Picture, x: int, y: int, w: int, n: int, u: int, v: int)
    requires
        0 <= u < w,
        0 <= v < n,
    ensures
        ({
            let d = black_rows(img, x, y, w, n);
            let i = (v * w + u) * 4;
            &&& d[i] == 0 && d[i + 1] == 0 && d[i + 2] == 0
            &&& d[i + 3] == img.alpha(x + u, y + v)
        }),
    decreases n,
{
    lemma_black_rows_len(img, x, y, w, n - 1);
    lemma_black_row_len(img, x, y + n - 1, w);
    let i = (v * w + u) * 4;
    if v < n - 1 {
        lemma_pixel_inside(u, v, w, n - 1);
        lemma_black_rows_pixel(img, x, y, w, n - 1, u, v);
        assert(i + 3 < black_rows(img, x, y, w, n - 1).len());
    } else {
        assert(w * (n - 1) * 4 == v * w * 4) by (nonlinear_arith)
            requires
                v == n - 1,
        ;
        lemma_pixel_inside(u, v, w, n);
        lemma_black_row_pixel(img, x, y + n - 1, w, u);
        assert(i - black_rows(img, x, y, w, n - 1).len() == u * 4);
    }
}

/// A cropped formula is the part that was cut out, in pure black, with the alpha of the
/// image and nothing beside the image. There is one for every image with ink, unless it
/// is too large to be held.
pub proof fn law_formula_is_black_with_the_alpha_of_the_image(
    img: Picture,
    inline: bool,
    baseline: int,
    u: int,
    v: int,
)
    requires
        img.valid(),
        0 <= baseline,
    ensures
        formula(img, inline, baseline) is Some ==> img.has_ink(Ink::Covered),
        img.has_ink(Ink::Covered) && !inline && img.data.len() <= usize::MAX && img.h <= u32::MAX
            ==> formula(img, inline, baseline) is Some,
        formula(img, inline, baseline) matches Some(f) ==> {
            let b = img.box_of(Ink::Covered);
            let c = formula_crop(b, img.w as int, img.h as int, inline, baseline);
            let i = 4 * (v * f.w + u);
            &&& img.boxed(Ink::Covered, b)
            &&& f.w == c.2 - c.0 + 1
            &&& f.h == c.3 - c.1 + 1
            &&& f.data.len() == 4 * (f.w * f.h)
            &&& 0 <= u < f.w && 0 <= v < f.h ==> {
                &&& f.data[i] == 0 && f.data[i + 1] == 0 && f.data[i + 2] == 0
                &&& f.data[i + 3] == img.alpha(c.0 + u, c.1 + v)
            }
        },
        0 <= u < img.w && 0 <= v < img.h ==> img.alpha(u, v) == img.data[4 * (v * img.w + u) + 3],
        !(0 <= u < img.w && 0 <= v < img.h) ==> img.alpha(u, v) == 0,
{
    if img.has_ink(Ink::Covered) {
        lemma_box_exists(img, Ink::Covered);
        let b = img.box_of(Ink::Covered);
        let c = formula_crop(b, img.w as int, img.h as int, inline, baseline);
        let (w, h) = (c.2 - c.0 + 1, c.3 - c.1 + 1);
        lemma_black_rows_len(img, c.0, c.1, w, h);
        if 0 <= u < w && 0 <= v < h {
            lemma_black_rows_pixel(img, c.0, c.1, w, h, u, v);
        }
        if !inline {
            assert(w * h <= img.w * img.h) by (nonlinear_arith)
                requires
                    0 < w <= img.w,
                    0 < h <= img.h,
            ;
        }
    }
}

/// A cropped picture is the part around its dark pixels, with a margin of 6 pixels as far
/// as the picture goes, and unchanged; a white picture stays whole.
pub proof fn law_picture_is_cut_out_with_a_margin(img: Picture, u: int, v: int, k: int)
    requires
        img.valid(),
        0 <= k < 4,
    ensures
        !img.has_ink(Ink::Dark) ==> cropped(img) == img,
        img.has_ink(Ink::Dark) ==> {
            let b = img.box_of(Ink::Dark);
            let out = cropped(img);
            let x = if b.x0 >= 6 {
                b.x0 - 6
            } else {
                0
            };
            let y = if b.y0 >= 6 {
                b.y0 - 6
            } else {
                0
            };
            let right = if b.x1 + 6 < img.w {
                b.x1 + 6
            } else {
                img.w - 1
            };
            let low = if b.y1 + 6 < img.h {
                b.y1 + 6
            } else {
                img.h - 1
            };
            &&& img.boxed(Ink::Dark, b)
            &&& out.w == right - x + 1
            &&& out.h == low - y + 1
            &&& 0 <= u < out.w && 0 <= v < out.h ==> out.data[4 * (v * out.w + u) + k]
                == img.data[4 * ((y + v) * img.w + (x + u)) + k]
        },
{
    if img.has_ink(Ink::Dark) {
        lemma_box_exists(img, Ink::Dark);
        let c = picture_crop(img.box_of(Ink::Dark), img.w as int, img.h as int);
        let (w, h) = (c.2 - c.0 + 1, c.3 - c.1 + 1);
        if 0 <= u < w && 0 <= v < h {
            lemma_pixel_rows_channel(img, c.0, c.1, w, h, u, v, k);
        }
    }
}

} // verus!
