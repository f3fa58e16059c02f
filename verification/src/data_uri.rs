//! Base64, data URIs and percent encoding.

use vstd::prelude::*;
use vstd::utf8::encode_utf8;

use crate::text::{
    chars_of, contains_chars, copy_of, ends, ends_with_text, find_char, first_of, lower,
    lowercase, occurs, same_text, string_of,
};
use crate::text::lemma_first_of;

verus! {

// ------------------------------------------------------------------ base64

/// The base64 digit of value `v`, from 0 to 63.
pub open spec fn digit64(v: int) -> char {
    if v < 26 {
        (65 + v) as char
    } else if v < 52 {
        (71 + v) as char
    } else if v < 62 {
        (v - 4) as char
    } else if v == 62 {
        '+'
    } else {
        '/'
    }
}

/// The value of a base64 digit.
pub open spec fn value64(c: char) -> Option<int> {
    if 'A' <= c <= 'Z' {
        Some(c as int - 65)
    } else if 'a' <= c <= 'z' {
        Some(c as int - 71)
    } else if '0' <= c <= '9' {
        Some(c as int + 4)
    } else if c == '+' {
        Some(62)
    } else if c == '/' {
        Some(63)
    } else {
        None
    }
}

/// The characters that decoding passes over: padding and ASCII white space.
pub open spec fn passed_over(c: char) -> bool {
    c == '=' || c == ' ' || c == '\t' || c == '\n' || c == '\u{c}' || c == '\r'
}

/// The base64 text of some bytes: four digits for each three bytes, the last group
/// padded with `=`.
pub open spec fn encoded64(d: Seq<u8>) -> Seq<char>
    decreases d.len(),
{
    if d.len() == 0 {
        Seq::empty()
    } else if d.len() == 1 {
        seq![digit64(d[0] as int / 4), digit64(d[0] as int % 4 * 16), '=', '=']
    } else if d.len() == 2 {
        seq![
            digit64(d[0] as int / 4),
            digit64(d[0] as int % 4 * 16 + d[1] as int / 16),
            digit64(d[1] as int % 16 * 4),
            '=',
        ]
    } else {
        seq![
            digit64(d[0] as int / 4),
            digit64(d[0] as int % 4 * 16 + d[1] as int / 16),
            digit64(d[1] as int % 16 * 4 + d[2] as int / 64),
            digit64(d[2] as int % 64),
        ] + encoded64(d.skip(3))
    }
}

/// The values of the digits of a text; nothing if another character occurs.
pub open spec fn values64(s: Seq<char>) -> Option<Seq<int>>
    decreases s.len(),
{
    if s.len() == 0 {
        Some(Seq::empty())
    } else {
        match values64(s.drop_last()) {
            None => None,
            Some(vs) => if passed_over(s.last()) {
                Some(vs)
            } else {
                match value64(s.last()) {
                    Some(v) => Some(vs.push(v)),
                    None => None,
                }
            },
        }
    }
}

/// The whole bytes that a sequence of digit values makes.
pub open spec fn bytes64(v: Seq<int>) -> Seq<u8>
    decreases v.len(),
{
    if v.len() < 2 {
        Seq::empty()
    } else if v.len() == 2 {
        seq![(v[0] * 4 + v[1] / 16) as u8]
    } else if v.len() == 3 {
        seq![(v[0] * 4 + v[1] / 16) as u8, (v[1] % 16 * 16 + v[2] / 4) as u8]
    } else {
        seq![
            (v[0] * 4 + v[1] / 16) as u8,
            (v[1] % 16 * 16 + v[2] / 4) as u8,
            (v[2] % 4 * 64 + v[3]) as u8,
        ] + bytes64(v.skip(4))
    }
}

/// What a base64 text stands for.
pub open spec fn decoded64(s: Seq<char>) -> Option<Seq<u8>> {
    match values64(s) {
        Some(v) => Some(bytes64(v)),
        None => None,
    }
}

fn digit(v: u8) -> (c: char)
    requires
        v < 64,
    ensures
        c == digit64(v as int),
{
    if v < 26 {
        (65 + v) as char
    } else if v < 52 {
        (71 + v) as char
    } else if v < 62 {
        (v - 4) as char
    } else if v == 62 {
        '+'
    } else {
        '/'
    }
}

/// Gives the base64 text of some bytes.
pub fn base64_encode(data: &[u8]) -> (s: String)
    ensures
        s@ == encoded64(data@),
{
    let mut s: String = String::new();
    let mut i: usize = 0;
    assert(data@.skip(0) =~= data@);
    assert(s@ + encoded64(data@) =~= encoded64(data@));
    while data.len() - i >= 3
        invariant
            i <= data@.len(),
            s@ + encoded64(data@.skip(i as int)) == encoded64(data@),
        decreases data@.len() - i,
    {
        let (b0, b1, b2): (u8, u8, u8) = (data[i], data[i + 1], data[i + 2]);
        let ghost before = s@;
        let ghost rest = data@.skip(i as int);
        s.push(digit(b0 / 4));
        s.push(digit(b0 % 4 * 16 + b1 / 16));
        s.push(digit(b1 % 16 * 4 + b2 / 64));
        s.push(digit(b2 % 64));
        i += 3;
        assert(rest.skip(3) =~= data@.skip(i as int));
        assert(s@ + encoded64(data@.skip(i as int)) =~= before + encoded64(rest));
    }
    let ghost before = s@;
    let ghost rest = data@.skip(i as int);
    if data.len() - i == 1 {
        let b0: u8 = data[i];
        s.push(digit(b0 / 4));
        s.push(digit(b0 % 4 * 16));
        s.push('=');
        s.push('=');
    } else if data.len() - i == 2 {
        let (b0, b1): (u8, u8) = (data[i], data[i + 1]);
        s.push(digit(b0 / 4));
        s.push(digit(b0 % 4 * 16 + b1 / 16));
        s.push(digit(b1 % 16 * 4));
        s.push('=');
    }
    assert(s@ =~= before + encoded64(rest));
    s
}

fn value(c: char) -> (r: Option<u8>)
    ensures
        match value64(c) {
            Some(v) => r == Some(v as u8) && 0 <= v < 64,
            None => r is None,
        },
{
    if 'A' <= c && c <= 'Z' {
        Some((c as u32 - 65) as u8)
    } else if 'a' <= c && c <= 'z' {
        Some((c as u32 - 71) as u8)
    } else if '0' <= c && c <= '9' {
        Some((c as u32 + 4) as u8)
    } else if c == '+' {
        Some(62)
    } else if c == '/' {
        Some(63)
    } else {
        None
    }
}

/// One more digit completes a byte, unless it is the first of its group of four.
proof fn lemma_bytes_push(v: Seq<int>, w: int)
    ensures
        bytes64(v.push(w)) == (if v.len() % 4 == 0 {
            bytes64(v)
        } else if v.len() % 4 == 1 {
            bytes64(v).push((v.last() * 4 + w / 16) as u8)
        } else if v.len() % 4 == 2 {
            bytes64(v).push((v.last() % 16 * 16 + w / 4) as u8)
        } else {
            bytes64(v).push((v.last() % 4 * 64 + w) as u8)
        }),
    decreases v.len(),
{
    if v.len() >= 4 {
        let rest = v.skip(4);
        lemma_bytes_push(rest, w);
        assert(v.push(w).skip(4) =~= rest.push(w));
        let head = seq![
            (v[0] * 4 + v[1] / 16) as u8,
            (v[1] % 16 * 16 + v[2] / 4) as u8,
            (v[2] % 4 * 64 + v[3]) as u8,
        ];
        assert(bytes64(v) == head + bytes64(rest));
        assert(bytes64(v.push(w)) == head + bytes64(rest.push(w)));
        if v.len() % 4 != 0 {
            assert(rest.last() == v.last());
            let b = bytes64(rest.push(w)).last();
            assert(bytes64(rest.push(w)) == bytes64(rest).push(b));
            assert(head + bytes64(rest).push(b) =~= (head + bytes64(rest)).push(b));
        }
    } else if v.len() == 3 {
        assert(v.push(w).skip(4) =~= Seq::empty());
        assert(bytes64(Seq::empty()).len() == 0);
        assert(bytes64(v.push(w)) =~= bytes64(v).push((v.last() % 4 * 64 + w) as u8));
    } else if v.len() == 2 {
        assert(bytes64(v.push(w)) =~= bytes64(v).push((v.last() % 16 * 16 + w / 4) as u8));
    } else if v.len() == 1 {
        assert(bytes64(v.push(w)) =~= bytes64(v).push((v.last() * 4 + w / 16) as u8));
    }
}

/// Decodes a base64 text. Padding and white space are passed over, and bits that
/// make no whole byte are dropped; any other character fails.
pub fn base64_decode(s: &str) -> (r: Option<Vec<u8>>)
    ensures
        match decoded64(s@) {
            Some(d) => r matches Some(v) && v@ == d,
            None => r is None,
        },
{
    decode_digits(chars_of(s).as_slice())
}

fn decode_digits(s: &[char]) -> (r: Option<Vec<u8>>)
    ensures
        match decoded64(s@) {
            Some(d) => r matches Some(v) && v@ == d,
            None => r is None,
        },
{
    let mut out: Vec<u8> = Vec::new();
    let ghost mut vals: Seq<int> = Seq::empty();
    // Bits of the last digit that are not in `out` yet.
    let mut left: u8 = 0;
    let mut phase: u8 = 0;
    let mut i: usize = 0;
    assert(s@.take(0) =~= Seq::empty());
    assert(out@ =~= bytes64(vals));
    while i < s.len()
        invariant
            i <= s@.len(),
            values64(s@.take(i as int)) == Some(vals),
            out@ == bytes64(vals),
            phase == vals.len() % 4,
            phase == 0 ==> left == 0,
            phase == 1 ==> left == vals.last() && left < 64,
            phase == 2 ==> left == vals.last() % 16,
            phase == 3 ==> left == vals.last() % 4,
        decreases s@.len() - i,
    {
        let c: char = s[i];
        assert(s@.take(i + 1).drop_last() =~= s@.take(i as int));
        assert(s@.take(i + 1).last() == c);
        if !(c == '=' || c == ' ' || c == '\t' || c == '\n' || c == '\u{c}' || c == '\r') {
            match value(c) {
                None => {
                    proof {
                        lemma_values_fail(s@, i as int);
                    }
                    return None;
                },
                Some(v) => {
                    proof {
                        lemma_bytes_push(vals, v as int);
                        vals = vals.push(v as int);
                    }
                    if phase == 0 {
                        left = v;
                        phase = 1;
                    } else if phase == 1 {
                        out.push(left * 4 + v / 16);
                        left = v % 16;
                        phase = 2;
                    } else if phase == 2 {
                        out.push(left * 16 + v / 4);
                        left = v % 4;
                        phase = 3;
                    } else {
                        out.push(left * 64 + v);
                        left = 0;
                        phase = 0;
                    }
                },
            }
        }
        i += 1;
    }
    assert(s@.take(i as int) =~= s@);
    Some(out)
}

proof fn lemma_values_fail(s: Seq<char>, i: int)
    requires
        0 <= i < s.len(),
        values64(s.take(i + 1)) is None,
    ensures
        values64(s) is None,
    decreases s.len() - i,
{
    if i + 1 < s.len() {
        assert(s.take(i + 2).drop_last() =~= s.take(i + 1));
        lemma_values_fail(s, i + 1);
    } else {
        assert(s.take(i + 1) =~= s);
    }
}

// ---------------------------------------------------------------- data URIs

/// What stands before the base64 text of a PNG image.
pub const PNG_URI: &'static str = "data:image/png;base64,";

/// The mark of base64 in a data URI.
pub const BASE64_MARK: &'static str = ";base64";

/// The data URI of a PNG image.
pub open spec fn png_uri(png: Seq<u8>) -> Seq<char> {
    PNG_URI@ + encoded64(png)
}

/// Gives the data URI of a PNG image.
pub fn png_data_uri(png: &[u8]) -> (s: String)
    ensures
        s@ == png_uri(png@),
{
    let mut s: String = copy_of(PNG_URI);
    s.append(base64_encode(png).as_str());
    s
}

/// Where a resource of a card comes from.
#[derive(Clone, Copy, Debug, PartialEq, Eq, Structural)]
pub enum MediaSource {
    /// A file of the media folder.
    File,
    /// The URL itself.
    Data,
    /// Nowhere: the card is shown without it.
    Unavailable,
}

/// Tells by the scheme of a URL where a resource comes from.
pub fn media_source(scheme: &str) -> (s: MediaSource)
    ensures
        s == (if scheme@ == "file"@ {
            MediaSource::File
        } else if scheme@ == "data"@ {
            MediaSource::Data
        } else {
            MediaSource::Unavailable
        }),
{
    if same_text(scheme, "file") {
        MediaSource::File
    } else if same_text(scheme, "data") {
        MediaSource::Data
    } else {
        MediaSource::Unavailable
    }
}

/// A file of this name, in lower case, is an image.
pub open spec fn names_image(name: Seq<char>) -> bool {
    ends(name, ".jpg"@) || ends(name, ".jpeg"@) || ends(name, ".png"@) || ends(name, ".gif"@)
}

/// Whether a name in lower case is that of an image file.
pub fn is_image_name(name: &str) -> (b: bool)
    ensures
        b == names_image(name@),
{
    ends_with_text(name, ".jpg") || ends_with_text(name, ".jpeg") || ends_with_text(name, ".png")
        || ends_with_text(name, ".gif")
}

/// Whether a file is an image by its name, whatever its case.
pub fn is_image_file(name: &str) -> (b: bool)
    ensures
        b == names_image(lowercase(name@)),
{
    is_image_name(lower(name).as_str())
}

/// What a data URI holds: behind the first comma base64 text, if the part before
/// it says so, else the bytes as they are. Nothing without a comma.
pub open spec fn uri_data(s: Seq<char>) -> Option<Seq<u8>> {
    let comma = first_of(s, ',');
    if comma >= s.len() {
        None
    } else if occurs(s.take(comma), BASE64_MARK@) {
        decoded64(s.skip(comma + 1))
    } else {
        Some(encode_utf8(s.skip(comma + 1)))
    }
}

/// Decodes a data URI.
pub fn decode_data_uri(s: &str) -> (r: Option<Vec<u8>>)
    ensures
        match uri_data(s@) {
            Some(d) => r matches Some(v) && v@ == d,
            None => r is None,
        },
{
    let all: Vec<char> = chars_of(s);
    let comma: usize = find_char(all.as_slice(), ',', 0);
    assert(all@.skip(0) =~= all@);
    if comma >= all.len() {
        return None;
    }
    let meta: &[char] = vstd::slice::slice_subrange(all.as_slice(), 0, comma);
    let data: &[char] = vstd::slice::slice_subrange(all.as_slice(), comma + 1, all.len());
    assert(meta@ =~= s@.take(comma as int));
    assert(data@ =~= s@.skip(comma + 1));
    let mark: Vec<char> = chars_of(BASE64_MARK);
    if contains_chars(meta, mark.as_slice()) {
        decode_digits(data)
    } else {
        let text: String = string_of(data, 0, data.len());
        assert(data@.subrange(0, data@.len() as int) =~= data@);
        Some(bytes_of(text.as_str()))
    }
}

/// The UTF-8 bytes of a text.
pub fn bytes_of(s: &str) -> (v: Vec<u8>)
    ensures
        v@ == encode_utf8(s@),
{
    let b: &[u8] = s.as_bytes();
    let mut v: Vec<u8> = Vec::new();
    let mut i: usize = 0;
    while i < b.len()
        invariant
            i <= b@.len(),
            v@ == b@.take(i as int),
        decreases b@.len() - i,
    {
        v.push(b[i]);
        i += 1;
        assert(b@.take(i as int) =~= b@.take(i - 1).push(b@[i - 1]));
    }
    assert(b@.take(i as int) =~= b@);
    v
}

// --------------------------------------------------------- percent encoding

/// The byte stands for itself in a path.
pub open spec fn unreserved(b: u8) -> bool {
    65 <= b <= 90 || 97 <= b <= 122 || 48 <= b <= 57 || b == 45 || b == 46 || b == 95 || b == 126
        || b == 47
}

/// A hexadecimal digit, in upper case.
pub open spec fn upper_hex(d: int) -> char {
    if d < 10 {
        (48 + d) as char
    } else {
        (55 + d) as char
    }
}

/// The percent-encoded form of some bytes: letters, digits and `-._~/` stay, every
/// other byte becomes `%` and two hexadecimal digits.
pub open spec fn percent_encoded(b: Seq<u8>) -> Seq<char>
    decreases b.len(),
{
    if b.len() == 0 {
        Seq::empty()
    } else if unreserved(b.last()) {
        percent_encoded(b.drop_last()).push(b.last() as char)
    } else {
        percent_encoded(b.drop_last()) + seq![
            '%',
            upper_hex(b.last() as int / 16),
            upper_hex(b.last() as int % 16),
        ]
    }
}

fn upper_digit(d: u8) -> (c: char)
    requires
        d < 16,
    ensures
        c == upper_hex(d as int),
{
    if d < 10 {
        (48 + d) as char
    } else {
        (55 + d) as char
    }
}

/// Percent-encodes a file name for use in a link.
pub fn pct_encode(s: &str) -> (r: String)
    ensures
        r@ == percent_encoded(encode_utf8(s@)),
{
    let mut r: String = String::new();
    let b: Vec<u8> = bytes_of(s);
    let mut i: usize = 0;
    assert(b@.take(0) =~= Seq::empty());
    assert(r@ =~= percent_encoded(b@.take(0)));
    while i < b.len()
        invariant
            i <= b@.len(),
            r@ == percent_encoded(b@.take(i as int)),
        decreases b@.len() - i,
    {
        let c: u8 = b[i];
        let ghost before = r@;
        assert(b@.take(i + 1).drop_last() =~= b@.take(i as int));
        assert(b@.take(i + 1).last() == c);
        if (65 <= c && c <= 90) || (97 <= c && c <= 122) || (48 <= c && c <= 57) || c == 45 || c
            == 46 || c == 95 || c == 126 || c == 47 {
            r.push(c as char);
        } else {
            r.push('%');
            r.push(upper_digit(c / 16));
            r.push(upper_digit(c % 16));
            assert(r@ =~= before + seq![
                '%',
                upper_hex(c as int / 16),
                upper_hex(c as int % 16),
            ]);
        }
        i += 1;
    }
    assert(b@.take(i as int) =~= b@);
    r
}

/// A percent-encoded name is made of letters, digits and `-._~/%` alone.
pub proof fn law_percent_encoded_is_plain(b: Seq<u8>, i: int)
    requires
        0 <= i < percent_encoded(b).len(),
    ensures
        ({
            let c = percent_encoded(b)[i];
            c == '%' || (c as int) < 128 && unreserved(c as u8)
        }),
    decreases b.len(),
{
    let front = percent_encoded(b.drop_last());
    if i < front.len() {
        law_percent_encoded_is_plain(b.drop_last(), i);
    }
}

// ------------------------------------------------------------------- laws

proof fn lemma_values_add(a: Seq<char>, b: Seq<char>)
    ensures
        values64(a + b) == (match (values64(a), values64(b)) {
            (Some(x), Some(y)) => Some(x + y),
            _ => None,
        }),
    decreases b.len(),
{
    if b.len() == 0 {
        assert(a + b =~= a);
        match values64(a) {
            Some(x) => {
                assert(x + Seq::<int>::empty() =~= x);
            },
            None => {},
        }
    } else {
        lemma_values_add(a, b.drop_last());
        assert((a + b).drop_last() =~= a + b.drop_last());
        assert((a + b).last() == b.last());
        match (values64(a), values64(b.drop_last()), value64(b.last())) {
            (Some(x), Some(y), Some(v)) => {
                assert(x + y.push(v) =~= (x + y).push(v));
            },
            _ => {},
        }
    }
}

proof fn lemma_digit_value(v: int)
    requires
        0 <= v < 64,
    ensures
        value64(digit64(v)) == Some(v),
        !passed_over(digit64(v)),
        digit64(v) != ',',
{
}

proof fn lemma_values_two(a: char, b: char)
    requires
        value64(a) is Some && !passed_over(a),
        value64(b) is Some && !passed_over(b),
    ensures
        values64(seq![a, b]) == Some(seq![value64(a)->0, value64(b)->0]),
{
    reveal_with_fuel(values64, 3);
    assert(seq![a, b].drop_last() =~= seq![a]);
    assert(seq![a].drop_last() =~= Seq::empty());
    assert(Seq::<int>::empty().push(value64(a)->0).push(value64(b)->0) =~= seq![
        value64(a)->0,
        value64(b)->0,
    ]);
}

proof fn lemma_values_four(a: char, b: char, c: char, d: char)
    requires
        value64(a) is Some && !passed_over(a),
        value64(b) is Some && !passed_over(b),
        value64(c) is Some && !passed_over(c) || c == '=',
        value64(d) is Some && !passed_over(d) || d == '=',
        c == '=' ==> d == '=',
    ensures
        values64(seq![a, b, c, d]) == Some(
            if c == '=' {
                seq![value64(a)->0, value64(b)->0]
            } else if d == '=' {
                seq![value64(a)->0, value64(b)->0, value64(c)->0]
            } else {
                seq![value64(a)->0, value64(b)->0, value64(c)->0, value64(d)->0]
            },
        ),
{
    lemma_values_two(a, b);
    reveal_with_fuel(values64, 3);
    let two = seq![a, b];
    assert(seq![a, b, c, d].drop_last() =~= seq![a, b, c]);
    assert(seq![a, b, c].drop_last() =~= two);
    let vs = seq![value64(a)->0, value64(b)->0];
    if c != '=' {
        let v3 = seq![value64(a)->0, value64(b)->0, value64(c)->0];
        assert(vs.push(value64(c)->0) =~= v3);
        if d != '=' {
            assert(v3.push(value64(d)->0) =~= seq![
                value64(a)->0,
                value64(b)->0,
                value64(c)->0,
                value64(d)->0,
            ]);
        }
    }
}

/// Decoding what encoding gave returns the same bytes.
pub proof fn law_base64_round_trip(d: Seq<u8>)
    ensures
        decoded64(encoded64(d)) == Some(d),
    decreases d.len(),
{
    if d.len() == 0 {
        assert(bytes64(Seq::empty()) =~= d);
    } else {
        let (b0, b1, b2) = (d[0] as int, d[1] as int, d[2] as int);
        let v0 = b0 / 4;
        if d.len() == 1 {
            let v1 = b0 % 4 * 16;
            lemma_digit_value(v0);
            lemma_digit_value(v1);
            lemma_values_four(digit64(v0), digit64(v1), '=', '=');
            assert(bytes64(seq![v0, v1]) =~= d);
        } else if d.len() == 2 {
            let v1 = b0 % 4 * 16 + d[1] as int / 16;
            let v2 = d[1] as int % 16 * 4;
            lemma_digit_value(v0);
            lemma_digit_value(v1);
            lemma_digit_value(v2);
            lemma_values_four(digit64(v0), digit64(v1), digit64(v2), '=');
            assert(bytes64(seq![v0, v1, v2]) =~= d);
        } else {
            let v1 = b0 % 4 * 16 + b1 / 16;
            let v2 = b1 % 16 * 4 + b2 / 64;
            let v3 = b2 % 64;
            lemma_digit_value(v0);
            lemma_digit_value(v1);
            lemma_digit_value(v2);
            lemma_digit_value(v3);
            let head = seq![digit64(v0), digit64(v1), digit64(v2), digit64(v3)];
            lemma_values_four(digit64(v0), digit64(v1), digit64(v2), digit64(v3));
            law_base64_round_trip(d.skip(3));
            lemma_values_add(head, encoded64(d.skip(3)));
            let vs = seq![v0, v1, v2, v3];
            let rest = values64(encoded64(d.skip(3)))->0;
            assert((vs + rest).skip(4) =~= rest);
            assert(bytes64(vs + rest) =~= d);
        }
    }
}

/// The data URI of an image gives the image back.
pub proof fn law_png_uri_round_trip(png: Seq<u8>)
    ensures
        uri_data(png_uri(png)) == Some(png),
{
    reveal_strlit("data:image/png;base64,");
    reveal_strlit(";base64");
    let s = png_uri(png);
    let comma = 21;
    assert(s[comma] == ',');
    assert(forall|k: int| 0 <= k < comma ==> s[k] == PNG_URI@[k]);
    lemma_first_of(s, ',');
    assert(first_of(s, ',') == comma) by {
        let f = first_of(s, ',');
        if f < comma {
            assert(s[f] == PNG_URI@[f]);
        }
    }
    assert(crate::text::occurs_at(s.take(comma), BASE64_MARK@, 14)) by {
        assert(s.take(comma).subrange(14, 21) =~= BASE64_MARK@);
    }
    assert(s.skip(comma + 1) =~= encoded64(png));
    law_base64_round_trip(png);
}

/// The base64 digits are the letters in upper case, those in lower case, the figures,
/// `+` and `/`, in this order, and each is worth its place.
pub proof fn law_base64_digits(v: int)
    requires
        0 <= v < 64,
    ensures
        v < 26 ==> digit64(v) as int == 'A' as int + v,
        26 <= v < 52 ==> digit64(v) as int == 'a' as int + (v - 26),
        52 <= v < 62 ==> digit64(v) as int == '0' as int + (v - 52),
        v == 62 ==> digit64(v) == '+',
        v == 63 ==> digit64(v) == '/',
        value64(digit64(v)) == Some(v),
        value64('=') is None && value64('-') is None && value64('_') is None,
{
}

/// Three bytes are written as four digits that stand for the same 24 bits, and the rest
/// follows; the last one or two bytes are filled up with zero bits and `=`.
pub proof fn law_base64_groups_of_three(d: Seq<u8>, v: Seq<int>)
    requires
        d.len() > 0,
        v.len() == 4,
        forall|i: int| 0 <= i < 4 ==> 0 <= #[trigger] v[i] < 64,
        262_144 * v[0] + 4096 * v[1] + 64 * v[2] + v[3] == 65_536 * d[0] + (if d.len() > 1 {
            256 * d[1]
        } else {
            0
        }) + (if d.len() > 2 {
            d[2] as int
        } else {
            0
        }),
    ensures
        d.len() == 1 ==> encoded64(d) == seq![digit64(v[0]), digit64(v[1]), '=', '='],
        d.len() == 2 ==> encoded64(d) == seq![digit64(v[0]), digit64(v[1]), digit64(v[2]), '='],
        d.len() >= 3 ==> encoded64(d) == seq![
            digit64(v[0]),
            digit64(v[1]),
            digit64(v[2]),
            digit64(v[3]),
        ] + encoded64(d.skip(3)),
        encoded64(Seq::empty()).len() == 0,
{
    let (a, b, c, e) = (v[0], v[1], v[2], v[3]);
    let d0 = d[0] as int;
    if d.len() == 1 {
        assert(a == d0 / 4 && b == d0 % 4 * 16);
    } else if d.len() == 2 {
        let d1 = d[1] as int;
        assert(a == d0 / 4 && b == d0 % 4 * 16 + d1 / 16 && c == d1 % 16 * 4);
    } else {
        let d1 = d[1] as int;
        let d2 = d[2] as int;
        assert(a == d0 / 4 && b == d0 % 4 * 16 + d1 / 16);
        assert(c == d1 % 16 * 4 + d2 / 64 && e == d2 % 64);
    }
}

/// Decoding passes over padding and white space, and fails at any other character that is
/// no digit.
pub proof fn law_decoding_passes_over_blanks(a: Seq<char>, c: char, b: Seq<char>)
    ensures
        c == '=' || c == ' ' || c == '\t' || c == '\n' || c == '\u{c}' || c == '\r' ==> decoded64(
            a + seq![c] + b,
        ) == decoded64(a + b),
        !(c == '=' || c == ' ' || c == '\t' || c == '\n' || c == '\u{c}' || c == '\r' || 'A' <= c
            <= 'Z' || 'a' <= c <= 'z' || '0' <= c <= '9' || c == '+' || c == '/') ==> decoded64(
            a + seq![c] + b,
        ) is None,
{
    lemma_values_add(a, b);
    lemma_values_add(a, seq![c]);
    lemma_values_add(a + seq![c], b);
    assert(seq![c].drop_last() =~= Seq::empty());
    reveal_with_fuel(values64, 2);
    match values64(a) {
        Some(x) => {
            assert(x + Seq::<int>::empty() =~= x);
        },
        None => {},
    }
}

/// A data URI holds what stands behind its first comma: base64 where the part before says
/// so, else the text itself. Without a comma it holds nothing.
pub proof fn law_data_stands_behind_the_comma(meta: Seq<char>, data: Seq<char>)
    requires
        forall|i: int| 0 <= i < meta.len() ==> #[trigger] meta[i] != ',',
    ensures
        occurs(meta, ";base64"@) ==> uri_data(meta + seq![','] + data) == decoded64(data),
        !occurs(meta, ";base64"@) ==> uri_data(meta + seq![','] + data) == Some(encode_utf8(data)),
        uri_data(meta) is None,
{
    let s = meta + seq![','] + data;
    lemma_first_of(s, ',');
    lemma_first_of(meta, ',');
    let f = first_of(s, ',');
    assert(s[meta.len() as int] == ',');
    assert(f == meta.len()) by {
        if f < meta.len() {
            assert(s[f] == meta[f]);
        }
    }
    assert(s.take(f) =~= meta);
    assert(s.skip(f + 1) =~= data);
}

/// The data URI of an image names its kind and holds it in base64.
pub proof fn law_png_uri_names_its_kind(png: Seq<u8>)
    ensures
        png_uri(png) == "data:image/png;base64,"@ + encoded64(png),
{
}

/// A file is an image by the end of its name.
pub proof fn law_image_names_end_alike(name: Seq<char>)
    ensures
        names_image(name + ".jpg"@),
        names_image(name + ".jpeg"@),
        names_image(name + ".png"@),
        names_image(name + ".gif"@),
        names_image(name) ==> name.len() >= 4 && (name.last() == 'g' || name.last() == 'f') && (
        name[name.len() - 4] == '.' || name[name.len() - 5] == '.'),
{
    reveal_strlit(".jpg");
    reveal_strlit(".jpeg");
    reveal_strlit(".png");
    reveal_strlit(".gif");
    crate::text::law_text_occurs_where_it_stands(name, ".jpg"@, Seq::empty());
    crate::text::law_text_occurs_where_it_stands(name, ".jpeg"@, Seq::empty());
    crate::text::law_text_occurs_where_it_stands(name, ".png"@, Seq::empty());
    crate::text::law_text_occurs_where_it_stands(name, ".gif"@, Seq::empty());
    let n = name.len() as int;
    if ends(name, ".jpg"@) {
        assert(name.subrange(n - 4, n)[0] == name[n - 4] && name.subrange(n - 4, n)[3] == name[n
            - 1]);
    }
    if ends(name, ".png"@) {
        assert(name.subrange(n - 4, n)[0] == name[n - 4] && name.subrange(n - 4, n)[3] == name[n
            - 1]);
    }
    if ends(name, ".gif"@) {
        assert(name.subrange(n - 4, n)[0] == name[n - 4] && name.subrange(n - 4, n)[3] == name[n
            - 1]);
    }
    if ends(name, ".jpeg"@) {
        assert(name.subrange(n - 5, n)[0] == name[n - 5] && name.subrange(n - 5, n)[4] == name[n
            - 1]);
    }
}

/// Percent encoding goes byte by byte: letters, figures and `-._~/` stay, every other byte
/// becomes `%` and its two hexadecimal digits, in upper case.
pub proof fn law_percent_encoding_goes_byte_by_byte(b: Seq<u8>, c: u8)
    ensures
        percent_encoded(Seq::empty()).len() == 0,
        ({
            let ch = c as char;
            let plain = 'A' <= ch <= 'Z' || 'a' <= ch <= 'z' || '0' <= ch <= '9' || ch == '-' || ch
                == '.' || ch == '_' || ch == '~' || ch == '/';
            let hi = if c < 160 {
                ('0' as int + c / 16) as char
            } else {
                ('A' as int + (c / 16 - 10)) as char
            };
            let lo = if c % 16 < 10 {
                ('0' as int + c % 16) as char
            } else {
                ('A' as int + (c % 16 - 10)) as char
            };
            &&& plain ==> percent_encoded(b.push(c)) == percent_encoded(b).push(ch)
            &&& !plain ==> percent_encoded(b.push(c)) == percent_encoded(b) + seq!['%', hi, lo]
        }),
{
    assert(b.push(c).drop_last() =~= b);
    assert(b.push(c).last() == c);
}

} // verus!
