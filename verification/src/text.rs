//! Text primitives: numerals, escaping, searching and splitting.
//!
//! Every function works on characters. The specification functions give the
//! text that each one produces; the HTML of the other modules is specified as a
//! concatenation of such pieces.

use vstd::prelude::*;

verus! {

/// `String::push` appends one character to the end of the string.
pub assume_specification[ String::push ](s: &mut String, c: char)
    ensures
        final(s)@ == old(s)@.push(c),
;

/// The characters of a string.
pub fn chars_of(s: &str) -> (v: Vec<char>)
    ensures
        v@ == s@,
{
    let mut v: Vec<char> = Vec::new();
    for c in it: s.chars()
        invariant
            v@ == it.seq().take(it.index() as int),
            it.seq() == s@,
    {
        v.push(c);
    }
    v
}

/// The string made of the characters `v[from..to]`.
pub fn string_of(v: &[char], from: usize, to: usize) -> (s: String)
    requires
        from <= to <= v@.len(),
    ensures
        s@ == v@.subrange(from as int, to as int),
{
    let mut s: String = String::new();
    let mut i: usize = from;
    while i < to
        invariant
            from <= i <= to <= v@.len(),
            s@ == v@.subrange(from as int, i as int),
        decreases to - i,
    {
        s.push(v[i]);
        i += 1;
        assert(v@.subrange(from as int, i as int) =~= v@.subrange(from as int, i - 1).push(
            v@[i - 1],
        ));
    }
    s
}

/// The same text in a string of its own.
pub fn copy_of(s: &str) -> (r: String)
    ensures
        r@ == s@,
{
    let mut r: String = String::new();
    r.append(s);
    assert(r@ =~= s@);
    r
}

/// `a` and `b` hold the same characters.
pub fn same_chars(a: &[char], b: &[char]) -> (r: bool)
    ensures
        r == (a@ == b@),
{
    if a.len() != b.len() {
        return false;
    }
    let mut i: usize = 0;
    while i < a.len()
        invariant
            a@.len() == b@.len(),
            i <= a@.len(),
            forall|j: int| 0 <= j < i ==> a@[j] == b@[j],
        decreases a@.len() - i,
    {
        if a[i] != b[i] {
            return false;
        }
        i += 1;
    }
    assert(a@ =~= b@);
    true
}

/// `a` and `b` are the same text.
pub fn same_text(a: &str, b: &str) -> (r: bool)
    ensures
        r == (a@ == b@),
{
    let u: Vec<char> = chars_of(a);
    let v: Vec<char> = chars_of(b);
    same_chars(u.as_slice(), v.as_slice())
}

/// The value of a setting, or what holds where it is not set.
pub fn env_or(value: Option<&str>, default: &str) -> (s: String)
    ensures
        s@ == (match value {
            Some(v) => v@,
            None => default@,
        }),
{
    match value {
        Some(v) => copy_of(v),
        None => copy_of(default),
    }
}

// ---------------------------------------------------------------- numerals

/// The decimal digit of value `d`.
pub open spec fn digit(d: int) -> char {
    (48 + d) as char
}

/// The decimal numeral of `n`.
pub open spec fn dec(n: int) -> Seq<char>
    decreases n,
{
    if n < 10 {
        seq![digit(n)]
    } else {
        dec(n / 10).push(digit(n % 10))
    }
}

/// The decimal numeral of a signed number.
pub open spec fn dec_signed(n: int) -> Seq<char> {
    if n < 0 {
        seq!['-'] + dec(-n)
    } else {
        dec(n)
    }
}

/// The hexadecimal digit of value `d`, in lower case.
pub open spec fn hex_digit(d: int) -> char {
    if d < 10 {
        (48 + d) as char
    } else {
        (87 + d) as char
    }
}

/// The last `k` hexadecimal digits of `n`, zero padded.
pub open spec fn hex(n: int, k: nat) -> Seq<char>
    decreases k,
{
    if k == 0 {
        Seq::empty()
    } else {
        hex(n / 16, (k - 1) as nat).push(hex_digit(n % 16))
    }
}

/// Appends the decimal numeral of `n`.
pub fn push_dec(out: &mut String, n: u64)
    ensures
        final(out)@ == old(out)@ + dec(n as int),
    decreases n,
{
    let ghost before = out@;
    if n >= 10 {
        push_dec(out, n / 10);
    }
    let d: u8 = (n % 10) as u8;
    out.push((48 + d) as char);
    assert(out@ =~= before + dec(n as int));
}

/// Appends the decimal numeral of a signed number.
pub fn push_signed(out: &mut String, n: i64)
    ensures
        final(out)@ == old(out)@ + dec_signed(n as int),
{
    let ghost before = out@;
    if n >= 0 {
        push_dec(out, n as u64);
    } else {
        out.push('-');
        let m: u64 = (-(n + 1)) as u64 + 1;
        push_dec(out, m);
        assert(out@ =~= before + dec_signed(n as int));
    }
}

/// Appends the last `k` hexadecimal digits of `n`.
pub fn push_hex(out: &mut String, n: u64, k: u32)
    ensures
        final(out)@ == old(out)@ + hex(n as int, k as nat),
    decreases k,
{
    let ghost before = out@;
    if k > 0 {
        push_hex(out, n / 16, k - 1);
        let d: u8 = (n % 16) as u8;
        if d < 10 {
            out.push((48 + d) as char);
        } else {
            out.push((87 + d) as char);
        }
    }
    assert(out@ =~= before + hex(n as int, k as nat));
}

/// Value of a digit in bases up to 36, letters of either case counting from ten.
pub open spec fn digit_value(c: char) -> Option<int> {
    if '0' <= c <= '9' {
        Some(c as int - 48)
    } else if 'a' <= c <= 'z' {
        Some(c as int - 87)
    } else if 'A' <= c <= 'Z' {
        Some(c as int - 55)
    } else {
        None
    }
}

/// Value of a non-empty run of digits below `radix`; `None` for anything else.
pub open spec fn digits_value(s: Seq<char>, radix: int) -> Option<int>
    decreases s.len(),
{
    if s.len() == 0 {
        None
    } else {
        match digit_value(s.last()) {
            Some(d) if d < radix => if s.len() == 1 {
                Some(d)
            } else {
                match digits_value(s.drop_last(), radix) {
                    Some(v) => Some(v * radix + d),
                    None => None,
                }
            },
            _ => None,
        }
    }
}

/// Value of an unsigned numeral: digits, after an optional plus sign.
pub open spec fn numeral(s: Seq<char>, radix: int) -> Option<int> {
    if s.len() > 0 && s[0] == '+' {
        digits_value(s.skip(1), radix)
    } else {
        digits_value(s, radix)
    }
}

/// The value of a numeral that does not exceed `max`.
pub open spec fn bounded_numeral(s: Seq<char>, radix: int, max: int) -> Option<int> {
    match numeral(s, radix) {
        Some(v) if v <= max => Some(v),
        _ => None,
    }
}

proof fn lemma_digits_prefix(s: Seq<char>, k: int, radix: int)
    requires
        1 <= k <= s.len(),
        radix >= 1,
        digits_value(s, radix) is Some,
    ensures
        digits_value(s.take(k), radix) is Some,
        0 <= digits_value(s.take(k), radix)->0 <= digits_value(s, radix)->0,
    decreases s.len() - k, s.len(),
{
    if k == s.len() {
        assert(s.take(k) =~= s);
        if s.len() > 1 {
            lemma_digits_prefix(s.drop_last(), s.len() - 1, radix);
            assert(s.drop_last().take(s.len() - 1) =~= s.drop_last());
            let v = digits_value(s.drop_last(), radix)->0;
            assert(v * radix >= 0) by (nonlinear_arith)
                requires
                    v >= 0,
                    radix >= 1,
            ;
        }
    } else {
        lemma_digits_prefix(s.drop_last(), k, radix);
        assert(s.drop_last().take(k) =~= s.take(k));
        let v = digits_value(s.drop_last(), radix)->0;
        assert(v * radix >= v) by (nonlinear_arith)
            requires
                v >= 0,
                radix >= 1,
        ;
    }
}

/// The value of one digit character, when it is below `radix`.
fn digit_below(c: char, radix: u64) -> (r: Option<u64>)
    ensures
        match r {
            Some(d) => digit_value(c) == Some(d as int) && d < radix,
            None => match digit_value(c) {
                Some(d) => d >= radix,
                None => true,
            },
        },
{
    let d: u64 = if '0' <= c && c <= '9' {
        c as u64 - 48
    } else if 'a' <= c && c <= 'z' {
        c as u64 - 87
    } else if 'A' <= c && c <= 'Z' {
        c as u64 - 55
    } else {
        return None;
    };
    if d < radix {
        Some(d)
    } else {
        None
    }
}

/// Reads an unsigned numeral in base `radix`, up to `max`.
pub fn parse_numeral(s: &[char], radix: u64, max: u64) -> (r: Option<u64>)
    requires
        1 <= radix <= 36,
    ensures
        match r {
            Some(v) => bounded_numeral(s@, radix as int, max as int) == Some(v as int),
            None => bounded_numeral(s@, radix as int, max as int) is None,
        },
{
    let start: usize = if s.len() > 0 && s[0] == '+' {
        1
    } else {
        0
    };
    let ghost digits = s@.skip(start as int);
    assert(start == 0 ==> digits =~= s@);
    assert(numeral(s@, radix as int) == digits_value(digits, radix as int));
    if start == s.len() {
        return None;
    }
    let mut value: u64 = 0;
    let mut i: usize = start;
    while i < s.len()
        invariant
            start <= i <= s@.len(),
            start < s@.len(),
            1 <= radix <= 36,
            digits == s@.skip(start as int),
            numeral(s@, radix as int) == digits_value(digits, radix as int),
            i == start ==> value == 0,
            i > start ==> digits_value(digits.take(i - start), radix as int) == Some(value as int),
            value <= max,
        decreases s@.len() - i,
    {
        let ghost part = digits.take(i - start + 1);
        assert(part.drop_last() =~= digits.take(i - start));
        assert(part.last() == s@[i as int]);
        proof {
            if digits_value(digits, radix as int) is Some {
                lemma_digits_prefix(digits, i - start + 1, radix as int);
            }
        }
        match digit_below(s[i], radix) {
            None => {
                return None;
            },
            Some(d) => {
                assert(value * radix <= u64::MAX * 36) by (nonlinear_arith)
                    requires
                        value <= u64::MAX,
                        radix <= 36,
                ;
                let wide: u128 = value as u128 * radix as u128 + d as u128;
                assert(i == start ==> wide == d) by (nonlinear_arith)
                    requires
                        wide == value * radix + d,
                        i == start ==> value == 0,
                ;
                assert(digits_value(part, radix as int) == Some(wide as int));
                if wide > max as u128 {
                    return None;
                }
                value = wide as u64;
            },
        }
        i += 1;
    }
    assert(digits.take(i - start) =~= digits);
    Some(value)
}

// ---------------------------------------------------------------- escaping

/// What stands for one character in escaped HTML text.
pub open spec fn escaped_char(c: char) -> Seq<char> {
    if c == '&' {
        "&amp;"@
    } else if c == '<' {
        "&lt;"@
    } else if c == '>' {
        "&gt;"@
    } else {
        seq![c]
    }
}

/// HTML text: ampersands and angle brackets become entities.
pub open spec fn escaped(s: Seq<char>) -> Seq<char>
    decreases s.len(),
{
    if s.len() == 0 {
        Seq::empty()
    } else {
        escaped(s.drop_last()) + escaped_char(s.last())
    }
}

/// HTML text with every line break turned into a `<br>` tag.
pub open spec fn escaped_lines(s: Seq<char>) -> Seq<char>
    decreases s.len(),
{
    if s.len() == 0 {
        Seq::empty()
    } else {
        escaped_lines(s.drop_last()) + if s.last() == '\n' {
            "<br>"@
        } else {
            escaped_char(s.last())
        }
    }
}

fn push_escaped(out: &mut String, c: char)
    ensures
        final(out)@ == old(out)@ + escaped_char(c),
{
    if c == '&' {
        out.append("&amp;");
    } else if c == '<' {
        out.append("&lt;");
    } else if c == '>' {
        out.append("&gt;");
    } else {
        let ghost before = out@;
        out.push(c);
        assert(out@ =~= before + seq![c]);
    }
}

/// Escapes a text for use between HTML tags.
pub fn esc(s: &str) -> (r: String)
    ensures
        r@ == escaped(s@),
{
    let mut r: String = String::new();
    let v: Vec<char> = chars_of(s);
    let mut i: usize = 0;
    while i < v.len()
        invariant
            i <= v@.len(),
            r@ == escaped(v@.take(i as int)),
        decreases v@.len() - i,
    {
        push_escaped(&mut r, v[i]);
        assert(v@.take(i + 1).drop_last() =~= v@.take(i as int));
        i += 1;
    }
    assert(v@.take(i as int) =~= v@);
    r
}

/// Escapes a text of several lines; each line break becomes a `<br>` tag.
pub fn esc_lines(s: &str) -> (r: String)
    ensures
        r@ == escaped_lines(s@),
{
    let mut r: String = String::new();
    let v: Vec<char> = chars_of(s);
    let mut i: usize = 0;
    while i < v.len()
        invariant
            i <= v@.len(),
            r@ == escaped_lines(v@.take(i as int)),
        decreases v@.len() - i,
    {
        if v[i] == '\n' {
            r.append("<br>");
        } else {
            push_escaped(&mut r, v[i]);
        }
        assert(v@.take(i + 1).drop_last() =~= v@.take(i as int));
        i += 1;
    }
    assert(v@.take(i as int) =~= v@);
    r
}

/// Escaped text holds no angle bracket, so it cannot open or close a tag.
pub proof fn law_escaped_has_no_tag(s: Seq<char>)
    ensures
        forall|i: int| 0 <= i < escaped(s).len() ==> #[trigger] escaped(s)[i] != '<',
        forall|i: int| 0 <= i < escaped(s).len() ==> #[trigger] escaped(s)[i] != '>',
    decreases s.len(),
{
    reveal_strlit("&amp;");
    reveal_strlit("&lt;");
    reveal_strlit("&gt;");
    if s.len() > 0 {
        law_escaped_has_no_tag(s.drop_last());
        let a = escaped(s.drop_last());
        let b = escaped_char(s.last());
        assert forall|i: int| 0 <= i < escaped(s).len() implies #[trigger] escaped(s)[i] != '<'
            && escaped(s)[i] != '>' by {
            if i < a.len() {
                assert(escaped(s)[i] == a[i]);
            } else {
                assert(escaped(s)[i] == b[i - a.len()]);
            }
        }
    }
}

/// The character that an escaped text starts with, and how long it is there.
pub open spec fn unescaped_char(s: Seq<char>) -> (char, int) {
    if occurs_at(s, "&amp;"@, 0) {
        ('&', 5)
    } else if occurs_at(s, "&lt;"@, 0) {
        ('<', 4)
    } else if occurs_at(s, "&gt;"@, 0) {
        ('>', 4)
    } else {
        (s[0], 1)
    }
}

/// Escaped text with its entities turned back.
pub open spec fn unescaped(s: Seq<char>) -> Seq<char>
    decreases s.len(),
{
    if s.len() == 0 {
        s
    } else {
        let (c, n) = unescaped_char(s);
        seq![c] + unescaped(s.skip(if n <= s.len() {
            n
        } else {
            s.len() as int
        }))
    }
}

proof fn lemma_escaped_front(s: Seq<char>)
    requires
        s.len() > 0,
    ensures
        escaped(s) == escaped_char(s[0]) + escaped(s.skip(1)),
    decreases s.len(),
{
    if s.len() == 1 {
        assert(s.drop_last() =~= Seq::empty());
        assert(s.skip(1) =~= Seq::empty());
        assert(escaped(s.drop_last()) =~= Seq::empty());
        assert(escaped(s) == escaped(s.drop_last()) + escaped_char(s.last()));
        assert(escaped(s) =~= escaped_char(s[0]) + escaped(s.skip(1)));
    } else {
        lemma_escaped_front(s.drop_last());
        assert(s.drop_last().skip(1) =~= s.skip(1).drop_last());
        assert(escaped(s) =~= escaped_char(s[0]) + escaped(s.skip(1)));
    }
}

/// Undoing the escapes gives the text back, so no two texts look alike when escaped.
pub proof fn law_escapes_can_be_undone(s: Seq<char>)
    ensures
        unescaped(escaped(s)) == s,
    decreases s.len(),
{
    reveal_strlit("&amp;");
    reveal_strlit("&lt;");
    reveal_strlit("&gt;");
    if s.len() > 0 {
        lemma_escaped_front(s);
        law_escapes_can_be_undone(s.skip(1));
        let (c, e, rest) = (s[0], escaped(s), escaped(s.skip(1)));
        let head = escaped_char(c);
        assert(e == head + rest);
        assert(e.subrange(0, head.len() as int) =~= head);
        assert(e.skip(head.len() as int) =~= rest);
        assert(head[0] == e[0] && (head.len() > 1 ==> head[1] == e[1]));
        assert(e.len() >= 5 ==> e.subrange(0, 5)[0] == e[0] && e.subrange(0, 5)[1] == e[1]);
        assert(e.len() >= 4 ==> e.subrange(0, 4)[0] == e[0] && e.subrange(0, 4)[1] == e[1]);
        assert(unescaped_char(e) == (c, head.len() as int));
        assert(seq![c] + s.skip(1) =~= s);
    }
}

// --------------------------------------------------------------- searching

/// `needle` stands in `hay` at position `i`.
pub open spec fn occurs_at(hay: Seq<char>, needle: Seq<char>, i: int) -> bool {
    0 <= i && i + needle.len() <= hay.len() && hay.subrange(i, i + needle.len()) == needle
}

/// `needle` stands somewhere in `hay`.
pub open spec fn occurs(hay: Seq<char>, needle: Seq<char>) -> bool {
    exists|i: int| #[trigger] occurs_at(hay, needle, i)
}

/// Tests whether `needle` stands in `hay` at position `i`.
pub fn stands_at(hay: &[char], needle: &[char], i: usize) -> (r: bool)
    ensures
        r == occurs_at(hay@, needle@, i as int),
{
    if i > hay.len() || needle.len() > hay.len() - i {
        return false;
    }
    let mut k: usize = 0;
    while k < needle.len()
        invariant
            k <= needle@.len(),
            i + needle@.len() <= hay.len(),
            forall|j: int| 0 <= j < k ==> hay@[i + j] == needle@[j],
        decreases needle@.len() - k,
    {
        if hay[i + k] != needle[k] {
            assert(hay@.subrange(i as int, i + needle@.len())[k as int] != needle@[k as int]);
            return false;
        }
        k += 1;
    }
    assert(hay@.subrange(i as int, i + needle@.len()) =~= needle@);
    true
}

/// Tests whether `needle` stands somewhere in `hay`.
pub fn contains_chars(hay: &[char], needle: &[char]) -> (r: bool)
    ensures
        r == occurs(hay@, needle@),
{
    let mut i: usize = 0;
    while i <= hay.len() && needle.len() <= hay.len() - i
        invariant
            i <= hay@.len() + 1,
            forall|j: int| 0 <= j < i ==> !#[trigger] occurs_at(hay@, needle@, j),
        decreases hay@.len() + 1 - i,
    {
        if stands_at(hay, needle, i) {
            return true;
        }
        if i == hay.len() {
            return false;
        }
        i += 1;
    }
    false
}

/// Tests whether the text `needle` stands somewhere in the text `hay`.
pub fn contains_text(hay: &str, needle: &str) -> (r: bool)
    ensures
        r == occurs(hay@, needle@),
{
    let h: Vec<char> = chars_of(hay);
    let n: Vec<char> = chars_of(needle);
    contains_chars(h.as_slice(), n.as_slice())
}

/// `s` ends with `tail`.
pub open spec fn ends(s: Seq<char>, tail: Seq<char>) -> bool {
    occurs_at(s, tail, s.len() - tail.len())
}

/// Tests whether `s` ends with `tail`.
pub fn ends_with_text(s: &str, tail: &str) -> (r: bool)
    ensures
        r == ends(s@, tail@),
{
    let v: Vec<char> = chars_of(s);
    let t: Vec<char> = chars_of(tail);
    v.len() >= t.len() && stands_at(v.as_slice(), t.as_slice(), v.len() - t.len())
}

/// Position of the first `c` in `s`, or the length of `s` when there is none.
pub open spec fn first_of(s: Seq<char>, c: char) -> int
    decreases s.len(),
{
    if s.len() == 0 || s[0] == c {
        0
    } else {
        1 + first_of(s.skip(1), c)
    }
}

/// `first_of` is the first position that holds the character.
pub proof fn lemma_first_of(s: Seq<char>, c: char)
    ensures
        0 <= first_of(s, c) <= s.len(),
        first_of(s, c) < s.len() ==> s[first_of(s, c)] == c,
        forall|j: int| 0 <= j < first_of(s, c) ==> #[trigger] s[j] != c,
    decreases s.len(),
{
    if s.len() > 0 && s[0] != c {
        lemma_first_of(s.skip(1), c);
        assert forall|j: int| 0 <= j < first_of(s, c) implies #[trigger] s[j] != c by {
            if j > 0 {
                assert(s.skip(1)[j - 1] == s[j]);
            }
        }
        if first_of(s, c) < s.len() {
            assert(s.skip(1)[first_of(s, c) - 1] == s[first_of(s, c)]);
        }
    }
}

/// Position of the first `c` at or after `from`, or the length of `s`.
pub fn find_char(s: &[char], c: char, from: usize) -> (i: usize)
    requires
        from <= s@.len(),
    ensures
        from <= i <= s@.len(),
        i - from == first_of(s@.skip(from as int), c),
{
    let mut i: usize = from;
    let ghost rest = s@.skip(from as int);
    proof {
        lemma_first_of(rest, c);
    }
    while i < s.len() && s[i] != c
        invariant
            from <= i <= s@.len(),
            rest == s@.skip(from as int),
            forall|j: int| from <= j < i ==> s@[j] != c,
        decreases s@.len() - i,
    {
        i += 1;
    }
    proof {
        let f = first_of(rest, c);
        if f < i - from {
            assert(rest[f] == s@[from + f]);
        }
        if i - from < f {
            assert(rest[i - from] == s@[i as int]);
        }
    }
    i
}

// --------------------------------------------------------------- replacing

/// `s` with every occurrence of the non-empty `from`, taken from the left and
/// without overlap, replaced by `to`.
pub open spec fn replaced(s: Seq<char>, from: Seq<char>, to: Seq<char>) -> Seq<char>
    decreases s.len(),
{
    if from.len() == 0 || s.len() < from.len() {
        s
    } else if s.take(from.len() as int) == from {
        to + replaced(s.skip(from.len() as int), from, to)
    } else {
        seq![s[0]] + replaced(s.skip(1), from, to)
    }
}

/// Replaces every occurrence of `from` in `s` by `to`.
pub fn replace_text(s: &str, from: &str, to: &str) -> (r: String)
    requires
        from@.len() > 0,
    ensures
        r@ == replaced(s@, from@, to@),
{
    let v: Vec<char> = chars_of(s);
    let f: Vec<char> = chars_of(from);
    let mut r: String = String::new();
    let mut i: usize = 0;
    assert(v@.skip(0) =~= v@);
    assert(r@ + replaced(v@, f@, to@) =~= replaced(v@, f@, to@));
    while i < v.len()
        invariant
            i <= v@.len(),
            f@ == from@,
            f@.len() > 0,
            r@ + replaced(v@.skip(i as int), f@, to@) == replaced(v@, f@, to@),
        decreases v@.len() - i,
    {
        let ghost rest = v@.skip(i as int);
        if stands_at(v.as_slice(), f.as_slice(), i) {
            assert(rest.take(f@.len() as int) =~= v@.subrange(i as int, i + f@.len()));
            assert(rest.skip(f@.len() as int) =~= v@.skip(i + f@.len()));
            let ghost before = r@;
            r.append(to);
            i += f.len();
            assert(r@ + replaced(v@.skip(i as int), f@, to@) =~= before + replaced(rest, f@, to@));
        } else {
            proof {
                if rest.len() >= f@.len() {
                    assert(rest.take(f@.len() as int) =~= v@.subrange(i as int, i + f@.len()));
                }
            }
            assert(rest.skip(1) =~= v@.skip(i + 1));
            let ghost before = r@;
            proof {
                if rest.len() < f@.len() {
                    assert(replaced(rest.skip(1), f@, to@) == rest.skip(1));
                    assert(rest =~= seq![rest[0]] + rest.skip(1));
                }
            }
            r.push(v[i]);
            i += 1;
            assert(r@ + replaced(v@.skip(i as int), f@, to@) =~= before + (seq![rest[0]]
                + replaced(rest.skip(1), f@, to@)));
        }
    }
    assert(v@.skip(i as int) =~= Seq::empty());
    assert(r@ =~= r@ + replaced(v@.skip(i as int), f@, to@));
    r
}

/// Replacing in a text that does not hold the pattern changes nothing.
pub proof fn law_replace_absent(s: Seq<char>, from: Seq<char>, to: Seq<char>)
    requires
        from.len() > 0,
        !occurs(s, from),
    ensures
        replaced(s, from, to) == s,
    decreases s.len(),
{
    if s.len() >= from.len() {
        assert(!occurs_at(s, from, 0));
        assert(s.subrange(0, from.len() as int) =~= s.take(from.len() as int));
        let rest = s.skip(1);
        assert forall|i: int| !#[trigger] occurs_at(rest, from, i) by {
            if occurs_at(rest, from, i) {
                assert(rest.subrange(i, i + from.len()) =~= s.subrange(i + 1, i + 1 + from.len()));
                assert(occurs_at(s, from, i + 1));
            }
        }
        law_replace_absent(rest, from, to);
        assert(seq![s[0]] + rest =~= s);
    }
}

// --------------------------------------------------------------- splitting

/// The fields between the occurrences of `sep`.
pub open spec fn fields(s: Seq<char>, sep: char) -> Seq<Seq<char>>
    decreases s.len(),
    via fields_decreases
{
    let i = first_of(s, sep);
    if i >= s.len() {
        seq![s]
    } else {
        seq![s.take(i)] + fields(s.skip(i + 1), sep)
    }
}

#[via_fn]
proof fn fields_decreases(s: Seq<char>, sep: char) {
    lemma_first_of(s, sep);
}

/// A line without the carriage return that may end it.
pub open spec fn without_cr(s: Seq<char>) -> Seq<char> {
    if s.len() > 0 && s.last() == '\r' {
        s.drop_last()
    } else {
        s
    }
}

/// The lines of a text; a line ends at a line feed or at a carriage return and a
/// line feed, and nothing follows the last line feed.
pub open spec fn lines(s: Seq<char>) -> Seq<Seq<char>>
    decreases s.len(),
    via lines_decreases
{
    let i = first_of(s, '\n');
    if s.len() == 0 {
        Seq::empty()
    } else if i >= s.len() {
        seq![s]
    } else {
        seq![without_cr(s.take(i))] + lines(s.skip(i + 1))
    }
}

#[via_fn]
proof fn lines_decreases(s: Seq<char>) {
    lemma_first_of(s, '\n');
}

/// The texts of a list of strings.
pub open spec fn texts(v: Seq<String>) -> Seq<Seq<char>> {
    v.map_values(|s: String| s@)
}

/// Splits a text into the fields between the occurrences of `sep`.
pub fn split_fields(s: &[char], sep: char) -> (r: Vec<String>)
    ensures
        texts(r@) == fields(s@, sep),
{
    let mut r: Vec<String> = Vec::new();
    let mut from: usize = 0;
    assert(s@.skip(0) =~= s@);
    assert(texts(r@) + fields(s@, sep) =~= fields(s@, sep));
    loop
        invariant
            from <= s@.len(),
            texts(r@) + fields(s@.skip(from as int), sep) == fields(s@, sep),
        decreases s@.len() - from,
    {
        let ghost rest = s@.skip(from as int);
        let i: usize = find_char(s, sep, from);
        let part: String = string_of(s, from, i);
        let ghost before = texts(r@);
        assert(part@ =~= rest.take(i - from));
        r.push(part);
        assert(texts(r@) =~= before.push(part@));
        if i >= s.len() {
            assert(part@ =~= rest);
            assert(texts(r@) =~= before + seq![rest]);
            return r;
        }
        assert(rest.skip(i - from + 1) =~= s@.skip(i + 1));
        assert(texts(r@) + fields(s@.skip(i + 1), sep) =~= before + (seq![rest.take(i - from)]
            + fields(s@.skip(i + 1), sep)));
        from = i + 1;
    }
}

/// Splits a text into its lines.
pub fn split_lines(s: &str) -> (r: Vec<String>)
    ensures
        texts(r@) == lines(s@),
{
    let v: Vec<char> = chars_of(s);
    let mut r: Vec<String> = Vec::new();
    let mut from: usize = 0;
    assert(v@.skip(0) =~= v@);
    assert(texts(r@) + lines(v@) =~= lines(v@));
    while from < v.len()
        invariant
            from <= v@.len(),
            v@ == s@,
            texts(r@) + lines(v@.skip(from as int)) == lines(v@),
        decreases v@.len() - from,
    {
        let ghost rest = v@.skip(from as int);
        let i: usize = find_char(v.as_slice(), '\n', from);
        let ghost before = texts(r@);
        if i >= v.len() {
            let part: String = string_of(v.as_slice(), from, i);
            assert(part@ =~= rest);
            r.push(part);
            assert(texts(r@) =~= before + seq![rest]);
            return r;
        }
        let end: usize = if i > from && v[i - 1] == '\r' {
            i - 1
        } else {
            i
        };
        let part: String = string_of(v.as_slice(), from, end);
        assert(part@ =~= without_cr(rest.take(i - from)));
        r.push(part);
        assert(texts(r@) =~= before.push(part@));
        assert(rest.skip(i - from + 1) =~= v@.skip(i + 1));
        assert(texts(r@) + lines(v@.skip(i + 1)) =~= before + (seq![without_cr(
            rest.take(i - from),
        )] + lines(v@.skip(i + 1))));
        from = i + 1;
    }
    assert(v@.skip(from as int) =~= Seq::empty());
    assert(texts(r@) + Seq::<Seq<char>>::empty() =~= texts(r@));
    r
}

/// A character that separates words: the Unicode property `White_Space`.
pub open spec fn is_space(c: char) -> bool {
    ||| 0x09 <= c as int <= 0x0d
    ||| c as int == 0x20
    ||| c as int == 0x85
    ||| c as int == 0xa0
    ||| c as int == 0x1680
    ||| 0x2000 <= c as int <= 0x200a
    ||| c as int == 0x2028
    ||| c as int == 0x2029
    ||| c as int == 0x202f
    ||| c as int == 0x205f
    ||| c as int == 0x3000
}

/// `s` without the white space at its start.
pub open spec fn trimmed_start(s: Seq<char>) -> Seq<char>
    decreases s.len(),
{
    if s.len() > 0 && is_space(s[0]) {
        trimmed_start(s.skip(1))
    } else {
        s
    }
}

/// `s` without the white space at its end.
pub open spec fn trimmed_end(s: Seq<char>) -> Seq<char>
    decreases s.len(),
{
    if s.len() > 0 && is_space(s.last()) {
        trimmed_end(s.drop_last())
    } else {
        s
    }
}

/// `s` without the white space around it.
pub open spec fn trimmed(s: Seq<char>) -> Seq<char> {
    trimmed_end(trimmed_start(s))
}

fn space(c: char) -> (r: bool)
    ensures
        r == is_space(c),
{
    let n: u32 = c as u32;
    (0x09 <= n && n <= 0x0d) || n == 0x20 || n == 0x85 || n == 0xa0 || n == 0x1680 || (0x2000 <= n
        && n <= 0x200a) || n == 0x2028 || n == 0x2029 || n == 0x202f || n == 0x205f || n == 0x3000
}

/// Takes the white space off both ends of a text.
pub fn trim(s: &str) -> (r: String)
    ensures
        r@ == trimmed(s@),
{
    let v: Vec<char> = chars_of(s);
    let mut i: usize = 0;
    assert(v@.skip(0) =~= v@);
    while i < v.len() && space(v[i])
        invariant
            i <= v@.len(),
            trimmed_start(v@.skip(i as int)) == trimmed_start(v@),
        decreases v@.len() - i,
    {
        assert(v@.skip(i as int).skip(1) =~= v@.skip(i + 1));
        i += 1;
    }
    let ghost head = v@.skip(i as int);
    assert(trimmed_start(v@) == head);
    let mut j: usize = v.len();
    assert(v@.subrange(i as int, j as int) =~= head);
    while j > i && space(v[j - 1])
        invariant
            i <= j <= v@.len(),
            trimmed_end(v@.subrange(i as int, j as int)) == trimmed_end(head),
        decreases j,
    {
        assert(v@.subrange(i as int, j as int).drop_last() =~= v@.subrange(i as int, j - 1));
        j -= 1;
    }
    string_of(v.as_slice(), i, j)
}

// ---------------------------------------------------------------- ordering

/// The text that `str::to_lowercase` gives.
pub uninterp spec fn lowercase(s: Seq<char>) -> Seq<char>;

/// Calls `str::to_lowercase`, which maps a text to its lower case by the Unicode
/// tables. The result depends on the text alone; what the tables hold is not said.
#[verifier::external_body]
pub(crate) fn lower(s: &str) -> (r: String)
    ensures
        r@ == lowercase(s@),
{
    s.to_lowercase()
}

/// `a` comes before `b` in the order of code points.
pub open spec fn before(a: Seq<char>, b: Seq<char>) -> bool
    decreases a.len(),
{
    if b.len() == 0 {
        false
    } else if a.len() == 0 {
        true
    } else if a[0] != b[0] {
        (a[0] as int) < (b[0] as int)
    } else {
        before(a.skip(1), b.skip(1))
    }
}

fn lesser(a: char, b: char) -> (r: bool)
    ensures
        r == ((a as int) < (b as int)),
{
    (a as u32) < (b as u32)
}

/// Whether `a` comes before `b` in the order of code points.
pub fn comes_before(a: &[char], b: &[char]) -> (r: bool)
    ensures
        r == before(a@, b@),
{
    let mut i: usize = 0;
    assert(a@.skip(0) =~= a@ && b@.skip(0) =~= b@);
    while i < a.len() && i < b.len()
        invariant
            i <= a@.len(),
            i <= b@.len(),
            before(a@, b@) == before(a@.skip(i as int), b@.skip(i as int)),
        decreases a@.len() - i,
    {
        if a[i] != b[i] {
            return lesser(a[i], b[i]);
        }
        assert(a@.skip(i as int).skip(1) =~= a@.skip(i + 1));
        assert(b@.skip(i as int).skip(1) =~= b@.skip(i + 1));
        i += 1;
    }
    i < b.len()
}

/// The order of code points is a strict order of all texts: no text comes before
/// itself, two texts that are not ordered are equal, and it is transitive.
pub proof fn lemma_before_total(a: Seq<char>, b: Seq<char>)
    ensures
        before(a, b) ==> !before(b, a),
        !before(a, b) && !before(b, a) ==> a == b,
    decreases a.len(),
{
    if a.len() > 0 && b.len() > 0 && a[0] == b[0] {
        lemma_before_total(a.skip(1), b.skip(1));
        if a.skip(1) == b.skip(1) {
            assert(a =~= seq![a[0]] + a.skip(1));
            assert(b =~= seq![b[0]] + b.skip(1));
        }
    } else if a.len() == 0 && b.len() == 0 {
        assert(a =~= b);
    }
}

/// See `lemma_before_total`.
pub proof fn lemma_before_transitive(a: Seq<char>, b: Seq<char>, c: Seq<char>)
    requires
        before(a, b),
        before(b, c),
    ensures
        before(a, c),
    decreases a.len(),
{
    if a.len() > 0 && b.len() > 0 && c.len() > 0 && a[0] == b[0] && b[0] == c[0] {
        lemma_before_transitive(a.skip(1), b.skip(1), c.skip(1));
    }
}

// -------------------------------------------------------------------- laws

/// A decimal numeral is positional: its last character is the last digit, from `0` to
/// `9`, and what stands before it is the numeral of the rest. A negative number has a
/// minus sign before it.
pub proof fn law_decimal_is_positional(n: int)
    requires
        0 <= n,
    ensures
        dec(n).len() > 0,
        dec(n).last() as int == '0' as int + n % 10,
        n < 10 ==> dec(n).len() == 1,
        n >= 10 ==> dec(n).drop_last() == dec(n / 10),
        dec_signed(n) == dec(n),
        n > 0 ==> dec_signed(-n) == seq!['-'] + dec(n),
{
    if n >= 10 {
        assert(dec(n).drop_last() =~= dec(n / 10));
    }
}

/// A decimal numeral reads back as its number.
pub proof fn law_decimal_reads_back(n: int)
    requires
        0 <= n,
    ensures
        numeral(dec(n), 10) == Some(n),
    decreases n,
{
    lemma_decimal_digits(n);
    assert(dec(n)[0] != '+') by {
        lemma_decimal_first(n);
    }
}

proof fn lemma_decimal_first(n: int)
    requires
        0 <= n,
    ensures
        dec(n).len() > 0,
        '0' <= dec(n)[0] <= '9',
    decreases n,
{
    if n >= 10 {
        lemma_decimal_first(n / 10);
        assert(dec(n)[0] == dec(n / 10)[0]);
    }
}

proof fn lemma_decimal_digits(n: int)
    requires
        0 <= n,
    ensures
        dec(n).len() > 0,
        digits_value(dec(n), 10) == Some(n),
    decreases n,
{
    if n >= 10 {
        lemma_decimal_digits(n / 10);
        assert(dec(n).drop_last() =~= dec(n / 10));
    }
}

/// A hexadecimal numeral has `k` digits, from `0` to `9` and `a` to `f`, and is
/// positional.
pub proof fn law_hexadecimal_is_positional(n: int, k: nat)
    requires
        0 <= n,
    ensures
        hex(n, k).len() == k,
        k > 0 ==> hex(n, k).drop_last() == hex(n / 16, (k - 1) as nat),
        k > 0 ==> hex(n, k).last() as int == (if n % 16 < 10 {
            '0' as int + n % 16
        } else {
            'a' as int + (n % 16 - 10)
        }),
    decreases k,
{
    if k > 0 {
        law_hexadecimal_is_positional(n / 16, (k - 1) as nat);
        assert(hex(n, k).drop_last() =~= hex(n / 16, (k - 1) as nat));
    }
}

/// `n` has no more than `k` hexadecimal digits.
pub open spec fn fits_hex(n: int, k: nat) -> bool
    decreases k,
{
    if k == 0 {
        n == 0
    } else {
        fits_hex(n / 16, (k - 1) as nat)
    }
}

/// A number of 64 bits has no more than sixteen hexadecimal digits.
pub proof fn lemma_fits_hex(n: u64)
    ensures
        fits_hex(n as int, 16),
{
    reveal_with_fuel(fits_hex, 17);
    let n = n as int;
    assert(n / 16 / 16 / 16 / 16 / 16 / 16 / 16 / 16 / 16 / 16 / 16 / 16 / 16 / 16 / 16 / 16 == 0);
}

proof fn lemma_hex_digits(n: int, k: nat)
    requires
        0 <= n,
        0 < k,
        fits_hex(n, k),
    ensures
        hex(n, k).len() == k,
        digits_value(hex(n, k), 16) == Some(n),
        hex(n, k)[0] != '+',
        forall|i: int| 0 <= i < k ==> #[trigger] hex(n, k)[i] != '\t',
    decreases k,
{
    law_hexadecimal_is_positional(n, k);
    let front = hex(n / 16, (k - 1) as nat);
    if k > 1 {
        lemma_hex_digits(n / 16, (k - 1) as nat);
        assert(hex(n, k)[0] == front[0]);
    } else {
        assert(fits_hex(n / 16, 0));
        assert(n / 16 == 0);
        assert(front.len() == 0);
    }
    assert forall|i: int| 0 <= i < k implies #[trigger] hex(n, k)[i] != '\t' by {
        if i < front.len() {
            assert(hex(n, k)[i] == front[i]);
        }
    }
}

/// A hexadecimal numeral of enough digits reads back as its number.
pub proof fn law_hexadecimal_reads_back(n: u64)
    ensures
        numeral(hex(n as int, 16), 16) == Some(n as int),
        forall|i: int| 0 <= i < 16 ==> #[trigger] hex(n as int, 16)[i] != '\t',
        hex(n as int, 16).len() == 16,
{
    lemma_fits_hex(n);
    lemma_hex_digits(n as int, 16);
}

/// A number is read up to its bound and no further.
pub proof fn law_numbers_are_bounded(s: Seq<char>, radix: int, max: int)
    ensures
        bounded_numeral(s, radix, max) matches Some(v) ==> v <= max && numeral(s, radix) == Some(v),
        numeral(s, radix) matches Some(v) ==> (v <= max ==> bounded_numeral(s, radix, max) == Some(
            v,
        )),
{
}

/// Line breaks become `<br>` and nothing else differs from escaping: a text of two parts
/// around a line break is escaped part by part.
pub proof fn law_line_breaks_become_tags(a: Seq<char>, b: Seq<char>)
    ensures
        (forall|i: int| 0 <= i < a.len() ==> #[trigger] a[i] != '\n') ==> escaped_lines(a)
            == escaped(a),
        escaped_lines(a + seq!['\n'] + b) == escaped_lines(a) + "<br>"@ + escaped_lines(b),
    decreases b.len(),
{
    lemma_lines_escaped(a);
    if b.len() == 0 {
        let s = a + seq!['\n'] + b;
        assert(s.drop_last() =~= a);
        assert(escaped_lines(b) =~= Seq::empty());
        assert(escaped_lines(a) + "<br>"@ + escaped_lines(b) =~= escaped_lines(a) + "<br>"@);
    } else {
        let s = a + seq!['\n'] + b;
        law_line_breaks_become_tags(a, b.drop_last());
        assert(s.drop_last() =~= a + seq!['\n'] + b.drop_last());
        assert(s.last() == b.last());
        assert(escaped_lines(s) =~= escaped_lines(a) + "<br>"@ + escaped_lines(b));
    }
}

proof fn lemma_lines_escaped(a: Seq<char>)
    ensures
        (forall|i: int| 0 <= i < a.len() ==> #[trigger] a[i] != '\n') ==> escaped_lines(a)
            == escaped(a),
    decreases a.len(),
{
    if a.len() > 0 {
        lemma_lines_escaped(a.drop_last());
        if forall|i: int| 0 <= i < a.len() ==> #[trigger] a[i] != '\n' {
            assert forall|i: int| 0 <= i < a.drop_last().len() implies #[trigger] a.drop_last()[i]
                != '\n' by {
                assert(a[i] != '\n');
            }
            assert(a[a.len() - 1] != '\n');
        }
    }
}

/// Escaping replaces the three markup characters by their entities and keeps every
/// other character, one after the other.
pub proof fn law_escaping_goes_character_by_character(s: Seq<char>, c: char)
    ensures
        escaped(Seq::empty()) == Seq::<char>::empty(),
        escaped(s.push(c)) == escaped(s) + (if c == '&' {
            "&amp;"@
        } else if c == '<' {
            "&lt;"@
        } else if c == '>' {
            "&gt;"@
        } else {
            seq![c]
        }),
{
    assert(s.push(c).drop_last() =~= s);
}

/// Replacing puts the new text in the place of the first occurrence and goes on behind
/// it.
pub proof fn law_replaces_the_first_occurrence(
    a: Seq<char>,
    from: Seq<char>,
    to: Seq<char>,
    b: Seq<char>,
)
    requires
        from.len() > 0,
        forall|i: int| 0 <= i < a.len() ==> !#[trigger] occurs_at(a + from + b, from, i),
    ensures
        replaced(a + from + b, from, to) == a + to + replaced(b, from, to),
    decreases a.len(),
{
    let s = a + from + b;
    let n = from.len() as int;
    if a.len() == 0 {
        assert(s.take(n) =~= from);
        assert(s.skip(n) =~= b);
        assert(a + to + replaced(b, from, to) =~= to + replaced(b, from, to));
    } else {
        assert(!occurs_at(s, from, 0));
        assert(s.subrange(0, n) =~= s.take(n));
        let rest = a.skip(1);
        assert(s.skip(1) =~= rest + from + b);
        assert forall|i: int| 0 <= i < rest.len() implies !#[trigger] occurs_at(
            rest + from + b,
            from,
            i,
        ) by {
            assert(!occurs_at(s, from, i + 1));
            assert(s.subrange(i + 1, i + 1 + n) =~= (rest + from + b).subrange(i, i + n));
        }
        law_replaces_the_first_occurrence(rest, from, to, b);
        assert(seq![s[0]] + (rest + to + replaced(b, from, to)) =~= a + to + replaced(
            b,
            from,
            to,
        ));
    }
}

/// A text splits at its separators: the field before the first one, then the fields of
/// what is behind it.
pub proof fn law_fields_split_at_separators(a: Seq<char>, sep: char, b: Seq<char>)
    requires
        forall|i: int| 0 <= i < a.len() ==> #[trigger] a[i] != sep,
    ensures
        fields(a, sep) == seq![a],
        fields(a + seq![sep] + b, sep) == seq![a] + fields(b, sep),
{
    lemma_first_of(a, sep);
    let s = a + seq![sep] + b;
    lemma_first_of(s, sep);
    let f = first_of(s, sep);
    assert(s[a.len() as int] == sep);
    assert(f == a.len()) by {
        if f < a.len() {
            assert(s[f] == a[f]);
        }
    }
    assert(s.take(f) =~= a);
    assert(s.skip(f + 1) =~= b);
}

/// A text splits into lines at its line feeds; a carriage return before one belongs to
/// it, and behind the last one there is no line.
pub proof fn law_lines_split_at_line_feeds(a: Seq<char>, b: Seq<char>)
    requires
        forall|i: int| 0 <= i < a.len() ==> #[trigger] a[i] != '\n',
    ensures
        lines(Seq::empty()) == Seq::<Seq<char>>::empty(),
        a.len() > 0 ==> lines(a) == seq![a],
        a.len() == 0 || a.last() != '\r' ==> lines(a + seq!['\n'] + b) == seq![a] + lines(b),
        lines(a + seq!['\r', '\n'] + b) == seq![a] + lines(b),
{
    lemma_first_of(a, '\n');
    let s = a + seq!['\n'] + b;
    lemma_first_of(s, '\n');
    let f = first_of(s, '\n');
    assert(s[a.len() as int] == '\n');
    assert(f == a.len()) by {
        if f < a.len() {
            assert(s[f] == a[f]);
        }
    }
    assert(s.take(f) =~= a);
    assert(s.skip(f + 1) =~= b);
    let t = a + seq!['\r', '\n'] + b;
    lemma_first_of(t, '\n');
    let g = first_of(t, '\n');
    assert(t[a.len() as int + 1] == '\n');
    assert(g == a.len() + 1) by {
        if g < a.len() {
            assert(t[g] == a[g]);
        } else if g == a.len() {
            assert(t[g] == '\r');
        }
    }
    assert(t.take(g).drop_last() =~= a);
    assert(t.take(g).last() == '\r');
    assert(t.skip(g + 1) =~= b);
}

/// Whole lines split apart from what follows them.
pub proof fn lemma_lines_add(a: Seq<char>, b: Seq<char>)
    requires
        a.len() == 0 || a.last() == '\n',
    ensures
        lines(a + b) == lines(a) + lines(b),
    decreases a.len(),
{
    if a.len() == 0 {
        assert(a + b =~= b);
        assert(lines(a) + lines(b) =~= lines(b));
    } else {
        lemma_first_of(a, '\n');
        lemma_first_of(a + b, '\n');
        let f = first_of(a, '\n');
        let g = first_of(a + b, '\n');
        assert(f < a.len()) by {
            if f == a.len() {
                assert(a[a.len() - 1] != '\n');
            }
        }
        assert(g == f) by {
            if g < f {
                assert((a + b)[g] == a[g]);
            }
            if f < g {
                assert((a + b)[f] == a[f]);
            }
        }
        assert((a + b).take(f) =~= a.take(f));
        assert((a + b).skip(f + 1) =~= a.skip(f + 1) + b);
        let rest = a.skip(f + 1);
        assert(rest.len() > 0 ==> rest.last() == a.last());
        lemma_lines_add(rest, b);
        assert(lines(a + b) =~= lines(a) + lines(b));
    }
}

/// Trimming takes white space from both ends, all of it, and nothing else.
pub proof fn law_trimming_takes_the_ends(s: Seq<char>)
    ensures
        exists|i: int, j: int|
            0 <= i <= j <= s.len() && trimmed(s) == #[trigger] s.subrange(i, j) && (forall|k: int|
                0 <= k < i || j <= k < s.len() ==> is_space(#[trigger] s[k])),
        trimmed(s).len() > 0 ==> !is_space(trimmed(s)[0]) && !is_space(trimmed(s).last()),
        is_space(' ') && is_space('\t') && is_space('\r') && is_space('\n'),
        forall|c: char| 0x21 <= c as int <= 0x7e ==> !#[trigger] is_space(c),
{
    let i = lemma_trimmed_start(s);
    let t = trimmed_start(s);
    let j = lemma_trimmed_end(t);
    assert(trimmed(s) =~= s.subrange(i, i + j));
    assert forall|k: int| 0 <= k < i || i + j <= k < s.len() implies is_space(#[trigger] s[k]) by {
        if k >= i + j {
            assert(t[k - i] == s[k]);
        }
    }
    if trimmed(s).len() > 0 {
        assert(trimmed(s)[0] == t[0]);
    }
}

proof fn lemma_trimmed_start(s: Seq<char>) -> (i: int)
    ensures
        0 <= i <= s.len(),
        trimmed_start(s) == s.skip(i),
        forall|k: int| 0 <= k < i ==> is_space(#[trigger] s[k]),
        i < s.len() ==> !is_space(s[i]),
    decreases s.len(),
{
    if s.len() > 0 && is_space(s[0]) {
        let i = lemma_trimmed_start(s.skip(1));
        assert(s.skip(1).skip(i) =~= s.skip(i + 1));
        assert forall|k: int| 0 <= k < i + 1 implies is_space(#[trigger] s[k]) by {
            if k > 0 {
                assert(s.skip(1)[k - 1] == s[k]);
            }
        }
        if i + 1 < s.len() {
            assert(s.skip(1)[i] == s[i + 1]);
        }
        i + 1
    } else {
        assert(s.skip(0) =~= s);
        0
    }
}

proof fn lemma_trimmed_end(s: Seq<char>) -> (j: int)
    ensures
        0 <= j <= s.len(),
        trimmed_end(s) == s.take(j),
        forall|k: int| j <= k < s.len() ==> is_space(#[trigger] s[k]),
        0 < j ==> !is_space(s[j - 1]),
    decreases s.len(),
{
    if s.len() > 0 && is_space(s.last()) {
        let j = lemma_trimmed_end(s.drop_last());
        assert(s.drop_last().take(j) =~= s.take(j));
        assert forall|k: int| j <= k < s.len() implies is_space(#[trigger] s[k]) by {
            if k < s.len() - 1 {
                assert(s.drop_last()[k] == s[k]);
            }
        }
        j
    } else {
        assert(s.take(s.len() as int) =~= s);
        s.len() as int
    }
}

/// Texts are ordered by their first different character, and a text comes before
/// what it begins.
pub proof fn law_first_difference_decides(p: Seq<char>, a: Seq<char>, b: Seq<char>)
    ensures
        a.len() > 0 && b.len() > 0 && (a[0] as int) < (b[0] as int) ==> before(p + a, p + b),
        a.len() > 0 && b.len() > 0 && (a[0] as int) < (b[0] as int) ==> !before(p + b, p + a),
        b.len() > 0 ==> before(p, p + b) && !before(p + b, p),
        !before(p, p),
    decreases p.len(),
{
    if p.len() == 0 {
        assert(p + a =~= a && p + b =~= b);
    } else {
        law_first_difference_decides(p.skip(1), a, b);
        assert((p + a).skip(1) =~= p.skip(1) + a);
        assert((p + b).skip(1) =~= p.skip(1) + b);
    }
}

/// A text occurs in another wherever it stands in it, and only then; a text ends with
/// what stands last in it.
pub proof fn law_text_occurs_where_it_stands(a: Seq<char>, t: Seq<char>, b: Seq<char>)
    ensures
        occurs(a + t + b, t),
        ends(a + t, t),
        occurs(a, t) == exists|i: int|
            0 <= i && i + t.len() <= a.len() && #[trigger] a.subrange(i, i + t.len()) == t,
        ends(a, t) ==> a.len() >= t.len() && a.skip(a.len() - t.len()) == t,
{
    let s = a + t + b;
    assert(s.subrange(a.len() as int, (a.len() + t.len()) as int) =~= t);
    assert(occurs_at(s, t, a.len() as int));
    let e = a + t;
    assert(e.subrange(a.len() as int, (a.len() + t.len()) as int) =~= t);
    if occurs(a, t) {
        let i = choose|i: int| #[trigger] occurs_at(a, t, i);
        assert(a.subrange(i, i + t.len()) == t);
    }
    if exists|i: int|
        0 <= i && i + t.len() <= a.len() && #[trigger] a.subrange(i, i + t.len()) == t {
        let i = choose|i: int|
            0 <= i && i + t.len() <= a.len() && #[trigger] a.subrange(i, i + t.len()) == t;
        assert(occurs_at(a, t, i));
    }
    if ends(a, t) {
        assert(a.skip(a.len() - t.len()) =~= a.subrange(a.len() - t.len(), a.len() as int));
    }
}

} // verus!
