//! Formulas in card HTML.
//!
//! Formulas stand in the HTML as `\(..\)` in the line or `\[..\]` on their own. A
//! helper program renders them to images; here the HTML is searched for formulas
//! that are not rendered yet, the helper's requests and answers are written and
//! read, and the formulas are replaced by images. Rendered formulas are kept by a
//! key of their text. A second kind of formula comes as SVG files that only need
//! to be embedded.

use std::collections::{HashMap, HashSet};
use std::hash::BuildHasher;

use vstd::prelude::*;

use crate::data_uri::{png_data_uri, png_uri};
use crate::pen::{lossy, lossy_text};
use crate::raster::{finalize_math_png, finalized};
use crate::text::{
    bounded_numeral, chars_of, copy_of, dec, env_or, esc, escaped, fields, hex, lines,
    parse_numeral, push_dec, push_hex, replace_text, replaced, same_text, split_fields,
    split_lines, string_of, texts,
};

verus! {

// ---------------------------------------------------------------- searching

/// A place where a pattern matches: the whole match and its first two groups.
pub struct Found {
    pub whole: String,
    pub first: Option<String>,
    pub second: Option<String>,
}

/// What a place where a pattern matches holds.
#[verifier::ext_equal]
pub struct FoundText {
    pub whole: Seq<char>,
    pub first: Option<Seq<char>>,
    pub second: Option<Seq<char>>,
}

/// All places where a pattern matches, and the text around them: before the first,
/// between two, and behind the last.
pub struct Spans {
    pub found: Vec<Found>,
    pub between: Vec<String>,
}

/// What `Spans` holds.
#[verifier::ext_equal]
pub struct SpanTexts {
    pub found: Seq<FoundText>,
    pub between: Seq<Seq<char>>,
}

/// The text of an optional string.
pub open spec fn text_of(s: Option<String>) -> Option<Seq<char>> {
    match s {
        Some(s) => Some(s@),
        None => None,
    }
}

impl View for Found {
    type V = FoundText;

    open spec fn view(&self) -> FoundText {
        FoundText {
            whole: self.whole@,
            first: text_of(self.first),
            second: text_of(self.second),
        }
    }
}

impl View for Spans {
    type V = SpanTexts;

    open spec fn view(&self) -> SpanTexts {
        SpanTexts {
            found: self.found@.map_values(|f: Found| f@),
            between: texts(self.between@),
        }
    }
}

/// Formulas: in the line as the first group, on their own as the second.
pub const MATH_PATTERN: &'static str = "(?s)\\\\\\((.+?)\\\\\\)|\\\\\\[(.+?)\\\\\\]";

/// Commands: a backslash and letters.
pub const COMMAND_PATTERN: &'static str = "\\\\[a-zA-Z]+";

impl SpanTexts {
    /// There is text around every match, if only an empty one.
    pub open spec fn valid(self) -> bool {
        self.between.len() == self.found.len() + 1
    }

    /// The text from the `n`-th piece between matches on.
    pub open spec fn from(self, n: int) -> Seq<char>
        decreases self.found.len() - n,
    {
        if n >= self.found.len() {
            self.between[n]
        } else {
            self.between[n] + self.found[n].whole + self.from(n + 1)
        }
    }
}

/// Position of the first backslash at or behind `from` that `c` follows; the length
/// if there is none.
pub open spec fn closing(s: Seq<char>, from: int, c: char) -> int
    decreases s.len() - from,
{
    if from >= s.len() - 1 {
        s.len() as int
    } else if s[from] == '\\' && s[from + 1] == c {
        from
    } else {
        closing(s, from + 1, c)
    }
}

/// The delimiter that closes the one with `c`.
pub open spec fn closer(c: char) -> char {
    if c == '(' {
        ')'
    } else {
        ']'
    }
}

/// Where the source of the formula at `i` ends, if a formula is there: it opens with
/// `\(` or `\[`, holds at least one character, and ends before the first closing
/// delimiter of its kind.
pub open spec fn formula_end(s: Seq<char>, i: int) -> Option<int> {
    if i < s.len() - 1 && s[i] == '\\' && (s[i + 1] == '(' || s[i + 1] == '[') && closing(
        s,
        i + 3,
        closer(s[i + 1]),
    ) < s.len() {
        Some(closing(s, i + 3, closer(s[i + 1])))
    } else {
        None
    }
}

/// Position of the first formula at or behind `i`; the length if there is none.
pub open spec fn next_formula(s: Seq<char>, i: int) -> int
    decreases s.len() - i,
{
    if i >= s.len() {
        s.len() as int
    } else if formula_end(s, i) is Some {
        i
    } else {
        next_formula(s, i + 1)
    }
}

/// The formula at `i` whose source ends at `end`.
pub open spec fn formula_at(s: Seq<char>, i: int, end: int) -> FoundText {
    let tex = s.subrange(i + 2, end);
    FoundText {
        whole: s.subrange(i, end + 2),
        first: if s[i + 1] == '(' {
            Some(tex)
        } else {
            None
        },
        second: if s[i + 1] == '(' {
            None
        } else {
            Some(tex)
        },
    }
}

/// The formulas from `i` on, one behind the other, with the text around them.
pub open spec fn formulas_from(s: Seq<char>, i: int) -> SpanTexts
    decreases s.len() - i,
    via formulas_from_decreases
{
    let k = next_formula(s, i);
    if i < 0 || k >= s.len() {
        SpanTexts { found: Seq::empty(), between: seq![s.skip(i)] }
    } else {
        let end = formula_end(s, k)->0;
        let rest = formulas_from(s, end + 2);
        SpanTexts {
            found: seq![formula_at(s, k, end)] + rest.found,
            between: seq![s.subrange(i, k)] + rest.between,
        }
    }
}

#[via_fn]
proof fn formulas_from_decreases(s: Seq<char>, i: int) {
    lemma_next_formula(s, i);
}

proof fn lemma_closing(s: Seq<char>, from: int, c: char)
    requires
        0 <= from,
    ensures
        closing(s, from, c) < s.len() ==> {
            &&& from <= closing(s, from, c) < s.len() - 1
            &&& s[closing(s, from, c)] == '\\' && s[closing(s, from, c) + 1] == c
        },
    decreases s.len() - from,
{
    if from < s.len() - 1 && !(s[from] == '\\' && s[from + 1] == c) {
        lemma_closing(s, from + 1, c);
    }
}

proof fn lemma_next_formula(s: Seq<char>, i: int)
    ensures
        next_formula(s, i) < s.len() ==> {
            &&& i <= next_formula(s, i)
            &&& formula_end(s, next_formula(s, i)) is Some
            &&& 0 <= i ==> next_formula(s, i) + 3 <= formula_end(s, next_formula(s, i))->0
                < s.len() - 1
        },
    decreases s.len() - i,
{
    if i < s.len() {
        if formula_end(s, i) is Some {
            if 0 <= i {
                lemma_closing(s, i + 3, closer(s[i + 1]));
            }
        } else {
            lemma_next_formula(s, i + 1);
        }
    }
}

/// An ASCII letter.
pub open spec fn is_letter(c: char) -> bool {
    'a' <= c <= 'z' || 'A' <= c <= 'Z'
}

/// A backslash and at least one letter, and nothing else.
pub open spec fn is_command(s: Seq<char>) -> bool {
    s.len() >= 2 && s[0] == '\\' && forall|i: int| 1 <= i < s.len() ==> is_letter(#[trigger] s[i])
}

/// No command begins in the text.
pub open spec fn no_command(s: Seq<char>) -> bool {
    forall|i: int| 0 <= i < s.len() - 1 && #[trigger] s[i] == '\\' ==> !is_letter(s[i + 1])
}

/// Every match is a command, taken to its end, and none is left out.
pub open spec fn all_commands(m: SpanTexts) -> bool {
    &&& forall|i: int| 0 <= i < m.found.len() ==> is_command((#[trigger] m.found[i]).whole)
    &&& forall|i: int| 0 <= i < m.between.len() ==> no_command(#[trigger] m.between[i])
    &&& forall|i: int|
        1 <= i < m.between.len() && (#[trigger] m.between[i]).len() > 0 ==> !is_letter(
            m.between[i][0],
        )
}

/// Calls `regex::Regex::new`, then `captures_iter` for the successive matches and
/// `split` for the text around them, with one of the two patterns of this module,
/// which are both valid. Matches and surrounding text make up the whole text.
/// `MATH_PATTERN` finds the formulas from left to right, each closed by the first
/// delimiter that can close it; `COMMAND_PATTERN` finds every command as a whole.
#[verifier::external_body]
fn find_spans(pattern: &str, hay: &str) -> (s: Spans)
    requires
        pattern@ == MATH_PATTERN@ || pattern@ == COMMAND_PATTERN@,
    ensures
        s@.valid(),
        s@.from(0) == hay@,
        pattern@ == MATH_PATTERN@ ==> s@ == formulas_from(hay@, 0),
        pattern@ == COMMAND_PATTERN@ ==> all_commands(s@),
{
    let re = regex::Regex::new(pattern).unwrap();
    let text = |m: regex::Match| m.as_str().to_string();
    let found = re.captures_iter(hay).map(
        |c| Found {
            whole: c[0].to_string(),
            first: c.get(1).map(text),
            second: c.get(2).map(text),
        },
    ).collect();
    Spans { found, between: re.split(hay).map(str::to_string).collect() }
}

// ----------------------------------------------------------------- commands

/// Number of letters that a text begins with.
pub open spec fn letters(s: Seq<char>) -> int
    decreases s.len(),
{
    if s.len() > 0 && is_letter(s[0]) {
        1 + letters(s.skip(1))
    } else {
        0
    }
}

/// What a command is rendered as: `\gt` and `\lt` are the signs, any other command
/// is itself.
pub open spec fn command_text(name: Seq<char>) -> Seq<char> {
    if name == "gt"@ {
        ">"@
    } else if name == "lt"@ {
        "<"@
    } else {
        seq!['\\'] + name
    }
}

/// The text with `\gt` and `\lt` replaced by the signs.
pub open spec fn aliased(s: Seq<char>) -> Seq<char>
    decreases s.len(),
    via aliased_decreases
{
    if s.len() == 0 {
        s
    } else if s[0] == '\\' && letters(s.skip(1)) > 0 {
        let n = letters(s.skip(1));
        command_text(s.subrange(1, n + 1)) + aliased(s.skip(n + 1))
    } else {
        seq![s[0]] + aliased(s.skip(1))
    }
}

#[via_fn]
proof fn aliased_decreases(s: Seq<char>) {
    lemma_letters(s.skip(1));
}

proof fn lemma_letters(s: Seq<char>)
    ensures
        0 <= letters(s) <= s.len(),
        forall|i: int| 0 <= i < letters(s) ==> is_letter(#[trigger] s[i]),
        letters(s) < s.len() ==> !is_letter(s[letters(s)]),
    decreases s.len(),
{
    if s.len() > 0 && is_letter(s[0]) {
        let rest = s.skip(1);
        lemma_letters(rest);
        assert forall|i: int| 0 <= i < letters(s) implies is_letter(#[trigger] s[i]) by {
            if i > 0 {
                assert(rest[i - 1] == s[i]);
            }
        }
        if letters(s) < s.len() {
            assert(rest[letters(s) - 1] == s[letters(s)]);
        }
    }
}

/// Text in which no command begins is passed on.
proof fn lemma_aliased_plain(gap: Seq<char>, rest: Seq<char>)
    requires
        no_command(gap),
        gap.len() > 0 && rest.len() > 0 && gap.last() == '\\' ==> !is_letter(rest[0]),
    ensures
        aliased(gap + rest) == gap + aliased(rest),
    decreases gap.len(),
{
    if gap.len() == 0 {
        assert(gap + rest =~= rest);
        assert(gap + aliased(rest) =~= aliased(rest));
    } else {
        let s = gap + rest;
        let tail = gap.skip(1);
        assert(s.skip(1) =~= tail + rest);
        assert forall|i: int| 0 <= i < tail.len() - 1 && #[trigger] tail[i] == '\\' implies
            !is_letter(tail[i + 1]) by {
            assert(gap[i + 1] == '\\');
        }
        lemma_aliased_plain(tail, rest);
        if s[0] == '\\' {
            if gap.len() > 1 {
                assert(gap[0] == '\\');
                assert(!is_letter(gap[1]));
                assert(s.skip(1)[0] == gap[1]);
            } else if rest.len() > 0 {
                assert(s.skip(1)[0] == rest[0]);
            }
            assert(letters(s.skip(1)) == 0);
        }
        assert(aliased(s) == seq![s[0]] + aliased(s.skip(1)));
        assert(seq![s[0]] + (tail + aliased(rest)) =~= gap + aliased(rest));
    }
}

/// A whole command is replaced.
proof fn lemma_aliased_command(whole: Seq<char>, rest: Seq<char>)
    requires
        is_command(whole),
        rest.len() > 0 ==> !is_letter(rest[0]),
    ensures
        aliased(whole + rest) == command_text(whole.skip(1)) + aliased(rest),
{
    let s = whole + rest;
    let n = whole.len() - 1;
    let after = s.skip(1);
    lemma_letters(after);
    assert(letters(after) == n) by {
        let k = letters(after);
        if k < n {
            assert(after[k] == whole[k + 1]);
        }
        if k > n {
            assert(after[n] == rest[0]);
        }
    }
    assert(s.subrange(1, n + 1) =~= whole.skip(1));
    assert(s.skip(n + 1) =~= rest);
}

/// The text from the `n`-th piece on, with the commands replaced.
spec fn aliased_from(m: SpanTexts, n: int) -> Seq<char>
    decreases m.found.len() - n,
{
    if n >= m.found.len() {
        m.between[n]
    } else {
        m.between[n] + command_text(m.found[n].whole.skip(1)) + aliased_from(m, n + 1)
    }
}

proof fn lemma_aliased_from(m: SpanTexts, n: int)
    requires
        m.valid(),
        all_commands(m),
        0 <= n <= m.found.len(),
    ensures
        aliased(m.from(n)) == aliased_from(m, n),
        n > 0 && m.from(n).len() > 0 ==> !is_letter(m.from(n)[0]),
    decreases m.found.len() - n,
{
    let gap = m.between[n];
    assert(no_command(gap));
    if n == m.found.len() {
        lemma_aliased_plain(gap, Seq::empty());
        assert(gap + Seq::<char>::empty() =~= gap);
        assert(aliased(Seq::empty()) =~= Seq::empty());
        if n > 0 && gap.len() > 0 {
            assert(!is_letter(m.between[n][0]));
        }
    } else {
        let whole = m.found[n].whole;
        let rest = m.from(n + 1);
        lemma_aliased_from(m, n + 1);
        assert(is_command(whole));
        lemma_aliased_command(whole, rest);
        assert((whole + rest)[0] == '\\');
        lemma_aliased_plain(gap, whole + rest);
        assert(m.from(n) =~= gap + (whole + rest));
        assert(aliased_from(m, n) =~= gap + (command_text(whole.skip(1)) + aliased(rest)));
        if n > 0 {
            if gap.len() > 0 {
                assert(!is_letter(m.between[n][0]));
                assert(m.from(n)[0] == gap[0]);
            } else {
                assert(m.from(n)[0] == whole[0]);
            }
        }
    }
}

fn command_alias(whole: &str) -> (s: String)
    requires
        is_command(whole@),
    ensures
        s@ == command_text(whole@.skip(1)),
{
    let v: Vec<char> = chars_of(whole);
    let name: String = string_of(v.as_slice(), 1, v.len());
    assert(name@ =~= whole@.skip(1));
    if same_text(name.as_str(), "gt") {
        copy_of(">")
    } else if same_text(name.as_str(), "lt") {
        copy_of("<")
    } else {
        let s: String = copy_of(whole);
        assert(s@ =~= seq!['\\'] + name@);
        s
    }
}

/// Replaces `\gt` and `\lt` by the signs. Only whole commands are replaced.
pub fn alias_macros(tex: &str) -> (s: String)
    ensures
        s@ == aliased(tex@),
{
    let mut s: String = String::new();
    let spans: Spans = find_spans(COMMAND_PATTERN, tex);
    let ghost m = spans@;
    let mut n: usize = 0;
    assert(s@ + aliased_from(m, 0) =~= aliased_from(m, 0));
    while n < spans.found.len()
        invariant
            m == spans@,
            m.valid(),
            all_commands(m),
            n <= spans.found@.len(),
            s@ + aliased_from(m, n as int) == aliased_from(m, 0),
        decreases spans.found@.len() - n,
    {
        let ghost before = s@;
        assert(m.found[n as int] == spans.found@[n as int]@);
        assert(m.between[n as int] == spans.between@[n as int]@);
        s.append(spans.between[n].as_str());
        s.append(command_alias(spans.found[n].whole.as_str()).as_str());
        n += 1;
        assert(s@ + aliased_from(m, n as int) =~= before + aliased_from(m, n - 1));
    }
    assert(m.between[n as int] == spans.between@[n as int]@);
    s.append(spans.between[n].as_str());
    proof {
        lemma_aliased_from(m, 0);
    }
    s
}

// -------------------------------------------------------------------- keys

/// Size in points at which formulas are rendered: twice the size on the screen.
pub const RENDER_PT: u32 = 80;

/// What `BuildHasher::hash_one` of the default hasher gives.
pub uninterp spec fn hash_of(tex: Seq<char>, inline: bool, pt: u32) -> u64;

/// Calls `BuildHasher::hash_one` of `BuildHasherDefault<DefaultHasher>`, which
/// hashes a text, a flag and a number with the default hasher in its initial state.
/// The hasher is not seeded, so the result depends on the arguments alone, within
/// one version of the standard library and one byte order; which number it is is not
/// said.
#[verifier::external_body]
fn hash_one(tex: &str, inline: bool, pt: u32) -> (h: u64)
    ensures
        h == hash_of(tex@, inline, pt),
{
    std::hash::BuildHasherDefault::<std::collections::hash_map::DefaultHasher>::default().hash_one(
        (tex, inline, pt),
    )
}

/// The key of a formula. Formulas in the line and on their own differ, since they
/// are cropped differently.
pub open spec fn key_of(tex: Seq<char>, inline: bool) -> u64 {
    hash_of(tex, inline, RENDER_PT)
}

/// Gives the key of a formula.
pub fn tex_key(tex: &str, inline: bool) -> (key: u64)
    ensures
        key == key_of(tex@, inline),
{
    hash_one(tex, inline, RENDER_PT)
}

/// The source of the formula at a match.
pub open spec fn tex_of(f: FoundText) -> Seq<char> {
    match (f.first, f.second) {
        (Some(tex), _) => aliased(tex),
        (None, Some(tex)) => aliased(tex),
        (None, None) => aliased(""@),
    }
}

/// The formula at a match stands in the line.
pub open spec fn is_inline(f: FoundText) -> bool {
    f.first is Some
}

/// The key of the formula at a match.
pub open spec fn found_key(f: FoundText) -> u64 {
    key_of(tex_of(f), is_inline(f))
}

/// Gives the source of the formula at a match.
pub fn span_tex(f: &Found) -> (tex: String)
    ensures
        tex@ == tex_of(f@),
{
    match &f.first {
        Some(tex) => alias_macros(tex.as_str()),
        None => match &f.second {
            Some(tex) => alias_macros(tex.as_str()),
            None => alias_macros(""),
        },
    }
}

// ------------------------------------------------------------------- cache

/// A rendered formula: its image as a data URI, and the image's size.
pub struct Rendered {
    pub uri: String,
    pub w: u32,
    pub h: u32,
}

/// What a rendered formula holds.
#[verifier::ext_equal]
pub struct Formula {
    pub uri: Seq<char>,
    pub w: u32,
    pub h: u32,
}

impl View for Rendered {
    type V = Formula;

    open spec fn view(&self) -> Formula {
        Formula { uri: self.uri@, w: self.w, h: self.h }
    }
}

/// What an optional rendered formula holds.
pub open spec fn formula_of(r: Option<Rendered>) -> Option<Formula> {
    match r {
        Some(r) => Some(r@),
        None => None,
    }
}

/// The formula's image is a PNG image, given as a data URI.
pub open spec fn is_png(f: Formula) -> bool {
    exists|png: Seq<u8>| f.uri == #[trigger] png_uri(png)
}

/// Every formula that is kept has a PNG image as its data URI.
pub open spec fn holds_images(cache: Map<u64, Option<Formula>>) -> bool {
    forall|key: u64|
        cache.contains_key(key) && #[trigger] cache[key] is Some ==> is_png(cache[key]->0)
}

/// The formulas rendered so far by their keys. A formula that cannot be rendered is
/// kept too, as none.
pub struct MathCache {
    map: HashMap<u64, Option<Rendered>>,
}

impl View for MathCache {
    type V = Map<u64, Option<Formula>>;

    closed spec fn view(&self) -> Map<u64, Option<Formula>> {
        self.map@.map_values(|r: Option<Rendered>| formula_of(r))
    }
}

/// The first `n` formulas that are neither known nor listed already.
pub open spec fn wanted(
    found: Seq<FoundText>,
    known: Set<u64>,
    n: int,
) -> Seq<(Seq<char>, bool)>
    decreases n,
{
    if n <= 0 {
        Seq::empty()
    } else {
        let f = found[n - 1];
        if known.contains(found_key(f)) || exists|i: int|
            0 <= i < n - 1 && found_key(#[trigger] found[i]) == found_key(f) {
            wanted(found, known, n - 1)
        } else {
            wanted(found, known, n - 1).push((tex_of(f), is_inline(f)))
        }
    }
}

/// The texts of a list of formulas.
pub open spec fn sources(v: Seq<(String, bool)>) -> Seq<(Seq<char>, bool)> {
    v.map_values(|e: (String, bool)| (e.0@, e.1))
}

/// The cache with every formula of the list that it lacks put in as none.
pub open spec fn with_failed(
    cache: Map<u64, Option<Formula>>,
    list: Seq<(Seq<char>, bool)>,
    n: int,
) -> Map<u64, Option<Formula>>
    decreases n,
{
    if n <= 0 {
        cache
    } else {
        let before = with_failed(cache, list, n - 1);
        let key = key_of(list[n - 1].0, list[n - 1].1);
        if before.contains_key(key) {
            before
        } else {
            before.insert(key, None)
        }
    }
}

impl MathCache {
    /// An empty cache.
    pub fn new() -> (c: Self)
        ensures
            c@ == Map::<u64, Option<Formula>>::empty(),
            holds_images(c@),
    {
        broadcast use vstd::std_specs::hash::group_hash_axioms;

        let c: MathCache = MathCache { map: HashMap::new() };
        assert(c@ =~= Map::empty());
        c
    }

    /// Whether the key is known.
    pub fn knows(&self, key: u64) -> (b: bool)
        ensures
            b == self@.contains_key(key),
    {
        broadcast use vstd::std_specs::hash::group_hash_axioms;

        self.map.contains_key(&key)
    }

    /// Keeps what a formula was rendered to.
    fn record(&mut self, key: u64, r: Option<Rendered>)
        ensures
            final(self)@ == old(self)@.insert(key, formula_of(r)),
    {
        broadcast use vstd::std_specs::hash::group_hash_axioms;

        let ghost before = self@;
        self.map.insert(key, r);
        assert(self@ =~= before.insert(key, formula_of(r)));
    }

    /// Gives up the formulas of a list that have not been rendered.
    pub fn mark_failed(&mut self, list: &Vec<(String, bool)>)
        ensures
            final(self)@ == with_failed(old(self)@, sources(list@), list@.len() as int),
            holds_images(old(self)@) ==> holds_images(final(self)@),
    {
        let ghost before = self@;
        proof {
            if holds_images(before) {
                lemma_failed_images(before, sources(list@), list@.len() as int);
            }
        }
        let mut n: usize = 0;
        while n < list.len()
            invariant
                n <= list@.len(),
                self@ == with_failed(before, sources(list@), n as int),
            decreases list@.len() - n,
        {
            let key: u64 = tex_key(list[n].0.as_str(), list[n].1);
            assert(sources(list@)[n as int] == (list@[n as int].0@, list@[n as int].1));
            if !self.knows(key) {
                self.record(key, None);
            }
            n += 1;
        }
    }

    /// The formulas among the matches that have to be rendered, each once.
    pub fn todo(&self, found: &Vec<Found>) -> (list: Vec<(String, bool)>)
        ensures
            sources(list@) == wanted(
                found@.map_values(|f: Found| f@),
                self@.dom(),
                found@.len() as int,
            ),
    {
        broadcast use vstd::std_specs::hash::group_hash_axioms;

        let ghost fs = found@.map_values(|f: Found| f@);
        let mut list: Vec<(String, bool)> = Vec::new();
        let mut seen: HashSet<u64> = HashSet::new();
        let mut n: usize = 0;
        assert(sources(list@) =~= wanted(fs, self@.dom(), 0));
        while n < found.len()
            invariant
                n <= found@.len(),
                fs == found@.map_values(|f: Found| f@),
                sources(list@) == wanted(fs, self@.dom(), n as int),
                forall|i: int| #![trigger fs[i]]
                    0 <= i < n ==> self@.contains_key(found_key(fs[i])) || seen@.contains(
                        found_key(fs[i]),
                    ),
                forall|k: u64| #[trigger] seen@.contains(k) ==> exists|i: int|
                    0 <= i < n && found_key(#[trigger] fs[i]) == k,
            decreases found@.len() - n,
        {
            let f: &Found = &found[n];
            let inline: bool = f.first.is_some();
            let tex: String = span_tex(f);
            let key: u64 = tex_key(tex.as_str(), inline);
            let ghost done = sources(list@);
            assert(fs[n as int] == f@);
            if !self.knows(key) && !seen.contains(&key) {
                assert forall|i: int| 0 <= i < n implies found_key(#[trigger] fs[i]) != key by {}
                proof {
                    let e = (tex, inline);
                    assert(sources(list@.push(e)) =~= done.push((e.0@, e.1)));
                }
                seen.insert(key);
                list.push((tex, inline));
            } else {
                proof {
                    if seen@.contains(key) {
                        assert(exists|i: int| 0 <= i < n && found_key(#[trigger] fs[i]) == key);
                    }
                }
            }
            n += 1;
        }
        list
    }
}

// ------------------------------------------------------------------ images

pub const INLINE_IMG_1: &'static str = "<img class=\"am-math\" style=\"width:";

pub const INLINE_IMG_2: &'static str = "px;height:";

pub const INLINE_IMG_3: &'static str = "px;margin:0 0.12em;\" src=\"";

pub const BLOCK_IMG_1: &'static str =
    "<img class=\"am-math\" style=\"display:block;margin:26px auto;width:";

pub const BLOCK_IMG_2: &'static str = "px;max-width:100%;height:auto;\" src=\"";

pub const IMG_END: &'static str = "\">";

/// Half of `n` with one decimal.
pub open spec fn half(n: int) -> Seq<char> {
    dec(n / 2) + (if n % 2 == 0 {
        ".0"@
    } else {
        ".5"@
    })
}

/// The image of a formula, at half its size in pixels: in the line, or centred on
/// its own.
pub open spec fn image(r: Formula, inline: bool) -> Seq<char> {
    if inline {
        INLINE_IMG_1@ + half(r.w as int) + INLINE_IMG_2@ + half(r.h as int) + INLINE_IMG_3@ + r.uri
            + IMG_END@
    } else {
        BLOCK_IMG_1@ + half(r.w as int) + BLOCK_IMG_2@ + r.uri + IMG_END@
    }
}

fn half_text(n: u32) -> (s: String)
    ensures
        s@ == half(n as int),
{
    let mut s: String = String::new();
    push_dec(&mut s, (n / 2) as u64);
    assert(s@ =~= dec(n as int / 2));
    s.append(if n % 2 == 0 {
        ".0"
    } else {
        ".5"
    });
    s
}

/// Gives the image of a formula.
pub fn img_tag(r: &Rendered, inline: bool) -> (s: String)
    ensures
        s@ == image(r@, inline),
{
    let mut s: String = copy_of(if inline {
        INLINE_IMG_1
    } else {
        BLOCK_IMG_1
    });
    s.append(half_text(r.w).as_str());
    if inline {
        s.append(INLINE_IMG_2);
        s.append(half_text(r.h).as_str());
        s.append(INLINE_IMG_3);
    } else {
        s.append(BLOCK_IMG_2);
    }
    s.append(r.uri.as_str());
    s.append(IMG_END);
    s
}

/// What stands for a formula: its image, or the escaped source where there is none.
pub open spec fn formula_html(f: FoundText, cache: Map<u64, Option<Formula>>) -> Seq<char> {
    if cache.contains_key(found_key(f)) && cache[found_key(f)] is Some {
        image(cache[found_key(f)]->0, is_inline(f))
    } else {
        escaped(f.whole)
    }
}

/// The text from the `n`-th piece on, with every formula replaced.
pub open spec fn substituted(m: SpanTexts, cache: Map<u64, Option<Formula>>, n: int) -> Seq<char>
    decreases m.found.len() - n,
{
    if n >= m.found.len() {
        m.between[n]
    } else {
        m.between[n] + formula_html(m.found[n], cache) + substituted(m, cache, n + 1)
    }
}

impl MathCache {
    fn formula(&self, f: &Found) -> (s: String)
        ensures
            s@ == formula_html(f@, self@),
    {
        broadcast use vstd::std_specs::hash::group_hash_axioms;

        let inline: bool = f.first.is_some();
        let key: u64 = tex_key(span_tex(f).as_str(), inline);
        match self.map.get(&key) {
            Some(Some(r)) => img_tag(r, inline),
            _ => esc(f.whole.as_str()),
        }
    }

    /// Replaces the formulas at the matches by what the cache holds of them.
    pub fn substitute(&self, spans: &Spans) -> (s: String)
        requires
            spans@.valid(),
        ensures
            s@ == substituted(spans@, self@, 0),
    {
        let ghost (m, c) = (spans@, self@);
        let mut s: String = String::new();
        let mut n: usize = 0;
        assert(s@ + substituted(m, c, 0) =~= substituted(m, c, 0));
        while n < spans.found.len()
            invariant
                m == spans@,
                c == self@,
                m.valid(),
                n <= spans.found@.len(),
                s@ + substituted(m, c, n as int) == substituted(m, c, 0),
            decreases spans.found@.len() - n,
        {
            let ghost before = s@;
            assert(m.found[n as int] == spans.found@[n as int]@);
            assert(m.between[n as int] == spans.between@[n as int]@);
            s.append(spans.between[n].as_str());
            s.append(self.formula(&spans.found[n]).as_str());
            n += 1;
            assert(s@ + substituted(m, c, n as int) =~= before + substituted(m, c, n - 1));
        }
        assert(m.between[n as int] == spans.between@[n as int]@);
        s.append(spans.between[n].as_str());
        s
    }
}

// ------------------------------------------------------- requests and answers

/// A character that would break a request apart, or a blank for it.
pub open spec fn flat(c: char) -> char {
    if c == '\t' || c == '\n' || c == '\r' {
        ' '
    } else {
        c
    }
}

pub const TEXT_STYLE: &'static str = "\\textstyle";

pub const DISPLAY_STYLE: &'static str = "\\displaystyle";

/// The line that asks the helper for a formula: its key, the size, and the source in
/// one line, compact for a formula in the line.
pub open spec fn request(tex: Seq<char>, inline: bool) -> Seq<char> {
    hex(key_of(tex, inline) as int, 16) + "\t"@ + dec(RENDER_PT as int) + "\t"@ + (if inline {
        TEXT_STYLE@
    } else {
        DISPLAY_STYLE@
    }) + " "@ + tex.map_values(|c: char| flat(c)) + "\n"@
}

/// The lines that ask for the first `n` formulas.
pub open spec fn requests_for(list: Seq<(Seq<char>, bool)>, n: int) -> Seq<char>
    decreases n,
{
    if n <= 0 {
        Seq::empty()
    } else {
        requests_for(list, n - 1) + request(list[n - 1].0, list[n - 1].1)
    }
}

fn flattened(tex: &str) -> (s: String)
    ensures
        s@ == tex@.map_values(|c: char| flat(c)),
        forall|i: int|
            #![trigger s@[i]]
            0 <= i < tex@.len() ==> s@[i] == (if tex@[i] == '\t' || tex@[i] == '\n' || tex@[i]
                == '\r' {
                ' '
            } else {
                tex@[i]
            }),
{
    let v: Vec<char> = chars_of(tex);
    let ghost target = tex@.map_values(|c: char| flat(c));
    let mut s: String = String::new();
    let mut i: usize = 0;
    assert(s@ =~= target.take(0));
    while i < v.len()
        invariant
            i <= v@.len(),
            v@ == tex@,
            target == tex@.map_values(|c: char| flat(c)),
            s@ == target.take(i as int),
        decreases v@.len() - i,
    {
        let c: char = v[i];
        s.push(if c == '\t' || c == '\n' || c == '\r' {
            ' '
        } else {
            c
        });
        i += 1;
        assert(target.take(i as int) =~= target.take(i - 1).push(target[i - 1]));
    }
    assert(target.take(i as int) =~= target);
    s
}

/// Gives the lines that ask the helper for some formulas.
pub fn requests(list: &Vec<(String, bool)>) -> (s: String)
    ensures
        s@ == requests_for(sources(list@), list@.len() as int),
{
    let mut s: String = String::new();
    let mut n: usize = 0;
    assert(s@ =~= requests_for(sources(list@), 0));
    while n < list.len()
        invariant
            n <= list@.len(),
            s@ == requests_for(sources(list@), n as int),
        decreases list@.len() - n,
    {
        let tex: &str = list[n].0.as_str();
        let inline: bool = list[n].1;
        assert(sources(list@)[n as int] == (tex@, inline));
        let mut line: String = String::new();
        push_hex(&mut line, tex_key(tex, inline), 16);
        assert(line@ =~= hex(key_of(tex@, inline) as int, 16));
        line.append("\t");
        push_dec(&mut line, RENDER_PT as u64);
        line.append("\t");
        line.append(if inline {
            TEXT_STYLE
        } else {
            DISPLAY_STYLE
        });
        line.append(" ");
        line.append(flattened(tex).as_str());
        line.append("\n");
        s.append(line.as_str());
        n += 1;
    }
    s
}

/// The helper's answer for a formula: its key, the name of the image file, and the
/// baseline as the helper wrote it; no baseline where it could not be rendered.
pub struct Answer {
    pub key: u64,
    pub file: String,
    pub baseline: Option<String>,
}

/// What an answer holds.
#[verifier::ext_equal]
pub struct AnswerText {
    pub key: u64,
    pub file: Seq<char>,
    pub baseline: Option<Seq<char>>,
}

impl View for Answer {
    type V = AnswerText;

    open spec fn view(&self) -> AnswerText {
        AnswerText { key: self.key, file: self.file@, baseline: text_of(self.baseline) }
    }
}

pub const FAILED: &'static str = "ERR";

/// The answer in a line: the key in hexadecimal, a tab, and the baseline or the mark
/// of failure. Other lines say nothing.
pub open spec fn answer_in(line: Seq<char>) -> Option<AnswerText> {
    let f = fields(line, '\t');
    if f.len() < 2 {
        None
    } else {
        match bounded_numeral(f[0], 16, u64::MAX as int) {
            None => None,
            Some(key) => Some(
                AnswerText {
                    key: key as u64,
                    file: f[0] + ".png"@,
                    baseline: if f[1] == FAILED@ {
                        None
                    } else {
                        Some(f[1])
                    },
                },
            ),
        }
    }
}

/// The answers in the first `n` lines.
pub open spec fn answers_in(lines: Seq<Seq<char>>, n: int) -> Seq<AnswerText>
    decreases n,
{
    if n <= 0 {
        Seq::empty()
    } else {
        match answer_in(lines[n - 1]) {
            Some(a) => answers_in(lines, n - 1).push(a),
            None => answers_in(lines, n - 1),
        }
    }
}

fn read_answer(line: &str) -> (r: Option<Answer>)
    ensures
        match r {
            Some(a) => answer_in(line@) == Some(a@),
            None => answer_in(line@) is None,
        },
{
    let f: Vec<String> = split_fields(chars_of(line).as_slice(), '\t');
    let ghost fs = fields(line@, '\t');
    assert(texts(f@).len() == f@.len());
    if f.len() < 2 {
        return None;
    }
    assert(fs[0] == f@[0]@ && fs[1] == f@[1]@);
    match parse_numeral(chars_of(f[0].as_str()).as_slice(), 16, u64::MAX) {
        None => None,
        Some(key) => {
            let mut file: String = copy_of(f[0].as_str());
            file.append(".png");
            let baseline: Option<String> = if same_text(f[1].as_str(), FAILED) {
                None
            } else {
                Some(copy_of(f[1].as_str()))
            };
            Some(Answer { key, file, baseline })
        },
    }
}

/// Reads the answers from a text.
pub fn answers_from(text: &str) -> (r: Vec<Answer>)
    ensures
        r@.map_values(|a: Answer| a@) == answers_in(lines(text@), lines(text@).len() as int),
{
    let ls: Vec<String> = split_lines(text);
    let ghost all = lines(text@);
    let mut r: Vec<Answer> = Vec::new();
    let mut n: usize = 0;
    assert(texts(ls@).len() == ls@.len());
    assert(r@.map_values(|a: Answer| a@) =~= answers_in(all, 0));
    while n < ls.len()
        invariant
            n <= ls@.len(),
            all == texts(ls@),
            r@.map_values(|a: Answer| a@) == answers_in(all, n as int),
        decreases ls@.len() - n,
    {
        assert(all[n as int] == ls@[n as int]@);
        match read_answer(ls[n].as_str()) {
            Some(a) => {
                let ghost before = r@;
                r.push(a);
                assert(r@.map_values(|a: Answer| a@) =~= before.map_values(|a: Answer| a@).push(
                    a@,
                ));
            },
            None => {},
        }
        n += 1;
    }
    r
}

/// Reads the answers from what the helper wrote.
pub fn answers(output: &[u8]) -> (r: Vec<Answer>)
    ensures
        r@.map_values(|a: Answer| a@) == answers_in(
            lines(lossy(output@)),
            lines(lossy(output@)).len() as int,
        ),
{
    answers_from(lossy_text(output).as_str())
}

// ----------------------------------------------------------------- results

/// The formula with this key stands in the line, as far as the list tells; a key
/// that is not listed counts as one in the line.
pub open spec fn listed_inline(list: Seq<(Seq<char>, bool)>, key: u64, n: int) -> bool
    decreases n,
{
    if n <= 0 {
        true
    } else if key_of(list[n - 1].0, list[n - 1].1) == key {
        list[n - 1].1
    } else {
        listed_inline(list, key, n - 1)
    }
}

fn is_listed_inline(list: &Vec<(String, bool)>, key: u64) -> (b: bool)
    ensures
        b == listed_inline(sources(list@), key, list@.len() as int),
{
    let mut n: usize = list.len();
    while n > 0
        invariant
            n <= list@.len(),
            listed_inline(sources(list@), key, list@.len() as int) == listed_inline(
                sources(list@),
                key,
                n as int,
            ),
        decreases n,
    {
        assert(sources(list@)[n - 1] == (list@[n - 1].0@, list@[n - 1].1));
        if tex_key(list[n - 1].0.as_str(), list[n - 1].1) == key {
            return list[n - 1].1;
        }
        n -= 1;
    }
    true
}

/// The formula that an image file of the helper makes.
pub open spec fn rendered(png: Seq<u8>, inline: bool, baseline: int) -> Option<Formula> {
    match finalized(png, inline, baseline) {
        Some((out, w, h)) => Some(Formula { uri: png_uri(out), w, h }),
        None => None,
    }
}

/// Makes a formula of an image file of the helper. `baseline` is the row of its
/// baseline.
pub fn render(png: &[u8], inline: bool, baseline: usize) -> (r: Option<Rendered>)
    ensures
        formula_of(r) == rendered(png@, inline, baseline as int),
        r matches Some(f) ==> is_png(f@),
{
    match finalize_math_png(png, inline, baseline) {
        Some((out, w, h)) => Some(Rendered { uri: png_data_uri(out.as_slice()), w, h }),
        None => None,
    }
}

/// The image file of an answer and the row of its baseline, where the file could be
/// read.
pub open spec fn file_of(f: Option<(Vec<u8>, usize)>) -> Option<(Seq<u8>, usize)> {
    match f {
        Some((png, baseline)) => Some((png@, baseline)),
        None => None,
    }
}

/// What an answer comes to: a formula where the helper rendered one and its file
/// holds one.
pub open spec fn outcome(
    list: Seq<(Seq<char>, bool)>,
    a: AnswerText,
    file: Option<(Seq<u8>, usize)>,
) -> Option<Formula> {
    match (a.baseline, file) {
        (Some(_), Some((png, baseline))) => rendered(
            png,
            listed_inline(list, a.key, list.len() as int),
            baseline as int,
        ),
        _ => None,
    }
}

/// The cache with the first `n` answers taken in.
pub open spec fn with_answers(
    cache: Map<u64, Option<Formula>>,
    list: Seq<(Seq<char>, bool)>,
    answers: Seq<AnswerText>,
    files: Seq<Option<(Seq<u8>, usize)>>,
    n: int,
) -> Map<u64, Option<Formula>>
    decreases n,
{
    if n <= 0 {
        cache
    } else {
        with_answers(cache, list, answers, files, n - 1).insert(
            answers[n - 1].key,
            outcome(list, answers[n - 1], files[n - 1]),
        )
    }
}

/// The cache after a run of the helper: the answers, and none for every formula that
/// was asked for and not answered.
pub open spec fn after_batch(
    cache: Map<u64, Option<Formula>>,
    list: Seq<(Seq<char>, bool)>,
    answers: Seq<AnswerText>,
    files: Seq<Option<(Seq<u8>, usize)>>,
) -> Map<u64, Option<Formula>> {
    with_failed(
        with_answers(cache, list, answers, files, answers.len() as int),
        list,
        list.len() as int,
    )
}

impl MathCache {
    /// Takes in a run of the helper that was asked for the formulas of `list`:
    /// its answers, and for each answer the image file and the row of the baseline.
    pub fn render_batch(
        &mut self,
        list: &Vec<(String, bool)>,
        answers: &Vec<Answer>,
        files: &Vec<Option<(Vec<u8>, usize)>>,
    )
        requires
            files@.len() == answers@.len(),
        ensures
            final(self)@ == after_batch(
                old(self)@,
                sources(list@),
                answers@.map_values(|a: Answer| a@),
                files@.map_values(|f: Option<(Vec<u8>, usize)>| file_of(f)),
            ),
            holds_images(old(self)@) ==> holds_images(final(self)@),
    {
        let ghost before = self@;
        let ghost l = sources(list@);
        let ghost a = answers@.map_values(|a: Answer| a@);
        let ghost f = files@.map_values(|f: Option<(Vec<u8>, usize)>| file_of(f));
        let mut n: usize = 0;
        while n < answers.len()
            invariant
                n <= answers@.len() == files@.len(),
                l == sources(list@),
                a == answers@.map_values(|a: Answer| a@),
                f == files@.map_values(|f: Option<(Vec<u8>, usize)>| file_of(f)),
                self@ == with_answers(before, l, a, f, n as int),
            decreases answers@.len() - n,
        {
            let answer: &Answer = &answers[n];
            assert(a[n as int] == answer@);
            assert(f[n as int] == file_of(files@[n as int]));
            let r: Option<Rendered> = match (&answer.baseline, &files[n]) {
                (Some(_), Some((png, baseline))) => render(
                    png.as_slice(),
                    is_listed_inline(list, answer.key),
                    *baseline,
                ),
                _ => None,
            };
            self.record(answer.key, r);
            n += 1;
        }
        proof {
            if holds_images(before) {
                lemma_answers_images(before, l, a, f, n as int);
            }
        }
        self.mark_failed(list);
    }
}

// ---------------------------------------------------------------- renderer

/// The formulas of a card's HTML.
pub open spec fn formulas_in(html: Seq<char>) -> SpanTexts {
    formulas_from(html, 0)
}

/// The helper's fonts that come with the program.
pub const OWN_RESOURCES: &'static str = "/home/root/.ankimarkable/microtex-res";

/// The helper's fonts of another program, for want of our own.
pub const OTHER_RESOURCES: &'static str = "/home/root/xovi/exthome/textBoxes/microtex-res";

/// Where the helper finds its fonts: where the setting says, else in our own folder
/// if it is there.
pub fn resource_dir(setting: Option<&str>, own_there: bool) -> (dir: String)
    ensures
        dir@ == (match setting {
            Some(s) => s@,
            None => if own_there {
                OWN_RESOURCES@
            } else {
                OTHER_RESOURCES@
            },
        }),
{
    env_or(
        setting,
        if own_there {
            OWN_RESOURCES
        } else {
            OTHER_RESOURCES
        },
    )
}

/// Replaces formulas by images, where the helper is there to render them.
pub struct MathRenderer {
    pub enabled: bool,
    pub cache: MathCache,
}

impl MathRenderer {
    /// A renderer that has rendered nothing yet.
    pub fn new(enabled: bool) -> (m: Self)
        ensures
            m.enabled == enabled,
            m.cache@ == Map::<u64, Option<Formula>>::empty(),
            holds_images(m.cache@),
    {
        MathRenderer { enabled, cache: MathCache::new() }
    }

    /// The formulas of some HTML that the helper has to render first.
    pub fn todo(&self, html: &str) -> (list: Vec<(String, bool)>)
        ensures
            sources(list@) == (if self.enabled {
                wanted(
                    formulas_in(html@).found,
                    self.cache@.dom(),
                    formulas_in(html@).found.len() as int,
                )
            } else {
                Seq::empty()
            }),
    {
        if self.enabled {
            return self.cache.todo(&find_spans(MATH_PATTERN, html).found);
        }
        let list: Vec<(String, bool)> = Vec::new();
        assert(sources(list@) =~= Seq::empty());
        list
    }

    /// Replaces the formulas of some HTML: by their images, or by their escaped
    /// sources where they could not be rendered. Without the helper the HTML stays as
    /// it is.
    pub fn preprocess(&self, html: &str) -> (r: String)
        ensures
            r@ == (if self.enabled {
                substituted(formulas_in(html@), self.cache@, 0)
            } else {
                html@
            }),
    {
        if !self.enabled {
            return copy_of(html);
        }
        self.cache.substitute(&find_spans(MATH_PATTERN, html))
    }
}

// --------------------------------------------------------------- SVG files

/// The source attribute that names `url`.
pub open spec fn source_attribute(url: Seq<char>) -> Seq<char> {
    "src=\""@ + url + "\""@
}

fn source(url: &str) -> (s: String)
    ensures
        s@ == source_attribute(url@),
        s@.len() > 0,
{
    proof {
        reveal_strlit("src=\"");
    }
    let mut s: String = copy_of("src=\"");
    s.append(url);
    s.append("\"");
    s
}

/// Has every image of the HTML that names the file `name` show `uri` instead.
pub fn embed_svg(html: &str, name: &str, uri: &str) -> (r: String)
    ensures
        r@ == replaced(html@, source_attribute(name@), source_attribute(uri@)),
{
    replace_text(html, source(name).as_str(), source(uri).as_str())
}

/// The data URIs of SVG files by name. A file that could not be read or drawn is
/// kept too, as none.
pub struct SvgCache {
    names: Vec<String>,
    uris: Vec<Option<String>>,
}

impl View for SvgCache {
    type V = Map<Seq<char>, Option<Seq<char>>>;

    closed spec fn view(&self) -> Map<Seq<char>, Option<Seq<char>>> {
        Map::new(
            |name: Seq<char>| texts(self.names@).contains(name),
            |name: Seq<char>| text_of(self.uris@[texts(self.names@).index_of(name)]),
        )
    }
}

impl SvgCache {
    /// Each name has one entry.
    pub closed spec fn valid(self) -> bool {
        &&& self.names@.len() == self.uris@.len()
        &&& texts(self.names@).no_duplicates()
    }

    /// An empty cache.
    pub fn new() -> (c: Self)
        ensures
            c.valid(),
            c@ == Map::<Seq<char>, Option<Seq<char>>>::empty(),
    {
        let c: SvgCache = SvgCache { names: Vec::new(), uris: Vec::new() };
        assert(c@ =~= Map::empty());
        c
    }

    fn find(&self, name: &str) -> (i: usize)
        requires
            self.valid(),
        ensures
            i <= self.names@.len(),
            i < self.names@.len() ==> self.names@[i as int]@ == name@ && texts(
                self.names@,
            ).index_of(name@) == i,
            (i < self.names@.len()) == self@.contains_key(name@),
    {
        let ghost all = texts(self.names@);
        let mut i: usize = 0;
        while i < self.names.len()
            invariant
                self.valid(),
                all == texts(self.names@),
                i <= self.names@.len(),
                forall|k: int| 0 <= k < i ==> #[trigger] all[k] != name@,
            decreases self.names@.len() - i,
        {
            assert(all[i as int] == self.names@[i as int]@);
            if same_text(self.names[i].as_str(), name) {
                assert(all.contains(name@));
                assert(all.index_of(name@) == i) by {
                    let k = all.index_of(name@);
                    assert(all[k] == name@);
                }
                return i;
            }
            i += 1;
        }
        assert(!all.contains(name@));
        i
    }

    /// What is kept of a file, if anything.
    pub fn get(&self, name: &str) -> (r: Option<Option<String>>)
        requires
            self.valid(),
        ensures
            match r {
                Some(uri) => self@.contains_key(name@) && text_of(uri) == self@[name@],
                None => !self@.contains_key(name@),
            },
    {
        let i: usize = self.find(name);
        if i < self.names.len() {
            match &self.uris[i] {
                Some(uri) => Some(Some(copy_of(uri.as_str()))),
                None => Some(None),
            }
        } else {
            None
        }
    }

    /// Keeps what a file came to.
    pub fn put(&mut self, name: &str, uri: Option<String>)
        requires
            old(self).valid(),
        ensures
            final(self).valid(),
            final(self)@ == old(self)@.insert(name@, text_of(uri)),
    {
        let ghost before = *self;
        let ghost was = texts(self.names@);
        let i: usize = self.find(name);
        if i < self.names.len() {
            self.uris.set(i, uri);
            proof {
                assert forall|n: Seq<char>| #[trigger] self@.contains_key(n) implies self@[n]
                    == before@.insert(name@, text_of(uri))[n] by {
                    let k = was.index_of(n);
                    assert(was[k] == n);
                    if n != name@ {
                        assert(k != i);
                    }
                }
                assert(self@.dom() =~= before@.insert(name@, text_of(uri)).dom());
                assert(self@ =~= before@.insert(name@, text_of(uri)));
            }
        } else {
            let copy: String = copy_of(name);
            self.names.push(copy);
            self.uris.push(uri);
            proof {
                let now = texts(self.names@);
                assert(now =~= was.push(name@));
                assert(!was.contains(name@));
                assert forall|a: int, b: int| 0 <= a < now.len() && 0 <= b < now.len() && a
                    != b implies now[a] != now[b] by {
                    if a == was.len() {
                        assert(was.contains(was[b]));
                    } else if b == was.len() {
                        assert(was.contains(was[a]));
                    }
                }
                assert forall|n: Seq<char>| now.contains(n) == (was.contains(n) || n == name@) by {
                    if was.contains(n) {
                        let k = choose|k: int| 0 <= k < was.len() && was[k] == n;
                        assert(now[k] == n);
                    }
                    if n == name@ {
                        assert(now[was.len() as int] == n);
                    }
                    if now.contains(n) && n != name@ {
                        let k = choose|k: int| 0 <= k < now.len() && now[k] == n;
                        assert(was[k] == n);
                    }
                }
                assert forall|n: Seq<char>| #[trigger] self@.contains_key(n) implies self@[n]
                    == before@.insert(name@, text_of(uri))[n] by {
                    let k = now.index_of(n);
                    assert(now.contains(n));
                    assert(now[k] == n);
                    if n != name@ {
                        let j = was.index_of(n);
                        assert(was.contains(n));
                        assert(was[j] == n && now[j] == n);
                        assert(j == k);
                    } else {
                        assert(now[was.len() as int] == n);
                        assert(k == was.len());
                    }
                }
                assert(self@.dom() =~= before@.insert(name@, text_of(uri)).dom());
                assert(self@ =~= before@.insert(name@, text_of(uri)));
            }
        }
    }
}

// -------------------------------------------------------------------- laws

proof fn lemma_failed_known(
    cache: Map<u64, Option<Formula>>,
    list: Seq<(Seq<char>, bool)>,
    n: int,
    key: u64,
)
    requires
        0 <= n <= list.len(),
    ensures
        with_failed(cache, list, n).contains_key(key) == (cache.contains_key(key) || exists|i: int|
            0 <= i < n && key_of((#[trigger] list[i]).0, list[i].1) == key),
    decreases n,
{
    if n > 0 {
        lemma_failed_known(cache, list, n - 1, key);
        if key_of(list[n - 1].0, list[n - 1].1) == key {
            assert(exists|i: int| 0 <= i < n && key_of((#[trigger] list[i]).0, list[i].1) == key);
        }
    }
}

proof fn lemma_wanted_covers(found: Seq<FoundText>, known: Set<u64>, n: int, i: int)
    requires
        0 <= i < n <= found.len(),
    ensures
        known.contains(found_key(found[i])) || exists|k: int|
            0 <= k < wanted(found, known, n).len() && key_of(
                (#[trigger] wanted(found, known, n)[k]).0,
                wanted(found, known, n)[k].1,
            ) == found_key(found[i]),
    decreases n, i,
{
    let w = wanted(found, known, n);
    let before = wanted(found, known, n - 1);
    if !known.contains(found_key(found[i])) {
        if i < n - 1 {
            lemma_wanted_covers(found, known, n - 1, i);
            let k = choose|k: int|
                0 <= k < before.len() && key_of((#[trigger] before[k]).0, before[k].1)
                    == found_key(found[i]);
            assert(w[k] == before[k]);
        } else if exists|j: int|
            0 <= j < n - 1 && found_key(#[trigger] found[j]) == found_key(found[n - 1]) {
            let j = choose|j: int|
                0 <= j < n - 1 && found_key(#[trigger] found[j]) == found_key(found[n - 1]);
            lemma_wanted_covers(found, known, n - 1, j);
            let k = choose|k: int|
                0 <= k < before.len() && key_of((#[trigger] before[k]).0, before[k].1)
                    == found_key(found[j]);
            assert(w[k] == before[k]);
        } else {
            assert(w[w.len() - 1] == (tex_of(found[i]), is_inline(found[i])));
        }
    }
}

proof fn lemma_failed_images(
    cache: Map<u64, Option<Formula>>,
    list: Seq<(Seq<char>, bool)>,
    n: int,
)
    requires
        holds_images(cache),
    ensures
        holds_images(with_failed(cache, list, n)),
    decreases n,
{
    if n > 0 {
        lemma_failed_images(cache, list, n - 1);
    }
}

proof fn lemma_answers_images(
    cache: Map<u64, Option<Formula>>,
    list: Seq<(Seq<char>, bool)>,
    answers: Seq<AnswerText>,
    files: Seq<Option<(Seq<u8>, usize)>>,
    n: int,
)
    requires
        holds_images(cache),
    ensures
        holds_images(with_answers(cache, list, answers, files, n)),
    decreases n,
{
    if n > 0 {
        lemma_answers_images(cache, list, answers, files, n - 1);
        let before = with_answers(cache, list, answers, files, n - 1);
        let after = with_answers(cache, list, answers, files, n);
        let new = outcome(list, answers[n - 1], files[n - 1]);
        assert(new matches Some(f) ==> is_png(f));
        assert forall|key: u64| after.contains_key(key) && #[trigger] after[key] is Some implies
            is_png(after[key]->0) by {
            if key != answers[n - 1].key {
                assert(after[key] == before[key]);
            }
        }
    }
}

/// A run of the helper, whatever came of it, leaves a cache whose formulas all have
/// PNG images.
pub proof fn law_batch_holds_images(
    cache: Map<u64, Option<Formula>>,
    list: Seq<(Seq<char>, bool)>,
    answers: Seq<AnswerText>,
    files: Seq<Option<(Seq<u8>, usize)>>,
)
    requires
        holds_images(cache),
    ensures
        holds_images(after_batch(cache, list, answers, files)),
{
    lemma_answers_images(cache, list, answers, files, answers.len() as int);
    lemma_failed_images(
        with_answers(cache, list, answers, files, answers.len() as int),
        list,
        list.len() as int,
    );
}

/// What stands for a formula is one image with a PNG data URI as its source, where
/// the formula was rendered, and else its own text with the markup escaped.
pub proof fn law_formulas_become_images(f: FoundText, cache: Map<u64, Option<Formula>>)
    requires
        holds_images(cache),
    ensures
        cache.contains_key(found_key(f)) && cache[found_key(f)] is Some ==> exists|
            png: Seq<u8>,
            w: u32,
            h: u32,
        |
            formula_html(f, cache) == #[trigger] image(
                Formula { uri: png_uri(png), w, h },
                is_inline(f),
            ),
        cache.contains_key(found_key(f)) && cache[found_key(f)] is Some ==> formula_html(f, cache)
            == image(cache[found_key(f)]->0, f.first is Some),
        !(cache.contains_key(found_key(f)) && cache[found_key(f)] is Some) ==> formula_html(
            f,
            cache,
        ) == escaped(f.whole),
{
    if cache.contains_key(found_key(f)) && cache[found_key(f)] is Some {
        let r = cache[found_key(f)]->0;
        let png = choose|png: Seq<u8>| r.uri == #[trigger] png_uri(png);
        assert(r == Formula { uri: png_uri(png), w: r.w, h: r.h });
        assert(formula_html(f, cache) == image(
            Formula { uri: png_uri(png), w: r.w, h: r.h },
            is_inline(f),
        ));
    }
}

/// Pieces of text with others put between them, from the `n`-th on.
pub open spec fn woven(around: Seq<Seq<char>>, inner: Seq<Seq<char>>, n: int) -> Seq<char>
    decreases inner.len() - n,
{
    if n >= inner.len() {
        around[n]
    } else {
        around[n] + inner[n] + woven(around, inner, n + 1)
    }
}

/// Replacing formulas touches nothing else: the HTML is the text around its formulas
/// with the formulas between, and the result is the same text around, in the same
/// order, with what stands for each formula between.
pub proof fn law_text_around_formulas_stays(html: Seq<char>, cache: Map<u64, Option<Formula>>)
    ensures
        ({
            let m = formulas_in(html);
            &&& m.valid()
            &&& html == woven(m.between, m.found.map_values(|f: FoundText| f.whole), 0)
            &&& substituted(m, cache, 0) == woven(
                m.between,
                m.found.map_values(|f: FoundText| formula_html(f, cache)),
                0,
            )
        }),
{
    let m = formulas_in(html);
    law_formulas_join_up(html, 0);
    assert(html.skip(0) =~= html);
    lemma_woven(m, cache, 0);
}

proof fn lemma_woven(m: SpanTexts, cache: Map<u64, Option<Formula>>, n: int)
    requires
        0 <= n <= m.found.len(),
    ensures
        m.from(n) == woven(m.between, m.found.map_values(|f: FoundText| f.whole), n),
        substituted(m, cache, n) == woven(
            m.between,
            m.found.map_values(|f: FoundText| formula_html(f, cache)),
            n,
        ),
    decreases m.found.len() - n,
{
    if n < m.found.len() {
        lemma_woven(m, cache, n + 1);
    }
}

/// Formulas and the text around them make up the whole text.
pub proof fn law_formulas_join_up(s: Seq<char>, i: int)
    requires
        0 <= i <= s.len(),
    ensures
        formulas_from(s, i).valid(),
        formulas_from(s, i).from(0) == s.skip(i),
    decreases s.len() - i,
{
    let m = formulas_from(s, i);
    let k = next_formula(s, i);
    lemma_next_formula(s, i);
    if k < s.len() {
        let end = formula_end(s, k)->0;
        let rest = formulas_from(s, end + 2);
        law_formulas_join_up(s, end + 2);
        assert(m.found.skip(1) =~= rest.found);
        assert(m.between.skip(1) =~= rest.between);
        lemma_from_shift(m, rest, 0);
        assert(m.between[0] == s.subrange(i, k));
        assert(m.found[0].whole == s.subrange(k, end + 2));
        assert(m.from(0) == m.between[0] + m.found[0].whole + m.from(1));
        assert(m.from(0) =~= s.skip(i));
    }
}

proof fn lemma_from_shift(m: SpanTexts, rest: SpanTexts, n: int)
    requires
        0 <= n,
        m.found.len() == rest.found.len() + 1,
        m.between.len() == rest.between.len() + 1,
        rest.valid(),
        n <= rest.found.len(),
        m.found.skip(1) == rest.found,
        m.between.skip(1) == rest.between,
    ensures
        m.from(n + 1) == rest.from(n),
    decreases rest.found.len() - n,
{
    assert(m.between[n + 1] == m.between.skip(1)[n]);
    if n < rest.found.len() {
        assert(m.found[n + 1] == m.found.skip(1)[n]);
        lemma_from_shift(m, rest, n + 1);
    }
}

/// HTML in which no formula opens stays as it is.
pub proof fn law_plain_html_stays(html: Seq<char>, cache: Map<u64, Option<Formula>>)
    requires
        forall|i: int|
            0 <= i < html.len() - 1 && #[trigger] html[i] == '\\' ==> html[i + 1] != '(' && html[i
                + 1] != '[',
    ensures
        formulas_in(html).found.len() == 0,
        substituted(formulas_in(html), cache, 0) == html,
{
    lemma_next_formula(html, 0);
    let k = next_formula(html, 0);
    if k < html.len() {
        assert(html[k] == '\\');
    }
    assert(html.skip(0) =~= html);
}

/// Every formula that is found holds its source between its delimiters.
pub proof fn law_formulas_are_delimited(s: Seq<char>, i: int, n: int)
    requires
        0 <= i <= s.len(),
        0 <= n < formulas_from(s, i).found.len(),
    ensures
        ({
            let f = formulas_from(s, i).found[n];
            match (f.first, f.second) {
                (Some(tex), None) => tex.len() > 0 && f.whole == seq!['\\', '('] + tex + seq![
                    '\\',
                    ')',
                ],
                (None, Some(tex)) => tex.len() > 0 && f.whole == seq!['\\', '['] + tex + seq![
                    '\\',
                    ']',
                ],
                _ => false,
            }
        }),
    decreases s.len() - i,
{
    let k = next_formula(s, i);
    lemma_next_formula(s, i);
    let end = formula_end(s, k)->0;
    lemma_closing(s, k + 3, closer(s[k + 1]));
    if n > 0 {
        law_formulas_are_delimited(s, end + 2, n - 1);
        assert(formulas_from(s, i).found[n] == formulas_from(s, end + 2).found[n - 1]);
    } else {
        let f = formula_at(s, k, end);
        let tex = s.subrange(k + 2, end);
        assert(f.whole =~= seq!['\\', s[k + 1]] + tex + seq!['\\', closer(s[k + 1])]);
    }
}

/// The helper is asked for a formula once: after the formulas of a card have been
/// asked for, whatever came of it, none of them is wanted again. Asking for nothing
/// leaves the cache as it is, so the same card gives the same result again.
pub proof fn law_asked_once(
    cache: Map<u64, Option<Formula>>,
    found: Seq<FoundText>,
    answers: Seq<AnswerText>,
    files: Seq<Option<(Seq<u8>, usize)>>,
)
    ensures
        ({
            let list = wanted(found, cache.dom(), found.len() as int);
            let after = after_batch(cache, list, answers, files);
            &&& wanted(found, after.dom(), found.len() as int) == Seq::<
                (Seq<char>, bool),
            >::empty()
            &&& after_batch(after, Seq::empty(), Seq::empty(), Seq::empty()) == after
        }),
{
    let list = wanted(found, cache.dom(), found.len() as int);
    let mid = with_answers(cache, list, answers, files, answers.len() as int);
    let after = after_batch(cache, list, answers, files);
    assert forall|i: int| 0 <= i < found.len() implies after.dom().contains(
        found_key(#[trigger] found[i]),
    ) by {
        lemma_wanted_covers(found, cache.dom(), found.len() as int, i);
        lemma_failed_known(mid, list, list.len() as int, found_key(found[i]));
        if cache.contains_key(found_key(found[i])) {
            lemma_answers_keep(cache, list, answers, files, answers.len() as int, found_key(
                found[i],
            ));
        }
    }
    lemma_nothing_wanted(found, after.dom(), found.len() as int);
}

proof fn lemma_answers_keep(
    cache: Map<u64, Option<Formula>>,
    list: Seq<(Seq<char>, bool)>,
    answers: Seq<AnswerText>,
    files: Seq<Option<(Seq<u8>, usize)>>,
    n: int,
    key: u64,
)
    requires
        cache.contains_key(key),
    ensures
        with_answers(cache, list, answers, files, n).contains_key(key),
    decreases n,
{
    if n > 0 {
        lemma_answers_keep(cache, list, answers, files, n - 1, key);
    }
}

proof fn lemma_nothing_wanted(found: Seq<FoundText>, known: Set<u64>, n: int)
    requires
        0 <= n <= found.len(),
        forall|i: int| 0 <= i < found.len() ==> known.contains(found_key(#[trigger] found[i])),
    ensures
        wanted(found, known, n) == Seq::<(Seq<char>, bool)>::empty(),
    decreases n,
{
    if n > 0 {
        lemma_nothing_wanted(found, known, n - 1);
        assert(known.contains(found_key(found[n - 1])));
    }
}

/// A request is one line, whatever the source holds.
pub proof fn law_request_is_one_line(tex: Seq<char>, inline: bool, i: int)
    requires
        0 <= i < request(tex, inline).len() - 1,
    ensures
        request(tex, inline)[i] != '\n',
{
    reveal_strlit("\t");
    reveal_strlit(" ");
    reveal_strlit("\n");
    reveal_strlit("\\textstyle");
    reveal_strlit("\\displaystyle");
    lemma_hex_plain(key_of(tex, inline) as int, 16);
    lemma_dec_plain(RENDER_PT as int);
}

proof fn lemma_hex_plain(n: int, k: nat)
    requires
        0 <= n,
    ensures
        forall|i: int| 0 <= i < hex(n, k).len() ==> #[trigger] hex(n, k)[i] != '\n',
    decreases k,
{
    if k > 0 {
        let front = hex(n / 16, (k - 1) as nat);
        lemma_hex_plain(n / 16, (k - 1) as nat);
        assert forall|i: int| 0 <= i < hex(n, k).len() implies #[trigger] hex(n, k)[i] != '\n' by {
            if i < front.len() {
                assert(hex(n, k)[i] == front[i]);
            }
        }
    }
}

proof fn lemma_dec_plain(n: int)
    requires
        0 <= n,
    ensures
        forall|i: int| 0 <= i < dec(n).len() ==> #[trigger] dec(n)[i] != '\n',
    decreases n,
{
    if n >= 10 {
        let front = dec(n / 10);
        lemma_dec_plain(n / 10);
        assert forall|i: int| 0 <= i < dec(n).len() implies #[trigger] dec(n)[i] != '\n' by {
            if i < front.len() {
                assert(dec(n)[i] == front[i]);
            }
        }
    }
}

/// A command other than `\gt` and `\lt` stays, also one that begins like them.
pub proof fn law_other_commands_stay(s: Seq<char>)
    requires
        is_command(s),
        s.skip(1) != "gt"@,
        s.skip(1) != "lt"@,
    ensures
        aliased(s) == s,
{
    lemma_aliased_command(s, Seq::empty());
    assert(s + Seq::<char>::empty() =~= s);
    assert(aliased(Seq::empty()) =~= Seq::empty());
    assert(seq!['\\'] + s.skip(1) + Seq::<char>::empty() =~= s);
}

/// A request carries the source of its formula: the line ends with it, character by
/// character, with a blank in the place of each tab, line feed and carriage return and
/// every other character as it is. Before it stand the key in sixteen hexadecimal
/// digits, the size, and the style of a formula in the line or on its own.
pub proof fn law_request_carries_the_source(tex: Seq<char>, inline: bool)
    ensures
        ({
            let r = request(tex, inline);
            let head = hex(hash_of(tex, inline, 80) as int, 16) + "\t80\t"@ + (if inline {
                "\\textstyle "@
            } else {
                "\\displaystyle "@
            });
            let source = r.subrange(head.len() as int, (head.len() + tex.len()) as int);
            &&& r == head + source + "\n"@
            &&& forall|i: int|
                0 <= i < tex.len() && tex[i] != '\t' && tex[i] != '\n' && tex[i] != '\r'
                    ==> #[trigger] source[i] == tex[i]
            &&& forall|i: int|
                0 <= i < tex.len() && (tex[i] == '\t' || tex[i] == '\n' || tex[i] == '\r')
                    ==> #[trigger] source[i] == ' '
        }),
{
    reveal_strlit("\t");
    reveal_strlit(" ");
    reveal_strlit("\n");
    reveal_strlit("\t80\t");
    reveal_strlit("\\textstyle");
    reveal_strlit("\\displaystyle");
    reveal_strlit("\\textstyle ");
    reveal_strlit("\\displaystyle ");
    let key = hex(hash_of(tex, inline, 80) as int, 16);
    let style = if inline {
        "\\textstyle "@
    } else {
        "\\displaystyle "@
    };
    let head = key + "\t80\t"@ + style;
    let flattened = tex.map_values(|c: char| flat(c));
    assert(dec(80) =~= seq!['8', '0']) by {
        reveal_with_fuel(dec, 2);
    }
    assert("\t"@ + dec(80) + "\t"@ =~= "\t80\t"@);
    assert(style =~= (if inline {
        TEXT_STYLE@
    } else {
        DISPLAY_STYLE@
    }) + " "@);
    let r = request(tex, inline);
    assert(r =~= head + flattened + "\n"@);
    assert(r.subrange(head.len() as int, (head.len() + tex.len()) as int) =~= flattened);
}

/// Every formula is asked for by a line of its own, in order.
pub proof fn law_one_request_for_each_formula(list: Seq<(Seq<char>, bool)>, n: int, i: int)
    requires
        0 <= i < n <= list.len(),
    ensures
        lines(requests_for(list, n)).len() == n,
        lines(requests_for(list, n))[i] + "\n"@ == request(list[i].0, list[i].1),
{
    lemma_request_lines(list, n);
}

proof fn lemma_request_lines(list: Seq<(Seq<char>, bool)>, n: int)
    requires
        0 <= n <= list.len(),
    ensures
        requests_for(list, n).len() == 0 || requests_for(list, n).last() == '\n',
        lines(requests_for(list, n)).len() == n,
        forall|i: int|
            0 <= i < n ==> #[trigger] lines(requests_for(list, n))[i] + "\n"@ == request(
                list[i].0,
                list[i].1,
            ),
    decreases n,
{
    reveal_strlit("\n");
    if n > 0 {
        lemma_request_lines(list, n - 1);
        let before = requests_for(list, n - 1);
        let (tex, inline) = list[n - 1];
        let r = request(tex, inline);
        lemma_request_shape(tex, inline);
        crate::text::lemma_lines_add(before, r);
        let a = r.drop_last();
        assert forall|i: int| 0 <= i < a.len() implies #[trigger] a[i] != '\n' by {
            law_request_is_one_line(tex, inline, i);
        }
        crate::text::law_lines_split_at_line_feeds(a, Seq::empty());
        assert(a + seq!['\n'] + Seq::<char>::empty() =~= r);
        assert(lines(r) =~= seq![a]);
        assert(lines(requests_for(list, n)) == lines(before) + seq![a]);
        assert(a + "\n"@ =~= r);
        assert forall|i: int| 0 <= i < n implies #[trigger] lines(requests_for(list, n))[i] + "\n"@
            == request(list[i].0, list[i].1) by {
            if i < n - 1 {
                assert(lines(requests_for(list, n))[i] == lines(before)[i]);
            }
        }
    } else {
        assert(lines(Seq::<char>::empty()) =~= Seq::empty());
    }
}

proof fn lemma_request_shape(tex: Seq<char>, inline: bool)
    ensures
        request(tex, inline).len() >= 2,
        request(tex, inline).last() == '\n',
        request(tex, inline)[request(tex, inline).len() - 2] != '\r',
{
    reveal_strlit("\n");
    reveal_strlit(" ");
    let r = request(tex, inline);
    let flattened = tex.map_values(|c: char| flat(c));
    assert(flattened.len() == tex.len());
    if tex.len() > 0 {
        assert(r[r.len() - 2] == flattened[tex.len() - 1]);
    } else {
        assert(r[r.len() - 2] == ' ');
    }
}

/// The helper's answer to a request is understood: a line with the key that was sent, a
/// tab and the baseline, whatever follows behind another tab, is the answer for that
/// key, with the image in the file of that name; `ERR` in the place of the baseline says
/// that there is none.
pub proof fn law_answers_are_understood(key: u64, baseline: Seq<char>, rest: Seq<char>)
    requires
        forall|i: int| 0 <= i < baseline.len() ==> #[trigger] baseline[i] != '\t',
    ensures
        ({
            let name = hex(key as int, 16);
            let a = AnswerText {
                key,
                file: name + ".png"@,
                baseline: if baseline == "ERR"@ {
                    None
                } else {
                    Some(baseline)
                },
            };
            &&& answer_in(name + "\t"@ + baseline) == Some(a)
            &&& answer_in(name + "\t"@ + baseline + "\t"@ + rest) == Some(a)
            &&& answer_in(name) is None
        }),
{
    reveal_strlit("\t");
    let name = hex(key as int, 16);
    crate::text::law_hexadecimal_reads_back(key);
    crate::text::law_fields_split_at_separators(name, '\t', baseline);
    crate::text::law_fields_split_at_separators(baseline, '\t', rest);
    crate::text::law_fields_split_at_separators(
        name,
        '\t',
        baseline + seq!['\t'] + rest,
    );
    assert(name + seq!['\t'] + baseline =~= name + "\t"@ + baseline);
    assert(name + seq!['\t'] + (baseline + seq!['\t'] + rest) =~= name + "\t"@ + baseline
        + "\t"@ + rest);
    let one = fields(name + "\t"@ + baseline, '\t');
    let two = fields(name + "\t"@ + baseline + "\t"@ + rest, '\t');
    assert(one =~= seq![name, baseline]);
    assert(two[0] == name && two[1] == baseline && two.len() >= 2);
    assert(one[0] == name && one[1] == baseline);
}

/// The lines of an output are read one by one, in order; those that say nothing are
/// passed over.
pub proof fn law_answers_are_read_in_order(lines: Seq<Seq<char>>, n: int)
    requires
        0 <= n < lines.len(),
    ensures
        answers_in(lines, 0).len() == 0,
        answer_in(lines[n]) is None ==> answers_in(lines, n + 1) == answers_in(lines, n),
        answer_in(lines[n]) matches Some(a) ==> answers_in(lines, n + 1) == answers_in(
            lines,
            n,
        ).push(a),
{
}

/// The source of a formula is what stands between its delimiters, with the two signs
/// written out; a formula in `\(` and `\)` stands in the line. The key is the hash of
/// the source, where it stands, and the size.
pub proof fn law_source_stands_between_delimiters(s: Seq<char>, i: int, n: int)
    requires
        0 <= i <= s.len(),
        0 <= n < formulas_from(s, i).found.len(),
    ensures
        ({
            let f = formulas_from(s, i).found[n];
            let inner = f.whole.subrange(2, f.whole.len() - 2);
            &&& f.whole.len() > 4
            &&& f.whole[0] == '\\' && (f.whole[1] == '(' || f.whole[1] == '[')
            &&& tex_of(f) == aliased(inner)
            &&& is_inline(f) == (f.whole[1] == '(')
            &&& found_key(f) == hash_of(aliased(inner), f.whole[1] == '(', 80)
        }),
{
    law_formulas_are_delimited(s, i, n);
    let f = formulas_from(s, i).found[n];
    let inner = f.whole.subrange(2, f.whole.len() - 2);
    match (f.first, f.second) {
        (Some(tex), _) => {
            assert(inner =~= tex);
        },
        (None, Some(tex)) => {
            assert(inner =~= tex);
        },
        (None, None) => {},
    }
}

/// Text without commands stays as it is, up to a command; `\gt` and `\lt` become the
/// signs, and the text behind goes on.
pub proof fn law_signs_are_written_out(a: Seq<char>, rest: Seq<char>)
    requires
        forall|i: int| 0 <= i < a.len() ==> #[trigger] a[i] != '\\',
        rest.len() == 0 || !('a' <= rest[0] <= 'z' || 'A' <= rest[0] <= 'Z'),
    ensures
        aliased(a + rest) == a + aliased(rest),
        aliased(seq!['\\', 'g', 't'] + rest) == seq!['>'] + aliased(rest),
        aliased(seq!['\\', 'l', 't'] + rest) == seq!['<'] + aliased(rest),
    decreases a.len(),
{
    if a.len() > 0 {
        law_signs_are_written_out(a.skip(1), rest);
        let s = a + rest;
        assert(s.skip(1) =~= a.skip(1) + rest);
        assert(s[0] == a[0]);
        assert(seq![a[0]] + (a.skip(1) + aliased(rest)) =~= a + aliased(rest));
    } else {
        assert(a + rest =~= rest);
        assert(a + aliased(rest) =~= aliased(rest));
    }
    reveal_strlit("gt");
    reveal_strlit("lt");
    reveal_strlit(">");
    reveal_strlit("<");
    let gt = seq!['\\', 'g', 't'];
    let lt = seq!['\\', 'l', 't'];
    lemma_aliased_command(gt, rest);
    lemma_aliased_command(lt, rest);
    assert(gt.skip(1) =~= "gt"@);
    assert(lt.skip(1) =~= "lt"@);
    assert(">"@ =~= seq!['>']);
    assert("<"@ =~= seq!['<']);
}

/// The helper is asked for just what is needed: each formula on the list stands in the
/// card and is not known yet, no two have the same key, and every formula of the card is
/// known or on the list.
pub proof fn law_just_the_unknown_are_wanted(
    found: Seq<FoundText>,
    known: Set<u64>,
    n: int,
    i: int,
    k: int,
)
    requires
        0 <= i < n <= found.len(),
        0 <= k < wanted(found, known, n).len(),
    ensures
        ({
            let w = wanted(found, known, n);
            &&& !known.contains(key_of(w[k].0, w[k].1))
            &&& exists|j: int|
                0 <= j < n && w[k] == (tex_of(#[trigger] found[j]), found[j].first is Some)
            &&& known.contains(found_key(found[i])) || exists|m: int|
                0 <= m < w.len() && key_of((#[trigger] w[m]).0, w[m].1) == found_key(found[i])
            &&& forall|m: int|
                0 <= m < w.len() && m != k ==> key_of((#[trigger] w[m]).0, w[m].1) != key_of(
                    w[k].0,
                    w[k].1,
                )
        }),
{
    lemma_wanted_covers(found, known, n, i);
    lemma_wanted_distinct(found, known, n);
}

proof fn lemma_wanted_distinct(found: Seq<FoundText>, known: Set<u64>, n: int)
    requires
        0 <= n <= found.len(),
    ensures
        forall|k: int|
            #![trigger wanted(found, known, n)[k]]
            0 <= k < wanted(found, known, n).len() ==> {
                let w = wanted(found, known, n)[k];
                &&& !known.contains(key_of(w.0, w.1))
                &&& exists|j: int|
                    0 <= j < n && w == (tex_of(#[trigger] found[j]), found[j].first is Some)
            },
        forall|m: int, k: int|
            #![trigger wanted(found, known, n)[m], wanted(found, known, n)[k]]
            0 <= m < wanted(found, known, n).len() && 0 <= k < wanted(found, known, n).len() && m
                != k ==> key_of(wanted(found, known, n)[m].0, wanted(found, known, n)[m].1)
                != key_of(wanted(found, known, n)[k].0, wanted(found, known, n)[k].1),
    decreases n,
{
    if n > 0 {
        lemma_wanted_distinct(found, known, n - 1);
        let before = wanted(found, known, n - 1);
        let w = wanted(found, known, n);
        let f = found[n - 1];
        assert forall|k: int|
            #![trigger w[k]]
            0 <= k < w.len() implies !known.contains(key_of(w[k].0, w[k].1)) && exists|j: int|
            0 <= j < n && w[k] == (tex_of(#[trigger] found[j]), found[j].first is Some) by {
            if k < before.len() {
                assert(w[k] == before[k]);
                let j = choose|j: int|
                    0 <= j < n - 1 && before[k] == (
                        tex_of(#[trigger] found[j]),
                        found[j].first is Some,
                    );
                assert(w[k] == (tex_of(found[j]), found[j].first is Some));
            } else {
                assert(w[k] == (tex_of(f), f.first is Some));
            }
        }
        assert forall|m: int, k: int|
            #![trigger w[m], w[k]]
            0 <= m < w.len() && 0 <= k < w.len() && m != k implies key_of(w[m].0, w[m].1) != key_of(
            w[k].0,
            w[k].1,
        ) by {
            let (a, b) = if m < k {
                (m, k)
            } else {
                (k, m)
            };
            assert(w[a] == before[a]);
            if b < before.len() {
                assert(w[b] == before[b]);
            } else {
                let j = choose|j: int|
                    0 <= j < n - 1 && before[a] == (
                        tex_of(#[trigger] found[j]),
                        found[j].first is Some,
                    );
                assert(found_key(found[j]) == key_of(w[a].0, w[a].1));
                assert(found_key(f) == key_of(w[b].0, w[b].1));
            }
        }
    }
}

/// A run of the helper fills the cache with what it answered: the last answer for a key
/// is the one that is kept, a formula that it was asked for and did not answer is kept
/// as none, and every other entry stays.
pub proof fn law_batch_keeps_the_answers(
    cache: Map<u64, Option<Formula>>,
    list: Seq<(Seq<char>, bool)>,
    answers: Seq<AnswerText>,
    files: Seq<Option<(Seq<u8>, usize)>>,
    key: u64,
)
    ensures
        ({
            let after = after_batch(cache, list, answers, files);
            &&& forall|i: int|
                #![trigger answers[i]]
                0 <= i < answers.len() && answers[i].key == key && (forall|j: int|
                    i < j < answers.len() ==> (#[trigger] answers[j]).key != key)
                    ==> after.contains_key(key) && after[key] == outcome(
                    list,
                    answers[i],
                    files[i],
                )
            &&& (forall|i: int| 0 <= i < answers.len() ==> (#[trigger] answers[i]).key != key) ==> {
                &&& cache.contains_key(key) ==> after.contains_key(key) && after[key] == cache[key]
                &&& !cache.contains_key(key) ==> after.contains_key(key) == (exists|i: int|
                    0 <= i < list.len() && key_of((#[trigger] list[i]).0, list[i].1) == key)
                &&& !cache.contains_key(key) && after.contains_key(key) ==> after[key] is None
            }
        }),
{
    let n = answers.len() as int;
    let mid = with_answers(cache, list, answers, files, n);
    lemma_failed_known(mid, list, list.len() as int, key);
    lemma_failed_values(mid, list, list.len() as int, key);
    assert forall|i: int|
        #![trigger answers[i]]
        0 <= i < n && answers[i].key == key && (forall|j: int|
            i < j < n ==> (#[trigger] answers[j]).key != key) implies mid.contains_key(key)
        && mid[key] == outcome(list, answers[i], files[i]) by {
        lemma_last_answer(cache, list, answers, files, n, i, key);
    }
    if forall|i: int| 0 <= i < n ==> (#[trigger] answers[i]).key != key {
        lemma_no_answer(cache, list, answers, files, n, key);
    }
}

proof fn lemma_failed_values(
    cache: Map<u64, Option<Formula>>,
    list: Seq<(Seq<char>, bool)>,
    n: int,
    key: u64,
)
    ensures
        cache.contains_key(key) ==> with_failed(cache, list, n).contains_key(key) && with_failed(
            cache,
            list,
            n,
        )[key] == cache[key],
        !cache.contains_key(key) && with_failed(cache, list, n).contains_key(key) ==> with_failed(
            cache,
            list,
            n,
        )[key] is None,
    decreases n,
{
    if n > 0 {
        lemma_failed_values(cache, list, n - 1, key);
    }
}

proof fn lemma_last_answer(
    cache: Map<u64, Option<Formula>>,
    list: Seq<(Seq<char>, bool)>,
    answers: Seq<AnswerText>,
    files: Seq<Option<(Seq<u8>, usize)>>,
    n: int,
    i: int,
    key: u64,
)
    requires
        0 <= i < n <= answers.len(),
        answers[i].key == key,
        forall|j: int| i < j < n ==> (#[trigger] answers[j]).key != key,
    ensures
        with_answers(cache, list, answers, files, n).contains_key(key),
        with_answers(cache, list, answers, files, n)[key] == outcome(list, answers[i], files[i]),
    decreases n,
{
    if i < n - 1 {
        lemma_last_answer(cache, list, answers, files, n - 1, i, key);
        assert(answers[n - 1].key != key);
    }
}

proof fn lemma_no_answer(
    cache: Map<u64, Option<Formula>>,
    list: Seq<(Seq<char>, bool)>,
    answers: Seq<AnswerText>,
    files: Seq<Option<(Seq<u8>, usize)>>,
    n: int,
    key: u64,
)
    requires
        0 <= n <= answers.len(),
        forall|i: int| 0 <= i < n ==> (#[trigger] answers[i]).key != key,
    ensures
        ({
            let after = with_answers(cache, list, answers, files, n);
            after.contains_key(key) == cache.contains_key(key) && (cache.contains_key(key)
                ==> after[key] == cache[key])
        }),
    decreases n,
{
    if n > 0 {
        lemma_no_answer(cache, list, answers, files, n - 1, key);
        assert(answers[n - 1].key != key);
    }
}

/// What an answer comes to: the image in the file, finished for where the formula that
/// was asked for stands, with the baseline that was told; none where the helper failed
/// or the file is missing.
pub proof fn law_answer_comes_to_its_image(
    list: Seq<(Seq<char>, bool)>,
    i: int,
    a: AnswerText,
    png: Seq<u8>,
    baseline: usize,
)
    requires
        0 <= i < list.len(),
        a.key == key_of(list[i].0, list[i].1),
        forall|j: int|
            0 <= j < list.len() && j != i ==> key_of((#[trigger] list[j]).0, list[j].1) != a.key,
    ensures
        a.baseline is Some ==> outcome(list, a, Some((png, baseline))) == (match finalized(
            png,
            list[i].1,
            baseline as int,
        ) {
            Some((out, w, h)) => Some(Formula { uri: png_uri(out), w, h }),
            None => None,
        }),
        a.baseline is None ==> outcome(list, a, Some((png, baseline))) is None,
        outcome(list, a, None) is None,
{
    lemma_listed(list, i, a.key, list.len() as int);
}

proof fn lemma_listed(list: Seq<(Seq<char>, bool)>, i: int, key: u64, n: int)
    requires
        0 <= i < n <= list.len(),
        key == key_of(list[i].0, list[i].1),
        forall|j: int|
            0 <= j < list.len() && j != i ==> key_of((#[trigger] list[j]).0, list[j].1) != key,
    ensures
        listed_inline(list, key, n) == list[i].1,
    decreases n,
{
    if i < n - 1 {
        assert(key_of(list[n - 1].0, list[n - 1].1) != key);
        lemma_listed(list, i, key, n - 1);
    }
}

/// A formula is shown at half the size of its image: in the line with its width and
/// height, on its own as a centred block with its width, and its image as the source.
pub proof fn law_images_are_shown_at_half_size(uri: Seq<char>, w: u32, h: u32)
    ensures
        image(Formula { uri, w, h }, true)
            == "<img class=\"am-math\" style=\"width:"@ + half(w as int) + "px;height:"@ + half(
            h as int,
        ) + "px;margin:0 0.12em;\" src=\""@ + uri + "\">"@,
        image(Formula { uri, w, h }, false)
            == "<img class=\"am-math\" style=\"display:block;margin:26px auto;width:"@ + half(
            w as int,
        ) + "px;max-width:100%;height:auto;\" src=\""@ + uri + "\">"@,
        w % 2 == 0 ==> half(w as int) == dec(w as int / 2) + ".0"@,
        w % 2 == 1 ==> half(w as int) == dec(w as int / 2) + ".5"@,
{
}

/// An image of the card that names a file is the attribute that the file's URI takes the
/// place of.
pub proof fn law_source_attribute_names_the_file(url: Seq<char>)
    ensures
        source_attribute(url) == "src=\""@ + url + "\""@,
{
}

} // verus!
