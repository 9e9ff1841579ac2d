//! Text as sequences of characters: its bytes, trimming, splitting, lines and words.
use vstd::prelude::*;
use vstd::utf8::{
    decode_utf8, encode_scalar, encode_utf8, encode_utf8_decode_utf8, encode_utf8_valid_utf8,
    valid_utf8,
};

verus! {

/// `String::push`, as its documentation has it: the character goes to the end of the text.
pub assume_specification[ String::push ](s: &mut String, ch: char)
    ensures
        final(s)@ == old(s)@.push(ch),
;

/// What `String::from_utf8_lossy` makes of bytes that are not UTF-8.
pub uninterp spec fn repaired_utf8(bytes: Seq<u8>) -> Seq<char>;

/// The text that a run of bytes stands for: its UTF-8 reading where it has one, and otherwise the
/// reading in which each malformed run is replaced by U+FFFD.
pub open spec fn lossy_text(bytes: Seq<u8>) -> Seq<char> {
    if valid_utf8(bytes) {
        decode_utf8(bytes)
    } else {
        repaired_utf8(bytes)
    }
}

/// `String::from_utf8_lossy`: well-formed UTF-8 is decoded as it stands; otherwise the result is a
/// function of the bytes alone and holds the replacement character U+FFFD. Which runs of bytes
/// each replacement character stands for is left unsaid.
#[verifier::external_body]
pub(crate) fn from_utf8_lossy(bytes: &[u8]) -> (text: String)
    ensures
        valid_utf8(bytes@) ==> text@ == decode_utf8(bytes@),
        !valid_utf8(bytes@) ==> text@ == repaired_utf8(bytes@),
        !valid_utf8(bytes@) ==> text@.contains('\u{FFFD}'),
{
    String::from_utf8_lossy(bytes).to_string()
}

// ---------------------------------------------------------------------------------------------
// Characters in and out of strings.
// ---------------------------------------------------------------------------------------------

/// The characters of `text`, in order.
pub fn chars_of(text: &str) -> (chars: Vec<char>)
    ensures
        chars@ == text@,
{
    let mut chars: Vec<char> = Vec::new();
    for c in it: text.chars()
        invariant
            chars@ == it.seq().take(it.index() as int),
            it.seq() == text@,
    {
        chars.push(c);
        assert(it.seq().take(it.index() + 1) == it.seq().take(it.index() as int).push(c));
    }
    assert(text@.take(text@.len() as int) == text@);
    chars
}

/// The text made of `chars`.
pub fn text_of(chars: &[char]) -> (text: String)
    ensures
        text@ == chars@,
{
    let mut text = String::new();
    for i in 0..chars.len()
        invariant
            text@ == chars@.take(i as int),
    {
        text.push(chars[i]);
        assert(chars@.take(i + 1) == chars@.take(i as int).push(chars@[i as int]));
    }
    assert(chars@.take(chars@.len() as int) == chars@);
    text
}

/// The items of `items` from `from` up to, not including, `to`.
pub fn copy_range<T: Copy>(items: &[T], from: usize, to: usize) -> (part: Vec<T>)
    requires
        from <= to <= items@.len(),
    ensures
        part@ == items@.subrange(from as int, to as int),
{
    let mut part: Vec<T> = Vec::new();
    let mut i: usize = from;
    while i < to
        invariant
            from <= i <= to <= items@.len(),
            part@ == items@.subrange(from as int, i as int),
        decreases to - i,
    {
        part.push(items[i]);
        assert(items@.subrange(from as int, i + 1) == items@.subrange(from as int, i as int).push(
            items@[i as int],
        ));
        i += 1;
    }
    part
}

/// Whether two texts hold the same characters.
pub fn same_text(a: &str, b: &str) -> (same: bool)
    ensures
        same == (a@ == b@),
{
    let left = chars_of(a);
    let right = chars_of(b);
    if left.len() != right.len() {
        return false;
    }
    for i in 0..left.len()
        invariant
            left@ == a@,
            right@ == b@,
            left@.len() == right@.len(),
            left@.take(i as int) == right@.take(i as int),
    {
        if left[i] != right[i] {
            assert(a@[i as int] != b@[i as int]);
            return false;
        }
        assert(left@.take(i + 1) == left@.take(i as int).push(left@[i as int]));
        assert(right@.take(i + 1) == right@.take(i as int).push(right@[i as int]));
    }
    assert(left@.take(left@.len() as int) == left@);
    assert(right@.take(right@.len() as int) == right@);
    true
}

// ---------------------------------------------------------------------------------------------
// The bytes of a text.
// ---------------------------------------------------------------------------------------------

/// The encoding of a text behind another is the one's encoding behind the other's.
pub proof fn lemma_encode_both(a: Seq<char>, b: Seq<char>)
    ensures
        encode_utf8(a + b) == encode_utf8(a) + encode_utf8(b),
    decreases a.len(),
{
    if a.len() == 0 {
        assert(a + b == b);
        assert(encode_utf8(a) + encode_utf8(b) == encode_utf8(b));
    } else {
        lemma_encode_both(a.drop_first(), b);
        assert((a + b).drop_first() == a.drop_first() + b);
        assert(encode_scalar(a[0] as u32) + (encode_utf8(a.drop_first()) + encode_utf8(b)) == (
        encode_scalar(a[0] as u32) + encode_utf8(a.drop_first())) + encode_utf8(b));
    }
}

proof fn lemma_encode_char(c: char, ascii: char)
    requires
        ascii <= '\u{7f}',
        c != ascii,
    ensures
        encode_scalar(c as u32).len() > 0,
        !encode_scalar(c as u32).contains(ascii as u8),
{
    let v = c as u32;
    assert(v <= 0x7f ==> (v & 0x7F) as u8 as u32 == v) by (bit_vector);
    assert((0xC0u8 | (((v >> 6) & 0x1F) as u8)) >= 0x80u8) by (bit_vector);
    assert((0xE0u8 | (((v >> 12) & 0x0F) as u8)) >= 0x80u8) by (bit_vector);
    assert((0xF0u8 | (((v >> 18) & 0x7) as u8)) >= 0x80u8) by (bit_vector);
    assert((0x80u8 | ((v & 0x3F) as u8)) >= 0x80u8) by (bit_vector);
    assert((0x80u8 | (((v >> 6) & 0x3F) as u8)) >= 0x80u8) by (bit_vector);
    assert((0x80u8 | (((v >> 12) & 0x3F) as u8)) >= 0x80u8) by (bit_vector);
}

/// A text that does not hold an ASCII character does not hold it in its bytes either; and a text
/// that is not empty has bytes.
pub proof fn lemma_encode_without(s: Seq<char>, ascii: char)
    requires
        ascii <= '\u{7f}',
        !s.contains(ascii),
    ensures
        s.len() > 0 ==> encode_utf8(s).len() > 0,
        !encode_utf8(s).contains(ascii as u8),
    decreases s.len(),
{
    if s.len() > 0 {
        assert(s[0] != ascii);
        lemma_encode_char(s[0], ascii);
        let rest = s.drop_first();
        assert forall|i: int| 0 <= i < rest.len() implies rest[i] != ascii by {
            assert(rest[i] == s[i + 1]);
        }
        lemma_encode_without(rest, ascii);
        let first = encode_scalar(s[0] as u32);
        let more = encode_utf8(rest);
        assert forall|i: int| 0 <= i < encode_utf8(s).len() implies encode_utf8(s)[i]
            != ascii as u8 by {
            if i < first.len() {
                assert(first.contains(first[i]));
            } else {
                assert(more.contains(more[i - first.len()]));
            }
        }
    }
}

// ---------------------------------------------------------------------------------------------
// Trimming.
// ---------------------------------------------------------------------------------------------

/// Whether `c` has the Unicode property `White_Space`.
pub open spec fn is_white_space(c: char) -> bool {
    ||| '\u{9}' <= c <= '\u{D}'
    ||| c == ' '
    ||| c == '\u{85}'
    ||| c == '\u{A0}'
    ||| c == '\u{1680}'
    ||| '\u{2000}' <= c <= '\u{200A}'
    ||| c == '\u{2028}'
    ||| c == '\u{2029}'
    ||| c == '\u{202F}'
    ||| c == '\u{205F}'
    ||| c == '\u{3000}'
}

/// Whether `c` is white space.
pub fn white_space(c: char) -> (yes: bool)
    ensures
        yes == is_white_space(c),
{
    ('\u{9}' <= c && c <= '\u{D}') || c == ' ' || c == '\u{85}' || c == '\u{A0}' || c == '\u{1680}'
        || ('\u{2000}' <= c && c <= '\u{200A}') || c == '\u{2028}' || c == '\u{2029}' || c
        == '\u{202F}' || c == '\u{205F}' || c == '\u{3000}'
}

/// The characters that a trim takes off both ends of a text.
#[derive(Clone, Copy)]
pub enum TrimSet {
    /// Every white space character.
    WhiteSpace,
    /// The space and the full stop.
    SpaceAndDot,
}

impl TrimSet {
    /// Whether the set holds `c`.
    pub open spec fn holds(self, c: char) -> bool {
        match self {
            TrimSet::WhiteSpace => is_white_space(c),
            TrimSet::SpaceAndDot => c == ' ' || c == '.',
        }
    }

    /// Whether the set holds `c`.
    pub fn contains(self, c: char) -> (yes: bool)
        ensures
            yes == self.holds(c),
    {
        match self {
            TrimSet::WhiteSpace => white_space(c),
            TrimSet::SpaceAndDot => c == ' ' || c == '.',
        }
    }
}

/// `s` without the characters of `set` that it begins with.
pub open spec fn trimmed_start(set: TrimSet, s: Seq<char>) -> Seq<char>
    decreases s.len(),
{
    if s.len() > 0 && set.holds(s[0]) {
        trimmed_start(set, s.skip(1))
    } else {
        s
    }
}

/// `s` without the characters of `set` that it ends with.
pub open spec fn trimmed_end(set: TrimSet, s: Seq<char>) -> Seq<char>
    decreases s.len(),
{
    if s.len() > 0 && set.holds(s.last()) {
        trimmed_end(set, s.drop_last())
    } else {
        s
    }
}

/// `s` without the characters of `set` at its two ends.
pub open spec fn trimmed(set: TrimSet, s: Seq<char>) -> Seq<char> {
    trimmed_end(set, trimmed_start(set, s))
}

/// `s` without the white space at its two ends.
pub open spec fn trimmed_text(s: Seq<char>) -> Seq<char> {
    trimmed(TrimSet::WhiteSpace, s)
}

/// Whether neither end of `s` is a character of `set`.
pub open spec fn is_trimmed(set: TrimSet, s: Seq<char>) -> bool {
    s.len() > 0 ==> !set.holds(s[0]) && !set.holds(s.last())
}

proof fn lemma_trimmed_start(set: TrimSet, s: Seq<char>)
    ensures
        exists|k: int| 0 <= k <= s.len() && trimmed_start(set, s) == s.skip(k),
        trimmed_start(set, s).len() > 0 ==> !set.holds(trimmed_start(set, s)[0]),
    decreases s.len(),
{
    if s.len() > 0 && set.holds(s[0]) {
        lemma_trimmed_start(set, s.skip(1));
        let k = choose|k: int|
            0 <= k <= s.skip(1).len() && trimmed_start(set, s.skip(1)) == s.skip(1).skip(k);
        assert(s.skip(1).skip(k) == s.skip(k + 1));
    } else {
        assert(s == s.skip(0));
    }
}

proof fn lemma_trimmed_end(set: TrimSet, s: Seq<char>)
    ensures
        exists|k: int| 0 <= k <= s.len() && trimmed_end(set, s) == s.take(k),
        trimmed_end(set, s).len() > 0 ==> !set.holds(trimmed_end(set, s).last()),
    decreases s.len(),
{
    if s.len() > 0 && set.holds(s.last()) {
        lemma_trimmed_end(set, s.drop_last());
        let k = choose|k: int|
            0 <= k <= s.drop_last().len() && trimmed_end(set, s.drop_last())
                == s.drop_last().take(k);
        assert(s.drop_last().take(k) == s.take(k));
    } else {
        assert(s == s.take(s.len() as int));
    }
}

/// Trimming leaves a run of the text's own characters, neither end of which is in the set.
pub proof fn lemma_trimmed(set: TrimSet, s: Seq<char>)
    ensures
        is_trimmed(set, trimmed(set, s)),
        exists|a: int, b: int| 0 <= a <= b <= s.len() && trimmed(set, s) == s.subrange(a, b),
{
    let start = trimmed_start(set, s);
    lemma_trimmed_start(set, s);
    lemma_trimmed_end(set, start);
    let a = choose|k: int| 0 <= k <= s.len() && start == s.skip(k);
    let b = choose|k: int| 0 <= k <= start.len() && trimmed_end(set, start) == start.take(k);
    assert(start.take(b) == s.subrange(a, a + b));
    if b > 0 {
        assert(start.take(b)[0] == start[0]);
    }
}

/// Trimming a trimmed text changes nothing.
pub proof fn lemma_trim_idempotent(set: TrimSet, s: Seq<char>)
    requires
        is_trimmed(set, s),
    ensures
        trimmed(set, s) == s,
{
}

/// `chars` without the characters of `set` at its two ends.
pub fn trim_chars(set: TrimSet, chars: &[char]) -> (part: Vec<char>)
    ensures
        part@ == trimmed(set, chars@),
{
    let mut from: usize = 0;
    assert(chars@.skip(0) == chars@);
    while from < chars.len() && set.contains(chars[from])
        invariant
            from <= chars@.len(),
            trimmed_start(set, chars@.skip(from as int)) == trimmed_start(set, chars@),
        decreases chars@.len() - from,
    {
        assert(chars@.skip(from as int).skip(1) == chars@.skip(from + 1));
        from += 1;
    }
    assert(trimmed_start(set, chars@) == chars@.skip(from as int));
    let ghost start = chars@.skip(from as int);
    let mut to: usize = chars.len();
    assert(chars@.subrange(from as int, to as int) == start);
    while from < to && set.contains(chars[to - 1])
        invariant
            from <= to <= chars@.len(),
            trimmed_end(set, chars@.subrange(from as int, to as int)) == trimmed_end(set, start),
        decreases to - from,
    {
        assert(chars@.subrange(from as int, to as int).drop_last() == chars@.subrange(
            from as int,
            to - 1,
        ));
        to -= 1;
    }
    copy_range(chars, from, to)
}

/// `text` without the white space at its two ends.
pub fn trim(text: &str) -> (part: String)
    ensures
        part@ == trimmed_text(text@),
{
    let chars = chars_of(text);
    let part = trim_chars(TrimSet::WhiteSpace, chars.as_slice());
    text_of(part.as_slice())
}

// ---------------------------------------------------------------------------------------------
// Splitting.
// ---------------------------------------------------------------------------------------------

/// Where `c` first stands in `s`; the length of `s` where it does not.
pub open spec fn first_index(s: Seq<char>, c: char) -> int
    decreases s.len(),
{
    if s.len() == 0 || s[0] == c {
        0
    } else {
        1 + first_index(s.skip(1), c)
    }
}

/// `first_index` is the least position that holds the character.
pub proof fn lemma_first_index(s: Seq<char>, c: char)
    ensures
        0 <= first_index(s, c) <= s.len(),
        forall|i: int| 0 <= i < first_index(s, c) ==> s[i] != c,
        first_index(s, c) < s.len() ==> s[first_index(s, c)] == c,
        first_index(s, c) < s.len() <==> s.contains(c),
    decreases s.len(),
{
    if s.len() > 0 && s[0] != c {
        let rest = s.skip(1);
        lemma_first_index(rest, c);
        assert forall|i: int| 0 <= i < first_index(s, c) implies s[i] != c by {
            if i > 0 {
                assert(rest[i - 1] == s[i]);
            }
        }
        if s.contains(c) {
            let j = choose|j: int| 0 <= j < s.len() && s[j] == c;
            assert(rest[j - 1] == c);
        }
    }
}

/// A position that holds the character, with none before it that does, is its first index.
pub proof fn lemma_first_index_is(s: Seq<char>, c: char, k: int)
    requires
        0 <= k <= s.len(),
        forall|i: int| 0 <= i < k ==> s[i] != c,
        k < s.len() ==> s[k] == c,
    ensures
        first_index(s, c) == k,
{
    lemma_first_index(s, c);
}

/// The position at or after `from` that first holds `c`; the length where there is none.
pub fn index_from(chars: &[char], from: usize, c: char) -> (at: usize)
    requires
        from <= chars@.len(),
    ensures
        from <= at <= chars@.len(),
        at == from + first_index(chars@.skip(from as int), c),
{
    let mut at: usize = from;
    while at < chars.len() && chars[at] != c
        invariant
            from <= at <= chars@.len(),
            forall|i: int| from <= i < at ==> chars@[i] != c,
        decreases chars@.len() - at,
    {
        at += 1;
    }
    proof {
        lemma_first_index_is(chars@.skip(from as int), c, at - from);
    }
    at
}

/// The two sides of the first `c` in `s`, without it; nothing where `s` has none.
pub open spec fn split_once(s: Seq<char>, c: char) -> Option<(Seq<char>, Seq<char>)> {
    let k = first_index(s, c);
    if k < s.len() {
        Some((s.take(k), s.skip(k + 1)))
    } else {
        None
    }
}

/// The parts of `s` between its `c`s: one more than it has of them.
pub open spec fn split(s: Seq<char>, c: char) -> Seq<Seq<char>>
    decreases s.len(),
    via split_shrinks
{
    let k = first_index(s, c);
    if k < s.len() {
        seq![s.take(k)] + split(s.skip(k + 1), c)
    } else {
        seq![s]
    }
}

#[via_fn]
proof fn split_shrinks(s: Seq<char>, c: char) {
    lemma_first_index(s, c);
}

/// No part between the `c`s of `s` holds a `c`.
pub proof fn lemma_split_parts(s: Seq<char>, c: char)
    ensures
        forall|i: int| 0 <= i < split(s, c).len() ==> !(#[trigger] split(s, c)[i]).contains(c),
    decreases s.len(),
{
    let k = first_index(s, c);
    lemma_first_index(s, c);
    if k < s.len() {
        lemma_split_parts(s.skip(k + 1), c);
        assert forall|i: int| 0 <= i < split(s, c).len() implies !(#[trigger] split(
            s,
            c,
        )[i]).contains(c) by {
            if i > 0 {
                assert(split(s, c)[i] == split(s.skip(k + 1), c)[i - 1]);
            }
        }
    }
}

/// The text of a string, where there is one.
pub open spec fn optional_text(string: Option<String>) -> Option<Seq<char>> {
    match string {
        Some(text) => Some(text@),
        None => None,
    }
}

/// The texts that a list of character lists stands for.
pub open spec fn texts(parts: Seq<Vec<char>>) -> Seq<Seq<char>> {
    parts.map_values(|part: Vec<char>| part@)
}

/// The two sides of the first `c`, without it; nothing where there is none.
pub fn split_chars_once(chars: &[char], c: char) -> (sides: Option<(Vec<char>, Vec<char>)>)
    ensures
        match sides {
            Some((left, right)) => split_once(chars@, c) == Some((left@, right@)),
            None => split_once(chars@, c) is None,
        },
{
    let at = index_from(chars, 0, c);
    assert(chars@.skip(0) == chars@);
    if at < chars.len() {
        let left = copy_range(chars, 0, at);
        let right = copy_range(chars, at + 1, chars.len());
        Some((left, right))
    } else {
        None
    }
}

/// The parts of `chars` between its `c`s.
pub fn split_chars(chars: &[char], c: char) -> (parts: Vec<Vec<char>>)
    ensures
        texts(parts@) == split(chars@, c),
{
    let mut parts: Vec<Vec<char>> = Vec::new();
    let mut from: usize = 0;
    let mut at = index_from(chars, 0, c);
    assert(chars@.skip(0) == chars@);
    while at < chars.len()
        invariant
            from <= at <= chars@.len(),
            at == from + first_index(chars@.skip(from as int), c),
            texts(parts@) + split(chars@.skip(from as int), c) == split(chars@, c),
        decreases chars@.len() - from,
    {
        let ghost before = parts@;
        let ghost rest = chars@.skip(from as int);
        let part = copy_range(chars, from, at);
        assert(part@ == rest.take(at - from));
        parts.push(part);
        assert(texts(parts@) == texts(before).push(part@));
        assert(rest.skip(at - from + 1) == chars@.skip(at + 1));
        assert(texts(before) + split(rest, c) == texts(parts@) + split(chars@.skip(at + 1), c));
        from = at + 1;
        at = index_from(chars, from, c);
    }
    let ghost before = parts@;
    let part = copy_range(chars, from, chars.len());
    parts.push(part);
    assert(part@ == chars@.skip(from as int));
    assert(texts(parts@) == texts(before).push(part@));
    parts
}

// ---------------------------------------------------------------------------------------------
// Lines and words.
// ---------------------------------------------------------------------------------------------

/// `line` without the carriage return it may end with.
pub open spec fn without_cr(line: Seq<char>) -> Seq<char> {
    if line.len() > 0 && line.last() == '\r' {
        line.drop_last()
    } else {
        line
    }
}

/// The lines of `s`, each ended by a line feed or by a carriage return and a line feed, neither of
/// which belongs to it. The last line needs no ending.
pub open spec fn lines(s: Seq<char>) -> Seq<Seq<char>>
    decreases s.len(),
    via lines_shrink
{
    let k = first_index(s, '\n');
    if s.len() == 0 {
        seq![]
    } else if k < s.len() {
        seq![without_cr(s.take(k))] + lines(s.skip(k + 1))
    } else {
        seq![s]
    }
}

#[via_fn]
proof fn lines_shrink(s: Seq<char>) {
    lemma_first_index(s, '\n');
}

/// The lines of `chars`.
pub fn lines_of(chars: &[char]) -> (found: Vec<Vec<char>>)
    ensures
        texts(found@) == lines(chars@),
{
    let mut found: Vec<Vec<char>> = Vec::new();
    let mut from: usize = 0;
    assert(chars@.skip(0) == chars@);
    while from < chars.len()
        invariant
            from <= chars@.len(),
            texts(found@) + lines(chars@.skip(from as int)) == lines(chars@),
        decreases chars@.len() - from,
    {
        let ghost before = found@;
        let ghost rest = chars@.skip(from as int);
        let at = index_from(chars, from, '\n');
        let mut end: usize = at;
        if at < chars.len() && from < at && chars[at - 1] == '\r' {
            end = at - 1;
        }
        let line = copy_range(chars, from, end);
        found.push(line);
        assert(texts(found@) == texts(before).push(line@));
        if at < chars.len() {
            assert(rest.take(at - from) == chars@.subrange(from as int, at as int));
            assert(line@ == without_cr(rest.take(at - from)));
            assert(rest.skip(at - from + 1) == chars@.skip(at + 1));
            assert(texts(before) + lines(rest) == texts(found@) + lines(chars@.skip(at + 1)));
            from = at + 1;
        } else {
            assert(line@ == rest);
            assert(chars@.skip(chars@.len() as int) == Seq::<char>::empty());
            assert(texts(before) + lines(rest) == texts(found@) + lines(Seq::<char>::empty()));
            from = chars.len();
        }
    }
    assert(chars@.skip(from as int) == Seq::<char>::empty());
    assert(texts(found@) + lines(Seq::<char>::empty()) == texts(found@));
    found
}

/// How many characters at the start of `s` are white space (`white`), or are not (`!white`).
pub open spec fn leading_run(s: Seq<char>, white: bool) -> int
    decreases s.len(),
{
    if s.len() == 0 || is_white_space(s[0]) != white {
        0
    } else {
        1 + leading_run(s.skip(1), white)
    }
}

/// `leading_run` is the length of the longest such start.
pub proof fn lemma_leading_run(s: Seq<char>, white: bool)
    ensures
        0 <= leading_run(s, white) <= s.len(),
        forall|i: int| 0 <= i < leading_run(s, white) ==> is_white_space(s[i]) == white,
        leading_run(s, white) < s.len() ==> is_white_space(s[leading_run(s, white)]) != white,
    decreases s.len(),
{
    if s.len() > 0 && is_white_space(s[0]) == white {
        let rest = s.skip(1);
        lemma_leading_run(rest, white);
        assert forall|i: int| 0 <= i < leading_run(s, white) implies is_white_space(s[i])
            == white by {
            if i > 0 {
                assert(rest[i - 1] == s[i]);
            }
        }
    }
}

/// The words of `s`: its longest runs of characters that are not white space.
pub open spec fn words(s: Seq<char>) -> Seq<Seq<char>>
    decreases s.len(),
    via words_shrink
{
    let rest = s.skip(leading_run(s, true));
    if rest.len() == 0 {
        seq![]
    } else {
        let k = leading_run(rest, false);
        seq![rest.take(k)] + words(rest.skip(k))
    }
}

#[via_fn]
proof fn words_shrink(s: Seq<char>) {
    lemma_leading_run(s, true);
    let rest = s.skip(leading_run(s, true));
    lemma_leading_run(rest, false);
}

/// The position at or after `from` where a run of white space, or of other characters, ends.
fn run_end(chars: &[char], from: usize, white: bool) -> (at: usize)
    requires
        from <= chars@.len(),
    ensures
        from <= at <= chars@.len(),
        at == from + leading_run(chars@.skip(from as int), white),
{
    let mut at: usize = from;
    while at < chars.len() && white_space(chars[at]) == white
        invariant
            from <= at <= chars@.len(),
            forall|i: int| from <= i < at ==> is_white_space(chars@[i]) == white,
        decreases chars@.len() - at,
    {
        at += 1;
    }
    proof {
        let rest = chars@.skip(from as int);
        lemma_leading_run(rest, white);
        let k = leading_run(rest, white);
        if k < at - from {
            assert(is_white_space(rest[k]) == white);
        }
        if at - from < k {
            assert(is_white_space(rest[at - from]) == white);
        }
    }
    at
}

/// The words of `chars`.
pub fn words_of(chars: &[char]) -> (found: Vec<Vec<char>>)
    ensures
        texts(found@) == words(chars@),
{
    let mut found: Vec<Vec<char>> = Vec::new();
    let mut from = run_end(chars, 0, true);
    let ghost mut done: int = 0;
    assert(chars@.skip(0) == chars@);
    while from < chars.len()
        invariant
            0 <= done <= from <= chars@.len(),
            from == done + leading_run(chars@.skip(done), true),
            texts(found@) + words(chars@.skip(done)) == words(chars@),
        decreases chars@.len() - from,
    {
        let ghost before = found@;
        let ghost here = chars@.skip(done);
        let end = run_end(chars, from, false);
        let word = copy_range(chars, from, end);
        found.push(word);
        proof {
            assert(texts(found@) == texts(before).push(word@));
            let rest = here.skip(leading_run(here, true));
            assert(rest == chars@.skip(from as int));
            lemma_leading_run(rest, false);
            assert(word@ == rest.take(end - from));
            assert(rest.skip(end - from) == chars@.skip(end as int));
            assert(texts(before) + words(here) == texts(found@) + words(chars@.skip(end as int)));
            done = end as int;
        }
        from = run_end(chars, end, true);
    }
    assert(words(chars@.skip(done)) == Seq::<Seq<char>>::empty());
    assert(texts(found@) + Seq::<Seq<char>>::empty() == texts(found@));
    found
}

// ---------------------------------------------------------------------------------------------
// Letter case.
// ---------------------------------------------------------------------------------------------

/// `c` in lower case, where it is one of the letters `A` to `Z`.
pub open spec fn ascii_lower(c: char) -> char {
    if 'A' <= c <= 'Z' {
        (c as u32 + 32) as char
    } else {
        c
    }
}

/// `s` with the letters `A` to `Z` in lower case.
pub open spec fn ascii_lowered(s: Seq<char>) -> Seq<char> {
    s.map_values(|c: char| ascii_lower(c))
}

/// `chars` with the letters `A` to `Z` in lower case.
pub fn lower_chars(chars: &[char]) -> (lowered: Vec<char>)
    ensures
        lowered@ == ascii_lowered(chars@),
{
    let mut lowered: Vec<char> = Vec::new();
    for i in 0..chars.len()
        invariant
            lowered@ == ascii_lowered(chars@.take(i as int)),
    {
        let c = chars[i];
        let l: char = if 'A' <= c && c <= 'Z' {
            (c as u8 + 32) as char
        } else {
            c
        };
        lowered.push(l);
        assert(chars@.take(i + 1) == chars@.take(i as int).push(c));
        assert(ascii_lowered(chars@.take(i + 1)) == ascii_lowered(chars@.take(i as int)).push(
            ascii_lower(c),
        ));
    }
    assert(chars@.take(chars@.len() as int) == chars@);
    lowered
}

// ---------------------------------------------------------------------------------------------
// Laws.
// ---------------------------------------------------------------------------------------------

/// The white space characters, one by one.
pub proof fn lemma_white_space_is(c: char)
    ensures
        is_white_space(c) <==> {
            ||| c == '\u{9}'
            ||| c == '\u{A}'
            ||| c == '\u{B}'
            ||| c == '\u{C}'
            ||| c == '\u{D}'
            ||| c == '\u{20}'
            ||| c == '\u{85}'
            ||| c == '\u{A0}'
            ||| c == '\u{1680}'
            ||| c == '\u{2000}'
            ||| c == '\u{2001}'
            ||| c == '\u{2002}'
            ||| c == '\u{2003}'
            ||| c == '\u{2004}'
            ||| c == '\u{2005}'
            ||| c == '\u{2006}'
            ||| c == '\u{2007}'
            ||| c == '\u{2008}'
            ||| c == '\u{2009}'
            ||| c == '\u{200A}'
            ||| c == '\u{2028}'
            ||| c == '\u{2029}'
            ||| c == '\u{202F}'
            ||| c == '\u{205F}'
            ||| c == '\u{3000}'
        },
{
}

/// What each trim takes off.
pub proof fn lemma_trim_set_is(c: char)
    ensures
        TrimSet::WhiteSpace.holds(c) <==> is_white_space(c),
        TrimSet::SpaceAndDot.holds(c) <==> (c == ' ' || c == '.'),
{
}

/// Whether the characters of `s` from `a` up to `b` are what is left when the set is taken off its
/// ends: all that stands outside them is in the set, and neither end of them is.
pub open spec fn is_core_at(set: TrimSet, s: Seq<char>, a: int, b: int) -> bool {
    &&& 0 <= a <= b <= s.len()
    &&& forall|i: int| 0 <= i < a ==> set.holds(#[trigger] s[i])
    &&& forall|i: int| b <= i < s.len() ==> set.holds(#[trigger] s[i])
    &&& a < b ==> !set.holds(s[a]) && !set.holds(s[b - 1])
}

proof fn lemma_start_cut(set: TrimSet, s: Seq<char>) -> (k: int)
    ensures
        0 <= k <= s.len(),
        trimmed_start(set, s) == s.skip(k),
        forall|i: int| 0 <= i < k ==> set.holds(#[trigger] s[i]),
        k < s.len() ==> !set.holds(s[k]),
    decreases s.len(),
{
    if s.len() > 0 && set.holds(s[0]) {
        let rest = s.skip(1);
        let k = lemma_start_cut(set, rest);
        assert(rest.skip(k) == s.skip(k + 1));
        assert forall|i: int| 0 <= i < k + 1 implies set.holds(#[trigger] s[i]) by {
            if i > 0 {
                assert(rest[i - 1] == s[i]);
            }
        }
        k + 1
    } else {
        assert(s == s.skip(0));
        0
    }
}

proof fn lemma_end_cut(set: TrimSet, s: Seq<char>) -> (k: int)
    ensures
        0 <= k <= s.len(),
        trimmed_end(set, s) == s.take(k),
        forall|i: int| k <= i < s.len() ==> set.holds(#[trigger] s[i]),
        k > 0 ==> !set.holds(s[k - 1]),
    decreases s.len(),
{
    if s.len() > 0 && set.holds(s.last()) {
        let rest = s.drop_last();
        let k = lemma_end_cut(set, rest);
        assert(rest.take(k) == s.take(k));
        assert forall|i: int| k <= i < s.len() implies set.holds(#[trigger] s[i]) by {
            if i < rest.len() {
                assert(rest[i] == s[i]);
            }
        }
        k
    } else {
        assert(s == s.take(s.len() as int));
        s.len() as int
    }
}

/// Trimming takes off characters of the set and no others, and all of those at the ends.
pub proof fn lemma_trim_takes_the_set_alone(set: TrimSet, s: Seq<char>)
    ensures
        exists|a: int, b: int| #[trigger]
            is_core_at(set, s, a, b) && trimmed(set, s) == s.subrange(a, b),
{
    let a = lemma_start_cut(set, s);
    let start = s.skip(a);
    let n = lemma_end_cut(set, start);
    assert(start.take(n) == s.subrange(a, a + n));
    assert forall|i: int| a + n <= i < s.len() implies set.holds(#[trigger] s[i]) by {
        assert(start[i - a] == s[i]);
    }
    if n > 0 {
        assert(start[n - 1] == s[a + n - 1]);
        assert(start[0] == s[a]);
    }
    assert(is_core_at(set, s, a, a + n));
}

/// What stands between two runs of the set, with neither end in it, is what trimming leaves.
pub proof fn lemma_core_is_trimmed(set: TrimSet, s: Seq<char>, a: int, b: int)
    requires
        is_core_at(set, s, a, b),
    ensures
        trimmed(set, s) == s.subrange(a, b),
{
    lemma_trim_takes_the_set_alone(set, s);
    let (c, d) = choose|c: int, d: int| #[trigger]
        is_core_at(set, s, c, d) && trimmed(set, s) == s.subrange(c, d);
    if a < b {
        if c == d {
            assert(set.holds(s[a]));
        }
        assert(c <= a && a < d);
        assert(a <= c);
        assert(b == d);
    } else if c < d {
        assert(set.holds(s[c]));
    }
    assert(s.subrange(a, b) == s.subrange(c, d));
}

/// Nothing is left of a text exactly where all of it is in the set.
pub proof fn lemma_trimmed_to_nothing(set: TrimSet, s: Seq<char>)
    ensures
        trimmed(set, s).len() > 0 <==> exists|i: int|
            0 <= i < s.len() && !set.holds(#[trigger] s[i]),
        trimmed(set, s).len() == s.len() <==> is_trimmed(set, s),
{
    lemma_trim_takes_the_set_alone(set, s);
    let (a, b) = choose|a: int, b: int| #[trigger]
        is_core_at(set, s, a, b) && trimmed(set, s) == s.subrange(a, b);
    if a < b {
        assert(!set.holds(s[a]));
    }
    if s.len() > 0 && b - a == s.len() {
        assert(s[0] == s[a]);
    }
    if is_trimmed(set, s) && s.len() > 0 {
        assert(!set.holds(s[0]) && !set.holds(s[s.len() - 1]));
    }
}

/// A text that holds the character is what stands before the first of them, the character, and what
/// stands behind; one that does not has no two sides.
pub proof fn lemma_split_once_is(s: Seq<char>, c: char)
    ensures
        match split_once(s, c) {
            Some((left, right)) => s == left + seq![c] + right && !left.contains(c),
            None => !s.contains(c),
        },
{
    lemma_first_index(s, c);
    let k = first_index(s, c);
    if k < s.len() {
        assert(s == s.take(k) + seq![c] + s.skip(k + 1));
    }
}

/// The parts of a text are what stands before its first separator and the parts of what stands
/// behind; a text without one is its only part.
pub proof fn lemma_split_is(left: Seq<char>, c: char, right: Seq<char>)
    requires
        !left.contains(c),
    ensures
        split(left, c) == seq![left],
        split(left + seq![c] + right, c) == seq![left] + split(right, c),
{
    let s = left + seq![c] + right;
    let k = left.len() as int;
    lemma_first_index(left, c);
    assert forall|i: int| 0 <= i < k implies s[i] != c by {
        assert(s[i] == left[i]);
        assert(left.contains(left[i]));
    }
    assert(s[k] == c);
    lemma_first_index_is(s, c, k);
    assert(s.take(k) == left);
    assert(s.skip(k + 1) == right);
}

/// A part behind a separator is the last of the parts.
pub proof fn lemma_split_last(s: Seq<char>, c: char, part: Seq<char>)
    requires
        !part.contains(c),
    ensures
        split(s + seq![c] + part, c) == split(s, c).push(part),
    decreases s.len(),
{
    let k = first_index(s, c);
    lemma_first_index(s, c);
    lemma_split_is(part, c, Seq::empty());
    if k < s.len() {
        let left = s.take(k);
        let right = s.skip(k + 1);
        lemma_split_last(right, c, part);
        lemma_split_is(left, c, right);
        lemma_split_is(left, c, right + seq![c] + part);
        assert(s == left + seq![c] + right);
        assert(s + seq![c] + part == left + seq![c] + (right + seq![c] + part));
        assert(seq![left] + split(right, c).push(part) == (seq![left] + split(right, c)).push(
            part,
        ));
    } else {
        lemma_split_is(s, c, part);
        assert(seq![s] + seq![part] == seq![s].push(part));
    }
}

/// A line ends at a line feed, with the carriage return before it where there is one; the last needs
/// no ending, and a text without characters has no line.
pub proof fn lemma_lines_are(line: Seq<char>, rest: Seq<char>)
    requires
        !line.contains('\n'),
    ensures
        lines(line + seq!['\r', '\n'] + rest) == seq![line] + lines(rest),
        line.len() == 0 || line.last() != '\r' ==> lines(line + seq!['\n'] + rest) == seq![line]
            + lines(rest),
        line.len() > 0 ==> lines(line) == seq![line],
        lines(Seq::empty()) == Seq::<Seq<char>>::empty(),
{
    let n = line.len() as int;
    assert forall|i: int| 0 <= i < n implies line[i] != '\n' by {
        assert(line.contains(line[i]));
    }
    lemma_first_index_is(line, '\n', n);
    let s = line + seq!['\r', '\n'] + rest;
    assert(s[n + 1] == '\n' && s[n] == '\r');
    lemma_first_index_is(s, '\n', n + 1);
    assert(s.take(n + 1).drop_last() == line);
    assert(s.take(n + 1).last() == '\r');
    assert(s.skip(n + 2) == rest);
    let t = line + seq!['\n'] + rest;
    assert(t[n] == '\n');
    lemma_first_index_is(t, '\n', n);
    assert(t.take(n) == line);
    assert(t.skip(n + 1) == rest);
}

/// White space parts words, and belongs to none of them.
pub proof fn lemma_words_are(gap: Seq<char>, word: Seq<char>, rest: Seq<char>)
    requires
        forall|i: int| 0 <= i < gap.len() ==> is_white_space(#[trigger] gap[i]),
        forall|i: int| 0 <= i < word.len() ==> !is_white_space(#[trigger] word[i]),
        word.len() > 0,
        rest.len() > 0 ==> is_white_space(rest[0]),
    ensures
        words(gap) == Seq::<Seq<char>>::empty(),
        words(gap + word + rest) == seq![word] + words(rest),
{
    lemma_leading_run(gap, true);
    let k = gap.len() as int;
    let n = word.len() as int;
    let s = gap + word + rest;
    lemma_leading_run(s, true);
    let r = leading_run(s, true);
    if r < k {
        assert(s[r] == gap[r]);
    }
    assert(s[k] == word[0]);
    if r > k {
        assert(is_white_space(s[k]));
    }
    let t = s.skip(k);
    assert(t == word + rest);
    lemma_leading_run(t, false);
    let m = leading_run(t, false);
    if m < n {
        assert(t[m] == word[m]);
    }
    if m > n {
        assert(t[n] == rest[0]);
        assert(is_white_space(t[n]) == false);
    }
    assert(t.take(n) == word);
    assert(t.skip(n) == rest);
}

/// The letters `A` to `Z` become the letters `a` to `z`, in their order; nothing else changes.
pub proof fn lemma_lowered_is(s: Seq<char>)
    ensures
        ascii_lowered(s).len() == s.len(),
        forall|i: int|
            0 <= i < s.len() ==> if 'A' <= s[i] <= 'Z' {
                (#[trigger] ascii_lowered(s)[i]) as int - 'a' as int == s[i] as int - 'A' as int
            } else {
                ascii_lowered(s)[i] == s[i]
            },
{
}

/// Bytes that are the encoding of a text stand for that text; what other bytes stand for is what
/// they are repaired to.
pub proof fn lemma_lossy_text_is(s: Seq<char>, bytes: Seq<u8>)
    ensures
        lossy_text(encode_utf8(s)) == s,
        !valid_utf8(bytes) ==> lossy_text(bytes) == repaired_utf8(bytes),
{
    encode_utf8_valid_utf8(s);
    encode_utf8_decode_utf8(s);
}

/// Strings stand for their own texts.
pub proof fn lemma_texts_are(string: String, parts: Seq<Vec<char>>)
    ensures
        optional_text(Some(string)) == Some(string@),
        optional_text(None::<String>) == None::<Seq<char>>,
        texts(parts).len() == parts.len(),
        forall|i: int| 0 <= i < parts.len() ==> #[trigger] texts(parts)[i] == parts[i]@,
{
}

/// Whatever stands between two runs of the set, and neither begins nor ends with a character of it,
/// is left whole by trimming.
pub proof fn lemma_trimmed_between(
    set: TrimSet,
    before: Seq<char>,
    core: Seq<char>,
    after: Seq<char>,
)
    requires
        forall|i: int| 0 <= i < before.len() ==> set.holds(#[trigger] before[i]),
        forall|i: int| 0 <= i < after.len() ==> set.holds(#[trigger] after[i]),
        core.len() > 0 ==> !set.holds(core[0]) && !set.holds(core[core.len() - 1]),
    ensures
        trimmed(set, before + core + after) == core,
{
    let s = before + core + after;
    let a = before.len() as int;
    let b = a + core.len();
    assert forall|i: int| 0 <= i < a implies set.holds(#[trigger] s[i]) by {
        assert(s[i] == before[i]);
    }
    assert forall|i: int| b <= i < s.len() implies set.holds(#[trigger] s[i]) by {
        assert(s[i] == after[i - b]);
    }
    if core.len() > 0 {
        assert(s[a] == core[0] && s[b - 1] == core[core.len() - 1]);
    }
    assert(is_core_at(set, s, a, b));
    lemma_core_is_trimmed(set, s, a, b);
    assert(s.subrange(a, b) == core);
}

/// White space around a text is taken off, and the text is left whole.
pub proof fn lemma_trimmed_text_between(before: Seq<char>, core: Seq<char>, after: Seq<char>)
    requires
        forall|i: int| 0 <= i < before.len() ==> is_white_space(#[trigger] before[i]),
        forall|i: int| 0 <= i < after.len() ==> is_white_space(#[trigger] after[i]),
        core.len() > 0 ==> !is_white_space(core[0]) && !is_white_space(core[core.len() - 1]),
    ensures
        trimmed_text(before + core + after) == core,
{
    lemma_trimmed_between(TrimSet::WhiteSpace, before, core, after);
}

} // verus!
