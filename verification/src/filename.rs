//! Names of uploaded files: made safe, stripped to their stem, and stamped with the time.
use crate::decimal::{decimal, digit, is_digit, lemma_decimal_digits, lemma_decimal_value};
use crate::text::{
    chars_of, is_core_at, lemma_first_index, lemma_split_is, lemma_split_last, lemma_split_parts,
    lemma_trim_idempotent, lemma_trim_takes_the_set_alone, lemma_trimmed, optional_text, split,
    text_of, trim_chars, trimmed, TrimSet,
};
use vstd::prelude::*;

verus! {

// ---------------------------------------------------------------------------------------------
// Safe names.
// ---------------------------------------------------------------------------------------------

/// Whether a file name keeps the character: a letter or digit of ASCII, or one of `.`, `-`, `_` and
/// the space.
pub open spec fn is_kept(c: char) -> bool {
    ||| '0' <= c <= '9'
    ||| 'A' <= c <= 'Z'
    ||| 'a' <= c <= 'z'
    ||| c == '.'
    ||| c == '-'
    ||| c == '_'
    ||| c == ' '
}

/// `c`, or an underscore where a file name does not keep it.
pub open spec fn kept_or_underscore(c: char) -> char {
    if is_kept(c) {
        c
    } else {
        '_'
    }
}

/// `s` with an underscore in place of each character that a file name does not keep.
pub open spec fn underscored(s: Seq<char>) -> Seq<char> {
    s.map_values(|c: char| kept_or_underscore(c))
}

/// The safe name for a file called `s`: underscores in place of what a file name does not keep, and
/// neither a space nor a full stop at either end.
pub open spec fn sanitized(s: Seq<char>) -> Seq<char> {
    trimmed(TrimSet::SpaceAndDot, underscored(s))
}

/// The safe name for a file called `filename`.
pub fn sanitize_filename(filename: &str) -> (safe: String)
    ensures
        safe@ == sanitized(filename@),
{
    let chars = chars_of(filename);
    let mut kept: Vec<char> = Vec::new();
    for i in 0..chars.len()
        invariant
            chars@ == filename@,
            kept@ == underscored(chars@.take(i as int)),
    {
        let c = chars[i];
        let keep = ('0' <= c && c <= '9') || ('A' <= c && c <= 'Z') || ('a' <= c && c <= 'z') || c
            == '.' || c == '-' || c == '_' || c == ' ';
        if keep {
            kept.push(c);
        } else {
            kept.push('_');
        }
        assert(chars@.take(i + 1) == chars@.take(i as int).push(c));
        assert(underscored(chars@.take(i + 1)) == underscored(chars@.take(i as int)).push(
            kept_or_underscore(c),
        ));
    }
    assert(chars@.take(chars@.len() as int) == chars@);
    let safe = trim_chars(TrimSet::SpaceAndDot, kept.as_slice());
    text_of(safe.as_slice())
}

/// Whether `s` is a safe name: every character is one that a file name keeps, and neither end is a
/// space or a full stop.
pub open spec fn is_safe_name(s: Seq<char>) -> bool {
    &&& forall|i: int| 0 <= i < s.len() ==> is_kept(#[trigger] s[i])
    &&& s.len() > 0 ==> s[0] != ' ' && s[0] != '.' && s.last() != ' ' && s.last() != '.'
}

/// Whatever a file is called, its sanitized name is safe.
pub proof fn lemma_sanitized_is_safe(s: Seq<char>)
    ensures
        is_safe_name(sanitized(s)),
{
    let all = underscored(s);
    lemma_trimmed(TrimSet::SpaceAndDot, all);
    let (a, b) = choose|a: int, b: int|
        0 <= a <= b <= all.len() && sanitized(s) == all.subrange(a, b);
    assert forall|i: int| 0 <= i < sanitized(s).len() implies is_kept(#[trigger] sanitized(
        s,
    )[i]) by {
        assert(sanitized(s)[i] == all[a + i]);
        assert(all[a + i] == kept_or_underscore(s[a + i]));
    }
}

/// A safe name is left as it is; so sanitizing twice is sanitizing once.
pub proof fn lemma_safe_name_unchanged(s: Seq<char>)
    requires
        is_safe_name(s),
    ensures
        sanitized(s) == s,
{
    assert(underscored(s) == s) by {
        assert forall|i: int| 0 <= i < s.len() implies underscored(s)[i] == s[i] by {
            assert(is_kept(s[i]));
        }
    }
    lemma_trim_idempotent(TrimSet::SpaceAndDot, s);
}

/// Sanitizing twice is sanitizing once.
pub proof fn lemma_sanitize_idempotent(s: Seq<char>)
    ensures
        sanitized(sanitized(s)) == sanitized(s),
{
    lemma_sanitized_is_safe(s);
    lemma_safe_name_unchanged(sanitized(s));
}

/// Whether `s` names a file in its own directory: it holds no path separator of any system, and is
/// neither empty nor one of the two names `.` and `..`.
pub open spec fn is_plain_file_name(s: Seq<char>) -> bool {
    &&& s.len() > 0
    &&& !s.contains('/')
    &&& !s.contains('\\')
    &&& !s.contains(':')
    &&& s != seq!['.']
    &&& s != seq!['.', '.']
}

/// A safe name that is not empty names a file in its own directory.
pub proof fn lemma_safe_name_is_plain(s: Seq<char>)
    requires
        is_safe_name(s),
        s.len() > 0,
    ensures
        is_plain_file_name(s),
{
    assert forall|c: char| #[trigger] s.contains(c) implies is_kept(c) by {
        let i = choose|i: int| 0 <= i < s.len() && s[i] == c;
        assert(is_kept(s[i]));
    }
}

// ---------------------------------------------------------------------------------------------
// Stems.
// ---------------------------------------------------------------------------------------------

/// The last part of a path that names something: not empty, and not a single full stop.
pub open spec fn last_part(parts: Seq<Seq<char>>) -> Option<Seq<char>>
    decreases parts.len(),
{
    if parts.len() == 0 {
        None
    } else if parts.last().len() == 0 || parts.last() == seq!['.'] {
        last_part(parts.drop_last())
    } else {
        Some(parts.last())
    }
}

/// The name of the file or directory that `path` leads to, its parts being separated by `/`; a path
/// that ends in `..` leads to none.
pub open spec fn file_name(path: Seq<char>) -> Option<Seq<char>> {
    match last_part(split(path, '/')) {
        Some(part) => if part == seq!['.', '.'] {
            None
        } else {
            Some(part)
        },
        None => None,
    }
}

/// Where `c` last stands in `s`; -1 where it does not.
pub open spec fn last_index(s: Seq<char>, c: char) -> int
    decreases s.len(),
{
    if s.len() == 0 {
        -1
    } else if s.last() == c {
        s.len() - 1
    } else {
        last_index(s.drop_last(), c)
    }
}

/// `name` up to its last full stop, unless that is its first character.
pub open spec fn stem(name: Seq<char>) -> Seq<char> {
    let k = last_index(name, '.');
    if k > 0 {
        name.take(k)
    } else {
        name
    }
}

/// The stem of the file or directory that `path` leads to, its parts being separated by `/`.
pub open spec fn file_stem(path: Seq<char>) -> Option<Seq<char>> {
    match file_name(path) {
        Some(name) => Some(stem(name)),
        None => None,
    }
}

/// The stem, and `Phone Upload` where there is none.
pub open spec fn or_default(part: Option<Seq<char>>) -> Seq<char> {
    match part {
        Some(text) => text,
        None => "Phone Upload"@,
    }
}

/// The stem of the file that `filename` leads to, and `Phone Upload` where it leads to none.
pub open spec fn stem_or_default(filename: Seq<char>) -> Seq<char> {
    or_default(file_stem(filename))
}

/// Whether the character separates the parts of a path on some system.
pub open spec fn is_separator(c: char) -> bool {
    c == '/' || c == '\\'
}

/// `path` with each `\` turned into `/`.
pub open spec fn slashed(path: Seq<char>) -> Seq<char> {
    path.map_values(|c: char| if c == '\\' { '/' } else { c })
}

/// Whether `path` starts with two separators.
pub open spec fn starts_with_share(path: Seq<char>) -> bool {
    path.len() >= 2 && is_separator(path[0]) && is_separator(path[1])
}

/// Whether `path` starts with a letter and a colon.
pub open spec fn starts_with_drive(path: Seq<char>) -> bool {
    &&& path.len() >= 2
    &&& 'A' <= path[0] <= 'Z' || 'a' <= path[0] <= 'z'
    &&& path[1] == ':'
}

/// Whether `path` starts as a verbatim path of Windows does, with `\\?\`.
pub open spec fn is_verbatim(path: Seq<char>) -> bool {
    path.len() >= 4 && path[0] == '\\' && path[1] == '\\' && path[2] == '?' && path[3] == '\\'
}

/// Whether Windows may set apart the first `n` characters of `path` as its prefix: none of them; a
/// character and a colon, and always a drive; or, behind two separators, a share or device up to a
/// separator or the end.
pub open spec fn is_prefix_end(path: Seq<char>, n: int) -> bool {
    ||| n == 0 && !starts_with_drive(path)
    ||| n == 2 && path.len() >= 2 && path[1] == ':'
    ||| {
        &&& starts_with_share(path)
        &&& 2 <= n <= path.len()
        &&& n < path.len() ==> is_separator(path[n])
    }
}

/// Whether `part` is the stem of the file or directory that `path` leads to on some system: one that
/// knows no prefix and separates the parts by `/`, or one that sets the prefix apart and separates
/// the parts of the rest by `/` or `\`.
pub open spec fn is_file_stem(path: Seq<char>, part: Option<Seq<char>>) -> bool {
    ||| part == file_stem(path)
    ||| exists|n: int| #[trigger]
        is_prefix_end(path, n) && part == file_stem(slashed(path.skip(n)))
}

/// Whether `path` starts with no drive, share or device on any system: neither with two separators
/// nor with a character and a colon.
pub open spec fn has_no_prefix(path: Seq<char>) -> bool {
    !starts_with_share(path) && (path.len() >= 2 ==> path[1] != ':')
}

/// Whether every system takes the same parts out of `path`.
pub open spec fn is_portable(path: Seq<char>) -> bool {
    has_no_prefix(path) && !path.contains('\\')
}

proof fn lemma_last_index(s: Seq<char>, c: char)
    ensures
        -1 <= last_index(s, c) < s.len(),
        last_index(s, c) >= 0 ==> s[last_index(s, c)] == c,
        forall|i: int| last_index(s, c) < i < s.len() ==> s[i] != c,
    decreases s.len(),
{
    if s.len() > 0 && s.last() != c {
        lemma_last_index(s.drop_last(), c);
        assert forall|i: int| last_index(s, c) < i < s.len() implies s[i] != c by {
            if i < s.len() - 1 {
                assert(s[i] == s.drop_last()[i]);
            }
        }
    }
}

/// `std::path::Path::file_stem`, as text: of the last part of the path, where that names a file or
/// directory, what stands before its last full stop, and the whole of it where the only full stop is
/// the first character or there is none. A stem is not empty. The parts are separated by `/` on
/// Unix, and by `/` or `\` on Windows, which first sets apart a prefix: a drive, a share or a device.
/// Which of these readings holds depends on the system. What Windows takes out of a verbatim path is
/// left unsaid, but for that.
#[verifier::external_body]
fn path_stem(path: &str) -> (part: Option<String>)
    ensures
        !is_verbatim(path@) ==> is_file_stem(path@, optional_text(part)),
        part matches Some(text) ==> text@.len() > 0,
{
    let part = std::path::Path::new(path).file_stem()?;
    let text = part.to_str()?;
    Some(text.to_owned())
}

/// The stem of the file that `filename` leads to on this system, and `Phone Upload` where it leads
/// to none. On a system that separates the parts of a path by `\` too, `filename` is read as if it
/// had `/` there; on one that knows drives and shares, what stands behind them is read.
pub fn filename_stem(filename: &str) -> (part: String)
    ensures
        is_portable(filename@) ==> part@ == stem_or_default(filename@),
        has_no_prefix(filename@) ==> part@ == stem_or_default(filename@) || part@
            == stem_or_default(slashed(filename@)),
        starts_with_drive(filename@) ==> part@ == stem_or_default(filename@) || part@
            == stem_or_default(slashed(filename@.skip(2))),
        !is_verbatim(filename@) ==> exists|stem: Option<Seq<char>>| #[trigger]
            is_file_stem(filename@, stem) && part@ == or_default(stem),
        !is_verbatim(filename@) ==> !part@.contains('/'),
        part@.len() > 0,
{
    proof {
        reveal_strlit("Phone Upload");
    }
    let found = path_stem(filename);
    proof {
        let path = filename@;
        let stem = optional_text(found);
        assert(path.skip(0) == path);
        if !is_verbatim(path) && stem != file_stem(path) {
            let n = choose|n: int| #[trigger]
                is_prefix_end(path, n) && stem == file_stem(slashed(path.skip(n)));
            lemma_stem_has_no_slash(slashed(path.skip(n)));
            if is_portable(path) {
                assert forall|i: int| 0 <= i < path.len() implies slashed(path)[i] == path[i] by {
                    assert(path.contains(path[i]));
                }
                assert(slashed(path) == path);
            }
        }
        lemma_stem_has_no_slash(path);
        assert(!"Phone Upload"@.contains('/'));
    }
    match found {
        Some(part) => part,
        None => "Phone Upload".to_owned(),
    }
}

proof fn lemma_last_part(parts: Seq<Seq<char>>)
    ensures
        last_part(parts) matches Some(part) ==> part.len() > 0 && parts.contains(part),
    decreases parts.len(),
{
    if parts.len() > 0 {
        lemma_last_part(parts.drop_last());
        assert(parts.contains(parts[parts.len() - 1]));
        if let Some(part) = last_part(parts.drop_last()) {
            let i = choose|i: int| 0 <= i < parts.len() - 1 && parts.drop_last()[i] == part;
            assert(parts[i] == part);
        }
    }
}

/// No stem holds a separator of the parts of a path.
pub proof fn lemma_stem_has_no_slash(path: Seq<char>)
    ensures
        file_stem(path) matches Some(part) ==> !part.contains('/'),
{
    let parts = split(path, '/');
    lemma_last_part(parts);
    if let Some(name) = file_name(path) {
        lemma_split_parts(path, '/');
        let i = choose|i: int| 0 <= i < parts.len() && parts[i] == name;
        assert(!parts[i].contains('/'));
        lemma_last_index(name, '.');
        if stem(name).contains('/') {
            let j = choose|j: int| 0 <= j < stem(name).len() && stem(name)[j] == '/';
            assert(name[j] == '/');
            assert(name.contains('/'));
        }
    }
}

/// A stem is never empty.
pub proof fn lemma_stem_is_not_empty(filename: Seq<char>)
    ensures
        stem_or_default(filename).len() > 0,
{
    reveal_strlit("Phone Upload");
    lemma_last_part(split(filename, '/'));
    if let Some(name) = file_name(filename) {
        lemma_last_index(name, '.');
    }
}

/// The stem of a name without separators is the name itself without its last extension, on every
/// system.
pub proof fn lemma_stem_of_plain_name(name: Seq<char>)
    requires
        is_plain_file_name(name),
    ensures
        is_portable(name),
        stem_or_default(name) == stem(name),
        stem(name) == name.take(stem(name).len() as int),
{
    assert forall|i: int| 0 <= i < name.len() implies !is_separator(#[trigger] name[i]) && name[i]
        != ':' by {
        assert(name.contains(name[i]));
    }
    lemma_first_index(name, '/');
    assert(split(name, '/') == seq![name]);
    lemma_last_index(name, '.');
    assert(name.take(name.len() as int) == name);
}

// ---------------------------------------------------------------------------------------------
// Stored names.
// ---------------------------------------------------------------------------------------------

/// A second of the calendar, in UTC.
pub struct Moment {
    pub year: nat,
    pub month: nat,
    pub day: nat,
    pub hour: nat,
    pub minute: nat,
    pub second: nat,
}

/// How many days the month has.
pub open spec fn days_in_month(year: nat, month: nat) -> nat {
    if month == 2 {
        if year % 4 == 0 && (year % 100 != 0 || year % 400 == 0) {
            29
        } else {
            28
        }
    } else if month == 4 || month == 6 || month == 9 || month == 11 {
        30
    } else {
        31
    }
}

impl Moment {
    /// Whether the calendar has the moment, at or after the start of 1970.
    pub open spec fn since_1970(self) -> bool {
        &&& self.year >= 1970
        &&& 1 <= self.month <= 12
        &&& 1 <= self.day <= days_in_month(self.year, self.month)
        &&& self.hour <= 23
        &&& self.minute <= 59
        &&& self.second <= 59
    }

    /// The moment as year, month and day, an underscore, and hour, minute and second. The year has
    /// four digits, or a plus sign and more.
    pub open spec fn stamp(self) -> Seq<char> {
        year_text(self.year) + two_digits(self.month) + two_digits(self.day) + seq!['_']
            + two_digits(self.hour) + two_digits(self.minute) + two_digits(self.second)
    }
}

/// A year since 1970 in decimal, with a plus sign where it has more than four digits.
pub open spec fn year_text(year: nat) -> Seq<char> {
    if year <= 9999 {
        decimal(year)
    } else {
        seq!['+'] + decimal(year)
    }
}

/// `n` in two digits.
pub open spec fn two_digits(n: nat) -> Seq<char> {
    seq![digit(n as int / 10), digit(n as int % 10)]
}

/// Whether `s` is the stamp of some moment since 1970.
pub open spec fn is_utc_stamp(s: Seq<char>) -> bool {
    exists|moment: Moment| #[trigger] moment.since_1970() && s == moment.stamp()
}

/// `chrono::Utc::now`, formatted as `%Y%m%d_%H%M%S`: the stamp of a moment that the calendar has,
/// not before 1970. Which moment it is depends on the system's clock. `now` panics where that clock
/// stands before 1970 or beyond chrono's range of years.
#[verifier::external_body]
fn utc_stamp() -> (stamp: String)
    ensures
        is_utc_stamp(stamp@),
{
    chrono::Utc::now().format("%Y%m%d_%H%M%S").to_string()
}

/// The name under which a file called `original` is stored, given the stamp of its arrival.
pub open spec fn stored_name(stamp: Seq<char>, original: Seq<char>) -> Seq<char> {
    "phone_"@ + stamp + "_"@ + original
}

/// The name under which a file called `original` is stored, given the stamp of its arrival.
pub fn stamped_filename(stamp: &str, original: &str) -> (name: String)
    ensures
        name@ == stored_name(stamp@, original@),
{
    let mut name = "phone_".to_owned();
    name.append(stamp);
    name.append("_");
    name.append(original);
    name
}

/// The name under which a file called `original` is stored when it arrives now.
pub fn unique_upload_filename(original: &str) -> (name: String)
    ensures
        exists|stamp: Seq<char>|
            #[trigger] is_utc_stamp(stamp) && name@ == stored_name(stamp, original@),
{
    let stamp = utc_stamp();
    stamped_filename(stamp.as_str(), original)
}

proof fn lemma_two_digits(n: nat)
    requires
        n <= 99,
    ensures
        two_digits(n).len() == 2,
        is_digit(two_digits(n)[0]),
        is_digit(two_digits(n)[1]),
{
}

/// A stamp has one underscore, seven characters before its end, and else digits and plus signs.
proof fn lemma_stamp_shape(stamp: Seq<char>)
    requires
        is_utc_stamp(stamp),
    ensures
        stamp.len() >= 7,
        stamp[stamp.len() - 7] == '_',
        forall|i: int|
            0 <= i < stamp.len() && i != stamp.len() - 7 ==> is_digit(#[trigger] stamp[i])
                || stamp[i] == '+',
{
    let moment = choose|moment: Moment| #[trigger] moment.since_1970() && stamp == moment.stamp();
    let year = year_text(moment.year);
    lemma_decimal_digits(moment.year);
    lemma_two_digits(moment.month);
    lemma_two_digits(moment.day);
    lemma_two_digits(moment.hour);
    lemma_two_digits(moment.minute);
    lemma_two_digits(moment.second);
    let k = year.len() as int;
    assert(stamp.len() == k + 11);
    assert forall|i: int| 0 <= i < k implies is_digit(#[trigger] year[i]) || year[i] == '+' by {
        if moment.year <= 9999 {
            assert(is_digit(decimal(moment.year)[i]));
        } else if i > 0 {
            assert(year[i] == decimal(moment.year)[i - 1]);
        }
    }
    assert forall|i: int| 0 <= i < stamp.len() && i != stamp.len() - 7 implies is_digit(
        #[trigger] stamp[i],
    ) || stamp[i] == '+' by {
        if i < k {
            assert(stamp[i] == year[i]);
        } else if i < k + 2 {
            assert(stamp[i] == two_digits(moment.month)[i - k]);
        } else if i < k + 4 {
            assert(stamp[i] == two_digits(moment.day)[i - k - 2]);
        } else if i < k + 7 {
            assert(stamp[i] == two_digits(moment.hour)[i - k - 5]);
        } else if i < k + 9 {
            assert(stamp[i] == two_digits(moment.minute)[i - k - 7]);
        } else {
            assert(stamp[i] == two_digits(moment.second)[i - k - 9]);
        }
    }
}

/// The name under which a safe name is stored leads out of no directory.
pub proof fn lemma_stored_name_is_plain(stamp: Seq<char>, original: Seq<char>)
    requires
        is_utc_stamp(stamp),
        is_safe_name(original),
    ensures
        is_plain_file_name(stored_name(stamp, original)),
{
    let name = stored_name(stamp, original);
    lemma_stamp_shape(stamp);
    reveal_strlit("phone_");
    reveal_strlit("_");
    assert(name[0] == 'p');
    assert forall|c: char| #[trigger] name.contains(c) implies c == '+' || is_kept(c) by {
        let i = choose|i: int| 0 <= i < name.len() && name[i] == c;
        let k = 6 + stamp.len();
        if i < 6 {
            assert(name[i] == "phone_"@[i]);
        } else if i < k {
            assert(name[i] == stamp[i - 6]);
        } else if i == k {
            assert(name[i] == '_');
        } else {
            assert(name[i] == original[i - k - 1]);
        }
    }
}

/// A moment is told from its stamp.
proof fn lemma_stamp_tells_moment(m1: Moment, m2: Moment)
    requires
        m1.since_1970(),
        m2.since_1970(),
        m1.stamp() == m2.stamp(),
    ensures
        m1 == m2,
{
    let stamp = m1.stamp();
    let y1 = year_text(m1.year);
    let y2 = year_text(m2.year);
    let k = y1.len() as int;
    assert(stamp.len() == k + 11 && stamp.len() == y2.len() + 11);
    assert(y1 == stamp.take(k));
    assert(y2 == stamp.take(k));
    lemma_decimal_value(m1.year);
    lemma_decimal_value(m2.year);
    lemma_decimal_digits(m1.year);
    lemma_decimal_digits(m2.year);
    assert(is_digit(decimal(m1.year)[0]) && is_digit(decimal(m2.year)[0]));
    if m1.year > 9999 && m2.year > 9999 {
        assert(decimal(m1.year) == y1.skip(1));
        assert(decimal(m2.year) == y2.skip(1));
    }
    assert(m1.year == m2.year);
    assert(two_digits(m1.month) == stamp.subrange(k, k + 2));
    assert(two_digits(m2.month) == stamp.subrange(k, k + 2));
    lemma_two_digits_tell(m1.month, m2.month);
    assert(two_digits(m1.day) == stamp.subrange(k + 2, k + 4));
    assert(two_digits(m2.day) == stamp.subrange(k + 2, k + 4));
    lemma_two_digits_tell(m1.day, m2.day);
    assert(two_digits(m1.hour) == stamp.subrange(k + 5, k + 7));
    assert(two_digits(m2.hour) == stamp.subrange(k + 5, k + 7));
    lemma_two_digits_tell(m1.hour, m2.hour);
    assert(two_digits(m1.minute) == stamp.subrange(k + 7, k + 9));
    assert(two_digits(m2.minute) == stamp.subrange(k + 7, k + 9));
    lemma_two_digits_tell(m1.minute, m2.minute);
    assert(two_digits(m1.second) == stamp.subrange(k + 9, k + 11));
    assert(two_digits(m2.second) == stamp.subrange(k + 9, k + 11));
    lemma_two_digits_tell(m1.second, m2.second);
}

proof fn lemma_two_digits_tell(n1: nat, n2: nat)
    requires
        n1 <= 99,
        n2 <= 99,
        two_digits(n1) == two_digits(n2),
    ensures
        n1 == n2,
{
    assert(two_digits(n1)[0] == two_digits(n2)[0]);
    assert(two_digits(n1)[1] == two_digits(n2)[1]);
}

/// Two uploads are stored under one name only where they arrived in the same second and are called
/// the same.
pub proof fn lemma_stored_names_differ(
    moment1: Moment,
    original1: Seq<char>,
    moment2: Moment,
    original2: Seq<char>,
)
    requires
        moment1.since_1970(),
        moment2.since_1970(),
        stored_name(moment1.stamp(), original1) == stored_name(moment2.stamp(), original2),
    ensures
        moment1 == moment2,
        original1 == original2,
{
    let stamp1 = moment1.stamp();
    let stamp2 = moment2.stamp();
    let name = stored_name(stamp1, original1);
    reveal_strlit("phone_");
    reveal_strlit("_");
    lemma_stamp_shape(stamp1);
    lemma_stamp_shape(stamp2);
    let n1 = stamp1.len() as int;
    let n2 = stamp2.len() as int;
    assert forall|i: int| 0 <= i < n1 implies name[6 + i] == stamp1[i] by {}
    assert forall|i: int| 0 <= i < n2 implies name[6 + i] == stamp2[i] by {}
    if n1 < n2 {
        assert(name[6 + (n1 - 7)] == '_');
        assert(stamp2[n1 - 7] == '_');
    } else if n2 < n1 {
        assert(name[6 + (n2 - 7)] == '_');
        assert(stamp1[n2 - 7] == '_');
    }
    assert(stamp1 == name.subrange(6, 6 + n1));
    assert(stamp2 == name.subrange(6, 6 + n1));
    assert(original1 == name.skip(7 + n1));
    assert(original2 == name.skip(7 + n1));
    lemma_stamp_tells_moment(moment1, moment2);
}

// ---------------------------------------------------------------------------------------------
// Laws.
// ---------------------------------------------------------------------------------------------

/// The characters that a file name keeps, by their numbers: digits, letters, and the space, the
/// hyphen, the full stop and the underscore.
pub proof fn lemma_kept_is(c: char)
    ensures
        is_kept(c) <==> {
            let n = c as int;
            ||| 48 <= n < 58
            ||| 65 <= n < 91
            ||| 97 <= n < 123
            ||| n == 32
            ||| n == 45
            ||| n == 46
            ||| n == 95
        },
{
}

/// Whether `name` is what is left of `s` from `a` up to `b`, with an underscore for each character
/// that a file name does not keep, where all that stands outside are spaces and full stops and
/// neither end of the rest is one.
pub open spec fn is_name_core_at(s: Seq<char>, a: int, b: int, name: Seq<char>) -> bool {
    &&& 0 <= a <= b <= s.len()
    &&& forall|i: int| 0 <= i < a ==> #[trigger] s[i] == ' ' || s[i] == '.'
    &&& forall|i: int| b <= i < s.len() ==> #[trigger] s[i] == ' ' || s[i] == '.'
    &&& a < b ==> s[a] != ' ' && s[a] != '.' && s[b - 1] != ' ' && s[b - 1] != '.'
    &&& name.len() == b - a
    &&& forall|i: int|
        0 <= i < name.len() ==> #[trigger] name[i] == if is_kept(s[a + i]) {
            s[a + i]
        } else {
            '_'
        }
}

/// The safe name keeps what it can of any name: only spaces and full stops are cut off its ends, and
/// every other character is kept or turned into an underscore.
pub proof fn lemma_sanitized_keeps(s: Seq<char>)
    ensures
        exists|a: int, b: int| #[trigger] is_name_core_at(s, a, b, sanitized(s)),
{
    let all = underscored(s);
    let set = TrimSet::SpaceAndDot;
    lemma_trim_takes_the_set_alone(set, all);
    let (a, b) = choose|a: int, b: int| #[trigger]
        is_core_at(set, all, a, b) && trimmed(set, all) == all.subrange(a, b);
    assert forall|i: int| 0 <= i < s.len() implies (set.holds(#[trigger] all[i]) <==> s[i] == ' '
        || s[i] == '.') by {
        assert(all[i] == kept_or_underscore(s[i]));
    }
    let name = sanitized(s);
    assert(name == all.subrange(a, b));
    assert forall|i: int| 0 <= i < a implies #[trigger] s[i] == ' ' || s[i] == '.' by {
        assert(set.holds(all[i]));
    }
    assert forall|i: int| b <= i < s.len() implies #[trigger] s[i] == ' ' || s[i] == '.' by {
        assert(set.holds(all[i]));
    }
    if a < b {
        assert(!set.holds(all[a]) && !set.holds(all[b - 1]));
    }
    assert forall|i: int| 0 <= i < name.len() implies #[trigger] name[i] == if is_kept(s[a + i]) {
        s[a + i]
    } else {
        '_'
    } by {
        assert(name[i] == all[a + i]);
    }
    assert(is_name_core_at(s, a, b, name));
}

/// What is left of a name so is its safe name.
pub proof fn lemma_name_core_is_sanitized(s: Seq<char>, a: int, b: int, name: Seq<char>)
    requires
        is_name_core_at(s, a, b, name),
    ensures
        sanitized(s) == name,
{
    lemma_sanitized_keeps(s);
    let safe = sanitized(s);
    let (c, d) = choose|c: int, d: int| #[trigger] is_name_core_at(s, c, d, safe);
    if a < b {
        if c == d {
            assert(s[a] == ' ' || s[a] == '.');
        }
        assert(a == c && b == d);
        assert forall|i: int| 0 <= i < name.len() implies safe[i] == name[i] by {
            assert(safe[i] == if is_kept(s[c + i]) {
                s[c + i]
            } else {
                '_'
            });
        }
    } else if c < d {
        assert(s[c] == ' ' || s[c] == '.');
    }
    assert(safe == name);
}

/// A name that neither begins nor ends with a space or a full stop keeps its length, and each of its
/// characters is the same or an underscore.
pub proof fn lemma_sanitized_of_closed_name(s: Seq<char>)
    requires
        s.len() > 0,
        s[0] != ' ' && s[0] != '.',
        s.last() != ' ' && s.last() != '.',
    ensures
        sanitized(s).len() == s.len(),
        forall|i: int|
            0 <= i < s.len() ==> #[trigger] sanitized(s)[i] == if is_kept(s[i]) {
                s[i]
            } else {
                '_'
            },
{
    let name = Seq::new(s.len(), |i: int| if is_kept(s[i]) { s[i] } else { '_' });
    assert(is_name_core_at(s, 0, s.len() as int, name));
    lemma_name_core_is_sanitized(s, 0, s.len() as int, name);
}

/// A name loses its last extension, with the full stop before it, and nothing else; a name that has
/// none, or begins with its only full stop, is its own stem.
pub proof fn lemma_stem_is(base: Seq<char>, extension: Seq<char>)
    requires
        !extension.contains('.'),
    ensures
        base.len() > 0 ==> stem(base + seq!['.'] + extension) == base,
        stem(extension) == extension,
        stem(seq!['.'] + extension) == seq!['.'] + extension,
{
    let name = base + seq!['.'] + extension;
    let n = base.len() as int;
    let hidden = seq!['.'] + extension;
    assert forall|i: int| 0 <= i < extension.len() implies extension[i] != '.' by {
        assert(extension.contains(extension[i]));
    }
    lemma_last_index(name, '.');
    let k = last_index(name, '.');
    assert(name[n] == '.');
    if k > n {
        assert(name[k] == extension[k - n - 1]);
    }
    assert(name.take(n) == base);
    lemma_last_index(extension, '.');
    lemma_last_index(hidden, '.');
    let h = last_index(hidden, '.');
    if h > 0 {
        assert(hidden[h] == extension[h - 1]);
    }
}

/// A path leads to its last part. A separator at its end, or a single full stop behind that, changes
/// nothing; two full stops, or no part at all, lead to no name.
pub proof fn lemma_file_name_is(path: Seq<char>, name: Seq<char>)
    requires
        name.len() > 0,
        !name.contains('/'),
        name != seq!['.'],
        name != seq!['.', '.'],
    ensures
        file_name(name) == Some(name),
        file_name(path + seq!['/'] + name) == Some(name),
        file_name(path + seq!['/']) == file_name(path),
        file_name(path + seq!['/'] + seq!['.']) == file_name(path),
        file_name(path + seq!['/'] + seq!['.', '.']) is None,
        file_name(Seq::empty()) is None,
        file_name(seq!['.']) is None,
        file_name(seq!['.', '.']) is None,
{
    let none = Seq::<char>::empty();
    let dot = seq!['.'];
    let dots = seq!['.', '.'];
    lemma_split_is(name, '/', none);
    lemma_split_is(none, '/', none);
    lemma_split_is(dot, '/', none);
    lemma_split_is(dots, '/', none);
    lemma_split_last(path, '/', name);
    lemma_split_last(path, '/', none);
    lemma_split_last(path, '/', dot);
    lemma_split_last(path, '/', dots);
    assert(path + seq!['/'] + none == path + seq!['/']);
    let parts = split(path, '/');
    assert(parts.push(none).drop_last() == parts);
    assert(parts.push(dot).drop_last() == parts);
    assert(dots.len() == 2 && dots != dot);
    let empty = Seq::<Seq<char>>::empty();
    assert(last_part(empty) is None);
    assert(seq![none].drop_last() == empty);
    assert(seq![dot].drop_last() == empty);
    assert(seq![name].last() == name);
    assert(seq![dots].last() == dots);
}

/// The stem of a path is that of the name it leads to, whole; where it leads to none, it is
/// `Phone Upload`.
pub proof fn lemma_stem_or_default_is(path: Seq<char>)
    ensures
        file_name(path) matches Some(name) ==> stem_or_default(path) == stem(name),
        file_name(path) is None ==> stem_or_default(path) == "Phone Upload"@,
{
}

/// Turning `\` into `/` changes no other character.
pub proof fn lemma_slashed_is(path: Seq<char>)
    ensures
        slashed(path).len() == path.len(),
        forall|i: int|
            0 <= i < path.len() ==> #[trigger] slashed(path)[i] == if path[i] == '\\' {
                '/'
            } else {
                path[i]
            },
{
}

/// A stored name is `phone_`, the stamp, an underscore and the whole of the name it was given.
pub proof fn lemma_stored_name_is(stamp: Seq<char>, original: Seq<char>)
    ensures
        ({
            let name = stored_name(stamp, original);
            let n = stamp.len() as int;
            &&& name.len() == 7 + n + original.len()
            &&& name.take(6) == seq!['p', 'h', 'o', 'n', 'e', '_']
            &&& name.subrange(6, 6 + n) == stamp
            &&& name[6 + n] == '_'
            &&& name.skip(7 + n) == original
        }),
{
    reveal_strlit("phone_");
    reveal_strlit("_");
    let name = stored_name(stamp, original);
    let n = stamp.len() as int;
    assert(name.take(6) == seq!['p', 'h', 'o', 'n', 'e', '_']);
    assert(name.subrange(6, 6 + n) == stamp);
    assert(name.skip(7 + n) == original);
}

/// Whatever stands between spaces and full stops, and neither begins nor ends with one, keeps its
/// length, and each of its characters is the same or, where a file name does not keep it, an
/// underscore.
pub proof fn lemma_sanitized_between(before: Seq<char>, core: Seq<char>, after: Seq<char>)
    requires
        forall|i: int| 0 <= i < before.len() ==> #[trigger] before[i] == ' ' || before[i] == '.',
        forall|i: int| 0 <= i < after.len() ==> #[trigger] after[i] == ' ' || after[i] == '.',
        core.len() > 0 ==> core[0] != ' ' && core[0] != '.' && core[core.len() - 1] != ' '
            && core[core.len() - 1] != '.',
    ensures
        sanitized(before + core + after).len() == core.len(),
        forall|i: int|
            0 <= i < core.len() ==> #[trigger] sanitized(before + core + after)[i] == if is_kept(
                core[i],
            ) {
                core[i]
            } else {
                '_'
            },
{
    let s = before + core + after;
    let a = before.len() as int;
    let b = a + core.len();
    let name = Seq::new(core.len(), |i: int| if is_kept(core[i]) { core[i] } else { '_' });
    assert forall|i: int| 0 <= i < a implies #[trigger] s[i] == ' ' || s[i] == '.' by {
        assert(s[i] == before[i]);
    }
    assert forall|i: int| b <= i < s.len() implies #[trigger] s[i] == ' ' || s[i] == '.' by {
        assert(s[i] == after[i - b]);
    }
    assert forall|i: int| 0 <= i < name.len() implies #[trigger] name[i] == if is_kept(s[a + i]) {
        s[a + i]
    } else {
        '_'
    } by {
        assert(s[a + i] == core[i]);
    }
    if core.len() > 0 {
        assert(s[a] == core[0] && s[b - 1] == core[core.len() - 1]);
    }
    assert(is_name_core_at(s, a, b, name));
    lemma_name_core_is_sanitized(s, a, b, name);
}

/// A path that begins neither with two separators nor with a character and a colon is read in one of
/// two ways, and in one alone where it holds no `\`.
pub proof fn lemma_readings_are(path: Seq<char>, part: Option<Seq<char>>)
    requires
        path.len() >= 2 ==> path[1] != ':',
        path.len() >= 2 ==> !((path[0] == '/' || path[0] == '\\') && (path[1] == '/' || path[1]
            == '\\')),
        is_file_stem(path, part),
    ensures
        has_no_prefix(path),
        part == file_stem(path) || part == file_stem(slashed(path)),
        !path.contains('\\') ==> is_portable(path) && part == file_stem(path),
{
    assert(path.skip(0) == path);
    if !path.contains('\\') {
        assert forall|i: int| 0 <= i < path.len() implies slashed(path)[i] == path[i] by {
            assert(path.contains(path[i]));
        }
        assert(slashed(path) == path);
    }
}

} // verus!
