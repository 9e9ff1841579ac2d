//! The head of an HTTP request: its end among the bytes received, and what it says.
use crate::query::text_map;
use crate::text::{
    ascii_lowered, chars_of, copy_range, first_index, from_utf8_lossy, is_white_space,
    lemma_first_index, lemma_first_index_is, lemma_lossy_text_is, lemma_words_are, lines, lines_of,
    lossy_text, lower_chars, repaired_utf8, split_chars_once, split_once, text_of, texts,
    trim_chars, trimmed_text, words, words_of, TrimSet,
};
use vstd::hash_map::StringHashMap;
use vstd::prelude::*;
use vstd::utf8::{encode_utf8, valid_utf8};

verus! {

/// The number of bytes that may come without the head's end among them.
pub const MAX_HEAD_BYTES: usize = 131072;

/// The number of bytes that are read at once while the head has not ended.
pub const HEAD_READ_BYTES: usize = 4096;

/// Why a request is given up without an answer.
#[derive(Debug, Clone, Copy, PartialEq, Eq, Structural)]
pub enum RequestError {
    /// The connection ended before the head did.
    ConnectionClosed,
    /// Too many bytes came without the head's end.
    HeadersTooLarge,
    /// The head is empty.
    MissingRequestLine,
    /// The first line holds no word.
    MissingMethod,
    /// The first line holds a single word.
    MissingPath,
    /// An upload gives no length that can be read.
    MissingContentLength,
    /// An upload ended before the length it gives.
    UploadCutShort,
}

impl RequestError {
    /// The error in words.
    pub open spec fn words(self) -> Seq<char> {
        match self {
            RequestError::ConnectionClosed =>
                "Connection closed before request headers were complete"@,
            RequestError::HeadersTooLarge => "Request headers too large"@,
            RequestError::MissingRequestLine => "Missing HTTP request line"@,
            RequestError::MissingMethod => "Missing HTTP method"@,
            RequestError::MissingPath => "Missing HTTP path"@,
            RequestError::MissingContentLength => "Missing Content-Length"@,
            RequestError::UploadCutShort =>
                "Upload ended before Content-Length bytes were received"@,
        }
    }

    /// The error in words.
    pub fn message(self) -> (text: String)
        ensures
            text@ == self.words(),
    {
        let text = match self {
            RequestError::ConnectionClosed =>
                "Connection closed before request headers were complete",
            RequestError::HeadersTooLarge => "Request headers too large",
            RequestError::MissingRequestLine => "Missing HTTP request line",
            RequestError::MissingMethod => "Missing HTTP method",
            RequestError::MissingPath => "Missing HTTP path",
            RequestError::MissingContentLength => "Missing Content-Length",
            RequestError::UploadCutShort =>
                "Upload ended before Content-Length bytes were received",
        };
        text.to_owned()
    }
}

// ---------------------------------------------------------------------------------------------
// Where the head ends.
// ---------------------------------------------------------------------------------------------

/// Whether an empty line stands at `at`: two carriage returns, each with a line feed.
pub open spec fn is_break_at(b: Seq<u8>, at: int) -> bool {
    &&& 0 <= at
    &&& at + 4 <= b.len()
    &&& b[at] == 0x0D
    &&& b[at + 1] == 0x0A
    &&& b[at + 2] == 0x0D
    &&& b[at + 3] == 0x0A
}

/// The first place at or behind `from` where an empty line stands.
pub open spec fn break_from(b: Seq<u8>, from: int) -> Option<int>
    decreases b.len() - from,
{
    if from + 4 > b.len() {
        None
    } else if is_break_at(b, from) {
        Some(from)
    } else {
        break_from(b, from + 1)
    }
}

/// The length of the head: where the first empty line stands.
pub open spec fn header_end(b: Seq<u8>) -> Option<int> {
    break_from(b, 0)
}

proof fn lemma_break_from(b: Seq<u8>, from: int)
    requires
        0 <= from,
    ensures
        match break_from(b, from) {
            Some(at) => from <= at && is_break_at(b, at) && forall|q: int|
                from <= q < at ==> !is_break_at(b, q),
            None => forall|q: int| from <= q ==> !is_break_at(b, q),
        },
    decreases b.len() - from,
{
    if from + 4 <= b.len() && !is_break_at(b, from) {
        lemma_break_from(b, from + 1);
    }
}

/// The head ends where an empty line stands and none stands before; it has no end where there is no
/// empty line.
pub proof fn lemma_header_end(b: Seq<u8>)
    ensures
        match header_end(b) {
            Some(at) => is_break_at(b, at) && forall|q: int| q < at ==> !is_break_at(b, q),
            None => forall|q: int| !is_break_at(b, q),
        },
{
    lemma_break_from(b, 0);
}

/// An empty line before which none stands is the head's end.
pub proof fn lemma_header_end_is(b: Seq<u8>, at: int)
    requires
        is_break_at(b, at),
        forall|q: int| 0 <= q < at ==> !is_break_at(b, q),
    ensures
        header_end(b) == Some(at),
{
    lemma_header_end(b);
}

/// The length of the head that `buffer` begins with, if its end is there.
pub fn find_header_end(buffer: &[u8]) -> (end: Option<usize>)
    ensures
        match end {
            Some(at) => header_end(buffer@) == Some(at as int) && at + 4 <= buffer@.len(),
            None => header_end(buffer@) is None,
        },
{
    let mut at: usize = 0;
    while buffer.len() - at >= 4
        invariant
            at <= buffer@.len(),
            break_from(buffer@, at as int) == header_end(buffer@),
        decreases buffer@.len() - at,
    {
        if buffer[at] == 0x0D && buffer[at + 1] == 0x0A && buffer[at + 2] == 0x0D && buffer[at + 3]
            == 0x0A {
            return Some(at);
        }
        at += 1;
    }
    None
}

// ---------------------------------------------------------------------------------------------
// What the head says.
// ---------------------------------------------------------------------------------------------

/// What a request's head says, and the bytes behind it.
#[verifier::ext_equal]
pub struct RequestHead {
    pub method: Seq<char>,
    pub path: Seq<char>,
    pub headers: Map<Seq<char>, Seq<char>>,
    pub body_start: Seq<u8>,
}

/// The head of a request, and the bytes of its body that came with it.
pub struct HttpRequestHead {
    pub method: String,
    pub path: String,
    pub headers: StringHashMap<String>,
    pub body_start: Vec<u8>,
}

impl View for HttpRequestHead {
    type V = RequestHead;

    open spec fn view(&self) -> RequestHead {
        RequestHead {
            method: self.method@,
            path: self.path@,
            headers: text_map(self.headers@),
            body_start: self.body_start@,
        }
    }
}

/// The part of a path before its first `?`.
pub open spec fn without_query(path: Seq<char>) -> Seq<char> {
    match split_once(path, '?') {
        Some((before, _)) => before,
        None => path,
    }
}

impl HttpRequestHead {
    /// The path without its query.
    pub fn path_without_query(&self) -> (path: String)
        ensures
            path@ == without_query(self.path@),
    {
        let chars = chars_of(self.path.as_str());
        match split_chars_once(chars.as_slice(), '?') {
            Some((before, _)) => text_of(before.as_slice()),
            None => self.path.clone(),
        }
    }
}

/// The headers in the lines of a head: a name before the line's first `:`, in lower case, and a
/// value behind it, each without the white space around it. Lines without one hold no header, and
/// the last of several headers of one name counts.
pub open spec fn headers_map(rows: Seq<Seq<char>>) -> Map<Seq<char>, Seq<char>>
    decreases rows.len(),
{
    if rows.len() == 0 {
        Map::empty()
    } else {
        let before = headers_map(rows.drop_last());
        match split_once(rows.last(), ':') {
            Some((name, value)) => before.insert(
                ascii_lowered(trimmed_text(name)),
                trimmed_text(value),
            ),
            None => before,
        }
    }
}

/// What the text of a head says: the first line's first word is the method and its second the path,
/// and the other lines hold the headers.
pub open spec fn parsed_head(text: Seq<char>, body_start: Seq<u8>) -> Result<
    RequestHead,
    RequestError,
> {
    let rows = lines(text);
    if rows.len() == 0 {
        Err(RequestError::MissingRequestLine)
    } else {
        let first = words(rows[0]);
        if first.len() == 0 {
            Err(RequestError::MissingMethod)
        } else if first.len() == 1 {
            Err(RequestError::MissingPath)
        } else {
            Ok(
                RequestHead {
                    method: first[0],
                    path: first[1],
                    headers: headers_map(rows.skip(1)),
                    body_start,
                },
            )
        }
    }
}

/// The model of what reading a head gave.
pub open spec fn head_result(result: Result<HttpRequestHead, RequestError>) -> Result<
    RequestHead,
    RequestError,
> {
    match result {
        Ok(head) => Ok(head@),
        Err(error) => Err(error),
    }
}

/// The headers in the lines of a head behind its first.
fn headers_of(rows: &Vec<Vec<char>>) -> (headers: StringHashMap<String>)
    requires
        rows@.len() > 0,
    ensures
        text_map(headers@) == headers_map(texts(rows@).skip(1)),
{
    let mut headers: StringHashMap<String> = StringHashMap::new();
    let ghost all = texts(rows@).skip(1);
    assert(text_map(headers@) == Map::<Seq<char>, Seq<char>>::empty());
    for i in 1..rows.len()
        invariant
            rows@.len() > 0,
            all == texts(rows@).skip(1),
            text_map(headers@) == headers_map(all.take(i - 1)),
    {
        let row = &rows[i];
        let ghost before = headers@;
        proof {
            assert(all.take(i as int).drop_last() == all.take(i - 1));
            assert(all.take(i as int).last() == row@);
        }
        if let Some((name, value)) = split_chars_once(row.as_slice(), ':') {
            let bare_name = trim_chars(TrimSet::WhiteSpace, name.as_slice());
            let low_name = lower_chars(bare_name.as_slice());
            let bare_value = trim_chars(TrimSet::WhiteSpace, value.as_slice());
            let key = text_of(low_name.as_slice());
            let text = text_of(bare_value.as_slice());
            headers.insert(key, text);
            assert(text_map(headers@) == text_map(before).insert(key@, text@));
        }
    }
    assert(all.take(rows@.len() - 1) == all);
    headers
}

/// What the text of a head says; `body_start` is handed on.
pub fn parse_request_head(text: &str, body_start: Vec<u8>) -> (result: Result<
    HttpRequestHead,
    RequestError,
>)
    ensures
        head_result(result) == parsed_head(text@, body_start@),
{
    let chars = chars_of(text);
    let rows = lines_of(chars.as_slice());
    if rows.len() == 0 {
        assert(lines(text@).len() == 0);
        return Err(RequestError::MissingRequestLine);
    }
    assert(texts(rows@)[0] == rows@[0]@);
    let first = words_of(rows[0].as_slice());
    assert(texts(first@) == words(lines(text@)[0]));
    if first.len() == 0 {
        return Err(RequestError::MissingMethod);
    }
    if first.len() == 1 {
        return Err(RequestError::MissingPath);
    }
    assert(texts(first@)[0] == first@[0]@);
    assert(texts(first@)[1] == first@[1]@);
    let method = text_of(first[0].as_slice());
    let path = text_of(first[1].as_slice());
    let headers = headers_of(&rows);
    Ok(HttpRequestHead { method, path, headers, body_start })
}

// ---------------------------------------------------------------------------------------------
// Reading a head piece by piece.
// ---------------------------------------------------------------------------------------------

/// What the bytes received so far amount to: a head, once its end is among them; an error, where it
/// cannot be read or does not end in time; and otherwise nothing yet.
pub open spec fn head_so_far(seen: Seq<u8>) -> Result<Option<RequestHead>, RequestError> {
    match header_end(seen) {
        Some(at) => match parsed_head(lossy_text(seen.take(at)), seen.skip(at + 4)) {
            Ok(head) => Ok(Some(head)),
            Err(error) => Err(error),
        },
        None => if seen.len() > MAX_HEAD_BYTES {
            Err(RequestError::HeadersTooLarge)
        } else {
            Ok(None)
        },
    }
}

/// The bytes of a request received so far.
pub struct RequestReader {
    pub buffer: Vec<u8>,
}

impl View for RequestReader {
    type V = Seq<u8>;

    open spec fn view(&self) -> Seq<u8> {
        self.buffer@
    }
}

impl RequestReader {
    /// A reader that has received nothing.
    pub fn new() -> (reader: RequestReader)
        ensures
            reader@ == Seq::<u8>::empty(),
    {
        RequestReader { buffer: Vec::new() }
    }

    /// Takes the next bytes of the connection, and gives the head once it is complete. No bytes
    /// mean that the connection has ended.
    pub fn read_request_head(&mut self, chunk: &[u8]) -> (step: Result<
        Option<HttpRequestHead>,
        RequestError,
    >)
        ensures
            final(self)@ == old(self)@ + chunk@,
            chunk@.len() == 0 ==> step == Err::<Option<HttpRequestHead>, RequestError>(
                RequestError::ConnectionClosed,
            ),
            chunk@.len() > 0 ==> match step {
                Ok(Some(head)) => head_so_far(final(self)@) == Ok::<
                    Option<RequestHead>,
                    RequestError,
                >(Some(head@)),
                Ok(None) => head_so_far(final(self)@) == Ok::<Option<RequestHead>, RequestError>(
                    None,
                ),
                Err(error) => head_so_far(final(self)@) == Err::<
                    Option<RequestHead>,
                    RequestError,
                >(error),
            },
            head_so_far(old(self)@) == Ok::<Option<RequestHead>, RequestError>(None)
                && chunk@.len() <= HEAD_READ_BYTES ==> final(self)@.len() <= MAX_HEAD_BYTES
                + HEAD_READ_BYTES,
    {
        if chunk.len() == 0 {
            assert(self@ + chunk@ == self@);
            return Err(RequestError::ConnectionClosed);
        }
        self.buffer.extend_from_slice(chunk);
        let buffer = self.buffer.as_slice();
        let len: usize = buffer.len();
        match find_header_end(buffer) {
            Some(at) => {
                let head_bytes = copy_range(buffer, 0, at);
                let body_start = copy_range(buffer, at + 4, len);
                assert(head_bytes@ == self@.take(at as int));
                assert(body_start@ == self@.skip(at + 4));
                let text = from_utf8_lossy(head_bytes.as_slice());
                match parse_request_head(text.as_str(), body_start) {
                    Ok(head) => Ok(Some(head)),
                    Err(error) => Err(error),
                }
            },
            None => if len > MAX_HEAD_BYTES {
                Err(RequestError::HeadersTooLarge)
            } else {
                Ok(None)
            },
        }
    }
}

// ---------------------------------------------------------------------------------------------
// Laws.
// ---------------------------------------------------------------------------------------------

/// A head that ends among some bytes ends at the same place when more bytes follow.
pub proof fn lemma_header_end_stays(seen: Seq<u8>, more: Seq<u8>)
    requires
        header_end(seen) is Some,
    ensures
        header_end(seen + more) == header_end(seen),
{
    lemma_header_end(seen);
    let at = header_end(seen)->0;
    let all = seen + more;
    assert(is_break_at(all, at));
    assert forall|q: int| 0 <= q < at implies !is_break_at(all, q) by {
        assert(!is_break_at(seen, q));
        assert(all[q] == seen[q] && all[q + 1] == seen[q + 1]);
        assert(all[q + 2] == seen[q + 2] && all[q + 3] == seen[q + 3]);
    }
    lemma_header_end_is(all, at);
}

/// However the bytes of a request are cut into pieces, its head is read the same: once the head has
/// been read, or found faulty, more bytes would have changed nothing but to stand behind the bytes
/// of the body that came with it.
pub proof fn lemma_head_independent_of_pieces(seen: Seq<u8>, more: Seq<u8>)
    requires
        header_end(seen) is Some,
    ensures
        match head_so_far(seen) {
            Ok(Some(head)) => head_so_far(seen + more) == Ok::<Option<RequestHead>, RequestError>(
                Some(RequestHead { body_start: head.body_start + more, ..head }),
            ),
            Ok(None) => false,
            Err(error) => head_so_far(seen + more) == Err::<Option<RequestHead>, RequestError>(
                error,
            ),
        },
{
    lemma_header_end(seen);
    lemma_header_end_stays(seen, more);
    let at = header_end(seen)->0;
    assert((seen + more).take(at) == seen.take(at));
    assert((seen + more).skip(at + 4) == seen.skip(at + 4) + more);
}

/// A head that ends in time is never refused as too large, however its bytes are cut into pieces.
pub proof fn lemma_head_in_time_is_not_too_large(stream: Seq<u8>, received: int)
    requires
        header_end(stream) matches Some(at) && at + 4 <= MAX_HEAD_BYTES,
        0 <= received <= stream.len(),
    ensures
        head_so_far(stream.take(received)) != Err::<Option<RequestHead>, RequestError>(
            RequestError::HeadersTooLarge,
        ),
{
    let at = header_end(stream)->0;
    let seen = stream.take(received);
    lemma_header_end(stream);
    lemma_header_end(seen);
    if received > MAX_HEAD_BYTES {
        assert(is_break_at(seen, at));
    }
}

/// However long a request is, no more than so many bytes of it are read before its head is read or
/// given up, where each piece is read only because those before it did not settle it.
pub proof fn lemma_bytes_read_are_bounded(pieces: Seq<Seq<u8>>)
    requires
        forall|i: int| 0 <= i < pieces.len() ==> (#[trigger] pieces[i]).len() <= HEAD_READ_BYTES,
        forall|i: int|
            0 <= i < pieces.len() ==> head_so_far(#[trigger] pieces.take(i).flatten()) == Ok::<
                Option<RequestHead>,
                RequestError,
            >(None),
    ensures
        pieces.flatten().len() <= MAX_HEAD_BYTES + HEAD_READ_BYTES,
{
    if pieces.len() > 0 {
        let n = pieces.len() - 1;
        assert(pieces.take(n) == pieces.drop_last());
        assert(head_so_far(pieces.take(n).flatten()) == Ok::<Option<RequestHead>, RequestError>(
            None,
        ));
        assert(pieces[n].len() <= HEAD_READ_BYTES);
        pieces.lemma_flatten_and_flatten_alt_are_equivalent();
        pieces.drop_last().lemma_flatten_and_flatten_alt_are_equivalent();
    }
}

/// The head and the bytes of the body that came with it are all that was received, with the empty
/// line between them.
pub proof fn lemma_head_and_body_are_all(seen: Seq<u8>)
    ensures
        head_so_far(seen) matches Ok(Some(head)) ==> {
            &&& header_end(seen) is Some
            &&& seen == seen.take(header_end(seen)->0) + seq![0x0Du8, 0x0A, 0x0D, 0x0A]
                + head.body_start
        },
{
    lemma_header_end(seen);
}

/// A path is its part before the query, or that part, a `?` and the query; and the part before the
/// query holds no `?`.
pub proof fn lemma_without_query(path: Seq<char>)
    ensures
        !without_query(path).contains('?'),
        path.contains('?') ==> exists|query: Seq<char>|
            path == without_query(path) + seq!['?'] + query,
        !path.contains('?') ==> without_query(path) == path,
{
    lemma_first_index(path, '?');
    let k = first_index(path, '?');
    if k < path.len() {
        assert(path == path.take(k) + seq!['?'] + path.skip(k + 1));
    }
}

proof fn lemma_lowered_twice(s: Seq<char>)
    ensures
        ascii_lowered(ascii_lowered(s)) == ascii_lowered(s),
{
}

/// Header names are found in lower case, however they were written.
pub proof fn lemma_header_names_are_lower(rows: Seq<Seq<char>>)
    ensures
        forall|name: Seq<char>| #[trigger]
            headers_map(rows).contains_key(name) ==> ascii_lowered(name) == name,
    decreases rows.len(),
{
    if rows.len() > 0 {
        let before = headers_map(rows.drop_last());
        lemma_header_names_are_lower(rows.drop_last());
        assert forall|name: Seq<char>| #[trigger]
            headers_map(rows).contains_key(name) implies ascii_lowered(name) == name by {
            if !before.contains_key(name) {
                let (written, _) = split_once(rows.last(), ':')->0;
                lemma_lowered_twice(trimmed_text(written));
            }
        }
    }
}

/// The head ends at a place exactly where the four bytes of an empty line stand there and nowhere
/// before; and nowhere, where they stand nowhere.
pub proof fn lemma_header_end_stands(b: Seq<u8>, at: int)
    ensures
        header_end(b) == Some(at) <==> {
            &&& 0 <= at
            &&& at + 4 <= b.len()
            &&& b.subrange(at, at + 4) == seq![13u8, 10, 13, 10]
            &&& forall|q: int, end: int|
                0 <= q < at && end == q + 4 ==> #[trigger] b.subrange(q, end) != seq![
                    13u8,
                    10,
                    13,
                    10,
                ]
        },
{
    lemma_header_end(b);
    let four = seq![13u8, 10, 13, 10];
    assert forall|q: int, end: int| 0 <= q && end == q + 4 && end <= b.len() implies (
    #[trigger] b.subrange(q, end) == four) == is_break_at(b, q) by {
        let part = b.subrange(q, end);
        assert(part[0] == b[q] && part[1] == b[q + 1] && part[2] == b[q + 2] && part[3] == b[q
            + 3]);
        if is_break_at(b, q) {
            assert(part =~= four);
        }
    }
    if header_end(b) == Some(at) {
        assert(b.subrange(at, at + 4) == four);
        assert forall|q: int, end: int| 0 <= q < at && end == q + 4 implies #[trigger] b.subrange(
            q,
            end,
        ) != four by {
            assert(!is_break_at(b, q));
        }
    }
    if 0 <= at && at + 4 <= b.len() && b.subrange(at, at + 4) == four && (forall|q: int, end: int|
        0 <= q < at && end == q + 4 ==> #[trigger] b.subrange(q, end) != four) {
        assert(is_break_at(b, at));
        assert forall|q: int| 0 <= q < at implies !is_break_at(b, q) by {
            assert(b.subrange(q, q + 4) != four);
        }
        lemma_header_end_is(b, at);
    }
}

/// A line with a `:` gives the name before its first one, in lower case and without white space
/// around it, the value behind it, without white space around it; every other header stays as it
/// was. A line without one gives nothing.
pub proof fn lemma_header_line_is(rows: Seq<Seq<char>>, name: Seq<char>, value: Seq<char>)
    requires
        !name.contains(':'),
    ensures
        headers_map(Seq::empty()) == Map::<Seq<char>, Seq<char>>::empty(),
        headers_map(rows.push(name + seq![':'] + value)) == headers_map(rows).insert(
            ascii_lowered(trimmed_text(name)),
            trimmed_text(value),
        ),
        headers_map(rows.push(name)) == headers_map(rows),
{
    let row = name + seq![':'] + value;
    let k = name.len() as int;
    assert forall|i: int| 0 <= i < k implies row[i] != ':' by {
        assert(row[i] == name[i]);
        assert(name.contains(name[i]));
    }
    assert(row[k] == ':');
    lemma_first_index_is(row, ':', k);
    lemma_first_index(name, ':');
    assert(row.take(k) == name);
    assert(row.skip(k + 1) == value);
    assert(rows.push(row).drop_last() == rows);
    assert(rows.push(name).drop_last() == rows);
}

/// Whether every character of `s` is white space.
pub open spec fn is_blank(s: Seq<char>) -> bool {
    forall|i: int| 0 <= i < s.len() ==> is_white_space(#[trigger] s[i])
}

/// Whether `s` is one word: not empty, and without white space.
pub open spec fn is_one_word(s: Seq<char>) -> bool {
    s.len() > 0 && forall|i: int| 0 <= i < s.len() ==> !is_white_space(#[trigger] s[i])
}

/// Two words in the first line, however much white space stands around them and whatever follows,
/// are the method and the path; the lines behind it hold the headers.
pub proof fn lemma_parsed_head_is(
    text: Seq<char>,
    body_start: Seq<u8>,
    before: Seq<char>,
    method: Seq<char>,
    between: Seq<char>,
    path: Seq<char>,
    rest: Seq<char>,
)
    requires
        lines(text).len() > 0,
        lines(text)[0] == before + method + between + path + rest,
        is_blank(before),
        is_one_word(method),
        is_blank(between),
        between.len() > 0,
        is_one_word(path),
        rest.len() > 0 ==> is_white_space(rest[0]),
    ensures
        parsed_head(text, body_start) == Ok::<RequestHead, RequestError>(
            RequestHead { method, path, headers: headers_map(lines(text).skip(1)), body_start },
        ),
{
    let tail = between + path + rest;
    assert(tail[0] == between[0]);
    lemma_words_are(before, method, tail);
    lemma_words_are(between, path, rest);
    assert(before + method + between + path + rest == before + method + tail);
    let found = seq![method] + (seq![path] + words(rest));
    assert(words(lines(text)[0]) == found);
    assert(found[0] == method && found[1] == path);
}

/// A head without a line, without a word in its first line, or with a single one, is refused.
pub proof fn lemma_faulty_head_is(
    text: Seq<char>,
    body_start: Seq<u8>,
    before: Seq<char>,
    method: Seq<char>,
    behind: Seq<char>,
)
    requires
        is_blank(before),
        is_one_word(method),
        is_blank(behind),
    ensures
        text.len() == 0 ==> parsed_head(text, body_start) == Err::<RequestHead, RequestError>(
            RequestError::MissingRequestLine,
        ),
        lines(text).len() > 0 && lines(text)[0] == before ==> parsed_head(text, body_start) == Err::<
            RequestHead,
            RequestError,
        >(RequestError::MissingMethod),
        lines(text).len() > 0 && lines(text)[0] == before + method + behind ==> parsed_head(
            text,
            body_start,
        ) == Err::<RequestHead, RequestError>(RequestError::MissingPath),
{
    lemma_words_are(before, method, behind);
    lemma_words_are(behind, method, Seq::empty());
    assert(seq![method] + Seq::<Seq<char>>::empty() == seq![method]);
}

/// A head that has come is what its text says, with the bytes behind it, however long it is. One that
/// has not is waited for until more than 131072 bytes have come.
pub proof fn lemma_head_so_far_is(seen: Seq<u8>, at: int, text: Seq<char>)
    ensures
        header_end(seen) == Some(at) && seen.take(at) == encode_utf8(text) ==> match parsed_head(
            text,
            seen.skip(at + 4),
        ) {
            Ok(head) => head_so_far(seen) == Ok::<Option<RequestHead>, RequestError>(Some(head)),
            Err(error) => head_so_far(seen) == Err::<Option<RequestHead>, RequestError>(error),
        },
        header_end(seen) == Some(at) && !valid_utf8(seen.take(at)) ==> match parsed_head(
            repaired_utf8(seen.take(at)),
            seen.skip(at + 4),
        ) {
            Ok(head) => head_so_far(seen) == Ok::<Option<RequestHead>, RequestError>(Some(head)),
            Err(error) => head_so_far(seen) == Err::<Option<RequestHead>, RequestError>(error),
        },
        header_end(seen) is None && seen.len() <= 131072 ==> head_so_far(seen) == Ok::<
            Option<RequestHead>,
            RequestError,
        >(None),
        header_end(seen) is None && seen.len() > 131072 ==> head_so_far(seen) == Err::<
            Option<RequestHead>,
            RequestError,
        >(RequestError::HeadersTooLarge),
{
    lemma_lossy_text_is(text, seen.take(at));
}

/// The head of a request stands for its own fields.
pub proof fn lemma_head_view_is(head: HttpRequestHead, reader: RequestReader)
    ensures
        head@.method == head.method@,
        head@.path == head.path@,
        head@.body_start == head.body_start@,
        head@.headers.dom() == head.headers@.dom(),
        forall|name: Seq<char>| #[trigger]
            head.headers@.contains_key(name) ==> head@.headers[name] == head.headers@[name]@,
        head_result(Ok::<HttpRequestHead, RequestError>(head)) == Ok::<RequestHead, RequestError>(
            head@,
        ),
        forall|error: RequestError| #[trigger]
            head_result(Err::<HttpRequestHead, RequestError>(error)) == Err::<
                RequestHead,
                RequestError,
            >(error),
        reader@ == reader.buffer@,
{
}

} // verus!
