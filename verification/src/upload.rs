//! Receiving an upload: what its request asks for, and how its bytes come in.
use crate::decimal::{parse_usize, parsed_usize};
use crate::filename::{
    filename_stem, is_kept, is_name_core_at, is_plain_file_name, is_safe_name, is_utc_stamp,
    lemma_safe_name_is_plain, lemma_sanitized_between, lemma_sanitized_is_safe,
    lemma_sanitized_keeps,
    lemma_stem_is_not_empty, lemma_stem_of_plain_name, lemma_stored_name_is_plain,
    sanitize_filename, sanitized, stem, stem_or_default, stored_name,
};
use crate::query::{query_map, query_params};
use crate::request::{HttpRequestHead, RequestError, RequestHead};
use crate::response::{text_response, HttpResponse, Response};
use crate::text::{
    chars_of, copy_range, is_core_at, is_white_space, lemma_trim_set_is,
    lemma_trim_takes_the_set_alone, lemma_trimmed_text_between, lemma_trimmed_to_nothing, trim,
    trimmed_text, TrimSet,
};
use vstd::prelude::*;
use vstd::utf8::encode_utf8;

verus! {

/// The number of bytes that are read at once.
pub const READ_BYTES: usize = 65536;

/// What is known of an upload that has been received.
#[derive(Debug, Clone)]
pub struct PhoneUploadReceived {
    pub path: String,
    pub filename: String,
    pub title: String,
    pub size_bytes: u64,
}

/// An upload that a request asks for.
pub struct UploadPlan {
    pub content_length: usize,
    pub filename: String,
    pub title: String,
}

/// What is done about a request to upload.
pub enum UploadDecision {
    /// The response is sent, and the connection ends.
    Reject(HttpResponse),
    /// The upload is received.
    Accept(UploadPlan),
}

/// An upload that a request asks for, as a model.
#[verifier::ext_equal]
pub struct Plan {
    pub content_length: nat,
    pub filename: Seq<char>,
    pub title: Seq<char>,
}

/// What is done about a request to upload, as a model.
pub enum Decision {
    Reject(Response),
    Accept(Plan),
}

impl View for UploadPlan {
    type V = Plan;

    open spec fn view(&self) -> Plan {
        Plan {
            content_length: self.content_length as nat,
            filename: self.filename@,
            title: self.title@,
        }
    }
}

impl View for UploadDecision {
    type V = Decision;

    open spec fn view(&self) -> Decision {
        match *self {
            UploadDecision::Reject(response) => Decision::Reject(response@),
            UploadDecision::Accept(plan) => Decision::Accept(plan@),
        }
    }
}

/// The length that the headers give for the body.
pub open spec fn content_length(headers: Map<Seq<char>, Seq<char>>) -> Option<nat> {
    if headers.contains_key("content-length"@) {
        parsed_usize(headers["content-length"@])
    } else {
        None
    }
}

/// The name of the uploaded file: the field `filename`, made safe, where anything is left of it.
pub open spec fn upload_filename(params: Map<Seq<char>, Seq<char>>) -> Seq<char> {
    if params.contains_key("filename"@) && sanitized(params["filename"@]).len() > 0 {
        sanitized(params["filename"@])
    } else {
        "voice-memo.m4a"@
    }
}

/// The title of the upload: the field `title`, trimmed, where anything is left of it, and otherwise
/// the stem of the file's name.
pub open spec fn upload_title(params: Map<Seq<char>, Seq<char>>) -> Seq<char> {
    if params.contains_key("title"@) && trimmed_text(params["title"@]).len() > 0 {
        trimmed_text(params["title"@])
    } else {
        stem_or_default(upload_filename(params))
    }
}

/// The response to an upload of no bytes.
pub open spec fn empty_upload() -> Response {
    text_response(400, "text/plain"@, "Empty upload"@)
}

/// What is done about a request to upload.
pub open spec fn decision_for(head: RequestHead) -> Result<Decision, RequestError> {
    let params = query_map(head.path);
    match content_length(head.headers) {
        None => Err(RequestError::MissingContentLength),
        Some(n) => if n == 0 {
            Ok(Decision::Reject(empty_upload()))
        } else {
            Ok(
                Decision::Accept(
                    Plan {
                        content_length: n,
                        filename: upload_filename(params),
                        title: upload_title(params),
                    },
                ),
            )
        },
    }
}

/// What is done about a request to upload.
pub fn handle_upload(request: &HttpRequestHead) -> (decision: Result<UploadDecision, RequestError>)
    ensures
        match decision {
            Ok(value) => decision_for(request@) == Ok::<Decision, RequestError>(value@),
            Err(error) => decision_for(request@) == Err::<Decision, RequestError>(error),
        },
{
    let length = match request.headers.get("content-length") {
        Some(value) => {
            let chars = chars_of(value.as_str());
            parse_usize(chars.as_slice())
        },
        None => None,
    };
    let content_length = match length {
        Some(n) => n,
        None => {
            return Err(RequestError::MissingContentLength);
        },
    };
    if content_length == 0 {
        return Ok(
            UploadDecision::Reject(HttpResponse::text(400, "text/plain", "Empty upload")),
        );
    }
    let params = query_params(request.path.as_str());
    let given_name = match params.get("filename") {
        Some(value) => sanitize_filename(value.as_str()),
        None => String::new(),
    };
    let filename = if given_name.as_str().is_empty() {
        "voice-memo.m4a".to_owned()
    } else {
        given_name
    };
    assert(filename@ == upload_filename(query_map(request.path@)));
    let given_title = match params.get("title") {
        Some(value) => trim(value.as_str()),
        None => String::new(),
    };
    proof {
        lemma_upload_name_is_plain(query_map(request.path@));
        lemma_stem_of_plain_name(filename@);
    }
    let title = if given_title.as_str().is_empty() {
        filename_stem(filename.as_str())
    } else {
        given_title
    };
    assert(title@ == upload_title(query_map(request.path@)));
    Ok(UploadDecision::Accept(UploadPlan { content_length, filename, title }))
}

// ---------------------------------------------------------------------------------------------
// The bytes of an upload.
// ---------------------------------------------------------------------------------------------

/// The lesser of two numbers.
pub open spec fn lesser(a: int, b: int) -> int {
    if a <= b {
        a
    } else {
        b
    }
}

/// How far an upload has come.
#[derive(Debug, Clone, Copy, PartialEq, Eq, Structural)]
pub struct UploadTransfer {
    content_length: usize,
    written: usize,
}

impl UploadTransfer {
    /// The bytes that the whole upload has.
    pub closed spec fn total(self) -> int {
        self.content_length as int
    }

    /// The bytes that have been written.
    pub closed spec fn done(self) -> int {
        self.written as int
    }

    /// The upload has not gone beyond its end.
    pub open spec fn wf(self) -> bool {
        0 <= self.done() <= self.total() <= usize::MAX
    }

    /// Starts an upload of `content_length` bytes, of which those in `body_start` have come with
    /// the head. Gives the number of them that belong to the upload and are written first.
    pub fn begin(content_length: usize, body_start: &[u8]) -> (start: (UploadTransfer, usize))
        ensures
            start.0.wf(),
            start.0.total() == content_length,
            start.0.done() == lesser(body_start@.len() as int, content_length as int),
            start.1 == start.0.done(),
    {
        let first: usize = if body_start.len() <= content_length {
            body_start.len()
        } else {
            content_length
        };
        (UploadTransfer { content_length, written: first }, first)
    }

    /// How many bytes may be read next; nothing, once the upload is complete.
    pub fn next_read(&self) -> (limit: Option<usize>)
        requires
            self.wf(),
        ensures
            match limit {
                Some(n) => self.done() < self.total() && n == lesser(
                    READ_BYTES as int,
                    self.total() - self.done(),
                ),
                None => self.done() == self.total(),
            },
    {
        if self.written < self.content_length {
            let remaining: usize = self.content_length - self.written;
            if READ_BYTES <= remaining {
                Some(READ_BYTES)
            } else {
                Some(remaining)
            }
        } else {
            None
        }
    }

    /// Takes account of `n` bytes that were read and written. No bytes mean that the connection has
    /// ended before the upload did.
    pub fn receive(&mut self, n: usize) -> (result: Result<(), RequestError>)
        requires
            old(self).wf(),
            old(self).done() < old(self).total(),
            n <= old(self).total() - old(self).done(),
        ensures
            final(self).wf(),
            final(self).total() == old(self).total(),
            final(self).done() == old(self).done() + n,
            n == 0 ==> result == Err::<(), RequestError>(RequestError::UploadCutShort),
            n > 0 ==> result is Ok,
    {
        if n == 0 {
            return Err(RequestError::UploadCutShort);
        }
        self.written = self.written + n;
        Ok(())
    }

    /// What is known of the upload, stored at `path`, now that as much of it has come.
    pub fn received(&self, plan: UploadPlan, path: String) -> (upload: PhoneUploadReceived)
        ensures
            upload.path == path,
            upload.filename == plan.filename,
            upload.title == plan.title,
            upload.size_bytes == self.done(),
    {
        PhoneUploadReceived {
            path,
            filename: plan.filename,
            title: plan.title,
            size_bytes: self.written as u64,
        }
    }
}

/// The response to an upload that was received, as a model; `json` tells of it.
pub open spec fn upload_done(json: Seq<u8>) -> Response {
    Response { status: 200, content_type: "application/json"@, body: json }
}

/// The response to an upload that was received; `json` tells of it.
pub fn upload_response(json: Vec<u8>) -> (response: HttpResponse)
    ensures
        response@ == upload_done(json@),
{
    HttpResponse { status: 200, content_type: "application/json".to_owned(), body: json }
}

/// Receives an upload of `content_length` bytes from a connection that has brought `body_start` with
/// the head, brings `stream` behind it, and then ends. `sizes` are the numbers of bytes that the
/// connection gives at each read, as far as it may and has them; behind the last of them, and where
/// one is zero, it gives all that it may. What is written does not depend on them: it is as much of
/// what the connection brings as the upload has, and all of it where that is too little, which is an
/// error.
pub fn store_upload(content_length: usize, body_start: &[u8], stream: &[u8], sizes: &[usize]) -> (
stored: (Vec<u8>, Result<(), RequestError>))
    ensures
        ({
            let brought = body_start@ + stream@;
            if content_length <= brought.len() {
                &&& stored.1 is Ok
                &&& stored.0@ == brought.take(content_length as int)
            } else {
                &&& stored.1 == Err::<(), RequestError>(RequestError::UploadCutShort)
                &&& stored.0@ == brought
            }
        }),
        exists|pieces: Seq<Seq<u8>>|
            {
                &&& #[trigger] pieces_fit(
                    content_length as int,
                    lesser(body_start@.len() as int, content_length as int),
                    pieces,
                )
                &&& stored.0@ == stored_bytes(content_length as int, body_start@, pieces)
            },
{
    let (mut transfer, first) = UploadTransfer::begin(content_length, body_start);
    let mut file = copy_range(body_start, 0, first);
    let ghost total = content_length as int;
    let ghost mut pieces: Seq<Seq<u8>> = Seq::empty();
    let mut at: usize = 0;
    let mut reads: usize = 0;
    assert(body_start@.take(first as int) == file@);
    assert(stored_bytes(total, body_start@, pieces) == file@);
    assert(stream@.take(0) == Seq::<u8>::empty());
    loop
        invariant
            transfer.wf(),
            transfer.total() == total,
            total == content_length,
            first == lesser(body_start@.len() as int, total),
            at <= stream@.len(),
            reads <= sizes@.len(),
            transfer.done() == first + at,
            pieces.flatten() == stream@.take(at as int),
            pieces_fit(total, first as int, pieces),
            file@ == stored_bytes(total, body_start@, pieces),
        decreases total - transfer.done(),
    {
        let limit = match transfer.next_read() {
            Some(limit) => limit,
            None => {
                proof {
                    lemma_upload_is_stored_whole(total, body_start@, pieces);
                    assert((body_start@ + pieces.flatten()).take(total) == (body_start@
                        + stream@).take(total));
                }
                return (file, Ok(()));
            },
        };
        let mut n: usize = limit;
        if reads < sizes.len() {
            if 0 < sizes[reads] && sizes[reads] < n {
                n = sizes[reads];
            }
            reads += 1;
        }
        let left: usize = stream.len() - at;
        if left < n {
            n = left;
        }
        let piece = copy_range(stream, at, at + n);
        let ghost before = file@;
        file.extend_from_slice(piece.as_slice());
        assert(before + piece@ == file@);
        match transfer.receive(n) {
            Ok(()) => {
                proof {
                    lemma_pieces_fit_push(total, first as int, pieces, piece@);
                    lemma_flatten_push(pieces, piece@);
                    assert(stream@.take(at as int) + piece@ == stream@.take(at + n));
                    pieces = pieces.push(piece@);
                    assert(file@ == stored_bytes(total, body_start@, pieces));
                }
                at = at + n;
            },
            Err(error) => {
                proof {
                    assert(first == body_start@.len());
                    assert(stream@.take(at as int) == stream@);
                    assert(body_start@.take(first as int) == body_start@);
                    assert(file@ == before);
                }
                return (file, Err(error));
            },
        }
    }
}

// ---------------------------------------------------------------------------------------------
// Laws.
// ---------------------------------------------------------------------------------------------

proof fn lemma_upload_name_is_plain(params: Map<Seq<char>, Seq<char>>)
    ensures
        is_safe_name(upload_filename(params)),
        is_plain_file_name(upload_filename(params)),
{
    reveal_strlit("voice-memo.m4a");
    lemma_sanitized_is_safe(params["filename"@]);
    assert(is_safe_name("voice-memo.m4a"@));
    lemma_safe_name_is_plain(upload_filename(params));
}

/// Whatever a request calls its file, the upload goes under a safe name that is not empty, has a
/// title, and is stored in the directory of uploads and nowhere else.
pub proof fn lemma_upload_stays_in_its_directory(
    params: Map<Seq<char>, Seq<char>>,
    stamp: Seq<char>,
)
    requires
        is_utc_stamp(stamp),
    ensures
        is_safe_name(upload_filename(params)),
        is_plain_file_name(upload_filename(params)),
        upload_title(params).len() > 0,
        is_plain_file_name(stored_name(stamp, upload_filename(params))),
{
    let name = upload_filename(params);
    lemma_upload_name_is_plain(params);
    lemma_stem_is_not_empty(name);
    lemma_stored_name_is_plain(stamp, name);
}

/// Whether an upload of `total` bytes, of which `done` have come, can go on with the given pieces:
/// each holds a byte, and no more of them than may be read.
pub open spec fn pieces_fit(total: int, done: int, pieces: Seq<Seq<u8>>) -> bool
    decreases pieces.len(),
{
    pieces.len() > 0 ==> {
        &&& 0 < pieces[0].len() <= lesser(READ_BYTES as int, total - done)
        &&& pieces_fit(total, done + pieces[0].len(), pieces.drop_first())
    }
}

/// The bytes that are written of an upload: those that came with the head and belong to it, and
/// behind them the pieces.
pub open spec fn stored_bytes(total: int, body_start: Seq<u8>, pieces: Seq<Seq<u8>>) -> Seq<u8> {
    body_start.take(lesser(body_start.len() as int, total)) + pieces.flatten()
}

proof fn lemma_pieces_fit(total: int, done: int, pieces: Seq<Seq<u8>>)
    requires
        0 <= done <= total,
        pieces_fit(total, done, pieces),
    ensures
        done + pieces.flatten().len() <= total,
        pieces.len() <= pieces.flatten().len(),
    decreases pieces.len(),
{
    if pieces.len() > 0 {
        lemma_pieces_fit(total, done + pieces[0].len(), pieces.drop_first());
    }
}

proof fn lemma_pieces_fit_push(total: int, done: int, pieces: Seq<Seq<u8>>, piece: Seq<u8>)
    requires
        pieces_fit(total, done, pieces),
        0 < piece.len() <= lesser(READ_BYTES as int, total - done - pieces.flatten().len()),
    ensures
        pieces_fit(total, done, pieces.push(piece)),
    decreases pieces.len(),
{
    let more = pieces.push(piece);
    if pieces.len() == 0 {
        reveal_with_fuel(pieces_fit, 2);
    } else {
        lemma_pieces_fit_push(total, done + pieces[0].len(), pieces.drop_first(), piece);
        assert(more.drop_first() == pieces.drop_first().push(piece));
    }
}

proof fn lemma_flatten_push(pieces: Seq<Seq<u8>>, piece: Seq<u8>)
    ensures
        pieces.push(piece).flatten() == pieces.flatten() + piece,
    decreases pieces.len(),
{
    let more = pieces.push(piece);
    if pieces.len() == 0 {
        assert(more.drop_first() == Seq::<Seq<u8>>::empty());
        assert(Seq::<Seq<u8>>::empty().flatten() == Seq::<u8>::empty());
        assert(more.flatten() == piece + more.drop_first().flatten());
    } else {
        lemma_flatten_push(pieces.drop_first(), piece);
        assert(more.drop_first() == pieces.drop_first().push(piece));
        assert(more.flatten() == pieces[0] + more.drop_first().flatten());
    }
}

/// An upload never takes more bytes than it announced, ends after at most that many pieces, and,
/// once complete, holds the first so many bytes of what the connection brought behind the head,
/// however they were cut into pieces. One that is cut short holds all of them.
pub proof fn lemma_upload_is_stored_whole(total: int, body_start: Seq<u8>, pieces: Seq<Seq<u8>>)
    requires
        0 <= total,
        pieces_fit(total, lesser(body_start.len() as int, total), pieces),
    ensures
        stored_bytes(total, body_start, pieces).len() <= total,
        pieces.len() <= total,
        stored_bytes(total, body_start, pieces).len() == total ==> stored_bytes(
            total,
            body_start,
            pieces,
        ) == (body_start + pieces.flatten()).take(total),
        stored_bytes(total, body_start, pieces).len() < total ==> stored_bytes(
            total,
            body_start,
            pieces,
        ) == body_start + pieces.flatten(),
{
    let first = lesser(body_start.len() as int, total);
    lemma_pieces_fit(total, first, pieces);
    if stored_bytes(total, body_start, pieces).len() == total {
        assert(stored_bytes(total, body_start, pieces) =~= (body_start + pieces.flatten()).take(
            total,
        ));
    } else {
        assert(body_start.take(first) == body_start);
    }
}

/// The file is called what the phone calls it, made safe, wherever that holds more than spaces and
/// full stops.
pub proof fn lemma_upload_filename_is(params: Map<Seq<char>, Seq<char>>)
    ensures
        params.contains_key("filename"@) && (exists|i: int|
            0 <= i < params["filename"@].len() && #[trigger] params["filename"@][i] != ' '
                && params["filename"@][i] != '.') ==> exists|a: int, b: int| #[trigger]
            is_name_core_at(params["filename"@], a, b, upload_filename(params)),
        !params.contains_key("filename"@) || (forall|i: int|
            0 <= i < params["filename"@].len() ==> #[trigger] params["filename"@][i] == ' '
                || params["filename"@][i] == '.') ==> upload_filename(params)
            == "voice-memo.m4a"@,
{
    let given = params["filename"@];
    lemma_sanitized_keeps(given);
    let (a, b) = choose|a: int, b: int| #[trigger] is_name_core_at(given, a, b, sanitized(given));
    if a < b {
        assert(given[a] != ' ' && given[a] != '.');
    }
    if exists|i: int| 0 <= i < given.len() && #[trigger] given[i] != ' ' && given[i] != '.' {
        let i = choose|i: int|
            0 <= i < given.len() && #[trigger] given[i] != ' ' && given[i] != '.';
        assert(a <= i < b);
        if params.contains_key("filename"@) {
            assert(upload_filename(params) == sanitized(given));
            assert(is_name_core_at(params["filename"@], a, b, upload_filename(params)));
        }
    }
}

/// The title is the one that was given, without the white space around it, wherever that holds a
/// character that is not white space; and otherwise the stem of the file's name.
pub proof fn lemma_upload_title_is(params: Map<Seq<char>, Seq<char>>)
    ensures
        params.contains_key("title"@) && (exists|i: int|
            0 <= i < params["title"@].len() && !is_white_space(#[trigger] params["title"@][i]))
            ==> exists|a: int, b: int| #[trigger]
            is_core_at(TrimSet::WhiteSpace, params["title"@], a, b) && upload_title(params)
                == params["title"@].subrange(a, b),
        !params.contains_key("title"@) || (forall|i: int|
            0 <= i < params["title"@].len() ==> is_white_space(#[trigger] params["title"@][i]))
            ==> upload_title(params) == stem(upload_filename(params)),
{
    let given = params["title"@];
    let set = TrimSet::WhiteSpace;
    lemma_trim_takes_the_set_alone(set, given);
    lemma_trimmed_to_nothing(set, given);
    assert forall|i: int| 0 <= i < given.len() implies set.holds(#[trigger] given[i])
        == is_white_space(given[i]) by {
        lemma_trim_set_is(given[i]);
    }
    lemma_upload_name_is_plain(params);
    lemma_stem_of_plain_name(upload_filename(params));
}

/// An upload is refused where its request gives no length, answered where it gives none but zero, and
/// otherwise received: of that length, and with the names that the query gives.
pub proof fn lemma_decision_is(head: RequestHead)
    ensures
        ({
            let given = head.headers.contains_key("content-length"@);
            let value = head.headers["content-length"@];
            let length = parsed_usize(value);
            let params = query_map(head.path);
            &&& (!given || length is None) ==> decision_for(head) == Err::<Decision, RequestError>(
                RequestError::MissingContentLength,
            )
            &&& given && length == Some(0nat) ==> {
                &&& decision_for(head) matches Ok(Decision::Reject(response))
                &&& response.status == 400
                &&& response.content_type == "text/plain"@
                &&& response.body == encode_utf8("Empty upload"@)
            }
            &&& given && length is Some && length->0 > 0 ==> {
                &&& decision_for(head) matches Ok(Decision::Accept(plan))
                &&& plan.content_length == length->0
                &&& plan.filename == upload_filename(params)
                &&& plan.title == upload_title(params)
            }
        }),
{
}

/// The lesser of two numbers is one of them, and above neither.
pub proof fn lemma_lesser_is(a: int, b: int)
    ensures
        lesser(a, b) <= a,
        lesser(a, b) <= b,
        lesser(a, b) == a || lesser(a, b) == b,
{
}

/// The response to an upload that was received is that it went well, and the bytes that tell of it.
pub proof fn lemma_upload_done_is(json: Seq<u8>)
    ensures
        upload_done(json).status == 200,
        upload_done(json).content_type == "application/json"@,
        upload_done(json).body == json,
{
}

/// A plan and a decision stand for their own fields.
pub proof fn lemma_upload_views_are(plan: UploadPlan, response: HttpResponse)
    ensures
        plan@.content_length == plan.content_length,
        plan@.filename == plan.filename@,
        plan@.title == plan.title@,
        UploadDecision::Accept(plan)@ == Decision::Accept(plan@),
        UploadDecision::Reject(response)@ == Decision::Reject(response@),
{
}

/// The title that was given is kept whole, however long it is, without the white space around it.
pub proof fn lemma_title_is_kept_whole(
    params: Map<Seq<char>, Seq<char>>,
    before: Seq<char>,
    core: Seq<char>,
    after: Seq<char>,
)
    requires
        params.contains_key("title"@),
        params["title"@] == before + core + after,
        core.len() > 0,
        !is_white_space(core[0]) && !is_white_space(core[core.len() - 1]),
        forall|i: int| 0 <= i < before.len() ==> is_white_space(#[trigger] before[i]),
        forall|i: int| 0 <= i < after.len() ==> is_white_space(#[trigger] after[i]),
    ensures
        upload_title(params) == core,
{
    lemma_trimmed_text_between(before, core, after);
}

/// The name that the phone gave is kept to its length, however long it is, but for the spaces and
/// full stops around it; each of its characters is the same or an underscore.
pub proof fn lemma_name_is_kept_whole(
    params: Map<Seq<char>, Seq<char>>,
    before: Seq<char>,
    core: Seq<char>,
    after: Seq<char>,
)
    requires
        params.contains_key("filename"@),
        params["filename"@] == before + core + after,
        core.len() > 0,
        core[0] != ' ' && core[0] != '.',
        core[core.len() - 1] != ' ' && core[core.len() - 1] != '.',
        forall|i: int| 0 <= i < before.len() ==> #[trigger] before[i] == ' ' || before[i] == '.',
        forall|i: int| 0 <= i < after.len() ==> #[trigger] after[i] == ' ' || after[i] == '.',
    ensures
        upload_filename(params).len() == core.len(),
        forall|i: int|
            0 <= i < core.len() ==> #[trigger] upload_filename(params)[i] == if is_kept(core[i]) {
                core[i]
            } else {
                '_'
            },
{
    lemma_sanitized_between(before, core, after);
}

} // verus!
