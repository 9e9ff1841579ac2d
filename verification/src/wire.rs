//! Messages as they go over the wire: that the lines of a head are told apart and read back.
use crate::decimal::{
    decimal, is_digit, lemma_decimal_digits, lemma_decimal_round_trip, parsed_usize,
};
use crate::query::fields_map;
use crate::request::{
    head_so_far, header_end, headers_map, is_break_at, lemma_header_end_is, RequestError,
    RequestHead,
};
use crate::response::{reason, response_bytes, response_head};
use crate::text::{
    ascii_lowered, is_white_space, leading_run, lemma_encode_both, lemma_encode_without,
    lemma_first_index, lemma_first_index_is, lemma_leading_run, lemma_trim_idempotent, lines,
    lossy_text, split_once, trimmed_start, trimmed_text, words, TrimSet,
};
use vstd::prelude::*;
use vstd::utf8::{encode_utf8, encode_utf8_decode_utf8, encode_utf8_valid_utf8};

verus! {

// ---------------------------------------------------------------------------------------------
// Lines.
// ---------------------------------------------------------------------------------------------

/// The line ending of a head.
pub open spec fn crlf() -> Seq<char> {
    seq!['\r', '\n']
}

/// Lines with a line ending between each two.
pub open spec fn rows_joined(rows: Seq<Seq<char>>) -> Seq<char>
    decreases rows.len(),
{
    if rows.len() == 0 {
        Seq::empty()
    } else if rows.len() == 1 {
        rows[0]
    } else {
        rows[0] + crlf() + rows_joined(rows.skip(1))
    }
}

/// Whether each is a line: not empty, and without a line feed.
pub open spec fn are_rows(rows: Seq<Seq<char>>) -> bool {
    forall|i: int|
        0 <= i < rows.len() ==> (#[trigger] rows[i]).len() > 0 && !rows[i].contains('\n')
}

proof fn lemma_are_rows_skip(rows: Seq<Seq<char>>)
    requires
        are_rows(rows),
        rows.len() > 0,
    ensures
        are_rows(rows.skip(1)),
{
    assert forall|i: int| 0 <= i < rows.skip(1).len() implies (#[trigger] rows.skip(1)[i]).len() > 0
        && !rows.skip(1)[i].contains('\n') by {
        assert(rows.skip(1)[i] == rows[i + 1]);
    }
}

proof fn lemma_line(line: Seq<char>, rest: Seq<char>)
    requires
        !line.contains('\n'),
    ensures
        lines(line + crlf() + rest) == seq![line] + lines(rest),
{
    let s = line + crlf() + rest;
    let k: int = line.len() as int + 1;
    assert(s[k] == '\n');
    assert forall|i: int| 0 <= i < k implies s[i] != '\n' by {
        if i < line.len() {
            assert(s[i] == line[i]);
            assert(line.contains(line[i]));
        }
    }
    lemma_first_index_is(s, '\n', k);
    assert(s.take(k).drop_last() == line);
    assert(s.skip(k + 1) == rest);
}

/// Lines that were joined are read back.
pub proof fn lemma_rows_read_back(rows: Seq<Seq<char>>)
    requires
        are_rows(rows),
    ensures
        lines(rows_joined(rows)) == rows,
    decreases rows.len(),
{
    if rows.len() == 1 {
        assert(rows[0].len() > 0 && !rows[0].contains('\n'));
        lemma_first_index(rows[0], '\n');
        assert(lines(rows[0]) == seq![rows[0]]);
        assert(seq![rows[0]] == rows);
    } else if rows.len() > 1 {
        let rest = rows.skip(1);
        assert(!rows[0].contains('\n'));
        lemma_are_rows_skip(rows);
        lemma_rows_read_back(rest);
        lemma_line(rows[0], rows_joined(rest));
        assert(seq![rows[0]] + rest == rows);
    }
}

// ---------------------------------------------------------------------------------------------
// Bytes.
// ---------------------------------------------------------------------------------------------

proof fn lemma_encode_crlf()
    ensures
        encode_utf8(crlf()) == seq![0x0Du8, 0x0A],
{
    assert((13u32 & 0x7F) as u8 == 13u8) by (bit_vector);
    assert((10u32 & 0x7F) as u8 == 10u8) by (bit_vector);
    assert(crlf().drop_first() == seq!['\n']);
    assert(seq!['\n'].drop_first() == Seq::<char>::empty());
    assert(encode_utf8(Seq::<char>::empty()) == Seq::<u8>::empty());
    assert(encode_utf8(seq!['\n']) == seq![0x0Au8]);
}

/// In the bytes of lines, each with its ending, no two line feeds stand two places apart.
proof fn lemma_feeds_apart(rows: Seq<Seq<char>>)
    requires
        are_rows(rows),
        rows.len() > 0,
    ensures
        ({
            let b = encode_utf8(rows_joined(rows)) + seq![0x0Du8, 0x0A];
            &&& b.len() > 2
            &&& b[1] != 0x0A
            &&& forall|i: int| 0 <= i < b.len() - 2 && b[i] == 0x0A ==> #[trigger] b[i + 2] != 0x0A
        }),
    decreases rows.len(),
{
    let row = encode_utf8(rows[0]);
    let b = encode_utf8(rows_joined(rows)) + seq![0x0Du8, 0x0A];
    assert(rows[0].len() > 0 && !rows[0].contains('\n'));
    lemma_encode_without(rows[0], '\n');
    assert forall|i: int| 0 <= i < row.len() implies row[i] != 0x0A by {
        assert(row.contains(row[i]));
    }
    if rows.len() == 1 {
        assert(b == row + seq![0x0Du8, 0x0A]);
        assert forall|i: int| 0 <= i < b.len() - 2 && b[i] == 0x0A implies #[trigger] b[i + 2]
            != 0x0A by {
            assert(b[i] == row[i]);
        }
    } else {
        let rest = rows.skip(1);
        let more = encode_utf8(rows_joined(rest)) + seq![0x0Du8, 0x0A];
        lemma_are_rows_skip(rows);
        lemma_feeds_apart(rest);
        lemma_encode_crlf();
        lemma_encode_both(rows[0] + crlf(), rows_joined(rest));
        lemma_encode_both(rows[0], crlf());
        assert(b == row + seq![0x0Du8, 0x0A] + more);
        let k = row.len() as int;
        assert forall|i: int| 0 <= i < b.len() - 2 && b[i] == 0x0A implies #[trigger] b[i + 2]
            != 0x0A by {
            if i < k {
                assert(b[i] == row[i]);
            } else if i == k + 1 {
                assert(b[i + 2] == more[1]);
            } else if i > k + 1 {
                assert(b[i] == more[i - k - 2]);
                assert(b[i + 2] == more[(i - k - 2) + 2]);
            }
        }
    }
}

/// The bytes of a message: the lines of its head, an empty line, and its body.
pub open spec fn message(rows: Seq<Seq<char>>, body: Seq<u8>) -> Seq<u8> {
    encode_utf8(rows_joined(rows) + crlf() + crlf()) + body
}

/// The head of a message ends with its last line, and the rest of it is its body, whatever bytes
/// that holds.
pub proof fn lemma_message_parts(rows: Seq<Seq<char>>, body: Seq<u8>)
    requires
        are_rows(rows),
        rows.len() > 0,
    ensures
        header_end(message(rows, body)) == Some(encode_utf8(rows_joined(rows)).len() as int),
        message(rows, body).take(encode_utf8(rows_joined(rows)).len() as int) == encode_utf8(
            rows_joined(rows),
        ),
        message(rows, body).skip(encode_utf8(rows_joined(rows)).len() as int + 4) == body,
{
    let head = encode_utf8(rows_joined(rows));
    let b = head + seq![0x0Du8, 0x0A];
    let all = message(rows, body);
    let at = head.len() as int;
    lemma_encode_crlf();
    lemma_encode_both(rows_joined(rows) + crlf(), crlf());
    lemma_encode_both(rows_joined(rows), crlf());
    lemma_feeds_apart(rows);
    assert(all == b + seq![0x0Du8, 0x0A] + body);
    assert(all.take(at) == head);
    assert(all.skip(at + 4) == body);
    assert(is_break_at(all, at));
    assert forall|q: int| 0 <= q < at implies !is_break_at(all, q) by {
        if is_break_at(all, q) {
            assert(b[q + 1] == all[q + 1]);
            if q + 3 < b.len() {
                assert(b[(q + 1) + 2] == all[q + 3]);
            } else {
                assert(q + 3 == at + 2);
                assert(all[q + 3] == 0x0D);
            }
        }
    }
    lemma_header_end_is(all, at);
}

// ---------------------------------------------------------------------------------------------
// Headers.
// ---------------------------------------------------------------------------------------------

/// The line that gives a header: its name, a colon and a space, and its value.
pub open spec fn header_row(header: (Seq<char>, Seq<char>)) -> Seq<char> {
    header.0 + seq![':', ' '] + header.1
}

/// The lines that give some headers.
pub open spec fn header_rows(headers: Seq<(Seq<char>, Seq<char>)>) -> Seq<Seq<char>> {
    headers.map_values(|header: (Seq<char>, Seq<char>)| header_row(header))
}

/// The headers as they are read: without the white space around names and values, the names in
/// lower case.
pub open spec fn read_headers(headers: Seq<(Seq<char>, Seq<char>)>) -> Seq<
    (Seq<char>, Seq<char>),
> {
    headers.map_values(
        |header: (Seq<char>, Seq<char>)|
            (ascii_lowered(trimmed_text(header.0)), trimmed_text(header.1)),
    )
}

/// Whether `header` can be written on a line of its own: its name holds no colon, and neither its
/// name nor its value a line feed.
pub open spec fn is_header(header: (Seq<char>, Seq<char>)) -> bool {
    &&& !header.0.contains(':')
    &&& !header.0.contains('\n')
    &&& !header.1.contains('\n')
}

/// Whether each can be written on a line of its own.
pub open spec fn are_headers(headers: Seq<(Seq<char>, Seq<char>)>) -> bool {
    forall|i: int| 0 <= i < headers.len() ==> is_header(#[trigger] headers[i])
}

proof fn lemma_header_row(header: (Seq<char>, Seq<char>))
    requires
        is_header(header),
    ensures
        header_row(header).len() > 0,
        !header_row(header).contains('\n'),
        split_once(header_row(header), ':') == Some((header.0, seq![' '] + header.1)),
        trimmed_text(seq![' '] + header.1) == trimmed_text(header.1),
{
    let (name, value) = header;
    let row = header_row(header);
    let k = name.len() as int;
    assert forall|i: int| 0 <= i < k implies row[i] != ':' && row[i] != '\n' by {
        assert(row[i] == name[i]);
        assert(name.contains(name[i]));
    }
    assert forall|i: int| k <= i < row.len() implies row[i] != '\n' by {
        if i >= k + 2 {
            assert(row[i] == value[i - k - 2]);
            assert(value.contains(value[i - k - 2]));
        }
    }
    lemma_first_index_is(row, ':', k);
    assert(row.take(k) == name);
    assert(row.skip(k + 1) == seq![' '] + value);
    assert((seq![' '] + value).skip(1) == value);
    assert(trimmed_start(TrimSet::WhiteSpace, seq![' '] + value) == trimmed_start(
        TrimSet::WhiteSpace,
        value,
    ));
}

/// Headers that were written on lines are read back, without the white space around them and with
/// their names in lower case.
pub proof fn lemma_headers_read_back(headers: Seq<(Seq<char>, Seq<char>)>)
    requires
        are_headers(headers),
    ensures
        are_rows(header_rows(headers)),
        headers_map(header_rows(headers)) == fields_map(read_headers(headers)),
    decreases headers.len(),
{
    let rows = header_rows(headers);
    assert forall|i: int| 0 <= i < rows.len() implies (#[trigger] rows[i]).len() > 0
        && !rows[i].contains('\n') by {
        assert(is_header(headers[i]));
        lemma_header_row(headers[i]);
    }
    if headers.len() > 0 {
        let before = headers.drop_last();
        assert forall|i: int| 0 <= i < before.len() implies is_header(#[trigger] before[i]) by {
            assert(is_header(headers[i]));
        }
        lemma_headers_read_back(before);
        assert(rows.drop_last() == header_rows(before));
        assert(read_headers(headers).drop_last() == read_headers(before));
        assert(is_header(headers.last()));
        lemma_header_row(headers.last());
    }
}

// ---------------------------------------------------------------------------------------------
// Requests.
// ---------------------------------------------------------------------------------------------

/// Whether `s` is a word: not empty, and without white space.
pub open spec fn is_word(s: Seq<char>) -> bool {
    s.len() > 0 && forall|i: int| 0 <= i < s.len() ==> !is_white_space(#[trigger] s[i])
}

proof fn lemma_first_word(word: Seq<char>, rest: Seq<char>)
    requires
        is_word(word),
    ensures
        words(word + seq![' '] + rest) == seq![word] + words(seq![' '] + rest),
{
    let s = word + seq![' '] + rest;
    let k = word.len() as int;
    lemma_leading_run(s, true);
    if leading_run(s, true) > 0 {
        assert(is_white_space(s[0]));
        assert(s[0] == word[0]);
    }
    assert(s.skip(0) == s);
    lemma_leading_run(s, false);
    let n = leading_run(s, false);
    assert(is_white_space(s[k]));
    if n < k {
        assert(s[n] == word[n]);
    }
    assert(n == k);
    assert(s.take(k) == word);
    assert(s.skip(k) == seq![' '] + rest);
}

proof fn lemma_words_behind_space(s: Seq<char>)
    ensures
        words(seq![' '] + s) == words(s),
{
    let spaced = seq![' '] + s;
    assert(spaced.skip(1) == s);
    assert(leading_run(spaced, true) == 1 + leading_run(s, true));
    lemma_leading_run(s, true);
    assert(spaced.skip(1 + leading_run(s, true)) == s.skip(leading_run(s, true)));
}

/// The first line of a request.
pub open spec fn request_row(method: Seq<char>, path: Seq<char>, version: Seq<char>) -> Seq<char> {
    method + seq![' '] + path + seq![' '] + version
}

proof fn lemma_request_row(method: Seq<char>, path: Seq<char>, version: Seq<char>)
    requires
        is_word(method),
        is_word(path),
        is_word(version),
    ensures
        request_row(method, path, version).len() > 0,
        !request_row(method, path, version).contains('\n'),
        words(request_row(method, path, version)).len() >= 2,
        words(request_row(method, path, version))[0] == method,
        words(request_row(method, path, version))[1] == path,
{
    let row = request_row(method, path, version);
    let k = method.len() as int;
    let m = path.len() as int;
    assert forall|i: int| 0 <= i < row.len() implies row[i] != '\n' by {
        if i < k {
            assert(row[i] == method[i]);
            assert(!is_white_space(method[i]));
        } else if k < i < k + 1 + m {
            assert(row[i] == path[i - k - 1]);
            assert(!is_white_space(path[i - k - 1]));
        } else if i > k + 1 + m {
            assert(row[i] == version[i - k - m - 2]);
            assert(!is_white_space(version[i - k - m - 2]));
        }
    }
    let tail = path + seq![' '] + version;
    assert(row == method + seq![' '] + tail);
    lemma_first_word(method, tail);
    lemma_words_behind_space(tail);
    lemma_first_word(path, version);
}

/// The bytes of a request, as a browser sends them.
pub open spec fn request_bytes(
    method: Seq<char>,
    path: Seq<char>,
    version: Seq<char>,
    headers: Seq<(Seq<char>, Seq<char>)>,
    body: Seq<u8>,
) -> Seq<u8> {
    message(seq![request_row(method, path, version)] + header_rows(headers), body)
}

/// A request that is sent is read back: its method, its path, its headers and its body.
pub proof fn lemma_request_round_trip(
    method: Seq<char>,
    path: Seq<char>,
    version: Seq<char>,
    headers: Seq<(Seq<char>, Seq<char>)>,
    body: Seq<u8>,
)
    requires
        is_word(method),
        is_word(path),
        is_word(version),
        are_headers(headers),
    ensures
        head_so_far(request_bytes(method, path, version, headers, body)) == Ok::<
            Option<RequestHead>,
            RequestError,
        >(
            Some(
                RequestHead {
                    method,
                    path,
                    headers: fields_map(read_headers(headers)),
                    body_start: body,
                },
            ),
        ),
{
    let first = request_row(method, path, version);
    let rows = seq![first] + header_rows(headers);
    lemma_request_row(method, path, version);
    lemma_headers_read_back(headers);
    assert forall|i: int| 0 <= i < rows.len() implies (#[trigger] rows[i]).len() > 0
        && !rows[i].contains('\n') by {
        if i > 0 {
            assert(rows[i] == header_rows(headers)[i - 1]);
        }
    }
    lemma_message_parts(rows, body);
    lemma_rows_read_back(rows);
    encode_utf8_valid_utf8(rows_joined(rows));
    encode_utf8_decode_utf8(rows_joined(rows));
    assert(lossy_text(encode_utf8(rows_joined(rows))) == rows_joined(rows));
    assert(rows.skip(1) == header_rows(headers));
    assert(rows[0] == first);
}

// ---------------------------------------------------------------------------------------------
// Responses.
// ---------------------------------------------------------------------------------------------

/// The first line of a response.
pub open spec fn status_row(status: u16) -> Seq<char> {
    "HTTP/1.1 "@ + decimal(status as nat) + " "@ + reason(status)
}

/// The headers of a response, as they are read.
pub open spec fn response_headers(content_type: Seq<char>, body_len: nat) -> Seq<
    (Seq<char>, Seq<char>),
> {
    seq![
        ("content-type"@, trimmed_text(content_type)),
        ("content-length"@, decimal(body_len)),
        ("connection"@, "close"@),
    ]
}

/// The headers of a response, as they are written.
spec fn written_headers(content_type: Seq<char>, body_len: nat) -> Seq<(Seq<char>, Seq<char>)> {
    seq![
        ("Content-Type"@, content_type),
        ("Content-Length"@, decimal(body_len)),
        ("Connection"@, "close"@),
    ]
}

proof fn lemma_status_row(status: u16)
    ensures
        status_row(status).len() > 0,
        !status_row(status).contains('\n'),
{
    reveal_strlit("HTTP/1.1 ");
    reveal_strlit(" ");
    reveal_strlit("OK");
    reveal_strlit("Bad Request");
    reveal_strlit("Forbidden");
    reveal_strlit("Not Found");
    let row = status_row(status);
    let digits = decimal(status as nat);
    lemma_decimal_digits(status as nat);
    let k = digits.len() as int;
    assert forall|i: int| 0 <= i < row.len() implies row[i] != '\n' by {
        if i < 9 {
            assert(row[i] == "HTTP/1.1 "@[i]);
        } else if i < 9 + k {
            assert(row[i] == digits[i - 9]);
            assert(is_digit(digits[i - 9]));
        } else if i == 9 + k {
            assert(row[i] == ' ');
        } else {
            assert(row[i] == reason(status)[i - k - 10]);
        }
    }
}

proof fn lemma_written_headers(content_type: Seq<char>, body_len: nat)
    requires
        !content_type.contains('\n'),
    ensures
        are_headers(written_headers(content_type, body_len)),
        read_headers(written_headers(content_type, body_len)) == response_headers(
            content_type,
            body_len,
        ),
{
    reveal_strlit("Content-Type");
    reveal_strlit("Content-Length");
    reveal_strlit("Connection");
    reveal_strlit("content-type");
    reveal_strlit("content-length");
    reveal_strlit("connection");
    reveal_strlit("close");
    let digits = decimal(body_len);
    lemma_decimal_digits(body_len);
    assert(is_digit(digits[0]) && is_digit(digits.last()));
    assert(!digits.contains('\n')) by {
        assert forall|i: int| 0 <= i < digits.len() implies digits[i] != '\n' by {
            assert(is_digit(digits[i]));
        }
    }
    assert(ascii_lowered("Content-Type"@) == "content-type"@);
    assert(ascii_lowered("Content-Length"@) == "content-length"@);
    assert(ascii_lowered("Connection"@) == "connection"@);
    lemma_trim_idempotent(TrimSet::WhiteSpace, digits);
    lemma_trim_idempotent(TrimSet::WhiteSpace, "Content-Type"@);
    lemma_trim_idempotent(TrimSet::WhiteSpace, "Content-Length"@);
    lemma_trim_idempotent(TrimSet::WhiteSpace, "Connection"@);
    lemma_trim_idempotent(TrimSet::WhiteSpace, "close"@);
    let written = written_headers(content_type, body_len);
    assert(is_header(written[0]));
    assert(is_header(written[1]));
    assert(is_header(written[2]));
}

proof fn lemma_response_head_rows(status: u16, content_type: Seq<char>, body_len: nat)
    ensures
        response_head(status, content_type, body_len) == rows_joined(
            seq![status_row(status)] + header_rows(written_headers(content_type, body_len)),
        ) + crlf() + crlf(),
{
    reveal_strlit("\r\nContent-Type: ");
    reveal_strlit("\r\nContent-Length: ");
    reveal_strlit("\r\nConnection: close\r\n\r\n");
    reveal_strlit("Content-Type");
    reveal_strlit("Content-Length");
    reveal_strlit("Connection");
    reveal_strlit("close");
    let written = written_headers(content_type, body_len);
    let rows = seq![status_row(status)] + header_rows(written);
    let r1 = header_row(written[0]);
    let r2 = header_row(written[1]);
    let r3 = header_row(written[2]);
    assert(rows == seq![status_row(status), r1, r2, r3]);
    assert(rows.skip(1) == seq![r1, r2, r3]);
    assert(seq![r1, r2, r3].skip(1) == seq![r2, r3]);
    assert(seq![r2, r3].skip(1) == seq![r3]);
    assert(rows_joined(seq![r3]) == r3);
    assert(rows_joined(seq![r2, r3]) == r2 + crlf() + r3);
    assert(rows_joined(seq![r1, r2, r3]) == r1 + crlf() + (r2 + crlf() + r3));
    assert(rows_joined(rows) == status_row(status) + crlf() + (r1 + crlf() + (r2 + crlf() + r3)));
    assert("\r\nContent-Type: "@ + content_type == crlf() + r1);
    assert("\r\nContent-Length: "@ + decimal(body_len) == crlf() + r2);
    assert("\r\nConnection: close\r\n\r\n"@ == crlf() + r3 + crlf() + crlf());
    let a = status_row(status);
    assert(response_head(status, content_type, body_len) == a + ("\r\nContent-Type: "@
        + content_type) + ("\r\nContent-Length: "@ + decimal(body_len))
        + "\r\nConnection: close\r\n\r\n"@);
}

/// A response that is sent can be told apart and read back by the rules for requests: its first
/// line gives the status, its headers the type and the length of its body, and behind the empty line
/// stands the body and nothing else, which has that length.
pub proof fn lemma_response_round_trip(status: u16, content_type: Seq<char>, body: Seq<u8>)
    requires
        !content_type.contains('\n'),
        body.len() <= usize::MAX,
    ensures
        ({
            let bytes = response_bytes(status, content_type, body);
            let at = header_end(bytes)->0;
            let rows = lines(lossy_text(bytes.take(at)));
            &&& header_end(bytes) is Some
            &&& rows.len() > 0
            &&& rows[0] == status_row(status)
            &&& headers_map(rows.skip(1)) == fields_map(response_headers(content_type, body.len()))
            &&& headers_map(rows.skip(1)).contains_key("content-length"@)
            &&& parsed_usize(headers_map(rows.skip(1))["content-length"@]) == Some(body.len())
            &&& bytes.skip(at + 4) == body
        }),
{
    let written = written_headers(content_type, body.len());
    let rows = seq![status_row(status)] + header_rows(written);
    lemma_status_row(status);
    lemma_written_headers(content_type, body.len());
    lemma_headers_read_back(written);
    lemma_response_head_rows(status, content_type, body.len());
    assert forall|i: int| 0 <= i < rows.len() implies (#[trigger] rows[i]).len() > 0
        && !rows[i].contains('\n') by {
        if i > 0 {
            assert(rows[i] == header_rows(written)[i - 1]);
        }
    }
    lemma_message_parts(rows, body);
    lemma_rows_read_back(rows);
    encode_utf8_valid_utf8(rows_joined(rows));
    encode_utf8_decode_utf8(rows_joined(rows));
    assert(rows.skip(1) == header_rows(written));
    let read = response_headers(content_type, body.len());
    assert(fields_map(read).contains_key("content-length"@) && fields_map(read)["content-length"@]
        == decimal(body.len())) by {
        reveal_with_fuel(fields_map, 3);
        reveal_strlit("content-length");
        reveal_strlit("connection");
        assert(read.drop_last().last() == ("content-length"@, decimal(body.len())));
        assert("connection"@.len() != "content-length"@.len());
    }
    lemma_decimal_round_trip(body.len());
}

} // verus!
