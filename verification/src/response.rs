//! HTTP responses, as the bytes that are sent.
use crate::decimal::{decimal, decimal_text};
use vstd::prelude::*;
use vstd::utf8::encode_utf8;

verus! {

/// The reason phrase that goes with a status.
pub open spec fn reason(status: u16) -> Seq<char> {
    if status == 400 {
        "Bad Request"@
    } else if status == 403 {
        "Forbidden"@
    } else if status == 404 {
        "Not Found"@
    } else {
        "OK"@
    }
}

/// The head of a response, up to and with the empty line that ends it.
pub open spec fn response_head(status: u16, content_type: Seq<char>, body_len: nat) -> Seq<char> {
    "HTTP/1.1 "@ + decimal(status as nat) + " "@ + reason(status) + "\r\nContent-Type: "@
        + content_type + "\r\nContent-Length: "@ + decimal(body_len)
        + "\r\nConnection: close\r\n\r\n"@
}

/// The bytes of a response: its head, and behind it its body.
pub open spec fn response_bytes(status: u16, content_type: Seq<char>, body: Seq<u8>) -> Seq<u8> {
    encode_utf8(response_head(status, content_type, body.len())) + body
}

/// A response, as a model.
#[verifier::ext_equal]
pub struct Response {
    pub status: u16,
    pub content_type: Seq<char>,
    pub body: Seq<u8>,
}

/// A response.
pub struct HttpResponse {
    pub status: u16,
    pub content_type: String,
    pub body: Vec<u8>,
}

impl View for HttpResponse {
    type V = Response;

    open spec fn view(&self) -> Response {
        Response {
            status: self.status,
            content_type: self.content_type@,
            body: self.body@,
        }
    }
}

/// A response with a text for its body, as a model.
pub open spec fn text_response(status: u16, content_type: Seq<char>, body: Seq<char>) -> Response {
    Response { status, content_type, body: encode_utf8(body) }
}

impl HttpResponse {
    /// A response with a text for its body.
    pub fn text(status: u16, content_type: &str, body: &str) -> (response: HttpResponse)
        ensures
            response@ == text_response(status, content_type@, body@),
    {
        HttpResponse { status, content_type: content_type.to_owned(), body: body.as_bytes_vec() }
    }
}

/// The bytes of a response, ready to be sent.
pub fn write_response(status: u16, content_type: &str, body: &[u8]) -> (bytes: Vec<u8>)
    ensures
        bytes@ == response_bytes(status, content_type@, body@),
{
    let reason_phrase = match status {
        200 => "OK",
        400 => "Bad Request",
        403 => "Forbidden",
        404 => "Not Found",
        _ => "OK",
    };
    let mut head = "HTTP/1.1 ".to_owned();
    let status_digits = decimal_text(status as u64);
    head.append(status_digits.as_str());
    head.append(" ");
    head.append(reason_phrase);
    head.append("\r\nContent-Type: ");
    head.append(content_type);
    head.append("\r\nContent-Length: ");
    let length_digits = decimal_text(body.len() as u64);
    head.append(length_digits.as_str());
    head.append("\r\nConnection: close\r\n\r\n");
    let mut bytes = head.as_str().as_bytes_vec();
    bytes.extend_from_slice(body);
    bytes
}

// ---------------------------------------------------------------------------------------------
// Laws.
// ---------------------------------------------------------------------------------------------

/// The phrase of each status, and of all the others.
pub proof fn lemma_reason_is(status: u16)
    ensures
        reason(400) == "Bad Request"@,
        reason(403) == "Forbidden"@,
        reason(404) == "Not Found"@,
        !(set![400u16, 403, 404].contains(status)) ==> reason(status) == "OK"@,
{
}

/// A response is four lines that give its status, its type, the number of bytes of its body and that
/// the connection ends, an empty line, and then the body, whole and as it is.
pub proof fn lemma_response_is(status: u16, content_type: Seq<char>, body: Seq<u8>)
    ensures
        ({
            let bytes = response_bytes(status, content_type, body);
            let n = bytes.len() - body.len();
            let end = seq!['\r', '\n'];
            let first = "HTTP/1.1 "@ + decimal(status as nat) + " "@ + reason(status);
            let second = "Content-Type: "@ + content_type;
            let third = "Content-Length: "@ + decimal(body.len());
            &&& 0 <= n
            &&& bytes.skip(n) == body
            &&& bytes.take(n) == encode_utf8(
                first + end + second + end + third + end + "Connection: close"@ + end + end,
            )
        }),
{
    reveal_strlit("\r\nContent-Type: ");
    reveal_strlit("\r\nContent-Length: ");
    reveal_strlit("\r\nConnection: close\r\n\r\n");
    reveal_strlit("Content-Type: ");
    reveal_strlit("Content-Length: ");
    reveal_strlit("Connection: close");
    let end = seq!['\r', '\n'];
    assert("\r\nContent-Type: "@ == end + "Content-Type: "@);
    assert("\r\nContent-Length: "@ == end + "Content-Length: "@);
    assert("\r\nConnection: close\r\n\r\n"@ == end + "Connection: close"@ + end + end);
    let head = response_head(status, content_type, body.len());
    let first = "HTTP/1.1 "@ + decimal(status as nat) + " "@ + reason(status);
    let second = "Content-Type: "@ + content_type;
    let third = "Content-Length: "@ + decimal(body.len());
    assert(head == first + end + second + end + third + end + "Connection: close"@ + end + end);
    let bytes = response_bytes(status, content_type, body);
    let n = bytes.len() - body.len();
    assert(n == encode_utf8(head).len());
    assert(bytes.take(n) == encode_utf8(head));
    assert(bytes.skip(n) == body);
}

/// A response stands for its own fields, and one that is made of a text has the text's bytes.
pub proof fn lemma_response_view_is(
    response: HttpResponse,
    status: u16,
    content_type: Seq<char>,
    text: Seq<char>,
)
    ensures
        response@.status == response.status,
        response@.content_type == response.content_type@,
        response@.body == response.body@,
        text_response(status, content_type, text).status == status,
        text_response(status, content_type, text).content_type == content_type,
        text_response(status, content_type, text).body == encode_utf8(text),
{
}

} // verus!
