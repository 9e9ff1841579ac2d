//! What holds of the server as a whole: who is let in, where its link leads, and that what a phone
//! sends is what arrives.
use crate::decimal::{decimal, is_digit, lemma_decimal_digits, lemma_decimal_round_trip};
use crate::filename::{sanitized, stem_or_default};
use crate::ids::{is_hyphen_place, is_lower_hex, is_uuid_v4};
use crate::page::{lemma_page_bears_token, page, PAGE_END, PAGE_START};
use crate::percent::lemma_plain_text_decodes_to_itself;
use crate::query::{
    fields_map, form_query, lemma_form_query_is_bare, lemma_query_round_trip, pair_sides,
    pairs_map, query_map,
};
use crate::request::{head_so_far, without_query, RequestError};
use crate::response::{text_response, HttpResponse, Response};
use crate::router::{action_for, bears_token, forbidden, Action, ConnectionAction};
use crate::server::{
    page_url, running_status, slot_status, stopped_status, NetworkIp, Server, LOOPBACK,
};
use crate::text::{is_white_space, lemma_first_index, lemma_first_index_is, split, trimmed_text};
use crate::upload::{decision_for, Decision, Plan};
use crate::wire::{are_headers, is_word, lemma_request_round_trip, read_headers, request_bytes};
use vstd::prelude::*;
use vstd::utf8::encode_utf8;

verus! {

/// A request that does not bear the token is forbidden, whatever it asks for.
pub proof fn lemma_no_token_no_entry(method: Seq<char>, path: Seq<char>, token: Seq<char>)
    requires
        !bears_token(path, token),
    ensures
        action_for(method, path, token) == Action::Respond(forbidden()),
{
}

/// A request without a query is forbidden, whatever the token.
pub proof fn lemma_no_query_no_entry(method: Seq<char>, path: Seq<char>, token: Seq<char>)
    requires
        !path.contains('?'),
    ensures
        action_for(method, path, token) == Action::Respond(forbidden()),
{
    lemma_first_index(path, '?');
}

/// An upload is received for a `POST` to `/upload` that bears the token, and for nothing else.
pub proof fn lemma_upload_needs(method: Seq<char>, path: Seq<char>, token: Seq<char>)
    ensures
        action_for(method, path, token) == Action::ReceiveUpload <==> bears_token(path, token)
            && method == "POST"@ && without_query(path) == "/upload"@,
{
    reveal_strlit("GET");
    reveal_strlit("POST");
    assert("GET"@.len() != "POST"@.len());
}

/// A request bears the token exactly where its query gives it, whole, under the name `token`; so it
/// bears no other.
pub proof fn lemma_bears_token_is(path: Seq<char>, token: Seq<char>, other: Seq<char>)
    ensures
        bears_token(path, token) <==> query_map(path).contains_pair("token"@, token),
        bears_token(path, token) && bears_token(path, other) ==> token == other,
{
}

/// A token that a browser puts into a query is let in exactly where it is the server's, character for
/// character.
pub proof fn lemma_only_the_token_is_let_in(
    page: Seq<char>,
    provided: Seq<char>,
    token: Seq<char>,
)
    requires
        !page.contains('?'),
    ensures
        bears_token(page + seq!['?'] + form_query(seq![("token"@, provided)]), token) <==> provided
            == token,
{
    let fields = seq![("token"@, provided)];
    lemma_query_round_trip(page, fields);
    let none = Seq::<(Seq<char>, Seq<char>)>::empty();
    assert(fields.drop_last() == none);
    assert(fields_map(none) == Map::<Seq<char>, Seq<char>>::empty());
    assert(fields_map(fields) == fields_map(none).insert("token"@, provided));
}

/// What each request is answered.
pub proof fn lemma_answer_is(method: Seq<char>, path: Seq<char>, token: Seq<char>)
    ensures
        ({
            let place = without_query(path);
            let action = action_for(method, path, token);
            let let_in = bears_token(path, token);
            let is_page = method == "GET"@ && place == "/"@;
            let is_health = method == "GET"@ && place == "/health"@;
            let is_upload = method == "POST"@ && place == "/upload"@;
            &&& !let_in ==> action == Action::Respond(
                (Response {
                    status: 403,
                    content_type: "text/plain"@,
                    body: encode_utf8("Forbidden"@),
                }),
            )
            &&& let_in && is_page ==> action == Action::Respond(
                (Response {
                    status: 200,
                    content_type: "text/html; charset=utf-8"@,
                    body: encode_utf8(page(token)),
                }),
            )
            &&& let_in && is_health ==> action == Action::Respond(
                (Response {
                    status: 200,
                    content_type: "application/json"@,
                    body: encode_utf8("{\"ok\":true}"@),
                }),
            )
            &&& let_in && is_upload ==> action == Action::ReceiveUpload
            &&& let_in && !is_page && !is_health && !is_upload ==> action == Action::Respond(
                (Response {
                    status: 404,
                    content_type: "text/plain"@,
                    body: encode_utf8("Not found"@),
                }),
            )
        }),
{
    reveal_strlit("GET");
    reveal_strlit("POST");
    reveal_strlit("/");
    reveal_strlit("/health");
    assert("GET"@.len() != "POST"@.len());
    assert("/"@.len() != "/health"@.len());
}

/// What is done stands for its own response.
pub proof fn lemma_action_view_is(response: HttpResponse)
    ensures
        ConnectionAction::Respond(response)@ == Action::Respond(response@),
        ConnectionAction::ReceiveUpload@ == Action::ReceiveUpload,
{
}

// ---------------------------------------------------------------------------------------------
// The link.
// ---------------------------------------------------------------------------------------------

/// The path in the address of the upload page.
pub open spec fn link_path(token: Seq<char>) -> Seq<char> {
    "/?token="@ + token
}

/// Whether the token stands in an address as it is: it holds none of `%`, `+` and `&`.
pub open spec fn is_link_token(token: Seq<char>) -> bool {
    !token.contains('%') && !token.contains('+') && !token.contains('&')
}

/// A query that follows an address without `?` and gives the token is read as that token alone.
proof fn lemma_token_of_link(before: Seq<char>, token: Seq<char>)
    requires
        !before.contains('?'),
        is_link_token(token),
    ensures
        query_map(before + "?token="@ + token) == map!["token"@ => token],
        without_query(before + "?token="@ + token) == before,
{
    reveal_strlit("?token=");
    reveal_strlit("token");
    let path = before + "?token="@ + token;
    let k = before.len() as int;
    let query = path.skip(k + 1);
    assert forall|i: int| 0 <= i < k implies path[i] != '?' by {
        assert(path[i] == before[i]);
        assert(before.contains(before[i]));
    }
    assert(path[k] == '?');
    lemma_first_index_is(path, '?', k);
    assert(path.take(k) == before);
    assert(query.len() == 6 + token.len());
    assert forall|i: int| 0 <= i < query.len() implies query[i] != '&' by {
        if i >= 6 {
            assert(query[i] == token[i - 6]);
            assert(token.contains(token[i - 6]));
        } else {
            assert(query[i] == "?token="@[i + 1]);
        }
    }
    lemma_first_index_is(query, '&', query.len() as int);
    assert(split(query, '&') == seq![query]);
    assert forall|i: int| 0 <= i < 5 implies query[i] != '=' by {
        assert(query[i] == "?token="@[i + 1]);
    }
    assert(query[5] == '=');
    lemma_first_index_is(query, '=', 5);
    assert(query.take(5) == "token"@);
    assert(query.skip(6) == token);
    assert(pair_sides(query) == ("token"@, token));
    lemma_plain_text_decodes_to_itself(token);
    lemma_plain_text_decodes_to_itself("token"@);
    let none = Seq::<Seq<char>>::empty();
    assert(seq![query].drop_last() == none);
    assert(pairs_map(none) == Map::<Seq<char>, Seq<char>>::empty());
    assert(query_map(path) == map!["token"@ => token]);
}

/// The addresses in the status of a running server give its token, and nothing else, to whoever
/// reads their query.
pub proof fn lemma_token_read_back(server: Server, local_ip: Option<NetworkIp>)
    requires
        is_link_token(server.token),
    ensures
        ({
            let status = running_status(server, local_ip);
            &&& status.upload_url is Some
            &&& query_map(status.upload_url->0) == map!["token"@ => server.token]
            &&& status.local_url is Some
            &&& query_map(status.local_url->0) == map!["token"@ => server.token]
        }),
{
    reveal_strlit("127.0.0.1");
    let host = match local_ip {
        Some(ip) => ip.dotted(),
        None => LOOPBACK@,
    };
    if let Some(ip) = local_ip {
        lemma_dotted(ip);
    }
    lemma_token_of_url(host, server.port, server.token);
    lemma_token_of_url(LOOPBACK@, server.port, server.token);
}

proof fn lemma_dotted(ip: NetworkIp)
    ensures
        !ip.dotted().contains('?'),
{
    reveal_strlit(".");
    lemma_decimal_digits(ip.0 as nat);
    lemma_decimal_digits(ip.1 as nat);
    lemma_decimal_digits(ip.2 as nat);
    lemma_decimal_digits(ip.3 as nat);
    let (a, b, c, d) = (
        decimal(ip.0 as nat),
        decimal(ip.1 as nat),
        decimal(ip.2 as nat),
        decimal(ip.3 as nat),
    );
    let text = ip.dotted();
    let (i, j, k) = (a.len() as int, b.len() as int, c.len() as int);
    assert forall|at: int| 0 <= at < text.len() implies text[at] != '?' by {
        if at < i {
            assert(text[at] == a[at]);
        } else if i < at < i + 1 + j {
            assert(text[at] == b[at - i - 1]);
        } else if i + 1 + j < at < i + j + k + 2 {
            assert(text[at] == c[at - i - j - 2]);
        } else if i + j + k + 2 < at {
            assert(text[at] == d[at - i - j - k - 3]);
        }
    }
}

proof fn lemma_token_of_url(host: Seq<char>, port: u16, token: Seq<char>)
    requires
        !host.contains('?'),
        is_link_token(token),
    ensures
        query_map(page_url(host, port, token)) == map!["token"@ => token],
{
    reveal_strlit("http://");
    reveal_strlit(":");
    reveal_strlit("/?token=");
    reveal_strlit("?token=");
    let digits = decimal(port as nat);
    let before = "http://"@ + host + ":"@ + digits + seq!['/'];
    let k = host.len() as int;
    lemma_decimal_digits(port as nat);
    assert forall|i: int| 0 <= i < before.len() implies before[i] != '?' by {
        if i < 7 {
            assert(before[i] == "http://"@[i]);
        } else if i < 7 + k {
            assert(before[i] == host[i - 7]);
            assert(host.contains(host[i - 7]));
        } else if 7 + k < i < 8 + k + digits.len() {
            assert(before[i] == digits[i - k - 8]);
            assert(is_digit(digits[i - k - 8]));
        }
    }
    assert("/?token="@ == seq!['/'] + "?token="@);
    assert(page_url(host, port, token) == before + "?token="@ + token);
    lemma_token_of_link(before, token);
}

/// The addresses in the status of a running server lead to the upload page of that server.
pub proof fn lemma_link_opens_page(host: Seq<char>, port: u16, token: Seq<char>)
    requires
        is_link_token(token),
    ensures
        page_url(host, port, token) == "http://"@ + host + ":"@ + decimal(port as nat) + link_path(
            token,
        ),
        action_for("GET"@, link_path(token), token) == Action::Respond(
            text_response(200, "text/html; charset=utf-8"@, page(token)),
        ),
{
    reveal_strlit("/?token=");
    reveal_strlit("?token=");
    reveal_strlit("/");
    assert(page_url(host, port, token) == "http://"@ + host + ":"@ + decimal(port as nat)
        + link_path(token));
    assert(link_path(token) == "/"@ + "?token="@ + token);
    lemma_token_of_link("/"@, token);
}

/// The tokens that the library makes stand in an address as they are.
pub proof fn lemma_uuid_is_link_token(token: Seq<char>)
    requires
        is_uuid_v4(token),
    ensures
        is_link_token(token),
{
    assert forall|c: char| #[trigger] token.contains(c) implies is_lower_hex(c) || c == '-' by {
        let i = choose|i: int| 0 <= i < token.len() && token[i] == c;
        if is_hyphen_place(i) {
            assert(token[i] == '-');
        }
    }
}

// ---------------------------------------------------------------------------------------------
// An upload.
// ---------------------------------------------------------------------------------------------

/// The fields that the page sends with an upload.
pub open spec fn upload_fields(
    token: Seq<char>,
    filename: Seq<char>,
    title: Seq<char>,
) -> Seq<(Seq<char>, Seq<char>)> {
    seq![("token"@, token), ("filename"@, filename), ("title"@, title)]
}

/// The path to which the page sends an upload.
pub open spec fn upload_path(token: Seq<char>, filename: Seq<char>, title: Seq<char>) -> Seq<char> {
    "/upload"@ + seq!['?'] + form_query(upload_fields(token, filename, title))
}

/// An upload sent with the token that the page shows is received, and one with any other is not.
pub proof fn lemma_upload_from_page_is_let_in(
    token: Seq<char>,
    other: Seq<char>,
    filename: Seq<char>,
    title: Seq<char>,
)
    ensures
        ({
            let html = page(token);
            let shown = html.subrange(
                PAGE_START@.len() as int,
                html.len() - PAGE_END@.len(),
            );
            action_for("POST"@, upload_path(shown, filename, title), token)
                == Action::ReceiveUpload
        }),
        action_for("POST"@, upload_path(other, filename, title), token) == Action::ReceiveUpload
            <==> other == token,
{
    lemma_page_bears_token(token);
    lemma_upload_path(token, filename, title);
    lemma_upload_path(other, filename, title);
    lemma_upload_needs("POST"@, upload_path(token, filename, title), token);
    lemma_upload_needs("POST"@, upload_path(other, filename, title), token);
}

/// What is planned for a file of `length` bytes that the phone calls `filename` and the user
/// `title`.
pub open spec fn plan_for(length: nat, filename: Seq<char>, title: Seq<char>) -> Plan {
    let name = if sanitized(filename).len() > 0 {
        sanitized(filename)
    } else {
        "voice-memo.m4a"@
    };
    Plan {
        content_length: length,
        filename: name,
        title: if trimmed_text(title).len() > 0 {
            trimmed_text(title)
        } else {
            stem_or_default(name)
        },
    }
}

proof fn lemma_upload_path(token: Seq<char>, filename: Seq<char>, title: Seq<char>)
    ensures
        is_word(upload_path(token, filename, title)),
        without_query(upload_path(token, filename, title)) == "/upload"@,
        ({
            let params = query_map(upload_path(token, filename, title));
            &&& params.contains_key("token"@) && params["token"@] == token
            &&& params.contains_key("filename"@) && params["filename"@] == filename
            &&& params.contains_key("title"@) && params["title"@] == title
        }),
{
    let fields = upload_fields(token, filename, title);
    let path = upload_path(token, filename, title);
    let query = form_query(fields);
    reveal_strlit("/upload");
    reveal_strlit("token");
    reveal_strlit("filename");
    reveal_strlit("title");
    assert("token"@[1] != "title"@[1]);
    assert("filename"@.len() != "title"@.len());
    assert("filename"@.len() != "token"@.len());
    let k = "/upload"@.len() as int;
    assert(path[k] == '?');
    assert forall|i: int| 0 <= i < k implies path[i] != '?' by {
        assert(path[i] == "/upload"@[i]);
    }
    lemma_first_index_is(path, '?', k);
    assert(path.take(k) == "/upload"@);
    lemma_form_query_is_bare(fields);
    assert forall|i: int| 0 <= i < path.len() implies !is_white_space(#[trigger] path[i]) by {
        if i < k {
            assert(path[i] == "/upload"@[i]);
        } else if i > k {
            assert(path[i] == query[i - k - 1]);
        }
    }
    lemma_query_round_trip("/upload"@, fields);
    let two = fields.drop_last();
    let one = two.drop_last();
    assert(one.drop_last() == Seq::<(Seq<char>, Seq<char>)>::empty());
    assert(fields.last() == ("title"@, title));
    assert(two.last() == ("filename"@, filename));
    assert(one.last() == ("token"@, token));
    assert(fields_map(fields) == fields_map(two).insert("title"@, title));
    assert(fields_map(two) == fields_map(one).insert("filename"@, filename));
    assert(fields_map(one) == fields_map(one.drop_last()).insert("token"@, token));
}

/// What a phone sends is what arrives. From the bytes of an upload that bears the token the server
/// reads a request to upload, of the length that the browser gives, and the names that it sent: the
/// file under its safe name, the title without the white space around it. The bytes behind the head
/// are those of the file.
pub proof fn lemma_upload_arrives(
    token: Seq<char>,
    filename: Seq<char>,
    title: Seq<char>,
    version: Seq<char>,
    headers: Seq<(Seq<char>, Seq<char>)>,
    length: nat,
    body: Seq<u8>,
)
    requires
        is_word(version),
        are_headers(headers),
        fields_map(read_headers(headers)).contains_key("content-length"@),
        fields_map(read_headers(headers))["content-length"@] == decimal(length),
        0 < length <= usize::MAX,
    ensures
        ({
            let bytes = request_bytes(
                "POST"@,
                upload_path(token, filename, title),
                version,
                headers,
                body,
            );
            &&& head_so_far(bytes) matches Ok(Some(head))
            &&& head.body_start == body
            &&& action_for(head.method, head.path, token) == Action::ReceiveUpload
            &&& decision_for(head) == Ok::<Decision, RequestError>(
                Decision::Accept(plan_for(length, filename, title)),
            )
        }),
{
    let path = upload_path(token, filename, title);
    reveal_strlit("POST");
    assert(is_word("POST"@));
    lemma_upload_path(token, filename, title);
    lemma_request_round_trip("POST"@, path, version, headers, body);
    lemma_upload_needs("POST"@, path, token);
    lemma_decimal_round_trip(length);
}

// ---------------------------------------------------------------------------------------------
// The status.
// ---------------------------------------------------------------------------------------------

/// The status says that a server is running, and gives a port and addresses, where there is one, and
/// only there.
pub proof fn lemma_status_tells_server(
    slot: Option<Server>,
    local_ip: Option<NetworkIp>,
    upload_dir: Seq<char>,
)
    ensures
        ({
            let status = slot_status(slot, local_ip, upload_dir);
            &&& status.running == (slot is Some)
            &&& status.port is Some == status.running
            &&& status.upload_url is Some == status.running
            &&& status.local_url is Some == status.running
            &&& status.running ==> status == running_status(slot->0, local_ip)
            &&& !status.running ==> status == stopped_status(upload_dir)
        }),
{
}

} // verus!
