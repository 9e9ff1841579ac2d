use meetily_audio::page::upload_page;
use meetily_audio::query::query_params;
use meetily_audio::request::{find_header_end, HttpRequestHead, RequestError, RequestReader};
use meetily_audio::response::{write_response, HttpResponse};
use meetily_audio::router::{handle_connection, ConnectionAction};
use meetily_audio::server::{
    after_accept, launch_failure, new_token, server_status, AcceptAction, AcceptEvent, LaunchStep,
    NetworkIp, PhoneUploadServer, ServerSlot,
};
use meetily_audio::upload::{
    handle_upload, store_upload, upload_response, UploadDecision, UploadPlan, UploadTransfer,
    READ_BYTES,
};

fn head(bytes: &[u8]) -> HttpRequestHead {
    RequestReader::new().read_request_head(bytes).unwrap().unwrap()
}

fn answer(line: &str, token: &str) -> Option<(u16, String, String)> {
    let request = head(format!("{} HTTP/1.1\r\n\r\n", line).as_bytes());
    match handle_connection(&request, token) {
        ConnectionAction::Respond(HttpResponse { status, content_type, body }) => {
            Some((status, content_type, String::from_utf8(body).unwrap()))
        }
        ConnectionAction::ReceiveUpload => None,
    }
}

fn plain(status: u16, body: &str) -> Option<(u16, String, String)> {
    Some((status, "text/plain".to_string(), body.to_string()))
}

#[test]
fn requests_without_the_token_are_forbidden() {
    for line in [
        "GET /", "GET /?token=", "GET /?token=b", "GET /?Token=a", "POST /upload?x=1&token=ab",
        "GET /health", "PUT /x?token=a&token=b",
    ] {
        assert_eq!(answer(line, "a"), plain(403, "Forbidden"), "{}", line);
    }
}

#[test]
fn requests_with_the_token_are_answered() {
    assert_eq!(
        answer("GET /?token=a%20b", "a b"),
        Some((200, "text/html; charset=utf-8".to_string(), upload_page("a b")))
    );
    assert_eq!(
        answer("GET /health?token=a", "a"),
        Some((200, "application/json".to_string(), "{\"ok\":true}".to_string()))
    );
    assert_eq!(answer("POST /upload?token=a", "a"), None);
    assert_eq!(answer("GET /upload?token=a", "a"), plain(404, "Not found"));
    assert_eq!(answer("POST /?token=a", "a"), plain(404, "Not found"));
    assert_eq!(answer("get /?token=a", "a"), plain(404, "Not found"));
    assert_eq!(answer("GET /x?token=b&token=a", "a"), plain(404, "Not found"));
}

#[test]
fn responses_are_written_whole() {
    assert_eq!(
        write_response(200, "text/plain", b"hi\r\n\r\n"),
        b"HTTP/1.1 200 OK\r\nContent-Type: text/plain\r\nContent-Length: 6\r\nConnection: close\r\n\r\nhi\r\n\r\n"
            .to_vec()
    );
    for (status, reason) in [
        (400, "Bad Request"), (403, "Forbidden"), (404, "Not Found"), (500, "OK"), (65535, "OK"),
    ] {
        let bytes = write_response(status, "x", b"");
        let text = String::from_utf8(bytes).unwrap();
        assert_eq!(
            text,
            format!(
                "HTTP/1.1 {} {}\r\nContent-Type: x\r\nContent-Length: 0\r\nConnection: close\r\n\r\n",
                status, reason
            )
        );
    }
}

#[test]
fn responses_are_read_back() {
    let body = b"\r\n\r\nx".to_vec();
    let bytes = write_response(404, "text/plain", &body);
    let end = find_header_end(&bytes).unwrap();
    assert_eq!(bytes[end + 4..].to_vec(), body);
    let read = head(&bytes);
    assert_eq!(read.headers.get("content-type"), Some(&"text/plain".to_string()));
    assert_eq!(read.headers.get("content-length"), Some(&"5".to_string()));
    assert_eq!(read.headers.get("connection"), Some(&"close".to_string()));
}

#[test]
fn the_type_of_a_response_is_read_back_trimmed() {
    let bytes = write_response(200, " \u{e9}/x; q=\"a: b\"\t", b"");
    let read = head(&bytes);
    assert_eq!(read.headers.get("content-type"), Some(&"\u{e9}/x; q=\"a: b\"".to_string()));
    assert_eq!(read.headers.get("content-length"), Some(&"0".to_string()));
}

#[test]
fn a_received_upload_is_answered() {
    let response = upload_response(b"{\"path\":\"/a\"}".to_vec());
    assert_eq!(response.status, 200);
    assert_eq!(response.content_type, "application/json");
    assert_eq!(response.body, b"{\"path\":\"/a\"}".to_vec());
}

fn plan(bytes: &[u8]) -> Result<UploadPlan, u16> {
    match handle_upload(&head(bytes)) {
        Ok(UploadDecision::Accept(plan)) => Ok(plan),
        Ok(UploadDecision::Reject(response)) => {
            assert_eq!(response.content_type, "text/plain");
            assert_eq!(response.body, b"Empty upload".to_vec());
            Err(response.status)
        }
        Err(error) => {
            assert_eq!(error, RequestError::MissingContentLength);
            Err(0)
        }
    }
}

#[test]
fn uploads_need_a_length() {
    assert_eq!(plan(b"POST /upload x\r\n\r\n").err(), Some(0));
    assert_eq!(plan(b"POST /upload x\r\nContent-Length: ten\r\n\r\n").err(), Some(0));
    assert_eq!(plan(b"POST /upload x\r\nContent-Length: -1\r\n\r\n").err(), Some(0));
    assert_eq!(plan(b"POST /upload x\r\nContent-Length: 0\r\n\r\n").err(), Some(400));
}

#[test]
fn uploads_are_planned() {
    let found = plan(
        b"POST /upload?filename=..%2FVoice%3AMemo.m4a&title=+My+call+ x\r\ncontent-length: 12\r\n\r\n",
    )
    .unwrap();
    assert_eq!(found.content_length, 12);
    assert_eq!(found.filename, "_Voice_Memo.m4a");
    assert_eq!(found.title, "My call");
}

#[test]
fn uploads_without_names_get_some() {
    let found = plan(b"POST /upload x\r\nContent-Length: +3\r\n\r\n").unwrap();
    assert_eq!(found.content_length, 3);
    assert_eq!(found.filename, "voice-memo.m4a");
    assert_eq!(found.title, "voice-memo");
    let found = plan(b"POST /upload?filename=...&title=%09 x\r\nContent-Length: 3\r\n\r\n").unwrap();
    assert_eq!(found.filename, "voice-memo.m4a");
    assert_eq!(found.title, "voice-memo");
    let found = plan(b"POST /upload?filename=a.b.wav x\r\nContent-Length: 3\r\n\r\n").unwrap();
    assert_eq!(found.title, "a.b");
}

#[test]
fn an_upload_arrives() {
    let request = head(
        b"POST /upload?token=t%26k&filename=R%C3%A9union.m4a&title=R%C3%A9union+1 HTTP/1.1\r\nHost: x\r\nContent-Length: 9\r\n\r\nabc",
    );
    assert!(matches!(
        handle_connection(&request, "t&k"),
        ConnectionAction::ReceiveUpload
    ));
    assert_eq!(request.body_start, b"abc".to_vec());
    match handle_upload(&request) {
        Ok(UploadDecision::Accept(found)) => {
            assert_eq!(found.content_length, 9);
            assert_eq!(found.filename, "R_union.m4a");
            assert_eq!(found.title, "R\u{e9}union 1");
        }
        _ => panic!("the upload was not accepted"),
    }
}

#[test]
fn an_upload_is_taken_in_piece_by_piece() {
    let total = READ_BYTES + 10;
    let (mut transfer, first) = UploadTransfer::begin(total, b"abcd");
    assert_eq!(first, 4);
    assert_eq!(transfer.next_read(), Some(READ_BYTES));
    assert_eq!(transfer.receive(READ_BYTES), Ok(()));
    assert_eq!(transfer.next_read(), Some(6));
    assert_eq!(transfer.receive(2), Ok(()));
    assert_eq!(transfer.next_read(), Some(4));
    let mut broken = transfer;
    assert_eq!(broken.receive(0), Err(RequestError::UploadCutShort));
    assert_eq!(transfer.receive(4), Ok(()));
    assert_eq!(transfer.next_read(), None);
    let plan = UploadPlan {
        content_length: total,
        filename: "a.m4a".to_string(),
        title: "A".to_string(),
    };
    let received = transfer.received(plan, "/tmp/a.m4a".to_string());
    assert_eq!(received.path, "/tmp/a.m4a");
    assert_eq!(received.filename, "a.m4a");
    assert_eq!(received.title, "A");
    assert_eq!(received.size_bytes, total as u64);
}

#[test]
fn an_upload_takes_no_more_than_its_length() {
    let (transfer, first) = UploadTransfer::begin(3, b"abcdef");
    assert_eq!(first, 3);
    assert_eq!(transfer.next_read(), None);
}

#[test]
fn an_upload_is_stored_whole_however_it_is_cut() {
    let stream: Vec<u8> = (0..3 * READ_BYTES).map(|i| (i % 251) as u8).collect();
    for total in [1, 2, 3, 4, 100, READ_BYTES, READ_BYTES + 3, 3 * READ_BYTES + 3] {
        for sizes in [vec![], vec![1, 1, 5], vec![0, 7], vec![READ_BYTES + 1], vec![1; 200]] {
            let (file, result) = store_upload(total, b"abc", &stream, &sizes);
            let mut brought = b"abc".to_vec();
            brought.extend_from_slice(&stream);
            assert_eq!(result, Ok(()));
            assert_eq!(file, brought[..total].to_vec());
        }
    }
}

#[test]
fn an_upload_that_is_cut_short_keeps_what_came() {
    for sizes in [vec![], vec![1], vec![2, 2, 2]] {
        let (file, result) = store_upload(7, b"abc", b"def", &sizes);
        assert_eq!(result, Err(RequestError::UploadCutShort));
        assert_eq!(file, b"abcdef".to_vec());
    }
    assert_eq!(store_upload(0, b"abc", b"def", &[]), (vec![], Ok(())));
    assert_eq!(
        store_upload(1, b"", b"", &[]),
        (vec![], Err(RequestError::UploadCutShort))
    );
}

fn server() -> PhoneUploadServer {
    PhoneUploadServer {
        port: 8080,
        token: "t".to_string(),
        upload_dir: "/rec/phone-uploads".to_string(),
    }
}

#[test]
fn the_status_of_a_running_server_gives_its_addresses() {
    let status = server_status(&server(), Some(NetworkIp(192, 168, 1, 5)));
    assert!(status.running);
    assert_eq!(status.port, Some(8080));
    assert_eq!(status.upload_url.as_deref(), Some("http://192.168.1.5:8080/?token=t"));
    assert_eq!(status.local_url.as_deref(), Some("http://127.0.0.1:8080/?token=t"));
    assert_eq!(status.upload_dir, "/rec/phone-uploads");
    let status = server_status(&server(), None);
    assert_eq!(status.upload_url, status.local_url);
}

#[test]
fn addresses_are_dotted() {
    assert_eq!(NetworkIp(0, 0, 0, 0).text(), "0.0.0.0");
    assert_eq!(NetworkIp(127, 0, 0, 1).text(), "127.0.0.1");
    assert_eq!(NetworkIp(255, 10, 99, 100).text(), "255.10.99.100");
}

#[test]
fn a_server_is_started_once_and_stopped() {
    let mut slot = ServerSlot::new();
    assert!(slot.start(None).is_none());
    let status = slot.status(None, "/rec/phone-uploads".to_string());
    assert!(!status.running);
    assert_eq!(status.port, None);
    assert_eq!(status.upload_url, None);
    assert_eq!(status.local_url, None);
    assert_eq!(status.upload_dir, "/rec/phone-uploads");
    let launched = slot.launched(81, "t".to_string(), "/d".to_string(), None);
    assert_eq!(launched.local_url.as_deref(), Some("http://127.0.0.1:81/?token=t"));
    let again = slot.start(None).unwrap();
    assert_eq!(again.port, Some(81));
    assert_eq!(again.local_url, launched.local_url);
    assert!(slot.status(None, "/x".to_string()).running);
    assert_eq!(slot.stop(), Some(81));
    assert_eq!(slot.stop(), None);
    assert!(slot.start(None).is_none());
}

#[test]
fn the_link_opens_the_page() {
    let token = new_token();
    let mut slot = ServerSlot::new();
    let status = slot.launched(80, token.clone(), "/d".to_string(), None);
    let url = status.local_url.unwrap();
    let path = url.strip_prefix("http://127.0.0.1:80").unwrap();
    assert_eq!(
        answer(&format!("GET {}", path), &token),
        Some((200, "text/html; charset=utf-8".to_string(), upload_page(&token)))
    );
}

#[test]
fn a_token_is_read_back_from_the_link() {
    for token in ["t", "a=b?c#d/e", "r\u{e9}union", "", "=="] {
        let mut slot = ServerSlot::new();
        let status =
            slot.launched(80, token.to_string(), "/d".to_string(), Some(NetworkIp(10, 0, 0, 1)));
        for url in [status.upload_url.unwrap(), status.local_url.unwrap()] {
            let params = query_params(&url);
            assert_eq!(params.get("token"), Some(&token.to_string()));
            assert_eq!(params.len(), 1);
        }
        assert_eq!(
            answer(&format!("GET /?token={}", token), token),
            Some((200, "text/html; charset=utf-8".to_string(), upload_page(token)))
        );
    }
}

#[test]
fn tokens_are_random_uuids() {
    let token = new_token();
    let id = uuid::Uuid::parse_str(&token).unwrap();
    assert_eq!(id.get_version_num(), 4);
    assert_eq!(id.to_string(), token);
    assert_ne!(token, new_token());
}

#[test]
fn the_server_goes_on_until_it_is_stopped() {
    assert_eq!(after_accept(AcceptEvent::Connected), AcceptAction::Handle);
    assert_eq!(after_accept(AcceptEvent::WouldBlock), AcceptAction::Sleep(50));
    assert_eq!(after_accept(AcceptEvent::Failed), AcceptAction::End);
    assert_eq!(after_accept(AcceptEvent::ShutDown), AcceptAction::End);
}

#[test]
fn failures_to_launch_are_told() {
    for (step, text) in [
        (LaunchStep::CreateDirectory, "Failed to create phone upload directory: why"),
        (LaunchStep::Bind, "Failed to start phone upload server: why"),
        (LaunchStep::ReadPort, "Failed to read phone upload server port: why"),
        (LaunchStep::Configure, "Failed to configure phone upload server: why"),
    ] {
        assert_eq!(launch_failure(step, "why"), text);
    }
}

#[test]
fn the_page_is_whole() {
    for token in ["", "a-b", "\u{e9}"] {
        let wanted = format!(
            r#"<!doctype html>
<html>
<head>
  <meta charset="utf-8" />
  <meta name="viewport" content="width=device-width, initial-scale=1" />
  <title>Meetily Phone Upload</title>
  <style>
    body {{ font-family: -apple-system, BlinkMacSystemFont, sans-serif; margin: 24px; line-height: 1.4; }}
    label {{ display: block; margin: 16px 0 6px; font-weight: 600; }}
    input, button {{ box-sizing: border-box; width: 100%; font: inherit; padding: 12px; }}
    button {{ margin-top: 16px; }}
    #status {{ margin-top: 16px; }}
  </style>
</head>
<body>
  <h1>Meetily Upload</h1>
  <label for="title">Meeting title</label>
  <input id="title" placeholder="Voice memo" />
  <label for="file">Audio file</label>
  <input id="file" type="file" accept="audio/*,.m4a,.mp3,.wav,.aac,.flac,.ogg,.webm" />
  <button id="upload">Upload to Meetily</button>
  <div id="status"></div>
  <script>
    const token = "{}";
    const statusEl = document.getElementById("status");
    document.getElementById("upload").addEventListener("click", async () => {{
      const file = document.getElementById("file").files[0];
      if (!file) {{
        statusEl.textContent = "Choose an audio file first.";
        return;
      }}
      const title = document.getElementById("title").value || file.name;
      statusEl.textContent = "Uploading...";
      const params = new URLSearchParams({{ token, filename: file.name, title }});
      const response = await fetch(`/upload?${{params.toString()}}`, {{
        method: "POST",
        headers: {{ "Content-Type": "application/octet-stream" }},
        body: file,
      }});
      if (!response.ok) {{
        statusEl.textContent = `Upload failed: ${{response.status}}`;
        return;
      }}
      statusEl.textContent = "Uploaded. You can return to Meetily.";
    }});
  </script>
</body>
</html>"#,
            token
        );
        assert_eq!(upload_page(token), wanted);
    }
}
