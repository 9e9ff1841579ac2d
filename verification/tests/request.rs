use meetily_audio::request::{
    find_header_end, parse_request_head, HttpRequestHead, RequestError, RequestReader,
    HEAD_READ_BYTES, MAX_HEAD_BYTES,
};

fn read(bytes: &[u8]) -> Result<Option<HttpRequestHead>, RequestError> {
    RequestReader::new().read_request_head(bytes)
}

fn error_of(bytes: &[u8]) -> Option<RequestError> {
    read(bytes).err()
}

#[test]
fn finds_the_end_of_a_head() {
    assert_eq!(find_header_end(b""), None);
    assert_eq!(find_header_end(b"\r\n\r"), None);
    assert_eq!(find_header_end(b"\r\n\r\n"), Some(0));
    assert_eq!(find_header_end(b"GET / x\r\nA: b\r\n\r\nbody\r\n\r\n"), Some(13));
    assert_eq!(find_header_end(b"a\n\nb\r\r\n\n"), None);
    assert_eq!(find_header_end(b"\r\r\n\r\n"), Some(1));
}

#[test]
fn reads_a_head() {
    let head = read(
        b"POST /upload?x=1 HTTP/1.1\r\nHost: a:8080\r\nCONTENT-Length :  12 \r\nno header\r\n\r\nbo",
    )
    .unwrap()
    .unwrap();
    assert_eq!(head.method, "POST");
    assert_eq!(head.path, "/upload?x=1");
    assert_eq!(head.path_without_query(), "/upload");
    assert_eq!(head.headers.get("host"), Some(&"a:8080".to_string()));
    assert_eq!(head.headers.get("content-length"), Some(&"12".to_string()));
    assert_eq!(head.headers.get("CONTENT-Length"), None);
    assert_eq!(head.headers.len(), 2);
    assert_eq!(head.body_start, b"bo".to_vec());
}

#[test]
fn the_last_of_several_headers_counts() {
    let head = read(b"GET / x\r\nA: 1\r\na: 2\r\n\r\n").unwrap().unwrap();
    assert_eq!(head.headers.get("a"), Some(&"2".to_string()));
}

#[test]
fn a_path_without_query_is_left_alone() {
    let head = read(b"GET /health x\r\n\r\n").unwrap().unwrap();
    assert_eq!(head.path_without_query(), "/health");
    let head = read(b"GET /a?b?c x\r\n\r\n").unwrap().unwrap();
    assert_eq!(head.path_without_query(), "/a");
}

#[test]
fn faulty_heads_are_errors() {
    assert_eq!(error_of(b"\r\n\r\n"), Some(RequestError::MissingRequestLine));
    assert_eq!(error_of(b" \t\r\nA: b\r\n\r\n"), Some(RequestError::MissingMethod));
    assert_eq!(error_of(b"GET\r\n\r\n"), Some(RequestError::MissingPath));
    assert_eq!(error_of(b""), Some(RequestError::ConnectionClosed));
    assert!(matches!(
        parse_request_head("", Vec::new()),
        Err(RequestError::MissingRequestLine)
    ));
}

#[test]
fn errors_have_words() {
    let words = [
        (
            RequestError::ConnectionClosed,
            "Connection closed before request headers were complete",
        ),
        (RequestError::HeadersTooLarge, "Request headers too large"),
        (RequestError::MissingRequestLine, "Missing HTTP request line"),
        (RequestError::MissingMethod, "Missing HTTP method"),
        (RequestError::MissingPath, "Missing HTTP path"),
        (RequestError::MissingContentLength, "Missing Content-Length"),
        (
            RequestError::UploadCutShort,
            "Upload ended before Content-Length bytes were received",
        ),
    ];
    for (error, text) in words {
        assert_eq!(error.message(), text);
    }
}

#[test]
fn a_head_that_does_not_end_is_too_large() {
    let mut reader = RequestReader::new();
    let chunk = vec![b'a'; HEAD_READ_BYTES];
    let mut sent = 0;
    loop {
        sent += chunk.len();
        match reader.read_request_head(&chunk) {
            Ok(None) => assert!(sent <= MAX_HEAD_BYTES),
            Err(error) => {
                assert_eq!(error, RequestError::HeadersTooLarge);
                assert_eq!(sent, MAX_HEAD_BYTES + HEAD_READ_BYTES);
                break;
            }
            Ok(Some(_)) => panic!("a head was found"),
        }
    }
}

#[test]
fn heads_are_read_within_bounds() {
    assert_eq!(HEAD_READ_BYTES, 4096);
    assert_eq!(MAX_HEAD_BYTES, 131072);
    for size in [1000, 4095, 4096] {
        let mut reader = RequestReader::new();
        let mut sent = 0;
        while let Ok(None) = reader.read_request_head(&vec![b'a'; size]) {
            sent += size;
        }
        assert!(sent + size <= MAX_HEAD_BYTES + HEAD_READ_BYTES);
    }
}

#[test]
fn a_head_is_read_the_same_in_pieces() {
    let bytes: &[u8] = b"POST /a?b x\r\nHost: c\r\nN: 4\r\n\r\nbody";
    let whole = read(bytes).unwrap().unwrap();
    for size in 1..bytes.len() {
        let mut reader = RequestReader::new();
        let mut at = 0;
        let head = loop {
            let to = (at + size).min(bytes.len());
            let step = reader.read_request_head(&bytes[at..to]).unwrap();
            at = to;
            if let Some(head) = step {
                break head;
            }
        };
        assert_eq!(head.method, whole.method);
        assert_eq!(head.path, whole.path);
        assert_eq!(head.headers.get("host"), whole.headers.get("host"));
        assert_eq!(head.headers.get("n"), whole.headers.get("n"));
        let mut body = head.body_start.clone();
        body.extend_from_slice(&bytes[at..]);
        assert_eq!(body, whole.body_start);
    }
}

#[test]
fn heads_need_not_be_utf8() {
    let head = read(b"GET /\xFF x\r\nA: \xE2\x82\xAC\r\n\r\n\xFF").unwrap().unwrap();
    assert_eq!(head.path, "/\u{FFFD}");
    assert_eq!(head.headers.get("a"), Some(&"\u{20ac}".to_string()));
    assert_eq!(head.body_start, vec![0xFF]);
}

#[test]
fn a_head_that_ends_in_time_is_not_too_large() {
    let mut bytes = b"GET / x\r\nA: ".to_vec();
    bytes.resize(MAX_HEAD_BYTES - 4, b'a');
    bytes.extend_from_slice(b"\r\n\r\n");
    bytes.resize(MAX_HEAD_BYTES + 10000, b'z');
    let mut reader = RequestReader::new();
    let mut found = None;
    for chunk in bytes.chunks(4099) {
        if let Some(head) = reader.read_request_head(chunk).unwrap() {
            found = Some(head);
            break;
        }
    }
    assert_eq!(found.unwrap().method, "GET");
}
