use meetily_audio::percent::{decode_bytes, decode_hex_pair, percent_decode};
use meetily_audio::query::query_params;

#[test]
fn decodes_query_params() {
    let params = query_params("/upload?filename=Voice+Memo.m4a&title=Hello%20World");

    assert_eq!(params.get("filename"), Some(&"Voice Memo.m4a".to_string()));
    assert_eq!(params.get("title"), Some(&"Hello World".to_string()));
}

#[test]
fn hex_pairs_are_read_as_the_standard_library_does() {
    for hi in 0u8..=255 {
        for lo in 0u8..=255 {
            let text = String::from_utf8_lossy(&[hi, lo]).to_string();
            assert_eq!(decode_hex_pair(hi, lo), u8::from_str_radix(&text, 16).ok());
        }
    }
}

#[test]
fn decodes_percent_and_plus() {
    assert_eq!(percent_decode(""), "");
    assert_eq!(percent_decode("plain-text_1.m4a~"), "plain-text_1.m4a~");
    assert_eq!(percent_decode("a+b"), "a b");
    assert_eq!(percent_decode("a%2Bb%26c"), "a+b&c");
    assert_eq!(percent_decode("%C3%A9%c3%a9"), "\u{e9}\u{e9}");
    assert_eq!(percent_decode("\u{e9}"), "\u{e9}");
}

#[test]
fn text_without_escapes_is_left_alone() {
    for text in ["", "caf\u{e9}", "\u{1F600}&=?#/\\", " a\tb\r\n", "\u{0}\u{FFFD}"] {
        assert_eq!(percent_decode(text), text);
    }
}

#[test]
fn a_faulty_escape_takes_its_bytes_with_it() {
    assert_eq!(percent_decode("a%zzb"), "ab");
    assert_eq!(percent_decode("a%"), "a");
    assert_eq!(percent_decode("a%4"), "a");
    assert_eq!(percent_decode("%+f"), "\u{f}");
    assert_eq!(percent_decode("%f+x"), "x");
}

#[test]
fn malformed_text_is_repaired() {
    assert_eq!(percent_decode("a%FFb"), "a\u{FFFD}b");
    assert_eq!(percent_decode("%E2%82"), "\u{FFFD}");
    assert_eq!(decode_bytes(b"%FF+"), vec![0xFF, 0x20]);
}

#[test]
fn the_last_of_several_fields_counts() {
    let params = query_params("/x?a=1&b&&a=2&=3&c=d=e?f");
    assert_eq!(params.get("a"), Some(&"2".to_string()));
    assert_eq!(params.get("b"), Some(&"".to_string()));
    assert_eq!(params.get(""), Some(&"3".to_string()));
    assert_eq!(params.get("c"), Some(&"d=e?f".to_string()));
    assert_eq!(params.get("x"), None);
    assert_eq!(params.len(), 4);
}

#[test]
fn a_path_without_query_has_no_fields() {
    assert_eq!(query_params("/upload").len(), 0);
    assert_eq!(query_params("/upload?").len(), 0);
}

/// What a browser writes for a form field.
fn form_encoded(text: &str) -> String {
    let mut out = String::new();
    for b in text.bytes() {
        match b {
            b' ' => out.push('+'),
            b'*' | b'-' | b'.' | b'_' | b'0'..=b'9' | b'A'..=b'Z' | b'a'..=b'z' => {
                out.push(b as char)
            }
            _ => out.push_str(&format!("%{:02X}", b)),
        }
    }
    out
}

#[test]
fn fields_that_a_browser_writes_are_read_back() {
    let name = "R\u{e9}union & caf\u{e9} = 100%? +\u{1F600}/..\\.m4a";
    let title = " \n=&?%+ ";
    let path = format!(
        "/upload?token={}&filename={}&{}={}",
        form_encoded("t&k"),
        form_encoded(name),
        form_encoded("ti=tle"),
        form_encoded(title)
    );
    let params = query_params(&path);
    assert_eq!(params.get("token"), Some(&"t&k".to_string()));
    assert_eq!(params.get("filename"), Some(&name.to_string()));
    assert_eq!(params.get("ti=tle"), Some(&title.to_string()));
    assert_eq!(percent_decode(&form_encoded(name)), name);
}
