use meetily_audio::filename::{
    filename_stem, sanitize_filename, stamped_filename, unique_upload_filename,
};
use std::path::PathBuf;

#[test]
fn sanitizes_filename() {
    assert_eq!(sanitize_filename("../Voice:Memo?.m4a"), "_Voice_Memo_.m4a");
}

#[test]
fn a_safe_name_keeps_to_its_alphabet() {
    assert_eq!(sanitize_filename(""), "");
    assert_eq!(sanitize_filename(" .. . "), "");
    assert_eq!(sanitize_filename("/"), "_");
    assert_eq!(sanitize_filename("a\\b:c\u{e9}"), "a_b_c_");
    assert_eq!(sanitize_filename(". My-File_1.m4a. "), "My-File_1.m4a");
}

#[test]
fn sanitizing_twice_is_sanitizing_once() {
    for name in ["../Voice:Memo?.m4a", " . x . ", "a/../b", "", "caf\u{e9} 1.wav"] {
        let once = sanitize_filename(name);
        assert_eq!(sanitize_filename(&once), once);
        assert!(!once.contains('/') && !once.contains('\\'));
        assert_ne!(once, "..");
    }
}

#[test]
fn stems_are_those_of_the_standard_library() {
    for name in [
        "Voice Memo.m4a", "a.tar.gz", "noext", ".hidden", ".hidden.txt", "..", ".", "", "a/b.c",
        "a/", "a/.", "a/..", "/", "./", "./a.b", "a//b.c//", "...", "..a", "a.", "/a/./.",
        "_Voice_Memo_.m4a", "a\\b.c", "a\\", "C:\\a\\b.c", "C:b.c", "C:", "\\\\x\\y\\z.w",
        "//x/y/z.w", "ab:c.d", "caf\u{e9}.\u{e9}",
    ] {
        let wanted = PathBuf::from(name)
            .file_stem()
            .and_then(|stem| stem.to_str())
            .unwrap_or("Phone Upload")
            .to_string();
        assert_eq!(filename_stem(name), wanted, "{:?}", name);
    }
}

#[test]
fn a_name_that_leads_nowhere_has_the_default_stem() {
    assert_eq!(filename_stem(".."), "Phone Upload");
    assert_eq!(filename_stem("a/.."), "Phone Upload");
    assert_eq!(filename_stem("voice-memo.m4a"), "voice-memo");
}

#[test]
fn the_stem_of_a_plain_name_is_the_name_without_its_extension() {
    for (name, wanted) in [
        ("a.tar.gz", "a.tar"), (".hidden", ".hidden"), ("..a", "."), ("a.", "a"), ("...", ".."),
        ("no extension", "no extension"),
    ] {
        assert_eq!(filename_stem(name), wanted);
    }
    assert_eq!(filename_stem("x/y.z/"), "y");
}

#[test]
fn no_stem_holds_a_slash() {
    for name in ["C:/a", "C:a/b.c", "1:/a/b", "//x/y/z", "\\\\x/y/z.w/", "//", "/:/a", "a/b/"] {
        let stem = filename_stem(name);
        assert!(!stem.is_empty() && !stem.contains('/'), "{:?}", name);
    }
    assert_eq!(filename_stem("C:/a.b"), "a");
    assert_eq!(filename_stem("//x/y/z.w"), "z");
}

#[test]
fn stored_names_bear_the_stamp() {
    assert_eq!(
        stamped_filename("20260707_120000", "voice-memo.m4a"),
        "phone_20260707_120000_voice-memo.m4a"
    );
}

#[test]
fn stored_names_bear_the_time_of_arrival() {
    let before = chrono::Utc::now().format("%Y%m%d_%H%M%S").to_string();
    let name = unique_upload_filename("memo.m4a");
    let after = chrono::Utc::now().format("%Y%m%d_%H%M%S").to_string();
    assert!(name.starts_with("phone_") && name.ends_with("_memo.m4a"));
    let stamp = &name["phone_".len()..name.len() - "_memo.m4a".len()];
    assert_eq!(stamp.len(), 15);
    assert_eq!(stamp.as_bytes()[8], b'_');
    assert!(before.as_str() <= stamp && stamp <= after.as_str());
}

#[test]
fn stored_names_differ_where_stamp_or_name_does() {
    let name = stamped_filename("20260707_120000", "a");
    assert_ne!(name, stamped_filename("20260707_120001", "a"));
    assert_ne!(name, stamped_filename("20260707_120000", "b"));
}
