use meetily_audio::decimal::{decimal_text, parse_usize};
use meetily_audio::text::{
    chars_of, lines_of, lower_chars, same_text, split_chars, split_chars_once, text_of, trim,
    white_space, words_of,
};

fn strings(parts: Vec<Vec<char>>) -> Vec<String> {
    parts.iter().map(|part| text_of(part.as_slice())).collect()
}

#[test]
fn white_space_is_that_of_unicode() {
    for code in 0u32..=0x10FFFF {
        if let Some(c) = char::from_u32(code) {
            assert_eq!(white_space(c), c.is_whitespace(), "{:x}", code);
        }
    }
}

#[test]
fn characters_go_in_and_out() {
    let text = "h\u{e9}llo \u{1F600}";
    assert_eq!(chars_of(text), vec!['h', '\u{e9}', 'l', 'l', 'o', ' ', '\u{1F600}']);
    assert_eq!(text_of(chars_of(text).as_slice()), text);
    assert!(same_text(text, text));
    assert!(!same_text(text, "hello"));
    assert!(!same_text("ab", "abc"));
}

#[test]
fn trims_white_space_at_both_ends() {
    for text in ["", " ", "a", " a ", "\t\u{a0}a b\u{3000}\n", "\u{2028}\u{2029}", "a\u{200b}"] {
        assert_eq!(trim(text), text.trim());
        assert_eq!(trim(&trim(text)), trim(text));
    }
}

#[test]
fn splits_at_separators() {
    for text in ["", "&", "a", "a&b", "&a&&b&", "a=b&c"] {
        let found = strings(split_chars(chars_of(text).as_slice(), '&'));
        let wanted: Vec<String> = text.split('&').map(|part| part.to_string()).collect();
        assert_eq!(found, wanted);
        let once = split_chars_once(chars_of(text).as_slice(), '&')
            .map(|(a, b)| (text_of(a.as_slice()), text_of(b.as_slice())));
        let wanted_once = text
            .split_once('&')
            .map(|(a, b)| (a.to_string(), b.to_string()));
        assert_eq!(once, wanted_once);
    }
}

#[test]
fn finds_lines_and_words() {
    for text in ["", "\n", "a", "a\n", "a\r\nb", "a\r\r\nb\r", "\r\n\r\n", " GET  / \t x\r\n y"] {
        let lines = strings(lines_of(chars_of(text).as_slice()));
        let wanted: Vec<String> = text.lines().map(|line| line.to_string()).collect();
        assert_eq!(lines, wanted, "{:?}", text);
        let words = strings(words_of(chars_of(text).as_slice()));
        let wanted: Vec<String> = text.split_whitespace().map(|word| word.to_string()).collect();
        assert_eq!(words, wanted, "{:?}", text);
    }
}

#[test]
fn lowers_ascii_letters_only() {
    let text = "Content-LENGTH @[`{ \u{c9}";
    assert_eq!(text_of(lower_chars(chars_of(text).as_slice()).as_slice()), text.to_ascii_lowercase());
}

#[test]
fn writes_decimal_numbers() {
    for n in [0u64, 7, 10, 65535, 131072, u64::MAX] {
        assert_eq!(decimal_text(n), n.to_string());
    }
}

#[test]
fn reads_lengths_as_the_standard_library_does() {
    for text in [
        "", "0", "7", "+7", "-7", "-0", "+", "++1", "1 ", " 1", "12a", "007", "65536", "\u{0661}",
        "18446744073709551615", "18446744073709551616", "99999999999999999999999",
        "0000000000000000000000000000000000001",
    ] {
        assert_eq!(parse_usize(chars_of(text).as_slice()), text.parse::<usize>().ok(), "{}", text);
    }
}

#[test]
fn reads_back_a_length_that_was_written() {
    for n in [0usize, 1, 9, 10, 4096, 1_000_000_007, usize::MAX] {
        let text = decimal_text(n as u64);
        assert_eq!(parse_usize(chars_of(&text).as_slice()), Some(n));
    }
}
