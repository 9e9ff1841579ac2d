//! The encoding of form fields in a query: a plus sign for a space, `%` and two hexadecimal digits
//! for any other byte.
use crate::text::{
    from_utf8_lossy, is_white_space, lemma_encode_without, lossy_text, repaired_utf8,
};
use vstd::prelude::*;
use vstd::utf8::{
    encode_scalar, encode_utf8, encode_utf8_decode_utf8, encode_utf8_valid_utf8, is_ascii_chars,
    is_ascii_chars_encode_utf8, valid_utf8,
};

verus! {

/// The number that a hexadecimal digit stands for.
pub open spec fn hex_value(b: u8) -> Option<u8> {
    if 0x30 <= b <= 0x39 {
        Some((b - 0x30) as u8)
    } else if 0x41 <= b <= 0x46 {
        Some((b - 0x37) as u8)
    } else if 0x61 <= b <= 0x66 {
        Some((b - 0x57) as u8)
    } else {
        None
    }
}

/// The byte that the two bytes behind a `%` stand for: two hexadecimal digits of either case, or a
/// plus sign and one such digit.
pub open spec fn hex_pair(hi: u8, lo: u8) -> Option<u8> {
    match (hex_value(hi), hex_value(lo)) {
        (Some(h), Some(l)) => Some((16 * h + l) as u8),
        (None, Some(l)) => if hi == 0x2B {
            Some(l)
        } else {
            None
        },
        _ => None,
    }
}

/// The bytes that an encoded run of bytes stands for. A `%` takes the two bytes behind it with it,
/// whether or not they stand for a byte; one with fewer than two bytes behind it ends the run.
pub open spec fn percent_bytes(s: Seq<u8>) -> Seq<u8>
    decreases s.len(),
{
    if s.len() == 0 {
        seq![]
    } else if s[0] == 0x2B {
        seq![0x20u8] + percent_bytes(s.skip(1))
    } else if s[0] == 0x25 {
        if s.len() < 3 {
            seq![]
        } else {
            match hex_pair(s[1], s[2]) {
                Some(b) => seq![b] + percent_bytes(s.skip(3)),
                None => percent_bytes(s.skip(3)),
            }
        }
    } else {
        seq![s[0]] + percent_bytes(s.skip(1))
    }
}

/// The text that an encoded text stands for.
pub open spec fn percent_decoded(s: Seq<char>) -> Seq<char> {
    lossy_text(percent_bytes(encode_utf8(s)))
}

/// The number that a hexadecimal digit stands for.
fn hex_digit(b: u8) -> (value: Option<u8>)
    ensures
        value == hex_value(b),
{
    if 0x30 <= b && b <= 0x39 {
        Some(b - 0x30)
    } else if 0x41 <= b && b <= 0x46 {
        Some(b - 0x37)
    } else if 0x61 <= b && b <= 0x66 {
        Some(b - 0x57)
    } else {
        None
    }
}

/// The byte that the two bytes behind a `%` stand for.
pub fn decode_hex_pair(hi: u8, lo: u8) -> (byte: Option<u8>)
    ensures
        byte == hex_pair(hi, lo),
{
    match hex_digit(lo) {
        Some(l) => match hex_digit(hi) {
            Some(h) => Some(16 * h + l),
            None => if hi == 0x2B {
                Some(l)
            } else {
                None
            },
        },
        None => None,
    }
}

/// The bytes that encoded bytes stand for.
pub fn decode_bytes(encoded: &[u8]) -> (bytes: Vec<u8>)
    ensures
        bytes@ == percent_bytes(encoded@),
{
    let mut bytes: Vec<u8> = Vec::new();
    let mut at: usize = 0;
    assert(encoded@.skip(0) == encoded@);
    while at < encoded.len()
        invariant
            at <= encoded@.len(),
            bytes@ + percent_bytes(encoded@.skip(at as int)) == percent_bytes(encoded@),
        decreases encoded@.len() - at,
    {
        let ghost before = bytes@;
        let ghost rest = encoded@.skip(at as int);
        let b = encoded[at];
        if b == 0x2B {
            bytes.push(0x20);
            assert(rest.skip(1) == encoded@.skip(at + 1));
            assert(before + percent_bytes(rest) == bytes@ + percent_bytes(encoded@.skip(at + 1)));
            at += 1;
        } else if b == 0x25 {
            if encoded.len() - at < 3 {
                assert(encoded@.skip(encoded@.len() as int) == Seq::<u8>::empty());
                assert(before + percent_bytes(rest) == bytes@ + percent_bytes(Seq::<u8>::empty()));
                at = encoded.len();
            } else {
                let byte = decode_hex_pair(encoded[at + 1], encoded[at + 2]);
                if let Some(value) = byte {
                    bytes.push(value);
                }
                assert(rest.skip(3) == encoded@.skip(at + 3));
                assert(before + percent_bytes(rest) == bytes@ + percent_bytes(
                    encoded@.skip(at + 3),
                ));
                at += 3;
            }
        } else {
            bytes.push(b);
            assert(rest.skip(1) == encoded@.skip(at + 1));
            assert(before + percent_bytes(rest) == bytes@ + percent_bytes(encoded@.skip(at + 1)));
            at += 1;
        }
    }
    assert(encoded@.skip(at as int) == Seq::<u8>::empty());
    assert(bytes@ + Seq::<u8>::empty() == bytes@);
    bytes
}

/// The text that an encoded text stands for.
pub fn percent_decode(value: &str) -> (text: String)
    ensures
        text@ == percent_decoded(value@),
{
    let bytes = decode_bytes(value.as_bytes());
    from_utf8_lossy(bytes.as_slice())
}

// ---------------------------------------------------------------------------------------------
// What a browser writes into a query, and that it is read back.
// ---------------------------------------------------------------------------------------------

/// Whether a browser writes the byte into a form field as it stands.
pub open spec fn is_plain_byte(b: u8) -> bool {
    ||| 0x30 <= b <= 0x39
    ||| 0x41 <= b <= 0x5A
    ||| 0x61 <= b <= 0x7A
    ||| b == 0x2A
    ||| b == 0x2D
    ||| b == 0x2E
    ||| b == 0x5F
}

/// The upper case hexadecimal digit that stands for `n`.
pub open spec fn hex_digit_of(n: int) -> u8 {
    if n < 10 {
        (n + 0x30) as u8
    } else {
        (n + 0x37) as u8
    }
}

/// What a browser writes for one byte of a form field.
pub open spec fn form_byte(b: u8) -> Seq<u8> {
    if b == 0x20 {
        seq![0x2Bu8]
    } else if is_plain_byte(b) {
        seq![b]
    } else {
        seq![0x25u8, hex_digit_of(b as int / 16), hex_digit_of(b as int % 16)]
    }
}

/// What a browser writes for the bytes of a form field.
pub open spec fn form_bytes(s: Seq<u8>) -> Seq<u8>
    decreases s.len(),
{
    if s.len() == 0 {
        seq![]
    } else {
        form_byte(s[0]) + form_bytes(s.skip(1))
    }
}

/// What a browser writes for the text of a form field (`application/x-www-form-urlencoded`).
pub open spec fn form_encoded(s: Seq<char>) -> Seq<char> {
    form_bytes(encode_utf8(s)).map_values(|b: u8| b as char)
}

/// A byte that is written to a form field is read back.
proof fn lemma_form_byte(b: u8, rest: Seq<u8>)
    ensures
        percent_bytes(form_byte(b) + rest) == seq![b] + percent_bytes(rest),
{
    let s = form_byte(b) + rest;
    if b == 0x20 || is_plain_byte(b) {
        assert(s.skip(1) == rest);
    } else {
        assert(s.skip(3) == rest);
        let h = hex_digit_of(b as int / 16);
        let l = hex_digit_of(b as int % 16);
        assert(s[1] == h && s[2] == l);
        assert(hex_pair(h, l) == Some(b));
    }
}

proof fn lemma_form_bytes(s: Seq<u8>)
    ensures
        percent_bytes(form_bytes(s)) == s,
    decreases s.len(),
{
    if s.len() > 0 {
        lemma_form_bytes(s.skip(1));
        lemma_form_byte(s[0], form_bytes(s.skip(1)));
        assert(seq![s[0]] + s.skip(1) == s);
    }
}

/// Whether the byte can stand in an encoded form field.
pub open spec fn is_form_byte(b: u8) -> bool {
    is_plain_byte(b) || b == 0x2B || b == 0x25
}

proof fn lemma_form_bytes_alphabet(s: Seq<u8>)
    ensures
        forall|i: int| 0 <= i < form_bytes(s).len() ==> is_form_byte(#[trigger] form_bytes(s)[i]),
    decreases s.len(),
{
    if s.len() > 0 {
        lemma_form_bytes_alphabet(s.skip(1));
        let first = form_byte(s[0]);
        let rest = form_bytes(s.skip(1));
        assert forall|i: int| 0 <= i < form_bytes(s).len() implies is_form_byte(
            #[trigger] form_bytes(s)[i],
        ) by {
            if i < first.len() {
                assert(form_bytes(s)[i] == first[i]);
            } else {
                assert(form_bytes(s)[i] == rest[i - first.len()]);
            }
        }
    }
}

/// An encoded form field holds none of the characters that part a query, no `&`, `=` or `?`, and no
/// white space.
pub proof fn lemma_form_encoded_alphabet(s: Seq<char>)
    ensures
        is_ascii_chars(form_encoded(s)),
        forall|i: int|
            0 <= i < form_encoded(s).len() ==> !is_white_space(#[trigger] form_encoded(s)[i]),
        !form_encoded(s).contains('&'),
        !form_encoded(s).contains('='),
        !form_encoded(s).contains('?'),
{
    let bytes = form_bytes(encode_utf8(s));
    lemma_form_bytes_alphabet(encode_utf8(s));
    assert forall|i: int| 0 <= i < form_encoded(s).len() implies '\0' <= #[trigger] form_encoded(
        s,
    )[i] <= '\u{7f}' && form_encoded(s)[i] != '&' && form_encoded(s)[i] != '=' && form_encoded(
        s,
    )[i] != '?' by {
        assert(is_form_byte(bytes[i]));
    }
    assert forall|i: int| 0 <= i < form_encoded(s).len() implies !is_white_space(
        #[trigger] form_encoded(s)[i],
    ) by {
        assert(is_form_byte(bytes[i]));
    }
}

/// The text of a form field that a browser encoded is read back, whatever characters it holds.
pub proof fn lemma_form_field_round_trip(s: Seq<char>)
    ensures
        percent_decoded(form_encoded(s)) == s,
{
    let bytes = form_bytes(encode_utf8(s));
    lemma_form_encoded_alphabet(s);
    lemma_form_bytes_alphabet(encode_utf8(s));
    is_ascii_chars_encode_utf8(form_encoded(s));
    assert(encode_utf8(form_encoded(s)) == bytes) by {
        assert forall|i: int| 0 <= i < bytes.len() implies encode_utf8(form_encoded(s))[i]
            == bytes[i] by {
            assert(form_encoded(s)[i] == bytes[i] as char);
            assert(is_form_byte(bytes[i]));
        }
    }
    lemma_form_bytes(encode_utf8(s));
    encode_utf8_valid_utf8(s);
    encode_utf8_decode_utf8(s);
}

/// Text without `%` and `+` stands for itself.
pub proof fn lemma_plain_text_decodes_to_itself(s: Seq<char>)
    requires
        !s.contains('%'),
        !s.contains('+'),
    ensures
        percent_decoded(s) == s,
{
    lemma_encode_without(s, '%');
    lemma_encode_without(s, '+');
    let bytes = encode_utf8(s);
    assert forall|i: int| 0 <= i < bytes.len() implies bytes[i] != 0x25 && bytes[i] != 0x2B by {
        assert(bytes.contains(bytes[i]));
    }
    lemma_plain_bytes(bytes);
    encode_utf8_valid_utf8(s);
    encode_utf8_decode_utf8(s);
}

proof fn lemma_plain_bytes(s: Seq<u8>)
    requires
        forall|i: int| 0 <= i < s.len() ==> s[i] != 0x25 && s[i] != 0x2B,
    ensures
        percent_bytes(s) == s,
    decreases s.len(),
{
    if s.len() > 0 {
        lemma_plain_bytes(s.skip(1));
        assert(seq![s[0]] + s.skip(1) == s);
    }
}

// ---------------------------------------------------------------------------------------------
// What each byte of an encoded field stands for.
// ---------------------------------------------------------------------------------------------

/// Whether the byte is the hexadecimal digit for `n`, in upper or lower case.
pub open spec fn is_hex_digit_for(b: u8, n: int) -> bool {
    ||| 0 <= n < 10 && b == n + 48
    ||| 10 <= n < 16 && (b == n + 55 || b == n + 87)
}

/// Two bytes stand for sixteen times the first digit and the second, a plus sign counting as a first
/// digit of zero; and for nothing where they are no such digits.
pub proof fn lemma_hex_pair_is(hi: u8, lo: u8, b: u8)
    ensures
        hex_pair(hi, lo) == Some(b) <==> exists|h: int, l: int|
            #![trigger is_hex_digit_for(hi, h), is_hex_digit_for(lo, l)]
            (is_hex_digit_for(hi, h) || (hi == 43 && h == 0)) && is_hex_digit_for(lo, l) && b == 16
                * h + l,
{
    if hex_pair(hi, lo) == Some(b) {
        let l = hex_value(lo)->0 as int;
        assert(is_hex_digit_for(lo, l));
        let h: int = if hi == 43 {
            0
        } else {
            hex_value(hi)->0 as int
        };
        assert(is_hex_digit_for(hi, h) || (hi == 43 && h == 0));
        assert(b == 16 * h + l);
    }
}

/// Bytes other than `%` and `+` stand for themselves, and a `+` for a space.
pub proof fn lemma_percent_bytes_plain(plain: Seq<u8>, rest: Seq<u8>)
    requires
        forall|i: int| 0 <= i < plain.len() ==> plain[i] != 37 && plain[i] != 43,
    ensures
        percent_bytes(Seq::empty()) == Seq::<u8>::empty(),
        percent_bytes(plain + rest) == plain + percent_bytes(rest),
        percent_bytes(seq![43u8] + rest) == seq![32u8] + percent_bytes(rest),
    decreases plain.len(),
{
    assert((seq![43u8] + rest).skip(1) == rest);
    if plain.len() == 0 {
        assert(plain + rest == rest);
        assert(plain + percent_bytes(rest) == percent_bytes(rest));
    } else {
        let more = plain.skip(1);
        lemma_percent_bytes_plain(more, rest);
        assert((plain + rest).skip(1) == more + rest);
        assert((plain + rest)[0] == plain[0]);
        assert(seq![plain[0]] + (more + percent_bytes(rest)) == plain + percent_bytes(rest));
    }
}

/// A `%` and the two bytes behind it stand for one byte, or for none; a `%` with fewer behind it
/// stands for nothing, and so do those.
pub proof fn lemma_percent_bytes_escape(hi: u8, lo: u8, rest: Seq<u8>)
    ensures
        percent_bytes(seq![37u8, hi, lo] + rest) == match hex_pair(hi, lo) {
            Some(b) => seq![b] + percent_bytes(rest),
            None => percent_bytes(rest),
        },
        percent_bytes(seq![37u8, hi]) == Seq::<u8>::empty(),
        percent_bytes(seq![37u8]) == Seq::<u8>::empty(),
{
    assert((seq![37u8, hi, lo] + rest).skip(3) == rest);
}

/// Where the bytes that an encoded text stands for are the encoding of a text, it stands for that
/// text; where they are no encoding, for what they are repaired to.
pub proof fn lemma_percent_decoded_is(s: Seq<char>, t: Seq<char>)
    ensures
        percent_bytes(encode_utf8(s)) == encode_utf8(t) ==> percent_decoded(s) == t,
        !valid_utf8(percent_bytes(encode_utf8(s))) ==> percent_decoded(s) == repaired_utf8(
            percent_bytes(encode_utf8(s)),
        ),
{
    encode_utf8_valid_utf8(t);
    encode_utf8_decode_utf8(t);
}

/// `s` with a space for each `+`.
pub open spec fn spaced(s: Seq<char>) -> Seq<char> {
    s.map_values(|c: char| if c == '+' { ' ' } else { c })
}

proof fn lemma_plus_bytes(s: Seq<char>)
    requires
        !s.contains('%'),
    ensures
        percent_bytes(encode_utf8(s)) == encode_utf8(spaced(s)),
    decreases s.len(),
{
    if s.len() > 0 {
        let c = s[0];
        let rest = s.drop_first();
        assert(s.contains(c));
        assert forall|i: int| 0 <= i < rest.len() implies rest[i] != '%' by {
            assert(s.contains(s[i + 1]));
        }
        lemma_plus_bytes(rest);
        assert(spaced(s).drop_first() == spaced(rest));
        if c == '+' {
            assert((43u32 & 0x7F) as u8 == 43u8) by (bit_vector);
            assert((32u32 & 0x7F) as u8 == 32u8) by (bit_vector);
            assert(encode_scalar('+' as u32) == seq![43u8]);
            assert(encode_scalar(' ' as u32) == seq![32u8]);
            lemma_percent_bytes_plain(Seq::empty(), encode_utf8(rest));
        } else {
            let one = seq![c];
            let bytes = encode_scalar(c as u32);
            assert(one.drop_first() == Seq::<char>::empty());
            assert(encode_utf8(Seq::<char>::empty()) == Seq::<u8>::empty());
            assert(encode_utf8(one) == bytes);
            lemma_encode_without(one, '%');
            lemma_encode_without(one, '+');
            assert forall|i: int| 0 <= i < bytes.len() implies bytes[i] != 37 && bytes[i] != 43 by {
                assert(bytes.contains(bytes[i]));
            }
            lemma_percent_bytes_plain(bytes, encode_utf8(rest));
        }
    }
}

/// Text without `%` stands for itself with a space for each `+`.
pub proof fn lemma_plus_is_space(s: Seq<char>)
    requires
        !s.contains('%'),
    ensures
        percent_decoded(s).len() == s.len(),
        forall|i: int|
            0 <= i < s.len() ==> #[trigger] percent_decoded(s)[i] == if s[i] == '+' {
                ' '
            } else {
                s[i]
            },
{
    lemma_plus_bytes(s);
    lemma_percent_decoded_is(s, spaced(s));
}

} // verus!
