use stickoverlay::text::chars_of;
use stickoverlay::text::lower_case;
use stickoverlay::text::parse_u32;
use stickoverlay::text::push_decimal;
use stickoverlay::text::push_text;
use stickoverlay::text::spells;
use stickoverlay::text::string_of;
use stickoverlay::text::trim;
use stickoverlay::text::white_space;
use stickoverlay::text::IntError;

fn decimal(n: u64) -> String {
    let mut out = String::new();
    push_decimal(&mut out, n);
    out
}

fn read(text: &str, radix: u32) -> Result<u32, IntError> {
    parse_u32(&chars_of(text), radix)
}

#[test]
fn characters_and_strings_convert_both_ways() {
    let chars = chars_of("aé#𝄞");
    assert_eq!(chars, vec!['a', 'é', '#', '𝄞']);
    assert_eq!(string_of(&chars), "aé#𝄞");
    assert_eq!(string_of(&[]), "");
    assert!(spells(&chars, "aé#𝄞"));
    assert!(!spells(&chars, "aé#"));
    assert!(!spells(&chars, "aé#x"));
}

#[test]
fn texts_are_appended() {
    let mut out = "ab".to_string();
    push_text(&mut out, "cdé");
    assert_eq!(out, "abcdé");
}

#[test]
fn only_ascii_letters_change_case() {
    let lower = lower_case(&chars_of("AZaz[@É9"));
    assert_eq!(string_of(&lower), "azaz[@É9");
}

#[test]
fn numerals_have_no_leading_zeros() {
    assert_eq!(decimal(0), "0");
    assert_eq!(decimal(7), "7");
    assert_eq!(decimal(10), "10");
    assert_eq!(decimal(1907), "1907");
    assert_eq!(decimal(u64::MAX), u64::MAX.to_string());
}

#[test]
fn numerals_read_back() {
    for n in [0, 1, 9, 10, 99, 100, 4096, 4294967295u32] {
        assert_eq!(read(&decimal(n as u64), 10), Ok(n));
    }
}

#[test]
fn different_numbers_have_different_numerals() {
    let mut all: Vec<String> = (0..2000u64).map(decimal).collect();
    all.sort();
    all.dedup();
    assert_eq!(all.len(), 2000);
}

#[test]
fn integers_are_read_as_the_standard_library_reads_them() {
    for text in [
        "", "+", "-", "0", "+0", "-0", "007", "+12", "++1", "1+", " 1", "1 ", "ff", "FF", "fg", "4294967295",
        "4294967296", "99999999999999999999", "4294967296x", "x4294967296", "+ffffffff", "100000000", "é",
    ] {
        for radix in [10, 16] {
            assert_eq!(read(text, radix).ok(), u32::from_str_radix(text, radix).ok(), "{text:?} {radix}");
        }
    }
}

#[test]
fn integer_errors_tell_what_is_wrong() {
    assert_eq!(read("", 10), Err(IntError::Empty));
    assert_eq!(read("+", 10), Err(IntError::InvalidDigit));
    assert_eq!(read("12x", 10), Err(IntError::InvalidDigit));
    assert_eq!(read("4294967296", 10), Err(IntError::PosOverflow));
    for text in ["", "x", "4294967296"] {
        let ours = read(text, 10).unwrap_err().message();
        let theirs = text.parse::<u32>().unwrap_err().to_string();
        assert_eq!(ours, theirs);
    }
}

#[test]
fn white_space_is_that_of_unicode() {
    for code in 0..=0x10ffffu32 {
        if let Some(c) = char::from_u32(code) {
            assert_eq!(white_space(c), c.is_whitespace(), "{code:x}");
        }
    }
}

#[test]
fn white_space_goes_at_both_ends_only() {
    for text in ["", " ", " \t\n", "a", " a", "a ", "\u{3000} a b \u{a0}", "a b"] {
        let chars = chars_of(text);
        assert_eq!(string_of(trim(&chars)), text.trim());
    }
}
