use afp_dumper::text::{cp500, decode, escape, sniff, Encoding, EncodingMode};

// ebcdic bytes for the given ascii string, via the cp500 table
fn to_ebcdic(s: &str) -> Vec<u8> {
    s.chars()
        .map(|c| (0u16..=255).position(|b| cp500(b as u8) == c).unwrap() as u8)
        .collect()
}

#[test]
fn detects_ebcdic_uppercase_and_digits() {
    // the regression the naive "is alphanumeric" rule gets wrong: under
    // latin-1 these decode to accented letters, which are alphanumeric
    for s in ["ACCOUNT", "0012345"] {
        let (text, enc) = decode(&to_ebcdic(s), EncodingMode::Auto);
        assert_eq!(enc, Encoding::Ebcdic, "{s}");
        assert_eq!(text, s);
    }
}

#[test]
fn detects_ebcdic_mixed_case_and_punctuation() {
    for s in ["Sample AFP file  ", "201006-CURRENT", "not defined"] {
        let (text, enc) = decode(&to_ebcdic(s), EncodingMode::Auto);
        assert_eq!(enc, Encoding::Ebcdic, "{s}");
        assert_eq!(text, s);
    }
}

#[test]
fn keeps_ascii_with_early_punctuation() {
    // these are the cases a strict "all alphanumeric" probe flips to
    // ebcdic by mistake
    for s in [
        "Real ASCII NOP here",
        "ACCOUNT_ID=12345",
        "2010-06-01 CURRENT",
        "{\"k\":\"v\"}",
    ] {
        let (text, enc) = decode(s.as_bytes(), EncodingMode::Auto);
        assert_eq!(enc, Encoding::Ascii, "{s}");
        assert_eq!(text, s);
    }
}

#[test]
fn ebcdic_pad_bytes_do_not_confuse_the_probe() {
    let mut bytes = to_ebcdic("AB");
    bytes.extend(std::iter::repeat(0x40).take(20));
    let (text, enc) = decode(&bytes, EncodingMode::Auto);
    assert_eq!(enc, Encoding::Ebcdic);
    assert_eq!(text.trim_end(), "AB");
}

#[test]
fn forced_modes_skip_the_probe() {
    let bytes = to_ebcdic("ACCOUNT");
    assert_eq!(decode(&bytes, EncodingMode::Ascii).1, Encoding::Ascii);
    assert_eq!(decode(b"plain", EncodingMode::Ebcdic).1, Encoding::Ebcdic);
}

#[test]
fn empty_and_blank_input_defaults_to_ascii() {
    assert_eq!(decode(b"", EncodingMode::Auto).1, Encoding::Ascii);
    assert_eq!(decode(b"    ", EncodingMode::Auto).1, Encoding::Ascii);
}

#[test]
fn escapes_control_bytes() {
    assert_eq!(escape("a\tb\u{0}c"), "a\\tb\\x00c");
}

#[test]
fn escape_writes_cr_and_del() {
    assert_eq!(escape("x\ry\u{7f}z\u{1b}"), "x\\ry\\x7fz\\x1b");
    assert_eq!(escape("plain é"), "plain é");
}

#[test]
fn the_probe_commits_after_ten_significant_bytes() {
    // ten printable bytes, then a byte above 0x7e: the probe has already
    // committed to ascii
    let mut bytes = b"ABCDEFGHIJ".to_vec();
    bytes.push(0xc1);
    assert_eq!(sniff(&bytes), Encoding::Ascii);
    // nine printable bytes, blanks between them, then the high byte: ebcdic
    let mut bytes = b"A B\tC\r\nD\0EFGHI".to_vec();
    bytes.push(0xc1);
    assert_eq!(sniff(&bytes), Encoding::Ebcdic);
}

#[test]
fn ascii_decoding_is_latin1() {
    let (text, enc) = decode(&[0x41, 0xe9, 0x7e], EncodingMode::Ascii);
    assert_eq!(enc, Encoding::Ascii);
    assert_eq!(text, "A\u{e9}~");
}

#[test]
fn cp500_maps_letters_digits_and_pad() {
    assert_eq!(cp500(0xc1), 'A');
    assert_eq!(cp500(0xe9), 'Z');
    assert_eq!(cp500(0x81), 'a');
    assert_eq!(cp500(0xf0), '0');
    assert_eq!(cp500(0x40), ' ');
    assert_eq!(cp500(0x4a), '[');
    assert_eq!(cp500(0xff), '\u{9f}');
}

#[test]
fn encoding_names() {
    assert_eq!(Encoding::Ascii.name(), "ascii");
    assert_eq!(Encoding::Ebcdic.name(), "ebcdic");
}

#[test]
fn escaped_text_stays_on_one_line() {
    assert_eq!(escape("a\nb"), "a\\x0ab");
    let all: String = (0u8..0x80).map(|b| b as char).collect();
    assert!(escape(&all).chars().all(|c| (c as u32) >= 0x20 && c as u32 != 0x7f));
}
