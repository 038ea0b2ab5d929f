use vstd::prelude::*;

use crate::strings::push_char;
use vstd::std_specs::iter::IteratorSpec;

verus! {

broadcast use vstd::string::group_string_axioms;

/// The encoding a record's text was decoded with.
#[derive(Debug, Clone, Copy, PartialEq, Eq, Structural)]
pub enum Encoding {
    Ascii,
    Ebcdic,
}

impl Encoding {
    /// The encoding's name, as shown to users.
    pub fn name(&self) -> (s: &'static str)
        ensures
            s@ == (match self {
                Encoding::Ascii => "ascii"@,
                Encoding::Ebcdic => "ebcdic"@,
            }),
    {
        match self {
            Encoding::Ascii => "ascii",
            Encoding::Ebcdic => "ebcdic",
        }
    }
}

/// How to decode dumped text: detect per record, or force one encoding.
#[derive(Debug, Clone, Copy, PartialEq, Eq, Structural)]
pub enum EncodingMode {
    Auto,
    Ascii,
    Ebcdic,
}

/// How many significant bytes the sniffer looks at before committing.
pub const PROBE_LEN: usize = 10;

/// Space, NUL, tab, CR and LF: bytes the sniffer passes over.
pub open spec fn is_blank(b: u8) -> bool {
    b == 0x20 || b == 0x00 || b == 0x09 || b == 0x0d || b == 0x0a
}

pub open spec fn is_printable_ascii(b: u8) -> bool {
    0x20 <= b <= 0x7e
}

/// The bytes the sniffer looks at, in order.
pub open spec fn significant(bytes: Seq<u8>) -> Seq<u8> {
    bytes.filter(|b: u8| !is_blank(b))
}

/// Encoding is arbitrary per record and both can appear in one file, so it
/// is decided per record from the bytes themselves: EBCDIC exactly when one
/// of the first `PROBE_LEN` significant bytes is not printable ASCII. This
/// works because EBCDIC letters (C1-E9), digits (F0-F9) and its X'40' pad all
/// sit at or above 0x80.
pub open spec fn sniffed(bytes: Seq<u8>) -> Encoding {
    if exists|k: int|
        0 <= k < significant(bytes).len() && k < PROBE_LEN && !is_printable_ascii(
            #[trigger] significant(bytes)[k],
        ) {
        Encoding::Ebcdic
    } else {
        Encoding::Ascii
    }
}

proof fn lemma_significant_take(bytes: Seq<u8>, i: int)
    requires
        0 <= i < bytes.len(),
    ensures
        significant(bytes.take(i + 1)) == if is_blank(bytes[i]) {
            significant(bytes.take(i))
        } else {
            significant(bytes.take(i)).push(bytes[i])
        },
{
    reveal(Seq::filter);
    assert(bytes.take(i + 1).drop_last() == bytes.take(i));
}

proof fn lemma_significant_prefix(bytes: Seq<u8>, i: int)
    requires
        0 <= i <= bytes.len(),
    ensures
        significant(bytes.take(i)).len() <= significant(bytes).len(),
        forall|k: int|
            0 <= k < significant(bytes.take(i)).len() ==> #[trigger] significant(bytes)[k] == significant(
                bytes.take(i),
            )[k],
{
    let p = |b: u8| !is_blank(b);
    assert(bytes == bytes.take(i) + bytes.skip(i));
    Seq::filter_distributes_over_add(bytes.take(i), bytes.skip(i), p);
}

/// Decides the encoding of a record's bytes.
pub fn sniff(bytes: &[u8]) -> (e: Encoding)
    ensures
        e == sniffed(bytes@),
{
    let mut seen: usize = 0;
    let mut i: usize = 0;
    while i < bytes.len()
        invariant
            0 <= i <= bytes@.len(),
            seen == significant(bytes@.take(i as int)).len(),
            seen < PROBE_LEN,
            forall|k: int| 0 <= k < seen ==> is_printable_ascii(#[trigger] significant(bytes@.take(i as int))[k]),
        decreases bytes@.len() - i,
    {
        let b = bytes[i];
        proof {
            lemma_significant_take(bytes@, i as int);
        }
        if b == 0x20 || b == 0x00 || b == 0x09 || b == 0x0d || b == 0x0a {
            i += 1;
            continue;
        }
        if !(0x20 <= b && b <= 0x7e) {
            proof {
                lemma_significant_prefix(bytes@, i + 1);
                assert(significant(bytes@.take(i + 1))[seen as int] == b);
                assert(!is_printable_ascii(significant(bytes@)[seen as int]));
            }
            return Encoding::Ebcdic;
        }
        seen += 1;
        i += 1;
        if seen == PROBE_LEN {
            proof {
                lemma_significant_prefix(bytes@, i as int);
                assert forall|k: int|
                    0 <= k < significant(bytes@).len() && k < PROBE_LEN implies is_printable_ascii(
                    #[trigger] significant(bytes@)[k],
                ) by {
                    assert(significant(bytes@)[k] == significant(bytes@.take(i as int))[k]);
                }
            }
            return Encoding::Ascii;
        }
    }
    proof {
        assert(bytes@.take(i as int) == bytes@);
    }
    Encoding::Ascii
}

/// CP500, EBCDIC International, as Unicode.
pub open spec fn cp500_char(b: u8) -> char {
    match b {
            0x00 => '\u{0000}', 0x01 => '\u{0001}', 0x02 => '\u{0002}', 0x03 => '\u{0003}',
            0x04 => '\u{009C}', 0x05 => '\u{0009}', 0x06 => '\u{0086}', 0x07 => '\u{007F}',
            0x08 => '\u{0097}', 0x09 => '\u{008D}', 0x0A => '\u{008E}', 0x0B => '\u{000B}',
            0x0C => '\u{000C}', 0x0D => '\u{000D}', 0x0E => '\u{000E}', 0x0F => '\u{000F}',
            0x10 => '\u{0010}', 0x11 => '\u{0011}', 0x12 => '\u{0012}', 0x13 => '\u{0013}',
            0x14 => '\u{009D}', 0x15 => '\u{0085}', 0x16 => '\u{0008}', 0x17 => '\u{0087}',
            0x18 => '\u{0018}', 0x19 => '\u{0019}', 0x1A => '\u{0092}', 0x1B => '\u{008F}',
            0x1C => '\u{001C}', 0x1D => '\u{001D}', 0x1E => '\u{001E}', 0x1F => '\u{001F}',
            0x20 => '\u{0080}', 0x21 => '\u{0081}', 0x22 => '\u{0082}', 0x23 => '\u{0083}',
            0x24 => '\u{0084}', 0x25 => '\u{000A}', 0x26 => '\u{0017}', 0x27 => '\u{001B}',
            0x28 => '\u{0088}', 0x29 => '\u{0089}', 0x2A => '\u{008A}', 0x2B => '\u{008B}',
            0x2C => '\u{008C}', 0x2D => '\u{0005}', 0x2E => '\u{0006}', 0x2F => '\u{0007}',
            0x30 => '\u{0090}', 0x31 => '\u{0091}', 0x32 => '\u{0016}', 0x33 => '\u{0093}',
            0x34 => '\u{0094}', 0x35 => '\u{0095}', 0x36 => '\u{0096}', 0x37 => '\u{0004}',
            0x38 => '\u{0098}', 0x39 => '\u{0099}', 0x3A => '\u{009A}', 0x3B => '\u{009B}',
            0x3C => '\u{0014}', 0x3D => '\u{0015}', 0x3E => '\u{009E}', 0x3F => '\u{001A}',
            0x40 => '\u{0020}', 0x41 => '\u{00A0}', 0x42 => '\u{00E2}', 0x43 => '\u{00E4}',
            0x44 => '\u{00E0}', 0x45 => '\u{00E1}', 0x46 => '\u{00E3}', 0x47 => '\u{00E5}',
            0x48 => '\u{00E7}', 0x49 => '\u{00F1}', 0x4A => '\u{005B}', 0x4B => '\u{002E}',
            0x4C => '\u{003C}', 0x4D => '\u{0028}', 0x4E => '\u{002B}', 0x4F => '\u{0021}',
            0x50 => '\u{0026}', 0x51 => '\u{00E9}', 0x52 => '\u{00EA}', 0x53 => '\u{00EB}',
            0x54 => '\u{00E8}', 0x55 => '\u{00ED}', 0x56 => '\u{00EE}', 0x57 => '\u{00EF}',
            0x58 => '\u{00EC}', 0x59 => '\u{00DF}', 0x5A => '\u{005D}', 0x5B => '\u{0024}',
            0x5C => '\u{002A}', 0x5D => '\u{0029}', 0x5E => '\u{003B}', 0x5F => '\u{005E}',
            0x60 => '\u{002D}', 0x61 => '\u{002F}', 0x62 => '\u{00C2}', 0x63 => '\u{00C4}',
            0x64 => '\u{00C0}', 0x65 => '\u{00C1}', 0x66 => '\u{00C3}', 0x67 => '\u{00C5}',
            0x68 => '\u{00C7}', 0x69 => '\u{00D1}', 0x6A => '\u{00A6}', 0x6B => '\u{002C}',
            0x6C => '\u{0025}', 0x6D => '\u{005F}', 0x6E => '\u{003E}', 0x6F => '\u{003F}',
            0x70 => '\u{00F8}', 0x71 => '\u{00C9}', 0x72 => '\u{00CA}', 0x73 => '\u{00CB}',
            0x74 => '\u{00C8}', 0x75 => '\u{00CD}', 0x76 => '\u{00CE}', 0x77 => '\u{00CF}',
            0x78 => '\u{00CC}', 0x79 => '\u{0060}', 0x7A => '\u{003A}', 0x7B => '\u{0023}',
            0x7C => '\u{0040}', 0x7D => '\u{0027}', 0x7E => '\u{003D}', 0x7F => '\u{0022}',
            0x80 => '\u{00D8}', 0x81 => '\u{0061}', 0x82 => '\u{0062}', 0x83 => '\u{0063}',
            0x84 => '\u{0064}', 0x85 => '\u{0065}', 0x86 => '\u{0066}', 0x87 => '\u{0067}',
            0x88 => '\u{0068}', 0x89 => '\u{0069}', 0x8A => '\u{00AB}', 0x8B => '\u{00BB}',
            0x8C => '\u{00F0}', 0x8D => '\u{00FD}', 0x8E => '\u{00FE}', 0x8F => '\u{00B1}',
            0x90 => '\u{00B0}', 0x91 => '\u{006A}', 0x92 => '\u{006B}', 0x93 => '\u{006C}',
            0x94 => '\u{006D}', 0x95 => '\u{006E}', 0x96 => '\u{006F}', 0x97 => '\u{0070}',
            0x98 => '\u{0071}', 0x99 => '\u{0072}', 0x9A => '\u{00AA}', 0x9B => '\u{00BA}',
            0x9C => '\u{00E6}', 0x9D => '\u{00B8}', 0x9E => '\u{00C6}', 0x9F => '\u{00A4}',
            0xA0 => '\u{00B5}', 0xA1 => '\u{007E}', 0xA2 => '\u{0073}', 0xA3 => '\u{0074}',
            0xA4 => '\u{0075}', 0xA5 => '\u{0076}', 0xA6 => '\u{0077}', 0xA7 => '\u{0078}',
            0xA8 => '\u{0079}', 0xA9 => '\u{007A}', 0xAA => '\u{00A1}', 0xAB => '\u{00BF}',
            0xAC => '\u{00D0}', 0xAD => '\u{00DD}', 0xAE => '\u{00DE}', 0xAF => '\u{00AE}',
            0xB0 => '\u{00A2}', 0xB1 => '\u{00A3}', 0xB2 => '\u{00A5}', 0xB3 => '\u{00B7}',
            0xB4 => '\u{00A9}', 0xB5 => '\u{00A7}', 0xB6 => '\u{00B6}', 0xB7 => '\u{00BC}',
            0xB8 => '\u{00BD}', 0xB9 => '\u{00BE}', 0xBA => '\u{00AC}', 0xBB => '\u{007C}',
            0xBC => '\u{00AF}', 0xBD => '\u{00A8}', 0xBE => '\u{00B4}', 0xBF => '\u{00D7}',
            0xC0 => '\u{007B}', 0xC1 => '\u{0041}', 0xC2 => '\u{0042}', 0xC3 => '\u{0043}',
            0xC4 => '\u{0044}', 0xC5 => '\u{0045}', 0xC6 => '\u{0046}', 0xC7 => '\u{0047}',
            0xC8 => '\u{0048}', 0xC9 => '\u{0049}', 0xCA => '\u{00AD}', 0xCB => '\u{00F4}',
            0xCC => '\u{00F6}', 0xCD => '\u{00F2}', 0xCE => '\u{00F3}', 0xCF => '\u{00F5}',
            0xD0 => '\u{007D}', 0xD1 => '\u{004A}', 0xD2 => '\u{004B}', 0xD3 => '\u{004C}',
            0xD4 => '\u{004D}', 0xD5 => '\u{004E}', 0xD6 => '\u{004F}', 0xD7 => '\u{0050}',
            0xD8 => '\u{0051}', 0xD9 => '\u{0052}', 0xDA => '\u{00B9}', 0xDB => '\u{00FB}',
            0xDC => '\u{00FC}', 0xDD => '\u{00F9}', 0xDE => '\u{00FA}', 0xDF => '\u{00FF}',
            0xE0 => '\u{005C}', 0xE1 => '\u{00F7}', 0xE2 => '\u{0053}', 0xE3 => '\u{0054}',
            0xE4 => '\u{0055}', 0xE5 => '\u{0056}', 0xE6 => '\u{0057}', 0xE7 => '\u{0058}',
            0xE8 => '\u{0059}', 0xE9 => '\u{005A}', 0xEA => '\u{00B2}', 0xEB => '\u{00D4}',
            0xEC => '\u{00D6}', 0xED => '\u{00D2}', 0xEE => '\u{00D3}', 0xEF => '\u{00D5}',
            0xF0 => '\u{0030}', 0xF1 => '\u{0031}', 0xF2 => '\u{0032}', 0xF3 => '\u{0033}',
            0xF4 => '\u{0034}', 0xF5 => '\u{0035}', 0xF6 => '\u{0036}', 0xF7 => '\u{0037}',
            0xF8 => '\u{0038}', 0xF9 => '\u{0039}', 0xFA => '\u{00B3}', 0xFB => '\u{00DB}',
            0xFC => '\u{00DC}', 0xFD => '\u{00D9}', 0xFE => '\u{00DA}', 0xFF => '\u{009F}',
    }
}

/// CP500 puts the digits at X'F0'..X'F9', the capital letters at
/// X'C1'..X'C9', X'D1'..X'D9' and X'E2'..X'E9', the small letters at
/// X'81'..X'89', X'91'..X'99' and X'A2'..X'A9', and the space at X'40'; each
/// decodes to the ASCII character of the same name.
#[verifier::rlimit(100)]
pub proof fn lemma_cp500_digits_and_letters()
    ensures
        forall|d: u8| d <= 9 ==> #[trigger] cp500_char((0xF0 + d) as u8) == (0x30 + d) as char,
        forall|d: u8| d <= 8 ==> #[trigger] cp500_char((0xC1 + d) as u8) == (0x41 + d) as char,
        forall|d: u8| d <= 8 ==> #[trigger] cp500_char((0xD1 + d) as u8) == (0x4A + d) as char,
        forall|d: u8| d <= 7 ==> #[trigger] cp500_char((0xE2 + d) as u8) == (0x53 + d) as char,
        forall|d: u8| d <= 8 ==> #[trigger] cp500_char((0x81 + d) as u8) == (0x61 + d) as char,
        forall|d: u8| d <= 8 ==> #[trigger] cp500_char((0x91 + d) as u8) == (0x6A + d) as char,
        forall|d: u8| d <= 7 ==> #[trigger] cp500_char((0xA2 + d) as u8) == (0x73 + d) as char,
        cp500_char(0x40) == ' ',
{
    assert forall|d: u8| d <= 9 implies #[trigger] cp500_char((0xF0 + d) as u8) == (0x30 + d) as char by {
        if d == 0 {} else if d == 1 {} else if d == 2 {} else if d == 3 {} else if d == 4 {}
        else if d == 5 {} else if d == 6 {} else if d == 7 {} else if d == 8 {} else {}
    }
    assert forall|d: u8| d <= 8 implies #[trigger] cp500_char((0xC1 + d) as u8) == (0x41 + d) as char by {
        if d == 0 {} else if d == 1 {} else if d == 2 {} else if d == 3 {} else if d == 4 {}
        else if d == 5 {} else if d == 6 {} else if d == 7 {} else {}
    }
    assert forall|d: u8| d <= 8 implies #[trigger] cp500_char((0xD1 + d) as u8) == (0x4A + d) as char by {
        if d == 0 {} else if d == 1 {} else if d == 2 {} else if d == 3 {} else if d == 4 {}
        else if d == 5 {} else if d == 6 {} else if d == 7 {} else {}
    }
    assert forall|d: u8| d <= 7 implies #[trigger] cp500_char((0xE2 + d) as u8) == (0x53 + d) as char by {
        if d == 0 {} else if d == 1 {} else if d == 2 {} else if d == 3 {} else if d == 4 {}
        else if d == 5 {} else if d == 6 {} else {}
    }
    assert forall|d: u8| d <= 8 implies #[trigger] cp500_char((0x81 + d) as u8) == (0x61 + d) as char by {
        if d == 0 {} else if d == 1 {} else if d == 2 {} else if d == 3 {} else if d == 4 {}
        else if d == 5 {} else if d == 6 {} else if d == 7 {} else {}
    }
    assert forall|d: u8| d <= 8 implies #[trigger] cp500_char((0x91 + d) as u8) == (0x6A + d) as char by {
        if d == 0 {} else if d == 1 {} else if d == 2 {} else if d == 3 {} else if d == 4 {}
        else if d == 5 {} else if d == 6 {} else if d == 7 {} else {}
    }
    assert forall|d: u8| d <= 7 implies #[trigger] cp500_char((0xA2 + d) as u8) == (0x73 + d) as char by {
        if d == 0 {} else if d == 1 {} else if d == 2 {} else if d == 3 {} else if d == 4 {}
        else if d == 5 {} else if d == 6 {} else {}
    }
}

/// CP500's ASCII punctuation: each of these bytes decodes to the ASCII
/// character the published code page puts there.
#[verifier::rlimit(100)]
pub proof fn lemma_cp500_punctuation()
    ensures
        cp500_char(0x4A) == '[',
        cp500_char(0x4B) == '.',
        cp500_char(0x4C) == '<',
        cp500_char(0x4D) == '(',
        cp500_char(0x4E) == '+',
        cp500_char(0x4F) == '!',
        cp500_char(0x50) == '&',
        cp500_char(0x5A) == ']',
        cp500_char(0x5B) == '$',
        cp500_char(0x5C) == '*',
        cp500_char(0x5D) == ')',
        cp500_char(0x5E) == ';',
        cp500_char(0x5F) == '^',
        cp500_char(0x60) == '-',
        cp500_char(0x61) == '/',
        cp500_char(0x6B) == ',',
        cp500_char(0x6C) == '%',
        cp500_char(0x6D) == '_',
        cp500_char(0x6E) == '>',
        cp500_char(0x6F) == '?',
        cp500_char(0x79) == '`',
        cp500_char(0x7A) == ':',
        cp500_char(0x7B) == '#',
        cp500_char(0x7C) == '@',
        cp500_char(0x7D) == '\'',
        cp500_char(0x7E) == '=',
        cp500_char(0x7F) == '"',
        cp500_char(0xA1) == '~',
        cp500_char(0xBB) == '|',
        cp500_char(0xC0) == '{',
        cp500_char(0xD0) == '}',
        cp500_char(0xE0) == '\\',
{
}

/// The CP500 (EBCDIC International) character of a byte.
#[verifier::rlimit(40)]
pub fn cp500(b: u8) -> (c: char)
    ensures
        c == cp500_char(b),
{
    match b {
            0x00 => '\u{0000}', 0x01 => '\u{0001}', 0x02 => '\u{0002}', 0x03 => '\u{0003}',
            0x04 => '\u{009C}', 0x05 => '\u{0009}', 0x06 => '\u{0086}', 0x07 => '\u{007F}',
            0x08 => '\u{0097}', 0x09 => '\u{008D}', 0x0A => '\u{008E}', 0x0B => '\u{000B}',
            0x0C => '\u{000C}', 0x0D => '\u{000D}', 0x0E => '\u{000E}', 0x0F => '\u{000F}',
            0x10 => '\u{0010}', 0x11 => '\u{0011}', 0x12 => '\u{0012}', 0x13 => '\u{0013}',
            0x14 => '\u{009D}', 0x15 => '\u{0085}', 0x16 => '\u{0008}', 0x17 => '\u{0087}',
            0x18 => '\u{0018}', 0x19 => '\u{0019}', 0x1A => '\u{0092}', 0x1B => '\u{008F}',
            0x1C => '\u{001C}', 0x1D => '\u{001D}', 0x1E => '\u{001E}', 0x1F => '\u{001F}',
            0x20 => '\u{0080}', 0x21 => '\u{0081}', 0x22 => '\u{0082}', 0x23 => '\u{0083}',
            0x24 => '\u{0084}', 0x25 => '\u{000A}', 0x26 => '\u{0017}', 0x27 => '\u{001B}',
            0x28 => '\u{0088}', 0x29 => '\u{0089}', 0x2A => '\u{008A}', 0x2B => '\u{008B}',
            0x2C => '\u{008C}', 0x2D => '\u{0005}', 0x2E => '\u{0006}', 0x2F => '\u{0007}',
            0x30 => '\u{0090}', 0x31 => '\u{0091}', 0x32 => '\u{0016}', 0x33 => '\u{0093}',
            0x34 => '\u{0094}', 0x35 => '\u{0095}', 0x36 => '\u{0096}', 0x37 => '\u{0004}',
            0x38 => '\u{0098}', 0x39 => '\u{0099}', 0x3A => '\u{009A}', 0x3B => '\u{009B}',
            0x3C => '\u{0014}', 0x3D => '\u{0015}', 0x3E => '\u{009E}', 0x3F => '\u{001A}',
            0x40 => '\u{0020}', 0x41 => '\u{00A0}', 0x42 => '\u{00E2}', 0x43 => '\u{00E4}',
            0x44 => '\u{00E0}', 0x45 => '\u{00E1}', 0x46 => '\u{00E3}', 0x47 => '\u{00E5}',
            0x48 => '\u{00E7}', 0x49 => '\u{00F1}', 0x4A => '\u{005B}', 0x4B => '\u{002E}',
            0x4C => '\u{003C}', 0x4D => '\u{0028}', 0x4E => '\u{002B}', 0x4F => '\u{0021}',
            0x50 => '\u{0026}', 0x51 => '\u{00E9}', 0x52 => '\u{00EA}', 0x53 => '\u{00EB}',
            0x54 => '\u{00E8}', 0x55 => '\u{00ED}', 0x56 => '\u{00EE}', 0x57 => '\u{00EF}',
            0x58 => '\u{00EC}', 0x59 => '\u{00DF}', 0x5A => '\u{005D}', 0x5B => '\u{0024}',
            0x5C => '\u{002A}', 0x5D => '\u{0029}', 0x5E => '\u{003B}', 0x5F => '\u{005E}',
            0x60 => '\u{002D}', 0x61 => '\u{002F}', 0x62 => '\u{00C2}', 0x63 => '\u{00C4}',
            0x64 => '\u{00C0}', 0x65 => '\u{00C1}', 0x66 => '\u{00C3}', 0x67 => '\u{00C5}',
            0x68 => '\u{00C7}', 0x69 => '\u{00D1}', 0x6A => '\u{00A6}', 0x6B => '\u{002C}',
            0x6C => '\u{0025}', 0x6D => '\u{005F}', 0x6E => '\u{003E}', 0x6F => '\u{003F}',
            0x70 => '\u{00F8}', 0x71 => '\u{00C9}', 0x72 => '\u{00CA}', 0x73 => '\u{00CB}',
            0x74 => '\u{00C8}', 0x75 => '\u{00CD}', 0x76 => '\u{00CE}', 0x77 => '\u{00CF}',
            0x78 => '\u{00CC}', 0x79 => '\u{0060}', 0x7A => '\u{003A}', 0x7B => '\u{0023}',
            0x7C => '\u{0040}', 0x7D => '\u{0027}', 0x7E => '\u{003D}', 0x7F => '\u{0022}',
            0x80 => '\u{00D8}', 0x81 => '\u{0061}', 0x82 => '\u{0062}', 0x83 => '\u{0063}',
            0x84 => '\u{0064}', 0x85 => '\u{0065}', 0x86 => '\u{0066}', 0x87 => '\u{0067}',
            0x88 => '\u{0068}', 0x89 => '\u{0069}', 0x8A => '\u{00AB}', 0x8B => '\u{00BB}',
            0x8C => '\u{00F0}', 0x8D => '\u{00FD}', 0x8E => '\u{00FE}', 0x8F => '\u{00B1}',
            0x90 => '\u{00B0}', 0x91 => '\u{006A}', 0x92 => '\u{006B}', 0x93 => '\u{006C}',
            0x94 => '\u{006D}', 0x95 => '\u{006E}', 0x96 => '\u{006F}', 0x97 => '\u{0070}',
            0x98 => '\u{0071}', 0x99 => '\u{0072}', 0x9A => '\u{00AA}', 0x9B => '\u{00BA}',
            0x9C => '\u{00E6}', 0x9D => '\u{00B8}', 0x9E => '\u{00C6}', 0x9F => '\u{00A4}',
            0xA0 => '\u{00B5}', 0xA1 => '\u{007E}', 0xA2 => '\u{0073}', 0xA3 => '\u{0074}',
            0xA4 => '\u{0075}', 0xA5 => '\u{0076}', 0xA6 => '\u{0077}', 0xA7 => '\u{0078}',
            0xA8 => '\u{0079}', 0xA9 => '\u{007A}', 0xAA => '\u{00A1}', 0xAB => '\u{00BF}',
            0xAC => '\u{00D0}', 0xAD => '\u{00DD}', 0xAE => '\u{00DE}', 0xAF => '\u{00AE}',
            0xB0 => '\u{00A2}', 0xB1 => '\u{00A3}', 0xB2 => '\u{00A5}', 0xB3 => '\u{00B7}',
            0xB4 => '\u{00A9}', 0xB5 => '\u{00A7}', 0xB6 => '\u{00B6}', 0xB7 => '\u{00BC}',
            0xB8 => '\u{00BD}', 0xB9 => '\u{00BE}', 0xBA => '\u{00AC}', 0xBB => '\u{007C}',
            0xBC => '\u{00AF}', 0xBD => '\u{00A8}', 0xBE => '\u{00B4}', 0xBF => '\u{00D7}',
            0xC0 => '\u{007B}', 0xC1 => '\u{0041}', 0xC2 => '\u{0042}', 0xC3 => '\u{0043}',
            0xC4 => '\u{0044}', 0xC5 => '\u{0045}', 0xC6 => '\u{0046}', 0xC7 => '\u{0047}',
            0xC8 => '\u{0048}', 0xC9 => '\u{0049}', 0xCA => '\u{00AD}', 0xCB => '\u{00F4}',
            0xCC => '\u{00F6}', 0xCD => '\u{00F2}', 0xCE => '\u{00F3}', 0xCF => '\u{00F5}',
            0xD0 => '\u{007D}', 0xD1 => '\u{004A}', 0xD2 => '\u{004B}', 0xD3 => '\u{004C}',
            0xD4 => '\u{004D}', 0xD5 => '\u{004E}', 0xD6 => '\u{004F}', 0xD7 => '\u{0050}',
            0xD8 => '\u{0051}', 0xD9 => '\u{0052}', 0xDA => '\u{00B9}', 0xDB => '\u{00FB}',
            0xDC => '\u{00FC}', 0xDD => '\u{00F9}', 0xDE => '\u{00FA}', 0xDF => '\u{00FF}',
            0xE0 => '\u{005C}', 0xE1 => '\u{00F7}', 0xE2 => '\u{0053}', 0xE3 => '\u{0054}',
            0xE4 => '\u{0055}', 0xE5 => '\u{0056}', 0xE6 => '\u{0057}', 0xE7 => '\u{0058}',
            0xE8 => '\u{0059}', 0xE9 => '\u{005A}', 0xEA => '\u{00B2}', 0xEB => '\u{00D4}',
            0xEC => '\u{00D6}', 0xED => '\u{00D2}', 0xEE => '\u{00D3}', 0xEF => '\u{00D5}',
            0xF0 => '\u{0030}', 0xF1 => '\u{0031}', 0xF2 => '\u{0032}', 0xF3 => '\u{0033}',
            0xF4 => '\u{0034}', 0xF5 => '\u{0035}', 0xF6 => '\u{0036}', 0xF7 => '\u{0037}',
            0xF8 => '\u{0038}', 0xF9 => '\u{0039}', 0xFA => '\u{00B3}', 0xFB => '\u{00DB}',
            0xFC => '\u{00DC}', 0xFD => '\u{00D9}', 0xFE => '\u{00DA}', 0xFF => '\u{009F}',
    }
}

/// One byte of text in the given encoding: CP500 for EBCDIC, the byte's own
/// code point (Latin-1) for ASCII.
pub open spec fn decode_byte(b: u8, e: Encoding) -> char {
    match e {
        Encoding::Ebcdic => cp500_char(b),
        Encoding::Ascii => b as char,
    }
}

pub open spec fn decoded(bytes: Seq<u8>, e: Encoding) -> Seq<char> {
    Seq::new(bytes.len(), |i: int| decode_byte(bytes[i], e))
}

/// The encoding a mode picks for the bytes: the forced one, or the sniffed
/// one under `Auto`.
pub open spec fn chosen_encoding(bytes: Seq<u8>, mode: EncodingMode) -> Encoding {
    match mode {
        EncodingMode::Auto => sniffed(bytes),
        EncodingMode::Ascii => Encoding::Ascii,
        EncodingMode::Ebcdic => Encoding::Ebcdic,
    }
}

/// Decodes bytes in a known encoding.
pub fn decode_chars(bytes: &[u8], e: Encoding) -> (cs: Vec<char>)
    ensures
        cs@ == decoded(bytes@, e),
{
    let mut cs: Vec<char> = Vec::new();
    let mut i: usize = 0;
    while i < bytes.len()
        invariant
            0 <= i <= bytes@.len(),
            cs@ == decoded(bytes@.take(i as int), e),
        decreases bytes@.len() - i,
    {
        let b = bytes[i];
        let c = match e {
            Encoding::Ebcdic => cp500(b),
            Encoding::Ascii => b as char,
        };
        cs.push(c);
        i += 1;
        proof {
            assert(cs@ =~= decoded(bytes@.take(i as int), e));
        }
    }
    proof {
        assert(bytes@.take(i as int) == bytes@);
    }
    cs
}

/// The string of the given characters.
pub fn string_of(cs: &Vec<char>) -> (s: String)
    ensures
        s@ == cs@,
{
    let mut s = String::new();
    let mut i: usize = 0;
    while i < cs.len()
        invariant
            0 <= i <= cs@.len(),
            s@ == cs@.take(i as int),
        decreases cs@.len() - i,
    {
        push_char(&mut s, cs[i]);
        i += 1;
        proof {
            assert(s@ =~= cs@.take(i as int));
        }
    }
    proof {
        assert(cs@.take(i as int) == cs@);
    }
    s
}

/// The characters of a string slice, in order.
pub fn chars_of(s: &str) -> (cs: Vec<char>)
    ensures
        cs@ == s@,
{
    let mut it = s.chars();
    let mut cs: Vec<char> = Vec::new();
    loop
        invariant
            cs@ + it.remaining() == s@,
            it.decrease() is Some,
        decreases it.decrease()->0,
    {
        let ghost before = it.remaining();
        match it.next() {
            Some(c) => {
                cs.push(c);
                proof {
                    assert(before == seq![c] + before.drop_first());
                }
            },
            None => {
                proof {
                    assert(cs@ + it.remaining() == cs@);
                }
                return cs;
            },
        }
    }
}

/// Decodes a record's text: in the forced encoding, or the sniffed one under
/// `Auto`. Returns the text and the encoding used.
pub fn decode(bytes: &[u8], mode: EncodingMode) -> (r: (String, Encoding))
    ensures
        r.1 == chosen_encoding(bytes@, mode),
        r.0@ == decoded(bytes@, r.1),
{
    let encoding = match mode {
        EncodingMode::Auto => sniff(bytes),
        EncodingMode::Ascii => Encoding::Ascii,
        EncodingMode::Ebcdic => Encoding::Ebcdic,
    };
    let cs = decode_chars(bytes, encoding);
    (string_of(&cs), encoding)
}

/// The lowercase hexadecimal digit of `d` (`0 <= d < 16`).
pub open spec fn hex_digit(d: int) -> char {
    if d < 10 {
        (48 + d) as char
    } else {
        (87 + d) as char
    }
}

/// How one character is written in the dump: tab and CR as `\t` and `\r`,
/// the other control characters (below 0x20, and DEL) as `\xNN` in lowercase
/// hex, everything else as itself.
pub open spec fn escape_char(c: char) -> Seq<char> {
    if c == '\t' {
        seq!['\\', 't']
    } else if c == '\r' {
        seq!['\\', 'r']
    } else if (c as u32) < 0x20 || (c as u32) == 0x7f {
        seq!['\\', 'x', hex_digit((c as u32 as int) / 16), hex_digit((c as u32 as int) % 16)]
    } else {
        seq![c]
    }
}

pub open spec fn escaped(s: Seq<char>) -> Seq<char>
    decreases s.len(),
{
    if s.len() == 0 {
        seq![]
    } else {
        escaped(s.drop_last()) + escape_char(s.last())
    }
}

/// A control character: below 0x20, or DEL.
pub open spec fn is_control(c: char) -> bool {
    (c as u32) < 0x20 || (c as u32) == 0x7f
}

/// Escaped text holds no control character, newlines included, so a dumped
/// line stays one line whatever the record held.
pub proof fn lemma_escaped_has_no_control(s: Seq<char>)
    ensures
        forall|k: int| 0 <= k < escaped(s).len() ==> !is_control(#[trigger] escaped(s)[k]),
    decreases s.len(),
{
    if s.len() > 0 {
        lemma_escaped_has_no_control(s.drop_last());
        let e = escape_char(s.last());
        assert forall|k: int| 0 <= k < e.len() implies !is_control(#[trigger] e[k]) by {
            let c = s.last();
            if !(c == '\t' || c == '\r') && ((c as u32) < 0x20 || (c as u32) == 0x7f) {
                assert(e[k] == '\\' || e[k] == 'x' || e[k] == hex_digit((c as u32 as int) / 16) || e[k]
                    == hex_digit((c as u32 as int) % 16));
            }
        }
        let p = escaped(s.drop_last());
        assert forall|k: int| 0 <= k < escaped(s).len() implies !is_control(#[trigger] escaped(s)[k]) by {
            if k < p.len() {
                assert(escaped(s)[k] == p[k]);
            } else {
                assert(escaped(s)[k] == e[k - p.len()]);
            }
        }
    }
}

fn hex_digit_exec(d: u32) -> (c: char)
    requires
        d < 16,
    ensures
        c == hex_digit(d as int),
{
    if d < 10 {
        char_of_code(48 + d)
    } else {
        char_of_code(87 + d)
    }
}

fn char_of_code(n: u32) -> (c: char)
    requires
        0x30 <= n <= 0x66,
    ensures
        c == n as char,
{
    ((n as u8) as char)
}

/// Escapes the control characters of a line, so one record stays one line.
pub fn escape_chars(line: &Vec<char>) -> (out: Vec<char>)
    ensures
        out@ == escaped(line@),
{
    let mut out: Vec<char> = Vec::new();
    let mut i: usize = 0;
    while i < line.len()
        invariant
            0 <= i <= line@.len(),
            out@ == escaped(line@.take(i as int)),
        decreases line@.len() - i,
    {
        let c = line[i];
        let code = c as u32;
        let ghost before = out@;
        if c == '\t' {
            out.push('\\');
            out.push('t');
        } else if c == '\r' {
            out.push('\\');
            out.push('r');
        } else if code < 0x20 || code == 0x7f {
            out.push('\\');
            out.push('x');
            out.push(hex_digit_exec(code / 16));
            out.push(hex_digit_exec(code % 16));
        } else {
            out.push(c);
        }
        proof {
            assert(line@.take(i + 1).drop_last() == line@.take(i as int));
            assert(out@ =~= before + escape_char(c));
        }
        i += 1;
    }
    proof {
        assert(line@.take(i as int) == line@);
    }
    out
}

/// Escapes the control characters of a line. Newlines are handled by the
/// caller, which splits them into separate output lines so every line keeps
/// its position prefix.
pub fn escape(line: &str) -> (s: String)
    ensures
        s@ == escaped(line@),
{
    let cs = chars_of(line);
    let out = escape_chars(&cs);
    string_of(&out)
}

} // verus!
