use vstd::prelude::*;
use vstd::string::StringSliceAdditionalSpecFns;

verus! {

broadcast use vstd::string::group_string_axioms;

#[verifier::external_type_specification]
#[verifier::external_body]
pub struct ExFromHexError(hex::FromHexError);

/// The value of a hexadecimal digit (either case), or `None` for any other
/// byte.
pub open spec fn hex_digit_value(b: u8) -> Option<u8> {
    if 0x30 <= b <= 0x39 {
        Some((b - 0x30) as u8)
    } else if 0x41 <= b <= 0x46 {
        Some((b - 0x41 + 10) as u8)
    } else if 0x61 <= b <= 0x66 {
        Some((b - 0x61 + 10) as u8)
    } else {
        None
    }
}

/// The bytes a hexadecimal text stands for, two digits per byte, high digit
/// first; `None` for an odd number of digits or a byte that is no digit.
pub open spec fn hex_decoded(text: Seq<u8>) -> Option<Seq<u8>> {
    if text.len() % 2 != 0 {
        None
    } else if exists|i: int| 0 <= i < text.len() && (#[trigger] hex_digit_value(text[i])) is None {
        None
    } else {
        Some(
            Seq::new(
                text.len() / 2,
                |k: int|
                    (hex_digit_value(text[2 * k])->0 * 16 + hex_digit_value(text[2 * k + 1])->0) as u8,
            ),
        )
    }
}

/// `hex::decode` on the bytes of `text`. The contract claims what the crate's
/// source shows: it fails exactly on an odd length or a byte that is not a
/// hexadecimal digit, and otherwise returns one byte per pair of digits.
/// Which error it returns is not stated.
#[verifier::external_body]
fn decode_hex(text: &str) -> (r: Result<Vec<u8>, hex::FromHexError>)
    ensures
        r is Ok == hex_decoded(text.spec_bytes()) is Some,
        r matches Ok(v) ==> Some(v@) == hex_decoded(text.spec_bytes()),
{
    hex::decode(text)
}

/// A keyword's bytes were not valid hexadecimal.
#[derive(Debug, Clone, Copy, PartialEq, Eq, Structural)]
pub enum KeywordError {
    InvalidHex,
}

pub open spec fn keyword_entries_view(v: Seq<(String, Vec<u8>)>) -> Seq<(Seq<char>, Seq<u8>)> {
    Seq::new(v.len(), |k: int| (v[k].0@, v[k].1@))
}

fn keyword(name: &str, hex_text: &str) -> (r: Result<(String, Vec<u8>), KeywordError>)
    ensures
        r matches Ok(e) ==> e.0@ == name@ && Some(e.1@) == hex_decoded(hex_text.spec_bytes()),
        r is Ok == hex_decoded(hex_text.spec_bytes()) is Some,
{
    match decode_hex(hex_text) {
        Ok(bytes) => Ok((String::from_str(name), bytes)),
        Err(_) => Err(KeywordError::InvalidHex),
    }
}

/// The page keywords, by name: `PageStart` is BPG (D3A8AF) and `PageEnd`
/// is EPG (D3A9AF), decoded from their hexadecimal text.
pub fn keyword_store() -> (r: Result<Vec<(String, Vec<u8>)>, KeywordError>)
    ensures
        r matches Ok(v) ==> keyword_entries_view(v@) == seq![
            ("PageStart"@, seq![0xD3u8, 0xA8u8, 0xAFu8]),
            ("PageEnd"@, seq![0xD3u8, 0xA9u8, 0xAFu8]),
        ],
        r is Ok,
{
    proof {
        reveal_strlit("D3A8AF");
        reveal_strlit("D3A9AF");
        assert(vstd::string::is_ascii("D3A8AF"));
        assert(vstd::string::is_ascii("D3A9AF"));
        let s1 = "D3A8AF".spec_bytes();
        let s2 = "D3A9AF".spec_bytes();
        assert(s1 =~= seq![0x44u8, 0x33u8, 0x41u8, 0x38u8, 0x41u8, 0x46u8]);
        assert(s2 =~= seq![0x44u8, 0x33u8, 0x41u8, 0x39u8, 0x41u8, 0x46u8]);
        assert(hex_decoded(s1) == Some(seq![0xD3u8, 0xA8u8, 0xAFu8])) by {
            assert(forall|i: int| 0 <= i < s1.len() ==> (#[trigger] hex_digit_value(s1[i])) is Some);
            assert(hex_decoded(s1)->0 =~= seq![0xD3u8, 0xA8u8, 0xAFu8]);
        }
        assert(hex_decoded(s2) == Some(seq![0xD3u8, 0xA9u8, 0xAFu8])) by {
            assert(forall|i: int| 0 <= i < s2.len() ==> (#[trigger] hex_digit_value(s2[i])) is Some);
            assert(hex_decoded(s2)->0 =~= seq![0xD3u8, 0xA9u8, 0xAFu8]);
        }
    }
    let page_start = keyword("PageStart", "D3A8AF")?;
    let page_end = keyword("PageEnd", "D3A9AF")?;
    let mut keywords: Vec<(String, Vec<u8>)> = Vec::new();
    keywords.push(page_start);
    keywords.push(page_end);
    proof {
        assert(keyword_entries_view(keywords@) =~= seq![
            ("PageStart"@, seq![0xD3u8, 0xA8u8, 0xAFu8]),
            ("PageEnd"@, seq![0xD3u8, 0xA9u8, 0xAFu8]),
        ]);
    }
    Ok(keywords)
}

} // verus!
