use afp_dumper::inspect::Inspector;
use afp_dumper::record::SfRecord;
use afp_dumper::state::Position;
use afp_dumper::text::EncodingMode;

const NOP: [u8; 3] = [0xd3, 0xee, 0xee];
const TLE: [u8; 3] = [0xd3, 0xa0, 0x90];

fn rec(type_id: [u8; 3], data: &[u8]) -> SfRecord {
    SfRecord { type_id, data: data.to_vec() }
}

fn triplet(id: u8, body: &[u8]) -> Vec<u8> {
    let mut v = vec![(body.len() + 2) as u8, id];
    v.extend_from_slice(body);
    v
}

#[test]
fn a_multi_line_nop_keeps_its_position_on_every_line() {
    let mut i = Inspector::new(EncodingMode::Ascii);
    let lines = i.record(Position::Document { doc: 2 }, &rec(NOP, b"first\r\nsecond\tx\n\n  "));
    assert_eq!(
        lines,
        vec!["doc 2: NOP first", "doc 2: NOP second\\tx"]
    );
    assert_eq!(i.count(), 1);
}

#[test]
fn a_blank_nop_is_a_bare_line() {
    let mut i = Inspector::new(EncodingMode::Auto);
    let lines = i.record(Position::Preamble, &rec(NOP, b"  \t \r\n"));
    assert_eq!(lines, vec!["preamble: NOP"]);
    let lines = i.record(Position::Preamble, &rec(NOP, b""));
    assert_eq!(lines, vec!["preamble: NOP"]);
    assert_eq!(i.count(), 2);
}

#[test]
fn nop_lines_escape_control_bytes() {
    let mut i = Inspector::new(EncodingMode::Ascii);
    let lines = i.record(Position::Preamble, &rec(NOP, b"a\x01b\x7f"));
    assert_eq!(lines, vec!["preamble: NOP a\\x01b\\x7f"]);
}

#[test]
fn tle_takes_the_last_name_and_value() {
    let mut data = triplet(0x02, &[0x0b, 0x00, b'O', b'L', b'D']);
    data.extend(triplet(0x02, &[0x01, 0x00, b'N', b'O']));
    data.extend(triplet(0x02, &[0x0b, 0x00, b'K', b'E', b'Y', b' ']));
    data.extend(triplet(0x36, &[0x00, 0x00, b'v', b'1']));
    data.extend(triplet(0x36, &[0x00, 0x00, b'v', b'2']));
    let mut i = Inspector::new(EncodingMode::Ascii);
    let lines = i.record(Position::PageGroup { doc: 0, group: 3 }, &rec(TLE, &data));
    assert_eq!(lines, vec!["doc 0 group 3: TLE KEY = v2"]);
}

#[test]
fn tle_without_triplets_has_empty_name_and_value() {
    let mut i = Inspector::new(EncodingMode::Auto);
    let lines = i.record(Position::Preamble, &rec(TLE, &[]));
    assert_eq!(lines, vec!["preamble: TLE  = "]);
    assert_eq!(i.count(), 1);
}

#[test]
fn other_records_are_not_dumped_or_counted() {
    let mut i = Inspector::new(EncodingMode::Auto);
    let lines = i.record(Position::Preamble, &rec([0xd3, 0xee, 0xfb], b"image"));
    assert!(lines.is_empty());
    assert_eq!(i.count(), 0);
}
