use afp_dumper::chunk::{OutputChunk, PageGroup};
use afp_dumper::data::keyword_store;
use afp_dumper::features::Features;
use afp_dumper::report::{first_document_offset, index_line};
use afp_dumper::state::AfpEvent;
use afp_dumper::writer::{chunk_steps, output_file_name, preamble_needs_epf, WriteStep};

#[test]
fn indexing_is_always_on() {
    let f = Features::new(Some(10), true, false);
    assert!(f.index);
    assert!(f.needs_record_decode());
    assert_eq!(f.max_size, Some(10));
    let d = Features::default();
    assert!(d.index);
    assert!(!d.needs_record_decode());
    assert_eq!(d.max_size, None);
}

#[test]
fn keywords_decode_from_hex() {
    let store = keyword_store().unwrap();
    assert_eq!(store.len(), 2);
    assert_eq!(store[0].0, "PageStart");
    assert_eq!(store[0].1, vec![0xd3, 0xa8, 0xaf]);
    assert_eq!(store[1].0, "PageEnd");
    assert_eq!(store[1].1, vec![0xd3, 0xa9, 0xaf]);
}

#[test]
fn output_files_are_numbered_with_three_digits() {
    assert_eq!(output_file_name("input", 0), "input_000.afp");
    assert_eq!(output_file_name("input", 7), "input_007.afp");
    assert_eq!(output_file_name("in", 42), "in_042.afp");
    assert_eq!(output_file_name("x", 123), "x_123.afp");
    assert_eq!(output_file_name("x", 12345), "x_12345.afp");
}

#[test]
fn an_epf_is_needed_only_after_a_bpf() {
    assert!(preamble_needs_epf(&[0x5a, 0x00, 0xd3, 0xa8, 0xa5, 0x00]));
    assert!(preamble_needs_epf(&[0xd3, 0xa8, 0xa5]));
    assert!(!preamble_needs_epf(&[0xd3, 0xa8]));
    assert!(!preamble_needs_epf(&[0xd3, 0xa9, 0xa5]));
    assert!(!preamble_needs_epf(&[]));
}

#[test]
fn write_steps_of_a_chunk() {
    let chunk = OutputChunk {
        prologue: (10, 30),
        page_groups: vec![PageGroup { start: 30, end: 90, contains_edt: false }],
        pg_range: (30, 90),
        needs_edt: true,
    };
    assert_eq!(
        chunk_steps(&chunk, 5, true),
        vec![
            WriteStep::Preamble,
            WriteStep::Copy { start: 10, end: 30 },
            WriteStep::Copy { start: 30, end: 90 },
            WriteStep::Edt,
            WriteStep::Epf,
        ]
    );
    let bare = OutputChunk {
        prologue: (10, 10),
        page_groups: vec![PageGroup { start: 10, end: 40, contains_edt: true }],
        pg_range: (10, 40),
        needs_edt: false,
    };
    assert_eq!(chunk_steps(&bare, 0, false), vec![WriteStep::Copy { start: 10, end: 40 }]);
}

#[test]
fn the_preamble_ends_at_the_first_document() {
    let events = vec![
        AfpEvent::DocumentStart { offset: 120 },
        AfpEvent::DocumentEnd { offset: 200 },
        AfpEvent::DocumentStart { offset: 200 },
    ];
    assert_eq!(first_document_offset(&events), 120);
    assert_eq!(first_document_offset(&vec![]), 0);
}

#[test]
fn index_line_counts() {
    assert_eq!(
        index_line(0, 0, 0),
        "Found 0 document(s) containing 0 page group(s) across 0 page(s)"
    );
    assert_eq!(
        index_line(12, 345, 6789),
        "Found 12 document(s) containing 345 page group(s) across 6789 page(s)"
    );
}

#[test]
fn decimal_writes_base_ten_without_padding() {
    assert_eq!(afp_dumper::strings::decimal(0), "0");
    assert_eq!(afp_dumper::strings::decimal(7), "7");
    assert_eq!(afp_dumper::strings::decimal(10), "10");
    assert_eq!(afp_dumper::strings::decimal(1234567890), "1234567890");
    assert_eq!(afp_dumper::strings::decimal(usize::MAX), usize::MAX.to_string());
}
