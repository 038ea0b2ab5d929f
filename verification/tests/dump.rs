// The run of the dumper over whole files, through the library: detect the
// markers, feed the boundaries, read and render every NOP and TLE hit.
use afp_dumper::boundary::{BoundaryDetector, HitKind};
use afp_dumper::chunk::assemble_documents;
use afp_dumper::features::Features;
use afp_dumper::inspect::Inspector;
use afp_dumper::record::{is_framed, read_record};
use afp_dumper::report::{count_dump_hits, index_line, page_group_total, terminal_dump_refused};
use afp_dumper::state::StateMachine;
use afp_dumper::text::EncodingMode;

const BPF: [u8; 3] = [0xd3, 0xa8, 0xa5];
const EPF: [u8; 3] = [0xd3, 0xa9, 0xa5];
const BDT: [u8; 3] = [0xd3, 0xa8, 0xa8];
const EDT: [u8; 3] = [0xd3, 0xa9, 0xa8];
const BNG: [u8; 3] = [0xd3, 0xa8, 0xad];
const ENG: [u8; 3] = [0xd3, 0xa9, 0xad];
const BPG: [u8; 3] = [0xd3, 0xa8, 0xaf];
const EPG: [u8; 3] = [0xd3, 0xa9, 0xaf];
const NOP: [u8; 3] = [0xd3, 0xee, 0xee];
const TLE: [u8; 3] = [0xd3, 0xa0, 0x90];
const IPD: [u8; 3] = [0xd3, 0xee, 0xfb]; // image data — type X'EE' like NOP

// X'5A' framing, then SFLength (counting itself), type id, flags, reserved
fn sf(type_id: [u8; 3], data: &[u8]) -> Vec<u8> {
    let mut v = vec![0x5a];
    v.extend_from_slice(&((8 + data.len()) as u16).to_be_bytes());
    v.extend_from_slice(&type_id);
    v.extend_from_slice(&[0x00, 0x00, 0x00]);
    v.extend_from_slice(data);
    v
}

fn triplet(id: u8, body: &[u8]) -> Vec<u8> {
    let mut v = vec![(body.len() + 2) as u8, id];
    v.extend_from_slice(body);
    v
}

// enough of cp500 for the fixtures: letters, digits, space and dash
fn ebcdic(s: &str) -> Vec<u8> {
    s.bytes()
        .map(|c| match c {
            b'A'..=b'I' => 0xc1 + (c - b'A'),
            b'J'..=b'R' => 0xd1 + (c - b'J'),
            b'S'..=b'Z' => 0xe2 + (c - b'S'),
            b'a'..=b'i' => 0x81 + (c - b'a'),
            b'j'..=b'r' => 0x91 + (c - b'j'),
            b's'..=b'z' => 0xa2 + (c - b's'),
            b'0'..=b'9' => 0xf0 + (c - b'0'),
            b' ' => 0x40,
            b'-' => 0x60,
            other => panic!("no cp500 mapping in fixture helper for {other:?}"),
        })
        .collect()
}

fn name8(s: &str) -> Vec<u8> {
    ebcdic(&format!("{s:<8}"))[..8].to_vec()
}

// TLE with attribute name and value, optionally a qualifier. the leading
// X'01' declares a code page, which the dumper deliberately ignores
fn tle(name: &str, value: &str, seq: Option<u32>) -> Vec<u8> {
    let mut data = triplet(0x01, &[0xff, 0xff, 0x01, 0xf4]);

    let mut fqn = vec![0x0b, 0x00];
    fqn.extend(ebcdic(name));
    data.extend(triplet(0x02, &fqn));

    let mut val = vec![0x00, 0x00];
    val.extend(ebcdic(value));
    data.extend(triplet(0x36, &val));

    if let Some(seq) = seq {
        let mut q = seq.to_be_bytes().to_vec();
        q.extend(1u32.to_be_bytes());
        data.extend(triplet(0x80, &q));
    }

    sf(TLE, &data)
}

// two documents: the first with two page groups, the second with none, so
// both position shapes appear
fn nested_fixture() -> Vec<u8> {
    [
        sf(BPF, &name8("PRINTF")),
        sf(NOP, &ebcdic("preamble note")),
        //
        sf(BDT, &[name8("DOC0"), vec![0x00, 0x00]].concat()),
        tle("DOCLEVEL", "top", None),
        sf(BNG, &name8("GRP0")),
        tle("ACCOUNT", "0012345", Some(7)),
        sf(BPG, &name8("PG0")),
        tle("PAGETAG", "p-zero", None),
        sf(NOP, b"Plain ASCII NOP 42"),
        sf(EPG, &[]),
        sf(BPG, &name8("PG1")),
        tle("PAGETAG", "p-one", None),
        sf(EPG, &[]),
        sf(ENG, &[]),
        sf(BNG, &name8("GRP1")),
        tle("ACCOUNT", "9999999", None),
        sf(BPG, &name8("PG2")),
        sf(EPG, &[]),
        sf(ENG, &[]),
        sf(EDT, &[]),
        //
        sf(BDT, &[name8("DOC1"), vec![0x00, 0x00]].concat()),
        sf(BPG, &name8("PG0")),
        tle("SECOND", "doc-one", None),
        sf(EPG, &[]),
        sf(EDT, &[]),
        sf(EPF, &[]),
    ]
    .concat()
}

struct Run {
    lines: Vec<String>,
    rejected: usize,
    dump_total: usize,
    index: String,
}

fn run(fixture: &[u8], dump_nop: bool, dump_tle: bool, mode: EncodingMode) -> Run {
    let features = Features::new(None, dump_nop, dump_tle);
    let hits = BoundaryDetector::new(&features).detect(fixture);
    let dump_total = count_dump_hits(&hits);
    let framed = is_framed(fixture);
    let mut inspector = Inspector::new(mode);
    let mut sm = StateMachine::new();
    let mut events = Vec::new();
    let mut lines = Vec::new();
    let mut rejected = 0;
    for hit in &hits {
        match hit.kind {
            HitKind::Boundary(b) => sm.feed(b, hit.offset, &mut events),
            HitKind::Nop | HitKind::Tle => {
                match read_record(fixture, 0, fixture.len() as u64, hit.offset, framed).unwrap() {
                    Some(rec) => lines.extend(inspector.record(sm.position(), &rec)),
                    None => rejected += 1,
                }
            }
        }
    }
    sm.finish(fixture.len() as u64, &mut events);
    let docs = assemble_documents(&events);
    let index = index_line(docs.len(), page_group_total(&docs), sm.page_count);
    Run { lines, rejected, dump_total, index }
}

#[test]
fn reports_position_for_every_nop_and_tle() {
    let out = run(&nested_fixture(), true, true, EncodingMode::Auto);
    let positions: Vec<_> = out.lines.iter().map(|l| l.split(':').next().unwrap()).collect();
    assert_eq!(
        positions,
        vec![
            "preamble",
            "doc 0",
            "doc 0 group 0",
            "doc 0 group 0 page 0",
            "doc 0 group 0 page 0",
            "doc 0 group 0 page 1",
            "doc 0 group 1",
            // second document has no page groups, so the group is omitted and
            // the page index restarts
            "doc 1 page 0",
        ]
    );
}

#[test]
fn decodes_tle_attribute_name_and_value_from_triplets() {
    let out = run(&nested_fixture(), false, true, EncodingMode::Auto);
    let lines = &out.lines;

    assert_eq!(lines[1], "doc 0 group 0: TLE ACCOUNT = 0012345");
    assert!(lines.iter().any(|l| l.contains("SECOND = doc-one")));

    // nothing describing the field is printed: not the declared code page
    // (X'01'), not the attribute qualifier (X'80'), not the offset
    let all = lines.join("\n");
    for marker in ["cpgid", "ccsid", "X'01'", "X'80'", "seq=", "lev=", "@"] {
        assert!(!all.contains(marker), "{marker} in {all}");
    }
}

#[test]
fn picks_the_encoding_per_record() {
    let out = run(&nested_fixture(), true, false, EncodingMode::Auto);
    // same file, one ebcdic body and one ascii body, both decoded correctly
    assert_eq!(out.lines[0], "preamble: NOP preamble note");
    assert_eq!(out.lines[1], "doc 0 group 0 page 0: NOP Plain ASCII NOP 42");
}

#[test]
fn forcing_an_encoding_overrides_the_heuristic() {
    let out = run(&nested_fixture(), true, false, EncodingMode::Ebcdic);
    let all = out.lines.join("\n");
    // the ebcdic body still reads, the ascii one no longer does — which is the
    // point of the override
    assert!(all.contains("preamble note"), "{all}");
    assert!(!all.contains("Plain ASCII NOP 42"));
}

#[test]
fn ignores_matches_inside_payload_data() {
    // an image data record whose payload happens to contain the NOP type id
    let mut fixture = nested_fixture();
    fixture.extend(sf(IPD, b"\x00\x08\xd3\xee\xee\x00\x00\x00 image bytes"));

    let out = run(&fixture, true, false, EncodingMode::Auto);
    assert_eq!(out.lines.len(), 2, "{:?}", out.lines);
    assert_eq!(out.rejected, 1);
}

#[test]
fn indexing_runs_without_any_other_flag() {
    let out = run(&nested_fixture(), false, false, EncodingMode::Auto);
    assert_eq!(
        out.index,
        "Found 2 document(s) containing 3 page group(s) across 4 page(s)"
    );
    assert!(out.lines.is_empty());
}

#[test]
fn terminal_dump_stops_above_the_limit() {
    let out = run(&nested_fixture(), true, true, EncodingMode::Auto);
    assert_eq!(out.dump_total, 8);
    assert!(terminal_dump_refused(false, out.dump_total, 3));
    // indexing still reports
    assert!(out.index.starts_with("Found 2 document(s)"));
}

#[test]
fn the_limit_does_not_apply_to_a_dump_file() {
    let out = run(&nested_fixture(), true, true, EncodingMode::Auto);
    assert!(!terminal_dump_refused(true, out.dump_total, 3));
    assert_eq!(out.lines.len(), 8);
}
