use afp_dumper::chunk::{assemble_documents, ChunkPlanner, Document, PageGroup};
use afp_dumper::state::AfpEvent;

fn pg(start: u64, end: u64) -> PageGroup {
    PageGroup { start, end, contains_edt: false }
}

fn doc(start: u64, prologue_end: u64, groups: &[(u64, u64)], end: u64) -> Document {
    Document {
        start,
        prologue_end,
        page_groups: groups.iter().map(|&(s, e)| pg(s, e)).collect(),
        end,
    }
}

#[test]
fn sizes_saturate() {
    assert_eq!(pg(10, 25).size(), 15);
    assert_eq!(pg(25, 10).size(), 0);
    assert_eq!(doc(100, 140, &[], 200).prologue_size(), 40);
    assert_eq!(doc(100, 90, &[], 200).prologue_size(), 0);
}

#[test]
fn assembles_documents_with_and_without_groups() {
    let events = vec![
        AfpEvent::DocumentStart { offset: 10 },
        AfpEvent::PageGroupStart { offset: 30 },
        AfpEvent::PageGroupEnd { offset: 60, needs_eng: false },
        AfpEvent::PageGroupStart { offset: 60 },
        AfpEvent::PageGroupEnd { offset: 90, needs_eng: false },
        AfpEvent::DocumentEnd { offset: 100 },
        AfpEvent::DocumentStart { offset: 100 },
        AfpEvent::DocumentEnd { offset: 150 },
    ];
    let docs = assemble_documents(&events);
    assert_eq!(docs.len(), 2);
    assert_eq!(docs[0].start, 10);
    assert_eq!(docs[0].prologue_end, 30);
    assert_eq!(docs[0].page_groups, vec![pg(30, 60), pg(60, 90)]);
    assert_eq!(docs[0].end, 100);
    // no page groups: one virtual group spanning the document, carrying its EDT
    assert_eq!(docs[1].prologue_end, 100);
    assert_eq!(
        docs[1].page_groups,
        vec![PageGroup { start: 100, end: 150, contains_edt: true }]
    );
}

#[test]
fn events_before_any_document_are_ignored() {
    let events = vec![
        AfpEvent::PageGroupStart { offset: 1 },
        AfpEvent::PageGroupEnd { offset: 2, needs_eng: true },
        AfpEvent::DocumentEnd { offset: 3 },
    ];
    assert!(assemble_documents(&events).is_empty());
}

#[test]
fn an_unclosed_group_keeps_end_zero() {
    let events = vec![
        AfpEvent::DocumentStart { offset: 0 },
        AfpEvent::PageGroupStart { offset: 5 },
        AfpEvent::PageGroupEnd { offset: 9, needs_eng: true },
        AfpEvent::PageGroupStart { offset: 9 },
    ];
    let docs = assemble_documents(&events);
    assert_eq!(docs[0].page_groups, vec![pg(5, 9), pg(9, 0)]);
    assert_eq!(docs[0].end, 0);
}

#[test]
fn each_document_starts_its_own_chunk() {
    let docs = vec![doc(0, 10, &[(10, 20)], 23), doc(23, 30, &[(30, 40)], 46)];
    let chunks = ChunkPlanner::plan(&docs, 1_000_000);
    assert_eq!(chunks.len(), 2);
    assert_eq!(chunks[0].prologue, (0, 10));
    assert_eq!(chunks[0].pg_range, (10, 20));
    assert!(chunks[0].needs_edt);
    assert_eq!(chunks[1].prologue, (23, 30));
    assert_eq!(chunks[1].pg_range, (30, 40));
}

#[test]
fn groups_are_packed_up_to_the_limit() {
    // prologue 10 + edt 3 + groups of 20: 33, 53, 73 ...
    let d = doc(0, 10, &[(10, 30), (30, 50), (50, 70), (70, 90), (90, 110)], 113);
    let chunks = ChunkPlanner::plan(&[d], 53);
    let sizes: Vec<usize> = chunks.iter().map(|c| c.page_groups.len()).collect();
    assert_eq!(sizes, vec![2, 2, 1]);
    assert_eq!(chunks[1].pg_range, (50, 90));
    assert_eq!(chunks[1].prologue, (0, 10));
    assert_eq!(chunks[2].pg_range, (90, 110));
}

#[test]
fn an_oversized_group_is_never_split() {
    let d = doc(0, 0, &[(0, 500), (500, 510)], 513);
    let chunks = ChunkPlanner::plan(&[d], 100);
    assert_eq!(chunks.len(), 2);
    assert_eq!(chunks[0].page_groups, vec![pg(0, 500)]);
    assert_eq!(chunks[1].page_groups, vec![pg(500, 510)]);
}

#[test]
fn a_virtual_group_needs_no_edt() {
    let d = Document {
        start: 0,
        prologue_end: 0,
        page_groups: vec![PageGroup { start: 0, end: 50, contains_edt: true }],
        end: 50,
    };
    let chunks = ChunkPlanner::plan(&[d], 10);
    assert_eq!(chunks.len(), 1);
    assert!(!chunks[0].needs_edt);
    assert_eq!(chunks[0].pg_range, (0, 50));
}

#[test]
fn nothing_to_plan() {
    assert!(ChunkPlanner::plan(&[], 10).is_empty());
    assert!(ChunkPlanner::plan(&[doc(0, 0, &[], 0)], 10).is_empty());
}

#[test]
fn every_page_group_lands_in_exactly_one_chunk_in_order() {
    let docs = vec![
        doc(0, 5, &[(5, 40), (40, 90), (90, 95)], 98),
        doc(98, 98, &[], 98),
        doc(98, 110, &[(110, 300), (300, 310)], 313),
    ];
    let chunks = ChunkPlanner::plan(&docs, 60);
    let planned: Vec<PageGroup> = chunks.iter().flat_map(|c| c.page_groups.clone()).collect();
    let all: Vec<PageGroup> = docs.iter().flat_map(|d| d.page_groups.clone()).collect();
    assert_eq!(planned, all);
    for c in &chunks {
        assert!(!c.page_groups.is_empty());
    }
}
