use afp_dumper::boundary::AfpBoundary;
use afp_dumper::boundary::AfpBoundary::{
    BeginDocument, BeginPage, BeginPageGroup, EndDocument, EndPage, EndPageGroup,
};
use afp_dumper::state::{AfpEvent, Position, StateMachine};

fn run(boundaries: &[AfpBoundary]) -> StateMachine {
    let mut sm = StateMachine::new();
    let mut events = Vec::new();
    for (i, b) in boundaries.iter().enumerate() {
        sm.feed(*b, i as u64 * 10, &mut events);
    }
    sm
}

fn run_events(boundaries: &[AfpBoundary], file_size: u64) -> (StateMachine, Vec<AfpEvent>) {
    let mut sm = StateMachine::new();
    let mut events = Vec::new();
    for (i, b) in boundaries.iter().enumerate() {
        sm.feed(*b, i as u64 * 10, &mut events);
    }
    sm.finish(file_size, &mut events);
    (sm, events)
}

#[test]
fn before_the_first_document_is_the_preamble() {
    assert_eq!(StateMachine::new().position(), Position::Preamble);
    assert_eq!(run(&[BeginPage]).position(), Position::Preamble);
}

#[test]
fn reports_nesting_depth() {
    assert_eq!(run(&[BeginDocument]).position(), Position::Document { doc: 0 });
    assert_eq!(
        run(&[BeginDocument, BeginPageGroup]).position(),
        Position::PageGroup { doc: 0, group: 0 }
    );
    assert_eq!(
        run(&[BeginDocument, BeginPageGroup, BeginPage]).position(),
        Position::Page {
            doc: 0,
            group: Some(0),
            page: 0
        }
    );
}

#[test]
fn pages_without_a_page_group_omit_it() {
    let sm = run(&[BeginDocument, BeginPage]);
    assert_eq!(
        sm.position(),
        Position::Page {
            doc: 0,
            group: None,
            page: 0
        }
    );
    assert_eq!(sm.position().to_string(), "doc 0 page 0");
}

#[test]
fn group_and_page_indexes_restart_per_document() {
    let sm = run(&[
        BeginDocument,
        BeginPageGroup,
        BeginPage,
        EndPage,
        EndPageGroup,
        EndDocument,
        BeginDocument,
        BeginPageGroup,
        BeginPage,
    ]);
    assert_eq!(
        sm.position(),
        Position::Page {
            doc: 1,
            group: Some(0),
            page: 0
        }
    );
    // the file-wide total keeps counting across documents
    assert_eq!(sm.page_count, 2);
}

#[test]
fn indexes_advance_within_a_document() {
    let sm = run(&[
        BeginDocument,
        BeginPageGroup,
        BeginPage,
        EndPage,
        EndPageGroup,
        BeginPageGroup,
        BeginPage,
        EndPage,
        BeginPage,
    ]);
    assert_eq!(
        sm.position(),
        Position::Page {
            doc: 0,
            group: Some(1),
            page: 2
        }
    );
    assert_eq!(sm.position().to_string(), "doc 0 group 1 page 2");
}

#[test]
fn an_implicit_document_boundary_advances_the_index() {
    // BDT while already inside a document closes the previous one
    let sm = run(&[BeginDocument, BeginDocument]);
    assert_eq!(sm.position(), Position::Document { doc: 1 });
}

#[test]
fn closing_a_document_returns_to_the_preamble_level() {
    assert_eq!(run(&[BeginDocument, EndDocument]).position(), Position::Preamble);
    assert_eq!(
        run(&[BeginDocument, BeginPageGroup, EndDocument]).position(),
        Position::Preamble
    );
    assert_eq!(
        run(&[BeginDocument, BeginPage, EndDocument]).position(),
        Position::Preamble
    );
}

#[test]
fn leaving_a_page_or_group_drops_back_one_level() {
    assert_eq!(
        run(&[BeginDocument, BeginPageGroup, BeginPage, EndPage]).position(),
        Position::PageGroup { doc: 0, group: 0 }
    );
    assert_eq!(
        run(&[BeginDocument, BeginPageGroup, BeginPage, EndPage, EndPageGroup]).position(),
        Position::Document { doc: 0 }
    );
}

#[test]
fn position_texts() {
    assert_eq!(Position::Preamble.to_string(), "preamble");
    assert_eq!(Position::Document { doc: 12 }.to_string(), "doc 12");
    assert_eq!(
        Position::PageGroup { doc: 3, group: 1 }.to_string(),
        "doc 3 group 1"
    );
    assert_eq!(
        Position::Page { doc: 3, group: Some(1), page: 104 }.to_string(),
        "doc 3 group 1 page 104"
    );
}

#[test]
fn events_of_a_nested_document() {
    let (_, events) = run_events(
        &[BeginDocument, BeginPageGroup, BeginPage, EndPage, EndPageGroup, EndDocument],
        100,
    );
    assert_eq!(
        events,
        vec![
            AfpEvent::DocumentStart { offset: 0 },
            AfpEvent::PageGroupStart { offset: 10 },
            AfpEvent::PageGroupEnd { offset: 43, needs_eng: false },
            AfpEvent::DocumentEnd { offset: 53 },
        ]
    );
}

#[test]
fn implicit_document_end_shares_the_offset() {
    let (_, events) = run_events(&[BeginDocument, BeginDocument], 100);
    assert_eq!(
        events,
        vec![
            AfpEvent::DocumentStart { offset: 0 },
            AfpEvent::DocumentEnd { offset: 10 },
            AfpEvent::DocumentStart { offset: 10 },
            AfpEvent::DocumentEnd { offset: 100 },
        ]
    );
}

#[test]
fn end_document_inside_a_group_closes_the_group() {
    let (sm, events) = run_events(&[BeginDocument, BeginPageGroup, EndDocument], 100);
    assert_eq!(
        events,
        vec![
            AfpEvent::DocumentStart { offset: 0 },
            AfpEvent::PageGroupStart { offset: 10 },
            AfpEvent::PageGroupEnd { offset: 20, needs_eng: true },
            AfpEvent::DocumentEnd { offset: 23 },
        ]
    );
    assert_eq!(sm.position(), Position::Preamble);
}

#[test]
fn finish_closes_an_open_page_at_end_of_file() {
    let (sm, events) = run_events(&[BeginDocument, BeginPageGroup, BeginPage], 77);
    assert_eq!(
        events[2..],
        [
            AfpEvent::PageGroupEnd { offset: 77, needs_eng: true },
            AfpEvent::DocumentEnd { offset: 77 },
        ]
    );
    assert_eq!(sm.position(), Position::Preamble);
    assert_eq!(sm.page_count, 1);
}

#[test]
fn boundaries_out_of_place_change_nothing() {
    let (sm, events) = run_events(&[EndPage, EndPageGroup, EndDocument, BeginPageGroup], 5);
    assert!(events.is_empty());
    assert_eq!(sm.position(), Position::Preamble);
    assert_eq!(sm.page_count, 0);
}

#[test]
fn document_index_counts_the_starts_emitted_before_it() {
    let mut sm = StateMachine::new();
    let mut events = Vec::new();
    let boundaries = [
        BeginDocument,
        EndDocument,
        BeginDocument,
        BeginDocument,
        BeginPageGroup,
        BeginPage,
        EndPage,
        BeginPage,
    ];
    for (i, b) in boundaries.iter().enumerate() {
        let before = events
            .iter()
            .filter(|e| matches!(e, AfpEvent::DocumentStart { .. }))
            .count();
        sm.feed(*b, i as u64 * 10, &mut events);
        if let Position::Document { doc } = sm.position() {
            if *b == BeginDocument {
                assert_eq!(doc, before);
            }
        }
    }
    assert_eq!(sm.position(), Position::Page { doc: 2, group: Some(0), page: 1 });
    assert_eq!(sm.page_count, 2);
}

#[test]
fn document_events_alternate_and_a_second_finish_adds_nothing() {
    let (mut sm, mut events) = run_events(
        &[BeginDocument, BeginDocument, BeginPageGroup, BeginPage, EndDocument, BeginDocument, BeginPageGroup],
        500,
    );
    let docs: Vec<bool> = events
        .iter()
        .filter_map(|e| match e {
            AfpEvent::DocumentStart { .. } => Some(true),
            AfpEvent::DocumentEnd { .. } => Some(false),
            _ => None,
        })
        .collect();
    assert_eq!(docs, vec![true, false, true, false, true, false]);
    let len = events.len();
    sm.finish(900, &mut events);
    assert_eq!(events.len(), len);
    assert_eq!(sm.position(), Position::Preamble);
}

#[test]
fn page_count_reads_the_same_through_the_getter() {
    let sm = run(&[BeginDocument, BeginPage, EndPage, BeginPage, EndDocument, BeginDocument, BeginPageGroup, BeginPage]);
    assert_eq!(sm.page_count(), 3);
    assert_eq!(sm.page_count(), sm.page_count);
    assert_eq!(sm.position(), Position::Page { doc: 1, group: Some(0), page: 0 });
}
