use vstd::prelude::*;

use crate::boundary::AfpBoundary;
use crate::strings::{decimal, decimal_digits};

verus! {

/// The level of the document hierarchy the scan is in.
#[derive(Debug, Clone, Copy, PartialEq, Eq, Structural)]
pub enum AfpState {
    OutsideDocument,
    InDocument,
    InPageGroup,
    InPage,
}

/// Document and page group boundaries, as the splitter needs them.
#[derive(Debug, Clone, Copy, PartialEq, Eq, Structural)]
pub enum AfpEvent {
    DocumentStart { offset: u64 },
    DocumentEnd { offset: u64 },
    PageGroupStart { offset: u64 },
    PageGroupEnd { offset: u64, needs_eng: bool },
}

/// Where in the document hierarchy a record sits. Group and page indexes are
/// per document, so they restart at every BDT.
#[derive(Debug, Clone, Copy, PartialEq, Eq, Structural)]
pub enum Position {
    Preamble,
    Document { doc: usize },
    PageGroup { doc: usize, group: usize },
    Page { doc: usize, group: Option<usize>, page: usize },
}

/// The abstract state of a [`StateMachine`]: its level, the file-wide page
/// count, the counters that hand out the next index, and what is open.
pub struct MachineView {
    pub state: AfpState,
    pub page_count: usize,
    pub doc_seq: usize,
    pub group_seq: usize,
    pub page_seq: usize,
    pub cur_doc: Option<usize>,
    pub cur_group: Option<usize>,
    pub cur_page: Option<usize>,
}

/// Opens the next document: it takes the next document index, and the group
/// and page indexes restart.
pub open spec fn open_document(v: MachineView) -> MachineView {
    MachineView {
        cur_doc: Some(v.doc_seq),
        doc_seq: (v.doc_seq + 1) as usize,
        group_seq: 0,
        page_seq: 0,
        cur_group: None,
        cur_page: None,
        ..v
    }
}

/// Closes whatever is open.
pub open spec fn close_document(v: MachineView) -> MachineView {
    MachineView { cur_doc: None, cur_group: None, cur_page: None, ..v }
}

/// Opens the next page group of the current document.
pub open spec fn open_page_group(v: MachineView) -> MachineView {
    MachineView {
        cur_group: Some(v.group_seq),
        group_seq: (v.group_seq + 1) as usize,
        cur_page: None,
        ..v
    }
}

/// Opens the next page of the current document, and counts it file-wide.
pub open spec fn open_page(v: MachineView) -> MachineView {
    MachineView {
        cur_page: Some(v.page_seq),
        page_seq: (v.page_seq + 1) as usize,
        page_count: (v.page_count + 1) as usize,
        ..v
    }
}

pub open spec fn with_state(v: MachineView, s: AfpState) -> MachineView {
    MachineView { state: s, ..v }
}

/// The transition table: the state after `b` at `offset`, and the events it
/// emits. Boundaries that do not fit the current level change nothing.
pub open spec fn step(v: MachineView, b: AfpBoundary, offset: u64) -> (MachineView, Seq<AfpEvent>) {
    match (v.state, b) {
        (AfpState::OutsideDocument, AfpBoundary::BeginDocument) => (
            open_document(with_state(v, AfpState::InDocument)),
            seq![AfpEvent::DocumentStart { offset }],
        ),
        (AfpState::InDocument, AfpBoundary::BeginPageGroup) => (
            open_page_group(with_state(v, AfpState::InPageGroup)),
            seq![AfpEvent::PageGroupStart { offset }],
        ),
        (AfpState::InPageGroup, AfpBoundary::BeginPage) => (
            open_page(with_state(v, AfpState::InPage)),
            seq![],
        ),
        (AfpState::InPage, AfpBoundary::EndPage) => (
            MachineView { state: AfpState::InPageGroup, cur_page: None, ..v },
            seq![],
        ),
        (AfpState::InPageGroup, AfpBoundary::EndPageGroup) => (
            MachineView { state: AfpState::InDocument, cur_group: None, ..v },
            seq![AfpEvent::PageGroupEnd { offset: (offset + 3) as u64, needs_eng: false }],
        ),
        (AfpState::InDocument, AfpBoundary::EndDocument) => (
            close_document(with_state(v, AfpState::OutsideDocument)),
            seq![AfpEvent::DocumentEnd { offset: (offset + 3) as u64 }],
        ),
        (AfpState::InDocument, AfpBoundary::BeginDocument) => (
            open_document(with_state(v, AfpState::InDocument)),
            seq![AfpEvent::DocumentEnd { offset }, AfpEvent::DocumentStart { offset }],
        ),
        (AfpState::InPageGroup, AfpBoundary::EndDocument) => (
            close_document(with_state(v, AfpState::OutsideDocument)),
            seq![
                AfpEvent::PageGroupEnd { offset, needs_eng: true },
                AfpEvent::DocumentEnd { offset: (offset + 3) as u64 },
            ],
        ),
        (AfpState::InDocument, AfpBoundary::BeginPage) => (
            open_page(with_state(v, AfpState::InPage)),
            seq![],
        ),
        (AfpState::InPage, AfpBoundary::EndDocument) => (
            close_document(with_state(v, AfpState::OutsideDocument)),
            seq![AfpEvent::DocumentEnd { offset: (offset + 3) as u64 }],
        ),
        _ => (v, seq![]),
    }
}

/// The transition for `b` takes no index past `usize`: the counter it
/// advances, if any, still has room.
pub open spec fn counters_fit(v: MachineView, b: AfpBoundary) -> bool {
    match (v.state, b) {
        (AfpState::OutsideDocument, AfpBoundary::BeginDocument) => v.doc_seq < usize::MAX,
        (AfpState::InDocument, AfpBoundary::BeginDocument) => v.doc_seq < usize::MAX,
        (AfpState::InDocument, AfpBoundary::BeginPageGroup) => v.group_seq < usize::MAX,
        (AfpState::InPageGroup, AfpBoundary::BeginPage) => v.page_seq < usize::MAX
            && v.page_count < usize::MAX,
        (AfpState::InDocument, AfpBoundary::BeginPage) => v.page_seq < usize::MAX
            && v.page_count < usize::MAX,
        _ => true,
    }
}

/// The transition for `b` at `offset` computes no index or offset past its
/// integer type.
pub open spec fn step_fits(v: MachineView, b: AfpBoundary, offset: u64) -> bool {
    &&& counters_fit(v, b)
    &&& match (v.state, b) {
        (AfpState::InPageGroup, AfpBoundary::EndPageGroup) => offset <= u64::MAX - 3,
        (AfpState::InDocument, AfpBoundary::EndDocument) => offset <= u64::MAX - 3,
        (AfpState::InPageGroup, AfpBoundary::EndDocument) => offset <= u64::MAX - 3,
        (AfpState::InPage, AfpBoundary::EndDocument) => offset <= u64::MAX - 3,
        _ => true,
    }
}

/// End of file: whatever is still open is closed at `file_size`.
pub open spec fn finish_step(v: MachineView, file_size: u64) -> (MachineView, Seq<AfpEvent>) {
    let events = match v.state {
        AfpState::InPage => seq![
            AfpEvent::PageGroupEnd { offset: file_size, needs_eng: true },
            AfpEvent::DocumentEnd { offset: file_size },
        ],
        AfpState::InPageGroup => seq![
            AfpEvent::PageGroupEnd { offset: file_size, needs_eng: true },
            AfpEvent::DocumentEnd { offset: file_size },
        ],
        AfpState::InDocument => seq![AfpEvent::DocumentEnd { offset: file_size }],
        AfpState::OutsideDocument => seq![],
    };
    (close_document(with_state(v, AfpState::OutsideDocument)), events)
}

/// The position a record found in state `v` is reported at.
pub open spec fn position_of(v: MachineView) -> Position {
    match v.cur_doc {
        None => Position::Preamble,
        Some(doc) => match v.cur_page {
            Some(page) => Position::Page { doc, group: v.cur_group, page },
            None => match v.cur_group {
                Some(group) => Position::PageGroup { doc, group },
                None => Position::Document { doc },
            },
        },
    }
}

/// What is open agrees with the level, and every open index is the last one
/// handed out.
pub open spec fn machine_wf(v: MachineView) -> bool {
    &&& (v.state == AfpState::OutsideDocument) == (v.cur_doc is None)
    &&& v.state == AfpState::OutsideDocument ==> v.cur_group is None && v.cur_page is None
    &&& v.state == AfpState::InDocument ==> v.cur_group is None && v.cur_page is None
    &&& v.state == AfpState::InPageGroup ==> v.cur_page is None
    &&& v.state == AfpState::InPage ==> v.cur_page is Some
    &&& v.cur_doc matches Some(d) ==> d + 1 == v.doc_seq
    &&& v.cur_group matches Some(g) ==> g + 1 == v.group_seq
    &&& v.cur_page matches Some(p) ==> p + 1 == v.page_seq
}

/// The text of a position, as the dump prints it before each record.
pub open spec fn position_text(p: Position) -> Seq<char> {
    match p {
        Position::Preamble => "preamble"@,
        Position::Document { doc } => "doc "@ + decimal_digits(doc as nat),
        Position::PageGroup { doc, group } => "doc "@ + decimal_digits(doc as nat) + " group "@
            + decimal_digits(group as nat),
        Position::Page { doc, group: Some(group), page } => "doc "@ + decimal_digits(doc as nat)
            + " group "@ + decimal_digits(group as nat) + " page "@ + decimal_digits(
            page as nat,
        ),
        Position::Page { doc, group: None, page } => "doc "@ + decimal_digits(doc as nat)
            + " page "@ + decimal_digits(page as nat),
    }
}

/// The document events of `events`, in order, alternate start and end,
/// beginning with a start; `open` says whether the last one is a start.
pub open spec fn documents_alternate(events: Seq<AfpEvent>, open: bool) -> bool
    decreases events.len(),
{
    if events.len() == 0 {
        !open
    } else {
        match events.last() {
            AfpEvent::DocumentStart { .. } => open && documents_alternate(events.drop_last(), false),
            AfpEvent::DocumentEnd { .. } => !open && documents_alternate(events.drop_last(), true),
            _ => documents_alternate(events.drop_last(), open),
        }
    }
}

/// The boundary opens a page, in a page group or directly in a document.
pub open spec fn opens_page(s: AfpState, b: AfpBoundary) -> bool {
    b == AfpBoundary::BeginPage && (s == AfpState::InPageGroup || s == AfpState::InDocument)
}

/// The boundary opens a document, from outside or by implicitly closing the
/// open one.
pub open spec fn opens_document(s: AfpState, b: AfpBoundary) -> bool {
    b == AfpBoundary::BeginDocument && (s == AfpState::OutsideDocument || s == AfpState::InDocument)
}

/// A fresh machine is well formed.
pub proof fn lemma_new_is_wf()
    ensures
        machine_wf(fresh_machine()),
{
}

/// Every boundary keeps the machine well formed: what is open agrees with the
/// level, and open indexes are the last ones handed out.
pub proof fn lemma_step_keeps_wf(v: MachineView, b: AfpBoundary, offset: u64)
    requires
        machine_wf(v),
        counters_fit(v, b),
    ensures
        machine_wf(step(v, b, offset).0),
{
}

/// End of file leaves the machine well formed and outside any document, so
/// the position is the preamble level again.
pub proof fn lemma_finish_closes_everything(v: MachineView, file_size: u64)
    ensures
        machine_wf(finish_step(v, file_size).0),
        finish_step(v, file_size).0.state == AfpState::OutsideDocument,
        position_of(finish_step(v, file_size).0) == Position::Preamble,
{
}

/// In a well formed machine the position follows the level: it is the
/// preamble exactly outside a document, and a page exactly inside a page.
pub proof fn lemma_position_follows_level(v: MachineView)
    requires
        machine_wf(v),
    ensures
        (position_of(v) == Position::Preamble) == (v.state == AfpState::OutsideDocument),
        (position_of(v) is Page) == (v.state == AfpState::InPage),
{
}

/// The file-wide page count goes up by one exactly when a page is opened,
/// and never goes down; it keeps counting across documents.
pub proof fn lemma_page_count_counts_pages(v: MachineView, b: AfpBoundary, offset: u64)
    requires
        counters_fit(v, b),
    ensures
        step(v, b, offset).0.page_count == v.page_count + (if opens_page(v.state, b) {
            1int
        } else {
            0int
        }),
{
}

/// Opening a document gives it the next document index, and its group and
/// page indexes restart at zero.
pub proof fn lemma_document_restarts_indexes(v: MachineView, b: AfpBoundary, offset: u64)
    requires
        counters_fit(v, b),
        opens_document(v.state, b),
    ensures
        position_of(step(v, b, offset).0) == (Position::Document { doc: v.doc_seq }),
        step(v, b, offset).0.doc_seq == v.doc_seq + 1,
        step(v, b, offset).0.group_seq == 0,
        step(v, b, offset).0.page_seq == 0,
{
}

proof fn lemma_alternate_push(events: Seq<AfpEvent>, e: AfpEvent, open: bool)
    ensures
        documents_alternate(events.push(e), open) == (match e {
            AfpEvent::DocumentStart { .. } => open && documents_alternate(events, false),
            AfpEvent::DocumentEnd { .. } => !open && documents_alternate(events, true),
            _ => documents_alternate(events, open),
        }),
{
    assert(events.push(e).drop_last() == events);
}

/// Document start and end events alternate, and a start is pending exactly
/// while a document is open: each boundary keeps this.
pub proof fn lemma_step_keeps_documents_alternating(
    v: MachineView,
    b: AfpBoundary,
    offset: u64,
    events: Seq<AfpEvent>,
)
    requires
        machine_wf(v),
        documents_alternate(events, v.state != AfpState::OutsideDocument),
    ensures
        documents_alternate(
            events + step(v, b, offset).1,
            step(v, b, offset).0.state != AfpState::OutsideDocument,
        ),
{
    let (w, emitted) = step(v, b, offset);
    if emitted.len() == 0 {
        assert(events + emitted == events);
    } else if emitted.len() == 1 {
        assert(events + emitted == events.push(emitted[0]));
        lemma_alternate_push(events, emitted[0], w.state != AfpState::OutsideDocument);
    } else {
        assert(events + emitted == events.push(emitted[0]).push(emitted[1]));
        lemma_alternate_push(events, emitted[0], true);
        lemma_alternate_push(events, emitted[0], false);
        lemma_alternate_push(events.push(emitted[0]), emitted[1], w.state != AfpState::OutsideDocument);
    }
}

/// After end of file every document start has its end: the document events
/// of a whole run alternate start, end, start, end.
pub proof fn lemma_finish_balances_documents(v: MachineView, file_size: u64, events: Seq<AfpEvent>)
    requires
        documents_alternate(events, v.state != AfpState::OutsideDocument),
    ensures
        documents_alternate(events + finish_step(v, file_size).1, false),
{
    let emitted = finish_step(v, file_size).1;
    if emitted.len() == 0 {
        assert(events + emitted == events);
    } else if emitted.len() == 1 {
        assert(events + emitted == events.push(emitted[0]));
        lemma_alternate_push(events, emitted[0], false);
    } else {
        assert(events + emitted == events.push(emitted[0]).push(emitted[1]));
        lemma_alternate_push(events, emitted[0], true);
        lemma_alternate_push(events.push(emitted[0]), emitted[1], false);
    }
}

/// The state of a machine that has seen nothing.
pub open spec fn fresh_machine() -> MachineView {
    MachineView {
        state: AfpState::OutsideDocument,
        page_count: 0,
        doc_seq: 0,
        group_seq: 0,
        page_seq: 0,
        cur_doc: None,
        cur_group: None,
        cur_page: None,
    }
}

/// Feeding the boundaries `bs`, each with its offset, one after another to a
/// machine in state `v`: the state reached and every event emitted, in order.
pub open spec fn run(v: MachineView, bs: Seq<(AfpBoundary, u64)>) -> (MachineView, Seq<AfpEvent>)
    decreases bs.len(),
{
    if bs.len() == 0 {
        (v, seq![])
    } else {
        let (w, events) = run(v, bs.drop_last());
        let (x, emitted) = step(w, bs.last().0, bs.last().1);
        (x, events + emitted)
    }
}

/// Every transition of the run takes no index past `usize`.
pub open spec fn run_counters_fit(v: MachineView, bs: Seq<(AfpBoundary, u64)>) -> bool
    decreases bs.len(),
{
    bs.len() == 0 || (run_counters_fit(v, bs.drop_last()) && counters_fit(
        run(v, bs.drop_last()).0,
        bs.last().0,
    ))
}

/// The number of document start events in `events`.
pub open spec fn document_starts(events: Seq<AfpEvent>) -> nat
    decreases events.len(),
{
    if events.len() == 0 {
        0
    } else {
        document_starts(events.drop_last()) + if events.last() is DocumentStart {
            1nat
        } else {
            0nat
        }
    }
}

/// The boundary opens a page group of the current document.
pub open spec fn opens_page_group(s: AfpState, b: AfpBoundary) -> bool {
    b == AfpBoundary::BeginPageGroup && s == AfpState::InDocument
}

/// The number of pages the run opens.
pub open spec fn pages_opened(v: MachineView, bs: Seq<(AfpBoundary, u64)>) -> nat
    decreases bs.len(),
{
    if bs.len() == 0 {
        0
    } else {
        pages_opened(v, bs.drop_last()) + if opens_page(run(v, bs.drop_last()).0.state, bs.last().0) {
            1nat
        } else {
            0nat
        }
    }
}

/// The number of pages the run opens after it last opens a document (all of
/// them, if it opens none).
pub open spec fn pages_since_document(v: MachineView, bs: Seq<(AfpBoundary, u64)>) -> nat
    decreases bs.len(),
{
    if bs.len() == 0 {
        0
    } else {
        let s = run(v, bs.drop_last()).0.state;
        if opens_document(s, bs.last().0) {
            0
        } else if opens_page(s, bs.last().0) {
            pages_since_document(v, bs.drop_last()) + 1
        } else {
            pages_since_document(v, bs.drop_last())
        }
    }
}

/// The number of page groups the run opens after it last opens a document
/// (all of them, if it opens none).
pub open spec fn groups_since_document(v: MachineView, bs: Seq<(AfpBoundary, u64)>) -> nat
    decreases bs.len(),
{
    if bs.len() == 0 {
        0
    } else {
        let s = run(v, bs.drop_last()).0.state;
        if opens_document(s, bs.last().0) {
            0
        } else if opens_page_group(s, bs.last().0) {
            groups_since_document(v, bs.drop_last()) + 1
        } else {
            groups_since_document(v, bs.drop_last())
        }
    }
}

proof fn lemma_document_starts_append(a: Seq<AfpEvent>, b: Seq<AfpEvent>)
    ensures
        document_starts(a + b) == document_starts(a) + document_starts(b),
    decreases b.len(),
{
    if b.len() > 0 {
        lemma_document_starts_append(a, b.drop_last());
        assert((a + b).drop_last() == a + b.drop_last());
    }
}

proof fn lemma_step_counts_document_starts(v: MachineView, b: AfpBoundary, offset: u64)
    ensures
        document_starts(step(v, b, offset).1) == if opens_document(v.state, b) {
            1nat
        } else {
            0nat
        },
{
    reveal_with_fuel(document_starts, 3);
    let emitted = step(v, b, offset).1;
    if emitted.len() == 2 {
        assert(emitted.drop_last().drop_last() == Seq::<AfpEvent>::empty());
    } else if emitted.len() == 1 {
        assert(emitted.drop_last() == Seq::<AfpEvent>::empty());
    }
}

/// What a run from a fresh machine leads to, whatever boundaries it is fed:
/// the machine stays well formed; the next document index is the number of
/// document starts emitted, so an open document's index is the number of
/// starts emitted before its own; the next page and page group indexes count
/// what was opened since the document was, so they restart at every
/// document; the page count is every page opened; and the document start and
/// end events alternate, a start pending exactly while a document is open.
pub proof fn lemma_run_from_fresh(bs: Seq<(AfpBoundary, u64)>)
    requires
        run_counters_fit(fresh_machine(), bs),
    ensures
        machine_wf(run(fresh_machine(), bs).0),
        run(fresh_machine(), bs).0.doc_seq == document_starts(run(fresh_machine(), bs).1),
        run(fresh_machine(), bs).0.page_seq == pages_since_document(fresh_machine(), bs),
        run(fresh_machine(), bs).0.group_seq == groups_since_document(fresh_machine(), bs),
        run(fresh_machine(), bs).0.page_count == pages_opened(fresh_machine(), bs),
        documents_alternate(
            run(fresh_machine(), bs).1,
            run(fresh_machine(), bs).0.state != AfpState::OutsideDocument,
        ),
    decreases bs.len(),
{
    if bs.len() > 0 {
        let init = bs.drop_last();
        lemma_run_from_fresh(init);
        let (w, events) = run(fresh_machine(), init);
        let (b, offset) = bs.last();
        lemma_step_keeps_wf(w, b, offset);
        lemma_step_counts_document_starts(w, b, offset);
        lemma_document_starts_append(events, step(w, b, offset).1);
        lemma_step_keeps_documents_alternating(w, b, offset, events);
    }
}

/// The position a run from a fresh machine ends at, in terms of the run: the
/// document is the one opened by the last document start emitted, and the
/// page group and page indexes count the groups and pages opened in it
/// before the current ones.
pub proof fn lemma_run_position(bs: Seq<(AfpBoundary, u64)>)
    requires
        run_counters_fit(fresh_machine(), bs),
    ensures
        (position_of(run(fresh_machine(), bs).0) == Position::Preamble) == (run(
            fresh_machine(),
            bs,
        ).0.state == AfpState::OutsideDocument),
        position_of(run(fresh_machine(), bs).0) matches Position::Document { doc } ==> doc + 1
            == document_starts(run(fresh_machine(), bs).1),
        position_of(run(fresh_machine(), bs).0) matches Position::PageGroup { doc, group } ==> doc
            + 1 == document_starts(run(fresh_machine(), bs).1) && group + 1 == groups_since_document(
            fresh_machine(),
            bs,
        ),
        position_of(run(fresh_machine(), bs).0) matches Position::Page { doc, group, page } ==> doc
            + 1 == document_starts(run(fresh_machine(), bs).1) && page + 1 == pages_since_document(
            fresh_machine(),
            bs,
        ) && (group matches Some(g) ==> g + 1 == groups_since_document(fresh_machine(), bs)),
{
    lemma_run_from_fresh(bs);
    lemma_position_follows_level(run(fresh_machine(), bs).0);
}

/// Feeding one more boundary after any run from a fresh machine, read
/// through positions. From the preamble, a BDT emits one document start and
/// opens the document whose index is the number of starts emitted before,
/// and anything else changes nothing. The page count grows by one exactly
/// when a BPG arrives in a document or a page group; that opens the page
/// whose index is the number of pages opened since the document was, in the
/// page group if there is one, and emits nothing.
pub proof fn lemma_feed_after_run(bs: Seq<(AfpBoundary, u64)>, b: AfpBoundary, offset: u64)
    requires
        run_counters_fit(fresh_machine(), bs.push((b, offset))),
    ensures
        ({
            let (v, before) = run(fresh_machine(), bs);
            let (w, after) = run(fresh_machine(), bs.push((b, offset)));
            &&& position_of(v) == Position::Preamble ==> w.page_count == v.page_count && if b
                == AfpBoundary::BeginDocument {
                &&& after == before.push(AfpEvent::DocumentStart { offset })
                &&& position_of(w) matches Position::Document { doc } && doc == document_starts(
                    before,
                )
            } else {
                after == before && position_of(w) == Position::Preamble
            }
            &&& w.page_count == v.page_count + if b == AfpBoundary::BeginPage && (position_of(
                v,
            ) is Document || position_of(v) is PageGroup) {
                1int
            } else {
                0int
            }
            &&& b == AfpBoundary::BeginPage ==> (position_of(v) matches Position::Document { doc }
                ==> after == before && (position_of(w) matches Position::Page { doc: d, group, page }
                && d == doc && group is None && page == pages_since_document(fresh_machine(), bs)))
            &&& b == AfpBoundary::BeginPage ==> (position_of(v) matches Position::PageGroup {
                doc,
                group: g,
            } ==> after == before && (position_of(w) matches Position::Page { doc: d, group, page }
                && d == doc && group == Some(g) && page == pages_since_document(fresh_machine(), bs)))
        }),
{
    let x = (b, offset);
    assert(bs.push(x).drop_last() == bs);
    lemma_run_from_fresh(bs);
    let (v, before) = run(fresh_machine(), bs);
    lemma_position_follows_level(v);
    let emitted = step(v, b, offset).1;
    if emitted.len() == 0 {
        assert(before + emitted == before);
    } else if emitted.len() == 1 {
        assert(before + emitted == before.push(emitted[0]));
    }
}

/// At end of file after any run from a fresh machine, the document events
/// alternate start, end, start, end and finish with an end, so every
/// document opened is closed exactly once.
pub proof fn lemma_run_then_finish_balances(bs: Seq<(AfpBoundary, u64)>, file_size: u64)
    requires
        run_counters_fit(fresh_machine(), bs),
    ensures
        documents_alternate(
            run(fresh_machine(), bs).1 + finish_step(run(fresh_machine(), bs).0, file_size).1,
            false,
        ),
{
    lemma_run_from_fresh(bs);
    lemma_finish_balances_documents(run(fresh_machine(), bs).0, file_size, run(fresh_machine(), bs).1);
}

/// Finishing a second time changes nothing and emits nothing.
pub proof fn lemma_finish_twice(v: MachineView, file_size: u64, again: u64)
    ensures
        finish_step(finish_step(v, file_size).0, again).0 == finish_step(v, file_size).0,
        finish_step(finish_step(v, file_size).0, again).1 == Seq::<AfpEvent>::empty(),
{
}

impl Position {
    /// The text of the position: `preamble`, `doc 3`, `doc 3 group 1`,
    /// `doc 3 group 1 page 4`, or `doc 3 page 4` when the document has no
    /// page groups.
    pub fn to_string(&self) -> (s: String)
        ensures
            s@ == position_text(*self),
    {
        let mut s = String::new();
        match *self {
            Position::Preamble => {
                s.append("preamble");
            },
            Position::Document { doc } => {
                s.append("doc ");
                s.append(decimal(doc).as_str());
            },
            Position::PageGroup { doc, group } => {
                s.append("doc ");
                s.append(decimal(doc).as_str());
                s.append(" group ");
                s.append(decimal(group).as_str());
            },
            Position::Page { doc, group, page } => {
                s.append("doc ");
                s.append(decimal(doc).as_str());
                match group {
                    Some(g) => {
                        s.append(" group ");
                        s.append(decimal(g).as_str());
                    },
                    None => {},
                }
                s.append(" page ");
                s.append(decimal(page).as_str());
            },
        }
        s
    }
}

/// Tracks the position in the document hierarchy while the boundaries of a
/// file are fed to it in offset order, and emits the document and page group
/// events the splitter assembles documents from.
pub struct StateMachine {
    state: AfpState,
    pub page_count: usize,
    // running counters, used to hand out the next index
    doc_seq: usize,
    group_seq: usize,
    page_seq: usize,
    // what is currently open, if anything
    cur_doc: Option<usize>,
    cur_group: Option<usize>,
    cur_page: Option<usize>,
}

impl View for StateMachine {
    type V = MachineView;

    closed spec fn view(&self) -> MachineView {
        MachineView {
            state: self.state,
            page_count: self.page_count,
            doc_seq: self.doc_seq,
            group_seq: self.group_seq,
            page_seq: self.page_seq,
            cur_doc: self.cur_doc,
            cur_group: self.cur_group,
            cur_page: self.cur_page,
        }
    }
}

impl StateMachine {
    /// A machine outside any document that has seen nothing.
    pub fn new() -> (sm: Self)
        ensures
            sm@ == fresh_machine(),
            machine_wf(sm@),
    {
        StateMachine {
            state: AfpState::OutsideDocument,
            page_count: 0,
            doc_seq: 0,
            group_seq: 0,
            page_seq: 0,
            cur_doc: None,
            cur_group: None,
            cur_page: None,
        }
    }

    /// The number of pages opened so far, across all documents.
    pub fn page_count(&self) -> (n: usize)
        ensures
            n == self@.page_count,
    {
        self.page_count
    }

    /// Where a record found now sits.
    pub fn position(&self) -> (p: Position)
        ensures
            p == position_of(self@),
    {
        let doc = match self.cur_doc {
            Some(d) => d,
            None => {
                return Position::Preamble;
            },
        };
        if let Some(page) = self.cur_page {
            return Position::Page { doc, group: self.cur_group, page };
        }
        if let Some(group) = self.cur_group {
            return Position::PageGroup { doc, group };
        }
        Position::Document { doc }
    }

    fn open_document(&mut self)
        requires
            old(self).doc_seq < usize::MAX,
        ensures
            final(self)@ == open_document(old(self)@),
    {
        self.cur_doc = Some(self.doc_seq);
        self.doc_seq += 1;
        self.group_seq = 0;
        self.page_seq = 0;
        self.cur_group = None;
        self.cur_page = None;
    }

    fn close_document(&mut self)
        ensures
            final(self)@ == close_document(old(self)@),
    {
        self.cur_doc = None;
        self.cur_group = None;
        self.cur_page = None;
    }

    fn open_page_group(&mut self)
        requires
            old(self).group_seq < usize::MAX,
        ensures
            final(self)@ == open_page_group(old(self)@),
    {
        self.cur_group = Some(self.group_seq);
        self.group_seq += 1;
        self.cur_page = None;
    }

    fn open_page(&mut self)
        requires
            old(self).page_seq < usize::MAX,
            old(self).page_count < usize::MAX,
        ensures
            final(self)@ == open_page(old(self)@),
    {
        self.cur_page = Some(self.page_seq);
        self.page_seq += 1;
        self.page_count += 1;
    }

    /// Feeds one boundary found at `offset`: moves through the transition
    /// table and appends the events it emits.
    pub fn feed(&mut self, boundary: AfpBoundary, offset: u64, events: &mut Vec<AfpEvent>)
        requires
            step_fits(old(self)@, boundary, offset),
        ensures
            final(self)@ == step(old(self)@, boundary, offset).0,
            final(events)@ == old(events)@ + step(old(self)@, boundary, offset).1,
            machine_wf(old(self)@) ==> machine_wf(final(self)@),
    {
        let ghost v = self@;
        match (self.state, boundary) {
            (AfpState::OutsideDocument, AfpBoundary::BeginDocument) => {
                self.state = AfpState::InDocument;
                self.open_document();
                events.push(AfpEvent::DocumentStart { offset });
            },
            (AfpState::InDocument, AfpBoundary::BeginPageGroup) => {
                self.state = AfpState::InPageGroup;
                self.open_page_group();
                events.push(AfpEvent::PageGroupStart { offset });
            },
            (AfpState::InPageGroup, AfpBoundary::BeginPage) => {
                self.state = AfpState::InPage;
                self.open_page();
            },
            (AfpState::InPage, AfpBoundary::EndPage) => {
                self.state = AfpState::InPageGroup;
                self.cur_page = None;
            },
            (AfpState::InPageGroup, AfpBoundary::EndPageGroup) => {
                self.state = AfpState::InDocument;
                self.cur_group = None;
                events.push(AfpEvent::PageGroupEnd { offset: offset + 3, needs_eng: false });
            },
            (AfpState::InDocument, AfpBoundary::EndDocument) => {
                self.state = AfpState::OutsideDocument;
                self.close_document();
                events.push(AfpEvent::DocumentEnd { offset: offset + 3 });
            },
            (AfpState::InDocument, AfpBoundary::BeginDocument) => {
                events.push(AfpEvent::DocumentEnd { offset });
                self.state = AfpState::InDocument;
                self.open_document();
                events.push(AfpEvent::DocumentStart { offset });
            },
            (AfpState::InPageGroup, AfpBoundary::EndDocument) => {
                self.state = AfpState::OutsideDocument;
                self.close_document();
                events.push(AfpEvent::PageGroupEnd { offset, needs_eng: true });
                events.push(AfpEvent::DocumentEnd { offset: offset + 3 });
            },
            (AfpState::InDocument, AfpBoundary::BeginPage) => {
                self.state = AfpState::InPage;
                self.open_page();
            },
            (AfpState::InPage, AfpBoundary::EndDocument) => {
                self.state = AfpState::OutsideDocument;
                self.close_document();
                events.push(AfpEvent::DocumentEnd { offset: offset + 3 });
            },
            _ => {},
        }
        proof {
            assert(self@ == step(v, boundary, offset).0);
            if machine_wf(v) {
                lemma_step_keeps_wf(v, boundary, offset);
            }
        }
    }

    /// End of file at `file_size`: closes whatever is open and appends the
    /// events that close it.
    pub fn finish(&mut self, file_size: u64, events: &mut Vec<AfpEvent>)
        ensures
            final(self)@ == finish_step(old(self)@, file_size).0,
            final(events)@ == old(events)@ + finish_step(old(self)@, file_size).1,
            machine_wf(final(self)@),
    {
        match self.state {
            AfpState::InPage => {
                events.push(AfpEvent::PageGroupEnd { offset: file_size, needs_eng: true });
                events.push(AfpEvent::DocumentEnd { offset: file_size });
            },
            AfpState::InPageGroup => {
                events.push(AfpEvent::PageGroupEnd { offset: file_size, needs_eng: true });
                events.push(AfpEvent::DocumentEnd { offset: file_size });
            },
            AfpState::InDocument => {
                events.push(AfpEvent::DocumentEnd { offset: file_size });
            },
            AfpState::OutsideDocument => {},
        }
        self.state = AfpState::OutsideDocument;
        self.close_document();
        proof {
            lemma_finish_closes_everything(old(self)@, file_size);
        }
    }
}

impl Default for StateMachine {
    fn default() -> (sm: Self)
        ensures
            sm@ == fresh_machine(),
            machine_wf(sm@),
    {
        Self::new()
    }
}

} // verus!
