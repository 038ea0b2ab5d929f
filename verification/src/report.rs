use vstd::prelude::*;

use crate::boundary::{Hit, HitKind};
use crate::chunk::{documents_view, Document, DocumentView};
use crate::state::AfpEvent;
use crate::strings::{decimal, decimal_digits};

// The decisions a run makes between its passes.
verus! {

pub open spec fn is_dump_hit(h: Hit) -> bool {
    h.kind == HitKind::Nop || h.kind == HitKind::Tle
}

/// How many of the hits are NOP or TLE records.
pub open spec fn dump_hit_count(hits: Seq<Hit>) -> nat
    decreases hits.len(),
{
    if hits.len() == 0 {
        0
    } else {
        dump_hit_count(hits.drop_last()) + if is_dump_hit(hits.last()) {
            1nat
        } else {
            0nat
        }
    }
}

proof fn lemma_dump_hit_count_bound(hits: Seq<Hit>)
    ensures
        dump_hit_count(hits) <= hits.len(),
    decreases hits.len(),
{
    if hits.len() > 0 {
        lemma_dump_hit_count_bound(hits.drop_last());
    }
}

/// The number of NOP and TLE records to dump, known before anything is
/// written, so the terminal can be protected without a partial dump.
pub fn count_dump_hits(hits: &Vec<Hit>) -> (n: usize)
    ensures
        n == dump_hit_count(hits@),
{
    let mut n: usize = 0;
    let mut i: usize = 0;
    while i < hits.len()
        invariant
            0 <= i <= hits@.len(),
            n == dump_hit_count(hits@.take(i as int)),
        decreases hits@.len() - i,
    {
        proof {
            assert(hits@.take(i + 1).drop_last() == hits@.take(i as int));
            lemma_dump_hit_count_bound(hits@.take(i as int));
        }
        if hits[i].kind == HitKind::Nop || hits[i].kind == HitKind::Tle {
            n += 1;
        }
        i += 1;
    }
    proof {
        assert(hits@.take(i as int) == hits@);
    }
    n
}

/// A dump to the terminal is refused above the limit; a dump to a file
/// never is.
pub fn terminal_dump_refused(to_file: bool, total: usize, limit: usize) -> (refused: bool)
    ensures
        refused == (!to_file && total > limit),
{
    !to_file && total > limit
}

/// The offset of the first document start, or 0 when there is none: the
/// bytes before it are the resource preamble.
pub open spec fn first_document_offset_spec(events: Seq<AfpEvent>) -> u64
    decreases events.len(),
{
    if events.len() == 0 {
        0
    } else {
        match events[0] {
            AfpEvent::DocumentStart { offset } => offset,
            _ => first_document_offset_spec(events.drop_first()),
        }
    }
}

pub fn first_document_offset(events: &Vec<AfpEvent>) -> (o: u64)
    ensures
        o == first_document_offset_spec(events@),
{
    let mut i: usize = 0;
    proof {
        assert(events@.skip(0) == events@);
    }
    while i < events.len()
        invariant
            0 <= i <= events@.len(),
            first_document_offset_spec(events@) == first_document_offset_spec(events@.skip(i as int)),
        decreases events@.len() - i,
    {
        proof {
            assert(events@.skip(i as int).drop_first() == events@.skip(i + 1));
        }
        if let AfpEvent::DocumentStart { offset } = events[i] {
            return offset;
        }
        i += 1;
    }
    0
}

/// The number of page groups of all the documents.
pub open spec fn page_group_total_spec(docs: Seq<DocumentView>) -> int
    decreases docs.len(),
{
    if docs.len() == 0 {
        0
    } else {
        page_group_total_spec(docs.drop_last()) + docs.last().page_groups.len()
    }
}

proof fn lemma_page_group_total_monotone(docs: Seq<DocumentView>, i: int)
    requires
        0 <= i <= docs.len(),
    ensures
        page_group_total_spec(docs.take(i)) <= page_group_total_spec(docs),
    decreases docs.len() - i,
{
    if i < docs.len() {
        lemma_page_group_total_monotone(docs, i + 1);
        assert(docs.take(i + 1).drop_last() == docs.take(i));
    } else {
        assert(docs.take(i) == docs);
    }
}

pub fn page_group_total(docs: &Vec<Document>) -> (n: usize)
    requires
        page_group_total_spec(documents_view(docs@)) <= usize::MAX,
    ensures
        n == page_group_total_spec(documents_view(docs@)),
{
    let ghost dv = documents_view(docs@);
    let mut n: usize = 0;
    let mut i: usize = 0;
    while i < docs.len()
        invariant
            0 <= i <= docs@.len(),
            dv == documents_view(docs@),
            page_group_total_spec(dv) <= usize::MAX,
            n == page_group_total_spec(dv.take(i as int)),
        decreases docs@.len() - i,
    {
        proof {
            assert(dv.take(i + 1).drop_last() == dv.take(i as int));
            lemma_page_group_total_monotone(dv, i + 1);
        }
        n = n + docs[i].page_groups.len();
        i += 1;
    }
    proof {
        assert(dv.take(i as int) == dv);
    }
    n
}

/// The index report of a run.
pub open spec fn index_line_spec(documents: nat, page_groups: nat, pages: nat) -> Seq<char> {
    "Found "@ + decimal_digits(documents) + " document(s) containing "@ + decimal_digits(page_groups)
        + " page group(s) across "@ + decimal_digits(pages) + " page(s)"@
}

/// `Found {documents} document(s) containing {page_groups} page group(s)
/// across {pages} page(s)`.
pub fn index_line(documents: usize, page_groups: usize, pages: usize) -> (s: String)
    ensures
        s@ == index_line_spec(documents as nat, page_groups as nat, pages as nat),
{
    let mut s = String::from_str("Found ");
    s.append(decimal(documents).as_str());
    s.append(" document(s) containing ");
    s.append(decimal(page_groups).as_str());
    s.append(" page group(s) across ");
    s.append(decimal(pages).as_str());
    s.append(" page(s)");
    s
}

} // verus!
