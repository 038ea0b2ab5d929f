use vstd::prelude::*;

use crate::state::AfpEvent;

verus! {

/// A page group of a document, by its byte range in the source file.
/// `contains_edt` marks the single virtual group of a document without page
/// groups: its range runs to the end of the document and so already holds
/// the document's EDT.
#[derive(Debug, Clone, Copy, PartialEq, Eq, Structural)]
pub struct PageGroup {
    pub start: u64,
    pub end: u64,
    pub contains_edt: bool,
}

/// `a - b`, or zero where `b` is larger.
pub open spec fn saturating_diff(a: u64, b: u64) -> int {
    if a >= b {
        a - b
    } else {
        0
    }
}

pub open spec fn pg_size(pg: PageGroup) -> int {
    saturating_diff(pg.end, pg.start)
}

impl PageGroup {
    /// The number of bytes of the group (zero for a reversed range).
    pub fn size(&self) -> (n: u64)
        ensures
            n == pg_size(*self),
    {
        if self.end >= self.start {
            self.end - self.start
        } else {
            0
        }
    }
}

/// A document: its start, the end of its prologue (the document-level
/// content before its first page group), its page groups and its end.
#[derive(Debug, Clone)]
pub struct Document {
    pub start: u64,
    pub prologue_end: u64,
    pub page_groups: Vec<PageGroup>,
    pub end: u64,
}

pub struct DocumentView {
    pub start: u64,
    pub prologue_end: u64,
    pub page_groups: Seq<PageGroup>,
    pub end: u64,
}

impl View for Document {
    type V = DocumentView;

    open spec fn view(&self) -> DocumentView {
        DocumentView {
            start: self.start,
            prologue_end: self.prologue_end,
            page_groups: self.page_groups@,
            end: self.end,
        }
    }
}

pub open spec fn prologue_size(d: DocumentView) -> int {
    saturating_diff(d.prologue_end, d.start)
}

impl Document {
    /// The number of bytes of the prologue (zero for a reversed range).
    pub fn prologue_size(&self) -> (n: u64)
        ensures
            n == prologue_size(self@),
    {
        if self.prologue_end >= self.start {
            self.prologue_end - self.start
        } else {
            0
        }
    }
}

/// One output file: the prologue range of its document, its page groups,
/// the byte range they span, and whether an EDT has to be appended.
#[derive(Debug)]
pub struct OutputChunk {
    pub prologue: (u64, u64),
    pub page_groups: Vec<PageGroup>,
    pub pg_range: (u64, u64),
    pub needs_edt: bool,
}

pub struct ChunkView {
    pub prologue: (u64, u64),
    pub page_groups: Seq<PageGroup>,
    pub pg_range: (u64, u64),
    pub needs_edt: bool,
}

impl View for OutputChunk {
    type V = ChunkView;

    open spec fn view(&self) -> ChunkView {
        ChunkView {
            prologue: self.prologue,
            page_groups: self.page_groups@,
            pg_range: self.pg_range,
            needs_edt: self.needs_edt,
        }
    }
}

pub open spec fn documents_view(docs: Seq<Document>) -> Seq<DocumentView> {
    docs.map_values(|d: Document| d@)
}

pub open spec fn chunks_view(chunks: Seq<OutputChunk>) -> Seq<ChunkView> {
    chunks.map_values(|c: OutputChunk| c@)
}

/// The chunk made of `pgs` under the prologue `(doc_start, prologue_end)`.
pub open spec fn chunk_of(pgs: Seq<PageGroup>, doc_start: u64, prologue_end: u64, needs_edt: bool) -> ChunkView {
    ChunkView {
        prologue: (doc_start, prologue_end),
        page_groups: pgs,
        pg_range: (
            if pgs.len() > 0 {
                pgs[0].start
            } else {
                0
            },
            if pgs.len() > 0 {
                pgs.last().end
            } else {
                0
            },
        ),
        needs_edt,
    }
}

pub open spec fn sum_sizes(pgs: Seq<PageGroup>) -> int
    decreases pgs.len(),
{
    if pgs.len() == 0 {
        0
    } else {
        sum_sizes(pgs.drop_last()) + pg_size(pgs.last())
    }
}

/// The size an output file of this chunk has, leaving aside the shared
/// preamble and the closing EPF: its prologue, its page groups and the EDT
/// it needs appended.
pub open spec fn chunk_cost(c: ChunkView) -> int {
    saturating_diff(c.prologue.1, c.prologue.0) + (if c.needs_edt {
        3int
    } else {
        0int
    }) + sum_sizes(c.page_groups)
}

/// Chunk `c` holds page groups `o.1 .. o.2` (at least one) of document
/// `o.0`, under that document's prologue; it needs an EDT exactly when its
/// first group does not carry one, and its range runs from the start of its
/// first group to the end of its last.
pub open spec fn chunk_from(docs: Seq<DocumentView>, c: ChunkView, o: (int, int, int)) -> bool {
    let (d, a, b) = o;
    &&& 0 <= d < docs.len()
    &&& 0 <= a < b <= docs[d].page_groups.len()
    &&& c.prologue == (docs[d].start, docs[d].prologue_end)
    &&& c.page_groups == docs[d].page_groups.subrange(a, b)
    &&& c.needs_edt == !docs[d].page_groups[a].contains_edt
    &&& c.pg_range == (docs[d].page_groups[a].start, docs[d].page_groups[b - 1].end)
}

/// A chunk of two or more page groups stays within `max` bytes; a single
/// page group larger than `max` makes a chunk of its own, since a page group
/// is never split.
pub open spec fn within_limit(c: ChunkView, max: int) -> bool {
    c.page_groups.len() >= 2 ==> chunk_cost(c) <= max
}

/// Consecutive chunks of one document were split because the next page
/// group would have taken the first past `max` bytes.
pub open spec fn split_needed(c1: ChunkView, o1: (int, int, int), c2: ChunkView, o2: (int, int, int), max: int) -> bool {
    o1.0 == o2.0 ==> chunk_cost(c1) + pg_size(c2.page_groups[0]) > max
}

pub open spec fn no_groups_between(docs: Seq<DocumentView>, from: int, to: int) -> bool {
    forall|d: int| from <= d < to ==> (#[trigger] docs[d]).page_groups.len() == 0
}

/// Run `o2` takes up where run `o1` stops: later in the same document, or
/// at the first group of a later document once `o1` has reached the end of
/// its own, with only documents without page groups between them.
pub open spec fn runs_adjacent(docs: Seq<DocumentView>, o1: (int, int, int), o2: (int, int, int)) -> bool {
    ||| (o1.0 == o2.0 && o1.2 == o2.1)
    ||| (o1.0 < o2.0 && o1.2 == docs[o1.0].page_groups.len() && o2.1 == 0 && no_groups_between(
        docs,
        o1.0 + 1,
        o2.0,
    ))
}

/// The runs, taken in order, cover every page group of documents `..i` and
/// the first `j` page groups of document `i`, each exactly once.
pub open spec fn runs_cover(docs: Seq<DocumentView>, origins: Seq<(int, int, int)>, i: int, j: int) -> bool {
    &&& forall|k1: int, k2: int|
        #![trigger origins[k1], origins[k2]]
        0 <= k1 && k2 == k1 + 1 && k2 < origins.len() ==> runs_adjacent(docs, origins[k1], origins[k2])
    &&& if origins.len() == 0 {
        no_groups_between(docs, 0, i) && j == 0
    } else {
        &&& origins[0].1 == 0
        &&& no_groups_between(docs, 0, origins[0].0)
        &&& {
            ||| (origins.last().0 == i && origins.last().2 == j)
            ||| (origins.last().0 < i && origins.last().2 == docs[origins.last().0].page_groups.len()
                && no_groups_between(docs, origins.last().0 + 1, i) && j == 0)
        }
    }
}

/// `chunks` is the plan for the page groups that `runs_cover` names, with
/// `origins` saying where each chunk comes from: no page group is split,
/// lost, repeated or moved; no chunk mixes documents; chunks of more than
/// one group respect the limit; and a document is only cut where the next
/// page group would have broken it.
pub open spec fn plan_valid(
    docs: Seq<DocumentView>,
    max: int,
    chunks: Seq<ChunkView>,
    origins: Seq<(int, int, int)>,
    i: int,
    j: int,
) -> bool {
    &&& chunks.len() == origins.len()
    &&& forall|k: int| 0 <= k < chunks.len() ==> chunk_from(docs, #[trigger] chunks[k], origins[k])
    &&& forall|k: int| 0 <= k < chunks.len() ==> within_limit(#[trigger] chunks[k], max)
    &&& forall|k1: int, k2: int|
        #![trigger chunks[k1], chunks[k2]]
        0 <= k1 && k2 == k1 + 1 && k2 < chunks.len() ==> split_needed(
            chunks[k1],
            origins[k1],
            chunks[k2],
            origins[k2],
            max,
        )
    &&& runs_cover(docs, origins, i, j)
}

/// The plan for all of `docs`.
pub open spec fn is_plan(docs: Seq<DocumentView>, max: int, chunks: Seq<ChunkView>) -> bool {
    exists|origins: Seq<(int, int, int)>| plan_valid(docs, max, chunks, origins, docs.len() as int, 0)
}

proof fn lemma_sum_sizes_bound(pgs: Seq<PageGroup>)
    ensures
        0 <= sum_sizes(pgs) <= pgs.len() * (u64::MAX as int),
    decreases pgs.len(),
{
    if pgs.len() > 0 {
        lemma_sum_sizes_bound(pgs.drop_last());
    }
}

proof fn lemma_cost_fits(len: int, sum: int)
    by (nonlinear_arith)
    requires
        0 <= len <= 0xffff_ffff_ffff_fffe,
        0 <= sum <= len * 0xffff_ffff_ffff_ffff,
    ensures
        sum <= 0xffff_ffff_ffff_fffd_0000_0000_0000_0002,
{
}

proof fn lemma_sum_sizes_push(pgs: Seq<PageGroup>, pg: PageGroup)
    ensures
        sum_sizes(pgs.push(pg)) == sum_sizes(pgs) + pg_size(pg),
{
    assert(pgs.push(pg).drop_last() == pgs);
}

/// A page group that does not fit the open chunk (or comes with no chunk
/// open) starts a chunk of its own.
proof fn lemma_plan_start_chunk(
    docs: Seq<DocumentView>,
    max: int,
    cs: Seq<ChunkView>,
    origins: Seq<(int, int, int)>,
    i: int,
    j: int,
)
    requires
        plan_valid(docs, max, cs, origins, i, j),
        0 <= i < docs.len(),
        0 <= j < docs[i].page_groups.len(),
        origins.len() > 0 && origins.last().0 == i ==> chunk_cost(cs.last()) + pg_size(
            docs[i].page_groups[j],
        ) > max,
    ensures
        plan_valid(
            docs,
            max,
            cs.push(
                chunk_of(
                    seq![docs[i].page_groups[j]],
                    docs[i].start,
                    docs[i].prologue_end,
                    !docs[i].page_groups[j].contains_edt,
                ),
            ),
            origins.push((i, j, j + 1)),
            i,
            j + 1,
        ),
{
    let pg = docs[i].page_groups[j];
    let c = chunk_of(seq![pg], docs[i].start, docs[i].prologue_end, !pg.contains_edt);
    let cs2 = cs.push(c);
    let o2 = origins.push((i, j, j + 1));
    assert(docs[i].page_groups.subrange(j, j + 1) == seq![pg]);
    assert(chunk_from(docs, c, (i, j, j + 1)));
    assert forall|k: int| 0 <= k < cs2.len() implies chunk_from(docs, #[trigger] cs2[k], o2[k]) by {
        if k < cs.len() {
            assert(cs2[k] == cs[k]);
            assert(o2[k] == origins[k]);
        }
    }
    assert forall|k: int| 0 <= k < cs2.len() implies within_limit(#[trigger] cs2[k], max) by {
        if k < cs.len() {
            assert(cs2[k] == cs[k]);
        }
    }
    assert forall|k1: int, k2: int|
        0 <= k1 && k2 == k1 + 1 && k2 < cs2.len() implies #[trigger] split_needed(
        cs2[k1],
        o2[k1],
        cs2[k2],
        o2[k2],
        max,
    ) by {
        assert(cs2[k1] == cs[k1]);
        assert(o2[k1] == origins[k1]);
        if k2 < cs.len() {
            assert(cs2[k2] == cs[k2]);
            assert(o2[k2] == origins[k2]);
            assert(split_needed(cs[k1], origins[k1], cs[k2], origins[k2], max));
        } else {
            assert(cs2[k2] == c);
            assert(c.page_groups[0] == pg);
        }
    }
    assert forall|k1: int, k2: int|
        0 <= k1 && k2 == k1 + 1 && k2 < o2.len() implies runs_adjacent(docs, #[trigger] o2[k1], #[trigger] o2[k2]) by {
        assert(o2[k1] == origins[k1]);
        if k2 < origins.len() {
            assert(o2[k2] == origins[k2]);
        } else {
            assert(o2[k2] == (i, j, j + 1));
            assert(origins[k1] == origins.last());
        }
    }
    assert(o2.last() == (i, j, j + 1));
    if origins.len() > 0 {
        assert(o2[0] == origins[0]);
    }
}

/// A page group that fits the open chunk joins it.
proof fn lemma_plan_extend_chunk(
    docs: Seq<DocumentView>,
    max: int,
    cs: Seq<ChunkView>,
    origins: Seq<(int, int, int)>,
    i: int,
    j: int,
    a: int,
    pgs: Seq<PageGroup>,
    doc_start: u64,
    prologue_end: u64,
    needs_edt: bool,
)
    requires
        plan_valid(docs, max, cs.push(chunk_of(pgs, doc_start, prologue_end, needs_edt)), origins, i, j),
        origins.len() > 0,
        origins.last() == (i, a, j),
        0 <= i < docs.len(),
        0 <= j < docs[i].page_groups.len(),
        chunk_cost(chunk_of(pgs, doc_start, prologue_end, needs_edt)) + pg_size(docs[i].page_groups[j]) <= max,
    ensures
        plan_valid(
            docs,
            max,
            cs.push(chunk_of(pgs.push(docs[i].page_groups[j]), doc_start, prologue_end, needs_edt)),
            origins.update(origins.len() - 1, (i, a, j + 1)),
            i,
            j + 1,
        ),
{
    let pg = docs[i].page_groups[j];
    let old_c = chunk_of(pgs, doc_start, prologue_end, needs_edt);
    let c = chunk_of(pgs.push(pg), doc_start, prologue_end, needs_edt);
    let cs1 = cs.push(old_c);
    let cs2 = cs.push(c);
    let last = origins.len() - 1;
    let o2 = origins.update(last, (i, a, j + 1));
    assert(cs1[last] == old_c);
    assert(chunk_from(docs, old_c, origins[last]));
    assert(pgs == docs[i].page_groups.subrange(a, j));
    assert(pgs.push(pg) == docs[i].page_groups.subrange(a, j + 1));
    assert(chunk_from(docs, c, (i, a, j + 1)));
    lemma_sum_sizes_push(pgs, pg);
    assert(chunk_cost(c) == chunk_cost(old_c) + pg_size(pg));
    assert forall|k: int| 0 <= k < cs2.len() implies chunk_from(docs, #[trigger] cs2[k], o2[k]) by {
        if k < last {
            assert(cs2[k] == cs1[k]);
            assert(o2[k] == origins[k]);
        }
    }
    assert forall|k: int| 0 <= k < cs2.len() implies within_limit(#[trigger] cs2[k], max) by {
        if k < last {
            assert(cs2[k] == cs1[k]);
        }
    }
    assert forall|k1: int, k2: int|
        0 <= k1 && k2 == k1 + 1 && k2 < cs2.len() implies #[trigger] split_needed(
        cs2[k1],
        o2[k1],
        cs2[k2],
        o2[k2],
        max,
    ) by {
        assert(cs2[k1] == cs1[k1]);
        assert(o2[k1] == origins[k1]);
        assert(split_needed(cs1[k1], origins[k1], cs1[k2], origins[k2], max));
        if k2 == last {
            assert(c.page_groups[0] == old_c.page_groups[0]);
        } else {
            assert(cs2[k2] == cs1[k2]);
            assert(o2[k2] == origins[k2]);
        }
    }
    assert forall|k1: int, k2: int|
        0 <= k1 && k2 == k1 + 1 && k2 < o2.len() implies runs_adjacent(docs, #[trigger] o2[k1], #[trigger] o2[k2]) by {
        assert(o2[k1] == origins[k1]);
        assert(runs_adjacent(docs, origins[k1], origins[k2]));
    }
    assert(o2.last() == (i, a, j + 1));
    assert(o2[0].1 == origins[0].1);
    assert(o2[0].0 == origins[0].0);
}

/// The page groups of documents `..i`, in order.
pub open spec fn groups_before(docs: Seq<DocumentView>, i: int) -> Seq<PageGroup>
    decreases i,
{
    if i <= 0 {
        seq![]
    } else {
        groups_before(docs, i - 1) + docs[i - 1].page_groups
    }
}

/// The page groups of the chunks, in order.
pub open spec fn chunk_groups(chunks: Seq<ChunkView>) -> Seq<PageGroup>
    decreases chunks.len(),
{
    if chunks.len() == 0 {
        seq![]
    } else {
        chunk_groups(chunks.drop_last()) + chunks.last().page_groups
    }
}

proof fn lemma_groups_before_skips_empty(docs: Seq<DocumentView>, from: int, to: int)
    requires
        0 <= from <= to <= docs.len(),
        no_groups_between(docs, from, to),
    ensures
        groups_before(docs, to) == groups_before(docs, from),
    decreases to - from,
{
    if to > from {
        lemma_groups_before_skips_empty(docs, from, to - 1);
        assert(docs[to - 1].page_groups.len() == 0);
        assert(groups_before(docs, to) == groups_before(docs, to - 1) + docs[to - 1].page_groups);
        assert(groups_before(docs, to - 1) + docs[to - 1].page_groups == groups_before(docs, to - 1));
    }
}

proof fn lemma_runs_tile(
    docs: Seq<DocumentView>,
    chunks: Seq<ChunkView>,
    origins: Seq<(int, int, int)>,
    i: int,
    j: int,
)
    requires
        chunks.len() == origins.len(),
        forall|k: int| 0 <= k < chunks.len() ==> chunk_from(docs, #[trigger] chunks[k], origins[k]),
        runs_cover(docs, origins, i, j),
        0 <= i <= docs.len(),
        i < docs.len() ==> 0 <= j <= docs[i].page_groups.len(),
        i == docs.len() ==> j == 0,
    ensures
        chunk_groups(chunks) == groups_before(docs, i) + (if i < docs.len() {
            docs[i].page_groups.subrange(0, j)
        } else {
            seq![]
        }),
    decreases chunks.len(),
{
    if chunks.len() == 0 {
        lemma_groups_before_skips_empty(docs, 0, i);
        if i < docs.len() {
            assert(docs[i].page_groups.subrange(0, j) == Seq::<PageGroup>::empty());
        }
    } else {
        let n = chunks.len() - 1;
        let (d, a, b) = origins[n];
        assert(chunk_from(docs, chunks[n], origins[n]));
        let cs = chunks.drop_last();
        let os = origins.drop_last();
        assert forall|k: int| 0 <= k < cs.len() implies chunk_from(docs, #[trigger] cs[k], os[k]) by {
            assert(cs[k] == chunks[k]);
            assert(os[k] == origins[k]);
        }
        assert forall|k1: int, k2: int|
            0 <= k1 && k2 == k1 + 1 && k2 < os.len() implies runs_adjacent(docs, #[trigger] os[k1], #[trigger] os[k2]) by {
            assert(os[k1] == origins[k1]);
            assert(os[k2] == origins[k2]);
        }
        if n > 0 {
            assert(runs_adjacent(docs, origins[n - 1], origins[n]));
            assert(os.last() == origins[n - 1]);
            assert(os[0] == origins[0]);
        }
        assert(runs_cover(docs, os, d, a));
        lemma_runs_tile(docs, cs, os, d, a);
        // the last chunk holds groups a .. b of document d
        let g = docs[d].page_groups;
        assert(chunks.last().page_groups == g.subrange(a, b));
        assert(g.subrange(0, a) + g.subrange(a, b) == g.subrange(0, b));
        assert(chunk_groups(chunks) == chunk_groups(cs) + chunks.last().page_groups);
        if d == i {
            assert(b == j);
        } else {
            assert(d < i && b == g.len() && j == 0);
            assert(g.subrange(0, b) == g);
            assert(groups_before(docs, d + 1) == groups_before(docs, d) + g);
            lemma_groups_before_skips_empty(docs, d + 1, i);
            if i < docs.len() {
                assert(docs[i].page_groups.subrange(0, 0) == Seq::<PageGroup>::empty());
            }
        }
    }
}

/// Every page group of every document lands in exactly one chunk, and the
/// chunks hold them in the documents' order: nothing is split, lost,
/// repeated or reordered.
pub proof fn lemma_plan_keeps_every_page_group(docs: Seq<DocumentView>, max: int, chunks: Seq<ChunkView>)
    requires
        is_plan(docs, max, chunks),
    ensures
        chunk_groups(chunks) == groups_before(docs, docs.len() as int),
{
    let origins = choose|origins: Seq<(int, int, int)>|
        plan_valid(docs, max, chunks, origins, docs.len() as int, 0);
    lemma_runs_tile(docs, chunks, origins, docs.len() as int, 0);
}

proof fn lemma_sum_sizes_extend(g: Seq<PageGroup>, a: int, b: int)
    requires
        0 <= a <= b < g.len(),
    ensures
        sum_sizes(g.subrange(a, b + 1)) == sum_sizes(g.subrange(a, b)) + pg_size(g[b]),
{
    assert(g.subrange(a, b + 1).drop_last() == g.subrange(a, b));
}

proof fn lemma_sum_sizes_monotone(g: Seq<PageGroup>, a: int, b: int, c: int)
    requires
        0 <= a <= b <= c <= g.len(),
    ensures
        sum_sizes(g.subrange(a, b)) <= sum_sizes(g.subrange(a, c)),
    decreases c - b,
{
    if b < c {
        lemma_sum_sizes_monotone(g, a, b, c - 1);
        lemma_sum_sizes_extend(g, a, c - 1);
    }
}

/// Two runs starting at the same group of the same document end at the same
/// group: a shorter one would have had room for the next group.
proof fn lemma_runs_end_alike(
    docs: Seq<DocumentView>,
    max: int,
    c1: Seq<ChunkView>,
    o1: Seq<(int, int, int)>,
    c2: Seq<ChunkView>,
    o2: Seq<(int, int, int)>,
    k: int,
)
    requires
        plan_valid(docs, max, c1, o1, docs.len() as int, 0),
        plan_valid(docs, max, c2, o2, docs.len() as int, 0),
        0 <= k < o1.len(),
        k < o2.len(),
        o1[k].0 == o2[k].0,
        o1[k].1 == o2[k].1,
    ensures
        o1[k].2 <= o2[k].2,
{
    let (d, a, b1) = o1[k];
    let b2 = o2[k].2;
    assert(chunk_from(docs, c1[k], o1[k]));
    assert(chunk_from(docs, c2[k], o2[k]));
    let g = docs[d].page_groups;
    if b2 < b1 {
        // run 2 stops inside the document, so another of its runs follows
        if k == o2.len() - 1 {
            assert(o2.last() == o2[k]);
        }
        assert(k + 1 < o2.len());
        assert(runs_adjacent(docs, o2[k], o2[k + 1]));
        assert(o2[k + 1].0 == d && o2[k + 1].1 == b2);
        assert(chunk_from(docs, c2[k + 1], o2[k + 1]));
        assert(split_needed(c2[k], o2[k], c2[k + 1], o2[k + 1], max));
        assert(c2[k + 1].page_groups[0] == g[b2]);
        // ... yet run 1 holds that group too, within the limit
        assert(within_limit(c1[k], max));
        lemma_sum_sizes_extend(g, a, b2);
        lemma_sum_sizes_monotone(g, a, b2 + 1, b1);
        assert(chunk_cost(c1[k]) >= chunk_cost(c2[k]) + pg_size(g[b2]));
    }
}

proof fn lemma_first_run_alike(
    docs: Seq<DocumentView>,
    max: int,
    c1: Seq<ChunkView>,
    o1: Seq<(int, int, int)>,
    c2: Seq<ChunkView>,
    o2: Seq<(int, int, int)>,
)
    requires
        plan_valid(docs, max, c1, o1, docs.len() as int, 0),
        plan_valid(docs, max, c2, o2, docs.len() as int, 0),
    ensures
        (o1.len() == 0) == (o2.len() == 0),
        o1.len() > 0 ==> o1[0].0 == o2[0].0 && o1[0].1 == o2[0].1,
{
    if o1.len() > 0 {
        assert(chunk_from(docs, c1[0], o1[0]));
        assert(docs[o1[0].0].page_groups.len() > 0);
    }
    if o2.len() > 0 {
        assert(chunk_from(docs, c2[0], o2[0]));
        assert(docs[o2[0].0].page_groups.len() > 0);
    }
    if o1.len() > 0 && o2.len() > 0 {
        if o1[0].0 < o2[0].0 {
            assert(docs[o1[0].0].page_groups.len() == 0);
        }
        if o2[0].0 < o1[0].0 {
            assert(docs[o2[0].0].page_groups.len() == 0);
        }
    }
}

/// After a shared run, both plans go on alike: both stop, or both start
/// their next run at the same group.
proof fn lemma_next_run_alike(
    docs: Seq<DocumentView>,
    max: int,
    c1: Seq<ChunkView>,
    o1: Seq<(int, int, int)>,
    c2: Seq<ChunkView>,
    o2: Seq<(int, int, int)>,
    k: int,
)
    requires
        plan_valid(docs, max, c1, o1, docs.len() as int, 0),
        plan_valid(docs, max, c2, o2, docs.len() as int, 0),
        0 <= k < o1.len(),
        k < o2.len(),
        o1[k] == o2[k],
    ensures
        (k + 1 < o1.len()) == (k + 1 < o2.len()),
        k + 1 < o1.len() ==> o1[k + 1].0 == o2[k + 1].0 && o1[k + 1].1 == o2[k + 1].1,
{
    let (d, a, b) = o1[k];
    if k + 1 < o1.len() {
        assert(runs_adjacent(docs, o1[k], o1[k + 1]));
        assert(chunk_from(docs, c1[k + 1], o1[k + 1]));
        assert(docs[o1[k + 1].0].page_groups.len() > 0);
    } else {
        assert(o1.last() == o1[k]);
    }
    if k + 1 < o2.len() {
        assert(runs_adjacent(docs, o2[k], o2[k + 1]));
        assert(chunk_from(docs, c2[k + 1], o2[k + 1]));
        assert(docs[o2[k + 1].0].page_groups.len() > 0);
    } else {
        assert(o2.last() == o2[k]);
    }
    assert(chunk_from(docs, c1[k], o1[k]));
    if k + 1 < o1.len() && k + 1 < o2.len() {
        let n1 = o1[k + 1].0;
        let n2 = o2[k + 1].0;
        if n1 < n2 && n1 > d {
            assert(docs[n1].page_groups.len() == 0);
        }
        if n2 < n1 && n2 > d {
            assert(docs[n2].page_groups.len() == 0);
        }
    }
    if k + 1 < o1.len() && k + 1 >= o2.len() {
        let n1 = o1[k + 1].0;
        if n1 > d {
            assert(docs[n1].page_groups.len() == 0);
        }
    }
    if k + 1 < o2.len() && k + 1 >= o1.len() {
        let n2 = o2[k + 1].0;
        if n2 > d {
            assert(docs[n2].page_groups.len() == 0);
        }
    }
}

proof fn lemma_runs_alike(
    docs: Seq<DocumentView>,
    max: int,
    c1: Seq<ChunkView>,
    o1: Seq<(int, int, int)>,
    c2: Seq<ChunkView>,
    o2: Seq<(int, int, int)>,
    k: int,
)
    requires
        plan_valid(docs, max, c1, o1, docs.len() as int, 0),
        plan_valid(docs, max, c2, o2, docs.len() as int, 0),
        0 <= k < o1.len(),
    ensures
        k < o2.len(),
        forall|m: int| 0 <= m <= k ==> o1[m] == o2[m],
    decreases k,
{
    if k == 0 {
        lemma_first_run_alike(docs, max, c1, o1, c2, o2);
    } else {
        lemma_runs_alike(docs, max, c1, o1, c2, o2, k - 1);
        lemma_next_run_alike(docs, max, c1, o1, c2, o2, k - 1);
    }
    lemma_runs_end_alike(docs, max, c1, o1, c2, o2, k);
    lemma_runs_end_alike(docs, max, c2, o2, c1, o1, k);
}

/// The plan is determined by the documents and the limit: two chunk lists
/// that both meet `is_plan` are the same. So `plan`'s contract pins its
/// result down.
pub proof fn lemma_plan_is_unique(docs: Seq<DocumentView>, max: int, c1: Seq<ChunkView>, c2: Seq<ChunkView>)
    requires
        is_plan(docs, max, c1),
        is_plan(docs, max, c2),
    ensures
        c1 == c2,
{
    let o1 = choose|o: Seq<(int, int, int)>| plan_valid(docs, max, c1, o, docs.len() as int, 0);
    let o2 = choose|o: Seq<(int, int, int)>| plan_valid(docs, max, c2, o, docs.len() as int, 0);
    if o1.len() > 0 {
        lemma_runs_alike(docs, max, c1, o1, c2, o2, o1.len() - 1);
        lemma_next_run_alike(docs, max, c1, o1, c2, o2, o1.len() - 1);
    } else {
        lemma_first_run_alike(docs, max, c1, o1, c2, o2);
    }
    assert(o1.len() == o2.len());
    assert forall|k: int| 0 <= k < c1.len() implies c1[k] == c2[k] by {
        assert(chunk_from(docs, c1[k], o1[k]));
        assert(chunk_from(docs, c2[k], o2[k]));
    }
    assert(c1 =~= c2);
}

/// A document while its events are being read: its start, the start of its
/// first page group if one has been seen, its page groups as `(start, end)`
/// (an end of zero until the group's end is seen), and its end (zero until
/// seen).
pub struct DocumentBuild {
    pub start: u64,
    pub prologue_end: Option<u64>,
    pub groups: Seq<(u64, u64)>,
    pub end: u64,
}

/// The finished document. One without page groups is treated as a single
/// virtual page group spanning the whole document, which carries the EDT;
/// one with page groups has its prologue end at its first page group.
pub open spec fn finalize_build(b: DocumentBuild) -> DocumentView {
    if b.groups.len() > 0 {
        DocumentView {
            start: b.start,
            prologue_end: match b.prologue_end {
                Some(p) => p,
                None => b.start,
            },
            page_groups: Seq::new(
                b.groups.len(),
                |k: int| PageGroup { start: b.groups[k].0, end: b.groups[k].1, contains_edt: false },
            ),
            end: b.end,
        }
    } else {
        DocumentView {
            start: b.start,
            prologue_end: b.start,
            page_groups: seq![PageGroup { start: b.start, end: b.end, contains_edt: true }],
            end: b.end,
        }
    }
}

/// Reading one event: a document start finishes the open document and
/// opens a new one; the other events update the open document, and are
/// ignored outside one. A page group end closes the last page group opened.
pub open spec fn assemble_event(
    done: Seq<DocumentView>,
    cur: Option<DocumentBuild>,
    e: AfpEvent,
) -> (Seq<DocumentView>, Option<DocumentBuild>) {
    match e {
        AfpEvent::DocumentStart { offset } => (
            match cur {
                Some(b) => done.push(finalize_build(b)),
                None => done,
            },
            Some(DocumentBuild { start: offset, prologue_end: None, groups: seq![], end: 0 }),
        ),
        AfpEvent::PageGroupStart { offset } => (
            done,
            match cur {
                Some(b) => Some(
                    DocumentBuild {
                        prologue_end: if b.prologue_end is None {
                            Some(offset)
                        } else {
                            b.prologue_end
                        },
                        groups: b.groups.push((offset, 0)),
                        ..b
                    },
                ),
                None => None,
            },
        ),
        AfpEvent::PageGroupEnd { offset, .. } => (
            done,
            match cur {
                Some(b) => Some(
                    if b.groups.len() > 0 {
                        DocumentBuild {
                            groups: b.groups.update(b.groups.len() - 1, (b.groups.last().0, offset)),
                            ..b
                        }
                    } else {
                        b
                    },
                ),
                None => None,
            },
        ),
        AfpEvent::DocumentEnd { offset } => (
            done,
            match cur {
                Some(b) => Some(DocumentBuild { end: offset, ..b }),
                None => None,
            },
        ),
    }
}

/// The documents finished, and the one open, after the first `n` events.
pub open spec fn assemble_prefix(events: Seq<AfpEvent>, n: int) -> (Seq<DocumentView>, Option<DocumentBuild>)
    decreases n,
{
    if n <= 0 {
        (seq![], None)
    } else {
        let (done, cur) = assemble_prefix(events, n - 1);
        assemble_event(done, cur, events[n - 1])
    }
}

/// The documents the events describe.
pub open spec fn assembled(events: Seq<AfpEvent>) -> Seq<DocumentView> {
    let (done, cur) = assemble_prefix(events, events.len() as int);
    match cur {
        Some(b) => done.push(finalize_build(b)),
        None => done,
    }
}

/// The offsets of the document starts among the first `n` events.
pub open spec fn document_starts(events: Seq<AfpEvent>, n: int) -> Seq<u64>
    decreases n,
{
    if n <= 0 {
        seq![]
    } else {
        match events[n - 1] {
            AfpEvent::DocumentStart { offset } => document_starts(events, n - 1).push(offset),
            _ => document_starts(events, n - 1),
        }
    }
}

proof fn lemma_assemble_prefix_starts(events: Seq<AfpEvent>, n: int)
    requires
        0 <= n <= events.len(),
    ensures
        ({
            let (done, cur) = assemble_prefix(events, n);
            &&& (cur is None) == (document_starts(events, n).len() == 0)
            &&& done.len() + (if cur is Some {
                1int
            } else {
                0int
            }) == document_starts(events, n).len()
            &&& forall|k: int| 0 <= k < done.len() ==> (#[trigger] done[k]).start == document_starts(events, n)[k]
            &&& forall|k: int| 0 <= k < done.len() ==> (#[trigger] done[k]).page_groups.len() >= 1
            &&& cur matches Some(b) ==> b.start == document_starts(events, n).last()
        }),
    decreases n,
{
    if n > 0 {
        lemma_assemble_prefix_starts(events, n - 1);
        let (done0, cur0) = assemble_prefix(events, n - 1);
        let (done, cur) = assemble_prefix(events, n);
        let starts0 = document_starts(events, n - 1);
        let starts = document_starts(events, n);
        if let AfpEvent::DocumentStart { offset } = events[n - 1] {
            assert(starts == starts0.push(offset));
            if let Some(b) = cur0 {
                assert(done == done0.push(finalize_build(b)));
                assert forall|k: int| 0 <= k < done.len() implies (#[trigger] done[k]).start == starts[k] by {
                    if k < done0.len() {
                        assert(done[k] == done0[k]);
                    }
                }
                assert forall|k: int| 0 <= k < done.len() implies (#[trigger] done[k]).page_groups.len() >= 1 by {
                    if k < done0.len() {
                        assert(done[k] == done0[k]);
                    } else {
                        assert(done[k] == finalize_build(b));
                    }
                }
            } else {
                assert forall|k: int| 0 <= k < done.len() implies (#[trigger] done[k]).start == starts[k] by {
                    assert(done[k] == done0[k]);
                }
            }
        }
    }
}

/// There is one document per document start, in order, each starting at its
/// start's offset, and every document has at least one page group: the
/// virtual one where it declared none.
pub proof fn lemma_assembled_follows_document_starts(events: Seq<AfpEvent>)
    ensures
        assembled(events).len() == document_starts(events, events.len() as int).len(),
        forall|k: int|
            0 <= k < assembled(events).len() ==> (#[trigger] assembled(events)[k]).start
                == document_starts(events, events.len() as int)[k],
        forall|k: int|
            0 <= k < assembled(events).len() ==> (#[trigger] assembled(events)[k]).page_groups.len() >= 1,
{
    let n = events.len() as int;
    lemma_assemble_prefix_starts(events, n);
    let (done, cur) = assemble_prefix(events, n);
    let docs = assembled(events);
    let starts = document_starts(events, n);
    if let Some(b) = cur {
        assert(docs == done.push(finalize_build(b)));
        assert forall|k: int| 0 <= k < docs.len() implies (#[trigger] docs[k]).start == starts[k] by {
            if k < done.len() {
                assert(docs[k] == done[k]);
            }
        }
        assert forall|k: int| 0 <= k < docs.len() implies (#[trigger] docs[k]).page_groups.len() >= 1 by {
            if k < done.len() {
                assert(docs[k] == done[k]);
            }
        }
    }
}

proof fn lemma_done_extends(events: Seq<AfpEvent>, n1: int, n2: int)
    requires
        0 <= n1 <= n2,
    ensures
        assemble_prefix(events, n1).0.len() <= assemble_prefix(events, n2).0.len(),
        forall|k: int|
            0 <= k < assemble_prefix(events, n1).0.len() ==> #[trigger] assemble_prefix(events, n2).0[k]
                == assemble_prefix(events, n1).0[k],
    decreases n2,
{
    if n2 > n1 {
        lemma_done_extends(events, n1, n2 - 1);
        let (done, cur) = assemble_prefix(events, n2 - 1);
        let next = assemble_prefix(events, n2).0;
        if next.len() != done.len() {
            assert forall|k: int| 0 <= k < done.len() implies #[trigger] next[k] == done[k] by {
                assert(next == done.push(finalize_build(cur->0)));
            }
        }
    }
}

proof fn lemma_assembled_extends(events: Seq<AfpEvent>, n: int)
    requires
        0 <= n <= events.len(),
    ensures
        assemble_prefix(events, n).0.len() <= assembled(events).len(),
        forall|k: int|
            0 <= k < assemble_prefix(events, n).0.len() ==> #[trigger] assembled(events)[k]
                == assemble_prefix(events, n).0[k],
{
    let len = events.len() as int;
    lemma_done_extends(events, n, len);
    let (done, cur) = assemble_prefix(events, len);
    if let Some(b) = cur {
        assert forall|k: int| 0 <= k < done.len() implies #[trigger] assembled(events)[k] == done[k] by {
            assert(assembled(events) == done.push(finalize_build(b)));
        }
    }
}

/// No document starts strictly between event `i` and event `n`.
pub open spec fn no_document_start_between(events: Seq<AfpEvent>, i: int, n: int) -> bool {
    forall|x: int| i < x < n ==> !(#[trigger] events[x] is DocumentStart)
}

/// No page group starts strictly between event `i` and event `n`.
pub open spec fn no_page_group_start_between(events: Seq<AfpEvent>, i: int, n: int) -> bool {
    forall|x: int| i < x < n ==> !(#[trigger] events[x] is PageGroupStart)
}

/// While the document started by event `i` is open, after event `n - 1`:
/// it is the open one, it comes after every earlier document, and its
/// prologue ends at its own first page group start, if it has had one.
proof fn lemma_open_document(events: Seq<AfpEvent>, i: int, n: int)
    requires
        0 <= i < n <= events.len(),
        events[i] is DocumentStart,
        no_document_start_between(events, i, n),
    ensures
        assemble_prefix(events, n).1 is Some,
        assemble_prefix(events, n).1->0.start == events[i]->DocumentStart_offset,
        assemble_prefix(events, n).0.len() == document_starts(events, i).len(),
        (assemble_prefix(events, n).1->0.groups.len() == 0) == no_page_group_start_between(events, i, n),
        (assemble_prefix(events, n).1->0.prologue_end is None) == no_page_group_start_between(
            events,
            i,
            n,
        ),
        forall|j: int|
            i < j < n && #[trigger] events[j] is PageGroupStart && no_page_group_start_between(
                events,
                i,
                j,
            ) ==> assemble_prefix(events, n).1->0.prologue_end == Some(events[j]->PageGroupStart_offset),
        assemble_prefix(events, n).1->0.groups.len() > 0 ==> assemble_prefix(events, n).1->0.prologue_end
            == Some(assemble_prefix(events, n).1->0.groups[0].0),
    decreases n,
{
    if n == i + 1 {
        lemma_assemble_prefix_starts(events, i);
    } else {
        assert(no_document_start_between(events, i, n - 1));
        lemma_open_document(events, i, n - 1);
        let b = assemble_prefix(events, n - 1).1->0;
        let e = events[n - 1];
        assert(!(e is DocumentStart));
        let c = assemble_prefix(events, n).1->0;
        if e is PageGroupStart {
            assert(!no_page_group_start_between(events, i, n));
            assert forall|j: int|
                i < j < n && #[trigger] events[j] is PageGroupStart && no_page_group_start_between(
                    events,
                    i,
                    j,
                ) implies c.prologue_end == Some(events[j]->PageGroupStart_offset) by {
                if j < n - 1 {
                    assert(!no_page_group_start_between(events, i, n - 1));
                }
            }
        } else {
            assert(no_page_group_start_between(events, i, n) == no_page_group_start_between(events, i, n - 1));
        }
    }
}

/// The document started by event `i` is finished at the next document start
/// after it, or at the end of the events, as what it was when that came.
proof fn lemma_document_finished(events: Seq<AfpEvent>, i: int, n: int) -> (m: int)
    requires
        0 <= i < n <= events.len(),
        events[i] is DocumentStart,
        no_document_start_between(events, i, n),
    ensures
        n <= m <= events.len(),
        no_document_start_between(events, i, m),
        m == events.len() || events[m] is DocumentStart,
        document_starts(events, i).len() < assembled(events).len(),
        assembled(events)[document_starts(events, i).len() as int] == finalize_build(
            assemble_prefix(events, m).1->0,
        ),
    decreases events.len() - n,
{
    lemma_open_document(events, i, n);
    let (done, cur) = assemble_prefix(events, n);
    let k = document_starts(events, i).len() as int;
    if n == events.len() {
        assert(assembled(events) == done.push(finalize_build(cur->0)));
        n
    } else if events[n] is DocumentStart {
        let next = assemble_prefix(events, n + 1).0;
        assert(next == done.push(finalize_build(cur->0)));
        lemma_assembled_extends(events, n + 1);
        assert(assembled(events)[k] == next[k]);
        n
    } else {
        assert(no_document_start_between(events, i, n + 1));
        lemma_document_finished(events, i, n + 1)
    }
}

/// A document's prologue ends where its own first page group starts: for a
/// document start followed, before any other document or page group start,
/// by a page group start, the document it opens (the one whose index is the
/// number of document starts before it) starts at the document start's
/// offset, and its prologue ends, and its first page group starts, at the
/// page group start's offset.
pub proof fn lemma_prologue_ends_at_first_page_group(events: Seq<AfpEvent>, i: int, j: int)
    requires
        0 <= i < j < events.len(),
        events[i] is DocumentStart,
        events[j] is PageGroupStart,
        forall|x: int| i < x < j ==> !(#[trigger] events[x] is DocumentStart),
        forall|x: int| i < x < j ==> !(#[trigger] events[x] is PageGroupStart),
    ensures
        document_starts(events, i).len() < assembled(events).len(),
        assembled(events)[document_starts(events, i).len() as int].start
            == events[i]->DocumentStart_offset,
        assembled(events)[document_starts(events, i).len() as int].prologue_end
            == events[j]->PageGroupStart_offset,
        assembled(events)[document_starts(events, i).len() as int].page_groups[0].start
            == events[j]->PageGroupStart_offset,
{
    assert(no_document_start_between(events, i, i + 1));
    let m = lemma_document_finished(events, i, i + 1);
    assert(j < m) by {
        if m <= j {
            if m < events.len() {
                assert(events[m] is DocumentStart);
            }
        }
    }
    assert(no_page_group_start_between(events, i, j));
    lemma_open_document(events, i, m);
    assert(!no_page_group_start_between(events, i, m));
}

/// A document with no page group start of its own (none before the next
/// document start, or the end) has an empty prologue and one virtual page
/// group spanning the whole document, which carries its EDT.
pub proof fn lemma_document_without_page_groups(events: Seq<AfpEvent>, i: int, m: int)
    requires
        0 <= i < m <= events.len(),
        events[i] is DocumentStart,
        m == events.len() || events[m] is DocumentStart,
        forall|x: int| i < x < m ==> !(#[trigger] events[x] is DocumentStart),
        forall|x: int| i < x < m ==> !(#[trigger] events[x] is PageGroupStart),
    ensures
        document_starts(events, i).len() < assembled(events).len(),
        ({
            let d = assembled(events)[document_starts(events, i).len() as int];
            &&& d.start == events[i]->DocumentStart_offset
            &&& d.prologue_end == d.start
            &&& d.page_groups == seq![PageGroup { start: d.start, end: d.end, contains_edt: true }]
        }),
{
    assert(no_document_start_between(events, i, i + 1));
    let m2 = lemma_document_finished(events, i, i + 1);
    assert(m2 == m) by {
        if m2 < m {
            assert(events[m2] is DocumentStart);
        } else if m < m2 {
            assert(events[m] is DocumentStart);
        }
    }
    assert(no_page_group_start_between(events, i, m));
    lemma_open_document(events, i, m);
}

/// Reads the document and page group events in order and assembles the
/// documents they describe.
pub fn assemble_documents(events: &[AfpEvent]) -> (documents: Vec<Document>)
    ensures
        documents_view(documents@) == assembled(events@),
{
    let mut documents: Vec<Document> = Vec::new();
    let mut current: Option<DocumentInProgress> = None;
    let mut i: usize = 0;
    while i < events.len()
        invariant
            0 <= i <= events.len(),
            (documents_view(documents@), build_view(current)) == assemble_prefix(events@, i as int),
        decreases events.len() - i,
    {
        let ghost before = documents_view(documents@);
        let ghost cur0 = build_view(current);
        match events[i] {
            AfpEvent::DocumentStart { offset } => {
                match current {
                    Some(doc) => {
                        let d = doc.finalize();
                        documents.push(d);
                        proof {
                            assert(documents_view(documents@) == before.push(d@));
                        }
                    },
                    None => {},
                }
                let fresh = DocumentInProgress { start: offset, prologue_end: None, page_groups: Vec::new(), end: 0 };
                proof {
                    assert(build_of(fresh).groups =~= Seq::<(u64, u64)>::empty());
                }
                current = Some(fresh);
            },
            AfpEvent::PageGroupStart { offset } => {
                current = match current {
                    Some(mut doc) => {
                        if doc.prologue_end.is_none() {
                            doc.prologue_end = Some(offset);
                        }
                        let ghost g0 = build_of(doc).groups;
                        doc.page_groups.push(PageGroupInProgress { start: offset, end: 0 });
                        proof {
                            assert(build_of(doc).groups =~= g0.push((offset, 0u64)));
                        }
                        Some(doc)
                    },
                    None => None,
                };
            },
            AfpEvent::PageGroupEnd { offset, .. } => {
                current = match current {
                    Some(mut doc) => {
                        let n = doc.page_groups.len();
                        if n > 0 {
                            let ghost g0 = build_of(doc).groups;
                            let last = PageGroupInProgress { start: doc.page_groups[n - 1].start, end: offset };
                            doc.page_groups.set(n - 1, last);
                            proof {
                                assert(build_of(doc).groups =~= g0.update(g0.len() - 1, (g0.last().0, offset)));
                            }
                        }
                        Some(doc)
                    },
                    None => None,
                };
            },
            AfpEvent::DocumentEnd { offset } => {
                current = match current {
                    Some(mut doc) => {
                        doc.end = offset;
                        Some(doc)
                    },
                    None => None,
                };
            },
        }
        proof {
            assert(build_view(current) == assemble_event(before, cur0, events@[i as int]).1);
        }
        i += 1;
    }
    match current {
        Some(doc) => {
            let ghost before = documents_view(documents@);
            let d = doc.finalize();
            documents.push(d);
            proof {
                assert(documents_view(documents@) == before.push(d@));
            }
        },
        None => {},
    }
    documents
}

#[derive(Clone, Copy)]
struct PageGroupInProgress {
    start: u64,
    end: u64,
}

struct DocumentInProgress {
    start: u64,
    prologue_end: Option<u64>,
    page_groups: Vec<PageGroupInProgress>,
    end: u64,
}

spec fn build_of(d: DocumentInProgress) -> DocumentBuild {
    DocumentBuild {
        start: d.start,
        prologue_end: d.prologue_end,
        groups: Seq::new(d.page_groups@.len(), |k: int| (d.page_groups@[k].start, d.page_groups@[k].end)),
        end: d.end,
    }
}

spec fn build_view(d: Option<DocumentInProgress>) -> Option<DocumentBuild> {
    match d {
        Some(d) => Some(build_of(d)),
        None => None,
    }
}

impl DocumentInProgress {
    fn finalize(self) -> (d: Document)
        ensures
            d@ == finalize_build(build_of(self)),
    {
        let has_explicit_groups = self.page_groups.len() > 0;
        let prologue_end = if has_explicit_groups {
            match self.prologue_end {
                Some(p) => p,
                None => self.start,
            }
        } else {
            self.start
        };
        let mut page_groups: Vec<PageGroup> = Vec::new();
        let mut k: usize = 0;
        while k < self.page_groups.len()
            invariant
                0 <= k <= self.page_groups@.len(),
                page_groups@.len() == k,
                forall|m: int|
                    0 <= m < k ==> #[trigger] page_groups@[m] == (PageGroup {
                        start: self.page_groups@[m].start,
                        end: self.page_groups@[m].end,
                        contains_edt: false,
                    }),
            decreases self.page_groups@.len() - k,
        {
            let p = self.page_groups[k];
            page_groups.push(PageGroup { start: p.start, end: p.end, contains_edt: false });
            k += 1;
        }
        if page_groups.len() == 0 {
            page_groups.push(PageGroup { start: self.start, end: self.end, contains_edt: true });
            proof {
                assert(page_groups@ =~= seq![PageGroup { start: self.start, end: self.end, contains_edt: true }]);
            }
        } else {
            proof {
                let b = build_of(self);
                assert(page_groups@ =~= Seq::new(
                    b.groups.len(),
                    |k: int| PageGroup { start: b.groups[k].0, end: b.groups[k].1, contains_edt: false },
                ));
            }
        }
        Document { start: self.start, prologue_end, page_groups, end: self.end }
    }
}

pub struct ChunkPlanner;

impl ChunkPlanner {
    /// Cuts the documents into output chunks of about `max_bytes` each, at
    /// page group boundaries: page groups are taken in order, a new chunk
    /// starts at every document, and within a document a new chunk starts
    /// when the next page group would take the current one past `max_bytes`.
    pub fn plan(documents: &[Document], max_bytes: u64) -> (chunks: Vec<OutputChunk>)
        ensures
            is_plan(documents_view(documents@), max_bytes as int, chunks_view(chunks@)),
    {
        let ghost docs = documents_view(documents@);
        let ghost max = max_bytes as int;
        let edt_overhead: u64 = 3;
        let mut chunks: Vec<OutputChunk> = Vec::new();
        let mut current_pgs: Vec<PageGroup> = Vec::new();
        let mut current_size: u128 = 0;
        let mut current_doc_start: u64 = 0;
        let mut current_doc_prologue_end: u64 = 0;
        let mut current_needs_edt: bool = false;
        let ghost mut origins: Seq<(int, int, int)> = seq![];
        let ghost mut cur_doc: int = 0;
        let ghost mut cur_from: int = 0;

        let mut i: usize = 0;
        while i < documents.len()
            invariant
                0 <= i <= documents.len(),
                docs == documents_view(documents@),
                max == max_bytes as int,
                edt_overhead == 3,
                plan_valid(
                    docs,
                    max,
                    chunks_view(chunks@) + (if current_pgs@.len() > 0 {
                        seq![chunk_of(current_pgs@, current_doc_start, current_doc_prologue_end, current_needs_edt)]
                    } else {
                        seq![]
                    }),
                    origins,
                    i as int,
                    0,
                ),
            decreases documents.len() - i,
        {
            let ghost all0 = chunks_view(chunks@) + (if current_pgs@.len() > 0 {
                seq![chunk_of(current_pgs@, current_doc_start, current_doc_prologue_end, current_needs_edt)]
            } else {
                seq![]
            });
            if current_pgs.len() > 0 {
                let ghost before = chunks_view(chunks@);
                let c = Self::make_chunk(&mut current_pgs, current_doc_start, current_doc_prologue_end, current_needs_edt);
                chunks.push(c);
                current_size = 0;
                proof {
                    assert(chunks_view(chunks@) == before.push(c@));
                }
            }
            assert(chunks_view(chunks@) + seq![] == all0);
            let doc = &documents[i];
            let ghost dv = docs[i as int];
            assert(dv == doc@);
            let n = doc.page_groups.len();
            let mut j: usize = 0;
            while j < n
                invariant
                    0 <= i < documents.len(),
                    0 <= j <= n,
                    n == doc.page_groups@.len(),
                    docs == documents_view(documents@),
                    dv == docs[i as int],
                    dv == doc@,
                    max == max_bytes as int,
                    edt_overhead == 3,
                    plan_valid(
                        docs,
                        max,
                        chunks_view(chunks@) + (if current_pgs@.len() > 0 {
                            seq![chunk_of(current_pgs@, current_doc_start, current_doc_prologue_end, current_needs_edt)]
                        } else {
                            seq![]
                        }),
                        origins,
                        i as int,
                        j as int,
                    ),
                    j > 0 ==> current_pgs@.len() > 0,
                    current_pgs@.len() > 0 ==> {
                        &&& origins.len() > 0
                        &&& origins.last() == (i as int, cur_from, j as int)
                        &&& current_size as int == chunk_cost(
                            chunk_of(current_pgs@, current_doc_start, current_doc_prologue_end, current_needs_edt),
                        )
                        &&& current_pgs@.len() <= j
                    },
                decreases n - j,
            {
                let ghost cs0 = chunks_view(chunks@);
                let ghost all0 = cs0 + (if current_pgs@.len() > 0 {
                    seq![chunk_of(current_pgs@, current_doc_start, current_doc_prologue_end, current_needs_edt)]
                } else {
                    seq![]
                });
                proof {
                    if origins.len() > 0 {
                        assert(chunk_from(docs, all0[origins.len() - 1], origins[origins.len() - 1]));
                    }
                }
                let pg = doc.page_groups[j];
                assert(pg == dv.page_groups[j as int]);
                let edt_cost: u64 = if pg.contains_edt { 0 } else { edt_overhead };
                proof {
                    if current_pgs@.len() > 0 {
                        let pend = chunk_of(current_pgs@, current_doc_start, current_doc_prologue_end, current_needs_edt);
                        let all = cs0 + seq![pend];
                        assert(all[all.len() - 1] == pend);
                        assert(chunk_from(docs, all[all.len() - 1], origins[origins.len() - 1]));
                        lemma_sum_sizes_bound(current_pgs@);
                        lemma_cost_fits(current_pgs@.len() as int, sum_sizes(current_pgs@));
                    }
                }
                let cost: u128 = pg.size() as u128 + if current_pgs.len() == 0 {
                    doc.prologue_size() as u128 + edt_cost as u128
                } else {
                    0
                };
                let ghost was_open = current_pgs@.len() > 0;
                let ghost pend0 = chunk_of(current_pgs@, current_doc_start, current_doc_prologue_end, current_needs_edt);
                if current_pgs.len() > 0 && current_size + cost > max_bytes as u128 {
                    let c = Self::make_chunk(
                        &mut current_pgs,
                        current_doc_start,
                        current_doc_prologue_end,
                        current_needs_edt,
                    );
                    chunks.push(c);
                    current_size = 0;
                    proof {
                        assert(chunks_view(chunks@) == cs0.push(c@));
                        assert(chunks_view(chunks@) == cs0 + seq![pend0]);
                    }
                }
                if current_pgs.len() == 0 {
                    proof {
                        assert(chunks_view(chunks@) + seq![] == chunks_view(chunks@));
                        if origins.len() > 0 && origins.last().0 == i {
                            assert(was_open);
                            assert(chunks_view(chunks@).last() == pend0);
                        }
                        lemma_plan_start_chunk(docs, max, chunks_view(chunks@), origins, i as int, j as int);
                        origins = origins.push((i as int, j as int, j + 1));
                        cur_from = j as int;
                        assert(seq![pg].drop_last() == Seq::<PageGroup>::empty());
                    }
                    current_doc_start = doc.start;
                    current_doc_prologue_end = doc.prologue_end;
                    current_needs_edt = !pg.contains_edt;
                    current_size = doc.prologue_size() as u128 + edt_cost as u128 + pg.size() as u128;
                    current_pgs.push(pg);
                    proof {
                        assert(current_pgs@ == seq![pg]);
                        lemma_sum_sizes_push(Seq::<PageGroup>::empty(), pg);
                        assert(Seq::<PageGroup>::empty().push(pg) == seq![pg]);
                        assert(current_size as int == chunk_cost(
                            chunk_of(current_pgs@, current_doc_start, current_doc_prologue_end, current_needs_edt),
                        ));
                        assert(chunks_view(chunks@) + seq![
                            chunk_of(current_pgs@, current_doc_start, current_doc_prologue_end, current_needs_edt),
                        ] == chunks_view(chunks@).push(
                            chunk_of(current_pgs@, current_doc_start, current_doc_prologue_end, current_needs_edt),
                        ));
                    }
                } else {
                    proof {
                        assert(cs0 + seq![pend0] == cs0.push(pend0));
                        lemma_plan_extend_chunk(
                            docs,
                            max,
                            cs0,
                            origins,
                            i as int,
                            j as int,
                            cur_from,
                            current_pgs@,
                            current_doc_start,
                            current_doc_prologue_end,
                            current_needs_edt,
                        );
                        lemma_sum_sizes_push(current_pgs@, pg);
                        origins = origins.update(origins.len() - 1, (i as int, cur_from, j + 1));
                    }
                    current_size = current_size + pg.size() as u128;
                    current_pgs.push(pg);
                    proof {
                        let pend = chunk_of(current_pgs@, current_doc_start, current_doc_prologue_end, current_needs_edt);
                        assert(cs0 + seq![pend] == cs0.push(pend));
                    }
                }
                j += 1;
            }
            proof {
                if origins.len() > 0 {
                    assert(no_groups_between(docs, origins.last().0 + 1, i + 1));
                } else {
                    assert(no_groups_between(docs, 0, i + 1));
                }
            }
            i += 1;
        }
        if current_pgs.len() > 0 {
            let ghost before = chunks_view(chunks@);
            let ghost pend = chunk_of(current_pgs@, current_doc_start, current_doc_prologue_end, current_needs_edt);
            let c = Self::make_chunk(&mut current_pgs, current_doc_start, current_doc_prologue_end, current_needs_edt);
            chunks.push(c);
            proof {
                assert(chunks_view(chunks@) == before.push(c@));
                assert(before + seq![pend] == before.push(pend));
            }
        }
        proof {
            assert(chunks_view(chunks@) + seq![] == chunks_view(chunks@));
            assert(plan_valid(docs, max, chunks_view(chunks@), origins, docs.len() as int, 0));
        }
        chunks
    }

    fn make_chunk(pgs: &mut Vec<PageGroup>, doc_start: u64, prologue_end: u64, needs_edt: bool) -> (c: OutputChunk)
        ensures
            c@ == chunk_of(old(pgs)@, doc_start, prologue_end, needs_edt),
            final(pgs)@.len() == 0,
    {
        let first = if pgs.len() > 0 {
            pgs[0].start
        } else {
            0
        };
        let last = if pgs.len() > 0 {
            pgs[pgs.len() - 1].end
        } else {
            0
        };
        let mut taken: Vec<PageGroup> = Vec::new();
        std::mem::swap(&mut taken, pgs);
        OutputChunk { prologue: (doc_start, prologue_end), pg_range: (first, last), page_groups: taken, needs_edt }
    }
}

} // verus!
