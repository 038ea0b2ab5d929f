use vstd::prelude::*;

use crate::features::Features;
use crate::patterns::{DOC_END, DOC_START, NOP_SF, PAGE_END, PAGE_START, PG_END, PG_START, TLE_SF};

verus! {

/// A structured field that opens or closes a level of the document hierarchy.
#[derive(Debug, Clone, Copy, PartialEq, Eq, Structural)]
pub enum AfpBoundary {
    BeginDocument,
    EndDocument,
    BeginPageGroup,
    EndPageGroup,
    BeginPage,
    EndPage,
}

/// What a pattern match in the file was.
#[derive(Debug, Clone, Copy, PartialEq, Eq, Structural)]
pub enum HitKind {
    Boundary(AfpBoundary),
    Nop,
    Tle,
}

/// A pattern match: what matched and the offset of its first byte.
#[derive(Debug, Clone, Copy, PartialEq, Eq, Structural)]
pub struct Hit {
    pub kind: HitKind,
    pub offset: u64,
}


/// The byte pattern that marks each kind of hit.
pub open spec fn kind_pattern(k: HitKind) -> Seq<u8> {
    match k {
        HitKind::Boundary(AfpBoundary::BeginDocument) => DOC_START@,
        HitKind::Boundary(AfpBoundary::EndDocument) => DOC_END@,
        HitKind::Boundary(AfpBoundary::BeginPageGroup) => PG_START@,
        HitKind::Boundary(AfpBoundary::EndPageGroup) => PG_END@,
        HitKind::Boundary(AfpBoundary::BeginPage) => PAGE_START@,
        HitKind::Boundary(AfpBoundary::EndPage) => PAGE_END@,
        HitKind::Nop => NOP_SF@,
        HitKind::Tle => TLE_SF@,
    }
}

/// The kinds searched for: the six hierarchy boundaries always, then NOP and
/// TLE only when a dump of them was asked for, so finding them costs nothing
/// extra and nothing otherwise.
pub open spec fn searched_kinds(f: Features) -> Seq<HitKind> {
    let base = seq![
        HitKind::Boundary(AfpBoundary::BeginDocument),
        HitKind::Boundary(AfpBoundary::EndDocument),
        HitKind::Boundary(AfpBoundary::BeginPageGroup),
        HitKind::Boundary(AfpBoundary::EndPageGroup),
        HitKind::Boundary(AfpBoundary::BeginPage),
        HitKind::Boundary(AfpBoundary::EndPage),
    ];
    let with_nop = if f.dump_nop {
        base.push(HitKind::Nop)
    } else {
        base
    };
    if f.dump_tle {
        with_nop.push(HitKind::Tle)
    } else {
        with_nop
    }
}

/// The patterns searched for kinds `kinds`, in the same order.
pub open spec fn kind_patterns(kinds: Seq<HitKind>) -> Seq<Seq<u8>> {
    Seq::new(kinds.len(), |k: int| kind_pattern(kinds[k]))
}

pub open spec fn patterns_view(ps: Seq<Vec<u8>>) -> Seq<Seq<u8>> {
    Seq::new(ps.len(), |k: int| ps[k]@)
}

/// `p` occurs in `h` at offset `s`.
pub open spec fn occurs_at(p: Seq<u8>, h: Seq<u8>, s: int) -> bool {
    0 <= s && s + p.len() <= h.len() && h.subrange(s, s + p.len()) == p
}

/// The offset just past match `m` (pattern index, start offset).
pub open spec fn match_end(ps: Seq<Seq<u8>>, m: (usize, usize)) -> int {
    m.1 + ps[m.0 as int].len()
}

/// Where the search for the `k`-th match of `ms` starts: at the beginning, or
/// just past the match before it.
pub open spec fn resume_at(ps: Seq<Seq<u8>>, ms: Seq<(usize, usize)>, k: int) -> int {
    if k == 0 {
        0
    } else {
        match_end(ps, ms[k - 1])
    }
}

/// Each match of `ms` is reported as soon as it is seen: searching on from
/// where the match before it ended, no occurrence of any pattern ends before
/// it does; and past the last match no pattern occurs at all.
pub open spec fn reported_as_seen(ps: Seq<Seq<u8>>, h: Seq<u8>, ms: Seq<(usize, usize)>) -> bool {
    &&& forall|k: int, q: int, s: int|
        #![trigger ms[k], occurs_at(ps[q], h, s)]
        0 <= k < ms.len() && 0 <= q < ps.len() && resume_at(ps, ms, k) <= s && occurs_at(
            ps[q],
            h,
            s,
        ) ==> match_end(ps, ms[k]) <= s + ps[q].len()
    &&& forall|q: int, s: int|
        #![trigger occurs_at(ps[q], h, s)]
        0 <= q < ps.len() && resume_at(ps, ms, ms.len() as int) <= s ==> !occurs_at(ps[q], h, s)
}

/// The matches a standard-semantics Aho-Corasick search for `patterns`
/// reports in `haystack`, as `(pattern index, start offset)`.
pub uninterp spec fn standard_matches(patterns: Seq<Seq<u8>>, haystack: Seq<u8>) -> Seq<(usize, usize)>;

/// Searches `haystack` for `patterns` with an automaton of the `aho-corasick`
/// crate, built by `AhoCorasick::new` (standard match semantics), and returns
/// what `AhoCorasick::find_iter` reports, in order. The contract claims of
/// it: the result is a function of the patterns and the haystack; each match
/// names a pattern and is an occurrence of it in the haystack; and matches
/// are reported left to right without overlapping, as the crate documents
/// for `find_iter`; and, as it documents for standard semantics, each match
/// is reported as soon as it is seen, so the next one is the occurrence that
/// ends first after the previous match, and the search stops only when no
/// pattern occurs further on. Which of several patterns ending at the same
/// offset is reported is not stated. Building the automaton only fails past
/// limits far beyond a few short patterns, which `requires` keeps to; empty
/// patterns, which would match everywhere, are left out.
#[verifier::external_body]
fn find_standard_matches(patterns: &Vec<Vec<u8>>, haystack: &[u8]) -> (r: Vec<(usize, usize)>)
    requires
        patterns@.len() <= 16,
        forall|k: int| 0 <= k < patterns@.len() ==> (#[trigger] patterns@[k])@.len() <= 16,
        forall|k: int| 0 <= k < patterns@.len() ==> (#[trigger] patterns@[k])@.len() >= 1,
    ensures
        r@ == standard_matches(patterns_view(patterns@), haystack@),
        forall|k: int|
            #![trigger r@[k]]
            0 <= k < r@.len() ==> {
                &&& r@[k].0 < patterns@.len()
                &&& r@[k].1 + patterns@[r@[k].0 as int]@.len() <= haystack@.len()
                &&& haystack@.subrange(r@[k].1 as int, r@[k].1 + patterns@[r@[k].0 as int]@.len())
                    == patterns@[r@[k].0 as int]@
            },
        forall|k1: int, k2: int|
            #![trigger r@[k1], r@[k2]]
            0 <= k1 && k2 == k1 + 1 && k2 < r@.len() ==> r@[k1].1 + patterns@[r@[k1].0 as int]@.len()
                <= r@[k2].1,
        reported_as_seen(patterns_view(patterns@), haystack@, r@),
{
    let ac = aho_corasick::AhoCorasick::new(patterns).expect("a few short patterns always build");
    ac.find_iter(haystack).map(|m| (m.pattern().as_usize(), m.start())).collect()
}

/// The hits of the matches `ms` (pattern index, start offset), each pattern
/// index read through `kinds`; a match of an unknown index is skipped.
pub open spec fn hits_of(kinds: Seq<HitKind>, ms: Seq<(usize, u64)>) -> Seq<Hit>
    decreases ms.len(),
{
    if ms.len() == 0 {
        seq![]
    } else {
        let rest = hits_of(kinds, ms.drop_last());
        let (p, o) = ms.last();
        if p < kinds.len() {
            rest.push(Hit { kind: kinds[p as int], offset: o })
        } else {
            rest
        }
    }
}

proof fn lemma_hits_of_all_known(kinds: Seq<HitKind>, ms: Seq<(usize, u64)>)
    requires
        forall|k: int| 0 <= k < ms.len() ==> (#[trigger] ms[k]).0 < kinds.len(),
    ensures
        hits_of(kinds, ms).len() == ms.len(),
        forall|k: int|
            0 <= k < ms.len() ==> #[trigger] hits_of(kinds, ms)[k] == (Hit {
                kind: kinds[ms[k].0 as int],
                offset: ms[k].1,
            }),
    decreases ms.len(),
{
    if ms.len() > 0 {
        let init = ms.drop_last();
        assert forall|k: int| 0 <= k < init.len() implies (#[trigger] init[k]).0 < kinds.len() by {
            assert(init[k] == ms[k]);
        }
        lemma_hits_of_all_known(kinds, init);
        assert forall|k: int|
            0 <= k < ms.len() implies #[trigger] hits_of(kinds, ms)[k] == (Hit {
            kind: kinds[ms[k].0 as int],
            offset: ms[k].1,
        }) by {
            if k < init.len() {
                assert(init[k] == ms[k]);
            }
        }
    }
}

/// Markers never overlap one another: each begins with 0xD3, which none has
/// in its other two bytes, and no two kinds share a pattern. So two marker
/// occurrences less than three bytes apart are one and the same.
pub proof fn lemma_markers_never_overlap(k1: HitKind, k2: HitKind, h: Seq<u8>, o1: int, o2: int)
    requires
        occurs_at(kind_pattern(k1), h, o1),
        occurs_at(kind_pattern(k2), h, o2),
        o1 <= o2 < o1 + 3,
    ensures
        o1 == o2,
        k1 == k2,
{
    let p1 = kind_pattern(k1);
    let p2 = kind_pattern(k2);
    assert(p1.len() == 3 && p2.len() == 3);
    assert(h[o1] == p1[0] && h[o1 + 1] == p1[1] && h[o1 + 2] == p1[2]) by {
        assert(h.subrange(o1, o1 + 3)[0] == h[o1]);
        assert(h.subrange(o1, o1 + 3)[1] == h[o1 + 1]);
        assert(h.subrange(o1, o1 + 3)[2] == h[o1 + 2]);
    }
    assert(h[o2] == p2[0] && h[o2 + 1] == p2[1] && h[o2 + 2] == p2[2]) by {
        assert(h.subrange(o2, o2 + 3)[0] == h[o2]);
        assert(h.subrange(o2, o2 + 3)[1] == h[o2 + 1]);
        assert(h.subrange(o2, o2 + 3)[2] == h[o2 + 2]);
    }
}

/// When every pattern is three bytes long and matches are reported as soon
/// as they are seen, each occurrence at or after where the search for the
/// `k`-th match starts lies inside a match from the `k`-th on: it is one, or
/// it overlaps one that starts before it.
proof fn lemma_occurrence_is_covered(
    ps: Seq<Seq<u8>>,
    h: Seq<u8>,
    ms: Seq<(usize, usize)>,
    q: int,
    s: int,
    k: int,
)
    requires
        reported_as_seen(ps, h, ms),
        forall|i: int| 0 <= i < ps.len() ==> (#[trigger] ps[i]).len() == 3,
        forall|j: int| 0 <= j < ms.len() ==> (#[trigger] ms[j]).0 < ps.len(),
        0 <= q < ps.len(),
        occurs_at(ps[q], h, s),
        0 <= k <= ms.len(),
        resume_at(ps, ms, k) <= s,
    ensures
        exists|j: int| k <= j < ms.len() && (#[trigger] ms[j]).1 <= s < ms[j].1 + 3,
    decreases ms.len() - k,
{
    if k == ms.len() {
        assert(!occurs_at(ps[q], h, s));
    } else {
        let m = ms[k];
        assert(ps[m.0 as int].len() == 3);
        assert(match_end(ps, m) <= s + ps[q].len());
        if match_end(ps, m) <= s {
            lemma_occurrence_is_covered(ps, h, ms, q, s, k + 1);
            let j = choose|j: int| k + 1 <= j < ms.len() && (#[trigger] ms[j]).1 <= s < ms[j].1 + 3;
            assert(k <= j < ms.len() && ms[j].1 <= s < ms[j].1 + 3);
        } else {
            assert(k <= k < ms.len() && ms[k].1 <= s < ms[k].1 + 3);
        }
    }
}

fn pattern_vec(p: [u8; 3]) -> (v: Vec<u8>)
    ensures
        v@ == p@,
{
    let mut v: Vec<u8> = Vec::new();
    v.push(p[0]);
    v.push(p[1]);
    v.push(p[2]);
    proof {
        assert(v@ =~= p@);
    }
    v
}

/// Finds the structured field markers of a file: the hierarchy boundaries
/// always, NOP and TLE when they are to be dumped.
pub struct BoundaryDetector {
    // parallel lists, so a pattern's index maps to the right kind whichever
    // optional patterns were included
    patterns: Vec<Vec<u8>>,
    kinds: Vec<HitKind>,
}

impl View for BoundaryDetector {
    type V = Seq<HitKind>;

    closed spec fn view(&self) -> Seq<HitKind> {
        self.kinds@
    }
}

impl BoundaryDetector {
    #[verifier::type_invariant]
    spec fn patterns_match_kinds(&self) -> bool {
        &&& self.patterns@.len() == self.kinds@.len()
        &&& self.kinds@.len() <= 8
        &&& forall|k: int|
            0 <= k < self.patterns@.len() ==> (#[trigger] self.patterns@[k])@ == kind_pattern(
                self.kinds@[k],
            )
    }

    /// A detector for the kinds the features ask for.
    pub fn new(features: &Features) -> (d: Self)
        ensures
            d@ == searched_kinds(*features),
    {
        let mut patterns: Vec<Vec<u8>> = Vec::new();
        let mut kinds: Vec<HitKind> = Vec::new();
        patterns.push(pattern_vec(DOC_START));
        kinds.push(HitKind::Boundary(AfpBoundary::BeginDocument));
        patterns.push(pattern_vec(DOC_END));
        kinds.push(HitKind::Boundary(AfpBoundary::EndDocument));
        patterns.push(pattern_vec(PG_START));
        kinds.push(HitKind::Boundary(AfpBoundary::BeginPageGroup));
        patterns.push(pattern_vec(PG_END));
        kinds.push(HitKind::Boundary(AfpBoundary::EndPageGroup));
        patterns.push(pattern_vec(PAGE_START));
        kinds.push(HitKind::Boundary(AfpBoundary::BeginPage));
        patterns.push(pattern_vec(PAGE_END));
        kinds.push(HitKind::Boundary(AfpBoundary::EndPage));
        if features.dump_nop {
            patterns.push(pattern_vec(NOP_SF));
            kinds.push(HitKind::Nop);
        }
        if features.dump_tle {
            patterns.push(pattern_vec(TLE_SF));
            kinds.push(HitKind::Tle);
        }
        proof {
            assert(kinds@ =~= searched_kinds(*features));
        }
        BoundaryDetector { patterns, kinds }
    }

    /// The patterns searched for, in the order of their kinds.
    pub fn patterns(&self) -> (ps: &Vec<Vec<u8>>)
        ensures
            ps@.len() == self@.len(),
            forall|k: int| 0 <= k < ps@.len() ==> (#[trigger] ps@[k])@ == kind_pattern(self@[k]),
    {
        proof {
            use_type_invariant(self);
        }
        &self.patterns
    }

    /// The hits of matches found by a search for [`Self::patterns`], given
    /// as `(pattern index, start offset)`: each index is read as its kind.
    pub fn hits_from_matches(&self, matches: &Vec<(usize, u64)>) -> (hits: Vec<Hit>)
        ensures
            hits@ == hits_of(self@, matches@),
    {
        let mut hits: Vec<Hit> = Vec::new();
        let mut i: usize = 0;
        while i < matches.len()
            invariant
                0 <= i <= matches@.len(),
                hits@ == hits_of(self@, matches@.take(i as int)),
            decreases matches@.len() - i,
        {
            let (p, o) = matches[i];
            proof {
                assert(matches@.take(i + 1).drop_last() == matches@.take(i as int));
            }
            if p < self.kinds.len() {
                hits.push(Hit { kind: self.kinds[p], offset: o });
            }
            i += 1;
        }
        proof {
            assert(matches@.take(i as int) == matches@);
        }
        hits
    }

    /// Finds every marker in `haystack`, in offset order. Each hit is an
    /// occurrence of its kind's pattern at its offset, hits do not overlap,
    /// and every occurrence of a searched marker is a hit of its kind.
    pub fn detect(&self, haystack: &[u8]) -> (hits: Vec<Hit>)
        ensures
            hits@.len() == standard_matches(kind_patterns(self@), haystack@).len(),
            forall|k: int|
                #![trigger hits@[k]]
                0 <= k < hits@.len() ==> {
                    &&& hits@[k].kind == self@[standard_matches(kind_patterns(self@), haystack@)[k].0 as int]
                    &&& hits@[k].offset == standard_matches(kind_patterns(self@), haystack@)[k].1
                    &&& self@.contains(hits@[k].kind)
                    &&& hits@[k].offset + 3 <= haystack@.len()
                    &&& haystack@.subrange(hits@[k].offset as int, hits@[k].offset + 3) == kind_pattern(
                        hits@[k].kind,
                    )
                },
            forall|k1: int, k2: int|
                #![trigger hits@[k1], hits@[k2]]
                0 <= k1 && k2 == k1 + 1 && k2 < hits@.len() ==> hits@[k1].offset + 3 <= hits@[k2].offset,
            forall|q: int, s: int|
                #![trigger occurs_at(kind_pattern(self@[q]), haystack@, s)]
                0 <= q < self@.len() && occurs_at(kind_pattern(self@[q]), haystack@, s) ==> exists|
                    k: int,
                |
                    0 <= k < hits@.len() && (#[trigger] hits@[k]).offset == s && hits@[k].kind
                        == self@[q],
    {
        proof {
            use_type_invariant(self);
        }
        let found = find_standard_matches(&self.patterns, haystack);
        proof {
            assert(patterns_view(self.patterns@) =~= kind_patterns(self@));
        }
        let mut matches: Vec<(usize, u64)> = Vec::new();
        let mut i: usize = 0;
        while i < found.len()
            invariant
                0 <= i <= found@.len(),
                matches@.len() == i,
                forall|k: int|
                    0 <= k < i ==> #[trigger] matches@[k] == (found@[k].0, found@[k].1 as u64),
            decreases found@.len() - i,
        {
            let (p, s) = found[i];
            matches.push((p, s as u64));
            i += 1;
        }
        let hits = self.hits_from_matches(&matches);
        proof {
            assert forall|k: int| 0 <= k < matches@.len() implies (#[trigger] matches@[k]).0 < self.kinds@.len() by {
                assert(found@[k].0 < self.patterns@.len());
            }
            lemma_hits_of_all_known(self.kinds@, matches@);
            assert forall|k: int| 0 <= k < hits@.len() implies self@.contains(#[trigger] hits@[k].kind) by {
                assert(self@[found@[k].0 as int] == hits@[k].kind);
            }
            assert forall|k: int|
                0 <= k < hits@.len() implies haystack@.subrange(
                #[trigger] hits@[k].offset as int,
                hits@[k].offset + 3,
            ) == kind_pattern(hits@[k].kind) by {
                assert(found@[k].0 < self.patterns@.len());
                assert(self.patterns@[found@[k].0 as int]@ == kind_pattern(self.kinds@[found@[k].0 as int]));
            }
            assert forall|k1: int, k2: int|
                0 <= k1 && k2 == k1 + 1 && k2 < hits@.len() implies #[trigger] hits@[k1].offset + 3
                <= #[trigger] hits@[k2].offset by {
                assert(found@[k1].0 < self.patterns@.len());
                assert(self.patterns@[found@[k1].0 as int]@ == kind_pattern(self.kinds@[found@[k1].0 as int]));
            }
            let ps = kind_patterns(self@);
            assert forall|q: int, s: int|
                0 <= q < self@.len() && occurs_at(
                    kind_pattern(self@[q]),
                    haystack@,
                    s,
                ) implies exists|k: int|
                0 <= k < hits@.len() && (#[trigger] hits@[k]).offset == s && hits@[k].kind
                    == self@[q] by {
                assert(ps[q] == kind_pattern(self@[q]));
                assert forall|j: int| 0 <= j < found@.len() implies (#[trigger] found@[j]).0 < ps.len() by {}
                lemma_occurrence_is_covered(ps, haystack@, found@, q, s, 0);
                let j = choose|j: int| 0 <= j < found@.len() && (#[trigger] found@[j]).1 <= s < found@[j].1 + 3;
                assert(hits@[j].offset == found@[j].1);
                assert(found@[j].0 < self.patterns@.len());
                assert(self.patterns@[found@[j].0 as int]@ == kind_pattern(self.kinds@[found@[j].0 as int]));
                lemma_markers_never_overlap(hits@[j].kind, self@[q], haystack@, hits@[j].offset as int, s);
            }
        }
        hits
    }
}

} // verus!

