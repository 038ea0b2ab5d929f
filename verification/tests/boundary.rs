use afp_dumper::boundary::{AfpBoundary, BoundaryDetector, Hit, HitKind};
use afp_dumper::features::Features;
use afp_dumper::patterns::{DOC_END, DOC_START, NOP_SF, PAGE_END, PAGE_START, TLE_SF};

#[test]
fn optional_patterns_are_absent_unless_requested() {
    let blob = [DOC_START, NOP_SF, TLE_SF, DOC_END].concat();

    let indexing_only = BoundaryDetector::new(&Features::default());
    let kinds: Vec<_> = indexing_only
        .detect(&blob[..])
        .iter()
        .map(|h| h.kind)
        .collect();
    assert_eq!(
        kinds,
        vec![
            HitKind::Boundary(AfpBoundary::BeginDocument),
            HitKind::Boundary(AfpBoundary::EndDocument),
        ]
    );
}

#[test]
fn pattern_index_stays_aligned_for_any_subset() {
    let blob = [DOC_START, NOP_SF, TLE_SF, DOC_END].concat();

    // tle only: the tle pattern takes the slot nop would have had
    let tle_only = BoundaryDetector::new(&Features::new(None, false, true));
    let kinds: Vec<_> = tle_only.detect(&blob[..]).iter().map(|h| h.kind).collect();
    assert_eq!(
        kinds,
        vec![
            HitKind::Boundary(AfpBoundary::BeginDocument),
            HitKind::Tle,
            HitKind::Boundary(AfpBoundary::EndDocument),
        ]
    );

    let both = BoundaryDetector::new(&Features::new(None, true, true));
    let kinds: Vec<_> = both.detect(&blob[..]).iter().map(|h| h.kind).collect();
    assert_eq!(
        kinds,
        vec![
            HitKind::Boundary(AfpBoundary::BeginDocument),
            HitKind::Nop,
            HitKind::Tle,
            HitKind::Boundary(AfpBoundary::EndDocument),
        ]
    );
}

#[test]
fn hits_come_back_in_offset_order() {
    let blob = [DOC_START, PAGE_START, NOP_SF, PAGE_END, DOC_END].concat();
    let hits = BoundaryDetector::new(&Features::new(None, true, false)).detect(&blob[..]);
    let offsets: Vec<_> = hits.iter().map(|h| h.offset).collect();
    assert_eq!(offsets, vec![0, 3, 6, 9, 12]);
}

#[test]
fn matches_are_found_amid_other_bytes() {
    let mut blob = vec![0x00, 0x5a, 0x00, 0x08];
    blob.extend_from_slice(&DOC_START);
    blob.extend_from_slice(b"payload");
    blob.extend_from_slice(&DOC_END);
    let hits = BoundaryDetector::new(&Features::default()).detect(&blob);
    assert_eq!(
        hits,
        vec![
            Hit { kind: HitKind::Boundary(AfpBoundary::BeginDocument), offset: 4 },
            Hit { kind: HitKind::Boundary(AfpBoundary::EndDocument), offset: 14 },
        ]
    );
}

#[test]
fn the_detector_exposes_its_patterns_in_kind_order() {
    let d = BoundaryDetector::new(&Features::new(None, true, true));
    let ps = d.patterns();
    assert_eq!(ps.len(), 8);
    assert_eq!(ps[0], DOC_START.to_vec());
    assert_eq!(ps[6], NOP_SF.to_vec());
    assert_eq!(ps[7], TLE_SF.to_vec());
}

#[test]
fn matches_of_unknown_patterns_are_skipped() {
    let d = BoundaryDetector::new(&Features::default());
    let hits = d.hits_from_matches(&vec![(1, 7), (6, 9), (4, 11)]);
    assert_eq!(
        hits,
        vec![
            Hit { kind: HitKind::Boundary(AfpBoundary::EndDocument), offset: 7 },
            Hit { kind: HitKind::Boundary(AfpBoundary::BeginPage), offset: 11 },
        ]
    );
}

#[test]
fn every_marker_is_found_wherever_it_sits() {
    let blob = [
        vec![0x00, 0xD3],
        DOC_START.to_vec(),
        vec![0xA8, 0xD3, 0xD3],
        PAGE_START.to_vec(),
        vec![0xD3, 0xA9],
        PAGE_END.to_vec(),
        DOC_END.to_vec(),
        vec![0xD3],
    ]
    .concat();
    let hits = BoundaryDetector::new(&Features::default()).detect(&blob[..]);
    assert_eq!(
        hits,
        vec![
            Hit { kind: HitKind::Boundary(AfpBoundary::BeginDocument), offset: 2 },
            Hit { kind: HitKind::Boundary(AfpBoundary::BeginPage), offset: 8 },
            Hit { kind: HitKind::Boundary(AfpBoundary::EndPage), offset: 13 },
            Hit { kind: HitKind::Boundary(AfpBoundary::EndDocument), offset: 16 },
        ]
    );
}

#[test]
fn a_lone_begin_document_is_one_hit() {
    let hits = BoundaryDetector::new(&Features::default()).detect(&DOC_START[..]);
    assert_eq!(hits, vec![Hit { kind: HitKind::Boundary(AfpBoundary::BeginDocument), offset: 0 }]);
}
