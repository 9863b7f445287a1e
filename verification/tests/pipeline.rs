use hic_convertor::pair::{canonicalize, fingerprints_match, PairRecord, PairType, Strand};
use hic_convertor::extract::{extract_pairs, AlignmentEvent, AlignmentRecord};
use hic_convertor::mapper::{ContigIntervals, GraphIndex, SegmentInterval};
use hic_convertor::dedup::{deduplicate_pairs, deduplicate_grouped_pairs};
use hic_convertor::sort::sort_pairs;
use hic_convertor::pipeline::{full_pipeline, convert_to_pairs};

fn rec(
    read_id: u64,
    first_in_pair: bool,
    is_mapped: bool,
    is_primary: bool,
    contig: u32,
    pos: u64,
    strand: Strand,
    mapq: u8,
) -> AlignmentRecord {
    AlignmentRecord { read_id, first_in_pair, is_mapped, is_primary, contig, pos, strand, mapq }
}

fn aligned(r: AlignmentRecord) -> AlignmentEvent {
    AlignmentEvent::Aligned(r)
}

fn pair(read_id: u64, c1: u32, p1: u64, c2: u32, p2: u64, t: PairType) -> PairRecord {
    PairRecord {
        read_id,
        chrom1: c1,
        pos1: p1,
        strand1: Strand::Forward,
        chrom2: c2,
        pos2: p2,
        strand2: Strand::Forward,
        pair_type: t,
        mapq: None,
    }
}

fn key_of(p: &PairRecord) -> (u32, u64, u32, u64) {
    (p.chrom1, p.pos1, p.chrom2, p.pos2)
}

#[test]
fn canonicalize_swaps_unordered_chromosomes() {
    let p = PairRecord {
        read_id: 7,
        chrom1: 5,
        pos1: 100,
        strand1: Strand::Reverse,
        chrom2: 2,
        pos2: 400,
        strand2: Strand::Forward,
        pair_type: PairType::Normal,
        mapq: Some((30, 60)),
    };
    let c = canonicalize(p);
    assert_eq!(c.chrom1, 2);
    assert_eq!(c.pos1, 400);
    assert_eq!(c.strand1, Strand::Forward);
    assert_eq!(c.chrom2, 5);
    assert_eq!(c.pos2, 100);
    assert_eq!(c.strand2, Strand::Reverse);
    assert_eq!(c.mapq, Some((60, 30)));
    assert_eq!(c.read_id, 7);
}

#[test]
fn canonicalize_swaps_same_chromosome_by_position() {
    let p = pair(1, 3, 900, 3, 100, PairType::Normal);
    let c = canonicalize(p);
    assert_eq!(key_of(&c), (3, 100, 3, 900));
}

#[test]
fn canonicalize_keeps_ordered_record() {
    let p = pair(1, 1, 10, 2, 5, PairType::Normal);
    assert_eq!(canonicalize(p), p);
}

#[test]
fn fingerprint_ignores_read_identity_and_quality() {
    let mut a = pair(1, 1, 10, 2, 20, PairType::Normal);
    let mut b = pair(99, 1, 10, 2, 20, PairType::GraphMapped);
    a.mapq = Some((10, 20));
    b.mapq = None;
    assert!(fingerprints_match(&a, &b));
    b.pos2 = 21;
    assert!(!fingerprints_match(&a, &b));
}

#[test]
fn sort_output_is_non_decreasing_for_every_worker_count() {
    let input = vec![
        pair(1, 4, 50, 4, 60, PairType::Normal),
        pair(2, 1, 99, 2, 10, PairType::Normal),
        pair(3, 1, 5, 9, 1, PairType::Normal),
        pair(4, 4, 50, 3, 60, PairType::Normal),
        pair(5, 1, 5, 2, 1, PairType::Normal),
        pair(6, 8, 1, 8, 2, PairType::Normal),
        pair(7, 1, 99, 1, 100, PairType::Normal),
        pair(8, 2, 2, 2, 2, PairType::Normal),
    ];
    for nproc in [1u8, 4, 16] {
        let out = sort_pairs(&input, nproc);
        assert_eq!(out.len(), input.len());
        for w in out.windows(2) {
            assert!(key_of(&w[0]) <= key_of(&w[1]));
        }
    }
}

#[test]
fn sort_result_is_identical_for_one_and_eight_workers() {
    let mut input = Vec::new();
    for i in 0..40u64 {
        let c1 = ((i * 7) % 5) as u32;
        let p1 = (i * 13) % 11;
        let c2 = ((i * 3) % 4) as u32;
        let p2 = (i * 17) % 9;
        input.push(pair(i, c1, p1, c2, p2, PairType::Normal));
    }
    let one = sort_pairs(&input, 1);
    let eight = sort_pairs(&input, 8);
    assert_eq!(one, eight);
}

#[test]
fn sort_is_stable_for_equal_keys() {
    let input = vec![
        pair(10, 2, 5, 2, 9, PairType::Normal),
        pair(11, 1, 1, 1, 1, PairType::Normal),
        pair(12, 2, 5, 2, 9, PairType::GraphMapped),
        pair(13, 2, 5, 2, 9, PairType::Multi),
    ];
    let out = sort_pairs(&input, 3);
    assert_eq!(out[0].read_id, 11);
    assert_eq!(out[1].read_id, 10);
    assert_eq!(out[2].read_id, 12);
    assert_eq!(out[3].read_id, 13);
}

#[test]
fn sort_of_empty_input_is_empty() {
    let out = sort_pairs(&Vec::new(), 4);
    assert!(out.is_empty());
}

#[test]
fn dedup_keeps_first_occurrence_and_counts_the_rest() {
    let input = vec![
        pair(1, 1, 10, 2, 20, PairType::Normal),
        pair(2, 3, 30, 4, 40, PairType::Normal),
        pair(3, 1, 10, 2, 20, PairType::Normal),
        pair(4, 1, 10, 2, 20, PairType::Normal),
    ];
    let (kept, removed) = deduplicate_pairs(&input);
    assert_eq!(removed, 2);
    assert_eq!(kept.len(), 2);
    assert_eq!(kept[0].read_id, 1);
    assert_eq!(kept[1].read_id, 2);
}

#[test]
fn dedup_twice_removes_nothing_more() {
    let input = vec![
        pair(1, 1, 10, 2, 20, PairType::Normal),
        pair(2, 1, 10, 2, 20, PairType::Normal),
        pair(3, 3, 30, 4, 40, PairType::Normal),
        pair(4, 3, 30, 4, 40, PairType::Normal),
        pair(5, 3, 30, 4, 40, PairType::Normal),
    ];
    let (once, removed_once) = deduplicate_pairs(&input);
    assert_eq!(removed_once, 3);
    let (twice, removed_twice) = deduplicate_pairs(&once);
    assert_eq!(removed_twice, 0);
    assert_eq!(twice, once);
}

#[test]
fn dedup_distinguishes_strands() {
    let mut a = pair(1, 1, 10, 2, 20, PairType::Normal);
    let mut b = pair(2, 1, 10, 2, 20, PairType::Normal);
    a.strand1 = Strand::Forward;
    b.strand1 = Strand::Reverse;
    let (kept, removed) = deduplicate_pairs(&vec![a, b]);
    assert_eq!(removed, 0);
    assert_eq!(kept.len(), 2);
}

#[test]
fn extraction_conservation_over_a_mixed_stream() {
    let events = vec![
        // read 1: a normal pair
        aligned(rec(1, true, true, true, 1, 100, Strand::Forward, 60)),
        aligned(rec(1, false, true, true, 1, 900, Strand::Reverse, 60)),
        // read 2: second mate unmapped
        aligned(rec(2, true, true, true, 2, 50, Strand::Forward, 60)),
        aligned(rec(2, false, false, true, 0, 0, Strand::Forward, 0)),
        // read 3: first mate has only secondary alignments
        aligned(rec(3, true, true, false, 3, 10, Strand::Forward, 20)),
        aligned(rec(3, true, true, false, 4, 11, Strand::Forward, 20)),
        aligned(rec(3, false, true, true, 3, 99, Strand::Reverse, 60)),
        // read 4: one mate only, no pair
        aligned(rec(4, true, true, true, 5, 5, Strand::Forward, 60)),
        // one malformed event
        AlignmentEvent::Malformed,
    ];
    let (pairs, stats) = extract_pairs(&events, None);
    assert_eq!(stats.total_records, 9);
    assert_eq!(stats.malformed, 1);
    assert_eq!(stats.incomplete, 1);
    assert_eq!(stats.normal, 1);
    assert_eq!(stats.graph_mapped, 0);
    assert_eq!(stats.unmapped, 1);
    assert_eq!(stats.multi, 1);
    assert_eq!(stats.emitted, pairs.len());
    assert_eq!(
        stats.emitted,
        stats.normal + stats.graph_mapped + stats.unmapped + stats.multi
    );
    let (kept, removed) = deduplicate_pairs(&pairs);
    assert_eq!(kept.len() + removed, stats.emitted);
}

#[test]
fn extraction_emits_canonical_normal_pair() {
    let events = vec![
        aligned(rec(9, true, true, true, 7, 500, Strand::Forward, 60)),
        aligned(rec(9, false, true, true, 3, 40, Strand::Reverse, 50)),
    ];
    let (pairs, _) = extract_pairs(&events, None);
    assert_eq!(pairs.len(), 1);
    let p = &pairs[0];
    assert_eq!(key_of(p), (3, 40, 7, 500));
    assert_eq!(p.strand1, Strand::Reverse);
    assert_eq!(p.strand2, Strand::Forward);
    assert_eq!(p.pair_type, PairType::Normal);
    assert_eq!(p.mapq, Some((50, 60)));
}

#[test]
fn extraction_prefers_the_first_primary_alignment() {
    let events = vec![
        aligned(rec(5, true, true, false, 1, 1, Strand::Forward, 10)),
        aligned(rec(5, true, true, true, 2, 200, Strand::Forward, 60)),
        aligned(rec(5, true, true, true, 9, 999, Strand::Forward, 60)),
        aligned(rec(5, false, true, true, 2, 300, Strand::Reverse, 60)),
    ];
    let (pairs, _) = extract_pairs(&events, None);
    assert_eq!(pairs.len(), 1);
    assert_eq!(key_of(&pairs[0]), (2, 200, 2, 300));
}

fn toy_graph() -> GraphIndex {
    // contig 1: [0,100) on segment 10, [100,250) on segment 11
    // contig 2: [50,60) on segment 20
    GraphIndex::new(vec![
        ContigIntervals {
            contig: 1,
            intervals: vec![
                SegmentInterval { start: 0, end: 100, segment: 10 },
                SegmentInterval { start: 100, end: 250, segment: 11 },
            ],
        },
        ContigIntervals {
            contig: 2,
            intervals: vec![SegmentInterval { start: 50, end: 60, segment: 20 }],
        },
    ])
    .expect("well-formed graph index")
}

#[test]
fn mapping_is_deterministic_and_misses_outside_intervals() {
    let g = toy_graph();
    let a = g.map_coordinate(1, 150);
    let b = g.map_coordinate(1, 150);
    assert_eq!(a, b);
    let gc = a.expect("offset 150 lies in an interval");
    assert_eq!(gc.segment, 11);
    assert_eq!(gc.offset, 50);
    assert_eq!(g.map_coordinate(1, 250), None);
    assert_eq!(g.map_coordinate(2, 49), None);
    assert_eq!(g.map_coordinate(2, 60), None);
    assert_eq!(g.map_coordinate(3, 0), None);
    let edge = g.map_coordinate(2, 50).expect("interval start is contained");
    assert_eq!(edge.segment, 20);
    assert_eq!(edge.offset, 0);
}

#[test]
fn malformed_graph_definitions_are_rejected() {
    // overlapping intervals
    assert!(GraphIndex::new(vec![ContigIntervals {
        contig: 1,
        intervals: vec![
            SegmentInterval { start: 0, end: 10, segment: 1 },
            SegmentInterval { start: 5, end: 20, segment: 2 },
        ],
    }])
    .is_none());
    // interval with reversed bounds
    assert!(GraphIndex::new(vec![ContigIntervals {
        contig: 1,
        intervals: vec![SegmentInterval { start: 9, end: 3, segment: 1 }],
    }])
    .is_none());
    // duplicated contig
    assert!(GraphIndex::new(vec![
        ContigIntervals { contig: 1, intervals: vec![] },
        ContigIntervals { contig: 1, intervals: vec![] },
    ])
    .is_none());
}

#[test]
fn graph_run_translates_both_ends() {
    let g = toy_graph();
    let events = vec![
        aligned(rec(1, true, true, true, 1, 120, Strand::Forward, 60)),
        aligned(rec(1, false, true, true, 2, 55, Strand::Reverse, 60)),
    ];
    let (pairs, stats) = extract_pairs(&events, Some(&g));
    assert_eq!(stats.graph_mapped, 1);
    assert_eq!(pairs.len(), 1);
    let p = &pairs[0];
    assert_eq!(p.pair_type, PairType::GraphMapped);
    // (1,120) -> segment 11 offset 20; (2,55) -> segment 20 offset 5
    assert_eq!(key_of(p), (11, 20, 20, 5));
}

#[test]
fn graph_miss_degrades_to_unmapped() {
    let g = toy_graph();
    let events = vec![
        aligned(rec(1, true, true, true, 1, 120, Strand::Forward, 60)),
        aligned(rec(1, false, true, true, 2, 99, Strand::Reverse, 60)),
    ];
    let (pairs, stats) = extract_pairs(&events, Some(&g));
    assert_eq!(stats.graph_mapped, 0);
    assert_eq!(stats.unmapped, 1);
    assert_eq!(pairs.len(), 1);
    assert_eq!(pairs[0].pair_type, PairType::Unmapped);
}

#[test]
fn full_pipeline_end_to_end_scenario() {
    // 4 alignment records forming 2 read pairs; both map to the same
    // positions, so one is a duplicate of the other.
    let events = vec![
        aligned(rec(1, true, true, true, 1, 100, Strand::Forward, 60)),
        aligned(rec(1, false, true, true, 2, 200, Strand::Reverse, 60)),
        aligned(rec(2, true, true, true, 1, 100, Strand::Forward, 60)),
        aligned(rec(2, false, true, true, 2, 200, Strand::Reverse, 60)),
    ];
    let (out, stats) = full_pipeline(&events, None, 2);
    assert_eq!(stats.emitted, 2);
    assert_eq!(stats.duplicates_removed, 1);
    assert_eq!(stats.kept, 1);
    assert_eq!(out.len(), 1);
    assert_eq!(out[0].read_id, 1);
    assert_eq!(key_of(&out[0]), (1, 100, 2, 200));
    assert_eq!(
        stats.emitted,
        stats.normal + stats.graph_mapped + stats.unmapped + stats.multi
    );
    assert_eq!(stats.emitted, stats.kept + stats.duplicates_removed);
}

#[test]
fn full_pipeline_sorts_deduplicated_output() {
    let events = vec![
        aligned(rec(1, true, true, true, 9, 10, Strand::Forward, 60)),
        aligned(rec(1, false, true, true, 8, 20, Strand::Forward, 60)),
        aligned(rec(2, true, true, true, 1, 5, Strand::Forward, 60)),
        aligned(rec(2, false, true, true, 1, 2, Strand::Forward, 60)),
        aligned(rec(3, true, true, true, 9, 10, Strand::Forward, 60)),
        aligned(rec(3, false, true, true, 8, 20, Strand::Forward, 60)),
    ];
    let (out, stats) = full_pipeline(&events, None, 4);
    assert_eq!(stats.emitted, 3);
    assert_eq!(stats.duplicates_removed, 1);
    assert_eq!(out.len(), 2);
    assert_eq!(key_of(&out[0]), (1, 2, 1, 5));
    assert_eq!(key_of(&out[1]), (8, 20, 9, 10));
    for w in out.windows(2) {
        assert!(key_of(&w[0]) <= key_of(&w[1]));
    }
}

#[test]
fn full_pipeline_result_does_not_depend_on_worker_count() {
    let mut events = Vec::new();
    for i in 0..12u64 {
        let c = ((i % 3) + 1) as u32;
        events.push(aligned(rec(i, true, true, true, c, 10 + (i % 4), Strand::Forward, 60)));
        events.push(aligned(rec(i, false, true, true, c, 90 - (i % 5), Strand::Reverse, 60)));
    }
    let (a, sa) = full_pipeline(&events, None, 1);
    let (b, sb) = full_pipeline(&events, None, 8);
    assert_eq!(a, b);
    assert_eq!(sa, sb);
}

#[test]
fn grouped_dedup_matches_first_kept_dedup() {
    // equal fingerprints sit in contiguous runs, as on pre-sorted input
    let input = vec![
        pair(1, 1, 10, 2, 20, PairType::Normal),
        pair(2, 1, 10, 2, 20, PairType::Normal),
        pair(3, 1, 10, 2, 20, PairType::Normal),
        pair(4, 3, 30, 4, 40, PairType::Normal),
        pair(5, 5, 50, 6, 60, PairType::Normal),
        pair(6, 5, 50, 6, 60, PairType::Normal),
    ];
    let (adjacent, removed_adjacent) = deduplicate_grouped_pairs(&input);
    let (scanned, removed_scanned) = deduplicate_pairs(&input);
    assert_eq!(adjacent, scanned);
    assert_eq!(removed_adjacent, removed_scanned);
    assert_eq!(removed_adjacent, 3);
    assert_eq!(adjacent.len(), 3);
    assert_eq!(adjacent[0].read_id, 1);
    assert_eq!(adjacent[1].read_id, 4);
    assert_eq!(adjacent[2].read_id, 5);
}

#[test]
fn convert_stage_alone_deduplicates_nothing() {
    let events = vec![
        aligned(rec(1, true, true, true, 1, 100, Strand::Forward, 60)),
        aligned(rec(1, false, true, true, 2, 200, Strand::Reverse, 60)),
        aligned(rec(2, true, true, true, 1, 100, Strand::Forward, 60)),
        aligned(rec(2, false, true, true, 2, 200, Strand::Reverse, 60)),
    ];
    let (pairs, stats) = convert_to_pairs(&events, None);
    assert_eq!(pairs.len(), 2);
    assert_eq!(stats.emitted, 2);
    assert_eq!(stats.duplicates_removed, 0);
    assert_eq!(stats.kept, 2);
    assert_eq!(stats.normal, 2);
    // both reads produced the same contact, in encounter order
    assert_eq!(pairs[0].read_id, 1);
    assert_eq!(pairs[1].read_id, 2);
    assert!(fingerprints_match(&pairs[0], &pairs[1]));
}
