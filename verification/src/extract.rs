//! The alignment pair extractor: groups alignment records by read identity,
//! selects the primary alignment of each mate, classifies the pair and emits
//! one canonical pair record per read, translating coordinates through the
//! assembly graph when one is supplied.

use vstd::prelude::*;
use crate::pair::{PairRecord, PairType, Strand, spec_canonicalize, canonicalize, count_type, lemma_type_partition};
use crate::mapper::GraphIndex;

verus! {

/// One aligned-read record, as the alignment reader hands it over. Contigs
/// and read identifiers are numeric; the reader owns the name tables.
#[derive(Clone, Copy, Debug, PartialEq, Eq)]
pub struct AlignmentRecord {
    pub read_id: u64,
    /// Whether this record belongs to the first mate of the read pair.
    pub first_in_pair: bool,
    pub is_mapped: bool,
    /// A primary alignment; secondary and supplementary records carry false.
    pub is_primary: bool,
    pub contig: u32,
    pub pos: u64,
    pub strand: Strand,
    pub mapq: u8,
}

/// One event of the alignment stream: a record, or one the reader could not
/// parse, which the extractor skips and counts.
#[derive(Clone, Copy, Debug, PartialEq, Eq)]
pub enum AlignmentEvent {
    Malformed,
    Aligned(AlignmentRecord),
}

/// How one mate of a read resolved within its group.
#[derive(Clone, Copy, Debug, PartialEq, Eq)]
pub enum MateResolution {
    /// No record of this mate at all.
    Missing,
    /// Only secondary or supplementary alignments, no primary one.
    MultiOnly,
    /// A primary alignment without a genomic position.
    Unmapped,
    /// The primary alignment's contig, position, strand and quality.
    Mapped(u32, u64, Strand, u8),
}

/// The parsed records of an event stream, malformed events dropped.
pub open spec fn aligned_records(s: Seq<AlignmentEvent>) -> Seq<AlignmentRecord>
    decreases s.len(),
{
    if s.len() == 0 {
        Seq::<AlignmentRecord>::empty()
    } else {
        let rest = aligned_records(s.drop_last());
        match s.last() {
            AlignmentEvent::Malformed => rest,
            AlignmentEvent::Aligned(r) => rest.push(r),
        }
    }
}

/// How many events of the stream were malformed.
pub open spec fn malformed_count(s: Seq<AlignmentEvent>) -> nat
    decreases s.len(),
{
    if s.len() == 0 {
        0
    } else {
        malformed_count(s.drop_last()) + if s.last() is Malformed {
            1nat
        } else {
            0nat
        }
    }
}

/// The read identifiers of the stream, once each, in first-encounter order.
pub open spec fn distinct_ids(s: Seq<AlignmentRecord>) -> Seq<u64>
    decreases s.len(),
{
    if s.len() == 0 {
        Seq::<u64>::empty()
    } else {
        let rest = distinct_ids(s.drop_last());
        if rest.contains(s.last().read_id) {
            rest
        } else {
            rest.push(s.last().read_id)
        }
    }
}

/// The group of one read: its records, in stream order.
pub open spec fn records_with_id(s: Seq<AlignmentRecord>, id: u64) -> Seq<AlignmentRecord>
    decreases s.len(),
{
    if s.len() == 0 {
        Seq::<AlignmentRecord>::empty()
    } else {
        let rest = records_with_id(s.drop_last(), id);
        if s.last().read_id == id {
            rest.push(s.last())
        } else {
            rest
        }
    }
}

/// The group holds some record of the given mate.
pub open spec fn has_mate(g: Seq<AlignmentRecord>, first_mate: bool) -> bool {
    exists|i: int| 0 <= i < g.len() && (#[trigger] g[i]).first_in_pair == first_mate
}

/// The first primary alignment of the given mate, in group order.
pub open spec fn first_primary(g: Seq<AlignmentRecord>, first_mate: bool) -> Option<
    AlignmentRecord,
>
    decreases g.len(),
{
    if g.len() == 0 {
        None
    } else if g[0].first_in_pair == first_mate && g[0].is_primary {
        Some(g[0])
    } else {
        first_primary(g.drop_first(), first_mate)
    }
}

/// How one mate resolves: missing without any record, multi-only without a
/// primary, else by its first primary alignment.
pub open spec fn spec_resolve_mate(g: Seq<AlignmentRecord>, first_mate: bool) -> MateResolution {
    if !has_mate(g, first_mate) {
        MateResolution::Missing
    } else {
        match first_primary(g, first_mate) {
            None => MateResolution::MultiOnly,
            Some(r) => if r.is_mapped {
                MateResolution::Mapped(r.contig, r.pos, r.strand, r.mapq)
            } else {
                MateResolution::Unmapped
            },
        }
    }
}

/// A raw pair record before canonicalization.
pub open spec fn raw_pair(
    id: u64,
    e1: (u32, u64, Strand),
    e2: (u32, u64, Strand),
    t: PairType,
    mq: Option<(u8, u8)>,
) -> PairRecord {
    PairRecord {
        read_id: id,
        chrom1: e1.0,
        pos1: e1.1,
        strand1: e1.2,
        chrom2: e2.0,
        pos2: e2.1,
        strand2: e2.2,
        pair_type: t,
        mapq: mq,
    }
}

/// The coordinate a resolution contributes to a non-normal record: the mapped
/// position when there is one, else the zero placeholder.
pub open spec fn res_coord(m: MateResolution) -> (u32, u64, Strand) {
    match m {
        MateResolution::Mapped(c, p, s, _) => (c, p, s),
        _ => (0u32, 0u64, Strand::Forward),
    }
}

/// The graph index an optional reference stands for.
pub open spec fn gi_view(g: Option<&GraphIndex>) -> Option<GraphIndex> {
    match g {
        None => None,
        Some(x) => Some(*x),
    }
}

/// Classification of one read group from its two mate resolutions: no pair
/// without both mates; `multi` when a mate has no primary; `unmapped` when a
/// mate has no position or misses the graph; else `normal`, or `graph-mapped`
/// when both ends translate through the supplied graph. Every emitted record
/// is canonical.
pub open spec fn spec_classify(
    id: u64,
    m1: MateResolution,
    m2: MateResolution,
    gi: Option<GraphIndex>,
) -> Option<PairRecord> {
    if m1 is Missing || m2 is Missing {
        None
    } else if m1 is MultiOnly || m2 is MultiOnly {
        Some(spec_canonicalize(raw_pair(id, res_coord(m1), res_coord(m2), PairType::Multi, None)))
    } else if m1 is Unmapped || m2 is Unmapped {
        Some(
            spec_canonicalize(raw_pair(id, res_coord(m1), res_coord(m2), PairType::Unmapped, None)),
        )
    } else {
        match (m1, m2) {
            (MateResolution::Mapped(c1, p1, s1, q1), MateResolution::Mapped(c2, p2, s2, q2)) => {
                match gi {
                    None => Some(
                        spec_canonicalize(
                            raw_pair(id, (c1, p1, s1), (c2, p2, s2), PairType::Normal, Some((q1, q2))),
                        ),
                    ),
                    Some(g) => {
                        match (g.spec_map(c1, p1), g.spec_map(c2, p2)) {
                            (Some(gc1), Some(gc2)) => Some(
                                spec_canonicalize(
                                    raw_pair(
                                        id,
                                        (gc1.segment, gc1.offset, s1),
                                        (gc2.segment, gc2.offset, s2),
                                        PairType::GraphMapped,
                                        Some((q1, q2)),
                                    ),
                                ),
                            ),
                            _ => Some(
                                spec_canonicalize(
                                    raw_pair(
                                        id,
                                        (c1, p1, s1),
                                        (c2, p2, s2),
                                        PairType::Unmapped,
                                        None,
                                    ),
                                ),
                            ),
                        }
                    },
                }
            },
            _ => None,
        }
    }
}

/// The pair one read group contributes, if any.
pub open spec fn spec_group_pair(
    recs: Seq<AlignmentRecord>,
    id: u64,
    gi: Option<GraphIndex>,
) -> Option<PairRecord> {
    spec_classify(
        id,
        spec_resolve_mate(records_with_id(recs, id), true),
        spec_resolve_mate(records_with_id(recs, id), false),
        gi,
    )
}

/// The pairs of the reads named by `ids`, in that order.
pub open spec fn spec_extract_ids(
    ids: Seq<u64>,
    recs: Seq<AlignmentRecord>,
    gi: Option<GraphIndex>,
) -> Seq<PairRecord>
    decreases ids.len(),
{
    if ids.len() == 0 {
        Seq::<PairRecord>::empty()
    } else {
        let rest = spec_extract_ids(ids.drop_last(), recs, gi);
        match spec_group_pair(recs, ids.last(), gi) {
            None => rest,
            Some(p) => rest.push(p),
        }
    }
}

/// What extraction emits: one pair per read of the stream, reads in
/// first-encounter order, malformed events skipped.
pub open spec fn spec_extract(s: Seq<AlignmentEvent>, gi: Option<GraphIndex>) -> Seq<PairRecord> {
    spec_extract_ids(distinct_ids(aligned_records(s)), aligned_records(s), gi)
}

/// A mate with a primary alignment is present in the group.
proof fn lemma_first_primary_mate(g: Seq<AlignmentRecord>, first_mate: bool)
    ensures
        first_primary(g, first_mate) is Some ==> has_mate(g, first_mate),
    decreases g.len(),
{
    if g.len() == 0 {
    } else if g[0].first_in_pair == first_mate && g[0].is_primary {
        assert(g[0].first_in_pair == first_mate);
    } else {
        lemma_first_primary_mate(g.drop_first(), first_mate);
        if first_primary(g, first_mate) is Some {
            let i = choose|i: int|
                0 <= i < g.drop_first().len() && (#[trigger] g.drop_first()[i]).first_in_pair
                    == first_mate;
            assert(g[i + 1].first_in_pair == first_mate);
        }
    }
}

/// Resolves one mate within a read group.
pub fn resolve_mate(group: &Vec<AlignmentRecord>, first_mate: bool) -> (r: MateResolution)
    ensures
        r == spec_resolve_mate(group@, first_mate),
{
    let n = group.len();
    let mut any = false;
    let mut prim: Option<AlignmentRecord> = None;
    let mut k: usize = 0;
    proof {
        assert(group@.subrange(0, n as int) =~= group@);
    }
    while k < n
        invariant
            k <= n,
            n == group@.len(),
            any == exists|i: int| 0 <= i < k && (#[trigger] group@[i]).first_in_pair == first_mate,
            match prim {
                Some(p) => first_primary(group@, first_mate) == Some(p),
                None => first_primary(group@, first_mate) == first_primary(
                    group@.subrange(k as int, n as int),
                    first_mate,
                ),
            },
        decreases n - k,
    {
        proof {
            assert(group@.subrange(k as int, n as int)[0] == group@[k as int]);
            assert(group@.subrange(k as int, n as int).drop_first() =~= group@.subrange(
                k + 1,
                n as int,
            ));
        }
        let rec = group[k];
        if rec.first_in_pair == first_mate {
            any = true;
            if prim.is_none() && rec.is_primary {
                prim = Some(rec);
            }
        }
        k += 1;
    }
    proof {
        assert(group@.subrange(n as int, n as int) =~= Seq::<AlignmentRecord>::empty());
        lemma_first_primary_mate(group@, first_mate);
    }
    match prim {
        Some(p) => {
            if p.is_mapped {
                MateResolution::Mapped(p.contig, p.pos, p.strand, p.mapq)
            } else {
                MateResolution::Unmapped
            }
        },
        None => {
            if any {
                MateResolution::MultiOnly
            } else {
                MateResolution::Missing
            }
        },
    }
}

fn res_coord_exec(m: MateResolution) -> (r: (u32, u64, Strand))
    ensures
        r == res_coord(m),
{
    match m {
        MateResolution::Mapped(c, p, s, _) => (c, p, s),
        _ => (0u32, 0u64, Strand::Forward),
    }
}

/// Classifies one read group and builds its canonical pair record.
pub fn classify(id: u64, m1: MateResolution, m2: MateResolution, graph: Option<&GraphIndex>) -> (r:
    Option<PairRecord>)
    requires
        match graph {
            Some(g) => g.wf(),
            None => true,
        },
    ensures
        r == spec_classify(id, m1, m2, gi_view(graph)),
{
    match (m1, m2) {
        (MateResolution::Missing, _) => None,
        (_, MateResolution::Missing) => None,
        (MateResolution::MultiOnly, _) | (_, MateResolution::MultiOnly) => {
            let e1 = res_coord_exec(m1);
            let e2 = res_coord_exec(m2);
            Some(canonicalize(raw_pair_exec(id, e1, e2, PairType::Multi, None)))
        },
        (MateResolution::Unmapped, _) | (_, MateResolution::Unmapped) => {
            let e1 = res_coord_exec(m1);
            let e2 = res_coord_exec(m2);
            Some(canonicalize(raw_pair_exec(id, e1, e2, PairType::Unmapped, None)))
        },
        (MateResolution::Mapped(c1, p1, s1, q1), MateResolution::Mapped(c2, p2, s2, q2)) => {
            match graph {
                None => Some(
                    canonicalize(
                        raw_pair_exec(id, (c1, p1, s1), (c2, p2, s2), PairType::Normal, Some((q1, q2))),
                    ),
                ),
                Some(g) => {
                    let gc1 = g.map_coordinate(c1, p1);
                    let gc2 = g.map_coordinate(c2, p2);
                    match (gc1, gc2) {
                        (Some(t1), Some(t2)) => Some(
                            canonicalize(
                                raw_pair_exec(
                                    id,
                                    (t1.segment, t1.offset, s1),
                                    (t2.segment, t2.offset, s2),
                                    PairType::GraphMapped,
                                    Some((q1, q2)),
                                ),
                            ),
                        ),
                        _ => Some(
                            canonicalize(
                                raw_pair_exec(id, (c1, p1, s1), (c2, p2, s2), PairType::Unmapped, None),
                            ),
                        ),
                    }
                },
            }
        },
    }
}

fn raw_pair_exec(
    id: u64,
    e1: (u32, u64, Strand),
    e2: (u32, u64, Strand),
    t: PairType,
    mq: Option<(u8, u8)>,
) -> (r: PairRecord)
    ensures
        r == raw_pair(id, e1, e2, t, mq),
{
    PairRecord {
        read_id: id,
        chrom1: e1.0,
        pos1: e1.1,
        strand1: e1.2,
        chrom2: e2.0,
        pos2: e2.1,
        strand2: e2.2,
        pair_type: t,
        mapq: mq,
    }
}

/// Counters of one extraction run.
#[derive(Clone, Copy, Debug, PartialEq, Eq)]
pub struct ExtractStats {
    /// Alignment events consumed, malformed ones included.
    pub total_records: usize,
    /// Events the reader could not parse: skipped and counted, never fatal.
    pub malformed: usize,
    /// Read groups missing a mate, which emit no pair.
    pub incomplete: usize,
    pub normal: usize,
    pub graph_mapped: usize,
    pub unmapped: usize,
    pub multi: usize,
    /// All pairs emitted; always the sum of the four type counters.
    pub emitted: usize,
}

/// Scans an alignment stream and emits one canonical pair record per read,
/// in first-encounter read order, with the run's counters.
///
/// The counters satisfy conservation: `emitted` equals the sum of the four
/// per-type counts, and every read group is accounted for either by a pair
/// or by `incomplete`.
pub fn extract_pairs(events: &Vec<AlignmentEvent>, graph: Option<&GraphIndex>) -> (r: (
    Vec<PairRecord>,
    ExtractStats,
))
    requires
        match graph {
            Some(g) => g.wf(),
            None => true,
        },
    ensures
        r.0@ == spec_extract(events@, gi_view(graph)),
        r.1.total_records == events@.len(),
        r.1.malformed == malformed_count(events@),
        r.1.emitted == r.0@.len(),
        r.1.normal == count_type(r.0@, PairType::Normal),
        r.1.graph_mapped == count_type(r.0@, PairType::GraphMapped),
        r.1.unmapped == count_type(r.0@, PairType::Unmapped),
        r.1.multi == count_type(r.0@, PairType::Multi),
        r.1.emitted == r.1.normal + r.1.graph_mapped + r.1.unmapped + r.1.multi,
        r.1.incomplete + r.0@.len() == distinct_ids(aligned_records(events@)).len(),
{
    let n = events.len();
    let mut recs: Vec<AlignmentRecord> = Vec::new();
    let mut malformed: usize = 0;
    let mut idx: usize = 0;
    proof {
        assert(events@.subrange(0, 0) =~= Seq::<AlignmentEvent>::empty());
    }
    while idx < n
        invariant
            idx <= n,
            n == events@.len(),
            recs@ == aligned_records(events@.subrange(0, idx as int)),
            malformed == malformed_count(events@.subrange(0, idx as int)),
            malformed <= idx,
        decreases n - idx,
    {
        proof {
            assert(events@.subrange(0, idx + 1).drop_last() =~= events@.subrange(0, idx as int));
            assert(events@.subrange(0, idx + 1).last() == events@[idx as int]);
        }
        match events[idx] {
            AlignmentEvent::Malformed => {
                malformed += 1;
            },
            AlignmentEvent::Aligned(rec) => {
                recs.push(rec);
            },
        }
        idx += 1;
    }
    proof {
        assert(events@.subrange(0, n as int) =~= events@);
    }

    let m = recs.len();
    let mut ids: Vec<u64> = Vec::new();
    let mut k: usize = 0;
    proof {
        assert(recs@.subrange(0, 0) =~= Seq::<AlignmentRecord>::empty());
    }
    while k < m
        invariant
            k <= m,
            m == recs@.len(),
            ids@ == distinct_ids(recs@.subrange(0, k as int)),
        decreases m - k,
    {
        let id = recs[k].read_id;
        let mut seen = false;
        let mut a: usize = 0;
        while a < ids.len()
            invariant
                a <= ids@.len(),
                seen == exists|i: int| 0 <= i < a && (#[trigger] ids@[i]) == id,
            decreases ids@.len() - a,
        {
            if ids[a] == id {
                seen = true;
            }
            a += 1;
        }
        proof {
            assert(seen == ids@.contains(id));
            assert(recs@.subrange(0, k + 1).drop_last() =~= recs@.subrange(0, k as int));
            assert(recs@.subrange(0, k + 1).last() == recs@[k as int]);
        }
        if !seen {
            ids.push(id);
        }
        k += 1;
    }
    proof {
        assert(recs@.subrange(0, m as int) =~= recs@);
    }

    let t_total = ids.len();
    let mut pairs: Vec<PairRecord> = Vec::new();
    let mut incomplete: usize = 0;
    let mut c_normal: usize = 0;
    let mut c_graph: usize = 0;
    let mut c_unmapped: usize = 0;
    let mut c_multi: usize = 0;
    let mut t: usize = 0;
    proof {
        assert(ids@.subrange(0, 0) =~= Seq::<u64>::empty());
    }
    while t < t_total
        invariant
            t <= t_total,
            t_total == ids@.len(),
            m == recs@.len(),
            match graph {
                Some(g) => g.wf(),
                None => true,
            },
            pairs@ == spec_extract_ids(ids@.subrange(0, t as int), recs@, gi_view(graph)),
            incomplete + pairs@.len() == t,
            c_normal == count_type(pairs@, PairType::Normal),
            c_graph == count_type(pairs@, PairType::GraphMapped),
            c_unmapped == count_type(pairs@, PairType::Unmapped),
            c_multi == count_type(pairs@, PairType::Multi),
            c_normal + c_graph + c_unmapped + c_multi == pairs@.len(),
        decreases t_total - t,
    {
        let id = ids[t];
        let mut group: Vec<AlignmentRecord> = Vec::new();
        let mut g_k: usize = 0;
        proof {
            assert(recs@.subrange(0, 0) =~= Seq::<AlignmentRecord>::empty());
        }
        while g_k < m
            invariant
                g_k <= m,
                m == recs@.len(),
                group@ == records_with_id(recs@.subrange(0, g_k as int), id),
            decreases m - g_k,
        {
            proof {
                assert(recs@.subrange(0, g_k + 1).drop_last() =~= recs@.subrange(0, g_k as int));
                assert(recs@.subrange(0, g_k + 1).last() == recs@[g_k as int]);
            }
            let rec = recs[g_k];
            if rec.read_id == id {
                group.push(rec);
            }
            g_k += 1;
        }
        proof {
            assert(recs@.subrange(0, m as int) =~= recs@);
        }
        let m1 = resolve_mate(&group, true);
        let m2 = resolve_mate(&group, false);
        let p = classify(id, m1, m2, graph);
        proof {
            assert(ids@.subrange(0, t + 1).drop_last() =~= ids@.subrange(0, t as int));
            assert(ids@.subrange(0, t + 1).last() == ids@[t as int]);
        }
        match p {
            Some(pr) => {
                proof {
                    assert(pairs@.push(pr).drop_last() =~= pairs@);
                    assert(pairs@.push(pr).last() == pr);
                }
                match pr.pair_type {
                    PairType::Normal => {
                        c_normal += 1;
                    },
                    PairType::GraphMapped => {
                        c_graph += 1;
                    },
                    PairType::Unmapped => {
                        c_unmapped += 1;
                    },
                    PairType::Multi => {
                        c_multi += 1;
                    },
                }
                pairs.push(pr);
            },
            None => {
                incomplete += 1;
            },
        }
        t += 1;
    }
    proof {
        assert(ids@.subrange(0, t_total as int) =~= ids@);
        lemma_type_partition(pairs@);
    }
    let emitted = pairs.len();
    let stats = ExtractStats {
        total_records: n,
        malformed,
        incomplete,
        normal: c_normal,
        graph_mapped: c_graph,
        unmapped: c_unmapped,
        multi: c_multi,
        emitted,
    };
    (pairs, stats)
}

} // verus!
