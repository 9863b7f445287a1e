//! Coordinate mapping: translates linear `(contig, offset)` coordinates into
//! assembly-graph `(segment, offset)` coordinates through a per-contig sorted
//! interval index. An offset outside every known interval of its contig is a
//! mapping miss, reported as `None`.

use vstd::prelude::*;

verus! {

/// One mapped interval of a contig: linear offsets in `[start, end)` lie on
/// `segment`, at `offset - start` from the segment's start.
#[derive(Clone, Copy, Debug, PartialEq, Eq)]
pub struct SegmentInterval {
    pub start: u64,
    pub end: u64,
    pub segment: u32,
}

/// A coordinate on the assembly graph: a segment and an offset within it.
#[derive(Clone, Copy, Debug, PartialEq, Eq)]
pub struct GraphCoordinate {
    pub segment: u32,
    pub offset: u64,
}

/// The interval index of one contig.
#[derive(Clone, Debug)]
pub struct ContigIntervals {
    pub contig: u32,
    pub intervals: Vec<SegmentInterval>,
}

/// The offset lies inside the interval.
pub open spec fn contains_offset(iv: SegmentInterval, offset: u64) -> bool {
    iv.start <= offset < iv.end
}

/// The intervals of one contig are well formed: each is non-empty in span,
/// and they are sorted by start and pairwise non-overlapping.
pub open spec fn intervals_wf(s: Seq<SegmentInterval>) -> bool {
    &&& forall|i: int| 0 <= i < s.len() ==> (#[trigger] s[i]).start <= s[i].end
    &&& forall|i: int, j: int|
        0 <= i < j < s.len() ==> (#[trigger] s[i]).end <= (#[trigger] s[j]).start
}

/// The first interval of `s` that contains `offset`, scanning left to right.
/// Under [`intervals_wf`] at most one interval can contain an offset, so this
/// is the only one.
pub open spec fn spec_lookup(s: Seq<SegmentInterval>, offset: u64) -> Option<SegmentInterval>
    decreases s.len(),
{
    if s.len() == 0 {
        None
    } else if contains_offset(s[0], offset) {
        Some(s[0])
    } else {
        spec_lookup(s.drop_first(), offset)
    }
}

/// The lookup finds an interval exactly when one contains the offset, and
/// then it finds a containing one.
pub proof fn lemma_spec_lookup(s: Seq<SegmentInterval>, offset: u64)
    ensures
        spec_lookup(s, offset) is Some <==> exists|i: int|
            0 <= i < s.len() && contains_offset(#[trigger] s[i], offset),
        match spec_lookup(s, offset) {
            Some(iv) => exists|i: int| 0 <= i < s.len() && s[i] == iv && contains_offset(iv, offset),
            None => true,
        },
    decreases s.len(),
{
    if s.len() == 0 {
    } else if contains_offset(s[0], offset) {
    } else {
        lemma_spec_lookup(s.drop_first(), offset);
        if spec_lookup(s, offset) is Some {
            let i = choose|i: int|
                0 <= i < s.drop_first().len() && contains_offset(
                    #[trigger] s.drop_first()[i],
                    offset,
                );
            assert(contains_offset(s[i + 1], offset));
            let iv = spec_lookup(s.drop_first(), offset).unwrap();
            let k = choose|k: int|
                0 <= k < s.drop_first().len() && s.drop_first()[k] == iv && contains_offset(
                    iv,
                    offset,
                );
            assert(s[k + 1] == iv);
        } else {
            assert forall|i: int| 0 <= i < s.len() implies !contains_offset(
                #[trigger] s[i],
                offset,
            ) by {
                if i > 0 {
                    assert(s.drop_first()[i - 1] == s[i]);
                }
            }
        }
    }
}

/// Well-formed intervals contain an offset in at most one place.
pub proof fn lemma_lookup_unique(s: Seq<SegmentInterval>, offset: u64, i: int, j: int)
    requires
        intervals_wf(s),
        0 <= i < s.len(),
        0 <= j < s.len(),
        contains_offset(s[i], offset),
        contains_offset(s[j], offset),
    ensures
        i == j,
{
    if i < j {
        assert(s[i].end <= s[j].start);
    }
    if j < i {
        assert(s[j].end <= s[i].start);
    }
}

/// Binary search over one contig's sorted interval index.
fn find_interval(ivs: &Vec<SegmentInterval>, offset: u64) -> (r: Option<SegmentInterval>)
    requires
        intervals_wf(ivs@),
    ensures
        r == spec_lookup(ivs@, offset),
{
    let mut lo: usize = 0;
    let mut hi: usize = ivs.len();
    while lo < hi
        invariant
            0 <= lo <= hi <= ivs@.len(),
            intervals_wf(ivs@),
            forall|k: int| 0 <= k < lo ==> (#[trigger] ivs@[k]).end <= offset,
            forall|k: int| hi <= k < ivs@.len() ==> offset < (#[trigger] ivs@[k]).start,
        decreases hi - lo,
    {
        let mid = lo + (hi - lo) / 2;
        let iv = ivs[mid];
        if offset < iv.start {
            proof {
                assert forall|k: int| mid <= k < ivs@.len() implies offset < (
                #[trigger] ivs@[k]).start by {
                    if k > mid {
                        assert(ivs@[mid as int].end <= ivs@[k].start);
                    }
                }
            }
            hi = mid;
        } else if offset >= iv.end {
            proof {
                assert forall|k: int| 0 <= k <= mid implies (#[trigger] ivs@[k]).end <= offset by {
                    if k < mid {
                        assert(ivs@[k].end <= ivs@[mid as int].start);
                    }
                }
            }
            lo = mid + 1;
        } else {
            proof {
                lemma_spec_lookup(ivs@, offset);
                assert(contains_offset(ivs@[mid as int], offset));
                let r = spec_lookup(ivs@, offset);
                let k = choose|k: int|
                    0 <= k < ivs@.len() && ivs@[k] == r.unwrap() && contains_offset(
                        r.unwrap(),
                        offset,
                    );
                lemma_lookup_unique(ivs@, offset, k, mid as int);
            }
            return Some(iv);
        }
    }
    proof {
        lemma_spec_lookup(ivs@, offset);
        if spec_lookup(ivs@, offset) is Some {
            let i = choose|i: int|
                0 <= i < ivs@.len() && contains_offset(#[trigger] ivs@[i], offset);
            assert(!contains_offset(ivs@[i], offset));
        }
    }
    None
}

/// The per-contig sorted interval index built once from a graph definition.
#[derive(Clone, Debug)]
pub struct GraphIndex {
    pub contigs: Vec<ContigIntervals>,
}

/// The first index entry for a contig, scanning left to right. Under
/// [`GraphIndex::wf`] contigs are unique, so this is the only one.
pub open spec fn spec_find_contig(s: Seq<ContigIntervals>, contig: u32) -> Option<ContigIntervals>
    decreases s.len(),
{
    if s.len() == 0 {
        None
    } else if s[0].contig == contig {
        Some(s[0])
    } else {
        spec_find_contig(s.drop_first(), contig)
    }
}

impl GraphIndex {
    /// Every contig appears once, and each contig's intervals are sorted and
    /// non-overlapping.
    pub open spec fn wf(&self) -> bool {
        &&& forall|i: int|
            0 <= i < self.contigs@.len() ==> intervals_wf((#[trigger] self.contigs@[i]).intervals@)
        &&& forall|i: int, j: int|
            0 <= i < j < self.contigs@.len() ==> (#[trigger] self.contigs@[i]).contig != (
            #[trigger] self.contigs@[j]).contig
    }

    /// What a mapping returns: the graph coordinate of `(contig, offset)`, or
    /// `None` when the contig is unknown or the offset lies outside all of
    /// its intervals.
    pub open spec fn spec_map(&self, contig: u32, offset: u64) -> Option<GraphCoordinate> {
        match spec_find_contig(self.contigs@, contig) {
            None => None,
            Some(ci) => match spec_lookup(ci.intervals@, offset) {
                None => None,
                Some(iv) => Some(
                    GraphCoordinate { segment: iv.segment, offset: (offset - iv.start) as u64 },
                ),
            },
        }
    }

    /// Builds the index after validating it: the entries must be pairwise
    /// distinct contigs with sorted, non-overlapping intervals, else the
    /// graph definition is malformed and nothing is built.
    pub fn new(contigs: Vec<ContigIntervals>) -> (r: Option<GraphIndex>)
        ensures
            match r {
                Some(g) => g.contigs@ == contigs@ && g.wf(),
                None => !(GraphIndex { contigs }).wf(),
            },
    {
        let n = contigs.len();
        let mut i: usize = 0;
        while i < n
            invariant
                i <= n,
                n == contigs@.len(),
                forall|a: int| 0 <= a < i ==> intervals_wf((#[trigger] contigs@[a]).intervals@),
                forall|a: int, b: int|
                    0 <= a < b < contigs@.len() && a < i ==> (#[trigger] contigs@[a]).contig != (
                    #[trigger] contigs@[b]).contig,
            decreases n - i,
        {
            let entry = &contigs[i];
            let m = entry.intervals.len();
            let mut k: usize = 0;
            while k < m
                invariant
                    k <= m,
                    i < n,
                    n == contigs@.len(),
                    m == entry.intervals@.len(),
                    entry == contigs@[i as int],
                    forall|a: int|
                        0 <= a < k ==> (#[trigger] entry.intervals@[a]).start
                            <= entry.intervals@[a].end,
                    forall|a: int|
                        0 < a < k ==> (#[trigger] entry.intervals@[a - 1]).end
                            <= entry.intervals@[a].start,
                decreases m - k,
            {
                let iv = entry.intervals[k];
                if iv.start > iv.end {
                    proof {
                        let g = GraphIndex { contigs: contigs };
                        let e = g.contigs@[i as int].intervals@[k as int];
                        assert(e.start > e.end);
                        assert(!intervals_wf(g.contigs@[i as int].intervals@));
                        assert(!g.wf());
                    }
                    return None;
                }
                if k > 0 {
                    if entry.intervals[k - 1].end > iv.start {
                        proof {
                            let g = GraphIndex { contigs: contigs };
                            let e1 = g.contigs@[i as int].intervals@[k - 1];
                            let e2 = g.contigs@[i as int].intervals@[k as int];
                            assert(e1.end > e2.start);
                            assert(!intervals_wf(g.contigs@[i as int].intervals@));
                            assert(!g.wf());
                        }
                        return None;
                    }
                }
                k += 1;
            }
            proof {
                assert forall|a: int, b: int|
                    0 <= a < b < entry.intervals@.len() implies (
                #[trigger] entry.intervals@[a]).end <= (#[trigger] entry.intervals@[b]).start by {
                    lemma_adjacent_chain(entry.intervals@, a, b);
                }
            }
            let mut j: usize = i + 1;
            while j < n
                invariant
                    i < j <= n,
                    n == contigs@.len(),
                    entry == contigs@[i as int],
                    forall|b: int|
                        i < b < j ==> contigs@[i as int].contig != (#[trigger] contigs@[b]).contig,
                decreases n - j,
            {
                if contigs[j].contig == entry.contig {
                    proof {
                        let g = GraphIndex { contigs: contigs };
                        assert(g.contigs@[i as int].contig == g.contigs@[j as int].contig);
                        assert(!g.wf());
                    }
                    return None;
                }
                j += 1;
            }
            i += 1;
        }
        Some(GraphIndex { contigs })
    }

    /// Maps a linear coordinate through the index: the containing interval is
    /// found by binary search and the offset is rebased onto its segment.
    /// Mapping is a function of the index and the coordinate alone, and it
    /// fails exactly when no interval of the contig contains the offset.
    pub fn map_coordinate(&self, contig: u32, offset: u64) -> (r: Option<GraphCoordinate>)
        requires
            self.wf(),
        ensures
            r == self.spec_map(contig, offset),
            r is Some <==> exists|i: int, j: int|
                0 <= i < self.contigs@.len() && (#[trigger] self.contigs@[i]).contig == contig && 0
                    <= j < self.contigs@[i].intervals@.len() && contains_offset(
                    #[trigger] self.contigs@[i].intervals@[j],
                    offset,
                ),
    {
        let n = self.contigs.len();
        let mut i: usize = 0;
        proof {
            assert(self.contigs@.subrange(0, n as int) =~= self.contigs@);
        }
        while i < n
            invariant
                i <= n,
                n == self.contigs@.len(),
                self.wf(),
                spec_find_contig(self.contigs@, contig) == spec_find_contig(
                    self.contigs@.subrange(i as int, n as int),
                    contig,
                ),
                forall|a: int| 0 <= a < i ==> (#[trigger] self.contigs@[a]).contig != contig,
            decreases n - i,
        {
            proof {
                assert(self.contigs@.subrange(i as int, n as int)[0] == self.contigs@[i as int]);
                assert(self.contigs@.subrange(i as int, n as int).drop_first()
                    =~= self.contigs@.subrange(i + 1, n as int));
            }
            let entry = &self.contigs[i];
            if entry.contig == contig {
                proof {
                    assert(spec_find_contig(self.contigs@, contig) == Some(
                        self.contigs@[i as int],
                    ));
                }
                let r = find_interval(&entry.intervals, offset);
                proof {
                    lemma_spec_lookup(entry.intervals@, offset);
                    if r is Some {
                        lemma_found_witness(self.contigs@, i as int, contig);
                        let j = choose|j: int|
                            0 <= j < entry.intervals@.len() && contains_offset(
                                #[trigger] entry.intervals@[j],
                                offset,
                            );
                        assert(contains_offset(self.contigs@[i as int].intervals@[j], offset));
                    } else {
                        lemma_no_witness(self.contigs@, i as int, contig, offset);
                    }
                }
                match r {
                    Some(iv) => {
                        return Some(
                            GraphCoordinate { segment: iv.segment, offset: offset - iv.start },
                        );
                    },
                    None => {
                        return None;
                    },
                }
            }
            i += 1;
        }
        proof {
            assert(self.contigs@.subrange(n as int, n as int) =~= Seq::<ContigIntervals>::empty());
            if exists|a: int, j: int|
                0 <= a < self.contigs@.len() && (#[trigger] self.contigs@[a]).contig == contig && 0
                    <= j < self.contigs@[a].intervals@.len() && contains_offset(
                    #[trigger] self.contigs@[a].intervals@[j],
                    offset,
                ) {
                let a = choose|a: int, j: int|
                    0 <= a < self.contigs@.len() && (#[trigger] self.contigs@[a]).contig == contig
                        && 0 <= j < self.contigs@[a].intervals@.len() && contains_offset(
                        #[trigger] self.contigs@[a].intervals@[j],
                        offset,
                    );
            }
        }
        None
    }
}

/// In a well-formed interval run, adjacency of bounds extends to any two
/// positions.
proof fn lemma_adjacent_chain(s: Seq<SegmentInterval>, a: int, b: int)
    requires
        forall|k: int| 0 <= k < s.len() ==> (#[trigger] s[k]).start <= s[k].end,
        forall|k: int| 0 < k < s.len() ==> (#[trigger] s[k - 1]).end <= s[k].start,
        0 <= a < b < s.len(),
    ensures
        s[a].end <= s[b].start,
    decreases b - a,
{
    if a + 1 == b {
        assert(s[b - 1].end <= s[b].start);
    } else {
        lemma_adjacent_chain(s, a, b - 1);
        assert(s[b - 1].end <= s[b].start);
        assert(s[b - 1].start <= s[b - 1].end);
    }
}

/// A contig entry that the scan finds is the one the recursive search names.
proof fn lemma_find_contig_some(s: Seq<ContigIntervals>, a: int, contig: u32)
    requires
        0 <= a < s.len(),
        s[a].contig == contig,
    ensures
        spec_find_contig(s, contig) is Some,
    decreases s.len(),
{
    if s[0].contig == contig {
    } else {
        assert(a > 0);
        assert(s.drop_first()[a - 1] == s[a]);
        lemma_find_contig_some(s.drop_first(), a - 1, contig);
    }
}

/// A mapping hit yields a witness pair of indices.
proof fn lemma_found_witness(s: Seq<ContigIntervals>, i: int, contig: u32)
    requires
        0 <= i < s.len(),
        s[i].contig == contig,
    ensures
        exists|a: int| 0 <= a < s.len() && (#[trigger] s[a]).contig == contig,
{
}

/// When the contig's entry holds no containing interval, no witness exists,
/// because the contig appears only once.
proof fn lemma_no_witness(s: Seq<ContigIntervals>, i: int, contig: u32, offset: u64)
    requires
        0 <= i < s.len(),
        s[i].contig == contig,
        forall|a: int, b: int|
            0 <= a < b < s.len() ==> (#[trigger] s[a]).contig != (#[trigger] s[b]).contig,
        forall|j: int|
            0 <= j < s[i].intervals@.len() ==> !contains_offset(
                #[trigger] s[i].intervals@[j],
                offset,
            ),
    ensures
        !(exists|a: int, j: int|
            0 <= a < s.len() && (#[trigger] s[a]).contig == contig && 0 <= j
                < s[a].intervals@.len() && contains_offset(#[trigger] s[a].intervals@[j], offset)),
{
    assert forall|a: int, j: int|
        0 <= a < s.len() && (#[trigger] s[a]).contig == contig && 0 <= j
            < s[a].intervals@.len() implies !contains_offset(
        #[trigger] s[a].intervals@[j],
        offset,
    ) by {
        if a < i {
            assert(s[a].contig != s[i].contig);
        }
        if a > i {
            assert(s[i].contig != s[a].contig);
        }
    }
}

} // verus!
