//! The canonical pair record: one observed genomic contact, with the two
//! ends stored in a fixed order so that deduplication and sorting do not
//! depend on the orientation in which the contact was read.

use vstd::prelude::*;

verus! {

/// Which strand of the reference a mate aligned to.
#[derive(Clone, Copy, Debug, PartialEq, Eq)]
pub enum Strand {
    Forward,
    Reverse,
}

/// Classification of a contact pair, assigned by the extractor.
#[derive(Clone, Copy, Debug, PartialEq, Eq)]
pub enum PairType {
    /// At least one mate had no usable genomic position.
    Unmapped,
    /// At least one mate had only secondary alignments, no primary one.
    Multi,
    /// Both mates resolved to linear contig positions.
    Normal,
    /// Both mates resolved and were translated into graph coordinates.
    GraphMapped,
}

/// One genomic contact observation. Chromosomes and segments are carried as
/// numeric identifiers; the surrounding program owns the name table.
#[derive(Clone, Copy, Debug, PartialEq, Eq)]
pub struct PairRecord {
    pub read_id: u64,
    pub chrom1: u32,
    pub pos1: u64,
    pub strand1: Strand,
    pub chrom2: u32,
    pub pos2: u64,
    pub strand2: Strand,
    pub pair_type: PairType,
    /// Mapping qualities of the two mates, in the stored end order; absent
    /// when a mate had no primary mapped alignment.
    pub mapq: Option<(u8, u8)>,
}

/// The two ends are in canonical order: the lower chromosome first, and the
/// lower position first on the same chromosome.
pub open spec fn canonical(p: PairRecord) -> bool {
    p.chrom1 < p.chrom2 || (p.chrom1 == p.chrom2 && p.pos1 <= p.pos2)
}

/// The same contact with the two ends exchanged.
pub open spec fn spec_swapped(p: PairRecord) -> PairRecord {
    PairRecord {
        read_id: p.read_id,
        chrom1: p.chrom2,
        pos1: p.pos2,
        strand1: p.strand2,
        chrom2: p.chrom1,
        pos2: p.pos1,
        strand2: p.strand1,
        pair_type: p.pair_type,
        mapq: match p.mapq {
            Some(q) => Some((q.1, q.0)),
            None => None,
        },
    }
}

/// The canonical form of a record: unchanged when already canonical,
/// otherwise with its ends exchanged.
pub open spec fn spec_canonicalize(p: PairRecord) -> PairRecord {
    if canonical(p) {
        p
    } else {
        spec_swapped(p)
    }
}

/// Puts the two ends of a record into canonical order.
pub fn canonicalize(p: PairRecord) -> (r: PairRecord)
    ensures
        r == spec_canonicalize(p),
        canonical(r),
        r == p || r == spec_swapped(p),
{
    let in_order = p.chrom1 < p.chrom2 || (p.chrom1 == p.chrom2 && p.pos1 <= p.pos2);
    if in_order {
        p
    } else {
        PairRecord {
            read_id: p.read_id,
            chrom1: p.chrom2,
            pos1: p.pos2,
            strand1: p.strand2,
            chrom2: p.chrom1,
            pos2: p.pos1,
            strand2: p.strand1,
            pair_type: p.pair_type,
            mapq: match p.mapq {
                Some(q) => Some((q.1, q.0)),
                None => None,
            },
        }
    }
}

/// Two records carry the same duplicate fingerprint: the canonical position
/// and strand fields agree exactly. Read identity, tag and mapping quality
/// play no part.
pub open spec fn same_fingerprint(a: PairRecord, b: PairRecord) -> bool {
    &&& a.chrom1 == b.chrom1
    &&& a.pos1 == b.pos1
    &&& a.strand1 == b.strand1
    &&& a.chrom2 == b.chrom2
    &&& a.pos2 == b.pos2
    &&& a.strand2 == b.strand2
}

fn strand_eq(a: Strand, b: Strand) -> (r: bool)
    ensures
        r == (a == b),
{
    match (a, b) {
        (Strand::Forward, Strand::Forward) => true,
        (Strand::Reverse, Strand::Reverse) => true,
        _ => false,
    }
}

/// Exact-match duplicate test over the canonical fields.
pub fn fingerprints_match(a: &PairRecord, b: &PairRecord) -> (r: bool)
    ensures
        r == same_fingerprint(*a, *b),
{
    a.chrom1 == b.chrom1 && a.pos1 == b.pos1 && strand_eq(a.strand1, b.strand1)
        && a.chrom2 == b.chrom2 && a.pos2 == b.pos2 && strand_eq(a.strand2, b.strand2)
}

/// Sort key order: `(chrom1, pos1, chrom2, pos2)`, ascending lexicographic.
pub open spec fn key_le(a: PairRecord, b: PairRecord) -> bool {
    if a.chrom1 != b.chrom1 {
        a.chrom1 < b.chrom1
    } else if a.pos1 != b.pos1 {
        a.pos1 < b.pos1
    } else if a.chrom2 != b.chrom2 {
        a.chrom2 < b.chrom2
    } else {
        a.pos2 <= b.pos2
    }
}

/// Both directions of [`key_le`]: the two records share one sort key.
pub open spec fn key_eq(a: PairRecord, b: PairRecord) -> bool {
    a.chrom1 == b.chrom1 && a.pos1 == b.pos1 && a.chrom2 == b.chrom2 && a.pos2 == b.pos2
}

/// Comparison on the sort key alone.
pub fn key_le_exec(a: &PairRecord, b: &PairRecord) -> (r: bool)
    ensures
        r == key_le(*a, *b),
{
    if a.chrom1 != b.chrom1 {
        a.chrom1 < b.chrom1
    } else if a.pos1 != b.pos1 {
        a.pos1 < b.pos1
    } else if a.chrom2 != b.chrom2 {
        a.chrom2 < b.chrom2
    } else {
        a.pos2 <= b.pos2
    }
}

/// Every adjacent pair of records is non-decreasing under the sort key.
pub open spec fn pairs_sorted(s: Seq<PairRecord>) -> bool {
    forall|i: int, j: int| 0 <= i < j < s.len() ==> #[trigger] key_le(s[i], s[j])
}

/// How many records of the stream carry the given tag.
pub open spec fn count_type(s: Seq<PairRecord>, t: PairType) -> nat
    decreases s.len(),
{
    if s.len() == 0 {
        0
    } else {
        count_type(s.drop_last(), t) + if s.last().pair_type == t {
            1nat
        } else {
            0nat
        }
    }
}

/// Conservation: every record carries exactly one of the four tags, so the
/// four counts partition the stream.
pub proof fn lemma_type_partition(s: Seq<PairRecord>)
    ensures
        count_type(s, PairType::Normal) + count_type(s, PairType::GraphMapped) + count_type(
            s,
            PairType::Unmapped,
        ) + count_type(s, PairType::Multi) == s.len(),
    decreases s.len(),
{
    if s.len() > 0 {
        lemma_type_partition(s.drop_last());
    }
}

} // verus!
