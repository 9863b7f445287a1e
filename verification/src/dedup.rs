//! Pair deduplication: the first occurrence of a fingerprint is kept, every
//! later record with an identical fingerprint is a duplicate and dropped.

use vstd::prelude::*;
use crate::pair::{PairRecord, same_fingerprint, fingerprints_match};

verus! {

/// Some record of `s` carries the same fingerprint as `r`.
pub open spec fn has_fingerprint(s: Seq<PairRecord>, r: PairRecord) -> bool {
    exists|i: int| 0 <= i < s.len() && same_fingerprint(#[trigger] s[i], r)
}

/// The deduplicated stream: a record stays exactly when no earlier record of
/// the input carries its fingerprint.
pub open spec fn spec_dedup(s: Seq<PairRecord>) -> Seq<PairRecord>
    decreases s.len(),
{
    if s.len() == 0 {
        Seq::<PairRecord>::empty()
    } else if has_fingerprint(s.drop_last(), s.last()) {
        spec_dedup(s.drop_last())
    } else {
        spec_dedup(s.drop_last()).push(s.last())
    }
}

/// No two records of `s` share a fingerprint.
pub open spec fn fingerprints_distinct(s: Seq<PairRecord>) -> bool {
    forall|i: int, j: int|
        0 <= i < j < s.len() ==> !same_fingerprint(#[trigger] s[i], #[trigger] s[j])
}

/// Deduplication keeps a fingerprint exactly when the input held it.
pub proof fn lemma_dedup_same_fingerprints(s: Seq<PairRecord>, r: PairRecord)
    ensures
        has_fingerprint(spec_dedup(s), r) == has_fingerprint(s, r),
    decreases s.len(),
{
    if s.len() == 0 {
    } else {
        lemma_dedup_same_fingerprints(s.drop_last(), r);
        if has_fingerprint(s.drop_last(), s.last()) {
            if has_fingerprint(s, r) && !has_fingerprint(s.drop_last(), r) {
                let i = choose|i: int| 0 <= i < s.len() && same_fingerprint(s[i], r);
                if i < s.len() - 1 {
                    assert(same_fingerprint(s.drop_last()[i], r));
                }
                assert(i == s.len() - 1);
                let j = choose|j: int|
                    0 <= j < s.drop_last().len() && same_fingerprint(s.drop_last()[j], s.last());
                assert(same_fingerprint(s.drop_last()[j], r));
            }
        } else {
            let d = spec_dedup(s.drop_last()).push(s.last());
            if has_fingerprint(s, r) {
                let i = choose|i: int| 0 <= i < s.len() && same_fingerprint(s[i], r);
                if i < s.len() - 1 {
                    assert(same_fingerprint(s.drop_last()[i], r));
                    let k = choose|k: int|
                        0 <= k < spec_dedup(s.drop_last()).len()
                            && same_fingerprint(spec_dedup(s.drop_last())[k], r);
                    assert(same_fingerprint(d[k], r));
                } else {
                    assert(same_fingerprint(d[d.len() - 1], r));
                }
            }
            if has_fingerprint(d, r) {
                let k = choose|k: int| 0 <= k < d.len() && same_fingerprint(d[k], r);
                if k < d.len() - 1 {
                    assert(same_fingerprint(spec_dedup(s.drop_last())[k], r));
                } else {
                    assert(same_fingerprint(s[s.len() - 1], r));
                }
            }
        }
    }
}

/// The deduplicated stream holds no two records with one fingerprint.
pub proof fn lemma_dedup_distinct(s: Seq<PairRecord>)
    ensures
        fingerprints_distinct(spec_dedup(s)),
    decreases s.len(),
{
    if s.len() == 0 {
    } else {
        lemma_dedup_distinct(s.drop_last());
        if !has_fingerprint(s.drop_last(), s.last()) {
            lemma_dedup_same_fingerprints(s.drop_last(), s.last());
            let d = spec_dedup(s.drop_last()).push(s.last());
            assert forall|i: int, j: int| 0 <= i < j < d.len() implies !same_fingerprint(
                #[trigger] d[i],
                #[trigger] d[j],
            ) by {
                if j == d.len() - 1 {
                    assert(!has_fingerprint(spec_dedup(s.drop_last()), s.last()));
                    assert(d[i] == spec_dedup(s.drop_last())[i]);
                    if same_fingerprint(d[i], d[j]) {
                        assert(same_fingerprint(spec_dedup(s.drop_last())[i], s.last()));
                    }
                }
            }
        }
    }
}

/// A stream without repeated fingerprints passes through unchanged.
pub proof fn lemma_dedup_noop(s: Seq<PairRecord>)
    requires
        fingerprints_distinct(s),
    ensures
        spec_dedup(s) == s,
    decreases s.len(),
{
    if s.len() == 0 {
        assert(spec_dedup(s) =~= s);
    } else {
        assert(fingerprints_distinct(s.drop_last()));
        lemma_dedup_noop(s.drop_last());
        if has_fingerprint(s.drop_last(), s.last()) {
            let i = choose|i: int|
                0 <= i < s.drop_last().len() && same_fingerprint(s.drop_last()[i], s.last());
            assert(same_fingerprint(s[i], s[s.len() - 1]));
            assert(false);
        }
        assert(spec_dedup(s) =~= s);
    }
}

/// Deduplication is idempotent: a second pass over its own output removes
/// nothing.
pub proof fn lemma_dedup_idempotent(s: Seq<PairRecord>)
    ensures
        spec_dedup(spec_dedup(s)) == spec_dedup(s),
{
    lemma_dedup_distinct(s);
    lemma_dedup_noop(spec_dedup(s));
}

/// Removes duplicate contacts from a pair stream. The first record of each
/// fingerprint is kept in encounter order; the count of dropped records is
/// returned beside the surviving stream, so that kept plus removed equals the
/// number of records consumed.
pub fn deduplicate_pairs(input: &Vec<PairRecord>) -> (r: (Vec<PairRecord>, usize))
    ensures
        r.0@ == spec_dedup(input@),
        r.1 + r.0@.len() == input@.len(),
        fingerprints_distinct(r.0@),
{
    let mut out: Vec<PairRecord> = Vec::new();
    let mut removed: usize = 0;
    let mut idx: usize = 0;
    while idx < input.len()
        invariant
            idx <= input@.len(),
            out@ == spec_dedup(input@.subrange(0, idx as int)),
            removed + out@.len() == idx,
        decreases input@.len() - idx,
    {
        let rec = input[idx];
        let mut seen = false;
        let mut k: usize = 0;
        while k < out.len()
            invariant
                k <= out@.len(),
                seen == exists|i: int| 0 <= i < k && same_fingerprint(#[trigger] out@[i], rec),
            decreases out@.len() - k,
        {
            if fingerprints_match(&out[k], &rec) {
                seen = true;
            }
            k += 1;
        }
        proof {
            let prefix = input@.subrange(0, idx as int);
            lemma_dedup_same_fingerprints(prefix, rec);
            assert(seen == has_fingerprint(prefix, rec));
            assert(input@.subrange(0, idx + 1).drop_last() =~= prefix);
            assert(input@.subrange(0, idx + 1).last() == rec);
        }
        if seen {
            removed += 1;
        } else {
            out.push(rec);
        }
        idx += 1;
    }
    proof {
        assert(input@.subrange(0, input@.len() as int) =~= input@);
        lemma_dedup_distinct(input@);
    }
    (out, removed)
}

/// Equal fingerprints sit in one contiguous run, as after a sort that
/// groups them.
pub open spec fn fingerprints_grouped(s: Seq<PairRecord>) -> bool {
    forall|i: int, j: int, k: int|
        0 <= i < j < k < s.len() && same_fingerprint(#[trigger] s[i], #[trigger] s[k])
            ==> same_fingerprint(s[i], #[trigger] s[j])
}

/// Removes duplicates from a stream whose equal fingerprints are adjacent,
/// comparing each record only to its immediate predecessor: constant memory
/// beyond the stream. On such input this is exactly the first-kept
/// deduplication of [`deduplicate_pairs`].
pub fn deduplicate_grouped_pairs(input: &Vec<PairRecord>) -> (r: (Vec<PairRecord>, usize))
    requires
        fingerprints_grouped(input@),
    ensures
        r.0@ == spec_dedup(input@),
        r.1 + r.0@.len() == input@.len(),
        fingerprints_distinct(r.0@),
{
    let n = input.len();
    let mut out: Vec<PairRecord> = Vec::new();
    let mut removed: usize = 0;
    let mut idx: usize = 0;
    while idx < n
        invariant
            idx <= n,
            n == input@.len(),
            fingerprints_grouped(input@),
            out@ == spec_dedup(input@.subrange(0, idx as int)),
            removed + out@.len() == idx,
        decreases n - idx,
    {
        let rec = input[idx];
        let dup = if idx > 0 {
            fingerprints_match(&input[idx - 1], &rec)
        } else {
            false
        };
        proof {
            let prefix = input@.subrange(0, idx as int);
            assert(input@.subrange(0, idx + 1).drop_last() =~= prefix);
            assert(input@.subrange(0, idx + 1).last() == rec);
            if dup {
                assert(same_fingerprint(prefix[idx - 1], rec));
            } else if has_fingerprint(prefix, rec) {
                let j = choose|j: int| 0 <= j < prefix.len() && same_fingerprint(prefix[j], rec);
                assert(same_fingerprint(input@[j], input@[idx as int]));
                if j < idx - 1 {
                    assert(same_fingerprint(input@[j], input@[idx - 1]));
                }
                assert(same_fingerprint(input@[idx - 1], input@[idx as int]));
                assert(false);
            }
            assert(dup == has_fingerprint(prefix, rec));
        }
        if dup {
            removed += 1;
        } else {
            out.push(rec);
        }
        idx += 1;
    }
    proof {
        assert(input@.subrange(0, n as int) =~= input@);
        lemma_dedup_distinct(input@);
    }
    (out, removed)
}

} // verus!
