//! External sorting of pair records: the input is split into bounded chunks,
//! one chunk per worker, each chunk is sorted on its own, and the sorted
//! chunks are merged into one globally ordered stream.
//!
//! Each record is tagged with its position in the input before sorting and
//! ties on the sort key are broken by that position, so the sort is stable
//! and its result is a function of the input alone: the worker count changes
//! how the work is divided, never the output.

use vstd::prelude::*;
use vstd::relations::sorted_by;
use vstd::seq_lib::group_to_multiset_ensures;
use vstd::seq_lib::lemma_multiset_commutative;
use vstd::multiset::Multiset;
use crate::pair::{PairRecord, key_le, key_eq, key_le_exec, pairs_sorted};

verus! {

/// A pair record together with its position in the input stream, used to
/// break ties between equal sort keys.
#[derive(Clone, Copy)]
pub struct Tagged {
    pub rec: PairRecord,
    pub seq_no: usize,
}

/// Order on tagged records: the sort key of the records, with ties broken by
/// input position.
pub open spec fn tag_le(a: Tagged, b: Tagged) -> bool {
    if key_eq(a.rec, b.rec) {
        a.seq_no <= b.seq_no
    } else {
        key_le(a.rec, b.rec)
    }
}

/// The tagged order as a relation, for [`sorted_by`].
pub open spec fn tag_leq() -> spec_fn(Tagged, Tagged) -> bool {
    |a: Tagged, b: Tagged| tag_le(a, b)
}

/// No two elements carry the same input position.
pub open spec fn tags_distinct(s: Seq<Tagged>) -> bool {
    forall|i: int, j: int|
        0 <= i < j < s.len() ==> (#[trigger] s[i]).seq_no != (#[trigger] s[j]).seq_no
}

/// A position determines its element within the multiset `m`.
pub open spec fn tags_injective(m: Multiset<Tagged>) -> bool {
    forall|a: Tagged, b: Tagged|
        #[trigger] m.contains(a) && #[trigger] m.contains(b) && a.seq_no == b.seq_no ==> a == b
}

/// The input stream with each record tagged by its index.
pub open spec fn spec_tag(s: Seq<PairRecord>) -> Seq<Tagged> {
    Seq::new(s.len(), |i: int| Tagged { rec: s[i], seq_no: i as usize })
}

/// The records of a tagged stream, tags dropped.
pub open spec fn spec_untag(s: Seq<Tagged>) -> Seq<PairRecord> {
    s.map_values(|t: Tagged| t.rec)
}

/// Insertion of one tagged record into a sorted stream, after every element
/// that the order puts no later than it.
pub open spec fn spec_insert_tagged(s: Seq<Tagged>, x: Tagged) -> Seq<Tagged>
    decreases s.len(),
{
    if s.len() == 0 {
        Seq::<Tagged>::empty().push(x)
    } else if tag_le(s.last(), x) {
        s.push(x)
    } else {
        spec_insert_tagged(s.drop_last(), x).push(s.last())
    }
}

/// The sorted arrangement of a tagged stream.
pub open spec fn spec_sort_tagged(s: Seq<Tagged>) -> Seq<Tagged>
    decreases s.len(),
{
    if s.len() == 0 {
        Seq::<Tagged>::empty()
    } else {
        spec_insert_tagged(spec_sort_tagged(s.drop_last()), s.last())
    }
}

/// What the sorter returns: the input, tagged with positions, arranged by
/// the tagged order, tags dropped. A function of the input alone.
pub open spec fn spec_sort_pairs(s: Seq<PairRecord>) -> Seq<PairRecord> {
    spec_untag(spec_sort_tagged(spec_tag(s)))
}

/// The tagged order is reflexive, transitive and strongly connected.
pub proof fn lemma_tag_order()
    ensures
        forall|a: Tagged| #[trigger] tag_le(a, a),
        forall|a: Tagged, b: Tagged, c: Tagged|
            #[trigger] tag_le(a, b) && #[trigger] tag_le(b, c) ==> tag_le(a, c),
        forall|a: Tagged, b: Tagged| #[trigger] tag_le(a, b) || #[trigger] tag_le(b, a),
        forall|a: Tagged, b: Tagged|
            #[trigger] tag_le(a, b) && #[trigger] tag_le(b, a) ==> key_eq(a.rec, b.rec)
                && a.seq_no == b.seq_no,
{
}

/// Inserting into a sorted stream keeps it sorted and adds exactly the new
/// element to its contents.
pub proof fn lemma_insert_tagged(s: Seq<Tagged>, x: Tagged)
    requires
        sorted_by(s, tag_leq()),
    ensures
        sorted_by(spec_insert_tagged(s, x), tag_leq()),
        spec_insert_tagged(s, x).to_multiset() == s.to_multiset().insert(x),
        spec_insert_tagged(s, x).len() == s.len() + 1,
        forall|e: Tagged|
            #[trigger] spec_insert_tagged(s, x).contains(e) ==> s.contains(e) || e == x,
    decreases s.len(),
{
    broadcast use group_to_multiset_ensures;

    lemma_tag_order();
    if s.len() == 0 {
        assert(Seq::<Tagged>::empty().to_multiset() =~= Multiset::<Tagged>::empty());
        assert(spec_insert_tagged(s, x) =~= Seq::<Tagged>::empty().push(x));
    } else if tag_le(s.last(), x) {
        assert forall|i: int, j: int| 0 <= i < j < s.push(x).len() implies #[trigger] tag_leq()(
            s.push(x)[i],
            s.push(x)[j],
        ) by {
            if j == s.len() {
                if i < s.len() - 1 {
                    assert(tag_leq()(s[i], s[s.len() - 1]));
                }
            }
        }
    } else {
        let t = s.drop_last();
        assert(sorted_by(t, tag_leq()));
        lemma_insert_tagged(t, x);
        let r = spec_insert_tagged(t, x).push(s.last());
        assert forall|i: int, j: int| 0 <= i < j < r.len() implies #[trigger] tag_leq()(
            r[i],
            r[j],
        ) by {
            if j == r.len() - 1 {
                let e = spec_insert_tagged(t, x)[i];
                assert(spec_insert_tagged(t, x).contains(e));
                if t.contains(e) {
                    let k = choose|k: int| 0 <= k < t.len() && t[k] == e;
                    assert(tag_leq()(s[k], s[s.len() - 1]));
                } else {
                    assert(e == x);
                    assert(tag_le(x, s.last()));
                }
            }
        }
        assert(s.to_multiset() =~= t.to_multiset().insert(s.last())) by {
            assert(s == t.push(s.last()));
        }
        assert(r.to_multiset() =~= s.to_multiset().insert(x)) by {
            assert(r.to_multiset() =~= spec_insert_tagged(t, x).to_multiset().insert(s.last()));
            assert(spec_insert_tagged(t, x).to_multiset() == t.to_multiset().insert(x));
            assert(t.to_multiset().insert(x).insert(s.last()) =~= t.to_multiset().insert(
                s.last(),
            ).insert(x));
        }
        assert forall|e: Tagged| #[trigger] r.contains(e) implies s.contains(e) || e == x by {
            let k = choose|k: int| 0 <= k < r.len() && r[k] == e;
            if k < r.len() - 1 {
                assert(spec_insert_tagged(t, x).contains(e));
                if t.contains(e) {
                    let m = choose|m: int| 0 <= m < t.len() && t[m] == e;
                    assert(s[m] == e);
                }
            } else {
                assert(s[s.len() - 1] == e);
            }
        }
    }
}

/// The sorted arrangement is sorted and holds exactly the input's records.
pub proof fn lemma_spec_sort_tagged(s: Seq<Tagged>)
    ensures
        sorted_by(spec_sort_tagged(s), tag_leq()),
        spec_sort_tagged(s).to_multiset() == s.to_multiset(),
        spec_sort_tagged(s).len() == s.len(),
    decreases s.len(),
{
    broadcast use group_to_multiset_ensures;

    if s.len() == 0 {
        assert(spec_sort_tagged(s).to_multiset() =~= s.to_multiset());
    } else {
        let t = s.drop_last();
        lemma_spec_sort_tagged(t);
        lemma_insert_tagged(spec_sort_tagged(t), s.last());
        assert(s == t.push(s.last()));
        assert(s.to_multiset() =~= t.to_multiset().insert(s.last()));
    }
}

/// Determinism of the stable sort: two streams that are both sorted by the
/// tagged order and hold the same records can only be the same stream, since
/// input positions are unique. This is why the sorted output does not depend
/// on the worker count, only on the input.
pub proof fn lemma_sorted_tagged_unique(x: Seq<Tagged>, y: Seq<Tagged>)
    requires
        sorted_by(x, tag_leq()),
        sorted_by(y, tag_leq()),
        x.to_multiset() == y.to_multiset(),
        tags_injective(x.to_multiset()),
    ensures
        x == y,
    decreases x.len(),
{
    broadcast use group_to_multiset_ensures;
    broadcast use vstd::multiset::group_multiset_axioms;

    lemma_tag_order();
    assert(x.len() == x.to_multiset().len());
    assert(y.len() == y.to_multiset().len());
    if x.len() == 0 {
        assert(x =~= y);
    } else {
        assert(x.contains(x[0]));
        assert(y.contains(y[0]));
        assert(x.to_multiset().contains(y[0]));
        assert(x.contains(y[0]));
        let i = choose|i: int| 0 <= i < x.len() && x[i] == y[0];
        assert(tag_le(x[0], y[0])) by {
            if i > 0 {
                assert(tag_leq()(x[0], x[i]));
            }
        }
        assert(y.to_multiset().contains(x[0]));
        assert(y.contains(x[0]));
        let j = choose|j: int| 0 <= j < y.len() && y[j] == x[0];
        assert(tag_le(y[0], x[0])) by {
            if j > 0 {
                assert(tag_leq()(y[0], y[j]));
            }
        }
        assert(x[0].seq_no == y[0].seq_no);
        assert(x.to_multiset().contains(x[0]));
        assert(x[0] == y[0]);

        let xr = x.drop_first();
        let yr = y.drop_first();
        assert(xr =~= x.remove(0));
        assert(yr =~= y.remove(0));
        assert(xr.to_multiset() == x.to_multiset().remove(x[0]));
        assert(yr.to_multiset() == y.to_multiset().remove(y[0]));
        assert(sorted_by(xr, tag_leq())) by {
            assert forall|a: int, b: int| 0 <= a < b < xr.len() implies #[trigger] tag_leq()(
                xr[a],
                xr[b],
            ) by {
                assert(tag_leq()(x[a + 1], x[b + 1]));
            }
        }
        assert(sorted_by(yr, tag_leq())) by {
            assert forall|a: int, b: int| 0 <= a < b < yr.len() implies #[trigger] tag_leq()(
                yr[a],
                yr[b],
            ) by {
                assert(tag_leq()(y[a + 1], y[b + 1]));
            }
        }
        assert(tags_injective(xr.to_multiset())) by {
            assert forall|a: Tagged, b: Tagged|
                #[trigger] xr.to_multiset().contains(a) && #[trigger] xr.to_multiset().contains(b)
                    && a.seq_no == b.seq_no implies a == b by {
                assert(x.to_multiset().contains(a));
                assert(x.to_multiset().contains(b));
            }
        }
        lemma_sorted_tagged_unique(xr, yr);
        assert(x =~= Seq::<Tagged>::empty().push(x[0]) + xr);
        assert(y =~= Seq::<Tagged>::empty().push(y[0]) + yr);
        assert(x =~= y);
    }
}

/// Tagging gives every element a distinct position, so positions determine
/// elements within the tagged input.
pub proof fn lemma_tag_injective(s: Seq<PairRecord>)
    requires
        s.len() <= usize::MAX,
    ensures
        tags_distinct(spec_tag(s)),
        tags_injective(spec_tag(s).to_multiset()),
        spec_tag(s).len() == s.len(),
{
    broadcast use group_to_multiset_ensures;

    let t = spec_tag(s);
    assert forall|i: int, j: int|
        0 <= i < j < t.len() implies (#[trigger] t[i]).seq_no != (#[trigger] t[j]).seq_no by {
        assert(t[i].seq_no == i as usize);
        assert(t[j].seq_no == j as usize);
    }
    assert forall|a: Tagged, b: Tagged|
        #[trigger] t.to_multiset().contains(a) && #[trigger] t.to_multiset().contains(b)
            && a.seq_no == b.seq_no implies a == b by {
        assert(t.contains(a));
        assert(t.contains(b));
        let i = choose|i: int| 0 <= i < t.len() && t[i] == a;
        let j = choose|j: int| 0 <= j < t.len() && t[j] == b;
        assert(t[i].seq_no == i as usize);
        assert(t[j].seq_no == j as usize);
        assert(i == j);
    }
}

/// Stability: two records with one sort key that are not the same record
/// appear in the sorted arrangement in their input order.
pub proof fn lemma_sort_stable(s: Seq<PairRecord>)
    ensures
        forall|i: int, j: int|
            0 <= i < j < spec_sort_tagged(spec_tag(s)).len() && key_eq(
                (#[trigger] spec_sort_tagged(spec_tag(s))[i]).rec,
                (#[trigger] spec_sort_tagged(spec_tag(s))[j]).rec,
            ) ==> spec_sort_tagged(spec_tag(s))[i].seq_no <= spec_sort_tagged(spec_tag(s))[j].seq_no,
{
    lemma_spec_sort_tagged(spec_tag(s));
    let t = spec_sort_tagged(spec_tag(s));
    assert forall|i: int, j: int|
        0 <= i < j < t.len() && key_eq((#[trigger] t[i]).rec, (#[trigger] t[j]).rec) implies
        t[i].seq_no <= t[j].seq_no by {
        assert(tag_leq()(t[i], t[j]));
    }
}

fn tag_le_exec(a: &Tagged, b: &Tagged) -> (r: bool)
    ensures
        r == tag_le(*a, *b),
{
    if a.rec.chrom1 == b.rec.chrom1 && a.rec.pos1 == b.rec.pos1 && a.rec.chrom2 == b.rec.chrom2
        && a.rec.pos2 == b.rec.pos2 {
        a.seq_no <= b.seq_no
    } else {
        key_le_exec(&a.rec, &b.rec)
    }
}

/// The empty tagged stream holds nothing.
proof fn lemma_to_multiset_empty_tagged()
    ensures
        Seq::<Tagged>::empty().to_multiset() =~= Multiset::<Tagged>::empty(),
{
    broadcast use group_to_multiset_ensures;
    broadcast use vstd::multiset::group_multiset_axioms;

    let s = Seq::<Tagged>::empty();
    assert forall|a: Tagged| s.to_multiset().count(a) == 0 by {
        assert(!s.contains(a));
    }
}

/// Merges two sorted chunks into one sorted stream holding the records of
/// both, reading each chunk through a single forward cursor.
fn merge_tagged(a: Vec<Tagged>, b: Vec<Tagged>) -> (r: Vec<Tagged>)
    requires
        sorted_by(a@, tag_leq()),
        sorted_by(b@, tag_leq()),
    ensures
        sorted_by(r@, tag_leq()),
        r@.to_multiset() == a@.to_multiset().add(b@.to_multiset()),
        r@.len() == a@.len() + b@.len(),
{
    broadcast use group_to_multiset_ensures;

    proof {
        lemma_tag_order();
    }
    let mut out: Vec<Tagged> = Vec::new();
    let mut i: usize = 0;
    let mut j: usize = 0;
    proof {
        broadcast use vstd::multiset::group_multiset_axioms;

        lemma_to_multiset_empty_tagged();
        assert(out@ =~= Seq::<Tagged>::empty());
        assert(a@.subrange(0, 0) =~= Seq::<Tagged>::empty());
        assert(b@.subrange(0, 0) =~= Seq::<Tagged>::empty());
        assert(out@.to_multiset() =~= a@.subrange(0, 0).to_multiset().add(
            b@.subrange(0, 0).to_multiset(),
        ));
    }
    while i < a.len() || j < b.len()
        invariant
            i <= a@.len(),
            j <= b@.len(),
            sorted_by(a@, tag_leq()),
            sorted_by(b@, tag_leq()),
            sorted_by(out@, tag_leq()),
            out@.to_multiset() == a@.subrange(0, i as int).to_multiset().add(
                b@.subrange(0, j as int).to_multiset(),
            ),
            out@.len() == i + j,
            forall|m: int, k: int|
                0 <= m < out@.len() && i <= k < a@.len() ==> tag_le(
                    #[trigger] out@[m],
                    #[trigger] a@[k],
                ),
            forall|m: int, k: int|
                0 <= m < out@.len() && j <= k < b@.len() ==> tag_le(
                    #[trigger] out@[m],
                    #[trigger] b@[k],
                ),
        decreases a@.len() - i + b@.len() - j,
    {
        proof {
            broadcast use group_to_multiset_ensures;

            lemma_tag_order();
        }
        let take_a = if j == b.len() {
            true
        } else if i == a.len() {
            false
        } else {
            tag_le_exec(&a[i], &b[j])
        };
        if take_a {
            let x = a[i];
            proof {
                broadcast use group_to_multiset_ensures;

                assert(a@.subrange(0, i + 1) =~= a@.subrange(0, i as int).push(x));
                assert(a@.subrange(0, i + 1).to_multiset() =~= a@.subrange(
                    0,
                    i as int,
                ).to_multiset().insert(x));
                assert forall|k: int| i + 1 <= k < a@.len() implies tag_le(
                    x,
                    #[trigger] a@[k],
                ) by {
                    assert(tag_leq()(a@[i as int], a@[k]));
                }
                assert forall|k: int| j <= k < b@.len() implies tag_le(x, #[trigger] b@[k]) by {
                    assert(tag_le(x, b@[j as int]));
                    if k > j {
                        assert(tag_leq()(b@[j as int], b@[k]));
                    }
                }
                assert(out@.push(x).to_multiset() =~= out@.to_multiset().insert(x));
            }
            out.push(x);
            i += 1;
        } else {
            let x = b[j];
            proof {
                broadcast use group_to_multiset_ensures;

                assert(tag_le(x, a@[i as int]) || i == a@.len());
                assert(b@.subrange(0, j + 1) =~= b@.subrange(0, j as int).push(x));
                assert(b@.subrange(0, j + 1).to_multiset() =~= b@.subrange(
                    0,
                    j as int,
                ).to_multiset().insert(x));
                assert forall|k: int| j + 1 <= k < b@.len() implies tag_le(
                    x,
                    #[trigger] b@[k],
                ) by {
                    assert(tag_leq()(b@[j as int], b@[k]));
                }
                assert forall|k: int| i <= k < a@.len() implies tag_le(x, #[trigger] a@[k]) by {
                    assert(tag_le(x, a@[i as int]));
                    if k > i {
                        assert(tag_leq()(a@[i as int], a@[k]));
                    }
                }
                assert(out@.push(x).to_multiset() =~= out@.to_multiset().insert(x));
            }
            out.push(x);
            j += 1;
        }
    }
    proof {
        assert(a@.subrange(0, a@.len() as int) =~= a@);
        assert(b@.subrange(0, b@.len() as int) =~= b@);
    }
    out
}

/// Sorts one chunk in memory by repeated insertion through the merge step.
fn sort_chunk(chunk: Vec<Tagged>) -> (r: Vec<Tagged>)
    ensures
        sorted_by(r@, tag_leq()),
        r@.to_multiset() == chunk@.to_multiset(),
        r@.len() == chunk@.len(),
{
    broadcast use group_to_multiset_ensures;

    let mut out: Vec<Tagged> = Vec::new();
    let mut k: usize = 0;
    proof {
        assert(out@ =~= chunk@.subrange(0, 0));
    }
    while k < chunk.len()
        invariant
            k <= chunk@.len(),
            sorted_by(out@, tag_leq()),
            out@.to_multiset() == chunk@.subrange(0, k as int).to_multiset(),
            out@.len() == k,
        decreases chunk@.len() - k,
    {
        let x = chunk[k];
        let mut single: Vec<Tagged> = Vec::new();
        single.push(x);
        proof {
            broadcast use group_to_multiset_ensures;
            broadcast use vstd::multiset::group_multiset_axioms;

            lemma_to_multiset_empty_tagged();
            assert(single@ =~= Seq::<Tagged>::empty().push(x));
            assert(single@.to_multiset() =~= Multiset::<Tagged>::empty().insert(x));
            assert(Seq::<Tagged>::empty().to_multiset() =~= Multiset::<Tagged>::empty());
            assert(chunk@.subrange(0, k + 1) =~= chunk@.subrange(0, k as int).push(x));
            assert(chunk@.subrange(0, k + 1).to_multiset() =~= chunk@.subrange(
                0,
                k as int,
            ).to_multiset().insert(x));
        }
        out = merge_tagged(out, single);
        proof {
            broadcast use vstd::multiset::group_multiset_axioms;

            assert(out@.to_multiset() =~= chunk@.subrange(0, k + 1).to_multiset());
        }
        k += 1;
    }
    proof {
        assert(chunk@.subrange(0, chunk@.len() as int) =~= chunk@);
    }
    out
}

/// Sorts a pair stream with bounded-memory chunks, one worker slice per
/// chunk, and a merge of the sorted chunks.
///
/// The output is exactly [`spec_sort_pairs`] of the input: non-decreasing
/// under the key `(chrom1, pos1, chrom2, pos2)`, a rearrangement of the
/// input records, and stable, so the result does not depend on `nproc`.
pub fn sort_pairs(input: &Vec<PairRecord>, nproc: u8) -> (out: Vec<PairRecord>)
    ensures
        out@ == spec_sort_pairs(input@),
        pairs_sorted(out@),
        out@.len() == input@.len(),
        out@.to_multiset() == input@.to_multiset(),
{
    broadcast use group_to_multiset_ensures;

    let n = input.len();
    // Tag every record with its input position.
    let mut tagged: Vec<Tagged> = Vec::new();
    let mut t: usize = 0;
    while t < n
        invariant
            t <= n,
            n == input@.len(),
            tagged@.len() == t,
            forall|k: int|
                0 <= k < t ==> #[trigger] tagged@[k] == (Tagged {
                    rec: input@[k],
                    seq_no: k as usize,
                }),
        decreases n - t,
    {
        tagged.push(Tagged { rec: input[t], seq_no: t });
        t += 1;
    }
    proof {
        assert(tagged@ =~= spec_tag(input@));
    }

    // One bounded chunk per worker; each worker owns its slice exclusively.
    let workers: usize = if nproc == 0 {
        1
    } else {
        nproc as usize
    };
    let q = n / workers;
    let chunk_size: usize = if q == 0 {
        1
    } else {
        q
    };
    let mut merged: Vec<Tagged> = Vec::new();
    let mut start: usize = 0;
    proof {
        assert(merged@ =~= tagged@.subrange(0, 0));
    }
    while start < n
        invariant
            start <= n,
            n == tagged@.len(),
            chunk_size >= 1,
            sorted_by(merged@, tag_leq()),
            merged@.to_multiset() == tagged@.subrange(0, start as int).to_multiset(),
            merged@.len() == start,
        decreases n - start,
    {
        let end = if n - start > chunk_size {
            start + chunk_size
        } else {
            n
        };
        let mut chunk: Vec<Tagged> = Vec::new();
        let mut k: usize = start;
        while k < end
            invariant
                start <= k <= end <= n,
                n == tagged@.len(),
                chunk@ == tagged@.subrange(start as int, k as int),
            decreases end - k,
        {
            let x = tagged[k];
            proof {
                assert(tagged@.subrange(start as int, k + 1) =~= tagged@.subrange(
                    start as int,
                    k as int,
                ).push(x));
            }
            chunk.push(x);
            k += 1;
        }
        let sorted_chunk = sort_chunk(chunk);
        proof {
            broadcast use group_to_multiset_ensures;

            let pre = tagged@.subrange(0, start as int);
            let mid = tagged@.subrange(start as int, end as int);
            assert(tagged@.subrange(0, end as int) =~= pre + mid);
            lemma_multiset_commutative(pre, mid);
        }
        merged = merge_tagged(merged, sorted_chunk);
        start = end;
    }
    proof {
        assert(tagged@.subrange(0, n as int) =~= tagged@);
    }

    // Drop the tags.
    let mut out: Vec<PairRecord> = Vec::new();
    let mut u: usize = 0;
    while u < merged.len()
        invariant
            u <= merged@.len(),
            out@.len() == u,
            forall|k: int| 0 <= k < u ==> #[trigger] out@[k] == merged@[k].rec,
        decreases merged@.len() - u,
    {
        out.push(merged[u].rec);
        u += 1;
    }
    proof {
        lemma_tag_injective(input@);
        lemma_spec_sort_tagged(spec_tag(input@));
        lemma_sorted_tagged_unique(spec_sort_tagged(spec_tag(input@)), merged@);
        assert(merged@ == spec_sort_tagged(spec_tag(input@)));
        assert(out@ =~= spec_untag(merged@));
        lemma_tag_order();
        assert forall|i: int, j: int| 0 <= i < j < out@.len() implies #[trigger] key_le(
            out@[i],
            out@[j],
        ) by {
            assert(tag_leq()(merged@[i], merged@[j]));
        }
        assert(out@.to_multiset() == input@.to_multiset()) by {
            lemma_untag_perm(merged@, spec_tag(input@));
            assert(spec_untag(spec_tag(input@)) =~= input@);
        }
    }
    out
}

/// Two tagged streams with the same contents have, tags dropped, the same
/// records.
proof fn lemma_untag_perm(s: Seq<Tagged>, t: Seq<Tagged>)
    requires
        s.to_multiset() == t.to_multiset(),
    ensures
        spec_untag(s).to_multiset() == spec_untag(t).to_multiset(),
    decreases s.len(),
{
    broadcast use group_to_multiset_ensures;
    broadcast use vstd::multiset::group_multiset_axioms;

    assert(s.len() == s.to_multiset().len());
    assert(t.len() == t.to_multiset().len());
    assert(s.len() == t.len());
    if s.len() == 0 {
        assert(spec_untag(s) =~= spec_untag(t));
    } else {
        let x = s.last();
        assert(s.contains(x));
        assert(t.to_multiset().count(x) > 0);
        assert(t.contains(x));
        let k = choose|k: int| 0 <= k < t.len() && t[k] == x;
        let s1 = s.drop_last();
        let t1 = t.remove(k);
        assert(s1 =~= s.remove(s.len() - 1));
        assert(s1.to_multiset() == s.to_multiset().remove(x));
        assert(t1.to_multiset() == t.to_multiset().remove(x));
        lemma_untag_perm(s1, t1);
        assert(spec_untag(s) =~= spec_untag(s1).push(x.rec));
        assert(spec_untag(s).to_multiset() =~= spec_untag(s1).to_multiset().insert(x.rec));
        assert(spec_untag(t1) =~= spec_untag(t).remove(k));
        assert(spec_untag(t)[k] == x.rec);
        assert(spec_untag(t).remove(k).to_multiset() == spec_untag(t).to_multiset().remove(
            x.rec,
        ));
        assert(spec_untag(t).contains(x.rec));
        assert(spec_untag(t).to_multiset().count(x.rec) > 0);
        assert(spec_untag(t).to_multiset().remove(x.rec).insert(x.rec) =~= spec_untag(
            t,
        ).to_multiset());
    }
}

} // verus!
