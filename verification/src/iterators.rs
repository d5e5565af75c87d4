//! Merge iteration over many sorted sources.
//!
//! Sources may overlap in key range; merging yields, per distinct raw key,
//! the newest version — where sources are given newest first, and an
//! earlier source wins a tie on an identical composite key.

use vstd::prelude::*;
use crate::mem_table::{mem_entry_wf, mem_entries_wf};
use crate::key::{
    KeyVec,
    Entry,
    entry_key,
    entry_seq_view,
    entries_sorted,
    key_lt,
    key_le,
    bytes_lt,
    lemma_key_order_total,
    lemma_key_lt_trans,
    lemma_bytes_order_total,
    lemma_bytes_lt_trans,
    lemma_sorted_skip1,
    lemma_sorted_head_min,
};

use crate::mem_table::MemTableIter;

verus! {

/// Does the run hold a record with this composite key?
pub open spec fn has_key(es: Seq<(Seq<u8>, u64, Seq<u8>)>, k: (Seq<u8>, u64)) -> bool {
    exists|i: int| 0 <= i < es.len() && entry_key(#[trigger] es[i]) == k
}

/// Does the run hold any version of this raw key?
pub open spec fn has_raw(es: Seq<(Seq<u8>, u64, Seq<u8>)>, raw: Seq<u8>) -> bool {
    exists|i: int| 0 <= i < es.len() && (#[trigger] es[i]).0 == raw
}

/// Two-way merge of sorted runs. The left run wins when both hold the same
/// composite key; such a duplicate is dropped from the right.
pub open spec fn spec_merge2(
    a: Seq<(Seq<u8>, u64, Seq<u8>)>,
    b: Seq<(Seq<u8>, u64, Seq<u8>)>,
) -> Seq<(Seq<u8>, u64, Seq<u8>)>
    decreases a.len() + b.len(),
{
    if a.len() == 0 {
        b
    } else if b.len() == 0 {
        a
    } else if entry_key(a[0]) == entry_key(b[0]) {
        seq![a[0]] + spec_merge2(a.skip(1), b.skip(1))
    } else if key_lt(entry_key(a[0]), entry_key(b[0])) {
        seq![a[0]] + spec_merge2(a.skip(1), b)
    } else {
        seq![b[0]] + spec_merge2(a, b.skip(1))
    }
}

/// What the two-way merge of sorted runs holds: it is sorted; every record
/// comes from one input; every left record survives; a right record
/// survives exactly when the left run lacks its key.
pub proof fn lemma_merge2(a: Seq<(Seq<u8>, u64, Seq<u8>)>, b: Seq<(Seq<u8>, u64, Seq<u8>)>)
    requires
        entries_sorted(a),
        entries_sorted(b),
    ensures
        entries_sorted(spec_merge2(a, b)),
        forall|j: int|
            0 <= j < spec_merge2(a, b).len() ==> a.contains(#[trigger] spec_merge2(a, b)[j])
                || b.contains(spec_merge2(a, b)[j]),
        forall|i: int| 0 <= i < a.len() ==> spec_merge2(a, b).contains(#[trigger] a[i]),
        forall|i: int|
            0 <= i < b.len() && !has_key(a, entry_key(#[trigger] b[i])) ==> spec_merge2(
                a,
                b,
            ).contains(b[i]),
        forall|k: (Seq<u8>, u64)| has_key(spec_merge2(a, b), k) <==> has_key(a, k) || has_key(
            b,
            k,
        ),
    decreases a.len() + b.len(),
{
    let m = spec_merge2(a, b);
    if a.len() == 0 {
    } else if b.len() == 0 {
    } else {
        lemma_sorted_skip1(a);
        lemma_sorted_skip1(b);
        lemma_sorted_head_min(a);
        lemma_sorted_head_min(b);
        lemma_key_order_total(entry_key(a[0]), entry_key(b[0]));
        if entry_key(a[0]) == entry_key(b[0]) {
            lemma_merge2(a.skip(1), b.skip(1));
            lemma_merge2_head(a, b, a[0], a.skip(1), b.skip(1));
        } else if key_lt(entry_key(a[0]), entry_key(b[0])) {
            lemma_merge2(a.skip(1), b);
            lemma_merge2_head(a, b, a[0], a.skip(1), b);
        } else {
            lemma_merge2(a, b.skip(1));
            lemma_merge2_head(a, b, b[0], a, b.skip(1));
        }
    }
}

/// One step of the merge: gluing the chosen head onto the merged tails
/// keeps every property, because the head's key is below everything left.
#[verifier::spinoff_prover]
#[verifier::rlimit(100)]
proof fn lemma_merge2_head(
    a: Seq<(Seq<u8>, u64, Seq<u8>)>,
    b: Seq<(Seq<u8>, u64, Seq<u8>)>,
    h: (Seq<u8>, u64, Seq<u8>),
    ra: Seq<(Seq<u8>, u64, Seq<u8>)>,
    rb: Seq<(Seq<u8>, u64, Seq<u8>)>,
)
    requires
        entries_sorted(a),
        entries_sorted(b),
        a.len() > 0,
        b.len() > 0,
        entries_sorted(spec_merge2(ra, rb)),
        forall|j: int|
            0 <= j < spec_merge2(ra, rb).len() ==> ra.contains(#[trigger] spec_merge2(ra, rb)[j])
                || rb.contains(spec_merge2(ra, rb)[j]),
        forall|i: int| 0 <= i < ra.len() ==> spec_merge2(ra, rb).contains(#[trigger] ra[i]),
        forall|i: int|
            0 <= i < rb.len() && !has_key(ra, entry_key(#[trigger] rb[i])) ==> spec_merge2(
                ra,
                rb,
            ).contains(rb[i]),
        forall|k: (Seq<u8>, u64)| has_key(spec_merge2(ra, rb), k) <==> has_key(ra, k) || has_key(
            rb,
            k,
        ),
        // The three shapes the step can take.
        (entry_key(a[0]) == entry_key(b[0]) && h == a[0] && ra == a.skip(1) && rb == b.skip(1))
            || (key_lt(entry_key(a[0]), entry_key(b[0])) && h == a[0] && ra == a.skip(1) && rb
            == b) || (key_lt(entry_key(b[0]), entry_key(a[0])) && h == b[0] && ra == a && rb
            == b.skip(1)),
        spec_merge2(a, b) == seq![h] + spec_merge2(ra, rb),
    ensures
        entries_sorted(spec_merge2(a, b)),
        forall|j: int|
            0 <= j < spec_merge2(a, b).len() ==> a.contains(#[trigger] spec_merge2(a, b)[j])
                || b.contains(spec_merge2(a, b)[j]),
        forall|i: int| 0 <= i < a.len() ==> spec_merge2(a, b).contains(#[trigger] a[i]),
        forall|i: int|
            0 <= i < b.len() && !has_key(a, entry_key(#[trigger] b[i])) ==> spec_merge2(
                a,
                b,
            ).contains(b[i]),
        forall|k: (Seq<u8>, u64)| has_key(spec_merge2(a, b), k) <==> has_key(a, k) || has_key(
            b,
            k,
        ),
{
    let m = spec_merge2(a, b);
    let mr = spec_merge2(ra, rb);
    lemma_sorted_skip1(a);
    lemma_sorted_skip1(b);
    lemma_sorted_head_min(a);
    lemma_sorted_head_min(b);
    // The head's key is strictly below every key left in the tails.
    assert forall|t: int| 0 <= t < mr.len() implies key_lt(entry_key(h), entry_key(#[trigger] mr[t]))
        by {
        if ra.contains(mr[t]) {
            let i = choose|i: int| 0 <= i < ra.len() && ra[i] == mr[t];
            if ra == a.skip(1) {
                assert(ra[i] == a[i + 1]);
            } else {
                assert(key_lt(entry_key(b[0]), entry_key(a[0])));
                if i > 0 {
                    lemma_key_lt_trans(entry_key(h), entry_key(a[0]), entry_key(a[i]));
                } else {
                }
            }
        } else {
            let i = choose|i: int| 0 <= i < rb.len() && rb[i] == mr[t];
            if rb == b.skip(1) {
                assert(rb[i] == b[i + 1]);
                if entry_key(a[0]) == entry_key(b[0]) {
                } else {
                    assert(h == b[0]);
                }
            } else {
                assert(key_lt(entry_key(a[0]), entry_key(b[0])));
                if i > 0 {
                    lemma_key_lt_trans(entry_key(h), entry_key(b[0]), entry_key(b[i]));
                } else {
                }
            }
        }
    }
    assert forall|j1: int, j2: int|
        0 <= j1 < j2 < m.len() implies key_lt(entry_key(#[trigger] m[j1]), entry_key(
        #[trigger] m[j2],
    )) by {
        if j1 > 0 {
            assert(m[j1] == mr[j1 - 1]);
            assert(m[j2] == mr[j2 - 1]);
        } else {
            assert(m[j2] == mr[j2 - 1]);
        }
    }
    assert forall|j: int|
        0 <= j < m.len() implies a.contains(#[trigger] m[j]) || b.contains(m[j]) by {
        if j == 0 {
            if h == a[0] {
                assert(a.contains(a[0]));
            } else {
                assert(b.contains(b[0]));
            }
        } else {
            assert(m[j] == mr[j - 1]);
            if ra.contains(mr[j - 1]) {
                let i = choose|i: int| 0 <= i < ra.len() && ra[i] == mr[j - 1];
                if ra == a.skip(1) {
                    assert(a[i + 1] == ra[i]);
                    assert(a.contains(a[i + 1]));
                } else {
                    assert(a.contains(a[i]));
                }
            } else {
                let i = choose|i: int| 0 <= i < rb.len() && rb[i] == mr[j - 1];
                if rb == b.skip(1) {
                    assert(b[i + 1] == rb[i]);
                    assert(b.contains(b[i + 1]));
                } else {
                    assert(b.contains(b[i]));
                }
            }
        }
    }
    assert forall|i: int| 0 <= i < a.len() implies m.contains(#[trigger] a[i]) by {
        if h == a[0] && i == 0 {
            assert(m[0] == a[0]);
        } else if ra == a.skip(1) {
            if i > 0 {
                assert(ra[i - 1] == a[i]);
                assert(mr.contains(ra[i - 1]));
                let t = choose|t: int| 0 <= t < mr.len() && mr[t] == a[i];
                assert(m[t + 1] == a[i]);
            }
        } else {
            assert(mr.contains(ra[i]));
            let t = choose|t: int| 0 <= t < mr.len() && mr[t] == a[i];
            assert(m[t + 1] == a[i]);
        }
    }
    assert forall|i: int|
        0 <= i < b.len() && !has_key(a, entry_key(#[trigger] b[i])) implies m.contains(b[i]) by {
        if h == b[0] && i == 0 {
            assert(m[0] == b[0]);
        } else if rb == b.skip(1) {
            if i > 0 {
                assert(rb[i - 1] == b[i]);
                assert(!has_key(ra, entry_key(b[i]))) by {
                    if has_key(ra, entry_key(b[i])) {
                        let t = choose|t: int|
                            0 <= t < ra.len() && entry_key(#[trigger] ra[t]) == entry_key(b[i]);
                        if ra == a.skip(1) {
                            assert(a[t + 1] == ra[t]);
                            assert(entry_key(a[t + 1]) == entry_key(b[i]));
                        } else {
                            assert(entry_key(a[t]) == entry_key(b[i]));
                        }
                    }
                }
                assert(mr.contains(b[i]));
                let t = choose|t: int| 0 <= t < mr.len() && mr[t] == b[i];
                assert(m[t + 1] == b[i]);
            } else {
                // i == 0 and h != b[0]: then the heads share a key or a's
                // head is smaller; sharing means a has the key.
                assert(entry_key(a[0]) == entry_key(b[0]) || key_lt(
                    entry_key(a[0]),
                    entry_key(b[0]),
                ));
                assert(entry_key(a[0]) != entry_key(b[0])) by {
                    if entry_key(a[0]) == entry_key(b[0]) {
                        assert(has_key(a, entry_key(b[0])));
                    }
                }
                assert(false) by {
                    assert(h == a[0] && ra == a.skip(1) && rb == b);
                }
            }
        } else {
            assert(!has_key(ra, entry_key(b[i]))) by {
                if has_key(ra, entry_key(b[i])) {
                    let t = choose|t: int|
                        0 <= t < ra.len() && entry_key(#[trigger] ra[t]) == entry_key(b[i]);
                    if ra == a.skip(1) {
                        assert(a[t + 1] == ra[t]);
                        assert(entry_key(a[t + 1]) == entry_key(b[i]));
                    } else {
                        assert(entry_key(a[t]) == entry_key(b[i]));
                    }
                }
            }
            assert(mr.contains(b[i]));
            let t = choose|t: int| 0 <= t < mr.len() && mr[t] == b[i];
            assert(m[t + 1] == b[i]);
        }
    }
    assert forall|k: (Seq<u8>, u64)| has_key(m, k) <==> has_key(a, k) || has_key(b, k) by {
        if has_key(m, k) {
            let j = choose|j: int| 0 <= j < m.len() && entry_key(#[trigger] m[j]) == k;
            if a.contains(m[j]) {
                let i = choose|i: int| 0 <= i < a.len() && a[i] == m[j];
                assert(entry_key(a[i]) == k);
            } else {
                let i = choose|i: int| 0 <= i < b.len() && b[i] == m[j];
                assert(entry_key(b[i]) == k);
            }
        }
        if has_key(a, k) {
            let i = choose|i: int| 0 <= i < a.len() && entry_key(#[trigger] a[i]) == k;
            assert(m.contains(a[i]));
            let j = choose|j: int| 0 <= j < m.len() && m[j] == a[i];
            assert(entry_key(m[j]) == k);
        }
        if has_key(b, k) && !has_key(m, k) {
            let i = choose|i: int| 0 <= i < b.len() && entry_key(#[trigger] b[i]) == k;
            assert(!has_key(a, k));
            assert(m.contains(b[i]));
            let j = choose|j: int| 0 <= j < m.len() && m[j] == b[i];
            assert(entry_key(m[j]) == k);
        }
    }
}

/// The merge of all sources: fold the two-way merge left to right, so an
/// earlier source wins a tie on an identical composite key.
pub open spec fn spec_merge_fold(srcs: Seq<Seq<(Seq<u8>, u64, Seq<u8>)>>) -> Seq<
    (Seq<u8>, u64, Seq<u8>),
>
    decreases srcs.len(),
{
    if srcs.len() == 0 {
        Seq::empty()
    } else {
        spec_merge2(spec_merge_fold(srcs.drop_last()), srcs.last())
    }
}

/// What the merge of all sorted sources holds: it is sorted; each record
/// is some source's record whose key no newer source knows; every key of
/// every source is present.
pub proof fn lemma_merge_fold(srcs: Seq<Seq<(Seq<u8>, u64, Seq<u8>)>>)
    requires
        forall|i: int| 0 <= i < srcs.len() ==> entries_sorted(#[trigger] srcs[i]),
    ensures
        entries_sorted(spec_merge_fold(srcs)),
        forall|j: int|
            0 <= j < spec_merge_fold(srcs).len() ==> exists|i: int|
                0 <= i < srcs.len() && (#[trigger] srcs[i]).contains(
                    #[trigger] spec_merge_fold(srcs)[j],
                ) && (forall|i2: int|
                    0 <= i2 < i ==> !has_key(#[trigger] srcs[i2], entry_key(
                        spec_merge_fold(srcs)[j],
                    ))),
        forall|i: int, t: int|
            0 <= i < srcs.len() && 0 <= t < srcs[i].len() ==> has_key(
                spec_merge_fold(srcs),
                entry_key(#[trigger] srcs[i][t]),
            ),
    decreases srcs.len(),
{
    let f = spec_merge_fold(srcs);
    if srcs.len() == 0 {
    } else {
        let pre = srcs.drop_last();
        let last = srcs.last();
        assert(forall|i: int| 0 <= i < pre.len() ==> pre[i] == srcs[i]);
        lemma_merge_fold(pre);
        let fp = spec_merge_fold(pre);
        lemma_merge2(fp, last);
        assert(entries_sorted(f));
        assert forall|j: int|
            0 <= j < f.len() implies exists|i: int|
            0 <= i < srcs.len() && (#[trigger] srcs[i]).contains(#[trigger] f[j]) && (forall|
            i2: int|
                0 <= i2 < i ==> !has_key(#[trigger] srcs[i2], entry_key(f[j]))) by {
            if fp.contains(f[j]) {
                let jj = choose|jj: int| 0 <= jj < fp.len() && fp[jj] == f[j];
                assert(exists|i: int|
                    0 <= i < pre.len() && (#[trigger] pre[i]).contains(fp[jj]) && (forall|i2: int|
                        0 <= i2 < i ==> !has_key(#[trigger] pre[i2], entry_key(fp[jj]))));
                let i = choose|i: int|
                    0 <= i < pre.len() && (#[trigger] pre[i]).contains(fp[jj]) && (forall|i2: int|
                        0 <= i2 < i ==> !has_key(#[trigger] pre[i2], entry_key(fp[jj])));
                assert(srcs[i].contains(f[j]));
            } else {
                assert(last.contains(f[j]));
                let i = srcs.len() - 1;
                assert(!has_key(fp, entry_key(f[j]))) by {
                    if has_key(fp, entry_key(f[j])) {
                        let t = choose|t: int|
                            0 <= t < fp.len() && entry_key(#[trigger] fp[t]) == entry_key(f[j]);
                        assert(f.contains(fp[t]));
                        let j2 = choose|j2: int| 0 <= j2 < f.len() && f[j2] == fp[t];
                        assert(entry_key(f[j2]) == entry_key(f[j]));
                        if j2 != j {
                            assert(key_lt(entry_key(f[j]), entry_key(f[j2])) || key_lt(
                                entry_key(f[j2]),
                                entry_key(f[j]),
                            ));
                            lemma_key_order_total(entry_key(f[j]), entry_key(f[j2]));
                        }
                        assert(fp.contains(f[j]));
                    }
                }
                assert forall|i2: int| 0 <= i2 < i implies !has_key(
                    #[trigger] srcs[i2],
                    entry_key(f[j]),
                ) by {
                    if has_key(srcs[i2], entry_key(f[j])) {
                        assert(pre[i2] == srcs[i2]);
                        let t = choose|t: int|
                            0 <= t < srcs[i2].len() && entry_key(#[trigger] srcs[i2][t])
                                == entry_key(f[j]);
                        assert(has_key(fp, entry_key(pre[i2][t])));
                    }
                }
                assert(srcs[i].contains(f[j]) && (forall|i2: int|
                    0 <= i2 < i ==> !has_key(#[trigger] srcs[i2], entry_key(f[j]))));
            }
        }
        assert forall|i: int, t: int|
            0 <= i < srcs.len() && 0 <= t < srcs[i].len() implies has_key(
            f,
            entry_key(#[trigger] srcs[i][t]),
        ) by {
            if i < srcs.len() - 1 {
                assert(pre[i] == srcs[i]);
                assert(has_key(fp, entry_key(pre[i][t])));
            } else {
                assert(has_key(last, entry_key(srcs[i][t]))) by {
                    assert(entry_key(last[t]) == entry_key(srcs[i][t]));
                }
            }
        }
    }
}

/// One record per raw key: of a sorted run, keep each record whose raw key
/// differs from its predecessor's — the first, and so the newest, version
/// of each raw key.
/// The two-way merge of sorted runs is sorted.
pub proof fn lemma_merge2_sorted(a: Seq<(Seq<u8>, u64, Seq<u8>)>, b: Seq<(Seq<u8>, u64, Seq<u8>)>)
    requires
        entries_sorted(a),
        entries_sorted(b),
    ensures
        entries_sorted(spec_merge2(a, b)),
{
    lemma_merge2(a, b);
}

/// The merge of well-formed runs is well formed: sorted, with every
/// record drawn from one of the sources.
pub proof fn lemma_merge_fold_wf(srcs: Seq<Seq<(Seq<u8>, u64, Seq<u8>)>>)
    requires
        forall|i: int| 0 <= i < srcs.len() ==> mem_entries_wf(#[trigger] srcs[i]),
    ensures
        mem_entries_wf(spec_merge_fold(srcs)),
{
    let f = spec_merge_fold(srcs);
    lemma_merge_fold(srcs);
    assert forall|j: int| 0 <= j < f.len() implies mem_entry_wf(#[trigger] f[j]) by {
        let i = choose|i: int|
            0 <= i < srcs.len() && (#[trigger] srcs[i]).contains(f[j]) && (forall|i2: int|
                0 <= i2 < i ==> !has_key(#[trigger] srcs[i2], entry_key(f[j])));
        let u = choose|u: int| 0 <= u < srcs[i].len() && (#[trigger] srcs[i][u]) == f[j];
        assert(mem_entry_wf(srcs[i][u]));
    }
}

pub open spec fn spec_dedup_from(es: Seq<(Seq<u8>, u64, Seq<u8>)>, i: int) -> Seq<
    (Seq<u8>, u64, Seq<u8>),
>
    decreases es.len() - i,
{
    if i < 0 || i >= es.len() {
        Seq::empty()
    } else if i == 0 || es[i - 1].0 != es[i].0 {
        seq![es[i]] + spec_dedup_from(es, i + 1)
    } else {
        spec_dedup_from(es, i + 1)
    }
}

pub open spec fn spec_dedup_raw(es: Seq<(Seq<u8>, u64, Seq<u8>)>) -> Seq<(Seq<u8>, u64, Seq<u8>)> {
    spec_dedup_from(es, 0)
}

/// Raw keys never decrease along a sorted run.
proof fn lemma_raw_monotone(es: Seq<(Seq<u8>, u64, Seq<u8>)>, i: int, j: int)
    requires
        entries_sorted(es),
        0 <= i <= j < es.len(),
    ensures
        bytes_lt(es[i].0, es[j].0) || es[i].0 == es[j].0,
{
    if i < j {
        assert(key_lt(entry_key(es[i]), entry_key(es[j])));
    }
}

/// What deduplication of a sorted run yields, from position `i` on.
#[verifier::rlimit(100)]
proof fn lemma_dedup_from(es: Seq<(Seq<u8>, u64, Seq<u8>)>, i: int)
    requires
        entries_sorted(es),
        0 <= i <= es.len(),
    ensures
        forall|j1: int, j2: int|
            0 <= j1 < j2 < spec_dedup_from(es, i).len() ==> bytes_lt(
                (#[trigger] spec_dedup_from(es, i)[j1]).0,
                (#[trigger] spec_dedup_from(es, i)[j2]).0,
            ),
        forall|j: int|
            0 <= j < spec_dedup_from(es, i).len() ==> exists|t: int|
                i <= t < es.len() && (#[trigger] es[t]) == #[trigger] spec_dedup_from(es, i)[j]
                    && (t == 0 || es[t - 1].0 != es[t].0),
        forall|t: int|
            i <= t < es.len() && (i == 0 || es[i - 1].0 != (#[trigger] es[t]).0) ==> has_raw(
                spec_dedup_from(es, i),
                es[t].0,
            ),
        forall|j: int|
            0 <= j < spec_dedup_from(es, i).len() && i < es.len() ==> (bytes_lt(
                es[i].0,
                (#[trigger] spec_dedup_from(es, i)[j]).0,
            ) || es[i].0 == spec_dedup_from(es, i)[j].0),
        forall|j: int|
            0 <= j < spec_dedup_from(es, i).len() && i >= 1 && i < es.len() && es[i - 1].0
                == es[i].0 ==> (#[trigger] spec_dedup_from(es, i)[j]).0 != es[i].0,
    decreases es.len() - i,
{
    let d = spec_dedup_from(es, i);
    if i >= es.len() {
    } else {
        lemma_dedup_from(es, i + 1);
        let dr = spec_dedup_from(es, i + 1);
        if i == 0 || es[i - 1].0 != es[i].0 {
            assert(d == seq![es[i]] + dr);
            assert forall|j: int| 0 <= j < dr.len() implies bytes_lt(
                es[i].0,
                (#[trigger] dr[j]).0,
            ) by {
                if i + 1 < es.len() {
                    lemma_raw_monotone(es, i, i + 1);
                    if es[i + 1].0 == es[i].0 {
                        assert(dr[j].0 != es[i + 1].0);
                        lemma_bytes_order_total(es[i].0, dr[j].0);
                        if bytes_lt(dr[j].0, es[i].0) {
                            // dr's records come from positions after i,
                            // whose raws are at least es[i]'s.
                            let t = choose|t: int| i + 1 <= t < es.len() && es[t] == dr[j];
                            lemma_raw_monotone(es, i, t);
                        }
                    } else {
                        assert(bytes_lt(es[i].0, es[i + 1].0));
                        if es[i + 1].0 == dr[j].0 {
                        } else {
                            lemma_bytes_lt_trans(es[i].0, es[i + 1].0, dr[j].0);
                        }
                    }
                }
            }
            assert forall|j1: int, j2: int|
                0 <= j1 < j2 < d.len() implies bytes_lt(
                (#[trigger] d[j1]).0,
                (#[trigger] d[j2]).0,
            ) by {
                if j1 > 0 {
                    assert(d[j1] == dr[j1 - 1]);
                    assert(d[j2] == dr[j2 - 1]);
                } else {
                    assert(d[j2] == dr[j2 - 1]);
                }
            }
            assert forall|t: int|
                i <= t < es.len() && (i == 0 || es[i - 1].0 != (#[trigger] es[t]).0) implies
                has_raw(d, es[t].0) by {
                if t == i {
                    assert(d[0].0 == es[i].0);
                } else if es[t].0 == es[i].0 {
                    assert(d[0].0 == es[t].0);
                } else {
                    assert(has_raw(dr, es[t].0));
                    let j = choose|j: int| 0 <= j < dr.len() && (#[trigger] dr[j]).0 == es[t].0;
                    assert(d[j + 1].0 == es[t].0);
                }
            }
        } else {
            assert(d == dr);
            assert forall|t: int|
                i <= t < es.len() && (i == 0 || es[i - 1].0 != (#[trigger] es[t]).0) implies
                has_raw(d, es[t].0) by {
                assert(es[i].0 == es[i - 1].0);
                assert(es[t].0 != es[i].0);
                assert(t > i);
            }
            assert forall|j: int|
                0 <= j < d.len() && i < es.len() implies (bytes_lt(
                es[i].0,
                (#[trigger] d[j]).0,
            ) || es[i].0 == d[j].0) by {
                if i + 1 < es.len() {
                    lemma_raw_monotone(es, i, i + 1);
                    if es[i].0 != d[j].0 && !bytes_lt(es[i].0, d[j].0) {
                        lemma_bytes_order_total(es[i].0, d[j].0);
                        let t = choose|t: int| i + 1 <= t < es.len() && es[t] == d[j];
                        lemma_raw_monotone(es, i, t);
                        lemma_bytes_order_total(es[i].0, es[t].0);
                    }
                }
            }
            assert forall|j: int|
                0 <= j < d.len() && i >= 1 && i < es.len() && es[i - 1].0 == es[i].0 implies (
            #[trigger] d[j]).0 != es[i].0 by {
                if i + 1 < es.len() {
                    if es[i + 1].0 == es[i].0 {
                        assert(d[j].0 != es[i + 1].0);
                    } else {
                        lemma_raw_monotone(es, i, i + 1);
                        assert(bytes_lt(es[i].0, es[i + 1].0));
                        if d[j].0 == es[i].0 {
                            let t = choose|t: int| i + 1 <= t < es.len() && es[t] == d[j];
                            lemma_raw_monotone(es, i + 1, t);
                            lemma_bytes_order_total(es[i].0, es[t].0);
                            lemma_bytes_order_total(es[i + 1].0, es[t].0);
                            if es[i + 1].0 == es[t].0 {
                            } else {
                                lemma_bytes_lt_trans(es[i].0, es[i + 1].0, es[t].0);
                            }
                        }
                    }
                }
            }
        }
    }
}

/// Two-way merge, executed.
pub fn merge2(a: &Vec<Entry>, b: &Vec<Entry>) -> (r: Vec<Entry>)
    requires
        entries_sorted(entry_seq_view(a@)),
        entries_sorted(entry_seq_view(b@)),
    ensures
        entry_seq_view(r@) == spec_merge2(entry_seq_view(a@), entry_seq_view(b@)),
{
    let ghost ga = entry_seq_view(a@);
    let ghost gb = entry_seq_view(b@);
    let mut out: Vec<Entry> = Vec::new();
    let mut i: usize = 0;
    let mut j: usize = 0;
    let na = a.len();
    let nb = b.len();
    proof {
        assert(ga.skip(0) =~= ga);
        assert(gb.skip(0) =~= gb);
        assert(entry_seq_view(out@) =~= Seq::<(Seq<u8>, u64, Seq<u8>)>::empty());
        assert(entry_seq_view(out@) + spec_merge2(ga, gb) =~= spec_merge2(ga, gb));
    }
    while i < na || j < nb
        invariant
            0 <= i <= na == a@.len(),
            0 <= j <= nb == b@.len(),
            ga == entry_seq_view(a@),
            gb == entry_seq_view(b@),
            spec_merge2(ga, gb) == entry_seq_view(out@) + spec_merge2(
                ga.skip(i as int),
                gb.skip(j as int),
            ),
        decreases na - i + nb - j,
    {
        let ghost ra = ga.skip(i as int);
        let ghost rb = gb.skip(j as int);
        let ghost prev = out@;
        let take_a: bool = if i >= na {
            false
        } else if j >= nb {
            true
        } else {
            let c = crate::key::key_cmp(&a[i].key, &b[j].key);
            if c == 0 {
                true
            } else {
                c == -1
            }
        };
        let ghost both_same: bool = i < na && j < nb && entry_key(ra[0]) == entry_key(rb[0]);
        if take_a {
            let e = a[i].clone();
            proof {
                assert(e@ == ga[i as int]);
                assert(ra[0] == ga[i as int]);
            }
            out.push(e);
            proof {
                assert(entry_seq_view(out@) =~= entry_seq_view(prev) + seq![ga[i as int]]);
                assert(ra.skip(1) =~= ga.skip(i + 1));
            }
            if j < nb {
                let c2 = crate::key::key_cmp(&a[i].key, &b[j].key);
                if c2 == 0 {
                    proof {
                        assert(rb[0] == gb[j as int]);
                        assert(rb.skip(1) =~= gb.skip(j + 1));
                        assert(spec_merge2(ra, rb) == seq![ra[0]] + spec_merge2(
                            ra.skip(1),
                            rb.skip(1),
                        ));
                        assert(entry_seq_view(out@) + spec_merge2(ga.skip(i + 1), gb.skip(j + 1))
                            =~= spec_merge2(ga, gb));
                    }
                    j += 1;
                    i += 1;
                    continue;
                }
            }
            proof {
                if j < nb {
                    assert(rb[0] == gb[j as int]);
                    assert(key_lt(entry_key(ra[0]), entry_key(rb[0])));
                    lemma_key_order_total(entry_key(ra[0]), entry_key(rb[0]));
                    assert(spec_merge2(ra, rb) == seq![ra[0]] + spec_merge2(ra.skip(1), rb));
                } else {
                    assert(rb.len() == 0);
                    assert(spec_merge2(ra, rb) == ra);
                    assert(ra =~= seq![ra[0]] + ra.skip(1));
                    assert(spec_merge2(ra.skip(1), rb) == ra.skip(1));
                }
                assert(entry_seq_view(out@) + spec_merge2(ga.skip(i + 1), gb.skip(j as int))
                    =~= spec_merge2(ga, gb));
            }
            i += 1;
        } else {
            let e = b[j].clone();
            proof {
                assert(e@ == gb[j as int]);
                assert(rb[0] == gb[j as int]);
            }
            out.push(e);
            proof {
                assert(entry_seq_view(out@) =~= entry_seq_view(prev) + seq![gb[j as int]]);
                assert(rb.skip(1) =~= gb.skip(j + 1));
                if i < na {
                    assert(ra[0] == ga[i as int]);
                    assert(key_lt(entry_key(rb[0]), entry_key(ra[0])));
                    lemma_key_order_total(entry_key(ra[0]), entry_key(rb[0]));
                    assert(spec_merge2(ra, rb) == seq![rb[0]] + spec_merge2(ra, rb.skip(1)));
                } else {
                    assert(ra.len() == 0);
                    assert(spec_merge2(ra, rb) == rb);
                    assert(rb =~= seq![rb[0]] + rb.skip(1));
                    assert(spec_merge2(ra, rb.skip(1)) == rb.skip(1));
                }
                assert(entry_seq_view(out@) + spec_merge2(ga.skip(i as int), gb.skip(j + 1))
                    =~= spec_merge2(ga, gb));
            }
            j += 1;
        }
    }
    proof {
        assert(ga.skip(na as int).len() == 0);
        assert(gb.skip(nb as int).len() == 0);
        assert(spec_merge2(ga.skip(na as int), gb.skip(nb as int)).len() == 0);
        assert(entry_seq_view(out@) + spec_merge2(ga.skip(na as int), gb.skip(nb as int))
            =~= entry_seq_view(out@));
    }
    out
}

/// The sources a set of cursors still offers, newest first.
pub open spec fn sources_view(its: Seq<MemTableIter>) -> Seq<Seq<(Seq<u8>, u64, Seq<u8>)>> {
    its.map_values(|it: MemTableIter| it.remaining())
}

/// Merging sorted, possibly overlapping sources yields a globally sorted
/// sequence with exactly one record per distinct raw key: the newest
/// version held by any source, with an earlier (newer) source winning a
/// tie on an identical composite key; and every raw key any source holds
/// is present.
pub proof fn lemma_merge_newest_per_raw_key(srcs: Seq<Seq<(Seq<u8>, u64, Seq<u8>)>>)
    requires
        forall|i: int| 0 <= i < srcs.len() ==> entries_sorted(#[trigger] srcs[i]),
    ensures
        ({
            let d = spec_dedup_raw(spec_merge_fold(srcs));
            &&& forall|j1: int, j2: int|
                0 <= j1 < j2 < d.len() ==> bytes_lt((#[trigger] d[j1]).0, (#[trigger] d[j2]).0)
            &&& forall|j: int|
                0 <= j < d.len() ==> exists|i: int|
                    0 <= i < srcs.len() && (#[trigger] srcs[i]).contains(#[trigger] d[j]) && (
                    forall|i2: int| 0 <= i2 < i ==> !has_key(#[trigger] srcs[i2], entry_key(d[j])))
            &&& forall|i: int, t: int|
                0 <= i < srcs.len() && 0 <= t < srcs[i].len() ==> has_raw(
                    d,
                    (#[trigger] srcs[i][t]).0,
                )
            &&& forall|j: int, i: int, t: int|
                0 <= j < d.len() && 0 <= i < srcs.len() && 0 <= t < srcs[i].len() && (
                #[trigger] srcs[i][t]).0 == (#[trigger] d[j]).0 ==> key_le(
                    entry_key(d[j]),
                    entry_key(srcs[i][t]),
                )
        }),
{
    let f = spec_merge_fold(srcs);
    let d = spec_dedup_raw(f);
    lemma_merge_fold(srcs);
    lemma_dedup_from(f, 0);
    assert forall|j: int|
        0 <= j < d.len() implies exists|i: int|
        0 <= i < srcs.len() && (#[trigger] srcs[i]).contains(#[trigger] d[j]) && (forall|i2: int|
            0 <= i2 < i ==> !has_key(#[trigger] srcs[i2], entry_key(d[j]))) by {
        let t = choose|t: int|
            0 <= t < f.len() && (#[trigger] f[t]) == d[j] && (t == 0 || f[t - 1].0 != f[t].0);
        assert(f[t] == d[j]);
    }
    assert forall|i: int, t: int|
        0 <= i < srcs.len() && 0 <= t < srcs[i].len() implies has_raw(
        d,
        (#[trigger] srcs[i][t]).0,
    ) by {
        assert(has_key(f, entry_key(srcs[i][t])));
        let t2 = choose|t2: int|
            0 <= t2 < f.len() && entry_key(#[trigger] f[t2]) == entry_key(srcs[i][t]);
        assert(has_raw(d, f[t2].0));
    }
    assert forall|j: int, i: int, t: int|
        0 <= j < d.len() && 0 <= i < srcs.len() && 0 <= t < srcs[i].len() && (
    #[trigger] srcs[i][t]).0 == (#[trigger] d[j]).0 implies key_le(
        entry_key(d[j]),
        entry_key(srcs[i][t]),
    ) by {
        let e = srcs[i][t];
        assert(has_key(f, entry_key(e)));
        let t1 = choose|t1: int| 0 <= t1 < f.len() && entry_key(#[trigger] f[t1]) == entry_key(e);
        let t0 = choose|t0: int|
            0 <= t0 < f.len() && (#[trigger] f[t0]) == d[j] && (t0 == 0 || f[t0 - 1].0
                != f[t0].0);
        if key_lt(entry_key(e), entry_key(d[j])) {
            // A strictly newer version of this raw key would stand before
            // the kept record in the merged run, inside the same group.
            assert(key_lt(entry_key(f[t1]), entry_key(f[t0])));
            assert(t1 < t0) by {
                lemma_key_order_total(entry_key(f[t1]), entry_key(f[t0]));
                if t1 > t0 {
                    assert(key_lt(entry_key(f[t0]), entry_key(f[t1])));
                }
                if t1 == t0 {
                }
            }
            assert(t0 >= 1);
            lemma_raw_monotone(f, t1, t0 - 1);
            lemma_raw_monotone(f, t0 - 1, t0);
            assert(f[t1].0 == e.0);
            assert(f[t0].0 == e.0);
            lemma_bytes_order_total(f[t0 - 1].0, f[t0].0);
            lemma_bytes_order_total(f[t1].0, f[t0 - 1].0);
            assert(false);
        }
        lemma_key_order_total(entry_key(d[j]), entry_key(e));
    }
}

/// Two single-version runs over the same raw keys, whose records agree
/// wherever a raw key is shared, are the same sequence.
proof fn lemma_raw_sorted_unique(
    a: Seq<(Seq<u8>, u64, Seq<u8>)>,
    b: Seq<(Seq<u8>, u64, Seq<u8>)>,
)
    requires
        raw_sorted(a),
        raw_sorted(b),
        forall|j: int| 0 <= j < a.len() ==> has_raw(b, (#[trigger] a[j]).0),
        forall|k: int| 0 <= k < b.len() ==> has_raw(a, (#[trigger] b[k]).0),
        forall|j: int, k: int|
            0 <= j < a.len() && 0 <= k < b.len() && (#[trigger] a[j]).0 == (#[trigger] b[k]).0
                ==> a[j] == b[k],
    ensures
        a == b,
    decreases a.len(),
{
    if a.len() == 0 {
        if b.len() > 0 {
            assert(has_raw(a, b[0].0));
            let w = choose|w: int| 0 <= w < a.len() && (#[trigger] a[w]).0 == b[0].0;
            assert(false);
        }
        assert(a =~= b);
    } else {
        assert(has_raw(b, a[0].0));
        assert(has_raw(a, b[0].0));
        assert(a[0].0 == b[0].0) by {
            lemma_bytes_order_total(a[0].0, b[0].0);
            if bytes_lt(a[0].0, b[0].0) {
                let w = choose|w: int| 0 <= w < b.len() && (#[trigger] b[w]).0 == a[0].0;
                if w > 0 {
                    assert(bytes_lt(b[0].0, b[w].0));
                    lemma_bytes_order_total(b[0].0, a[0].0);
                }
                assert(false);
            }
            if bytes_lt(b[0].0, a[0].0) {
                let w = choose|w: int| 0 <= w < a.len() && (#[trigger] a[w]).0 == b[0].0;
                if w > 0 {
                    assert(bytes_lt(a[0].0, a[w].0));
                    lemma_bytes_order_total(a[0].0, b[0].0);
                }
                assert(false);
            }
        }
        assert(a[0] == b[0]);
        let ta = a.skip(1);
        let tb = b.skip(1);
        assert forall|i: int, j: int| 0 <= i < j < ta.len() implies bytes_lt(
            (#[trigger] ta[i]).0,
            (#[trigger] ta[j]).0,
        ) by {
            assert(ta[i] == a[i + 1] && ta[j] == a[j + 1]);
        }
        assert forall|i: int, j: int| 0 <= i < j < tb.len() implies bytes_lt(
            (#[trigger] tb[i]).0,
            (#[trigger] tb[j]).0,
        ) by {
            assert(tb[i] == b[i + 1] && tb[j] == b[j + 1]);
        }
        assert forall|j: int| 0 <= j < ta.len() implies has_raw(tb, (#[trigger] ta[j]).0) by {
            assert(ta[j] == a[j + 1]);
            assert(has_raw(b, a[j + 1].0));
            let w = choose|w: int| 0 <= w < b.len() && (#[trigger] b[w]).0 == a[j + 1].0;
            assert(bytes_lt(a[0].0, a[j + 1].0));
            if w == 0 {
                lemma_bytes_order_total(a[0].0, a[j + 1].0);
            }
            assert(tb[w - 1] == b[w]);
            assert(has_raw(tb, ta[j].0));
        }
        assert forall|k: int| 0 <= k < tb.len() implies has_raw(ta, (#[trigger] tb[k]).0) by {
            assert(tb[k] == b[k + 1]);
            assert(has_raw(a, b[k + 1].0));
            let w = choose|w: int| 0 <= w < a.len() && (#[trigger] a[w]).0 == b[k + 1].0;
            assert(bytes_lt(b[0].0, b[k + 1].0));
            if w == 0 {
                lemma_bytes_order_total(b[0].0, b[k + 1].0);
            }
            assert(ta[w - 1] == a[w]);
            assert(has_raw(ta, tb[k].0));
        }
        assert forall|j: int, k: int|
            0 <= j < ta.len() && 0 <= k < tb.len() && (#[trigger] ta[j]).0 == (
        #[trigger] tb[k]).0 implies ta[j] == tb[k] by {
            assert(ta[j] == a[j + 1] && tb[k] == b[k + 1]);
        }
        lemma_raw_sorted_unique(ta, tb);
        assert(a.len() == b.len());
        assert forall|i: int| 0 <= i < a.len() implies a[i] == b[i] by {
            if i > 0 {
                assert(ta[i - 1] == a[i]);
                assert(tb[i - 1] == b[i]);
            }
        }
        assert(a =~= b);
    }
}

/// The merged, deduplicated view is canonical: any reference
/// computation that lists, in strictly ascending raw-key order, the
/// newest version each source set holds of each of its raw keys yields
/// exactly this sequence — provided no two sources disagree on the
/// record a composite key names.
pub proof fn lemma_merge_dedup_reference(
    srcs: Seq<Seq<(Seq<u8>, u64, Seq<u8>)>>,
    alt: Seq<(Seq<u8>, u64, Seq<u8>)>,
)
    requires
        forall|i: int| 0 <= i < srcs.len() ==> entries_sorted(#[trigger] srcs[i]),
        forall|i: int, t: int, i2: int, t2: int|
            0 <= i < srcs.len() && 0 <= t < srcs[i].len() && 0 <= i2 < srcs.len() && 0 <= t2
                < srcs[i2].len() && entry_key(#[trigger] srcs[i][t]) == entry_key(
                #[trigger] srcs[i2][t2],
            ) ==> srcs[i][t] == srcs[i2][t2],
        raw_sorted(alt),
        forall|j: int|
            0 <= j < alt.len() ==> exists|i: int, t: int|
                0 <= i < srcs.len() && 0 <= t < srcs[i].len() && (#[trigger] srcs[i][t]) == (
                #[trigger] alt[j]),
        forall|i: int, t: int|
            0 <= i < srcs.len() && 0 <= t < srcs[i].len() ==> has_raw(
                alt,
                (#[trigger] srcs[i][t]).0,
            ),
        forall|j: int, i: int, t: int|
            0 <= j < alt.len() && 0 <= i < srcs.len() && 0 <= t < srcs[i].len() && (
            #[trigger] srcs[i][t]).0 == (#[trigger] alt[j]).0 ==> key_le(
                entry_key(alt[j]),
                entry_key(srcs[i][t]),
            ),
    ensures
        alt == spec_dedup_raw(spec_merge_fold(srcs)),
{
    let d = spec_dedup_raw(spec_merge_fold(srcs));
    lemma_merge_newest_per_raw_key(srcs);
    assert forall|j: int, k: int|
        0 <= j < alt.len() && 0 <= k < d.len() && (#[trigger] alt[j]).0 == (
    #[trigger] d[k]).0 implies alt[j] == d[k] by {
        let (i1, t1) = choose|i1: int, t1: int|
            0 <= i1 < srcs.len() && 0 <= t1 < srcs[i1].len() && (#[trigger] srcs[i1][t1])
                == alt[j];
        let i2 = choose|i2: int|
            0 <= i2 < srcs.len() && (#[trigger] srcs[i2]).contains(d[k]) && (forall|i3: int|
                0 <= i3 < i2 ==> !has_key(#[trigger] srcs[i3], entry_key(d[k])));
        let t2 = choose|t2: int| 0 <= t2 < srcs[i2].len() && (#[trigger] srcs[i2][t2]) == d[k];
        assert(key_le(entry_key(alt[j]), entry_key(srcs[i2][t2])));
        assert(key_le(entry_key(d[k]), entry_key(srcs[i1][t1])));
        lemma_key_order_total(entry_key(alt[j]), entry_key(d[k]));
        assert(entry_key(srcs[i1][t1]) == entry_key(srcs[i2][t2]));
        assert(srcs[i1][t1] == srcs[i2][t2]);
    }
    assert forall|j: int| 0 <= j < alt.len() implies has_raw(d, (#[trigger] alt[j]).0) by {
        let (i1, t1) = choose|i1: int, t1: int|
            0 <= i1 < srcs.len() && 0 <= t1 < srcs[i1].len() && (#[trigger] srcs[i1][t1])
                == alt[j];
        assert(has_raw(d, srcs[i1][t1].0));
    }
    assert forall|k: int| 0 <= k < d.len() implies has_raw(alt, (#[trigger] d[k]).0) by {
        let i2 = choose|i2: int|
            0 <= i2 < srcs.len() && (#[trigger] srcs[i2]).contains(d[k]) && (forall|i3: int|
                0 <= i3 < i2 ==> !has_key(#[trigger] srcs[i3], entry_key(d[k])));
        let t2 = choose|t2: int| 0 <= t2 < srcs[i2].len() && (#[trigger] srcs[i2][t2]) == d[k];
        assert(has_raw(alt, srcs[i2][t2].0));
    }
    lemma_raw_sorted_unique(alt, d);
}

/// A merge iterator: an owned cursor over the merged view of many sources.
pub struct MergeIter {
    pub entries: Vec<Entry>,
    pub pos: usize,
}

impl MergeIter {
    pub open spec fn wf(&self) -> bool {
        self.pos <= self.entries@.len()
    }

    /// The records the cursor has not yet yielded.
    pub open spec fn remaining(&self) -> Seq<(Seq<u8>, u64, Seq<u8>)> {
        entry_seq_view(self.entries@).skip(self.pos as int)
    }

    /// Merge the sources, newest first: one record per raw key, the newest
    /// version winning, an earlier source winning an exact-key tie.
    pub fn create(iters: Vec<MemTableIter>) -> (r: MergeIter)
        requires
            forall|i: int|
                0 <= i < iters@.len() ==> (#[trigger] iters@[i]).wf() && entries_sorted(
                    iters@[i].remaining(),
                ),
        ensures
            r.wf(),
            r.pos == 0,
            entry_seq_view(r.entries@) == spec_dedup_raw(spec_merge_fold(sources_view(iters@))),
    {
        let ghost srcs = sources_view(iters@);
        let mut acc: Vec<Entry> = Vec::new();
        let mut i: usize = 0;
        proof {
            assert(entry_seq_view(acc@) =~= Seq::<(Seq<u8>, u64, Seq<u8>)>::empty());
            assert(srcs.take(0) =~= Seq::<Seq<(Seq<u8>, u64, Seq<u8>)>>::empty());
        }
        while i < iters.len()
            invariant
                0 <= i <= iters@.len(),
                srcs == sources_view(iters@),
                forall|t: int|
                    0 <= t < iters@.len() ==> (#[trigger] iters@[t]).wf() && entries_sorted(
                        iters@[t].remaining(),
                    ),
                entry_seq_view(acc@) == spec_merge_fold(srcs.take(i as int)),
            decreases iters@.len() - i,
        {
            proof {
                assert(forall|t: int|
                    0 <= t < i ==> srcs.take(i as int)[t] == #[trigger] srcs[t]);
                lemma_merge_fold(srcs.take(i as int));
                assert(srcs[i as int] == iters@[i as int].remaining());
            }
            let src = iters[i].rest_vec();
            let acc2 = merge2(&acc, &src);
            proof {
                assert(srcs.take(i + 1).drop_last() =~= srcs.take(i as int));
                assert(srcs.take(i + 1).last() == srcs[i as int]);
            }
            acc = acc2;
            i += 1;
        }
        proof {
            assert(srcs.take(srcs.len() as int) =~= srcs);
            lemma_merge_fold(srcs);
        }
        // Keep the first (newest) version of each raw key.
        let ghost ges = entry_seq_view(acc@);
        let mut out: Vec<Entry> = Vec::new();
        let mut t: usize = 0;
        proof {
            assert(spec_dedup_raw(ges) == entry_seq_view(out@) + spec_dedup_from(ges, 0)) by {
                assert(entry_seq_view(out@) =~= Seq::<(Seq<u8>, u64, Seq<u8>)>::empty());
                assert(entry_seq_view(out@) + spec_dedup_from(ges, 0) =~= spec_dedup_from(
                    ges,
                    0,
                ));
            }
        }
        while t < acc.len()
            invariant
                0 <= t <= acc@.len(),
                ges == entry_seq_view(acc@),
                spec_dedup_raw(ges) == entry_seq_view(out@) + spec_dedup_from(ges, t as int),
            decreases acc@.len() - t,
        {
            let keep: bool = if t == 0 {
                true
            } else {
                crate::key::bytes_cmp(
                    acc[t - 1].key.bytes.as_slice(),
                    acc[t].key.bytes.as_slice(),
                ) != 0
            };
            proof {
                if t > 0 {
                    crate::key::lemma_bytes_order_total(
                        ges[t as int - 1].0,
                        ges[t as int].0,
                    );
                }
            }
            if keep {
                let ghost prev = out@;
                let c = acc[t].clone();
                proof {
                    assert(c@ == ges[t as int]);
                }
                out.push(c);
                proof {
                    assert(spec_dedup_from(ges, t as int) == seq![ges[t as int]]
                        + spec_dedup_from(ges, t as int + 1));
                    assert(entry_seq_view(out@) =~= entry_seq_view(prev) + seq![ges[t as int]]);
                    assert(entry_seq_view(out@) + spec_dedup_from(ges, t + 1) =~= entry_seq_view(
                        prev,
                    ) + spec_dedup_from(ges, t as int));
                }
            } else {
                proof {
                    assert(spec_dedup_from(ges, t as int) == spec_dedup_from(ges, t as int + 1));
                }
            }
            t += 1;
        }
        proof {
            assert(spec_dedup_from(ges, acc@.len() as int).len() == 0);
            assert(entry_seq_view(out@) + spec_dedup_from(ges, acc@.len() as int)
                =~= entry_seq_view(out@));
        }
        MergeIter { entries: out, pos: 0 }
    }

    pub fn is_valid(&self) -> (r: bool)
        requires
            self.wf(),
        ensures
            r == (self.remaining().len() > 0),
    {
        self.pos < self.entries.len()
    }

    pub fn key(&self) -> (r: &KeyVec)
        requires
            self.wf(),
            self.remaining().len() > 0,
        ensures
            r@ == entry_key(self.remaining()[0]),
    {
        proof {
            assert(self.remaining()[0] == entry_seq_view(self.entries@)[self.pos as int]);
        }
        &self.entries[self.pos].key
    }

    pub fn value(&self) -> (r: &Vec<u8>)
        requires
            self.wf(),
            self.remaining().len() > 0,
        ensures
            r@ == self.remaining()[0].2,
    {
        proof {
            assert(self.remaining()[0] == entry_seq_view(self.entries@)[self.pos as int]);
        }
        &self.entries[self.pos].value
    }

    pub fn next(&mut self) -> (r: Result<(), &'static str>)
        requires
            old(self).wf(),
            old(self).remaining().len() > 0,
        ensures
            r is Ok,
            final(self).wf(),
            final(self).remaining() == old(self).remaining().skip(1),
    {
        let n = self.entries.len();
        proof {
            assert(self.pos < n);
        }
        self.pos = self.pos + 1;
        proof {
            assert(self.remaining() =~= old(self).remaining().skip(1));
        }
        Ok(())
    }
}

/// Sorted strictly by raw key alone: single-version runs.
pub open spec fn raw_sorted(es: Seq<(Seq<u8>, u64, Seq<u8>)>) -> bool {
    forall|i: int, j: int|
        0 <= i < j < es.len() ==> bytes_lt((#[trigger] es[i]).0, (#[trigger] es[j]).0)
}

/// Two-way merge by raw key alone; on an equal raw key only the left
/// record survives.
pub open spec fn spec_merge2_raw(
    a: Seq<(Seq<u8>, u64, Seq<u8>)>,
    b: Seq<(Seq<u8>, u64, Seq<u8>)>,
) -> Seq<(Seq<u8>, u64, Seq<u8>)>
    decreases a.len() + b.len(),
{
    if a.len() == 0 {
        b
    } else if b.len() == 0 {
        a
    } else if a[0].0 == b[0].0 {
        seq![a[0]] + spec_merge2_raw(a.skip(1), b.skip(1))
    } else if bytes_lt(a[0].0, b[0].0) {
        seq![a[0]] + spec_merge2_raw(a.skip(1), b)
    } else {
        seq![b[0]] + spec_merge2_raw(a, b.skip(1))
    }
}

/// Merges two sources; on an equal raw key, only the first (local) source's
/// record is produced.
pub struct TwoMergeIterator {
    pub entries: Vec<Entry>,
    pub pos: usize,
}

impl TwoMergeIterator {
    pub open spec fn wf(&self) -> bool {
        self.pos <= self.entries@.len()
    }

    pub open spec fn remaining(&self) -> Seq<(Seq<u8>, u64, Seq<u8>)> {
        entry_seq_view(self.entries@).skip(self.pos as int)
    }

    /// Overlay `a` on `b`: on an equal raw key the left source wins.
    pub fn create(a: &MemTableIter, b: &MemTableIter) -> (r: TwoMergeIterator)
        requires
            a.wf(),
            b.wf(),
            raw_sorted(a.remaining()),
            raw_sorted(b.remaining()),
        ensures
            r.wf(),
            r.pos == 0,
            entry_seq_view(r.entries@) == spec_merge2_raw(a.remaining(), b.remaining()),
    {
        let va = a.rest_vec();
        let vb = b.rest_vec();
        let ghost ga = a.remaining();
        let ghost gb = b.remaining();
        let mut out: Vec<Entry> = Vec::new();
        let mut i: usize = 0;
        let mut j: usize = 0;
        let na = va.len();
        let nb = vb.len();
        proof {
            assert(ga.skip(0) =~= ga);
            assert(gb.skip(0) =~= gb);
            assert(entry_seq_view(out@) =~= Seq::<(Seq<u8>, u64, Seq<u8>)>::empty());
            assert(entry_seq_view(out@) + spec_merge2_raw(ga, gb) =~= spec_merge2_raw(ga, gb));
        }
        while i < na || j < nb
            invariant
                0 <= i <= na == va@.len(),
                0 <= j <= nb == vb@.len(),
                ga == entry_seq_view(va@),
                gb == entry_seq_view(vb@),
                spec_merge2_raw(ga, gb) == entry_seq_view(out@) + spec_merge2_raw(
                    ga.skip(i as int),
                    gb.skip(j as int),
                ),
            decreases na - i + nb - j,
        {
            let ghost ra = ga.skip(i as int);
            let ghost rb = gb.skip(j as int);
            let ghost prev = out@;
            let take_a: bool = if i >= na {
                false
            } else if j >= nb {
                true
            } else {
                let c = crate::key::bytes_cmp(
                    va[i].key.bytes.as_slice(),
                    vb[j].key.bytes.as_slice(),
                );
                c == 0 || c == -1
            };
            if take_a {
                let e = va[i].clone();
                proof {
                    assert(e@ == ga[i as int]);
                    assert(ra[0] == ga[i as int]);
                }
                out.push(e);
                proof {
                    assert(entry_seq_view(out@) =~= entry_seq_view(prev) + seq![ga[i as int]]);
                    assert(ra.skip(1) =~= ga.skip(i + 1));
                }
                if j < nb {
                    let c2 = crate::key::bytes_cmp(
                        va[i].key.bytes.as_slice(),
                        vb[j].key.bytes.as_slice(),
                    );
                    if c2 == 0 {
                        proof {
                            assert(rb[0] == gb[j as int]);
                            assert(rb.skip(1) =~= gb.skip(j + 1));
                            assert(spec_merge2_raw(ra, rb) == seq![ra[0]] + spec_merge2_raw(
                                ra.skip(1),
                                rb.skip(1),
                            ));
                            assert(entry_seq_view(out@) + spec_merge2_raw(
                                ga.skip(i + 1),
                                gb.skip(j + 1),
                            ) =~= spec_merge2_raw(ga, gb));
                        }
                        j += 1;
                        i += 1;
                        continue;
                    }
                }
                proof {
                    if j < nb {
                        assert(rb[0] == gb[j as int]);
                        assert(bytes_lt(ra[0].0, rb[0].0));
                        lemma_bytes_order_total(ra[0].0, rb[0].0);
                        assert(spec_merge2_raw(ra, rb) == seq![ra[0]] + spec_merge2_raw(
                            ra.skip(1),
                            rb,
                        ));
                    } else {
                        assert(rb.len() == 0);
                        assert(spec_merge2_raw(ra, rb) == ra);
                        assert(ra =~= seq![ra[0]] + ra.skip(1));
                        assert(spec_merge2_raw(ra.skip(1), rb) == ra.skip(1));
                    }
                    assert(entry_seq_view(out@) + spec_merge2_raw(
                        ga.skip(i + 1),
                        gb.skip(j as int),
                    ) =~= spec_merge2_raw(ga, gb));
                }
                i += 1;
            } else {
                let e = vb[j].clone();
                proof {
                    assert(e@ == gb[j as int]);
                    assert(rb[0] == gb[j as int]);
                }
                out.push(e);
                proof {
                    assert(entry_seq_view(out@) =~= entry_seq_view(prev) + seq![gb[j as int]]);
                    assert(rb.skip(1) =~= gb.skip(j + 1));
                    if i < na {
                        assert(ra[0] == ga[i as int]);
                        assert(bytes_lt(rb[0].0, ra[0].0));
                        lemma_bytes_order_total(ra[0].0, rb[0].0);
                        assert(spec_merge2_raw(ra, rb) == seq![rb[0]] + spec_merge2_raw(
                            ra,
                            rb.skip(1),
                        ));
                    } else {
                        assert(ra.len() == 0);
                        assert(spec_merge2_raw(ra, rb) == rb);
                        assert(rb =~= seq![rb[0]] + rb.skip(1));
                        assert(spec_merge2_raw(ra, rb.skip(1)) == rb.skip(1));
                    }
                    assert(entry_seq_view(out@) + spec_merge2_raw(
                        ga.skip(i as int),
                        gb.skip(j + 1),
                    ) =~= spec_merge2_raw(ga, gb));
                }
                j += 1;
            }
        }
        proof {
            assert(ga.skip(na as int).len() == 0);
            assert(gb.skip(nb as int).len() == 0);
            assert(spec_merge2_raw(ga.skip(na as int), gb.skip(nb as int)).len() == 0);
            assert(entry_seq_view(out@) + spec_merge2_raw(ga.skip(na as int), gb.skip(nb as int))
                =~= entry_seq_view(out@));
        }
        TwoMergeIterator { entries: out, pos: 0 }
    }

    pub fn is_valid(&self) -> (r: bool)
        requires
            self.wf(),
        ensures
            r == (self.remaining().len() > 0),
    {
        self.pos < self.entries.len()
    }

    pub fn key(&self) -> (r: &KeyVec)
        requires
            self.wf(),
            self.remaining().len() > 0,
        ensures
            r@ == entry_key(self.remaining()[0]),
    {
        proof {
            assert(self.remaining()[0] == entry_seq_view(self.entries@)[self.pos as int]);
        }
        &self.entries[self.pos].key
    }

    pub fn value(&self) -> (r: &Vec<u8>)
        requires
            self.wf(),
            self.remaining().len() > 0,
        ensures
            r@ == self.remaining()[0].2,
    {
        proof {
            assert(self.remaining()[0] == entry_seq_view(self.entries@)[self.pos as int]);
        }
        &self.entries[self.pos].value
    }

    pub fn next(&mut self) -> (r: Result<(), &'static str>)
        requires
            old(self).wf(),
            old(self).remaining().len() > 0,
        ensures
            r is Ok,
            final(self).wf(),
            final(self).remaining() == old(self).remaining().skip(1),
    {
        let n = self.entries.len();
        proof {
            assert(self.pos < n);
        }
        self.pos = self.pos + 1;
        proof {
            assert(self.remaining() =~= old(self).remaining().skip(1));
        }
        Ok(())
    }
}

/// The versions of a run at or below `read_ts`, in order.
pub open spec fn spec_ts_filter(es: Seq<(Seq<u8>, u64, Seq<u8>)>, rts: u64) -> Seq<
    (Seq<u8>, u64, Seq<u8>),
>
    decreases es.len(),
{
    if es.len() == 0 {
        Seq::empty()
    } else if es[0].1 <= rts {
        seq![es[0]] + spec_ts_filter(es.skip(1), rts)
    } else {
        spec_ts_filter(es.skip(1), rts)
    }
}

/// Dropping tombstones from a single-version run keeps it strictly
/// sorted by raw key, and every kept record stands in the input.
pub proof fn lemma_live_filter_raw_sorted(es: Seq<(Seq<u8>, u64, Seq<u8>)>)
    requires
        raw_sorted(es),
    ensures
        raw_sorted(spec_live_filter(es)),
        forall|j: int|
            0 <= j < spec_live_filter(es).len() ==> exists|t: int|
                0 <= t < es.len() && (#[trigger] es[t]) == #[trigger] spec_live_filter(es)[j],
    decreases es.len(),
{
    if es.len() > 0 {
        let tail = es.skip(1);
        assert forall|i: int, j: int| 0 <= i < j < tail.len() implies bytes_lt(
            (#[trigger] tail[i]).0,
            (#[trigger] tail[j]).0,
        ) by {
            assert(tail[i] == es[i + 1]);
            assert(tail[j] == es[j + 1]);
        }
        lemma_live_filter_raw_sorted(tail);
        let d = spec_live_filter(es);
        let dr = spec_live_filter(tail);
        if es[0].2.len() > 0 {
            assert(d == seq![es[0]] + dr);
            assert forall|j: int| 0 <= j < d.len() implies exists|t: int|
                0 <= t < es.len() && (#[trigger] es[t]) == #[trigger] d[j] by {
                if j == 0 {
                    assert(es[0] == d[0]);
                } else {
                    assert(d[j] == dr[j - 1]);
                    let t = choose|t: int| 0 <= t < tail.len() && (#[trigger] tail[t]) == dr[j - 1];
                    assert(es[t + 1] == d[j]);
                }
            }
            assert forall|j1: int, j2: int| 0 <= j1 < j2 < d.len() implies bytes_lt(
                (#[trigger] d[j1]).0,
                (#[trigger] d[j2]).0,
            ) by {
                if j1 == 0 {
                    assert(d[j2] == dr[j2 - 1]);
                    let t = choose|t: int| 0 <= t < tail.len() && (#[trigger] tail[t]) == dr[j2 - 1];
                    assert(tail[t] == es[t + 1]);
                    assert(bytes_lt(es[0].0, es[t + 1].0));
                } else {
                    assert(d[j1] == dr[j1 - 1]);
                    assert(d[j2] == dr[j2 - 1]);
                }
            }
        } else {
            assert(d == dr);
            assert forall|j: int| 0 <= j < d.len() implies exists|t: int|
                0 <= t < es.len() && (#[trigger] es[t]) == #[trigger] d[j] by {
                let t = choose|t: int| 0 <= t < tail.len() && (#[trigger] tail[t]) == dr[j];
                assert(es[t + 1] == d[j]);
            }
        }
    }
}

/// The records of a run that hold a value: the tombstones dropped.
pub open spec fn spec_live_filter(es: Seq<(Seq<u8>, u64, Seq<u8>)>) -> Seq<
    (Seq<u8>, u64, Seq<u8>),
>
    decreases es.len(),
{
    if es.len() == 0 {
        Seq::empty()
    } else if es[0].2.len() > 0 {
        seq![es[0]] + spec_live_filter(es.skip(1))
    } else {
        spec_live_filter(es.skip(1))
    }
}

/// Restricting to versions at or below a timestamp keeps a run sorted,
/// and every kept record comes from the run.
pub proof fn lemma_ts_filter_sorted(es: Seq<(Seq<u8>, u64, Seq<u8>)>, rts: u64)
    requires
        entries_sorted(es),
    ensures
        entries_sorted(spec_ts_filter(es, rts)),
        forall|j: int|
            0 <= j < spec_ts_filter(es, rts).len() ==> es.contains(
                #[trigger] spec_ts_filter(es, rts)[j],
            ),
    decreases es.len(),
{
    if es.len() > 0 {
        lemma_sorted_skip1(es);
        lemma_sorted_head_min(es);
        lemma_ts_filter_sorted(es.skip(1), rts);
        let f = spec_ts_filter(es, rts);
        let fr = spec_ts_filter(es.skip(1), rts);
        assert forall|j: int|
            0 <= j < f.len() implies es.contains(#[trigger] f[j]) by {
            if es[0].1 <= rts && j == 0 {
                assert(es[0] == f[0]);
                assert(es.contains(es[0]));
            } else {
                let jr: int = if es[0].1 <= rts {
                    j - 1
                } else {
                    j
                };
                assert(f[j] == fr[jr]);
                assert(es.skip(1).contains(fr[jr]));
                let t = choose|t: int| 0 <= t < es.skip(1).len() && es.skip(1)[t] == fr[jr];
                assert(es[t + 1] == fr[jr]);
                assert(es.contains(es[t + 1]));
            }
        }
        if es[0].1 <= rts {
            assert forall|j1: int, j2: int|
                0 <= j1 < j2 < f.len() implies key_lt(entry_key(#[trigger] f[j1]), entry_key(
                #[trigger] f[j2],
            )) by {
                if j1 == 0 {
                    assert(f[j2] == fr[j2 - 1]);
                    assert(es.skip(1).contains(fr[j2 - 1]));
                    let t = choose|t: int|
                        0 <= t < es.skip(1).len() && es.skip(1)[t] == fr[j2 - 1];
                    assert(es.skip(1)[t] == es[t + 1]);
                } else {
                    assert(f[j1] == fr[j1 - 1]);
                    assert(f[j2] == fr[j2 - 1]);
                }
            }
        }
    }
}

/// Filter a cursor's records to the versions at or below `read_ts`.
pub fn ts_filter(v: &Vec<Entry>, rts: u64) -> (r: Vec<Entry>)
    ensures
        entry_seq_view(r@) == spec_ts_filter(entry_seq_view(v@), rts),
{
    let ghost es = entry_seq_view(v@);
    let mut out: Vec<Entry> = Vec::new();
    let mut i: usize = 0;
    proof {
        assert(es.skip(0) =~= es);
        assert(entry_seq_view(out@) =~= Seq::<(Seq<u8>, u64, Seq<u8>)>::empty());
        assert(entry_seq_view(out@) + spec_ts_filter(es, rts) =~= spec_ts_filter(es, rts));
    }
    while i < v.len()
        invariant
            0 <= i <= v@.len(),
            es == entry_seq_view(v@),
            spec_ts_filter(es, rts) == entry_seq_view(out@) + spec_ts_filter(
                es.skip(i as int),
                rts,
            ),
        decreases v@.len() - i,
    {
        proof {
            assert(es.skip(i as int)[0] == es[i as int]);
            assert(es.skip(i as int).skip(1) =~= es.skip(i + 1));
        }
        let ghost prev = out@;
        if v[i].key.ts() <= rts {
            let c = v[i].clone();
            proof {
                assert(c@ == es[i as int]);
            }
            out.push(c);
            proof {
                assert(entry_seq_view(out@) =~= entry_seq_view(prev) + seq![es[i as int]]);
                assert(entry_seq_view(out@) + spec_ts_filter(es.skip(i + 1), rts)
                    =~= entry_seq_view(prev) + spec_ts_filter(es.skip(i as int), rts));
            }
        }
        i += 1;
    }
    proof {
        assert(spec_ts_filter(es.skip(es.len() as int), rts).len() == 0);
        assert(entry_seq_view(out@) + spec_ts_filter(es.skip(es.len() as int), rts)
            =~= entry_seq_view(out@));
    }
    out
}

/// Drop the tombstones from a cursor's records.
pub fn live_filter(v: &Vec<Entry>) -> (r: Vec<Entry>)
    ensures
        entry_seq_view(r@) == spec_live_filter(entry_seq_view(v@)),
{
    let ghost es = entry_seq_view(v@);
    let mut out: Vec<Entry> = Vec::new();
    let mut i: usize = 0;
    proof {
        assert(es.skip(0) =~= es);
        assert(entry_seq_view(out@) =~= Seq::<(Seq<u8>, u64, Seq<u8>)>::empty());
        assert(entry_seq_view(out@) + spec_live_filter(es) =~= spec_live_filter(es));
    }
    while i < v.len()
        invariant
            0 <= i <= v@.len(),
            es == entry_seq_view(v@),
            spec_live_filter(es) == entry_seq_view(out@) + spec_live_filter(es.skip(i as int)),
        decreases v@.len() - i,
    {
        proof {
            assert(es.skip(i as int)[0] == es[i as int]);
            assert(es.skip(i as int).skip(1) =~= es.skip(i + 1));
        }
        let ghost prev = out@;
        if v[i].value.len() > 0 {
            let c = v[i].clone();
            proof {
                assert(c@ == es[i as int]);
            }
            out.push(c);
            proof {
                assert(entry_seq_view(out@) =~= entry_seq_view(prev) + seq![es[i as int]]);
                assert(entry_seq_view(out@) + spec_live_filter(es.skip(i + 1))
                    =~= entry_seq_view(prev) + spec_live_filter(es.skip(i as int)));
            }
        }
        i += 1;
    }
    proof {
        assert(spec_live_filter(es.skip(es.len() as int)).len() == 0);
        assert(entry_seq_view(out@) + spec_live_filter(es.skip(es.len() as int))
            =~= entry_seq_view(out@));
    }
    out
}

} // verus!
