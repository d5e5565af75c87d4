//! Compaction's record selection: which versions a merged run keeps under
//! a read watermark, and why dropping the rest changes nothing any open
//! snapshot can see.
//!
//! The watermark is the smallest read timestamp still observable. A
//! version above it is kept; at or below it, only the newest version of
//! each raw key survives, and only if it is not a tombstone.

use vstd::prelude::*;
use crate::mem_table::{mem_entry_wf, mem_entries_wf};
use crate::key::{
    Entry,
    entry_key,
    entry_seq_view,
    entries_sorted,
    key_lt,
    bytes_lt,
    lemma_key_order_total,
    lemma_bytes_order_total,
};

verus! {

/// Does position `i` survive compaction under watermark `w`? A version
/// above the watermark always does; one at or below it only as the first
/// (and so newest) such version of its raw key, and only when it holds a
/// value rather than a tombstone.
pub open spec fn spec_keep(es: Seq<(Seq<u8>, u64, Seq<u8>)>, w: u64, i: int) -> bool {
    es[i].1 > w || ((i == 0 || es[i - 1].0 != es[i].0 || es[i - 1].1 > w) && es[i].2.len() > 0)
}

/// The run after compaction, from position `i` on.
pub open spec fn spec_compact_from(es: Seq<(Seq<u8>, u64, Seq<u8>)>, w: u64, i: int) -> Seq<
    (Seq<u8>, u64, Seq<u8>),
>
    decreases es.len() - i,
{
    if i < 0 || i >= es.len() {
        Seq::empty()
    } else if spec_keep(es, w, i) {
        seq![es[i]] + spec_compact_from(es, w, i + 1)
    } else {
        spec_compact_from(es, w, i + 1)
    }
}

pub open spec fn spec_compact(es: Seq<(Seq<u8>, u64, Seq<u8>)>, w: u64) -> Seq<
    (Seq<u8>, u64, Seq<u8>),
> {
    spec_compact_from(es, w, 0)
}

/// Version `t` of `raw` is the one a read at `rts` returns from this run:
/// at or below `rts`, and the newest such.
pub open spec fn spec_run_wins(
    es: Seq<(Seq<u8>, u64, Seq<u8>)>,
    raw: Seq<u8>,
    rts: u64,
    t: int,
) -> bool {
    &&& 0 <= t < es.len()
    &&& es[t].0 == raw
    &&& es[t].1 <= rts
    &&& forall|t2: int|
        0 <= t2 < es.len() && (#[trigger] es[t2]).0 == raw && es[t2].1 <= rts ==> es[t2].1
            <= es[t].1
}

/// Between two positions of one raw key, every record has that raw key.
proof fn lemma_group_contiguous(es: Seq<(Seq<u8>, u64, Seq<u8>)>, t: int, m: int, t2: int)
    requires
        entries_sorted(es),
        0 <= t <= m <= t2 < es.len(),
        es[t].0 == es[t2].0,
    ensures
        es[m].0 == es[t].0,
{
    if t < m {
        assert(key_lt(entry_key(es[t]), entry_key(es[m])));
    }
    if m < t2 {
        assert(key_lt(entry_key(es[m]), entry_key(es[t2])));
    }
    lemma_bytes_order_total(es[t].0, es[m].0);
    lemma_bytes_order_total(es[m].0, es[t2].0);
    if bytes_lt(es[t].0, es[m].0) && bytes_lt(es[m].0, es[t2].0) {
        crate::key::lemma_bytes_lt_trans(es[t].0, es[m].0, es[t2].0);
        lemma_bytes_order_total(es[t].0, es[t2].0);
    }
}

/// Compaction is observationally transparent above the watermark: for any
/// read timestamp `rts` at or above `w`, the version a read of `raw`
/// returns is unchanged. A winning version holding a value survives the
/// filter; when the winning version is a tombstone, nothing of that raw
/// key at or below `rts` survives — the read stays absent either way.
pub proof fn lemma_compaction_transparent(
    es: Seq<(Seq<u8>, u64, Seq<u8>)>,
    w: u64,
    rts: u64,
    raw: Seq<u8>,
    t: int,
)
    requires
        entries_sorted(es),
        w <= rts,
        spec_run_wins(es, raw, rts, t),
    ensures
        es[t].2.len() > 0 ==> spec_keep(es, w, t),
        es[t].2.len() == 0 && es[t].1 <= w ==> forall|t2: int|
            0 <= t2 < es.len() && (#[trigger] es[t2]).0 == raw && spec_keep(es, w, t2)
                ==> es[t2].1 > rts,
{
    if es[t].2.len() > 0 {
        if es[t].1 <= w {
            if t > 0 && es[t - 1].0 == es[t].0 {
                assert(key_lt(entry_key(es[t - 1]), entry_key(es[t])));
                lemma_bytes_order_total(es[t - 1].0, es[t].0);
                assert(es[t - 1].1 > es[t].1);
                if es[t - 1].1 <= w {
                    assert(es[t - 1].1 <= rts);
                    assert(es[t - 1].1 <= es[t].1);
                }
            }
        }
    }
    if es[t].2.len() == 0 && es[t].1 <= w {
        assert forall|t2: int|
            0 <= t2 < es.len() && (#[trigger] es[t2]).0 == raw && spec_keep(es, w, t2) implies
            es[t2].1 > rts by {
            if es[t2].1 <= rts {
                assert(es[t2].1 <= es[t].1);
                if es[t2].1 > w {
                    // Above the watermark yet at most the winner's
                    // timestamp, which sits at or below the watermark.
                } else {
                    // Kept below the watermark: first of its group there.
                    if es[t2].1 == es[t].1 {
                        if t2 != t {
                            lemma_key_order_total(entry_key(es[t]), entry_key(es[t2]));
                        }
                        assert(t2 == t);
                    } else {
                        assert(es[t2].1 < es[t].1);
                        assert(t < t2) by {
                            if t2 < t {
                                assert(key_lt(entry_key(es[t2]), entry_key(es[t])));
                                lemma_bytes_order_total(es[t2].0, es[t].0);
                            }
                            if t2 == t {
                            }
                        }
                        assert(es[t2 - 1].0 == es[t2].0) by {
                            lemma_group_contiguous(es, t, t2 - 1, t2);
                        }
                        assert(es[t2 - 1].1 > w);
                        lemma_bytes_order_total(es[t2 - 1].0, es[t2].0);
                        if t == t2 - 1 {
                        } else {
                            assert(key_lt(entry_key(es[t]), entry_key(es[t2 - 1])));
                            lemma_bytes_order_total(es[t].0, es[t2 - 1].0);
                            assert(es[t].1 > es[t2 - 1].1);
                        }
                    }
                }
            }
        }
    }
}

/// The compacted run keeps its order and its records: it is sorted, and
/// every kept record stands in the original run.
pub proof fn lemma_compact_sorted(es: Seq<(Seq<u8>, u64, Seq<u8>)>, w: u64, i: int)
    requires
        entries_sorted(es),
        0 <= i <= es.len(),
    ensures
        entries_sorted(spec_compact_from(es, w, i)),
        forall|j: int|
            0 <= j < spec_compact_from(es, w, i).len() ==> exists|t: int|
                i <= t < es.len() && (#[trigger] es[t]) == #[trigger] spec_compact_from(
                    es,
                    w,
                    i,
                )[j],
    decreases es.len() - i,
{
    if i < es.len() {
        lemma_compact_sorted(es, w, i + 1);
        let d = spec_compact_from(es, w, i);
        let dr = spec_compact_from(es, w, i + 1);
        if spec_keep(es, w, i) {
            assert forall|j: int|
                0 <= j < d.len() implies exists|t: int|
                i <= t < es.len() && (#[trigger] es[t]) == #[trigger] d[j] by {
                if j == 0 {
                    assert(es[i] == d[0]);
                } else {
                    assert(d[j] == dr[j - 1]);
                }
            }
            assert forall|j1: int, j2: int|
                0 <= j1 < j2 < d.len() implies key_lt(entry_key(#[trigger] d[j1]), entry_key(
                #[trigger] d[j2],
            )) by {
                if j1 == 0 {
                    assert(d[j2] == dr[j2 - 1]);
                    let t = choose|t: int|
                        i + 1 <= t < es.len() && (#[trigger] es[t]) == dr[j2 - 1];
                    assert(key_lt(entry_key(es[i]), entry_key(es[t])));
                } else {
                    assert(d[j1] == dr[j1 - 1]);
                    assert(d[j2] == dr[j2 - 1]);
                }
            }
        }
    }
}

/// Compaction keeps a well-formed run well formed: the output is sorted
/// and every record of it is one of the input's records.
pub proof fn lemma_compact_wf(es: Seq<(Seq<u8>, u64, Seq<u8>)>, w: u64)
    requires
        mem_entries_wf(es),
    ensures
        mem_entries_wf(spec_compact(es, w)),
{
    lemma_compact_sorted(es, w, 0);
    let d = spec_compact(es, w);
    assert forall|j: int| 0 <= j < d.len() implies mem_entry_wf(#[trigger] d[j]) by {
        let t = choose|t: int|
            0 <= t < es.len() && (#[trigger] es[t]) == spec_compact_from(es, w, 0)[j];
        assert(mem_entry_wf(es[t]));
    }
}

/// Apply the watermark filter to a merged, sorted run.
pub fn compact_entries(merged: &Vec<Entry>, watermark: u64) -> (r: Vec<Entry>)
    requires
        entries_sorted(entry_seq_view(merged@)),
    ensures
        entry_seq_view(r@) == spec_compact(entry_seq_view(merged@), watermark),
{
    let ghost es = entry_seq_view(merged@);
    let mut out: Vec<Entry> = Vec::new();
    let mut i: usize = 0;
    proof {
        assert(entry_seq_view(out@) =~= Seq::<(Seq<u8>, u64, Seq<u8>)>::empty());
        assert(entry_seq_view(out@) + spec_compact_from(es, watermark, 0) =~= spec_compact_from(
            es,
            watermark,
            0,
        ));
    }
    while i < merged.len()
        invariant
            0 <= i <= merged@.len(),
            es == entry_seq_view(merged@),
            spec_compact(es, watermark) == entry_seq_view(out@) + spec_compact_from(
                es,
                watermark,
                i as int,
            ),
        decreases merged@.len() - i,
    {
        let e = &merged[i];
        let keep: bool = if e.key.ts() > watermark {
            true
        } else if e.value.len() == 0 {
            false
        } else if i == 0 {
            true
        } else {
            crate::key::bytes_cmp(
                merged[i - 1].key.bytes.as_slice(),
                e.key.bytes.as_slice(),
            ) != 0 || merged[i - 1].key.ts() > watermark
        };
        proof {
            if i > 0 {
                lemma_bytes_order_total(es[i as int - 1].0, es[i as int].0);
            }
            assert(keep == spec_keep(es, watermark, i as int));
        }
        if keep {
            let ghost prev = out@;
            let c = e.clone();
            proof {
                assert(c@ == es[i as int]);
            }
            out.push(c);
            proof {
                assert(spec_compact_from(es, watermark, i as int) == seq![es[i as int]]
                    + spec_compact_from(es, watermark, i as int + 1));
                assert(entry_seq_view(out@) =~= entry_seq_view(prev) + seq![es[i as int]]);
                assert(entry_seq_view(out@) + spec_compact_from(es, watermark, i + 1)
                    =~= entry_seq_view(prev) + spec_compact_from(es, watermark, i as int));
            }
        } else {
            proof {
                assert(spec_compact_from(es, watermark, i as int) == spec_compact_from(
                    es,
                    watermark,
                    i as int + 1,
                ));
            }
        }
        i += 1;
    }
    proof {
        assert(spec_compact_from(es, watermark, es.len() as int).len() == 0);
        assert(entry_seq_view(out@) + spec_compact_from(es, watermark, es.len() as int)
            =~= entry_seq_view(out@));
    }
    out
}

} // verus!
