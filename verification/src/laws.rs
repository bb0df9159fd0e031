//! The library's laws: properties that tie the segmenter, the cache
//! and the engine together, proved over the spec functions their
//! contracts use.

use vstd::prelude::*;
use crate::builder::{
    spec_bitmap_full, spec_group_consistent, spec_local_bitmap, spec_partition, spec_pass,
    spec_pg_dropped, spec_process_group, spec_run_groups,
};
use crate::cache::{
    cache_wf, has_rec, invalidated_pred, keep_pred, lemma_filter_distinct, lemma_filter_subset,
    lemma_merge_preserves_wf, lemma_push_new_preserves_wf, lemma_rec_idx_unique, rec_idx,
    rec_key_matches, rec_wf, spec_add_records,
    spec_bump, spec_bump_all, spec_clean, spec_invalidated, spec_invalidated_ids, spec_keep,
    spec_merge_record, spec_new_record, spec_or_full, CacheModel, InvalidatedModel,
};
use crate::segment::{first_seg_with, lemma_first_seg_with_props, SegmentWithTimeModel};
use crate::send_time::spec_parse_millis;
use crate::splitter::{lemma_ceil_div, spec_chunk, spec_seg_count};
use crate::builder::spec_assembled;

verus! {

/// The reassembled prefix: positions `0 .. t` of a complete chunked
/// delivery concatenate to the payload's first `t` chunks.
proof fn lemma_assembled_prefix(
    p: Seq<u8>,
    c: int,
    k: int,
    segs: Seq<SegmentWithTimeModel>,
    t: int,
)
    requires
        c >= 1,
        k == spec_seg_count(p.len() as int, c),
        forall|j: int|
            0 <= j < segs.len() ==> (#[trigger] segs[j]).segment.payload == spec_chunk(
                p,
                c,
                segs[j].segment.seg_num,
            ),
        forall|i: int| 0 <= i < k ==> #[trigger] first_seg_with(segs, i) >= 0,
        0 <= t <= k,
    ensures
        spec_assembled(segs, t) == (if t * c <= p.len() {
            p.subrange(0, t * c)
        } else {
            p.subrange(0, p.len() as int)
        }),
    decreases t,
{
    assert(t * c == (t - 1) * c + c) by (nonlinear_arith);
    if t == 0 {
        assert(t * c == 0) by (nonlinear_arith)
            requires
                t == 0,
        ;
        assert(spec_assembled(segs, 0) =~= p.subrange(0, 0));
    } else {
        lemma_assembled_prefix(p, c, k, segs, t - 1);
        lemma_first_seg_with_props(segs, t - 1);
        let fw = first_seg_with(segs, t - 1);
        assert(fw >= 0);
        let chunk_bytes = segs[fw].segment.payload;
        assert(chunk_bytes == spec_chunk(p, c, t - 1));
        if p.len() == 0 {
            assert(k == 1 && t == 1);
            assert((t - 1) * c == 0) by (nonlinear_arith)
                requires
                    t == 1,
            ;
            assert(chunk_bytes =~= Seq::<u8>::empty());
            assert(spec_assembled(segs, 1) =~= p.subrange(0, p.len() as int));
        } else {
            lemma_ceil_div(p.len() as int, c);
            let q = (p.len() - 1) as int / c;
            assert(t - 1 <= q);
            vstd::arithmetic::mul::lemma_mul_inequality(t - 1, q, c);
            assert((t - 1) * c <= q * c);
            assert((t - 1) * c < p.len());
            if t * c <= p.len() {
                assert(chunk_bytes == p.subrange((t - 1) * c, t * c));
                assert(spec_assembled(segs, t) =~= p.subrange(0, t * c));
            } else {
                assert(chunk_bytes == p.subrange((t - 1) * c, p.len() as int));
                assert(spec_assembled(segs, t) =~= p.subrange(0, p.len() as int));
            }
        }
    }
}

/// Round trip: a payload split into `spec_seg_count` chunks and
/// delivered complete — in any order, with any duplication, whether
/// the segments come from the batch or out of the cache — reassembles,
/// in position order, to exactly the original bytes. `segs` is the
/// pool reassembly draws from: every member carries the chunk its
/// `seg_num` names, and every position is covered.
pub proof fn lemma_split_reassembles(p: Seq<u8>, c: int, k: int, segs: Seq<SegmentWithTimeModel>)
    requires
        c >= 1,
        k == spec_seg_count(p.len() as int, c),
        forall|j: int|
            0 <= j < segs.len() ==> (#[trigger] segs[j]).segment.payload == spec_chunk(
                p,
                c,
                segs[j].segment.seg_num,
            ),
        forall|i: int| 0 <= i < k ==> #[trigger] first_seg_with(segs, i) >= 0,
    ensures
        spec_assembled(segs, k) == p,
{
    lemma_assembled_prefix(p, c, k, segs, k);
    if p.len() == 0 {
        assert(p.subrange(0, p.len() as int) =~= p);
    } else {
        lemma_ceil_div(p.len() as int, c);
        if k * c <= p.len() {
            assert(p.subrange(0, k * c) =~= p);
        } else {
            assert(p.subrange(0, p.len() as int) =~= p);
        }
    }
}

/// Idempotence of re-merging: adding a segment to the cache a second
/// time changes no group's completeness state — every record keeps its
/// key, bitmap and retry count; only the stored duplicate list grows.
pub proof fn lemma_remerge_preserves_completeness(c: CacheModel, s: SegmentWithTimeModel)
    requires
        cache_wf(c),
        c.max_retry_num >= 0,
    ensures
        ({
            let recs1 = spec_add_records(c.records, s);
            let recs2 = spec_add_records(recs1, s);
            &&& recs2.len() == recs1.len()
            &&& forall|i: int|
                0 <= i < recs1.len() ==> (#[trigger] recs2[i]).bitmap == recs1[i].bitmap && recs2[
                    i
                ].sender == recs1[i].sender && recs2[i].time_millis == recs1[i].time_millis
                    && recs2[i].retry == recs1[i].retry
        }),
{
    let recs1 = spec_add_records(c.records, s);
    let recs2 = spec_add_records(recs1, s);
    match spec_parse_millis(s.send_time) {
        Option::None => {
            assert(recs1 == c.records && recs2 == recs1);
        },
        Option::Some(millis) => {
            if !(0 <= s.segment.seg_num < s.segment.seg_count) {
                assert(recs1 == c.records && recs2 == recs1);
            } else if has_rec(c.records, s.segment.sender, millis) {
                let i = rec_idx(c.records, s.segment.sender, millis);
                let rec = c.records[i];
                if rec.bitmap.len() != s.segment.seg_count {
                    assert(recs1 == c.records && recs2 == recs1);
                } else {
                    let merged = spec_merge_record(rec, s);
                    assert(recs1 == c.records.update(i, merged));
                    let c1 = CacheModel {
                        records: recs1,
                        clean_interval: c.clean_interval,
                        max_retry_num: c.max_retry_num,
                    };
                    lemma_merge_preserves_wf(c, i, s, c1);
                    assert(rec_key_matches(recs1[i], s.segment.sender, millis));
                    lemma_rec_idx_unique(c1, i, s.segment.sender, millis);
                    assert(rec_idx(recs1, s.segment.sender, millis) == i);
                    assert(merged.bitmap.len() == rec.bitmap.len());
                    let merged2 = spec_merge_record(merged, s);
                    assert(recs2 == recs1.update(i, merged2));
                    assert(merged.bitmap[s.segment.seg_num]);
                    assert(merged2.bitmap =~= merged.bitmap);
                    assert forall|a: int| 0 <= a < recs1.len() implies (#[trigger] recs2[a]).bitmap
                        == recs1[a].bitmap && recs2[a].sender == recs1[a].sender && recs2[
                        a
                    ].time_millis == recs1[a].time_millis && recs2[a].retry == recs1[a].retry by {
                        if a != i {
                            assert(recs2[a] == recs1[a]);
                        }
                    }
                }
            } else {
                let new_rec = spec_new_record(s, millis);
                assert(recs1 == c.records.push(new_rec));
                let n = c.records.len() as int;
                let c1 = CacheModel {
                    records: recs1,
                    clean_interval: c.clean_interval,
                    max_retry_num: c.max_retry_num,
                };
                lemma_push_new_preserves_wf(c, s, millis, c1);
                assert(rec_key_matches(recs1[n], s.segment.sender, millis));
                lemma_rec_idx_unique(c1, n, s.segment.sender, millis);
                assert(rec_idx(recs1, s.segment.sender, millis) == n);
                assert(new_rec.bitmap.len() == s.segment.seg_count);
                let merged2 = spec_merge_record(new_rec, s);
                assert(recs2 == recs1.update(n, merged2));
                assert(new_rec.bitmap[s.segment.seg_num]);
                assert(merged2.bitmap =~= new_rec.bitmap);
                assert forall|a: int| 0 <= a < recs1.len() implies (#[trigger] recs2[a]).bitmap
                    == recs1[a].bitmap && recs2[a].sender == recs1[a].sender && recs2[
                    a
                ].time_millis == recs1[a].time_millis && recs2[a].retry == recs1[a].retry by {
                    if a != n {
                        assert(recs2[a] == recs1[a]);
                    }
                }
            }
        },
    }
}

/// Completion correctness: a valid, retry-available group completes on
/// a pass exactly when the bitwise OR of its batch-local bitmap and
/// the cache's stored bitmap (all clear when the group is unknown) is
/// entirely true.
pub proof fn lemma_completion_iff_or_full(c: CacheModel, g: Seq<SegmentWithTimeModel>)
    requires
        cache_wf(c),
        g.len() >= 1,
        spec_parse_millis(g[0].send_time) is Some,
        !spec_pg_dropped(c.records, c.max_retry_num, g),
        spec_group_consistent(g),
        match spec_parse_millis(g[0].send_time) {
            Option::Some(millis) => has_rec(c.records, g[0].segment.sender, millis) ==> c.records[
                rec_idx(c.records, g[0].segment.sender, millis)
            ].bitmap.len() == g[0].segment.seg_count,
            Option::None => true,
        },
    ensures
        match spec_parse_millis(g[0].send_time) {
            Option::Some(millis) => {
                let k = g[0].segment.seg_count;
                let lb = spec_local_bitmap(g, k);
                let stored = if has_rec(c.records, g[0].segment.sender, millis) {
                    c.records[rec_idx(c.records, g[0].segment.sender, millis)].bitmap
                } else {
                    Seq::new(k as nat, |i: int| false)
                };
                spec_process_group(c.records, c.max_retry_num, g).1.len() == 1 <==> spec_or_full(
                    stored,
                    lb,
                )
            },
            Option::None => true,
        },
{
    let millis = match spec_parse_millis(g[0].send_time) {
        Option::Some(m) => m,
        Option::None => 0u64,
    };
    let k = g[0].segment.seg_count;
    let lb = spec_local_bitmap(g, k);
    let out = spec_process_group(c.records, c.max_retry_num, g);
    if spec_bitmap_full(lb) {
        assert(out.1.len() == 1);
        if has_rec(c.records, g[0].segment.sender, millis) {
            let stored = c.records[rec_idx(c.records, g[0].segment.sender, millis)].bitmap;
            assert forall|i: int| 0 <= i < stored.len() implies stored[i] || lb[i] by {
                assert(lb[i]);
            }
        } else {
            let stored = Seq::new(k as nat, |i: int| false);
            assert forall|i: int| 0 <= i < stored.len() implies stored[i] || lb[i] by {
                assert(lb[i]);
            }
        }
    } else {
        let w = choose|i: int| 0 <= i < lb.len() && !lb[i];
        if has_rec(c.records, g[0].segment.sender, millis) {
            let stored = c.records[rec_idx(c.records, g[0].segment.sender, millis)].bitmap;
            if spec_or_full(stored, lb) {
                assert(out.1.len() == 1);
            } else {
                assert(out.1.len() == 0);
            }
        } else {
            let stored = Seq::new(k as nat, |i: int| false);
            assert(!(stored[w] || lb[w]));
            assert(!spec_or_full(stored, lb));
            assert(out.1.len() == 0);
        }
    }
}

/// Eviction correctness: once a group key's age exceeds the retention
/// window, any pass run at or after that time leaves no record for the
/// key, whatever the batch delivers — so state cached before the
/// window elapsed is unrecoverable.
pub proof fn lemma_eviction_unrecoverable(
    c: CacheModel,
    segs: Seq<SegmentWithTimeModel>,
    now: u64,
    sender: Seq<char>,
    millis: u64,
)
    requires
        now - millis >= c.clean_interval,
    ensures
        !has_rec(spec_pass(c, segs, now).0, sender, millis),
{
    let run = spec_run_groups(c.records, c.max_retry_num, spec_partition(segs));
    let bumped = spec_bump_all(run.0, c.max_retry_num);
    let cleaned = spec_clean(bumped, now, c.clean_interval, c.max_retry_num);
    assert(spec_pass(c, segs, now).0 == cleaned);
    if has_rec(cleaned, sender, millis) {
        let i = choose|i: int| 0 <= i < cleaned.len() && rec_key_matches(cleaned[i], sender, millis);
        bumped.lemma_filter_pred(keep_pred(now, c.clean_interval, c.max_retry_num), i);
        assert(spec_keep(cleaned[i], now, c.clean_interval, c.max_retry_num));
        assert(cleaned[i].time_millis == millis);
        assert(false);
    }
}

/// The failure notification is owed exactly once: at the pass whose
/// drain sees `retry` one short of the ceiling, the group's identity
/// is among the drained records, and that same pass's aging and
/// eviction then remove the record entirely, so no later drain can
/// name the group again (segments arriving afterwards start a fresh
/// record at retry zero).
pub proof fn lemma_failure_reported_once(c: CacheModel, now: u64, sender: Seq<char>, millis: u64)
    requires
        cache_wf(c),
        has_rec(c.records, sender, millis),
        c.records[rec_idx(c.records, sender, millis)].retry + 1 == c.max_retry_num,
    ensures
        ({
            let rec = c.records[rec_idx(c.records, sender, millis)];
            let ids = spec_invalidated_ids(c.records, c.max_retry_num);
            let id = InvalidatedModel { sender: rec.sender, send_time: rec.send_time };
            &&& ids.contains(id)
            &&& forall|j1: int, j2: int|
                #![trigger ids[j1], ids[j2]]
                0 <= j1 < ids.len() && 0 <= j2 < ids.len() && ids[j1] == id && ids[j2] == id
                    ==> j1 == j2
        }),
        !has_rec(
            spec_clean(
                spec_bump_all(c.records, c.max_retry_num),
                now,
                c.clean_interval,
                c.max_retry_num,
            ),
            sender,
            millis,
        ),
{
    let i = rec_idx(c.records, sender, millis);
    let rec = c.records[i];
    let p = invalidated_pred(c.max_retry_num);
    assert(p(rec));
    c.records.lemma_filter_contains(p, i);
    let inv = spec_invalidated(c.records, c.max_retry_num);
    assert(inv.contains(rec));
    let j = choose|j: int| 0 <= j < inv.len() && inv[j] == rec;
    let ids = spec_invalidated_ids(c.records, c.max_retry_num);
    let id = InvalidatedModel { sender: rec.sender, send_time: rec.send_time };
    assert(ids[j] == id);
    assert(ids.contains(id));
    assert forall|a: int, b: int| 0 <= a < b < c.records.len() implies c.records[a]
        != c.records[b] by {
        assert(!rec_key_matches(c.records[a], c.records[b].sender, c.records[b].time_millis));
    }
    lemma_filter_distinct(c.records, p);
    lemma_filter_subset(c.records, p);
    assert forall|j1: int, j2: int|
        #![trigger ids[j1], ids[j2]]
        0 <= j1 < ids.len() && 0 <= j2 < ids.len() && ids[j1] == id && ids[j2] == id implies j1
            == j2 by {
        // records drained with the same identity strings carry the
        // same key, so well-formedness makes them one record, and a
        // filtered sequence of distinct records has no duplicates
        let r1 = inv[j1];
        let r2 = inv[j2];
        assert(r1.sender == id.sender && r1.send_time == id.send_time);
        assert(r2.sender == id.sender && r2.send_time == id.send_time);
        assert(c.records.contains(r1));
        assert(c.records.contains(r2));
        let w1 = choose|w: int| 0 <= w < c.records.len() && c.records[w] == r1;
        let w2 = choose|w: int| 0 <= w < c.records.len() && c.records[w] == r2;
        assert(rec_wf(c.records[w1]) && rec_wf(c.records[w2]));
        assert(r1.time_millis == r2.time_millis);
        if w1 != w2 {
            if w1 < w2 {
                assert(!rec_key_matches(
                    c.records[w1],
                    c.records[w2].sender,
                    c.records[w2].time_millis,
                ));
            } else {
                assert(!rec_key_matches(
                    c.records[w2],
                    c.records[w1].sender,
                    c.records[w1].time_millis,
                ));
            }
        }
        assert(r1 == r2);
        if j1 < j2 {
            assert(inv[j1] != inv[j2]);
        } else if j2 < j1 {
            assert(inv[j2] != inv[j1]);
        }
    }
    let bumped = spec_bump_all(c.records, c.max_retry_num);
    let cleaned = spec_clean(bumped, now, c.clean_interval, c.max_retry_num);
    if has_rec(cleaned, sender, millis) {
        let a = choose|a: int| 0 <= a < cleaned.len() && rec_key_matches(cleaned[a], sender, millis);
        bumped.lemma_filter_pred(keep_pred(now, c.clean_interval, c.max_retry_num), a);
        assert(spec_keep(cleaned[a], now, c.clean_interval, c.max_retry_num));
        lemma_filter_subset(bumped, keep_pred(now, c.clean_interval, c.max_retry_num));
        assert(bumped.contains(cleaned[a]));
        let b = choose|b: int| 0 <= b < bumped.len() && bumped[b] == cleaned[a];
        assert(bumped[b] == spec_bump(c.records[b], c.max_retry_num));
        assert(rec_key_matches(c.records[b], sender, millis));
        lemma_rec_idx_unique(c, b, sender, millis);
        assert(b == i);
        assert(bumped[b].retry == c.max_retry_num);
        assert(false);
    }
}

} // verus!
