//! The reassembly cache: per-group partial state, keyed by the
//! composite `(sender, parsed send_time)` correlation key. A record
//! holds the segments received so far, a bitmap of the positions
//! observed, and a retry counter advanced once per reassembly pass.

use vstd::prelude::*;
use vstd::pervasive::VecAdditionalExecFns;
use crate::segment::{
    first_seg_with, lemma_first_seg_with_props, SegmentWithTime, SegmentWithTimeModel,
};
use crate::send_time::{parse_millis, spec_parse_millis};
use crate::text::str_eq;

verus! {

/// A fault raised by a cache operation. `Integrity` marks inconsistent
/// segment metadata (a bitmap length that disagrees with `seg_count`,
/// or a `seg_num` outside the group); `Malformed` marks a `send_time`
/// that is not a decimal millisecond timestamp.
#[derive(Clone, Copy, PartialEq, Eq, Structural, Debug)]
pub enum CacheFault {
    Integrity,
    Malformed,
}

/// The partial state of one group: the segments received so far, the
/// bitmap of observed positions, the retry count, and the group key
/// fields (`sender`, the first-seen `send_time` string, and its parsed
/// millisecond value).
pub struct SegmentsCacheRecord {
    pub sender: String,
    pub send_time: String,
    pub time_millis: u64,
    pub segments: Vec<SegmentWithTime>,
    pub num_bit_map: Vec<bool>,
    pub retry: u8,
}

/// Mathematical image of a [`SegmentsCacheRecord`].
pub ghost struct RecordModel {
    pub sender: Seq<char>,
    pub send_time: Seq<char>,
    pub time_millis: u64,
    pub segments: Seq<SegmentWithTimeModel>,
    pub bitmap: Seq<bool>,
    pub retry: int,
}

impl View for SegmentsCacheRecord {
    type V = RecordModel;

    open spec fn view(&self) -> RecordModel {
        RecordModel {
            sender: self.sender@,
            send_time: self.send_time@,
            time_millis: self.time_millis,
            segments: self.segments@.map_values(|s: SegmentWithTime| s@),
            bitmap: self.num_bit_map@,
            retry: self.retry as int,
        }
    }
}

/// The identity of a group that exhausted its retries; returned once,
/// on the pass immediately preceding its eviction.
#[derive(Debug)]
pub struct InvalidatedRecord {
    pub sender: String,
    pub send_time: String,
}

/// Mathematical image of an [`InvalidatedRecord`].
pub ghost struct InvalidatedModel {
    pub sender: Seq<char>,
    pub send_time: Seq<char>,
}

impl View for InvalidatedRecord {
    type V = InvalidatedModel;

    open spec fn view(&self) -> InvalidatedModel {
        InvalidatedModel { sender: self.sender@, send_time: self.send_time@ }
    }
}

/// The reassembly cache: one record per live group key, plus the
/// retention window (milliseconds) and the retry ceiling.
pub struct SegmentsCache {
    records: Vec<SegmentsCacheRecord>,
    clean_interval: u64,
    max_retry_num: u8,
}

/// Mathematical image of a [`SegmentsCache`].
pub ghost struct CacheModel {
    pub records: Seq<RecordModel>,
    pub clean_interval: u64,
    pub max_retry_num: int,
}

impl View for SegmentsCache {
    type V = CacheModel;

    closed spec fn view(&self) -> CacheModel {
        CacheModel {
            records: self.records@.map_values(|r: SegmentsCacheRecord| r@),
            clean_interval: self.clean_interval,
            max_retry_num: self.max_retry_num as int,
        }
    }
}

/// Whether record `r` carries the group key `(sender, millis)`.
pub open spec fn rec_key_matches(r: RecordModel, sender: Seq<char>, millis: u64) -> bool {
    r.sender == sender && r.time_millis == millis
}

/// Whether some record in `recs` carries the key `(sender, millis)`.
pub open spec fn has_rec(recs: Seq<RecordModel>, sender: Seq<char>, millis: u64) -> bool {
    exists|i: int| 0 <= i < recs.len() && rec_key_matches(recs[i], sender, millis)
}

/// The index of the record carrying the key `(sender, millis)`; under
/// [`cache_wf`] at most one exists.
pub open spec fn rec_idx(recs: Seq<RecordModel>, sender: Seq<char>, millis: u64) -> int {
    choose|i: int| 0 <= i < recs.len() && rec_key_matches(recs[i], sender, millis)
}

/// Whether segment `s` is consistent with the record `r` it is stored
/// in: same sender, a `send_time` that parses to the record's key
/// value, and metadata that agrees with the record's bitmap.
pub open spec fn seg_fits_record(r: RecordModel, s: SegmentWithTimeModel) -> bool {
    &&& s.segment.sender == r.sender
    &&& spec_parse_millis(s.send_time) == Some(r.time_millis)
    &&& s.segment.seg_count == r.bitmap.len()
    &&& 0 <= s.segment.seg_num < r.bitmap.len()
}

/// Internal consistency of one record: it is nonempty, every stored
/// segment fits it and has its bit set, every set bit is witnessed by a
/// stored segment, and the stored `send_time` parses to the key value.
pub open spec fn rec_wf(r: RecordModel) -> bool {
    &&& r.segments.len() >= 1
    &&& forall|i: int|
        0 <= i < r.segments.len() ==> seg_fits_record(r, #[trigger] r.segments[i])
            && r.bitmap[r.segments[i].segment.seg_num]
    &&& forall|b: int|
        0 <= b < r.bitmap.len() && r.bitmap[b] ==> exists|i: int|
            0 <= i < r.segments.len() && (#[trigger] r.segments[i]).segment.seg_num == b
    &&& spec_parse_millis(r.send_time) == Some(r.time_millis)
}

/// Internal consistency of the whole cache: every record is
/// well-formed, no retry count exceeds the ceiling, and no two records
/// share a group key.
pub open spec fn cache_wf(c: CacheModel) -> bool {
    &&& forall|i: int| 0 <= i < c.records.len() ==> rec_wf(#[trigger] c.records[i])
    &&& forall|i: int| 0 <= i < c.records.len() ==> (#[trigger] c.records[i]).retry <= c.max_retry_num
    &&& forall|i: int, j: int|
        0 <= i < j < c.records.len() ==> !rec_key_matches(
            #[trigger] c.records[i],
            (#[trigger] c.records[j]).sender,
            c.records[j].time_millis,
        )
}

/// Under [`cache_wf`], a matching index is the unique one: it equals
/// [`rec_idx`].
pub proof fn lemma_rec_idx_unique(c: CacheModel, i: int, sender: Seq<char>, millis: u64)
    requires
        cache_wf(c),
        0 <= i < c.records.len(),
        rec_key_matches(c.records[i], sender, millis),
    ensures
        has_rec(c.records, sender, millis),
        rec_idx(c.records, sender, millis) == i,
{
    assert(has_rec(c.records, sender, millis));
    let j = rec_idx(c.records, sender, millis);
    if i < j {
        assert(!rec_key_matches(c.records[i], c.records[j].sender, c.records[j].time_millis));
    } else if j < i {
        assert(!rec_key_matches(c.records[j], c.records[i].sender, c.records[i].time_millis));
    }
}

impl SegmentsCache {
    /// Well-formedness of the cache; established by [`SegmentsCache::new`]
    /// and preserved by every method.
    pub open spec fn wf(&self) -> bool {
        cache_wf(self@)
    }

    /// Creates an empty cache with the given retention window
    /// (milliseconds) and retry ceiling.
    pub fn new(clean_interval: u64, max_retry_num: u8) -> (r: SegmentsCache)
        ensures
            r.wf(),
            r@.records == Seq::<RecordModel>::empty(),
            r@.clean_interval == clean_interval,
            r@.max_retry_num == max_retry_num as int,
    {
        let r = SegmentsCache { records: Vec::new(), clean_interval, max_retry_num };
        proof {
            assert(r@.records =~= Seq::<RecordModel>::empty());
        }
        r
    }

    /// Finds the index of the record keyed by `(sender, millis)`, if any.
    fn find_record(&self, sender: &str, millis: u64) -> (r: Option<usize>)
        requires
            self.wf(),
        ensures
            match r {
                Some(i) => i < self@.records.len() && rec_key_matches(
                    self@.records[i as int],
                    sender@,
                    millis,
                ) && i as int == rec_idx(self@.records, sender@, millis),
                None => !has_rec(self@.records, sender@, millis),
            },
    {
        let ghost recs = self@.records;
        let mut i: usize = 0;
        while i < self.records.len()
            invariant
                self.wf(),
                recs == self@.records,
                0 <= i <= recs.len(),
                forall|k: int| 0 <= k < i ==> !rec_key_matches(#[trigger] recs[k], sender@, millis),
            decreases self.records.len() - i,
        {
            if self.records[i].time_millis == millis && str_eq(self.records[i].sender.as_str(), sender) {
                proof {
                    lemma_rec_idx_unique(self@, i as int, sender@, millis);
                }
                return Some(i);
            }
            i = i + 1;
        }
        None
    }

    /// Whether the group keyed by `(sender, send_time)` may still
    /// complete: true when no record exists for it (including when
    /// `send_time` does not parse), or when its record has not reached
    /// the retry ceiling.
    pub fn check_retry_limit(&self, sender: &str, send_time: &str) -> (r: bool)
        requires
            self.wf(),
        ensures
            r == match spec_parse_millis(send_time@) {
                Some(millis) => !has_rec(self@.records, sender@, millis) || self@.records[
                    rec_idx(self@.records, sender@, millis)
                ].retry < self@.max_retry_num,
                None => true,
            },
    {
        let millis = match parse_millis(send_time) {
            Some(m) => m,
            None => {
                return true;
            },
        };
        match self.find_record(sender, millis) {
            Some(i) => self.records[i].retry < self.max_retry_num,
            None => true,
        }
    }

    /// Removes the record keyed by `(sender, send_time)`, if present;
    /// returns whether one was removed.
    pub fn remove(&mut self, sender: &str, send_time: &str) -> (r: bool)
        requires
            old(self).wf(),
        ensures
            final(self).wf(),
            final(self)@.clean_interval == old(self)@.clean_interval,
            final(self)@.max_retry_num == old(self)@.max_retry_num,
            match spec_parse_millis(send_time@) {
                Some(millis) => {
                    if has_rec(old(self)@.records, sender@, millis) {
                        r && final(self)@.records == old(self)@.records.remove(
                            rec_idx(old(self)@.records, sender@, millis),
                        )
                    } else {
                        !r && final(self)@.records == old(self)@.records
                    }
                },
                None => !r && final(self)@.records == old(self)@.records,
            },
    {
        let millis = match parse_millis(send_time) {
            Some(m) => m,
            None => {
                return false;
            },
        };
        match self.find_record(sender, millis) {
            Some(i) => {
                let ghost old_recs = self@.records;
                self.records.remove(i);
                proof {
                    assert(self@.records =~= old_recs.remove(i as int));
                    lemma_remove_preserves_wf(old(self)@, self@, i as int);
                }
                true
            },
            None => false,
        }
    }
}

/// The record created for the first segment of an unseen group: a
/// bitmap of `seg_count` bits with only `seg_num` set, retry 0.
pub open spec fn spec_new_record(s: SegmentWithTimeModel, millis: u64) -> RecordModel {
    RecordModel {
        sender: s.segment.sender,
        send_time: s.send_time,
        time_millis: millis,
        segments: seq![s],
        bitmap: Seq::new(s.segment.seg_count as nat, |i: int| i == s.segment.seg_num),
        retry: 0,
    }
}

/// Merging one more segment into an existing record: the segment is
/// appended and its bit is set.
pub open spec fn spec_merge_record(r: RecordModel, s: SegmentWithTimeModel) -> RecordModel {
    RecordModel {
        sender: r.sender,
        send_time: r.send_time,
        time_millis: r.time_millis,
        segments: r.segments.push(s),
        bitmap: r.bitmap.update(s.segment.seg_num, true),
        retry: r.retry,
    }
}

/// What [`SegmentsCache::add`] returns: `Malformed` for an unparsable
/// `send_time`, `Integrity` for a `seg_num` outside the group or a
/// `seg_count` that disagrees with the stored bitmap, `Ok` otherwise.
pub open spec fn spec_add_result(recs: Seq<RecordModel>, s: SegmentWithTimeModel) -> Result<
    (),
    CacheFault,
> {
    match spec_parse_millis(s.send_time) {
        Option::None => Err(CacheFault::Malformed),
        Option::Some(millis) => {
            if !(0 <= s.segment.seg_num < s.segment.seg_count) {
                Err(CacheFault::Integrity)
            } else if has_rec(recs, s.segment.sender, millis) && recs[
                rec_idx(recs, s.segment.sender, millis)
            ].bitmap.len() != s.segment.seg_count {
                Err(CacheFault::Integrity)
            } else {
                Ok(())
            }
        },
    }
}

/// The record sequence after [`SegmentsCache::add`]: unchanged on a
/// fault, the matching record merged when the key is present, a fresh
/// record appended when it is not.
pub open spec fn spec_add_records(recs: Seq<RecordModel>, s: SegmentWithTimeModel) -> Seq<
    RecordModel,
> {
    match spec_parse_millis(s.send_time) {
        Option::None => recs,
        Option::Some(millis) => {
            if spec_add_result(recs, s) is Err {
                recs
            } else if has_rec(recs, s.segment.sender, millis) {
                let i = rec_idx(recs, s.segment.sender, millis);
                recs.update(i, spec_merge_record(recs[i], s))
            } else {
                recs.push(spec_new_record(s, millis))
            }
        },
    }
}

/// The record sequence after adding every segment of `segs` in order,
/// each with [`spec_add_records`] (faulting segments leave it unchanged).
pub open spec fn spec_add_bulk_records(
    recs: Seq<RecordModel>,
    segs: Seq<SegmentWithTimeModel>,
) -> Seq<RecordModel>
    decreases segs.len(),
{
    if segs.len() == 0 {
        recs
    } else {
        spec_add_records(spec_add_bulk_records(recs, segs.drop_last()), segs.last())
    }
}

/// One record after a pass's aging step: `retry` goes up by one,
/// saturating at `max`.
pub open spec fn spec_bump(r: RecordModel, max: int) -> RecordModel {
    if r.retry < max {
        RecordModel {
            sender: r.sender,
            send_time: r.send_time,
            time_millis: r.time_millis,
            segments: r.segments,
            bitmap: r.bitmap,
            retry: r.retry + 1,
        }
    } else {
        r
    }
}

/// All records after a pass's aging step.
pub open spec fn spec_bump_all(recs: Seq<RecordModel>, max: int) -> Seq<RecordModel> {
    recs.map_values(|r: RecordModel| spec_bump(r, max))
}

/// Whether a record survives eviction at time `now`: its key timestamp
/// is within the retention window and its retries are not exhausted.
pub open spec fn spec_keep(r: RecordModel, now: u64, interval: u64, max: int) -> bool {
    now - r.time_millis < interval && r.retry < max
}

/// [`spec_keep`] as a predicate value.
pub open spec fn keep_pred(now: u64, interval: u64, max: int) -> spec_fn(RecordModel) -> bool {
    |r: RecordModel| spec_keep(r, now, interval, max)
}

/// The records surviving eviction at time `now`.
pub open spec fn spec_clean(recs: Seq<RecordModel>, now: u64, interval: u64, max: int) -> Seq<
    RecordModel,
> {
    recs.filter(keep_pred(now, interval, max))
}

/// Whether a record is on its last pass before eviction by retries.
pub open spec fn invalidated_pred(max: int) -> spec_fn(RecordModel) -> bool {
    |r: RecordModel| r.retry + 1 == max
}

/// The records whose `retry` stands one short of the ceiling.
pub open spec fn spec_invalidated(recs: Seq<RecordModel>, max: int) -> Seq<RecordModel> {
    recs.filter(invalidated_pred(max))
}

/// The group identities of [`spec_invalidated`] records.
pub open spec fn spec_invalidated_ids(recs: Seq<RecordModel>, max: int) -> Seq<InvalidatedModel> {
    spec_invalidated(recs, max).map_values(
        |rm: RecordModel| InvalidatedModel { sender: rm.sender, send_time: rm.send_time },
    )
}

/// Whether every position is covered by the stored bitmap or the
/// batch's local bitmap.
pub open spec fn spec_or_full(stored: Seq<bool>, got: Seq<bool>) -> bool {
    forall|i: int| 0 <= i < stored.len() ==> stored[i] || got[i]
}

/// The stored segments covering the first `n` positions that are set
/// in the record's bitmap but clear in `got`, in position order; for
/// each such position the first stored segment carrying it.
pub open spec fn spec_complement_upto(rec: RecordModel, got: Seq<bool>, n: int) -> Seq<
    SegmentWithTimeModel,
>
    decreases n,
{
    if n <= 0 {
        Seq::empty()
    } else {
        let prev = spec_complement_upto(rec, got, n - 1);
        if rec.bitmap[n - 1] && !got[n - 1] {
            prev.push(rec.segments[first_seg_with(rec.segments, n - 1)])
        } else {
            prev
        }
    }
}

/// The stored segments that are set in the record's bitmap but clear
/// in `got`, in position order.
pub open spec fn spec_complement(rec: RecordModel, got: Seq<bool>) -> Seq<SegmentWithTimeModel> {
    spec_complement_upto(rec, got, rec.bitmap.len() as int)
}

/// Filtering one more element either appends it or leaves the filtered
/// sequence unchanged.
proof fn lemma_filter_push(s: Seq<RecordModel>, x: RecordModel, p: spec_fn(RecordModel) -> bool)
    ensures
        s.push(x).filter(p) == (if p(x) {
            s.filter(p).push(x)
        } else {
            s.filter(p)
        }),
{
    reveal_with_fuel(Seq::<RecordModel>::filter, 2);
    assert(s.push(x).drop_last() =~= s);
    assert(s.push(x).last() == x);
    assert(s.push(x).len() == s.len() + 1);
}

/// Every element of a filtered sequence occurs in the original.
pub proof fn lemma_filter_subset(s: Seq<RecordModel>, p: spec_fn(RecordModel) -> bool)
    ensures
        forall|a: int| 0 <= a < s.filter(p).len() ==> s.contains(#[trigger] s.filter(p)[a]),
    decreases s.len(),
{
    reveal_with_fuel(Seq::<RecordModel>::filter, 2);
    if s.len() > 0 {
        lemma_filter_subset(s.drop_last(), p);
        assert forall|a: int| 0 <= a < s.filter(p).len() implies s.contains(
            #[trigger] s.filter(p)[a],
        ) by {
            if a < s.drop_last().filter(p).len() {
                let x = s.drop_last().filter(p)[a];
                assert(s.drop_last().contains(x));
                let k = choose|k: int| 0 <= k < s.drop_last().len() && s.drop_last()[k] == x;
                assert(s[k] == x);
            } else {
                assert(s.filter(p)[a] == s.last());
                assert(s[s.len() - 1] == s.last());
            }
        }
    }
}

/// Filtering a sequence of pairwise-distinct records yields
/// pairwise-distinct records.
pub proof fn lemma_filter_distinct(s: Seq<RecordModel>, p: spec_fn(RecordModel) -> bool)
    requires
        forall|a: int, b: int| 0 <= a < b < s.len() ==> s[a] != s[b],
    ensures
        forall|a: int, b: int|
            0 <= a < b < s.filter(p).len() ==> s.filter(p)[a] != s.filter(p)[b],
    decreases s.len(),
{
    reveal_with_fuel(Seq::<RecordModel>::filter, 2);
    if s.len() > 0 {
        let prev = s.drop_last();
        assert(forall|a: int, b: int| 0 <= a < b < prev.len() ==> prev[a] == s[a] && prev[b] == s[b]);
        lemma_filter_distinct(prev, p);
        lemma_filter_subset(prev, p);
        let last = s.last();
        if p(last) {
            assert(s.filter(p) == prev.filter(p).push(last));
            assert forall|a: int, b: int| 0 <= a < b < s.filter(p).len() implies s.filter(p)[a]
                != s.filter(p)[b] by {
                if b == s.filter(p).len() - 1 {
                    let x = prev.filter(p)[a];
                    assert(prev.contains(x));
                    let w = choose|w: int| 0 <= w < prev.len() && prev[w] == x;
                    assert(s[w] == x);
                    assert(s[s.len() - 1] == last);
                } else {
                    assert(s.filter(p)[a] == prev.filter(p)[a]);
                    assert(s.filter(p)[b] == prev.filter(p)[b]);
                }
            }
        } else {
            assert(s.filter(p) == prev.filter(p));
        }
    }
}

/// Filtering the records preserves cache well-formedness.
proof fn lemma_filter_preserves_wf(c: CacheModel, new_c: CacheModel, p: spec_fn(RecordModel) -> bool)
    requires
        cache_wf(c),
        new_c.records == c.records.filter(p),
        new_c.max_retry_num == c.max_retry_num,
    ensures
        cache_wf(new_c),
    decreases c.records.len(),
{
    reveal_with_fuel(Seq::<RecordModel>::filter, 2);
    if c.records.len() == 0 {
        assert(new_c.records.len() == 0);
    } else {
        let prev = c.records.drop_last();
        let prev_c = CacheModel {
            records: prev,
            clean_interval: c.clean_interval,
            max_retry_num: c.max_retry_num,
        };
        assert(cache_wf(prev_c)) by {
            assert(forall|i: int| 0 <= i < prev.len() ==> prev[i] == c.records[i]);
        }
        let prev_f = CacheModel {
            records: prev.filter(p),
            clean_interval: c.clean_interval,
            max_retry_num: c.max_retry_num,
        };
        lemma_filter_preserves_wf(prev_c, prev_f, p);
        lemma_filter_subset(prev, p);
        let last = c.records.last();
        if p(last) {
            assert(new_c.records == prev.filter(p).push(last));
            assert(rec_wf(last) && last.retry <= c.max_retry_num) by {
                assert(c.records[c.records.len() - 1] == last);
            }
            assert forall|a: int, b: int| 0 <= a < b < new_c.records.len() implies !rec_key_matches(
                #[trigger] new_c.records[a],
                (#[trigger] new_c.records[b]).sender,
                new_c.records[b].time_millis,
            ) by {
                if b == new_c.records.len() - 1 {
                    assert(new_c.records[b] == last);
                    let x = new_c.records[a];
                    assert(x == prev.filter(p)[a]);
                    assert(prev.contains(x));
                    let k = choose|k: int| 0 <= k < prev.len() && prev[k] == x;
                    assert(c.records[k] == x);
                    assert(!rec_key_matches(
                        c.records[k],
                        c.records[c.records.len() - 1].sender,
                        c.records[c.records.len() - 1].time_millis,
                    ));
                } else {
                    assert(new_c.records[a] == prev_f.records[a]);
                    assert(new_c.records[b] == prev_f.records[b]);
                    assert(!rec_key_matches(
                        prev_f.records[a],
                        prev_f.records[b].sender,
                        prev_f.records[b].time_millis,
                    ));
                }
            }
        } else {
            assert(new_c.records == prev.filter(p));
        }
    }
}

/// Aging the records preserves cache well-formedness.
proof fn lemma_bump_preserves_wf(c: CacheModel, new_c: CacheModel)
    requires
        cache_wf(c),
        new_c.records == spec_bump_all(c.records, c.max_retry_num),
        new_c.max_retry_num == c.max_retry_num,
    ensures
        cache_wf(new_c),
{
    assert forall|a: int| 0 <= a < new_c.records.len() implies rec_wf(#[trigger] new_c.records[a])
        && new_c.records[a].retry <= new_c.max_retry_num by {
        assert(new_c.records[a] == spec_bump(c.records[a], c.max_retry_num));
        assert(rec_wf(c.records[a]));
        let old_r = c.records[a];
        let new_r = new_c.records[a];
        assert(new_r.segments == old_r.segments && new_r.bitmap == old_r.bitmap && new_r.sender
            == old_r.sender && new_r.send_time == old_r.send_time && new_r.time_millis
            == old_r.time_millis);
    }
    assert forall|a: int, b: int| 0 <= a < b < new_c.records.len() implies !rec_key_matches(
        #[trigger] new_c.records[a],
        (#[trigger] new_c.records[b]).sender,
        new_c.records[b].time_millis,
    ) by {
        assert(new_c.records[a] == spec_bump(c.records[a], c.max_retry_num));
        assert(new_c.records[b] == spec_bump(c.records[b], c.max_retry_num));
        assert(!rec_key_matches(c.records[a], c.records[b].sender, c.records[b].time_millis));
    }
}

/// Finds the first stored segment carrying position `num`.
fn find_first_seg(segments: &Vec<SegmentWithTime>, num: usize) -> (r: usize)
    requires
        exists|k: int|
            0 <= k < segments@.len() && (#[trigger] segments@[k])@.segment.seg_num == num as int,
    ensures
        r < segments@.len(),
        r as int == first_seg_with(
            segments@.map_values(|s: SegmentWithTime| s@),
            num as int,
        ),
{
    let ghost ms = segments@.map_values(|s: SegmentWithTime| s@);
    let mut k: usize = 0;
    while k < segments.len()
        invariant
            0 <= k <= segments@.len(),
            ms == segments@.map_values(|s: SegmentWithTime| s@),
            forall|m: int| 0 <= m < k ==> (#[trigger] ms[m]).segment.seg_num != num as int,
        decreases segments.len() - k,
    {
        if segments[k].segment.seg_num == num {
            proof {
                lemma_first_seg_with_props(ms, num as int);
                let fw = first_seg_with(ms, num as int);
                assert(ms[k as int].segment.seg_num == num as int);
                if fw < k as int {
                    assert(ms[fw].segment.seg_num != num as int);
                }
            }
            return k;
        }
        k = k + 1;
    }
    proof {
        let w = choose|w: int|
            0 <= w < segments@.len() && (#[trigger] segments@[w])@.segment.seg_num == num as int;
        assert(ms[w].segment.seg_num == num as int);
        assert(false);
    }
    unreached()
}

impl SegmentsCache {
    /// Ages every record by one pass: each `retry` goes up by one,
    /// saturating at the retry ceiling.
    pub fn increase_retry(&mut self)
        requires
            old(self).wf(),
        ensures
            final(self).wf(),
            final(self)@.records == spec_bump_all(old(self)@.records, old(self)@.max_retry_num),
            final(self)@.clean_interval == old(self)@.clean_interval,
            final(self)@.max_retry_num == old(self)@.max_retry_num,
    {
        let ghost old_recs = self@.records;
        let ghost max = self@.max_retry_num;
        let max_retry = self.max_retry_num;
        let mut i: usize = 0;
        while i < self.records.len()
            invariant
                0 <= i <= self@.records.len(),
                self@.records.len() == old_recs.len(),
                max == self@.max_retry_num,
                max_retry as int == max,
                self@.clean_interval == old(self)@.clean_interval,
                self@.max_retry_num == old(self)@.max_retry_num,
                forall|k: int| 0 <= k < i ==> self@.records[k] == spec_bump(old_recs[k], max),
                forall|k: int| i <= k < old_recs.len() ==> self@.records[k] == old_recs[k],
            decreases self.records.len() - i,
        {
            let ghost recs_before = self@.records;
            let mut rec = self.records.remove(i);
            if rec.retry < max_retry {
                rec.retry = rec.retry + 1;
            }
            let ghost new_model = rec@;
            self.records.insert(i, rec);
            proof {
                assert(self@.records =~= recs_before.update(i as int, new_model));
                assert(new_model == spec_bump(old_recs[i as int], max));
            }
            i = i + 1;
        }
        proof {
            assert(self@.records =~= spec_bump_all(old_recs, max));
            lemma_bump_preserves_wf(old(self)@, self@);
        }
    }

    /// Returns, once each, the identities of the groups whose `retry`
    /// stands one short of the ceiling: the pass immediately before
    /// their eviction, and the single opportunity to report failure.
    pub fn get_latest_invalidated_records(&self) -> (r: Vec<InvalidatedRecord>)
        requires
            self.wf(),
        ensures
            r@.map_values(|x: InvalidatedRecord| x@) == spec_invalidated_ids(
                self@.records,
                self@.max_retry_num,
            ),
    {
        let ghost recs = self@.records;
        let ghost max = self@.max_retry_num;
        let mut out: Vec<InvalidatedRecord> = Vec::new();
        let mut i: usize = 0;
        while i < self.records.len()
            invariant
                0 <= i <= recs.len(),
                recs == self@.records,
                max == self@.max_retry_num,
                out@.map_values(|x: InvalidatedRecord| x@) == spec_invalidated_ids(
                    recs.subrange(0, i as int),
                    max,
                ),
            decreases self.records.len() - i,
        {
            let ghost prefix = recs.subrange(0, i as int);
            let is_inv = self.max_retry_num >= 1 && self.records[i].retry == self.max_retry_num
                - 1;
            proof {
                let p = invalidated_pred(max);
                assert(recs[i as int] == self.records@[i as int]@);
                assert(is_inv == p(recs[i as int]));
            }
            if is_inv {
                out.push(
                    InvalidatedRecord {
                        sender: self.records[i].sender.clone(),
                        send_time: self.records[i].send_time.clone(),
                    },
                );
            }
            proof {
                let p = invalidated_pred(max);
                lemma_filter_push(prefix, recs[i as int], p);
                assert(recs.subrange(0, i + 1) =~= prefix.push(recs[i as int]));
                assert(spec_invalidated(recs.subrange(0, i + 1), max) == (if p(recs[i as int]) {
                    spec_invalidated(prefix, max).push(recs[i as int])
                } else {
                    spec_invalidated(prefix, max)
                }));
                if is_inv {
                    assert(spec_invalidated_ids(recs.subrange(0, i + 1), max)
                        =~= spec_invalidated_ids(prefix, max).push(
                        InvalidatedModel {
                            sender: recs[i as int].sender,
                            send_time: recs[i as int].send_time,
                        },
                    ));
                } else {
                    assert(spec_invalidated_ids(recs.subrange(0, i + 1), max)
                        =~= spec_invalidated_ids(prefix, max));
                }
                assert(out@.map_values(|x: InvalidatedRecord| x@) =~= spec_invalidated_ids(
                    recs.subrange(0, i + 1),
                    max,
                ));
            }
            i = i + 1;
        }
        proof {
            assert(recs.subrange(0, recs.len() as int) =~= recs);
        }
        out
    }

    /// Evicts every record whose key timestamp has aged past the
    /// retention window relative to `now_millis`, and every record
    /// whose retries are exhausted; eviction removes the record
    /// entirely.
    pub fn clean_old_records(&mut self, now_millis: u64)
        requires
            old(self).wf(),
        ensures
            final(self).wf(),
            final(self)@.records == spec_clean(
                old(self)@.records,
                now_millis,
                old(self)@.clean_interval,
                old(self)@.max_retry_num,
            ),
            final(self)@.clean_interval == old(self)@.clean_interval,
            final(self)@.max_retry_num == old(self)@.max_retry_num,
    {
        let mut pending: Vec<SegmentsCacheRecord> = Vec::new();
        core::mem::swap(&mut self.records, &mut pending);
        let ghost orig = pending@.map_values(|r: SegmentsCacheRecord| r@);
        let ghost interval = self@.clean_interval;
        let ghost max = self@.max_retry_num;
        let n0 = pending.len();
        proof {
            assert(orig.len() == n0);
        }
        let mut idx: usize = 0;
        while pending.len() > 0
            invariant
                orig.len() <= usize::MAX,
                idx + pending@.len() == orig.len(),
                pending@.map_values(|r: SegmentsCacheRecord| r@) == orig.subrange(
                    idx as int,
                    orig.len() as int,
                ),
                self@.records == spec_clean(orig.subrange(0, idx as int), now_millis, interval, max),
                interval == self@.clean_interval,
                max == self@.max_retry_num,
                self@.clean_interval == old(self)@.clean_interval,
                self@.max_retry_num == old(self)@.max_retry_num,
            decreases pending.len(),
        {
            let ghost prefix = orig.subrange(0, idx as int);
            let ghost rest = orig.subrange(idx as int, orig.len() as int);
            let ghost old_pend = pending@;
            let rec = pending.remove(0);
            proof {
                assert(old_pend.map_values(|r: SegmentsCacheRecord| r@)[0] == rest[0]);
                assert(rec@ == orig[idx as int]);
                assert(pending@ =~= old_pend.subrange(1, old_pend.len() as int));
                assert forall|m: int| 0 <= m < pending@.len() implies (#[trigger] pending@[m])@
                    == orig[idx + 1 + m] by {
                    assert(pending@[m] == old_pend[m + 1]);
                    assert(old_pend.map_values(|r: SegmentsCacheRecord| r@)[m + 1] == rest[m + 1]);
                }
                assert(pending@.map_values(|r: SegmentsCacheRecord| r@) =~= orig.subrange(
                    idx + 1,
                    orig.len() as int,
                ));
            }
            let age_ok = if now_millis >= rec.time_millis {
                now_millis - rec.time_millis < self.clean_interval
            } else {
                true
            };
            let keep = age_ok && rec.retry < self.max_retry_num;
            proof {
                assert(keep == spec_keep(rec@, now_millis, interval, max));
                lemma_filter_push(prefix, orig[idx as int], keep_pred(now_millis, interval, max));
                assert(orig.subrange(0, idx + 1) =~= prefix.push(orig[idx as int]));
            }
            if keep {
                self.records.push(rec);
            }
            proof {
                assert(self@.records =~= spec_clean(
                    orig.subrange(0, idx + 1),
                    now_millis,
                    interval,
                    max,
                ));
            }
            idx = idx + 1;
        }
        proof {
            assert(orig.subrange(0, orig.len() as int) =~= orig);
            lemma_filter_preserves_wf(old(self)@, self@, keep_pred(now_millis, interval, max));
        }
    }

    /// Completion query for the group keyed by `(sender, send_time)`:
    /// when the bitwise OR of the stored bitmap and `got_bit_map` is
    /// entirely true, returns exactly the stored segments whose bit is
    /// set in the cache but clear in `got_bit_map`; when the group is
    /// not yet completable (or unknown) returns `Ok(None)`; when the
    /// stored bitmap length disagrees with `got_bit_map`, reports an
    /// integrity fault.
    pub fn get_segments(&self, sender: &str, send_time: &str, got_bit_map: &[bool]) -> (r: Result<
        Option<Vec<SegmentWithTime>>,
        CacheFault,
    >)
        requires
            self.wf(),
        ensures
            ({
                let got = got_bit_map@;
                match spec_parse_millis(send_time@) {
                    Option::None => r == Result::<Option<Vec<SegmentWithTime>>, CacheFault>::Ok(
                        Option::None,
                    ),
                    Option::Some(millis) => {
                        if !has_rec(self@.records, sender@, millis) {
                            r == Result::<Option<Vec<SegmentWithTime>>, CacheFault>::Ok(
                                Option::None,
                            )
                        } else {
                            let rec = self@.records[rec_idx(self@.records, sender@, millis)];
                            if rec.bitmap.len() != got.len() {
                                r == Result::<Option<Vec<SegmentWithTime>>, CacheFault>::Err(
                                    CacheFault::Integrity,
                                )
                            } else if !spec_or_full(rec.bitmap, got) {
                                r == Result::<Option<Vec<SegmentWithTime>>, CacheFault>::Ok(
                                    Option::None,
                                )
                            } else {
                                r matches Ok(Some(v)) && v@.map_values(|s: SegmentWithTime| s@)
                                    == spec_complement(rec, got)
                            }
                        }
                    },
                }
            }),
    {
        let millis = match parse_millis(send_time) {
            Some(m) => m,
            None => {
                return Ok(None);
            },
        };
        let i = match self.find_record(sender, millis) {
            Some(i) => i,
            None => {
                return Ok(None);
            },
        };
        let ghost rec = self@.records[i as int];
        proof {
            assert(rec_wf(rec));
        }
        if self.records[i].num_bit_map.len() != got_bit_map.len() {
            return Err(CacheFault::Integrity);
        }
        let n = got_bit_map.len();
        let mut j: usize = 0;
        while j < n
            invariant
                self.wf(),
                i < self@.records.len(),
                rec == self@.records[i as int],
                i < self.records@.len(),
                rec == self.records@[i as int]@,
                rec.bitmap.len() == n,
                got_bit_map@.len() == n,
                spec_parse_millis(send_time@) == Some(millis),
                has_rec(self@.records, sender@, millis),
                i as int == rec_idx(self@.records, sender@, millis),
                0 <= j <= n,
                forall|m: int| 0 <= m < j ==> rec.bitmap[m] || got_bit_map@[m],
            decreases n - j,
        {
            let stored = self.records[i].num_bit_map[j];
            let got = got_bit_map[j];
            if !stored && !got {
                proof {
                    assert(!(rec.bitmap[j as int] || got_bit_map@[j as int]));
                }
                return Ok(None);
            }
            j = j + 1;
        }
        assert(spec_or_full(rec.bitmap, got_bit_map@));
        let mut out: Vec<SegmentWithTime> = Vec::new();
        let mut j: usize = 0;
        while j < n
            invariant
                self.wf(),
                i < self@.records.len(),
                rec == self@.records[i as int],
                i < self.records@.len(),
                rec == self.records@[i as int]@,
                rec_wf(rec),
                rec.bitmap.len() == n,
                got_bit_map@.len() == n,
                spec_parse_millis(send_time@) == Some(millis),
                has_rec(self@.records, sender@, millis),
                i as int == rec_idx(self@.records, sender@, millis),
                0 <= j <= n,
                out@.map_values(|s: SegmentWithTime| s@) == spec_complement_upto(
                    rec,
                    got_bit_map@,
                    j as int,
                ),
            decreases n - j,
        {
            let stored = self.records[i].num_bit_map[j];
            let got = got_bit_map[j];
            if stored && !got {
                proof {
                    assert(rec.bitmap[j as int]);
                    let w = choose|w: int|
                        0 <= w < rec.segments.len() && (#[trigger] rec.segments[w]).segment.seg_num
                            == j as int;
                    assert(self.records@[i as int].segments@[w]@ == rec.segments[w]);
                }
                let k = find_first_seg(&self.records[i].segments, j);
                let seg = self.records[i].segments[k].duplicate();
                out.push(seg);
                proof {
                    assert(rec.segments == self.records@[i as int].segments@.map_values(
                        |s: SegmentWithTime| s@,
                    ));
                    assert(out@.map_values(|s: SegmentWithTime| s@) =~= spec_complement_upto(
                        rec,
                        got_bit_map@,
                        j + 1,
                    ));
                }
            } else {
                proof {
                    assert(out@.map_values(|s: SegmentWithTime| s@) =~= spec_complement_upto(
                        rec,
                        got_bit_map@,
                        j + 1,
                    ));
                }
            }
            j = j + 1;
        }
        Ok(Some(out))
    }
}

/// Merging a fitting segment into record `i` preserves cache
/// well-formedness.
pub proof fn lemma_merge_preserves_wf(c: CacheModel, i: int, s: SegmentWithTimeModel, new_c: CacheModel)
    requires
        cache_wf(c),
        0 <= i < c.records.len(),
        s.segment.sender == c.records[i].sender,
        spec_parse_millis(s.send_time) == Some(c.records[i].time_millis),
        s.segment.seg_count == c.records[i].bitmap.len(),
        0 <= s.segment.seg_num < c.records[i].bitmap.len(),
        new_c.records == c.records.update(i, spec_merge_record(c.records[i], s)),
        new_c.max_retry_num == c.max_retry_num,
    ensures
        cache_wf(new_c),
{
    let old_r = c.records[i];
    let new_r = spec_merge_record(old_r, s);
    assert(rec_wf(new_r)) by {
        assert forall|k: int| 0 <= k < new_r.segments.len() implies seg_fits_record(
            new_r,
            #[trigger] new_r.segments[k],
        ) && new_r.bitmap[new_r.segments[k].segment.seg_num] by {
            if k < old_r.segments.len() {
                assert(new_r.segments[k] == old_r.segments[k]);
                assert(seg_fits_record(old_r, old_r.segments[k]));
            } else {
                assert(new_r.segments[k] == s);
            }
        }
        assert forall|b: int| 0 <= b < new_r.bitmap.len() && new_r.bitmap[b] implies exists|k: int|
            0 <= k < new_r.segments.len() && (#[trigger] new_r.segments[k]).segment.seg_num
                == b by {
            if b == s.segment.seg_num {
                assert(new_r.segments[old_r.segments.len() as int].segment.seg_num == b);
            } else {
                assert(old_r.bitmap[b]);
                let k = choose|k: int|
                    0 <= k < old_r.segments.len() && (#[trigger] old_r.segments[
                        k
                    ]).segment.seg_num == b;
                assert(new_r.segments[k].segment.seg_num == b);
            }
        }
    }
    assert forall|a: int| 0 <= a < new_c.records.len() implies rec_wf(#[trigger] new_c.records[a])
        && new_c.records[a].retry <= new_c.max_retry_num by {
        if a != i {
            assert(new_c.records[a] == c.records[a]);
        }
    }
    assert forall|a: int, b: int| 0 <= a < b < new_c.records.len() implies !rec_key_matches(
        #[trigger] new_c.records[a],
        (#[trigger] new_c.records[b]).sender,
        new_c.records[b].time_millis,
    ) by {
        assert(new_c.records[a].sender == c.records[a].sender);
        assert(new_c.records[a].time_millis == c.records[a].time_millis);
        assert(new_c.records[b].sender == c.records[b].sender);
        assert(new_c.records[b].time_millis == c.records[b].time_millis);
        assert(!rec_key_matches(c.records[a], c.records[b].sender, c.records[b].time_millis));
    }
}

/// Appending the record of a fresh group key preserves cache
/// well-formedness.
pub proof fn lemma_push_new_preserves_wf(
    c: CacheModel,
    s: SegmentWithTimeModel,
    millis: u64,
    new_c: CacheModel,
)
    requires
        cache_wf(c),
        c.max_retry_num >= 0,
        spec_parse_millis(s.send_time) == Some(millis),
        0 <= s.segment.seg_num < s.segment.seg_count,
        !has_rec(c.records, s.segment.sender, millis),
        new_c.records == c.records.push(spec_new_record(s, millis)),
        new_c.max_retry_num == c.max_retry_num,
    ensures
        cache_wf(new_c),
{
    let new_r = spec_new_record(s, millis);
    let n = c.records.len() as int;
    assert(rec_wf(new_r)) by {
        assert(new_r.segments[0] == s);
        assert(new_r.bitmap[s.segment.seg_num]);
        assert forall|b: int| 0 <= b < new_r.bitmap.len() && new_r.bitmap[b] implies exists|k: int|
            0 <= k < new_r.segments.len() && (#[trigger] new_r.segments[k]).segment.seg_num
                == b by {
            assert(b == s.segment.seg_num);
            assert(new_r.segments[0].segment.seg_num == b);
        }
    }
    assert forall|a: int| 0 <= a < new_c.records.len() implies rec_wf(#[trigger] new_c.records[a])
        && new_c.records[a].retry <= new_c.max_retry_num by {
        if a < n {
            assert(new_c.records[a] == c.records[a]);
        } else {
            assert(new_c.records[a] == new_r);
        }
    }
    assert forall|a: int, b: int| 0 <= a < b < new_c.records.len() implies !rec_key_matches(
        #[trigger] new_c.records[a],
        (#[trigger] new_c.records[b]).sender,
        new_c.records[b].time_millis,
    ) by {
        if b < n {
            assert(!rec_key_matches(c.records[a], c.records[b].sender, c.records[b].time_millis));
        } else {
            assert(new_c.records[b] == new_r);
            assert(new_c.records[a] == c.records[a]);
            if rec_key_matches(c.records[a], new_r.sender, new_r.time_millis) {
                assert(has_rec(c.records, s.segment.sender, millis));
            }
        }
    }
}

/// Builds a `len`-bit bitmap with only bit `num` set.
fn bitmap_new(len: usize, num: usize) -> (r: Vec<bool>)
    requires
        num < len,
    ensures
        r@ == Seq::new(len as nat, |i: int| i == num as int),
{
    let mut r: Vec<bool> = Vec::new();
    let mut i: usize = 0;
    while i < len
        invariant
            0 <= i <= len,
            r@.len() == i,
            forall|j: int| 0 <= j < i ==> r@[j] == (j == num as int),
        decreases len - i,
    {
        r.push(i == num);
        i = i + 1;
    }
    proof {
        assert(r@ =~= Seq::new(len as nat, |i: int| i == num as int));
    }
    r
}

impl SegmentsCache {
    /// Merges one segment into the cache: creates the group's record if
    /// its key is unseen, otherwise sets the segment's bit and appends
    /// it, after validating the segment against the stored bitmap.
    pub fn add(&mut self, seg: SegmentWithTime) -> (r: Result<(), CacheFault>)
        requires
            old(self).wf(),
        ensures
            final(self).wf(),
            r == spec_add_result(old(self)@.records, seg@),
            final(self)@.records == spec_add_records(old(self)@.records, seg@),
            final(self)@.clean_interval == old(self)@.clean_interval,
            final(self)@.max_retry_num == old(self)@.max_retry_num,
    {
        let millis = match parse_millis(seg.send_time.as_str()) {
            Some(m) => m,
            None => {
                return Err(CacheFault::Malformed);
            },
        };
        if seg.segment.seg_num >= seg.segment.seg_count {
            return Err(CacheFault::Integrity);
        }
        match self.find_record(seg.segment.sender.as_str(), millis) {
            Some(i) => {
                if self.records[i].num_bit_map.len() != seg.segment.seg_count {
                    return Err(CacheFault::Integrity);
                }
                let ghost old_recs = self@.records;
                let seg_num = seg.segment.seg_num;
                let mut rec = self.records.remove(i);
                rec.segments.push(seg);
                rec.num_bit_map.set(seg_num, true);
                self.records.insert(i, rec);
                proof {
                    assert(self@.records[i as int].segments =~= old_recs[i as int].segments.push(
                        seg@,
                    ));
                    assert(self@.records[i as int] == spec_merge_record(old_recs[i as int], seg@));
                    assert(self@.records =~= old_recs.update(
                        i as int,
                        spec_merge_record(old_recs[i as int], seg@),
                    ));
                    lemma_merge_preserves_wf(old(self)@, i as int, seg@, self@);
                }
                Ok(())
            },
            None => {
                let bitmap = bitmap_new(seg.segment.seg_count, seg.segment.seg_num);
                let sender = seg.segment.sender.clone();
                let send_time = seg.send_time.clone();
                let mut segments: Vec<SegmentWithTime> = Vec::new();
                segments.push(seg);
                let rec = SegmentsCacheRecord {
                    sender,
                    send_time,
                    time_millis: millis,
                    segments,
                    num_bit_map: bitmap,
                    retry: 0,
                };
                let ghost old_recs = self@.records;
                let ghost rec_model = rec@;
                self.records.push(rec);
                proof {
                    assert(rec_model.segments =~= seq![seg@]);
                    assert(rec_model == spec_new_record(seg@, millis));
                    assert(self@.records =~= old_recs.push(spec_new_record(seg@, millis)));
                    lemma_push_new_preserves_wf(old(self)@, seg@, millis, self@);
                }
                Ok(())
            },
        }
    }

    /// Merges a batch of segments in order, each as by
    /// [`SegmentsCache::add`]; a segment whose merge faults leaves the
    /// cache unchanged and the rest are still merged.
    pub fn add_bulk(&mut self, segments: Vec<SegmentWithTime>)
        requires
            old(self).wf(),
        ensures
            final(self).wf(),
            final(self)@.records == spec_add_bulk_records(
                old(self)@.records,
                segments@.map_values(|s: SegmentWithTime| s@),
            ),
            final(self)@.clean_interval == old(self)@.clean_interval,
            final(self)@.max_retry_num == old(self)@.max_retry_num,
    {
        let ghost segs = segments@.map_values(|s: SegmentWithTime| s@);
        let ghost old_recs = self@.records;
        let mut i: usize = 0;
        while i < segments.len()
            invariant
                self.wf(),
                0 <= i <= segments.len(),
                segs == segments@.map_values(|s: SegmentWithTime| s@),
                self@.records == spec_add_bulk_records(old_recs, segs.subrange(0, i as int)),
                self@.clean_interval == old(self)@.clean_interval,
                self@.max_retry_num == old(self)@.max_retry_num,
            decreases segments.len() - i,
        {
            let s = segments[i].duplicate();
            let _ = self.add(s);
            proof {
                assert(segs.subrange(0, i + 1).drop_last() =~= segs.subrange(0, i as int));
                assert(segs.subrange(0, i + 1).last() == segs[i as int]);
            }
            i = i + 1;
        }
        proof {
            assert(segs.subrange(0, segments.len() as int) =~= segs);
        }
    }
}

/// Removing one record preserves cache well-formedness.
proof fn lemma_remove_preserves_wf(old_c: CacheModel, new_c: CacheModel, i: int)
    requires
        cache_wf(old_c),
        0 <= i < old_c.records.len(),
        new_c.records == old_c.records.remove(i),
        new_c.max_retry_num == old_c.max_retry_num,
    ensures
        cache_wf(new_c),
{
    assert forall|a: int| 0 <= a < new_c.records.len() implies rec_wf(#[trigger] new_c.records[a])
        && new_c.records[a].retry <= new_c.max_retry_num by {
        if a < i {
            assert(new_c.records[a] == old_c.records[a]);
        } else {
            assert(new_c.records[a] == old_c.records[a + 1]);
        }
    }
    assert forall|a: int, b: int| 0 <= a < b < new_c.records.len() implies !rec_key_matches(
        #[trigger] new_c.records[a],
        (#[trigger] new_c.records[b]).sender,
        new_c.records[b].time_millis,
    ) by {
        let oa = if a < i { a } else { a + 1 };
        let ob = if b < i { b } else { b + 1 };
        assert(new_c.records[a] == old_c.records[oa]);
        assert(new_c.records[b] == old_c.records[ob]);
        assert(!rec_key_matches(old_c.records[oa], old_c.records[ob].sender, old_c.records[ob].time_millis));
    }
}

} // verus!
