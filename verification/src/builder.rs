//! The reassembly engine: consumes one batch of segments, completes
//! groups using the batch plus the cache, emits finished and failed
//! messages, and advances the cache's aging.

use vstd::prelude::*;
use crate::cache::{
    cache_wf, has_rec, rec_idx, spec_add_bulk_records, spec_bump_all, spec_clean, spec_complement,
    spec_invalidated_ids, spec_or_full, CacheFault, CacheModel, InvalidatedModel, RecordModel,
    SegmentsCache,
};
use crate::segment::{
    first_seg_with, lemma_first_seg_with_props, SegmentWithTime, SegmentWithTimeModel,
};
use crate::send_time::{parse_millis, spec_parse_millis};
use crate::text::str_eq;

verus! {

/// An engine output: either a successfully reassembled payload
/// (`has_error == false`) or a terminal failure marker for a group
/// that exhausted its retries (`has_error == true`, empty payload).
#[derive(Debug)]
pub struct Message {
    pub payload: Vec<u8>,
    pub has_error: bool,
    pub sender: String,
    pub send_time: String,
}

/// Mathematical image of an engine output [`Message`].
pub ghost struct MessageModel {
    pub payload: Seq<u8>,
    pub has_error: bool,
    pub sender: Seq<char>,
    pub send_time: Seq<char>,
}

impl View for Message {
    type V = MessageModel;

    open spec fn view(&self) -> MessageModel {
        MessageModel {
            payload: self.payload@,
            has_error: self.has_error,
            sender: self.sender@,
            send_time: self.send_time@,
        }
    }
}

/// A fault local to one group for one pass: the group's identity and
/// what went wrong. The pass as a whole still completes.
#[derive(Debug)]
pub struct GroupFault {
    pub sender: String,
    pub send_time: String,
    pub kind: CacheFault,
}

/// Mathematical image of a [`GroupFault`].
pub ghost struct FaultModel {
    pub sender: Seq<char>,
    pub send_time: Seq<char>,
    pub kind: CacheFault,
}

impl View for GroupFault {
    type V = FaultModel;

    open spec fn view(&self) -> FaultModel {
        FaultModel { sender: self.sender@, send_time: self.send_time@, kind: self.kind }
    }
}

/// What one reassembly pass produced: the success messages followed by
/// the terminal failure messages, and the group-local faults.
pub struct PassOutput {
    pub messages: Vec<Message>,
    pub faults: Vec<GroupFault>,
}

/// How the engine disposed of one group of a batch.
pub enum GroupResult {
    /// The group completed; the reassembled message is emitted.
    Completed(Message),
    /// Not yet completable; the group's segments were merged into the
    /// cache for a later pass.
    Deferred,
    /// The group's retries are exhausted; its segments were discarded.
    Dropped,
    /// Inconsistent metadata or a malformed timestamp; the group was
    /// abandoned for this pass and the cache left unchanged.
    Faulted(GroupFault),
}

/// The batch-local bitmap of a group: bit `i` is set when some segment
/// of the group carries `seg_num == i`.
pub open spec fn spec_local_bitmap(g: Seq<SegmentWithTimeModel>, k: int) -> Seq<bool> {
    Seq::new(
        k as nat,
        |i: int| exists|j: int| 0 <= j < g.len() && (#[trigger] g[j]).segment.seg_num == i,
    )
}

/// The reassembled bytes of positions `0 .. k` drawn from `segs`: the
/// payloads of the first segment carrying each position, concatenated
/// in position order (a position nothing carries contributes nothing).
pub open spec fn spec_assembled(segs: Seq<SegmentWithTimeModel>, k: int) -> Seq<u8>
    decreases k,
{
    if k <= 0 {
        Seq::<u8>::empty()
    } else {
        spec_assembled(segs, k - 1) + (if first_seg_with(segs, k - 1) >= 0 {
            segs[first_seg_with(segs, k - 1)].segment.payload
        } else {
            Seq::<u8>::empty()
        })
    }
}

/// Whether every segment of the group carries the key strings of the
/// group's first segment.
pub open spec fn group_uniform(g: Seq<SegmentWithTimeModel>) -> bool {
    forall|k: int|
        0 <= k < g.len() ==> (#[trigger] g[k]).segment.sender == g[0].segment.sender && g[
            k
        ].send_time == g[0].send_time
}

/// Whether the group's metadata is internally consistent: one shared
/// `seg_count`, and every `seg_num` within it.
pub open spec fn spec_group_consistent(g: Seq<SegmentWithTimeModel>) -> bool {
    forall|k: int|
        0 <= k < g.len() ==> (#[trigger] g[k]).segment.seg_count == g[0].segment.seg_count && 0 <= g[
            k
        ].segment.seg_num < g[k].segment.seg_count
}

/// Whether the group is retry-exhausted: a cache record for its key
/// exists and has reached the retry ceiling.
pub open spec fn spec_pg_dropped(recs: Seq<RecordModel>, max: int, g: Seq<SegmentWithTimeModel>) -> bool {
    match spec_parse_millis(g[0].send_time) {
        Option::Some(millis) => has_rec(recs, g[0].segment.sender, millis) && recs[
            rec_idx(recs, g[0].segment.sender, millis)
        ].retry >= max,
        Option::None => false,
    }
}

/// Whether every bit of the bitmap is set.
pub open spec fn spec_bitmap_full(lb: Seq<bool>) -> bool {
    forall|i: int| 0 <= i < lb.len() ==> lb[i]
}

/// The success message of a completed group.
pub open spec fn spec_success_message(g: Seq<SegmentWithTimeModel>, payload: Seq<u8>) -> MessageModel {
    MessageModel {
        payload,
        has_error: false,
        sender: g[0].segment.sender,
        send_time: g[0].send_time,
    }
}

/// The fault record of an abandoned group.
pub open spec fn spec_fault(g: Seq<SegmentWithTimeModel>, kind: CacheFault) -> FaultModel {
    FaultModel { sender: g[0].segment.sender, send_time: g[0].send_time, kind }
}

/// How the engine disposes of one group: the cache records afterwards,
/// the messages emitted (none or one), and the faults reported (none
/// or one). Mirrors [`MessageBuilder::build_message`]: a malformed
/// timestamp or inconsistent metadata faults the group; a
/// retry-exhausted group is dropped; a group whose local bitmap is
/// full completes from the batch alone; otherwise the cache either
/// completes it (bitwise OR entirely true) or absorbs its segments.
pub open spec fn spec_process_group(
    recs: Seq<RecordModel>,
    max: int,
    g: Seq<SegmentWithTimeModel>,
) -> (Seq<RecordModel>, Seq<MessageModel>, Seq<FaultModel>) {
    match spec_parse_millis(g[0].send_time) {
        Option::None => (recs, Seq::<MessageModel>::empty(), seq![spec_fault(g, CacheFault::Malformed)]),
        Option::Some(millis) => {
            if spec_pg_dropped(recs, max, g) {
                (recs, Seq::<MessageModel>::empty(), Seq::<FaultModel>::empty())
            } else if !spec_group_consistent(g) {
                (recs, Seq::<MessageModel>::empty(), seq![spec_fault(g, CacheFault::Integrity)])
            } else {
                let k = g[0].segment.seg_count;
                let lb = spec_local_bitmap(g, k);
                if spec_bitmap_full(lb) {
                    (
                        recs,
                        seq![spec_success_message(g, spec_assembled(g, k))],
                        Seq::<FaultModel>::empty(),
                    )
                } else if has_rec(recs, g[0].segment.sender, millis) {
                    let rec = recs[rec_idx(recs, g[0].segment.sender, millis)];
                    if rec.bitmap.len() != k {
                        (
                            recs,
                            Seq::<MessageModel>::empty(),
                            seq![spec_fault(g, CacheFault::Integrity)],
                        )
                    } else if spec_or_full(rec.bitmap, lb) {
                        let combined = g + spec_complement(rec, lb);
                        (
                            recs,
                            seq![spec_success_message(g, spec_assembled(combined, k))],
                            Seq::<FaultModel>::empty(),
                        )
                    } else {
                        (spec_add_bulk_records(recs, g), Seq::<MessageModel>::empty(), Seq::<FaultModel>::empty())
                    }
                } else {
                    (spec_add_bulk_records(recs, g), Seq::<MessageModel>::empty(), Seq::<FaultModel>::empty())
                }
            }
        },
    }
}

/// Finds the first segment carrying position `num`, if any.
fn find_seg_opt(segments: &Vec<SegmentWithTime>, num: usize) -> (r: Option<usize>)
    ensures
        ({
            let fw = first_seg_with(segments@.map_values(|s: SegmentWithTime| s@), num as int);
            match r {
                Some(k) => k < segments@.len() && k as int == fw,
                None => fw == -1,
            }
        }),
{
    let ghost ms = segments@.map_values(|s: SegmentWithTime| s@);
    let mut k: usize = 0;
    while k < segments.len()
        invariant
            0 <= k <= segments@.len(),
            ms == segments@.map_values(|s: SegmentWithTime| s@),
            forall|m: int| 0 <= m < k ==> (#[trigger] ms[m]).segment.seg_num != num as int,
        decreases segments.len() - k,
    {
        if segments[k].segment.seg_num == num {
            proof {
                lemma_first_seg_with_props(ms, num as int);
                let fw = first_seg_with(ms, num as int);
                assert(ms[k as int].segment.seg_num == num as int);
                if fw < k as int && fw >= 0 {
                    assert(ms[fw].segment.seg_num != num as int);
                }
            }
            return Some(k);
        }
        k = k + 1;
    }
    proof {
        lemma_first_seg_with_props(ms, num as int);
        let fw = first_seg_with(ms, num as int);
        if fw >= 0 {
            assert(ms[fw].segment.seg_num == num as int);
        }
    }
    None
}

/// Concatenates, in position order `0 .. seg_count`, the payload of
/// the first segment carrying each position.
pub fn assemble_payload(segments: &Vec<SegmentWithTime>, seg_count: usize) -> (r: Vec<u8>)
    ensures
        r@ == spec_assembled(segments@.map_values(|s: SegmentWithTime| s@), seg_count as int),
{
    let ghost ms = segments@.map_values(|s: SegmentWithTime| s@);
    let mut r: Vec<u8> = Vec::new();
    let mut b: usize = 0;
    while b < seg_count
        invariant
            0 <= b <= seg_count,
            ms == segments@.map_values(|s: SegmentWithTime| s@),
            r@ == spec_assembled(ms, b as int),
        decreases seg_count - b,
    {
        match find_seg_opt(segments, b) {
            Some(k) => {
                let piece = &segments[k].segment.payload;
                let mut x: usize = 0;
                let ghost before = r@;
                while x < piece.len()
                    invariant
                        0 <= x <= piece@.len(),
                        r@ == before + piece@.subrange(0, x as int),
                    decreases piece.len() - x,
                {
                    r.push(piece[x]);
                    proof {
                        assert(r@ =~= before + piece@.subrange(0, x + 1));
                    }
                    x = x + 1;
                }
                proof {
                    assert(piece@.subrange(0, piece@.len() as int) =~= piece@);
                    assert(ms[k as int].segment.payload == piece@);
                    assert(r@ =~= spec_assembled(ms, b + 1));
                }
            },
            None => {
                proof {
                    assert(r@ =~= spec_assembled(ms, b + 1));
                }
            },
        }
        b = b + 1;
    }
    r
}

/// Whether two segments belong to the same group: same sender and the
/// same `send_time` string.
pub open spec fn same_group(a: SegmentWithTimeModel, b: SegmentWithTimeModel) -> bool {
    a.segment.sender == b.segment.sender && a.send_time == b.send_time
}

/// The index of the first group of `p` that `x` belongs to, or `-1`.
pub open spec fn first_group_of(p: Seq<Seq<SegmentWithTimeModel>>, x: SegmentWithTimeModel) -> int
    decreases p.len(),
{
    if p.len() == 0 {
        -1
    } else if p[0].len() > 0 && same_group(p[0][0], x) {
        0
    } else if first_group_of(p.drop_first(), x) < 0 {
        -1
    } else {
        first_group_of(p.drop_first(), x) + 1
    }
}

/// What [`first_group_of`] returns: `-1` exactly when no group matches,
/// and otherwise the least matching index.
proof fn lemma_first_group_of_props(p: Seq<Seq<SegmentWithTimeModel>>, x: SegmentWithTimeModel)
    ensures
        -1 <= first_group_of(p, x) < p.len(),
        first_group_of(p, x) == -1 ==> forall|m: int|
            0 <= m < p.len() ==> !((#[trigger] p[m]).len() > 0 && same_group(p[m][0], x)),
        first_group_of(p, x) >= 0 ==> p[first_group_of(p, x)].len() > 0 && same_group(
            p[first_group_of(p, x)][0],
            x,
        ) && forall|m: int|
            0 <= m < first_group_of(p, x) ==> !((#[trigger] p[m]).len() > 0 && same_group(
                p[m][0],
                x,
            )),
    decreases p.len(),
{
    if p.len() > 0 && !(p[0].len() > 0 && same_group(p[0][0], x)) {
        let rest = p.drop_first();
        lemma_first_group_of_props(rest, x);
        assert(forall|m: int| 0 <= m < rest.len() ==> rest[m] == p[m + 1]);
        let fr = first_group_of(rest, x);
        if fr == -1 {
            assert forall|m: int| 0 <= m < p.len() implies !((#[trigger] p[m]).len() > 0
                && same_group(p[m][0], x)) by {
                if m > 0 {
                    assert(!(rest[m - 1].len() > 0 && same_group(rest[m - 1][0], x)));
                }
            }
        } else {
            assert(p[fr + 1] == rest[fr]);
            assert forall|m: int| 0 <= m < fr + 1 implies !((#[trigger] p[m]).len() > 0
                && same_group(p[m][0], x)) by {
                if m > 0 {
                    assert(!(rest[m - 1].len() > 0 && same_group(rest[m - 1][0], x)));
                }
            }
        }
    }
}

/// The batch partitioned into groups: one group per distinct key, in
/// order of first occurrence, each group in arrival order.
pub open spec fn spec_partition(s: Seq<SegmentWithTimeModel>) -> Seq<Seq<SegmentWithTimeModel>>
    decreases s.len(),
{
    if s.len() == 0 {
        Seq::<Seq<SegmentWithTimeModel>>::empty()
    } else {
        let p = spec_partition(s.drop_last());
        let x = s.last();
        let i = first_group_of(p, x);
        if i >= 0 {
            p.update(i, p[i].push(x))
        } else {
            p.push(seq![x])
        }
    }
}

/// Every group of a partition is nonempty and key-uniform.
proof fn lemma_partition_wf(s: Seq<SegmentWithTimeModel>)
    ensures
        forall|gi: int|
            0 <= gi < spec_partition(s).len() ==> (#[trigger] spec_partition(s)[gi]).len() >= 1
                && group_uniform(spec_partition(s)[gi]),
    decreases s.len(),
{
    if s.len() > 0 {
        lemma_partition_wf(s.drop_last());
        let p = spec_partition(s.drop_last());
        let x = s.last();
        let i = first_group_of(p, x);
        lemma_first_group_of_props(p, x);
        if i >= 0 {
            let updated = p[i].push(x);
            assert(group_uniform(updated)) by {
                assert(updated[0] == p[i][0]);
                assert(same_group(p[i][0], x));
                assert forall|k: int| 0 <= k < updated.len() implies (#[trigger] updated[
                    k
                ]).segment.sender == updated[0].segment.sender && updated[k].send_time == updated[
                    0
                ].send_time by {
                    if k < p[i].len() {
                        assert(updated[k] == p[i][k]);
                        assert(group_uniform(p[i]));
                    } else {
                        assert(updated[k] == x);
                    }
                }
            }
        } else {
            assert(group_uniform(seq![x])) by {
                assert(seq![x][0] == x);
            }
        }
    }
}

/// The groups of a vector of segment vectors, as model sequences.
pub open spec fn groups_models(gs: Seq<Vec<SegmentWithTime>>) -> Seq<Seq<SegmentWithTimeModel>> {
    gs.map_values(|g: Vec<SegmentWithTime>| g@.map_values(|s: SegmentWithTime| s@))
}

/// Partitions a batch by group key, in order of first occurrence,
/// keeping each group's arrival order.
fn partition_segments(got: Vec<SegmentWithTime>) -> (r: Vec<Vec<SegmentWithTime>>)
    ensures
        groups_models(r@) == spec_partition(got@.map_values(|s: SegmentWithTime| s@)),
{
    let ghost segs = got@.map_values(|s: SegmentWithTime| s@);
    let mut r: Vec<Vec<SegmentWithTime>> = Vec::new();
    let mut i: usize = 0;
    while i < got.len()
        invariant
            segs == got@.map_values(|s: SegmentWithTime| s@),
            0 <= i <= got@.len(),
            groups_models(r@) == spec_partition(segs.subrange(0, i as int)),
        decreases got.len() - i,
    {
        let seg = got[i].duplicate();
        let ghost p = spec_partition(segs.subrange(0, i as int));
        proof {
            assert(seg@ == segs[i as int]);
            lemma_first_group_of_props(p, segs[i as int]);
        }
        let mut gi: usize = 0;
        let mut found: Option<usize> = None;
        while gi < r.len()
            invariant
                segs == got@.map_values(|s: SegmentWithTime| s@),
                0 <= i < got@.len(),
                seg@ == segs[i as int],
                p == groups_models(r@),
                0 <= gi <= r@.len(),
                match found {
                    Some(f) => f < r@.len() && f as int == first_group_of(p, segs[i as int]),
                    None => forall|m: int|
                        0 <= m < gi ==> !((#[trigger] p[m]).len() > 0 && same_group(
                            p[m][0],
                            segs[i as int],
                        )),
                },
                found is Some ==> gi == r@.len(),
            decreases r.len() - gi + (if found is Some {
                0int
            } else {
                1int
            }),
        {
            if found.is_none() && r[gi].len() > 0 && str_eq(
                r[gi][0].segment.sender.as_str(),
                seg.segment.sender.as_str(),
            ) && str_eq(r[gi][0].send_time.as_str(), seg.send_time.as_str()) {
                proof {
                    assert(p[gi as int][0] == r@[gi as int]@[0]@);
                    assert(p[gi as int].len() > 0 && same_group(p[gi as int][0], segs[i as int]));
                    lemma_first_group_of_props(p, segs[i as int]);
                    let fg = first_group_of(p, segs[i as int]);
                    if fg < gi as int && fg >= 0 {
                        assert(!(p[fg].len() > 0 && same_group(p[fg][0], segs[i as int])));
                    }
                }
                found = Some(gi);
                gi = r.len();
            } else {
                gi = gi + 1;
            }
        }
        let ghost step = segs.subrange(0, i + 1);
        proof {
            assert(step.drop_last() =~= segs.subrange(0, i as int));
            assert(step.last() == segs[i as int]);
        }
        match found {
            Some(f) => {
                let mut grp = r.remove(f);
                grp.push(seg);
                r.insert(f, grp);
                proof {
                    assert(groups_models(r@) =~~= p.update(
                        f as int,
                        p[f as int].push(segs[i as int]),
                    ));
                    assert(groups_models(r@) == spec_partition(step));
                }
            },
            None => {
                proof {
                    lemma_first_group_of_props(p, segs[i as int]);
                    let fg = first_group_of(p, segs[i as int]);
                    if fg >= 0 {
                        assert(!(p[fg].len() > 0 && same_group(p[fg][0], segs[i as int])));
                    }
                }
                let mut grp: Vec<SegmentWithTime> = Vec::new();
                grp.push(seg);
                r.push(grp);
                proof {
                    assert(groups_models(r@) =~~= p.push(seq![segs[i as int]]));
                    assert(groups_models(r@) == spec_partition(step));
                }
            },
        }
        i = i + 1;
    }
    proof {
        assert(segs.subrange(0, segs.len() as int) =~= segs);
    }
    r
}

/// The terminal failure messages of the groups [`spec_invalidated_ids`]
/// names: empty payload, `has_error` set, the group's identity.
pub open spec fn spec_fail_of(ids: Seq<InvalidatedModel>) -> Seq<MessageModel> {
    ids.map_values(
        |iv: InvalidatedModel| MessageModel {
            payload: Seq::<u8>::empty(),
            has_error: true,
            sender: iv.sender,
            send_time: iv.send_time,
        },
    )
}

/// The failure messages owed on this pass: one per group whose retry
/// count stands one short of the ceiling.
pub open spec fn spec_fail_messages(recs: Seq<RecordModel>, max: int) -> Seq<MessageModel> {
    spec_fail_of(spec_invalidated_ids(recs, max))
}

/// The groups of a batch disposed of in order: the cache records
/// afterwards, the success messages, and the faults, accumulated
/// group by group with [`spec_process_group`].
pub open spec fn spec_run_groups(
    recs: Seq<RecordModel>,
    max: int,
    groups: Seq<Seq<SegmentWithTimeModel>>,
) -> (Seq<RecordModel>, Seq<MessageModel>, Seq<FaultModel>)
    decreases groups.len(),
{
    if groups.len() == 0 {
        (recs, Seq::<MessageModel>::empty(), Seq::<FaultModel>::empty())
    } else {
        let prev = spec_run_groups(recs, max, groups.drop_last());
        let step = spec_process_group(prev.0, max, groups.last());
        (step.0, prev.1 + step.1, prev.2 + step.2)
    }
}

/// One reassembly pass over the batch `segs` at time `now`: partition,
/// per-group disposal, failure drain, aging, eviction.
pub open spec fn spec_pass(c: CacheModel, segs: Seq<SegmentWithTimeModel>, now: u64) -> (
    Seq<RecordModel>,
    Seq<MessageModel>,
    Seq<FaultModel>,
) {
    let run = spec_run_groups(c.records, c.max_retry_num, spec_partition(segs));
    let msgs = run.1 + spec_fail_messages(run.0, c.max_retry_num);
    let recs2 = spec_clean(spec_bump_all(run.0, c.max_retry_num), now, c.clean_interval, c.max_retry_num);
    (recs2, msgs, run.2)
}

/// The reassembly engine, holding the retry cache between passes.
pub struct MessageBuilder {
    retry_cache: SegmentsCache,
}

impl View for MessageBuilder {
    type V = CacheModel;

    closed spec fn view(&self) -> CacheModel {
        self.retry_cache@
    }
}

impl MessageBuilder {
    /// Well-formedness of the engine's cache; established by
    /// [`MessageBuilder::new`] and preserved by every method.
    pub open spec fn wf(&self) -> bool {
        cache_wf(self@)
    }

    /// Creates an engine over an empty cache, with the given retention
    /// window (milliseconds) and retry ceiling.
    pub fn new(clean_interval: u64, max_retry_num: u8) -> (r: MessageBuilder)
        ensures
            r.wf(),
            r@.records == Seq::<RecordModel>::empty(),
            r@.clean_interval == clean_interval,
            r@.max_retry_num == max_retry_num as int,
    {
        MessageBuilder { retry_cache: SegmentsCache::new(clean_interval, max_retry_num) }
    }

    /// Disposes of one key-uniform group of a batch, as
    /// [`spec_process_group`] describes: emits the reassembled message
    /// if the group completes from the batch or via the cache, merges
    /// its segments into the cache if not yet completable, drops a
    /// retry-exhausted group, and reports a fault for a malformed
    /// timestamp or inconsistent metadata.
    pub fn build_message(&mut self, group: Vec<SegmentWithTime>) -> (r: GroupResult)
        requires
            old(self).wf(),
            group@.len() >= 1,
            group_uniform(group@.map_values(|s: SegmentWithTime| s@)),
        ensures
            final(self).wf(),
            final(self)@.clean_interval == old(self)@.clean_interval,
            final(self)@.max_retry_num == old(self)@.max_retry_num,
            ({
                let g = group@.map_values(|s: SegmentWithTime| s@);
                let out = spec_process_group(old(self)@.records, old(self)@.max_retry_num, g);
                &&& final(self)@.records == out.0
                &&& match r {
                    GroupResult::Completed(m) => out.1 == seq![m@] && out.2
                        == Seq::<FaultModel>::empty(),
                    GroupResult::Deferred => out.1 == Seq::<MessageModel>::empty() && out.2
                        == Seq::<FaultModel>::empty() && !spec_pg_dropped(
                        old(self)@.records,
                        old(self)@.max_retry_num,
                        g,
                    ),
                    GroupResult::Dropped => out.1 == Seq::<MessageModel>::empty() && out.2
                        == Seq::<FaultModel>::empty() && spec_pg_dropped(
                        old(self)@.records,
                        old(self)@.max_retry_num,
                        g,
                    ),
                    GroupResult::Faulted(f) => out.1 == Seq::<MessageModel>::empty() && out.2
                        == seq![f@],
                }
            }),
    {
        let ghost g = group@.map_values(|s: SegmentWithTime| s@);
        let first_sender = group[0].segment.sender.clone();
        let first_time = group[0].send_time.clone();
        let seg_count = group[0].segment.seg_count;
        proof {
            assert(g[0] == group@[0]@);
        }
        if parse_millis(first_time.as_str()).is_none() {
            return GroupResult::Faulted(
                GroupFault { sender: first_sender, send_time: first_time, kind: CacheFault::Malformed },
            );
        }
        if !self.retry_cache.check_retry_limit(first_sender.as_str(), first_time.as_str()) {
            return GroupResult::Dropped;
        }
        let ghost dropped = spec_pg_dropped(old(self)@.records, old(self)@.max_retry_num, g);
        proof {
            assert(!dropped);
        }
        let mut j: usize = 0;
        while j < group.len()
            invariant
                self.wf(),
                self@ == old(self)@,
                !dropped,
                dropped == spec_pg_dropped(old(self)@.records, old(self)@.max_retry_num, g),
                spec_parse_millis(g[0].send_time) is Some,
                g == group@.map_values(|s: SegmentWithTime| s@),
                group@.len() >= 1,
                first_sender@ == g[0].segment.sender,
                first_time@ == g[0].send_time,
                seg_count as int == g[0].segment.seg_count,
                0 <= j <= group@.len(),
                forall|k: int|
                    0 <= k < j ==> (#[trigger] g[k]).segment.seg_count == g[0].segment.seg_count
                        && 0 <= g[k].segment.seg_num < g[k].segment.seg_count,
            decreases group.len() - j,
        {
            proof {
                assert(g[j as int] == group@[j as int]@);
            }
            if group[j].segment.seg_count != seg_count || group[j].segment.seg_num
                >= group[j].segment.seg_count {
                proof {
                    assert(!((g[j as int]).segment.seg_count == g[0].segment.seg_count && 0 <= g[
                        j as int
                    ].segment.seg_num < g[j as int].segment.seg_count));
                    assert(!spec_group_consistent(g));
                }
                return GroupResult::Faulted(
                    GroupFault {
                        sender: first_sender,
                        send_time: first_time,
                        kind: CacheFault::Integrity,
                    },
                );
            }
            j = j + 1;
        }
        proof {
            assert(spec_group_consistent(g));
        }
        let ghost k = seg_count as int;
        let mut lb: Vec<bool> = Vec::new();
        let mut t: usize = 0;
        while t < seg_count
            invariant
                0 <= t <= seg_count,
                lb@.len() == t,
                forall|i: int| 0 <= i < t ==> !lb@[i],
            decreases seg_count - t,
        {
            lb.push(false);
            t = t + 1;
        }
        let mut j: usize = 0;
        while j < group.len()
            invariant
                g == group@.map_values(|s: SegmentWithTime| s@),
                group@.len() >= 1,
                spec_group_consistent(g),
                seg_count as int == g[0].segment.seg_count,
                lb@.len() == seg_count,
                0 <= j <= group@.len(),
                forall|i: int|
                    0 <= i < seg_count ==> lb@[i] == exists|j2: int|
                        0 <= j2 < j && (#[trigger] g[j2]).segment.seg_num == i,
            decreases group.len() - j,
        {
            let num = group[j].segment.seg_num;
            let ghost lb_before = lb@;
            proof {
                assert(g[j as int] == group@[j as int]@);
                assert(0 <= g[j as int].segment.seg_num < g[j as int].segment.seg_count);
                assert(g[j as int].segment.seg_count == g[0].segment.seg_count);
            }
            lb.set(num, true);
            proof {
                assert(g[j as int].segment.seg_num == num as int);
                assert forall|i: int| 0 <= i < seg_count implies lb@[i] == exists|j2: int|
                    0 <= j2 < j + 1 && (#[trigger] g[j2]).segment.seg_num == i by {
                    if i == num as int {
                        assert(g[j as int].segment.seg_num == i);
                        assert(lb@[i]);
                    } else {
                        assert(lb@[i] == lb_before[i]);
                        if lb_before[i] {
                            let w = choose|j2: int|
                                0 <= j2 < j && (#[trigger] g[j2]).segment.seg_num == i;
                            assert(g[w].segment.seg_num == i);
                        } else {
                            if exists|j2: int| 0 <= j2 < j + 1 && (#[trigger] g[j2]).segment.seg_num
                                == i {
                                let w = choose|j2: int|
                                    0 <= j2 < j + 1 && (#[trigger] g[j2]).segment.seg_num == i;
                                assert(w == j || (0 <= w < j));
                                assert(false);
                            }
                        }
                    }
                }
            }
            j = j + 1;
        }
        proof {
            assert(lb@ =~= spec_local_bitmap(g, k));
        }
        let mut full = true;
        let mut b: usize = 0;
        while b < seg_count
            invariant
                lb@.len() == seg_count,
                0 <= b <= seg_count,
                full == (forall|i: int| 0 <= i < b ==> lb@[i]),
            decreases seg_count - b,
        {
            if !lb[b] {
                full = false;
            }
            b = b + 1;
        }
        if full {
            let payload = assemble_payload(&group, seg_count);
            let m = Message {
                payload,
                has_error: false,
                sender: first_sender,
                send_time: first_time,
            };
            proof {
                assert(spec_bitmap_full(spec_local_bitmap(g, k)));
                assert(m@ == spec_success_message(g, spec_assembled(g, k)));
            }
            return GroupResult::Completed(m);
        }
        match self.retry_cache.get_segments(
            first_sender.as_str(),
            first_time.as_str(),
            lb.as_slice(),
        ) {
            Err(_) => GroupResult::Faulted(
                GroupFault {
                    sender: first_sender,
                    send_time: first_time,
                    kind: CacheFault::Integrity,
                },
            ),
            Ok(None) => {
                self.retry_cache.add_bulk(group);
                GroupResult::Deferred
            },
            Ok(Some(extra)) => {
                let ghost extra_models = extra@.map_values(|s: SegmentWithTime| s@);
                let mut combined = group;
                let mut extra = extra;
                combined.append(&mut extra);
                proof {
                    assert(combined@.map_values(|s: SegmentWithTime| s@) =~= g + extra_models);
                }
                let payload = assemble_payload(&combined, seg_count);
                let m = Message {
                    payload,
                    has_error: false,
                    sender: first_sender,
                    send_time: first_time,
                };
                GroupResult::Completed(m)
            },
        }
    }

    /// The terminal failure messages owed on this pass: one per group
    /// whose retry count stands one short of the ceiling, each with an
    /// empty payload and `has_error` set.
    pub fn build_messages_with_errors(&self) -> (r: Vec<Message>)
        requires
            self.wf(),
        ensures
            r@.map_values(|m: Message| m@) == spec_fail_messages(
                self@.records,
                self@.max_retry_num,
            ),
    {
        let invalidated = self.retry_cache.get_latest_invalidated_records();
        let ghost ids = invalidated@.map_values(|x: crate::cache::InvalidatedRecord| x@);
        let mut out: Vec<Message> = Vec::new();
        let mut idx: usize = 0;
        while idx < invalidated.len()
            invariant
                ids == invalidated@.map_values(|x: crate::cache::InvalidatedRecord| x@),
                0 <= idx <= ids.len(),
                out@.map_values(|m: Message| m@) == spec_fail_of(ids.subrange(0, idx as int)),
            decreases invalidated.len() - idx,
        {
            let ghost out_before = out@;
            let m = Message {
                payload: Vec::new(),
                has_error: true,
                sender: invalidated[idx].sender.clone(),
                send_time: invalidated[idx].send_time.clone(),
            };
            proof {
                assert(ids[idx as int] == invalidated@[idx as int]@);
                assert(m@.payload =~= Seq::<u8>::empty());
                assert(m@ == MessageModel {
                    payload: Seq::<u8>::empty(),
                    has_error: true,
                    sender: ids[idx as int].sender,
                    send_time: ids[idx as int].send_time,
                });
            }
            out.push(m);
            proof {
                assert(ids.subrange(0, idx + 1) =~= ids.subrange(0, idx as int).push(
                    ids[idx as int],
                ));
                assert(out@.map_values(|m2: Message| m2@) =~= out_before.map_values(
                    |m2: Message| m2@,
                ).push(m@));
                assert(out@.map_values(|m2: Message| m2@) =~= spec_fail_of(
                    ids.subrange(0, idx + 1),
                ));
            }
            idx = idx + 1;
        }
        proof {
            assert(ids.subrange(0, ids.len() as int) =~= ids);
        }
        out
    }

    /// One reassembly pass over a batch, as [`spec_pass`] describes:
    /// partitions the batch by group key, disposes of each group,
    /// drains the failure notifications owed this pass, ages every
    /// record, and evicts the expired and exhausted ones at
    /// `now_millis`. Returns the success messages followed by the
    /// failure messages, and the group-local faults.
    pub fn build_messages(&mut self, got_segments: Vec<SegmentWithTime>, now_millis: u64) -> (r:
        PassOutput)
        requires
            old(self).wf(),
        ensures
            final(self).wf(),
            final(self)@.clean_interval == old(self)@.clean_interval,
            final(self)@.max_retry_num == old(self)@.max_retry_num,
            ({
                let out = spec_pass(
                    old(self)@,
                    got_segments@.map_values(|s: SegmentWithTime| s@),
                    now_millis,
                );
                &&& final(self)@.records == out.0
                &&& r.messages@.map_values(|m: Message| m@) == out.1
                &&& r.faults@.map_values(|f: GroupFault| f@) == out.2
            }),
    {
        let ghost segs = got_segments@.map_values(|s: SegmentWithTime| s@);
        let mut groups = partition_segments(got_segments);
        proof {
            lemma_partition_wf(segs);
        }
        let ghost gmodels = spec_partition(segs);
        let total = groups.len();
        let ghost n = gmodels.len();
        proof {
            assert(n == total);
        }
        let mut messages: Vec<Message> = Vec::new();
        let mut faults: Vec<GroupFault> = Vec::new();
        let mut idx: usize = 0;
        while groups.len() > 0
            invariant
                self.wf(),
                self@.clean_interval == old(self)@.clean_interval,
                self@.max_retry_num == old(self)@.max_retry_num,
                gmodels == spec_partition(segs),
                n == gmodels.len(),
                n <= usize::MAX,
                idx + groups@.len() == n,
                groups_models(groups@) == gmodels.subrange(idx as int, n as int),
                forall|gi: int|
                    0 <= gi < n ==> (#[trigger] gmodels[gi]).len() >= 1 && group_uniform(
                        gmodels[gi],
                    ),
                ({
                    let run = spec_run_groups(
                        old(self)@.records,
                        old(self)@.max_retry_num,
                        gmodels.subrange(0, idx as int),
                    );
                    &&& self@.records == run.0
                    &&& messages@.map_values(|m: Message| m@) == run.1
                    &&& faults@.map_values(|f: GroupFault| f@) == run.2
                }),
            decreases groups.len(),
        {
            let ghost old_groups = groups@;
            let group = groups.remove(0);
            proof {
                assert(groups_models(old_groups)[0] == gmodels[idx as int]);
                assert(group@.map_values(|s: SegmentWithTime| s@) == gmodels[idx as int]);
                assert(groups@ =~= old_groups.subrange(1, old_groups.len() as int));
                assert forall|m: int| 0 <= m < groups@.len() implies groups_models(groups@)[m]
                    == gmodels[idx + 1 + m] by {
                    assert(groups@[m] == old_groups[m + 1]);
                    assert(groups_models(old_groups)[m + 1] == gmodels.subrange(
                        idx as int,
                        n as int,
                    )[m + 1]);
                }
                assert(groups_models(groups@) =~= gmodels.subrange(idx + 1, n as int));
                assert(gmodels[idx as int].len() >= 1);
                assert(group_uniform(group@.map_values(|s: SegmentWithTime| s@)));
            }
            let ghost recs_before = self@.records;
            let ghost msgs_before = messages@.map_values(|m: Message| m@);
            let ghost faults_before = faults@.map_values(|f: GroupFault| f@);
            let result = self.build_message(group);
            let ghost step = spec_process_group(
                recs_before,
                old(self)@.max_retry_num,
                gmodels[idx as int],
            );
            match result {
                GroupResult::Completed(m) => {
                    messages.push(m);
                    proof {
                        assert(messages@.map_values(|m2: Message| m2@) =~= msgs_before + step.1);
                    }
                },
                GroupResult::Deferred => {},
                GroupResult::Dropped => {},
                GroupResult::Faulted(f) => {
                    faults.push(f);
                    proof {
                        assert(faults@.map_values(|f2: GroupFault| f2@) =~= faults_before + step.2);
                    }
                },
            }
            proof {
                assert(gmodels.subrange(0, idx + 1).drop_last() =~= gmodels.subrange(0, idx as int));
                assert(gmodels.subrange(0, idx + 1).last() == gmodels[idx as int]);
                let run_next = spec_run_groups(
                    old(self)@.records,
                    old(self)@.max_retry_num,
                    gmodels.subrange(0, idx + 1),
                );
                assert(self@.records == run_next.0);
                assert(messages@.map_values(|m: Message| m@) =~= run_next.1);
                assert(faults@.map_values(|f: GroupFault| f@) =~= run_next.2);
            }
            idx = idx + 1;
        }
        proof {
            assert(gmodels.subrange(0, n as int) =~= gmodels);
        }
        let mut failures = self.build_messages_with_errors();
        let ghost fail_models = failures@.map_values(|m: Message| m@);
        messages.append(&mut failures);
        proof {
            let run = spec_run_groups(old(self)@.records, old(self)@.max_retry_num, gmodels);
            assert(messages@.map_values(|m: Message| m@) =~= run.1 + fail_models);
        }
        self.retry_cache.increase_retry();
        self.retry_cache.clean_old_records(now_millis);
        PassOutput { messages, faults }
    }

    /// One reassembly pass at the current wall-clock time: reads the
    /// clock and evicts against it. The clock's value is not under the
    /// caller's control, so the contract only promises that the pass
    /// behaved as [`spec_pass`] describes for some eviction time.
    pub fn build_messages_now(&mut self, got_segments: Vec<SegmentWithTime>) -> (r: PassOutput)
        requires
            old(self).wf(),
        ensures
            final(self).wf(),
            final(self)@.clean_interval == old(self)@.clean_interval,
            final(self)@.max_retry_num == old(self)@.max_retry_num,
            ({
                let segs = got_segments@.map_values(|s: SegmentWithTime| s@);
                exists|now: u64|
                    #![trigger spec_pass(old(self)@, segs, now)]
                    {
                        let out = spec_pass(old(self)@, segs, now);
                        &&& final(self)@.records == out.0
                        &&& r.messages@.map_values(|m: Message| m@) == out.1
                        &&& r.faults@.map_values(|f: GroupFault| f@) == out.2
                    }
            }),
    {
        let now = crate::clock::now_millis();
        let now_u: u64 = if now >= 0 {
            now as u64
        } else {
            0
        };
        let r = self.build_messages(got_segments, now_u);
        proof {
            let out = spec_pass(
                old(self)@,
                got_segments@.map_values(|s: SegmentWithTime| s@),
                now_u,
            );
            assert(self@.records == out.0);
        }
        r
    }
}

} // verus!
