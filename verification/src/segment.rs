//! The wire unit of the transport: one segment of a larger payload,
//! together with the timestamp string that correlates the segments of
//! one logical message.

use vstd::prelude::*;

verus! {

/// One fragment of a larger payload. `seg_count` is the total number of
/// fragments in the group and `seg_num` is this fragment's 0-indexed
/// position among them.
#[derive(Debug)]
pub struct Segment {
    pub payload: Vec<u8>,
    pub seg_count: usize,
    pub seg_num: usize,
    pub sender: String,
}

/// Mathematical image of a [`Segment`].
pub ghost struct SegmentModel {
    pub payload: Seq<u8>,
    pub seg_count: int,
    pub seg_num: int,
    pub sender: Seq<char>,
}

impl View for Segment {
    type V = SegmentModel;

    open spec fn view(&self) -> SegmentModel {
        SegmentModel {
            payload: self.payload@,
            seg_count: self.seg_count as int,
            seg_num: self.seg_num as int,
            sender: self.sender@,
        }
    }
}

/// A segment tagged with the millisecond-epoch timestamp string of the
/// message it belongs to; `(sender, send_time)` identifies the group.
#[derive(Debug)]
pub struct SegmentWithTime {
    pub segment: Segment,
    pub send_time: String,
}

/// Mathematical image of a [`SegmentWithTime`].
pub ghost struct SegmentWithTimeModel {
    pub segment: SegmentModel,
    pub send_time: Seq<char>,
}

impl View for SegmentWithTime {
    type V = SegmentWithTimeModel;

    open spec fn view(&self) -> SegmentWithTimeModel {
        SegmentWithTimeModel { segment: self.segment@, send_time: self.send_time@ }
    }
}

/// The index of the first segment of `segs` whose `seg_num` is `num`,
/// or `-1` when none carries it.
pub open spec fn first_seg_with(segs: Seq<SegmentWithTimeModel>, num: int) -> int
    decreases segs.len(),
{
    if segs.len() == 0 {
        -1
    } else if segs[0].segment.seg_num == num {
        0
    } else if first_seg_with(segs.drop_first(), num) < 0 {
        -1
    } else {
        first_seg_with(segs.drop_first(), num) + 1
    }
}

/// What [`first_seg_with`] returns: `-1` exactly when no segment
/// carries `num`, and otherwise the least index that does.
pub proof fn lemma_first_seg_with_props(segs: Seq<SegmentWithTimeModel>, num: int)
    ensures
        -1 <= first_seg_with(segs, num) < segs.len(),
        first_seg_with(segs, num) == -1 ==> forall|k: int|
            0 <= k < segs.len() ==> (#[trigger] segs[k]).segment.seg_num != num,
        first_seg_with(segs, num) >= 0 ==> segs[first_seg_with(segs, num)].segment.seg_num == num
            && forall|k: int|
            0 <= k < first_seg_with(segs, num) ==> (#[trigger] segs[k]).segment.seg_num != num,
    decreases segs.len(),
{
    if segs.len() > 0 && segs[0].segment.seg_num != num {
        let rest = segs.drop_first();
        lemma_first_seg_with_props(rest, num);
        assert(forall|k: int| 0 <= k < rest.len() ==> rest[k] == segs[k + 1]);
        let fr = first_seg_with(rest, num);
        if fr == -1 {
            assert forall|k: int| 0 <= k < segs.len() implies (#[trigger] segs[k]).segment.seg_num
                != num by {
                if k > 0 {
                    assert(rest[k - 1].segment.seg_num != num);
                }
            }
        } else {
            assert(first_seg_with(segs, num) == fr + 1);
            assert(segs[fr + 1] == rest[fr]);
            assert forall|k: int| 0 <= k < fr + 1 implies (#[trigger] segs[k]).segment.seg_num
                != num by {
                if k > 0 {
                    assert(rest[k - 1].segment.seg_num != num);
                }
            }
        }
    }
}

/// Copies a byte vector element by element.
pub fn copy_bytes(v: &Vec<u8>) -> (r: Vec<u8>)
    ensures
        r@ == v@,
{
    let mut r: Vec<u8> = Vec::new();
    let mut i: usize = 0;
    while i < v.len()
        invariant
            i <= v.len(),
            r@ == v@.subrange(0, i as int),
        decreases v.len() - i,
    {
        r.push(v[i]);
        i = i + 1;
    }
    proof {
        assert(r@ =~= v@);
    }
    r
}

impl Segment {
    /// An explicit deep copy whose result is known to mirror the original.
    pub fn duplicate(&self) -> (r: Segment)
        ensures
            r@ == self@,
    {
        Segment {
            payload: copy_bytes(&self.payload),
            seg_count: self.seg_count,
            seg_num: self.seg_num,
            sender: self.sender.clone(),
        }
    }
}

impl SegmentWithTime {
    /// An explicit deep copy whose result is known to mirror the original.
    pub fn duplicate(&self) -> (r: SegmentWithTime)
        ensures
            r@ == self@,
    {
        SegmentWithTime { segment: self.segment.duplicate(), send_time: self.send_time.clone() }
    }
}

} // verus!
