//! The segmenter: splits one outbound message into an ordered sequence
//! of bounded segments, tagged with the sender and the correlation
//! timestamp.

use vstd::prelude::*;
use crate::segment::{Segment, SegmentWithTime};

verus! {

/// An outbound message handed to the segmenter: who sends it, its
/// correlation timestamp string, and its payload bytes.
#[derive(Debug)]
pub struct Message {
    pub sender: String,
    pub time: String,
    pub payload: Vec<u8>,
}

/// Mathematical image of a splitter [`Message`].
pub ghost struct MessageModel {
    pub sender: Seq<char>,
    pub time: Seq<char>,
    pub payload: Seq<u8>,
}

impl View for Message {
    type V = MessageModel;

    open spec fn view(&self) -> MessageModel {
        MessageModel { sender: self.sender@, time: self.time@, payload: self.payload@ }
    }
}

/// The number of segments a payload of `len` bytes yields with chunks
/// of `chunk` bytes: `ceil(len / chunk)`, but at least one, so that an
/// empty payload still produces one (empty) segment and the group can
/// reach completeness.
pub open spec fn spec_seg_count(len: int, chunk: int) -> int {
    if len == 0 {
        1
    } else {
        (len + chunk - 1) / chunk
    }
}

/// The bytes of chunk `i`: the payload from `i * chunk` up to the
/// payload's end or the next chunk boundary, whichever comes first.
pub open spec fn spec_chunk(payload: Seq<u8>, chunk: int, i: int) -> Seq<u8> {
    if (i + 1) * chunk <= payload.len() {
        payload.subrange(i * chunk, (i + 1) * chunk)
    } else {
        payload.subrange(i * chunk, payload.len() as int)
    }
}

/// Splits `m`'s payload into `spec_seg_count` contiguous chunks in
/// order; chunk `i` becomes the segment with `seg_num == i`. Every
/// segment carries the shared `seg_count`, the sender, and the
/// message's timestamp. Even an empty payload yields one segment.
pub fn split_message(m: Message, chunk_byte_size: usize) -> (r: Vec<SegmentWithTime>)
    requires
        chunk_byte_size >= 1,
    ensures
        r@.len() == spec_seg_count(m@.payload.len() as int, chunk_byte_size as int),
        forall|i: int|
            0 <= i < r@.len() ==> {
                let s = (#[trigger] r@[i])@;
                &&& s.segment.seg_num == i
                &&& s.segment.seg_count == r@.len()
                &&& s.segment.sender == m@.sender
                &&& s.send_time == m@.time
                &&& s.segment.payload == spec_chunk(m@.payload, chunk_byte_size as int, i)
            },
{
    let len = m.payload.len();
    let chunk = chunk_byte_size;
    proof {
        if len > 0 {
            lemma_ceil_div(len as int, chunk as int);
        }
    }
    let seg_count: usize = if len == 0 {
        1
    } else {
        (len - 1) / chunk + 1
    };
    let mut r: Vec<SegmentWithTime> = Vec::new();
    let mut i: usize = 0;
    while i < seg_count
        invariant
            chunk >= 1,
            len == m@.payload.len(),
            seg_count == spec_seg_count(len as int, chunk as int),
            i <= seg_count,
            i < seg_count ==> i * chunk <= len || (len == 0 && i == 0),
            r@.len() == i,
            forall|k: int|
                0 <= k < i ==> {
                    let s = (#[trigger] r@[k])@;
                    &&& s.segment.seg_num == k
                    &&& s.segment.seg_count == seg_count
                    &&& s.segment.sender == m@.sender
                    &&& s.send_time == m@.time
                    &&& s.segment.payload == spec_chunk(m@.payload, chunk as int, k)
                },
        decreases seg_count - i,
    {
        let start = if len == 0 {
            0
        } else {
            i * chunk
        };
        proof {
            if len > 0 {
                assert(i * chunk <= len);
                assert(i * chunk == start);
            }
        }
        let end = if len - start > chunk {
            start + chunk
        } else {
            len
        };
        let mut piece: Vec<u8> = Vec::new();
        let mut b: usize = start;
        while b < end
            invariant
                start <= b <= end,
                end <= len,
                len == m@.payload.len(),
                piece@ == m@.payload.subrange(start as int, b as int),
            decreases end - b,
        {
            piece.push(m.payload[b]);
            proof {
                assert(piece@ =~= m@.payload.subrange(start as int, b + 1));
            }
            b = b + 1;
        }
        let seg = SegmentWithTime {
            segment: Segment {
                payload: piece,
                seg_count,
                seg_num: i,
                sender: m.sender.clone(),
            },
            send_time: m.time.clone(),
        };
        r.push(seg);
        proof {
            lemma_chunk_bounds(len as int, chunk as int, i as int, seg_count as int);
            assert(seg@.segment.payload =~= spec_chunk(m@.payload, chunk as int, i as int));
        }
        i = i + 1;
    }
    r
}

/// For a nonempty payload, `(len - 1) / chunk + 1` is `spec_seg_count`:
/// the least count whose chunks cover the payload.
pub proof fn lemma_ceil_div(len: int, chunk: int)
    requires
        chunk >= 1,
        len >= 1,
    ensures
        (len - 1) / chunk + 1 == spec_seg_count(len, chunk),
        1 <= (len - 1) / chunk + 1 <= len,
        ((len - 1) / chunk) * chunk < len,
        len <= ((len - 1) / chunk + 1) * chunk,
{
    let q = (len - 1) / chunk;
    let r = (len - 1) % chunk;
    vstd::arithmetic::div_mod::lemma_fundamental_div_mod(len - 1, chunk);
    vstd::arithmetic::div_mod::lemma_mod_division_less_than_divisor(len - 1, chunk);
    assert(len - 1 == chunk * q + r);
    assert(q >= 0) by (nonlinear_arith)
        requires
            chunk >= 1,
            0 <= r < chunk,
            chunk * q + r >= 0,
    ;
    assert(q <= chunk * q) by (nonlinear_arith)
        requires
            chunk >= 1,
            q >= 0,
    ;
    assert(q * chunk == chunk * q) by (nonlinear_arith);
    assert((q + 1) * chunk == chunk * q + chunk) by (nonlinear_arith);
    vstd::arithmetic::div_mod::lemma_fundamental_div_mod_converse(
        len + chunk - 1,
        chunk,
        q + 1,
        r,
    );
}

/// Bounds relating chunk `i` to the payload: within `spec_seg_count`
/// chunks, chunk `i` starts in range.
proof fn lemma_chunk_bounds(len: int, chunk: int, i: int, seg_count: int)
    requires
        chunk >= 1,
        len >= 0,
        seg_count == spec_seg_count(len, chunk),
        0 <= i < seg_count,
    ensures
        len == 0 ==> i == 0,
        len > 0 ==> i * chunk < len,
        (i + 1 < seg_count && len > 0) ==> (i + 1) * chunk < len,
        (i + 1) * chunk == i * chunk + chunk,
{
    assert((i + 1) * chunk == i * chunk + chunk) by (nonlinear_arith);
    if len > 0 {
        lemma_ceil_div(len, chunk);
        let q = (len - 1) / chunk;
        vstd::arithmetic::mul::lemma_mul_inequality(i, q, chunk);
        assert(i * chunk <= q * chunk);
        if i + 1 < seg_count {
            vstd::arithmetic::mul::lemma_mul_inequality(i + 1, q, chunk);
        }
    }
}

} // verus!
