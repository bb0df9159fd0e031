use transport::builder::{GroupResult, MessageBuilder, PassOutput};
use transport::cache::CacheFault;
use transport::segment::{Segment, SegmentWithTime};
use transport::splitter::{split_message, Message as SplitterMessage};

fn seg(sender: &str, send_time: &str, payload: Vec<u8>, seg_count: usize, seg_num: usize) -> SegmentWithTime {
    SegmentWithTime {
        segment: Segment { payload, seg_count, seg_num, sender: sender.to_string() },
        send_time: send_time.to_string(),
    }
}

const WEEK_MS: u64 = 7 * 24 * 60 * 60 * 1000;

#[test]
fn completes_across_two_passes() {
    // chunk 2, payload of 6 bytes: three segments 0, 1, 2; the first
    // pass delivers 0 and 2 (cached, nothing emitted), the second
    // delivers 1 and completes in seg_num order.
    let payload = vec![10u8, 11, 12, 13, 14, 15];
    let m = SplitterMessage { sender: "alice".to_string(), time: "1000".to_string(), payload: payload.clone() };
    let mut segs = split_message(m, 2);
    assert_eq!(segs.len(), 3);
    let s2 = segs.pop().unwrap();
    let s1 = segs.pop().unwrap();
    let s0 = segs.pop().unwrap();

    let mut builder = MessageBuilder::new(WEEK_MS, 5);
    let out1: PassOutput = builder.build_messages(vec![s0, s2], 1000);
    assert_eq!(out1.messages.len(), 0);
    assert_eq!(out1.faults.len(), 0);

    let out2 = builder.build_messages(vec![s1], 1001);
    assert_eq!(out2.faults.len(), 0);
    assert_eq!(out2.messages.len(), 1);
    let msg = &out2.messages[0];
    assert!(!msg.has_error);
    assert_eq!(msg.payload, payload);
    assert_eq!(msg.sender, "alice");
    assert_eq!(msg.send_time, "1000");
}

#[test]
fn completes_in_one_pass_any_order() {
    // All segments in one batch, permuted and with a duplicate: the
    // reassembled bytes equal the original payload exactly.
    let payload = vec![1u8, 2, 3, 4, 5, 6, 7];
    let m = SplitterMessage { sender: "bob".to_string(), time: "42".to_string(), payload: payload.clone() };
    let segs = split_message(m, 3);
    assert_eq!(segs.len(), 3);
    let batch = vec![
        segs[2].duplicate(),
        segs[0].duplicate(),
        segs[1].duplicate(),
        segs[0].duplicate(),
    ];
    let mut builder = MessageBuilder::new(WEEK_MS, 3);
    let out = builder.build_messages(batch, 42);
    assert_eq!(out.messages.len(), 1);
    assert_eq!(out.messages[0].payload, payload);
    assert!(!out.messages[0].has_error);
}

#[test]
fn empty_payload_still_completes() {
    // An empty payload yields one empty segment, so the group can
    // reach completeness and reassemble to the empty payload.
    let m = SplitterMessage { sender: "carol".to_string(), time: "7".to_string(), payload: vec![] };
    let segs = split_message(m, 2);
    assert_eq!(segs.len(), 1);
    assert_eq!(segs[0].segment.seg_count, 1);
    assert_eq!(segs[0].segment.seg_num, 0);
    assert_eq!(segs[0].segment.payload.len(), 0);

    let mut builder = MessageBuilder::new(WEEK_MS, 3);
    let out = builder.build_messages(segs, 7);
    assert_eq!(out.messages.len(), 1);
    assert_eq!(out.messages[0].payload.len(), 0);
    assert!(!out.messages[0].has_error);
}

#[test]
fn remerge_is_idempotent() {
    // Delivering the same segment again on a later pass leaves the
    // completeness state unchanged: the group still completes once the
    // genuinely missing segment arrives, with the right bytes.
    let mut builder = MessageBuilder::new(WEEK_MS, 9);
    let s0 = seg("dan", "5", vec![100, 101], 2, 0);
    let s0_again = seg("dan", "5", vec![100, 101], 2, 0);
    let s1 = seg("dan", "5", vec![102], 2, 1);

    let out1 = builder.build_messages(vec![s0], 5);
    assert_eq!(out1.messages.len(), 0);
    let out2 = builder.build_messages(vec![s0_again], 5);
    assert_eq!(out2.messages.len(), 0);
    assert_eq!(out2.faults.len(), 0);
    let out3 = builder.build_messages(vec![s1], 5);
    assert_eq!(out3.messages.len(), 1);
    assert_eq!(out3.messages[0].payload, vec![100, 101, 102]);
}

#[test]
fn retry_exhaustion_reports_failure_exactly_once() {
    // max_retry = 3 and only one of two segments ever arrives: the
    // retry counter advances one step per pass, the single failure
    // message appears on the pass whose drain sees it one short of the
    // ceiling, and later passes stay silent.
    let mut builder = MessageBuilder::new(WEEK_MS, 3);
    let s0 = seg("erin", "9", vec![1, 2], 2, 0);

    let out1 = builder.build_messages(vec![s0], 9);
    assert_eq!(out1.messages.len(), 0);
    assert_eq!(out1.faults.len(), 0);

    let out2 = builder.build_messages(vec![], 9);
    assert_eq!(out2.messages.len(), 0);

    let out3 = builder.build_messages(vec![], 9);
    assert_eq!(out3.messages.len(), 1);
    let failure = &out3.messages[0];
    assert!(failure.has_error);
    assert_eq!(failure.payload.len(), 0);
    assert_eq!(failure.sender, "erin");
    assert_eq!(failure.send_time, "9");

    let out4 = builder.build_messages(vec![], 9);
    assert_eq!(out4.messages.len(), 0);
    let out5 = builder.build_messages(vec![], 9);
    assert_eq!(out5.messages.len(), 0);
}

#[test]
fn no_success_after_failure_notification() {
    // Once the failure message has been emitted and the record
    // evicted, a late segment starts a fresh group rather than
    // completing the old one.
    let mut builder = MessageBuilder::new(WEEK_MS, 2);
    let s0 = seg("frank", "11", vec![1], 2, 0);
    builder.build_messages(vec![s0], 11);
    let out2 = builder.build_messages(vec![], 11);
    assert_eq!(out2.messages.len(), 1);
    assert!(out2.messages[0].has_error);
    // the missing segment arrives too late: no completion
    let s1 = seg("frank", "11", vec![2], 2, 1);
    let out3 = builder.build_messages(vec![s1], 11);
    assert_eq!(out3.messages.len(), 0);
}

#[test]
fn eviction_by_age_is_unrecoverable() {
    // Retention of 500 ms and a group stamped at epoch 0, processed at
    // time 1000: the pass evicts the partial state, and delivering the
    // rest of the segments afterwards never completes the group.
    let mut builder = MessageBuilder::new(500, 10);
    let s0 = seg("gina", "0", vec![1], 2, 0);
    let out1 = builder.build_messages(vec![s0], 1000);
    assert_eq!(out1.messages.len(), 0);

    let s1 = seg("gina", "0", vec![2], 2, 1);
    let out2 = builder.build_messages(vec![s1], 1000);
    assert_eq!(out2.messages.len(), 0);

    let out3 = builder.build_messages(vec![], 1000);
    assert_eq!(out3.messages.len(), 0);
}

#[test]
fn silent_eviction_sends_no_notification() {
    // A group evicted for age before its retries run out disappears
    // without a failure message.
    let mut builder = MessageBuilder::new(500, 10);
    let s0 = seg("hank", "0", vec![1], 2, 0);
    builder.build_messages(vec![s0], 1000);
    for _ in 0..12 {
        let out = builder.build_messages(vec![], 1000);
        assert_eq!(out.messages.len(), 0);
    }
}

#[test]
fn malformed_send_time_faults_group() {
    let mut builder = MessageBuilder::new(WEEK_MS, 3);
    let bad = seg("ivy", "not-a-time", vec![1], 1, 0);
    let out = builder.build_messages(vec![bad], 50);
    assert_eq!(out.messages.len(), 0);
    assert_eq!(out.faults.len(), 1);
    assert_eq!(out.faults[0].kind, CacheFault::Malformed);
    assert_eq!(out.faults[0].sender, "ivy");
    assert_eq!(out.faults[0].send_time, "not-a-time");
}

#[test]
fn inconsistent_seg_count_faults_group_only() {
    // One group disagrees on seg_count; the other group of the same
    // batch still completes.
    let mut builder = MessageBuilder::new(WEEK_MS, 3);
    let bad_a = seg("jack", "60", vec![1], 2, 0);
    let bad_b = seg("jack", "60", vec![2], 3, 1);
    let good = seg("kate", "61", vec![9], 1, 0);
    let out = builder.build_messages(vec![bad_a, bad_b, good], 60);
    assert_eq!(out.faults.len(), 1);
    assert_eq!(out.faults[0].kind, CacheFault::Integrity);
    assert_eq!(out.faults[0].sender, "jack");
    assert_eq!(out.messages.len(), 1);
    assert_eq!(out.messages[0].sender, "kate");
    assert_eq!(out.messages[0].payload, vec![9]);
}

#[test]
fn seg_num_out_of_range_faults_group() {
    let mut builder = MessageBuilder::new(WEEK_MS, 3);
    let bad = seg("liam", "70", vec![1], 2, 2);
    let out = builder.build_messages(vec![bad], 70);
    assert_eq!(out.messages.len(), 0);
    assert_eq!(out.faults.len(), 1);
    assert_eq!(out.faults[0].kind, CacheFault::Integrity);
}

#[test]
fn distinct_senders_same_timestamp_stay_separate() {
    // The composite key keeps two senders with the same millisecond
    // timestamp apart: each completes with its own bytes.
    let mut builder = MessageBuilder::new(WEEK_MS, 3);
    let a0 = seg("mary", "80", vec![1], 2, 0);
    let b0 = seg("nick", "80", vec![3], 2, 0);
    let out1 = builder.build_messages(vec![a0, b0], 80);
    assert_eq!(out1.messages.len(), 0);

    let a1 = seg("mary", "80", vec![2], 2, 1);
    let b1 = seg("nick", "80", vec![4], 2, 1);
    let out2 = builder.build_messages(vec![a1, b1], 80);
    assert_eq!(out2.messages.len(), 2);
    let mary = out2.messages.iter().find(|m| m.sender == "mary").unwrap();
    let nick = out2.messages.iter().find(|m| m.sender == "nick").unwrap();
    assert_eq!(mary.payload, vec![1, 2]);
    assert_eq!(nick.payload, vec![3, 4]);
}

#[test]
fn wall_clock_pass_completes_groups() {
    // build_messages_now reads the real clock for eviction; with a
    // retention window wide enough for any clock value, a group spread
    // over two passes still completes.
    let mut builder = MessageBuilder::new(u64::MAX, 4);
    let s0 = seg("zoe", "100", vec![1, 2], 2, 0);
    let out1 = builder.build_messages_now(vec![s0]);
    assert_eq!(out1.messages.len(), 0);
    let s1 = seg("zoe", "100", vec![3], 2, 1);
    let out2 = builder.build_messages_now(vec![s1]);
    assert_eq!(out2.messages.len(), 1);
    assert_eq!(out2.messages[0].payload, vec![1, 2, 3]);
    assert!(!out2.messages[0].has_error);
}

#[test]
fn group_result_variants_cover_disposals() {
    let mut builder = MessageBuilder::new(WEEK_MS, 1);
    // completes directly
    match builder.build_message(vec![seg("olga", "90", vec![5], 1, 0)]) {
        GroupResult::Completed(m) => {
            assert_eq!(m.payload, vec![5]);
        },
        _ => panic!("expected completion"),
    }
    // incomplete: deferred into the cache
    match builder.build_message(vec![seg("olga", "91", vec![5], 2, 0)]) {
        GroupResult::Deferred => {},
        _ => panic!("expected deferral"),
    }
    // a malformed timestamp is reported as a fault
    match builder.build_message(vec![seg("olga", "x", vec![5], 1, 0)]) {
        GroupResult::Faulted(f) => {
            assert_eq!(f.kind, CacheFault::Malformed);
        },
        _ => panic!("expected fault"),
    }
}
