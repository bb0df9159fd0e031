use transport::cache::{CacheFault, SegmentsCache};
use transport::segment::{Segment, SegmentWithTime};
use transport::send_time::parse_millis;
use transport::splitter::{split_message, Message as SplitterMessage};

fn seg(sender: &str, send_time: &str, payload: Vec<u8>, seg_count: usize, seg_num: usize) -> SegmentWithTime {
    SegmentWithTime {
        segment: Segment { payload, seg_count, seg_num, sender: sender.to_string() },
        send_time: send_time.to_string(),
    }
}

#[test]
fn parse_millis_accepts_decimal_strings() {
    assert_eq!(parse_millis("0"), Some(0));
    assert_eq!(parse_millis("123"), Some(123));
    assert_eq!(parse_millis("007"), Some(7));
    assert_eq!(parse_millis("1693571040123"), Some(1693571040123));
    assert_eq!(parse_millis("18446744073709551615"), Some(u64::MAX));
}

#[test]
fn parse_millis_rejects_everything_else() {
    assert_eq!(parse_millis(""), None);
    assert_eq!(parse_millis("12a"), None);
    assert_eq!(parse_millis("+1"), None);
    assert_eq!(parse_millis("-1"), None);
    assert_eq!(parse_millis(" 1"), None);
    assert_eq!(parse_millis("1 "), None);
    // one past u64::MAX
    assert_eq!(parse_millis("18446744073709551616"), None);
}

#[test]
fn split_message_chunks_in_order() {
    let m = SplitterMessage {
        sender: "pia".to_string(),
        time: "300".to_string(),
        payload: vec![1, 2, 3, 4, 5],
    };
    let segs = split_message(m, 2);
    assert_eq!(segs.len(), 3);
    for (i, s) in segs.iter().enumerate() {
        assert_eq!(s.segment.seg_num, i);
        assert_eq!(s.segment.seg_count, 3);
        assert_eq!(s.segment.sender, "pia");
        assert_eq!(s.send_time, "300");
    }
    assert_eq!(segs[0].segment.payload, vec![1, 2]);
    assert_eq!(segs[1].segment.payload, vec![3, 4]);
    assert_eq!(segs[2].segment.payload, vec![5]);
}

#[test]
fn split_message_exact_multiple() {
    let m = SplitterMessage {
        sender: "quin".to_string(),
        time: "301".to_string(),
        payload: vec![9, 8, 7, 6],
    };
    let segs = split_message(m, 2);
    assert_eq!(segs.len(), 2);
    assert_eq!(segs[0].segment.payload, vec![9, 8]);
    assert_eq!(segs[1].segment.payload, vec![7, 6]);
}

#[test]
fn cache_add_validates_segments() {
    let mut cache = SegmentsCache::new(1000, 3);
    assert_eq!(cache.add(seg("ray", "10", vec![1], 2, 0)), Ok(()));
    // a seg_count that disagrees with the stored bitmap
    assert_eq!(cache.add(seg("ray", "10", vec![2], 3, 1)), Err(CacheFault::Integrity));
    // a position outside the group
    assert_eq!(cache.add(seg("ray", "10", vec![2], 2, 2)), Err(CacheFault::Integrity));
    // an unparsable timestamp
    assert_eq!(cache.add(seg("ray", "zzz", vec![2], 2, 1)), Err(CacheFault::Malformed));
    // the matching second segment is accepted
    assert_eq!(cache.add(seg("ray", "10", vec![2], 2, 1)), Ok(()));
}

#[test]
fn cache_completion_query() {
    let mut cache = SegmentsCache::new(1000, 3);
    cache.add(seg("sam", "20", vec![1], 3, 0)).unwrap();
    cache.add(seg("sam", "20", vec![3], 3, 2)).unwrap();

    // not completable: position 1 is nowhere
    let r = cache.get_segments("sam", "20", &[false, false, false]).unwrap();
    assert!(r.is_none());

    // completable: the local batch holds position 1
    let r = cache.get_segments("sam", "20", &[false, true, false]).unwrap();
    let missing = r.unwrap();
    assert_eq!(missing.len(), 2);
    assert_eq!(missing[0].segment.seg_num, 0);
    assert_eq!(missing[0].segment.payload, vec![1]);
    assert_eq!(missing[1].segment.seg_num, 2);
    assert_eq!(missing[1].segment.payload, vec![3]);

    // a local bitmap of the wrong length is an integrity fault
    assert_eq!(
        cache.get_segments("sam", "20", &[false, true]).unwrap_err(),
        CacheFault::Integrity
    );

    // an unknown key is simply not completable
    assert!(cache.get_segments("tess", "20", &[true, true, true]).unwrap().is_none());
}

#[test]
fn cache_retry_limit_and_drain() {
    let mut cache = SegmentsCache::new(1000, 2);
    cache.add(seg("uma", "30", vec![1], 2, 0)).unwrap();
    assert!(cache.check_retry_limit("uma", "30"));
    // unknown groups and unparsable timestamps are retry-available
    assert!(cache.check_retry_limit("uma", "31"));
    assert!(cache.check_retry_limit("uma", "bad"));

    assert_eq!(cache.get_latest_invalidated_records().len(), 0);
    cache.increase_retry();
    // retry is now 1 == max_retry - 1: drained once
    let drained = cache.get_latest_invalidated_records();
    assert_eq!(drained.len(), 1);
    assert_eq!(drained[0].sender, "uma");
    assert_eq!(drained[0].send_time, "30");

    cache.increase_retry();
    // retry saturates at max_retry and the group is no longer available
    assert!(!cache.check_retry_limit("uma", "30"));
    assert_eq!(cache.get_latest_invalidated_records().len(), 0);

    // exhausted records are removed outright by eviction
    cache.clean_old_records(30);
    assert!(cache.check_retry_limit("uma", "30"));
}

#[test]
fn cache_eviction_by_age() {
    let mut cache = SegmentsCache::new(500, 9);
    cache.add(seg("vic", "0", vec![1], 2, 0)).unwrap();
    cache.add(seg("vic", "600", vec![1], 2, 0)).unwrap();
    cache.clean_old_records(700);
    // "0" aged out (700 - 0 >= 500); "600" survives (700 - 600 < 500)
    assert!(cache.get_segments("vic", "0", &[false, true]).unwrap().is_none());
    let kept = cache.get_segments("vic", "600", &[false, true]).unwrap();
    assert_eq!(kept.unwrap().len(), 1);
}

#[test]
fn cache_remove_deletes_one_group() {
    let mut cache = SegmentsCache::new(1000, 3);
    cache.add(seg("wes", "40", vec![1], 1, 0)).unwrap();
    assert!(cache.remove("wes", "40"));
    assert!(!cache.remove("wes", "40"));
    assert!(cache.get_segments("wes", "40", &[false]).unwrap().is_none());
}

#[test]
fn consumer_config_from_cmd() {
    let c = transport::consumer_config::Config::from_cmd(
        "broker:9092".to_string(),
        "grp".to_string(),
        "topic-a".to_string(),
        "http://recv".to_string(),
    );
    assert_eq!(c.brokers, "broker:9092");
    assert_eq!(c.group_id, "grp");
    assert_eq!(c.topic, "topic-a");
    assert_eq!(c.receive_url, "http://recv");
}

#[test]
fn producer_config_defaults_and_overrides() {
    let c = transport::producer_config::Config::build();
    assert_eq!(c.listen, "0.0.0.0:8002");
    assert_eq!(c.brokers, "");
    assert_eq!(c.topic, "");
    let c = c.cmd_parse("b:9092".to_string(), "t".to_string());
    assert_eq!(c.brokers, "b:9092");
    assert_eq!(c.topic, "t");
    let c = c.get_env(Some("127.0.0.1:9".to_string()));
    assert_eq!(c.listen, "127.0.0.1:9");
    let c = c.get_env(None);
    assert_eq!(c.listen, "0.0.0.0:8002");
}

#[test]
fn splitter_config_defaults_and_overrides() {
    let c = transport::splitter_config::Config::build();
    assert_eq!(c.listen, "0.0.0.0:8000");
    assert_eq!(c.code_service_url, "http://localhost:8080/code");
    assert_eq!(c.chunk_byte_size, 2);
    let c = c.cmd_parse("http://svc/code".to_string(), 16);
    assert_eq!(c.code_service_url, "http://svc/code");
    assert_eq!(c.chunk_byte_size, 16);
    let c = c.get_env(None);
    assert_eq!(c.listen, "0.0.0.0:8000");
}
