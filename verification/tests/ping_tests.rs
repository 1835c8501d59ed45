use mping::packet::{build_echo_request, parse_echo_reply, payload_for, timestamped, EchoReply};
use mping::ping::{
    control_timestamp, once_latency, once_reply, once_sequence, ping_reply, receive_attempts, Payloads,
    reply_record, request_for, stat_tick, ControlMessage, PingOption, SendState, TickOutcome, Timespec,
    DEFAULT_ONCE_LEN, DEFAULT_ONCE_TIMEOUT_SECS, DEFAULT_ONCE_TTL,
};
use mping::stat::{Buckets, Result};
use std::time::Duration;

#[test]
fn ping_option_holds_fields() {
    let popt = PingOption {
        timeout: Duration::from_secs(1),
        ttl: 64,
        tos: None,
        ident: 1234,
        len: 56,
        rate: 100,
        rate_for_all: false,
        delay: 3,
        count: None,
    };
    assert_eq!(popt.ident, 1234);
    assert_eq!(popt.len, 56);
}

#[test]
fn send_state_counts_and_wraps() {
    let mut s = SendState::new();
    assert_eq!((s.seq, s.sent_count), (1, 0));
    assert!(s.round_due(Some(2)));
    s.finish_round();
    assert_eq!((s.seq, s.sent_count), (2, 1));
    assert!(s.round_due(Some(2)));
    s.finish_round();
    assert!(!s.round_due(Some(2)));
    assert!(s.round_due(None));
    s.seq = u16::MAX;
    s.finish_round();
    assert_eq!(s.seq, 0);
}

#[test]
fn send_state_no_round_for_count_below_one() {
    let s = SendState::new();
    assert!(!s.round_due(Some(0)));
    assert!(!s.round_due(Some(-3)));
    assert!(s.round_due(Some(1)));
}

#[test]
fn rate_token_placement() {
    let mut popt = PingOption {
        timeout: Duration::from_secs(1),
        ttl: 64,
        tos: None,
        ident: 1,
        len: 56,
        rate: 100,
        rate_for_all: false,
        delay: 3,
        count: None,
    };
    assert!(popt.token_before_round() && !popt.token_before_request());
    popt.rate_for_all = true;
    assert!(!popt.token_before_round() && popt.token_before_request());
}

#[test]
fn request_carries_send_time() {
    let rand = vec![3u8; 20];
    let r = request_for(77, 5, &rand, "9.9.9.9".to_string(), 2_500_000_000);
    assert_eq!(r.key, 2);
    assert_eq!(r.record.txts, 2_500_000_000);
    assert_eq!(r.record.seq, 5);
    assert_eq!(r.record.target, "9.9.9.9");
    assert!(!r.record.received);
    let expected = build_echo_request(77, 5, &timestamped(2_500_000_000, &payload_for(5, &rand)));
    assert_eq!(r.packet, expected);
    assert_eq!(&r.packet[8..24], &2_500_000_000u128.to_be_bytes());
    assert_eq!(&r.packet[24..], &[0u8; 4]);
}

fn echoed(request: &[u8], source: [u8; 4]) -> Vec<u8> {
    let mut msg = request.to_vec();
    msg[0] = 0;
    let mut buf = vec![0u8; 20];
    buf[0] = 0x45;
    let total = (20 + msg.len()) as u16;
    buf[2] = (total >> 8) as u8;
    buf[3] = (total & 0xff) as u8;
    buf[12..16].copy_from_slice(&source);
    buf.extend_from_slice(&msg);
    buf
}

#[test]
fn echoed_request_reads_back() {
    let rand = vec![42u8; 24];
    for seq in 0u16..4 {
        let r = request_for(99, seq, &rand, "t".to_string(), 7_000_000_123);
        let reply = parse_echo_reply(&echoed(&r.packet, [10, 0, 0, 1])).unwrap();
        let stamp = ping_reply(&reply, 99, &rand).unwrap();
        assert_eq!(stamp.source, 0x0A000001);
        assert_eq!(stamp.seq, seq);
        assert_eq!(stamp.txts, 7_000_000_123);
        assert!(!stamp.bitflip);
        let (key, res) = reply_record(&stamp, "10.0.0.1".to_string(), 7_000_000_500);
        assert_eq!(key, r.key);
        assert!(res.received);
        assert_eq!(res.rxts, 7_000_000_500);
        assert_eq!(res.txts, 7_000_000_123);
    }
}

#[test]
fn ping_reply_flags_corruption_and_other_ids() {
    let rand = vec![42u8; 24];
    let r = request_for(99, 1, &rand, "t".to_string(), 5);
    let mut buf = echoed(&r.packet, [1, 2, 3, 4]);
    let last = buf.len() - 1;
    buf[last] ^= 1;
    let reply = parse_echo_reply(&buf).unwrap();
    assert!(ping_reply(&reply, 99, &rand).unwrap().bitflip);
    assert!(ping_reply(&reply, 100, &rand).is_none());
    // corruption inside the timestamp does not count as a bitflip
    let mut buf = echoed(&r.packet, [1, 2, 3, 4]);
    buf[20 + 8] ^= 0x80;
    let reply = parse_echo_reply(&buf).unwrap();
    let stamp = ping_reply(&reply, 99, &rand).unwrap();
    assert!(!stamp.bitflip);
    assert_ne!(stamp.txts, 5);
}

#[test]
fn once_reply_checks_source_and_payload() {
    let reply = EchoReply { source: 0x08080808, identifier: 5, sequence: 2, payload: vec![1, 1, 1] };
    assert_eq!(once_reply(&reply, 5, 2, 0x08080808, &[1, 1, 1]), Some(false));
    assert_eq!(once_reply(&reply, 5, 2, 0x08080808, &[1, 1, 0]), Some(true));
    assert_eq!(once_reply(&reply, 5, 2, 0x08080808, &[1, 1]), Some(true));
    assert_eq!(once_reply(&reply, 6, 2, 0x08080808, &[1, 1, 1]), None);
    assert_eq!(once_reply(&reply, 5, 2, 0x08080404, &[1, 1, 1]), None);
    // a late reply to another ping of this process is not this ping's reply
    assert_eq!(once_reply(&reply, 5, 3, 0x08080808, &[1, 1, 1]), None);
}

#[test]
fn once_latency_and_attempts() {
    assert_eq!(once_latency(100, 350), 250);
    assert_eq!(once_latency(0, (1u128 << 64) + 3), 3);
    assert_eq!(receive_attempts(0), 1);
    assert_eq!(receive_attempts(1), 1);
    assert_eq!(receive_attempts(2), 2);
    assert_eq!(receive_attempts(10), 10);
    assert_eq!(once_sequence(Some(1234)), 1234);
    let _ = once_sequence(None);
    assert_eq!((DEFAULT_ONCE_TIMEOUT_SECS, DEFAULT_ONCE_TTL, DEFAULT_ONCE_LEN), (1, 64, 64));
}

#[test]
fn random_bytes_length() {
    assert_eq!(Payloads::new(0).rand.len(), 0);
    assert_eq!(Payloads::new(64).rand.len(), 64);
}

#[test]
fn control_timestamps() {
    let tv = ControlMessage::Timeval(Timespec { sec: 3, frac: 250 });
    assert_eq!(control_timestamp(&vec![tv]), Some(3_000_250_000));
    let zero = Timespec { sec: 0, frac: 0 };
    let hw = Timespec { sec: 5, frac: 7 };
    let sw = Timespec { sec: 4, frac: 1_500_000_000 };
    let msgs = vec![
        ControlMessage::Other,
        ControlMessage::Timestamping(Timespec { sec: 0, frac: 0 }, Timespec { sec: 0, frac: 0 }, hw),
    ];
    assert_eq!(control_timestamp(&msgs), Some(5_000_000_007));
    let msgs = vec![ControlMessage::Timestamping(sw, Timespec { sec: 0, frac: 0 }, Timespec { sec: 9, frac: 9 })];
    assert_eq!(control_timestamp(&msgs), Some(5_500_000_000));
    let msgs = vec![
        ControlMessage::Timestamping(zero, Timespec { sec: 0, frac: 0 }, Timespec { sec: 0, frac: 0 }),
        ControlMessage::Timeval(Timespec { sec: 1, frac: 1 }),
    ];
    assert_eq!(control_timestamp(&msgs), Some(1_000_001_000));
    assert_eq!(control_timestamp(&vec![ControlMessage::Other]), None);
    assert_eq!(control_timestamp(&Vec::new()), None);
}

#[test]
fn stat_tick_outcomes() {
    let mut bs = Buckets::new();
    let mut last: u128 = 0;
    let now: u128 = 100_000_000_000;
    assert!(matches!(stat_tick(&mut bs, &mut last, now, 3), TickOutcome::Empty));
    bs.add(98, Result::new(98_000_000_000, "a", 1));
    bs.add(96, Result::new(96_000_000_000, "a", 1));
    let mut r = Result::new(96_000_000_000, "b", 1);
    r.received = true;
    r.latency = 7;
    bs.add(96, r);
    match stat_tick(&mut bs, &mut last, now, 3) {
        TickOutcome::Report(v) => {
            assert_eq!(v.len(), 2);
            assert_eq!(v[0].target, "a");
            assert_eq!((v[0].loss, v[0].received), (1, 0));
            assert_eq!(v[1].target, "b");
            assert_eq!((v[1].received, v[1].latency), (1, 7));
        }
        _ => panic!("expected a report"),
    }
    assert_eq!(last, 96);
    // 98 is younger than three seconds
    assert!(matches!(stat_tick(&mut bs, &mut last, now, 3), TickOutcome::Waiting));
    // a late bucket for an old second is dropped
    bs.add(95, Result::new(95_000_000_000, "a", 2));
    assert!(matches!(stat_tick(&mut bs, &mut last, now, 3), TickOutcome::Dropped));
    assert!(bs.get(95).is_none());
    assert!(matches!(stat_tick(&mut bs, &mut last, now + 1_000_000_000, 3), TickOutcome::Report(_)));
    assert_eq!(last, 98);
}

#[test]
fn stat_tick_overflow() {
    let mut bs = Buckets::new();
    let mut last: u128 = 0;
    let mut a = Result::new(1, "a", 1);
    a.latency = u128::MAX;
    let mut b = Result::new(1, "a", 2);
    b.latency = 1;
    bs.add(1, a);
    bs.add(1, b);
    assert!(matches!(stat_tick(&mut bs, &mut last, 10_000_000_000, 0), TickOutcome::Overflow));
    assert_eq!(last, 1);
}

#[test]
fn echo_with_options_completes_request() {
    let rand = vec![7u8; 32];
    let mut buckets = Buckets::new();
    let r = request_for(11, 6, &rand, "10.0.0.9".to_string(), 3_000_000_050);
    buckets.add(r.key, r.record);
    buckets.update_txts(r.key, "10.0.0.9".to_string(), 6, 3_000_000_070);
    // an IPv4 header with one word of options, and two bytes of link padding after the packet
    let mut msg = r.packet.clone();
    msg[0] = 0;
    let mut buf = vec![0u8; 24];
    buf[0] = 0x46;
    let total = (24 + msg.len()) as u16;
    buf[2] = (total >> 8) as u8;
    buf[3] = (total & 0xff) as u8;
    buf[12..16].copy_from_slice(&[10, 0, 0, 9]);
    buf.extend_from_slice(&msg);
    buf.extend_from_slice(&[0, 0]);
    let reply = parse_echo_reply(&buf).unwrap();
    let stamp = ping_reply(&reply, 11, &rand).unwrap();
    assert!(!stamp.bitflip);
    let (key, res) = reply_record(&stamp, "10.0.0.9".to_string(), 3_000_000_900);
    assert_eq!(key, r.key);
    buckets.add_reply(key, res);
    let b = buckets.get(key).unwrap();
    let filed = b.get(&"10.0.0.9".to_string(), 6).unwrap();
    assert!(filed.received);
    assert!(!filed.bitflip);
    assert_eq!(filed.txts, 3_000_000_070);
    assert_eq!(filed.latency, 830);
    assert_eq!(b.values().len(), 1);
}
