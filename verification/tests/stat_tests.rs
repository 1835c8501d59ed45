use mping::stat::{Bucket, Buckets, Result};
use mping::summary::{summarize, TargetResult};

fn request(txts: u128, target: &str, seq: u16) -> Result {
    Result::new(txts, target, seq)
}

fn reply(rxts: u128, txts: u128, target: &str, seq: u16, bitflip: bool) -> Result {
    Result {
        txts,
        rxts,
        seq,
        target: target.to_string(),
        latency: 0,
        received: true,
        bitflip,
    }
}

#[test]
fn result_new_is_open() {
    let r = Result::new(5, "8.8.8.8", 7);
    assert_eq!(r.txts, 5);
    assert_eq!(r.rxts, 0);
    assert_eq!(r.seq, 7);
    assert_eq!(r.target, "8.8.8.8");
    assert_eq!(r.latency, 0);
    assert!(!r.received);
    assert!(!r.bitflip);
}

#[test]
fn calc_latency_is_receive_minus_send() {
    let mut r = Result::new(1_000, "a", 1);
    r.rxts = 3_500;
    r.calc_latency();
    assert_eq!(r.latency, 2_500);
    assert_eq!(r.txts, 1_000);
    assert_eq!(r.rxts, 3_500);
}

#[test]
fn bucket_add_replaces_same_target_and_seq() {
    let mut b = Bucket::new(9);
    assert_eq!(b.key, 9);
    b.add(request(1, "a", 1));
    b.add(request(2, "a", 2));
    b.add(request(3, "b", 1));
    b.add(request(4, "a", 1));
    let vals = b.values();
    assert_eq!(vals.len(), 3);
    assert_eq!(b.get(&"a".to_string(), 1).unwrap().txts, 4);
    assert_eq!(b.get(&"a".to_string(), 2).unwrap().txts, 2);
    assert_eq!(b.get(&"b".to_string(), 1).unwrap().txts, 3);
    assert!(b.get(&"b".to_string(), 2).is_none());
}

#[test]
fn bucket_reply_takes_request_send_time() {
    let mut b = Bucket::new(1);
    b.add(request(100, "a", 3));
    b.add_reply(reply(450, 999, "a", 3, false));
    let r = b.get(&"a".to_string(), 3).unwrap();
    assert_eq!(r.txts, 100);
    assert_eq!(r.rxts, 450);
    assert_eq!(r.latency, 350);
    assert!(r.received);
    assert_eq!(b.values().len(), 1);
}

#[test]
fn bucket_reply_without_request_is_filed_as_is() {
    let mut b = Bucket::new(1);
    b.add_reply(reply(450, 40, "a", 3, true));
    let r = b.get(&"a".to_string(), 3).unwrap();
    assert_eq!(r.txts, 40);
    assert_eq!(r.latency, 0);
    assert!(r.bitflip);
}

#[test]
fn bucket_update_txts_only_where_filed() {
    let mut b = Bucket::new(1);
    b.add(request(100, "a", 3));
    b.update_txts("a".to_string(), 3, 120);
    b.update_txts("a".to_string(), 4, 130);
    assert_eq!(b.get(&"a".to_string(), 3).unwrap().txts, 120);
    assert!(b.get(&"a".to_string(), 4).is_none());
    b.add_reply(reply(200, 0, "a", 3, false));
    assert_eq!(b.get(&"a".to_string(), 3).unwrap().latency, 80);
}

#[test]
fn bucket_clone_and_eq() {
    let mut b = Bucket::new(4);
    b.add(request(1, "a", 1));
    let c = b.clone();
    assert_eq!(c.key, 4);
    assert_eq!(c.values().len(), 1);
    assert!(b == c);
    assert!(b != Bucket::new(5));
}

#[test]
fn buckets_pop_smallest_first() {
    let mut bs = Buckets::new();
    bs.add(30, request(30_000_000_000, "a", 3));
    bs.add(10, request(10_000_000_000, "a", 1));
    bs.add(20, request(20_000_000_000, "a", 2));
    bs.add(10, request(10_000_000_001, "b", 1));
    assert_eq!(bs.last().unwrap().key, 10);
    assert_eq!(bs.last().unwrap().values().len(), 2);
    let b = bs.pop().unwrap();
    assert_eq!(b.key, 10);
    assert_eq!(b.values().len(), 2);
    assert_eq!(bs.pop().unwrap().key, 20);
    assert_eq!(bs.pop().unwrap().key, 30);
    assert!(bs.pop().is_none());
    assert!(bs.last().is_none());
}

#[test]
fn buckets_reply_and_update() {
    let mut bs = Buckets::new();
    bs.add(1, request(1_000_000_000, "a", 1));
    bs.update_txts(1, "a".to_string(), 1, 1_000_000_100);
    bs.update_txts(2, "a".to_string(), 1, 5);
    assert!(bs.get(2).is_none());
    bs.add_reply(1, reply(1_000_000_600, 1_000_000_000, "a", 1, false));
    let b = bs.get(1).unwrap();
    let r = b.get(&"a".to_string(), 1).unwrap();
    assert_eq!(r.txts, 1_000_000_100);
    assert_eq!(r.latency, 500);
    bs.add_reply(7, reply(9, 8, "c", 2, false));
    assert_eq!(bs.get(7).unwrap().values().len(), 1);
}

#[test]
fn summarize_per_target_in_order() {
    let mut vals = Vec::new();
    let mut a1 = reply(20, 10, "b", 1, false);
    a1.latency = 10;
    vals.push(a1);
    vals.push(request(11, "a", 1));
    let mut a2 = reply(40, 10, "b", 2, true);
    a2.latency = 30;
    vals.push(a2);
    let mut a3 = reply(15, 10, "a", 2, false);
    a3.latency = 5;
    vals.push(a3);
    vals.push(request(12, "c", 1));
    let v: Vec<TargetResult> = summarize(&vals).unwrap();
    assert_eq!(v.len(), 3);
    assert_eq!(v[0].target, "a");
    assert_eq!((v[0].latency, v[0].received, v[0].loss, v[0].bitflip_count), (5, 1, 1, 0));
    assert_eq!(v[1].target, "b");
    assert_eq!((v[1].latency, v[1].received, v[1].loss, v[1].bitflip_count), (40, 2, 0, 1));
    assert_eq!(v[2].target, "c");
    assert_eq!((v[2].latency, v[2].received, v[2].loss, v[2].bitflip_count), (0, 0, 1, 0));
}

#[test]
fn summarize_orders_by_bytes() {
    let vals = vec![request(1, "8.8.8.8", 1), request(1, "10.0.0.1", 1), request(1, "10.0.0", 2)];
    let v = summarize(&vals).unwrap();
    let names: Vec<&str> = v.iter().map(|t| t.target.as_str()).collect();
    assert_eq!(names, vec!["10.0.0", "10.0.0.1", "8.8.8.8"]);
}

#[test]
fn summarize_empty() {
    assert_eq!(summarize(&Vec::new()).unwrap().len(), 0);
}

#[test]
fn summarize_latency_overflow() {
    let mut a = reply(1, 0, "a", 1, false);
    a.latency = u128::MAX;
    let mut b = reply(1, 0, "a", 2, false);
    b.latency = 1;
    assert!(summarize(&vec![a, b]).is_none());
}
