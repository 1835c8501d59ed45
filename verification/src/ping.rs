use vstd::prelude::*;
use rand::Rng;
use crate::packet::{
    be_value, be_word_sum, build_echo_request, echo_reply_of, echo_request, echo_request_unsummed, ipv4_source,
    law_timestamp_bytes_roundtrip, pattern_payload, payload_for, timestamp_of, timestamped, timestamped_payload,
    u128_bytes, with_checksum, EchoReply, EchoReplyView, ECHO_REPLY,
};
use crate::stat::{
    bucket_at, is_min_key, keys_unique, law_reply_follows_updated_request, merged_reply, reply_in_order, result_key,
    result_views, results_map, with_txts, BucketView, Buckets, Result, ResultView,
};
use crate::summary::{is_summary, summarize, tallies_fit, TargetResult};

verus! {

/// Nanoseconds in a second.
pub const NANOS_PER_SEC: u128 = 1_000_000_000u128;

/// Ping option struct for the ping loop.
pub struct PingOption {
    /// Timeout for each ping write and read.
    pub timeout: std::time::Duration,
    /// TTL for each ping packet.
    pub ttl: u32,
    /// TOS for each ping packet.
    pub tos: Option<u32>,
    /// Id for each ICMP packet.
    pub ident: u16,
    /// Payload length for each ICMP packet.
    pub len: usize,
    /// Ping rate for each target.
    pub rate: u64,
    /// Rate for all targets or single target.
    /// if true, each target will send packets with rate for all targets.
    /// if false, each target will send packets with their own rate.
    pub rate_for_all: bool,
    /// Delay for output ping results.
    pub delay: u64,
    /// Max ping count for each target. Not check in case of None.
    pub count: Option<i64>,
}

/// `rand` random bytes: `rand::thread_rng` filling a buffer of `len` bytes. Only the
/// length is promised; the bytes are chance.
#[verifier::external_body]
fn random_bytes(len: usize) -> (v: Vec<u8>)
    ensures
        v@.len() == len,
{
    let mut rng = rand::thread_rng();
    let mut v = vec![0u8; len];
    rng.fill(&mut v[..]);
    v
}

/// The random payload of a ping session, the first of the four payload patterns.
pub struct Payloads {
    /// Random bytes, drawn once per session.
    pub rand: Vec<u8>,
}

impl Payloads {
    /// Draw the random payload of `len` bytes.
    pub fn new(len: usize) -> (p: Payloads)
        ensures
            p.rand@.len() == len,
    {
        Payloads { rand: random_bytes(len) }
    }
}

/// A random sequence number: `rand::thread_rng().gen()`. Any value may come back.
#[verifier::external_body]
fn random_seq() -> u16 {
    rand::thread_rng().gen()
}

/// The bucket, in seconds, of a timestamp in nanoseconds.
pub open spec fn bucket_key(ts: u128) -> u128 {
    ts / NANOS_PER_SEC
}

/// The state of the send loop: the sequence number of the next round and the number of
/// rounds sent.
pub struct SendState {
    /// The sequence number of the next round of requests.
    pub seq: u16,
    /// The number of rounds sent.
    pub sent_count: i64,
}

impl SendState {
    /// The state before the first round: sequence number 1, nothing sent.
    pub fn new() -> (s: SendState)
        ensures
            s.seq == 1,
            s.sent_count == 0,
    {
        SendState { seq: 1, sent_count: 0 }
    }

    /// Whether the next round is due: at most `count` rounds are sent, and with no count
    /// the rounds never stop.
    pub fn round_due(&self, count: Option<i64>) -> (due: bool)
        ensures
            due == round_due_after(self.sent_count as int, count),
    {
        match count {
            Some(c) => self.sent_count < c,
            None => true,
        }
    }

    /// Close a round: the sequence number moves on (wrapping around after 65535) and one
    /// more round is counted.
    pub fn finish_round(&mut self)
        requires
            old(self).sent_count < i64::MAX,
        ensures
            final(self).seq == (if old(self).seq == u16::MAX { 0 } else { old(self).seq + 1 }),
            final(self).sent_count == old(self).sent_count + 1,
    {
        self.seq = if self.seq == u16::MAX { 0 } else { self.seq + 1 };
        self.sent_count = self.sent_count + 1;
    }
}

/// After `sent` rounds, another is due: fewer than `count` are sent, or there is no count.
pub open spec fn round_due_after(sent: int, count: Option<i64>) -> bool {
    match count {
        Some(c) => sent < c,
        None => true,
    }
}

/// The send loop, which starts with no rounds sent and counts one per round, sends
/// exactly `count` rounds, or none for a count below one; with no count every round is
/// due.
pub proof fn law_rounds_sent(count: Option<i64>, n: int)
    requires
        0 <= n,
    ensures
        count matches Some(c) ==> (round_due_after(n, count) <==> n < (if c > 0 { c as int } else { 0 })),
        count is None ==> round_due_after(n, count),
{
}

/// Whether the rate limiter gives a token before each round (each target of the round
/// then goes without one).
pub open spec fn token_per_round(rate_for_all: bool) -> bool {
    !rate_for_all
}

impl PingOption {
    /// The rate limiter gives a token before each round: the rate is per target.
    pub fn token_before_round(&self) -> (r: bool)
        ensures
            r == token_per_round(self.rate_for_all),
    {
        !self.rate_for_all
    }

    /// The rate limiter gives a token before each request: the rate is for all targets
    /// together.
    pub fn token_before_request(&self) -> (r: bool)
        ensures
            r == !token_per_round(self.rate_for_all),
    {
        self.rate_for_all
    }
}

/// What the send loop sends to one target and files for it.
pub struct Request {
    /// The echo request to send.
    pub packet: Vec<u8>,
    /// The bucket, in seconds, of the request.
    pub key: u128,
    /// The result filed for the request until the reply comes.
    pub record: Result,
}

/// The request of the send loop with sequence number `seq` to `target`, sent at
/// `timestamp`: an echo request whose payload is the pattern of `seq` headed by the
/// send time, and an open result in the bucket of the send time.
pub fn request_for(ident: u16, seq: u16, rand_payload: &[u8], target: String, timestamp: u128) -> (r: Request)
    requires
        16 <= rand_payload@.len(),
        be_word_sum(
            echo_request_unsummed(ident, seq, timestamped_payload(timestamp, pattern_payload(seq, rand_payload@))),
            1,
        ) <= u32::MAX,
    ensures
        r.packet@ == echo_request(ident, seq, timestamped_payload(timestamp, pattern_payload(seq, rand_payload@))),
        r.key == bucket_key(timestamp),
        r.key * 1_000_000_000 <= timestamp < (r.key + 1) * 1_000_000_000,
        r.record@ == (ResultView {
            txts: timestamp,
            rxts: 0,
            seq,
            target: target@,
            latency: 0,
            received: false,
            bitflip: false,
        }),
{
    let payload = payload_for(seq, rand_payload);
    let send_payload = timestamped(timestamp, payload.as_slice());
    let packet = build_echo_request(ident, seq, send_payload.as_slice());
    let record = Result {
        txts: timestamp,
        rxts: 0,
        seq,
        target,
        latency: 0,
        received: false,
        bitflip: false,
    };
    Request { packet, key: timestamp / NANOS_PER_SEC, record }
}

/// What the receive loop reads of a reply to one of its requests.
pub struct ReplyStamp {
    /// The source address of the reply.
    pub source: u32,
    /// The sequence number of the reply.
    pub seq: u16,
    /// The send time that the reply's payload carries back.
    pub txts: u128,
    /// The reply's payload differs from what was sent after the send time.
    pub bitflip: bool,
}

/// A reply of the ping loop: one with the loop's identifier, whose payload carries back
/// the send time and the pattern of its sequence number.
pub open spec fn ping_reply_of(e: EchoReplyView, ident: u16, rand: Seq<u8>) -> Option<(u32, u16, u128, bool)> {
    if e.identifier != ident {
        None
    } else {
        Some(
            (
                e.source,
                e.sequence,
                be_value(e.payload.take(16)) as u128,
                pattern_payload(e.sequence, rand).skip(16) != e.payload.skip(16),
            ),
        )
    }
}

/// The bytes of `a` and `b` from position `from` on are the same.
fn same_from(a: &[u8], b: &[u8], from: usize) -> (same: bool)
    requires
        from <= a@.len(),
        from <= b@.len(),
    ensures
        same == (a@.skip(from as int) == b@.skip(from as int)),
{
    if a.len() != b.len() {
        proof {
            assert(a@.skip(from as int).len() != b@.skip(from as int).len());
        }
        return false;
    }
    let mut i: usize = from;
    while i < a.len()
        invariant
            from <= i <= a@.len(),
            a@.len() == b@.len(),
            forall|j: int| from <= j < i ==> a@[j] == b@[j],
        decreases a.len() - i,
    {
        if a[i] != b[i] {
            proof {
                assert(a@.skip(from as int)[i - from] != b@.skip(from as int)[i - from]);
            }
            return false;
        }
        i = i + 1;
    }
    proof {
        assert(a@.skip(from as int) =~= b@.skip(from as int));
    }
    true
}

/// Read a reply of the ping loop: `None` for an echo of another identifier.
pub fn ping_reply(reply: &EchoReply, ident: u16, rand_payload: &[u8]) -> (r: Option<ReplyStamp>)
    requires
        16 <= rand_payload@.len(),
        reply.identifier == ident ==> 16 <= reply.payload@.len(),
    ensures
        match r {
            Some(s) => ping_reply_of(reply@, ident, rand_payload@) == Some((s.source, s.seq, s.txts, s.bitflip)),
            None => ping_reply_of(reply@, ident, rand_payload@) is None,
        },
{
    if reply.identifier != ident {
        return None;
    }
    let expected = payload_for(reply.sequence, rand_payload);
    let bitflip = !same_from(expected.as_slice(), reply.payload.as_slice(), 16);
    let txts = timestamp_of(reply.payload.as_slice());
    Some(ReplyStamp { source: reply.source, seq: reply.sequence, txts, bitflip })
}

/// The result that a reply of the ping loop files, received at `rxts` from `target`,
/// and the bucket, in seconds, of its send time.
pub fn reply_record(stamp: &ReplyStamp, target: String, rxts: u128) -> (r: (u128, Result))
    ensures
        r.0 == bucket_key(stamp.txts),
        r.0 * 1_000_000_000 <= stamp.txts < (r.0 + 1) * 1_000_000_000,
        r.1@ == (ResultView {
            txts: stamp.txts,
            rxts,
            seq: stamp.seq,
            target: target@,
            latency: 0,
            received: true,
            bitflip: stamp.bitflip,
        }),
{
    (
        stamp.txts / NANOS_PER_SEC,
        Result {
            txts: stamp.txts,
            rxts,
            target,
            seq: stamp.seq,
            latency: 0,
            received: true,
            bitflip: stamp.bitflip,
        },
    )
}


/// The timeout of `ping_once`, in seconds, when the caller gives none.
pub const DEFAULT_ONCE_TIMEOUT_SECS: u64 = 1u64;

/// The TTL of `ping_once` when the caller gives none.
pub const DEFAULT_ONCE_TTL: u32 = 64u32;

/// The payload length of `ping_once` when the caller gives none.
pub const DEFAULT_ONCE_LEN: usize = 64usize;

/// The sequence number of `ping_once`: the caller's, or a random one.
pub fn once_sequence(seq: Option<u16>) -> (r: u16)
    ensures
        seq is Some ==> r == seq->0,
{
    let random = random_seq();
    match seq {
        Some(s) => s,
        None => random,
    }
}

/// How many times `ping_once` waits for a reply within a timeout of `timeout_secs`
/// seconds: one less than the timeout plus one, and at least once.
pub fn receive_attempts(timeout_secs: u64) -> (n: u64)
    requires
        timeout_secs < u64::MAX,
    ensures
        n == (if timeout_secs + 1 < 2 { 1 } else { timeout_secs }),
{
    let mut n = timeout_secs + 1;
    if n < 2 {
        n = 2;
    }
    n - 1
}

/// What `ping_once` makes of a reply: `None` to wait for another (another identifier,
/// another sequence number or another source), or whether the payload differs from
/// what was sent.
pub open spec fn once_reply_of(e: EchoReplyView, ident: u16, seq: u16, target: u32, expected: Seq<u8>) -> Option<
    bool,
> {
    if e.identifier != ident || e.sequence != seq || e.source != target {
        None
    } else {
        Some(expected != e.payload)
    }
}

/// Read a reply for `ping_once`, which waits for the echo of its own request: its
/// identifier and sequence number, from its target.
pub fn once_reply(reply: &EchoReply, ident: u16, seq: u16, target: u32, expected: &[u8]) -> (r: Option<bool>)
    ensures
        r == once_reply_of(reply@, ident, seq, target, expected@),
{
    if reply.identifier != ident || reply.sequence != seq {
        return None;
    }
    let bitflip = !same_from(expected, reply.payload.as_slice(), 0);
    proof {
        assert(expected@.skip(0) =~= expected@);
        assert(reply.payload@.skip(0) =~= reply.payload@);
    }
    if reply.source != target {
        return None;
    }
    Some(bitflip)
}

/// The latency that `ping_once` reports, in nanoseconds: the time from send to receipt,
/// kept to its 64 low bits.
pub fn once_latency(txts: u128, rxts: u128) -> (d: u64)
    requires
        txts <= rxts,
    ensures
        d == (rxts - txts) % 0x1_0000_0000_0000_0000,
{
    let n = rxts - txts;
    let d = (n % 0x1_0000_0000_0000_0000u128) as u64;
    d
}

/// A timestamp of a control message, in seconds and sub-second units.
pub struct Timespec {
    /// Seconds since the epoch.
    pub sec: i64,
    /// Nanoseconds, or microseconds for a `timeval`.
    pub frac: i64,
}

/// A control message that came with a received or sent packet, as far as the
/// timestamps go.
pub enum ControlMessage {
    /// A software receive timestamp (`SO_TIMESTAMP`): seconds and microseconds.
    Timeval(Timespec),
    /// Timestamps of `SO_TIMESTAMPING`: software, legacy and hardware, in seconds and
    /// nanoseconds.
    Timestamping(Timespec, Timespec, Timespec),
    /// Any other control message.
    Other,
}

/// The first timestamp of a `SO_TIMESTAMPING` message that is set and whose seconds
/// fit a `Duration`, as (seconds, nanoseconds): the seconds and nanoseconds fields are
/// read as unsigned numbers.
pub open spec fn timestamping_choice(a: Timespec, b: Timespec, c: Timespec) -> Option<(nat, nat)> {
    if stamp_usable(a) {
        Some(((a.sec as u64) as nat, (a.frac as u64) as nat))
    } else if stamp_usable(b) {
        Some(((b.sec as u64) as nat, (b.frac as u64) as nat))
    } else if stamp_usable(c) {
        Some(((c.sec as u64) as nat, (c.frac as u64) as nat))
    } else {
        None
    }
}

/// A set timestamp of `SO_TIMESTAMPING` whose seconds fit a `Duration`.
pub open spec fn stamp_usable(t: Timespec) -> bool {
    (t.sec != 0 || t.frac != 0) && (t.sec as u64) as nat + (t.frac as u64) as nat / 1_000_000_000 <= u64::MAX
}

/// The timestamp of the first control message that has one, as (seconds, nanoseconds).
pub open spec fn control_choice(msgs: Seq<ControlMessage>) -> Option<(nat, nat)>
    decreases msgs.len(),
{
    if msgs.len() == 0 {
        None
    } else {
        match msgs[0] {
            ControlMessage::Timeval(t) => Some(((t.sec as u64) as nat, (t.frac as u32) as nat * 1000)),
            ControlMessage::Timestamping(a, b, c) => match timestamping_choice(a, b, c) {
                Some(p) => Some(p),
                None => control_choice(msgs.drop_first()),
            },
            ControlMessage::Other => control_choice(msgs.drop_first()),
        }
    }
}

/// A chosen timestamp, if any, has seconds that fit the clock.
pub open spec fn stamp_fits(o: Option<(nat, nat)>) -> bool {
    match o {
        Some(p) => p.0 + p.1 / 1_000_000_000 <= i64::MAX,
        None => true,
    }
}

/// The chosen timestamp can be a time: a `timeval`'s microseconds do not overflow as
/// nanoseconds, and the seconds fit the clock.
pub open spec fn control_choice_fits(msgs: Seq<ControlMessage>) -> bool
    decreases msgs.len(),
{
    if msgs.len() == 0 {
        true
    } else {
        match msgs[0] {
            ControlMessage::Timeval(t) => (t.frac as u32) as nat * 1000 <= u32::MAX && (t.sec as u64) as nat
                + (t.frac as u32) as nat * 1000 / 1_000_000_000 <= i64::MAX,
            ControlMessage::Timestamping(a, b, c) => match timestamping_choice(a, b, c) {
                Some(p) => stamp_fits(Some(p)),
                None => control_choice_fits(msgs.drop_first()),
            },
            ControlMessage::Other => control_choice_fits(msgs.drop_first()),
        }
    }
}

/// A timestamp as nanoseconds since the epoch.
pub open spec fn timestamp_nanos(p: (nat, nat)) -> nat {
    p.0 * 1_000_000_000 + p.1
}

fn stamp_parts(t: &Timespec) -> (r: Option<(u64, u64)>)
    ensures
        r is Some <==> stamp_usable(*t),
        r matches Some(p) ==> p.0 == t.sec as u64 && p.1 == t.frac as u64,
{
    if t.sec != 0 || t.frac != 0 {
        let secs = #[verifier::truncate] (t.sec as u64);
        let nanos = #[verifier::truncate] (t.frac as u64);
        if secs <= u64::MAX - nanos / 1_000_000_000 {
            return Some((secs, nanos));
        }
    }
    None
}

fn timestamping_parts(a: &Timespec, b: &Timespec, c: &Timespec) -> (r: Option<(u64, u64)>)
    ensures
        match timestamping_choice(*a, *b, *c) {
            Some(p) => r matches Some(q) && q.0 as nat == p.0 && q.1 as nat == p.1,
            None => r is None,
        },
{
    match stamp_parts(a) {
        Some(p) => Some(p),
        None => match stamp_parts(b) {
            Some(p) => Some(p),
            None => stamp_parts(c),
        },
    }
}

/// Whether the timestamp that `control_timestamp` would choose can be a time: the
/// condition under which it may be called.
pub fn control_timestamp_fits(msgs: &Vec<ControlMessage>) -> (ok: bool)
    ensures
        ok == control_choice_fits(msgs@),
{
    let mut i: usize = 0;
    proof {
        assert(msgs@.skip(0) =~= msgs@);
    }
    while i < msgs.len()
        invariant
            i <= msgs@.len(),
            control_choice_fits(msgs@) == control_choice_fits(msgs@.skip(i as int)),
        decreases msgs.len() - i,
    {
        proof {
            assert(msgs@.skip(i as int).drop_first() =~= msgs@.skip(i + 1));
            assert(msgs@.skip(i as int)[0] == msgs@[i as int]);
        }
        match &msgs[i] {
            ControlMessage::Timeval(t) => {
                let secs = #[verifier::truncate] (t.sec as u64);
                let micros = #[verifier::truncate] (t.frac as u32);
                if micros > 4_294_967 {
                    return false;
                }
                let nanos: u32 = micros * 1000;
                return secs as u128 + (nanos / 1_000_000_000) as u128 <= i64::MAX as u128;
            },
            ControlMessage::Timestamping(a, b, c) => {
                match timestamping_parts(a, b, c) {
                    Some((secs, nanos)) => {
                        return secs as u128 + (nanos / 1_000_000_000) as u128 <= i64::MAX as u128;
                    },
                    None => {},
                }
            },
            ControlMessage::Other => {},
        }
        i = i + 1;
    }
    proof {
        assert(msgs@.skip(i as int) =~= Seq::<ControlMessage>::empty());
    }
    true
}

/// The timestamp, in nanoseconds since the epoch, of the first control message that
/// carries one: a `timeval`, or a set timestamp of `SO_TIMESTAMPING` that fits.
pub fn control_timestamp(msgs: &Vec<ControlMessage>) -> (r: Option<u128>)
    requires
        control_choice_fits(msgs@),
    ensures
        match control_choice(msgs@) {
            Some(p) => r == Some(timestamp_nanos(p) as u128),
            None => r is None,
        },
{
    let mut i: usize = 0;
    proof {
        assert(msgs@.skip(0) =~= msgs@);
    }
    while i < msgs.len()
        invariant
            i <= msgs@.len(),
            control_choice(msgs@) == control_choice(msgs@.skip(i as int)),
            control_choice_fits(msgs@) == control_choice_fits(msgs@.skip(i as int)),
            control_choice_fits(msgs@),
        decreases msgs.len() - i,
    {
        proof {
            assert(msgs@.skip(i as int).drop_first() =~= msgs@.skip(i + 1));
            assert(msgs@.skip(i as int)[0] == msgs@[i as int]);
        }
        match &msgs[i] {
            ControlMessage::Timeval(t) => {
                let secs = #[verifier::truncate] (t.sec as u64);
                let micros = #[verifier::truncate] (t.frac as u32);
                let nanos: u32 = micros * 1000;
                let total: u128 = secs as u128 * 1_000_000_000 + nanos as u128;
                return Some(total);
            },
            ControlMessage::Timestamping(a, b, c) => {
                match timestamping_parts(a, b, c) {
                    Some((secs, nanos)) => {
                        return Some(secs as u128 * 1_000_000_000 + nanos as u128);
                    },
                    None => {},
                }
            },
            ControlMessage::Other => {},
        }
        i = i + 1;
    }
    proof {
        assert(msgs@.skip(i as int) =~= Seq::<ControlMessage>::empty());
    }
    None
}

/// What a tick of the report loop did.
pub enum TickOutcome {
    /// There was no bucket.
    Empty,
    /// The oldest bucket was not newer than the last one reported, and was dropped.
    Dropped,
    /// The oldest bucket is not yet `delay` seconds old.
    Waiting,
    /// The oldest bucket was taken out and its results summed up per target.
    Report(Vec<TargetResult>),
    /// The oldest bucket was taken out, and a tally of its results overflowed.
    Overflow,
}

/// A bucket of second `key` is due for the report once `delay` seconds have passed
/// since it, as of `now` (in nanoseconds).
pub open spec fn is_due(key: u128, now: u128, delay: u64) -> bool {
    key <= (now - delay * NANOS_PER_SEC) / NANOS_PER_SEC as int
}

/// `v` sums up per target a listing of the results of the bucket `m`.
pub open spec fn summarizes_bucket(v: Seq<TargetResult>, m: BucketView) -> bool {
    exists|s: Seq<ResultView>| keys_unique(s) && results_map(s) == m && tallies_fit(s) && #[trigger] is_summary(v, s)
}

/// The tallies of a listing of the results of the bucket `m` overflow a counter.
pub open spec fn bucket_overflows(m: BucketView) -> bool {
    exists|s: Seq<ResultView>| keys_unique(s) && #[trigger] results_map(s) == m && !tallies_fit(s)
}

/// One tick of the report loop at time `now` (nanoseconds): look at the oldest bucket;
/// drop it if it is not newer than the last one reported, report it once it is `delay`
/// seconds old.
pub fn stat_tick(buckets: &mut Buckets, last_key: &mut u128, now: u128, delay: u64) -> (out: TickOutcome)
    requires
        old(buckets).wf(),
        forall|k: u128|
            #[trigger] is_min_key(old(buckets)@, k) && *old(last_key) < k ==> delay * NANOS_PER_SEC <= now,
    ensures
        final(buckets).wf(),
        match out {
            TickOutcome::Empty => {
                &&& old(buckets)@ =~= Map::<u128, BucketView>::empty()
                &&& final(buckets)@ == old(buckets)@
                &&& *final(last_key) == *old(last_key)
            },
            TickOutcome::Waiting => exists|k: u128| {
                &&& #[trigger] is_min_key(old(buckets)@, k)
                &&& *old(last_key) < k
                &&& !is_due(k, now, delay)
                &&& final(buckets)@ == old(buckets)@
                &&& *final(last_key) == *old(last_key)
            },
            TickOutcome::Dropped => exists|k: u128| {
                &&& #[trigger] is_min_key(old(buckets)@, k)
                &&& k <= *old(last_key)
                &&& final(buckets)@ == old(buckets)@.remove(k)
                &&& *final(last_key) == *old(last_key)
            },
            TickOutcome::Report(v) => exists|k: u128| {
                &&& #[trigger] is_min_key(old(buckets)@, k)
                &&& *old(last_key) < k
                &&& is_due(k, now, delay)
                &&& final(buckets)@ == old(buckets)@.remove(k)
                &&& *final(last_key) == k
                &&& summarizes_bucket(v@, old(buckets)@[k])
            },
            TickOutcome::Overflow => exists|k: u128| {
                &&& #[trigger] is_min_key(old(buckets)@, k)
                &&& *old(last_key) < k
                &&& is_due(k, now, delay)
                &&& final(buckets)@ == old(buckets)@.remove(k)
                &&& *final(last_key) == k
                &&& bucket_overflows(old(buckets)@[k])
            },
        },
{
    let oldest = buckets.last();
    match oldest {
        None => TickOutcome::Empty,
        Some(b) => {
            let ghost k = b.key;
            assert(is_min_key(old(buckets)@, k));
            if b.key <= *last_key {
                let _ = buckets.pop();
                TickOutcome::Dropped
            } else if b.key <= (now - delay as u128 * NANOS_PER_SEC) / NANOS_PER_SEC {
                let popped = buckets.pop();
                match popped {
                    Some(p) => {
                        *last_key = p.key;
                        let values = p.values();
                        assert(is_min_key(old(buckets)@, k));
                        match summarize(&values) {
                            Some(v) => {
                                assert(is_summary(v@, result_views(values@)));
                                TickOutcome::Report(v)
                            },
                            None => {
                                assert(results_map(result_views(values@)) == old(buckets)@[k]);
                                TickOutcome::Overflow
                            },
                        }
                    },
                    None => {
                        assert(false);
                        TickOutcome::Empty
                    },
                }
            } else {
                assert(is_min_key(old(buckets)@, k));
                TickOutcome::Waiting
            }
        },
    }
}


/// An IPv4 header that announces `message` as its payload: the header is as long as
/// its header-length field says (the twenty fixed bytes and any options), and the
/// total length is the header's and the message's.
pub open spec fn ipv4_carrying(header: Seq<u8>, message: Seq<u8>) -> bool {
    &&& header.len() >= 20
    &&& header.len() == (header[0] % 16) as int * 4
    &&& header[2] as int * 256 + header[3] as int == header.len() + message.len()
}

/// The echo reply that a host sends back for an echo request: the same message with the
/// type of a reply and a checksum of its own.
pub open spec fn echoed(request: Seq<u8>, c: u16) -> Seq<u8> {
    with_checksum(request.update(0, ECHO_REPLY), c)
}

/// The packet that carries the echo of the request of the ping loop with sequence
/// number `seq` sent at `ts`, behind `header` and followed by `trailer` (bytes the
/// link may add after the packet).
pub open spec fn echoed_packet(
    ident: u16,
    seq: u16,
    rand: Seq<u8>,
    ts: u128,
    c: u16,
    header: Seq<u8>,
    trailer: Seq<u8>,
) -> Seq<u8> {
    header + echoed(echo_request(ident, seq, timestamped_payload(ts, pattern_payload(seq, rand))), c) + trailer
}

/// A request of the ping loop, echoed back by its target, is read as a reply of the loop
/// with the request's sequence number and send time, and no corruption; its result goes
/// to the bucket of the request.
pub proof fn law_echoed_request_read_back(
    ident: u16,
    seq: u16,
    rand: Seq<u8>,
    ts: u128,
    c: u16,
    header: Seq<u8>,
    trailer: Seq<u8>,
)
    requires
        16 <= rand.len(),
        ipv4_carrying(
            header,
            echoed(echo_request(ident, seq, timestamped_payload(ts, pattern_payload(seq, rand))), c),
        ),
    ensures
        ({
            let buf = echoed_packet(ident, seq, rand, ts, c, header, trailer);
            &&& echo_reply_of(buf) == Some(
                EchoReplyView {
                    source: ipv4_source(header),
                    identifier: ident,
                    sequence: seq,
                    payload: timestamped_payload(ts, pattern_payload(seq, rand)),
                },
            )
            &&& ping_reply_of(echo_reply_of(buf)->0, ident, rand) == Some((ipv4_source(header), seq, ts, false))
            &&& bucket_key(be_value(echo_reply_of(buf)->0.payload.take(16)) as u128) == bucket_key(ts)
        }),
{
    let payload = timestamped_payload(ts, pattern_payload(seq, rand));
    let req = echo_request(ident, seq, payload);
    let unsummed = echo_request_unsummed(ident, seq, payload);
    let msg = echoed(req, c);
    let buf = echoed_packet(ident, seq, rand, ts, c, header, trailer);
    let hl = header.len() as int;
    law_timestamp_bytes_roundtrip(ts);
    assert(unsummed.len() == 8 + payload.len());
    assert(msg.len() == unsummed.len());
    assert(buf[0] == header[0] && buf[2] == header[2] && buf[3] == header[3]);
    assert(buf.subrange(hl, hl + msg.len()) =~= msg);
    assert(crate::packet::ipv4_payload(buf) =~= msg);
    assert(msg[4] == unsummed[4] && msg[5] == unsummed[5] && msg[6] == unsummed[6] && msg[7] == unsummed[7]);
    assert(msg.skip(8) =~= payload);
    assert(buf[12] == header[12] && buf[13] == header[13] && buf[14] == header[14] && buf[15] == header[15]);
    assert(payload.take(16) =~= u128_bytes(ts));
    assert(payload.skip(16) =~= pattern_payload(seq, rand).skip(16));
}

/// The echo of a request of the ping loop completes the request: filed under the
/// request's bucket and target, the reply takes the request's send time (or the send
/// time recorded after it, `txts`) and the latency from then to its receipt, is
/// received and not corrupted.
pub proof fn law_echo_completes_request(
    m: Map<u128, BucketView>,
    ident: u16,
    seq: u16,
    rand: Seq<u8>,
    ts: u128,
    txts: u128,
    rxts: u128,
    c: u16,
    header: Seq<u8>,
    trailer: Seq<u8>,
    target: Seq<char>,
)
    requires
        16 <= rand.len(),
        ipv4_carrying(
            header,
            echoed(echo_request(ident, seq, timestamped_payload(ts, pattern_payload(seq, rand))), c),
        ),
        txts <= rxts,
    ensures
        ({
            let buf = echoed_packet(ident, seq, rand, ts, c, header, trailer);
            let stamp = ping_reply_of(echo_reply_of(buf)->0, ident, rand)->0;
            let request = ResultView {
                txts: ts,
                rxts: 0,
                seq,
                target,
                latency: 0,
                received: false,
                bitflip: false,
            };
            let reply = ResultView {
                txts: stamp.2,
                rxts,
                seq: stamp.1,
                target,
                latency: 0,
                received: true,
                bitflip: stamp.3,
            };
            let key = bucket_key(ts);
            let reply_key = bucket_key(stamp.2);
            let m1 = m.insert(key, bucket_at(m, key).insert(result_key(request), request));
            let m2 = m1.insert(key, with_txts(m1[key], result_key(request), txts));
            let m3 = m2.insert(
                reply_key,
                bucket_at(m2, reply_key).insert(result_key(reply), merged_reply(bucket_at(m2, reply_key), reply)),
            );
            &&& reply_key == key
            &&& result_key(reply) == result_key(request)
            &&& reply_in_order(bucket_at(m2, reply_key), reply)
            &&& m3[key][result_key(request)] == (ResultView {
                txts,
                rxts,
                seq,
                target,
                latency: (rxts - txts) as u128,
                received: true,
                bitflip: false,
            })
        }),
{
    law_echoed_request_read_back(ident, seq, rand, ts, c, header, trailer);
    let buf = echoed_packet(ident, seq, rand, ts, c, header, trailer);
    let stamp = ping_reply_of(echo_reply_of(buf)->0, ident, rand)->0;
    assert(stamp == (ipv4_source(header), seq, ts, false));
    let request = ResultView { txts: ts, rxts: 0, seq, target, latency: 0, received: false, bitflip: false };
    let reply = ResultView { txts: ts, rxts, seq, target, latency: 0, received: true, bitflip: false };
    law_reply_follows_updated_request(m, bucket_key(ts), request, txts, reply);
}


/// The bucket of a send time is its whole number of seconds: the second that holds it.
pub proof fn law_bucket_is_send_second(ts: u128)
    ensures
        bucket_key(ts) * 1_000_000_000 <= ts < (bucket_key(ts) + 1) * 1_000_000_000,
{
    vstd::arithmetic::div_mod::lemma_fundamental_div_mod(ts as int, 1_000_000_000);
    vstd::arithmetic::div_mod::lemma_mod_bound(ts as int, 1_000_000_000);
}


/// Byte `i` of what the ping loop sends after the timestamp for sequence number `seq`:
/// the random byte, 0, 1 or 0x5A, by the sequence number modulo 4.
pub open spec fn sent_byte(seq: u16, rand: Seq<u8>, i: int) -> u8 {
    if seq % 4 == 0 {
        rand[i]
    } else if seq % 4 == 1 {
        0u8
    } else if seq % 4 == 2 {
        1u8
    } else {
        0x5Au8
    }
}

/// A reply of the loop is flagged as corrupted exactly when its payload after the
/// timestamp differs from what was sent: another length, or some byte at position 16 or
/// later that is not the byte sent there.
pub proof fn law_bitflip_is_corruption(e: EchoReplyView, ident: u16, rand: Seq<u8>)
    requires
        e.identifier == ident,
        16 <= rand.len(),
        16 <= e.payload.len(),
    ensures
        ping_reply_of(e, ident, rand) matches Some(t) && (t.3 <==> (e.payload.len() != rand.len() || exists|i: int|
            16 <= i < e.payload.len() && e.payload[i] != sent_byte(e.sequence, rand, i))),
{
    let pat = pattern_payload(e.sequence, rand);
    assert(pat.len() == rand.len());
    if e.payload.len() == rand.len() {
        if pat.skip(16) != e.payload.skip(16) {
            assert(!(pat.skip(16) =~= e.payload.skip(16)));
            let j = choose|j: int| 0 <= j < pat.skip(16).len() && pat.skip(16)[j] != e.payload.skip(16)[j];
            assert(e.payload[j + 16] != sent_byte(e.sequence, rand, j + 16));
        } else {
            assert forall|i: int| 16 <= i < e.payload.len() implies e.payload[i] == sent_byte(e.sequence, rand, i) by {
                assert(pat.skip(16)[i - 16] == e.payload.skip(16)[i - 16]);
            }
        }
    } else {
        assert(pat.skip(16).len() != e.payload.skip(16).len());
    }
}

/// `ping_once` takes the reply to its own request, from its target, and flags it as
/// corrupted exactly when its payload differs from what was sent: another length, or
/// a byte at any position that is not the byte sent there.
pub proof fn law_once_bitflip_is_corruption(e: EchoReplyView, ident: u16, seq: u16, target: u32, expected: Seq<u8>)
    requires
        e.identifier == ident,
        e.sequence == seq,
        e.source == target,
    ensures
        once_reply_of(e, ident, seq, target, expected) matches Some(b) && (b <==> (e.payload.len() != expected.len()
            || exists|i: int| 0 <= i < expected.len() && e.payload[i] != expected[i])),
{
    if e.payload.len() == expected.len() {
        if expected != e.payload {
            assert(!(expected =~= e.payload));
        } else {
            assert forall|i: int| 0 <= i < expected.len() implies e.payload[i] == expected[i] by {}
        }
    }
}

} // verus!
