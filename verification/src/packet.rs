use vstd::prelude::*;

verus! {

/// ICMP type of an echo request.
pub const ECHO_REQUEST: u8 = 8u8;

/// ICMP type of an echo reply.
pub const ECHO_REPLY: u8 = 0u8;

/// 256 to the `n`.
pub open spec fn pow256(n: nat) -> nat
    decreases n,
{
    if n == 0 {
        1
    } else {
        256 * pow256((n - 1) as nat)
    }
}

/// The `n` low bytes of `x`, most significant first.
pub open spec fn be_bytes(x: nat, n: nat) -> Seq<u8>
    decreases n,
{
    if n == 0 {
        Seq::empty()
    } else {
        be_bytes(x / 256, (n - 1) as nat).push((x % 256) as u8)
    }
}

/// The number that `s` writes, most significant byte first.
pub open spec fn be_value(s: Seq<u8>) -> nat
    decreases s.len(),
{
    if s.len() == 0 {
        0
    } else {
        be_value(s.drop_last()) * 256 + s.last() as nat
    }
}

/// The two bytes of `x`, most significant first.
pub open spec fn u16_bytes(x: u16) -> Seq<u8> {
    seq![(x / 256) as u8, (x % 256) as u8]
}

/// The 16-bit number that bytes `a` and `b` write, most significant first.
pub open spec fn u16_of(a: u8, b: u8) -> u16 {
    (a as nat * 256 + b as nat) as u16
}

/// The sixteen bytes of a timestamp, most significant first.
pub open spec fn u128_bytes(x: u128) -> Seq<u8> {
    be_bytes(x as nat, 16)
}

/// 256 to the `n` is positive.
pub proof fn lemma_pow256_positive(n: nat)
    ensures
        pow256(n) > 0,
    decreases n,
{
    if n > 0 {
        lemma_pow256_positive((n - 1) as nat);
    }
}

/// `be_bytes` writes `n` bytes.
pub proof fn lemma_be_bytes_len(x: nat, n: nat)
    ensures
        be_bytes(x, n).len() == n,
    decreases n,
{
    if n > 0 {
        lemma_be_bytes_len(x / 256, (n - 1) as nat);
    }
}

/// Reading back the `n` low bytes of `x` gives `x` modulo 256 to the `n`.
pub proof fn lemma_be_value_of_bytes(x: nat, n: nat)
    ensures
        be_value(be_bytes(x, n)) == x % pow256(n),
    decreases n,
{
    if n == 0 {
    } else {
        let rest = be_bytes(x / 256, (n - 1) as nat);
        lemma_be_value_of_bytes(x / 256, (n - 1) as nat);
        assert(be_bytes(x, n).drop_last() =~= rest);
        lemma_pow256_positive((n - 1) as nat);
        vstd::arithmetic::div_mod::lemma_mod_breakdown(x as int, 256, pow256((n - 1) as nat) as int);
    }
}

/// A value written in `n` bytes is less than 256 to the `n`.
pub proof fn lemma_be_value_bound(s: Seq<u8>)
    ensures
        be_value(s) < pow256(s.len()),
    decreases s.len(),
{
    if s.len() > 0 {
        lemma_be_value_bound(s.drop_last());
    }
}

/// 256 to the 16 is 2 to the 128.
pub proof fn lemma_pow256_16()
    ensures
        pow256(16) == u128::MAX as nat + 1,
{
    reveal_with_fuel(pow256, 17);
    assert(pow256(16) == 0x1_0000_0000_0000_0000_0000_0000_0000_0000);
}

/// A timestamp read back from its sixteen bytes is the timestamp.
pub proof fn law_timestamp_bytes_roundtrip(x: u128)
    ensures
        u128_bytes(x).len() == 16,
        be_value(u128_bytes(x)) == x,
{
    lemma_be_bytes_len(x as nat, 16);
    lemma_be_value_of_bytes(x as nat, 16);
    lemma_pow256_16();
    vstd::arithmetic::div_mod::lemma_small_mod(x as nat, pow256(16));
}

fn be_bytes_of(x: u128, n: usize) -> (v: Vec<u8>)
    ensures
        v@ == be_bytes(x as nat, n as nat),
    decreases n,
{
    if n == 0 {
        Vec::new()
    } else {
        let mut v = be_bytes_of(x / 256, n - 1);
        v.push((x % 256) as u8);
        proof {
            assert(v@ =~= be_bytes(x as nat, n as nat));
        }
        v
    }
}

/// The sixteen bytes of a timestamp, most significant first.
pub fn timestamp_bytes(ts: u128) -> (v: Vec<u8>)
    ensures
        v@ == u128_bytes(ts),
        v@.len() == 16,
{
    proof {
        lemma_be_bytes_len(ts as nat, 16);
    }
    be_bytes_of(ts, 16)
}

/// The timestamp that the first sixteen bytes of `bytes` write, most significant first.
pub fn timestamp_of(bytes: &[u8]) -> (ts: u128)
    requires
        bytes@.len() >= 16,
    ensures
        ts == be_value(bytes@.take(16)),
{
    let mut acc: u128 = 0;
    let mut j: usize = 0;
    while j < 16
        invariant
            j <= 16,
            bytes@.len() >= 16,
            acc == be_value(bytes@.take(j as int)),
        decreases 16 - j,
    {
        proof {
            lemma_be_value_bound(bytes@.take(j as int));
            assert(bytes@.take(j + 1).drop_last() =~= bytes@.take(j as int));
            lemma_pow256_16();
            assert(pow256(j as nat) * 256 <= pow256(16)) by {
                lemma_pow256_mono(j as nat + 1, 16);
            }
        }
        acc = acc * 256 + bytes[j] as u128;
        j = j + 1;
    }
    acc
}

/// 256 to a power grows with the power.
pub proof fn lemma_pow256_mono(a: nat, b: nat)
    requires
        a <= b,
    ensures
        pow256(a) <= pow256(b),
    decreases b,
{
    if a < b {
        lemma_pow256_mono(a, (b - 1) as nat);
        lemma_pow256_positive((b - 1) as nat);
    }
}


/// `n` copies of byte `b`.
pub open spec fn filled(b: u8, n: nat) -> Seq<u8> {
    Seq::new(n, |i: int| b)
}

/// The payload of the packet with sequence number `seq`: the requests cycle through
/// the random payload, all zeros, all ones and all 0x5A, each as long as the random one.
pub open spec fn pattern_payload(seq: u16, rand: Seq<u8>) -> Seq<u8> {
    if seq % 4 == 0 {
        rand
    } else if seq % 4 == 1 {
        filled(0u8, rand.len())
    } else if seq % 4 == 2 {
        filled(1u8, rand.len())
    } else {
        filled(0x5Au8, rand.len())
    }
}

/// The payload that the ping loop sends: the send time in its first sixteen bytes, the
/// rest of the pattern after them.
pub open spec fn timestamped_payload(ts: u128, payload: Seq<u8>) -> Seq<u8> {
    u128_bytes(ts) + payload.skip(16)
}

/// An echo request before its checksum is set.
pub open spec fn echo_request_unsummed(ident: u16, seq: u16, payload: Seq<u8>) -> Seq<u8> {
    seq![ECHO_REQUEST, 0u8, 0u8, 0u8] + u16_bytes(ident) + u16_bytes(seq) + payload
}

/// `packet` with checksum `c` in its checksum field.
pub open spec fn with_checksum(packet: Seq<u8>, c: u16) -> Seq<u8> {
    packet.update(2, (c / 256) as u8).update(3, (c % 256) as u8)
}

/// An echo request with its checksum set.
pub open spec fn echo_request(ident: u16, seq: u16, payload: Seq<u8>) -> Seq<u8> {
    let p = echo_request_unsummed(ident, seq, payload);
    with_checksum(p, packet_checksum(p))
}

/// The sum of the first `n` big-endian 16-bit words of `b`, word `skip` left out.
pub open spec fn word_sum(b: Seq<u8>, n: nat, skip: nat) -> nat
    decreases n,
{
    if n == 0 {
        0
    } else {
        let i = (n - 1) as nat;
        word_sum(b, i, skip) + (if i == skip { 0 } else { b[2 * i as int] as nat * 256 + b[2 * i as int + 1] as nat })
    }
}

/// The sum of the big-endian 16-bit words of `b`, word `skip` left out; a last odd
/// byte counts as the high byte of a word.
pub open spec fn be_word_sum(b: Seq<u8>, skip: nat) -> nat {
    word_sum(b, b.len() / 2, skip) + (if b.len() % 2 == 1 && b.len() / 2 != skip {
        b[b.len() - 1] as nat * 256
    } else {
        0
    })
}

/// `s` with its carries above sixteen bits added back in, until none is left.
pub open spec fn fold_carries(s: nat) -> nat
    decreases s,
{
    if s < 0x10000 {
        s
    } else {
        fold_carries(s / 0x10000 + s % 0x10000)
    }
}

/// The ICMP checksum: the ones' complement of the ones'-complement sum of the packet's
/// 16-bit words, the checksum word (word 1) left out; zero for an empty packet.
pub open spec fn packet_checksum(packet: Seq<u8>) -> u16 {
    if packet.len() == 0 {
        0
    } else {
        (0xFFFF - fold_carries(be_word_sum(packet, 1))) as u16
    }
}

/// `pnet_packet::icmp::checksum`: the checksum of an ICMP packet of at least four bytes
/// (`pnet_packet` needs the four header bytes to view the bytes as a packet): the
/// big-endian words, word 1 skipped and an odd last byte padded, summed in 32 bits,
/// the carries folded back in and the result complemented. The sum must fit the
/// crate's 32 bits, which it adds up without a check.
#[verifier::external_body]
fn checksum_of(packet: &[u8]) -> (c: u16)
    requires
        4 <= packet@.len(),
        be_word_sum(packet@, 1) <= u32::MAX,
    ensures
        c == packet_checksum(packet@),
{
    let p = pnet_packet::icmp::IcmpPacket::new(packet).unwrap();
    pnet_packet::icmp::checksum(&p)
}

/// Partial word sums grow with the number of words.
proof fn lemma_word_sum_mono(b: Seq<u8>, m: nat, n: nat, skip: nat)
    requires
        m <= n,
    ensures
        word_sum(b, m, skip) <= word_sum(b, n, skip),
    decreases n,
{
    if m < n {
        lemma_word_sum_mono(b, m, (n - 1) as nat, skip);
    }
}

/// Whether the word sum of the checksum of `packet` fits in 32 bits: the condition
/// under which its checksum can be computed.
pub fn checksum_fits(packet: &[u8]) -> (ok: bool)
    ensures
        ok == (be_word_sum(packet@, 1) <= u32::MAX),
{
    let n = packet.len() / 2;
    let mut acc: u64 = 0;
    let mut i: usize = 0;
    while i < n
        invariant
            n == packet@.len() / 2,
            2 * n <= packet@.len() <= usize::MAX,
            i <= n,
            acc == word_sum(packet@, i as nat, 1),
            acc <= u32::MAX,
        decreases n - i,
    {
        if i != 1 {
            acc = acc + packet[2 * i] as u64 * 256 + packet[2 * i + 1] as u64;
        }
        i = i + 1;
        if acc > 0xFFFF_FFFF {
            proof {
                lemma_word_sum_mono(packet@, i as nat, n as nat, 1);
            }
            return false;
        }
    }
    if packet.len() % 2 == 1 && n != 1 {
        acc = acc + packet[packet.len() - 1] as u64 * 256;
    }
    acc <= 0xFFFF_FFFF
}

/// `n` copies of byte `b`.
pub fn filled_bytes(b: u8, n: usize) -> (v: Vec<u8>)
    ensures
        v@ == filled(b, n as nat),
{
    let mut v: Vec<u8> = Vec::new();
    let mut i: usize = 0;
    while i < n
        invariant
            i <= n,
            v@ == filled(b, i as nat),
        decreases n - i,
    {
        v.push(b);
        i = i + 1;
        proof {
            assert(v@ =~= filled(b, i as nat));
        }
    }
    v
}

/// A copy of `s`.
pub fn copy_bytes(s: &[u8]) -> (v: Vec<u8>)
    ensures
        v@ == s@,
{
    let mut v: Vec<u8> = Vec::new();
    let mut i: usize = 0;
    while i < s.len()
        invariant
            i <= s@.len(),
            v@ == s@.take(i as int),
        decreases s.len() - i,
    {
        v.push(s[i]);
        i = i + 1;
        proof {
            assert(v@ =~= s@.take(i as int));
        }
    }
    proof {
        assert(s@.take(i as int) =~= s@);
    }
    v
}

/// The payload of the packet with sequence number `seq`, out of the four patterns.
pub fn payload_for(seq: u16, rand_payload: &[u8]) -> (v: Vec<u8>)
    ensures
        v@ == pattern_payload(seq, rand_payload@),
{
    let m = seq % 4;
    if m == 0 {
        copy_bytes(rand_payload)
    } else if m == 1 {
        filled_bytes(0u8, rand_payload.len())
    } else if m == 2 {
        filled_bytes(1u8, rand_payload.len())
    } else {
        filled_bytes(0x5Au8, rand_payload.len())
    }
}

/// The payload that the ping loop sends: `payload` with its first sixteen bytes replaced
/// by the send time.
pub fn timestamped(ts: u128, payload: &[u8]) -> (v: Vec<u8>)
    requires
        payload@.len() >= 16,
    ensures
        v@ == timestamped_payload(ts, payload@),
        v@.len() == payload@.len(),
{
    let mut v = timestamp_bytes(ts);
    let mut i: usize = 16;
    while i < payload.len()
        invariant
            16 <= i <= payload@.len(),
            v@ == u128_bytes(ts) + payload@.subrange(16, i as int),
        decreases payload.len() - i,
    {
        v.push(payload[i]);
        i = i + 1;
        proof {
            assert(v@ =~= u128_bytes(ts) + payload@.subrange(16, i as int));
        }
    }
    proof {
        assert(payload@.subrange(16, i as int) =~= payload@.skip(16));
    }
    v
}

/// An echo request before its checksum is set: the header with a zero checksum, then
/// the payload.
pub fn echo_request_body(ident: u16, seq: u16, payload: &[u8]) -> (v: Vec<u8>)
    ensures
        v@ == echo_request_unsummed(ident, seq, payload@),
{
    let mut v: Vec<u8> = Vec::new();
    v.push(ECHO_REQUEST);
    v.push(0u8);
    v.push(0u8);
    v.push(0u8);
    v.push((ident / 256) as u8);
    v.push((ident % 256) as u8);
    v.push((seq / 256) as u8);
    v.push((seq % 256) as u8);
    let mut i: usize = 0;
    while i < payload.len()
        invariant
            i <= payload@.len(),
            v@ == echo_request_unsummed(ident, seq, payload@.take(i as int)),
        decreases payload.len() - i,
    {
        v.push(payload[i]);
        i = i + 1;
        proof {
            assert(v@ =~= echo_request_unsummed(ident, seq, payload@.take(i as int)));
        }
    }
    proof {
        assert(payload@.take(i as int) =~= payload@);
    }
    v
}

/// Put checksum `c` in the checksum field of `packet`.
pub fn set_checksum(packet: &mut Vec<u8>, c: u16)
    requires
        old(packet)@.len() >= 4,
    ensures
        final(packet)@ == with_checksum(old(packet)@, c),
{
    packet.set(2, (c / 256) as u8);
    packet.set(3, (c % 256) as u8);
}

/// Build an echo request with identifier `ident`, sequence number `seq` and `payload`,
/// its checksum computed by `pnet_packet`.
pub fn build_echo_request(ident: u16, seq: u16, payload: &[u8]) -> (v: Vec<u8>)
    requires
        be_word_sum(echo_request_unsummed(ident, seq, payload@), 1) <= u32::MAX,
    ensures
        v@ == echo_request(ident, seq, payload@),
{
    let mut v = echo_request_body(ident, seq, payload);
    let c = checksum_of(v.as_slice());
    set_checksum(&mut v, c);
    v
}


/// The length of the IPv4 header of `buf`, as its header-length field gives it.
pub open spec fn ipv4_header_len(buf: Seq<u8>) -> int {
    (buf[0] % 16) as int * 4
}

/// The total length of the IPv4 packet `buf`, as its total-length field gives it.
pub open spec fn ipv4_total_len(buf: Seq<u8>) -> int {
    buf[2] as int * 256 + buf[3] as int
}

/// Where the payload of the IPv4 packet `buf` starts: after the twenty fixed header
/// bytes and the options, if the header length announces any.
pub open spec fn ipv4_payload_start(buf: Seq<u8>) -> int {
    if ipv4_header_len(buf) < 20 {
        20
    } else {
        ipv4_header_len(buf)
    }
}

/// Where the payload of the IPv4 packet `buf` ends: after the length that the total
/// length leaves to it, or at the end of the buffer.
pub open spec fn ipv4_payload_end(buf: Seq<u8>) -> int {
    let plen = if ipv4_total_len(buf) > ipv4_header_len(buf) {
        ipv4_total_len(buf) - ipv4_header_len(buf)
    } else {
        0
    };
    if ipv4_payload_start(buf) + plen < buf.len() {
        ipv4_payload_start(buf) + plen
    } else {
        buf.len() as int
    }
}

/// The payload of the IPv4 packet `buf`.
pub open spec fn ipv4_payload(buf: Seq<u8>) -> Seq<u8> {
    if buf.len() <= ipv4_payload_start(buf) {
        Seq::empty()
    } else {
        buf.subrange(ipv4_payload_start(buf), ipv4_payload_end(buf))
    }
}

/// The source address of the IPv4 packet `buf`, its four bytes most significant first.
pub open spec fn ipv4_source(buf: Seq<u8>) -> u32 {
    (buf[12] as nat * 0x100_0000 + buf[13] as nat * 0x1_0000 + buf[14] as nat * 0x100 + buf[15] as nat) as u32
}

/// An ICMP echo reply read from an IPv4 packet.
pub struct EchoReply {
    /// The source address of the IPv4 packet.
    pub source: u32,
    /// The identifier of the echo.
    pub identifier: u16,
    /// The sequence number of the echo.
    pub sequence: u16,
    /// The payload of the echo.
    pub payload: Vec<u8>,
}

/// What an `EchoReply` holds.
pub struct EchoReplyView {
    pub source: u32,
    pub identifier: u16,
    pub sequence: u16,
    pub payload: Seq<u8>,
}

impl View for EchoReply {
    type V = EchoReplyView;

    open spec fn view(&self) -> EchoReplyView {
        EchoReplyView {
            source: self.source,
            identifier: self.identifier,
            sequence: self.sequence,
            payload: self.payload@,
        }
    }
}

/// The IPv4 packet `buf` can be read as an ICMP packet: it holds the fixed IPv4
/// header and its payload holds the ICMP type, code and checksum.
pub open spec fn message_readable(buf: Seq<u8>) -> bool {
    buf.len() >= 20 && ipv4_payload(buf).len() >= 4
}

/// The echo reply that the IPv4 packet `buf` carries: its ICMP message has the type
/// of an echo reply, code zero and a full echo header.
pub open spec fn echo_reply_of(buf: Seq<u8>) -> Option<EchoReplyView> {
    let msg = ipv4_payload(buf);
    if msg[0] == ECHO_REPLY && msg[1] == 0 && msg.len() >= 8 {
        Some(
            EchoReplyView {
                source: ipv4_source(buf),
                identifier: u16_of(msg[4], msg[5]),
                sequence: u16_of(msg[6], msg[7]),
                payload: msg.skip(8),
            },
        )
    } else {
        None
    }
}

/// The payload of the IPv4 packet `buf`.
pub fn ipv4_payload_of(buf: &[u8]) -> (v: Vec<u8>)
    requires
        buf@.len() >= 20,
    ensures
        v@ == ipv4_payload(buf@),
{
    let hl: usize = (buf[0] % 16) as usize * 4;
    let start: usize = if hl < 20 { 20 } else { hl };
    let total: usize = buf[2] as usize * 256 + buf[3] as usize;
    let plen: usize = if total > hl { total - hl } else { 0 };
    let end: usize = if start + plen < buf.len() { start + plen } else { buf.len() };
    let mut v: Vec<u8> = Vec::new();
    if buf.len() <= start {
        proof {
            assert(v@ =~= ipv4_payload(buf@));
        }
        return v;
    }
    let mut i: usize = start;
    while i < end
        invariant
            start <= i <= end <= buf@.len(),
            v@ == buf@.subrange(start as int, i as int),
        decreases end - i,
    {
        v.push(buf[i]);
        i = i + 1;
        proof {
            assert(v@ =~= buf@.subrange(start as int, i as int));
        }
    }
    v
}

/// Read the ICMP echo reply that the IPv4 packet `buf` carries, if it carries one.
pub fn parse_echo_reply(buf: &[u8]) -> (r: Option<EchoReply>)
    requires
        message_readable(buf@),
    ensures
        match r {
            Some(e) => echo_reply_of(buf@) == Some(e@),
            None => echo_reply_of(buf@) is None,
        },
{
    let msg = ipv4_payload_of(buf);
    if msg[0] == ECHO_REPLY && msg[1] == 0 && msg.len() >= 8 {
        let source: u32 = buf[12] as u32 * 0x100_0000 + buf[13] as u32 * 0x1_0000 + buf[14] as u32 * 0x100
            + buf[15] as u32;
        let identifier: u16 = msg[4] as u16 * 256 + msg[5] as u16;
        let sequence: u16 = msg[6] as u16 * 256 + msg[7] as u16;
        let mut payload: Vec<u8> = Vec::new();
        let mut i: usize = 8;
        while i < msg.len()
            invariant
                8 <= i <= msg@.len(),
                payload@ == msg@.subrange(8, i as int),
            decreases msg.len() - i,
        {
            payload.push(msg[i]);
            i = i + 1;
            proof {
                assert(payload@ =~= msg@.subrange(8, i as int));
            }
        }
        proof {
            assert(payload@ =~= msg@.skip(8));
        }
        Some(EchoReply { source, identifier, sequence, payload })
    } else {
        None
    }
}


/// The two bytes of a 16-bit number read back give the number.
pub proof fn law_u16_roundtrip(x: u16)
    ensures
        u16_of(u16_bytes(x)[0], u16_bytes(x)[1]) == x,
{
}

/// The payload patterns repeat every four sequence numbers, and each is as long as the
/// random payload.
pub proof fn law_pattern_period(seq: u16, rand: Seq<u8>)
    requires
        seq + 4 <= u16::MAX,
    ensures
        pattern_payload((seq + 4) as u16, rand) == pattern_payload(seq, rand),
        pattern_payload(seq, rand).len() == rand.len(),
{
}


/// The ones'-complement sum of all 16-bit words of `b`, an odd last byte padded:
/// their sum with the carries folded back in.
pub open spec fn ones_complement_sum(b: Seq<u8>) -> nat {
    fold_carries(be_word_sum(b, b.len()))
}

/// Folding the carries keeps a number modulo 0xFFFF and leaves it in sixteen bits,
/// zero only for zero.
proof fn lemma_fold_carries(x: nat)
    ensures
        fold_carries(x) <= 0xFFFF,
        x == 0 ==> fold_carries(x) == 0,
        x > 0 ==> fold_carries(x) >= 1,
        fold_carries(x) % 0xFFFF == x % 0xFFFF,
    decreases x,
{
    if x >= 0x10000 {
        let q = x / 0x10000;
        let r = x % 0x10000;
        vstd::arithmetic::div_mod::lemma_fundamental_div_mod(x as int, 0x10000);
        assert(q >= 1);
        assert(x == 0xFFFF * q + (q + r));
        vstd::arithmetic::div_mod::lemma_mod_multiples_vanish(q as int, (q + r) as int, 0xFFFF);
        lemma_fold_carries(q + r);
    }
}

/// Word by word, a packet with checksum `c` in its checksum field sums to the checksum's
/// sum of the packet with a zero field, plus `c`.
proof fn lemma_word_sum_with_checksum(p: Seq<u8>, c: u16, n: nat)
    requires
        p.len() >= 8,
        p[2] == 0,
        p[3] == 0,
        n <= p.len() / 2,
    ensures
        word_sum(with_checksum(p, c), n, p.len()) == word_sum(p, n, 1) + (if n >= 2 { c as nat } else { 0 }),
    decreases n,
{
    let v = with_checksum(p, c);
    if n > 0 {
        let i = (n - 1) as nat;
        lemma_word_sum_with_checksum(p, c, i);
        if i == 1 {
            assert(v[2] as nat * 256 + v[3] as nat == c as nat);
        } else {
            assert(2 * i != 2 && 2 * i != 3 && 2 * i + 1 != 2 && 2 * i + 1 != 3);
            assert(v[2 * i as int] == p[2 * i as int] && v[2 * i as int + 1] == p[2 * i as int + 1]);
        }
    }
}

/// A request built with its checksum verifies: the ones'-complement sum of all its
/// 16-bit words, the checksum word and every payload byte included, is 0xFFFF, and its
/// checksum field holds the checksum of the whole packet with that field zeroed.
pub proof fn law_request_checksum_verifies(ident: u16, seq: u16, payload: Seq<u8>)
    ensures
        ({
            let v = echo_request(ident, seq, payload);
            &&& ones_complement_sum(v) == 0xFFFF
            &&& u16_of(v[2], v[3]) == packet_checksum(v.update(2, 0u8).update(3, 0u8))
        }),
{
    let p = echo_request_unsummed(ident, seq, payload);
    let sum = be_word_sum(p, 1);
    lemma_fold_carries(sum);
    let f = fold_carries(sum);
    let c = packet_checksum(p);
    assert(p.len() == 8 + payload.len());
    assert(c as nat == 0xFFFF - f);
    let v = with_checksum(p, c);
    assert(v == echo_request(ident, seq, payload));
    lemma_word_sum_with_checksum(p, c, p.len() / 2);
    let total = be_word_sum(v, v.len());
    assert(v.len() == p.len());
    assert(v[v.len() - 1] == p[p.len() - 1]);
    assert(total == sum + c);
    lemma_fold_carries(total);
    if sum == 0 {
        assert(total == 0xFFFF);
    } else {
        assert(total % 0xFFFF == 0) by {
            vstd::arithmetic::div_mod::lemma_fundamental_div_mod(sum as int, 0xFFFF);
            vstd::arithmetic::div_mod::lemma_fundamental_div_mod(f as int, 0xFFFF);
            vstd::arithmetic::div_mod::lemma_mod_multiples_vanish((sum / 0xFFFF - f / 0xFFFF + 1) as int, 0, 0xFFFF);
            assert(total == 0xFFFF * (sum / 0xFFFF - f / 0xFFFF + 1) + 0);
        }
    }
    assert(v.update(2, 0u8).update(3, 0u8) =~= p);
}

} // verus!
