use vstd::prelude::*;
use crate::stat::{result_views, Result, ResultView};

verus! {

/// `a` comes before `b` in the byte-wise lexicographic order, the order of `String`.
pub open spec fn bytes_lt(a: Seq<u8>, b: Seq<u8>) -> bool
    decreases a.len(),
{
    if b.len() == 0 {
        false
    } else if a.len() == 0 {
        true
    } else if a[0] != b[0] {
        a[0] < b[0]
    } else {
        bytes_lt(a.drop_first(), b.drop_first())
    }
}

/// The bytes of a target, UTF-8 encoded.
pub open spec fn target_bytes(t: Seq<char>) -> Seq<u8> {
    vstd::utf8::encode_utf8(t)
}

/// `t1` orders before `t2` as strings do.
pub open spec fn target_lt(t1: Seq<char>, t2: Seq<char>) -> bool {
    bytes_lt(target_bytes(t1), target_bytes(t2))
}

/// No byte sequence comes before itself.
pub proof fn lemma_bytes_lt_irreflexive(a: Seq<u8>)
    ensures
        !bytes_lt(a, a),
    decreases a.len(),
{
    if a.len() > 0 {
        lemma_bytes_lt_irreflexive(a.drop_first());
    }
}

/// The byte order is transitive.
pub proof fn lemma_bytes_lt_transitive(a: Seq<u8>, b: Seq<u8>, c: Seq<u8>)
    requires
        bytes_lt(a, b),
        bytes_lt(b, c),
    ensures
        bytes_lt(a, c),
    decreases a.len(),
{
    if a.len() > 0 && b.len() > 0 && c.len() > 0 && a[0] == b[0] && b[0] == c[0] {
        lemma_bytes_lt_transitive(a.drop_first(), b.drop_first(), c.drop_first());
    }
}

/// Of two different byte sequences, one comes before the other.
pub proof fn lemma_bytes_lt_total(a: Seq<u8>, b: Seq<u8>)
    requires
        a != b,
    ensures
        bytes_lt(a, b) || bytes_lt(b, a),
    decreases a.len(),
{
    if a.len() > 0 && b.len() > 0 && a[0] == b[0] {
        if a.drop_first() == b.drop_first() {
            assert(a =~= seq![a[0]] + a.drop_first());
            assert(b =~= seq![b[0]] + b.drop_first());
        }
        lemma_bytes_lt_total(a.drop_first(), b.drop_first());
    } else if a.len() == 0 && b.len() == 0 {
        assert(a =~= b);
    }
}

/// Different targets have different bytes.
pub proof fn lemma_target_bytes_injective(t1: Seq<char>, t2: Seq<char>)
    requires
        target_bytes(t1) == target_bytes(t2),
    ensures
        t1 == t2,
{
    vstd::utf8::encode_utf8_decode_utf8(t1);
    vstd::utf8::encode_utf8_decode_utf8(t2);
}

/// Compare two byte strings in the order of `String`.
fn slice_lt(a: &[u8], b: &[u8]) -> (lt: bool)
    ensures
        lt == bytes_lt(a@, b@),
{
    let mut k: usize = 0;
    proof {
        assert(a@.skip(0) =~= a@);
        assert(b@.skip(0) =~= b@);
    }
    while k < a.len() && k < b.len() && a[k] == b[k]
        invariant
            k <= a@.len(),
            k <= b@.len(),
            bytes_lt(a@, b@) == bytes_lt(a@.skip(k as int), b@.skip(k as int)),
        decreases a.len() - k,
    {
        proof {
            assert(a@.skip(k as int).drop_first() =~= a@.skip(k + 1));
            assert(b@.skip(k as int).drop_first() =~= b@.skip(k + 1));
        }
        k = k + 1;
    }
    if k == b.len() {
        false
    } else if k == a.len() {
        true
    } else {
        a[k] < b[k]
    }
}

/// Compare two strings in the order of `String`.
fn string_lt(a: &String, b: &String) -> (lt: bool)
    ensures
        lt == target_lt(a@, b@),
{
    slice_lt(a.as_str().as_bytes(), b.as_str().as_bytes())
}

/// What a tally counts.
pub enum Measure {
    /// The latencies.
    Latency,
    /// The received results.
    Received,
    /// The lost results.
    Loss,
    /// The corrupted replies.
    Bitflip,
}

/// What one result adds to a tally of `m`.
pub open spec fn weight(m: Measure, r: ResultView) -> nat {
    match m {
        Measure::Latency => r.latency as nat,
        Measure::Received => if r.received { 1 } else { 0 },
        Measure::Loss => if r.received { 0 } else { 1 },
        Measure::Bitflip => if r.bitflip { 1 } else { 0 },
    }
}

/// The sum of the weights of `m` over the results of `s` for target `t`.
pub open spec fn tally(s: Seq<ResultView>, t: Seq<char>, m: Measure) -> nat
    decreases s.len(),
{
    if s.len() == 0 {
        0
    } else {
        tally(s.drop_last(), t, m) + (if s.last().target == t { weight(m, s.last()) } else { 0 })
    }
}

/// The ping stat result of one target.
#[derive(Debug)]
pub struct TargetResult {
    /// The target of the ping result.
    pub target: String,
    /// The total latency of the ping results.
    pub latency: u128,
    /// The loss count of the ping results.
    pub loss: u32,
    /// The received count of the ping results.
    pub received: u32,
    /// The bitflip count of the ping results.
    pub bitflip_count: u32,
}

/// `e` holds the tallies of the results of `s` for its target.
pub open spec fn summarizes(e: TargetResult, s: Seq<ResultView>) -> bool {
    &&& e.latency == tally(s, e.target@, Measure::Latency)
    &&& e.received == tally(s, e.target@, Measure::Received)
    &&& e.loss == tally(s, e.target@, Measure::Loss)
    &&& e.bitflip_count == tally(s, e.target@, Measure::Bitflip)
}

/// Some result of `s` is for target `t`.
pub open spec fn has_target(s: Seq<ResultView>, t: Seq<char>) -> bool {
    exists|i: int| 0 <= i < s.len() && #[trigger] s[i].target == t
}

/// The tallies of every target of `s` fit their counters.
pub open spec fn tallies_fit(s: Seq<ResultView>) -> bool {
    forall|t: Seq<char>|
        has_target(s, t) ==> {
            &&& #[trigger] tally(s, t, Measure::Latency) <= u128::MAX
            &&& tally(s, t, Measure::Received) <= u32::MAX
            &&& tally(s, t, Measure::Loss) <= u32::MAX
            &&& tally(s, t, Measure::Bitflip) <= u32::MAX
        }
}

/// `v` holds one entry per target of `s`, in the order of the targets, each with the
/// tallies of its target.
pub open spec fn is_summary(v: Seq<TargetResult>, s: Seq<ResultView>) -> bool {
    &&& forall|a: int, b: int| 0 <= a < b < v.len() ==> target_lt(#[trigger] v[a].target@, #[trigger] v[b].target@)
    &&& forall|a: int| 0 <= a < v.len() ==> has_target(s, (#[trigger] v[a]).target@) && summarizes(v[a], s)
    &&& forall|t: Seq<char>| #[trigger] has_target(s, t) ==> exists|a: int| 0 <= a < v.len() && (#[trigger] v[a]).target@ == t
}

/// A tally over a prefix is at most the tally over the whole.
pub proof fn lemma_tally_prefix(s: Seq<ResultView>, n: int, t: Seq<char>, m: Measure)
    requires
        0 <= n <= s.len(),
    ensures
        tally(s.take(n), t, m) <= tally(s, t, m),
    decreases s.len() - n,
{
    if n < s.len() {
        lemma_tally_prefix(s, n + 1, t, m);
        assert(s.take(n + 1).drop_last() =~= s.take(n));
    } else {
        assert(s.take(n) =~= s);
    }
}

/// A target that no result names has a zero tally.
pub proof fn lemma_tally_absent(s: Seq<ResultView>, t: Seq<char>, m: Measure)
    requires
        !has_target(s, t),
    ensures
        tally(s, t, m) == 0,
    decreases s.len(),
{
    if s.len() > 0 {
        assert(s.last() == s[s.len() - 1]);
        assert forall|i: int| 0 <= i < s.drop_last().len() implies #[trigger] s.drop_last()[i].target != t by {
            assert(s.drop_last()[i] == s[i]);
        }
        lemma_tally_absent(s.drop_last(), t, m);
    }
}

/// Collect the ping results of a bucket into one stat result per target, ordered by
/// target. `None` where a tally does not fit its counter.
pub fn summarize(values: &Vec<Result>) -> (out: Option<Vec<TargetResult>>)
    ensures
        match out {
            Some(v) => tallies_fit(result_views(values@)) && is_summary(v@, result_views(values@)),
            None => !tallies_fit(result_views(values@)),
        },
{
    let ghost s = result_views(values@);
    let mut v: Vec<TargetResult> = Vec::new();
    let mut i: usize = 0;
    while i < values.len()
        invariant
            i <= values.len(),
            s == result_views(values@),
            is_summary(v@, s.take(i as int)),
        decreases values.len() - i,
    {
        let r = &values[i];
        let ghost p = s.take(i as int);
        let ghost q = s.take(i + 1);
        proof {
            assert(q =~= p.push(r@));
            assert(p.push(r@).drop_last() =~= p);
        }
        let mut k: usize = 0;
        while k < v.len() && string_lt(&v[k].target, &r.target)
            invariant
                k <= v.len(),
                forall|a: int| 0 <= a < k ==> target_lt(#[trigger] v@[a].target@, r.target@),
            decreases v.len() - k,
        {
            k = k + 1;
        }
        let ghost v0 = v@;
        if k < v.len() && v[k].target == r.target {
            let e = &v[k];
            let latency = match e.latency.checked_add(r.latency) {
                Some(x) => x,
                None => {
                    proof { lemma_overflow_unfit(s, i as int, Measure::Latency); }
                    return None;
                },
            };
            let received = match e.received.checked_add(if r.received { 1 } else { 0 }) {
                Some(x) => x,
                None => {
                    proof { lemma_overflow_unfit(s, i as int, Measure::Received); }
                    return None;
                },
            };
            let loss = match e.loss.checked_add(if r.received { 0 } else { 1 }) {
                Some(x) => x,
                None => {
                    proof { lemma_overflow_unfit(s, i as int, Measure::Loss); }
                    return None;
                },
            };
            let bitflip_count = match e.bitflip_count.checked_add(if r.bitflip { 1 } else { 0 }) {
                Some(x) => x,
                None => {
                    proof { lemma_overflow_unfit(s, i as int, Measure::Bitflip); }
                    return None;
                },
            };
            let ne = TargetResult { target: r.target.clone(), latency, loss, received, bitflip_count };
            v.set(k, ne);
            proof {
                lemma_summary_update(v0, p, r@, k as int, v@);
                assert(is_summary(v@, q));
            }
        } else {
            let ne = TargetResult {
                target: r.target.clone(),
                latency: r.latency,
                loss: if r.received { 0 } else { 1 },
                received: if r.received { 1 } else { 0 },
                bitflip_count: if r.bitflip { 1 } else { 0 },
            };
            v.insert(k, ne);
            proof {
                lemma_summary_insert(v0, p, r@, k as int, v@);
                assert(is_summary(v@, q));
            }
        }
        i = i + 1;
    }
    proof {
        assert(s.take(i as int) =~= s);
        assert forall|t: Seq<char>| has_target(s, t) implies {
            &&& #[trigger] tally(s, t, Measure::Latency) <= u128::MAX
            &&& tally(s, t, Measure::Received) <= u32::MAX
            &&& tally(s, t, Measure::Loss) <= u32::MAX
            &&& tally(s, t, Measure::Bitflip) <= u32::MAX
        } by {
            let a = choose|a: int| 0 <= a < v@.len() && (#[trigger] v@[a]).target@ == t;
            assert(summarizes(v@[a], s));
        }
    }
    Some(v)
}

/// Two different entries of a summary are for different targets.
proof fn lemma_summary_distinct(v: Seq<TargetResult>, s: Seq<ResultView>, a: int, b: int)
    requires
        is_summary(v, s),
        0 <= a < v.len(),
        0 <= b < v.len(),
        a != b,
    ensures
        v[a].target@ != v[b].target@,
{
    if a < b {
        assert(target_lt(v[a].target@, v[b].target@));
        lemma_bytes_lt_irreflexive(target_bytes(v[a].target@));
    } else {
        assert(target_lt(v[b].target@, v[a].target@));
        lemma_bytes_lt_irreflexive(target_bytes(v[b].target@));
    }
}

/// Adding a result for another target leaves a tally unchanged.
proof fn lemma_tally_push_other(p: Seq<ResultView>, r: ResultView, t: Seq<char>, m: Measure)
    requires
        r.target != t,
    ensures
        tally(p.push(r), t, m) == tally(p, t, m),
{
    assert(p.push(r).drop_last() =~= p);
}

/// Adding a result for a target adds its weight to the target's tally.
proof fn lemma_tally_push_same(p: Seq<ResultView>, r: ResultView, m: Measure)
    ensures
        tally(p.push(r), r.target, m) == tally(p, r.target, m) + weight(m, r),
{
    assert(p.push(r).drop_last() =~= p);
}

/// Folding a result into the entry of its target keeps a summary.
proof fn lemma_summary_update(v0: Seq<TargetResult>, p: Seq<ResultView>, r: ResultView, k: int, v1: Seq<TargetResult>)
    requires
        is_summary(v0, p),
        0 <= k < v0.len(),
        v0[k].target@ == r.target,
        v1.len() == v0.len(),
        forall|a: int| 0 <= a < v0.len() && a != k ==> v1[a] == v0[a],
        v1[k].target@ == r.target,
        v1[k].latency == v0[k].latency + weight(Measure::Latency, r),
        v1[k].received == v0[k].received + weight(Measure::Received, r),
        v1[k].loss == v0[k].loss + weight(Measure::Loss, r),
        v1[k].bitflip_count == v0[k].bitflip_count + weight(Measure::Bitflip, r),
    ensures
        is_summary(v1, p.push(r)),
{
    let q = p.push(r);
    assert(q[q.len() - 1] == r);
    assert forall|a: int, b: int| 0 <= a < b < v1.len() implies target_lt(#[trigger] v1[a].target@, #[trigger] v1[b].target@) by {
        assert(target_lt(v0[a].target@, v0[b].target@));
    }
    assert forall|a: int| 0 <= a < v1.len() implies has_target(q, (#[trigger] v1[a]).target@) && summarizes(v1[a], q) by {
        let t = v1[a].target@;
        assert(has_target(p, v0[a].target@));
        let j = choose|j: int| 0 <= j < p.len() && #[trigger] p[j].target == v0[a].target@;
        assert(q[j] == p[j]);
        if a == k {
            lemma_tally_push_same(p, r, Measure::Latency);
            lemma_tally_push_same(p, r, Measure::Received);
            lemma_tally_push_same(p, r, Measure::Loss);
            lemma_tally_push_same(p, r, Measure::Bitflip);
        } else {
            lemma_summary_distinct(v0, p, a, k);
            lemma_tally_push_other(p, r, t, Measure::Latency);
            lemma_tally_push_other(p, r, t, Measure::Received);
            lemma_tally_push_other(p, r, t, Measure::Loss);
            lemma_tally_push_other(p, r, t, Measure::Bitflip);
        }
    }
    assert forall|t: Seq<char>| #[trigger] has_target(q, t) implies exists|a: int| 0 <= a < v1.len() && (#[trigger] v1[a]).target@ == t by {
        let j = choose|j: int| 0 <= j < q.len() && #[trigger] q[j].target == t;
        if j < p.len() {
            assert(q[j] == p[j]);
            assert(has_target(p, t));
            let a = choose|a: int| 0 <= a < v0.len() && (#[trigger] v0[a]).target@ == t;
            if a == k {
                assert(v1[k].target@ == t);
            } else {
                assert(v1[a] == v0[a]);
            }
        } else {
            assert(v1[k].target@ == t);
        }
    }
}

/// Inserting a result for a new target, at the place of its target in the order,
/// keeps a summary.
proof fn lemma_summary_insert(v0: Seq<TargetResult>, p: Seq<ResultView>, r: ResultView, k: int, v1: Seq<TargetResult>)
    requires
        is_summary(v0, p),
        0 <= k <= v0.len(),
        forall|a: int| 0 <= a < k ==> target_lt(#[trigger] v0[a].target@, r.target),
        k < v0.len() ==> !target_lt(v0[k].target@, r.target) && v0[k].target@ != r.target,
        v1.len() == v0.len() + 1,
        forall|a: int| 0 <= a < k ==> v1[a] == v0[a],
        forall|a: int| k < a < v1.len() ==> v1[a] == v0[a - 1],
        v1[k].target@ == r.target,
        v1[k].latency == weight(Measure::Latency, r),
        v1[k].received == weight(Measure::Received, r),
        v1[k].loss == weight(Measure::Loss, r),
        v1[k].bitflip_count == weight(Measure::Bitflip, r),
    ensures
        is_summary(v1, p.push(r)),
{
    let q = p.push(r);
    assert(q[q.len() - 1] == r);
    // r's target comes after the entries before k and before those from k on
    if k < v0.len() {
        if target_bytes(v0[k].target@) == target_bytes(r.target) {
            lemma_target_bytes_injective(v0[k].target@, r.target);
        }
        lemma_bytes_lt_total(target_bytes(v0[k].target@), target_bytes(r.target));
    }
    assert forall|a: int| k <= a < v0.len() implies target_lt(r.target, #[trigger] v0[a].target@) by {
        if a > k {
            assert(target_lt(v0[k].target@, v0[a].target@));
            lemma_bytes_lt_transitive(target_bytes(r.target), target_bytes(v0[k].target@), target_bytes(v0[a].target@));
        }
    }
    assert forall|a: int| 0 <= a < v0.len() implies (#[trigger] v0[a]).target@ != r.target by {
        if a < k {
            assert(target_lt(v0[a].target@, r.target));
            lemma_bytes_lt_irreflexive(target_bytes(r.target));
        } else {
            assert(target_lt(r.target, v0[a].target@));
            lemma_bytes_lt_irreflexive(target_bytes(r.target));
        }
    }
    assert(!has_target(p, r.target)) by {
        if has_target(p, r.target) {
            let a = choose|a: int| 0 <= a < v0.len() && (#[trigger] v0[a]).target@ == r.target;
        }
    }
    lemma_tally_absent(p, r.target, Measure::Latency);
    lemma_tally_absent(p, r.target, Measure::Received);
    lemma_tally_absent(p, r.target, Measure::Loss);
    lemma_tally_absent(p, r.target, Measure::Bitflip);
    assert forall|a: int, b: int| 0 <= a < b < v1.len() implies target_lt(#[trigger] v1[a].target@, #[trigger] v1[b].target@) by {
        if b < k {
            assert(target_lt(v0[a].target@, v0[b].target@));
        } else if b == k {
        } else if a < k {
            assert(target_lt(v0[a].target@, r.target));
            assert(target_lt(r.target, v0[b - 1].target@));
            lemma_bytes_lt_transitive(target_bytes(v0[a].target@), target_bytes(r.target), target_bytes(v0[b - 1].target@));
        } else if a == k {
        } else {
            assert(target_lt(v0[a - 1].target@, v0[b - 1].target@));
        }
    }
    assert forall|a: int| 0 <= a < v1.len() implies has_target(q, (#[trigger] v1[a]).target@) && summarizes(v1[a], q) by {
        if a == k {
            lemma_tally_push_same(p, r, Measure::Latency);
            lemma_tally_push_same(p, r, Measure::Received);
            lemma_tally_push_same(p, r, Measure::Loss);
            lemma_tally_push_same(p, r, Measure::Bitflip);
        } else {
            let a0 = if a < k { a } else { a - 1 };
            assert(v1[a] == v0[a0]);
            let t = v0[a0].target@;
            assert(has_target(p, t));
            let j = choose|j: int| 0 <= j < p.len() && #[trigger] p[j].target == t;
            assert(q[j] == p[j]);
            lemma_tally_push_other(p, r, t, Measure::Latency);
            lemma_tally_push_other(p, r, t, Measure::Received);
            lemma_tally_push_other(p, r, t, Measure::Loss);
            lemma_tally_push_other(p, r, t, Measure::Bitflip);
        }
    }
    assert forall|t: Seq<char>| #[trigger] has_target(q, t) implies exists|a: int| 0 <= a < v1.len() && (#[trigger] v1[a]).target@ == t by {
        let j = choose|j: int| 0 <= j < q.len() && #[trigger] q[j].target == t;
        if j < p.len() {
            assert(q[j] == p[j]);
            assert(has_target(p, t));
            let a = choose|a: int| 0 <= a < v0.len() && (#[trigger] v0[a]).target@ == t;
            if a < k {
                assert(v1[a] == v0[a]);
            } else {
                assert(v1[a + 1] == v0[a]);
            }
        } else {
            assert(v1[k].target@ == t);
        }
    }
}

/// When the tally of a result's target over the results up to it overflows a counter,
/// the tallies do not fit.
proof fn lemma_overflow_unfit(s: Seq<ResultView>, i: int, m: Measure)
    requires
        0 <= i < s.len(),
        tally(s.take(i + 1), s[i].target, m) > (match m {
            Measure::Latency => u128::MAX as int,
            _ => u32::MAX as int,
        }),
    ensures
        !tallies_fit(s),
{
    lemma_tally_prefix(s, i + 1, s[i].target, m);
    assert(has_target(s, s[i].target));
}



/// The number of results of `s` for target `t`.
pub open spec fn target_count(s: Seq<ResultView>, t: Seq<char>) -> nat
    decreases s.len(),
{
    if s.len() == 0 {
        0
    } else {
        target_count(s.drop_last(), t) + (if s.last().target == t { 1nat } else { 0nat })
    }
}

/// Every result of a target counts once, as received or as lost: the two tallies add
/// up to the number of results sent to the target.
pub proof fn law_received_plus_lost(s: Seq<ResultView>, t: Seq<char>)
    ensures
        tally(s, t, Measure::Received) + tally(s, t, Measure::Loss) == target_count(s, t),
    decreases s.len(),
{
    if s.len() > 0 {
        law_received_plus_lost(s.drop_last(), t);
    }
}

} // verus!
