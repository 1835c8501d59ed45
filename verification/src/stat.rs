use vstd::prelude::*;
use std::collections::HashMap;

verus! {

broadcast use vstd::std_specs::hash::group_hash_axioms;

/// What a `Result` holds, with its target taken as a sequence of characters.
pub struct ResultView {
    pub txts: u128,
    pub rxts: u128,
    pub seq: u16,
    pub target: Seq<char>,
    pub latency: u128,
    pub received: bool,
    pub bitflip: bool,
}

/// One ping result of one target, identified by the target and the sequence number.
#[derive(Debug)]
pub struct Result {
    /// The timestamp when the ping request is sent.
    pub txts: u128,
    /// The timestamp when the ping reply is received.
    pub rxts: u128,
    /// The sequence number of the ping request.
    pub seq: u16,
    /// The target of the ping result.
    pub target: String,
    /// The latency of the ping result.
    pub latency: u128,
    /// Received is true if the ping reply is received.
    pub received: bool,
    /// Bitflip is true if the ping reply is received but the data is corrupted.
    pub bitflip: bool,
}

impl View for Result {
    type V = ResultView;

    open spec fn view(&self) -> ResultView {
        ResultView {
            txts: self.txts,
            rxts: self.rxts,
            seq: self.seq,
            target: self.target@,
            latency: self.latency,
            received: self.received,
            bitflip: self.bitflip,
        }
    }
}

impl Clone for Result {
    fn clone(&self) -> (r: Self)
        ensures
            r@ == self@,
    {
        Result {
            txts: self.txts,
            rxts: self.rxts,
            seq: self.seq,
            target: self.target.clone(),
            latency: self.latency,
            received: self.received,
            bitflip: self.bitflip,
        }
    }
}

impl Default for Result {
    /// A result of no target, sent and received at time zero.
    fn default() -> (r: Self)
        ensures
            r@ == (ResultView {
                txts: 0,
                rxts: 0,
                seq: 0,
                target: Seq::empty(),
                latency: 0,
                received: false,
                bitflip: false,
            }),
    {
        Result {
            txts: 0,
            rxts: 0,
            seq: 0,
            target: String::new(),
            latency: 0,
            received: false,
            bitflip: false,
        }
    }
}

impl Result {
    /// Create a new ping result: sent at `txts`, not yet received.
    pub fn new(txts: u128, target: &str, seq: u16) -> (r: Self)
        ensures
            r@ == (ResultView {
                txts,
                rxts: 0,
                seq,
                target: target@,
                latency: 0,
                received: false,
                bitflip: false,
            }),
    {
        Result {
            txts,
            rxts: 0,
            seq,
            target: target.to_owned(),
            latency: 0,
            received: false,
            bitflip: false,
        }
    }

    /// Calculate the latency of the ping result: the time from send to receipt.
    pub fn calc_latency(&mut self)
        requires
            old(self).txts <= old(self).rxts,
        ensures
            final(self)@ == (ResultView { latency: (old(self).rxts - old(self).txts) as u128, ..old(self)@ }),
    {
        self.latency = self.rxts - self.txts;
    }
}


/// The key under which a bucket files a result: its target and its sequence number.
pub open spec fn result_key(r: ResultView) -> (Seq<char>, u16) {
    (r.target, r.seq)
}

/// No two results of `s` share a key.
pub open spec fn keys_unique(s: Seq<ResultView>) -> bool {
    forall|i: int, j: int|
        0 <= i < s.len() && 0 <= j < s.len() && i != j ==> #[trigger] result_key(s[i])
            != #[trigger] result_key(s[j])
}

/// Some result of `s` is filed under `k`.
pub open spec fn has_key(s: Seq<ResultView>, k: (Seq<char>, u16)) -> bool {
    exists|i: int| 0 <= i < s.len() && #[trigger] result_key(s[i]) == k
}

/// The position in `s` of the result filed under `k`.
pub open spec fn index_of_key(s: Seq<ResultView>, k: (Seq<char>, u16)) -> int {
    choose|i: int| 0 <= i < s.len() && #[trigger] result_key(s[i]) == k
}

/// The results of `s`, each filed under its key.
pub open spec fn results_map(s: Seq<ResultView>) -> Map<(Seq<char>, u16), ResultView> {
    Map::new(|k: (Seq<char>, u16)| has_key(s, k), |k: (Seq<char>, u16)| s[index_of_key(s, k)])
}

/// A result of `s` is what the map of `s` holds under its key.
pub proof fn lemma_results_map_index(s: Seq<ResultView>, i: int)
    requires
        keys_unique(s),
        0 <= i < s.len(),
    ensures
        results_map(s).contains_key(result_key(s[i])),
        results_map(s)[result_key(s[i])] == s[i],
        index_of_key(s, result_key(s[i])) == i,
{
    let k = result_key(s[i]);
    assert(has_key(s, k));
    let j = index_of_key(s, k);
    assert(result_key(s[j]) == k);
}

/// Appending a result under a new key files it under that key.
pub proof fn lemma_results_map_push(s: Seq<ResultView>, r: ResultView)
    requires
        keys_unique(s),
        !results_map(s).contains_key(result_key(r)),
    ensures
        keys_unique(s.push(r)),
        results_map(s.push(r)) == results_map(s).insert(result_key(r), r),
{
    let t = s.push(r);
    assert forall|i: int, j: int|
        0 <= i < t.len() && 0 <= j < t.len() && i != j implies #[trigger] result_key(t[i])
        != #[trigger] result_key(t[j]) by {
        if i == s.len() as int {
            if result_key(t[j]) == result_key(r) {
                assert(has_key(s, result_key(r)));
            }
        } else if j == s.len() as int {
            if result_key(t[i]) == result_key(r) {
                assert(has_key(s, result_key(r)));
            }
        } else {
            assert(t[i] == s[i] && t[j] == s[j]);
        }
    }
    lemma_results_map_index(t, s.len() as int);
    assert forall|k: (Seq<char>, u16)| #[trigger] has_key(t, k) == (has_key(s, k) || k == result_key(r)) by {
        if has_key(s, k) {
            let i = index_of_key(s, k);
            assert(t[i] == s[i]);
        }
        if has_key(t, k) && k != result_key(r) {
            let i = index_of_key(t, k);
            assert(i != s.len() as int);
            assert(s[i] == t[i]);
        }
    }
    assert forall|k: (Seq<char>, u16)| has_key(s, k) && k != result_key(r) implies #[trigger] results_map(t)[k]
        == results_map(s)[k] by {
        let i = index_of_key(s, k);
        assert(t[i] == s[i]);
        lemma_results_map_index(s, i);
        lemma_results_map_index(t, i);
    }
    assert(results_map(t) =~= results_map(s).insert(result_key(r), r));
}

/// Replacing a result by one filed under the same key replaces what the map holds there.
pub proof fn lemma_results_map_update(s: Seq<ResultView>, i: int, r: ResultView)
    requires
        keys_unique(s),
        0 <= i < s.len(),
        result_key(r) == result_key(s[i]),
    ensures
        keys_unique(s.update(i, r)),
        results_map(s.update(i, r)) == results_map(s).insert(result_key(r), r),
{
    let t = s.update(i, r);
    assert forall|a: int, b: int|
        0 <= a < t.len() && 0 <= b < t.len() && a != b implies #[trigger] result_key(t[a])
        != #[trigger] result_key(t[b]) by {
        assert(result_key(t[a]) == result_key(s[a]));
        assert(result_key(t[b]) == result_key(s[b]));
    }
    lemma_results_map_index(t, i);
    assert forall|k: (Seq<char>, u16)| #[trigger] has_key(t, k) == has_key(s, k) by {
        if has_key(s, k) {
            let j = index_of_key(s, k);
            assert(result_key(t[j]) == result_key(s[j]));
        }
        if has_key(t, k) {
            let j = index_of_key(t, k);
            assert(result_key(t[j]) == result_key(s[j]));
        }
    }
    assert forall|k: (Seq<char>, u16)| has_key(s, k) && k != result_key(r) implies #[trigger] results_map(t)[k]
        == results_map(s)[k] by {
        let j = index_of_key(s, k);
        assert(j != i);
        assert(t[j] == s[j]);
        lemma_results_map_index(s, j);
        lemma_results_map_index(t, j);
    }
    lemma_results_map_index(s, i);
    assert(results_map(t) =~= results_map(s).insert(result_key(r), r));
}


/// What a reply makes of the result filed under its key in `m`: where a request is
/// filed there, the reply takes the request's send time and the latency between the
/// two; otherwise the reply is filed as it is.
pub open spec fn merged_reply(m: Map<(Seq<char>, u16), ResultView>, r: ResultView) -> ResultView {
    if m.contains_key(result_key(r)) {
        let txts = m[result_key(r)].txts;
        ResultView { txts: txts, latency: (r.rxts - txts) as u128, ..r }
    } else {
        r
    }
}

/// A reply can be merged into `m` when the request filed under its key, if any, was
/// not sent after the reply came in.
pub open spec fn reply_in_order(m: Map<(Seq<char>, u16), ResultView>, r: ResultView) -> bool {
    m.contains_key(result_key(r)) ==> m[result_key(r)].txts <= r.rxts
}

/// `m` with the send time of the result filed under `k`, if any, set to `txts`.
pub open spec fn with_txts(
    m: Map<(Seq<char>, u16), ResultView>,
    k: (Seq<char>, u16),
    txts: u128,
) -> Map<(Seq<char>, u16), ResultView> {
    if m.contains_key(k) {
        m.insert(k, ResultView { txts: txts, ..m[k] })
    } else {
        m
    }
}

/// The views of a vector of results, in order.
pub open spec fn result_views(v: Seq<Result>) -> Seq<ResultView> {
    v.map_values(|r: Result| r@)
}

/// The ping results of one second for all targets.
pub struct Bucket {
    /// The timestamp of the bucket in seconds.
    pub key: u128,
    /// The ping results of all targets in the bucket.
    pub value: Vec<Result>,
}

impl View for Bucket {
    type V = Map<(Seq<char>, u16), ResultView>;

    /// The results of the bucket, each filed under its target and sequence number.
    open spec fn view(&self) -> Map<(Seq<char>, u16), ResultView> {
        results_map(result_views(self.value@))
    }
}

impl Bucket {
    /// The bucket files no two results under one key.
    pub open spec fn wf(&self) -> bool {
        keys_unique(result_views(self.value@))
    }

    fn find(&self, target: &String, seq: u16) -> (found: Option<usize>)
        requires
            self.wf(),
        ensures
            match found {
                Some(i) => i < self.value.len() && result_key(self.value@[i as int]@) == (target@, seq),
                None => !self@.contains_key((target@, seq)),
            },
    {
        let ghost s = result_views(self.value@);
        let mut i: usize = 0;
        while i < self.value.len()
            invariant
                i <= self.value.len(),
                s == result_views(self.value@),
                forall|j: int| 0 <= j < i ==> #[trigger] result_key(s[j]) != (target@, seq),
            decreases self.value.len() - i,
        {
            if self.value[i].seq == seq && self.value[i].target == *target {
                return Some(i);
            }
            i = i + 1;
        }
        proof {
            if has_key(s, (target@, seq)) {
                let j = index_of_key(s, (target@, seq));
                assert(result_key(s[j]) == (target@, seq));
            }
        }
        None
    }

    /// Create a new, empty bucket for the second `key`.
    pub fn new(key: u128) -> (b: Self)
        ensures
            b.key == key,
            b.wf(),
            b@ == Map::<(Seq<char>, u16), ResultView>::empty(),
    {
        let b = Bucket { key, value: Vec::new() };
        proof {
            assert(result_views(b.value@) =~= Seq::<ResultView>::empty());
            assert(b@ =~= Map::<(Seq<char>, u16), ResultView>::empty());
        }
        b
    }

    fn put(&mut self, found: Option<usize>, result: Result)
        requires
            old(self).wf(),
            match found {
                Some(i) => i < old(self).value.len() && result_key(old(self).value@[i as int]@)
                    == result_key(result@),
                None => !old(self)@.contains_key(result_key(result@)),
            },
        ensures
            final(self).wf(),
            final(self).key == old(self).key,
            final(self)@ == old(self)@.insert(result_key(result@), result@),
    {
        let ghost s = result_views(self.value@);
        let ghost r = result@;
        match found {
            Some(i) => {
                self.value.set(i, result);
                proof {
                    assert(result_views(self.value@) =~= s.update(i as int, r));
                    lemma_results_map_update(s, i as int, r);
                }
            },
            None => {
                self.value.push(result);
                proof {
                    assert(result_views(self.value@) =~= s.push(r));
                    lemma_results_map_push(s, r);
                }
            },
        }
    }

    /// Add a ping result to the bucket, replacing the one filed under its target and
    /// sequence number.
    pub fn add(&mut self, result: Result)
        requires
            old(self).wf(),
        ensures
            final(self).wf(),
            final(self).key == old(self).key,
            final(self)@ == old(self)@.insert(result_key(result@), result@),
    {
        let found = self.find(&result.target, result.seq);
        self.put(found, result);
    }

    /// Add a ping reply to the bucket. Where the request is filed, the reply takes its
    /// send time and the latency between them.
    pub fn add_reply(&mut self, result: Result)
        requires
            old(self).wf(),
            reply_in_order(old(self)@, result@),
        ensures
            final(self).wf(),
            final(self).key == old(self).key,
            final(self)@ == old(self)@.insert(result_key(result@), merged_reply(old(self)@, result@)),
    {
        let mut result = result;
        let found = self.find(&result.target, result.seq);
        match found {
            Some(i) => {
                proof {
                    lemma_results_map_index(result_views(self.value@), i as int);
                }
                result.txts = self.value[i].txts;
                result.calc_latency();
            },
            None => {},
        }
        self.put(found, result);
    }

    /// Update the send time (software or hardware timestamp) of the ping result filed
    /// under `target` and `seq`, if there is one.
    pub fn update_txts(&mut self, target: String, seq: u16, txts: u128)
        requires
            old(self).wf(),
        ensures
            final(self).wf(),
            final(self).key == old(self).key,
            final(self)@ == with_txts(old(self)@, (target@, seq), txts),
    {
        let found = self.find(&target, seq);
        match found {
            Some(i) => {
                proof {
                    lemma_results_map_index(result_views(self.value@), i as int);
                }
                let mut r = self.value[i].clone();
                r.txts = txts;
                self.put(found, r);
            },
            None => {},
        }
    }

    /// The ping result filed under `target` and `seq`, if any.
    pub fn get(&self, target: &String, seq: u16) -> (found: Option<&Result>)
        requires
            self.wf(),
        ensures
            match found {
                Some(r) => self@.contains_key((target@, seq)) && r@ == self@[(target@, seq)],
                None => !self@.contains_key((target@, seq)),
            },
    {
        match self.find(target, seq) {
            Some(i) => {
                proof {
                    lemma_results_map_index(result_views(self.value@), i as int);
                }
                Some(&self.value[i])
            },
            None => None,
        }
    }

    /// Get the ping results of all targets: each result of the bucket once.
    pub fn values(&self) -> (v: Vec<Result>)
        requires
            self.wf(),
        ensures
            result_views(v@) == result_views(self.value@),
            keys_unique(result_views(v@)),
            results_map(result_views(v@)) == self@,
    {
        let b = self.clone();
        b.value
    }
}

impl PartialEq for Bucket {
    /// Buckets are the same bucket when they are of the same second.
    fn eq(&self, other: &Bucket) -> (r: bool) {
        self.key == other.key
    }
}

impl vstd::std_specs::cmp::PartialEqSpecImpl for Bucket {
    open spec fn obeys_eq_spec() -> bool {
        true
    }

    open spec fn eq_spec(&self, other: &Bucket) -> bool {
        self.key == other.key
    }
}

impl Clone for Bucket {
    fn clone(&self) -> (b: Self)
        ensures
            b.key == self.key,
            result_views(b.value@) == result_views(self.value@),
            b@ == self@,
    {
        let mut v: Vec<Result> = Vec::new();
        let mut i: usize = 0;
        while i < self.value.len()
            invariant
                i <= self.value.len(),
                result_views(v@) == result_views(self.value@).take(i as int),
            decreases self.value.len() - i,
        {
            let c = self.value[i].clone();
            assert(c@ == self.value@[i as int]@);
            let ghost pre = v@;
            v.push(c);
            proof {
                assert(v@ == pre.push(c));
                assert(result_views(v@) =~= result_views(pre).push(c@));
            }
            i = i + 1;
            proof {
                assert(result_views(v@) =~= result_views(self.value@).take(i as int));
            }
        }
        proof {
            assert(result_views(self.value@).take(i as int) =~= result_views(self.value@));
        }
        Bucket { key: self.key, value: v }
    }
}


/// The results a bucket holds, by its view.
pub type BucketView = Map<(Seq<char>, u16), ResultView>;

/// What `m` holds for the second `key`: its bucket, or an empty one.
pub open spec fn bucket_at(m: Map<u128, BucketView>, key: u128) -> BucketView {
    if m.contains_key(key) {
        m[key]
    } else {
        Map::empty()
    }
}

/// `key` is the smallest second for which `m` holds a bucket.
pub open spec fn is_min_key(m: Map<u128, BucketView>, key: u128) -> bool {
    &&& m.contains_key(key)
    &&& forall|k: u128| #[trigger] m.contains_key(k) ==> key <= k
}

/// All unprocessed buckets, one per second.
pub struct Buckets {
    /// The seconds of the buckets, each once, in no particular order; the oldest is
    /// found among them.
    pub keys: Vec<u128>,
    /// The buckets, by their seconds.
    pub map: HashMap<u128, Bucket>,
}

impl View for Buckets {
    type V = Map<u128, BucketView>;

    /// The contents of each bucket, by its second.
    open spec fn view(&self) -> Map<u128, BucketView> {
        self.map@.map_values(|b: Bucket| b@)
    }
}

impl Buckets {
    /// The seconds listed are those of the buckets, each once, and each bucket is well
    /// formed and filed under its own second.
    pub open spec fn wf(&self) -> bool {
        &&& self.keys@.no_duplicates()
        &&& forall|k: u128| #[trigger] self.map@.contains_key(k) <==> self.keys@.contains(k)
        &&& forall|k: u128| #[trigger] self.map@.contains_key(k) ==> self.map@[k].wf() && self.map@[k].key == k
    }

    /// Create an empty collection of buckets.
    pub fn new() -> (b: Buckets)
        ensures
            b.wf(),
            b@ == Map::<u128, BucketView>::empty(),
    {
        let b = Buckets { keys: Vec::new(), map: HashMap::new() };
        proof {
            assert(b@ =~= Map::<u128, BucketView>::empty());
        }
        b
    }

    /// Take the bucket of second `key` out of the map, or a new one if there is none,
    /// listing its second.
    fn take_bucket(&mut self, key: u128) -> (b: Bucket)
        requires
            old(self).wf(),
        ensures
            b.wf(),
            b.key == key,
            b@ == bucket_at(old(self)@, key),
            final(self).keys@.no_duplicates(),
            final(self).keys@.contains(key),
            forall|k: u128| k != key ==> (#[trigger] final(self).keys@.contains(k) <==> old(self).keys@.contains(k)),
            final(self).map@ == old(self).map@.remove(key),
    {
        match self.map.remove(&key) {
            Some(b) => {
                assert(old(self).map@.contains_key(key));
                b
            },
            None => {
                let ghost pre = self.keys@;
                self.keys.push(key);
                proof {
                    assert(!pre.contains(key));
                    assert forall|i: int, j: int| 0 <= i < j < self.keys@.len() implies self.keys@[i]
                        != self.keys@[j] by {
                        if j == pre.len() {
                            assert(pre.contains(pre[i]));
                        } else {
                            assert(self.keys@[i] == pre[i] && self.keys@[j] == pre[j]);
                        }
                    }
                    assert forall|k: u128| k != key implies (#[trigger] self.keys@.contains(k) <==> pre.contains(k)) by {
                        if self.keys@.contains(k) {
                            let i = choose|i: int| 0 <= i < self.keys@.len() && self.keys@[i] == k;
                            assert(pre[i] == k);
                        }
                        if pre.contains(k) {
                            let i = choose|i: int| 0 <= i < pre.len() && pre[i] == k;
                            assert(self.keys@[i] == k);
                        }
                    }
                    assert(self.keys@[pre.len() as int] == key);
                    assert(bucket_at(old(self)@, key) == Map::<(Seq<char>, u16), ResultView>::empty());
                }
                Bucket::new(key)
            },
        }
    }

    /// Put bucket `b` back under its second, listed already.
    fn put_bucket(&mut self, b: Bucket)
        requires
            b.wf(),
            old(self).keys@.no_duplicates(),
            old(self).keys@.contains(b.key),
            forall|k: u128| k != b.key ==> (#[trigger] old(self).map@.contains_key(k) <==> old(self).keys@.contains(k)),
            forall|k: u128| #[trigger] old(self).map@.contains_key(k) ==> old(self).map@[k].wf() && old(self).map@[k].key == k,
        ensures
            final(self).wf(),
            final(self).keys@ == old(self).keys@,
            final(self).map@ == old(self).map@.insert(b.key, b),
    {
        let key = b.key;
        self.map.insert(key, b);
    }

    /// Add a ping result to the bucket of second `key`, creating the bucket if needed.
    pub fn add(&mut self, key: u128, value: Result)
        requires
            old(self).wf(),
        ensures
            final(self).wf(),
            final(self)@ == old(self)@.insert(
                key,
                bucket_at(old(self)@, key).insert(result_key(value@), value@),
            ),
    {
        let mut b = self.take_bucket(key);
        b.add(value);
        self.put_bucket(b);
        proof {
            assert(self@ =~= old(self)@.insert(key, bucket_at(old(self)@, key).insert(result_key(value@), value@)));
        }
    }

    /// Add a ping reply to the bucket of second `key`, creating the bucket if needed.
    pub fn add_reply(&mut self, key: u128, result: Result)
        requires
            old(self).wf(),
            reply_in_order(bucket_at(old(self)@, key), result@),
        ensures
            final(self).wf(),
            final(self)@ == old(self)@.insert(
                key,
                bucket_at(old(self)@, key).insert(
                    result_key(result@),
                    merged_reply(bucket_at(old(self)@, key), result@),
                ),
            ),
    {
        let ghost r = result@;
        let mut b = self.take_bucket(key);
        b.add_reply(result);
        self.put_bucket(b);
        proof {
            assert(self@ =~= old(self)@.insert(
                key,
                bucket_at(old(self)@, key).insert(result_key(r), merged_reply(bucket_at(old(self)@, key), r)),
            ));
        }
    }

    /// Update the send time of the ping result filed under `target` and `seq` in the
    /// bucket of second `key`, if there are both.
    pub fn update_txts(&mut self, key: u128, target: String, seq: u16, txts: u128)
        requires
            old(self).wf(),
        ensures
            final(self).wf(),
            final(self)@ == (if old(self)@.contains_key(key) {
                old(self)@.insert(key, with_txts(old(self)@[key], (target@, seq), txts))
            } else {
                old(self)@
            }),
    {
        if self.map.contains_key(&key) {
            let ghost t = target@;
            let mut b = self.take_bucket(key);
            b.update_txts(target, seq, txts);
            self.put_bucket(b);
            proof {
                assert(self@ =~= old(self)@.insert(key, with_txts(old(self)@[key], (t, seq), txts)));
            }
        }
    }

    /// The position in `keys` of the smallest second, if any.
    fn min_index(&self) -> (found: Option<usize>)
        requires
            self.wf(),
        ensures
            match found {
                Some(i) => i < self.keys.len() && is_min_key(self@, self.keys@[i as int]),
                None => self@ =~= Map::<u128, BucketView>::empty(),
            },
    {
        if self.keys.len() == 0 {
            proof {
                assert forall|k: u128| !#[trigger] self@.contains_key(k) by {
                    if self.map@.contains_key(k) {
                        assert(self.keys@.contains(k));
                    }
                }
            }
            return None;
        }
        let mut best: usize = 0;
        let mut i: usize = 1;
        while i < self.keys.len()
            invariant
                0 < self.keys.len(),
                best < i <= self.keys.len(),
                forall|j: int| 0 <= j < i ==> self.keys@[best as int] <= #[trigger] self.keys@[j],
            decreases self.keys.len() - i,
        {
            if self.keys[i] < self.keys[best] {
                best = i;
            }
            i = i + 1;
        }
        proof {
            assert(self.keys@.contains(self.keys@[best as int]));
            assert forall|k: u128| #[trigger] self@.contains_key(k) implies self.keys@[best as int] <= k by {
                assert(self.keys@.contains(k));
                let j = choose|j: int| 0 <= j < self.keys@.len() && self.keys@[j] == k;
            }
        }
        Some(best)
    }

    /// Pop the bucket with the smallest key.
    pub fn pop(&mut self) -> (popped: Option<Bucket>)
        requires
            old(self).wf(),
        ensures
            final(self).wf(),
            match popped {
                Some(b) => {
                    &&& is_min_key(old(self)@, b.key)
                    &&& b@ == old(self)@[b.key]
                    &&& b.wf()
                    &&& final(self)@ == old(self)@.remove(b.key)
                },
                None => {
                    &&& old(self)@ =~= Map::<u128, BucketView>::empty()
                    &&& final(self)@ == old(self)@
                },
            },
    {
        match self.min_index() {
            Some(i) => {
                let ghost pre = self.keys@;
                let key = self.keys.remove(i);
                proof {
                    assert(pre.contains(key));
                    assert forall|a: int, b: int| 0 <= a < b < self.keys@.len() implies self.keys@[a]
                        != self.keys@[b] by {
                        let a2 = if a < i { a } else { a + 1 };
                        let b2 = if b < i { b } else { b + 1 };
                        assert(self.keys@[a] == pre[a2] && self.keys@[b] == pre[b2]);
                    }
                    assert forall|k: u128| (#[trigger] self.keys@.contains(k)) <==> (pre.contains(k) && k != key) by {
                        if self.keys@.contains(k) {
                            let j = choose|j: int| 0 <= j < self.keys@.len() && self.keys@[j] == k;
                            let j2 = if j < i { j } else { j + 1 };
                            assert(pre[j2] == k);
                            assert(j2 != i);
                        }
                        if pre.contains(k) && k != key {
                            let j = choose|j: int| 0 <= j < pre.len() && pre[j] == k;
                            assert(j != i);
                            let j2 = if j < i { j } else { j - 1 };
                            assert(self.keys@[j2] == k);
                        }
                    }
                }
                match self.map.remove(&key) {
                    Some(b) => {
                        proof {
                            assert(self@ =~= old(self)@.remove(key));
                        }
                        Some(b)
                    },
                    None => {
                        assert(false);
                        None
                    },
                }
            },
            None => None,
        }
    }

    /// Get (but not pop) the bucket with the smallest key.
    pub fn last(&self) -> (found: Option<Bucket>)
        requires
            self.wf(),
        ensures
            match found {
                Some(b) => {
                    &&& is_min_key(self@, b.key)
                    &&& b@ == self@[b.key]
                    &&& b.wf()
                },
                None => self@ =~= Map::<u128, BucketView>::empty(),
            },
    {
        match self.min_index() {
            Some(i) => {
                let key = self.keys[i];
                match self.map.get(&key) {
                    Some(b) => Some(b.clone()),
                    None => {
                        assert(false);
                        None
                    },
                }
            },
            None => None,
        }
    }

    /// The bucket of second `key`, if any.
    pub fn get(&self, key: u128) -> (found: Option<&Bucket>)
        requires
            self.wf(),
        ensures
            match found {
                Some(b) => self@.contains_key(key) && b.key == key && b@ == self@[key] && b.wf(),
                None => !self@.contains_key(key),
            },
    {
        self.map.get(&key)
    }
}

/// Filing a request and then its reply in the bucket of a second leaves, under their
/// target and sequence number, the reply with the request's send time and the latency
/// between send and receipt.
pub proof fn law_reply_follows_request(m: Map<u128, BucketView>, key: u128, req: ResultView, rep: ResultView)
    requires
        result_key(req) == result_key(rep),
        req.txts <= rep.rxts,
    ensures
        ({
            let m1 = m.insert(key, bucket_at(m, key).insert(result_key(req), req));
            let m2 = m1.insert(
                key,
                bucket_at(m1, key).insert(result_key(rep), merged_reply(bucket_at(m1, key), rep)),
            );
            &&& reply_in_order(bucket_at(m1, key), rep)
            &&& m2[key][result_key(rep)] == (ResultView {
                txts: req.txts,
                latency: (rep.rxts - req.txts) as u128,
                ..rep
            })
        }),
{
}

/// A send time updated after the request was filed is the one the reply's latency is
/// measured from.
pub proof fn law_reply_follows_updated_request(
    m: Map<u128, BucketView>,
    key: u128,
    req: ResultView,
    txts: u128,
    rep: ResultView,
)
    requires
        result_key(req) == result_key(rep),
        txts <= rep.rxts,
    ensures
        ({
            let m1 = m.insert(key, bucket_at(m, key).insert(result_key(req), req));
            let m2 = m1.insert(key, with_txts(m1[key], result_key(req), txts));
            let m3 = m2.insert(
                key,
                bucket_at(m2, key).insert(result_key(rep), merged_reply(bucket_at(m2, key), rep)),
            );
            &&& m1.contains_key(key)
            &&& reply_in_order(bucket_at(m2, key), rep)
            &&& m3[key][result_key(rep)] == (ResultView {
                txts: txts,
                latency: (rep.rxts - txts) as u128,
                ..rep
            })
        }),
{
}

/// Buckets come out of `pop` in ascending order of their seconds.
pub proof fn law_pop_ascending(m: Map<u128, BucketView>, k1: u128, k2: u128)
    requires
        is_min_key(m, k1),
        is_min_key(m.remove(k1), k2),
    ensures
        k1 < k2,
{
    assert(m.contains_key(k2));
}

} // verus!
