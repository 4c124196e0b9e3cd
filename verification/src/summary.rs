//! A summary: the statistics of every key seen so far.

use std::collections::HashMap;
use vstd::prelude::*;
use crate::hash::{digest, key_hash};
use crate::record::ParseError;
use crate::stat::{StatRecord, Tally};

verus! {

broadcast use vstd::std_specs::hash::group_hash_axioms;

/// The summary with one more reading of `key`.
pub open spec fn noted(m: Map<Seq<u8>, Tally>, key: Seq<u8>, value: int) -> Map<Seq<u8>, Tally> {
    m.insert(
        key,
        if m.contains_key(key) {
            m[key].with(value)
        } else {
            Tally::one(value)
        },
    )
}

/// The summary with a whole tally folded in under `key`.
pub open spec fn folded(m: Map<Seq<u8>, Tally>, key: Seq<u8>, tally: Tally) -> Map<Seq<u8>, Tally> {
    m.insert(
        key,
        if m.contains_key(key) {
            m[key].merge(tally)
        } else {
            tally
        },
    )
}

/// Two summaries taken together: a key of both has its two tallies merged, a key
/// of one keeps its tally.
pub open spec fn merged(a: Map<Seq<u8>, Tally>, b: Map<Seq<u8>, Tally>) -> Map<Seq<u8>, Tally> {
    Map::new(
        |k: Seq<u8>| a.contains_key(k) || b.contains_key(k),
        |k: Seq<u8>|
            if a.contains_key(k) && b.contains_key(k) {
                a[k].merge(b[k])
            } else if a.contains_key(k) {
                a[k]
            } else {
                b[k]
            },
    )
}

/// The statistics of each key, the keys held in the order in which they first
/// came, each beside its hash. An index leads from a hash to the places of the keys
/// that have it.
pub struct Summary {
    keys: Vec<Vec<u8>>,
    hashes: Vec<u64>,
    stats: Vec<StatRecord>,
    index: HashMap<u64, Vec<usize>>,
    total: u64,
}

/// Place `i` stands in the bucket.
spec fn listed(bucket: Seq<usize>, i: int) -> bool {
    exists|p: int| 0 <= p < bucket.len() && #[trigger] bucket[p] == i
}

/// The index leads from each hash to places that hold it, and to every such
/// place.
spec fn indexed(index: Map<u64, Vec<usize>>, hashes: Seq<u64>) -> bool {
    &&& forall|h: u64, p: int|
        #![trigger index[h]@[p]]
        index.contains_key(h) && 0 <= p < index[h]@.len() ==> index[h]@[p] < hashes.len()
            && hashes[index[h]@[p] as int] == h
    &&& forall|i: int|
        0 <= i < hashes.len() ==> index.contains_key(#[trigger] hashes[i]) && listed(
            index[hashes[i]]@,
            i,
        )
}

/// Enters the place of a new key into the index.
fn index_add(index: &mut HashMap<u64, Vec<usize>>, hash: u64, place: usize, hashes: Ghost<Seq<u64>>)
    requires
        indexed(old(index)@, hashes@),
        place == hashes@.len(),
    ensures
        indexed(final(index)@, hashes@.push(hash)),
{
    let taken = index.remove(&hash);
    let mut bucket: Vec<usize> = match taken {
        Some(held) => held,
        None => Vec::new(),
    };
    let ghost before = bucket@;
    bucket.push(place);
    let ghost after = bucket@;
    index.insert(hash, bucket);
    proof {
        let old_map = old(index)@;
        let new_map = index@;
        let grown = hashes@.push(hash);
        assert(old_map.contains_key(hash) ==> old_map[hash]@ == before);
        assert(new_map[hash]@ == after);
        assert forall|h: u64, p: int|
            #![trigger new_map[h]@[p]]
            new_map.contains_key(h) && 0 <= p < new_map[h]@.len() implies new_map[h]@[p]
                < grown.len() && grown[new_map[h]@[p] as int] == h by {
            if h == hash {
                if p < before.len() {
                    assert(after[p] == old_map[h]@[p]);
                }
            } else {
                assert(new_map[h] == old_map[h]);
                assert(old_map[h]@[p] < hashes@.len());
            }
        }
        assert forall|i: int| 0 <= i < grown.len() implies new_map.contains_key(
            #[trigger] grown[i],
        ) && listed(new_map[grown[i]]@, i) by {
            if i < hashes@.len() {
                assert(old_map.contains_key(hashes@[i]));
                assert(listed(old_map[hashes@[i]]@, i));
                if hashes@[i] == hash {
                    let p = choose|p: int| 0 <= p < before.len() && #[trigger] before[p] == i;
                    assert(after[p] == i);
                } else {
                    assert(new_map[grown[i]] == old_map[hashes@[i]]);
                }
            } else {
                assert(after[after.len() - 1] == place);
            }
        }
    }
}

spec fn holds(keys: Seq<Vec<u8>>, k: Seq<u8>, i: int) -> bool {
    0 <= i < keys.len() && keys[i]@ == k
}

spec fn distinct(keys: Seq<Vec<u8>>) -> bool {
    forall|i: int, j: int|
        0 <= i < keys.len() && 0 <= j < keys.len() && keys[i]@ == keys[j]@ ==> i == j
}

spec fn model(keys: Seq<Vec<u8>>, stats: Seq<StatRecord>) -> Map<Seq<u8>, Tally> {
    Map::new(
        |k: Seq<u8>| exists|i: int| holds(keys, k, i),
        |k: Seq<u8>| stats[choose|i: int| holds(keys, k, i)]@,
    )
}

proof fn lemma_model_at(keys: Seq<Vec<u8>>, stats: Seq<StatRecord>, i: int)
    requires
        distinct(keys),
        0 <= i < keys.len(),
    ensures
        model(keys, stats).contains_key(keys[i]@),
        model(keys, stats)[keys[i]@] == stats[i]@,
{
    assert(holds(keys, keys[i]@, i));
    let j = choose|j: int| holds(keys, keys[i]@, j);
    assert(holds(keys, keys[i]@, j));
}

proof fn lemma_model_push(keys: Seq<Vec<u8>>, stats: Seq<StatRecord>, key: Vec<u8>, stat: StatRecord)
    requires
        distinct(keys),
        keys.len() == stats.len(),
        forall|i: int| 0 <= i < keys.len() ==> keys[i]@ != key@,
    ensures
        distinct(keys.push(key)),
        model(keys.push(key), stats.push(stat)) == model(keys, stats).insert(key@, stat@),
{
    let keys2 = keys.push(key);
    let stats2 = stats.push(stat);
    let n = keys.len() as int;
    assert(distinct(keys2));
    let m2 = model(keys2, stats2);
    let m1 = model(keys, stats).insert(key@, stat@);
    assert forall|k: Seq<u8>| m2.contains_key(k) <==> m1.contains_key(k) by {
        if m2.contains_key(k) {
            let i = choose|i: int| holds(keys2, k, i);
            assert(holds(keys2, k, i));
            if i < n {
                assert(holds(keys, k, i));
            }
        }
        if m1.contains_key(k) {
            if k == key@ {
                assert(holds(keys2, k, n));
            } else {
                let i = choose|i: int| holds(keys, k, i);
                assert(holds(keys, k, i));
                assert(holds(keys2, k, i));
            }
        }
    }
    assert forall|k: Seq<u8>| m2.contains_key(k) implies m2[k] == m1[k] by {
        let i = choose|i: int| holds(keys2, k, i);
        assert(holds(keys2, k, i));
        lemma_model_at(keys2, stats2, i);
        if i < n {
            lemma_model_at(keys, stats, i);
        }
    }
    assert(m2 =~= m1);
}

proof fn lemma_model_update(keys: Seq<Vec<u8>>, stats: Seq<StatRecord>, at: int, stat: StatRecord)
    requires
        distinct(keys),
        keys.len() == stats.len(),
        0 <= at < keys.len(),
    ensures
        model(keys, stats.update(at, stat)) == model(keys, stats).insert(keys[at]@, stat@),
{
    let stats2 = stats.update(at, stat);
    let m2 = model(keys, stats2);
    let m1 = model(keys, stats).insert(keys[at]@, stat@);
    assert(holds(keys, keys[at]@, at));
    assert forall|k: Seq<u8>| m2.contains_key(k) implies m2[k] == m1[k] by {
        let i = choose|i: int| holds(keys, k, i);
        assert(holds(keys, k, i));
        lemma_model_at(keys, stats2, i);
        lemma_model_at(keys, stats, i);
    }
    assert(m2 =~= m1);
}

/// The counts of all the records added up.
spec fn count_sum(stats: Seq<StatRecord>) -> nat
    decreases stats.len(),
{
    if stats.len() == 0 {
        0
    } else {
        count_sum(stats.drop_last()) + stats.last().count as nat
    }
}

proof fn lemma_count_sum_update(stats: Seq<StatRecord>, at: int, stat: StatRecord)
    requires
        0 <= at < stats.len(),
    ensures
        count_sum(stats.update(at, stat)) + stats[at].count == count_sum(stats) + stat.count,
        stats[at].count <= count_sum(stats),
    decreases stats.len(),
{
    let n = stats.len() as int;
    if at == n - 1 {
        assert(stats.update(at, stat).drop_last() == stats.drop_last());
    } else {
        lemma_count_sum_update(stats.drop_last(), at, stat);
        assert(stats.update(at, stat).drop_last() == stats.drop_last().update(at, stat));
    }
}

proof fn lemma_count_sum_take(stats: Seq<StatRecord>, k: int)
    requires
        0 <= k <= stats.len(),
    ensures
        count_sum(stats.take(k)) <= count_sum(stats),
    decreases stats.len() - k,
{
    if k < stats.len() {
        lemma_count_sum_take(stats, k + 1);
        assert(stats.take(k + 1).drop_last() == stats.take(k));
    } else {
        assert(stats.take(k) == stats);
    }
}

proof fn lemma_count_sum_push(stats: Seq<StatRecord>, stat: StatRecord)
    ensures
        count_sum(stats.push(stat)) == count_sum(stats) + stat.count,
{
    assert(stats.push(stat).drop_last() == stats);
}

/// Tells whether two runs of bytes are the same.
pub fn bytes_equal(a: &[u8], b: &[u8]) -> (same: bool)
    ensures
        same == (a@ == b@),
{
    if a.len() != b.len() {
        return false;
    }
    let mut i: usize = 0;
    while i < a.len()
        invariant
            i <= a.len(),
            a.len() == b.len(),
            forall|j: int| 0 <= j < i ==> a[j] == b[j],
        decreases a.len() - i,
    {
        if a[i] != b[i] {
            return false;
        }
        i += 1;
    }
    proof {
        assert(a@ =~= b@);
    }
    true
}

impl View for Summary {
    type V = Map<Seq<u8>, Tally>;

    closed spec fn view(&self) -> Map<Seq<u8>, Tally> {
        model(self.keys@, self.stats@)
    }
}

impl Summary {
    /// The keys in the order in which they first came.
    pub closed spec fn spec_keys(&self) -> Seq<Seq<u8>> {
        Seq::new(self.keys@.len(), |i: int| self.keys@[i]@)
    }

    /// How many readings the summary has taken in.
    pub closed spec fn spec_total(&self) -> nat {
        self.total as nat
    }

    /// No key is held twice, each stands beside its hash, each tally is that of a
    /// non-empty bag, and the counts add up to `spec_total()`.
    pub closed spec fn wf(&self) -> bool {
        &&& self.keys@.len() == self.stats@.len()
        &&& self.keys@.len() == self.hashes@.len()
        &&& distinct(self.keys@)
        &&& forall|i: int|
            0 <= i < self.keys@.len() ==> {
                &&& #[trigger] self.hashes@[i] == digest(self.keys@[i]@)
                &&& self.stats@[i].wf()
            }
        &&& count_sum(self.stats@) == self.total
        &&& indexed(self.index@, self.hashes@)
    }

    /// In a well-formed summary the keys held are the keys of the view, each once,
    /// and every tally is well formed and counts no more than the total.
    pub proof fn lemma_keys(&self)
        requires
            self.wf(),
        ensures
            self.spec_keys().no_duplicates(),
            forall|k: Seq<u8>| self@.contains_key(k) <==> self.spec_keys().contains(k),
            forall|k: Seq<u8>|
                self@.contains_key(k) ==> (#[trigger] self@[k]).wf() && self@[k].count
                    <= self.spec_total(),
    {
        let ks = self.spec_keys();
        assert forall|k: Seq<u8>| self@.contains_key(k) <==> ks.contains(k) by {
            if self@.contains_key(k) {
                let i = choose|i: int| holds(self.keys@, k, i);
                assert(holds(self.keys@, k, i));
                assert(ks[i] == k);
            }
            if ks.contains(k) {
                let i = choose|i: int| 0 <= i < ks.len() && ks[i] == k;
                assert(holds(self.keys@, k, i));
            }
        }
        assert forall|k: Seq<u8>| self@.contains_key(k) implies (#[trigger] self@[k]).wf()
            && self@[k].count <= self.spec_total() by {
            let i = choose|i: int| holds(self.keys@, k, i);
            assert(holds(self.keys@, k, i));
            lemma_model_at(self.keys@, self.stats@, i);
            assert(self.hashes@[i] == digest(self.keys@[i]@));
            lemma_count_sum_update(self.stats@, i, self.stats@[i]);
        }
    }

    /// A summary of nothing.
    pub fn new() -> (s: Summary)
        ensures
            s.wf(),
            s@ == Map::<Seq<u8>, Tally>::empty(),
            s.spec_total() == 0,
            s.spec_keys().len() == 0,
    {
        let s = Summary {
            keys: Vec::new(),
            hashes: Vec::new(),
            stats: Vec::new(),
            index: HashMap::new(),
            total: 0,
        };
        proof {
            assert(s@ =~= Map::<Seq<u8>, Tally>::empty());
        }
        s
    }

    /// The number of keys.
    pub fn len(&self) -> (n: usize)
        ensures
            n == self.spec_keys().len(),
    {
        self.keys.len()
    }

    /// The number of readings taken in.
    pub fn total(&self) -> (n: u64)
        ensures
            n == self.spec_total(),
    {
        self.total
    }

    /// The key at place `i`.
    pub fn key_at(&self, i: usize) -> (key: &[u8])
        requires
            i < self.spec_keys().len(),
        ensures
            key@ == self.spec_keys()[i as int],
    {
        self.keys[i].as_slice()
    }

    /// The statistics of the key at place `i`.
    pub fn stat_at(&self, i: usize) -> (stat: StatRecord)
        requires
            self.wf(),
            i < self.spec_keys().len(),
        ensures
            stat.wf(),
            self@.contains_key(self.spec_keys()[i as int]),
            stat@ == self@[self.spec_keys()[i as int]],
    {
        proof {
            lemma_model_at(self.keys@, self.stats@, i as int);
            assert(self.hashes@[i as int] == digest(self.keys@[i as int]@));
        }
        self.stats[i]
    }

    /// Where `key`, whose hash is `hash`, is held.
    fn locate(&self, key: &[u8], hash: u64) -> (place: Option<usize>)
        requires
            self.wf(),
            hash == digest(key@),
        ensures
            match place {
                Some(i) => holds(self.keys@, key@, i as int),
                None => forall|i: int| 0 <= i < self.keys@.len() ==> self.keys@[i]@ != key@,
            },
    {
        match self.index.get(&hash) {
            None => {
                proof {
                    assert forall|i: int| 0 <= i < self.keys@.len() implies self.keys@[i]@
                        != key@ by {
                        assert(self.hashes@[i] == digest(self.keys@[i]@));
                    }
                }
                None
            },
            Some(bucket) => {
                let mut p: usize = 0;
                while p < bucket.len()
                    invariant
                        self.wf(),
                        self.index@.contains_key(hash),
                        *bucket == self.index@[hash],
                        p <= bucket@.len(),
                        forall|q: int| 0 <= q < p ==> self.keys@[bucket@[q] as int]@ != key@,
                    decreases bucket.len() - p,
                {
                    let i = bucket[p];
                    proof {
                        assert(self.index@[hash]@[p as int] < self.hashes@.len());
                    }
                    if bytes_equal(self.keys[i].as_slice(), key) {
                        return Some(i);
                    }
                    p += 1;
                }
                proof {
                    assert forall|i: int| 0 <= i < self.keys@.len() implies self.keys@[i]@
                        != key@ by {
                        assert(self.hashes@[i] == digest(self.keys@[i]@));
                        if self.keys@[i]@ == key@ {
                            assert(listed(bucket@, i));
                            let q = choose|q: int| 0 <= q < bucket@.len() && #[trigger] bucket@[q] == i;
                            assert(self.keys@[bucket@[q] as int]@ != key@);
                        }
                    }
                }
                None
            },
        }
    }

    /// The statistics of `key`, if it was seen.
    pub fn get(&self, key: &[u8]) -> (found: Option<StatRecord>)
        requires
            self.wf(),
        ensures
            found is Some <==> self@.contains_key(key@),
            found matches Some(stat) ==> stat@ == self@[key@] && stat.wf(),
    {
        match self.locate(key, key_hash(key)) {
            Some(i) => {
                proof {
                    lemma_model_at(self.keys@, self.stats@, i as int);
                    assert(self.hashes@[i as int] == digest(self.keys@[i as int]@));
                }
                Some(self.stats[i])
            },
            None => {
                proof {
                    if self@.contains_key(key@) {
                        let i = choose|i: int| holds(self.keys@, key@, i);
                        assert(holds(self.keys@, key@, i));
                    }
                }
                None
            },
        }
    }

    /// Takes in one reading of `key`.
    pub fn record(&mut self, key: &[u8], value: i64)
        requires
            old(self).wf(),
            old(self).spec_total() < u64::MAX,
        ensures
            final(self).wf(),
            final(self)@ == noted(old(self)@, key@, value as int),
            final(self).spec_total() == old(self).spec_total() + 1,
    {
        let hash = key_hash(key);
        match self.locate(key, hash) {
            Some(i) => {
                proof {
                    lemma_model_at(self.keys@, self.stats@, i as int);
                    assert(self.hashes@[i as int] == digest(self.keys@[i as int]@));
                    lemma_count_sum_update(self.stats@, i as int, self.stats@[i as int]);
                }
                let mut stat = self.stats[i];
                stat.update(value);
                proof {
                    lemma_model_update(self.keys@, self.stats@, i as int, stat);
                    lemma_count_sum_update(self.stats@, i as int, stat);
                }
                self.stats.set(i, stat);
                self.total = self.total + 1;
                proof {
                    assert forall|j: int| 0 <= j < self.keys@.len() implies {
                        &&& #[trigger] self.hashes@[j] == digest(self.keys@[j]@)
                        &&& self.stats@[j].wf()
                    } by {
                        assert(old(self).hashes@[j] == digest(old(self).keys@[j]@));
                    }
                }
            },
            None => {
                proof {
                    if self@.contains_key(key@) {
                        let i = choose|i: int| holds(self.keys@, key@, i);
                        assert(holds(self.keys@, key@, i));
                    }
                }
                let stat = StatRecord::from_item(value);
                let owned = vstd::slice::slice_to_vec(key);
                proof {
                    lemma_model_push(self.keys@, self.stats@, owned, stat);
                    lemma_count_sum_push(self.stats@, stat);
                }
                index_add(&mut self.index, hash, self.keys.len(), Ghost(self.hashes@));
                self.keys.push(owned);
                self.hashes.push(hash);
                self.stats.push(stat);
                self.total = self.total + 1;
                proof {
                    assert forall|j: int| 0 <= j < self.keys@.len() implies {
                        &&& #[trigger] self.hashes@[j] == digest(self.keys@[j]@)
                        &&& self.stats@[j].wf()
                    } by {
                        if j < old(self).keys@.len() {
                            assert(old(self).hashes@[j] == digest(old(self).keys@[j]@));
                        }
                    }
                }
            },
        }
    }

    /// Folds in the statistics that another summary holds for `key`.
    pub fn absorb(&mut self, key: &[u8], stat: StatRecord)
        requires
            old(self).wf(),
            stat.wf(),
            old(self).spec_total() + stat.count <= u64::MAX,
        ensures
            final(self).wf(),
            final(self)@ == folded(old(self)@, key@, stat@),
            final(self).spec_total() == old(self).spec_total() + stat.count,
    {
        let hash = key_hash(key);
        match self.locate(key, hash) {
            Some(i) => {
                proof {
                    lemma_model_at(self.keys@, self.stats@, i as int);
                    assert(self.hashes@[i as int] == digest(self.keys@[i as int]@));
                    lemma_count_sum_update(self.stats@, i as int, self.stats@[i as int]);
                }
                let both = self.stats[i].merge(stat);
                proof {
                    lemma_model_update(self.keys@, self.stats@, i as int, both);
                    lemma_count_sum_update(self.stats@, i as int, both);
                }
                self.stats.set(i, both);
                self.total = self.total + stat.count;
                proof {
                    assert forall|j: int| 0 <= j < self.keys@.len() implies {
                        &&& #[trigger] self.hashes@[j] == digest(self.keys@[j]@)
                        &&& self.stats@[j].wf()
                    } by {
                        assert(old(self).hashes@[j] == digest(old(self).keys@[j]@));
                    }
                }
            },
            None => {
                proof {
                    if self@.contains_key(key@) {
                        let i = choose|i: int| holds(self.keys@, key@, i);
                        assert(holds(self.keys@, key@, i));
                    }
                }
                let owned = vstd::slice::slice_to_vec(key);
                proof {
                    lemma_model_push(self.keys@, self.stats@, owned, stat);
                    lemma_count_sum_push(self.stats@, stat);
                }
                index_add(&mut self.index, hash, self.keys.len(), Ghost(self.hashes@));
                self.keys.push(owned);
                self.hashes.push(hash);
                self.stats.push(stat);
                self.total = self.total + stat.count;
                proof {
                    assert forall|j: int| 0 <= j < self.keys@.len() implies {
                        &&& #[trigger] self.hashes@[j] == digest(self.keys@[j]@)
                        &&& self.stats@[j].wf()
                    } by {
                        if j < old(self).keys@.len() {
                            assert(old(self).hashes@[j] == digest(old(self).keys@[j]@));
                        }
                    }
                }
            },
        }
    }
}

/// Folding a tally in under a key that the second summary lacks is merging with
/// the second summary that has the key.
proof fn lemma_merged_insert(
    a: Map<Seq<u8>, Tally>,
    b: Map<Seq<u8>, Tally>,
    key: Seq<u8>,
    tally: Tally,
)
    requires
        !b.contains_key(key),
    ensures
        merged(a, b.insert(key, tally)) == folded(merged(a, b), key, tally),
{
    assert(merged(a, b.insert(key, tally)) =~= folded(merged(a, b), key, tally));
}

/// `std::str::from_utf8`. Trusted: it succeeds on exactly the byte sequences that
/// are well-formed UTF-8.
#[verifier::external_body]
fn utf8_ok(bytes: &[u8]) -> (ok: bool)
    ensures
        ok == vstd::utf8::valid_utf8(bytes@),
{
    std::str::from_utf8(bytes).is_ok()
}

/// Tells whether every key of the summary is text.
pub fn keys_are_text(summary: &Summary) -> (ok: bool)
    requires
        summary.wf(),
    ensures
        ok <==> forall|k: Seq<u8>| summary@.contains_key(k) ==> vstd::utf8::valid_utf8(k),
{
    proof {
        summary.lemma_keys();
    }
    let mut i: usize = 0;
    while i < summary.keys.len()
        invariant
            i <= summary.keys@.len(),
            forall|j: int| 0 <= j < i ==> vstd::utf8::valid_utf8(summary.keys@[j]@),
        decreases summary.keys.len() - i,
    {
        if !utf8_ok(summary.keys[i].as_slice()) {
            proof {
                assert(holds(summary.keys@, summary.keys@[i as int]@, i as int));
            }
            return false;
        }
        i += 1;
    }
    proof {
        assert forall|k: Seq<u8>| summary@.contains_key(k) implies vstd::utf8::valid_utf8(k) by {
            let j = choose|j: int| holds(summary.keys@, k, j);
            assert(holds(summary.keys@, k, j));
        }
    }
    true
}

/// Folds the summary of one chunk into the summary of the whole.
///
/// Every key of `local` has to be text: where one is not, nothing is folded in and
/// the fault is reported. Otherwise a key that `global` knows has the two tallies
/// merged, and a new key comes in with its tally as it is.
pub fn merge_in(global: &mut Summary, local: &Summary) -> (r: Result<(), ParseError>)
    requires
        old(global).wf(),
        local.wf(),
        old(global).spec_total() + local.spec_total() <= u64::MAX,
    ensures
        final(global).wf(),
        r is Ok <==> forall|k: Seq<u8>| local@.contains_key(k) ==> vstd::utf8::valid_utf8(k),
        r is Ok ==> final(global)@ == merged(old(global)@, local@) && final(global).spec_total()
            == old(global).spec_total() + local.spec_total(),
        r is Err ==> r->Err_0 == ParseError::InvalidKeyEncoding && final(global)@ == old(global)@
            && final(global).spec_total() == old(global).spec_total(),
{
    if !keys_are_text(local) {
        return Err(ParseError::InvalidKeyEncoding);
    }
    let n = local.keys.len();
    let mut i: usize = 0;
    proof {
        assert(model(local.keys@.take(0), local.stats@.take(0)) =~= Map::<
            Seq<u8>,
            Tally,
        >::empty());
        assert(merged(global@, Map::<Seq<u8>, Tally>::empty()) =~= global@);
    }
    while i < n
        invariant
            n == local.keys@.len(),
            i <= n,
            local.wf(),
            global.wf(),
            old(global).spec_total() + local.spec_total() <= u64::MAX,
            global@ == merged(
                old(global)@,
                model(local.keys@.take(i as int), local.stats@.take(i as int)),
            ),
            global.spec_total() == old(global).spec_total() + count_sum(
                local.stats@.take(i as int),
            ),
        decreases n - i,
    {
        let ghost keys = local.keys@.take(i as int);
        let ghost stats = local.stats@.take(i as int);
        let stat = local.stats[i];
        proof {
            assert(local.hashes@[i as int] == digest(local.keys@[i as int]@));
            assert(local.keys@.take(i + 1) == keys.push(local.keys@[i as int]));
            assert(local.stats@.take(i + 1) == stats.push(stat));
            lemma_count_sum_push(stats, stat);
            lemma_count_sum_take(local.stats@, i + 1);
            assert(distinct(keys));
            lemma_model_push(keys, stats, local.keys@[i as int], stat);
            assert(!model(keys, stats).contains_key(local.keys@[i as int]@)) by {
                if model(keys, stats).contains_key(local.keys@[i as int]@) {
                    let j = choose|j: int| holds(keys, local.keys@[i as int]@, j);
                    assert(holds(keys, local.keys@[i as int]@, j));
                    assert(local.keys@[j]@ == local.keys@[i as int]@);
                }
            }
            lemma_merged_insert(
                old(global)@,
                model(keys, stats),
                local.keys@[i as int]@,
                stat@,
            );
        }
        global.absorb(local.keys[i].as_slice(), stat);
        i += 1;
    }
    proof {
        assert(local.keys@.take(n as int) == local.keys@);
        assert(local.stats@.take(n as int) == local.stats@);
    }
    Ok(())
}

} // verus!
