//! The data store: the table of entries and, beside it, an index of the
//! entries that expire, ordered by the instant they fall due.
use std::sync::Arc;
use vstd::prelude::*;
use crate::table::HTable;
use crate::response::texts_view;
use crate::wire::same_bytes;
use vstd::utf8::*;

verus! {

broadcast use {encode_utf8_valid_utf8, encode_utf8_decode_utf8};

/// An expiry index as a sequence of (instant in milliseconds, key), in the
/// order in which the entries fall due.
pub type Queue = Seq<(int, Seq<char>)>;

/// The instants never decrease along the queue.
pub open spec fn sorted(q: Queue) -> bool {
    forall|i: int, j: int| 0 <= i < j < q.len() ==> (#[trigger] q[i]).0 <= (#[trigger] q[j]).0
}

/// No key is in the queue twice.
pub open spec fn keys_unique(q: Queue) -> bool {
    forall|i: int, j: int|
        0 <= i < q.len() && 0 <= j < q.len() && i != j ==> (#[trigger] q[i]).1 != (#[trigger] q[j]).1
}

/// Whether `k` has a record in the queue.
pub open spec fn has_key(q: Queue, k: Seq<char>) -> bool {
    exists|i: int| 0 <= i < q.len() && (#[trigger] q[i]).1 == k
}

/// The position of the record of `k`.
pub open spec fn key_index(q: Queue, k: Seq<char>) -> int {
    choose|i: int| 0 <= i < q.len() && (#[trigger] q[i]).1 == k
}

/// The queue without the record of `k`.
pub open spec fn without(q: Queue, k: Seq<char>) -> Queue {
    if has_key(q, k) {
        q.remove(key_index(q, k))
    } else {
        q
    }
}

/// How many records at the front of the queue fall due at or before `t`.
pub open spec fn due_count(q: Queue, t: int) -> nat
    decreases q.len(),
{
    if q.len() == 0 {
        0
    } else if q[0].0 <= t {
        1 + due_count(q.drop_first(), t)
    } else {
        0
    }
}

/// The queue with `r` added after every record that falls due no later.
pub open spec fn place(q: Queue, r: (int, Seq<char>)) -> Queue {
    q.take(due_count(q, r.0) as int).push(r) + q.skip(due_count(q, r.0) as int)
}

/// The keys of the records of `q`, in order.
pub open spec fn queue_keys(q: Queue) -> Seq<Seq<char>> {
    q.map_values(|r: (int, Seq<char>)| r.1)
}

/// What the store holds: its entries, and its expiry index in the order in
/// which the entries fall due.
pub struct StoreView {
    pub entries: Map<Seq<char>, Seq<u8>>,
    pub queue: Queue,
}

/// The expiry index after a write of `k` with time to live `ttl` at `now`.
pub open spec fn queue_after_put(q: Queue, k: Seq<char>, ttl: u64, now: u64) -> Queue {
    if ttl == 0 {
        without(q, k)
    } else {
        place(without(q, k), (now + ttl, k))
    }
}

pub proof fn lemma_due_count(q: Queue, t: int)
    requires
        sorted(q),
    ensures
        due_count(q, t) <= q.len(),
        forall|j: int| 0 <= j < due_count(q, t) ==> (#[trigger] q[j]).0 <= t,
        forall|j: int| due_count(q, t) <= j < q.len() ==> (#[trigger] q[j]).0 > t,
    decreases q.len(),
{
    if q.len() > 0 {
        if q[0].0 <= t {
            let rest = q.drop_first();
            assert(sorted(rest)) by {
                assert forall|i: int, j: int| 0 <= i < j < rest.len() implies (#[trigger] rest[i]).0
                    <= (#[trigger] rest[j]).0 by {
                    assert(rest[i] == q[i + 1] && rest[j] == q[j + 1]);
                }
            }
            lemma_due_count(rest, t);
            assert forall|j: int| 0 <= j < due_count(q, t) implies (#[trigger] q[j]).0 <= t by {
                if j > 0 {
                    assert(q[j] == rest[j - 1]);
                }
            }
            assert forall|j: int| due_count(q, t) <= j < q.len() implies (#[trigger] q[j]).0 > t by {
                assert(q[j] == rest[j - 1]);
            }
        } else {
            assert forall|j: int| 0 <= j < q.len() implies (#[trigger] q[j]).0 > t by {
                if j > 0 {
                    assert(q[0].0 <= q[j].0);
                }
            }
        }
    }
}

/// The prefix property pins `due_count` down.
proof fn lemma_due_count_at(q: Queue, t: int, p: int)
    requires
        sorted(q),
        0 <= p <= q.len(),
        forall|j: int| 0 <= j < p ==> (#[trigger] q[j]).0 <= t,
        p == q.len() || q[p].0 > t,
    ensures
        due_count(q, t) == p,
{
    lemma_due_count(q, t);
    let d = due_count(q, t) as int;
    if d < p {
        assert(q[d].0 <= t);
    }
    if p < d {
        assert(q[p].0 <= t);
    }
}

proof fn lemma_key_index(q: Queue, i: int)
    requires
        keys_unique(q),
        0 <= i < q.len(),
    ensures
        has_key(q, q[i].1),
        key_index(q, q[i].1) == i,
{
    assert(has_key(q, q[i].1));
    let j = key_index(q, q[i].1);
    assert(q[j].1 == q[i].1);
}

proof fn lemma_without(q: Queue, k: Seq<char>)
    requires
        sorted(q),
        keys_unique(q),
    ensures
        sorted(without(q, k)),
        keys_unique(without(q, k)),
        !has_key(without(q, k), k),
        forall|k2: Seq<char>| k2 != k ==> (has_key(without(q, k), k2) <==> has_key(q, k2)),
{
    if has_key(q, k) {
        let i = key_index(q, k);
        let w = q.remove(i);
        assert forall|a: int| 0 <= a < w.len() implies #[trigger] w[a] == q[if a < i {
            a
        } else {
            a + 1
        }] by {}
        assert forall|a: int, b: int| 0 <= a < b < w.len() implies (#[trigger] w[a]).0 <= (
        #[trigger] w[b]).0 by {
            assert(w[a] == q[if a < i {
                a
            } else {
                a + 1
            }]);
            assert(w[b] == q[if b < i {
                b
            } else {
                b + 1
            }]);
        }
        assert forall|a: int, b: int|
            0 <= a < w.len() && 0 <= b < w.len() && a != b implies (#[trigger] w[a]).1 != (
            #[trigger] w[b]).1 by {
            assert(w[a] == q[if a < i {
                a
            } else {
                a + 1
            }]);
            assert(w[b] == q[if b < i {
                b
            } else {
                b + 1
            }]);
        }
        if has_key(w, k) {
            let a = choose|a: int| 0 <= a < w.len() && (#[trigger] w[a]).1 == k;
            assert(w[a] == q[if a < i {
                a
            } else {
                a + 1
            }]);
        }
        assert forall|k2: Seq<char>| k2 != k implies (has_key(w, k2) <==> has_key(q, k2)) by {
            if has_key(w, k2) {
                let a = choose|a: int| 0 <= a < w.len() && (#[trigger] w[a]).1 == k2;
                assert(w[a] == q[if a < i {
                    a
                } else {
                    a + 1
                }]);
            }
            if has_key(q, k2) {
                let a = choose|a: int| 0 <= a < q.len() && (#[trigger] q[a]).1 == k2;
                assert(a != i);
                let b = if a < i {
                    a
                } else {
                    a - 1
                };
                assert(w[b] == q[a]);
            }
        }
    }
}

proof fn lemma_place(q: Queue, r: (int, Seq<char>))
    requires
        sorted(q),
        keys_unique(q),
        !has_key(q, r.1),
    ensures
        sorted(place(q, r)),
        keys_unique(place(q, r)),
        has_key(place(q, r), r.1),
        forall|k2: Seq<char>| k2 != r.1 ==> (has_key(place(q, r), k2) <==> has_key(q, k2)),
{
    lemma_due_count(q, r.0);
    let d = due_count(q, r.0) as int;
    let p = place(q, r);
    assert(p =~= q.insert(d, r));
    assert forall|a: int| 0 <= a < p.len() implies #[trigger] p[a] == if a < d {
        q[a]
    } else if a == d {
        r
    } else {
        q[a - 1]
    } by {}
    assert forall|a: int, b: int| 0 <= a < b < p.len() implies (#[trigger] p[a]).0 <= (
    #[trigger] p[b]).0 by {}
    assert forall|a: int, b: int|
        0 <= a < p.len() && 0 <= b < p.len() && a != b implies (#[trigger] p[a]).1 != (
        #[trigger] p[b]).1 by {
        if a != d && b != d {
        } else if a == d {
            let ob = if b < d {
                b
            } else {
                b - 1
            };
            assert(q[ob].1 == p[b].1);
        } else {
            let oa = if a < d {
                a
            } else {
                a - 1
            };
            assert(q[oa].1 == p[a].1);
        }
    }
    assert(p[d].1 == r.1);
    assert forall|k2: Seq<char>| k2 != r.1 implies (has_key(p, k2) <==> has_key(q, k2)) by {
        if has_key(p, k2) {
            let a = choose|a: int| 0 <= a < p.len() && (#[trigger] p[a]).1 == k2;
            assert(a != d);
            let oa = if a < d {
                a
            } else {
                a - 1
            };
            assert(q[oa] == p[a]);
        }
        if has_key(q, k2) {
            let a = choose|a: int| 0 <= a < q.len() && (#[trigger] q[a]).1 == k2;
            let b = if a < d {
                a
            } else {
                a + 1
            };
            assert(p[b] == q[a]);
        }
    }
}

/// A record of the expiry index: the instant, in milliseconds, at which the
/// entry of `key` falls due.
#[derive(Clone, Debug)]
struct Expiry {
    expire: u128,
    key: String,
}

spec fn queue_of(v: Seq<Expiry>) -> Queue {
    v.map_values(|e: Expiry| (e.expire as int, e.key@))
}

/// The table of entries together with the expiry index of those written
/// with a time to live. The index is a vector ordered by instant, ties in the
/// order of writing; it is searched by key when a key is overwritten or
/// deleted.
pub struct DataStore {
    cache: HTable,
    ttls: Vec<Expiry>,
}

impl View for DataStore {
    type V = StoreView;

    closed spec fn view(&self) -> StoreView {
        StoreView { entries: self.cache@, queue: queue_of(self.ttls@) }
    }
}

/// The position of the record of `key` in the index.
fn expiry_position(ttls: &Vec<Expiry>, key: &str) -> (r: Option<usize>)
    ensures
        match r {
            Some(i) => i < ttls@.len() && ttls@[i as int].key@ == key@,
            None => !has_key(queue_of(ttls@), key@),
        },
{
    let kb = key.as_bytes();
    let mut i: usize = 0;
    while i < ttls.len()
        invariant
            i <= ttls@.len(),
            kb@ == encode_utf8(key@),
            forall|j: int| 0 <= j < i ==> ttls@[j].key@ != key@,
        decreases ttls@.len() - i,
    {
        if same_bytes(ttls[i].key.as_str().as_bytes(), kb) {
            proof {
                encode_utf8_decode_utf8(ttls@[i as int].key@);
                encode_utf8_decode_utf8(key@);
            }
            return Some(i);
        }
        i += 1;
    }
    proof {
        let q = queue_of(ttls@);
        if has_key(q, key@) {
            let j = choose|j: int| 0 <= j < q.len() && (#[trigger] q[j]).1 == key@;
            assert(q[j].1 == ttls@[j].key@);
        }
    }
    None
}

impl DataStore {
    /// The table and the index agree: the index is ordered by instant, holds
    /// a key at most once, and every key in it has an entry.
    pub closed spec fn wf(&self) -> bool {
        let q = queue_of(self.ttls@);
        &&& self.cache.wf()
        &&& sorted(q)
        &&& keys_unique(q)
        &&& forall|i: int| 0 <= i < q.len() ==> self.cache@.contains_key(#[trigger] q[i].1)
    }

    /// The live keys in the order in which [`DataStore::keys`] lists them.
    pub closed spec fn key_list(&self) -> Seq<Seq<char>> {
        self.cache.key_list()
    }

    /// An empty store whose table has `size` buckets.
    pub fn new(size: usize) -> (r: Self)
        requires
            size > 0,
        ensures
            r.wf(),
            r@.entries == Map::<Seq<char>, Seq<u8>>::empty(),
            r@.queue == Seq::<(int, Seq<char>)>::empty(),
    {
        let cache = HTable::new(size);
        let ttls: Vec<Expiry> = Vec::new();
        let r = DataStore { cache, ttls };
        assert(queue_of(r.ttls@) =~= Seq::<(int, Seq<char>)>::empty());
        r
    }

    /// The live keys, each once.
    pub fn keys(&self) -> (r: &Vec<String>)
        requires
            self.wf(),
        ensures
            texts_view(r@) == self.key_list(),
            texts_view(r@).no_duplicates(),
            forall|k: Seq<char>| #[trigger] texts_view(r@).contains(k) <==> self@.entries.contains_key(k),
    {
        self.cache.keys()
    }

    /// The value stored under `key`. Expiry is not checked here: an entry
    /// past its instant stays visible until a sweep evicts it.
    pub fn get(&self, key: &str) -> (r: Option<Arc<Vec<u8>>>)
        requires
            self.wf(),
        ensures
            match r {
                Some(v) => self@.entries.contains_key(key@) && v@ == self@.entries[key@],
                None => !self@.entries.contains_key(key@),
            },
    {
        self.cache.get(key)
    }

    /// Drops the index record of `key`, if there is one.
    fn unschedule(&mut self, key: &str)
        requires
            sorted(queue_of(old(self).ttls@)),
            keys_unique(queue_of(old(self).ttls@)),
        ensures
            final(self).cache == old(self).cache,
            queue_of(final(self).ttls@) == without(queue_of(old(self).ttls@), key@),
    {
        let ghost q = queue_of(self.ttls@);
        match expiry_position(&self.ttls, key) {
            Some(i) => {
                let _removed = self.ttls.remove(i);
                proof {
                    assert(q[i as int].1 == key@);
                    lemma_key_index(q, i as int);
                    assert(queue_of(self.ttls@) =~= q.remove(i as int));
                }
            },
            None => {},
        }
    }

    /// Adds the record of `key` falling due at `expire`, after every record
    /// that falls due no later.
    fn schedule(&mut self, key: &str, expire: u128)
        requires
            sorted(queue_of(old(self).ttls@)),
        ensures
            final(self).cache == old(self).cache,
            queue_of(final(self).ttls@) == place(queue_of(old(self).ttls@), (expire as int, key@)),
    {
        let ghost q = queue_of(self.ttls@);
        let mut p: usize = 0;
        while p < self.ttls.len() && self.ttls[p].expire <= expire
            invariant
                p <= self.ttls@.len(),
                q == queue_of(self.ttls@),
                forall|j: int| 0 <= j < p ==> (#[trigger] q[j]).0 <= expire,
            decreases self.ttls@.len() - p,
        {
            p += 1;
        }
        proof {
            lemma_due_count_at(q, expire as int, p as int);
        }
        self.ttls.insert(p, Expiry { expire, key: key.to_owned() });
        assert(queue_of(self.ttls@) =~= place(q, (expire as int, key@)));
    }

    /// Stores `value` under `key`. A time to live of 0 makes the entry
    /// permanent; otherwise it falls due `ttl` milliseconds after `now`. A
    /// record of an earlier write of the key is dropped either way.
    pub fn insert(&mut self, key: &str, value: Vec<u8>, ttl: u64, now: u64)
        requires
            old(self).wf(),
        ensures
            final(self).wf(),
            final(self)@.entries == old(self)@.entries.insert(key@, value@),
            final(self)@.queue == queue_after_put(old(self)@.queue, key@, ttl, now),
    {
        let ghost q0 = queue_of(self.ttls@);
        let ghost e0 = self.cache@;
        proof {
            lemma_without(q0, key@);
        }
        self.unschedule(key);
        if ttl != 0 {
            let expire = now as u128 + ttl as u128;
            self.schedule(key, expire);
            proof {
                lemma_place(without(q0, key@), (expire as int, key@));
            }
        }
        self.cache.insert(key, value);
        proof {
            let q = queue_of(self.ttls@);
            assert forall|i: int| 0 <= i < q.len() implies self.cache@.contains_key(
                #[trigger] q[i].1,
            ) by {
                if q[i].1 != key@ {
                    assert(has_key(q, q[i].1));
                    assert(has_key(q0, q[i].1));
                    let j = choose|j: int| 0 <= j < q0.len() && (#[trigger] q0[j]).1 == q[i].1;
                    assert(e0.contains_key(q0[j].1));
                }
            }
        }
    }

    /// Removes `key`, its value and its index record; nothing happens when
    /// it is absent.
    pub fn delete(&mut self, key: &str)
        requires
            old(self).wf(),
        ensures
            final(self).wf(),
            final(self)@.entries == old(self)@.entries.remove(key@),
            final(self)@.queue == without(old(self)@.queue, key@),
    {
        let ghost q0 = queue_of(self.ttls@);
        let ghost e0 = self.cache@;
        proof {
            lemma_without(q0, key@);
        }
        self.unschedule(key);
        self.cache.delete(key);
        proof {
            let q = queue_of(self.ttls@);
            assert forall|i: int| 0 <= i < q.len() implies self.cache@.contains_key(
                #[trigger] q[i].1,
            ) by {
                assert(has_key(q, q[i].1));
                assert(q[i].1 != key@);
                assert(has_key(q0, q[i].1));
                let j = choose|j: int| 0 <= j < q0.len() && (#[trigger] q0[j]).1 == q[i].1;
                assert(e0.contains_key(q0[j].1));
            }
        }
    }

    /// Evicts the entry that falls due first, if it is due at `now`, and
    /// returns its key; otherwise changes nothing.
    pub fn try_expire(&mut self, now: u64) -> (r: Option<String>)
        requires
            old(self).wf(),
        ensures
            final(self).wf(),
            match r {
                Some(k) => {
                    let q = old(self)@.queue;
                    &&& q.len() > 0
                    &&& q[0].0 <= now
                    &&& k@ == q[0].1
                    &&& final(self)@.queue == q.drop_first()
                    &&& final(self)@.entries == old(self)@.entries.remove(k@)
                },
                None => {
                    &&& (old(self)@.queue.len() == 0 || old(self)@.queue[0].0 > now)
                    &&& final(self)@ == old(self)@
                },
            },
    {
        if self.ttls.len() == 0 || self.ttls[0].expire > now as u128 {
            return None;
        }
        let ghost q0 = queue_of(self.ttls@);
        let ghost e0 = self.cache@;
        let first = self.ttls.remove(0);
        self.cache.delete(first.key.as_str());
        proof {
            let q = queue_of(self.ttls@);
            assert(q =~= q0.drop_first());
            assert forall|i: int| 0 <= i < q.len() implies self.cache@.contains_key(
                #[trigger] q[i].1,
            ) by {
                assert(q[i] == q0[i + 1]);
                assert(q0[i + 1].1 != q0[0].1);
                assert(e0.contains_key(q0[i + 1].1));
            }
            assert forall|i: int, j: int| 0 <= i < j < q.len() implies (#[trigger] q[i]).0 <= (
            #[trigger] q[j]).0 by {
                assert(q[i] == q0[i + 1] && q[j] == q0[j + 1]);
            }
            assert forall|i: int, j: int|
                0 <= i < q.len() && 0 <= j < q.len() && i != j implies (#[trigger] q[i]).1 != (
                #[trigger] q[j]).1 by {
                assert(q[i] == q0[i + 1] && q[j] == q0[j + 1]);
            }
        }
        Some(first.key)
    }

    /// Evicts every entry that falls due at or before `now`, in the order of
    /// the index, and returns their keys in that order (possibly none).
    pub fn expire(&mut self, now: u64) -> (r: Vec<String>)
        requires
            old(self).wf(),
        ensures
            final(self).wf(),
            ({
                let q = old(self)@.queue;
                let d = due_count(q, now as int) as int;
                &&& texts_view(r@) == queue_keys(q.take(d))
                &&& final(self)@.queue == q.skip(d)
                &&& final(self)@.entries == old(self)@.entries.remove_keys(
                    queue_keys(q.take(d)).to_set(),
                )
            }),
    {
        let ghost q0 = self@.queue;
        let ghost e0 = self@.entries;
        let mut expired_keys: Vec<String> = Vec::new();
        let mut done = false;
        while !done
            invariant
                self.wf(),
                sorted(q0),
                expired_keys@.len() <= q0.len(),
                self@.queue == q0.skip(expired_keys@.len() as int),
                forall|j: int| 0 <= j < expired_keys@.len() ==> (#[trigger] q0[j]).0 <= now,
                texts_view(expired_keys@) == queue_keys(q0.take(expired_keys@.len() as int)),
                self@.entries == e0.remove_keys(texts_view(expired_keys@).to_set()),
                done ==> (self@.queue.len() == 0 || self@.queue[0].0 > now),
            decreases self@.queue.len() + if done {
                0int
            } else {
                1int
            },
        {
            let ghost m = expired_keys@.len() as int;
            let ghost before = texts_view(expired_keys@);
            let ghost ents = self@.entries;
            match self.try_expire(now) {
                Some(key) => {
                    proof {
                        assert(q0.skip(m)[0] == q0[m]);
                        assert(q0.skip(m).drop_first() =~= q0.skip(m + 1));
                        assert(queue_keys(q0.take(m + 1)) =~= queue_keys(q0.take(m)).push(
                            q0[m].1,
                        ));
                        let after = before.push(key@);
                        assert forall|x: Seq<char>| after.contains(x) <==> (before.contains(x) || x
                            == key@) by {
                            if after.contains(x) {
                                let a = choose|a: int| 0 <= a < after.len() && after[a] == x;
                                if a < before.len() {
                                    assert(before[a] == x);
                                }
                            }
                            if before.contains(x) {
                                let a = choose|a: int| 0 <= a < before.len() && before[a] == x;
                                assert(after[a] == x);
                            }
                            if x == key@ {
                                assert(after[before.len() as int] == x);
                            }
                        }
                        assert(after.to_set() =~= before.to_set().insert(key@));
                        assert(e0.remove_keys(after.to_set()) =~= ents.remove(key@));
                    }
                    expired_keys.push(key);
                    proof {
                        assert(texts_view(expired_keys@) =~= before.push(key@));
                    }
                },
                None => {
                    done = true;
                },
            }
        }
        proof {
            let m = expired_keys@.len() as int;
            if m < q0.len() {
                assert(q0.skip(m)[0] == q0[m]);
            }
            lemma_due_count_at(q0, now as int, m);
        }
        expired_keys
    }
}

/// The record of `a` comes before the record of `b` in the queue.
pub open spec fn precedes(q: Queue, a: Seq<char>, b: Seq<char>) -> bool {
    exists|i: int, j: int| 0 <= i < j < q.len() && (#[trigger] q[i]).1 == a && (#[trigger] q[j]).1 == b
}

/// Where the record of `a` stands once the record of `k` is dropped.
proof fn lemma_without_index(q: Queue, k: Seq<char>, a: Seq<char>, ia: int)
    requires
        keys_unique(q),
        0 <= ia < q.len(),
        q[ia].1 == a,
        a != k,
    ensures
        ({
            let w = without(q, k);
            let shifted = has_key(q, k) && key_index(q, k) < ia;
            let wa = if shifted {
                ia - 1
            } else {
                ia
            };
            &&& 0 <= wa < w.len()
            &&& w[wa] == q[ia]
        }),
{
    if has_key(q, k) {
        let ik = key_index(q, k);
        assert(ik != ia);
    }
}

/// A write of `b` whose record falls due no earlier than the record of `a`
/// puts `b` behind `a`.
pub proof fn lemma_later_write_expires_later(q: Queue, a: Seq<char>, b: Seq<char>, ttl: u64, now: u64)
    requires
        sorted(q),
        keys_unique(q),
        has_key(q, a),
        a != b,
        ttl > 0,
        q[key_index(q, a)].0 <= now + ttl,
    ensures
        precedes(queue_after_put(q, b, ttl, now), a, b),
{
    let e = now + ttl;
    let ia = key_index(q, a);
    lemma_without(q, b);
    lemma_without_index(q, b, a, ia);
    let w = without(q, b);
    let wa = if has_key(q, b) && key_index(q, b) < ia {
        ia - 1
    } else {
        ia
    };
    lemma_due_count(w, e);
    let d = due_count(w, e) as int;
    assert(wa < d);
    let p = place(w, (e, b));
    assert(p[wa] == w[wa]);
    assert(p[d] == (e, b));
}

/// A write of a third key keeps the order of the records of `a` and `b`.
pub proof fn lemma_other_write_keeps_order(
    q: Queue,
    a: Seq<char>,
    b: Seq<char>,
    c: Seq<char>,
    ttl: u64,
    now: u64,
)
    requires
        sorted(q),
        keys_unique(q),
        precedes(q, a, b),
        c != a,
        c != b,
    ensures
        precedes(queue_after_put(q, c, ttl, now), a, b),
{
    let (ia, ib) = choose|ia: int, ib: int|
        0 <= ia < ib < q.len() && (#[trigger] q[ia]).1 == a && (#[trigger] q[ib]).1 == b;
    lemma_without(q, c);
    lemma_without_index(q, c, a, ia);
    lemma_without_index(q, c, b, ib);
    let w = without(q, c);
    let shift = has_key(q, c);
    let wa = if shift && key_index(q, c) < ia {
        ia - 1
    } else {
        ia
    };
    let wb = if shift && key_index(q, c) < ib {
        ib - 1
    } else {
        ib
    };
    assert(w[wa].1 == a && w[wb].1 == b);
    assert(wa < wb);
    if ttl > 0 {
        let e = now + ttl;
        lemma_due_count(w, e);
        let d = due_count(w, e) as int;
        let p = place(w, (e, c));
        let pa = if wa < d {
            wa
        } else {
            wa + 1
        };
        let pb = if wb < d {
            wb
        } else {
            wb + 1
        };
        assert(p[pa] == w[wa]);
        assert(p[pb] == w[wb]);
        assert(precedes(p, a, b));
    } else {
        assert(precedes(w, a, b));
    }
}

/// Three writes of distinct keys whose records fall due in nondecreasing
/// order (the same `now` and increasing times to live, or equal ones) leave
/// the three records in the order of writing, which is the order in which
/// [`DataStore::expire`] evicts them.
pub proof fn lemma_expiry_order(
    q: Queue,
    a: Seq<char>,
    b: Seq<char>,
    c: Seq<char>,
    ta: u64,
    tb: u64,
    tc: u64,
    na: u64,
    nb: u64,
    nc: u64,
)
    requires
        sorted(q),
        keys_unique(q),
        a != b,
        b != c,
        a != c,
        ta > 0,
        tb > 0,
        tc > 0,
        na + ta <= nb + tb <= nc + tc,
    ensures
        ({
            let q1 = queue_after_put(q, a, ta, na);
            let q2 = queue_after_put(q1, b, tb, nb);
            let q3 = queue_after_put(q2, c, tc, nc);
            precedes(q3, a, b) && precedes(q3, b, c)
        }),
{
    lemma_without(q, a);
    lemma_place(without(q, a), (na + ta, a));
    let q1 = queue_after_put(q, a, ta, na);
    lemma_due_count(without(q, a), (na + ta) as int);
    let d1 = due_count(without(q, a), (na + ta) as int) as int;
    assert(q1[d1] == (na + ta, a));
    lemma_key_index(q1, d1);
    lemma_later_write_expires_later(q1, a, b, tb, nb);
    let q2 = queue_after_put(q1, b, tb, nb);
    lemma_without(q1, b);
    lemma_place(without(q1, b), (nb + tb, b));
    lemma_due_count(without(q1, b), (nb + tb) as int);
    let d2 = due_count(without(q1, b), (nb + tb) as int) as int;
    assert(q2[d2] == (nb + tb, b));
    lemma_key_index(q2, d2);
    lemma_later_write_expires_later(q2, b, c, tc, nc);
    lemma_other_write_keeps_order(q2, a, b, c, tc, nc);
}

/// In every well-formed store, each key with an expiry record has an entry,
/// so a key without an entry has no record. Every operation keeps the store
/// well formed, so this holds after any sequence of them.
pub proof fn lemma_store_consistent(s: &DataStore)
    requires
        s.wf(),
    ensures
        forall|i: int|
            0 <= i < s@.queue.len() ==> s@.entries.contains_key(#[trigger] s@.queue[i].1),
        forall|k: Seq<char>| !s@.entries.contains_key(k) ==> !has_key(s@.queue, k),
        sorted(s@.queue),
        keys_unique(s@.queue),
{
}

/// Deleting a key that is absent changes nothing, in the entries or in the
/// index; and a delete cannot fail.
pub proof fn lemma_delete_absent(s: &DataStore, k: Seq<char>)
    requires
        s.wf(),
        !s@.entries.contains_key(k),
    ensures
        s@.entries.remove(k) == s@.entries,
        without(s@.queue, k) == s@.queue,
{
    lemma_store_consistent(s);
    assert(s@.entries.remove(k) =~= s@.entries);
}

} // verus!
