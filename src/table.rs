//! A hash table from text keys to byte values: a fixed number of buckets,
//! each a short list scanned linearly, and the list of live keys beside it.
use std::sync::Arc;
use vstd::prelude::*;
use vstd::utf8::*;
use crate::wire::same_bytes;
use crate::response::texts_view;

verus! {

broadcast use {encode_utf8_valid_utf8, encode_utf8_decode_utf8};

/// The sum of the bytes of `b`, wrapping around at the width of `usize`.
pub open spec fn byte_sum(b: Seq<u8>) -> usize
    decreases b.len(),
{
    if b.len() == 0 {
        0
    } else {
        vstd::wrapping::usize_specs::wrapping_add(byte_sum(b.drop_last()), b.last() as usize)
    }
}

/// The hash of a key: the wrapping sum of its UTF-8 bytes.
pub open spec fn hash_of(k: Seq<char>) -> usize {
    byte_sum(encode_utf8(k))
}

/// The bucket that holds `k` among `n` buckets.
pub open spec fn bucket_of(k: Seq<char>, n: nat) -> int {
    hash_of(k) as int % n as int
}

/// The hash of `key`: the sum of its UTF-8 bytes, wrapping around.
pub fn hash_key(key: &str) -> (r: usize)
    ensures
        r == hash_of(key@),
{
    let b = key.as_bytes();
    let mut acc: usize = 0;
    let mut i: usize = 0;
    while i < b.len()
        invariant
            i <= b@.len(),
            b@ == encode_utf8(key@),
            acc == byte_sum(b@.subrange(0, i as int)),
        decreases b@.len() - i,
    {
        assert(b@.subrange(0, i + 1).drop_last() =~= b@.subrange(0, i as int));
        acc = acc.wrapping_add(b[i] as usize);
        i += 1;
    }
    assert(b@.subrange(0, b@.len() as int) =~= b@);
    acc
}

/// One entry of a bucket: the bucket's index, the key, and the shared value.
#[derive(Clone, Debug)]
pub struct HNode {
    pub code: usize,
    pub key: String,
    pub value: Arc<Vec<u8>>,
}

/// The index of the first node of `bucket` whose key is `key`.
fn position(key: &str, bucket: &Vec<Arc<HNode>>) -> (r: Option<usize>)
    ensures
        match r {
            Some(i) => i < bucket@.len() && bucket@[i as int].key@ == key@ && forall|j: int|
                0 <= j < i ==> bucket@[j].key@ != key@,
            None => forall|j: int| 0 <= j < bucket@.len() ==> bucket@[j].key@ != key@,
        },
{
    let kb = key.as_bytes();
    let mut i: usize = 0;
    while i < bucket.len()
        invariant
            i <= bucket@.len(),
            kb@ == encode_utf8(key@),
            forall|j: int| 0 <= j < i ==> bucket@[j].key@ != key@,
        decreases bucket@.len() - i,
    {
        let node: &HNode = &bucket[i];
        if same_bytes(node.key.as_str().as_bytes(), kb) {
            proof {
                encode_utf8_decode_utf8(node.key@);
                encode_utf8_decode_utf8(key@);
            }
            return Some(i);
        }
        i += 1;
    }
    None
}

/// The first node of `bucket` whose key is `key`.
pub fn find_matching_node<'a, 'b>(key: &'a str, bucket: &'b Vec<Arc<HNode>>) -> (r: Option<
    &'b Arc<HNode>,
>)
    ensures
        match r {
            Some(n) => exists|i: int|
                0 <= i < bucket@.len() && bucket@[i] == *n && n.key@ == key@ && forall|j: int|
                    0 <= j < i ==> bucket@[j].key@ != key@,
            None => forall|j: int| 0 <= j < bucket@.len() ==> bucket@[j].key@ != key@,
        },
{
    match position(key, bucket) {
        Some(i) => Some(&bucket[i]),
        None => None,
    }
}

/// The index of `key` in `keys`.
fn key_position(keys: &Vec<String>, key: &str) -> (r: Option<usize>)
    ensures
        match r {
            Some(i) => i < keys@.len() && keys@[i as int]@ == key@,
            None => !texts_view(keys@).contains(key@),
        },
{
    let kb = key.as_bytes();
    let mut i: usize = 0;
    while i < keys.len()
        invariant
            i <= keys@.len(),
            kb@ == encode_utf8(key@),
            forall|j: int| 0 <= j < i ==> keys@[j]@ != key@,
        decreases keys@.len() - i,
    {
        if same_bytes(keys[i].as_str().as_bytes(), kb) {
            proof {
                encode_utf8_decode_utf8(keys@[i as int]@);
                encode_utf8_decode_utf8(key@);
            }
            return Some(i);
        }
        i += 1;
    }
    assert forall|j: int| 0 <= j < texts_view(keys@).len() implies texts_view(keys@)[j] != key@ by {
        assert(texts_view(keys@)[j] == keys@[j]@);
    }
    None
}

proof fn lemma_swap_remove(s: Seq<Seq<char>>, j: int)
    requires
        s.no_duplicates(),
        0 <= j < s.len(),
    ensures
        s.update(j, s.last()).drop_last().no_duplicates(),
        forall|k: Seq<char>|
            #[trigger] s.update(j, s.last()).drop_last().contains(k) <==> (s.contains(k) && k
                != s[j]),
{
    let r = s.update(j, s.last()).drop_last();
    let last = s.len() - 1;
    assert forall|a: int| 0 <= a < r.len() implies #[trigger] r[a] == if a == j {
        s[last]
    } else {
        s[a]
    } by {}
    assert forall|a: int, b: int| 0 <= a < r.len() && 0 <= b < r.len() && a != b implies r[a]
        != r[b] by {
        let ia = if a == j {
            last
        } else {
            a
        };
        let ib = if b == j {
            last
        } else {
            b
        };
        assert(r[a] == s[ia] && r[b] == s[ib]);
    }
    assert forall|k: Seq<char>| #[trigger] r.contains(k) <==> (s.contains(k) && k != s[j]) by {
        if r.contains(k) {
            let a = choose|a: int| 0 <= a < r.len() && r[a] == k;
            let ia = if a == j {
                last
            } else {
                a
            };
            assert(s[ia] == k);
        }
        if s.contains(k) && k != s[j] {
            let a = choose|a: int| 0 <= a < s.len() && s[a] == k;
            if a == last {
                assert(r[j] == k);
            } else {
                assert(r[a] == k);
            }
        }
    }
}

/// A table from text keys to shared byte values.
pub struct HTable {
    table: Vec<Vec<Arc<HNode>>>,
    keys: Vec<String>,
    size: usize,
    contents: Ghost<Map<Seq<char>, Seq<u8>>>,
}

impl View for HTable {
    type V = Map<Seq<char>, Seq<u8>>;

    closed spec fn view(&self) -> Map<Seq<char>, Seq<u8>> {
        self.contents@
    }
}

impl HTable {
    /// The live keys in the order in which [`HTable::keys`] lists them.
    pub closed spec fn key_list(&self) -> Seq<Seq<char>> {
        texts_view(self.keys@)
    }

    /// The number of buckets.
    pub closed spec fn bucket_count(&self) -> nat {
        self.table@.len()
    }

    /// The buckets agree with the contents: each node sits in the bucket of
    /// its key, a bucket holds a key at most once, and the nodes are exactly
    /// the entries of the contents. The key list holds each live key once.
    pub closed spec fn wf(&self) -> bool {
        let t = self.table@;
        let n = t.len();
        let m = self.contents@;
        &&& n > 0
        &&& forall|b: int, i: int|
            0 <= b < n && 0 <= i < t[b]@.len() ==> {
                &&& (#[trigger] t[b]@[i]).code == b
                &&& bucket_of(t[b]@[i].key@, n) == b
                &&& m.contains_key(t[b]@[i].key@)
                &&& m[t[b]@[i].key@] == t[b]@[i].value@
            }
        &&& forall|b: int, i: int, j: int|
            0 <= b < n && 0 <= i < t[b]@.len() && 0 <= j < t[b]@.len() && i != j
                ==> (#[trigger] t[b]@[i]).key@ != (#[trigger] t[b]@[j]).key@
        &&& forall|k: Seq<char>|
            #[trigger] m.contains_key(k) ==> exists|i: int|
                0 <= i < t[bucket_of(k, n)]@.len() && (#[trigger] t[bucket_of(k, n)]@[i]).key@
                    == k
        &&& self.key_list().no_duplicates()
        &&& forall|k: Seq<char>| #[trigger] self.key_list().contains(k) <==> m.contains_key(k)
        &&& self.size == self.keys@.len()
    }

    /// An empty table with `size` buckets; any positive count works, and a
    /// power of two is customary.
    pub fn new(size: usize) -> (r: Self)
        requires
            size > 0,
        ensures
            r.wf(),
            r@ == Map::<Seq<char>, Seq<u8>>::empty(),
            r.key_list() == Seq::<Seq<char>>::empty(),
            r.bucket_count() == size,
    {
        let mut table: Vec<Vec<Arc<HNode>>> = Vec::new();
        let mut i: usize = 0;
        while i < size
            invariant
                i <= size,
                table@.len() == i,
                forall|b: int| 0 <= b < i ==> (#[trigger] table@[b])@.len() == 0,
            decreases size - i,
        {
            table.push(Vec::new());
            i += 1;
        }
        let r = HTable {
            table,
            keys: Vec::new(),
            size: 0,
            contents: Ghost(Map::empty()),
        };
        assert(r.key_list() =~= Seq::<Seq<char>>::empty());
        r
    }

    /// The value stored under `key`, shared with the table.
    pub fn get(&self, key: &str) -> (r: Option<Arc<Vec<u8>>>)
        requires
            self.wf(),
        ensures
            match r {
                Some(v) => self@.contains_key(key@) && v@ == self@[key@],
                None => !self@.contains_key(key@),
            },
    {
        let n = self.table.len();
        let h = hash_key(key) % n;
        let bucket: &Vec<Arc<HNode>> = &self.table[h];
        match find_matching_node(key, bucket) {
            Some(node) => {
                let ghost i = choose|i: int| 0 <= i < bucket@.len() && bucket@[i] == *node;
                assert(self.table@[h as int]@[i] == *node);
                Some(node.value.clone())
            },
            None => {
                proof {
                    if self@.contains_key(key@) {
                        let i = choose|i: int|
                            0 <= i < self.table@[h as int]@.len() && (#[trigger] self.table@[h as int]@[i]).key@
                                == key@;
                        assert(bucket@[i].key@ == key@);
                    }
                }
                None
            },
        }
    }

    /// Removes `key` and its value; nothing happens when it is absent.
    pub fn delete(&mut self, key: &str)
        requires
            old(self).wf(),
        ensures
            final(self).wf(),
            final(self)@ == old(self)@.remove(key@),
            final(self).bucket_count() == old(self).bucket_count(),
            !old(self)@.contains_key(key@) ==> final(self).key_list() == old(self).key_list(),
    {
        let n = self.table.len();
        let h = hash_key(key) % n;
        let ghost t0 = self.table@;
        let ghost m0 = self.contents@;
        let ghost kl0 = self.key_list();
        match position(key, &self.table[h]) {
            Some(i) => {
                let _removed = self.table[h].remove(i);
                proof {
                    let t = self.table@;
                    assert(t[h as int]@ == t0[h as int]@.remove(i as int));
                    assert forall|b: int, j: int|
                        0 <= b < n && 0 <= j < t[b]@.len() implies (#[trigger] t[b]@[j]).key@
                        != key@ by {
                        if b == h {
                            let oj = if j < i {
                                j
                            } else {
                                j + 1
                            };
                            assert(t[b]@[j] == t0[b]@[oj]);
                        } else {
                            assert(t[b]@[j] == t0[b]@[j]);
                        }
                    }
                    assert forall|b: int, j: int, l: int|
                        0 <= b < n && 0 <= j < t[b]@.len() && 0 <= l < t[b]@.len() && j != l
                        implies (#[trigger] t[b]@[j]).key@ != (#[trigger] t[b]@[l]).key@ by {
                        if b == h {
                            let oj = if j < i {
                                j
                            } else {
                                j + 1
                            };
                            let ol = if l < i {
                                l
                            } else {
                                l + 1
                            };
                            assert(t[b]@[j] == t0[b]@[oj]);
                            assert(t[b]@[l] == t0[b]@[ol]);
                        } else {
                            assert(t[b]@[j] == t0[b]@[j]);
                            assert(t[b]@[l] == t0[b]@[l]);
                        }
                    }
                    assert forall|b: int, j: int| 0 <= b < n && 0 <= j < t[b]@.len() implies {
                        &&& (#[trigger] t[b]@[j]).code == b
                        &&& bucket_of(t[b]@[j].key@, n as nat) == b
                        &&& m0.remove(key@).contains_key(t[b]@[j].key@)
                        &&& m0.remove(key@)[t[b]@[j].key@] == t[b]@[j].value@
                    } by {
                        let oj = if b == h && j >= i {
                            j + 1
                        } else {
                            j
                        };
                        assert(t[b]@[j] == t0[b]@[oj]);
                    }
                    assert forall|k: Seq<char>| #[trigger]
                        m0.remove(key@).contains_key(k) implies exists|j: int|
                        0 <= j < t[bucket_of(k, n as nat)]@.len() && (#[trigger] t[bucket_of(
                            k,
                            n as nat,
                        )]@[j]).key@ == k by {
                        let b = bucket_of(k, n as nat);
                        let oj = choose|oj: int|
                            0 <= oj < t0[b]@.len() && (#[trigger] t0[b]@[oj]).key@ == k;
                        if b == h {
                            assert(oj != i);
                            let j = if oj < i {
                                oj
                            } else {
                                oj - 1
                            };
                            assert(t[b]@[j] == t0[b]@[oj]);
                        } else {
                            assert(t[b]@[oj] == t0[b]@[oj]);
                        }
                    }
                }
            },
            None => {
                proof {
                    if m0.contains_key(key@) {
                        let j = choose|j: int|
                            0 <= j < t0[h as int]@.len() && (#[trigger] t0[h as int]@[j]).key@
                                == key@;
                    }
                    assert(m0.remove(key@) =~= m0);
                }
            },
        }
        match key_position(&self.keys, key) {
            Some(j) => {
                let _removed = self.keys.swap_remove(j);
                proof {
                    assert(kl0[j as int] == key@);
                    assert(kl0.contains(key@));
                    lemma_swap_remove(kl0, j as int);
                    assert(self.key_list() =~= kl0.update(j as int, kl0.last()).drop_last());
                }
            },
            None => {},
        }
        self.size = self.keys.len();
        proof {
            self.contents = Ghost(m0.remove(key@));
        }
    }

    /// Stores `value` under `key`, replacing whatever was stored there.
    pub fn insert(&mut self, key: &str, value: Vec<u8>)
        requires
            old(self).wf(),
        ensures
            final(self).wf(),
            final(self)@ == old(self)@.insert(key@, value@),
            final(self).bucket_count() == old(self).bucket_count(),
            !old(self)@.contains_key(key@) ==> final(self).key_list() == old(self).key_list().push(
                key@,
            ),
    {
        self.delete(key);
        let n = self.table.len();
        let h = hash_key(key) % n;
        let ghost t0 = self.table@;
        let ghost m0 = self.contents@;
        let ghost kl0 = self.key_list();
        let ghost v = value@;
        let node = HNode { code: h, key: key.to_owned(), value: Arc::new(value) };
        self.table[h].push(Arc::new(node));
        self.keys.push(key.to_owned());
        self.size = self.keys.len();
        proof {
            let m = m0.insert(key@, v);
            let t = self.table@;
            let nn = t.len();
            assert(nn == n);
            self.contents = Ghost(m);
            let last = t0[h as int]@.len() as int;
            assert(t[h as int]@ == t0[h as int]@.push(Arc::new(node)));
            assert forall|j: int| 0 <= j < t0[h as int]@.len() implies (#[trigger] t0[h as int]@[j]).key@
                != key@ by {}
            assert forall|b: int, j: int| 0 <= b < n && 0 <= j < t[b]@.len() implies {
                &&& (#[trigger] t[b]@[j]).code == b
                &&& bucket_of(t[b]@[j].key@, nn) == b
                &&& m.contains_key(t[b]@[j].key@)
                &&& m[t[b]@[j].key@] == t[b]@[j].value@
            } by {
                if !(b == h && j == last) {
                    assert(t[b]@[j] == t0[b]@[j]);
                    if b != h {
                        assert(t0[b]@[j].key@ != key@);
                    }
                }
            }
            assert forall|b: int, j: int, l: int|
                0 <= b < n && 0 <= j < t[b]@.len() && 0 <= l < t[b]@.len() && j != l implies (
                #[trigger] t[b]@[j]).key@ != (#[trigger] t[b]@[l]).key@ by {
                if b == h && (j == last || l == last) {
                    if j == last {
                        assert(t[b]@[l] == t0[b]@[l]);
                    } else {
                        assert(t[b]@[j] == t0[b]@[j]);
                    }
                } else {
                    assert(t[b]@[j] == t0[b]@[j]);
                    assert(t[b]@[l] == t0[b]@[l]);
                }
            }
            assert forall|k: Seq<char>| #[trigger] m.contains_key(k) implies exists|j: int|
                0 <= j < t[bucket_of(k, nn)]@.len() && (#[trigger] t[bucket_of(
                    k,
                    nn,
                )]@[j]).key@ == k by {
                if k == key@ {
                    assert(t[h as int]@[last].key@ == k);
                } else {
                    let b = bucket_of(k, nn);
                    let oj = choose|oj: int|
                        0 <= oj < t0[b]@.len() && (#[trigger] t0[b]@[oj]).key@ == k;
                    assert(t[b]@[oj] == t0[b]@[oj]);
                }
            }
            assert(self.key_list() =~= kl0.push(key@));
            assert(!kl0.contains(key@));
            let kl = self.key_list();
            assert forall|a: int, b: int|
                0 <= a < kl.len() && 0 <= b < kl.len() && a != b implies kl[a] != kl[b] by {
                if a == kl0.len() {
                    assert(kl[b] == kl0[b]);
                } else if b == kl0.len() {
                    assert(kl[a] == kl0[a]);
                } else {
                    assert(kl[a] == kl0[a] && kl[b] == kl0[b]);
                }
            }
            assert(kl.no_duplicates());
            assert(self.size == self.keys@.len());
            assert forall|k: Seq<char>| #[trigger] self.key_list().contains(k) <==> m.contains_key(k) by {
                if k != key@ && self.key_list().contains(k) {
                    let a = choose|a: int| 0 <= a < self.key_list().len() && self.key_list()[a] == k;
                    assert(a < kl0.len());
                    assert(kl0[a] == k);
                    assert(kl0.contains(k));
                }
                if k != key@ && m.contains_key(k) {
                    assert(kl0.contains(k));
                    let a = choose|a: int| 0 <= a < kl0.len() && kl0[a] == k;
                    assert(self.key_list()[a] == k);
                }
                if k == key@ {
                    assert(self.key_list()[kl0.len() as int] == k);
                }
            }
            assert(self.wf());
        }
    }

    /// The live keys, each once.
    pub fn keys(&self) -> (r: &Vec<String>)
        requires
            self.wf(),
        ensures
            texts_view(r@) == self.key_list(),
            texts_view(r@).no_duplicates(),
            forall|k: Seq<char>| #[trigger] texts_view(r@).contains(k) <==> self@.contains_key(k),
    {
        &self.keys
    }

    /// The number of live keys.
    pub fn len(&self) -> (r: usize)
        requires
            self.wf(),
        ensures
            r == self@.len(),
    {
        proof {
            self.key_list().unique_seq_to_set();
            assert(self.key_list().to_set() =~= self@.dom());
        }
        self.size
    }
}

/// One write to a table, as a model of a call of [`HTable::insert`] or
/// [`HTable::delete`].
pub enum TableOp {
    Insert(Seq<char>, Seq<u8>),
    Delete(Seq<char>),
}

pub open spec fn op_key(op: TableOp) -> Seq<char> {
    match op {
        TableOp::Insert(k, _) => k,
        TableOp::Delete(k) => k,
    }
}

/// The contents after `op`, as the contracts of `insert` and `delete` give them.
pub open spec fn apply_op(m: Map<Seq<char>, Seq<u8>>, op: TableOp) -> Map<Seq<char>, Seq<u8>> {
    match op {
        TableOp::Insert(k, v) => m.insert(k, v),
        TableOp::Delete(k) => m.remove(k),
    }
}

/// The contents after the writes `ops`, in order, starting from `m`.
pub open spec fn apply_ops(m: Map<Seq<char>, Seq<u8>>, ops: Seq<TableOp>) -> Map<
    Seq<char>,
    Seq<u8>,
>
    decreases ops.len(),
{
    if ops.len() == 0 {
        m
    } else {
        apply_op(apply_ops(m, ops.drop_last()), ops.last())
    }
}

/// `ops[i]` inserts `k`, and no later write touches `k`.
pub open spec fn live_insert(ops: Seq<TableOp>, k: Seq<char>, i: int) -> bool {
    &&& 0 <= i < ops.len()
    &&& ops[i] is Insert
    &&& op_key(ops[i]) == k
    &&& forall|j: int| i < j < ops.len() ==> op_key(#[trigger] ops[j]) != k
}

/// After any sequence of inserts and deletes on an empty table, a key is
/// present exactly when some insert of it is followed by no delete or insert
/// of it, and its value is the one that insert wrote.
pub proof fn lemma_table_history(ops: Seq<TableOp>, k: Seq<char>)
    ensures
        apply_ops(Map::empty(), ops).contains_key(k) <==> exists|i: int| live_insert(ops, k, i),
        forall|i: int|
            live_insert(ops, k, i) ==> apply_ops(Map::empty(), ops)[k] == ops[i]->Insert_1,
    decreases ops.len(),
{
    if ops.len() > 0 {
        let init = ops.drop_last();
        let last = ops.last();
        let n = ops.len() - 1;
        lemma_table_history(init, k);
        if op_key(last) == k {
            if let TableOp::Insert(_, _) = last {
                assert(live_insert(ops, k, n));
            }
            assert forall|i: int| live_insert(ops, k, i) implies i == n by {
                if i < n {
                    assert(op_key(ops[n]) != k);
                }
            }
        } else {
            assert forall|i: int| live_insert(ops, k, i) <==> live_insert(init, k, i) by {
                if live_insert(init, k, i) {
                    assert forall|j: int| i < j < ops.len() implies op_key(#[trigger] ops[j]) != k by {
                        if j < n {
                            assert(ops[j] == init[j]);
                        }
                    }
                }
                if live_insert(ops, k, i) {
                    assert(i != n);
                    assert forall|j: int| i < j < init.len() implies op_key(#[trigger] init[j]) != k by {
                        assert(ops[j] == init[j]);
                    }
                }
            }
        }
    }
}

/// Two distinct keys that share a bucket do not disturb each other: writing
/// or deleting one leaves the presence and the value of the other as it was.
pub proof fn lemma_colliding_keys_independent(
    m: Map<Seq<char>, Seq<u8>>,
    k1: Seq<char>,
    k2: Seq<char>,
    v: Seq<u8>,
    n: nat,
)
    requires
        k1 != k2,
        n > 0,
        bucket_of(k1, n) == bucket_of(k2, n),
    ensures
        m.insert(k1, v).contains_key(k2) == m.contains_key(k2),
        m.remove(k1).contains_key(k2) == m.contains_key(k2),
        m.contains_key(k2) ==> m.insert(k1, v)[k2] == m[k2] && m.remove(k1)[k2] == m[k2],
        m.insert(k1, v)[k1] == v,
        !m.remove(k1).contains_key(k1),
{
}

} // verus!
