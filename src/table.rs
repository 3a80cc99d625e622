use crate::key::{hash_of, HashKey};
use vstd::prelude::*;
use vstd::seq_lib::lemma_flatten_concat;

verus! {

/// Index of the bucket that a key encoding belongs to among `n` buckets.
pub open spec fn slot_of(kb: Seq<u8>, n: nat) -> int {
    if n == 0 {
        0
    } else {
        (hash_of(kb) as nat % n) as int
    }
}

/// Whether a chain holds a slot whose key has encoding `kb`.
pub open spec fn chain_has<K: HashKey, V>(c: Seq<(K, V)>, kb: Seq<u8>) -> bool {
    exists|j: int| 0 <= j < c.len() && (#[trigger] c[j]).0.key_bytes() == kb
}

/// The payload stored under `kb` in a chain that holds it.
pub open spec fn chain_get<K: HashKey, V>(c: Seq<(K, V)>, kb: Seq<u8>) -> V {
    c[choose|j: int| 0 <= j < c.len() && (#[trigger] c[j]).0.key_bytes() == kb].1
}

/// No two slots of a chain hold the same key.
pub open spec fn chain_unique<K: HashKey, V>(c: Seq<(K, V)>) -> bool {
    forall|a: int, b: int|
        0 <= a < c.len() && 0 <= b < c.len() && a != b ==> (#[trigger] c[a]).0.key_bytes()
            != (#[trigger] c[b]).0.key_bytes()
}

/// Every slot sits in the bucket its key hashes to among `n` buckets, and no
/// bucket holds a key twice.
pub open spec fn placed<K: HashKey, V>(t: Seq<Seq<(K, V)>>, n: nat) -> bool {
    &&& t.len() <= n
    &&& forall|i: int, j: int|
        0 <= i < t.len() && 0 <= j < t[i].len() ==> slot_of((#[trigger] t[i][j]).0.key_bytes(), n)
            == i
    &&& forall|i: int| 0 <= i < t.len() ==> chain_unique(#[trigger] t[i])
}

/// What a bucket sequence laid out for `n` buckets holds, keyed by encoding.
pub open spec fn contents<K: HashKey, V>(t: Seq<Seq<(K, V)>>, n: nat) -> Map<Seq<u8>, V> {
    Map::new(
        |kb: Seq<u8>| n > 0 && 0 <= slot_of(kb, n) < t.len() && chain_has(t[slot_of(kb, n)], kb),
        |kb: Seq<u8>| chain_get(t[slot_of(kb, n)], kb),
    )
}

pub proof fn lemma_chain_at<K: HashKey, V>(c: Seq<(K, V)>, kb: Seq<u8>, j: int)
    requires
        chain_unique(c),
        0 <= j < c.len(),
        c[j].0.key_bytes() == kb,
    ensures
        chain_has(c, kb),
        chain_get(c, kb) == c[j].1,
{
    let k = choose|i: int| 0 <= i < c.len() && (#[trigger] c[i]).0.key_bytes() == kb;
    assert(c[k].0.key_bytes() == kb);
}

proof fn lemma_chain_push<K: HashKey, V>(c: Seq<(K, V)>, e: (K, V))
    requires
        chain_unique(c),
        !chain_has(c, e.0.key_bytes()),
    ensures
        chain_unique(c.push(e)),
        forall|kb: Seq<u8>|
            #![trigger chain_has(c.push(e), kb)]
            chain_has(c.push(e), kb) == (chain_has(c, kb) || kb == e.0.key_bytes()),
        forall|kb: Seq<u8>|
            #![trigger chain_get(c.push(e), kb)]
            chain_has(c.push(e), kb) ==> chain_get(c.push(e), kb) == if kb == e.0.key_bytes() {
                e.1
            } else {
                chain_get(c, kb)
            },
{
    let c2 = c.push(e);
    assert forall|a: int, b: int|
        0 <= a < c2.len() && 0 <= b < c2.len() && a != b implies (#[trigger] c2[a]).0.key_bytes()
        != (#[trigger] c2[b]).0.key_bytes() by {
        if a == c.len() as int {
            assert(c2[b] == c[b]);
        } else if b == c.len() as int {
            assert(c2[a] == c[a]);
        }
    }
    assert forall|kb: Seq<u8>| #[trigger] chain_has(c2, kb) implies chain_get(c2, kb) == if kb
        == e.0.key_bytes() {
        e.1
    } else {
        chain_get(c, kb)
    } && chain_has(c, kb) || kb == e.0.key_bytes() by {
        let j = choose|i: int| 0 <= i < c2.len() && (#[trigger] c2[i]).0.key_bytes() == kb;
        lemma_chain_at(c2, kb, j);
        if j < c.len() {
            assert(c2[j] == c[j]);
            lemma_chain_at(c, kb, j);
        }
    }
    assert forall|kb: Seq<u8>| chain_has(c, kb) || kb == e.0.key_bytes() implies #[trigger] chain_has(
        c2,
        kb,
    ) by {
        if kb == e.0.key_bytes() {
            assert(c2[c.len() as int] == e);
        } else {
            let j = choose|i: int| 0 <= i < c.len() && (#[trigger] c[i]).0.key_bytes() == kb;
            assert(c2[j] == c[j]);
        }
    }
}

/// A chain changed at one index, to a slot with the same key: it holds the
/// same keys, with the new payload under that key.
proof fn lemma_chain_set<K: HashKey, V>(c: Seq<(K, V)>, j: int, e: (K, V))
    requires
        chain_unique(c),
        0 <= j < c.len(),
        c[j].0.key_bytes() == e.0.key_bytes(),
    ensures
        chain_unique(c.update(j, e)),
        forall|kb: Seq<u8>|
            #![trigger chain_has(c.update(j, e), kb)]
            chain_has(c.update(j, e), kb) == chain_has(c, kb),
        forall|kb: Seq<u8>|
            #![trigger chain_get(c.update(j, e), kb)]
            chain_has(c, kb) ==> chain_get(c.update(j, e), kb) == if kb == e.0.key_bytes() {
                e.1
            } else {
                chain_get(c, kb)
            },
{
    let c2 = c.update(j, e);
    assert forall|a: int, b: int|
        0 <= a < c2.len() && 0 <= b < c2.len() && a != b implies (#[trigger] c2[a]).0.key_bytes()
        != (#[trigger] c2[b]).0.key_bytes() by {
        assert(c2[a].0.key_bytes() == c[a].0.key_bytes());
        assert(c2[b].0.key_bytes() == c[b].0.key_bytes());
    }
    assert forall|kb: Seq<u8>|
        #![trigger chain_has(c2, kb)]
        #![trigger chain_get(c2, kb)]
        chain_has(c, kb) implies chain_has(c2, kb) && chain_get(c2, kb) == if kb == e.0.key_bytes() {
        e.1
    } else {
        chain_get(c, kb)
    } by {
        let i = choose|i: int| 0 <= i < c.len() && (#[trigger] c[i]).0.key_bytes() == kb;
        assert(c2[i].0.key_bytes() == kb);
        lemma_chain_at(c2, kb, i);
        if i != j {
            lemma_chain_at(c, kb, i);
        }
    }
    assert forall|kb: Seq<u8>| #[trigger] chain_has(c2, kb) implies chain_has(c, kb) by {
        let i = choose|i: int| 0 <= i < c2.len() && (#[trigger] c2[i]).0.key_bytes() == kb;
        assert(c[i].0.key_bytes() == kb);
    }
}

/// A chain without the slot at one index (the last slot moved into its
/// place): it holds the same keys but that one.
proof fn lemma_chain_swap_remove<K: HashKey, V>(c: Seq<(K, V)>, j: int)
    requires
        chain_unique(c),
        0 <= j < c.len(),
    ensures
        chain_unique(c.update(j, c.last()).drop_last()),
        forall|kb: Seq<u8>|
            #![trigger chain_has(c.update(j, c.last()).drop_last(), kb)]
            chain_has(c.update(j, c.last()).drop_last(), kb) == (chain_has(c, kb) && kb
                != c[j].0.key_bytes()),
        forall|kb: Seq<u8>|
            #![trigger chain_get(c.update(j, c.last()).drop_last(), kb)]
            chain_has(c.update(j, c.last()).drop_last(), kb) ==> chain_get(
                c.update(j, c.last()).drop_last(),
                kb,
            ) == chain_get(c, kb),
{
    let c2 = c.update(j, c.last()).drop_last();
    let last = c.len() - 1;
    // position in c of the slot at position i of c2
    assert forall|i: int| 0 <= i < c2.len() implies #[trigger] c2[i] == c[if i == j {
        last
    } else {
        i
    }] by {}
    assert forall|a: int, b: int|
        0 <= a < c2.len() && 0 <= b < c2.len() && a != b implies (#[trigger] c2[a]).0.key_bytes()
        != (#[trigger] c2[b]).0.key_bytes() by {
        let pa = if a == j {
            last
        } else {
            a
        };
        let pb = if b == j {
            last
        } else {
            b
        };
        assert(c2[a] == c[pa]);
        assert(c2[b] == c[pb]);
    }
    assert forall|kb: Seq<u8>| #[trigger] chain_has(c2, kb) implies chain_has(c, kb) && kb
        != c[j].0.key_bytes() && chain_get(c2, kb) == chain_get(c, kb) by {
        let i = choose|i: int| 0 <= i < c2.len() && (#[trigger] c2[i]).0.key_bytes() == kb;
        let p = if i == j {
            last
        } else {
            i
        };
        assert(c2[i] == c[p]);
        lemma_chain_at(c2, kb, i);
        lemma_chain_at(c, kb, p);
    }
    assert forall|kb: Seq<u8>| chain_has(c, kb) && kb != c[j].0.key_bytes() implies #[trigger] chain_has(
        c2,
        kb,
    ) by {
        let p = choose|i: int| 0 <= i < c.len() && (#[trigger] c[i]).0.key_bytes() == kb;
        if p == last {
            assert(c2[j] == c[last]);
        } else {
            assert(c2[p] == c[p]);
        }
    }
}

/// Length of the flattened sequence after one element is replaced.
proof fn lemma_flatten_update<A>(t: Seq<Seq<A>>, i: int, x: Seq<A>)
    requires
        0 <= i < t.len(),
    ensures
        t.update(i, x).flatten().len() == t.flatten().len() - t[i].len() + x.len(),
{
    let u = t.update(i, x);
    assert(t =~= t.take(i) + (seq![t[i]] + t.skip(i + 1)));
    assert(u =~= t.take(i) + (seq![x] + t.skip(i + 1)));
    lemma_flatten_concat(t.take(i), seq![t[i]] + t.skip(i + 1));
    lemma_flatten_concat(seq![t[i]], t.skip(i + 1));
    lemma_flatten_concat(t.take(i), seq![x] + t.skip(i + 1));
    lemma_flatten_concat(seq![x], t.skip(i + 1));
    seq![t[i]].lemma_flatten_one_element();
    seq![x].lemma_flatten_one_element();
}


/// The slots of each bucket of a bucket vector.
pub open spec fn chains<K, V>(v: Seq<Vec<(K, V)>>) -> Seq<Seq<(K, V)>> {
    v.map_values(|b: Vec<(K, V)>| b@)
}

/// A hash table with separate chaining: a sequence of buckets, each a chain
/// of slots `(key, payload)`, and a count of the slots.
pub struct RawTable<K, V> {
    buckets: Vec<Vec<(K, V)>>,
    items: usize,
}

impl<K: HashKey, V> View for RawTable<K, V> {
    type V = Map<Seq<u8>, V>;

    closed spec fn view(&self) -> Map<Seq<u8>, V> {
        contents(self.table(), self.table().len())
    }
}

impl<K: HashKey, V> RawTable<K, V> {
    /// The buckets, each as the sequence of its slots.
    pub closed spec fn table(&self) -> Seq<Seq<(K, V)>> {
        chains(self.buckets@)
    }

    pub closed spec fn bucket_count(&self) -> nat {
        self.buckets@.len()
    }

    /// Every slot, bucket by bucket, in the order the buckets hold them.
    pub closed spec fn entries(&self) -> Seq<(K, V)> {
        self.table().flatten()
    }

    pub closed spec fn wf(&self) -> bool {
        &&& placed(self.table(), self.table().len())
        &&& self.items as nat == self.entries().len()
    }

    pub proof fn lemma_table_len(&self)
        ensures
            self.table().len() == self.bucket_count(),
    {
    }

    /// A slot of a well-formed table sits in its key's bucket, and the
    /// contents hold its payload under its key.
    pub proof fn lemma_slot(&self, b: int, j: int)
        requires
            self.wf(),
            0 <= b < self.table().len(),
            0 <= j < self.table()[b].len(),
        ensures
            slot_of(self.table()[b][j].0.key_bytes(), self.bucket_count()) == b,
            self@.contains_key(self.table()[b][j].0.key_bytes()),
            self@[self.table()[b][j].0.key_bytes()] == self.table()[b][j].1,
    {
        lemma_chain_at(self.table()[b], self.table()[b][j].0.key_bytes(), j);
    }

    /// The slots in iteration order are exactly the stored pairs: each slot
    /// holds a stored key and its payload, each stored key has a slot, no key
    /// has two, and so the slot count is the number of stored keys.
    pub proof fn lemma_entries(&self)
        requires
            self.wf(),
        ensures
            forall|i: int|
                #![trigger self.entries()[i]]
                0 <= i < self.entries().len() ==> self@.contains_key(self.entries()[i].0.key_bytes())
                    && self@[self.entries()[i].0.key_bytes()] == self.entries()[i].1,
            forall|kb: Seq<u8>|
                #[trigger] self@.contains_key(kb) ==> exists|i: int|
                    0 <= i < self.entries().len() && (#[trigger] self.entries()[i]).0.key_bytes() == kb,
            forall|i: int, j: int|
                0 <= i < self.entries().len() && 0 <= j < self.entries().len() && i != j ==> (
                #[trigger] self.entries()[i]).0.key_bytes() != (#[trigger] self.entries()[j]).0.key_bytes(),
            self@.dom().finite(),
            self@.dom().len() == self.entries().len(),
    {
        let t = self.table();
        let e = self.entries();
        let n = t.len();
        assert forall|i: int| #![trigger e[i]] 0 <= i < e.len() implies self@.contains_key(e[i].0.key_bytes())
            && self@[e[i].0.key_bytes()] == e[i].1 by {
            let (b, a) = lemma_flatten_member(t, i);
            lemma_take_flatten_index(t, b, a);
            self.lemma_slot(b, a);
        }
        assert forall|kb: Seq<u8>| #[trigger] self@.contains_key(kb) implies exists|i: int|
            0 <= i < e.len() && (#[trigger] e[i]).0.key_bytes() == kb by {
            let b = slot_of(kb, n);
            let a = choose|a: int| 0 <= a < t[b].len() && (#[trigger] t[b][a]).0.key_bytes() == kb;
            lemma_take_flatten_index(t, b, a);
            let i = t.take(b).flatten().len() + a;
            assert(e[i].0.key_bytes() == kb);
        }
        assert forall|i: int, j: int|
            0 <= i < e.len() && 0 <= j < e.len() && i != j implies (#[trigger] e[i]).0.key_bytes()
            != (#[trigger] e[j]).0.key_bytes() by {
            let (b1, a1) = lemma_flatten_member(t, i);
            let (b2, a2) = lemma_flatten_member(t, j);
            lemma_take_flatten_index(t, b1, a1);
            lemma_take_flatten_index(t, b2, a2);
            if e[i].0.key_bytes() == e[j].0.key_bytes() {
                self.lemma_slot(b1, a1);
                self.lemma_slot(b2, a2);
                assert(b1 == b2);
                assert(a1 == a2);
            }
        }
        let keys = e.map_values(|p: (K, V)| p.0.key_bytes());
        assert forall|i: int, j: int| 0 <= i < keys.len() && 0 <= j < keys.len() && i != j implies keys[i]
            != keys[j] by {
            assert(keys[i] == e[i].0.key_bytes());
            assert(keys[j] == e[j].0.key_bytes());
        }
        assert(keys.no_duplicates());
        keys.unique_seq_to_set();
        assert forall|kb: Seq<u8>| self@.dom().contains(kb) <==> keys.to_set().contains(kb) by {
            if self@.contains_key(kb) {
                let i = choose|i: int| 0 <= i < e.len() && (#[trigger] e[i]).0.key_bytes() == kb;
                assert(keys[i] == kb);
            }
            if keys.to_set().contains(kb) {
                let i = choose|i: int| 0 <= i < keys.len() && keys[i] == kb;
                assert(e[i].0.key_bytes() == kb);
            }
        }
        assert(self@.dom() =~= keys.to_set());
    }

    /// A table with no buckets and no slots.
    pub fn new() -> (t: Self)
        ensures
            t.wf(),
            t@ == Map::<Seq<u8>, V>::empty(),
            t.bucket_count() == 0,
            t.entries().len() == 0,
    {
        let t = RawTable { buckets: Vec::new(), items: 0 };
        assert(t.table() =~= Seq::empty());
        assert(t@ =~= Map::<Seq<u8>, V>::empty());
        t
    }

    /// A table of `n` empty buckets.
    pub fn with_buckets(n: usize) -> (t: Self)
        ensures
            t.wf(),
            t@ == Map::<Seq<u8>, V>::empty(),
            t.bucket_count() == n,
            t.entries().len() == 0,
    {
        let mut buckets: Vec<Vec<(K, V)>> = Vec::new();
        let mut i: usize = 0;
        while i < n
            invariant
                i <= n,
                buckets@.len() == i,
                forall|j: int| 0 <= j < i ==> (#[trigger] buckets@[j])@.len() == 0,
            decreases n - i,
        {
            buckets.push(Vec::new());
            i = i + 1;
        }
        let t = RawTable { buckets, items: 0 };
        proof {
            assert forall|j: int| 0 <= j < n implies #[trigger] t.table()[j] =~= Seq::<(K, V)>::empty() by {
                assert(buckets@[j]@.len() == 0);
            }
            assert(t.table() =~= Seq::new(n as nat, |j: int| Seq::<(K, V)>::empty()));
            lemma_flatten_empties::<(K, V)>(n as nat);
            assert(t@ =~= Map::<Seq<u8>, V>::empty());
        }
        t
    }

    /// Number of slots.
    pub fn len(&self) -> (r: usize)
        requires
            self.wf(),
        ensures
            r == self.entries().len(),
    {
        self.items
    }

    /// Number of buckets.
    pub fn bucket_len(&self) -> (r: usize)
        ensures
            r == self.bucket_count(),
    {
        self.buckets.len()
    }

    /// The bucket a key belongs to: its hash modulo the bucket count.
    fn bucket_of(&self, key: &K) -> (r: usize)
        requires
            self.bucket_count() > 0,
        ensures
            r as int == slot_of(key.key_bytes(), self.bucket_count()),
            r < self.bucket_count(),
    {
        let h = key.hash_code();
        (h % (self.buckets.len() as u64)) as usize
    }

    /// Scans bucket `b` for the key.
    fn find(&self, key: &K, b: usize) -> (r: Option<usize>)
        requires
            self.wf(),
            b < self.bucket_count(),
        ensures
            match r {
                Some(j) => j < self.table()[b as int].len() && self.table()[b as int][j as int].0.key_bytes()
                    == key.key_bytes(),
                None => !chain_has(self.table()[b as int], key.key_bytes()),
            },
    {
        let bucket = &self.buckets[b];
        let mut j: usize = 0;
        while j < bucket.len()
            invariant
                bucket@ == self.table()[b as int],
                j <= bucket@.len(),
                forall|i: int| 0 <= i < j ==> (#[trigger] bucket@[i]).0.key_bytes() != key.key_bytes(),
            decreases bucket@.len() - j,
        {
            if bucket[j].0.same_key(key) {
                return Some(j);
            }
            j = j + 1;
        }
        None
    }

    /// The payload stored under the key, if any.
    pub fn get(&self, key: &K) -> (r: Option<&V>)
        requires
            self.wf(),
        ensures
            match r {
                Some(v) => self@.contains_key(key.key_bytes()) && *v == self@[key.key_bytes()],
                None => !self@.contains_key(key.key_bytes()),
            },
    {
        if self.buckets.len() == 0 {
            return None;
        }
        let b = self.bucket_of(key);
        match self.find(key, b) {
            Some(j) => {
                proof {
                    lemma_chain_at(self.table()[b as int], key.key_bytes(), j as int);
                }
                Some(&self.buckets[b][j].1)
            },
            None => None,
        }
    }

    /// Whether the key is stored.
    pub fn contains(&self, key: &K) -> (r: bool)
        requires
            self.wf(),
        ensures
            r == self@.contains_key(key.key_bytes()),
    {
        self.get(key).is_some()
    }
    /// Stores the payload under the key, in the bucket the key belongs to.
    /// Returns the payload it replaces, where the key was stored already.
    pub fn insert(&mut self, key: K, val: V) -> (r: Option<V>)
        requires
            old(self).wf(),
            old(self).bucket_count() > 0,
            old(self).entries().len() < usize::MAX,
        ensures
            final(self).wf(),
            final(self)@ == old(self)@.insert(key.key_bytes(), val),
            final(self).bucket_count() == old(self).bucket_count(),
            match r {
                Some(v) => old(self)@.contains_key(key.key_bytes()) && v == old(self)@[key.key_bytes()]
                    && final(self).entries().len() == old(self).entries().len(),
                None => !old(self)@.contains_key(key.key_bytes()) && final(self).entries().len()
                    == old(self).entries().len() + 1,
            },
    {
        let ghost kb = key.key_bytes();
        let ghost t = self.table();
        let ghost n = t.len();
        let b = self.bucket_of(&key);
        match self.find(&key, b) {
            Some(j) => {
                let mut v = val;
                std::mem::swap(&mut self.buckets[b][j].1, &mut v);
                proof {
                    let c = t[b as int];
                    let c2 = c.update(j as int, (c[j as int].0, val));
                    assert(self.table() =~= t.update(b as int, c2));
                    lemma_chain_at(c, kb, j as int);
                    lemma_chain_set(c, j as int, (c[j as int].0, val));
                    lemma_contents_update(t, n, b as int, c2);
                    lemma_flatten_update(t, b as int, c2);
                    assert(self@ =~= contents(t, n).insert(kb, val));
                }
                Some(v)
            },
            None => {
                proof {
                    let c = t[b as int];
                    lemma_chain_push(c, (key, val));
                    let c2 = c.push((key, val));
                    assert forall|j: int| 0 <= j < c2.len() implies slot_of(
                        (#[trigger] c2[j]).0.key_bytes(),
                        n,
                    ) == b by {
                        if j < c.len() {
                            assert(c2[j] == t[b as int][j]);
                        }
                    }
                    lemma_contents_update(t, n, b as int, c2);
                    lemma_flatten_update(t, b as int, c2);
                }
                self.buckets[b].push((key, val));
                self.items = self.items + 1;
                proof {
                    let c2 = t[b as int].push((key, val));
                    assert(self.table() =~= t.update(b as int, c2));
                    assert(self@ =~= contents(t, n).insert(kb, val));
                }
                None
            },
        }
    }

    /// Where the key is, or would be placed: its bucket, and the index of
    /// its slot if it is stored.
    pub fn locate(&self, key: &K) -> (r: (usize, Option<usize>))
        requires
            self.wf(),
            self.bucket_count() > 0,
        ensures
            r.0 as int == slot_of(key.key_bytes(), self.bucket_count()),
            r.0 < self.bucket_count(),
            match r.1 {
                Some(j) => j < self.table()[r.0 as int].len() && self.table()[r.0 as int][j as int].0.key_bytes()
                    == key.key_bytes() && self@.contains_key(key.key_bytes()) && self@[key.key_bytes()]
                    == self.table()[r.0 as int][j as int].1,
                None => !self@.contains_key(key.key_bytes()),
            },
    {
        let b = self.bucket_of(key);
        let f = self.find(key, b);
        proof {
            if let Some(j) = f {
                lemma_chain_at(self.table()[b as int], key.key_bytes(), j as int);
            }
        }
        (b, f)
    }

    /// A mutable reference to the payload of slot `j` of bucket `b`. The
    /// table afterwards holds what the reference holds when it is released.
    pub fn value_mut(&mut self, b: usize, j: usize) -> (r: &mut V)
        requires
            old(self).wf(),
            b < old(self).bucket_count(),
            j < old(self).table()[b as int].len(),
        ensures
            *r == old(self).table()[b as int][j as int].1,
            final(self).table() =~= old(self).table().update(
                b as int,
                old(self).table()[b as int].update(
                    j as int,
                    (old(self).table()[b as int][j as int].0, *final(r)),
                ),
            ),
            final(self).wf(),
            final(self)@ == old(self)@.insert(
                old(self).table()[b as int][j as int].0.key_bytes(),
                *final(r),
            ),
            final(self).bucket_count() == old(self).bucket_count(),
            final(self).entries().len() == old(self).entries().len(),
    {
        let ghost t = self.table();
        let ghost n = t.len();
        let r = &mut self.buckets[b][j].1;
        proof {
            let c = t[b as int];
            let e = (c[j as int].0, *final(r));
            let c2 = c.update(j as int, e);
            lemma_chain_set(c, j as int, e);
            lemma_chain_at(c, e.0.key_bytes(), j as int);
            assert forall|i: int| 0 <= i < c2.len() implies slot_of((#[trigger] c2[i]).0.key_bytes(), n)
                == b by {
                assert(c2[i].0.key_bytes() == c[i].0.key_bytes());
            }
            lemma_contents_update(t, n, b as int, c2);
            lemma_flatten_update(t, b as int, c2);
        }
        r
    }

    /// Appends a slot for a key that is not stored to bucket `b`, the bucket
    /// the key belongs to, and returns a mutable reference to its payload.
    pub fn push_value(&mut self, b: usize, key: K, val: V) -> (r: &mut V)
        requires
            old(self).wf(),
            old(self).bucket_count() > 0,
            b as int == slot_of(key.key_bytes(), old(self).bucket_count()),
            !old(self)@.contains_key(key.key_bytes()),
            old(self).entries().len() < usize::MAX,
        ensures
            *r == val,
            final(self).table() =~= old(self).table().update(
                b as int,
                old(self).table()[b as int].push((key, *final(r))),
            ),
            final(self).wf(),
            final(self)@ == old(self)@.insert(key.key_bytes(), *final(r)),
            final(self).bucket_count() == old(self).bucket_count(),
            final(self).entries().len() == old(self).entries().len() + 1,
    {
        let ghost t = self.table();
        let ghost n = t.len();
        let ghost k = key;
        let ghost c = t[b as int];
        proof {
            assert(slot_of(key.key_bytes(), n) < n);
            assert(!chain_has(c, key.key_bytes()));
            lemma_chain_push(c, (key, val));
            let c2 = c.push((key, val));
            assert forall|i: int| 0 <= i < c2.len() implies slot_of((#[trigger] c2[i]).0.key_bytes(), n)
                == b by {
                if i < c.len() {
                    assert(c2[i] == c[i]);
                }
            }
            lemma_contents_update(t, n, b as int, c2);
            lemma_flatten_update(t, b as int, c2);
        }
        self.buckets[b].push((key, val));
        self.items = self.items + 1;
        proof {
            assert(self.table() =~= t.update(b as int, c.push((k, val))));
            assert(self@ =~= contents(t, n).insert(k.key_bytes(), val));
        }
        let j = self.buckets[b].len() - 1;
        let r = self.value_mut(b, j);
        proof {
            assert(j == c.len());
            assert(c.push((k, val)).update(j as int, (k, *final(r))) =~= c.push((k, *final(r))));
            assert(t.update(b as int, c.push((k, val))).update(
                b as int,
                c.push((k, val)).update(j as int, (k, *final(r))),
            ) =~= t.update(b as int, c.push((k, *final(r)))));
        }
        r
    }

    /// Takes the key's slot out of its bucket, moving the bucket's last slot
    /// into its place, and returns its payload.
    pub fn remove(&mut self, key: &K) -> (r: Option<V>)
        requires
            old(self).wf(),
        ensures
            final(self).wf(),
            final(self)@ == old(self)@.remove(key.key_bytes()),
            final(self).bucket_count() == old(self).bucket_count(),
            match r {
                Some(v) => old(self)@.contains_key(key.key_bytes()) && v == old(self)@[key.key_bytes()]
                    && final(self).entries().len() == old(self).entries().len() - 1,
                None => !old(self)@.contains_key(key.key_bytes()) && final(self).entries().len()
                    == old(self).entries().len(),
            },
    {
        let ghost kb = key.key_bytes();
        let ghost t = self.table();
        let ghost n = t.len();
        if self.buckets.len() == 0 {
            proof {
                assert(self@ =~= contents(t, n).remove(kb));
            }
            return None;
        }
        let b = self.bucket_of(key);
        match self.find(key, b) {
            Some(j) => {
                proof {
                    let c = t[b as int];
                    let c2 = c.update(j as int, c.last()).drop_last();
                    lemma_chain_at(c, kb, j as int);
                    lemma_chain_swap_remove(c, j as int);
                    assert forall|i: int| 0 <= i < c2.len() implies slot_of(
                        (#[trigger] c2[i]).0.key_bytes(),
                        n,
                    ) == b by {
                        if i == j {
                            assert(c2[i] == c[c.len() - 1]);
                        } else {
                            assert(c2[i] == c[i]);
                        }
                    }
                    lemma_contents_update(t, n, b as int, c2);
                    lemma_flatten_update(t, b as int, c2);
                }
                let slot = self.buckets[b].swap_remove(j);
                self.items = self.items - 1;
                proof {
                    let c = t[b as int];
                    let c2 = c.update(j as int, c.last()).drop_last();
                    assert(self.table() =~= t.update(b as int, c2));
                    assert(self@ =~= contents(t, n).remove(kb));
                }
                Some(slot.1)
            },
            None => {
                proof {
                    assert(self@ =~= contents(t, n).remove(kb));
                }
                None
            },
        }
    }

    /// Grows the table to `initial` buckets when it has none, and to twice
    /// its bucket count otherwise, moving every slot to the bucket its key
    /// belongs to among the new count.
    pub fn resize(&mut self, initial: usize)
        requires
            old(self).wf(),
            initial > 0,
            old(self).bucket_count() <= usize::MAX / 2,
        ensures
            final(self).wf(),
            final(self)@ == old(self)@,
            final(self).entries().len() == old(self).entries().len(),
            final(self).bucket_count() == if old(self).bucket_count() == 0 {
                initial as nat
            } else {
                2 * old(self).bucket_count()
            },
    {
        let ghost m = self@;
        let ghost n0 = self.table().len();
        let ghost items = self.items as nat;
        let n = self.buckets.len();
        let target: usize = if n == 0 {
            initial
        } else {
            2 * n
        };
        let mut fresh: RawTable<K, V> = RawTable::with_buckets(target);
        let mut rest: Vec<Vec<(K, V)>> = Vec::new();
        std::mem::swap(&mut rest, &mut self.buckets);
        proof {
            assert(m =~= contents(chains(rest@), n0).union_prefer_right(fresh@));
        }
        while rest.len() > 0
            invariant
                fresh.wf(),
                fresh.bucket_count() == target,
                target > 0,
                placed(chains(rest@), n0),
                m == contents(chains(rest@), n0).union_prefer_right(fresh@),
                contents(chains(rest@), n0).dom().disjoint(fresh@.dom()),
                chains(rest@).flatten().len() + fresh.entries().len() == items,
                items <= usize::MAX,
            decreases rest@.len(),
        {
            let ghost before = chains(rest@);
            let mut bucket = rest.pop().unwrap();
            proof {
                assert(before =~= chains(rest@).push(bucket@));
            }
            while bucket.len() > 0
                invariant
                    fresh.wf(),
                    fresh.bucket_count() == target,
                    target > 0,
                    placed(chains(rest@).push(bucket@), n0),
                    m == contents(chains(rest@).push(bucket@), n0).union_prefer_right(fresh@),
                    contents(chains(rest@).push(bucket@), n0).dom().disjoint(fresh@.dom()),
                    chains(rest@).push(bucket@).flatten().len() + fresh.entries().len() == items,
                    items <= usize::MAX,
                decreases bucket@.len(),
            {
                let ghost t = chains(rest@).push(bucket@);
                let ghost b = rest@.len() as int;
                let ghost c = bucket@;
                let ghost last = c.len() - 1;
                let ghost c2 = c.drop_last();
                let ghost kb = c[last].0.key_bytes();
                proof {
                    assert(t[b] == c);
                    assert(c.update(last, c.last()) =~= c);
                    lemma_chain_swap_remove(c, last);
                    assert forall|i: int| 0 <= i < c2.len() implies slot_of(
                        (#[trigger] c2[i]).0.key_bytes(),
                        n0,
                    ) == b by {
                        assert(c2[i] == t[b][i]);
                    }
                    lemma_contents_update(t, n0, b, c2);
                    lemma_flatten_update(t, b, c2);
                    assert(t.update(b, c2) =~= chains(rest@).push(c2));
                    assert(slot_of(kb, n0) == b);
                    lemma_chain_at(c, kb, last);
                    assert(contents(t, n0).contains_key(kb));
                }
                let slot = bucket.pop().unwrap();
                let ghost v = slot.1;
                let r = fresh.insert(slot.0, slot.1);
                proof {
                    assert(bucket@ == c2);
                    let t2 = chains(rest@).push(bucket@);
                    assert(contents(t2, n0) =~= contents(t, n0).remove(kb));
                    assert(m =~= contents(t2, n0).union_prefer_right(fresh@));
                    assert(contents(t2, n0).dom().disjoint(fresh@.dom()));
                }
            }
            proof {
                let t = chains(rest@).push(bucket@);
                assert(bucket@ =~= Seq::<(K, V)>::empty());
                chains(rest@).lemma_flatten_push(bucket@);
                assert forall|kb: Seq<u8>| #[trigger] contents(t, n0).contains_key(kb) implies contents(
                    chains(rest@),
                    n0,
                ).contains_key(kb) && contents(t, n0)[kb] == contents(chains(rest@), n0)[kb] by {
                    let s = slot_of(kb, n0);
                    if s == rest@.len() {
                        assert(t[s] == bucket@);
                    } else {
                        assert(t[s] == chains(rest@)[s]);
                    }
                }
                assert forall|kb: Seq<u8>| #[trigger] contents(chains(rest@), n0).contains_key(kb) implies contents(
                    t,
                    n0,
                ).contains_key(kb) by {
                    let s = slot_of(kb, n0);
                    assert(t[s] == chains(rest@)[s]);
                }
                assert(contents(t, n0) =~= contents(chains(rest@), n0));
                assert forall|i: int, j: int| 0 <= i < chains(rest@).len() && 0 <= j < chains(rest@)[i].len() implies slot_of(
                    (#[trigger] chains(rest@)[i][j]).0.key_bytes(),
                    n0,
                ) == i by {
                    assert(chains(rest@)[i] == t[i]);
                }
                assert forall|i: int| 0 <= i < chains(rest@).len() implies chain_unique(#[trigger] chains(rest@)[i]) by {
                    assert(chains(rest@)[i] == t[i]);
                }
            }
        }
        proof {
            assert(chains(rest@) =~= Seq::<Seq<(K, V)>>::empty());
            assert(contents(chains(rest@), n0) =~= Map::<Seq<u8>, V>::empty());
            assert(m =~= fresh@);
        }
        *self = fresh;
    }
}

/// A cursor over the slots of a table: bucket by bucket, then slot by slot.
pub struct RawIter<'a, K, V> {
    table: &'a RawTable<K, V>,
    bucket: usize,
    at: usize,
}

impl<'a, K: HashKey, V> RawIter<'a, K, V> {
    pub closed spec fn source(&self) -> &'a RawTable<K, V> {
        self.table
    }

    /// How many slots the cursor has passed.
    pub closed spec fn pos(&self) -> int {
        self.table.table().take(self.bucket as int).flatten().len() + self.at
    }

    pub closed spec fn valid(&self) -> bool {
        &&& self.bucket <= self.table.table().len()
        &&& self.bucket < self.table.table().len() ==> self.at <= self.table.table()[self.bucket as int].len()
        &&& self.bucket == self.table.table().len() ==> self.at == 0
    }

    /// A cursor at the first slot of the table.
    pub fn new(table: &'a RawTable<K, V>) -> (r: Self)
        ensures
            r.valid(),
            r.source() == table,
            r.pos() == 0,
    {
        let r = RawIter { table, bucket: 0, at: 0 };
        assert(table.table().take(0) =~= Seq::<Seq<(K, V)>>::empty());
        r
    }

    /// The slot at the cursor, if any is left; the cursor moves past it.
    pub fn next(&mut self) -> (r: Option<&'a (K, V)>)
        requires
            old(self).valid(),
        ensures
            final(self).valid(),
            final(self).source() == old(self).source(),
            old(self).pos() < old(self).source().entries().len() ==> r.is_some() && *r.unwrap()
                == old(self).source().entries()[old(self).pos()] && final(self).pos() == old(self).pos() + 1,
            old(self).pos() >= old(self).source().entries().len() ==> r.is_none() && final(self).pos()
                == old(self).pos(),
            old(self).pos() <= old(self).source().entries().len(),
    {
        let ghost p0 = self.pos();
        let table: &'a RawTable<K, V> = self.table;
        proof {
            lemma_take_flatten_bound(table.table(), self.bucket as int);
        }
        loop
            invariant
                self.valid(),
                self.table == table,
                old(self).source() == table,
                old(self).pos() == p0,
                self.pos() == p0,
                p0 <= table.entries().len(),
            decreases table.table().len() - self.bucket,
        {
            if self.bucket < table.buckets.len() {
                let b = self.bucket;
                let a = self.at;
                proof {
                    lemma_take_flatten_step(table.table(), b as int);
                }
                if a < table.buckets[b].len() {
                    proof {
                        lemma_take_flatten_index(table.table(), b as int, a as int);
                    }
                    self.at = a + 1;
                    return Some(&table.buckets[b][a]);
                }
                self.bucket = b + 1;
                self.at = 0;
                proof {
                    lemma_take_flatten_bound(table.table(), b + 1);
                }
            } else {
                proof {
                    assert(table.table().take(self.bucket as int) =~= table.table());
                }
                return None;
            }
        }
    }
}

/// The slot at a position of the flattened sequence: its bucket and its
/// index within the bucket.
proof fn lemma_flatten_member<A>(t: Seq<Seq<A>>, i: int) -> (r: (int, int))
    requires
        0 <= i < t.flatten().len(),
    ensures
        0 <= r.0 < t.len(),
        0 <= r.1 < t[r.0].len(),
        i == t.take(r.0).flatten().len() + r.1,
    decreases t.len(),
{
    if i < t[0].len() {
        assert(t.take(0) =~= Seq::<Seq<A>>::empty());
        (0, i)
    } else {
        let rest = t.drop_first();
        let (b, a) = lemma_flatten_member(rest, i - t[0].len());
        assert(t.take(b + 1) =~= seq![t[0]] + rest.take(b));
        lemma_flatten_concat(seq![t[0]], rest.take(b));
        seq![t[0]].lemma_flatten_one_element();
        assert(rest[b] == t[b + 1]);
        (b + 1, a)
    }
}

proof fn lemma_take_flatten_step<A>(t: Seq<Seq<A>>, b: int)
    requires
        0 <= b < t.len(),
    ensures
        t.take(b + 1).flatten() == t.take(b).flatten() + t[b],
{
    assert(t.take(b + 1) =~= t.take(b).push(t[b]));
    t.take(b).lemma_flatten_push(t[b]);
}

proof fn lemma_take_flatten_bound<A>(t: Seq<Seq<A>>, b: int)
    requires
        0 <= b <= t.len(),
    ensures
        t.flatten() == t.take(b).flatten() + t.skip(b).flatten(),
{
    assert(t =~= t.take(b) + t.skip(b));
    lemma_flatten_concat(t.take(b), t.skip(b));
}

proof fn lemma_take_flatten_index<A>(t: Seq<Seq<A>>, b: int, a: int)
    requires
        0 <= b < t.len(),
        0 <= a < t[b].len(),
    ensures
        t.take(b).flatten().len() + a < t.flatten().len(),
        t.flatten()[t.take(b).flatten().len() + a] == t[b][a],
{
    lemma_take_flatten_step(t, b);
    lemma_take_flatten_bound(t, b + 1);
    let p = t.take(b).flatten().len() + a;
    assert(t.flatten()[p] == t.take(b + 1).flatten()[p]);
}

/// Replacing one bucket by a chain that belongs there changes the contents
/// only at the keys of that bucket, which the new chain then decides.
proof fn lemma_contents_update<K: HashKey, V>(t: Seq<Seq<(K, V)>>, n: nat, b: int, c2: Seq<(K, V)>)
    requires
        placed(t, n),
        0 <= b < t.len(),
        chain_unique(c2),
        forall|j: int| 0 <= j < c2.len() ==> slot_of((#[trigger] c2[j]).0.key_bytes(), n) == b,
    ensures
        placed(t.update(b, c2), n),
        forall|kb: Seq<u8>|
            #![trigger contents(t.update(b, c2), n)[kb]]
            #![trigger contents(t.update(b, c2), n).contains_key(kb)]
            slot_of(kb, n) != b ==> (contents(t.update(b, c2), n).contains_key(kb)
                == contents(t, n).contains_key(kb) && (contents(t, n).contains_key(kb)
                ==> contents(t.update(b, c2), n)[kb] == contents(t, n)[kb])),
        forall|kb: Seq<u8>|
            #![trigger contents(t.update(b, c2), n)[kb]]
            #![trigger contents(t.update(b, c2), n).contains_key(kb)]
            slot_of(kb, n) == b ==> (contents(t.update(b, c2), n).contains_key(kb)
                == chain_has(c2, kb) && (chain_has(c2, kb) ==> contents(t.update(b, c2), n)[kb]
                == chain_get(c2, kb))),
{
    let t2 = t.update(b, c2);
    assert forall|i: int, j: int| 0 <= i < t2.len() && 0 <= j < t2[i].len() implies slot_of(
        (#[trigger] t2[i][j]).0.key_bytes(),
        n,
    ) == i by {
        if i != b {
            assert(t2[i] == t[i]);
        }
    }
    assert forall|i: int| 0 <= i < t2.len() implies chain_unique(#[trigger] t2[i]) by {
        if i != b {
            assert(t2[i] == t[i]);
        }
    }
    assert forall|kb: Seq<u8>| #[trigger] contents(t2, n).contains_key(kb) || !contents(t2, n).contains_key(kb) implies
        (slot_of(kb, n) != b ==> (contents(t2, n).contains_key(kb) == contents(t, n).contains_key(kb)
        && (contents(t, n).contains_key(kb) ==> contents(t2, n)[kb] == contents(t, n)[kb])))
        && (slot_of(kb, n) == b ==> (contents(t2, n).contains_key(kb) == chain_has(c2, kb) && (
        chain_has(c2, kb) ==> contents(t2, n)[kb] == chain_get(c2, kb)))) by {
        let s = slot_of(kb, n);
        assert(0 <= s < n);
        if s != b && s < t.len() {
            assert(t2[s] == t[s]);
        }
    }
}

proof fn lemma_flatten_empties<A>(n: nat)
    ensures
        Seq::new(n, |j: int| Seq::<A>::empty()).flatten().len() == 0,
    decreases n,
{
    if n > 0 {
        let s = Seq::new(n, |j: int| Seq::<A>::empty());
        assert(s.drop_first() =~= Seq::new((n - 1) as nat, |j: int| Seq::<A>::empty()));
        lemma_flatten_empties::<A>((n - 1) as nat);
    }
}

} // verus!
