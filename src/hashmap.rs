use crate::key::HashKey;
use crate::table::{slot_of, RawIter, RawTable};
use vstd::prelude::*;

verus! {

/// Bucket count of a map's first growth.
const INITIAL_BUCKETS: usize = 1;

/// A map grows once it holds more than this many slots per bucket.
pub const MAP_MAX_LOAD: usize = 3;

/// A map from keys to values: a chained hash table whose slots are
/// `(key, value)` pairs.
pub struct HashMap<K, V> {
    table: RawTable<K, V>,
}

impl<K: HashKey, V> View for HashMap<K, V> {
    type V = Map<Seq<u8>, V>;

    /// The stored values, keyed by the encoding of their keys.
    closed spec fn view(&self) -> Map<Seq<u8>, V> {
        self.table@
    }
}

/// A handle on the slot of a key that the map holds.
pub struct OccupiedEntry<'a, K, V> {
    pub map: &'a mut HashMap<K, V>,
    pub bucket: usize,
    pub index: usize,
}

/// A handle on a key that the map does not hold, with the bucket it
/// belongs to.
pub struct VacantEntry<'a, K, V> {
    pub map: &'a mut HashMap<K, V>,
    pub key: K,
    pub bucket: usize,
}

/// The result of one lookup of a key: its slot, or where it would go.
pub enum Entry<'a, K, V> {
    Occupied(OccupiedEntry<'a, K, V>),
    Vacant(VacantEntry<'a, K, V>),
}

impl<K: HashKey, V> HashMap<K, V> {
    pub closed spec fn wf(&self) -> bool {
        self.table.wf()
    }

    /// The buckets, each as the sequence of its slots.
    pub closed spec fn table(&self) -> Seq<Seq<(K, V)>> {
        self.table.table()
    }

    /// Every slot, in the order iteration yields them.
    pub closed spec fn entries(&self) -> Seq<(K, V)> {
        self.table.entries()
    }

    pub closed spec fn bucket_count(&self) -> nat {
        self.table.bucket_count()
    }

    pub open spec fn spec_len(&self) -> nat {
        self.entries().len()
    }

    /// An empty map; no buckets are allocated until the first insert.
    pub fn new() -> (m: Self)
        ensures
            m.wf(),
            m@ == Map::<Seq<u8>, V>::empty(),
            m.spec_len() == 0,
            m.bucket_count() == 0,
    {
        HashMap { table: RawTable::new() }
    }

    /// Number of stored pairs.
    pub fn len(&self) -> (r: usize)
        requires
            self.wf(),
        ensures
            r == self.spec_len(),
    {
        self.table.len()
    }

    pub fn is_empty(&self) -> (r: bool)
        requires
            self.wf(),
        ensures
            r == (self.spec_len() == 0),
    {
        self.table.len() == 0
    }

    /// Grows the table when it has no buckets, or holds more than
    /// `MAP_MAX_LOAD` slots per bucket.
    fn grow_if_needed(&mut self)
        requires
            old(self).wf(),
        ensures
            final(self).wf(),
            final(self)@ == old(self)@,
            final(self).spec_len() == old(self).spec_len(),
            final(self).bucket_count() > 0,
    {
        let n = self.table.bucket_len();
        let items = self.table.len();
        if n == 0 {
            self.table.resize(INITIAL_BUCKETS);
        } else if n <= usize::MAX / 2 && items as u128 > MAP_MAX_LOAD as u128 * n as u128 {
            self.table.resize(INITIAL_BUCKETS);
        }
    }

    /// Stores `val` under `key`; returns the value it replaces, if any.
    pub fn insert(&mut self, key: K, val: V) -> (r: Option<V>)
        requires
            old(self).wf(),
            old(self).spec_len() < usize::MAX,
        ensures
            final(self).wf(),
            final(self)@ == old(self)@.insert(key.key_bytes(), val),
            match r {
                Some(v) => old(self)@.contains_key(key.key_bytes()) && v == old(self)@[key.key_bytes()]
                    && final(self).spec_len() == old(self).spec_len(),
                None => !old(self)@.contains_key(key.key_bytes()) && final(self).spec_len()
                    == old(self).spec_len() + 1,
            },
    {
        self.grow_if_needed();
        self.table.insert(key, val)
    }

    /// The value stored under `key`, if any.
    pub fn get(&self, key: &K) -> (r: Option<&V>)
        requires
            self.wf(),
        ensures
            match r {
                Some(v) => self@.contains_key(key.key_bytes()) && *v == self@[key.key_bytes()],
                None => !self@.contains_key(key.key_bytes()),
            },
    {
        self.table.get(key)
    }

    /// Takes the pair of `key` out of the map and returns its value.
    pub fn remove(&mut self, key: &K) -> (r: Option<V>)
        requires
            old(self).wf(),
        ensures
            final(self).wf(),
            final(self)@ == old(self)@.remove(key.key_bytes()),
            match r {
                Some(v) => old(self)@.contains_key(key.key_bytes()) && v == old(self)@[key.key_bytes()]
                    && final(self).spec_len() == old(self).spec_len() - 1,
                None => !old(self)@.contains_key(key.key_bytes()) && final(self).spec_len()
                    == old(self).spec_len(),
            },
    {
        self.table.remove(key)
    }

    pub fn contains_key(&self, key: &K) -> (r: bool)
        requires
            self.wf(),
        ensures
            r == self@.contains_key(key.key_bytes()),
    {
        self.table.contains(key)
    }

    /// Iterates over the pairs, bucket by bucket.
    pub fn iter(&self) -> (r: HashMapIter<'_, K, V>)
        requires
            self.wf(),
        ensures
            r.valid(),
            r.entries() == self.entries(),
            r.pos() == 0,
    {
        HashMapIter::new(self)
    }

    /// Looks the key up once, allocating buckets first if there are none.
    pub fn entry<'a>(&'a mut self, key: K) -> (r: Entry<'a, K, V>)
        requires
            old(self).wf(),
        ensures
            r.valid(),
            r.key_bytes() == key.key_bytes(),
            r.map_view() == old(self)@,
            r.map_len() == old(self).spec_len(),
            r.is_occupied() == old(self)@.contains_key(key.key_bytes()),
            match r {
                Entry::Occupied(e) => *final(self) == *final(e.map),
                Entry::Vacant(e) => e.key == key && *final(self) == *final(e.map),
            },
    {
        if self.table.bucket_len() == 0 {
            self.table.resize(INITIAL_BUCKETS);
        }
        let (b, found) = self.table.locate(&key);
        proof {
            self.table.lemma_table_len();
        }
        match found {
            Some(j) => Entry::Occupied(OccupiedEntry { map: self, bucket: b, index: j }),
            None => Entry::Vacant(VacantEntry { map: self, key, bucket: b }),
        }
    }
}

impl<'a, K: HashKey, V> OccupiedEntry<'a, K, V> {
    pub open spec fn valid(&self) -> bool {
        &&& self.map.wf()
        &&& self.bucket < self.map.table().len()
        &&& self.index < self.map.table()[self.bucket as int].len()
    }

    pub open spec fn key_bytes(&self) -> Seq<u8> {
        self.map.table()[self.bucket as int][self.index as int].0.key_bytes()
    }

    /// The value of the slot, as a reference that outlives the handle.
    pub fn into_mut(self) -> (r: &'a mut V)
        requires
            self.valid(),
        ensures
            old(self.map)@.contains_key(self.key_bytes()),
            *r == old(self.map)@[self.key_bytes()],
            final(self.map).wf(),
            final(self.map)@ == old(self.map)@.insert(self.key_bytes(), *final(r)),
            final(self.map).spec_len() == old(self.map).spec_len(),
    {
        proof {
            self.map.table.lemma_table_len();
            self.map.table.lemma_slot(self.bucket as int, self.index as int);
        }
        self.map.table.value_mut(self.bucket, self.index)
    }
}

impl<'a, K: HashKey, V> VacantEntry<'a, K, V> {
    pub open spec fn valid(&self) -> bool {
        &&& self.map.wf()
        &&& self.map.bucket_count() > 0
        &&& self.bucket as int == slot_of(self.key.key_bytes(), self.map.bucket_count())
        &&& !self.map@.contains_key(self.key.key_bytes())
    }

    /// Appends `(key, val)` to the bucket and returns a reference to the value.
    pub fn insert(self, val: V) -> (r: &'a mut V)
        requires
            self.valid(),
            self.map.spec_len() < usize::MAX,
        ensures
            *r == val,
            final(self.map).wf(),
            final(self.map)@ == old(self.map)@.insert(self.key.key_bytes(), *final(r)),
            final(self.map).spec_len() == old(self.map).spec_len() + 1,
    {
        self.map.table.push_value(self.bucket, self.key, val)
    }
}

impl<'a, K: HashKey, V> Entry<'a, K, V> {
    pub open spec fn valid(&self) -> bool {
        match self {
            Entry::Occupied(e) => e.valid(),
            Entry::Vacant(e) => e.valid(),
        }
    }

    pub open spec fn is_occupied(&self) -> bool {
        self is Occupied
    }

    pub open spec fn key_bytes(&self) -> Seq<u8> {
        match self {
            Entry::Occupied(e) => e.key_bytes(),
            Entry::Vacant(e) => e.key.key_bytes(),
        }
    }

    pub open spec fn map_view(&self) -> Map<Seq<u8>, V> {
        match self {
            Entry::Occupied(e) => e.map@,
            Entry::Vacant(e) => e.map@,
        }
    }

    pub open spec fn map_len(&self) -> nat {
        match self {
            Entry::Occupied(e) => e.map.spec_len(),
            Entry::Vacant(e) => e.map.spec_len(),
        }
    }

    /// The value of the key, inserting `value` first if the key is vacant.
    pub fn or_insert(self, value: V) -> (r: &'a mut V)
        requires
            self.valid(),
            self.map_len() < usize::MAX,
        ensures
            match self {
                Entry::Occupied(e) => *r == e.map@[self.key_bytes()] && final(e.map).wf()
                    && final(e.map)@ == e.map@.insert(self.key_bytes(), *final(r))
                    && final(e.map).spec_len() == e.map.spec_len(),
                Entry::Vacant(e) => *r == value && final(e.map).wf() && final(e.map)@ == e.map@.insert(
                    self.key_bytes(),
                    *final(r),
                ) && final(e.map).spec_len() == e.map.spec_len() + 1,
            },
    {
        match self {
            Entry::Occupied(e) => e.into_mut(),
            Entry::Vacant(e) => e.insert(value),
        }
    }

    /// As `or_insert`, with the value made by `maker`, which is called only
    /// when the key is vacant.
    pub fn or_insert_with<F: FnOnce() -> V>(self, maker: F) -> (r: &'a mut V)
        requires
            self.valid(),
            self.map_len() < usize::MAX,
            self is Vacant ==> maker.requires(()),
        ensures
            match self {
                Entry::Occupied(e) => *r == e.map@[self.key_bytes()] && final(e.map).wf()
                    && final(e.map)@ == e.map@.insert(self.key_bytes(), *final(r))
                    && final(e.map).spec_len() == e.map.spec_len(),
                Entry::Vacant(e) => maker.ensures((), *r) && final(e.map).wf() && final(e.map)@
                    == e.map@.insert(self.key_bytes(), *final(r)) && final(e.map).spec_len()
                    == e.map.spec_len() + 1,
            },
    {
        match self {
            Entry::Occupied(e) => e.into_mut(),
            Entry::Vacant(e) => e.insert(maker()),
        }
    }
}

/// The map that inserting `pairs` in order into an empty map yields: each
/// key inserted, with the value of its last insert.
pub open spec fn latest<K: HashKey, V>(pairs: Seq<(K, V)>) -> Map<Seq<u8>, V>
    decreases pairs.len(),
{
    if pairs.len() == 0 {
        Map::empty()
    } else {
        latest(pairs.drop_last()).insert(pairs.last().0.key_bytes(), pairs.last().1)
    }
}

impl<K: HashKey, V> HashMap<K, V> {
    /// The number of pairs is the number of distinct stored keys.
    pub proof fn lemma_len(&self)
        requires
            self.wf(),
        ensures
            self@.dom().finite(),
            self.spec_len() == self@.dom().len(),
    {
        self.table.lemma_entries();
    }

    /// A traversal yields `len()` pairs: each stored key once, with its
    /// value, and no other.
    pub proof fn lemma_iteration_complete(&self)
        requires
            self.wf(),
        ensures
            self.entries().len() == self.spec_len(),
            forall|i: int|
                #![trigger self.entries()[i]]
                0 <= i < self.entries().len() ==> self@.contains_key(self.entries()[i].0.key_bytes())
                    && self@[self.entries()[i].0.key_bytes()] == self.entries()[i].1,
            forall|kb: Seq<u8>|
                #[trigger] self@.contains_key(kb) ==> exists|i: int|
                    0 <= i < self.entries().len() && (#[trigger] self.entries()[i]).0.key_bytes() == kb,
            forall|i: int, j: int|
                0 <= i < self.entries().len() && 0 <= j < self.entries().len() && i != j ==> (
                #[trigger] self.entries()[i]).0.key_bytes() != (#[trigger] self.entries()[j]).0.key_bytes(),
    {
        self.table.lemma_entries();
        assert forall|kb: Seq<u8>| #[trigger] self@.contains_key(kb) implies exists|i: int|
            0 <= i < self.entries().len() && (#[trigger] self.entries()[i]).0.key_bytes() == kb by {
            assert(self.table@.contains_key(kb));
            let i = choose|i: int|
                0 <= i < self.table.entries().len() && (#[trigger] self.table.entries()[i]).0.key_bytes() == kb;
            assert(self.entries()[i] == self.table.entries()[i]);
        }
    }

    /// A map built from `pairs` by inserting them in order, growing as it
    /// fills.
    pub fn from_pairs(pairs: Vec<(K, V)>) -> (m: Self)
        ensures
            m.wf(),
            m@ == latest(pairs@),
    {
        let total: usize = pairs.len();
        let ghost all = pairs@;
        let mut m = HashMap::new();
        let mut rest = pairs;
        proof {
            assert(all.take(0) =~= Seq::<(K, V)>::empty());
            assert(all.skip(0) =~= all);
            assert(m@ =~= latest(all.take(0)));
        }
        while rest.len() > 0
            invariant
                m.wf(),
                rest@.len() <= total,
                all.len() == total,
                rest@ == all.skip(total - rest@.len()),
                m@ == latest(all.take(total - rest@.len())),
                m.spec_len() <= total - rest@.len(),
            decreases rest@.len(),
        {
            let ghost k = total - rest@.len();
            let (key, val) = rest.remove(0);
            proof {
                assert(all[k] == (key, val));
                assert(rest@ =~= all.skip(k + 1));
                assert(all.take(k + 1).drop_last() =~= all.take(k));
            }
            m.insert(key, val);
        }
        proof {
            assert(all.take(total as int) =~= all);
        }
        m
    }
}

/// After `insert(k, v)`, a lookup of `k` finds `v`.
pub proof fn lemma_insert_then_get<K: HashKey, V>(
    before: HashMap<K, V>,
    after: HashMap<K, V>,
    k: K,
    v: V,
)
    requires
        after@ == before@.insert(k.key_bytes(), v),
    ensures
        after@.contains_key(k.key_bytes()),
        after@[k.key_bytes()] == v,
{
}

/// Inserting a key that is stored already replaces its value and leaves the
/// number of pairs as it was.
pub proof fn lemma_insert_present<K: HashKey, V>(
    before: HashMap<K, V>,
    after: HashMap<K, V>,
    k: K,
    v: V,
)
    requires
        before.wf(),
        after.wf(),
        before@.contains_key(k.key_bytes()),
        after@ == before@.insert(k.key_bytes(), v),
    ensures
        after@[k.key_bytes()] == v,
        after.spec_len() == before.spec_len(),
{
    before.lemma_len();
    after.lemma_len();
    assert(after@.dom() =~= before@.dom());
}

/// After `remove(k)` the key is absent, and the number of pairs has dropped
/// by one if it was present and is unchanged otherwise.
pub proof fn lemma_remove_then_absent<K: HashKey, V>(
    before: HashMap<K, V>,
    after: HashMap<K, V>,
    k: K,
)
    requires
        before.wf(),
        after.wf(),
        after@ == before@.remove(k.key_bytes()),
    ensures
        !after@.contains_key(k.key_bytes()),
        after.spec_len() == if before@.contains_key(k.key_bytes()) {
            before.spec_len() - 1
        } else {
            before.spec_len() as int
        },
{
    before.lemma_len();
    after.lemma_len();
    if !before@.contains_key(k.key_bytes()) {
        assert(after@.dom() =~= before@.dom());
    }
}

/// After a sequence of inserts the map holds exactly the keys inserted.
pub proof fn lemma_inserts_keys<K: HashKey, V>(pairs: Seq<(K, V)>, kb: Seq<u8>)
    ensures
        latest(pairs).contains_key(kb) <==> exists|i: int|
            0 <= i < pairs.len() && (#[trigger] pairs[i]).0.key_bytes() == kb,
    decreases pairs.len(),
{
    if pairs.len() > 0 {
        let front = pairs.drop_last();
        lemma_inserts_keys(front, kb);
        let n = pairs.len() - 1;
        if latest(pairs).contains_key(kb) && pairs[n].0.key_bytes() != kb {
            let i = choose|i: int| 0 <= i < front.len() && (#[trigger] front[i]).0.key_bytes() == kb;
            assert(pairs[i] == front[i]);
        }
        if exists|i: int| 0 <= i < pairs.len() && (#[trigger] pairs[i]).0.key_bytes() == kb {
            let i = choose|i: int| 0 <= i < pairs.len() && (#[trigger] pairs[i]).0.key_bytes() == kb;
            if i < n {
                assert(front[i] == pairs[i]);
            }
        }
    }
}

/// After a sequence of inserts each key holds the value of its last insert.
pub proof fn lemma_inserts_keep_latest<K: HashKey, V>(pairs: Seq<(K, V)>, j: int)
    requires
        0 <= j < pairs.len(),
        forall|i: int|
            j < i < pairs.len() ==> (#[trigger] pairs[i]).0.key_bytes() != pairs[j].0.key_bytes(),
    ensures
        latest(pairs).contains_key(pairs[j].0.key_bytes()),
        latest(pairs)[pairs[j].0.key_bytes()] == pairs[j].1,
    decreases pairs.len(),
{
    let n = pairs.len() - 1;
    if j < n {
        let front = pairs.drop_last();
        assert(pairs[n].0.key_bytes() != pairs[j].0.key_bytes());
        assert(front[j] == pairs[j]);
        assert forall|i: int| j < i < front.len() implies (#[trigger] front[i]).0.key_bytes()
            != front[j].0.key_bytes() by {
            assert(front[i] == pairs[i]);
        }
        lemma_inserts_keep_latest(front, j);
    }
}

/// A cursor over the pairs of a map: bucket by bucket, and within a bucket
/// in the order its slots are held.
pub struct HashMapIter<'a, K, V> {
    inner: RawIter<'a, K, V>,
}

impl<'a, K: HashKey, V> HashMapIter<'a, K, V> {
    pub closed spec fn valid(&self) -> bool {
        self.inner.valid()
    }

    /// The pairs the whole traversal yields, in order.
    pub closed spec fn entries(&self) -> Seq<(K, V)> {
        self.inner.source().entries()
    }

    /// How many pairs have been yielded.
    pub closed spec fn pos(&self) -> int {
        self.inner.pos()
    }

    pub fn new(map: &'a HashMap<K, V>) -> (r: Self)
        requires
            map.wf(),
        ensures
            r.valid(),
            r.entries() == map.entries(),
            r.pos() == 0,
    {
        HashMapIter { inner: RawIter::new(&map.table) }
    }

    /// The next pair, if any is left.
    pub fn next(&mut self) -> (r: Option<(&'a K, &'a V)>)
        requires
            old(self).valid(),
        ensures
            final(self).valid(),
            final(self).entries() == old(self).entries(),
            old(self).pos() <= old(self).entries().len(),
            old(self).pos() < old(self).entries().len() ==> r.is_some() && *r.unwrap().0
                == old(self).entries()[old(self).pos()].0 && *r.unwrap().1 == old(
                self,
            ).entries()[old(self).pos()].1 && final(self).pos() == old(self).pos() + 1,
            old(self).pos() >= old(self).entries().len() ==> r.is_none() && final(self).pos()
                == old(self).pos(),
    {
        match self.inner.next() {
            Some(slot) => Some((&slot.0, &slot.1)),
            None => None,
        }
    }
}

} // verus!
