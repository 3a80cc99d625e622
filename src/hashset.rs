use crate::key::HashKey;
use crate::table::{RawIter, RawTable};
use vstd::prelude::*;

verus! {

/// Bucket count of a set's first growth.
const INITIAL_DEFAULT_CAPACITY: usize = 64;

/// A set grows once it holds this many slots per bucket.
pub const SET_MAX_LOAD: usize = 2;

/// A set of keys: a chained hash table whose slots are the keys themselves,
/// with an empty payload.
pub struct HashSet<K> {
    table: RawTable<K, ()>,
}

impl<K: HashKey> View for HashSet<K> {
    type V = Set<Seq<u8>>;

    /// The encodings of the stored keys.
    closed spec fn view(&self) -> Set<Seq<u8>> {
        self.table@.dom()
    }
}

impl<K: HashKey> HashSet<K> {
    pub closed spec fn wf(&self) -> bool {
        self.table.wf()
    }

    /// Every slot, in the order iteration yields them.
    pub closed spec fn entries(&self) -> Seq<(K, ())> {
        self.table.entries()
    }

    pub closed spec fn bucket_count(&self) -> nat {
        self.table.bucket_count()
    }

    pub open spec fn spec_len(&self) -> nat {
        self.entries().len()
    }

    /// An empty set; no buckets are allocated until the first insert.
    pub fn new() -> (s: Self)
        ensures
            s.wf(),
            s@ == Set::<Seq<u8>>::empty(),
            s.spec_len() == 0,
            s.bucket_count() == 0,
    {
        let s = HashSet { table: RawTable::new() };
        assert(s@ =~= Set::<Seq<u8>>::empty());
        s
    }

    /// An empty set with `capacity` buckets allocated.
    pub fn with_capacity(capacity: usize) -> (s: Self)
        ensures
            s.wf(),
            s@ == Set::<Seq<u8>>::empty(),
            s.spec_len() == 0,
            s.bucket_count() == capacity,
    {
        let s = HashSet { table: RawTable::with_buckets(capacity) };
        assert(s@ =~= Set::<Seq<u8>>::empty());
        s
    }

    pub fn is_empty(&self) -> (r: bool)
        requires
            self.wf(),
        ensures
            r == (self.spec_len() == 0),
    {
        self.table.len() == 0
    }

    /// Number of buckets.
    pub fn capacity(&self) -> (r: usize)
        ensures
            r == self.bucket_count(),
    {
        self.table.bucket_len()
    }

    /// Number of stored keys.
    pub fn len(&self) -> (r: usize)
        requires
            self.wf(),
        ensures
            r == self.spec_len(),
    {
        self.table.len()
    }

    /// Grows the table when it has no buckets, or holds `SET_MAX_LOAD`
    /// slots per bucket or more.
    fn grow_if_needed(&mut self)
        requires
            old(self).wf(),
        ensures
            final(self).wf(),
            final(self)@ == old(self)@,
            final(self).spec_len() == old(self).spec_len(),
            final(self).bucket_count() > 0,
    {
        let n = self.table.bucket_len();
        let items = self.table.len();
        if n == 0 {
            self.table.resize(INITIAL_DEFAULT_CAPACITY);
        } else if n <= usize::MAX / 2 && items as u128 >= SET_MAX_LOAD as u128 * n as u128 {
            self.table.resize(INITIAL_DEFAULT_CAPACITY);
        }
    }

    /// Adds the key; returns whether it was not stored before.
    pub fn insert(&mut self, item: K) -> (r: bool)
        requires
            old(self).wf(),
            old(self).spec_len() < usize::MAX,
        ensures
            final(self).wf(),
            final(self)@ == old(self)@.insert(item.key_bytes()),
            r == !old(self)@.contains(item.key_bytes()),
            final(self).spec_len() == old(self).spec_len() + if r {
                1nat
            } else {
                0nat
            },
    {
        self.grow_if_needed();
        let ghost kb = item.key_bytes();
        let ghost before = self.table@;
        let r = self.table.insert(item, ());
        assert(self@ =~= before.insert(kb, ()).dom());
        r.is_none()
    }

    pub fn contains(&self, item: &K) -> (r: bool)
        requires
            self.wf(),
        ensures
            r == self@.contains(item.key_bytes()),
    {
        self.table.contains(item)
    }

    /// Takes the key out; returns whether it was stored.
    pub fn remove(&mut self, item: &K) -> (r: bool)
        requires
            old(self).wf(),
        ensures
            final(self).wf(),
            final(self)@ == old(self)@.remove(item.key_bytes()),
            r == old(self)@.contains(item.key_bytes()),
            final(self).spec_len() == old(self).spec_len() - if r {
                1nat
            } else {
                0nat
            },
    {
        let ghost before = self.table@;
        let r = self.table.remove(item);
        assert(self@ =~= before.remove(item.key_bytes()).dom());
        r.is_some()
    }

    /// A set holding each key of `items`.
    pub fn from_vec(items: Vec<K>) -> (s: Self)
        ensures
            s.wf(),
            forall|kb: Seq<u8>|
                s@.contains(kb) <==> exists|i: int|
                    0 <= i < items@.len() && (#[trigger] items@[i]).key_bytes() == kb,
    {
        let total: usize = items.len();
        let ghost all = items@;
        let mut rest = items;
        let mut set = HashSet::new();
        while rest.len() > 0
            invariant
                set.wf(),
                rest@ == all.take(rest@.len() as int),
                set.spec_len() + rest@.len() <= all.len(),
                all.len() == total,
                forall|kb: Seq<u8>|
                    set@.contains(kb) <==> exists|i: int|
                        rest@.len() <= i < all.len() && (#[trigger] all[i]).key_bytes() == kb,
            decreases rest@.len(),
        {
            let item = rest.pop().unwrap();
            let ghost n = rest@.len() as int;
            proof {
                assert(all[n] == item);
            }
            set.insert(item);
            proof {
                assert(rest@ =~= all.take(n));
                assert forall|kb: Seq<u8>| set@.contains(kb) implies exists|i: int|
                    n <= i < all.len() && (#[trigger] all[i]).key_bytes() == kb by {
                    if kb == item.key_bytes() {
                        assert(all[n].key_bytes() == kb);
                    }
                }
                assert forall|kb: Seq<u8>| (exists|i: int|
                    n <= i < all.len() && (#[trigger] all[i]).key_bytes() == kb) implies set@.contains(kb) by {
                    let i = choose|i: int| n <= i < all.len() && (#[trigger] all[i]).key_bytes() == kb;
                    if i > n {
                        assert(rest@.len() + 1 <= i);
                    }
                }
            }
        }
        proof {
            assert(all.take(0) =~= rest@);
        }
        set
    }

    /// The number of slots is the number of distinct stored keys.
    pub proof fn lemma_len(&self)
        requires
            self.wf(),
        ensures
            self@.finite(),
            self.spec_len() == self@.len(),
    {
        self.table.lemma_entries();
    }

    /// A traversal yields `len()` keys: each stored key once, and no other.
    pub proof fn lemma_iteration_complete(&self)
        requires
            self.wf(),
        ensures
            self.entries().len() == self.spec_len(),
            forall|i: int|
                0 <= i < self.entries().len() ==> self@.contains(
                    (#[trigger] self.entries()[i]).0.key_bytes(),
                ),
            forall|kb: Seq<u8>|
                #[trigger] self@.contains(kb) ==> exists|i: int|
                    0 <= i < self.entries().len() && (#[trigger] self.entries()[i]).0.key_bytes() == kb,
            forall|i: int, j: int|
                0 <= i < self.entries().len() && 0 <= j < self.entries().len() && i != j ==> (
                #[trigger] self.entries()[i]).0.key_bytes() != (#[trigger] self.entries()[j]).0.key_bytes(),
    {
        self.table.lemma_entries();
        assert forall|i: int| 0 <= i < self.entries().len() implies self@.contains(
            (#[trigger] self.entries()[i]).0.key_bytes(),
        ) by {
            assert(self.entries()[i] == self.table.entries()[i]);
        }
        assert forall|kb: Seq<u8>| #[trigger] self@.contains(kb) implies exists|i: int|
            0 <= i < self.entries().len() && (#[trigger] self.entries()[i]).0.key_bytes() == kb by {
            assert(self.table@.contains_key(kb));
            let i = choose|i: int|
                0 <= i < self.table.entries().len() && (#[trigger] self.table.entries()[i]).0.key_bytes() == kb;
            assert(self.entries()[i] == self.table.entries()[i]);
        }
    }

    /// Iterates over the keys, bucket by bucket.
    pub fn iter(&self) -> (r: HashSetIter<'_, K>)
        requires
            self.wf(),
        ensures
            r.valid(),
            r.entries() == self.entries(),
            r.pos() == 0,
    {
        HashSetIter::new(self)
    }
}

/// A cursor over the keys of a set: bucket by bucket, and within a bucket in
/// the order its slots are held.
pub struct HashSetIter<'a, K> {
    inner: RawIter<'a, K, ()>,
}

impl<'a, K: HashKey> HashSetIter<'a, K> {
    pub closed spec fn valid(&self) -> bool {
        self.inner.valid()
    }

    /// The slots the whole traversal yields, in order.
    pub closed spec fn entries(&self) -> Seq<(K, ())> {
        self.inner.source().entries()
    }

    /// How many keys have been yielded.
    pub closed spec fn pos(&self) -> int {
        self.inner.pos()
    }

    pub fn new(set: &'a HashSet<K>) -> (r: Self)
        requires
            set.wf(),
        ensures
            r.valid(),
            r.entries() == set.entries(),
            r.pos() == 0,
    {
        HashSetIter { inner: RawIter::new(&set.table) }
    }

    /// The next key, if any is left.
    pub fn next(&mut self) -> (r: Option<&'a K>)
        requires
            old(self).valid(),
        ensures
            final(self).valid(),
            final(self).entries() == old(self).entries(),
            old(self).pos() <= old(self).entries().len(),
            old(self).pos() < old(self).entries().len() ==> r.is_some() && *r.unwrap() == old(
                self,
            ).entries()[old(self).pos()].0 && final(self).pos() == old(self).pos() + 1,
            old(self).pos() >= old(self).entries().len() ==> r.is_none() && final(self).pos()
                == old(self).pos(),
    {
        match self.inner.next() {
            Some(slot) => Some(&slot.0),
            None => None,
        }
    }
}

} // verus!
