use std::collections::hash_map::DefaultHasher;
use std::hash::Hasher;
use vstd::bytes::{spec_u64_to_le_bytes, u64_to_le_bytes, lemma_auto_spec_u64_to_from_le_bytes};
use vstd::prelude::*;
use vstd::string::StringSliceAdditionalSpecFns;
use vstd::utf8::encode_utf8;
use vstd::std_specs::hash::DefaultHasherAdditionalSpecFns;

verus! {

/// The hash of a key's byte encoding: one `write` of those bytes into a
/// fresh `DefaultHasher`, then `finish`.
pub open spec fn hash_of(b: Seq<u8>) -> u64 {
    DefaultHasher::spec_finish(seq![b])
}

/// Hashes a byte encoding with std's `DefaultHasher`.
pub fn hash_bytes(b: &[u8]) -> (r: u64)
    ensures
        r == hash_of(b@),
{
    let mut h = DefaultHasher::new();
    h.write(b);
    h.finish()
}

/// A key of the hash containers. Each key has a byte encoding that identifies
/// it: two keys are the same key exactly when their encodings are equal, and
/// the hash is computed from the encoding alone, so equal keys hash equally.
pub trait HashKey: Sized {
    spec fn key_bytes(&self) -> Seq<u8>;

    fn hash_code(&self) -> (r: u64)
        ensures
            r == hash_of(self.key_bytes()),
    ;

    fn same_key(&self, other: &Self) -> (r: bool)
        ensures
            r == (self.key_bytes() == other.key_bytes()),
    ;
}

/// Compares two byte slices element by element.
pub fn bytes_equal(a: &[u8], b: &[u8]) -> (r: bool)
    ensures
        r == (a@ == b@),
{
    if a.len() != b.len() {
        return false;
    }
    let mut i: usize = 0;
    while i < a.len()
        invariant
            a@.len() == b@.len(),
            0 <= i <= a@.len(),
            forall|j: int| 0 <= j < i ==> a@[j] == b@[j],
        decreases a@.len() - i,
    {
        if a[i] != b[i] {
            return false;
        }
        i = i + 1;
    }
    assert(a@ =~= b@);
    true
}

impl HashKey for u64 {
    open spec fn key_bytes(&self) -> Seq<u8> {
        spec_u64_to_le_bytes(*self)
    }

    fn hash_code(&self) -> (r: u64) {
        let b = u64_to_le_bytes(*self);
        hash_bytes(b.as_slice())
    }

    fn same_key(&self, other: &Self) -> (r: bool) {
        proof {
            lemma_auto_spec_u64_to_from_le_bytes();
        }
        *self == *other
    }
}

/// Distinct integers are distinct keys.
pub proof fn lemma_u64_keys_distinct()
    ensures
        forall|x: u64, y: u64| #[trigger] x.key_bytes() == #[trigger] y.key_bytes() ==> x == y,
{
    lemma_auto_spec_u64_to_from_le_bytes();
}

impl<'a> HashKey for &'a str {
    open spec fn key_bytes(&self) -> Seq<u8> {
        (**self).spec_bytes()
    }

    fn hash_code(&self) -> (r: u64) {
        hash_bytes(self.as_bytes())
    }

    fn same_key(&self, other: &Self) -> (r: bool) {
        bytes_equal(self.as_bytes(), other.as_bytes())
    }
}

impl HashKey for String {
    open spec fn key_bytes(&self) -> Seq<u8> {
        encode_utf8(self@)
    }

    fn hash_code(&self) -> (r: u64) {
        hash_bytes(self.as_str().as_bytes())
    }

    fn same_key(&self, other: &Self) -> (r: bool) {
        bytes_equal(self.as_str().as_bytes(), other.as_str().as_bytes())
    }
}

} // verus!
