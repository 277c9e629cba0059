use std::collections::{HashMap, HashSet};
use std::hash::{BuildHasherDefault, Hasher};
use std::ops::{Deref, DerefMut};
use vstd::prelude::*;

verus! {

/// The FNV offset basis the hasher starts from.
pub const FNV_OFFSET_BASIS: u64 = 2166136261;

/// The FNV prime each step multiplies by.
pub const FNV_PRIME: u64 = 16777619;

/// One step of the hash: xor in the byte, then multiply by the prime,
/// wrapping around at 64 bits.
pub open spec fn fnv_step(h: u64, byte: u8) -> u64 {
    (h ^ (byte as u64)).wrapping_mul(FNV_PRIME)
}

/// The state after feeding `bytes`, in order, to a hasher in state `h`.
pub open spec fn fnv_fold(h: u64, bytes: Seq<u8>) -> u64
    decreases bytes.len(),
{
    if bytes.len() == 0 {
        h
    } else {
        fnv_step(fnv_fold(h, bytes.drop_last()), bytes.last())
    }
}

/// Feeding `a` and then `b` leaves the state that feeding `a + b` at once
/// leaves: the hash depends on the bytes written, not on how they were cut.
pub proof fn lemma_fnv_fold_append(h: u64, a: Seq<u8>, b: Seq<u8>)
    ensures
        fnv_fold(h, a + b) == fnv_fold(fnv_fold(h, a), b),
    decreases b.len(),
{
    if b.len() == 0 {
        assert(a + b == a);
    } else {
        lemma_fnv_fold_append(h, a, b.drop_last());
        assert((a + b).drop_last() == a + b.drop_last());
        assert((a + b).last() == b.last());
    }
}

/// A hasher computing the 64-bit FNV hash with the 32-bit offset basis and
/// prime: each byte is xored in, then the state is multiplied by the prime.
pub struct FnvHasher(u64);

impl FnvHasher {
    /// The current state, which is also what `finish` returns.
    pub closed spec fn state(&self) -> u64 {
        self.0
    }
}

impl Default for FnvHasher {
    fn default() -> (h: Self)
        ensures
            h.state() == FNV_OFFSET_BASIS,
    {
        FnvHasher(FNV_OFFSET_BASIS)
    }
}

impl Hasher for FnvHasher {
    fn finish(&self) -> (r: u64)
        ensures
            r == self.state(),
    {
        self.0
    }

    fn write(&mut self, bytes: &[u8])
        ensures
            final(self).state() == fnv_fold(old(self).state(), bytes@),
    {
        let ghost h0 = self.0;
        let mut i: usize = 0;
        while i < bytes.len()
            invariant
                0 <= i <= bytes@.len(),
                self.0 == fnv_fold(h0, bytes@.take(i as int)),
            decreases bytes@.len() - i,
        {
            let byte = bytes[i];
            proof {
                assert(bytes@.take(i + 1).drop_last() == bytes@.take(i as int));
                assert(bytes@.take(i + 1).last() == byte);
            }
            self.0 = (self.0 ^ (byte as u64)).wrapping_mul(FNV_PRIME);
            i = i + 1;
        }
        proof {
            assert(bytes@.take(i as int) == bytes@);
        }
    }
}

/// `std::hash::BuildHasherDefault`, the builder that makes each hasher with
/// `Default`; Verus sees nothing inside it.
#[verifier::external_type_specification]
#[verifier::external_body]
#[verifier::reject_recursive_types(H)]
pub struct ExBuildHasherDefault<H>(BuildHasherDefault<H>);

/// `BuildHasherDefault::default` makes the builder; nothing is claimed of
/// it but that the call returns.
pub assume_specification<H>[ <BuildHasherDefault<H> as core::default::Default>::default ]() -> BuildHasherDefault<H>;

/// `HashMap::with_hasher` gives a map with no keys, as its documentation
/// says ("creates an empty `HashMap`"); nothing is claimed of the builder it
/// keeps.
pub assume_specification<K, V, S>[ HashMap::<K, V, S>::with_hasher ](
    hash_builder: S,
) -> (map: HashMap<K, V, S>)
    ensures
        map@.dom() == Set::<K>::empty(),
;

/// `HashSet::with_hasher` gives an empty set, as its documentation says;
/// nothing is claimed of the builder it keeps.
pub assume_specification<T, S>[ HashSet::<T, S>::with_hasher ](
    hasher: S,
) -> (s: HashSet<T, S>)
    ensures
        s@ == Set::<T>::empty(),
;

/// A hash map keyed through `FnvHasher`.
#[derive(Debug)]
pub struct FnvHashMap<K, V>(HashMap<K, V, BuildHasherDefault<FnvHasher>>);

/// A hash set keyed through `FnvHasher`.
#[derive(Debug)]
pub struct FnvHashSet<K>(HashSet<K, BuildHasherDefault<FnvHasher>>);

impl<K, V> FnvHashMap<K, V> {
    /// The entries.
    pub closed spec fn view(&self) -> Map<K, V> {
        self.0@
    }

    /// An empty map.
    pub fn new() -> (m: Self)
        ensures
            m.view() == Map::<K, V>::empty(),
    {
        FnvHashMap(HashMap::with_hasher(Default::default()))
    }
}

impl<K> FnvHashSet<K> {
    /// The elements.
    pub closed spec fn view(&self) -> Set<K> {
        self.0@
    }

    /// An empty set.
    pub fn new() -> (s: Self)
        ensures
            s.view() == Set::<K>::empty(),
    {
        FnvHashSet(HashSet::with_hasher(Default::default()))
    }
}

impl<K, V> Deref for FnvHashMap<K, V> {
    type Target = HashMap<K, V, BuildHasherDefault<FnvHasher>>;

    fn deref(&self) -> (m: &Self::Target)
        ensures
            m@ == self.view(),
    {
        &self.0
    }
}

impl<K> Deref for FnvHashSet<K> {
    type Target = HashSet<K, BuildHasherDefault<FnvHasher>>;

    fn deref(&self) -> (s: &Self::Target)
        ensures
            s@ == self.view(),
    {
        &self.0
    }
}

impl<K, V> DerefMut for FnvHashMap<K, V> {
    fn deref_mut(&mut self) -> (m: &mut Self::Target)
        ensures
            m@ == old(self).view(),
            final(self).view() == final(m)@,
    {
        &mut self.0
    }
}

impl<K> DerefMut for FnvHashSet<K> {
    fn deref_mut(&mut self) -> (s: &mut Self::Target)
        ensures
            s@ == old(self).view(),
            final(self).view() == final(s)@,
    {
        &mut self.0
    }
}

} // verus!
