//! Entries of the group tables, and what the keys of each table must offer.
//!
//! A table entry holds a group's key and the handle of the group's state. The
//! three kinds of table store their entries differently; `StateEntity` is the
//! one interface through which the aggregation reads and writes all of them.

use vstd::prelude::*;

verus! {

/// An entry of a group table: a key and the state handle stored with it.
///
/// The accessors are for entries that hold a group. An entry of a table that
/// no key has claimed yet is not filled, and is neither read nor written.
pub trait StateEntity {
    type Key: View;

    /// Whether the entry holds a group.
    spec fn spec_filled(&self) -> bool;

    spec fn spec_state_key(&self) -> <Self::Key as View>::V;

    spec fn spec_state_value(&self) -> usize;

    /// The key of the group.
    fn get_state_key(&self) -> (key: &Self::Key)
        requires
            self.spec_filled(),
        ensures
            key@ == self.spec_state_key(),
    ;

    /// Stores `value` as the group's state handle; key and fill mark stay.
    fn set_state_value(&mut self, value: usize)
        requires
            old(self).spec_filled(),
        ensures
            final(self).spec_filled(),
            final(self).spec_state_key() == old(self).spec_state_key(),
            final(self).spec_state_value() == value,
    ;

    /// The state handle stored for the group.
    fn get_state_value(&self) -> (value: &usize)
        requires
            self.spec_filled(),
        ensures
            *value == self.spec_state_value(),
    ;
}

/// A key so short that a table can keep one slot for each possible key and
/// find a key's slot by the key's own value.
pub trait ShortFixedKeyable: Sized + Copy + View<V = Self> {
    /// The index of the key's slot.
    spec fn spec_lookup(&self) -> int;

    /// The number of slots that a table of such keys has.
    spec fn spec_slots() -> int;

    /// Every key has a slot of its own among the `spec_slots()` slots, and
    /// a key is its own view.
    proof fn lemma_lookup(a: Self, b: Self)
        ensures
            0 <= a.spec_lookup() < Self::spec_slots() <= isize::MAX,
            a.spec_lookup() == b.spec_lookup() ==> a == b,
            a@ == a,
    ;

    /// The index of the key's slot.
    fn lookup(&self) -> (index: isize)
        ensures
            index == self.spec_lookup(),
    ;

    /// Whether this is the key whose encoded value is 0.
    fn is_zero_key(&self) -> (zero: bool)
        ensures
            zero == (self.spec_lookup() == 0),
    ;

    /// The number of slots that a table of such keys has.
    fn slots() -> (n: usize)
        ensures
            n == Self::spec_slots(),
    ;

    /// The key whose encoded value is 0.
    fn zero_key() -> (key: Self)
        ensures
            key.spec_lookup() == 0,
    ;
}

impl ShortFixedKeyable for u8 {
    open spec fn spec_lookup(&self) -> int {
        *self as int
    }

    open spec fn spec_slots() -> int {
        256
    }

    proof fn lemma_lookup(a: Self, b: Self) {
    }

    #[inline(always)]
    fn lookup(&self) -> (index: isize) {
        *self as isize
    }

    #[inline(always)]
    fn is_zero_key(&self) -> (zero: bool) {
        *self == 0
    }

    fn slots() -> (n: usize) {
        256
    }

    fn zero_key() -> (key: Self) {
        0
    }
}

impl ShortFixedKeyable for u16 {
    open spec fn spec_lookup(&self) -> int {
        *self as int
    }

    open spec fn spec_slots() -> int {
        65536
    }

    proof fn lemma_lookup(a: Self, b: Self) {
    }

    #[inline(always)]
    fn lookup(&self) -> (index: isize) {
        *self as isize
    }

    #[inline(always)]
    fn is_zero_key(&self) -> (zero: bool) {
        *self == 0
    }

    fn slots() -> (n: usize) {
        65536
    }

    fn zero_key() -> (key: Self) {
        0
    }
}

/// The slot that a table of short keys keeps for one key.
///
/// A slot that no key has claimed has `fill == false`, whatever its other
/// fields hold: the key 0 and the handle 0 are legitimate contents of a
/// claimed slot, so neither can mark an empty one.
#[derive(Debug)]
pub struct ShortFixedKeysStateEntity<Key: ShortFixedKeyable> {
    pub key: Key,
    pub value: usize,
    pub fill: bool,
}

impl<Key: ShortFixedKeyable> StateEntity for ShortFixedKeysStateEntity<Key> {
    type Key = Key;

    open spec fn spec_filled(&self) -> bool {
        self.fill
    }

    open spec fn spec_state_key(&self) -> Key {
        self.key
    }

    open spec fn spec_state_value(&self) -> usize {
        self.value
    }

    #[inline(always)]
    fn get_state_key(&self) -> (key: &Key) {
        proof {
            Key::lemma_lookup(self.key, self.key);
        }
        &self.key
    }

    #[inline(always)]
    fn set_state_value(&mut self, value: usize)
        ensures
            final(self).key == old(self).key,
            final(self).fill == old(self).fill,
    {
        self.value = value;
    }

    #[inline(always)]
    fn get_state_value(&self) -> (value: &usize) {
        &self.value
    }
}

/// A key of a hash table: it can be hashed and compared.
pub trait HashtableKeyable: Sized + View {
    /// The hash of a key, which depends on nothing but what the key holds.
    spec fn spec_hash(key: Self::V) -> u64;

    fn hash(&self) -> (hash: u64)
        ensures
            hash == Self::spec_hash(self@),
    ;

    /// Whether two keys hold the same.
    fn equals(&self, other: &Self) -> (equal: bool)
        ensures
            equal == (self@ == other@),
    ;

    /// A key that holds the same.
    fn duplicate(&self) -> (copy: Self)
        ensures
            copy@ == self@,
    ;
}

impl HashtableKeyable for u32 {
    open spec fn spec_hash(key: u32) -> u64 {
        mix(key as u64)
    }

    fn hash(&self) -> (hash: u64) {
        mix_u64(*self as u64)
    }

    fn equals(&self, other: &Self) -> (equal: bool) {
        *self == *other
    }

    fn duplicate(&self) -> (copy: Self) {
        *self
    }
}

impl HashtableKeyable for u64 {
    open spec fn spec_hash(key: u64) -> u64 {
        mix(key)
    }

    fn hash(&self) -> (hash: u64) {
        mix_u64(*self)
    }

    fn equals(&self, other: &Self) -> (equal: bool) {
        *self == *other
    }

    fn duplicate(&self) -> (copy: Self) {
        *self
    }
}

impl HashtableKeyable for Vec<u8> {
    open spec fn spec_hash(key: Seq<u8>) -> u64 {
        hash_bytes(key)
    }

    fn hash(&self) -> (hash: u64) {
        let mut h: u64 = 0xcbf2_9ce4_8422_2325;
        let mut i: usize = 0;
        while i < self.len()
            invariant
                0 <= i <= self@.len(),
                h == hash_bytes(self@.take(i as int)),
            decreases self.len() - i,
        {
            proof {
                let next = self@.take(i + 1);
                assert(next.drop_last() =~= self@.take(i as int));
                assert(next.last() == self@[i as int]);
            }
            h = mix_u64(h ^ (self[i] as u64));
            i += 1;
        }
        assert(self@.take(self@.len() as int) =~= self@);
        h
    }

    fn equals(&self, other: &Self) -> (equal: bool) {
        let equal = *self == *other;
        proof {
            if equal {
                assert(self@ =~= other@);
            } else if self@ == other@ {
                assert(forall|i: int| 0 <= i < self@.len() ==> self@[i] == other@[i]);
            }
        }
        equal
    }

    fn duplicate(&self) -> (copy: Self) {
        let mut copy: Vec<u8> = Vec::new();
        let mut i: usize = 0;
        while i < self.len()
            invariant
                0 <= i <= self@.len(),
                copy@ == self@.take(i as int),
            decreases self.len() - i,
        {
            copy.push(self[i]);
            i += 1;
            assert(copy@ =~= self@.take(i as int));
        }
        assert(self@.take(self@.len() as int) =~= self@);
        copy
    }
}

/// Spreads the bits of `x`.
pub open spec fn mix(x: u64) -> u64 {
    let y = x ^ (x >> 33);
    let z = y ^ (y << 21);
    z ^ (z >> 29)
}

/// Spreads the bits of `x`.
pub fn mix_u64(x: u64) -> (r: u64)
    ensures
        r == mix(x),
{
    let y = x ^ (x >> 33);
    let z = y ^ (y << 21);
    z ^ (z >> 29)
}

/// The hash of a byte string: the bytes mixed in one after the other.
pub open spec fn hash_bytes(bytes: Seq<u8>) -> u64
    decreases bytes.len(),
{
    if bytes.len() == 0 {
        0xcbf2_9ce4_8422_2325
    } else {
        mix(hash_bytes(bytes.drop_last()) ^ (bytes.last() as u64))
    }
}

/// An entry that a hash table can make for a key that is new to it.
pub trait HashtableEntity: StateEntity + Sized where Self::Key: HashtableKeyable {
    /// The filled entry for `key`, with the handle 0.
    fn with_key(key: &Self::Key) -> (entity: Self)
        ensures
            entity.spec_filled(),
            entity.spec_state_key() == key@,
            entity.spec_state_value() == 0,
    ;
}

/// The entry of a hash table of fixed-size keys.
#[derive(Debug)]
pub struct HashtableEntry<Key: HashtableKeyable> {
    key: Key,
    value: usize,
}

impl<Key: HashtableKeyable> StateEntity for HashtableEntry<Key> {
    type Key = Key;

    open spec fn spec_filled(&self) -> bool {
        true
    }

    closed spec fn spec_state_key(&self) -> Key::V {
        self.key@
    }

    closed spec fn spec_state_value(&self) -> usize {
        self.value
    }

    #[inline(always)]
    fn get_state_key(&self) -> (key: &Key) {
        &self.key
    }

    #[inline(always)]
    fn set_state_value(&mut self, value: usize) {
        self.value = value;
    }

    #[inline(always)]
    fn get_state_value(&self) -> (value: &usize) {
        &self.value
    }
}

impl<Key: HashtableKeyable> HashtableEntity for HashtableEntry<Key> {
    fn with_key(key: &Key) -> (entity: Self) {
        HashtableEntry { key: key.duplicate(), value: 0 }
    }
}

/// The entry of a hash table whose keys are byte strings of any length.
#[derive(Debug)]
pub struct UnsizedHashtableFakeEntry {
    key: Vec<u8>,
    value: usize,
}

impl StateEntity for UnsizedHashtableFakeEntry {
    type Key = Vec<u8>;

    open spec fn spec_filled(&self) -> bool {
        true
    }

    closed spec fn spec_state_key(&self) -> Seq<u8> {
        self.key@
    }

    closed spec fn spec_state_value(&self) -> usize {
        self.value
    }

    #[inline(always)]
    fn get_state_key(&self) -> (key: &Vec<u8>) {
        &self.key
    }

    #[inline(always)]
    fn set_state_value(&mut self, value: usize) {
        self.value = value;
    }

    #[inline(always)]
    fn get_state_value(&self) -> (value: &usize) {
        &self.value
    }
}

impl HashtableEntity for UnsizedHashtableFakeEntry {
    fn with_key(key: &Vec<u8>) -> (entity: Self) {
        UnsizedHashtableFakeEntry { key: key.duplicate(), value: 0 }
    }
}

} // verus!
