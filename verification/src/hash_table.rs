//! The hash table of groups, for keys that are hashed.
//!
//! The entries stand in one vector in the order in which their keys came, and
//! an entry's slot is its index there, so an entry never moves. The buckets
//! hold slots. When the table grows the buckets are rebuilt and the entries
//! are left alone.

use crate::entity::{
    HashtableEntity, HashtableEntry, HashtableKeyable, StateEntity, UnsizedHashtableFakeEntry,
};
use crate::table::{slots_keys, GroupHashTable};
use vstd::prelude::*;

verus! {

/// A hash table with one entry of type `E` for each key.
pub struct Hashtable<E: HashtableEntity> where E::Key: HashtableKeyable {
    entries: Vec<E>,
    buckets: Vec<Vec<usize>>,
}

/// The table of groups with fixed-size keys.
pub type FixedKeysHashtable<Key> = Hashtable<HashtableEntry<Key>>;

/// The table of groups whose keys are byte strings of any length.
pub type UnsizedHashtable = Hashtable<UnsizedHashtableFakeEntry>;

/// The bucket, out of `buckets`, in which a key with hash `hash` is kept.
pub open spec fn bucket_of(hash: u64, buckets: int) -> int {
    (hash as int) % buckets
}

/// Every entry is filled and its slot stands in the bucket of its key.
pub open spec fn buckets_complete<E: HashtableEntity>(
    entries: Seq<E>,
    buckets: Seq<Vec<usize>>,
    upto: int,
) -> bool where E::Key: HashtableKeyable {
    forall|i: int|
        0 <= i < upto ==> (#[trigger] entries[i]).spec_filled() && buckets[bucket_of(
            E::Key::spec_hash(entries[i].spec_state_key()),
            buckets.len() as int,
        )]@.contains(i as usize)
}

/// Every bucket holds slots of entries only.
pub open spec fn buckets_sound(buckets: Seq<Vec<usize>>, entries: int) -> bool {
    forall|b: int, j: int|
        0 <= b < buckets.len() && 0 <= j < buckets[b]@.len() ==> (#[trigger] buckets[b]@[j])
            < entries
}

/// No two entries hold the same key.
pub open spec fn keys_distinct<E: StateEntity>(entries: Seq<E>) -> bool {
    forall|i: int, j: int|
        #![trigger entries[i], entries[j]]
        0 <= i < entries.len() && 0 <= j < entries.len() && entries[i].spec_state_key()
            == entries[j].spec_state_key() ==> i == j
}

impl<E: HashtableEntity> Hashtable<E> where E::Key: HashtableKeyable {
    /// The slots of the table are the indices of its entries.
    proof fn lemma_slots(&self)
        requires
            self.entries@.len() <= usize::MAX,
        ensures
            self.spec_slots().no_duplicates(),
            forall|s: usize| #[trigger] self.spec_slots().contains(s) <==> s < self.entries@.len(),
    {
        let slots = self.spec_slots();
        assert forall|s: usize| s < self.entries@.len() implies #[trigger] slots.contains(s) by {
            assert(slots[s as int] == s);
        }
    }

    /// Fills `count` fresh buckets with the slots of all entries.
    fn rebuild(&mut self, count: usize)
        requires
            count > 0,
            forall|i: int| 0 <= i < old(self).entries@.len() ==> (#[trigger] old(
                self,
            ).entries@[i]).spec_filled(),
        ensures
            final(self).entries == old(self).entries,
            final(self).buckets@.len() == count,
            buckets_sound(final(self).buckets@, final(self).entries@.len() as int),
            buckets_complete(
                final(self).entries@,
                final(self).buckets@,
                final(self).entries@.len() as int,
            ),
    {
        let mut buckets: Vec<Vec<usize>> = Vec::new();
        let mut b: usize = 0;
        while b < count
            invariant
                0 <= b <= count,
                buckets@.len() == b,
                forall|c: int| 0 <= c < b ==> (#[trigger] buckets@[c])@.len() == 0,
            decreases count - b,
        {
            buckets.push(Vec::new());
            b += 1;
        }
        let mut i: usize = 0;
        while i < self.entries.len()
            invariant
                0 <= i <= self.entries@.len(),
                count > 0,
                self.entries == old(self).entries,
                buckets@.len() == count,
                buckets_sound(buckets@, i as int),
                buckets_complete(self.entries@, buckets@, i as int),
                forall|k: int| 0 <= k < self.entries@.len() ==> (#[trigger] self.entries@[k]).spec_filled(),
            decreases self.entries.len() - i,
        {
            let hash = self.entries[i].get_state_key().hash();
            let home = (hash % (count as u64)) as usize;
            let ghost before = buckets@;
            buckets[home].push(i);
            proof {
                assert(buckets@[home as int]@.last() == i);
                assert forall|k: int| 0 <= k < i + 1 implies (#[trigger] self.entries@[k]).spec_filled()
                    && buckets@[bucket_of(
                    E::Key::spec_hash(self.entries@[k].spec_state_key()),
                    buckets@.len() as int,
                )]@.contains(k as usize) by {
                    let at = bucket_of(
                        E::Key::spec_hash(self.entries@[k].spec_state_key()),
                        count as int,
                    );
                    if k < i {
                        let j = choose|j: int|
                            0 <= j < before[at]@.len() && before[at]@[j] == k as usize;
                        assert(buckets@[at]@[j] == k as usize);
                    } else {
                        assert(buckets@[at]@[buckets@[at]@.len() - 1] == k as usize);
                    }
                }
            }
            i += 1;
        }
        self.buckets = buckets;
    }
}

impl<E: HashtableEntity> GroupHashTable for Hashtable<E> where E::Key: HashtableKeyable {
    type Key = E::Key;

    type Entity = E;

    closed spec fn spec_wf(&self) -> bool {
        &&& self.entries@.len() <= usize::MAX
        &&& self.buckets@.len() > 0
        &&& buckets_sound(self.buckets@, self.entries@.len() as int)
        &&& buckets_complete(self.entries@, self.buckets@, self.entries@.len() as int)
        &&& keys_distinct(self.entries@)
    }

    closed spec fn spec_slots(&self) -> Seq<usize> {
        Seq::new(self.entries@.len(), |i: int| i as usize)
    }

    closed spec fn spec_entity(&self, slot: usize) -> E {
        self.entries@[slot as int]
    }

    /// A hash table hands its groups out in the order in which their keys came.
    open spec fn spec_insert(keys: Seq<<E::Key as View>::V>, key: <E::Key as View>::V) -> Seq<
        <E::Key as View>::V,
    > {
        keys.push(key)
    }

    proof fn lemma_wf(&self) {
        self.lemma_slots();
        let slots = self.spec_slots();
        assert forall|s: usize, t: usize|
            #![trigger self.spec_entity(s), self.spec_entity(t)]
            slots.contains(s) && slots.contains(t) && self.spec_entity(s).spec_state_key()
                == self.spec_entity(t).spec_state_key() implies s == t by {
            let (a, b) = (self.entries@[s as int], self.entries@[t as int]);
        }
    }

    proof fn lemma_insert(keys: Seq<<E::Key as View>::V>, key: <E::Key as View>::V) {
        let after = keys.push(key);
        assert forall|k: <E::Key as View>::V| #[trigger]
            after.contains(k) <==> keys.contains(k) || k == key by {
            if keys.contains(k) {
                let i = choose|i: int| 0 <= i < keys.len() && keys[i] == k;
                assert(after[i] == k);
            }
            if k == key {
                assert(after[keys.len() as int] == k);
            }
        }
    }

    fn create() -> (table: Self) {
        let mut table = Hashtable { entries: Vec::new(), buckets: Vec::new() };
        table.rebuild(16);
        proof {
            table.lemma_slots();
        }
        table
    }

    fn len(&self) -> (len: usize) {
        self.entries.len()
    }

    fn insert_or_get(&mut self, key: &E::Key) -> (r: (usize, bool)) {
        proof {
            self.lemma_slots();
        }
        let count = self.buckets.len();
        let hash = key.hash();
        let home = (hash % (count as u64)) as usize;
        let mut j: usize = 0;
        while j < self.buckets[home].len()
            invariant
                self.spec_wf(),
                *self == *old(self),
                home < self.buckets@.len(),
                0 <= j <= self.buckets@[home as int]@.len(),
                forall|k: int|
                    0 <= k < j ==> (#[trigger] self.entries@[self.buckets@[home as int]@[k] as int]).spec_state_key()
                        != key@,
            decreases self.buckets@[home as int]@.len() - j,
        {
            let slot = self.buckets[home][j];
            if self.entries[slot].get_state_key().equals(key) {
                proof {
                    assert(self.spec_slots()[slot as int] == slot);
                }
                return (slot, false);
            }
            j += 1;
        }
        proof {
            assert forall|s: usize| #[trigger]
                self.spec_slots().contains(s) implies self.spec_entity(s).spec_state_key()
                != key@ by {
                let entry = self.entries@[s as int];
                if entry.spec_state_key() == key@ {
                    let k = choose|k: int|
                        0 <= k < self.buckets@[home as int]@.len() && self.buckets@[home as int]@[k]
                            == s;
                    assert(self.entries@[self.buckets@[home as int]@[k] as int].spec_state_key()
                        != key@);
                }
            }
        }
        let slot = self.entries.len();
        let ghost old_entries = self.entries@;
        let ghost old_buckets = self.buckets@;
        self.entries.push(E::with_key(key));
        self.buckets[home].push(slot);
        let total = self.entries.len();
        proof {
            self.lemma_slots();
            let entries = self.entries@;
            let buckets = self.buckets@;
            assert(buckets[home as int]@.last() == slot);
            assert forall|b: int, k: int|
                0 <= b < buckets.len() && 0 <= k < buckets[b]@.len() implies (#[trigger] buckets[b]@[k])
                < entries.len() by {
                if b == home && k == buckets[b]@.len() - 1 {
                } else {
                    assert(buckets[b]@[k] == old_buckets[b]@[k]);
                }
            }
            assert forall|i: int| 0 <= i < entries.len() implies (#[trigger] entries[i]).spec_filled()
                && buckets[bucket_of(
                E::Key::spec_hash(entries[i].spec_state_key()),
                buckets.len() as int,
            )]@.contains(i as usize) by {
                let at = bucket_of(E::Key::spec_hash(entries[i].spec_state_key()), count as int);
                if i < slot {
                    assert(entries[i] == old_entries[i]);
                    let k = choose|k: int|
                        0 <= k < old_buckets[at]@.len() && old_buckets[at]@[k] == i as usize;
                    assert(buckets[at]@[k] == i as usize);
                } else {
                    assert(buckets[at]@[buckets[at]@.len() - 1] == i as usize);
                }
            }
            assert forall|i: int, k: int|
                #![trigger entries[i], entries[k]]
                0 <= i < entries.len() && 0 <= k < entries.len() && entries[i].spec_state_key()
                    == entries[k].spec_state_key() implies i == k by {
                if i < slot {
                    assert(old(self).spec_slots()[i] == i as usize);
                    assert(old(self).spec_entity(i as usize) == entries[i]);
                }
                if k < slot {
                    assert(old(self).spec_slots()[k] == k as usize);
                    assert(old(self).spec_entity(k as usize) == entries[k]);
                }
                if i < slot && k < slot {
                    let (a, b) = (old_entries[i], old_entries[k]);
                }
            }
            assert(self.spec_slots()[slot as int] == slot);
            assert forall|s: usize| #[trigger] old(self).spec_slots().contains(s) implies self.spec_slots().contains(
                s,
            ) && self.spec_entity(s) == old(self).spec_entity(s) by {
                assert(self.spec_slots()[s as int] == s);
            }
            assert(slots_keys(self.spec_slots(), |s: usize| self.spec_entity(s)) =~= slots_keys(
                old(self).spec_slots(),
                |s: usize| old(self).spec_entity(s),
            ).push(key@));
        }
        if count <= usize::MAX / 2 && self.entries.len() / 4 >= count {
            let ghost grown = *self;
            self.rebuild(count * 2);
            proof {
                assert(self.spec_slots() =~= grown.spec_slots());
                self.lemma_slots();
            }
        }
        (slot, true)
    }

    fn entity(&self, slot: usize) -> (entity: &E) {
        proof {
            self.lemma_slots();
        }
        &self.entries[slot]
    }

    fn set_value(&mut self, slot: usize, value: usize) {
        proof {
            self.lemma_slots();
        }
        let ghost before = self.entries@;
        self.entries[slot].set_state_value(value);
        proof {
            self.lemma_slots();
            let entries = self.entries@;
            assert forall|i: int| 0 <= i < entries.len() implies (#[trigger] entries[i]).spec_filled()
                && self.buckets@[bucket_of(
                E::Key::spec_hash(entries[i].spec_state_key()),
                self.buckets@.len() as int,
            )]@.contains(i as usize) by {
                assert(before[i].spec_filled());
            }
            assert forall|i: int, k: int|
                #![trigger entries[i], entries[k]]
                0 <= i < entries.len() && 0 <= k < entries.len() && entries[i].spec_state_key()
                    == entries[k].spec_state_key() implies i == k by {
                let (a, b) = (before[i], before[k]);
            }
            assert(self.spec_slots() =~= old(self).spec_slots());
        }
    }

    fn slots(&self) -> (slots: Vec<usize>) {
        let mut slots: Vec<usize> = Vec::new();
        let mut i: usize = 0;
        while i < self.entries.len()
            invariant
                0 <= i <= self.entries@.len(),
                slots@ == Seq::new(i as nat, |k: int| k as usize),
            decreases self.entries.len() - i,
        {
            slots.push(i);
            i += 1;
            assert(slots@ =~= Seq::new(i as nat, |k: int| k as usize));
        }
        slots
    }
}

} // verus!
