//! The table of groups for short keys.
//!
//! The table keeps one slot for each possible key, at the index that the key
//! itself gives, so that finding a key is one indexing. A slot is empty until
//! its fill mark is set: neither the key 0 nor the handle 0 marks an empty
//! slot, for both are legitimate contents of a claimed one.

use crate::entity::{ShortFixedKeyable, ShortFixedKeysStateEntity, StateEntity};
use crate::table::{slots_keys, table_has, GroupHashTable};
use vstd::prelude::*;

verus! {

/// A table with one slot for each key of type `Key`.
pub struct ShortFixedKeysTable<Key: ShortFixedKeyable> {
    entities: Vec<ShortFixedKeysStateEntity<Key>>,
    size: usize,
}

/// The filled slots among the first `upto`, in rising order.
pub open spec fn filled_slots<Key: ShortFixedKeyable>(
    entities: Seq<ShortFixedKeysStateEntity<Key>>,
    upto: int,
) -> Seq<usize>
    decreases upto,
{
    if upto <= 0 {
        Seq::empty()
    } else if entities[upto - 1].fill {
        filled_slots(entities, upto - 1).push((upto - 1) as usize)
    } else {
        filled_slots(entities, upto - 1)
    }
}

/// The keys in the filled slots among the first `upto`, in the order of the
/// slots.
pub open spec fn filled_keys<Key: ShortFixedKeyable>(
    entities: Seq<ShortFixedKeysStateEntity<Key>>,
    upto: int,
) -> Seq<Key>
    decreases upto,
{
    if upto <= 0 {
        Seq::empty()
    } else if entities[upto - 1].fill {
        filled_keys(entities, upto - 1).push(entities[upto - 1].key)
    } else {
        filled_keys(entities, upto - 1)
    }
}

/// `keys`, which rise by their slots, with `key` put in at its place.
pub open spec fn insert_sorted<Key: ShortFixedKeyable>(keys: Seq<Key>, key: Key) -> Seq<Key>
    decreases keys.len(),
{
    if keys.len() == 0 {
        seq![key]
    } else if keys.last().spec_lookup() < key.spec_lookup() {
        keys.push(key)
    } else {
        insert_sorted(keys.drop_last(), key).push(keys.last())
    }
}

/// Every filled slot holds the key that belongs there.
pub open spec fn slots_keyed<Key: ShortFixedKeyable>(
    entities: Seq<ShortFixedKeysStateEntity<Key>>,
) -> bool {
    forall|i: int|
        0 <= i < entities.len() && (#[trigger] entities[i]).fill ==> entities[i].key.spec_lookup()
            == i
}

/// What `filled_slots` lists: the filled slots below `upto`, each once, in
/// rising order.
pub proof fn lemma_filled_slots<Key: ShortFixedKeyable>(
    entities: Seq<ShortFixedKeysStateEntity<Key>>,
    upto: int,
)
    requires
        0 <= upto <= entities.len() <= usize::MAX,
    ensures
        filled_slots(entities, upto).len() <= upto,
        filled_slots(entities, upto).len() == filled_keys(entities, upto).len(),
        forall|s: usize| #[trigger]
            filled_slots(entities, upto).contains(s) <==> s < upto && entities[s as int].fill,
        forall|i: int, j: int|
            0 <= i < j < filled_slots(entities, upto).len() ==> filled_slots(entities, upto)[i]
                < filled_slots(entities, upto)[j],
        forall|i: int|
            0 <= i < filled_slots(entities, upto).len() ==> #[trigger] filled_keys(
                entities,
                upto,
            )[i] == entities[filled_slots(entities, upto)[i] as int].key,
        filled_slots(entities, upto).no_duplicates(),
    decreases upto,
{
    if upto > 0 {
        lemma_filled_slots(entities, upto - 1);
        let before = filled_slots(entities, upto - 1);
        let now = filled_slots(entities, upto);
        let last = (upto - 1) as usize;
        assert forall|s: usize| #[trigger] now.contains(s) <==> s < upto && entities[s as int].fill by {
            if entities[upto - 1].fill {
                if now.contains(s) {
                    let i = choose|i: int| 0 <= i < now.len() && now[i] == s;
                    if i < before.len() {
                        assert(before[i] == s);
                        assert(before.contains(s));
                    }
                }
                if s < upto && entities[s as int].fill {
                    if s == last {
                        assert(now[before.len() as int] == s);
                    } else {
                        assert(before.contains(s));
                        let i = choose|i: int| 0 <= i < before.len() && before[i] == s;
                        assert(now[i] == s);
                    }
                }
            }
        }
        assert forall|i: int, j: int| 0 <= i < j < now.len() implies now[i] < now[j] by {
            if entities[upto - 1].fill && j == before.len() {
                assert(before.contains(before[i]));
            }
        }
    }
}

/// Slots that agree in their fill marks and keys list the same.
pub proof fn lemma_filled_agree<Key: ShortFixedKeyable>(
    a: Seq<ShortFixedKeysStateEntity<Key>>,
    b: Seq<ShortFixedKeysStateEntity<Key>>,
    upto: int,
)
    requires
        0 <= upto <= a.len(),
        upto <= b.len(),
        forall|i: int| 0 <= i < upto ==> (#[trigger] a[i]).fill == b[i].fill,
        forall|i: int| 0 <= i < upto && (#[trigger] a[i]).fill ==> a[i].key == b[i].key,
    ensures
        filled_slots(a, upto) == filled_slots(b, upto),
        filled_keys(a, upto) == filled_keys(b, upto),
    decreases upto,
{
    if upto > 0 {
        lemma_filled_agree(a, b, upto - 1);
        assert(a[upto - 1].fill == b[upto - 1].fill);
    }
}

/// Claiming the empty slot `slot` for `key` puts `key` at its place among
/// the keys.
pub proof fn lemma_filled_insert<Key: ShortFixedKeyable>(
    before: Seq<ShortFixedKeysStateEntity<Key>>,
    after: Seq<ShortFixedKeysStateEntity<Key>>,
    slot: int,
    key: Key,
    upto: int,
)
    requires
        0 <= slot < before.len() == after.len() <= usize::MAX,
        slot < upto <= before.len(),
        slots_keyed(before),
        !before[slot].fill,
        after[slot].fill,
        after[slot].key == key,
        key.spec_lookup() == slot,
        forall|i: int| 0 <= i < before.len() && i != slot ==> #[trigger] after[i] == before[i],
    ensures
        filled_keys(after, upto) == insert_sorted(filled_keys(before, upto), key),
    decreases upto,
{
    if upto == slot + 1 {
        lemma_filled_agree(before, after, slot);
        lemma_filled_slots(before, slot);
        let keys = filled_keys(before, slot);
        if keys.len() > 0 {
            let slots = filled_slots(before, slot);
            let s = slots[slots.len() - 1];
            assert(slots.contains(s));
            assert(keys[keys.len() - 1] == before[s as int].key);
        }
    } else {
        lemma_filled_insert(before, after, slot, key, upto - 1);
        assert(after[upto - 1] == before[upto - 1]);
        if before[upto - 1].fill {
            let keys = filled_keys(before, upto);
            assert(keys.drop_last() =~= filled_keys(before, upto - 1));
        }
    }
}

/// Putting a new key in at its place adds that key, and nothing else.
pub proof fn lemma_insert_sorted<Key: ShortFixedKeyable>(keys: Seq<Key>, key: Key)
    requires
        keys.no_duplicates(),
        !keys.contains(key),
    ensures
        insert_sorted(keys, key).no_duplicates(),
        insert_sorted(keys, key).len() == keys.len() + 1,
        forall|k: Key| #[trigger] insert_sorted(keys, key).contains(k) <==> keys.contains(k) || k == key,
    decreases keys.len(),
{
    let after = insert_sorted(keys, key);
    if keys.len() == 0 {
        assert(after[0] == key);
    } else if keys.last().spec_lookup() < key.spec_lookup() {
        assert(after[keys.len() as int] == key);
        assert forall|k: Key| #[trigger] after.contains(k) <==> keys.contains(k) || k == key by {
            if keys.contains(k) {
                let i = choose|i: int| 0 <= i < keys.len() && keys[i] == k;
                assert(after[i] == k);
            }
        }
    } else {
        let rest = keys.drop_last();
        let last = keys.last();
        assert(keys[keys.len() - 1] == last);
        assert forall|i: int, j: int| 0 <= i < rest.len() && 0 <= j < rest.len() && i != j implies rest[i]
            != rest[j] by {
            assert(rest[i] == keys[i] && rest[j] == keys[j]);
        }
        if rest.contains(key) {
            let i = choose|i: int| 0 <= i < rest.len() && rest[i] == key;
            assert(keys[i] == key);
        }
        lemma_insert_sorted(rest, key);
        let inner = insert_sorted(rest, key);
        if inner.contains(last) {
            let i = choose|i: int| 0 <= i < rest.len() && rest[i] == last;
            assert(keys[i] == last);
        }
        assert forall|k: Key| #[trigger] after.contains(k) <==> keys.contains(k) || k == key by {
            if after.contains(k) {
                let i = choose|i: int| 0 <= i < after.len() && after[i] == k;
                if i < inner.len() {
                    assert(inner[i] == k);
                    assert(inner.contains(k));
                    if rest.contains(k) {
                        let j = choose|j: int| 0 <= j < rest.len() && rest[j] == k;
                        assert(keys[j] == k);
                    }
                }
            }
            if keys.contains(k) {
                let i = choose|i: int| 0 <= i < keys.len() && keys[i] == k;
                if i < rest.len() {
                    assert(rest[i] == k);
                    assert(inner.contains(k));
                    let j = choose|j: int| 0 <= j < inner.len() && inner[j] == k;
                    assert(after[j] == k);
                } else {
                    assert(after[inner.len() as int] == k);
                }
            }
            if k == key {
                assert(inner.contains(k));
                let j = choose|j: int| 0 <= j < inner.len() && inner[j] == k;
                assert(after[j] == k);
            }
        }
        assert forall|i: int, j: int| 0 <= i < after.len() && 0 <= j < after.len() && i != j implies after[i]
            != after[j] by {
            if i < inner.len() {
                assert(inner.contains(inner[i]));
            }
            if j < inner.len() {
                assert(inner.contains(inner[j]));
            }
        }
    }
}

impl<Key: ShortFixedKeyable> ShortFixedKeysTable<Key> {
    /// The keys of the table are the keys in its filled slots.
    proof fn lemma_keys(&self)
        requires
            self.entities@.len() <= usize::MAX,
        ensures
            slots_keys(self.spec_slots(), |s: usize| self.spec_entity(s)) == filled_keys(
                self.entities@,
                self.entities@.len() as int,
            ),
    {
        lemma_filled_slots(self.entities@, self.entities@.len() as int);
        assert(slots_keys(self.spec_slots(), |s: usize| self.spec_entity(s)) =~= filled_keys(
            self.entities@,
            self.entities@.len() as int,
        ));
    }
}

impl<Key: ShortFixedKeyable> GroupHashTable for ShortFixedKeysTable<Key> {
    type Key = Key;

    type Entity = ShortFixedKeysStateEntity<Key>;

    closed spec fn spec_wf(&self) -> bool {
        &&& self.entities@.len() == Key::spec_slots()
        &&& self.entities@.len() <= usize::MAX
        &&& slots_keyed(self.entities@)
        &&& self.size == filled_slots(self.entities@, self.entities@.len() as int).len()
    }

    closed spec fn spec_slots(&self) -> Seq<usize> {
        filled_slots(self.entities@, self.entities@.len() as int)
    }

    closed spec fn spec_entity(&self, slot: usize) -> ShortFixedKeysStateEntity<Key> {
        self.entities@[slot as int]
    }

    /// A table of short keys hands its groups out in the order of their slots.
    open spec fn spec_insert(keys: Seq<Key>, key: Key) -> Seq<Key> {
        insert_sorted(keys, key)
    }

    proof fn lemma_wf(&self) {
        lemma_filled_slots(self.entities@, self.entities@.len() as int);
        assert forall|s: usize, t: usize|
            #![trigger self.spec_entity(s), self.spec_entity(t)]
            self.spec_slots().contains(s) && self.spec_slots().contains(t)
                && self.spec_entity(s).spec_state_key() == self.spec_entity(t).spec_state_key() implies s
            == t by {
            let (a, b) = (self.entities@[s as int], self.entities@[t as int]);
        }
    }

    proof fn lemma_insert(keys: Seq<Key>, key: Key) {
        lemma_insert_sorted(keys, key);
    }

    fn create() -> (table: Self) {
        let count = Key::slots();
        let zero = Key::zero_key();
        proof {
            Key::lemma_lookup(zero, zero);
        }
        let mut entities: Vec<ShortFixedKeysStateEntity<Key>> = Vec::new();
        let mut i: usize = 0;
        while i < count
            invariant
                0 <= i <= count,
                entities@.len() == i,
                forall|k: int| 0 <= k < i ==> !(#[trigger] entities@[k]).fill,
                filled_slots(entities@, i as int).len() == 0,
            decreases count - i,
        {
            let ghost before = entities@;
            entities.push(ShortFixedKeysStateEntity { key: zero, value: 0, fill: false });
            proof {
                assert forall|k: int| 0 <= k < i implies (#[trigger] before[k]).fill
                    == entities@[k].fill by {}
                lemma_filled_agree(before, entities@, i as int);
            }
            i += 1;
        }
        ShortFixedKeysTable { entities, size: 0 }
    }

    fn len(&self) -> (len: usize) {
        self.size
    }

    fn insert_or_get(&mut self, key: &Key) -> (r: (usize, bool)) {
        let key = *key;
        proof {
            Key::lemma_lookup(key, key);
            lemma_filled_slots(self.entities@, self.entities@.len() as int);
        }
        let total = self.entities.len();
        let slot = key.lookup() as usize;
        if self.entities[slot].fill {
            proof {
                Key::lemma_lookup(key, self.entities@[slot as int].key);
                assert(self.spec_slots().contains(slot));
            }
            return (slot, false);
        }
        let ghost before = self.entities@;
        proof {
            assert forall|s: usize| #[trigger]
                self.spec_slots().contains(s) implies self.spec_entity(s).spec_state_key() != key by {
                Key::lemma_lookup(key, before[s as int].key);
            }
        }
        self.entities[slot].key = key;
        self.entities[slot].value = 0;
        self.entities[slot].fill = true;
        proof {
            let after = self.entities@;
            lemma_filled_slots(after, after.len() as int);
            lemma_filled_insert(before, after, slot as int, key, after.len() as int);
            assert forall|i: int| 0 <= i < after.len() && (#[trigger] after[i]).fill implies after[i].key.spec_lookup()
                == i by {
                if i != slot {
                    assert(before[i].fill);
                }
            }
            self.lemma_keys();
            old(self).lemma_keys();
            assert forall|s: usize| #[trigger] old(self).spec_slots().contains(s) implies self.spec_slots().contains(
                s,
            ) && self.spec_entity(s) == old(self).spec_entity(s) by {
                assert(after[s as int] == before[s as int]);
            }
            assert forall|s: usize| #[trigger] self.spec_slots().contains(s) implies old(
                self,
            ).spec_slots().contains(s) || s == slot by {
                if s != slot {
                    assert(after[s as int] == before[s as int]);
                }
            }
            lemma_insert_sorted_len(filled_keys(before, before.len() as int), key);
        }
        self.size = self.size + 1;
        (slot, true)
    }

    fn entity(&self, slot: usize) -> (entity: &ShortFixedKeysStateEntity<Key>) {
        proof {
            lemma_filled_slots(self.entities@, self.entities@.len() as int);
        }
        &self.entities[slot]
    }

    fn set_value(&mut self, slot: usize, value: usize) {
        proof {
            lemma_filled_slots(self.entities@, self.entities@.len() as int);
        }
        let ghost before = self.entities@;
        self.entities[slot].value = value;
        proof {
            let after = self.entities@;
            assert forall|i: int| 0 <= i < after.len() implies (#[trigger] before[i]).fill
                == after[i].fill && before[i].key == after[i].key by {}
            lemma_filled_agree(before, after, after.len() as int);
            assert forall|i: int| 0 <= i < after.len() && (#[trigger] after[i]).fill implies after[i].key.spec_lookup()
                == i by {
                assert(before[i].fill);
            }
        }
    }

    fn slots(&self) -> (slots: Vec<usize>) {
        let mut slots: Vec<usize> = Vec::new();
        let mut i: usize = 0;
        while i < self.entities.len()
            invariant
                0 <= i <= self.entities@.len(),
                slots@ == filled_slots(self.entities@, i as int),
            decreases self.entities.len() - i,
        {
            if self.entities[i].fill {
                slots.push(i);
            }
            i += 1;
        }
        slots
    }
}

/// The key whose encoded value is 0 is in the table exactly if the fill mark
/// of its slot is set, whatever the slot holds besides and whatever other
/// keys the table has taken in: an empty slot is never taken for the key 0,
/// nor the key 0 for an empty slot.
pub proof fn law_zero_key<Key: ShortFixedKeyable>(table: ShortFixedKeysTable<Key>, zero: Key)
    requires
        table.spec_wf(),
        zero.spec_lookup() == 0,
    ensures
        table_has(table, zero) <==> table.spec_entity(0).fill,
        table_has(table, zero) ==> table.spec_slots().contains(0) && table.spec_entity(0).key
            == zero,
{
    Key::lemma_lookup(zero, zero);
    lemma_filled_slots(table.entities@, table.entities@.len() as int);
    if table.spec_entity(0).fill {
        assert(table.spec_slots().contains(0usize));
        Key::lemma_lookup(table.spec_entity(0).key, zero);
    }
    if table_has(table, zero) {
        let s = choose|s: usize| #[trigger]
            table.spec_slots().contains(s) && table.spec_entity(s).spec_state_key() == zero;
        assert(table.entities@[s as int].key.spec_lookup() == s);
    }
}

/// Putting a key in makes the keys one more.
pub proof fn lemma_insert_sorted_len<Key: ShortFixedKeyable>(keys: Seq<Key>, key: Key)
    ensures
        insert_sorted(keys, key).len() == keys.len() + 1,
    decreases keys.len(),
{
    if keys.len() > 0 && !(keys.last().spec_lookup() < key.spec_lookup()) {
        lemma_insert_sorted_len(keys.drop_last(), key);
    }
}

} // verus!
