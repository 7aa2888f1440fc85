//! What the aggregation asks of a table of groups.
//!
//! A table maps each distinct key to one entry. An entry sits in a slot; the
//! slot of a key never changes, however the table grows, so the number of a
//! slot is a stable name for a group. The table also fixes the order in which
//! it hands its groups out.

use crate::entity::StateEntity;
use vstd::prelude::*;

verus! {

/// A table of groups: at most one entry for each key.
pub trait GroupHashTable: Sized {
    type Key: View;

    type Entity: StateEntity<Key = Self::Key>;

    /// The invariant of the table.
    spec fn spec_wf(&self) -> bool;

    /// The slots that hold a group, in the order of iteration.
    spec fn spec_slots(&self) -> Seq<usize>;

    /// The entry in slot `slot`.
    spec fn spec_entity(&self, slot: usize) -> Self::Entity;

    /// The keys in the order of iteration, once a table that iterates over
    /// `keys` has taken in the new key `key`.
    spec fn spec_insert(keys: Seq<<Self::Key as View>::V>, key: <Self::Key as View>::V) -> Seq<
        <Self::Key as View>::V,
    >;

    /// In a table that meets its invariant no slot is listed twice, every
    /// listed slot is filled, and no two slots hold the same key.
    proof fn lemma_wf(&self)
        requires
            self.spec_wf(),
        ensures
            self.spec_slots().no_duplicates(),
            forall|s: usize| #[trigger]
                self.spec_slots().contains(s) ==> self.spec_entity(s).spec_filled(),
            forall|s: usize, t: usize|
                #![trigger self.spec_entity(s), self.spec_entity(t)]
                self.spec_slots().contains(s) && self.spec_slots().contains(t)
                    && self.spec_entity(s).spec_state_key() == self.spec_entity(t).spec_state_key()
                    ==> s == t,
    ;

    /// Taking in a new key adds that key to the keys, and nothing else.
    proof fn lemma_insert(keys: Seq<<Self::Key as View>::V>, key: <Self::Key as View>::V)
        requires
            keys.no_duplicates(),
            !keys.contains(key),
        ensures
            Self::spec_insert(keys, key).no_duplicates(),
            Self::spec_insert(keys, key).len() == keys.len() + 1,
            forall|k: <Self::Key as View>::V|
                #[trigger] Self::spec_insert(keys, key).contains(k) <==> keys.contains(k) || k
                    == key,
    ;

    /// The table without groups.
    fn create() -> (table: Self)
        ensures
            table.spec_wf(),
            table.spec_slots().len() == 0,
    ;

    /// The number of groups.
    fn len(&self) -> (len: usize)
        requires
            self.spec_wf(),
        ensures
            len == self.spec_slots().len(),
    ;

    /// Finds the slot of `key`, claiming one if the key is new, and says
    /// whether the key is new.
    ///
    /// Entries that the table held before stay in their slots as they were.
    /// The entry of a new key holds the handle 0.
    fn insert_or_get(&mut self, key: &Self::Key) -> (r: (usize, bool))
        requires
            old(self).spec_wf(),
        ensures
            final(self).spec_wf(),
            final(self).spec_slots().contains(r.0),
            final(self).spec_entity(r.0).spec_state_key() == key@,
            r.1 == !slots_hold(old(self).spec_slots(), |s: usize| old(self).spec_entity(s), key@),
            forall|s: usize| #[trigger]
                old(self).spec_slots().contains(s) ==> final(self).spec_slots().contains(s)
                    && final(self).spec_entity(s) == old(self).spec_entity(s),
            forall|s: usize| #[trigger]
                final(self).spec_slots().contains(s) ==> old(self).spec_slots().contains(s) || s
                    == r.0,
            !r.1 ==> final(self).spec_slots() == old(self).spec_slots(),
            r.1 ==> final(self).spec_slots().len() == old(self).spec_slots().len() + 1,
            r.1 ==> !old(self).spec_slots().contains(r.0),
            r.1 ==> final(self).spec_entity(r.0).spec_state_value() == 0,
            r.1 ==> slots_keys(final(self).spec_slots(), |s: usize| final(self).spec_entity(s))
                == Self::spec_insert(
                slots_keys(old(self).spec_slots(), |s: usize| old(self).spec_entity(s)),
                key@,
            ),
    ;

    /// The entry in slot `slot`.
    fn entity(&self, slot: usize) -> (entity: &Self::Entity)
        requires
            self.spec_wf(),
            self.spec_slots().contains(slot),
        ensures
            *entity == self.spec_entity(slot),
            entity.spec_filled(),
    ;

    /// Stores `value` as the state handle of the group in slot `slot`.
    fn set_value(&mut self, slot: usize, value: usize)
        requires
            old(self).spec_wf(),
            old(self).spec_slots().contains(slot),
        ensures
            final(self).spec_wf(),
            final(self).spec_slots() == old(self).spec_slots(),
            final(self).spec_entity(slot).spec_state_key() == old(self).spec_entity(
                slot,
            ).spec_state_key(),
            final(self).spec_entity(slot).spec_state_value() == value,
            forall|s: usize| #[trigger]
                old(self).spec_slots().contains(s) && s != slot ==> final(self).spec_entity(s)
                    == old(self).spec_entity(s),
    ;

    /// The slots that hold a group, in the order of iteration.
    fn slots(&self) -> (slots: Vec<usize>)
        requires
            self.spec_wf(),
        ensures
            slots@ == self.spec_slots(),
    ;
}

/// The keys of the entries in `slots`, slot by slot.
pub open spec fn slots_keys<E: StateEntity>(slots: Seq<usize>, entity: spec_fn(usize) -> E) -> Seq<
    <E::Key as View>::V,
> {
    Seq::new(slots.len(), |i: int| entity(slots[i]).spec_state_key())
}

/// Whether an entry in one of `slots` holds the key `key`.
pub open spec fn slots_hold<E: StateEntity>(
    slots: Seq<usize>,
    entity: spec_fn(usize) -> E,
    key: <E::Key as View>::V,
) -> bool {
    exists|s: usize| #[trigger] slots.contains(s) && entity(s).spec_state_key() == key
}

/// The keys of a table in the order of iteration.
pub open spec fn table_keys<T: GroupHashTable>(table: T) -> Seq<<T::Key as View>::V> {
    slots_keys(table.spec_slots(), |s: usize| table.spec_entity(s))
}

/// Whether a table holds the key `key`.
pub open spec fn table_has<T: GroupHashTable>(table: T, key: <T::Key as View>::V) -> bool {
    slots_hold(table.spec_slots(), |s: usize| table.spec_entity(s), key)
}

/// The slot in which a table holds `key`.
pub open spec fn table_slot<T: GroupHashTable>(table: T, key: <T::Key as View>::V) -> usize {
    choose|s: usize| #[trigger]
        table.spec_slots().contains(s) && table.spec_entity(s).spec_state_key() == key
}

/// The state handle that a table holds for `key`.
pub open spec fn table_value<T: GroupHashTable>(table: T, key: <T::Key as View>::V) -> usize {
    table.spec_entity(table_slot(table, key)).spec_state_value()
}

/// A table holds a key exactly if the key is among its keys; the keys of a
/// table are distinct; and the slot that holds a key is the slot of that key.
pub proof fn lemma_table_keys<T: GroupHashTable>(table: T)
    requires
        table.spec_wf(),
    ensures
        table_keys(table).no_duplicates(),
        table_keys(table).len() == table.spec_slots().len(),
        forall|k: <T::Key as View>::V| #[trigger]
            table_keys(table).contains(k) <==> table_has(table, k),
        forall|s: usize| #[trigger]
            table.spec_slots().contains(s) ==> table_slot(
                table,
                table.spec_entity(s).spec_state_key(),
            ) == s,
{
    table.lemma_wf();
    let keys = table_keys(table);
    let slots = table.spec_slots();
    assert forall|i: int, j: int| 0 <= i < keys.len() && 0 <= j < keys.len() && i != j implies keys[i]
        != keys[j] by {
        assert(slots.contains(slots[i]));
        assert(slots.contains(slots[j]));
        let (a, b) = (table.spec_entity(slots[i]), table.spec_entity(slots[j]));
    }
    assert forall|k: <T::Key as View>::V| #[trigger]
        keys.contains(k) <==> table_has(table, k) by {
        if keys.contains(k) {
            let i = choose|i: int| 0 <= i < keys.len() && keys[i] == k;
            assert(slots.contains(slots[i]));
        }
        if table_has(table, k) {
            let s = table_slot(table, k);
            let i = choose|i: int| 0 <= i < slots.len() && slots[i] == s;
            assert(keys[i] == k);
        }
    }
    assert forall|s: usize| #[trigger] slots.contains(s) implies table_slot(
        table,
        table.spec_entity(s).spec_state_key(),
    ) == s by {
        let k = table.spec_entity(s).spec_state_key();
        let t = table_slot(table, k);
        let (a, b) = (table.spec_entity(s), table.spec_entity(t));
    }
}

/// Tables that hold the same keys in the same slots have the same keys.
pub proof fn lemma_same_keys<T: GroupHashTable>(a: T, b: T)
    requires
        a.spec_slots() == b.spec_slots(),
        forall|s: usize| #[trigger]
            a.spec_slots().contains(s) ==> a.spec_entity(s).spec_state_key() == b.spec_entity(
                s,
            ).spec_state_key(),
    ensures
        table_keys(a) == table_keys(b),
        forall|k: <T::Key as View>::V| table_has(a, k) == table_has(b, k),
{
    let slots = a.spec_slots();
    assert forall|i: int| 0 <= i < slots.len() implies table_keys(a)[i] == table_keys(b)[i] by {
        assert(slots.contains(slots[i]));
    }
    assert(table_keys(a) =~= table_keys(b));
    assert forall|k: <T::Key as View>::V| table_has(a, k) == table_has(b, k) by {
        if table_has(a, k) {
            let s = choose|s: usize| #[trigger]
                a.spec_slots().contains(s) && a.spec_entity(s).spec_state_key() == k;
            assert(b.spec_slots().contains(s) && b.spec_entity(s).spec_state_key() == k);
        }
        if table_has(b, k) {
            let s = choose|s: usize| #[trigger]
                b.spec_slots().contains(s) && b.spec_entity(s).spec_state_key() == k;
            assert(a.spec_slots().contains(s) && a.spec_entity(s).spec_state_key() == k);
        }
    }
}

/// The key `key` is held in the slot `slot`, and in no other.
pub proof fn lemma_slot_of<T: GroupHashTable>(table: T, slot: usize, key: <T::Key as View>::V)
    requires
        table.spec_wf(),
        table.spec_slots().contains(slot),
        table.spec_entity(slot).spec_state_key() == key,
    ensures
        table_has(table, key),
        table_keys(table).contains(key),
        table_slot(table, key) == slot,
        table_value(table, key) == table.spec_entity(slot).spec_state_value(),
{
    lemma_table_keys(table);
}

/// A key that the table holds is held in its slot.
pub proof fn lemma_has_slot<T: GroupHashTable>(table: T, key: <T::Key as View>::V)
    requires
        table.spec_wf(),
        table_keys(table).contains(key),
    ensures
        table.spec_slots().contains(table_slot(table, key)),
        table.spec_entity(table_slot(table, key)).spec_state_key() == key,
{
    lemma_table_keys(table);
    assert(table_has(table, key));
}

} // verus!
