use group_aggregator::entity::{
    mix_u64, HashtableEntity, HashtableEntry, HashtableKeyable, ShortFixedKeyable,
    ShortFixedKeysStateEntity, StateEntity, UnsizedHashtableFakeEntry,
};
use group_aggregator::hash_table::{FixedKeysHashtable, UnsizedHashtable};
use group_aggregator::short_table::ShortFixedKeysTable;
use group_aggregator::table::GroupHashTable;

#[test]
fn short_keys_look_themselves_up() {
    assert_eq!(0u8.lookup(), 0);
    assert_eq!(255u8.lookup(), 255);
    assert_eq!(65535u16.lookup(), 65535);
    assert!(0u8.is_zero_key());
    assert!(!1u8.is_zero_key());
    assert!(0u16.is_zero_key());
    assert!(!256u16.is_zero_key());
    assert_eq!(<u8 as ShortFixedKeyable>::slots(), 256);
    assert_eq!(<u16 as ShortFixedKeyable>::slots(), 65536);
    assert_eq!(<u8 as ShortFixedKeyable>::zero_key(), 0);
}

#[test]
fn an_entry_gives_its_key_and_takes_a_value() {
    let mut slot = ShortFixedKeysStateEntity { key: 7u8, value: 0, fill: true };
    slot.set_state_value(4096);
    assert_eq!(*slot.get_state_key(), 7);
    assert_eq!(*slot.get_state_value(), 4096);
    assert!(slot.fill);
    let mut entry = HashtableEntry::<u64>::with_key(&99);
    assert_eq!(*entry.get_state_key(), 99);
    assert_eq!(*entry.get_state_value(), 0);
    entry.set_state_value(64);
    assert_eq!(*entry.get_state_value(), 64);
    assert_eq!(*entry.get_state_key(), 99);
    let mut unsized_entry = UnsizedHashtableFakeEntry::with_key(&vec![1, 2, 3]);
    unsized_entry.set_state_value(8);
    assert_eq!(unsized_entry.get_state_key(), &vec![1, 2, 3]);
    assert_eq!(*unsized_entry.get_state_value(), 8);
}

#[test]
fn equal_keys_hash_alike() {
    let a: Vec<u8> = vec![10, 20, 30];
    let b: Vec<u8> = "\u{a}\u{14}\u{1e}".as_bytes().to_vec();
    assert!(a.equals(&b));
    assert_eq!(HashtableKeyable::hash(&a), HashtableKeyable::hash(&b));
    assert!(!a.equals(&vec![10, 20]));
    assert_eq!(a.duplicate(), a);
    assert!(5u64.equals(&5));
    assert!(!5u64.equals(&6));
    assert_eq!(HashtableKeyable::hash(&5u64), HashtableKeyable::hash(&5u64));
    assert_eq!(7u32.duplicate(), 7);
}

#[test]
fn the_zero_key_is_a_key_like_any_other() {
    let mut table = ShortFixedKeysTable::<u8>::create();
    assert_eq!(table.len(), 0);
    assert_eq!(table.slots(), Vec::<usize>::new());
    assert_eq!(table.insert_or_get(&5), (5, true));
    assert_eq!(table.insert_or_get(&0), (0, true));
    assert_eq!(table.insert_or_get(&0), (0, false));
    assert_eq!(table.insert_or_get(&5), (5, false));
    assert_eq!(table.len(), 2);
    assert_eq!(table.slots(), vec![0, 5]);
    assert_eq!(*table.entity(0).get_state_key(), 0);
    // The handle 0 in the slot of the key 0 is what a group has that has no
    // state: the slot is filled all the same.
    assert_eq!(*table.entity(0).get_state_value(), 0);
    assert!(table.entity(0).fill);
}

#[test]
fn the_zero_key_may_come_first_or_last() {
    let mut first = ShortFixedKeysTable::<u16>::create();
    first.insert_or_get(&0);
    first.insert_or_get(&300);
    first.insert_or_get(&2);
    let mut last = ShortFixedKeysTable::<u16>::create();
    last.insert_or_get(&300);
    last.insert_or_get(&2);
    assert_eq!(last.slots(), vec![2, 300]);
    last.insert_or_get(&0);
    assert_eq!(first.slots(), vec![0, 2, 300]);
    assert_eq!(last.slots(), vec![0, 2, 300]);
    assert_eq!(first.len(), 3);
}

#[test]
fn a_short_table_keeps_the_values_of_its_slots() {
    let mut table = ShortFixedKeysTable::<u8>::create();
    let (slot, _) = table.insert_or_get(&200);
    table.set_value(slot, 48);
    let (other, _) = table.insert_or_get(&3);
    table.set_value(other, 96);
    assert_eq!(*table.entity(slot).get_state_value(), 48);
    assert_eq!(*table.entity(other).get_state_value(), 96);
    assert_eq!(*table.entity(slot).get_state_key(), 200);
}

#[test]
fn a_hash_table_finds_each_key_once() {
    let mut table = FixedKeysHashtable::<u64>::create();
    assert_eq!(table.insert_or_get(&10), (0, true));
    assert_eq!(table.insert_or_get(&0), (1, true));
    assert_eq!(table.insert_or_get(&10), (0, false));
    assert_eq!(table.insert_or_get(&u64::MAX), (2, true));
    assert_eq!(table.insert_or_get(&0), (1, false));
    assert_eq!(table.len(), 3);
    assert_eq!(table.slots(), vec![0, 1, 2]);
    assert_eq!(*table.entity(1).get_state_key(), 0);
    assert_eq!(*table.entity(2).get_state_key(), u64::MAX);
}

#[test]
fn growing_a_hash_table_moves_no_entry_and_loses_no_value() {
    let mut table = FixedKeysHashtable::<u64>::create();
    for key in 0..5000u64 {
        let (slot, inserted) = table.insert_or_get(&(key * 31));
        assert!(inserted);
        assert_eq!(slot, key as usize);
        table.set_value(slot, (key * 8 + 8) as usize);
    }
    assert_eq!(table.len(), 5000);
    for key in 0..5000u64 {
        let (slot, inserted) = table.insert_or_get(&(key * 31));
        assert!(!inserted);
        assert_eq!(slot, key as usize);
        assert_eq!(*table.entity(slot).get_state_value(), (key * 8 + 8) as usize);
        assert_eq!(*table.entity(slot).get_state_key(), key * 31);
    }
    assert_eq!(table.len(), 5000);
}

#[test]
fn byte_string_keys_are_compared_by_what_they_hold() {
    let mut table = UnsizedHashtable::create();
    let first = String::from("group").into_bytes();
    let second = "group".as_bytes().to_vec();
    assert_eq!(table.insert_or_get(&first), (0, true));
    assert_eq!(table.insert_or_get(&Vec::new()), (1, true));
    assert_eq!(table.insert_or_get(&second), (0, false));
    assert_eq!(table.insert_or_get(&b"grou".to_vec()), (2, true));
    assert_eq!(table.len(), 3);
    assert_eq!(table.entity(0).get_state_key(), &b"group".to_vec());
}

#[test]
fn hashes_are_the_mixed_bits_of_the_key() {
    assert_eq!(mix_u64(0), 0);
    assert_eq!(mix_u64(1), 2097153);
    assert_eq!(mix_u64(1 << 40), (1 << 61) | (1 << 40) | (1 << 32) | (1 << 28) | (1 << 11) | (1 << 7));
    assert_eq!(HashtableKeyable::hash(&1u64), 2097153);
    assert_eq!(HashtableKeyable::hash(&1u32), 2097153);
    assert_eq!(HashtableKeyable::hash(&Vec::<u8>::new()), 0xcbf2_9ce4_8422_2325);
    assert_eq!(HashtableKeyable::hash(&vec![5u8]), mix_u64(0xcbf2_9ce4_8422_2325 ^ 5));
    assert_eq!(HashtableKeyable::hash(&vec![5u8, 6]), mix_u64(mix_u64(0xcbf2_9ce4_8422_2325 ^ 5) ^ 6));
}
