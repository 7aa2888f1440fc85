//! Key methods: how the values of the group columns of a row become the key
//! of the row's group.
//!
//! There are three kinds of key. A short key is a small integer that a table
//! can use as an index. A fixed key packs the values of several integer
//! columns into one machine word. A serialized key is a byte string of any
//! length and takes columns of every type.

use crate::column::{column_types, columns_of_rows, row_values, Column, DataType, DataValue};
use crate::entity::HashtableEntry;
use crate::error::ErrorCode;
use crate::hash_table::{Hashtable, UnsizedHashtable};
use crate::short_table::ShortFixedKeysTable;
use crate::table::GroupHashTable;
use vstd::bytes::{
    spec_u16_to_le_bytes, spec_u32_to_le_bytes, spec_u64_to_le_bytes, u16_to_le_bytes,
    u32_to_le_bytes, u64_to_le_bytes,
};
use vstd::prelude::*;

verus! {

/// A way of encoding the group columns of a row as one key.
pub trait HashMethod: Sized {
    type HashKey: View;

    /// The table that holds the groups of such keys.
    type Table: GroupHashTable<Key = Self::HashKey>;

    /// Whether the method can encode group columns of these types.
    spec fn spec_accepts(&self, types: Seq<DataType>) -> bool;

    /// The key of a row whose group columns hold `row`.
    spec fn spec_key(&self, row: Seq<DataValue>) -> <Self::HashKey as View>::V;

    /// The value that stands for `key` in the key column of the result.
    spec fn spec_key_value(key: <Self::HashKey as View>::V) -> DataValue;

    /// One key for each of the `rows` rows of the group columns, in the
    /// order of the rows; `BadKeyColumns` if the method cannot encode columns
    /// of these types.
    fn build_keys(&self, columns: &Vec<&Column>, rows: usize) -> (r: Result<
        Vec<Self::HashKey>,
        ErrorCode,
    >)
        requires
            columns_of_rows(columns@, rows as int),
        ensures
            r.is_ok() == self.spec_accepts(column_types(columns@)),
            r matches Ok(keys) ==> keys@.len() == rows && forall|i: int|
                0 <= i < rows ==> (#[trigger] keys@[i])@ == self.spec_key(row_values(columns@, i)),
            r matches Err(e) ==> e == ErrorCode::BadKeyColumns,
    ;

    /// The key column of the result: the value of each key, in order.
    fn keys_column(&self, keys: &Vec<&Self::HashKey>) -> (column: Column)
        ensures
            column@.len() == keys@.len(),
            forall|i: int|
                0 <= i < keys@.len() ==> #[trigger] column@[i] == Self::spec_key_value(keys@[i]@),
    ;
}

/// The key method for one column of `u8` values.
#[derive(Clone, Copy, Debug)]
pub struct HashMethodKeysU8 {}

impl HashMethod for HashMethodKeysU8 {
    type HashKey = u8;

    type Table = ShortFixedKeysTable<u8>;

    open spec fn spec_accepts(&self, types: Seq<DataType>) -> bool {
        types.len() == 1 && types[0] == DataType::UInt8
    }

    /// The key is the value itself.
    open spec fn spec_key(&self, row: Seq<DataValue>) -> u8 {
        match row[0] {
            DataValue::UInt8(v) => v,
            _ => 0,
        }
    }

    open spec fn spec_key_value(key: u8) -> DataValue {
        DataValue::UInt8(key)
    }

    fn build_keys(&self, columns: &Vec<&Column>, rows: usize) -> (r: Result<Vec<u8>, ErrorCode>) {
        if columns.len() != 1 {
            return Err(ErrorCode::BadKeyColumns);
        }
        match columns[0] {
            Column::UInt8(values) => {
                let mut keys: Vec<u8> = Vec::new();
                let mut i: usize = 0;
                while i < rows
                    invariant
                        0 <= i <= rows == values@.len(),
                        keys@.len() == i,
                        forall|k: int| 0 <= k < i ==> #[trigger] keys@[k] == values@[k],
                    decreases rows - i,
                {
                    keys.push(values[i]);
                    i += 1;
                }
                Ok(keys)
            },
            _ => Err(ErrorCode::BadKeyColumns),
        }
    }

    fn keys_column(&self, keys: &Vec<&u8>) -> (column: Column) {
        let mut values: Vec<u8> = Vec::new();
        let mut i: usize = 0;
        while i < keys.len()
            invariant
                0 <= i <= keys@.len(),
                values@.len() == i,
                forall|k: int| 0 <= k < i ==> #[trigger] values@[k] == *keys@[k],
            decreases keys.len() - i,
        {
            values.push(*keys[i]);
            i += 1;
        }
        Column::UInt8(values)
    }
}

/// The key method for one column of `u16` values, or for two columns of
/// `u8` values packed into one `u16`.
#[derive(Clone, Copy, Debug)]
pub struct HashMethodKeysU16 {}

/// Two bytes as one `u16`: `low` in the low byte, `high` in the high byte.
pub open spec fn pack_pair(low: u8, high: u8) -> u16 {
    (low as u16) | ((high as u16) << 8)
}

impl HashMethod for HashMethodKeysU16 {
    type HashKey = u16;

    type Table = ShortFixedKeysTable<u16>;

    open spec fn spec_accepts(&self, types: Seq<DataType>) -> bool {
        ||| types.len() == 1 && types[0] == DataType::UInt16
        ||| types.len() == 2 && types[0] == DataType::UInt8 && types[1] == DataType::UInt8
    }

    /// The key of one `u16` is the value itself; the key of two `u8` holds
    /// the first in its low byte and the second in its high byte.
    open spec fn spec_key(&self, row: Seq<DataValue>) -> u16 {
        if row.len() == 1 {
            match row[0] {
                DataValue::UInt16(v) => v,
                _ => 0,
            }
        } else {
            match (row[0], row[1]) {
                (DataValue::UInt8(low), DataValue::UInt8(high)) => pack_pair(low, high),
                _ => 0,
            }
        }
    }

    open spec fn spec_key_value(key: u16) -> DataValue {
        DataValue::UInt16(key)
    }

    fn build_keys(&self, columns: &Vec<&Column>, rows: usize) -> (r: Result<Vec<u16>, ErrorCode>) {
        let mut keys: Vec<u16> = Vec::new();
        if columns.len() == 1 {
            match columns[0] {
                Column::UInt16(values) => {
                    let mut i: usize = 0;
                    while i < rows
                        invariant
                            0 <= i <= rows == values@.len(),
                            keys@.len() == i,
                            forall|k: int| 0 <= k < i ==> #[trigger] keys@[k] == values@[k],
                        decreases rows - i,
                    {
                        keys.push(values[i]);
                        i += 1;
                    }
                    Ok(keys)
                },
                _ => Err(ErrorCode::BadKeyColumns),
            }
        } else if columns.len() == 2 {
            match (columns[0], columns[1]) {
                (Column::UInt8(lows), Column::UInt8(highs)) => {
                    let mut i: usize = 0;
                    while i < rows
                        invariant
                            0 <= i <= rows == lows@.len() == highs@.len(),
                            keys@.len() == i,
                            forall|k: int|
                                0 <= k < i ==> #[trigger] keys@[k] == pack_pair(lows@[k], highs@[k]),
                        decreases rows - i,
                    {
                        keys.push((lows[i] as u16) | ((highs[i] as u16) << 8));
                        i += 1;
                    }
                    Ok(keys)
                },
                _ => Err(ErrorCode::BadKeyColumns),
            }
        } else {
            Err(ErrorCode::BadKeyColumns)
        }
    }

    fn keys_column(&self, keys: &Vec<&u16>) -> (column: Column) {
        let mut values: Vec<u16> = Vec::new();
        let mut i: usize = 0;
        while i < keys.len()
            invariant
                0 <= i <= keys@.len(),
                values@.len() == i,
                forall|k: int| 0 <= k < i ==> #[trigger] values@[k] == *keys@[k],
            decreases keys.len() - i,
        {
            values.push(*keys[i]);
            i += 1;
        }
        Column::UInt16(values)
    }
}

/// The key method that packs the values of integer columns of at most 64
/// bits in all into one `u64`.
#[derive(Clone, Copy, Debug)]
pub struct HashMethodFixedKeys {}

/// The bits that a value of type `data_type` takes in a packed key.
pub open spec fn packed_bits(data_type: DataType) -> int {
    match data_type {
        DataType::UInt8 => 8,
        DataType::UInt16 => 16,
        DataType::UInt32 => 32,
        DataType::UInt64 => 64,
        DataType::Binary => 65,
    }
}

/// The bits that values of the types `types` take in a packed key.
pub open spec fn total_bits(types: Seq<DataType>) -> int
    decreases types.len(),
{
    if types.len() == 0 {
        0
    } else {
        total_bits(types.drop_last()) + packed_bits(types.last())
    }
}

/// The packed key `key` with `value` appended: the bits of `key` move up by
/// the width of `value`, and `value` takes the low bits.
pub open spec fn pack_step(key: u64, value: DataValue) -> u64 {
    match value {
        DataValue::UInt8(v) => (key << 8) | (v as u64),
        DataValue::UInt16(v) => (key << 16) | (v as u64),
        DataValue::UInt32(v) => (key << 32) | (v as u64),
        DataValue::UInt64(v) => v,
        DataValue::Binary(_) => key,
    }
}

/// The values of a row packed into one word, the first value highest.
pub open spec fn pack_row(row: Seq<DataValue>) -> u64
    decreases row.len(),
{
    if row.len() == 0 {
        0
    } else {
        pack_step(pack_row(row.drop_last()), row.last())
    }
}

/// The bits of a packed key never come to less with more columns.
pub proof fn lemma_total_bits(types: Seq<DataType>, upto: int)
    requires
        0 <= upto <= types.len(),
    ensures
        0 <= total_bits(types.take(upto)) <= total_bits(types),
        upto < types.len() ==> total_bits(types.take(upto)) + packed_bits(types[upto])
            <= total_bits(types),
    decreases types.len() - upto,
{
    if upto < types.len() {
        assert(types.take(upto + 1).drop_last() =~= types.take(upto));
        lemma_total_bits(types, upto + 1);
        lemma_total_bits_nonnegative(types.take(upto));
    } else {
        assert(types.take(upto) =~= types);
        lemma_total_bits_nonnegative(types);
    }
}

proof fn lemma_total_bits_nonnegative(types: Seq<DataType>)
    ensures
        0 <= total_bits(types),
    decreases types.len(),
{
    if types.len() > 0 {
        lemma_total_bits_nonnegative(types.drop_last());
    }
}

impl HashMethodFixedKeys {
    /// Whether values of the types of `columns` fit in one packed key.
    fn fits(columns: &Vec<&Column>) -> (fits: bool)
        ensures
            fits == (columns@.len() > 0 && total_bits(column_types(columns@)) <= 64),
    {
        if columns.len() == 0 {
            return false;
        }
        let ghost types = column_types(columns@);
        let mut bits: usize = 0;
        let mut c: usize = 0;
        while c < columns.len()
            invariant
                0 <= c <= columns@.len(),
                types == column_types(columns@),
                bits == total_bits(types.take(c as int)),
                bits <= 64,
            decreases columns.len() - c,
        {
            proof {
                assert(types.take(c + 1).drop_last() =~= types.take(c as int));
                lemma_total_bits(types, c as int);
            }
            let width: usize = match columns[c].data_type() {
                DataType::UInt8 => 8,
                DataType::UInt16 => 16,
                DataType::UInt32 => 32,
                DataType::UInt64 => 64,
                DataType::Binary => 65,
            };
            if bits + width > 64 {
                return false;
            }
            bits = bits + width;
            c += 1;
        }
        proof {
            assert(types.take(types.len() as int) =~= types);
        }
        true
    }

    /// The packed key of row `row`.
    fn pack(columns: &Vec<&Column>, row: usize) -> (key: u64)
        requires
            forall|c: int| 0 <= c < columns@.len() ==> row < (#[trigger] columns@[c])@.len(),
        ensures
            key == pack_row(row_values(columns@, row as int)),
    {
        let ghost values = row_values(columns@, row as int);
        let mut key: u64 = 0;
        let mut c: usize = 0;
        while c < columns.len()
            invariant
                0 <= c <= columns@.len(),
                values == row_values(columns@, row as int),
                forall|k: int| 0 <= k < columns@.len() ==> row < (#[trigger] columns@[k])@.len(),
                key == pack_row(values.take(c as int)),
            decreases columns.len() - c,
        {
            proof {
                assert(values.take(c + 1).drop_last() =~= values.take(c as int));
                assert(values.take(c + 1).last() == columns@[c as int]@[row as int]);
            }
            key = match columns[c] {
                Column::UInt8(v) => (key << 8) | (v[row] as u64),
                Column::UInt16(v) => (key << 16) | (v[row] as u64),
                Column::UInt32(v) => (key << 32) | (v[row] as u64),
                Column::UInt64(v) => v[row],
                Column::Binary(_) => key,
            };
            c += 1;
        }
        proof {
            assert(values.take(values.len() as int) =~= values);
        }
        key
    }
}

impl HashMethod for HashMethodFixedKeys {
    type HashKey = u64;

    type Table = Hashtable<HashtableEntry<u64>>;

    /// At least one column, integers only, and no more than 64 bits in all.
    open spec fn spec_accepts(&self, types: Seq<DataType>) -> bool {
        types.len() > 0 && total_bits(types) <= 64
    }

    open spec fn spec_key(&self, row: Seq<DataValue>) -> u64 {
        pack_row(row)
    }

    open spec fn spec_key_value(key: u64) -> DataValue {
        DataValue::UInt64(key)
    }

    fn build_keys(&self, columns: &Vec<&Column>, rows: usize) -> (r: Result<Vec<u64>, ErrorCode>) {
        if !HashMethodFixedKeys::fits(columns) {
            return Err(ErrorCode::BadKeyColumns);
        }
        let mut keys: Vec<u64> = Vec::new();
        let mut i: usize = 0;
        while i < rows
            invariant
                0 <= i <= rows,
                columns_of_rows(columns@, rows as int),
                keys@.len() == i,
                forall|k: int|
                    0 <= k < i ==> #[trigger] keys@[k] == pack_row(row_values(columns@, k)),
            decreases rows - i,
        {
            keys.push(HashMethodFixedKeys::pack(columns, i));
            i += 1;
        }
        Ok(keys)
    }

    fn keys_column(&self, keys: &Vec<&u64>) -> (column: Column) {
        let mut values: Vec<u64> = Vec::new();
        let mut i: usize = 0;
        while i < keys.len()
            invariant
                0 <= i <= keys@.len(),
                values@.len() == i,
                forall|k: int| 0 <= k < i ==> #[trigger] values@[k] == *keys@[k],
            decreases keys.len() - i,
        {
            values.push(*keys[i]);
            i += 1;
        }
        Column::UInt64(values)
    }
}

/// The key method that writes the values of a row one after the other into
/// a byte string. It takes columns of every type, and any number of them.
#[derive(Clone, Copy, Debug)]
pub struct HashMethodSerializer {}

/// The bytes of one value in a serialized key: an integer as its bytes,
/// lowest first; a byte string as its length in eight bytes and then itself.
pub open spec fn value_bytes(value: DataValue) -> Seq<u8> {
    match value {
        DataValue::UInt8(v) => seq![v],
        DataValue::UInt16(v) => spec_u16_to_le_bytes(v),
        DataValue::UInt32(v) => spec_u32_to_le_bytes(v),
        DataValue::UInt64(v) => spec_u64_to_le_bytes(v),
        DataValue::Binary(bytes) => spec_u64_to_le_bytes(bytes.len() as u64) + bytes,
    }
}

/// The serialized key of a row: the bytes of its values, one after the other.
pub open spec fn serialize_row(row: Seq<DataValue>) -> Seq<u8>
    decreases row.len(),
{
    if row.len() == 0 {
        Seq::empty()
    } else {
        serialize_row(row.drop_last()) + value_bytes(row.last())
    }
}

/// Appends the bytes of `bytes` to `out`.
pub fn append_bytes(out: &mut Vec<u8>, bytes: &Vec<u8>)
    ensures
        final(out)@ == old(out)@ + bytes@,
{
    let mut i: usize = 0;
    while i < bytes.len()
        invariant
            0 <= i <= bytes@.len(),
            out@ == old(out)@ + bytes@.take(i as int),
        decreases bytes.len() - i,
    {
        out.push(bytes[i]);
        i += 1;
        assert(out@ =~= old(out)@ + bytes@.take(i as int));
    }
    assert(bytes@.take(bytes@.len() as int) =~= bytes@);
}

impl HashMethodSerializer {
    /// The serialized key of row `row`.
    fn serialize(columns: &Vec<&Column>, row: usize) -> (key: Vec<u8>)
        requires
            forall|c: int| 0 <= c < columns@.len() ==> row < (#[trigger] columns@[c])@.len(),
        ensures
            key@ == serialize_row(row_values(columns@, row as int)),
    {
        let ghost values = row_values(columns@, row as int);
        let mut key: Vec<u8> = Vec::new();
        let mut c: usize = 0;
        while c < columns.len()
            invariant
                0 <= c <= columns@.len(),
                values == row_values(columns@, row as int),
                forall|k: int| 0 <= k < columns@.len() ==> row < (#[trigger] columns@[k])@.len(),
                key@ == serialize_row(values.take(c as int)),
            decreases columns.len() - c,
        {
            proof {
                assert(values.take(c + 1).drop_last() =~= values.take(c as int));
                assert(values.take(c + 1).last() == columns@[c as int]@[row as int]);
            }
            let ghost before = key@;
            match columns[c] {
                Column::UInt8(v) => {
                    key.push(v[row]);
                    assert(key@ =~= before + seq![v@[row as int]]);
                },
                Column::UInt16(v) => {
                    let bytes = u16_to_le_bytes(v[row]);
                    append_bytes(&mut key, &bytes);
                },
                Column::UInt32(v) => {
                    let bytes = u32_to_le_bytes(v[row]);
                    append_bytes(&mut key, &bytes);
                },
                Column::UInt64(v) => {
                    let bytes = u64_to_le_bytes(v[row]);
                    append_bytes(&mut key, &bytes);
                },
                Column::Binary(v) => {
                    let bytes = u64_to_le_bytes(v[row].len() as u64);
                    append_bytes(&mut key, &bytes);
                    append_bytes(&mut key, &v[row]);
                    assert(key@ =~= before + (bytes@ + v@[row as int]@));
                },
            }
            c += 1;
        }
        proof {
            assert(values.take(values.len() as int) =~= values);
        }
        key
    }
}

impl HashMethod for HashMethodSerializer {
    type HashKey = Vec<u8>;

    type Table = UnsizedHashtable;

    open spec fn spec_accepts(&self, types: Seq<DataType>) -> bool {
        true
    }

    open spec fn spec_key(&self, row: Seq<DataValue>) -> Seq<u8> {
        serialize_row(row)
    }

    open spec fn spec_key_value(key: Seq<u8>) -> DataValue {
        DataValue::Binary(key)
    }

    fn build_keys(&self, columns: &Vec<&Column>, rows: usize) -> (r: Result<
        Vec<Vec<u8>>,
        ErrorCode,
    >) {
        let mut keys: Vec<Vec<u8>> = Vec::new();
        let mut i: usize = 0;
        while i < rows
            invariant
                0 <= i <= rows,
                columns_of_rows(columns@, rows as int),
                keys@.len() == i,
                forall|k: int|
                    0 <= k < i ==> (#[trigger] keys@[k])@ == serialize_row(row_values(columns@, k)),
            decreases rows - i,
        {
            keys.push(HashMethodSerializer::serialize(columns, i));
            i += 1;
        }
        Ok(keys)
    }

    fn keys_column(&self, keys: &Vec<&Vec<u8>>) -> (column: Column) {
        let mut values: Vec<Vec<u8>> = Vec::new();
        let mut i: usize = 0;
        while i < keys.len()
            invariant
                0 <= i <= keys@.len(),
                values@.len() == i,
                forall|k: int| 0 <= k < i ==> (#[trigger] values@[k])@ == keys@[k]@,
            decreases keys.len() - i,
        {
            let mut copy: Vec<u8> = Vec::new();
            append_bytes(&mut copy, keys[i]);
            assert(copy@ =~= keys@[i as int]@);
            values.push(copy);
            i += 1;
        }
        Column::Binary(values)
    }
}

} // verus!
