use group_aggregator::arena::Arena;
use group_aggregator::column::{Column, DataType};
use group_aggregator::error::{ErrorCode, ErrorKind};
use group_aggregator::function::{
    AggregateFunction, BuiltinFunction, BAD_ARGUMENTS, COUNT_OVERFLOW, SUM_OVERFLOW,
};
use group_aggregator::layout::StateLayout;
use group_aggregator::method::{
    append_bytes, HashMethod, HashMethodFixedKeys, HashMethodKeysU16, HashMethodKeysU8,
    HashMethodSerializer,
};

#[test]
fn every_error_has_its_kind() {
    assert_eq!(ErrorCode::UnknownColumn.kind(), ErrorKind::Configuration);
    assert_eq!(ErrorCode::UnsupportedFunction.kind(), ErrorKind::Configuration);
    assert_eq!(ErrorCode::BadStateLayout.kind(), ErrorKind::Configuration);
    assert_eq!(ErrorCode::MissingColumn.kind(), ErrorKind::Schema);
    assert_eq!(ErrorCode::BadKeyColumns.kind(), ErrorKind::Schema);
    assert_eq!(ErrorCode::BadBlock.kind(), ErrorKind::Schema);
    assert_eq!(ErrorCode::Upstream(7).kind(), ErrorKind::Upstream);
    assert_eq!(ErrorCode::Function(7).kind(), ErrorKind::Function);
}

#[test]
fn columns_know_their_type_and_values() {
    let column = Column::UInt16(vec![3, 400]);
    assert_eq!(column.len(), 2);
    assert_eq!(column.data_type(), DataType::UInt16);
    assert_eq!(column.value_u64(1), Some(400));
    assert_eq!(Column::UInt8(vec![9]).value_u64(0), Some(9));
    assert_eq!(Column::UInt32(vec![70000]).value_u64(0), Some(70000));
    assert_eq!(Column::UInt64(vec![u64::MAX]).value_u64(0), Some(u64::MAX));
    assert_eq!(Column::Binary(vec![vec![1]]).value_u64(0), None);
    assert_eq!(Column::Binary(vec![]).data_type(), DataType::Binary);
}

#[test]
fn a_u8_key_is_the_value() {
    let column = Column::UInt8(vec![0, 255, 7]);
    let method = HashMethodKeysU8 {};
    assert_eq!(method.build_keys(&vec![&column], 3), Ok(vec![0, 255, 7]));
    assert_eq!(method.keys_column(&vec![&7, &0]), Column::UInt8(vec![7, 0]));
}

#[test]
fn a_u8_key_takes_one_u8_column_only() {
    let bytes = Column::UInt8(vec![1]);
    let words = Column::UInt16(vec![1]);
    let method = HashMethodKeysU8 {};
    assert_eq!(method.build_keys(&vec![&words], 1), Err(ErrorCode::BadKeyColumns));
    assert_eq!(method.build_keys(&vec![&bytes, &bytes], 1), Err(ErrorCode::BadKeyColumns));
    assert_eq!(method.build_keys(&vec![], 0), Err(ErrorCode::BadKeyColumns));
}

#[test]
fn a_u16_key_is_one_value_or_two_packed_bytes() {
    let method = HashMethodKeysU16 {};
    let words = Column::UInt16(vec![0, 65535, 258]);
    assert_eq!(method.build_keys(&vec![&words], 3), Ok(vec![0, 65535, 258]));
    let low = Column::UInt8(vec![2, 0, 255]);
    let high = Column::UInt8(vec![1, 0, 255]);
    assert_eq!(method.build_keys(&vec![&low, &high], 3), Ok(vec![258, 0, 65535]));
    assert_eq!(method.build_keys(&vec![&low], 3), Err(ErrorCode::BadKeyColumns));
    assert_eq!(method.build_keys(&vec![&low, &words], 3), Err(ErrorCode::BadKeyColumns));
    assert_eq!(method.keys_column(&vec![&258]), Column::UInt16(vec![258]));
}

#[test]
fn a_fixed_key_packs_the_first_value_highest() {
    let method = HashMethodFixedKeys {};
    let a = Column::UInt8(vec![1, 0]);
    let b = Column::UInt16(vec![2, 0]);
    let c = Column::UInt32(vec![3, 0]);
    assert_eq!(
        method.build_keys(&vec![&a, &b, &c], 2),
        Ok(vec![(1u64 << 48) | (2u64 << 32) | 3, 0])
    );
    let wide = Column::UInt64(vec![u64::MAX, 5]);
    assert_eq!(method.build_keys(&vec![&wide], 2), Ok(vec![u64::MAX, 5]));
    assert_eq!(method.keys_column(&vec![&5, &9]), Column::UInt64(vec![5, 9]));
}

#[test]
fn a_fixed_key_has_room_for_64_bits() {
    let method = HashMethodFixedKeys {};
    let a = Column::UInt32(vec![1]);
    let b = Column::UInt32(vec![2]);
    let c = Column::UInt8(vec![3]);
    let text = Column::Binary(vec![vec![1]]);
    assert_eq!(method.build_keys(&vec![&a, &b], 1), Ok(vec![(1u64 << 32) | 2]));
    assert_eq!(method.build_keys(&vec![&a, &b, &c], 1), Err(ErrorCode::BadKeyColumns));
    assert_eq!(method.build_keys(&vec![&text], 1), Err(ErrorCode::BadKeyColumns));
    assert_eq!(method.build_keys(&vec![], 0), Err(ErrorCode::BadKeyColumns));
}

#[test]
fn a_serialized_key_holds_every_value_in_order() {
    let method = HashMethodSerializer {};
    let a = Column::UInt8(vec![7]);
    let b = Column::UInt16(vec![0x0102]);
    let c = Column::UInt32(vec![0x0304_0506]);
    let d = Column::UInt64(vec![1]);
    let e = Column::Binary(vec![b"ab".to_vec()]);
    assert_eq!(
        method.build_keys(&vec![&a, &b, &c, &d, &e], 1),
        Ok(vec![vec![7, 2, 1, 6, 5, 4, 3, 1, 0, 0, 0, 0, 0, 0, 0, 2, 0, 0, 0, 0, 0, 0, 0, 97, 98]])
    );
    assert_eq!(method.build_keys(&vec![], 2), Ok(vec![vec![], vec![]]));
    let key = vec![1u8, 2];
    assert_eq!(method.keys_column(&vec![&key]), Column::Binary(vec![vec![1, 2]]));
}

#[test]
fn the_length_keeps_serialized_strings_apart() {
    let method = HashMethodSerializer {};
    let left = Column::Binary(vec![b"ab".to_vec(), b"a".to_vec()]);
    let right = Column::Binary(vec![b"c".to_vec(), b"bc".to_vec()]);
    let keys = method.build_keys(&vec![&left, &right], 2).unwrap();
    assert_ne!(keys[0], keys[1]);
}

#[test]
fn bytes_are_appended_at_the_end() {
    let mut out = vec![1u8];
    append_bytes(&mut out, &vec![2, 3]);
    append_bytes(&mut out, &vec![]);
    assert_eq!(out, vec![1, 2, 3]);
}

fn name(text: &str) -> String {
    text.to_string()
}

#[test]
fn functions_are_made_by_name_and_argument_types() {
    assert_eq!(BuiltinFunction::try_create(&name("count"), &vec![]), Ok(BuiltinFunction::Count));
    assert_eq!(
        BuiltinFunction::try_create(&name("count"), &vec![DataType::Binary, DataType::UInt8]),
        Ok(BuiltinFunction::Count)
    );
    assert_eq!(BuiltinFunction::try_create(&name("sum"), &vec![DataType::UInt32]), Ok(BuiltinFunction::Sum));
    assert_eq!(BuiltinFunction::try_create(&name("max"), &vec![DataType::UInt8]), Ok(BuiltinFunction::Max));
    assert_eq!(
        BuiltinFunction::try_create(&name("sum"), &vec![DataType::Binary]),
        Err(ErrorCode::UnsupportedFunction)
    );
    assert_eq!(BuiltinFunction::try_create(&name("sum"), &vec![]), Err(ErrorCode::UnsupportedFunction));
    assert_eq!(
        BuiltinFunction::try_create(&name("max"), &vec![DataType::UInt8, DataType::UInt8]),
        Err(ErrorCode::UnsupportedFunction)
    );
    assert_eq!(
        BuiltinFunction::try_create(&name("median"), &vec![DataType::UInt8]),
        Err(ErrorCode::UnsupportedFunction)
    );
    assert_eq!(BuiltinFunction::try_create(&name("Count"), &vec![]), Err(ErrorCode::UnsupportedFunction));
}

#[test]
fn a_function_folds_rows_into_its_state() {
    let values = Column::UInt32(vec![5, 40, 7]);
    let columns = vec![&values];
    for (function, expected) in
        [(BuiltinFunction::Count, 3u64), (BuiltinFunction::Sum, 52), (BuiltinFunction::Max, 40)]
    {
        assert_eq!(function.state_layout(), StateLayout { size: 8, align: 8 });
        let mut arena = Arena::new();
        let place = arena.alloc_layout(function.state_layout());
        arena.write_u64(place, 99);
        assert_eq!(function.init_state(&mut arena, place), Ok(()));
        assert_eq!(arena.read_u64(place), 0);
        for row in 0..3 {
            assert_eq!(function.accumulate_row(&mut arena, place, &columns, row), Ok(()));
        }
        assert_eq!(arena.read_u64(place), expected);
        let mut out = vec![0xAAu8];
        assert_eq!(function.serialize(&arena, place, &mut out), Ok(()));
        let mut bytes = vec![0xAAu8];
        bytes.extend_from_slice(&expected.to_le_bytes());
        assert_eq!(out, bytes);
    }
}

#[test]
fn a_function_touches_its_own_state_only() {
    let values = Column::UInt8(vec![9]);
    let mut arena = Arena::new();
    let left = arena.alloc_layout(StateLayout::new(8, 8));
    let middle = arena.alloc_layout(StateLayout::new(8, 8));
    let right = arena.alloc_layout(StateLayout::new(8, 8));
    arena.write_u64(left, 11);
    arena.write_u64(right, 33);
    BuiltinFunction::Sum.accumulate_row(&mut arena, middle, &vec![&values], 0).unwrap();
    assert_eq!(arena.read_u64(left), 11);
    assert_eq!(arena.read_u64(middle), 9);
    assert_eq!(arena.read_u64(right), 33);
}

#[test]
fn a_sum_that_does_not_fit_fails() {
    let values = Column::UInt64(vec![u64::MAX, 1]);
    let columns = vec![&values];
    let mut arena = Arena::new();
    let place = arena.alloc_layout(StateLayout::new(8, 8));
    assert_eq!(BuiltinFunction::Sum.accumulate_row(&mut arena, place, &columns, 0), Ok(()));
    assert_eq!(
        BuiltinFunction::Sum.accumulate_row(&mut arena, place, &columns, 1),
        Err(ErrorCode::Function(SUM_OVERFLOW))
    );
    assert_eq!(
        BuiltinFunction::Count.accumulate_row(&mut arena, place, &columns, 1),
        Err(ErrorCode::Function(COUNT_OVERFLOW))
    );
    assert_eq!(BuiltinFunction::Max.accumulate_row(&mut arena, place, &columns, 1), Ok(()));
    assert_eq!(arena.read_u64(place), u64::MAX);
}

#[test]
fn sum_and_max_take_one_integer_argument() {
    let text = Column::Binary(vec![vec![1]]);
    let number = Column::UInt8(vec![1]);
    let mut arena = Arena::new();
    let place = arena.alloc_layout(StateLayout::new(8, 8));
    for function in [BuiltinFunction::Sum, BuiltinFunction::Max] {
        assert_eq!(
            function.accumulate_row(&mut arena, place, &vec![&text], 0),
            Err(ErrorCode::Function(BAD_ARGUMENTS))
        );
        assert_eq!(
            function.accumulate_row(&mut arena, place, &vec![], 0),
            Err(ErrorCode::Function(BAD_ARGUMENTS))
        );
        assert_eq!(
            function.accumulate_row(&mut arena, place, &vec![&number, &number], 0),
            Err(ErrorCode::Function(BAD_ARGUMENTS))
        );
    }
    assert_eq!(BuiltinFunction::Count.accumulate_row(&mut arena, place, &vec![&text], 0), Ok(()));
    assert_eq!(arena.read_u64(place), 1);
}
