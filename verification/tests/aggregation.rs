use group_aggregator::aggregator::Aggregator;
use group_aggregator::column::{Column, DataBlock, DataField, DataSchema, DataType};
use group_aggregator::error::ErrorCode;
use group_aggregator::function::{BuiltinFunction, BAD_ARGUMENTS, SUM_OVERFLOW};
use group_aggregator::layout::StateLayout;
use group_aggregator::method::{
    HashMethodFixedKeys, HashMethodKeysU16, HashMethodKeysU8, HashMethodSerializer,
};
use group_aggregator::params::{AggregateExpression, AggregatorParams};
use group_aggregator::table::GroupHashTable;

fn fields(list: Vec<(&str, DataType)>) -> DataSchema {
    DataSchema::new(list.into_iter().map(|(name, data_type)| DataField::new(name.to_string(), data_type)).collect())
}

fn names(list: Vec<&str>) -> Vec<String> {
    list.into_iter().map(|name| name.to_string()).collect()
}

fn call(function: &str, args: Vec<&str>) -> AggregateExpression {
    AggregateExpression::new(function.to_string(), names(args))
}

fn states(values: Vec<u64>) -> Column {
    Column::Binary(values.into_iter().map(|v| v.to_le_bytes().to_vec()).collect())
}

fn sales_schema() -> DataSchema {
    fields(vec![("shop", DataType::UInt64), ("amount", DataType::UInt32)])
}

fn sales(shops: Vec<u64>, amounts: Vec<u32>) -> DataBlock {
    let rows = shops.len();
    DataBlock::create(sales_schema(), vec![Column::UInt64(shops), Column::UInt32(amounts)], rows).unwrap()
}

fn sales_aggregator() -> Aggregator<HashMethodFixedKeys, BuiltinFunction> {
    let expressions = vec![call("count", vec![]), call("sum", vec!["amount"]), call("max", vec!["amount"])];
    Aggregator::create(HashMethodFixedKeys {}, &expressions, &sales_schema()).unwrap()
}

fn sales_result() -> DataSchema {
    fields(vec![
        ("count", DataType::Binary),
        ("sum", DataType::Binary),
        ("max", DataType::Binary),
        ("shop", DataType::UInt64),
    ])
}

#[test]
fn the_states_of_three_functions_share_a_block() {
    let aggregator = sales_aggregator();
    assert_eq!(aggregator.num_functions(), 3);
    assert_eq!(aggregator.layout(), StateLayout { size: 24, align: 8 });
    let stream = vec![Ok(sales(vec![7, 9, 7, 7, 9], vec![10, 1, 30, 20, 5]))];
    let groups = aggregator.aggregate(names(vec!["shop"]), stream).unwrap();
    assert_eq!(groups.table.len(), 2);
    let blocks = aggregator.aggregate_finalized(&groups, sales_result()).unwrap();
    assert_eq!(blocks.len(), 1);
    assert_eq!(blocks[0].num_rows(), 2);
    assert_eq!(blocks[0].num_columns(), 4);
    assert_eq!(blocks[0].schema(), &sales_result());
    assert_eq!(blocks[0].column(0), &states(vec![3, 2]));
    assert_eq!(blocks[0].column(1), &states(vec![60, 6]));
    assert_eq!(blocks[0].column(2), &states(vec![30, 5]));
    assert_eq!(blocks[0].column(3), &Column::UInt64(vec![7, 9]));
}

#[test]
fn the_batching_of_the_rows_does_not_show_in_the_result() {
    let aggregator = sales_aggregator();
    let shops = vec![4u64, 1, 4, 2, 1, 4, 8, 2];
    let amounts = vec![1u32, 2, 3, 4, 5, 6, 7, 8];
    let whole = aggregator.aggregate(names(vec!["shop"]), vec![Ok(sales(shops.clone(), amounts.clone()))]).unwrap();
    let expected = aggregator.aggregate_finalized(&whole, sales_result()).unwrap();
    let expected: Vec<Column> = (0..4).map(|c| expected[0].column(c).clone()).collect();
    assert_eq!(expected[3], Column::UInt64(vec![4, 1, 2, 8]));
    assert_eq!(expected[0], states(vec![3, 2, 2, 1]));
    assert_eq!(expected[1], states(vec![10, 7, 12, 7]));
    for cuts in [vec![3usize], vec![1, 2, 5], vec![0, 8], vec![1, 2, 3, 4, 5, 6, 7]] {
        let mut stream = Vec::new();
        let mut from = 0;
        for to in cuts.into_iter().chain([shops.len()]) {
            stream.push(Ok(sales(shops[from..to].to_vec(), amounts[from..to].to_vec())));
            from = to;
        }
        let groups = aggregator.aggregate(names(vec!["shop"]), stream).unwrap();
        let blocks = aggregator.aggregate_finalized(&groups, sales_result()).unwrap();
        assert_eq!(blocks.len(), 1);
        for c in 0..4 {
            assert_eq!(blocks[0].column(c), &expected[c]);
        }
    }
}

#[test]
fn there_is_one_group_for_each_distinct_key() {
    let aggregator = sales_aggregator();
    let stream = vec![
        Ok(sales(vec![5, 5, 6], vec![0, 0, 0])),
        Ok(sales(vec![], vec![])),
        Ok(sales(vec![6, 7, 5, 0], vec![0, 0, 0, 0])),
        Ok(sales(vec![0, 0], vec![0, 0])),
    ];
    let groups = aggregator.aggregate(names(vec!["shop"]), stream).unwrap();
    let blocks = aggregator.aggregate_finalized(&groups, sales_result()).unwrap();
    assert_eq!(blocks[0].num_rows(), 4);
    assert_eq!(blocks[0].column(3), &Column::UInt64(vec![5, 6, 7, 0]));
    assert_eq!(blocks[0].column(0), &states(vec![3, 2, 1, 3]));
}

#[test]
fn an_empty_stream_gives_one_block_without_rows() {
    let aggregator = sales_aggregator();
    let groups = aggregator.aggregate(names(vec!["shop"]), vec![]).unwrap();
    assert_eq!(groups.table.len(), 0);
    assert_eq!(groups.arena.len(), 0);
    let blocks = aggregator.aggregate_finalized(&groups, sales_result()).unwrap();
    assert_eq!(blocks.len(), 1);
    assert_eq!(blocks[0].num_rows(), 0);
    assert_eq!(blocks[0].num_columns(), 0);
}

#[test]
fn blocks_without_rows_give_one_block_without_rows() {
    let aggregator = sales_aggregator();
    let groups = aggregator.aggregate(names(vec!["shop"]), vec![Ok(sales(vec![], vec![]))]).unwrap();
    let blocks = aggregator.aggregate_finalized(&groups, fields(vec![])).unwrap();
    assert_eq!(blocks.len(), 1);
    assert_eq!(blocks[0].num_rows(), 0);
}

#[test]
fn grouping_without_functions_allocates_nothing() {
    let schema = fields(vec![("k", DataType::UInt64)]);
    let aggregator =
        Aggregator::<HashMethodFixedKeys, BuiltinFunction>::create(HashMethodFixedKeys {}, &vec![], &schema).unwrap();
    assert_eq!(aggregator.num_functions(), 0);
    assert_eq!(aggregator.layout(), StateLayout { size: 0, align: 1 });
    let block = DataBlock::create(schema.clone(), vec![Column::UInt64(vec![3, 3, 0, 3])], 4).unwrap();
    let groups = aggregator.aggregate(names(vec!["k"]), vec![Ok(block)]).unwrap();
    assert_eq!(groups.arena.len(), 0);
    assert_eq!(groups.table.len(), 2);
    let blocks = aggregator.aggregate_finalized(&groups, schema).unwrap();
    assert_eq!(blocks[0].num_columns(), 1);
    assert_eq!(blocks[0].column(0), &Column::UInt64(vec![3, 0]));
}

#[test]
fn short_keys_come_out_in_the_order_of_their_slots() {
    let schema = fields(vec![("k", DataType::UInt8)]);
    let aggregator =
        Aggregator::<HashMethodKeysU8, BuiltinFunction>::create(HashMethodKeysU8 {}, &vec![call("count", vec!["k"])], &schema)
            .unwrap();
    let first = DataBlock::create(schema.clone(), vec![Column::UInt8(vec![3, 0, 3])], 3).unwrap();
    let second = DataBlock::create(schema.clone(), vec![Column::UInt8(vec![0, 7, 255])], 3).unwrap();
    let groups = aggregator.aggregate(names(vec!["k"]), vec![Ok(first), Ok(second)]).unwrap();
    let result = fields(vec![("count", DataType::Binary), ("k", DataType::UInt8)]);
    let blocks = aggregator.aggregate_finalized(&groups, result).unwrap();
    assert_eq!(blocks[0].column(1), &Column::UInt8(vec![0, 3, 7, 255]));
    assert_eq!(blocks[0].column(0), &states(vec![2, 2, 1, 1]));
}

#[test]
fn the_zero_key_alone_is_a_group() {
    let schema = fields(vec![("k", DataType::UInt8)]);
    let aggregator =
        Aggregator::<HashMethodKeysU8, BuiltinFunction>::create(HashMethodKeysU8 {}, &vec![], &schema).unwrap();
    let block = DataBlock::create(schema.clone(), vec![Column::UInt8(vec![0, 0])], 2).unwrap();
    let groups = aggregator.aggregate(names(vec!["k"]), vec![Ok(block)]).unwrap();
    let blocks = aggregator.aggregate_finalized(&groups, schema).unwrap();
    assert_eq!(blocks[0].num_rows(), 1);
    assert_eq!(blocks[0].column(0), &Column::UInt8(vec![0]));
}

#[test]
fn two_byte_columns_group_as_one_short_key() {
    let schema = fields(vec![("a", DataType::UInt8), ("b", DataType::UInt8)]);
    let aggregator = Aggregator::<HashMethodKeysU16, BuiltinFunction>::create(
        HashMethodKeysU16 {},
        &vec![call("max", vec!["b"])],
        &schema,
    )
    .unwrap();
    let block =
        DataBlock::create(schema, vec![Column::UInt8(vec![1, 1, 0, 1]), Column::UInt8(vec![2, 0, 9, 2])], 4).unwrap();
    let groups = aggregator.aggregate(names(vec!["a", "b"]), vec![Ok(block)]).unwrap();
    let result = fields(vec![("max", DataType::Binary), ("key", DataType::UInt16)]);
    let blocks = aggregator.aggregate_finalized(&groups, result).unwrap();
    assert_eq!(blocks[0].column(1), &Column::UInt16(vec![1, 513, 2304]));
    assert_eq!(blocks[0].column(0), &states(vec![0, 2, 9]));
}

#[test]
fn blocks_can_be_taken_in_one_by_one() {
    let aggregator = sales_aggregator();
    let group_cols = names(vec!["shop"]);
    let groups = aggregator.new_state();
    assert_eq!(groups.table.len(), 0);
    let groups = aggregator.aggregate_block(&group_cols, groups, &sales(vec![1, 2], vec![5, 6])).unwrap();
    let used = groups.arena.len();
    assert_eq!(used, 8 + 24 + 24);
    let groups = aggregator.aggregate_block(&group_cols, groups, &sales(vec![2, 2], vec![1, 1])).unwrap();
    assert_eq!(groups.arena.len(), used);
    let groups = aggregator.aggregate_block(&group_cols, groups, &sales(vec![3], vec![1])).unwrap();
    assert_eq!(groups.arena.len(), used + 24);
    let blocks = aggregator.aggregate_finalized(&groups, sales_result()).unwrap();
    assert_eq!(blocks[0].column(1), &states(vec![5, 8, 1]));
}

#[test]
fn an_expression_must_name_columns_of_the_schema() {
    let expressions = vec![call("count", vec![]), call("sum", vec!["price"])];
    let made = Aggregator::<HashMethodFixedKeys, BuiltinFunction>::create(HashMethodFixedKeys {}, &expressions, &sales_schema());
    assert_eq!(made.err(), Some(ErrorCode::UnknownColumn));
    let made = AggregatorParams::<BuiltinFunction>::try_create(&sales_schema(), &vec![call("count", vec!["price"])]);
    assert_eq!(made.err(), Some(ErrorCode::UnknownColumn));
}

#[test]
fn an_expression_must_name_a_function_for_its_arguments() {
    let schema = fields(vec![("shop", DataType::UInt64), ("name", DataType::Binary)]);
    for expression in [call("median", vec!["shop"]), call("sum", vec!["name"]), call("max", vec![])] {
        let made =
            Aggregator::<HashMethodFixedKeys, BuiltinFunction>::create(HashMethodFixedKeys {}, &vec![expression], &schema);
        assert_eq!(made.err(), Some(ErrorCode::UnsupportedFunction));
    }
}

#[test]
fn the_first_expression_that_fails_gives_the_error() {
    let first = vec![call("sum", vec!["price"]), call("median", vec!["shop"])];
    let second = vec![call("median", vec!["shop"]), call("sum", vec!["price"])];
    let made = AggregatorParams::<BuiltinFunction>::try_create(&sales_schema(), &first);
    assert_eq!(made.err(), Some(ErrorCode::UnknownColumn));
    let made = AggregatorParams::<BuiltinFunction>::try_create(&sales_schema(), &second);
    assert_eq!(made.err(), Some(ErrorCode::UnsupportedFunction));
}

#[test]
fn expressions_resolve_to_functions_and_argument_names() {
    let expressions = vec![call("max", vec!["amount"]), call("count", vec!["shop", "amount"])];
    let params = AggregatorParams::<BuiltinFunction>::try_create(&sales_schema(), &expressions).unwrap();
    assert_eq!(params.aggregate_functions, vec![BuiltinFunction::Max, BuiltinFunction::Count]);
    assert_eq!(params.aggregate_functions_arguments_name, vec![names(vec!["amount"]), names(vec!["shop", "amount"])]);
}

#[test]
fn a_block_must_have_the_columns_that_are_read() {
    let aggregator = sales_aggregator();
    let no_amount = DataBlock::create(fields(vec![("shop", DataType::UInt64)]), vec![Column::UInt64(vec![1])], 1).unwrap();
    let no_shop = DataBlock::create(fields(vec![("amount", DataType::UInt32)]), vec![Column::UInt32(vec![1])], 1).unwrap();
    let made = aggregator.aggregate(names(vec!["shop"]), vec![Ok(no_amount)]);
    assert_eq!(made.err(), Some(ErrorCode::MissingColumn));
    let made = aggregator.aggregate(names(vec!["shop"]), vec![Ok(no_shop)]);
    assert_eq!(made.err(), Some(ErrorCode::MissingColumn));
    let made = aggregator.aggregate(names(vec!["town"]), vec![Ok(sales(vec![1], vec![1]))]);
    assert_eq!(made.err(), Some(ErrorCode::MissingColumn));
}

#[test]
fn the_key_method_must_take_the_group_columns() {
    let schema = fields(vec![("k", DataType::UInt16)]);
    let aggregator =
        Aggregator::<HashMethodKeysU8, BuiltinFunction>::create(HashMethodKeysU8 {}, &vec![], &schema).unwrap();
    let block = DataBlock::create(schema, vec![Column::UInt16(vec![1])], 1).unwrap();
    let made = aggregator.aggregate(names(vec!["k"]), vec![Ok(block)]);
    assert_eq!(made.err(), Some(ErrorCode::BadKeyColumns));
    let made = sales_aggregator().aggregate(names(vec![]), vec![Ok(sales(vec![1], vec![1]))]);
    assert_eq!(made.err(), Some(ErrorCode::BadKeyColumns));
}

#[test]
fn a_missing_column_is_found_before_the_keys_are_made() {
    let aggregator = sales_aggregator();
    let block = DataBlock::create(fields(vec![("name", DataType::Binary)]), vec![Column::Binary(vec![vec![1]])], 1).unwrap();
    let made = aggregator.aggregate(names(vec!["name"]), vec![Ok(block)]);
    assert_eq!(made.err(), Some(ErrorCode::MissingColumn));
}

#[test]
fn a_failure_of_the_source_fails_the_aggregation() {
    let aggregator = sales_aggregator();
    let stream = vec![Ok(sales(vec![1], vec![1])), Err(ErrorCode::Upstream(42)), Err(ErrorCode::Upstream(43))];
    assert_eq!(aggregator.aggregate(names(vec!["shop"]), stream).err(), Some(ErrorCode::Upstream(42)));
    let stream = vec![Err(ErrorCode::Upstream(1)), Ok(sales(vec![1], vec![1]))];
    assert_eq!(aggregator.aggregate(names(vec!["town"]), stream).err(), Some(ErrorCode::Upstream(1)));
}

#[test]
fn a_failure_of_a_function_fails_the_aggregation() {
    let schema = fields(vec![("k", DataType::UInt8), ("v", DataType::UInt64)]);
    let aggregator =
        Aggregator::<HashMethodKeysU8, BuiltinFunction>::create(HashMethodKeysU8 {}, &vec![call("sum", vec!["v"])], &schema)
            .unwrap();
    let block = |keys: Vec<u8>, values: Vec<u64>| {
        let rows = keys.len();
        Ok(DataBlock::create(schema.clone(), vec![Column::UInt8(keys), Column::UInt64(values)], rows).unwrap())
    };
    let stream = vec![block(vec![1, 2], vec![u64::MAX - 1, u64::MAX]), block(vec![2, 1], vec![0, 2])];
    assert_eq!(aggregator.aggregate(names(vec!["k"]), stream).err(), Some(ErrorCode::Function(SUM_OVERFLOW)));
    let stream = vec![block(vec![1, 2], vec![u64::MAX - 1, u64::MAX]), block(vec![2, 1], vec![0, 1])];
    let groups = aggregator.aggregate(names(vec!["k"]), stream).unwrap();
    let result = fields(vec![("sum", DataType::Binary), ("k", DataType::UInt8)]);
    let blocks = aggregator.aggregate_finalized(&groups, result).unwrap();
    assert_eq!(blocks[0].column(0), &states(vec![u64::MAX, u64::MAX]));
}

#[test]
fn a_function_refuses_a_column_of_the_wrong_type() {
    let aggregator = sales_aggregator();
    let schema = fields(vec![("shop", DataType::UInt64), ("amount", DataType::Binary)]);
    let block = DataBlock::create(schema, vec![Column::UInt64(vec![1]), Column::Binary(vec![vec![1]])], 1).unwrap();
    let made = aggregator.aggregate(names(vec!["shop"]), vec![Ok(block)]);
    assert_eq!(made.err(), Some(ErrorCode::Function(BAD_ARGUMENTS)));
}

#[test]
fn the_result_needs_a_schema_of_its_columns() {
    let aggregator = sales_aggregator();
    let groups = aggregator.aggregate(names(vec!["shop"]), vec![Ok(sales(vec![1], vec![1]))]).unwrap();
    let short = fields(vec![("count", DataType::Binary), ("shop", DataType::UInt64)]);
    assert_eq!(aggregator.aggregate_finalized(&groups, short).err(), Some(ErrorCode::BadBlock));
    let mistyped = fields(vec![
        ("count", DataType::Binary),
        ("sum", DataType::UInt64),
        ("max", DataType::Binary),
        ("shop", DataType::UInt64),
    ]);
    assert_eq!(aggregator.aggregate_finalized(&groups, mistyped).err(), Some(ErrorCode::BadBlock));
    let key_first = fields(vec![
        ("shop", DataType::UInt64),
        ("count", DataType::Binary),
        ("sum", DataType::Binary),
        ("max", DataType::Binary),
    ]);
    assert_eq!(aggregator.aggregate_finalized(&groups, key_first).err(), Some(ErrorCode::BadBlock));
}

#[test]
fn a_block_is_made_of_columns_that_fit_its_schema() {
    let schema = fields(vec![("a", DataType::UInt8), ("b", DataType::Binary)]);
    let a = Column::UInt8(vec![1, 2]);
    let b = Column::Binary(vec![vec![], vec![1]]);
    let block = DataBlock::create(schema.clone(), vec![a.clone(), b.clone()], 2).unwrap();
    assert_eq!(block.num_rows(), 2);
    assert_eq!(block.num_columns(), 2);
    assert_eq!(block.try_column_by_name(&"b".to_string()), Ok(&b));
    assert_eq!(block.try_column_by_name(&"c".to_string()), Err(ErrorCode::MissingColumn));
    assert_eq!(DataBlock::create(schema.clone(), vec![a.clone()], 2).err(), Some(ErrorCode::BadBlock));
    assert_eq!(DataBlock::create(schema.clone(), vec![a.clone(), b.clone()], 3).err(), Some(ErrorCode::BadBlock));
    assert_eq!(DataBlock::create(schema.clone(), vec![b.clone(), a.clone()], 2).err(), Some(ErrorCode::BadBlock));
    assert_eq!(
        DataBlock::create(schema, vec![a, Column::Binary(vec![vec![]])], 2).err(),
        Some(ErrorCode::BadBlock)
    );
    let empty = DataBlock::empty();
    assert_eq!((empty.num_rows(), empty.num_columns()), (0, 0));
}

#[test]
fn a_name_finds_the_first_column_of_that_name() {
    let schema = fields(vec![("a", DataType::UInt8), ("b", DataType::UInt8), ("a", DataType::UInt8)]);
    assert_eq!(schema.index_of(&"a".to_string()), Some(0));
    assert_eq!(schema.index_of(&"b".to_string()), Some(1));
    assert_eq!(schema.index_of(&"".to_string()), None);
    assert_eq!(DataSchema::empty().index_of(&"a".to_string()), None);
    let block = DataBlock::create(
        schema,
        vec![Column::UInt8(vec![1]), Column::UInt8(vec![2]), Column::UInt8(vec![3])],
        1,
    )
    .unwrap();
    assert_eq!(block.try_column_by_name(&"a".to_string()), Ok(&Column::UInt8(vec![1])));
}

#[test]
fn many_groups_keep_their_states_apart() {
    let aggregator = sales_aggregator();
    let shops: Vec<u64> = (0..3000u64).map(|i| (i * 7919) % 1000).collect();
    let amounts: Vec<u32> = (0..3000u32).collect();
    let groups = aggregator.aggregate(names(vec!["shop"]), vec![Ok(sales(shops.clone(), amounts.clone()))]).unwrap();
    let blocks = aggregator.aggregate_finalized(&groups, sales_result()).unwrap();
    assert_eq!(blocks[0].num_rows(), 1000);
    let keys = match blocks[0].column(3) {
        Column::UInt64(keys) => keys.clone(),
        _ => unreachable!(),
    };
    let sums = match blocks[0].column(1) {
        Column::Binary(sums) => sums.clone(),
        _ => unreachable!(),
    };
    for (key, sum) in keys.iter().zip(sums.iter()) {
        let expected: u64 = shops.iter().zip(amounts.iter()).filter(|(s, _)| *s == key).map(|(_, a)| *a as u64).sum();
        assert_eq!(sum, &expected.to_le_bytes().to_vec());
    }
}

#[test]
fn string_keys_group_by_their_bytes() {
    let schema = fields(vec![("town", DataType::Binary), ("n", DataType::UInt8)]);
    let aggregator = Aggregator::<HashMethodSerializer, BuiltinFunction>::create(
        HashMethodSerializer {},
        &vec![call("sum", vec!["n"])],
        &schema,
    )
    .unwrap();
    let towns = vec![b"Ulm".to_vec(), b"Bonn".to_vec(), String::from("Ulm").into_bytes(), vec![]];
    let block = DataBlock::create(schema, vec![Column::Binary(towns), Column::UInt8(vec![1, 2, 3, 4])], 4).unwrap();
    let groups = aggregator.aggregate(names(vec!["town", "n"]), vec![Ok(block)]);
    assert_eq!(groups.unwrap().table.len(), 4);
}
