use group_aggregator::aggregator::Aggregator;
use group_aggregator::column::{Column, DataBlock, DataField, DataSchema, DataType};
use group_aggregator::function::BuiltinFunction;
use group_aggregator::method::{HashMethodFixedKeys, HashMethodSerializer};
use group_aggregator::params::AggregateExpression;

fn schema(fields: Vec<(&str, DataType)>) -> DataSchema {
    DataSchema::new(
        fields.into_iter().map(|(name, data_type)| DataField::new(name.to_string(), data_type)).collect(),
    )
}

fn numbers(values: Vec<u64>) -> DataBlock {
    let rows = values.len();
    DataBlock::create(schema(vec![("k", DataType::UInt64)]), vec![Column::UInt64(values)], rows).unwrap()
}

fn counts(values: Vec<u64>) -> Column {
    Column::Binary(values.into_iter().map(|v| v.to_le_bytes().to_vec()).collect())
}

fn count_of_k() -> Vec<AggregateExpression> {
    vec![AggregateExpression::new("count".to_string(), vec!["k".to_string()])]
}

#[test]
fn single_batch_counts_each_group() {
    let input = schema(vec![("k", DataType::UInt64)]);
    let aggregator =
        Aggregator::<HashMethodFixedKeys, BuiltinFunction>::create(HashMethodFixedKeys {}, &count_of_k(), &input)
            .unwrap();
    let groups = aggregator.aggregate(vec!["k".to_string()], vec![Ok(numbers(vec![1, 1, 2, 3, 2]))]).unwrap();
    let output = schema(vec![("count", DataType::Binary), ("k", DataType::UInt64)]);
    let blocks = aggregator.aggregate_finalized(&groups, output).unwrap();
    assert_eq!(blocks.len(), 1);
    assert_eq!(blocks[0].num_rows(), 3);
    assert_eq!(blocks[0].column(0), &counts(vec![2, 2, 1]));
    assert_eq!(blocks[0].column(1), &Column::UInt64(vec![1, 2, 3]));
}

#[test]
fn two_batches_give_the_counts_of_one() {
    let input = schema(vec![("k", DataType::UInt64)]);
    let aggregator =
        Aggregator::<HashMethodFixedKeys, BuiltinFunction>::create(HashMethodFixedKeys {}, &count_of_k(), &input)
            .unwrap();
    let groups = aggregator
        .aggregate(vec!["k".to_string()], vec![Ok(numbers(vec![1, 1])), Ok(numbers(vec![2, 3, 2]))])
        .unwrap();
    let output = schema(vec![("count", DataType::Binary), ("k", DataType::UInt64)]);
    let blocks = aggregator.aggregate_finalized(&groups, output).unwrap();
    assert_eq!(blocks.len(), 1);
    assert_eq!(blocks[0].column(0), &counts(vec![2, 2, 1]));
    assert_eq!(blocks[0].column(1), &Column::UInt64(vec![1, 2, 3]));
}

#[test]
fn equal_strings_from_distinct_buffers_share_a_group() {
    let input = schema(vec![("name", DataType::Binary)]);
    let expressions = vec![AggregateExpression::new("count".to_string(), vec![])];
    let aggregator =
        Aggregator::<HashMethodSerializer, BuiltinFunction>::create(HashMethodSerializer {}, &expressions, &input)
            .unwrap();
    let first = String::from("héllo").into_bytes();
    let second = "héllo".as_bytes().to_vec();
    assert_ne!(first.as_ptr(), second.as_ptr());
    let block = DataBlock::create(input.clone(), vec![Column::Binary(vec![first, b"other".to_vec(), second])], 3).unwrap();
    let groups = aggregator.aggregate(vec!["name".to_string()], vec![Ok(block)]).unwrap();
    let output = schema(vec![("count", DataType::Binary), ("name", DataType::Binary)]);
    let blocks = aggregator.aggregate_finalized(&groups, output).unwrap();
    assert_eq!(blocks[0].num_rows(), 2);
    assert_eq!(blocks[0].column(0), &counts(vec![2, 1]));
    let mut hello = 6u64.to_le_bytes().to_vec();
    hello.extend_from_slice("héllo".as_bytes());
    let mut other = 5u64.to_le_bytes().to_vec();
    other.extend_from_slice(b"other");
    assert_eq!(blocks[0].column(1), &Column::Binary(vec![hello, other]));
}
