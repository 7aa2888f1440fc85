//! Laws of the aggregator over blocks and streams of blocks.

use crate::column::{column_types, columns_of_rows, row_values, DataBlock, DataSchema};
use crate::error::ErrorCode;
use crate::function::AggregateFunction;
use crate::laws::{joined_args, law_batching, law_distinct_groups};
use crate::method::HashMethod;
use crate::model::{no_groups, GroupsModel};
use super::{block_has_all, named_columns, Aggregator, KeyOf};
use vstd::prelude::*;

verus! {

/// Whether the column `name` of `whole` is the column `name` of `first`
/// followed by that of `second`, if they have such a column.
pub open spec fn column_joins(
    first: &DataBlock,
    second: &DataBlock,
    whole: &DataBlock,
    name: Seq<char>,
) -> bool {
    &&& whole.spec_has_column(name) == first.spec_has_column(name)
    &&& second.spec_has_column(name) == first.spec_has_column(name)
    &&& first.spec_has_column(name) ==> {
        &&& whole.spec_column(name).spec_type() == first.spec_column(name).spec_type()
        &&& second.spec_column(name).spec_type() == first.spec_column(name).spec_type()
        &&& whole.spec_column(name)@ == first.spec_column(name)@ + second.spec_column(name)@
    }
}

/// Whether the columns `names` of `whole` are those of `first` followed by
/// those of `second`.
pub open spec fn columns_join(
    first: &DataBlock,
    second: &DataBlock,
    whole: &DataBlock,
    names: Seq<String>,
) -> bool {
    forall|j: int| 0 <= j < names.len() ==> column_joins(first, second, whole, #[trigger] names[j]@)
}

/// The columns that a block has by name have the rows of the block.
pub proof fn lemma_named_columns(block: &DataBlock, names: Seq<String>)
    requires
        block.spec_wf(),
        block_has_all(*block, names),
    ensures
        columns_of_rows(named_columns(block, names), block.spec_num_rows() as int),
{
    block.lemma_wf();
    assert forall|c: int| 0 <= c < names.len() implies (#[trigger] named_columns(
        block,
        names,
    )[c])@.len() == block.spec_num_rows() by {
        assert(block.spec_has_column(names[c]@));
        let i = choose|i: int|
            0 <= i < block.spec_schema().fields@.len() && (#[trigger] block.spec_schema().fields@[i]).name@
                == names[c]@;
        lemma_first_index(block.spec_schema(), names[c]@, i);
    }
}

/// A schema that has a field of a name has a first field of that name.
pub proof fn lemma_first_index(schema: DataSchema, name: Seq<char>, i: int)
    requires
        0 <= i < schema.fields@.len(),
        schema.fields@[i].name@ == name,
    ensures
        schema.spec_is_index_of(name, schema.spec_index_of(name)),
    decreases i,
{
    if exists|j: int| 0 <= j < i && (#[trigger] schema.fields@[j]).name@ == name {
        let j = choose|j: int| 0 <= j < i && (#[trigger] schema.fields@[j]).name@ == name;
        lemma_first_index(schema, name, j);
    } else {
        assert(schema.spec_is_index_of(name, i));
    }
}

/// The values of the rows of joined columns are the values of the rows of
/// the first columns, and then those of the second.
pub proof fn lemma_joined_rows(
    first: &DataBlock,
    second: &DataBlock,
    whole: &DataBlock,
    names: Seq<String>,
    i: int,
)
    requires
        first.spec_wf(),
        second.spec_wf(),
        whole.spec_wf(),
        block_has_all(*first, names),
        columns_join(first, second, whole, names),
        0 <= i < first.spec_num_rows() + second.spec_num_rows(),
    ensures
        row_values(named_columns(whole, names), i) == if i < first.spec_num_rows() {
            row_values(named_columns(first, names), i)
        } else {
            row_values(named_columns(second, names), i - first.spec_num_rows())
        },
        column_types(named_columns(whole, names)) == column_types(named_columns(first, names)),
        column_types(named_columns(second, names)) == column_types(named_columns(first, names)),
        block_has_all(*second, names),
        block_has_all(*whole, names),
{
    assert forall|j: int| 0 <= j < names.len() implies second.spec_has_column(
        #[trigger] names[j]@,
    ) && whole.spec_has_column(names[j]@) by {
        assert(first.spec_has_column(names[j]@));
        assert(column_joins(first, second, whole, names[j]@));
    }
    lemma_named_columns(first, names);
    lemma_named_columns(second, names);
    let rows = first.spec_num_rows() as int;
    assert forall|c: int| 0 <= c < names.len() implies (#[trigger] named_columns(whole, names)[c])@[i]
        == if i < rows {
        named_columns(first, names)[c]@[i]
    } else {
        named_columns(second, names)[c]@[i - rows]
    } && named_columns(whole, names)[c].spec_type() == named_columns(first, names)[c].spec_type()
        && named_columns(second, names)[c].spec_type() == named_columns(
        first,
        names,
    )[c].spec_type() by {
        assert(first.spec_has_column(names[c]@));
        assert(column_joins(first, second, whole, names[c]@));
        assert(named_columns(first, names)[c]@.len() == rows);
    }
    assert(row_values(named_columns(whole, names), i) =~= if i < rows {
        row_values(named_columns(first, names), i)
    } else {
        row_values(named_columns(second, names), i - rows)
    });
    assert(column_types(named_columns(whole, names)) =~= column_types(
        named_columns(first, names),
    ));
    assert(column_types(named_columns(second, names)) =~= column_types(
        named_columns(first, names),
    ));
}

impl<Method: HashMethod, F: AggregateFunction> Aggregator<Method, F> {
    /// The keys of the rows of the blocks of a stream, block after block.
    pub open spec fn spec_stream_keys(
        &self,
        group_cols: Seq<String>,
        stream: Seq<Result<DataBlock, ErrorCode>>,
    ) -> Seq<KeyOf<Method>>
        decreases stream.len(),
    {
        if stream.len() == 0 {
            Seq::empty()
        } else {
            self.spec_stream_keys(group_cols, stream.drop_last()) + match stream.last() {
                Ok(block) => self.spec_block_keys(group_cols, &block),
                Err(_) => Seq::empty(),
            }
        }
    }

    /// An aggregation has one group for each distinct key of the rows of its
    /// blocks, never more and never fewer: the keys of its groups are
    /// distinct, and they are the keys of the rows.
    pub proof fn law_groups_of_stream(
        &self,
        group_cols: Seq<String>,
        stream: Seq<Result<DataBlock, ErrorCode>>,
    )
        requires
            self.spec_aggregate(group_cols, stream).is_ok(),
        ensures
            ({
                let groups = self.spec_aggregate(group_cols, stream).unwrap();
                let keys = self.spec_stream_keys(group_cols, stream);
                &&& groups.keys.no_duplicates()
                &&& groups.keys.to_set() == keys.to_set()
                &&& groups.keys.len() == keys.to_set().len()
            }),
        decreases stream.len(),
    {
        let groups = self.spec_aggregate(group_cols, stream).unwrap();
        let keys = self.spec_stream_keys(group_cols, stream);
        if stream.len() == 0 {
            assert(groups.keys.to_set() =~= keys.to_set());
        } else {
            self.law_groups_of_stream(group_cols, stream.drop_last());
            let before = self.spec_aggregate(group_cols, stream.drop_last()).unwrap();
            let block = stream.last().unwrap();
            let seen = self.spec_stream_keys(group_cols, stream.drop_last());
            let row_keys = self.spec_block_keys(group_cols, &block);
            law_distinct_groups::<Method::Table, F>(
                self.spec_functions(),
                before,
                row_keys,
                self.spec_block_args(&block),
            );
            assert forall|k: KeyOf<Method>| (seen + row_keys).contains(k) <==> seen.contains(k)
                || row_keys.contains(k) by {
                if seen.contains(k) {
                    let i = choose|i: int| 0 <= i < seen.len() && seen[i] == k;
                    assert((seen + row_keys)[i] == k);
                }
                if row_keys.contains(k) {
                    let i = choose|i: int| 0 <= i < row_keys.len() && row_keys[i] == k;
                    assert((seen + row_keys)[seen.len() + i] == k);
                }
                if (seen + row_keys).contains(k) {
                    let i = choose|i: int| 0 <= i < (seen + row_keys).len() && (seen + row_keys)[i] == k;
                    if i < seen.len() {
                        assert(seen[i] == k);
                    } else {
                        assert(row_keys[i - seen.len()] == k);
                    }
                }
            }
            assert(groups.keys.to_set() =~= keys.to_set());
        }
        groups.keys.unique_seq_to_set();
    }

    /// A stream without blocks gives no groups, and does not fail.
    pub proof fn law_empty_stream(&self, group_cols: Seq<String>)
        ensures
            self.spec_aggregate(group_cols, Seq::empty()) == Ok::<
                GroupsModel<KeyOf<Method>>,
                ErrorCode,
            >(no_groups()),
            no_groups::<KeyOf<Method>>().keys.len() == 0,
    {
    }

    /// Batching does not matter: where the columns of `whole` are the
    /// columns of `first` followed by those of `second`, taking in `first`
    /// and then `second` gives the groups that taking in `whole` gives, and
    /// succeeds exactly if that does.
    pub proof fn law_split_block(
        &self,
        model: GroupsModel<KeyOf<Method>>,
        group_cols: Seq<String>,
        first: &DataBlock,
        second: &DataBlock,
        whole: &DataBlock,
    )
        requires
            self.spec_wf(),
            model.keys.no_duplicates(),
            first.spec_wf(),
            second.spec_wf(),
            whole.spec_wf(),
            whole.spec_num_rows() == first.spec_num_rows() + second.spec_num_rows(),
            columns_join(first, second, whole, group_cols),
            forall|f: int|
                0 <= f < self.spec_functions().len() ==> columns_join(
                    first,
                    second,
                    whole,
                    (#[trigger] self.spec_arg_names()[f])@,
                ),
        ensures
            ({
                let joined = self.spec_aggregate_block(model, group_cols, whole);
                let begun = self.spec_aggregate_block(model, group_cols, first);
                &&& joined.is_ok() <==> begun.is_ok() && self.spec_aggregate_block(
                    begun.unwrap(),
                    group_cols,
                    second,
                ).is_ok()
                &&& joined.is_ok() ==> self.spec_aggregate_block(begun.unwrap(), group_cols, second)
                    == joined
            }),
    {
        self.lemma_wf();
        let n = self.spec_functions().len() as int;
        let rows = first.spec_num_rows() as int;
        // A column that one of the blocks lacks is lacking in all three.
        if !block_has_all(*first, group_cols) {
            let j = choose|j: int|
                0 <= j < group_cols.len() && !first.spec_has_column(#[trigger] group_cols[j]@);
            assert(column_joins(first, second, whole, group_cols[j]@));
        } else if !self.spec_has_arguments(first) {
            let f = choose|f: int|
                0 <= f < n && !block_has_all(*first, (#[trigger] self.spec_arg_names()[f])@);
            let names = self.spec_arg_names()[f]@;
            let j = choose|j: int| 0 <= j < names.len() && !first.spec_has_column(#[trigger] names[j]@);
            assert(column_joins(first, second, whole, names[j]@));
            assert(!block_has_all(*whole, names));
            assert(!block_has_all(*second, names));
        } else {
            self.lemma_split_rows(model, group_cols, first, second, whole);
        }
    }

    /// The law of `law_split_block` for blocks that have every column.
    pub(super) proof fn lemma_split_rows(
        &self,
        model: GroupsModel<KeyOf<Method>>,
        group_cols: Seq<String>,
        first: &DataBlock,
        second: &DataBlock,
        whole: &DataBlock,
    )
        requires
            self.spec_wf(),
            model.keys.no_duplicates(),
            first.spec_wf(),
            second.spec_wf(),
            whole.spec_wf(),
            whole.spec_num_rows() == first.spec_num_rows() + second.spec_num_rows(),
            columns_join(first, second, whole, group_cols),
            forall|f: int|
                0 <= f < self.spec_functions().len() ==> columns_join(
                    first,
                    second,
                    whole,
                    (#[trigger] self.spec_arg_names()[f])@,
                ),
            block_has_all(*first, group_cols),
            self.spec_has_arguments(first),
        ensures
            ({
                let joined = self.spec_aggregate_block(model, group_cols, whole);
                let begun = self.spec_aggregate_block(model, group_cols, first);
                &&& joined.is_ok() <==> begun.is_ok() && self.spec_aggregate_block(
                    begun.unwrap(),
                    group_cols,
                    second,
                ).is_ok()
                &&& joined.is_ok() ==> self.spec_aggregate_block(begun.unwrap(), group_cols, second)
                    == joined
            }),
    {
        self.lemma_wf();
        let n = self.spec_functions().len() as int;
        assert forall|f: int| 0 <= f < n implies block_has_all(
            *second,
            (#[trigger] self.spec_arg_names()[f])@,
        ) && block_has_all(*whole, self.spec_arg_names()[f]@) by {
            let names = self.spec_arg_names()[f]@;
            assert(block_has_all(*first, names));
            assert forall|j: int| 0 <= j < names.len() implies second.spec_has_column(
                #[trigger] names[j]@,
            ) && whole.spec_has_column(names[j]@) by {
                assert(first.spec_has_column(names[j]@));
                assert(column_joins(first, second, whole, names[j]@));
            }
        }
        assert forall|j: int| 0 <= j < group_cols.len() implies second.spec_has_column(
            #[trigger] group_cols[j]@,
        ) && whole.spec_has_column(group_cols[j]@) by {
            assert(first.spec_has_column(group_cols[j]@));
            assert(column_joins(first, second, whole, group_cols[j]@));
        }
        assert(column_types(named_columns(whole, group_cols)) =~= column_types(
            named_columns(first, group_cols),
        )) by {
            assert forall|c: int| 0 <= c < group_cols.len() implies named_columns(
                whole,
                group_cols,
            )[c].spec_type() == named_columns(first, group_cols)[c].spec_type() by {
                assert(first.spec_has_column(group_cols[c]@));
                assert(column_joins(first, second, whole, group_cols[c]@));
            }
        }
        assert(column_types(named_columns(second, group_cols)) =~= column_types(
            named_columns(first, group_cols),
        )) by {
            assert forall|c: int| 0 <= c < group_cols.len() implies named_columns(
                second,
                group_cols,
            )[c].spec_type() == named_columns(first, group_cols)[c].spec_type() by {
                assert(first.spec_has_column(group_cols[c]@));
                assert(column_joins(first, second, whole, group_cols[c]@));
            }
        }
        // The keys and the argument values of the whole are those of the
        // first block followed by those of the second.
        let first_keys = self.spec_block_keys(group_cols, first);
        let second_keys = self.spec_block_keys(group_cols, second);
        let first_args = self.spec_block_args(first);
        let second_args = self.spec_block_args(second);
        assert forall|i: int| 0 <= i < whole.spec_num_rows() implies #[trigger] self.spec_block_keys(
            group_cols,
            whole,
        )[i] == (first_keys + second_keys)[i] by {
            lemma_joined_rows(first, second, whole, group_cols, i);
        }
        assert(self.spec_block_keys(group_cols, whole) =~= first_keys + second_keys);
        assert forall|f: int| 0 <= f < n implies #[trigger] self.spec_block_args(whole)[f]
            == joined_args(first_args, second_args)[f] by {
            let names = self.spec_arg_names()[f]@;
            assert(block_has_all(*first, names));
            assert(columns_join(first, second, whole, names));
            assert forall|i: int| 0 <= i < whole.spec_num_rows() implies #[trigger] self.spec_block_args(
                whole,
            )[f][i] == (first_args[f] + second_args[f])[i] by {
                lemma_joined_rows(first, second, whole, names, i);
            }
            assert(self.spec_block_args(whole)[f] =~= first_args[f] + second_args[f]);
        }
        assert(self.spec_block_args(whole) =~= joined_args(first_args, second_args));
        law_batching::<Method::Table, F>(
            self.spec_functions(),
            model,
            first_keys,
            first_args,
            second_keys,
            second_args,
        );
    }
}

} // verus!
