//! The aggregator: it takes blocks of rows, keeps one state for each group
//! and each aggregate function, and hands the states out at the end.

use crate::arena::Arena;
use crate::column::{column_types, row_values, Column, DataBlock, DataSchema, DataType, DataValue};
use crate::entity::StateEntity;
use crate::error::ErrorCode;
use crate::function::AggregateFunction;
use crate::layout::{
    aligns_valid, get_layout_offsets, packed_align, packed_offset, packed_size, StateLayout,
};
use crate::method::HashMethod;
use crate::model::{ingest, no_groups, resolve_keys, serialized_state, GroupsModel};
use crate::params::{
    lemma_functions_each, names_of, spec_functions, AggregateExpression, AggregatorParams,
};
use crate::table::{
    lemma_has_slot, lemma_slot_of, table_keys, table_slot, table_value, GroupHashTable,
};
use vstd::arithmetic::power2::is_pow2;
use vstd::prelude::*;

pub mod batching;
pub mod finalize;
pub mod ingest;

verus! {

/// The keys of a key method, as specifications see them.
pub type KeyOf<Method> = <<Method as HashMethod>::HashKey as View>::V;

/// The state of a run of an aggregation: the table of the groups, and the
/// arena that holds their states.
pub struct AggregateState<T: GroupHashTable> {
    pub table: T,
    pub arena: Arena,
}

/// A hash aggregation with the key method `Method` and aggregate functions
/// of type `F`.
pub struct Aggregator<Method: HashMethod, F: AggregateFunction> {
    method: Method,
    params: AggregatorParams<F>,
    layout: StateLayout,
    offsets_aggregate_states: Vec<usize>,
}

/// The layouts of the states of `functions`, function by function.
pub open spec fn state_layouts<F: AggregateFunction>(functions: Seq<F>) -> Seq<StateLayout> {
    Seq::new(functions.len(), |f: int| functions[f].spec_state_layout())
}

/// The layouts of states are valid.
pub proof fn lemma_state_layouts<F: AggregateFunction>(functions: Seq<F>)
    ensures
        aligns_valid(state_layouts(functions)),
        forall|f: int| 0 <= f < functions.len() ==> (#[trigger] state_layouts(functions)[f]).align > 0,
{
    assert forall|f: int| 0 <= f < functions.len() implies state_layouts(
        functions,
    )[f].spec_valid() && (#[trigger] state_layouts(functions)[f]).align > 0 by {
        functions[f].lemma_state(Seq::empty(), Seq::empty());
        reveal(is_pow2);
    }
}

/// Whether two blocks of `size` bytes, at `a` and at `b`, do not overlap.
pub open spec fn blocks_apart(a: int, b: int, size: int) -> bool {
    a + size <= b || b + size <= a
}

/// The argument values of the rows, row by row.
pub open spec fn rows_values(columns: Seq<&Column>, rows: int) -> Seq<Seq<DataValue>> {
    Seq::new(rows as nat, |i: int| row_values(columns, i))
}

/// The argument values of the rows, function by function and row by row.
pub open spec fn all_rows_values(columns: Seq<Vec<&Column>>, rows: int) -> Seq<Seq<Seq<DataValue>>> {
    Seq::new(columns.len(), |f: int| rows_values(columns[f]@, rows))
}

/// The rows of the blocks of a stream, all together.
pub open spec fn stream_rows(stream: Seq<Result<DataBlock, ErrorCode>>) -> int
    decreases stream.len(),
{
    if stream.len() == 0 {
        0
    } else {
        stream_rows(stream.drop_last()) + match stream.last() {
            Ok(block) => block.spec_num_rows() as int,
            Err(_) => 0,
        }
    }
}

/// The rows of the first blocks of a stream are no more than the rows of
/// all its blocks.
pub proof fn lemma_stream_rows(stream: Seq<Result<DataBlock, ErrorCode>>, upto: int)
    requires
        0 <= upto <= stream.len(),
    ensures
        0 <= stream_rows(stream.take(upto)) <= stream_rows(stream),
    decreases stream.len() - upto,
{
    if upto < stream.len() {
        assert(stream.take(upto + 1).drop_last() =~= stream.take(upto));
        lemma_stream_rows(stream, upto + 1);
        lemma_stream_rows_nonnegative(stream.take(upto));
    } else {
        assert(stream.take(upto) =~= stream);
        lemma_stream_rows_nonnegative(stream);
    }
}

proof fn lemma_stream_rows_nonnegative(stream: Seq<Result<DataBlock, ErrorCode>>)
    ensures
        0 <= stream_rows(stream),
    decreases stream.len(),
{
    if stream.len() > 0 {
        lemma_stream_rows_nonnegative(stream.drop_last());
    }
}

/// The keys of the rows, as specifications see them.
pub open spec fn key_views<Key: View>(keys: Seq<Key>) -> Seq<Key::V> {
    Seq::new(keys.len(), |i: int| keys[i]@)
}

/// Whether the block has every column of `names`.
pub open spec fn block_has_all(block: DataBlock, names: Seq<String>) -> bool {
    forall|j: int| 0 <= j < names.len() ==> block.spec_has_column(#[trigger] names[j]@)
}

/// The columns of the block that `names` names, name by name.
pub open spec fn named_columns<'a>(block: &'a DataBlock, names: Seq<String>) -> Seq<&'a Column> {
    Seq::new(names.len(), |j: int| &block.spec_column(names[j]@))
}

impl<Method: HashMethod, F: AggregateFunction> Aggregator<Method, F> {
    /// The invariant of an aggregator: every function has its argument
    /// names, and the states of the functions are packed into the block.
    #[verifier::type_invariant]
    pub closed spec fn spec_wf(&self) -> bool {
        let layouts = state_layouts(self.params.aggregate_functions@);
        &&& self.params.aggregate_functions_arguments_name@.len()
            == self.params.aggregate_functions@.len()
        &&& packed_size(layouts) <= usize::MAX
        &&& self.layout.size == packed_size(layouts)
        &&& self.layout.align == packed_align(layouts)
        &&& self.offsets_aggregate_states@.len() == layouts.len()
        &&& forall|f: int|
            0 <= f < layouts.len() ==> #[trigger] self.offsets_aggregate_states@[f]
                == packed_offset(layouts, f)
    }

    pub closed spec fn spec_method(&self) -> Method {
        self.method
    }

    /// The aggregate functions, in order.
    pub closed spec fn spec_functions(&self) -> Seq<F> {
        self.params.aggregate_functions@
    }

    /// The names of the argument columns, function by function.
    pub closed spec fn spec_arg_names(&self) -> Seq<Vec<String>> {
        self.params.aggregate_functions_arguments_name@
    }

    /// The layout of the block that holds the states of one group.
    pub closed spec fn spec_layout(&self) -> StateLayout {
        self.layout
    }

    /// The offset of the state of each function in the block of a group.
    pub closed spec fn spec_offsets(&self) -> Seq<usize> {
        self.offsets_aggregate_states@
    }

    /// The state of function `f` in the block at `addr` of the arena `bytes`.
    pub open spec fn spec_region(&self, bytes: Seq<u8>, addr: int, f: int) -> Seq<u8> {
        bytes.subrange(
            addr + self.spec_offsets()[f],
            addr + self.spec_offsets()[f] + self.spec_functions()[f].spec_state_layout().size,
        )
    }

    /// Whether the table and the arena of `groups` fit this aggregator:
    /// the table meets its invariant and, where there are functions, every
    /// group has a block of states in the arena that no other group shares.
    pub open spec fn spec_valid_state(&self, groups: AggregateState<Method::Table>) -> bool {
        &&& groups.table.spec_wf()
        &&& self.spec_functions().len() > 0 ==> {
            &&& forall|s: usize| #[trigger]
                groups.table.spec_slots().contains(s) ==> groups.table.spec_entity(
                    s,
                ).spec_state_value() + self.spec_layout().size <= groups.arena@.len()
            &&& forall|s: usize, t: usize|
                #![trigger groups.table.spec_entity(s), groups.table.spec_entity(t)]
                groups.table.spec_slots().contains(s) && groups.table.spec_slots().contains(t)
                    && s != t ==> blocks_apart(
                    groups.table.spec_entity(s).spec_state_value() as int,
                    groups.table.spec_entity(t).spec_state_value() as int,
                    self.spec_layout().size as int,
                )
        }
    }

    /// The state that function `f` holds for the group `key`.
    pub open spec fn spec_state(
        &self,
        groups: AggregateState<Method::Table>,
        key: KeyOf<Method>,
        f: int,
    ) -> Seq<u8> {
        self.spec_region(groups.arena@, table_value(groups.table, key) as int, f)
    }

    /// The groups that the table and the arena hold: the keys of the table
    /// in the order of iteration, and the state of every function for every
    /// key.
    pub open spec fn spec_model(&self, groups: AggregateState<Method::Table>) -> GroupsModel<
        KeyOf<Method>,
    > {
        GroupsModel {
            keys: table_keys(groups.table),
            states: Map::new(
                |at: (KeyOf<Method>, int)|
                    table_keys(groups.table).contains(at.0) && 0 <= at.1
                        < self.spec_functions().len(),
                |at: (KeyOf<Method>, int)| self.spec_state(groups, at.0, at.1),
            ),
        }
    }

    /// The keys of the rows of a block.
    pub open spec fn spec_block_keys(&self, group_cols: Seq<String>, block: &DataBlock) -> Seq<
        KeyOf<Method>,
    > {
        Seq::new(
            block.spec_num_rows(),
            |i: int| self.spec_method().spec_key(row_values(named_columns(block, group_cols), i)),
        )
    }

    /// The argument values of the rows of a block, function by function.
    pub open spec fn spec_block_args(&self, block: &DataBlock) -> Seq<Seq<Seq<DataValue>>> {
        Seq::new(
            self.spec_functions().len(),
            |f: int|
                rows_values(
                    named_columns(block, self.spec_arg_names()[f]@),
                    block.spec_num_rows() as int,
                ),
        )
    }

    /// Whether the block has the argument columns of every function.
    pub open spec fn spec_has_arguments(&self, block: &DataBlock) -> bool {
        forall|f: int|
            0 <= f < self.spec_functions().len() ==> block_has_all(
                *block,
                (#[trigger] self.spec_arg_names()[f])@,
            )
    }

    /// The groups after a block.
    ///
    /// The block fails with `MissingColumn` if it lacks a group column or an
    /// argument column, and with `BadKeyColumns` if the key method cannot
    /// encode its group columns. Else its rows are taken in: see `ingest`.
    pub open spec fn spec_aggregate_block(
        &self,
        model: GroupsModel<KeyOf<Method>>,
        group_cols: Seq<String>,
        block: &DataBlock,
    ) -> Result<GroupsModel<KeyOf<Method>>, ErrorCode> {
        if !block_has_all(*block, group_cols) || !self.spec_has_arguments(block) {
            Err(ErrorCode::MissingColumn)
        } else if !self.spec_method().spec_accepts(
            column_types(named_columns(block, group_cols)),
        ) {
            Err(ErrorCode::BadKeyColumns)
        } else {
            ingest::<Method::Table, F>(
                self.spec_functions(),
                model,
                self.spec_block_keys(group_cols, block),
                self.spec_block_args(block),
            )
        }
    }

    /// The groups after a stream of blocks, taken in one after the other
    /// from no groups.
    ///
    /// The stream fails with the error of its first block that the source
    /// could not give or that the aggregation could not take in.
    pub open spec fn spec_aggregate(
        &self,
        group_cols: Seq<String>,
        stream: Seq<Result<DataBlock, ErrorCode>>,
    ) -> Result<GroupsModel<KeyOf<Method>>, ErrorCode>
        decreases stream.len(),
    {
        if stream.len() == 0 {
            Ok(no_groups())
        } else {
            match self.spec_aggregate(group_cols, stream.drop_last()) {
                Err(e) => Err(e),
                Ok(model) => match stream.last() {
                    Err(e) => Err(e),
                    Ok(block) => self.spec_aggregate_block(model, group_cols, &block),
                },
            }
        }
    }

    /// A stream whose first blocks fail fails with their error.
    pub proof fn lemma_aggregate_error_stays(
        &self,
        group_cols: Seq<String>,
        stream: Seq<Result<DataBlock, ErrorCode>>,
        upto: int,
    )
        requires
            0 <= upto <= stream.len(),
        ensures
            self.spec_aggregate(group_cols, stream.take(upto)) matches Err(e)
                ==> self.spec_aggregate(group_cols, stream) == Err::<
                GroupsModel<KeyOf<Method>>,
                ErrorCode,
            >(e),
        decreases stream.len() - upto,
    {
        if upto < stream.len() {
            assert(stream.take(upto + 1).drop_last() =~= stream.take(upto));
            self.lemma_aggregate_error_stays(group_cols, stream, upto + 1);
        } else {
            assert(stream.take(upto) =~= stream);
        }
    }

    /// Whether `schema` is a schema of the result for the groups `model`:
    /// one column of byte strings for each function, and then the column of
    /// the keys.
    pub open spec fn spec_result_schema(
        &self,
        model: GroupsModel<KeyOf<Method>>,
        schema: DataSchema,
    ) -> bool {
        let n = self.spec_functions().len() as int;
        &&& schema.fields@.len() == n + 1
        &&& forall|f: int| 0 <= f < n ==> (#[trigger] schema.fields@[f]).data_type == DataType::Binary
        &&& schema.fields@[n].data_type == Method::spec_key_value(model.keys[0]).spec_type()
    }

    /// Whether `columns` are the columns of the result for the groups
    /// `model`: for each function the serialized states of the groups, and
    /// then the keys of the groups, all in the order of the groups.
    pub open spec fn spec_result_columns(
        &self,
        model: GroupsModel<KeyOf<Method>>,
        columns: Seq<Column>,
    ) -> bool {
        let n = self.spec_functions().len() as int;
        &&& columns.len() == n + 1
        &&& forall|f: int| 0 <= f < n + 1 ==> (#[trigger] columns[f])@.len() == model.keys.len()
        &&& forall|f: int, i: int|
            0 <= f < n && 0 <= i < model.keys.len() ==> #[trigger] columns[f]@[i]
                == DataValue::Binary(
                serialized_state(self.spec_functions(), model, model.keys[i], f),
            )
        &&& forall|i: int|
            0 <= i < model.keys.len() ==> #[trigger] columns[n]@[i] == Method::spec_key_value(
                model.keys[i],
            )
    }

    /// What the invariant says of the parts of an aggregator.
    pub proof fn lemma_wf(&self)
        requires
            self.spec_wf(),
        ensures
            self.spec_arg_names().len() == self.spec_functions().len(),
            self.spec_offsets().len() == self.spec_functions().len(),
            self.spec_layout().size == packed_size(state_layouts(self.spec_functions())),
            self.spec_layout().align == packed_align(state_layouts(self.spec_functions())),
            forall|f: int|
                0 <= f < self.spec_functions().len() ==> #[trigger] self.spec_offsets()[f]
                    == packed_offset(state_layouts(self.spec_functions()), f),
    {
    }

    /// The layouts of the states of `functions`.
    fn layouts_of(functions: &Vec<F>) -> (layouts: Vec<StateLayout>)
        ensures
            layouts@ == state_layouts(functions@),
    {
        let mut layouts: Vec<StateLayout> = Vec::new();
        let mut f: usize = 0;
        while f < functions.len()
            invariant
                0 <= f <= functions@.len(),
                layouts@.len() == f,
                forall|k: int|
                    0 <= k < f ==> #[trigger] layouts@[k] == functions@[k].spec_state_layout(),
            decreases functions.len() - f,
        {
            layouts.push(functions[f].state_layout());
            f += 1;
        }
        assert(layouts@ =~= state_layouts(functions@));
        layouts
    }

    /// Sets an aggregation up: resolves the aggregate expressions under the
    /// schema and packs the states of their functions into one block.
    ///
    /// Fails with the configuration error of the first expression that does
    /// not resolve, and with `BadStateLayout` if the expressions resolve but
    /// the block of states would not fit in the address space.
    pub fn create(method: Method, aggr_exprs: &Vec<AggregateExpression>, schema: &DataSchema) -> (r:
        Result<Aggregator<Method, F>, ErrorCode>)
        ensures
            match spec_functions::<F>(*schema, aggr_exprs@) {
                Err(e) => r matches Err(error) && error == e,
                Ok(functions) => if packed_size(state_layouts(functions)) > usize::MAX {
                    r matches Err(error) && error == ErrorCode::BadStateLayout
                } else {
                    r matches Ok(aggregator) && aggregator.spec_wf() && aggregator.spec_method()
                        == method && aggregator.spec_functions() == functions && names_of(
                        aggregator.spec_arg_names(),
                        aggr_exprs@,
                    )
                },
            },
    {
        let aggregator_params = match AggregatorParams::<F>::try_create(schema, aggr_exprs) {
            Err(e) => { return Err(e); },
            Ok(params) => params,
        };
        let layouts = Self::layouts_of(&aggregator_params.aggregate_functions);
        proof {
            lemma_state_layouts(aggregator_params.aggregate_functions@);
            lemma_functions_each::<F>(*schema, aggr_exprs@);
        }
        match get_layout_offsets(&layouts) {
            None => Err(ErrorCode::BadStateLayout),
            Some((states_layout, states_offsets)) => Ok(
                Aggregator {
                    method,
                    params: aggregator_params,
                    layout: states_layout,
                    offsets_aggregate_states: states_offsets,
                },
            ),
        }
    }

    /// The state of a run before its first block: no groups, and nothing in
    /// the arena.
    pub fn new_state(&self) -> (groups: AggregateState<Method::Table>)
        ensures
            self.spec_valid_state(groups),
            self.spec_model(groups) == no_groups::<KeyOf<Method>>(),
            groups.arena@.len() == 0,
    {
        let groups = AggregateState { table: Method::Table::create(), arena: Arena::new() };
        proof {
            assert(table_keys(groups.table) =~= Seq::empty());
            assert(self.spec_model(groups).states =~= Map::empty());
            assert forall|s: usize| !groups.table.spec_slots().contains(s) by {}
        }
        groups
    }

    /// Takes the rows of one block into the groups.
    ///
    /// The group columns and the argument columns of the functions are
    /// found in the block by their names. Every row is given its key; a key
    /// that is new gets a group with a first state for each function. Then
    /// each function in turn folds all rows of the block into the states of
    /// their groups.
    ///
    /// The groups are consumed: a block that fails leaves nothing behind.
    /// Groups that were there before keep the place of their states.
    pub fn aggregate_block(
        &self,
        group_cols: &Vec<String>,
        groups: AggregateState<Method::Table>,
        block: &DataBlock,
    ) -> (r: Result<AggregateState<Method::Table>, ErrorCode>)
        requires
            self.spec_valid_state(groups),
            groups.arena@.len() + block.spec_num_rows() * (self.spec_layout().size
                + self.spec_layout().align) < usize::MAX,
        ensures
            match self.spec_aggregate_block(self.spec_model(groups), group_cols@, block) {
                Err(e) => r matches Err(error) && error == e,
                Ok(model) => {
                    &&& r matches Ok(after)
                    &&& self.spec_valid_state(after)
                    &&& self.spec_model(after) == model
                    &&& forall|k: KeyOf<Method>| #[trigger]
                        table_keys(groups.table).contains(k) ==> table_value(after.table, k)
                            == table_value(groups.table, k)
                    &&& groups.arena@.len() <= after.arena@.len() <= groups.arena@.len()
                        + block.spec_num_rows() * (self.spec_layout().size
                        + self.spec_layout().align)
                },
            },
    {
        proof {
            use_type_invariant(self);
        }
        let ghost before = groups;
        let ghost model = self.spec_model(groups);
        let mut groups = groups;
        // Find the group columns and the argument columns.
        let group_columns = match Self::group_columns(group_cols, block) {
            Err(e) => { return Err(e); },
            Ok(columns) => columns,
        };
        let aggregate_args_columns = match self.aggregate_arguments_column(block) {
            Err(e) => { return Err(e); },
            Ok(columns) => columns,
        };
        let rows = block.num_rows();
        let group_keys = match self.method.build_keys(&group_columns, rows) {
            Err(e) => { return Err(e); },
            Ok(keys) => keys,
        };
        let ghost row_keys = self.spec_block_keys(group_cols@, block);
        let ghost all_args = self.spec_block_args(block);
        proof {
            assert(key_views(group_keys@) =~= row_keys);
            assert(all_rows_values(aggregate_args_columns@, rows as int) =~= all_args);
        }
        // Resolve the state block of every row.
        let (places, slots) = match self.resolve_places(&mut groups, &group_keys) {
            Err(e) => { return Err(e); },
            Ok(found) => found,
        };
        let ghost resolved = groups;
        proof {
            self.lemma_resolved(before, resolved);
        }
        // Fold the rows into the states.
        match self.accumulate_all(
            &mut groups,
            &places,
            &aggregate_args_columns,
            rows,
            slots,
            Ghost(row_keys),
            Ghost(model),
        ) {
            Err(e) => { return Err(e); },
            Ok(()) => {},
        }
        proof {
            self.lemma_folded(groups, model, row_keys, all_args);
            assert(table_keys(groups.table) == resolve_keys::<Method::Table>(model.keys, row_keys));
            assert(self.spec_aggregate_block(model, group_cols@, block).is_ok());
            assert(self.spec_model(groups) == self.spec_aggregate_block(
                model,
                group_cols@,
                block,
            ).unwrap());
            assert forall|k: KeyOf<Method>| #[trigger]
                table_keys(before.table).contains(k) implies table_value(groups.table, k)
                == table_value(before.table, k) by {
                lemma_has_slot(before.table, k);
                lemma_slot_of(before.table, table_slot(before.table, k), k);
                lemma_slot_of(groups.table, table_slot(before.table, k), k);
            }
        }
        Ok(groups)
    }

    /// Aggregates a stream of blocks: takes the blocks in one after the
    /// other, from no groups, and hands out the table and the arena that
    /// hold the groups.
    ///
    /// A block that the source could not give fails the aggregation with the
    /// error of the source, and a block that cannot be taken in fails it
    /// with its own error; what was aggregated until then is dropped.
    pub fn aggregate(&self, group_cols: Vec<String>, stream: Vec<Result<DataBlock, ErrorCode>>) -> (r:
        Result<AggregateState<Method::Table>, ErrorCode>)
        requires
            stream_rows(stream@) * (self.spec_layout().size + self.spec_layout().align)
                < usize::MAX,
        ensures
            match self.spec_aggregate(group_cols@, stream@) {
                Err(e) => r matches Err(error) && error == e,
                Ok(model) => r matches Ok(groups) && self.spec_valid_state(groups)
                    && self.spec_model(groups) == model,
            },
    {
        let ghost unit = self.spec_layout().size + self.spec_layout().align;
        let mut groups = self.new_state();
        let mut i: usize = 0;
        proof {
            assert(stream@.take(0) =~= Seq::empty());
        }
        while i < stream.len()
            invariant
                0 <= i <= stream@.len(),
                unit == self.spec_layout().size + self.spec_layout().align,
                stream_rows(stream@) * unit < usize::MAX,
                self.spec_valid_state(groups),
                self.spec_aggregate(group_cols@, stream@.take(i as int)) == Ok::<
                    GroupsModel<KeyOf<Method>>,
                    ErrorCode,
                >(self.spec_model(groups)),
                groups.arena@.len() <= stream_rows(stream@.take(i as int)) * unit,
            decreases stream.len() - i,
        {
            proof {
                let next = stream@.take(i + 1);
                assert(next.drop_last() =~= stream@.take(i as int));
                assert(next.last() == stream@[i as int]);
                self.lemma_aggregate_error_stays(group_cols@, stream@, i + 1);
                lemma_stream_rows(stream@, i + 1);
                lemma_stream_rows(stream@, i as int);
                let (a, b, c) = (stream_rows(stream@.take(i as int)), stream_rows(next), stream_rows(stream@));
                assert(b * unit == a * unit + (b - a) * unit) by (nonlinear_arith);
                assert(b * unit <= c * unit) by (nonlinear_arith)
                    requires
                        b <= c,
                        0 <= unit,
                ;
            }
            match &stream[i] {
                Err(e) => { return Err(*e); },
                Ok(block) => {
                    groups = match self.aggregate_block(&group_cols, groups, block) {
                        Err(e) => { return Err(e); },
                        Ok(after) => after,
                    };
                },
            }
            i += 1;
        }
        proof {
            assert(stream@.take(stream@.len() as int) =~= stream@);
        }
        Ok(groups)
    }

    /// The number of aggregate functions.
    pub fn num_functions(&self) -> (n: usize)
        ensures
            n == self.spec_functions().len(),
    {
        self.params.aggregate_functions.len()
    }

    /// The layout of the block that holds the states of one group.
    pub fn layout(&self) -> (layout: StateLayout)
        ensures
            layout == self.spec_layout(),
    {
        self.layout
    }
}

} // verus!
