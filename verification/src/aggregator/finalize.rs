//! Handing the groups out: the serialized states and the keys, as one block.

use crate::arena::StateAddr;
use crate::column::{
    block_shape, lemma_column_value_type, Column, DataBlock, DataSchema, DataType, DataValue,
};
use crate::entity::StateEntity;
use crate::error::ErrorCode;
use crate::function::AggregateFunction;
use crate::method::HashMethod;
use crate::model::{
    group_error, groups_error, lemma_group_error_stays, lemma_groups_error_stays, serialized_state,
};
use crate::table::{lemma_slot_of, lemma_table_keys, table_value, GroupHashTable};
use super::{AggregateState, Aggregator};
use super::ingest::lemma_state_inside;
use vstd::prelude::*;

verus! {

impl<Method: HashMethod, F: AggregateFunction> Aggregator<Method, F> {
    /// Serializes the states of the group in slot `slot`, function by
    /// function, each into a byte string of its own.
    pub(super) fn serialize_group(&self, groups: &AggregateState<Method::Table>, slot: usize) -> (r: Result<
        Vec<Vec<u8>>,
        ErrorCode,
    >)
        requires
            self.spec_wf(),
            self.spec_valid_state(*groups),
            groups.table.spec_slots().contains(slot),
        ensures
            ({
                let model = self.spec_model(*groups);
                let key = groups.table.spec_entity(slot).spec_state_key();
                match group_error(
                    self.spec_functions(),
                    model,
                    key,
                    self.spec_functions().len() as int,
                ) {
                    Some(e) => r matches Err(error) && error == e,
                    None => r matches Ok(states) && states@.len() == self.spec_functions().len()
                        && forall|f: int|
                        0 <= f < states@.len() ==> (#[trigger] states@[f])@ == serialized_state(
                            self.spec_functions(),
                            model,
                            key,
                            f,
                        ),
                }
            }),
    {
        let funcs = &self.params.aggregate_functions;
        let offsets_aggregate_states = &self.offsets_aggregate_states;
        let total = groups.arena.len();
        let ghost functions = self.spec_functions();
        let ghost model = self.spec_model(*groups);
        let ghost key = groups.table.spec_entity(slot).spec_state_key();
        proof {
            self.lemma_wf();
            groups.table.lemma_wf();
            lemma_slot_of(groups.table, slot, key);
        }
        let place = StateAddr::new(*groups.table.entity(slot).get_state_value());
        let mut states: Vec<Vec<u8>> = Vec::new();
        let mut idx: usize = 0;
        while idx < funcs.len()
            invariant
                0 <= idx <= funcs@.len(),
                self.spec_wf(),
                self.spec_valid_state(*groups),
                funcs@ == functions,
                functions == self.spec_functions(),
                offsets_aggregate_states@ == self.spec_offsets(),
                model == self.spec_model(*groups),
                groups.arena@.len() == total,
                groups.table.spec_slots().contains(slot),
                key == groups.table.spec_entity(slot).spec_state_key(),
                model.keys.contains(key),
                place.addr == table_value(groups.table, key),
                group_error(functions, model, key, idx as int).is_none(),
                states@.len() == idx,
                forall|f: int|
                    0 <= f < idx ==> (#[trigger] states@[f])@ == serialized_state(
                        functions,
                        model,
                        key,
                        f,
                    ),
            decreases funcs.len() - idx,
        {
            proof {
                self.lemma_wf();
                lemma_state_inside(functions, idx as int);
                lemma_group_error_stays(functions, model, key, idx + 1, functions.len() as int);
                assert(model.states[(key, idx as int)] == self.spec_state(*groups, key, idx as int));
            }
            let arg_place = place.next(offsets_aggregate_states[idx]);
            let mut bytes: Vec<u8> = Vec::new();
            match funcs[idx].serialize(&groups.arena, arg_place, &mut bytes) {
                Err(e) => { return Err(e); },
                Ok(()) => {},
            }
            proof {
                assert(bytes@ =~= serialized_state(functions, model, key, idx as int));
            }
            states.push(bytes);
            idx += 1;
        }
        Ok(states)
    }

    /// Hands the groups out: one block with a row for each group, in the
    /// order of the table. The block has one column of byte strings for each
    /// function, which holds the serialized states, and then the column of
    /// the keys.
    ///
    /// Without groups the result is one block without rows and without
    /// columns. With groups, the aggregation fails with the error of the
    /// first state that cannot be serialized, group by group and function by
    /// function, and with `BadBlock` if `schema` is not a schema of the
    /// columns of the result.
    pub fn aggregate_finalized(&self, groups: &AggregateState<Method::Table>, schema: DataSchema) -> (r:
        Result<Vec<DataBlock>, ErrorCode>)
        requires
            self.spec_valid_state(*groups),
        ensures
            ({
                let model = self.spec_model(*groups);
                if model.keys.len() == 0 {
                    r matches Ok(blocks) && blocks@.len() == 1 && blocks@[0].spec_num_rows() == 0
                        && blocks@[0].spec_columns().len() == 0
                } else {
                    match groups_error(self.spec_functions(), model, model.keys.len() as int) {
                        Some(e) => r matches Err(error) && error == e,
                        None => if !self.spec_result_schema(model, schema) {
                            r matches Err(error) && error == ErrorCode::BadBlock
                        } else {
                            r matches Ok(blocks) && blocks@.len() == 1 && blocks@[0].spec_schema()
                                == schema && blocks@[0].spec_num_rows() == model.keys.len()
                                && self.spec_result_columns(model, blocks@[0].spec_columns())
                        },
                    }
                }
            }),
    {
        proof {
            use_type_invariant(self);
            lemma_table_keys(groups.table);
        }
        let ghost model = self.spec_model(*groups);
        let ghost functions = self.spec_functions();
        let slots = groups.table.slots();
        if slots.len() == 0 {
            let mut blocks: Vec<DataBlock> = Vec::new();
            blocks.push(DataBlock::empty());
            return Ok(blocks);
        }
        let aggr_len = self.params.aggregate_functions.len();
        // Builders.
        let mut state_builders: Vec<Vec<Vec<u8>>> = Vec::new();
        let mut idx: usize = 0;
        while idx < aggr_len
            invariant
                0 <= idx <= aggr_len,
                state_builders@.len() == idx,
                forall|f: int| 0 <= f < idx ==> (#[trigger] state_builders@[f])@.len() == 0,
            decreases aggr_len - idx,
        {
            state_builders.push(Vec::new());
            idx += 1;
        }
        let mut group_keys: Vec<&Method::HashKey> = Vec::new();
        let mut i: usize = 0;
        while i < slots.len()
            invariant
                0 <= i <= slots@.len(),
                self.spec_wf(),
                self.spec_valid_state(*groups),
                slots@ == groups.table.spec_slots(),
                model == self.spec_model(*groups),
                functions == self.spec_functions(),
                aggr_len == functions.len(),
                model.keys.len() == slots@.len(),
                groups_error(functions, model, i as int).is_none(),
                state_builders@.len() == aggr_len,
                forall|f: int| 0 <= f < aggr_len ==> (#[trigger] state_builders@[f])@.len() == i,
                forall|f: int, j: int|
                    0 <= f < aggr_len && 0 <= j < i ==> (#[trigger] state_builders@[f]@[j])@
                        == serialized_state(functions, model, model.keys[j], f),
                group_keys@.len() == i,
                forall|j: int| 0 <= j < i ==> (#[trigger] group_keys@[j])@ == model.keys[j],
            decreases slots.len() - i,
        {
            let slot = slots[i];
            proof {
                assert(groups.table.spec_slots().contains(slot));
                assert(model.keys[i as int] == groups.table.spec_entity(slot).spec_state_key());
                lemma_groups_error_stays(functions, model, i + 1, model.keys.len() as int);
            }
            let mut states = match self.serialize_group(groups, slot) {
                Err(e) => { return Err(e); },
                Ok(states) => states,
            };
            let mut idx: usize = aggr_len;
            while idx > 0
                invariant
                    0 <= idx <= aggr_len,
                    0 <= i < model.keys.len(),
                    states@.len() == idx,
                    state_builders@.len() == aggr_len,
                    forall|f: int|
                        0 <= f < idx ==> (#[trigger] states@[f])@ == serialized_state(
                            functions,
                            model,
                            model.keys[i as int],
                            f,
                        ),
                    forall|f: int|
                        0 <= f < idx ==> (#[trigger] state_builders@[f])@.len() == i,
                    forall|f: int|
                        idx <= f < aggr_len ==> (#[trigger] state_builders@[f])@.len() == i + 1,
                    forall|f: int, j: int|
                        0 <= f < aggr_len && 0 <= j < i ==> (#[trigger] state_builders@[f]@[j])@
                            == serialized_state(functions, model, model.keys[j], f),
                    forall|f: int|
                        idx <= f < aggr_len ==> (#[trigger] state_builders@[f]@[i as int])@
                            == serialized_state(functions, model, model.keys[i as int], f),
                decreases idx,
            {
                idx -= 1;
                let bytes = states.pop().unwrap();
                state_builders[idx].push(bytes);
            }
            group_keys.push(groups.table.entity(slot).get_state_key());
            i += 1;
        }
        let mut columns: Vec<Column> = Vec::new();
        let ghost built = state_builders@;
        let mut idx: usize = 0;
        while idx < aggr_len
            invariant
                0 <= idx <= aggr_len == built.len(),
                state_builders@ == built.subrange(idx as int, aggr_len as int),
                columns@.len() == idx,
                forall|f: int|
                    0 <= f < idx ==> (#[trigger] columns@[f]) == Column::Binary(built[f]),
            decreases aggr_len - idx,
        {
            let builder = state_builders.remove(0);
            columns.push(Column::Binary(builder));
            idx += 1;
            assert(state_builders@ =~= built.subrange(idx as int, aggr_len as int));
        }
        let key_column = self.method.keys_column(&group_keys);
        proof {
            lemma_column_value_type(key_column, 0);
        }
        columns.push(key_column);
        proof {
            let n = aggr_len as int;
            assert forall|f: int| 0 <= f < n implies (#[trigger] columns@[f]).spec_type()
                == DataType::Binary && columns@[f]@.len() == model.keys.len() by {
                assert(columns@[f] == Column::Binary(built[f]));
            }
            assert forall|f: int, i: int|
                0 <= f < n && 0 <= i < model.keys.len() implies #[trigger] columns@[f]@[i]
                == DataValue::Binary(serialized_state(functions, model, model.keys[i], f)) by {
                assert(columns@[f] == Column::Binary(built[f]));
                assert(built[f]@[i]@ == serialized_state(functions, model, model.keys[i], f));
            }
            assert(columns@[n] == key_column);
            assert(key_column@[0] == Method::spec_key_value(group_keys@[0]@));
            assert(key_column.spec_type() == Method::spec_key_value(model.keys[0]).spec_type());
            assert(self.spec_result_columns(model, columns@));
            if self.spec_result_schema(model, schema) {
                assert forall|j: int| 0 <= j < columns@.len() implies (#[trigger] columns@[j])@.len()
                    == slots@.len() && columns@[j].spec_type() == schema.fields@[j].data_type by {
                    if j < n {
                        assert(schema.fields@[j].data_type == DataType::Binary);
                    }
                }
            }
            if block_shape(schema, columns@, slots@.len() as int) {
                assert forall|f: int| 0 <= f < n implies (#[trigger] schema.fields@[f]).data_type
                    == DataType::Binary by {
                    assert(columns@[f].spec_type() == schema.fields@[f].data_type);
                }
                assert(columns@[n].spec_type() == schema.fields@[n].data_type);
            }
        }
        match DataBlock::create(schema, columns, slots.len()) {
            Err(e) => Err(e),
            Ok(block) => {
                let mut blocks: Vec<DataBlock> = Vec::new();
                blocks.push(block);
                Ok(blocks)
            },
        }
    }
}

} // verus!
