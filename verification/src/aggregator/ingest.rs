//! Taking blocks in: finding the state block of every row, and folding the
//! rows into the states.

use crate::arena::{lemma_splice_region, splice, Arena, StateAddr};
use crate::column::{columns_of_rows, row_values, Column, DataBlock, DataValue};
use crate::entity::StateEntity;
use crate::error::ErrorCode;
use crate::function::AggregateFunction;
use crate::layout::{lemma_packed_regions, packed_offset, packed_size};
use crate::method::HashMethod;
use crate::model::{
    brings_new_key, first_state, fold_group, folded_states, folds_error, inits_error,
    lemma_folds_error_stays, lemma_inits_error_stays, lemma_resolve_keys, lemma_rows_error_stays,
    resolve_keys, rows_error, start_state, GroupsModel,
};
use crate::table::{
    lemma_has_slot, lemma_same_keys, lemma_slot_of, lemma_table_keys, table_keys, table_slot,
    GroupHashTable,
};
use super::{
    all_rows_values, block_has_all, blocks_apart, key_views, lemma_state_layouts, named_columns,
    rows_values, state_layouts, AggregateState, Aggregator, KeyOf,
};
use vstd::prelude::*;

verus! {

/// A region of a sequence that stands in a prefix which another sequence
/// shares is the same in both.
pub proof fn lemma_prefix_region(a: Seq<u8>, b: Seq<u8>, shared: int, from: int, to: int)
    requires
        0 <= from <= to <= shared <= a.len(),
        shared <= b.len(),
        forall|i: int| 0 <= i < shared ==> #[trigger] b[i] == a[i],
    ensures
        b.subrange(from, to) == a.subrange(from, to),
{
    assert(b.subrange(from, to) =~= a.subrange(from, to));
}

/// The state of a function lies inside the block of its group.
pub proof fn lemma_state_inside<F: AggregateFunction>(functions: Seq<F>, f: int)
    requires
        0 <= f < functions.len(),
    ensures
        0 <= packed_offset(state_layouts(functions), f),
        packed_offset(state_layouts(functions), f) + functions[f].spec_state_layout().size
            <= packed_size(state_layouts(functions)),
{
    lemma_state_layouts(functions);
    lemma_packed_regions(state_layouts(functions), f, f);
}

/// Where the states of two functions lie if they belong to one group, or to
/// two groups whose blocks do not overlap: inside the block of their group,
/// and apart from each other.
pub proof fn lemma_state_regions<F: AggregateFunction>(
    functions: Seq<F>,
    a: int,
    f: int,
    b: int,
    g: int,
)
    requires
        0 <= f < functions.len(),
        0 <= g < functions.len(),
        (a == b && f != g) || a + packed_size(state_layouts(functions)) <= b || b + packed_size(
            state_layouts(functions),
        ) <= a,
    ensures
        ({
            let layouts = state_layouts(functions);
            let (start, other) = (a + packed_offset(layouts, f), b + packed_offset(layouts, g));
            &&& a <= start
            &&& start + layouts[f].size <= a + packed_size(layouts)
            &&& start + layouts[f].size <= other || other + layouts[g].size <= start
        }),
{
    let layouts = state_layouts(functions);
    lemma_state_layouts(functions);
    if f <= g {
        lemma_packed_regions(layouts, f, g);
        lemma_packed_regions(layouts, f, f);
    } else {
        lemma_packed_regions(layouts, g, f);
        lemma_packed_regions(layouts, g, g);
    }
}

impl<Method: HashMethod, F: AggregateFunction> Aggregator<Method, F> {
    /// The columns of the block that `names` names, or `MissingColumn`.
    pub(super) fn named_columns<'a>(names: &Vec<String>, block: &'a DataBlock) -> (r: Result<
        Vec<&'a Column>,
        ErrorCode,
    >)
        ensures
            r.is_ok() == block_has_all(*block, names@),
            r matches Ok(columns) ==> columns@ == named_columns(block, names@) && columns_of_rows(
                columns@,
                block.spec_num_rows() as int,
            ),
            r matches Err(e) ==> e == ErrorCode::MissingColumn,
    {
        let mut columns: Vec<&'a Column> = Vec::new();
        let mut j: usize = 0;
        while j < names.len()
            invariant
                0 <= j <= names@.len(),
                columns@.len() == j,
                forall|k: int| 0 <= k < j ==> block.spec_has_column(#[trigger] names@[k]@),
                forall|k: int|
                    0 <= k < j ==> *(#[trigger] columns@[k]) == block.spec_column(names@[k]@)
                        && columns@[k]@.len() == block.spec_num_rows(),
            decreases names.len() - j,
        {
            let column = match block.try_column_by_name(&names[j]) {
                Err(e) => { return Err(e); },
                Ok(column) => column,
            };
            columns.push(column);
            j += 1;
        }
        assert(columns@ =~= named_columns(block, names@));
        Ok(columns)
    }

    /// The group columns of the block.
    #[inline(always)]
    pub(super) fn group_columns<'a>(names: &Vec<String>, block: &'a DataBlock) -> (r: Result<
        Vec<&'a Column>,
        ErrorCode,
    >)
        ensures
            r.is_ok() == block_has_all(*block, names@),
            r matches Ok(columns) ==> columns@ == named_columns(block, names@) && columns_of_rows(
                columns@,
                block.spec_num_rows() as int,
            ),
            r matches Err(e) ==> e == ErrorCode::MissingColumn,
    {
        Self::named_columns(names, block)
    }

    /// The argument columns of the block, function by function.
    #[inline(always)]
    pub(super) fn aggregate_arguments_column<'a>(&self, block: &'a DataBlock) -> (r: Result<
        Vec<Vec<&'a Column>>,
        ErrorCode,
    >)
        ensures
            r.is_ok() == (forall|f: int|
                0 <= f < self.spec_functions().len() ==> block_has_all(
                    *block,
                    (#[trigger] self.spec_arg_names()[f])@,
                )),
            r matches Ok(columns) ==> columns@.len() == self.spec_functions().len() && forall|f: int|
                0 <= f < columns@.len() ==> (#[trigger] columns@[f])@ == named_columns(
                    block,
                    self.spec_arg_names()[f]@,
                ) && columns_of_rows(columns@[f]@, block.spec_num_rows() as int),
            r matches Err(e) ==> e == ErrorCode::MissingColumn,
    {
        proof {
            use_type_invariant(self);
        }
        let aggregate_functions_arguments = &self.params.aggregate_functions_arguments_name;
        let mut aggregate_arguments_columns: Vec<Vec<&'a Column>> = Vec::new();
        let mut index: usize = 0;
        while index < aggregate_functions_arguments.len()
            invariant
                0 <= index <= aggregate_functions_arguments@.len(),
                aggregate_functions_arguments@ == self.spec_arg_names(),
                aggregate_functions_arguments@.len() == self.spec_functions().len(),
                aggregate_arguments_columns@.len() == index,
                forall|f: int|
                    0 <= f < index ==> block_has_all(
                        *block,
                        (#[trigger] self.spec_arg_names()[f])@,
                    ),
                forall|f: int|
                    0 <= f < index ==> (#[trigger] aggregate_arguments_columns@[f])@
                        == named_columns(block, self.spec_arg_names()[f]@) && columns_of_rows(
                        aggregate_arguments_columns@[f]@,
                        block.spec_num_rows() as int,
                    ),
            decreases aggregate_functions_arguments.len() - index,
        {
            let function_arguments_column = match Self::named_columns(
                &aggregate_functions_arguments[index],
                block,
            ) {
                Err(e) => {
                    assert(!block_has_all(*block, self.spec_arg_names()[index as int]@));
                    return Err(e);
                },
                Ok(columns) => columns,
            };
            aggregate_arguments_columns.push(function_arguments_column);
            index += 1;
        }
        Ok(aggregate_arguments_columns)
    }

    /// Writes the first state of every function into the block at `place`.
    ///
    /// Fails with the error of the first function that cannot give a first
    /// state. Nothing outside the block changes.
    pub(super) fn init_states(&self, arena: &mut Arena, place: StateAddr) -> (r: Result<(), ErrorCode>)
        requires
            place.addr + self.spec_layout().size <= old(arena)@.len(),
        ensures
            final(arena)@.len() == old(arena)@.len(),
            match inits_error(self.spec_functions()) {
                Some(e) => r == Err::<(), ErrorCode>(e),
                None => {
                    &&& r.is_ok()
                    &&& forall|i: int|
                        0 <= i < old(arena)@.len() && !(place.addr <= i < place.addr
                            + self.spec_layout().size) ==> #[trigger] final(arena)@[i] == old(
                            arena,
                        )@[i]
                    &&& forall|f: int|
                        0 <= f < self.spec_functions().len() ==> #[trigger] self.spec_region(
                            final(arena)@,
                            place.addr as int,
                            f,
                        ) == first_state(self.spec_functions()[f])
                },
            },
    {
        proof {
            use_type_invariant(self);
        }
        let total = arena.len();
        let func = &self.params.aggregate_functions;
        let ghost functions = self.spec_functions();
        let ghost layouts = state_layouts(functions);
        let mut idx: usize = 0;
        while idx < func.len()
            invariant
                0 <= idx <= func@.len(),
                self.spec_wf(),
                func@ == functions,
                functions == self.spec_functions(),
                layouts == state_layouts(functions),
                place.addr + self.spec_layout().size <= old(arena)@.len() <= usize::MAX,
                arena@.len() == old(arena)@.len(),
                forall|i: int|
                    0 <= i < old(arena)@.len() && !(place.addr <= i < place.addr
                        + self.spec_layout().size) ==> #[trigger] arena@[i] == old(arena)@[i],
                inits_error(functions.take(idx as int)).is_none(),
                forall|f: int|
                    0 <= f < idx ==> #[trigger] self.spec_region(arena@, place.addr as int, f)
                        == first_state(functions[f]),
            decreases func.len() - idx,
        {
            let ghost before = arena@;
            proof {
                assert(functions.take(idx + 1).drop_last() =~= functions.take(idx as int));
                lemma_inits_error_stays(functions, idx + 1);
                lemma_state_inside(functions, idx as int);
                functions[idx as int].lemma_state(Seq::empty(), Seq::empty());
                assert(self.offsets_aggregate_states@[idx as int] == packed_offset(
                    layouts,
                    idx as int,
                ));
            }
            let aggr_state = self.offsets_aggregate_states[idx];
            let aggr_state_place = place.next(aggr_state);
            match func[idx].init_state(arena, aggr_state_place) {
                Err(e) => { return Err(e); },
                Ok(()) => {},
            }
            proof {
                let first = functions[idx as int].spec_init().unwrap();
                lemma_splice_region(before, aggr_state_place.addr as int, first);
                assert forall|f: int| 0 <= f < idx + 1 implies #[trigger] self.spec_region(
                    arena@,
                    place.addr as int,
                    f,
                ) == first_state(functions[f]) by {
                    if f < idx {
                        lemma_state_regions(
                            functions,
                            place.addr as int,
                            f,
                            place.addr as int,
                            idx as int,
                        );
                        assert(self.spec_region(arena@, place.addr as int, f) == self.spec_region(
                            before,
                            place.addr as int,
                            f,
                        ));
                    }
                }
            }
            idx += 1;
        }
        proof {
            assert(functions.take(functions.len() as int) =~= functions);
        }
        Ok(())
    }

    /// Finds the state block of the group of `group_key`, making the group
    /// and its first states if the key is new.
    pub(super) fn resolve_place(&self, groups: &mut AggregateState<Method::Table>, group_key: &Method::HashKey) -> (r:
        Result<(StateAddr, Ghost<usize>), ErrorCode>)
        requires
            self.spec_valid_state(*old(groups)),
            old(groups).arena@.len() + self.spec_layout().size + self.spec_layout().align
                < usize::MAX,
        ensures
            ({
                let before = *old(groups);
                let after = *final(groups);
                let was_new = !table_keys(before.table).contains(group_key@);
                if was_new && inits_error(self.spec_functions()).is_some() {
                    r matches Err(e) && Some(e) == inits_error(self.spec_functions())
                } else {
                    &&& r matches Ok((place, slot))
                    &&& self.spec_valid_state(after)
                    &&& table_keys(after.table) == if was_new {
                        Method::Table::spec_insert(table_keys(before.table), group_key@)
                    } else {
                        table_keys(before.table)
                    }
                    &&& after.table.spec_slots().contains(slot@)
                    &&& after.table.spec_entity(slot@).spec_state_key() == group_key@
                    &&& after.table.spec_entity(slot@).spec_state_value() == place.addr
                    &&& was_new == !before.table.spec_slots().contains(slot@)
                    &&& forall|s: usize| #[trigger]
                        before.table.spec_slots().contains(s) ==> after.table.spec_slots().contains(s)
                            && after.table.spec_entity(s) == before.table.spec_entity(s)
                    &&& forall|s: usize| #[trigger]
                        after.table.spec_slots().contains(s) ==> before.table.spec_slots().contains(s)
                            || s == slot@
                    &&& before.arena@.len() <= after.arena@.len() <= before.arena@.len()
                        + self.spec_layout().size + self.spec_layout().align
                    &&& forall|i: int|
                        0 <= i < before.arena@.len() ==> #[trigger] after.arena@[i]
                            == before.arena@[i]
                    &&& (!was_new || self.spec_functions().len() == 0) ==> after.arena@
                        == before.arena@
                    &&& was_new ==> forall|f: int|
                        0 <= f < self.spec_functions().len() ==> #[trigger] self.spec_region(
                            after.arena@,
                            place.addr as int,
                            f,
                        ) == first_state(self.spec_functions()[f])
                }
            }),
    {
        proof {
            use_type_invariant(self);
            lemma_table_keys(old(groups).table);
            old(groups).table.lemma_wf();
            lemma_state_layouts(self.spec_functions());
        }
        let aggr_len = self.params.aggregate_functions.len();
        let (slot, inserted) = groups.table.insert_or_get(group_key);
        let ghost taken = groups.table;
        proof {
            lemma_table_keys(taken);
            taken.lemma_wf();
        }
        if !inserted {
            let place = StateAddr::new(*groups.table.entity(slot).get_state_value());
            proof {
                assert forall|s: usize| #[trigger] taken.spec_slots().contains(s) implies taken.spec_entity(
                    s,
                ) == old(groups).table.spec_entity(s) by {}
                lemma_same_keys(taken, old(groups).table);
            }
            return Ok((place, Ghost(slot)));
        }
        let place = if aggr_len == 0 {
            groups.table.set_value(slot, 0);
            StateAddr::null()
        } else {
            let place = groups.arena.alloc_layout(self.layout);
            match self.init_states(&mut groups.arena, place) {
                Err(e) => { return Err(e); },
                Ok(()) => {},
            }
            groups.table.set_value(slot, place.addr());
            place
        };
        proof {
            let table = groups.table;
            table.lemma_wf();
            assert forall|s: usize| #[trigger] table.spec_slots().contains(s) implies table.spec_entity(
                s,
            ).spec_state_key() == taken.spec_entity(s).spec_state_key() by {}
            lemma_same_keys(table, taken);
            assert forall|s: usize| #[trigger]
                old(groups).table.spec_slots().contains(s) implies table.spec_slots().contains(s)
                && table.spec_entity(s) == old(groups).table.spec_entity(s) by {
                assert(taken.spec_slots().contains(s));
            }
            if aggr_len > 0 {
                assert forall|s: usize| #[trigger] table.spec_slots().contains(s) implies table.spec_entity(
                    s,
                ).spec_state_value() + self.spec_layout().size <= groups.arena@.len() by {
                    if s != slot {
                        assert(old(groups).table.spec_slots().contains(s));
                    }
                }
                assert forall|s: usize, t: usize|
                    #![trigger table.spec_entity(s), table.spec_entity(t)]
                    table.spec_slots().contains(s) && table.spec_slots().contains(t) && s
                        != t implies blocks_apart(
                    table.spec_entity(s).spec_state_value() as int,
                    table.spec_entity(t).spec_state_value() as int,
                    self.spec_layout().size as int,
                ) by {
                    if s != slot {
                        assert(old(groups).table.spec_slots().contains(s));
                    }
                    if t != slot {
                        assert(old(groups).table.spec_slots().contains(t));
                    }
                    if s != slot && t != slot {
                        let (a, b) = (
                            old(groups).table.spec_entity(s),
                            old(groups).table.spec_entity(t),
                        );
                    }
                }
            }
        }
        Ok((place, Ghost(slot)))
    }

    /// Finds the state block of the group of each row, in the order of the
    /// rows, making the groups that are new.
    pub(super) fn resolve_places(&self, groups: &mut AggregateState<Method::Table>, group_keys: &Vec<Method::HashKey>) -> (r:
        Result<(Vec<StateAddr>, Ghost<Seq<usize>>), ErrorCode>)
        requires
            self.spec_wf(),
            self.spec_valid_state(*old(groups)),
            old(groups).arena@.len() + group_keys@.len() * (self.spec_layout().size
                + self.spec_layout().align) < usize::MAX,
        ensures
            ({
                let before = *old(groups);
                let after = *final(groups);
                let row_keys = key_views(group_keys@);
                if brings_new_key(table_keys(before.table), row_keys) && inits_error(
                    self.spec_functions(),
                ).is_some() {
                    r matches Err(e) && Some(e) == inits_error(self.spec_functions())
                } else {
                    &&& r matches Ok((places, slots))
                    &&& self.spec_valid_state(after)
                    &&& table_keys(after.table) == resolve_keys::<Method::Table>(
                        table_keys(before.table),
                        row_keys,
                    )
                    &&& places@.len() == row_keys.len()
                    &&& slots@.len() == row_keys.len()
                    &&& forall|i: int|
                        0 <= i < row_keys.len() ==> after.table.spec_slots().contains(
                            #[trigger] slots@[i],
                        ) && after.table.spec_entity(slots@[i]).spec_state_key() == row_keys[i]
                            && after.table.spec_entity(slots@[i]).spec_state_value()
                            == places@[i].addr
                    &&& forall|s: usize| #[trigger]
                        before.table.spec_slots().contains(s) ==> after.table.spec_slots().contains(s)
                            && after.table.spec_entity(s) == before.table.spec_entity(s)
                    &&& before.arena@.len() <= after.arena@.len() <= before.arena@.len()
                        + row_keys.len() * (self.spec_layout().size + self.spec_layout().align)
                    &&& forall|i: int|
                        0 <= i < before.arena@.len() ==> #[trigger] after.arena@[i]
                            == before.arena@[i]
                    &&& self.spec_functions().len() == 0 ==> after.arena@ == before.arena@
                    &&& forall|s: usize, f: int|
                        after.table.spec_slots().contains(s) && !before.table.spec_slots().contains(s)
                            && 0 <= f < self.spec_functions().len() ==> #[trigger] self.spec_region(
                            after.arena@,
                            after.table.spec_entity(s).spec_state_value() as int,
                            f,
                        ) == first_state(self.spec_functions()[f])
                }
            }),
    {
        let rows = group_keys.len();
        let ghost before = *groups;
        let ghost row_keys = key_views(group_keys@);
        let ghost keys = table_keys(before.table);
        let ghost unit = self.spec_layout().size + self.spec_layout().align;
        let mut places: Vec<StateAddr> = Vec::new();
        let ghost mut slots: Seq<usize> = Seq::empty();
        proof {
            lemma_table_keys(before.table);
            assert(row_keys.take(0) =~= Seq::empty());
        }
        let mut i: usize = 0;
        while i < rows
            invariant
                0 <= i <= rows == group_keys@.len(),
                self.spec_wf(),
                before == *old(groups),
                row_keys == key_views(group_keys@),
                keys == table_keys(before.table),
                keys.no_duplicates(),
                unit == self.spec_layout().size + self.spec_layout().align,
                self.spec_valid_state(*groups),
                self.spec_valid_state(before),
                table_keys(groups.table) == resolve_keys::<Method::Table>(
                    keys,
                    row_keys.take(i as int),
                ),
                places@.len() == i,
                slots.len() == i,
                forall|j: int|
                    0 <= j < i ==> groups.table.spec_slots().contains(#[trigger] slots[j])
                        && groups.table.spec_entity(slots[j]).spec_state_key() == row_keys[j]
                        && groups.table.spec_entity(slots[j]).spec_state_value()
                        == places@[j].addr,
                forall|s: usize| #[trigger]
                    before.table.spec_slots().contains(s) ==> groups.table.spec_slots().contains(s)
                        && groups.table.spec_entity(s) == before.table.spec_entity(s),
                before.arena@.len() <= groups.arena@.len(),
                forall|k: int|
                    0 <= k < before.arena@.len() ==> #[trigger] groups.arena@[k]
                        == before.arena@[k],
                self.spec_functions().len() == 0 ==> groups.arena@ == before.arena@,
                forall|s: usize, f: int|
                    groups.table.spec_slots().contains(s) && !before.table.spec_slots().contains(s)
                        && 0 <= f < self.spec_functions().len() ==> #[trigger] self.spec_region(
                        groups.arena@,
                        groups.table.spec_entity(s).spec_state_value() as int,
                        f,
                    ) == first_state(self.spec_functions()[f]),
                groups.arena@.len() + (rows - i) * unit < usize::MAX,
                groups.arena@.len() <= before.arena@.len() + i * unit,
                brings_new_key(keys, row_keys.take(i as int)) ==> inits_error(
                    self.spec_functions(),
                ).is_none(),
            decreases rows - i,
        {
            let ghost stepped = *groups;
            let ghost taken = row_keys.take(i as int);
            let ghost next = row_keys.take(i + 1);
            proof {
                assert(next.drop_last() =~= taken);
                assert(next.last() == group_keys@[i as int]@);
                lemma_resolve_keys::<Method::Table>(keys, taken);
                lemma_resolve_keys::<Method::Table>(keys, next);
                assert((rows - i) * unit == (rows - i - 1) * unit + unit) by (nonlinear_arith);
                assert((i + 1) * unit == i * unit + unit) by (nonlinear_arith);
                assert((rows - i - 1) * unit >= 0) by (nonlinear_arith)
                    requires
                        rows - i - 1 >= 0,
                        unit >= 0,
                ;
                if !table_keys(stepped.table).contains(group_keys@[i as int]@) {
                    if taken.contains(group_keys@[i as int]@) {
                        assert(false);
                    }
                    assert(!keys.contains(next[i as int]));
                    assert(brings_new_key(keys, next));
                    assert(row_keys[i as int] == next[i as int]);
                    assert(brings_new_key(keys, row_keys));
                }
            }
            let (place, slot) = match self.resolve_place(groups, &group_keys[i]) {
                Err(e) => { return Err(e); },
                Ok(found) => found,
            };
            places.push(place);
            proof {
                slots = slots.push(slot@);
                lemma_state_layouts(self.spec_functions());
                assert forall|j: int| 0 <= j < i + 1 implies groups.table.spec_slots().contains(
                    #[trigger] slots[j],
                ) && groups.table.spec_entity(slots[j]).spec_state_key() == row_keys[j]
                    && groups.table.spec_entity(slots[j]).spec_state_value()
                    == places@[j].addr by {
                    if j < i {
                        assert(stepped.table.spec_slots().contains(slots[j]));
                    }
                }
                assert forall|s: usize| #[trigger]
                    before.table.spec_slots().contains(s) implies groups.table.spec_slots().contains(
                    s,
                ) && groups.table.spec_entity(s) == before.table.spec_entity(s) by {
                    assert(stepped.table.spec_slots().contains(s));
                }
                assert forall|s: usize, f: int|
                    groups.table.spec_slots().contains(s) && !before.table.spec_slots().contains(s)
                        && 0 <= f < self.spec_functions().len() implies #[trigger] self.spec_region(
                    groups.arena@,
                    groups.table.spec_entity(s).spec_state_value() as int,
                    f,
                ) == first_state(self.spec_functions()[f]) by {
                    if stepped.table.spec_slots().contains(s) {
                        let addr = stepped.table.spec_entity(s).spec_state_value() as int;
                        self.lemma_wf();
                        lemma_state_inside(self.spec_functions(), f);
                        assert(groups.table.spec_entity(s) == stepped.table.spec_entity(s));
                        assert(addr + self.spec_layout().size <= stepped.arena@.len());
                        assert(self.spec_offsets()[f] == packed_offset(
                            state_layouts(self.spec_functions()),
                            f,
                        ));
                        assert(self.spec_region(stepped.arena@, addr, f) == first_state(
                            self.spec_functions()[f],
                        ));
                        lemma_prefix_region(
                            stepped.arena@,
                            groups.arena@,
                            stepped.arena@.len() as int,
                            addr + self.spec_offsets()[f],
                            addr + self.spec_offsets()[f]
                                + self.spec_functions()[f].spec_state_layout().size,
                        );
                    } else {
                        assert(s == slot@);
                        assert(groups.table.spec_entity(s).spec_state_value() == place.addr);
                    }
                }
                if brings_new_key(keys, next) && !brings_new_key(keys, taken) {
                    let w = choose|w: int| 0 <= w < next.len() && !keys.contains(#[trigger] next[w]);
                    if w < i {
                        assert(taken[w] == next[w]);
                    }
                }
            }
            i += 1;
        }
        proof {
            assert(row_keys.take(rows as int) =~= row_keys);
        }
        Ok((places, Ghost(slots)))
    }

    /// Writing the state of function `f` in the block at `a` leaves the
    /// state of function `g` in the block at `b` as it was, where the two
    /// are not the same state.
    pub(super) proof fn lemma_write_apart(
        &self,
        before: Seq<u8>,
        a: int,
        f: int,
        data: Seq<u8>,
        b: int,
        g: int,
    )
        requires
            self.spec_wf(),
            0 <= f < self.spec_functions().len(),
            0 <= g < self.spec_functions().len(),
            data.len() == self.spec_functions()[f].spec_state_layout().size,
            0 <= a,
            0 <= b,
            a + self.spec_layout().size <= before.len(),
            b + self.spec_layout().size <= before.len(),
            (a == b && f != g) || blocks_apart(a, b, self.spec_layout().size as int),
        ensures
            self.spec_region(splice(before, a + self.spec_offsets()[f], data), b, g)
                == self.spec_region(before, b, g),
    {
        self.lemma_wf();
        let functions = self.spec_functions();
        lemma_state_regions(functions, a, f, b, g);
        lemma_state_inside(functions, f);
        lemma_state_inside(functions, g);
        lemma_splice_region(before, a + self.spec_offsets()[f], data);
    }

    /// A state that was written is the state that is read.
    pub(super) proof fn lemma_write_own(&self, before: Seq<u8>, a: int, f: int, data: Seq<u8>)
        requires
            self.spec_wf(),
            0 <= f < self.spec_functions().len(),
            data.len() == self.spec_functions()[f].spec_state_layout().size,
            0 <= a,
            a + self.spec_layout().size <= before.len(),
        ensures
            self.spec_region(splice(before, a + self.spec_offsets()[f], data), a, f) == data,
    {
        self.lemma_wf();
        lemma_state_inside(self.spec_functions(), f);
        lemma_splice_region(before, a + self.spec_offsets()[f], data);
    }

    /// Folds the rows of a block into the states of function `idx`: row `i`
    /// into the state of the group whose block is at `places[i]`.
    ///
    /// Fails with the error of the first row that the function cannot fold.
    /// The states of the other functions stay as they were.
    pub(super) fn accumulate_keys(
        &self,
        idx: usize,
        groups: &mut AggregateState<Method::Table>,
        places: &Vec<StateAddr>,
        args: &Vec<&Column>,
        rows: usize,
        Ghost(slots): Ghost<Seq<usize>>,
        Ghost(row_keys): Ghost<Seq<KeyOf<Method>>>,
        Ghost(start): Ghost<spec_fn(KeyOf<Method>) -> Seq<u8>>,
    ) -> (r: Result<(), ErrorCode>)
        requires
            self.spec_wf(),
            idx < self.spec_functions().len(),
            self.spec_valid_state(*old(groups)),
            places@.len() == rows,
            slots.len() == rows,
            row_keys.len() == rows,
            columns_of_rows(args@, rows as int),
            forall|i: int|
                0 <= i < rows ==> old(groups).table.spec_slots().contains(#[trigger] slots[i])
                    && old(groups).table.spec_entity(slots[i]).spec_state_key() == row_keys[i]
                    && old(groups).table.spec_entity(slots[i]).spec_state_value()
                    == places@[i].addr,
            forall|s: usize| #[trigger]
                old(groups).table.spec_slots().contains(s) ==> self.spec_region(
                    old(groups).arena@,
                    old(groups).table.spec_entity(s).spec_state_value() as int,
                    idx as int,
                ) == start(old(groups).table.spec_entity(s).spec_state_key()),
        ensures
            final(groups).table == old(groups).table,
            final(groups).arena@.len() == old(groups).arena@.len(),
            match rows_error(
                self.spec_functions()[idx as int],
                start,
                row_keys,
                rows_values(args@, rows as int),
            ) {
                Some(e) => r == Err::<(), ErrorCode>(e),
                None => {
                    let before = *old(groups);
                    let after = *final(groups);
                    &&& r.is_ok()
                    &&& self.spec_valid_state(after)
                    &&& forall|s: usize| #[trigger]
                        after.table.spec_slots().contains(s) ==> self.spec_region(
                            after.arena@,
                            after.table.spec_entity(s).spec_state_value() as int,
                            idx as int,
                        ) == fold_group(
                            self.spec_functions()[idx as int],
                            start(after.table.spec_entity(s).spec_state_key()),
                            row_keys,
                            rows_values(args@, rows as int),
                            after.table.spec_entity(s).spec_state_key(),
                        )
                    &&& forall|s: usize, g: int|
                        after.table.spec_slots().contains(s) && 0 <= g < self.spec_functions().len()
                            && g != idx ==> #[trigger] self.spec_region(
                            after.arena@,
                            after.table.spec_entity(s).spec_state_value() as int,
                            g,
                        ) == self.spec_region(
                            before.arena@,
                            before.table.spec_entity(s).spec_state_value() as int,
                            g,
                        )
                },
            },
    {
        proof {
            use_type_invariant(self);
        }
        let total = groups.arena.len();
        let func = &self.params.aggregate_functions[idx];
        let offset = self.offsets_aggregate_states[idx];
        let ghost before = *groups;
        let ghost table = groups.table;
        let ghost function = self.spec_functions()[idx as int];
        let ghost row_args = rows_values(args@, rows as int);
        let ghost size = self.spec_layout().size as int;
        proof {
            assert(row_keys.take(0) =~= Seq::empty());
            assert(row_args.take(0) =~= Seq::empty());
        }
        let mut i: usize = 0;
        while i < rows
            invariant
                0 <= i <= rows,
                self.spec_wf(),
                idx < self.spec_functions().len(),
                function == self.spec_functions()[idx as int],
                *func == function,
                offset == self.spec_offsets()[idx as int],
                before == *old(groups),
                table == before.table,
                groups.table == table,
                size == self.spec_layout().size,
                row_args == rows_values(args@, rows as int),
                self.spec_valid_state(before),
                groups.arena@.len() == before.arena@.len() == total,
                places@.len() == rows,
                slots.len() == rows,
                row_keys.len() == rows,
                columns_of_rows(args@, rows as int),
                forall|j: int|
                    0 <= j < rows ==> table.spec_slots().contains(#[trigger] slots[j])
                        && table.spec_entity(slots[j]).spec_state_key() == row_keys[j]
                        && table.spec_entity(slots[j]).spec_state_value() == places@[j].addr,
                rows_error(function, start, row_keys.take(i as int), row_args.take(i as int)).is_none(),
                forall|s: usize| #[trigger]
                    table.spec_slots().contains(s) ==> self.spec_region(
                        groups.arena@,
                        table.spec_entity(s).spec_state_value() as int,
                        idx as int,
                    ) == fold_group(
                        function,
                        start(table.spec_entity(s).spec_state_key()),
                        row_keys.take(i as int),
                        row_args.take(i as int),
                        table.spec_entity(s).spec_state_key(),
                    ),
                forall|s: usize, g: int|
                    table.spec_slots().contains(s) && 0 <= g < self.spec_functions().len() && g
                        != idx ==> #[trigger] self.spec_region(
                        groups.arena@,
                        table.spec_entity(s).spec_state_value() as int,
                        g,
                    ) == self.spec_region(
                        before.arena@,
                        table.spec_entity(s).spec_state_value() as int,
                        g,
                    ),
            decreases rows - i,
        {
            let ghost stepped = groups.arena@;
            let ghost slot = slots[i as int];
            let ghost key = row_keys[i as int];
            let ghost addr = places@[i as int].addr as int;
            let ghost held = self.spec_region(stepped, addr, idx as int);
            proof {
                self.lemma_wf();
                table.lemma_wf();
                lemma_state_inside(self.spec_functions(), idx as int);
                assert(table.spec_slots().contains(slot));
                assert(row_keys.take(i + 1).drop_last() =~= row_keys.take(i as int));
                assert(row_args.take(i + 1).drop_last() =~= row_args.take(i as int));
                assert(row_args.take(i + 1).last() == row_values(args@, i as int));
                lemma_rows_error_stays(function, start, row_keys, row_args, i + 1);
                function.lemma_state(held, row_values(args@, i as int));
            }
            let place = places[i].next(offset);
            match func.accumulate_row(&mut groups.arena, place, args, i) {
                Err(e) => { return Err(e); },
                Ok(()) => {},
            }
            proof {
                let next = function.spec_accumulate(held, row_values(args@, i as int)).unwrap();
                assert forall|s: usize| #[trigger] table.spec_slots().contains(s) implies self.spec_region(
                    groups.arena@,
                    table.spec_entity(s).spec_state_value() as int,
                    idx as int,
                ) == fold_group(
                    function,
                    start(table.spec_entity(s).spec_state_key()),
                    row_keys.take(i + 1),
                    row_args.take(i + 1),
                    table.spec_entity(s).spec_state_key(),
                ) by {
                    let at = table.spec_entity(s).spec_state_value() as int;
                    if s == slot {
                        self.lemma_write_own(stepped, addr, idx as int, next);
                    } else {
                        let (a, b) = (table.spec_entity(s), table.spec_entity(slot));
                        assert(table.spec_entity(s).spec_state_key() != key);
                        self.lemma_write_apart(stepped, addr, idx as int, next, at, idx as int);
                    }
                }
                assert forall|s: usize, g: int|
                    table.spec_slots().contains(s) && 0 <= g < self.spec_functions().len() && g
                        != idx implies #[trigger] self.spec_region(
                    groups.arena@,
                    table.spec_entity(s).spec_state_value() as int,
                    g,
                ) == self.spec_region(
                    before.arena@,
                    table.spec_entity(s).spec_state_value() as int,
                    g,
                ) by {
                    let at = table.spec_entity(s).spec_state_value() as int;
                    if s != slot {
                        let (a, b) = (table.spec_entity(s), table.spec_entity(slot));
                    }
                    self.lemma_write_apart(stepped, addr, idx as int, next, at, g);
                }
            }
            i += 1;
        }
        proof {
            assert(row_keys.take(rows as int) =~= row_keys);
            assert(row_args.take(rows as int) =~= row_args);
        }
        Ok(())
    }

    /// Folds the rows of a block into the states, one function after the
    /// other.
    ///
    /// Fails with the error of the first row that its function cannot fold.
    pub(super) fn accumulate_all(
        &self,
        groups: &mut AggregateState<Method::Table>,
        places: &Vec<StateAddr>,
        columns: &Vec<Vec<&Column>>,
        rows: usize,
        Ghost(slots): Ghost<Seq<usize>>,
        Ghost(row_keys): Ghost<Seq<KeyOf<Method>>>,
        Ghost(model): Ghost<GroupsModel<KeyOf<Method>>>,
    ) -> (r: Result<(), ErrorCode>)
        requires
            self.spec_wf(),
            self.spec_valid_state(*old(groups)),
            places@.len() == rows,
            slots.len() == rows,
            row_keys.len() == rows,
            columns@.len() == self.spec_functions().len(),
            forall|f: int|
                0 <= f < columns@.len() ==> columns_of_rows(
                    (#[trigger] columns@[f])@,
                    rows as int,
                ),
            forall|i: int|
                0 <= i < rows ==> old(groups).table.spec_slots().contains(#[trigger] slots[i])
                    && old(groups).table.spec_entity(slots[i]).spec_state_key() == row_keys[i]
                    && old(groups).table.spec_entity(slots[i]).spec_state_value()
                    == places@[i].addr,
            forall|s: usize, f: int|
                old(groups).table.spec_slots().contains(s) && 0 <= f < self.spec_functions().len()
                    ==> #[trigger] self.spec_region(
                    old(groups).arena@,
                    old(groups).table.spec_entity(s).spec_state_value() as int,
                    f,
                ) == start_state(
                    self.spec_functions(),
                    model,
                    old(groups).table.spec_entity(s).spec_state_key(),
                    f,
                ),
        ensures
            final(groups).table == old(groups).table,
            final(groups).arena@.len() == old(groups).arena@.len(),
            match folds_error(
                self.spec_functions(),
                model,
                row_keys,
                all_rows_values(columns@, rows as int),
                self.spec_functions().len() as int,
            ) {
                Some(e) => r == Err::<(), ErrorCode>(e),
                None => {
                    let after = *final(groups);
                    &&& r.is_ok()
                    &&& self.spec_valid_state(after)
                    &&& forall|s: usize, f: int|
                        after.table.spec_slots().contains(s) && 0 <= f < self.spec_functions().len()
                            ==> #[trigger] self.spec_region(
                            after.arena@,
                            after.table.spec_entity(s).spec_state_value() as int,
                            f,
                        ) == fold_group(
                            self.spec_functions()[f],
                            start_state(
                                self.spec_functions(),
                                model,
                                after.table.spec_entity(s).spec_state_key(),
                                f,
                            ),
                            row_keys,
                            all_rows_values(columns@, rows as int)[f],
                            after.table.spec_entity(s).spec_state_key(),
                        )
                },
            },
    {
        let aggr_len = self.params.aggregate_functions.len();
        let ghost before = *groups;
        let ghost table = groups.table;
        let ghost functions = self.spec_functions();
        let ghost all_args = all_rows_values(columns@, rows as int);
        let mut idx: usize = 0;
        while idx < aggr_len
            invariant
                0 <= idx <= aggr_len == functions.len(),
                self.spec_wf(),
                functions == self.spec_functions(),
                all_args == all_rows_values(columns@, rows as int),
                before == *old(groups),
                table == before.table,
                groups.table == table,
                groups.arena@.len() == before.arena@.len(),
                self.spec_valid_state(*groups),
                places@.len() == rows,
                slots.len() == rows,
                row_keys.len() == rows,
                columns@.len() == functions.len(),
                forall|f: int|
                    0 <= f < columns@.len() ==> columns_of_rows(
                        (#[trigger] columns@[f])@,
                        rows as int,
                    ),
                forall|i: int|
                    0 <= i < rows ==> table.spec_slots().contains(#[trigger] slots[i])
                        && table.spec_entity(slots[i]).spec_state_key() == row_keys[i]
                        && table.spec_entity(slots[i]).spec_state_value() == places@[i].addr,
                folds_error(functions, model, row_keys, all_args, idx as int).is_none(),
                forall|s: usize, f: int|
                    table.spec_slots().contains(s) && 0 <= f < idx ==> #[trigger] self.spec_region(
                        groups.arena@,
                        table.spec_entity(s).spec_state_value() as int,
                        f,
                    ) == fold_group(
                        functions[f],
                        start_state(functions, model, table.spec_entity(s).spec_state_key(), f),
                        row_keys,
                        all_args[f],
                        table.spec_entity(s).spec_state_key(),
                    ),
                forall|s: usize, f: int|
                    table.spec_slots().contains(s) && idx <= f < functions.len()
                        ==> #[trigger] self.spec_region(
                        groups.arena@,
                        table.spec_entity(s).spec_state_value() as int,
                        f,
                    ) == start_state(functions, model, table.spec_entity(s).spec_state_key(), f),
            decreases aggr_len - idx,
        {
            let ghost stepped = *groups;
            let ghost start = |k: KeyOf<Method>| start_state(functions, model, k, idx as int);
            proof {
                lemma_folds_error_stays(
                    functions,
                    model,
                    row_keys,
                    all_args,
                    idx + 1,
                    functions.len() as int,
                );
            }
            match self.accumulate_keys(
                idx,
                groups,
                places,
                &columns[idx],
                rows,
                Ghost(slots),
                Ghost(row_keys),
                Ghost(start),
            ) {
                Err(e) => { return Err(e); },
                Ok(()) => {},
            }
            idx += 1;
        }
        Ok(())
    }

    /// After the keys of a block are taken in, every state is the state with
    /// which its function meets its group in the block.
    pub(super) proof fn lemma_resolved(
        &self,
        before: AggregateState<Method::Table>,
        resolved: AggregateState<Method::Table>,
    )
        requires
            self.spec_wf(),
            self.spec_valid_state(before),
            self.spec_valid_state(resolved),
            forall|s: usize| #[trigger]
                before.table.spec_slots().contains(s) ==> resolved.table.spec_slots().contains(s)
                    && resolved.table.spec_entity(s) == before.table.spec_entity(s),
            before.arena@.len() <= resolved.arena@.len(),
            forall|i: int|
                0 <= i < before.arena@.len() ==> #[trigger] resolved.arena@[i] == before.arena@[i],
            forall|s: usize, f: int|
                resolved.table.spec_slots().contains(s) && !before.table.spec_slots().contains(s)
                    && 0 <= f < self.spec_functions().len() ==> #[trigger] self.spec_region(
                    resolved.arena@,
                    resolved.table.spec_entity(s).spec_state_value() as int,
                    f,
                ) == first_state(self.spec_functions()[f]),
        ensures
            forall|s: usize, f: int|
                resolved.table.spec_slots().contains(s) && 0 <= f < self.spec_functions().len()
                    ==> #[trigger] self.spec_region(
                    resolved.arena@,
                    resolved.table.spec_entity(s).spec_state_value() as int,
                    f,
                ) == start_state(
                    self.spec_functions(),
                    self.spec_model(before),
                    resolved.table.spec_entity(s).spec_state_key(),
                    f,
                ),
    {
        let model = self.spec_model(before);
        self.lemma_wf();
        lemma_table_keys(before.table);
        lemma_table_keys(resolved.table);
        resolved.table.lemma_wf();
        assert forall|s: usize, f: int|
            resolved.table.spec_slots().contains(s) && 0 <= f
                < self.spec_functions().len() implies #[trigger] self.spec_region(
            resolved.arena@,
            resolved.table.spec_entity(s).spec_state_value() as int,
            f,
        ) == start_state(
            self.spec_functions(),
            model,
            resolved.table.spec_entity(s).spec_state_key(),
            f,
        ) by {
            let key = resolved.table.spec_entity(s).spec_state_key();
            let addr = resolved.table.spec_entity(s).spec_state_value() as int;
            if before.table.spec_slots().contains(s) {
                lemma_slot_of(before.table, s, key);
                lemma_state_inside(self.spec_functions(), f);
                lemma_prefix_region(
                    before.arena@,
                    resolved.arena@,
                    before.arena@.len() as int,
                    addr + self.spec_offsets()[f],
                    addr + self.spec_offsets()[f]
                        + self.spec_functions()[f].spec_state_layout().size,
                );
                assert(model.states[(key, f)] == self.spec_state(before, key, f));
            } else {
                if model.keys.contains(key) {
                    lemma_has_slot(before.table, key);
                    let held = table_slot(before.table, key);
                    assert(resolved.table.spec_slots().contains(held));
                    let (a, b) = (resolved.table.spec_entity(held), resolved.table.spec_entity(s));
                    assert(false);
                }
            }
        }
    }

    /// After the rows of a block are folded, the groups are the groups that
    /// the block makes of the groups before it.
    pub(super) proof fn lemma_folded(
        &self,
        after: AggregateState<Method::Table>,
        model: GroupsModel<KeyOf<Method>>,
        row_keys: Seq<KeyOf<Method>>,
        all_args: Seq<Seq<Seq<DataValue>>>,
    )
        requires
            self.spec_wf(),
            self.spec_valid_state(after),
            forall|s: usize, f: int|
                after.table.spec_slots().contains(s) && 0 <= f < self.spec_functions().len()
                    ==> #[trigger] self.spec_region(
                    after.arena@,
                    after.table.spec_entity(s).spec_state_value() as int,
                    f,
                ) == fold_group(
                    self.spec_functions()[f],
                    start_state(
                        self.spec_functions(),
                        model,
                        after.table.spec_entity(s).spec_state_key(),
                        f,
                    ),
                    row_keys,
                    all_args[f],
                    after.table.spec_entity(s).spec_state_key(),
                ),
        ensures
            self.spec_model(after) == (GroupsModel {
                keys: table_keys(after.table),
                states: folded_states(
                    self.spec_functions(),
                    model,
                    table_keys(after.table),
                    row_keys,
                    all_args,
                ),
            }),
    {
        let keys = table_keys(after.table);
        let folded = folded_states(self.spec_functions(), model, keys, row_keys, all_args);
        lemma_table_keys(after.table);
        assert forall|at: (KeyOf<Method>, int)| #[trigger]
            folded.dom().contains(at) implies self.spec_model(after).states[at] == folded[at] by {
            lemma_has_slot(after.table, at.0);
            let s = table_slot(after.table, at.0);
            assert(self.spec_state(after, at.0, at.1) == self.spec_region(
                after.arena@,
                after.table.spec_entity(s).spec_state_value() as int,
                at.1,
            ));
        }
        assert(self.spec_model(after).states =~= folded);
    }
}

} // verus!
