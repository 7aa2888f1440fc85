//! Aggregate functions: what the aggregation asks of one, and the built-in
//! ones.
//!
//! The aggregation owns the memory of the states and decides where each state
//! lies. What a state holds, how a row changes it and what its serialized
//! form is belongs to the function.

use crate::arena::{splice, Arena, StateAddr};
use crate::column::{row_values, Column, DataType, DataValue};
use crate::error::ErrorCode;
use crate::layout::{lemma_small_powers, StateLayout};
use vstd::bytes::{
    lemma_auto_spec_u64_to_from_le_bytes, spec_u64_from_le_bytes, spec_u64_to_le_bytes,
};
use vstd::prelude::*;
use vstd::string::StringExecFns;

verus! {

/// An aggregate function.
///
/// A function keeps its state in a region of the arena of the size that
/// `state_layout` gives. Its three operations are total functions of what
/// they are given: the same state and the same argument values give the same
/// new state, or the same error.
pub trait AggregateFunction: Sized {
    /// Size and alignment of a state.
    spec fn spec_state_layout(&self) -> StateLayout;

    /// The state of a group before its first row.
    spec fn spec_init(&self) -> Result<Seq<u8>, ErrorCode>;

    /// The state after a row with the argument values `args`.
    spec fn spec_accumulate(&self, state: Seq<u8>, args: Seq<DataValue>) -> Result<
        Seq<u8>,
        ErrorCode,
    >;

    /// The serialized form of a state.
    spec fn spec_serialize(&self, state: Seq<u8>) -> Result<Seq<u8>, ErrorCode>;

    /// The function that serves the name `name` for arguments of the types
    /// `arg_types`.
    spec fn spec_try_create(name: Seq<char>, arg_types: Seq<DataType>) -> Result<Self, ErrorCode>;

    /// The alignment of a state is a power of two, and every state has the
    /// size of the layout.
    proof fn lemma_state(&self, state: Seq<u8>, args: Seq<DataValue>)
        ensures
            self.spec_state_layout().spec_valid(),
            self.spec_init() matches Ok(first) ==> first.len() == self.spec_state_layout().size,
            state.len() == self.spec_state_layout().size ==> (self.spec_accumulate(state, args) matches Ok(
                next,
            ) ==> next.len() == state.len()),
    ;

    /// The function that serves the name `name` for arguments of the types
    /// `arg_types`, or the configuration error that says why there is none.
    fn try_create(name: &String, arg_types: &Vec<DataType>) -> (r: Result<Self, ErrorCode>)
        ensures
            r == Self::spec_try_create(name@, arg_types@),
    ;

    /// Size and alignment of a state.
    fn state_layout(&self) -> (layout: StateLayout)
        ensures
            layout == self.spec_state_layout(),
    ;

    /// Writes the state of a group without rows at `place`; a function that
    /// fails leaves the arena as it was.
    fn init_state(&self, arena: &mut Arena, place: StateAddr) -> (r: Result<(), ErrorCode>)
        requires
            old(arena).spec_contains(place, self.spec_state_layout().size as int),
        ensures
            final(arena)@.len() == old(arena)@.len(),
            match self.spec_init() {
                Ok(first) => r.is_ok() && final(arena)@ == splice(
                    old(arena)@,
                    place.addr as int,
                    first,
                ),
                Err(e) => r == Err::<(), ErrorCode>(e) && final(arena)@ == old(arena)@,
            },
    ;

    /// Folds row `row` of the argument columns into the state at `place`; a
    /// function that fails leaves the arena as it was.
    fn accumulate_row(
        &self,
        arena: &mut Arena,
        place: StateAddr,
        columns: &Vec<&Column>,
        row: usize,
    ) -> (r: Result<(), ErrorCode>)
        requires
            old(arena).spec_contains(place, self.spec_state_layout().size as int),
            forall|c: int| 0 <= c < columns@.len() ==> row < (#[trigger] columns@[c])@.len(),
        ensures
            final(arena)@.len() == old(arena)@.len(),
            match self.spec_accumulate(
                old(arena).spec_region(place, self.spec_state_layout().size as int),
                row_values(columns@, row as int),
            ) {
                Ok(next) => r.is_ok() && final(arena)@ == splice(
                    old(arena)@,
                    place.addr as int,
                    next,
                ),
                Err(e) => r == Err::<(), ErrorCode>(e) && final(arena)@ == old(arena)@,
            },
    ;

    /// Appends the serialized form of the state at `place` to `out`; a
    /// function that fails leaves `out` as it was.
    fn serialize(&self, arena: &Arena, place: StateAddr, out: &mut Vec<u8>) -> (r: Result<
        (),
        ErrorCode,
    >)
        requires
            arena.spec_contains(place, self.spec_state_layout().size as int),
        ensures
            match self.spec_serialize(
                arena.spec_region(place, self.spec_state_layout().size as int),
            ) {
                Ok(bytes) => r.is_ok() && final(out)@ == old(out)@ + bytes,
                Err(e) => r == Err::<(), ErrorCode>(e) && final(out)@ == old(out)@,
            },
    ;
}

/// The code of the function error for a count that no longer fits.
pub const COUNT_OVERFLOW: u32 = 1;

/// The code of the function error for a sum that no longer fits.
pub const SUM_OVERFLOW: u32 = 2;

/// The code of the function error for arguments that a function cannot take.
pub const BAD_ARGUMENTS: u32 = 3;

/// The aggregate functions that come with the library.
#[derive(Clone, Copy, Debug, PartialEq, Eq, Structural)]
pub enum BuiltinFunction {
    /// The number of rows of the group.
    Count,
    /// The sum of an integer column over the rows of the group.
    Sum,
    /// The largest value of an integer column among the rows of the group,
    /// and 0 for a group without rows.
    Max,
}

/// The state that holds the number `value`.
pub open spec fn number_state(value: u64) -> Seq<u8> {
    spec_u64_to_le_bytes(value)
}

/// The number that a state holds.
pub open spec fn state_number(state: Seq<u8>) -> u64 {
    spec_u64_from_le_bytes(state)
}

/// Whether a function of one integer argument can take `args`.
pub open spec fn one_number(args: Seq<DataValue>) -> bool {
    args.len() == 1 && args[0].spec_as_u64().is_some()
}

/// Whether `name` is the name `literal`.
pub open spec fn is_name(name: Seq<char>, literal: &str) -> bool {
    name == literal@
}

impl BuiltinFunction {
    /// Reads the one integer argument in row `row`, if that is what the
    /// columns hold.
    fn argument(columns: &Vec<&Column>, row: usize) -> (value: Option<u64>)
        requires
            forall|c: int| 0 <= c < columns@.len() ==> row < (#[trigger] columns@[c])@.len(),
        ensures
            value.is_some() == one_number(row_values(columns@, row as int)),
            value matches Some(v) ==> row_values(columns@, row as int)[0].spec_as_u64() == Some(v),
    {
        if columns.len() != 1 {
            return None;
        }
        columns[0].value_u64(row)
    }
}

impl AggregateFunction for BuiltinFunction {
    open spec fn spec_state_layout(&self) -> StateLayout {
        StateLayout { size: 8, align: 8 }
    }

    open spec fn spec_init(&self) -> Result<Seq<u8>, ErrorCode> {
        Ok(number_state(0))
    }

    open spec fn spec_accumulate(&self, state: Seq<u8>, args: Seq<DataValue>) -> Result<
        Seq<u8>,
        ErrorCode,
    > {
        let held = state_number(state);
        match self {
            BuiltinFunction::Count => if held == u64::MAX {
                Err(ErrorCode::Function(COUNT_OVERFLOW))
            } else {
                Ok(number_state((held + 1) as u64))
            },
            BuiltinFunction::Sum => if !one_number(args) {
                Err(ErrorCode::Function(BAD_ARGUMENTS))
            } else if held + args[0].spec_as_u64().unwrap() > u64::MAX {
                Err(ErrorCode::Function(SUM_OVERFLOW))
            } else {
                Ok(number_state((held + args[0].spec_as_u64().unwrap()) as u64))
            },
            BuiltinFunction::Max => if !one_number(args) {
                Err(ErrorCode::Function(BAD_ARGUMENTS))
            } else if args[0].spec_as_u64().unwrap() > held {
                Ok(number_state(args[0].spec_as_u64().unwrap()))
            } else {
                Ok(number_state(held))
            },
        }
    }

    /// A state is serialized as it stands: the eight bytes of its number,
    /// lowest first.
    open spec fn spec_serialize(&self, state: Seq<u8>) -> Result<Seq<u8>, ErrorCode> {
        Ok(state)
    }

    /// `count` takes any arguments; `sum` and `max` take one integer column.
    open spec fn spec_try_create(name: Seq<char>, arg_types: Seq<DataType>) -> Result<
        Self,
        ErrorCode,
    > {
        if is_name(name, "count") {
            Ok(BuiltinFunction::Count)
        } else if arg_types.len() != 1 || arg_types[0] == DataType::Binary {
            Err(ErrorCode::UnsupportedFunction)
        } else if is_name(name, "sum") {
            Ok(BuiltinFunction::Sum)
        } else if is_name(name, "max") {
            Ok(BuiltinFunction::Max)
        } else {
            Err(ErrorCode::UnsupportedFunction)
        }
    }

    proof fn lemma_state(&self, state: Seq<u8>, args: Seq<DataValue>) {
        lemma_auto_spec_u64_to_from_le_bytes();
        lemma_small_powers();
    }

    fn try_create(name: &String, arg_types: &Vec<DataType>) -> (r: Result<Self, ErrorCode>) {
        if *name == String::from_str("count") {
            return Ok(BuiltinFunction::Count);
        }
        if arg_types.len() != 1 {
            return Err(ErrorCode::UnsupportedFunction);
        }
        match arg_types[0] {
            DataType::Binary => { return Err(ErrorCode::UnsupportedFunction); },
            _ => {},
        }
        if *name == String::from_str("sum") {
            Ok(BuiltinFunction::Sum)
        } else if *name == String::from_str("max") {
            Ok(BuiltinFunction::Max)
        } else {
            Err(ErrorCode::UnsupportedFunction)
        }
    }

    fn state_layout(&self) -> (layout: StateLayout) {
        StateLayout { size: 8, align: 8 }
    }

    fn init_state(&self, arena: &mut Arena, place: StateAddr) -> (r: Result<(), ErrorCode>) {
        arena.write_u64(place, 0);
        proof {
            lemma_auto_spec_u64_to_from_le_bytes();
        }
        Ok(())
    }

    fn accumulate_row(
        &self,
        arena: &mut Arena,
        place: StateAddr,
        columns: &Vec<&Column>,
        row: usize,
    ) -> (r: Result<(), ErrorCode>) {
        proof {
            lemma_auto_spec_u64_to_from_le_bytes();
        }
        let held = arena.read_u64(place);
        let next = match self {
            BuiltinFunction::Count => {
                if held == u64::MAX {
                    return Err(ErrorCode::Function(COUNT_OVERFLOW));
                }
                held + 1
            },
            BuiltinFunction::Sum => {
                match BuiltinFunction::argument(columns, row) {
                    None => { return Err(ErrorCode::Function(BAD_ARGUMENTS)); },
                    Some(value) => match held.checked_add(value) {
                        None => { return Err(ErrorCode::Function(SUM_OVERFLOW)); },
                        Some(sum) => sum,
                    },
                }
            },
            BuiltinFunction::Max => {
                match BuiltinFunction::argument(columns, row) {
                    None => { return Err(ErrorCode::Function(BAD_ARGUMENTS)); },
                    Some(value) => if value > held {
                        value
                    } else {
                        held
                    },
                }
            },
        };
        arena.write_u64(place, next);
        Ok(())
    }

    fn serialize(&self, arena: &Arena, place: StateAddr, out: &mut Vec<u8>) -> (r: Result<
        (),
        ErrorCode,
    >) {
        let mut state = arena.read(place, 8);
        out.append(&mut state);
        Ok(())
    }
}

} // verus!
