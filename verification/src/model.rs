//! What an aggregation computes, stated over sequences of rows.
//!
//! The groups of an aggregation are described by their keys, in the order in
//! which the table hands them out, and by the state that each function holds
//! for each key. A row is described by its key and, for each function, the
//! values of the function's arguments.

use crate::column::DataValue;
use crate::error::ErrorCode;
use crate::function::AggregateFunction;
use crate::table::GroupHashTable;
use vstd::prelude::*;

verus! {

/// The groups of an aggregation.
#[verifier::ext_equal]
#[verifier::reject_recursive_types(K)]
pub struct GroupsModel<K> {
    /// The keys of the groups, each once, in the order of iteration.
    pub keys: Seq<K>,
    /// The state of function `f` for key `k`, at `(k, f)`.
    pub states: Map<(K, int), Seq<u8>>,
}

/// No groups.
pub open spec fn no_groups<K>() -> GroupsModel<K> {
    GroupsModel { keys: Seq::empty(), states: Map::empty() }
}

/// The keys of a table that held `keys` and has then taken in the keys of
/// the rows, row by row.
pub open spec fn resolve_keys<T: GroupHashTable>(
    keys: Seq<<T::Key as View>::V>,
    row_keys: Seq<<T::Key as View>::V>,
) -> Seq<<T::Key as View>::V>
    decreases row_keys.len(),
{
    if row_keys.len() == 0 {
        keys
    } else {
        let before = resolve_keys::<T>(keys, row_keys.drop_last());
        if before.contains(row_keys.last()) {
            before
        } else {
            T::spec_insert(before, row_keys.last())
        }
    }
}

/// Whether one of the rows has a key that is not among `keys`.
pub open spec fn brings_new_key<K>(keys: Seq<K>, row_keys: Seq<K>) -> bool {
    exists|i: int| 0 <= i < row_keys.len() && !keys.contains(#[trigger] row_keys[i])
}

/// The state with which a group starts, if the function gives one.
pub open spec fn first_state<F: AggregateFunction>(function: F) -> Seq<u8> {
    match function.spec_init() {
        Ok(state) => state,
        Err(_) => Seq::empty(),
    }
}

/// The error of the first function that cannot give a first state.
pub open spec fn inits_error<F: AggregateFunction>(functions: Seq<F>) -> Option<ErrorCode>
    decreases functions.len(),
{
    if functions.len() == 0 {
        None
    } else {
        match inits_error(functions.drop_last()) {
            Some(e) => Some(e),
            None => match functions.last().spec_init() {
                Ok(_) => None,
                Err(e) => Some(e),
            },
        }
    }
}

/// The state of the group `key` after the rows: the rows of the group are
/// folded into `start` in their order, and the other rows are passed over.
pub open spec fn fold_group<F: AggregateFunction, K>(
    function: F,
    start: Seq<u8>,
    row_keys: Seq<K>,
    row_args: Seq<Seq<DataValue>>,
    key: K,
) -> Seq<u8>
    decreases row_keys.len(),
{
    if row_keys.len() == 0 {
        start
    } else {
        let before = fold_group(function, start, row_keys.drop_last(), row_args.drop_last(), key);
        if row_keys.last() == key {
            match function.spec_accumulate(before, row_args.last()) {
                Ok(state) => state,
                Err(_) => before,
            }
        } else {
            before
        }
    }
}

/// The error of the first row that the function cannot fold into the state
/// of the row's group, where the group `k` starts with the state `start(k)`.
pub open spec fn rows_error<F: AggregateFunction, K>(
    function: F,
    start: spec_fn(K) -> Seq<u8>,
    row_keys: Seq<K>,
    row_args: Seq<Seq<DataValue>>,
) -> Option<ErrorCode>
    decreases row_keys.len(),
{
    if row_keys.len() == 0 {
        None
    } else {
        match rows_error(function, start, row_keys.drop_last(), row_args.drop_last()) {
            Some(e) => Some(e),
            None => match function.spec_accumulate(
                fold_group(
                    function,
                    start(row_keys.last()),
                    row_keys.drop_last(),
                    row_args.drop_last(),
                    row_keys.last(),
                ),
                row_args.last(),
            ) {
                Ok(_) => None,
                Err(e) => Some(e),
            },
        }
    }
}

/// The state with which function `f` meets the group `key` in a block: the
/// state that the group has, or the first state if the group is new.
pub open spec fn start_state<F: AggregateFunction, K>(
    functions: Seq<F>,
    model: GroupsModel<K>,
    key: K,
    f: int,
) -> Seq<u8> {
    if model.keys.contains(key) {
        model.states[(key, f)]
    } else {
        first_state(functions[f])
    }
}

/// The error of the first row that function `f` cannot fold into the state
/// of the row's group.
pub open spec fn function_error<F: AggregateFunction, K>(
    functions: Seq<F>,
    model: GroupsModel<K>,
    row_keys: Seq<K>,
    all_args: Seq<Seq<Seq<DataValue>>>,
    f: int,
) -> Option<ErrorCode> {
    rows_error(functions[f], |k: K| start_state(functions, model, k, f), row_keys, all_args[f])
}

/// The error of the first row that its function cannot fold, where the first
/// `upto` functions fold all rows one function after the other.
pub open spec fn folds_error<F: AggregateFunction, K>(
    functions: Seq<F>,
    model: GroupsModel<K>,
    row_keys: Seq<K>,
    all_args: Seq<Seq<Seq<DataValue>>>,
    upto: int,
) -> Option<ErrorCode>
    decreases upto,
{
    if upto <= 0 {
        None
    } else {
        match folds_error(functions, model, row_keys, all_args, upto - 1) {
            Some(e) => Some(e),
            None => function_error(functions, model, row_keys, all_args, upto - 1),
        }
    }
}

/// The states after a block, where nothing failed.
pub open spec fn folded_states<F: AggregateFunction, K>(
    functions: Seq<F>,
    model: GroupsModel<K>,
    keys: Seq<K>,
    row_keys: Seq<K>,
    all_args: Seq<Seq<Seq<DataValue>>>,
) -> Map<(K, int), Seq<u8>> {
    Map::new(
        |at: (K, int)| keys.contains(at.0) && 0 <= at.1 < functions.len(),
        |at: (K, int)|
            fold_group(
                functions[at.1],
                start_state(functions, model, at.0, at.1),
                row_keys,
                all_args[at.1],
                at.0,
            ),
    )
}

/// The groups after a block of rows.
///
/// The keys of the rows are taken in first, and a first state is made for
/// each new group; then each function in turn folds all rows. The block
/// fails with the error of the first step that fails.
pub open spec fn ingest<T: GroupHashTable, F: AggregateFunction>(
    functions: Seq<F>,
    model: GroupsModel<<T::Key as View>::V>,
    row_keys: Seq<<T::Key as View>::V>,
    all_args: Seq<Seq<Seq<DataValue>>>,
) -> Result<GroupsModel<<T::Key as View>::V>, ErrorCode> {
    let keys = resolve_keys::<T>(model.keys, row_keys);
    if brings_new_key(model.keys, row_keys) && inits_error(functions).is_some() {
        Err(inits_error(functions).unwrap())
    } else if folds_error(functions, model, row_keys, all_args, functions.len() as int).is_some() {
        Err(folds_error(functions, model, row_keys, all_args, functions.len() as int).unwrap())
    } else {
        Ok(
            GroupsModel {
                keys,
                states: folded_states(functions, model, keys, row_keys, all_args),
            },
        )
    }
}

/// The serialized state of function `f` for the group `key`.
pub open spec fn serialized_state<F: AggregateFunction, K>(
    functions: Seq<F>,
    model: GroupsModel<K>,
    key: K,
    f: int,
) -> Seq<u8> {
    match functions[f].spec_serialize(model.states[(key, f)]) {
        Ok(bytes) => bytes,
        Err(_) => Seq::empty(),
    }
}

/// The error of the first of the first `upto` functions that cannot
/// serialize its state for the group `key`.
pub open spec fn group_error<F: AggregateFunction, K>(
    functions: Seq<F>,
    model: GroupsModel<K>,
    key: K,
    upto: int,
) -> Option<ErrorCode>
    decreases upto,
{
    if upto <= 0 {
        None
    } else {
        match group_error(functions, model, key, upto - 1) {
            Some(e) => Some(e),
            None => match functions[upto - 1].spec_serialize(model.states[(key, upto - 1)]) {
                Ok(_) => None,
                Err(e) => Some(e),
            },
        }
    }
}

/// The error of the first of the first `upto` groups that has a state that
/// cannot be serialized.
pub open spec fn groups_error<F: AggregateFunction, K>(
    functions: Seq<F>,
    model: GroupsModel<K>,
    upto: int,
) -> Option<ErrorCode>
    decreases upto,
{
    if upto <= 0 {
        None
    } else {
        match groups_error(functions, model, upto - 1) {
            Some(e) => Some(e),
            None => group_error(functions, model, model.keys[upto - 1], functions.len() as int),
        }
    }
}

/// A state that cannot be serialized fails the functions that follow too.
pub proof fn lemma_group_error_stays<F: AggregateFunction, K>(
    functions: Seq<F>,
    model: GroupsModel<K>,
    key: K,
    upto: int,
    all: int,
)
    requires
        0 <= upto <= all,
    ensures
        group_error(functions, model, key, upto) matches Some(e) ==> group_error(
            functions,
            model,
            key,
            all,
        ) == Some(e),
    decreases all - upto,
{
    if upto < all {
        lemma_group_error_stays(functions, model, key, upto + 1, all);
    }
}

/// A group that cannot be serialized fails the groups that follow too.
pub proof fn lemma_groups_error_stays<F: AggregateFunction, K>(
    functions: Seq<F>,
    model: GroupsModel<K>,
    upto: int,
    all: int,
)
    requires
        0 <= upto <= all,
    ensures
        groups_error(functions, model, upto) matches Some(e) ==> groups_error(
            functions,
            model,
            all,
        ) == Some(e),
    decreases all - upto,
{
    if upto < all {
        lemma_groups_error_stays(functions, model, upto + 1, all);
    }
}

/// Taking in the keys of rows leaves the keys distinct, keeps the keys that
/// were there, and adds exactly the keys of the rows.
pub proof fn lemma_resolve_keys<T: GroupHashTable>(
    keys: Seq<<T::Key as View>::V>,
    row_keys: Seq<<T::Key as View>::V>,
)
    requires
        keys.no_duplicates(),
    ensures
        resolve_keys::<T>(keys, row_keys).no_duplicates(),
        forall|k: <T::Key as View>::V| #[trigger]
            resolve_keys::<T>(keys, row_keys).contains(k) <==> keys.contains(k)
                || row_keys.contains(k),
        brings_new_key(keys, row_keys) <==> resolve_keys::<T>(keys, row_keys).len() != keys.len(),
        resolve_keys::<T>(keys, row_keys).len() >= keys.len(),
    decreases row_keys.len(),
{
    if row_keys.len() > 0 {
        let rest = row_keys.drop_last();
        let last = row_keys.last();
        lemma_resolve_keys::<T>(keys, rest);
        let before = resolve_keys::<T>(keys, rest);
        let after = resolve_keys::<T>(keys, row_keys);
        if !before.contains(last) {
            T::lemma_insert(before, last);
        }
        assert(row_keys[row_keys.len() - 1] == last);
        assert forall|k: <T::Key as View>::V| #[trigger]
            after.contains(k) <==> keys.contains(k) || row_keys.contains(k) by {
            if rest.contains(k) {
                let i = choose|i: int| 0 <= i < rest.len() && rest[i] == k;
                assert(row_keys[i] == k);
            }
            if row_keys.contains(k) {
                let i = choose|i: int| 0 <= i < row_keys.len() && row_keys[i] == k;
                if i < rest.len() {
                    assert(rest[i] == k);
                }
            }
        }
        if brings_new_key(keys, rest) {
            let i = choose|i: int| 0 <= i < rest.len() && !keys.contains(#[trigger] rest[i]);
            assert(row_keys[i] == rest[i]);
        }
        if brings_new_key(keys, row_keys) {
            let i = choose|i: int| 0 <= i < row_keys.len() && !keys.contains(#[trigger] row_keys[i]);
            if i < rest.len() {
                assert(rest[i] == row_keys[i]);
            } else if !brings_new_key(keys, rest) {
                assert(!before.contains(last));
            }
        } else {
            assert(keys.contains(row_keys[row_keys.len() - 1]));
        }
    } else {
        assert forall|k: <T::Key as View>::V| !row_keys.contains(k) by {}
    }
}

/// A row that cannot be folded fails the rows that follow it too.
pub proof fn lemma_rows_error_stays<F: AggregateFunction, K>(
    function: F,
    start: spec_fn(K) -> Seq<u8>,
    row_keys: Seq<K>,
    row_args: Seq<Seq<DataValue>>,
    upto: int,
)
    requires
        0 <= upto <= row_keys.len() == row_args.len(),
    ensures
        rows_error(function, start, row_keys.take(upto), row_args.take(upto)) matches Some(e)
            ==> rows_error(function, start, row_keys, row_args) == Some(e),
    decreases row_keys.len() - upto,
{
    if upto < row_keys.len() {
        assert(row_keys.take(upto + 1).drop_last() =~= row_keys.take(upto));
        assert(row_args.take(upto + 1).drop_last() =~= row_args.take(upto));
        lemma_rows_error_stays(function, start, row_keys, row_args, upto + 1);
    } else {
        assert(row_keys.take(upto) =~= row_keys);
        assert(row_args.take(upto) =~= row_args);
    }
}

/// A function that fails fails the functions that follow it too.
pub proof fn lemma_folds_error_stays<F: AggregateFunction, K>(
    functions: Seq<F>,
    model: GroupsModel<K>,
    row_keys: Seq<K>,
    all_args: Seq<Seq<Seq<DataValue>>>,
    upto: int,
    all: int,
)
    requires
        0 <= upto <= all,
    ensures
        folds_error(functions, model, row_keys, all_args, upto) matches Some(e) ==> folds_error(
            functions,
            model,
            row_keys,
            all_args,
            all,
        ) == Some(e),
    decreases all - upto,
{
    if upto < all {
        lemma_folds_error_stays(functions, model, row_keys, all_args, upto + 1, all);
    }
}

/// A function that cannot give a first state fails the functions that follow
/// it too.
pub proof fn lemma_inits_error_stays<F: AggregateFunction>(functions: Seq<F>, upto: int)
    requires
        0 <= upto <= functions.len(),
    ensures
        inits_error(functions.take(upto)) matches Some(e) ==> inits_error(functions) == Some(e),
    decreases functions.len() - upto,
{
    if upto < functions.len() {
        assert(functions.take(upto + 1).drop_last() =~= functions.take(upto));
        lemma_inits_error_stays(functions, upto + 1);
    } else {
        assert(functions.take(upto) =~= functions);
    }
}

} // verus!
