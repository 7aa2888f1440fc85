//! Laws of the aggregation: what holds of the groups however the rows come.

use crate::column::DataValue;
use crate::function::AggregateFunction;
use crate::model::{
    fold_group, folds_error, function_error, ingest, lemma_resolve_keys, resolve_keys, rows_error,
    start_state, GroupsModel,
};
use crate::table::GroupHashTable;
use vstd::prelude::*;

verus! {

/// The argument values of two runs of rows, one run after the other,
/// function by function.
pub open spec fn joined_args(
    first: Seq<Seq<Seq<DataValue>>>,
    second: Seq<Seq<Seq<DataValue>>>,
) -> Seq<Seq<Seq<DataValue>>> {
    Seq::new(first.len(), |f: int| first[f] + second[f])
}

/// Whether `all_args` holds, for each of `functions` functions, the
/// argument values of `rows` rows.
pub open spec fn args_of_rows(all_args: Seq<Seq<Seq<DataValue>>>, functions: int, rows: int) -> bool {
    &&& all_args.len() == functions
    &&& forall|f: int| 0 <= f < functions ==> (#[trigger] all_args[f]).len() == rows
}

/// Taking in the keys of two runs of rows, one run after the other, is
/// taking in the keys of all the rows.
pub proof fn lemma_resolve_joined<T: GroupHashTable>(
    keys: Seq<<T::Key as View>::V>,
    first: Seq<<T::Key as View>::V>,
    second: Seq<<T::Key as View>::V>,
)
    ensures
        resolve_keys::<T>(keys, first + second) == resolve_keys::<T>(
            resolve_keys::<T>(keys, first),
            second,
        ),
    decreases second.len(),
{
    if second.len() == 0 {
        assert(first + second =~= first);
    } else {
        assert((first + second).drop_last() =~= first + second.drop_last());
        assert((first + second).last() == second.last());
        lemma_resolve_joined::<T>(keys, first, second.drop_last());
    }
}

/// Rows of other groups leave the state of a group as it is.
pub proof fn lemma_fold_group_absent<F: AggregateFunction, K>(
    function: F,
    start: Seq<u8>,
    row_keys: Seq<K>,
    row_args: Seq<Seq<DataValue>>,
    key: K,
)
    requires
        !row_keys.contains(key),
    ensures
        fold_group(function, start, row_keys, row_args, key) == start,
    decreases row_keys.len(),
{
    if row_keys.len() > 0 {
        assert(row_keys[row_keys.len() - 1] != key);
        assert forall|i: int| 0 <= i < row_keys.drop_last().len() implies row_keys.drop_last()[i]
            != key by {
            assert(row_keys[i] != key);
        }
        lemma_fold_group_absent(function, start, row_keys.drop_last(), row_args.drop_last(), key);
    }
}

/// Folding two runs of rows, one run after the other, is folding all the
/// rows.
pub proof fn lemma_fold_group_joined<F: AggregateFunction, K>(
    function: F,
    start: Seq<u8>,
    first_keys: Seq<K>,
    first_args: Seq<Seq<DataValue>>,
    second_keys: Seq<K>,
    second_args: Seq<Seq<DataValue>>,
    key: K,
)
    requires
        first_keys.len() == first_args.len(),
        second_keys.len() == second_args.len(),
    ensures
        fold_group(function, start, first_keys + second_keys, first_args + second_args, key)
            == fold_group(
            function,
            fold_group(function, start, first_keys, first_args, key),
            second_keys,
            second_args,
            key,
        ),
    decreases second_keys.len(),
{
    if second_keys.len() == 0 {
        assert(first_keys + second_keys =~= first_keys);
        assert(first_args + second_args =~= first_args);
    } else {
        assert((first_keys + second_keys).drop_last() =~= first_keys + second_keys.drop_last());
        assert((first_args + second_args).drop_last() =~= first_args + second_args.drop_last());
        assert((first_keys + second_keys).last() == second_keys.last());
        assert((first_args + second_args).last() == second_args.last());
        lemma_fold_group_joined(
            function,
            start,
            first_keys,
            first_args,
            second_keys.drop_last(),
            second_args.drop_last(),
            key,
        );
    }
}

/// All the rows of two runs can be folded exactly if the rows of the first
/// run can, and then the rows of the second, whose groups start with the
/// states that the first run left.
pub proof fn lemma_rows_error_joined<F: AggregateFunction, K>(
    function: F,
    start: spec_fn(K) -> Seq<u8>,
    first_keys: Seq<K>,
    first_args: Seq<Seq<DataValue>>,
    second_keys: Seq<K>,
    second_args: Seq<Seq<DataValue>>,
)
    requires
        first_keys.len() == first_args.len(),
        second_keys.len() == second_args.len(),
    ensures
        rows_error(function, start, first_keys + second_keys, first_args + second_args)
            == match rows_error(function, start, first_keys, first_args) {
            Some(e) => Some(e),
            None => rows_error(
                function,
                |k: K| fold_group(function, start(k), first_keys, first_args, k),
                second_keys,
                second_args,
            ),
        },
    decreases second_keys.len(),
{
    let later = |k: K| fold_group(function, start(k), first_keys, first_args, k);
    if second_keys.len() == 0 {
        assert(first_keys + second_keys =~= first_keys);
        assert(first_args + second_args =~= first_args);
    } else {
        assert((first_keys + second_keys).drop_last() =~= first_keys + second_keys.drop_last());
        assert((first_args + second_args).drop_last() =~= first_args + second_args.drop_last());
        assert((first_keys + second_keys).last() == second_keys.last());
        assert((first_args + second_args).last() == second_args.last());
        lemma_rows_error_joined(
            function,
            start,
            first_keys,
            first_args,
            second_keys.drop_last(),
            second_args.drop_last(),
        );
        lemma_fold_group_joined(
            function,
            start(second_keys.last()),
            first_keys,
            first_args,
            second_keys.drop_last(),
            second_args.drop_last(),
            second_keys.last(),
        );
    }
}

/// No row fails the first `upto` functions exactly if no row fails any one
/// of them.
pub proof fn lemma_folds_error_none<F: AggregateFunction, K>(
    functions: Seq<F>,
    model: GroupsModel<K>,
    row_keys: Seq<K>,
    all_args: Seq<Seq<Seq<DataValue>>>,
    upto: int,
)
    requires
        0 <= upto,
    ensures
        folds_error(functions, model, row_keys, all_args, upto).is_none() <==> forall|f: int|
            0 <= f < upto ==> (#[trigger] function_error(
                functions,
                model,
                row_keys,
                all_args,
                f,
            )).is_none(),
    decreases upto,
{
    if upto > 0 {
        lemma_folds_error_none(functions, model, row_keys, all_args, upto - 1);
    }
}

/// The state with which a function meets a group in a second run of rows is
/// the state that the first run left of the state with which it met the
/// group there.
pub proof fn lemma_start_after<T: GroupHashTable, F: AggregateFunction>(
    functions: Seq<F>,
    model: GroupsModel<<T::Key as View>::V>,
    row_keys: Seq<<T::Key as View>::V>,
    all_args: Seq<Seq<Seq<DataValue>>>,
    key: <T::Key as View>::V,
    f: int,
)
    requires
        model.keys.no_duplicates(),
        0 <= f < functions.len(),
        ingest::<T, F>(functions, model, row_keys, all_args).is_ok(),
    ensures
        start_state(
            functions,
            ingest::<T, F>(functions, model, row_keys, all_args).unwrap(),
            key,
            f,
        ) == fold_group(
            functions[f],
            start_state(functions, model, key, f),
            row_keys,
            all_args[f],
            key,
        ),
{
    let after = ingest::<T, F>(functions, model, row_keys, all_args).unwrap();
    lemma_resolve_keys::<T>(model.keys, row_keys);
    if !after.keys.contains(key) {
        lemma_fold_group_absent(
            functions[f],
            start_state(functions, model, key, f),
            row_keys,
            all_args[f],
            key,
        );
    } else {
        assert(after.states.dom().contains((key, f)));
    }
}

/// Batching does not matter: the rows of a block, taken in as two blocks one
/// after the other, give the groups that they give as one block. The two
/// blocks succeed exactly if the one block does.
pub proof fn law_batching<T: GroupHashTable, F: AggregateFunction>(
    functions: Seq<F>,
    model: GroupsModel<<T::Key as View>::V>,
    first_keys: Seq<<T::Key as View>::V>,
    first_args: Seq<Seq<Seq<DataValue>>>,
    second_keys: Seq<<T::Key as View>::V>,
    second_args: Seq<Seq<Seq<DataValue>>>,
)
    requires
        model.keys.no_duplicates(),
        args_of_rows(first_args, functions.len() as int, first_keys.len() as int),
        args_of_rows(second_args, functions.len() as int, second_keys.len() as int),
    ensures
        ({
            let whole = ingest::<T, F>(
                functions,
                model,
                first_keys + second_keys,
                joined_args(first_args, second_args),
            );
            let first = ingest::<T, F>(functions, model, first_keys, first_args);
            &&& whole.is_ok() <==> first.is_ok() && ingest::<T, F>(
                functions,
                first.unwrap(),
                second_keys,
                second_args,
            ).is_ok()
            &&& whole.is_ok() ==> ingest::<T, F>(
                functions,
                first.unwrap(),
                second_keys,
                second_args,
            ) == whole
        }),
{
    let n = functions.len() as int;
    let all_keys = first_keys + second_keys;
    let all_args = joined_args(first_args, second_args);
    let whole = ingest::<T, F>(functions, model, all_keys, all_args);
    let first = ingest::<T, F>(functions, model, first_keys, first_args);
    let middle_keys = resolve_keys::<T>(model.keys, first_keys);
    let last_keys = resolve_keys::<T>(model.keys, all_keys);
    lemma_resolve_joined::<T>(model.keys, first_keys, second_keys);
    lemma_resolve_keys::<T>(model.keys, first_keys);
    lemma_resolve_keys::<T>(model.keys, all_keys);
    lemma_resolve_keys::<T>(middle_keys, second_keys);
    lemma_folds_error_none(functions, model, all_keys, all_args, n);
    lemma_folds_error_none(functions, model, first_keys, first_args, n);
    // The rows of the first run fail in the whole as they fail alone.
    assert forall|f: int|
        0 <= f < n && (#[trigger] function_error(
            functions,
            model,
            all_keys,
            all_args,
            f,
        )).is_none() implies function_error(functions, model, first_keys, first_args, f).is_none() by {
        lemma_rows_error_joined(
            functions[f],
            |k: <T::Key as View>::V| start_state(functions, model, k, f),
            first_keys,
            first_args[f],
            second_keys,
            second_args[f],
        );
    }
    if whole.is_ok() {
        assert forall|f: int| 0 <= f < n implies (#[trigger] function_error(
            functions,
            model,
            first_keys,
            first_args,
            f,
        )).is_none() by {
            assert(function_error(functions, model, all_keys, all_args, f).is_none());
        }
        assert(first.is_ok());
    }
    if first.is_ok() {
        let middle = first.unwrap();
        let second = ingest::<T, F>(functions, middle, second_keys, second_args);
        lemma_folds_error_none(functions, middle, second_keys, second_args, n);
        assert forall|f: int| 0 <= f < n implies (#[trigger] function_error(
            functions,
            model,
            all_keys,
            all_args,
            f,
        )) == function_error(functions, middle, second_keys, second_args, f) by {
            let start = |k: <T::Key as View>::V| start_state(functions, model, k, f);
            let later = |k: <T::Key as View>::V|
                fold_group(functions[f], start(k), first_keys, first_args[f], k);
            let met = |k: <T::Key as View>::V| start_state(functions, middle, k, f);
            assert(function_error(functions, model, first_keys, first_args, f).is_none());
            lemma_rows_error_joined(
                functions[f],
                start,
                first_keys,
                first_args[f],
                second_keys,
                second_args[f],
            );
            assert forall|k: <T::Key as View>::V| #[trigger] met(k) == later(k) by {
                lemma_start_after::<T, F>(functions, model, first_keys, first_args, k, f);
            }
            assert(met =~= later);
        }
        if second.is_ok() {
            assert forall|f: int| 0 <= f < n implies (#[trigger] function_error(
                functions,
                model,
                all_keys,
                all_args,
                f,
            )).is_none() by {
                assert(function_error(functions, middle, second_keys, second_args, f).is_none());
            }
            assert(whole.is_ok());
        }
        if whole.is_ok() {
            assert forall|f: int| 0 <= f < n implies (#[trigger] function_error(
                functions,
                middle,
                second_keys,
                second_args,
                f,
            )).is_none() by {
                assert(function_error(functions, model, all_keys, all_args, f).is_none());
            }
            assert(folds_error(functions, middle, second_keys, second_args, n).is_none());
            assert(second.is_ok());
            assert forall|at: (<T::Key as View>::V, int)| #[trigger]
                whole.unwrap().states.dom().contains(at) implies second.unwrap().states[at]
                == whole.unwrap().states[at] by {
                assert(all_args[at.1] == first_args[at.1] + second_args[at.1]);
                assert(first_args[at.1].len() == first_keys.len());
                assert(second_args[at.1].len() == second_keys.len());
                lemma_start_after::<T, F>(functions, model, first_keys, first_args, at.0, at.1);
                lemma_fold_group_joined(
                    functions[at.1],
                    start_state(functions, model, at.0, at.1),
                    first_keys,
                    first_args[at.1],
                    second_keys,
                    second_args[at.1],
                    at.0,
                );
            }
            assert(second.unwrap().keys == whole.unwrap().keys);
            assert forall|at: (<T::Key as View>::V, int)|
                second.unwrap().states.dom().contains(at) == whole.unwrap().states.dom().contains(
                    at,
                ) by {}
            assert(second.unwrap().states.dom() =~= whole.unwrap().states.dom());
            assert(second.unwrap().states =~= whole.unwrap().states);
            assert(second.unwrap() =~= whole.unwrap());
        }
    }
}

/// A block leaves a group that none of its rows belongs to as it is.
pub proof fn law_untouched_group<T: GroupHashTable, F: AggregateFunction>(
    functions: Seq<F>,
    model: GroupsModel<<T::Key as View>::V>,
    row_keys: Seq<<T::Key as View>::V>,
    all_args: Seq<Seq<Seq<DataValue>>>,
    key: <T::Key as View>::V,
    f: int,
)
    requires
        model.keys.no_duplicates(),
        model.keys.contains(key),
        !row_keys.contains(key),
        0 <= f < functions.len(),
        ingest::<T, F>(functions, model, row_keys, all_args).is_ok(),
    ensures
        ingest::<T, F>(functions, model, row_keys, all_args).unwrap().keys.contains(key),
        ingest::<T, F>(functions, model, row_keys, all_args).unwrap().states[(key, f)]
            == model.states[(key, f)],
{
    lemma_resolve_keys::<T>(model.keys, row_keys);
    lemma_fold_group_absent(
        functions[f],
        start_state(functions, model, key, f),
        row_keys,
        all_args[f],
        key,
    );
}

/// The groups of a block are the groups that were there and the groups of
/// its rows: one group for each distinct key, never more and never fewer.
pub proof fn law_distinct_groups<T: GroupHashTable, F: AggregateFunction>(
    functions: Seq<F>,
    model: GroupsModel<<T::Key as View>::V>,
    row_keys: Seq<<T::Key as View>::V>,
    all_args: Seq<Seq<Seq<DataValue>>>,
)
    requires
        model.keys.no_duplicates(),
        ingest::<T, F>(functions, model, row_keys, all_args).is_ok(),
    ensures
        ({
            let after = ingest::<T, F>(functions, model, row_keys, all_args).unwrap();
            &&& after.keys.no_duplicates()
            &&& after.keys.to_set() == model.keys.to_set().union(row_keys.to_set())
            &&& after.keys.len() == after.keys.to_set().len()
        }),
{
    let after = ingest::<T, F>(functions, model, row_keys, all_args).unwrap();
    lemma_resolve_keys::<T>(model.keys, row_keys);
    assert(after.keys.to_set() =~= model.keys.to_set().union(row_keys.to_set()));
    after.keys.unique_seq_to_set();
}

} // verus!
