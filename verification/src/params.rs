//! What an aggregation is set up with: the aggregate expressions, and the
//! functions and argument names that they resolve to.

use crate::column::{DataSchema, DataType};
use crate::error::ErrorCode;
use crate::function::AggregateFunction;
use vstd::prelude::*;

verus! {

/// One aggregate of a query: a function by its name, applied to columns by
/// their names.
#[derive(Debug)]
pub struct AggregateExpression {
    pub name: String,
    pub args: Vec<String>,
}

impl AggregateExpression {
    pub fn new(name: String, args: Vec<String>) -> (expression: AggregateExpression)
        ensures
            expression.name == name,
            expression.args == args,
    {
        AggregateExpression { name, args }
    }
}

/// The aggregate functions of an aggregation in order and, for each of them,
/// the names of its argument columns in order.
pub struct AggregatorParams<F: AggregateFunction> {
    pub aggregate_functions: Vec<F>,
    pub aggregate_functions_arguments_name: Vec<Vec<String>>,
}

/// Whether the schema has every column of `names`.
pub open spec fn schema_has_all(schema: DataSchema, names: Seq<String>) -> bool {
    forall|j: int| 0 <= j < names.len() ==> schema.spec_has(#[trigger] names[j]@)
}

/// The types that the schema gives to the columns `names`.
pub open spec fn schema_types(schema: DataSchema, names: Seq<String>) -> Seq<DataType> {
    Seq::new(names.len(), |j: int| schema.fields@[schema.spec_index_of(names[j]@)].data_type)
}

/// The function that an expression resolves to under a schema:
/// `UnknownColumn` if the schema lacks one of the arguments, and else what
/// the functions make of the name and the types of the arguments.
pub open spec fn spec_function<F: AggregateFunction>(
    schema: DataSchema,
    expression: AggregateExpression,
) -> Result<F, ErrorCode> {
    if !schema_has_all(schema, expression.args@) {
        Err(ErrorCode::UnknownColumn)
    } else {
        F::spec_try_create(expression.name@, schema_types(schema, expression.args@))
    }
}

/// The functions that the expressions resolve to, in order, or the error of
/// the first expression that does not resolve.
pub open spec fn spec_functions<F: AggregateFunction>(
    schema: DataSchema,
    expressions: Seq<AggregateExpression>,
) -> Result<Seq<F>, ErrorCode>
    decreases expressions.len(),
{
    if expressions.len() == 0 {
        Ok(Seq::empty())
    } else {
        match spec_functions::<F>(schema, expressions.drop_last()) {
            Err(e) => Err(e),
            Ok(functions) => match spec_function::<F>(schema, expressions.last()) {
                Err(e) => Err(e),
                Ok(function) => Ok(functions.push(function)),
            },
        }
    }
}

/// Whether `names` holds the argument names of `expressions`, expression by
/// expression.
pub open spec fn names_of(names: Seq<Vec<String>>, expressions: Seq<AggregateExpression>) -> bool {
    &&& names.len() == expressions.len()
    &&& forall|i: int| 0 <= i < names.len() ==> (#[trigger] names[i])@ == expressions[i].args@
}

impl<F: AggregateFunction> AggregatorParams<F> {
    /// The types of the columns `names`, or `UnknownColumn`.
    fn argument_types(schema: &DataSchema, names: &Vec<String>) -> (r: Result<
        Vec<DataType>,
        ErrorCode,
    >)
        ensures
            r.is_ok() == schema_has_all(*schema, names@),
            r matches Ok(types) ==> types@ == schema_types(*schema, names@),
            r matches Err(e) ==> e == ErrorCode::UnknownColumn,
    {
        let mut types: Vec<DataType> = Vec::new();
        let mut j: usize = 0;
        while j < names.len()
            invariant
                0 <= j <= names@.len(),
                types@.len() == j,
                forall|k: int| 0 <= k < j ==> schema.spec_has(#[trigger] names@[k]@),
                forall|k: int|
                    0 <= k < j ==> #[trigger] types@[k] == schema.fields@[schema.spec_index_of(
                        names@[k]@,
                    )].data_type,
            decreases names.len() - j,
        {
            match schema.index_of(&names[j]) {
                None => { return Err(ErrorCode::UnknownColumn); },
                Some(index) => { types.push(schema.fields[index].data_type); },
            }
            j += 1;
        }
        assert(types@ =~= schema_types(*schema, names@));
        Ok(types)
    }

    /// A copy of `names`.
    fn copy_names(names: &Vec<String>) -> (copy: Vec<String>)
        ensures
            copy@ == names@,
    {
        let mut copy: Vec<String> = Vec::new();
        let mut j: usize = 0;
        while j < names.len()
            invariant
                0 <= j <= names@.len(),
                copy@ == names@.take(j as int),
            decreases names.len() - j,
        {
            copy.push(names[j].clone());
            j += 1;
            assert(copy@ =~= names@.take(j as int));
        }
        assert(names@.take(names@.len() as int) =~= names@);
        copy
    }

    /// Resolves the expressions under `schema`: the function of each, and
    /// the names of its arguments.
    ///
    /// Fails with the error of the first expression that does not resolve:
    /// `UnknownColumn` if the schema lacks one of its arguments, and else
    /// the error with which the functions refuse its name or the types of
    /// its arguments.
    pub fn try_create(schema: &DataSchema, expressions: &Vec<AggregateExpression>) -> (r: Result<
        AggregatorParams<F>,
        ErrorCode,
    >)
        ensures
            match spec_functions::<F>(*schema, expressions@) {
                Ok(functions) => r matches Ok(params) && params.aggregate_functions@ == functions
                    && names_of(params.aggregate_functions_arguments_name@, expressions@),
                Err(e) => r matches Err(error) && error == e,
            },
    {
        let mut functions: Vec<F> = Vec::new();
        let mut names: Vec<Vec<String>> = Vec::new();
        let mut i: usize = 0;
        while i < expressions.len()
            invariant
                0 <= i <= expressions@.len(),
                spec_functions::<F>(*schema, expressions@.take(i as int)) == Ok::<
                    Seq<F>,
                    ErrorCode,
                >(functions@),
                names_of(names@, expressions@.take(i as int)),
            decreases expressions.len() - i,
        {
            let expression = &expressions[i];
            proof {
                let next = expressions@.take(i + 1);
                assert(next.drop_last() =~= expressions@.take(i as int));
                assert(next.last() == expressions@[i as int]);
                lemma_functions_error::<F>(*schema, expressions@, i + 1);
            }
            let types = match Self::argument_types(schema, &expression.args) {
                Err(e) => { return Err(e); },
                Ok(types) => types,
            };
            let function = match F::try_create(&expression.name, &types) {
                Err(e) => { return Err(e); },
                Ok(function) => function,
            };
            functions.push(function);
            names.push(Self::copy_names(&expression.args));
            i += 1;
        }
        proof {
            assert(expressions@.take(expressions@.len() as int) =~= expressions@);
        }
        Ok(AggregatorParams { aggregate_functions: functions, aggregate_functions_arguments_name: names })
    }
}

/// Expressions that resolve give one function each, the function of each.
pub proof fn lemma_functions_each<F: AggregateFunction>(
    schema: DataSchema,
    expressions: Seq<AggregateExpression>,
)
    ensures
        spec_functions::<F>(schema, expressions) matches Ok(functions) ==> functions.len()
            == expressions.len() && forall|i: int|
            0 <= i < expressions.len() ==> spec_function::<F>(schema, #[trigger] expressions[i])
                == Ok::<F, ErrorCode>(functions[i]),
    decreases expressions.len(),
{
    if expressions.len() > 0 {
        lemma_functions_each::<F>(schema, expressions.drop_last());
        if let Ok(functions) = spec_functions::<F>(schema, expressions) {
            let rest = spec_functions::<F>(schema, expressions.drop_last()).unwrap();
            assert forall|i: int| 0 <= i < expressions.len() implies spec_function::<F>(
                schema,
                #[trigger] expressions[i],
            ) == Ok::<F, ErrorCode>(functions[i]) by {
                if i < expressions.len() - 1 {
                    assert(expressions.drop_last()[i] == expressions[i]);
                    assert(functions[i] == rest[i]);
                }
            }
        }
    }
}

/// The error of the first expressions is the error of all of them.
pub proof fn lemma_functions_error<F: AggregateFunction>(
    schema: DataSchema,
    expressions: Seq<AggregateExpression>,
    upto: int,
)
    requires
        0 <= upto <= expressions.len(),
    ensures
        spec_functions::<F>(schema, expressions.take(upto)) matches Err(e) ==> spec_functions::<F>(
            schema,
            expressions,
        ) == Err::<Seq<F>, ErrorCode>(e),
    decreases expressions.len() - upto,
{
    if upto < expressions.len() {
        assert(expressions.take(upto + 1).drop_last() =~= expressions.take(upto));
        lemma_functions_error::<F>(schema, expressions, upto + 1);
    } else {
        assert(expressions.take(upto) =~= expressions);
    }
}

} // verus!
