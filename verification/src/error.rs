//! The errors of an aggregation.

use vstd::prelude::*;

verus! {

/// The four ways in which an aggregation fails.
#[derive(Clone, Copy, Debug, PartialEq, Eq, Structural)]
pub enum ErrorKind {
    /// The aggregation was set up with an expression that cannot be served.
    Configuration,
    /// An incoming block does not have the shape that the aggregation needs.
    Schema,
    /// The source of the blocks failed.
    Upstream,
    /// An aggregate function failed.
    Function,
}

/// An error of an aggregation.
#[derive(Clone, Copy, Debug, PartialEq, Eq, Structural)]
pub enum ErrorCode {
    /// An aggregate expression names a column that the schema does not have.
    UnknownColumn,
    /// No aggregate function serves this name with arguments of these types.
    UnsupportedFunction,
    /// The states of the aggregate functions do not pack into one block.
    BadStateLayout,
    /// A block lacks a column that the aggregation reads.
    MissingColumn,
    /// The key method cannot encode group columns of these types.
    BadKeyColumns,
    /// The columns handed over do not make a block of the given schema.
    BadBlock,
    /// The source of the blocks failed with this code.
    Upstream(u32),
    /// An aggregate function failed with this code.
    Function(u32),
}

impl ErrorCode {
    /// The kind that an error belongs to.
    pub open spec fn spec_kind(&self) -> ErrorKind {
        match self {
            ErrorCode::UnknownColumn => ErrorKind::Configuration,
            ErrorCode::UnsupportedFunction => ErrorKind::Configuration,
            ErrorCode::BadStateLayout => ErrorKind::Configuration,
            ErrorCode::MissingColumn => ErrorKind::Schema,
            ErrorCode::BadKeyColumns => ErrorKind::Schema,
            ErrorCode::BadBlock => ErrorKind::Schema,
            ErrorCode::Upstream(_) => ErrorKind::Upstream,
            ErrorCode::Function(_) => ErrorKind::Function,
        }
    }

    /// The kind that this error belongs to.
    pub fn kind(&self) -> (kind: ErrorKind)
        ensures
            kind == self.spec_kind(),
    {
        match self {
            ErrorCode::UnknownColumn => ErrorKind::Configuration,
            ErrorCode::UnsupportedFunction => ErrorKind::Configuration,
            ErrorCode::BadStateLayout => ErrorKind::Configuration,
            ErrorCode::MissingColumn => ErrorKind::Schema,
            ErrorCode::BadKeyColumns => ErrorKind::Schema,
            ErrorCode::BadBlock => ErrorKind::Schema,
            ErrorCode::Upstream(_) => ErrorKind::Upstream,
            ErrorCode::Function(_) => ErrorKind::Function,
        }
    }
}

} // verus!
