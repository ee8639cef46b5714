//! Why a selection fails.
use crate::datatype::DataType;
use crate::text::{around, decimal, describe_type, to_decimal, type_text};
use std::sync::Arc;
use vstd::prelude::*;
use vstd::string::StringExecFns;

verus! {

#[derive(Debug, PartialEq, Eq)]
pub enum TakeError {
    /// The indices are of this type, which is none of the integers.
    NotIntegers(Arc<DataType>),
    /// An index is beyond what the machine can address.
    IndexTooLarge,
    /// Bounds are checked, and `index` is not one of `len` slots.
    OutOfBounds { index: i128, len: usize },
    /// The offsets of the result cannot reach this far.
    OffsetOverflow(u64),
    /// A fixed size is negative.
    NegativeSize(i32),
    /// A run-end encoded array has no slot at `position`, the largest one asked for.
    RunOutOfBounds { position: usize, len: usize },
    /// The run ends of the result cannot reach this far.
    RunEndOverflow(usize),
    /// A type id of the result belongs to no field.
    UnknownTypeId,
    /// An offset into the child of a dense union leads nowhere, or does not fit its type.
    UnionOffset,
    /// A record batch without columns says nothing of how many rows it has.
    NoColumns,
    /// The column of this name may not hold nulls, and would.
    UnexpectedNulls(String),
}

impl TakeError {
    /// What the error says.
    pub open spec fn text(self) -> Seq<char> {
        match self {
            TakeError::NotIntegers(dt) => {
                "Invalid argument error: Take only supported for integers, got "@ + type_text(*dt)
            },
            TakeError::IndexTooLarge => "Compute error: Cast to usize failed"@,
            TakeError::OutOfBounds { index, len } => {
                "Compute error: Array index out of bounds, cannot get item at index "@ + decimal(
                    index as int,
                ) + " from "@ + decimal(len as int) + " entries"@
            },
            TakeError::OffsetOverflow(reach) => {
                "Offset overflow error: "@ + decimal(reach as int)
            },
            TakeError::NegativeSize(size) => {
                "Invalid argument error: Cannot convert size '"@ + decimal(size as int)
                    + "' to usize"@
            },
            TakeError::RunOutOfBounds { position, len } => {
                "Invalid argument error: Logical index "@ + decimal(position as int)
                    + " is out of bounds for RunArray of length "@ + decimal(len as int)
            },
            TakeError::RunEndOverflow(len) => {
                "Compute error: Run end overflow at "@ + decimal(len as int)
            },
            TakeError::UnknownTypeId =>
                "Invalid argument error: Type Ids values must match one of the field type ids"@,
            TakeError::UnionOffset =>
                "Invalid argument error: Offsets must be non-negative and within the length of the Array"@,
            TakeError::NoColumns =>
                "Invalid argument error: must either specify a row count or at least one column"@,
            TakeError::UnexpectedNulls(column) => {
                "Invalid argument error: Column '"@ + column@
                    + "' is declared as non-nullable but contains null values"@
            },
        }
    }

    /// What the error says, as a string.
    pub fn message(&self) -> (message: String)
        ensures
            message@ == self.text(),
    {
        match self {
            TakeError::NotIntegers(dt) =>
                "Invalid argument error: Take only supported for integers, got ".to_owned().concat(
                    describe_type(dt).as_str(),
                ),
            TakeError::IndexTooLarge => "Compute error: Cast to usize failed".to_owned(),
            TakeError::OutOfBounds { index, len } => around(
                "Compute error: Array index out of bounds, cannot get item at index ",
                *index,
                " from ",
            ).concat(to_decimal(*len as i128).as_str()).concat(" entries"),
            TakeError::OffsetOverflow(reach) => "Offset overflow error: ".to_owned().concat(
                to_decimal(*reach as i128).as_str(),
            ),
            TakeError::NegativeSize(size) => around(
                "Invalid argument error: Cannot convert size '",
                *size as i128,
                "' to usize",
            ),
            TakeError::RunOutOfBounds { position, len } => around(
                "Invalid argument error: Logical index ",
                *position as i128,
                " is out of bounds for RunArray of length ",
            ).concat(to_decimal(*len as i128).as_str()),
            TakeError::RunEndOverflow(len) => "Compute error: Run end overflow at ".to_owned().concat(
                to_decimal(*len as i128).as_str(),
            ),
            TakeError::UnknownTypeId =>
                "Invalid argument error: Type Ids values must match one of the field type ids".to_owned(),
            TakeError::UnionOffset =>
                "Invalid argument error: Offsets must be non-negative and within the length of the Array".to_owned(),
            TakeError::NoColumns =>
                "Invalid argument error: must either specify a row count or at least one column".to_owned(),
            TakeError::UnexpectedNulls(column) => "Invalid argument error: Column '".to_owned().concat(
                column.as_str(),
            ).concat("' is declared as non-nullable but contains null values"),
        }
    }
}

} // verus!
