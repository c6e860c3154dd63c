//! Failure taxonomy of the engine.
//!
//! Every operation returns a `Result` carrying one of these values; no
//! operation panics on user-controlled input. Offending shapes, indices and
//! bounds ride along as fields.

use vstd::prelude::*;

verus! {

/// The element-type tag of a polymorphic value, used in type-mismatch reports.
#[derive(Clone, Copy, Debug, PartialEq, Eq, Structural)]
pub enum TypeTag {
    Num,
    Byte,
    Char,
    Complex,
}

/// A failed array operation.
#[derive(Clone, Copy, Debug, PartialEq, Eq, Structural)]
pub enum ArrayError {
    /// A reshape request named more than one negative (inferred) dimension.
    MultipleNegativeDims,
    /// A reshape placeholder was requested while another dimension is zero.
    ZeroDimWithPlaceholder,
    /// Reshaping an empty array to a non-empty target needs a fill value.
    EmptyReshapeNoFill,
    /// Undoing a scalar-form reshape is ambiguous.
    ScalarUnreshape,
    /// Undoing a reshape or rerank whose restored shape no longer accounts
    /// for the element count; both counts ride along.
    UnreshapeCountMismatch { old_count: usize, new_count: usize },
    /// A negative rerank magnitude exceeded the array's rank.
    RerankTooNegative { magnitude: usize, rank: usize },
    /// Keep counts and rows cannot be reconciled; `fill_available` tells
    /// whether a fill value was in scope when the mismatch was found.
    KeepShapeMismatch { counts_len: usize, row_count: usize, fill_available: bool },
    /// The fill value offered for keep counts was negative.
    BadKeepFill { fill: i64 },
    /// A scalar keep cannot be undone: it has no per-row counts to invert.
    ScalarUnkeep,
    /// Keep can only be undone with boolean (0/1) counts.
    NonBooleanUnkeep,
    /// The kept array lost rows, so the keep cannot be undone.
    KeptRowsMissing,
    /// A kept row's shape was edited, so the keep cannot be undone.
    KeptShapeChanged,
    /// More rotation offsets than axes.
    RotateRank { rank: usize, offsets: usize },
    /// A depth-wise rotation's offsets must form rank-0 or rank-1 cells.
    RotateByRank { rank: usize },
    /// A window size of zero was requested.
    WindowSizeZero,
    /// More window sizes than axes.
    WindowRank { rank: usize, sizes: usize },
    /// A window size's magnitude exceeded its axis length.
    WindowTooLarge { size: isize, dim: usize },
    /// The two operands' element types cannot be combined.
    TypeMismatch { a: TypeTag, b: TypeTag },
    /// The value used as an index or count is not made of integers.
    NotIntegers { tag: TypeTag },
    /// A count or index that must be non-negative was negative.
    NegativeCount { value: i64 },
    /// An index fell outside `[-len, len)` with no fill value to recover with.
    OutOfBounds { index: isize, len: usize, axis: usize },
    /// An index list is longer than the array's rank.
    IndexRank { rank: usize, index_len: usize },
    /// Take or drop from a rank-0 array.
    ScalarStructure,
    /// Take beyond the available rows with no fill value in scope.
    TakeTooFar { taking: usize, row_count: usize },
    /// An undo was attempted with duplicate resolved indices.
    DuplicateIndices,
    /// The extracted section's shape was edited, so the operation cannot be
    /// undone.
    UndoShapeChanged,
    /// A selection through a multi-dimensional index array cannot be
    /// undone.
    UndoMultiSelect,
    /// The requested result would exceed the machine's addressable size.
    TooLarge,
    /// Two arrays' depth prefixes cannot be aligned.
    PrefixMismatch,
}

} // verus!
