use vstd::prelude::*;

verus! {

/// Every way an operation on a cache or a bucket can fail.
///
/// Arity errors carry `(expected, actual)`; type errors carry the offending
/// column position.
#[derive(Debug, Clone, Copy, PartialEq, Eq, Structural)]
pub enum Error {
    /// A bucket was built from an empty schema.
    NoColumn,
    /// A cache operation named a bucket that does not exist.
    InvalidBucket,
    /// A pattern holds a `ColumnRef` whose token is not the evaluating
    /// bucket's, or whose column id is out of range.
    InvalidColumnRef,
    /// A pattern holds a `Single` whose value type disagrees with the
    /// referenced column's type.
    InvalidColumnMatch,
    /// An inserted row's length differs from the column count.
    WrongNumberOfValues(usize, usize),
    /// An inserted row's value type disagrees with the column at this index.
    WrongValueType(usize),
    /// A match vector's length differs from the column count.
    WrongNumberOfMatches(usize, usize),
    /// A non-wildcard matcher's type disagrees with the column at this index.
    WrongMatchType(usize),
    /// A match vector consists of wildcards only.
    NothingToMatch,
}

} // verus!
