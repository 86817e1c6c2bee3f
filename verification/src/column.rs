use vstd::prelude::*;

use crate::token::Token;

verus! {

/// The declared type of one column of a bucket's schema.
///
/// The two string flavors are distinct column types: `Str` is meant for
/// values the caller hands in as borrowed slices, `OwnedStr` for values the
/// caller hands in as owned strings. This store keeps both owned.
#[derive(Debug, Clone, Copy, PartialEq, Eq, Structural)]
pub enum Column {
    UInt,
    Int,
    Boolean,
    Str,
    OwnedStr,
}

/// One column of a schema under construction; see [`crate::BucketBuilder`].
#[derive(Debug, Clone, Copy, PartialEq, Eq, Structural)]
pub enum ColumnBuilder {
    UInt,
    Int,
    Boolean,
    Str,
    OwnedStr,
}

impl ColumnBuilder {
    /// The column type this builder entry declares.
    pub open spec fn as_column(self) -> Column {
        match self {
            ColumnBuilder::UInt => Column::UInt,
            ColumnBuilder::Int => Column::Int,
            ColumnBuilder::Boolean => Column::Boolean,
            ColumnBuilder::Str => Column::Str,
            ColumnBuilder::OwnedStr => Column::OwnedStr,
        }
    }

    /// Turns a builder entry into the column type it declares.
    pub fn to_column(&self) -> (c: Column)
        ensures
            c == self.as_column(),
    {
        match self {
            ColumnBuilder::UInt => Column::UInt,
            ColumnBuilder::Int => Column::Int,
            ColumnBuilder::Boolean => Column::Boolean,
            ColumnBuilder::Str => Column::Str,
            ColumnBuilder::OwnedStr => Column::OwnedStr,
        }
    }
}

/// Capability handle for one column of one bucket.
///
/// It carries the issuing bucket's token, the column position and the
/// column's declared type, all by value: it never points into bucket memory,
/// so it may be retained freely and is re-validated each time a pattern is
/// evaluated.
#[derive(Debug, Clone, Copy, PartialEq, Eq, Structural)]
pub struct ColumnRef {
    /// Position of the column in the issuing bucket's schema.
    pub id: usize,
    /// Token of the issuing bucket.
    pub t: Token,
    /// Declared type of the column, as recorded at issue time.
    pub r: Column,
}

} // verus!
