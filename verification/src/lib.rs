//! An in-process, columnar, multi-column indexed in-memory store.
//!
//! A [`Cache`] maps names to buckets. Each [`Bucket`] holds typed rows under
//! a fixed schema, keeps one inverted index per column (value to compressed
//! bitmap of row ids), answers flat match-vector queries and And/Or pattern
//! queries by bitmap set algebra, and deletes rows logically through a
//! tombstone bitmap.
//!
//! Every public operation carries a contract over the abstract views
//! ([`BucketView`], [`CacheView`]); the laws the store obeys are stated and
//! proved alongside the bucket.

mod bitmap;
mod bucket;
mod cache;
mod column;
mod errs;
mod index;
mod matches;
mod pattern;
mod token;
mod value;

pub use bucket::{Bucket, BucketBuilder, BucketStats, BucketView};
pub use cache::{Cache, CacheStats, CacheView};
pub use column::{Column, ColumnBuilder, ColumnRef};
pub use errs::Error;
pub use index::{Index, IndexStats, IndexView};
pub use matches::{Match, MatchResults, MatchView};
pub use pattern::Pattern;
pub use token::Token;
pub use value::{Value, ValueStore, ValueView};
