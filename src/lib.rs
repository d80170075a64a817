//! Columnar storage of row-oriented time series records.
//!
//! A record shape is described by a [`schema::Descriptor`]. Records are
//! bucketed by their group key, every other field is encoded as one
//! compressed column, and a bucket becomes one wide database row.

pub mod codec;
pub mod filter;
pub mod group;
pub mod input;
pub mod record;
pub mod query;
pub mod schema;
pub mod sql;
pub mod store;
pub mod time;
