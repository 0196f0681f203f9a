//! `chronodb`: an embedded time-series storage engine.
//!
//! A [`Store`] ingests [`DataPoint`]s into time-partitioned [`Series`], answers
//! windowed range queries via [`QuerySpec`], and enforces retention. The
//! engine reads no clock and touches no file: a [`WriteAheadLog`] records the
//! ingested points, and replaying its records rebuilds a store
//! ([`Store::from_records`]). Measured values are carried through untouched;
//! only timestamps are interpreted.
pub mod aggregate;
pub mod cli;
pub mod error;
pub mod key;
pub mod partition;
pub mod point;
pub mod query;
pub mod retention;
pub mod series;
pub mod store;
pub mod wal;

pub use aggregate::{Aggregation, WindowGroup, group_windows};
pub use cli::AggArg;
pub use error::CoreError;
pub use partition::Partition;
pub use point::{DataPoint, SeriesKey, Timestamp};
pub use query::QuerySpec;
pub use series::Series;
pub use store::Store;
pub use wal::{InMemoryWal, StoreError, WalRecord, WriteAheadLog, log_lines};
