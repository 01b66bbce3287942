//! The decision core of an embedded multi-version record store.

pub mod alter;
pub mod alter_laws;
pub mod apply;
pub mod batch;
pub mod batch_laws;
pub mod bulk;
pub mod bulk_laws;
pub mod bytes;
pub mod catalog;
pub mod catalog_laws;
pub mod checkpoint;
pub mod checkpoint_laws;
pub mod checksum;
pub mod commit;
pub mod commit_laws;
pub mod compact;
pub mod compact_laws;
pub mod conflict_laws;
pub mod cow;
pub mod ddl;
pub mod ddl_laws;
pub mod debt;
pub mod derived;
pub mod disk;
pub mod disk_laws;
pub mod disk_loads;
pub mod disk_open;
pub mod disk_steps;
pub mod disk_upkeep;
pub mod distance;
pub mod dump;
pub mod error;
pub mod event_laws;
pub mod file_laws;
pub mod files;
pub mod find;
pub mod find_laws;
pub mod foreign;
pub mod foreign_laws;
pub mod format_laws;
pub mod frozen;
pub mod ids;
pub mod index_laws;
pub mod invariant_laws;
pub mod journal_laws;
pub mod json;
pub mod levels;
pub mod lockstat;
pub mod log;
pub mod lookup_laws;
pub mod manifest;
pub mod marks;
pub mod memory;
pub mod model;
pub mod open;
pub mod options;
pub mod order;
pub mod outcome_laws;
pub mod paged;
pub mod pairs;
pub mod payload;
pub mod pipeline;
pub mod plain_laws;
pub mod prepare;
pub mod primary;
pub mod publish;
pub mod reads;
pub mod record;
pub mod recover;
pub mod rule_laws;
pub mod scan;
pub mod scan_laws;
pub mod schema;
pub mod search;
pub mod search_laws;
pub mod secondary;
pub mod segment;
pub mod segwrite;
pub mod staged;
pub mod state;
pub mod stats;
pub mod stream_laws;
pub mod text;
pub mod txn;
pub mod txn_laws;
pub mod unique;
pub mod upkeep_laws;
pub mod value;
pub mod vectors;
pub mod version;
pub mod visit;
pub mod wal;
