pub mod append_buffer;
pub mod arena;
pub mod bytes;
pub mod cache;
pub mod commit;
pub mod contents;
pub mod covering;
pub mod damage;
pub mod database;
pub mod effects;
pub mod epoch;
pub mod fences;
pub mod group;
pub mod index;
pub mod journal;
pub mod keymap;
pub mod laws;
pub mod layout;
pub mod lineage;
pub mod maintenance;
pub mod manifest;
pub mod merge;
pub mod mergepage;
pub mod model;
pub mod names;
pub mod overlay;
pub mod packed;
pub mod packedcopy;
pub mod packedstore;
pub mod pagewriter;
pub mod page;
pub mod publication;
pub mod reclaim;
pub mod rows;
pub mod scan;
pub mod search;
pub mod snapshot;
pub mod staging;
pub mod transaction;
pub mod tree;
pub mod update;
pub mod upkeep;
pub mod walk;
pub mod writer;

pub use database::Database;
pub use effects::Step;
pub use model::{Entry, Error, Options, Stats};
pub use snapshot::Snapshot;
pub use transaction::Transaction;
