//! Verified core of an activity tracker: event transforms, the offline
//! heartbeat queue, the datastore's bookkeeping, and the text that the
//! command-line client prints.

pub mod answers;
pub mod changes;
pub mod classes;
pub mod cli;
pub mod config;
pub mod datastore;
pub mod event;
pub mod filter_period;
pub mod flood;
pub mod json;
pub mod legacy_clean;
pub mod model;
pub mod options;
pub mod query;
pub mod queue;
pub mod queue_file;
pub mod report;
pub mod selections;
pub mod sql;
pub mod tables;
pub mod text;
pub mod textmap;
pub mod time;
pub mod union_no_overlap;
pub mod worker;
