use vstd::prelude::*;

pub mod text;
pub mod strmap;
pub mod meta;
pub mod attrfile;
pub mod store;
pub mod snapshot;
pub mod replica;
pub mod exchange;
pub mod scan;
pub mod display;
pub mod dates;
pub mod size;
pub mod selection;
pub mod session;
pub mod preview;
pub mod ingest;
pub mod paths;
pub mod commands;
pub mod listing;
pub mod lsview;
pub mod args;
pub mod ulid;
pub mod buckets;
pub mod events;
pub mod cache;
pub mod json;
pub mod watch;
