//! Pack-based persistent cache storage: the framed pack and meta file
//! formats, bucket routing, the split/merge flush planner, the pending
//! update buffer and an in-memory file store that runs the whole engine.

pub mod bytes;
pub mod decimal;
pub mod codec;
pub mod bucket;
pub mod updates;
pub mod pack;
pub mod merge;
pub mod split;
pub mod meta;
pub mod strategy;
pub mod scope;
pub mod memory_fs;
pub mod stream;
pub mod load;
pub mod storage;
pub mod disk;
pub mod error;
pub mod read_pack;
pub mod ids;
pub mod index;
