//! Device-to-device sync: the wire rows, the three-way merge, and the
//! decisions of the sync engine and its HTTP peer.

pub mod model;
pub mod merge;
pub mod order;
pub mod merge_laws;
pub mod merge_keep;
pub mod http;
pub mod http_laws;
pub mod engine;
