//! A clipboard history: a bounded, newest-first store of clipboard captures
//! whose large payloads live in a content-addressed blob area, the decisions
//! of a clipboard-control protocol session, and the watch and pick paths
//! that connect the two.
pub mod blob_store;
pub mod clipboard;
pub mod codec;
pub mod paths;
pub mod pick;
pub mod preview;
pub mod session;
pub mod snapshot;
pub mod storage;
pub mod type_map;
