//! The server side: the chunk and snapshot store, the sync session, and
//! the HTTP read path.

pub mod http;
pub mod storage;
pub mod sync;
