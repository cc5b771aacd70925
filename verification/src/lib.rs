//! A minimal HTTP/1.1 server engine: byte-level message framing, multipart
//! decomposition, exact-match routing with static-file mappings, and
//! response serialization, each pinned down by its contract. Reading and
//! writing sockets, and running handlers, belong to the embedding program;
//! everything that decides or computes lives here.

pub mod bytes;
pub mod codec;
pub mod cookie;
pub mod headers;
pub mod logs;
pub mod multipart;
pub mod request;
pub mod response;
pub mod server;
pub mod utils;
