//! Directory synchronisation over datagrams: a bit map of received chunks,
//! the wire formats, a content-addressed block store, the walk over the block
//! tree and the per-peer transfer bookkeeping.

pub mod bitmap;
pub mod blockdb;
pub mod bytes;
pub mod client;
pub mod codec;
pub mod congestion;
pub mod frontend;
pub mod handler;
pub mod receiver;
pub mod rle;
pub mod stream;
pub mod timeout;
pub mod transfer;
pub mod tree;
pub mod varint;
pub mod wire;
