//! Reliable, memory-bounded file transfer over unordered datagrams.
//!
//! The crate provides the pure core of a UDP-style chunked file transfer
//! protocol: a big-endian codec and packet builders for every wire layout,
//! a parser that turns inbound datagrams into transactions, an interval
//! tree that tracks which chunk indices of a window are still missing,
//! and the stateful pieces of the server and client engines.  All I/O
//! (sockets, files, clocks) lives outside the crate; the functions here
//! take and return plain values and are verified against their contracts.

pub mod client;
pub mod codec;
pub mod range_tree;
pub mod server;
pub mod transaction;

pub use codec::BUFFER_SIZE;
pub use codec::PACKET_SIZE;
pub use codec::chunk_data_packet;
pub use codec::lemma_u64_codec_round_trip;
pub use codec::metadata_request_packet;
pub use codec::metadata_response_packet;
pub use codec::nil_response_packet;
pub use codec::pack_u64_into_u8arr;
pub use codec::range_chunk_request_packet;
pub use codec::spec_u64_from_be_bytes;
pub use codec::spec_u64_to_be_bytes;
pub use codec::unpack_u8arr_into_u64;
pub use range_tree::Node;
pub use range_tree::RangeTree;
pub use transaction::ChunkTransaction;
pub use transaction::add_chunk_transaction;
pub use transaction::add_metadata_transaction;
pub use transaction::server_handle_inbound;
