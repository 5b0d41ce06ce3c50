//! A codec and in-memory model for DNS messages in the RFC 1035 wire format,
//! and the decisions of a small name server that answers from a directory.
//!
//! A message lives in a fixed buffer of 512 bytes with one cursor. The
//! modules build on each other:
//!
//! - `wire`: the vocabulary of the contracts, such as what a run of bytes
//!   does to a buffer and where the cursor comes to stand;
//! - `byte_packet_buffer`: the buffer and its big-endian primitives;
//! - `name`, `text` and `qname`: domain names as labels on the wire, with
//!   compression pointers, and as dotted text;
//! - `query_type`, `result_code`, `header`, `question`, `record` and
//!   `packet`: the parts of a message and the message itself;
//! - `round_trip`: what is written is read back;
//! - `directory`: finding the address of a name in a listing in JSON;
//! - `server`: which name a request asks for, and what the response holds.
//!
//! Every function carries a contract. Reading is stated by a parser over
//! the bytes of the buffer, writing by the bytes that are put out; both say
//! where the cursor ends and which error is returned, also where an
//! operation fails half way.

pub mod error;
pub mod wire;
pub mod byte_packet_buffer;
pub mod name;
pub mod text;
pub mod qname;
pub mod query_type;
pub mod result_code;
pub mod header;
pub mod question;
pub mod record;
pub mod packet;
pub mod round_trip;
pub mod directory;
pub mod server;

pub use byte_packet_buffer::BytePacketBuffer;
pub use error::DnsError;
pub use header::DnsHeader;
pub use packet::DnsPacket;
pub use question::DnsQuestion;
pub use record::DnsRecord;
pub use query_type::QueryType;
pub use result_code::ResultCode;
