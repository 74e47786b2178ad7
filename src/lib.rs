//! A DNS wire-format codec over a fixed 512-octet buffer, and the decisions of
//! a forwarding resolver that answers each query from an upstream server.
pub mod error;
pub mod buffer;
pub mod name;
pub mod header;
pub mod question;
pub mod record;
pub mod packet;
pub mod forward;

pub use buffer::BytePacketBuffer;
pub use error::DnsError;
pub use forward::{build_response, first_question, query_packet, upstream_reply};
pub use header::{DnsHeader, ResultCode};
pub use name::encode_qname;
pub use packet::DnsPacket;
pub use question::{DnsQuestion, QueryType};
pub use record::DnsRecord;
