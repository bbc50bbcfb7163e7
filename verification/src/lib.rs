//! A recursive DNS resolver's core: the wire codec for DNS messages and the
//! decisions of the iterative walk from the root servers down.
//!
//! Messages are read from and written to packet buffers (`buffer`): names
//! with their compression pointers (`name`), then headers, questions and
//! records (`dns_header`, `dns_question`, `dns_record`) and whole messages
//! (`dns_packet`). What a response says about where to ask next is in
//! `referral`, and the walk that follows such referrals in `resolver`.
//! That what is written is read back is shown in `round_trip` for names
//! and in `read_back` for messages. Sending and receiving is left to the
//! program that uses the library.

pub mod address;
pub mod buffer;
pub mod dns_header;
pub mod dns_packet;
pub mod dns_question;
pub mod dns_record;
pub mod error;
pub mod name;
pub mod query_type;
pub mod read_back;
pub mod referral;
pub mod resolver;
pub mod result_code;
pub mod round_trip;
pub mod wire;

pub use address::{Ipv4, Ipv6};
pub use buffer::{
    ByteSource, BytePacketBuffer, LabelIndex, PacketBuffer, StreamPacketBuffer, VectorPacketBuffer,
};
pub use dns_header::DnsHeader;
pub use dns_packet::DnsPacket;
pub use dns_question::DnsQuestion;
pub use dns_record::DnsRecord;
pub use error::BufferError;
pub use query_type::QueryType;
pub use resolver::{build_query, build_reply, classify, Step, Walker};
pub use result_code::ResultCode;
