//! A DNS message codec and the decision logic of a minimal forwarding
//! resolver.
//!
//! The codec works on a fixed 512-byte packet buffer with an explicit
//! cursor: big-endian integers, length-prefixed name labels with
//! compression-pointer dereferencing, and the header, question, record and
//! whole-message layers built on top of it.  Every operation is verified
//! against a byte-level model of the wire format.  Socket I/O stays
//! outside this crate; the forwarding decisions themselves (how a query is
//! built, how a response is assembled from a request and the upstream's
//! answer) are verified functions over plain messages.

pub mod byte_packet_buffer;
pub mod dns_error;
pub mod dns_header;
pub mod dns_packet;
pub mod dns_question;
pub mod dns_record;
pub mod qname;
pub mod query_type;
pub mod resolver;
pub mod result_code;
pub mod wire;
