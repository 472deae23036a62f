//! An iterative DNS stub resolver: a verified wire-format codec for DNS
//! messages (header, questions, resource records, compressed names), a
//! bounded time-to-live resolution cache, and the decision logic of the
//! delegation walk from a root hint to an authoritative answer.
//!
//! Network transport (UDP sockets) and the HTTP front end live outside this
//! library; they drive the session state machine defined here and hand it
//! raw reply bytes.

use vstd::prelude::*;

mod addr;
mod cache;
mod codec;
mod names;
mod resolver;

pub use addr::{parse_ipv4, reverse_query_name, Ipv4};
pub use cache::ResolutionCache;
pub use codec::{Class, DNSHeader, DNSPacket, DNSQuestion, DNSRecord, DNSRecordData, RecordType};
pub use names::{decode_compressed_name, decode_name, encode_dns_name};
pub use resolver::{DNSResolver, Decision, QueryMode, Session};

verus! {

/// Every way a resolution or a codec operation can fail.
#[derive(Debug, Clone, Copy, PartialEq, Eq, Structural)]
pub enum DnsError {
    /// A decode-time structural violation: truncated buffer, bad pointer,
    /// or header counts that do not match the records present.
    MalformedMessage,
    /// A class code other than the Internet class.
    UnsupportedClass,
    /// A name that cannot be encoded: a label longer than 63 bytes
    /// or text that is not ASCII.
    InvalidName,
    /// A syntactically valid reply that carries none of the three expected
    /// resolution signals (answer, glue address, nameserver name).
    NoUsableAnswer,
    /// The delegation walk exceeded the maximum hop count.
    TooManyHops,
    /// Nested nameserver-hostname resolution exceeded the depth budget.
    DelegationTooDeep,
    /// No reply arrived within the transport's timeout window.
    Timeout,
    /// A socket-level send or receive failure.
    TransportFailure,
}

} // verus!
