//! The iterative resolver's decision logic: building queries and, for each
//! decoded reply, choosing among the four outcomes of a delegation step.
//! The network transport drives this state machine from outside: it sends
//! the query this module builds, hands the reply bytes back through the
//! codec, and acts on the returned decision.

use crate::addr::{parse_ipv4, spec_parse_ipv4, Ipv4};
use crate::codec::{
    first_addr, first_name, Class, DNSHeader, DNSPacket, DNSQuestion, RecordType, SpecPacket,
    u16_be,
};
use crate::names::{
    char_bytes, encode_name_bytes, labels_within_limit, lemma_encode_ascii, string_from_ascii,
};
use crate::DnsError;
use vstd::prelude::*;
use vstd::string::{is_ascii, StringExecFns};
use vstd::utf8::is_ascii_chars;

verus! {

/// The most delegation hops one resolution may take before it fails with
/// `TooManyHops`.
pub const MAX_HOPS: u8 = 16;

/// The most nested nameserver-hostname resolutions allowed before the
/// walk fails with `DelegationTooDeep`.
pub const MAX_NS_DEPTH: u8 = 8;

/// Whether a session resolves a name to an address or an address back to
/// a name.
#[derive(Debug, Clone, Copy, PartialEq, Eq, Structural)]
pub enum QueryMode {
    Forward,
    Reverse,
}

/// What the resolver decides after one reply, in the fixed order: a
/// terminal answer, a glue address to query next, a nameserver hostname
/// that itself needs resolving, or a failure.
#[derive(Debug, Clone)]
pub enum Decision {
    Answer(Ipv4),
    AnswerName(String),
    NextServer(Ipv4),
    ResolveNameserver(String),
    Fail(DnsError),
}

/// The mathematical shape of a decision.
pub enum SpecDecision {
    Answer(Ipv4),
    AnswerName(Seq<u8>),
    NextServer(Ipv4),
    ResolveNameserver(Seq<u8>),
    Fail(DnsError),
}

/// The decision a reply dictates, first match winning: a terminal answer
/// of the mode's shape among the answers, then a glue address among the
/// additionals, then a nameserver hostname among the authorities, and
/// otherwise no usable answer.
pub open spec fn spec_decision(mode: QueryMode, p: SpecPacket) -> SpecDecision {
    if mode == QueryMode::Forward && first_addr(p.answers) is Some {
        SpecDecision::Answer(first_addr(p.answers)->Some_0)
    } else if mode == QueryMode::Reverse && first_name(p.answers) is Some {
        SpecDecision::AnswerName(first_name(p.answers)->Some_0)
    } else if first_addr(p.additionals) is Some {
        SpecDecision::NextServer(first_addr(p.additionals)->Some_0)
    } else if first_name(p.authorities) is Some {
        SpecDecision::ResolveNameserver(first_name(p.authorities)->Some_0)
    } else {
        SpecDecision::Fail(DnsError::NoUsableAnswer)
    }
}

/// One resolution in progress: the invariant query name, the server to
/// ask next, and the two guards against walks that never end.
#[derive(Debug, Clone)]
pub struct Session {
    pub mode: QueryMode,
    pub query_name: String,
    pub target: Ipv4,
    pub hops_left: u8,
    pub depth_left: u8,
}

impl Session {
    /// Opens a session that will first ask `root_hint`, with the full hop
    /// budget and the given nested-resolution budget.
    pub fn start(mode: QueryMode, query_name: String, root_hint: Ipv4, depth: u8) -> (s: Session)
        ensures
            s.mode == mode,
            s.query_name == query_name,
            s.target == root_hint,
            s.hops_left == MAX_HOPS,
            s.depth_left == depth,
    {
        Session { mode, query_name, target: root_hint, hops_left: MAX_HOPS, depth_left: depth }
    }

    /// The record type this session queries for: addresses forward,
    /// reverse-pointer names backward.
    pub fn query_type(&self) -> (t: RecordType)
        ensures
            t == if self.mode == QueryMode::Forward {
                RecordType::A
            } else {
                RecordType::Ptr
            },
    {
        match self.mode {
            QueryMode::Forward => RecordType::A,
            QueryMode::Reverse => RecordType::Ptr,
        }
    }

    /// Digests one decoded reply. A terminal answer ends the session; a
    /// glue address moves the target there; a bare nameserver hostname
    /// asks the driver to resolve it first. Each continuing branch spends
    /// one hop, and a continuing branch with no hops left fails with
    /// `TooManyHops`; descending with no depth left fails with
    /// `DelegationTooDeep`.
    pub fn on_reply(&mut self, packet: &DNSPacket) -> (d: Decision)
        ensures
            final(self).mode == old(self).mode,
            final(self).query_name == old(self).query_name,
            final(self).depth_left == old(self).depth_left,
            match spec_decision(old(self).mode, packet@) {
                SpecDecision::Answer(ip) => d == Decision::Answer(ip) && *final(self) == *old(self),
                SpecDecision::AnswerName(nm) => (d matches Decision::AnswerName(s) && char_bytes(
                    s@,
                ) == nm) && *final(self) == *old(self),
                SpecDecision::NextServer(ip) => if old(self).hops_left == 0 {
                    d == Decision::Fail(DnsError::TooManyHops) && *final(self) == *old(self)
                } else {
                    d == Decision::NextServer(ip) && final(self).target == ip && final(self).hops_left == old(self).hops_left - 1
                },
                SpecDecision::ResolveNameserver(nm) => if old(self).hops_left == 0 {
                    d == Decision::Fail(DnsError::TooManyHops) && *final(self) == *old(self)
                } else if old(self).depth_left == 0 {
                    d == Decision::Fail(DnsError::DelegationTooDeep) && *final(self) == *old(self)
                } else {
                    (d matches Decision::ResolveNameserver(s) && char_bytes(s@) == nm) && final(self).target == old(self).target && final(self).hops_left == old(self).hops_left
                        - 1
                },
                SpecDecision::Fail(e) => d == Decision::Fail(e) && *final(self) == *old(self),
            },
    {
        if self.mode == QueryMode::Forward {
            match packet.get_answer() {
                Some(ip) => {
                    return Decision::Answer(ip);
                },
                None => {},
            }
        } else {
            match packet.get_answer_name() {
                Some(nm) => {
                    return Decision::AnswerName(nm);
                },
                None => {},
            }
        }
        match packet.get_nameserver_ip() {
            Some(ip) => {
                if self.hops_left == 0 {
                    return Decision::Fail(DnsError::TooManyHops);
                }
                self.hops_left = self.hops_left - 1;
                self.target = ip;
                return Decision::NextServer(ip);
            },
            None => {},
        }
        match packet.get_nameserver() {
            Some(nm) => {
                if self.hops_left == 0 {
                    return Decision::Fail(DnsError::TooManyHops);
                }
                if self.depth_left == 0 {
                    return Decision::Fail(DnsError::DelegationTooDeep);
                }
                self.hops_left = self.hops_left - 1;
                Decision::ResolveNameserver(String::from_str(nm))
            },
            None => Decision::Fail(DnsError::NoUsableAnswer),
        }
    }

    /// The session a nameserver-hostname resolution runs as: forward
    /// mode, a fresh hop budget, one level of depth spent.
    pub fn nested_session(&self, ns_name: String, root_hint: Ipv4) -> (s: Session)
        requires
            self.depth_left >= 1,
        ensures
            s.mode == QueryMode::Forward,
            s.query_name == ns_name,
            s.target == root_hint,
            s.hops_left == MAX_HOPS,
            s.depth_left == self.depth_left - 1,
    {
        Session {
            mode: QueryMode::Forward,
            query_name: ns_name,
            target: root_hint,
            hops_left: MAX_HOPS,
            depth_left: self.depth_left - 1,
        }
    }

    /// Continues after the driver resolved a nameserver hostname: the next
    /// query goes to that address.
    pub fn on_nameserver_resolved(&mut self, addr: Ipv4)
        ensures
            final(self).mode == old(self).mode,
            final(self).query_name == old(self).query_name,
            final(self).hops_left == old(self).hops_left,
            final(self).depth_left == old(self).depth_left,
            final(self).target == addr,
    {
        self.target = addr;
    }
}

/// The bytes of a freshly built query after its random identifier: the
/// recursion-desired flag word, a question count of one, empty sections,
/// then the encoded name with its type and class codes.
pub open spec fn spec_query_tail(name: Seq<u8>, t: RecordType, c: Class) -> Seq<u8> {
    seq![1u8, 0u8, 0u8, 1u8, 0u8, 0u8, 0u8, 0u8, 0u8, 0u8] + encode_name_bytes(name) + u16_be(
        t.spec_code(),
    ) + u16_be(c.spec_code())
}

/// The iterative resolver: it remembers the root hint every walk starts
/// from. The walk itself is driven from outside through `Session`.
#[derive(Debug, Clone)]
pub struct DNSResolver {
    id_addr: Ipv4,
}

impl DNSResolver {
    /// The root-hint address the resolver was built with.
    pub closed spec fn spec_root(self) -> Ipv4 {
        self.id_addr
    }

    /// Builds a resolver from a root-hint address in dotted-quad text.
    /// The text must spell an address.
    pub fn new(id_addr: &str) -> (r: DNSResolver)
        requires
            is_ascii_chars(id_addr@),
            spec_parse_ipv4(char_bytes(id_addr@)) is Some,
        ensures
            Some(r.spec_root()) == spec_parse_ipv4(char_bytes(id_addr@)),
    {
        match parse_ipv4(id_addr) {
            Some(ip) => DNSResolver { id_addr: ip },
            None => {
                proof {
                    assert(false);
                }
                DNSResolver { id_addr: Ipv4 { a: 0, b: 0, c: 0, d: 0 } }
            },
        }
    }

    /// The root hint as a value.
    pub fn root_hint(&self) -> (r: Ipv4)
        ensures
            r == self.spec_root(),
    {
        self.id_addr
    }

    /// Opens a session against this resolver's root hint with the full
    /// nested-resolution budget.
    pub fn start_session(&self, mode: QueryMode, query_name: String) -> (s: Session)
        ensures
            s.mode == mode,
            s.query_name == query_name,
            s.target == self.spec_root(),
            s.hops_left == MAX_HOPS,
            s.depth_left == MAX_NS_DEPTH,
    {
        Session::start(mode, query_name, self.id_addr, MAX_NS_DEPTH)
    }

    /// Encodes a dotted domain name for the wire.
    pub fn encode_dns_name(name: &str) -> (r: Result<Vec<u8>, DnsError>)
        ensures
            r is Ok <==> is_ascii(name) && labels_within_limit(char_bytes(name@)),
            r matches Ok(v) ==> v@ == encode_name_bytes(char_bytes(name@)),
            r matches Err(e) ==> e == DnsError::InvalidName,
    {
        crate::names::encode_dns_name(name)
    }

    /// Builds one query message: a header with a fresh random identifier,
    /// the recursion-desired flag and one question, followed by that
    /// question for `domain_name` with the given type and class.
    pub fn build_query(domain_name: &str, record_type: RecordType, class: Class) -> (r: Result<
        Vec<u8>,
        DnsError,
    >)
        ensures
            r is Ok <==> is_ascii(domain_name) && labels_within_limit(
                char_bytes(domain_name@),
            ),
            r matches Ok(v) ==> v@.len() == 16 + encode_name_bytes(char_bytes(domain_name@)).len()
                && v@.skip(2) == spec_query_tail(
                char_bytes(domain_name@),
                record_type,
                class,
            ),
            r matches Err(e) ==> e == DnsError::InvalidName,
    {
        let encoded = match Self::encode_dns_name(domain_name) {
            Ok(v) => v,
            Err(e) => {
                return Err(e);
            },
        };
        proof {
            lemma_encode_ascii(char_bytes(domain_name@));
        }
        let qname = string_from_ascii(encoded);
        let header = DNSHeader::new(256, 1);
        let mut out = header.to_bytes();
        let question = DNSQuestion::new(qname, record_type, class);
        proof {
            assert(is_ascii_chars(question.name@)) by {
                assert forall|i: int| 0 <= i < question.name@.len() implies '\0'
                    <= #[trigger] question.name@[i] <= '\u{7f}' by {
                    assert(question.name@[i] as int == encode_name_bytes(
                        char_bytes(domain_name@),
                    )[i] as int);
                }
            }
        }
        let mut qb = question.to_bytes();
        out.append(&mut qb);
        proof {
            assert(char_bytes(question.name@) =~= encode_name_bytes(char_bytes(domain_name@)));
            assert(u16_be(256) =~= seq![1u8, 0u8]);
            assert(u16_be(1) =~= seq![0u8, 1u8]);
            assert(u16_be(0) =~= seq![0u8, 0u8]);
            assert(out@.skip(2) =~= spec_query_tail(
                char_bytes(domain_name@),
                record_type,
                class,
            ));
        }
        Ok(out)
    }
}

} // verus!
