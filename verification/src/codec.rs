//! The DNS message codec: the 12-byte header, questions, resource records
//! and whole messages, each with a spec-level parser that the executable
//! code is proved against.

use crate::addr::Ipv4;
use crate::names::{char_bytes, decode_name, spec_decode_name, MAX_POINTER_HOPS};
use crate::DnsError;
use vstd::prelude::*;
use vstd::string::*;
use vstd::utf8::is_ascii_chars;

verus! {

/// The two bytes of a 16-bit value, most significant first.
pub open spec fn u16_be(x: u16) -> Seq<u8> {
    seq![(x / 256) as u8, (x % 256) as u8]
}

/// The 16-bit value two big-endian bytes spell.
pub open spec fn be16(hi: u8, lo: u8) -> int {
    hi as int * 256 + lo as int
}

/// The 32-bit value four big-endian bytes spell.
pub open spec fn be32(b0: u8, b1: u8, b2: u8, b3: u8) -> int {
    b0 as int * 16777216 + b1 as int * 65536 + b2 as int * 256 + b3 as int
}

/// Relies on rand::random: a fresh pseudo-random 16-bit transaction
/// identifier. Nothing is promised of the value.
#[verifier::external_body]
pub(crate) fn random_u16() -> u16 {
    rand::random()
}

/// The fixed-size message header: a transaction identifier, the flag word,
/// and the four section counts, in wire order.
#[derive(Debug, Clone, Copy, PartialEq, Eq, Structural)]
pub struct DNSHeader {
    pub id: u16,
    pub flags: u16,
    pub num_questions: u16,
    pub num_answers: u16,
    pub num_authorities: u16,
    pub num_additionals: u16,
}

impl DNSHeader {
    /// The header's 12 wire bytes.
    pub open spec fn spec_bytes(self) -> Seq<u8> {
        u16_be(self.id) + u16_be(self.flags) + u16_be(self.num_questions) + u16_be(
            self.num_answers,
        ) + u16_be(self.num_authorities) + u16_be(self.num_additionals)
    }

    /// The header the first 12 bytes of `buf` spell, if that many exist.
    pub open spec fn spec_parse(buf: Seq<u8>) -> Option<DNSHeader> {
        if buf.len() < 12 {
            None
        } else {
            Some(
                DNSHeader {
                    id: be16(buf[0], buf[1]) as u16,
                    flags: be16(buf[2], buf[3]) as u16,
                    num_questions: be16(buf[4], buf[5]) as u16,
                    num_answers: be16(buf[6], buf[7]) as u16,
                    num_authorities: be16(buf[8], buf[9]) as u16,
                    num_additionals: be16(buf[10], buf[11]) as u16,
                },
            )
        }
    }

    /// A query header: a fresh random identifier, the given flag word and
    /// question count, and empty record sections.
    pub fn new(flags: u16, num_questions: u16) -> (h: DNSHeader)
        ensures
            h.flags == flags,
            h.num_questions == num_questions,
            h.num_answers == 0,
            h.num_authorities == 0,
            h.num_additionals == 0,
    {
        DNSHeader {
            id: random_u16(),
            flags,
            num_questions,
            num_answers: 0,
            num_authorities: 0,
            num_additionals: 0,
        }
    }

    /// Serialises the header to its 12 wire bytes.
    pub fn to_bytes(&self) -> (r: Vec<u8>)
        ensures
            r@ == self.spec_bytes(),
    {
        let mut out: Vec<u8> = Vec::new();
        push_u16_be(&mut out, self.id);
        push_u16_be(&mut out, self.flags);
        push_u16_be(&mut out, self.num_questions);
        push_u16_be(&mut out, self.num_answers);
        push_u16_be(&mut out, self.num_authorities);
        push_u16_be(&mut out, self.num_additionals);
        proof {
            assert(out@ =~= self.spec_bytes());
        }
        out
    }

    /// Reads a header from the front of `buf`; a shorter buffer is a
    /// malformed message.
    pub fn parse(bytes: &[u8]) -> (r: Result<DNSHeader, DnsError>)
        ensures
            r is Ok <==> bytes@.len() >= 12,
            r matches Ok(h) ==> DNSHeader::spec_parse(bytes@) == Some(h),
            r matches Err(e) ==> e == DnsError::MalformedMessage,
    {
        if bytes.len() < 12 {
            return Err(DnsError::MalformedMessage);
        }
        Ok(
            DNSHeader {
                id: read_u16_be(bytes, 0),
                flags: read_u16_be(bytes, 2),
                num_questions: read_u16_be(bytes, 4),
                num_answers: read_u16_be(bytes, 6),
                num_authorities: read_u16_be(bytes, 8),
                num_additionals: read_u16_be(bytes, 10),
            },
        )
    }
}

/// Appends the two big-endian bytes of `x`.
fn push_u16_be(out: &mut Vec<u8>, x: u16)
    ensures
        final(out)@ == old(out)@ + u16_be(x),
{
    out.push((x / 256) as u8);
    out.push((x % 256) as u8);
    proof {
        assert(out@ =~= old(out)@ + u16_be(x));
    }
}

/// Reads the 16-bit value at `at`.
fn read_u16_be(bytes: &[u8], at: usize) -> (r: u16)
    requires
        at + 2 <= bytes@.len(),
    ensures
        r as int == be16(bytes@[at as int], bytes@[at as int + 1]),
{
    (bytes[at] as u16) * 256 + (bytes[at + 1] as u16)
}

/// Reads the 32-bit value at `at`.
fn read_u32_be(bytes: &[u8], at: usize) -> (r: u32)
    requires
        at + 4 <= bytes@.len(),
    ensures
        r as int == be32(
            bytes@[at as int],
            bytes@[at as int + 1],
            bytes@[at as int + 2],
            bytes@[at as int + 3],
        ),
{
    (bytes[at] as u32) * 16777216 + (bytes[at + 1] as u32) * 65536 + (bytes[at + 2] as u32) * 256
        + (bytes[at + 3] as u32)
}

/// The record types this resolver recognises. Any other code degrades to
/// opaque-payload handling at record-parse time rather than failing.
#[derive(Debug, Clone, Copy, PartialEq, Eq, Structural)]
pub enum RecordType {
    A,
    Ns,
    Md,
    Mf,
    Cname,
    Ptr,
    Aaaa,
}

impl RecordType {
    /// The 16-bit wire code of the type.
    pub open spec fn spec_code(self) -> u16 {
        match self {
            RecordType::A => 1,
            RecordType::Ns => 2,
            RecordType::Md => 3,
            RecordType::Mf => 4,
            RecordType::Cname => 5,
            RecordType::Ptr => 12,
            RecordType::Aaaa => 28,
        }
    }

    /// The type a 16-bit wire code names, if it is recognised.
    pub open spec fn spec_from_code(c: u16) -> Option<RecordType> {
        if c == 1 {
            Some(RecordType::A)
        } else if c == 2 {
            Some(RecordType::Ns)
        } else if c == 3 {
            Some(RecordType::Md)
        } else if c == 4 {
            Some(RecordType::Mf)
        } else if c == 5 {
            Some(RecordType::Cname)
        } else if c == 12 {
            Some(RecordType::Ptr)
        } else if c == 28 {
            Some(RecordType::Aaaa)
        } else {
            None
        }
    }

    /// The wire code of this type.
    pub fn code(self) -> (c: u16)
        ensures
            c == self.spec_code(),
    {
        match self {
            RecordType::A => 1,
            RecordType::Ns => 2,
            RecordType::Md => 3,
            RecordType::Mf => 4,
            RecordType::Cname => 5,
            RecordType::Ptr => 12,
            RecordType::Aaaa => 28,
        }
    }

    /// The fallible decoding of a wire code.
    pub fn from_code(c: u16) -> (r: Option<RecordType>)
        ensures
            r == RecordType::spec_from_code(c),
    {
        if c == 1 {
            Some(RecordType::A)
        } else if c == 2 {
            Some(RecordType::Ns)
        } else if c == 3 {
            Some(RecordType::Md)
        } else if c == 4 {
            Some(RecordType::Mf)
        } else if c == 5 {
            Some(RecordType::Cname)
        } else if c == 12 {
            Some(RecordType::Ptr)
        } else if c == 28 {
            Some(RecordType::Aaaa)
        } else {
            None
        }
    }
}

/// The record classes this resolver accepts: only the Internet class.
/// Any other class code is a hard error.
#[derive(Debug, Clone, Copy, PartialEq, Eq, Structural)]
pub enum Class {
    In,
}

impl Class {
    /// The 16-bit wire code of the class.
    pub open spec fn spec_code(self) -> u16 {
        1
    }

    /// The wire code of this class.
    pub fn code(self) -> (c: u16)
        ensures
            c == self.spec_code(),
    {
        1
    }

    /// The fallible decoding of a wire code: only the Internet class.
    pub fn from_code(c: u16) -> (r: Option<Class>)
        ensures
            r == if c == 1 {
                Some(Class::In)
            } else {
                None::<Class>
            },
    {
        if c == 1 {
            Some(Class::In)
        } else {
            None
        }
    }
}

/// The mathematical shape of a question: name text, type and class.
pub struct SpecQuestion {
    pub name: Seq<u8>,
    pub type_: RecordType,
    pub class: Class,
}

/// One question of a message: a stored name, a record type and a class.
/// `name` holds whatever text the caller stored; a query built by this
/// library stores the already-encoded wire name there.
#[derive(Debug, Clone)]
pub struct DNSQuestion {
    pub name: String,
    pub type_: RecordType,
    pub class: Class,
}

impl View for DNSQuestion {
    type V = SpecQuestion;

    open spec fn view(&self) -> SpecQuestion {
        SpecQuestion { name: char_bytes(self.name@), type_: self.type_, class: self.class }
    }
}

/// What parsing a question at `pos` yields: the question and the bytes it
/// occupies. The class must be the Internet class and the type recognised.
pub open spec fn spec_parse_question(buf: Seq<u8>, pos: int) -> Option<(SpecQuestion, int)> {
    match spec_decode_name(buf, pos, MAX_POINTER_HOPS as nat) {
        Option::None => None,
        Option::Some(nm) => {
            let t = pos + nm.1;
            if t + 4 > buf.len() {
                None
            } else {
                match RecordType::spec_from_code(be16(buf[t], buf[t + 1]) as u16) {
                    Option::None => None,
                    Option::Some(rt) => {
                        if be16(buf[t + 2], buf[t + 3]) != 1 {
                            None
                        } else {
                            Some(
                                (
                                    SpecQuestion { name: nm.0, type_: rt, class: Class::In },
                                    nm.1 + 4,
                                ),
                            )
                        }
                    },
                }
            }
        },
    }
}

/// The name decodes and the fixed fields fit, but the class code is not
/// the Internet class: the one condition reported as `UnsupportedClass`.
pub open spec fn question_has_foreign_class(buf: Seq<u8>, pos: int) -> bool {
    match spec_decode_name(buf, pos, MAX_POINTER_HOPS as nat) {
        Option::None => false,
        Option::Some(nm) => {
            let t = pos + nm.1;
            &&& t + 4 <= buf.len()
            &&& RecordType::spec_from_code(be16(buf[t], buf[t + 1]) as u16) is Some
            &&& be16(buf[t + 2], buf[t + 3]) != 1
        },
    }
}

impl DNSQuestion {
    /// Packs the three fields into a question.
    pub fn new(name: String, type_: RecordType, class: Class) -> (q: DNSQuestion)
        ensures
            q.name == name,
            q.type_ == type_,
            q.class == class,
    {
        DNSQuestion { name, type_, class }
    }

    /// The question's wire bytes: the stored name's bytes, then the type
    /// and class codes.
    pub open spec fn spec_wire(self) -> Seq<u8> {
        char_bytes(self.name@) + u16_be(self.type_.spec_code()) + u16_be(self.class.spec_code())
    }

    /// Serialises the question: the stored name's bytes followed by the
    /// big-endian type and class codes.
    pub fn to_bytes(&self) -> (r: Vec<u8>)
        ensures
            is_ascii_chars(self.name@) ==> r@ == self.spec_wire(),
    {
        let mut out: Vec<u8> = Vec::new();
        let ns = self.name.as_str();
        let nb = ns.as_bytes();
        let mut i: usize = 0;
        while i < nb.len()
            invariant
                i <= nb@.len(),
                out@ == nb@.subrange(0, i as int),
            decreases nb@.len() - i,
        {
            out.push(nb[i]);
            proof {
                assert(out@ =~= nb@.subrange(0, i + 1));
            }
            i += 1;
        }
        proof {
            assert(out@ =~= nb@);
        }
        push_u16_be(&mut out, self.type_.code());
        push_u16_be(&mut out, self.class.code());
        proof {
            if is_ascii_chars(self.name@) {
                assert(is_ascii(ns));
                is_ascii_spec_bytes(ns);
                assert(nb@ =~= char_bytes(self.name@));
                assert(out@ =~= self.spec_wire());
            }
        }
        out
    }

    /// Reads one question at `cursor_start`, returning it and how many
    /// bytes it occupied. A class other than the Internet class is an
    /// `UnsupportedClass` error; everything else that fails is a
    /// `MalformedMessage`.
    pub fn parse(buf: &[u8], cursor_start: usize) -> (r: Result<(DNSQuestion, usize), DnsError>)
        ensures
            r is Ok <==> spec_parse_question(buf@, cursor_start as int) is Some,
            r matches Ok(p) ==> spec_parse_question(buf@, cursor_start as int) matches Some(q)
                && p.0@ == q.0 && p.1 == q.1 && cursor_start + p.1 <= buf@.len(),
            r matches Err(e) ==> e == if question_has_foreign_class(buf@, cursor_start as int) {
                DnsError::UnsupportedClass
            } else {
                DnsError::MalformedMessage
            },
    {
        let (name, used) = match decode_name(buf, cursor_start) {
            Ok(p) => p,
            Err(_) => {
                return Err(DnsError::MalformedMessage);
            },
        };
        let n = buf.len();
        let t = cursor_start + used;
        if n < 4 || t > n - 4 {
            return Err(DnsError::MalformedMessage);
        }
        let ty_code = read_u16_be(buf, t);
        let cl_code = read_u16_be(buf, t + 2);
        let type_ = match RecordType::from_code(ty_code) {
            Some(rt) => rt,
            None => {
                return Err(DnsError::MalformedMessage);
            },
        };
        let class = match Class::from_code(cl_code) {
            Some(c) => c,
            None => {
                return Err(DnsError::UnsupportedClass);
            },
        };
        let q = DNSQuestion { name, type_, class };
        proof {
            let s = spec_parse_question(buf@, cursor_start as int);
            assert(s matches Some(sq) && q@ == sq.0 && used + 4 == sq.1) by {
                assert(char_bytes(q.name@) =~= spec_decode_name(
                    buf@,
                    cursor_start as int,
                    MAX_POINTER_HOPS as nat,
                )->Some_0.0);
            }
        }
        Ok((q, used + 4))
    }
}

/// The mathematical shape of a record payload.
pub enum SpecRecordData {
    Data(Seq<u8>),
    Name(Seq<u8>),
    Addr(Ipv4),
}

/// The mathematical shape of a resource record.
pub struct SpecRecord {
    pub name: Seq<u8>,
    pub type_code: u16,
    pub class: Class,
    pub ttl: u32,
    pub data: SpecRecordData,
}

/// A record payload: an address for A records, a domain name for NS,
/// CNAME and PTR records, and an opaque byte blob for everything else.
#[derive(Debug, Clone)]
pub enum DNSRecordData {
    Data(Vec<u8>),
    Name(String),
    Ipv4Addr(Ipv4),
}

impl View for DNSRecordData {
    type V = SpecRecordData;

    open spec fn view(&self) -> SpecRecordData {
        match self {
            DNSRecordData::Data(v) => SpecRecordData::Data(v@),
            DNSRecordData::Name(s) => SpecRecordData::Name(char_bytes(s@)),
            DNSRecordData::Ipv4Addr(ip) => SpecRecordData::Addr(*ip),
        }
    }
}

/// One resource record. The type is kept as its raw wire code so that
/// unrecognised types can still be carried with their opaque payload.
#[derive(Debug, Clone)]
pub struct DNSRecord {
    pub name: String,
    pub type_code: u16,
    pub class: Class,
    pub ttl: u32,
    pub data: DNSRecordData,
}

impl View for DNSRecord {
    type V = SpecRecord;

    open spec fn view(&self) -> SpecRecord {
        SpecRecord {
            name: char_bytes(self.name@),
            type_code: self.type_code,
            class: self.class,
            ttl: self.ttl,
            data: self.data@,
        }
    }
}

/// What parsing a record at `pos` yields. After the name come the type,
/// class, time-to-live and payload length; the payload is then an address
/// for type A, a name for NS, CNAME and PTR, and an opaque blob of the
/// declared length otherwise. Only the Internet class is accepted, and a
/// declared length that runs past the buffer is a failure.
pub open spec fn spec_parse_record(buf: Seq<u8>, pos: int) -> Option<(SpecRecord, int)> {
    match spec_decode_name(buf, pos, MAX_POINTER_HOPS as nat) {
        Option::None => None,
        Option::Some(nm) => {
            let t = pos + nm.1;
            if t + 10 > buf.len() {
                None
            } else if be16(buf[t + 2], buf[t + 3]) != 1 {
                None
            } else {
                let ty = be16(buf[t], buf[t + 1]) as u16;
                let ttl = be32(buf[t + 4], buf[t + 5], buf[t + 6], buf[t + 7]) as u32;
                let dlen = be16(buf[t + 8], buf[t + 9]);
                let ds = t + 10;
                if ty == 1 {
                    if ds + 4 > buf.len() {
                        None
                    } else {
                        Some(
                            (
                                SpecRecord {
                                    name: nm.0,
                                    type_code: ty,
                                    class: Class::In,
                                    ttl,
                                    data: SpecRecordData::Addr(
                                        Ipv4 {
                                            a: buf[ds],
                                            b: buf[ds + 1],
                                            c: buf[ds + 2],
                                            d: buf[ds + 3],
                                        },
                                    ),
                                },
                                nm.1 + 14,
                            ),
                        )
                    }
                } else if ty == 2 || ty == 5 || ty == 12 {
                    match spec_decode_name(buf, ds, MAX_POINTER_HOPS as nat) {
                        Option::None => None,
                        Option::Some(dn) => Some(
                            (
                                SpecRecord {
                                    name: nm.0,
                                    type_code: ty,
                                    class: Class::In,
                                    ttl,
                                    data: SpecRecordData::Name(dn.0),
                                },
                                nm.1 + 10 + dn.1,
                            ),
                        ),
                    }
                } else {
                    if ds + dlen > buf.len() {
                        None
                    } else {
                        Some(
                            (
                                SpecRecord {
                                    name: nm.0,
                                    type_code: ty,
                                    class: Class::In,
                                    ttl,
                                    data: SpecRecordData::Data(buf.subrange(ds, ds + dlen)),
                                },
                                nm.1 + 10 + dlen,
                            ),
                        )
                    }
                }
            }
        },
    }
}

/// The record's name decodes and its fixed fields fit, but its class code
/// is not the Internet class.
pub open spec fn record_has_foreign_class(buf: Seq<u8>, pos: int) -> bool {
    match spec_decode_name(buf, pos, MAX_POINTER_HOPS as nat) {
        Option::None => false,
        Option::Some(nm) => {
            let t = pos + nm.1;
            &&& t + 10 <= buf.len()
            &&& be16(buf[t + 2], buf[t + 3]) != 1
        },
    }
}

impl DNSRecord {
    /// Reads one resource record at `start_cursor`, returning it and how
    /// many bytes it occupied. A class other than the Internet class is an
    /// `UnsupportedClass` error; everything else that fails is a
    /// `MalformedMessage`.
    pub fn parse(buf: &[u8], start_cursor: usize) -> (r: Result<(DNSRecord, usize), DnsError>)
        ensures
            r is Ok <==> spec_parse_record(buf@, start_cursor as int) is Some,
            r matches Ok(p) ==> spec_parse_record(buf@, start_cursor as int) matches Some(q)
                && p.0@ == q.0 && p.1 == q.1 && start_cursor + p.1 <= buf@.len(),
            r matches Err(e) ==> e == if record_has_foreign_class(buf@, start_cursor as int) {
                DnsError::UnsupportedClass
            } else {
                DnsError::MalformedMessage
            },
    {
        let (name, used) = match decode_name(buf, start_cursor) {
            Ok(p) => p,
            Err(_) => {
                return Err(DnsError::MalformedMessage);
            },
        };
        let n = buf.len();
        let t = start_cursor + used;
        if n < 10 || t > n - 10 {
            return Err(DnsError::MalformedMessage);
        }
        let cl_code = read_u16_be(buf, t + 2);
        if cl_code != 1 {
            return Err(DnsError::UnsupportedClass);
        }
        let ty = read_u16_be(buf, t);
        let ttl = read_u32_be(buf, t + 4);
        let dlen = read_u16_be(buf, t + 8) as usize;
        let ds = t + 10;
        let ghost nm0 = spec_decode_name(buf@, start_cursor as int, MAX_POINTER_HOPS as nat);
        proof {
            assert(char_bytes(name@) =~= nm0->Some_0.0);
        }
        if ty == 1 {
            if 4 > n - ds {
                return Err(DnsError::MalformedMessage);
            }
            let ip = Ipv4 { a: buf[ds], b: buf[ds + 1], c: buf[ds + 2], d: buf[ds + 3] };
            let rec = DNSRecord {
                name,
                type_code: ty,
                class: Class::In,
                ttl,
                data: DNSRecordData::Ipv4Addr(ip),
            };
            Ok((rec, used + 14))
        } else if ty == 2 || ty == 5 || ty == 12 {
            let (dname, dused) = match decode_name(buf, ds) {
                Ok(p) => p,
                Err(_) => {
                    return Err(DnsError::MalformedMessage);
                },
            };
            let rec = DNSRecord {
                name,
                type_code: ty,
                class: Class::In,
                ttl,
                data: DNSRecordData::Name(dname),
            };
            proof {
                let dn0 = spec_decode_name(buf@, ds as int, MAX_POINTER_HOPS as nat);
                assert(char_bytes(rec.data->Name_0@) =~= dn0->Some_0.0);
            }
            Ok((rec, used + 10 + dused))
        } else {
            if dlen > n - ds {
                return Err(DnsError::MalformedMessage);
            }
            let mut payload: Vec<u8> = Vec::new();
            let mut j: usize = 0;
            while j < dlen
                invariant
                    j <= dlen,
                    ds + dlen <= buf@.len(),
                    buf@.len() <= usize::MAX,
                    payload@ == buf@.subrange(ds as int, ds + j),
                decreases dlen - j,
            {
                payload.push(buf[ds + j]);
                proof {
                    assert(payload@ =~= buf@.subrange(ds as int, ds + (j + 1)));
                }
                j += 1;
            }
            let rec = DNSRecord {
                name,
                type_code: ty,
                class: Class::In,
                ttl,
                data: DNSRecordData::Data(payload),
            };
            Ok((rec, used + 10 + dlen))
        }
    }
}

/// What parsing `n` consecutive questions from `pos` yields: the
/// questions and the position just past them.
pub open spec fn spec_parse_questions(buf: Seq<u8>, pos: int, n: nat) -> Option<
    (Seq<SpecQuestion>, int),
>
    decreases n,
{
    if n == 0 {
        Some((Seq::empty(), pos))
    } else {
        match spec_parse_question(buf, pos) {
            Option::None => None,
            Option::Some(q) => match spec_parse_questions(buf, pos + q.1, (n - 1) as nat) {
                Option::None => None,
                Option::Some(rest) => Some((seq![q.0] + rest.0, rest.1)),
            },
        }
    }
}

/// What parsing `n` consecutive records from `pos` yields: the records
/// and the position just past them.
pub open spec fn spec_parse_records(buf: Seq<u8>, pos: int, n: nat) -> Option<
    (Seq<SpecRecord>, int),
>
    decreases n,
{
    if n == 0 {
        Some((Seq::empty(), pos))
    } else {
        match spec_parse_record(buf, pos) {
            Option::None => None,
            Option::Some(q) => match spec_parse_records(buf, pos + q.1, (n - 1) as nat) {
                Option::None => None,
                Option::Some(rest) => Some((seq![q.0] + rest.0, rest.1)),
            },
        }
    }
}

/// The mathematical shape of a whole message.
pub struct SpecPacket {
    pub header: DNSHeader,
    pub questions: Seq<SpecQuestion>,
    pub answers: Seq<SpecRecord>,
    pub authorities: Seq<SpecRecord>,
    pub additionals: Seq<SpecRecord>,
}

/// What parsing a whole message yields: the header, then exactly the
/// header's count of questions, answers, authority records and additional
/// records, in that wire order. A buffer whose sections run out before
/// the counts are met parses to nothing.
pub open spec fn spec_parse_packet(buf: Seq<u8>) -> Option<SpecPacket> {
    match DNSHeader::spec_parse(buf) {
        Option::None => None,
        Option::Some(h) => match spec_parse_questions(buf, 12, h.num_questions as nat) {
            Option::None => None,
            Option::Some(qs) => match spec_parse_records(buf, qs.1, h.num_answers as nat) {
                Option::None => None,
                Option::Some(ans) => match spec_parse_records(
                    buf,
                    ans.1,
                    h.num_authorities as nat,
                ) {
                    Option::None => None,
                    Option::Some(auth) => match spec_parse_records(
                        buf,
                        auth.1,
                        h.num_additionals as nat,
                    ) {
                        Option::None => None,
                        Option::Some(add) => Some(
                            SpecPacket {
                                header: h,
                                questions: qs.0,
                                answers: ans.0,
                                authorities: auth.0,
                                additionals: add.0,
                            },
                        ),
                    },
                },
            },
        },
    }
}

/// A parsed message: header and the four record sections.
#[derive(Debug, Clone)]
pub struct DNSPacket {
    pub header: DNSHeader,
    pub questions: Vec<DNSQuestion>,
    pub answers: Vec<DNSRecord>,
    pub authorities: Vec<DNSRecord>,
    pub additionals: Vec<DNSRecord>,
}

impl View for DNSPacket {
    type V = SpecPacket;

    open spec fn view(&self) -> SpecPacket {
        SpecPacket {
            header: self.header,
            questions: self.questions@.map_values(|q: DNSQuestion| q@),
            answers: self.answers@.map_values(|r: DNSRecord| r@),
            authorities: self.authorities@.map_values(|r: DNSRecord| r@),
            additionals: self.additionals@.map_values(|r: DNSRecord| r@),
        }
    }
}

/// Reads `n` consecutive questions starting at `start`.
fn parse_questions(buf: &[u8], start: usize, n: u16) -> (r: Result<
    (Vec<DNSQuestion>, usize),
    DnsError,
>)
    requires
        start <= buf@.len(),
    ensures
        r is Ok <==> spec_parse_questions(buf@, start as int, n as nat) is Some,
        r matches Ok(p) ==> spec_parse_questions(buf@, start as int, n as nat) matches Some(q)
            && p.0@.map_values(|x: DNSQuestion| x@) == q.0 && p.1 == q.1 && start <= p.1
            <= buf@.len(),
        r matches Err(e) ==> e == DnsError::UnsupportedClass || e == DnsError::MalformedMessage,
{
    let mut out: Vec<DNSQuestion> = Vec::new();
    let buf_len = buf.len();
    let mut cursor = start;
    let mut i: u16 = 0;
    proof {
        assert(buf_len == buf@.len());
        assert(out@.map_values(|x: DNSQuestion| x@) =~= Seq::<SpecQuestion>::empty());
    }
    while i < n
        invariant
            i <= n,
            start <= cursor <= buf@.len(),
            buf@.len() <= usize::MAX,
            spec_parse_questions(buf@, start as int, n as nat) == (match spec_parse_questions(
                buf@,
                cursor as int,
                (n - i) as nat,
            ) {
                Option::None => None::<(Seq<SpecQuestion>, int)>,
                Option::Some(rest) => Some(
                    (out@.map_values(|x: DNSQuestion| x@) + rest.0, rest.1),
                ),
            }),
        decreases n - i,
    {
        match DNSQuestion::parse(buf, cursor) {
            Err(e) => {
                return Err(e);
            },
            Ok((q, used)) => {
                let ghost prev = out@.map_values(|x: DNSQuestion| x@);
                out.push(q);
                proof {
                    assert(out@.map_values(|x: DNSQuestion| x@) =~= prev + seq![q@]);
                    assert(forall|a: Seq<SpecQuestion>, b: Seq<SpecQuestion>, c: Seq<
                        SpecQuestion,
                    >| (a + b) + c =~= a + (b + c));
                }
                cursor = cursor + used;
                i = i + 1;
            },
        }
    }
    proof {
        assert(out@.map_values(|x: DNSQuestion| x@) + Seq::<SpecQuestion>::empty() =~= out@
            .map_values(|x: DNSQuestion| x@));
    }
    Ok((out, cursor))
}

/// Reads `n` consecutive resource records starting at `start`.
fn parse_record_run(buf: &[u8], start: usize, n: u16) -> (r: Result<
    (Vec<DNSRecord>, usize),
    DnsError,
>)
    requires
        start <= buf@.len(),
    ensures
        r is Ok <==> spec_parse_records(buf@, start as int, n as nat) is Some,
        r matches Ok(p) ==> spec_parse_records(buf@, start as int, n as nat) matches Some(q)
            && p.0@.map_values(|x: DNSRecord| x@) == q.0 && p.1 == q.1 && start <= p.1
            <= buf@.len(),
        r matches Err(e) ==> e == DnsError::UnsupportedClass || e == DnsError::MalformedMessage,
{
    let mut out: Vec<DNSRecord> = Vec::new();
    let buf_len = buf.len();
    let mut cursor = start;
    let mut i: u16 = 0;
    proof {
        assert(buf_len == buf@.len());
        assert(out@.map_values(|x: DNSRecord| x@) =~= Seq::<SpecRecord>::empty());
    }
    while i < n
        invariant
            i <= n,
            start <= cursor <= buf@.len(),
            buf@.len() <= usize::MAX,
            spec_parse_records(buf@, start as int, n as nat) == (match spec_parse_records(
                buf@,
                cursor as int,
                (n - i) as nat,
            ) {
                Option::None => None::<(Seq<SpecRecord>, int)>,
                Option::Some(rest) => Some(
                    (out@.map_values(|x: DNSRecord| x@) + rest.0, rest.1),
                ),
            }),
        decreases n - i,
    {
        match DNSRecord::parse(buf, cursor) {
            Err(e) => {
                return Err(e);
            },
            Ok((rec, used)) => {
                let ghost prev = out@.map_values(|x: DNSRecord| x@);
                out.push(rec);
                proof {
                    assert(out@.map_values(|x: DNSRecord| x@) =~= prev + seq![rec@]);
                    assert(forall|a: Seq<SpecRecord>, b: Seq<SpecRecord>, c: Seq<SpecRecord>|
                        (a + b) + c =~= a + (b + c));
                }
                cursor = cursor + used;
                i = i + 1;
            },
        }
    }
    proof {
        assert(out@.map_values(|x: DNSRecord| x@) + Seq::<SpecRecord>::empty() =~= out@.map_values(
            |x: DNSRecord| x@,
        ));
    }
    Ok((out, cursor))
}

impl DNSPacket {
    /// Parses a whole message: the 12-byte header, then exactly as many
    /// questions and records as the header's counts announce. Any section
    /// that runs past the buffer end makes the message malformed; a
    /// non-Internet class code anywhere is an `UnsupportedClass` error.
    pub fn parse(buf: &[u8]) -> (r: Result<DNSPacket, DnsError>)
        ensures
            r is Ok <==> spec_parse_packet(buf@) is Some,
            r matches Ok(p) ==> spec_parse_packet(buf@) == Some(p@),
            r matches Err(e) ==> e == DnsError::UnsupportedClass || e
                == DnsError::MalformedMessage,
    {
        let header = match DNSHeader::parse(buf) {
            Ok(h) => h,
            Err(e) => {
                return Err(e);
            },
        };
        let (questions, c1) = match parse_questions(buf, 12, header.num_questions) {
            Ok(p) => p,
            Err(e) => {
                return Err(e);
            },
        };
        let (answers, c2) = match parse_record_run(buf, c1, header.num_answers) {
            Ok(p) => p,
            Err(e) => {
                return Err(e);
            },
        };
        let (authorities, c3) = match parse_record_run(buf, c2, header.num_authorities) {
            Ok(p) => p,
            Err(e) => {
                return Err(e);
            },
        };
        let (additionals, _c4) = match parse_record_run(buf, c3, header.num_additionals) {
            Ok(p) => p,
            Err(e) => {
                return Err(e);
            },
        };
        Ok(DNSPacket { header, questions, answers, authorities, additionals })
    }
}

/// The address carried by the first record whose payload is an address.
pub open spec fn first_addr(records: Seq<SpecRecord>) -> Option<Ipv4>
    decreases records.len(),
{
    if records.len() == 0 {
        None
    } else {
        match records[0].data {
            SpecRecordData::Addr(ip) => Some(ip),
            _ => first_addr(records.skip(1)),
        }
    }
}

/// The name carried by the first record whose payload is a name.
pub open spec fn first_name(records: Seq<SpecRecord>) -> Option<Seq<u8>>
    decreases records.len(),
{
    if records.len() == 0 {
        None
    } else {
        match records[0].data {
            SpecRecordData::Name(nm) => Some(nm),
            _ => first_name(records.skip(1)),
        }
    }
}

impl DNSPacket {
    /// The first address among the answer records, if any: a successful
    /// forward resolution.
    pub fn get_answer(&self) -> (r: Option<Ipv4>)
        ensures
            r == first_addr(self@.answers),
    {
        let ghost model = self@.answers;
        let mut i: usize = 0;
        proof {
            assert(model.skip(0) =~= model);
        }
        while i < self.answers.len()
            invariant
                i <= self.answers@.len(),
                model == self@.answers,
                model.len() == self.answers@.len(),
                forall|k: int| 0 <= k < model.len() ==> model[k] == self.answers@[k]@,
                first_addr(model) == first_addr(model.skip(i as int)),
            decreases self.answers@.len() - i,
        {
            proof {
                assert(model.skip(i as int)[0] == model[i as int]);
                assert(model.skip(i as int).skip(1) =~= model.skip(i + 1));
            }
            match &self.answers[i].data {
                DNSRecordData::Ipv4Addr(ip) => {
                    return Some(*ip);
                },
                _ => {},
            }
            i += 1;
        }
        proof {
            assert(model.skip(model.len() as int).len() == 0);
        }
        None
    }

    /// The first address among the additional records, if any: glue for a
    /// delegation.
    pub fn get_nameserver_ip(&self) -> (r: Option<Ipv4>)
        ensures
            r == first_addr(self@.additionals),
    {
        let ghost model = self@.additionals;
        let mut i: usize = 0;
        proof {
            assert(model.skip(0) =~= model);
        }
        while i < self.additionals.len()
            invariant
                i <= self.additionals@.len(),
                model == self@.additionals,
                model.len() == self.additionals@.len(),
                forall|k: int| 0 <= k < model.len() ==> model[k] == self.additionals@[k]@,
                first_addr(model) == first_addr(model.skip(i as int)),
            decreases self.additionals@.len() - i,
        {
            proof {
                assert(model.skip(i as int)[0] == model[i as int]);
                assert(model.skip(i as int).skip(1) =~= model.skip(i + 1));
            }
            match &self.additionals[i].data {
                DNSRecordData::Ipv4Addr(ip) => {
                    return Some(*ip);
                },
                _ => {},
            }
            i += 1;
        }
        proof {
            assert(model.skip(model.len() as int).len() == 0);
        }
        None
    }

    /// The first domain name among the answer records, if any: a
    /// successful reverse resolution.
    pub fn get_answer_name(&self) -> (r: Option<String>)
        ensures
            match r {
                Some(s) => first_name(self@.answers) == Some(char_bytes(s@)),
                None => first_name(self@.answers) is None,
            },
    {
        let ghost model = self@.answers;
        let mut i: usize = 0;
        proof {
            assert(model.skip(0) =~= model);
        }
        while i < self.answers.len()
            invariant
                i <= self.answers@.len(),
                model == self@.answers,
                model.len() == self.answers@.len(),
                forall|k: int| 0 <= k < model.len() ==> model[k] == self.answers@[k]@,
                first_name(model) == first_name(model.skip(i as int)),
            decreases self.answers@.len() - i,
        {
            proof {
                assert(model.skip(i as int)[0] == model[i as int]);
                assert(model.skip(i as int).skip(1) =~= model.skip(i + 1));
            }
            match &self.answers[i].data {
                DNSRecordData::Name(nm) => {
                    return Some(nm.clone());
                },
                _ => {},
            }
            i += 1;
        }
        proof {
            assert(model.skip(model.len() as int).len() == 0);
        }
        None
    }

    /// The first nameserver hostname among the authority records, if any:
    /// a delegation without glue.
    pub fn get_nameserver(&self) -> (r: Option<&str>)
        ensures
            match r {
                Some(s) => first_name(self@.authorities) == Some(char_bytes(s@)),
                None => first_name(self@.authorities) is None,
            },
    {
        let ghost model = self@.authorities;
        let mut i: usize = 0;
        proof {
            assert(model.skip(0) =~= model);
        }
        while i < self.authorities.len()
            invariant
                i <= self.authorities@.len(),
                model == self@.authorities,
                model.len() == self.authorities@.len(),
                forall|k: int| 0 <= k < model.len() ==> model[k] == self.authorities@[k]@,
                first_name(model) == first_name(model.skip(i as int)),
            decreases self.authorities@.len() - i,
        {
            proof {
                assert(model.skip(i as int)[0] == model[i as int]);
                assert(model.skip(i as int).skip(1) =~= model.skip(i + 1));
            }
            match &self.authorities[i].data {
                DNSRecordData::Name(nm) => {
                    return Some(nm.as_str());
                },
                _ => {},
            }
            i += 1;
        }
        proof {
            assert(model.skip(model.len() as int).len() == 0);
        }
        None
    }
}

} // verus!
