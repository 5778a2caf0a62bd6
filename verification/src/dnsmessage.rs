//! The DNS message model: header flags, query types, resource records, and
//! the message assembler that parses and serializes whole datagrams.

use vstd::prelude::*;

use crate::dnserror::DnsError;
use crate::dnserror::ErrorKind;
use crate::packetbuf::be16;
use crate::packetbuf::be32;
use crate::packetbuf::encode_qname;
use crate::packetbuf::lemma_walk_ok_consumed;
use crate::packetbuf::qname_consumed;
use crate::packetbuf::qname_text;
use crate::packetbuf::qname_walk;
use crate::packetbuf::write_qname;
use crate::packetbuf::PacketBuf;
use crate::packetbuf::BUF_LEN;

verus! {

/// The response code carried in the low four bits of the header flags.
#[derive(Copy, Clone, Debug, PartialEq, Eq, Structural)]
pub enum ResultCode {
    NOERROR,
    FORMERR,
    SERVFAIL,
    NXDOMAIN,
    NOTIMP,
    REFUSED,
}

impl ResultCode {
    /// What `from_num` yields for each raw code; every code the codec does
    /// not model collapses to `NOERROR`.
    pub open spec fn spec_from_num(num: u8) -> ResultCode {
        if num == 1 {
            ResultCode::FORMERR
        } else if num == 2 {
            ResultCode::SERVFAIL
        } else if num == 3 {
            ResultCode::NXDOMAIN
        } else if num == 4 {
            ResultCode::NOTIMP
        } else if num == 5 {
            ResultCode::REFUSED
        } else {
            ResultCode::NOERROR
        }
    }

    /// Decode a raw response code.
    pub fn from_num(num: u8) -> (r: ResultCode)
        ensures
            r == ResultCode::spec_from_num(num),
    {
        match num {
            1 => ResultCode::FORMERR,
            2 => ResultCode::SERVFAIL,
            3 => ResultCode::NXDOMAIN,
            4 => ResultCode::NOTIMP,
            5 => ResultCode::REFUSED,
            _ => ResultCode::NOERROR,
        }
    }
}

/// The record type of a question or resource record.
#[derive(Copy, Clone, Debug, Hash, PartialEq, Eq, Structural)]
pub enum QueryType {
    /// Any type code the codec has no native decoder for.
    UNKNOWN(u16),
    /// An IPv4 host address record (type code 1).
    A,
}

impl QueryType {
    /// The wire type code of this query type.
    pub fn to_num(&self) -> (r: u16)
        ensures
            r == (match *self {
                QueryType::UNKNOWN(x) => x,
                QueryType::A => 1u16,
            }),
    {
        match *self {
            QueryType::UNKNOWN(x) => x,
            QueryType::A => 1,
        }
    }

    /// What `from_num` yields for each wire type code.
    pub open spec fn spec_from_num(num: u16) -> QueryType {
        if num == 1 {
            QueryType::A
        } else {
            QueryType::UNKNOWN(num)
        }
    }

    /// Decode a wire type code.
    pub fn from_num(num: u16) -> (r: QueryType)
        ensures
            r == QueryType::spec_from_num(num),
    {
        match num {
            1 => QueryType::A,
            _ => QueryType::UNKNOWN(num),
        }
    }
}

/// Whether a message is a query or a response: the QR bit.
#[derive(Copy, Clone, Debug, PartialEq, Eq, Structural)]
pub enum DnsMessageType {
    Query,
    Response,
}

/// The query kind named by the opcode: a standard query, or an inverse
/// query (opcode four).
#[derive(Copy, Clone, Debug, PartialEq, Eq, Structural)]
pub enum MessageType {
    Standard,
    Inverse,
}

/// The decoded view over the raw 16-bit header flags.
#[derive(Copy, Clone, Debug, PartialEq, Eq, Structural)]
pub struct Flags {
    /// Query or response: bit 15.
    pub rq: DnsMessageType,
    /// The full four-bit opcode: bits 11 to 14.
    pub opcode: u8,
    /// Standard or inverse query, read off the opcode.
    pub query_type: MessageType,
    /// Authoritative answer: bit 10.
    pub authoritative: bool,
    /// Truncation: bit 9.
    pub truncated: bool,
    /// Recursion desired: bit 8.
    pub recursive: bool,
    /// Recursion available: bit 7.
    pub recursion_available: bool,
    /// Authenticated data: bit 5.
    pub authenticated: bool,
    /// The response code: bits 0 to 3.
    pub error: ResultCode,
}

/// How every field of `Flags` is read out of the raw 16-bit value. Pure and
/// total: any combination of bits is structurally legal at this layer.
pub open spec fn flags_of(raw: u16) -> Flags {
    Flags {
        rq: if raw & 0x8000 == 0 {
            DnsMessageType::Query
        } else {
            DnsMessageType::Response
        },
        opcode: ((raw >> 11) & 0xF) as u8,
        query_type: if ((raw >> 11) & 0xF) == 4 {
            MessageType::Inverse
        } else {
            MessageType::Standard
        },
        authoritative: raw & 0x0400 != 0,
        truncated: raw & 0x0200 != 0,
        recursive: raw & 0x0100 != 0,
        recursion_available: raw & 0x0080 != 0,
        authenticated: raw & 0x0020 != 0,
        error: ResultCode::spec_from_num((raw & 0x000F) as u8),
    }
}

/// The flags value every fresh message starts from: a standard query with
/// every bit clear.
pub open spec fn default_flags() -> Flags {
    Flags {
        rq: DnsMessageType::Query,
        opcode: 0,
        query_type: MessageType::Standard,
        authoritative: false,
        truncated: false,
        recursive: false,
        recursion_available: false,
        authenticated: false,
        error: ResultCode::NOERROR,
    }
}

impl Flags {
    /// Decode the raw 16-bit flags field, bit by bit.
    pub fn new(raw_flags: u16) -> (r: Flags)
        ensures
            r == flags_of(raw_flags),
    {
        let opcode: u8 = ((raw_flags >> 11) & 0xF) as u8;
        Flags {
            rq: if raw_flags & 0x8000 == 0 {
                DnsMessageType::Query
            } else {
                DnsMessageType::Response
            },
            opcode,
            query_type: if ((raw_flags >> 11) & 0xF) == 4 {
                MessageType::Inverse
            } else {
                MessageType::Standard
            },
            authoritative: raw_flags & 0x0400 != 0,
            truncated: raw_flags & 0x0200 != 0,
            recursive: raw_flags & 0x0100 != 0,
            recursion_available: raw_flags & 0x0080 != 0,
            authenticated: raw_flags & 0x0020 != 0,
            error: ResultCode::from_num((raw_flags & 0x000F) as u8),
        }
    }
}

impl Default for Flags {
    /// A standard query with every bit clear.
    fn default() -> (r: Flags)
        ensures
            r == default_flags(),
    {
        Flags {
            rq: DnsMessageType::Query,
            opcode: 0,
            query_type: MessageType::Standard,
            authoritative: false,
            truncated: false,
            recursive: false,
            recursion_available: false,
            authenticated: false,
            error: ResultCode::NOERROR,
        }
    }
}

/// The mathematical shape of one decoded resource record, used by the
/// contracts: the domain as text, and every numeric field as an integer.
pub enum RecordModel {
    /// A record of a type the codec does not model.
    Unknown { domain: Seq<char>, qtype: int, data_len: int, ttl: int },
    /// An IPv4 host address record.
    A { domain: Seq<char>, addr: int, ttl: int },
}

/// One resource record: an A record, or the fallback that records the raw
/// type code and payload length of anything the codec does not model.
#[derive(Debug, Clone, PartialEq, Eq, Hash, PartialOrd, Ord)]
pub enum DnsRecord {
    /// The fallback for any record type not natively modeled; its payload
    /// is skipped, never interpreted.
    UNKNOWN { domain: String, qtype: u16, data_len: u16, ttl: u32 },
    /// An IPv4 host address record; the address keeps its 32-bit wire
    /// form, most significant byte first.
    A { domain: String, addr: u32, ttl: u32 },
}

impl View for DnsRecord {
    type V = RecordModel;

    open spec fn view(&self) -> RecordModel {
        match self {
            DnsRecord::UNKNOWN { domain, qtype, data_len, ttl } => RecordModel::Unknown {
                domain: domain@,
                qtype: *qtype as int,
                data_len: *data_len as int,
                ttl: *ttl as int,
            },
            DnsRecord::A { domain, addr, ttl } => RecordModel::A {
                domain: domain@,
                addr: *addr as int,
                ttl: *ttl as int,
            },
        }
    }
}

/// What reading one resource record at offset `p` of a full buffer yields:
/// the record's model and the offset just past it, or the error that stops
/// the read. The name comes first, then type, class, time-to-live and
/// payload length; a type-one record then carries a four-byte address,
/// anything else has exactly `data_len` payload bytes skipped.
pub open spec fn record_parse(b: Seq<u8>, p: int) -> Result<(RecordModel, int), ErrorKind> {
    let (labels, nerr) = qname_walk(b, p, 0);
    match nerr {
        Some(k) => Err(k),
        None => match qname_consumed(b, p) {
            None => Err(ErrorKind::BufferExhausted),
            Some(q) => if q + 10 > BUF_LEN {
                Err(ErrorKind::BufferExhausted)
            } else {
                let qt = be16(b, q);
                let ttl = be32(b, q + 4);
                let dl = be16(b, q + 8);
                if qt == 1 {
                    if q + 14 > BUF_LEN {
                        Err(ErrorKind::BufferExhausted)
                    } else {
                        Ok(
                            (
                                RecordModel::A {
                                    domain: qname_text(labels),
                                    addr: be32(b, q + 10),
                                    ttl,
                                },
                                q + 14,
                            ),
                        )
                    }
                } else {
                    if q + 10 + dl > BUF_LEN {
                        Err(ErrorKind::BufferExhausted)
                    } else {
                        Ok(
                            (
                                RecordModel::Unknown {
                                    domain: qname_text(labels),
                                    qtype: qt,
                                    data_len: dl,
                                    ttl,
                                },
                                q + 10 + dl,
                            ),
                        )
                    }
                }
            },
        },
    }
}

impl DnsRecord {
    /// Read one resource record from the buffer's current position.
    pub fn read(buffer: &mut PacketBuf) -> (r: Result<DnsRecord, DnsError>)
        requires
            old(buffer).wf(),
        ensures
            final(buffer).wf(),
            final(buffer).buf@ == old(buffer).buf@,
            match record_parse(old(buffer).buf@, old(buffer).pos as int) {
                Ok((m, end)) => r matches Ok(rec) && rec@ == m && final(buffer).pos == end,
                Err(k) => r matches Err(e) && e == DnsError::Regular(k),
            },
    {
        let ghost b = buffer.buf@;
        let ghost p = buffer.pos as int;
        let mut domain = String::new();
        match buffer.read_qname(&mut domain) {
            Ok(_) => (),
            Err(e) => {
                return Err(e);
            },
        }
        proof {
            lemma_walk_ok_consumed(b, p, 0);
        }
        let qtype_num = match buffer.read_u16() {
            Ok(v) => v,
            Err(e) => {
                return Err(e);
            },
        };
        let qtype = QueryType::from_num(qtype_num);
        let _class = match buffer.read_u16() {
            Ok(v) => v,
            Err(e) => {
                return Err(e);
            },
        };
        let ttl = match buffer.read_u32() {
            Ok(v) => v,
            Err(e) => {
                return Err(e);
            },
        };
        let data_len = match buffer.read_u16() {
            Ok(v) => v,
            Err(e) => {
                return Err(e);
            },
        };
        match qtype {
            QueryType::A => {
                let raw_addr = match buffer.read_u32() {
                    Ok(v) => v,
                    Err(e) => {
                        return Err(e);
                    },
                };
                Ok(DnsRecord::A { domain, addr: raw_addr, ttl })
            },
            QueryType::UNKNOWN(_) => {
                match buffer.step(data_len as usize) {
                    Ok(_) => (),
                    Err(e) => {
                        return Err(e);
                    },
                }
                Ok(DnsRecord::UNKNOWN { domain, qtype: qtype_num, data_len, ttl })
            },
        }
    }
}

/// What reading one question entry at offset `p` yields: the name's text,
/// the query type, the query class, and the offset just past the entry.
pub open spec fn question_parse(b: Seq<u8>, p: int) -> Result<(Seq<char>, int, int, int),
    ErrorKind,
> {
    let (labels, nerr) = qname_walk(b, p, 0);
    match nerr {
        Some(k) => Err(k),
        None => match qname_consumed(b, p) {
            None => Err(ErrorKind::BufferExhausted),
            Some(q) => if q + 4 > BUF_LEN {
                Err(ErrorKind::BufferExhausted)
            } else {
                Ok((qname_text(labels), be16(b, q), be16(b, q + 2), q + 4))
            },
        },
    }
}

/// Read one question entry from the buffer's current position: its name,
/// query type and query class.
pub fn decode_question(buffer: &mut PacketBuf) -> (r: Result<(String, u16, u16), DnsError>)
    requires
        old(buffer).wf(),
    ensures
        final(buffer).wf(),
        final(buffer).buf@ == old(buffer).buf@,
        match question_parse(old(buffer).buf@, old(buffer).pos as int) {
            Ok((nm, qt, qc, end)) => r matches Ok(t) && t.0@ == nm && t.1 == qt && t.2 == qc
                && final(buffer).pos == end,
            Err(k) => r matches Err(e) && e == DnsError::Regular(k),
        },
{
    let ghost b = buffer.buf@;
    let ghost p = buffer.pos as int;
    let mut name = String::new();
    match buffer.read_qname(&mut name) {
        Ok(_) => (),
        Err(e) => {
            return Err(e);
        },
    }
    proof {
        lemma_walk_ok_consumed(b, p, 0);
        assert(Seq::<char>::empty() + qname_text(qname_walk(b, p, 0).0) =~= qname_text(
            qname_walk(b, p, 0).0,
        ));
    }
    let qtype = match buffer.read_u16() {
        Ok(v) => v,
        Err(e) => {
            return Err(e);
        },
    };
    let qclass = match buffer.read_u16() {
        Ok(v) => v,
        Err(e) => {
            return Err(e);
        },
    };
    Ok((name, qtype, qclass))
}

/// One whole DNS message: the fixed header, its decoded flags, and the
/// single question's domain name. Built empty, populated by one `parse`
/// call, optionally flipped to a response, then serialized.
#[derive(Debug)]
pub struct DnsMessage {
    /// The querier's 16-bit correlation token, echoed in the response.
    pub tx_id: u16,
    /// The raw 16-bit flags field as received.
    pub raw_flags: u16,
    /// The question count.
    pub questions: u16,
    /// The answer-record count.
    pub answer_rrs: u16,
    /// The authority-record count.
    pub authority_rrs: u16,
    /// The additional-record count.
    pub additional_rrs: u16,
    /// The question's domain name, lower-cased and dot-joined.
    pub host: String,
    /// The decoded view of `raw_flags`.
    pub flags: Flags,
}

/// The two big-endian bytes of a 16-bit value.
pub open spec fn be16_bytes(v: u16) -> Seq<u8> {
    seq![(v / 256) as u8, (v % 256) as u8]
}

/// The flags a message puts on the wire: its raw flags, with the QR bit
/// forced on when the message is a response. Every other bit is echoed
/// untouched.
pub open spec fn response_bits(raw: u16, rq: DnsMessageType) -> u16 {
    if rq is Response {
        raw | 0x8000
    } else {
        raw
    }
}

/// The bytes `to_wire` produces: the six header fields big-endian, then
/// the encoded question name; or the name encoder's error.
pub open spec fn message_wire(m: DnsMessage) -> Result<Seq<u8>, ErrorKind> {
    match encode_qname(m.host@) {
        Ok(nb) => Ok(
            be16_bytes(m.tx_id) + be16_bytes(response_bits(m.raw_flags, m.flags.rq))
                + be16_bytes(m.questions) + be16_bytes(m.answer_rrs) + be16_bytes(
                m.authority_rrs,
            ) + be16_bytes(m.additional_rrs) + nb,
        ),
        Err(k) => Err(k),
    }
}

/// Append a 16-bit value to `out`, big-endian.
fn push_be16(out: &mut Vec<u8>, v: u16)
    ensures
        final(out)@ == old(out)@ + be16_bytes(v),
{
    out.push((v / 256) as u8);
    out.push((v % 256) as u8);
    proof {
        assert(out@ =~= old(out)@ + be16_bytes(v));
    }
}

impl Default for DnsMessage {
    /// An empty message: zero header fields, empty host, default flags.
    fn default() -> (r: DnsMessage)
        ensures
            r.tx_id == 0,
            r.raw_flags == 0,
            r.questions == 0,
            r.answer_rrs == 0,
            r.authority_rrs == 0,
            r.additional_rrs == 0,
            r.host@ == Seq::<char>::empty(),
            r.flags == default_flags(),
    {
        DnsMessage {
            tx_id: 0,
            raw_flags: 0,
            questions: 0,
            answer_rrs: 0,
            authority_rrs: 0,
            additional_rrs: 0,
            host: String::new(),
            flags: Flags::default(),
        }
    }
}

impl DnsMessage {
    /// Parse one datagram: the six header fields in wire order, the
    /// decoded flags, and the single question's name read through the
    /// compression-aware name codec. On failure the message is left as it
    /// was and the buffer's bytes are untouched.
    pub fn parse(&mut self, buffer: &mut PacketBuf) -> (r: Result<(), DnsError>)
        requires
            old(buffer).wf(),
        ensures
            final(buffer).wf(),
            final(buffer).buf@ == old(buffer).buf@,
            ({
                let b = old(buffer).buf@;
                let (labels, nerr) = qname_walk(b, 12, 0);
                match nerr {
                    None => {
                        &&& r == Ok::<(), DnsError>(())
                        &&& final(self).tx_id == be16(b, 0)
                        &&& final(self).raw_flags == be16(b, 2)
                        &&& final(self).questions == be16(b, 4)
                        &&& final(self).answer_rrs == be16(b, 6)
                        &&& final(self).authority_rrs == be16(b, 8)
                        &&& final(self).additional_rrs == be16(b, 10)
                        &&& final(self).flags == flags_of(final(self).raw_flags)
                        &&& final(self).host@ == qname_text(labels)
                    },
                    Some(k) => r == Err::<(), DnsError>(DnsError::Regular(k)) && *final(self)
                        == *old(self),
                }
            }),
            final(buffer).pos as int == (match qname_consumed(old(buffer).buf@, 12) {
                Some(p) => p,
                None => 12,
            }),
    {
        let ghost b = buffer.buf@;
        match buffer.seek(0) {
            Ok(_) => (),
            Err(e) => {
                return Err(e);
            },
        }
        let tx_id = match buffer.read_u16() {
            Ok(v) => v,
            Err(e) => {
                return Err(e);
            },
        };
        let raw_flags = match buffer.read_u16() {
            Ok(v) => v,
            Err(e) => {
                return Err(e);
            },
        };
        let questions = match buffer.read_u16() {
            Ok(v) => v,
            Err(e) => {
                return Err(e);
            },
        };
        let answer_rrs = match buffer.read_u16() {
            Ok(v) => v,
            Err(e) => {
                return Err(e);
            },
        };
        let authority_rrs = match buffer.read_u16() {
            Ok(v) => v,
            Err(e) => {
                return Err(e);
            },
        };
        let additional_rrs = match buffer.read_u16() {
            Ok(v) => v,
            Err(e) => {
                return Err(e);
            },
        };
        let flags = Flags::new(raw_flags);
        let mut host = String::new();
        match buffer.read_qname(&mut host) {
            Ok(_) => (),
            Err(e) => {
                return Err(e);
            },
        }
        proof {
            assert(Seq::<char>::empty() + qname_text(qname_walk(b, 12, 0).0) =~= qname_text(
                qname_walk(b, 12, 0).0,
            ));
        }
        self.tx_id = tx_id;
        self.raw_flags = raw_flags;
        self.questions = questions;
        self.answer_rrs = answer_rrs;
        self.authority_rrs = authority_rrs;
        self.additional_rrs = additional_rrs;
        self.flags = flags;
        self.host = host;
        Ok(())
    }

    /// Serialize the message to wire bytes: the six header fields
    /// big-endian — with the QR bit forced on for a response — then the
    /// question name through the name encoder.
    pub fn to_wire(&self) -> (r: Result<Vec<u8>, DnsError>)
        ensures
            match message_wire(*self) {
                Ok(w) => r matches Ok(v) && v@ == w,
                Err(k) => r matches Err(e) && e == DnsError::Regular(k),
            },
    {
        let mut out: Vec<u8> = Vec::new();
        push_be16(&mut out, self.tx_id);
        let bits: u16 = match self.flags.rq {
            DnsMessageType::Response => self.raw_flags | 0x8000,
            DnsMessageType::Query => self.raw_flags,
        };
        push_be16(&mut out, bits);
        push_be16(&mut out, self.questions);
        push_be16(&mut out, self.answer_rrs);
        push_be16(&mut out, self.authority_rrs);
        push_be16(&mut out, self.additional_rrs);
        match write_qname(&mut out, self.host.as_str()) {
            Ok(_) => (),
            Err(e) => {
                return Err(e);
            },
        }
        Ok(out)
    }

    /// Turn the message into the reply to itself: set the message type to
    /// response. Nothing else — counts, transaction id, every other flag —
    /// is touched; attaching answer records is out of scope.
    pub fn generate_response(&mut self)
        ensures
            final(self).flags.rq == DnsMessageType::Response,
            final(self).flags.opcode == old(self).flags.opcode,
            final(self).flags.query_type == old(self).flags.query_type,
            final(self).flags.authoritative == old(self).flags.authoritative,
            final(self).flags.truncated == old(self).flags.truncated,
            final(self).flags.recursive == old(self).flags.recursive,
            final(self).flags.recursion_available == old(self).flags.recursion_available,
            final(self).flags.authenticated == old(self).flags.authenticated,
            final(self).flags.error == old(self).flags.error,
            final(self).tx_id == old(self).tx_id,
            final(self).raw_flags == old(self).raw_flags,
            final(self).questions == old(self).questions,
            final(self).answer_rrs == old(self).answer_rrs,
            final(self).authority_rrs == old(self).authority_rrs,
            final(self).additional_rrs == old(self).additional_rrs,
            final(self).host == old(self).host,
    {
        self.set_rq_type(DnsMessageType::Response);
    }

    /// Set the message-type field of the decoded flags.
    pub fn set_rq_type(&mut self, t: DnsMessageType)
        ensures
            final(self).flags.rq == t,
            final(self).flags.opcode == old(self).flags.opcode,
            final(self).flags.query_type == old(self).flags.query_type,
            final(self).flags.authoritative == old(self).flags.authoritative,
            final(self).flags.truncated == old(self).flags.truncated,
            final(self).flags.recursive == old(self).flags.recursive,
            final(self).flags.recursion_available == old(self).flags.recursion_available,
            final(self).flags.authenticated == old(self).flags.authenticated,
            final(self).flags.error == old(self).flags.error,
            final(self).tx_id == old(self).tx_id,
            final(self).raw_flags == old(self).raw_flags,
            final(self).questions == old(self).questions,
            final(self).answer_rrs == old(self).answer_rrs,
            final(self).authority_rrs == old(self).authority_rrs,
            final(self).additional_rrs == old(self).additional_rrs,
            final(self).host == old(self).host,
    {
        self.flags.rq = t;
    }
}

/// Splitting a 16-bit value into its two big-endian bytes and reading them
/// back yields the value.
pub proof fn lemma_be16_bytes_roundtrip(v: u16)
    ensures
        be16(be16_bytes(v), 0) == v,
{
    assert(((v / 256) as u8) * 256 + ((v % 256) as u8) == v) by (bit_vector);
}

/// Response-flip law: serializing a response and decoding the result again
/// yields the response type with the transaction id and all four counts
/// unchanged. Together with `parse`'s contract this pins the whole
/// query-to-reply round trip: any buffer whose first bytes are the wire
/// form of a response message re-decodes to the same header, with the QR
/// bit reading as a response.
pub proof fn lemma_response_flip_round_trip(m: DnsMessage, w: Seq<u8>, buf: Seq<u8>)
    requires
        message_wire(m) == Ok::<Seq<u8>, ErrorKind>(w),
        m.flags.rq is Response,
        buf.len() == 512,
        w.len() <= 512,
        buf.subrange(0, w.len() as int) == w,
    ensures
        be16(buf, 0) == m.tx_id,
        be16(buf, 2) == (m.raw_flags | 0x8000),
        be16(buf, 4) == m.questions,
        be16(buf, 6) == m.answer_rrs,
        be16(buf, 8) == m.authority_rrs,
        be16(buf, 10) == m.additional_rrs,
        flags_of(m.raw_flags | 0x8000).rq is Response,
{
    let nb = match encode_qname(m.host@) {
        Ok(n) => n,
        Err(_) => Seq::empty(),
    };
    assert(nb.len() >= 1);
    assert(w.len() >= 13);
    assert(forall|i: int| 0 <= i < w.len() ==> buf[i] == #[trigger] w[i]) by {
        assert(forall|i: int|
            0 <= i < w.len() ==> buf.subrange(0, w.len() as int)[i] == #[trigger] w[i]);
    }
    let fr = m.raw_flags | 0x8000;
    assert(w[0] == (m.tx_id / 256) as u8 && w[1] == (m.tx_id % 256) as u8);
    assert(w[2] == (fr / 256) as u8 && w[3] == (fr % 256) as u8);
    assert(w[4] == (m.questions / 256) as u8 && w[5] == (m.questions % 256) as u8);
    assert(w[6] == (m.answer_rrs / 256) as u8 && w[7] == (m.answer_rrs % 256) as u8);
    assert(w[8] == (m.authority_rrs / 256) as u8 && w[9] == (m.authority_rrs % 256) as u8);
    assert(w[10] == (m.additional_rrs / 256) as u8 && w[11] == (m.additional_rrs % 256) as u8);
    lemma_be16_bytes_roundtrip(m.tx_id);
    lemma_be16_bytes_roundtrip(fr);
    lemma_be16_bytes_roundtrip(m.questions);
    lemma_be16_bytes_roundtrip(m.answer_rrs);
    lemma_be16_bytes_roundtrip(m.authority_rrs);
    lemma_be16_bytes_roundtrip(m.additional_rrs);
    let rf = m.raw_flags;
    assert((rf | 0x8000) & 0x8000 != 0) by (bit_vector);
    assert(fr & 0x8000 != 0);
}

/// Skipping law: a record of an unrecognized type advances the read
/// position past its fixed-size fields by exactly its declared payload
/// length, so the record that follows decodes from the right offset.
pub proof fn lemma_unknown_record_skip(b: Seq<u8>, p: int)
    requires
        b.len() == 512,
        0 <= p <= 512,
        record_parse(b, p) matches Ok((m, end)) && m is Unknown,
    ensures
        record_parse(b, p) matches Ok((m, end)) && qname_consumed(b, p) matches Some(q) && (
        match m {
            RecordModel::Unknown { data_len, .. } => end == q + 10 + data_len && data_len
                == be16(b, q + 8),
            RecordModel::A { .. } => false,
        }),
{
}

} // verus!
