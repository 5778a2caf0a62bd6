use dnsrs::dnserror::{DnsError, ErrorKind};
use dnsrs::dnsmessage::{DnsMessage, DnsMessageType, Flags, MessageType, QueryType, ResultCode};
use dnsrs::packetbuf::{write_qname, PacketBuf};

#[test]
fn flags_decode_is_total_and_bit_accurate() {
    let f = Flags::new(0x8180);
    assert_eq!(f.rq, DnsMessageType::Response);
    assert_eq!(f.opcode, 0);
    assert_eq!(f.query_type, MessageType::Standard);
    assert!(!f.authoritative);
    assert!(!f.truncated);
    assert!(f.recursive);
    assert!(f.recursion_available);
    assert!(!f.authenticated);
    assert_eq!(f.error, ResultCode::NOERROR);

    let f = Flags::new(0x2403);
    assert_eq!(f.rq, DnsMessageType::Query);
    assert_eq!(f.opcode, 4, "opcode is the full four-bit field");
    assert_eq!(f.query_type, MessageType::Inverse);
    assert!(f.authoritative);
    assert_eq!(f.error, ResultCode::NXDOMAIN);

    let f = Flags::new(0xFFFF);
    assert_eq!(f.rq, DnsMessageType::Response);
    assert_eq!(f.opcode, 15);
    assert_eq!(f.query_type, MessageType::Standard);
    assert!(f.truncated);
    assert_eq!(f.error, ResultCode::NOERROR, "code 15 is not modeled");

    let f = Flags::default();
    assert_eq!(f.rq, DnsMessageType::Query);
    assert_eq!(f.error, ResultCode::NOERROR);
}

#[test]
fn result_code_mapping() {
    assert_eq!(ResultCode::from_num(0), ResultCode::NOERROR);
    assert_eq!(ResultCode::from_num(1), ResultCode::FORMERR);
    assert_eq!(ResultCode::from_num(2), ResultCode::SERVFAIL);
    assert_eq!(ResultCode::from_num(3), ResultCode::NXDOMAIN);
    assert_eq!(ResultCode::from_num(4), ResultCode::NOTIMP);
    assert_eq!(ResultCode::from_num(5), ResultCode::REFUSED);
    assert_eq!(ResultCode::from_num(200), ResultCode::NOERROR);
}

#[test]
fn query_type_mapping() {
    assert_eq!(QueryType::from_num(1), QueryType::A);
    assert_eq!(QueryType::from_num(16), QueryType::UNKNOWN(16));
    assert_eq!(QueryType::A.to_num(), 1);
    assert_eq!(QueryType::UNKNOWN(41).to_num(), 41);
}

#[test]
fn error_kinds_describe_themselves() {
    assert_eq!(ErrorKind::BufferExhausted.as_str(), "end of buffer");
    assert_eq!(ErrorKind::CompressionLoop.as_str(), "compression pointer loop");
    assert_eq!(ErrorKind::LabelTooLong.as_str(), "label too long");
    assert_eq!(ErrorKind::FieldConversion.as_str(), "field conversion failed");
    assert_eq!(
        DnsError::Regular(ErrorKind::LabelTooLong).message(),
        "label too long"
    );
    assert_eq!(
        DnsError::Other(String::from("socket gone")).message(),
        "socket gone"
    );
    assert_eq!(
        DnsError::Regular(ErrorKind::CompressionLoop).kind(),
        Some(ErrorKind::CompressionLoop)
    );
    assert_eq!(DnsError::Other(String::from("x")).kind(), None);
}

#[test]
fn encoder_rejects_label_longer_than_63_bytes() {
    let long = "a".repeat(64);
    let name = format!("{}.com", long);
    let mut out: Vec<u8> = Vec::new();
    let e = write_qname(&mut out, &name).unwrap_err();
    assert_eq!(e, DnsError::Regular(ErrorKind::LabelTooLong));
    assert!(out.is_empty(), "a failed encode must leave the output untouched");
    let edge = "b".repeat(63);
    write_qname(&mut out, &edge).unwrap();
    assert_eq!(out[0], 63);
    assert_eq!(out.len(), 65);
}

#[test]
fn encoder_rejects_character_wider_than_a_byte() {
    let mut out: Vec<u8> = Vec::new();
    let e = write_qname(&mut out, "bad\u{20AC}name.com").unwrap_err();
    assert_eq!(e, DnsError::Regular(ErrorKind::FieldConversion));
    assert!(out.is_empty());
}

#[test]
fn empty_name_encodes_as_bare_terminator() {
    let mut out: Vec<u8> = Vec::new();
    write_qname(&mut out, "").unwrap();
    assert_eq!(out, vec![0]);
    let mut p = PacketBuf::new();
    for (i, b) in out.iter().enumerate() {
        p.buf[i] = *b;
    }
    let mut name = String::new();
    p.read_qname(&mut name).unwrap();
    assert_eq!(name, "");
    assert_eq!(p.pos, 1);
}

#[test]
fn to_wire_serializes_header_and_name() {
    let mut m = DnsMessage::default();
    m.tx_id = 0x163F;
    m.raw_flags = 0x0120;
    m.questions = 1;
    m.additional_rrs = 1;
    m.host = String::from("example.com");
    let wire = m.to_wire().unwrap();
    assert_eq!(
        wire,
        vec![
            0x16, 0x3F, 0x01, 0x20, 0x00, 0x01, 0x00, 0x00, 0x00, 0x00, 0x00, 0x01, 7, b'e',
            b'x', b'a', b'm', b'p', b'l', b'e', 3, b'c', b'o', b'm', 0,
        ]
    );
    // A response forces the QR bit on, touching nothing else.
    m.generate_response();
    let wire = m.to_wire().unwrap();
    assert_eq!(wire[2], 0x81);
    assert_eq!(wire[3], 0x20);
    assert_eq!(&wire[0..2], &[0x16, 0x3F]);
    assert_eq!(&wire[4..12], &[0x00, 0x01, 0x00, 0x00, 0x00, 0x00, 0x00, 0x01]);
}

#[test]
fn decode_question_reads_name_type_and_class() {
    let q = [
        7, b'e', b'x', b'a', b'm', b'p', b'l', b'e', 3, b'c', b'o', b'm', 0, 0x00, 0x01, 0x00,
        0x01,
    ];
    let mut p = PacketBuf::new();
    for (i, b) in q.iter().enumerate() {
        p.buf[12 + i] = *b;
    }
    p.pos = 12;
    let (name, qtype, qclass) = dnsrs::dnsmessage::decode_question(&mut p).unwrap();
    assert_eq!(name, "example.com");
    assert_eq!(qtype, 1);
    assert_eq!(qclass, 1);
    assert_eq!(p.pos, 12 + q.len());
    assert_eq!(QueryType::from_num(qtype), QueryType::A);
}
