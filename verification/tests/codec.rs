use dnsrs::dnserror::{DnsError, ErrorKind};
use dnsrs::dnsmessage::{DnsMessage, DnsMessageType, DnsRecord, MessageType, ResultCode};
use dnsrs::packetbuf::{write_qname, PacketBuf};

/// A buffer holding the given bytes at the given offset, zero elsewhere,
/// with the read position at that offset.
fn buf_with(offset: usize, bytes: &[u8]) -> PacketBuf {
    let mut p = PacketBuf::new();
    for (i, b) in bytes.iter().enumerate() {
        p.buf[offset + i] = *b;
    }
    p.pos = offset;
    p
}

#[test]
fn round_trip_simple_name() {
    let mut wire: Vec<u8> = Vec::new();
    write_qname(&mut wire, "example.com").unwrap();
    assert_eq!(
        wire,
        vec![7, b'e', b'x', b'a', b'm', b'p', b'l', b'e', 3, b'c', b'o', b'm', 0]
    );
    let mut p = buf_with(0, &wire);
    let mut name = String::new();
    p.read_qname(&mut name).unwrap();
    assert_eq!(name, "example.com");
    assert_eq!(p.pos, wire.len());
}

#[test]
fn round_trip_preserves_case_insensitively() {
    let mut wire: Vec<u8> = Vec::new();
    write_qname(&mut wire, "ExAmPle.COM").unwrap();
    let mut p = buf_with(0, &wire);
    let mut name = String::new();
    p.read_qname(&mut name).unwrap();
    assert_eq!(name, "example.com");
}

#[test]
fn compression_pointer_decodes_and_leaves_cursor_past_pointer() {
    // The label sequence for "example.com" at offset 12, and at offset 40 a
    // pointer (0xC0, 0x0C) back to offset 12.
    let mut p = PacketBuf::new();
    let name = [
        7, b'e', b'x', b'a', b'm', b'p', b'l', b'e', 3, b'c', b'o', b'm', 0,
    ];
    for (i, b) in name.iter().enumerate() {
        p.buf[12 + i] = *b;
    }
    p.buf[40] = 0xC0;
    p.buf[41] = 0x0C;
    p.pos = 40;
    let mut out = String::new();
    p.read_qname(&mut out).unwrap();
    assert_eq!(out, "example.com");
    assert_eq!(p.pos, 42, "cursor must sit just past the 2-byte pointer");
}

#[test]
fn pointer_mid_name_continues_at_target() {
    // "com" at offset 12; "example" at offset 20 ending in a pointer to 12.
    let mut p = PacketBuf::new();
    let tail = [3, b'c', b'o', b'm', 0];
    for (i, b) in tail.iter().enumerate() {
        p.buf[12 + i] = *b;
    }
    let head = [7, b'e', b'x', b'a', b'm', b'p', b'l', b'e', 0xC0, 0x0C];
    for (i, b) in head.iter().enumerate() {
        p.buf[20 + i] = *b;
    }
    p.pos = 20;
    let mut out = String::new();
    p.read_qname(&mut out).unwrap();
    assert_eq!(out, "example.com");
    assert_eq!(p.pos, 30, "cursor must sit just past the first pointer");
}

#[test]
fn pointer_target_uses_fourteen_bits() {
    // A pointer (0xC1, 0x04) targets offset 0x0104 = 260.
    let mut p = PacketBuf::new();
    let name = [2, b'o', b'k', 0];
    for (i, b) in name.iter().enumerate() {
        p.buf[260 + i] = *b;
    }
    p.buf[40] = 0xC1;
    p.buf[41] = 0x04;
    p.pos = 40;
    let mut out = String::new();
    p.read_qname(&mut out).unwrap();
    assert_eq!(out, "ok");
    assert_eq!(p.pos, 42);
}

#[test]
fn longest_label_round_trips() {
    let label = "z".repeat(63);
    let mut wire: Vec<u8> = Vec::new();
    write_qname(&mut wire, &label).unwrap();
    let mut p = buf_with(100, &wire);
    let mut out = String::new();
    p.read_qname(&mut out).unwrap();
    assert_eq!(out, label);
    assert_eq!(p.pos, 100 + 65);
}

#[test]
fn self_pointer_fails_with_compression_loop() {
    // A pointer at offset 20 whose 14-bit target is offset 20 itself.
    let mut p = PacketBuf::new();
    p.buf[20] = 0xC0;
    p.buf[21] = 20;
    p.pos = 20;
    let mut out = String::new();
    let e = p.read_qname(&mut out).unwrap_err();
    assert_eq!(e, DnsError::Regular(ErrorKind::CompressionLoop));
}

#[test]
fn pointer_pair_loop_fails_with_compression_loop() {
    let mut p = PacketBuf::new();
    p.buf[20] = 0xC0;
    p.buf[21] = 30;
    p.buf[30] = 0xC0;
    p.buf[31] = 20;
    p.pos = 20;
    let mut out = String::new();
    let e = p.read_qname(&mut out).unwrap_err();
    assert_eq!(e, DnsError::Regular(ErrorKind::CompressionLoop));
}

#[test]
fn range_past_end_fails_with_buffer_exhausted() {
    // Asking to read 4 bytes starting 2 bytes from the end of the buffer.
    let mut p = PacketBuf::new();
    let e = p.get_range(510, 4).unwrap_err();
    assert_eq!(e, DnsError::Regular(ErrorKind::BufferExhausted));
    // The boundary itself is fine: the last two bytes are readable.
    assert_eq!(p.get_range(510, 2).unwrap(), vec![0, 0]);
}

#[test]
fn reads_past_end_fail_with_buffer_exhausted() {
    let mut p = PacketBuf::new();
    p.pos = 511;
    assert!(p.read().is_ok());
    let e = p.read().unwrap_err();
    assert_eq!(e, DnsError::Regular(ErrorKind::BufferExhausted));
    p.pos = 511;
    let e = p.read_u16().unwrap_err();
    assert_eq!(e, DnsError::Regular(ErrorKind::BufferExhausted));
    p.pos = 509;
    let e = p.read_u32().unwrap_err();
    assert_eq!(e, DnsError::Regular(ErrorKind::BufferExhausted));
    let e = p.seek(513).unwrap_err();
    assert_eq!(e, DnsError::Regular(ErrorKind::BufferExhausted));
    p.pos = 500;
    let e = p.step(13).unwrap_err();
    assert_eq!(e, DnsError::Regular(ErrorKind::BufferExhausted));
    assert_eq!(p.pos, 500, "a failed step must not move the position");
    p.step(12).unwrap();
    assert_eq!(p.pos, 512);
}

#[test]
fn truncated_name_fails_with_buffer_exhausted() {
    // A label that claims 60 bytes right at the end of the buffer.
    let mut p = PacketBuf::new();
    p.buf[508] = 60;
    p.pos = 508;
    let mut out = String::new();
    let e = p.read_qname(&mut out).unwrap_err();
    assert_eq!(e, DnsError::Regular(ErrorKind::BufferExhausted));
    assert_eq!(p.pos, 508, "a failed read must leave the cursor unmoved");
}

#[test]
fn labels_before_a_truncated_tail_are_kept() {
    // One good label, then a label that runs past the end of the buffer.
    let mut p = buf_with(500, &[1, b'a', 60]);
    let mut out = String::new();
    let e = p.read_qname(&mut out).unwrap_err();
    assert_eq!(e, DnsError::Regular(ErrorKind::BufferExhausted));
    assert_eq!(out, "a", "labels decoded before the failure stay in the output");
    assert_eq!(p.pos, 500);
}

#[test]
fn failed_parse_leaves_the_message_untouched() {
    let mut p = PacketBuf::new();
    p.buf[12] = 0xC0; // a pointer whose second byte promises offset 20
    p.buf[13] = 20;
    p.buf[20] = 70; // a label running past the end of the buffer
    for i in 21..512 {
        p.buf[i] = 0xC0; // never a terminator
    }
    let mut m = DnsMessage::default();
    let e = m.parse(&mut p).unwrap_err();
    assert_eq!(e, DnsError::Regular(ErrorKind::CompressionLoop));
    assert_eq!(m.tx_id, 0);
    assert_eq!(m.questions, 0);
    assert_eq!(m.host, "");
}

#[test]
fn cursor_reads_bytes_and_integers() {
    let mut p = buf_with(0, &[0x12, 0x34, 0x56, 0x78, 0xAB]);
    assert_eq!(p.read_u16().unwrap(), 0x1234);
    assert_eq!(p.read_u32().unwrap(), 0x5678AB00);
    assert_eq!(p.pos(), 6);
    assert_eq!(p.get(4).unwrap(), 0xAB);
    assert_eq!(p.pos(), 6, "get must not move the position");
    p.seek(1).unwrap();
    assert_eq!(p.read().unwrap(), 0x34);
}

#[test]
fn header_fidelity() {
    let header = [
        0x16, 0x3F, 0x01, 0x20, 0x00, 0x01, 0x00, 0x00, 0x00, 0x00, 0x00, 0x01,
    ];
    let mut p = buf_with(0, &header);
    let mut m = DnsMessage::default();
    m.parse(&mut p).unwrap();
    assert_eq!(m.tx_id, 0x163F);
    assert_eq!(m.raw_flags, 0x0120);
    assert_eq!(m.questions, 1);
    assert_eq!(m.answer_rrs, 0);
    assert_eq!(m.authority_rrs, 0);
    assert_eq!(m.additional_rrs, 1);
    assert_eq!(m.flags.rq, DnsMessageType::Query);
    assert_eq!(m.flags.query_type, MessageType::Standard);
    assert_eq!(m.flags.opcode, 0);
    assert!(m.flags.recursive, "0x0120 has the recursion-desired bit set");
    assert!(m.flags.authenticated, "0x0120 has the authenticated-data bit set");
    assert!(!m.flags.authoritative);
    assert!(!m.flags.truncated);
    assert!(!m.flags.recursion_available);
    assert_eq!(m.flags.error, ResultCode::NOERROR);
}

#[test]
fn parse_reads_question_name() {
    let mut p = buf_with(
        0,
        &[
            0x16, 0x3F, 0x01, 0x20, 0x00, 0x01, 0x00, 0x00, 0x00, 0x00, 0x00, 0x00, 7, b'e',
            b'x', b'a', b'm', b'p', b'l', b'e', 3, b'c', b'o', b'm', 0,
        ],
    );
    let mut m = DnsMessage::default();
    m.parse(&mut p).unwrap();
    assert_eq!(m.host, "example.com");
    assert_eq!(p.pos, 25, "cursor must sit just past the name terminator");
}

#[test]
fn response_flip_survives_reencode_and_redecode() {
    let query = [
        0x16, 0x3F, 0x01, 0x20, 0x00, 0x01, 0x00, 0x00, 0x00, 0x00, 0x00, 0x01, 7, b'e', b'x',
        b'a', b'm', b'p', b'l', b'e', 3, b'c', b'o', b'm', 0,
    ];
    let mut p = buf_with(0, &query);
    let mut m = DnsMessage::default();
    m.parse(&mut p).unwrap();
    assert_eq!(m.flags.rq, DnsMessageType::Query);
    m.generate_response();
    assert_eq!(m.flags.rq, DnsMessageType::Response);
    let wire = m.to_wire().unwrap();
    let mut p2 = buf_with(0, &wire);
    let mut m2 = DnsMessage::default();
    m2.parse(&mut p2).unwrap();
    assert_eq!(m2.flags.rq, DnsMessageType::Response);
    assert_eq!(m2.tx_id, 0x163F);
    assert_eq!(m2.questions, 1);
    assert_eq!(m2.answer_rrs, 0);
    assert_eq!(m2.authority_rrs, 0);
    assert_eq!(m2.additional_rrs, 1);
    assert_eq!(m2.host, "example.com");
}

#[test]
fn a_record_decodes_ipv4_address() {
    // name "example.com", type 1 (A), class 1, ttl 1200, rdlength 4,
    // rdata 0A 94 4C 05.
    let rec = [
        7, b'e', b'x', b'a', b'm', b'p', b'l', b'e', 3, b'c', b'o', b'm', 0, 0x00, 0x01, 0x00,
        0x01, 0x00, 0x00, 0x04, 0xB0, 0x00, 0x04, 0x0A, 0x94, 0x4C, 0x05,
    ];
    let mut p = buf_with(12, &rec);
    let r = DnsRecord::read(&mut p).unwrap();
    match r {
        DnsRecord::A { domain, addr, ttl } => {
            assert_eq!(domain, "example.com");
            assert_eq!(ttl, 1200);
            let octets = [
                (addr >> 24) as u8,
                (addr >> 16) as u8,
                (addr >> 8) as u8,
                addr as u8,
            ];
            assert_eq!(octets, [10, 148, 76, 5]);
        }
        other => panic!("expected an A record, got {:?}", other),
    }
    assert_eq!(p.pos, 12 + rec.len());
}

#[test]
fn unknown_type_skips_exactly_its_payload() {
    // First record: type 16, rdlength 5, payload of 5 bytes. Second record
    // right behind it: an A record that must still decode correctly.
    let mut bytes: Vec<u8> = vec![
        1, b'x', 0, // name "x"
        0x00, 0x10, // type 16
        0x00, 0x01, // class
        0x00, 0x00, 0x00, 0x3C, // ttl 60
        0x00, 0x05, // rdlength 5
        1, 2, 3, 4, 5, // payload
    ];
    let second_start = 12 + bytes.len();
    bytes.extend_from_slice(&[
        1, b'y', 0, // name "y"
        0x00, 0x01, // type A
        0x00, 0x01, // class
        0x00, 0x00, 0x00, 0x3C, // ttl 60
        0x00, 0x04, // rdlength 4
        192, 0, 2, 1, // address
    ]);
    let mut p = buf_with(12, &bytes);
    let first = DnsRecord::read(&mut p).unwrap();
    match first {
        DnsRecord::UNKNOWN { domain, qtype, data_len, ttl } => {
            assert_eq!(domain, "x");
            assert_eq!(qtype, 16);
            assert_eq!(data_len, 5);
            assert_eq!(ttl, 60);
        }
        other => panic!("expected an UNKNOWN record, got {:?}", other),
    }
    assert_eq!(p.pos, second_start, "skip must advance by exactly rdlength");
    let second = DnsRecord::read(&mut p).unwrap();
    match second {
        DnsRecord::A { domain, addr, ttl } => {
            assert_eq!(domain, "y");
            assert_eq!(addr, 0xC0000201);
            assert_eq!(ttl, 60);
        }
        other => panic!("expected an A record, got {:?}", other),
    }
}

#[test]
fn unknown_record_overrunning_payload_fails() {
    // rdlength claims more bytes than the buffer holds past the header.
    let rec = [
        1, b'x', 0, 0x00, 0x10, 0x00, 0x01, 0x00, 0x00, 0x00, 0x3C, 0xFF, 0xFF,
    ];
    let mut p = buf_with(499, &rec);
    let e = DnsRecord::read(&mut p).unwrap_err();
    assert_eq!(e, DnsError::Regular(ErrorKind::BufferExhausted));
}
