use smart_dns::{encode_qname, BytePacketBuffer, DnsError, DnsHeader, DnsQuestion, DnsRecord, QueryType, ResultCode};

fn buffer_with(octets: &[u8]) -> BytePacketBuffer {
    let mut buffer = BytePacketBuffer::new();
    buffer.buf[..octets.len()].copy_from_slice(octets);
    buffer
}

#[test]
fn new_buffer_is_zeroed_at_start() {
    let buffer = BytePacketBuffer::new();
    assert_eq!(buffer.pos(), 0);
    assert!(buffer.buf.iter().all(|b| *b == 0));
}

#[test]
fn words_are_big_endian() {
    let mut buffer = BytePacketBuffer::new();
    buffer.write_u16(0x1234).unwrap();
    buffer.write_u32(0xdeadbeef).unwrap();
    assert_eq!(&buffer.buf[..6], &[0x12, 0x34, 0xde, 0xad, 0xbe, 0xef]);
    buffer.seek(0).unwrap();
    assert_eq!(buffer.read_u16().unwrap(), 0x1234);
    assert_eq!(buffer.read_u32().unwrap(), 0xdeadbeef);
    assert_eq!(buffer.pos(), 6);
}

#[test]
fn read_at_end_is_out_of_bounds() {
    let mut buffer = BytePacketBuffer::new();
    buffer.seek(511).unwrap();
    assert_eq!(buffer.read().unwrap(), 0);
    assert_eq!(buffer.read(), Err(DnsError::OutOfBounds));
    buffer.seek(511).unwrap();
    assert_eq!(buffer.read_u16(), Err(DnsError::OutOfBounds));
    assert_eq!(buffer.pos(), 511);
}

#[test]
fn write_at_end_is_out_of_bounds() {
    let mut buffer = BytePacketBuffer::new();
    buffer.seek(512).unwrap();
    assert_eq!(buffer.write(7), Err(DnsError::OutOfBounds));
    buffer.seek(509).unwrap();
    assert_eq!(buffer.write_u32(1), Err(DnsError::OutOfBounds));
    assert_eq!(buffer.pos(), 509);
    assert_eq!(buffer.buf[509], 0);
}

#[test]
fn step_and_seek_stay_inside() {
    let mut buffer = BytePacketBuffer::new();
    assert_eq!(buffer.seek(513), Err(DnsError::OutOfBounds));
    buffer.seek(500).unwrap();
    assert_eq!(buffer.step(13), Err(DnsError::OutOfBounds));
    buffer.step(12).unwrap();
    assert_eq!(buffer.pos(), 512);
}

#[test]
fn get_range_may_end_at_last_octet() {
    let mut buffer = BytePacketBuffer::new();
    buffer.set(511, 9).unwrap();
    assert_eq!(buffer.get_range(510, 2).unwrap(), &[0, 9]);
    assert_eq!(buffer.get_range(511, 2), Err(DnsError::OutOfBounds));
    assert_eq!(buffer.get(512), Err(DnsError::OutOfBounds));
    assert_eq!(buffer.get(511), Ok(9));
}

#[test]
fn set_u16_patches_in_place() {
    let mut buffer = BytePacketBuffer::new();
    buffer.write_u32(0).unwrap();
    buffer.set_u16(1, 0xabcd).unwrap();
    assert_eq!(&buffer.buf[..4], &[0, 0xab, 0xcd, 0]);
    assert_eq!(buffer.pos(), 4);
    assert_eq!(buffer.set_u16(511, 1), Err(DnsError::OutOfBounds));
}

#[test]
fn qname_encodes_labels() {
    let octets = encode_qname("www.example.com").unwrap();
    let mut expected = vec![3u8];
    expected.extend_from_slice(b"www");
    expected.push(7);
    expected.extend_from_slice(b"example");
    expected.push(3);
    expected.extend_from_slice(b"com");
    expected.push(0);
    assert_eq!(octets, expected);
}

#[test]
fn qname_skips_empty_labels() {
    assert_eq!(encode_qname("com.").unwrap(), vec![3, b'c', b'o', b'm', 0]);
    assert_eq!(encode_qname("a..b").unwrap(), vec![1, b'a', 1, b'b', 0]);
    assert_eq!(encode_qname("").unwrap(), vec![0]);
}

#[test]
fn label_of_63_octets_encodes() {
    let label = "a".repeat(63);
    let mut buffer = BytePacketBuffer::new();
    buffer.write_qname(&format!("{}.com", label)).unwrap();
    assert_eq!(buffer.buf[0], 63);
    assert_eq!(buffer.pos(), 1 + 63 + 1 + 3 + 1);
}

#[test]
fn label_of_64_octets_is_refused() {
    let label = "a".repeat(64);
    let mut buffer = BytePacketBuffer::new();
    assert_eq!(buffer.write_qname(&format!("{}.com", label)), Err(DnsError::MalformedLabel));
    assert_eq!(buffer.pos(), 0);
    assert_eq!(buffer.buf[0], 0);
}

#[test]
fn oversized_label_question_fails_cleanly() {
    let question = DnsQuestion::new(format!("www.{}.com", "x".repeat(64)), QueryType::A);
    let mut buffer = BytePacketBuffer::new();
    assert_eq!(question.write(&mut buffer), Err(DnsError::MalformedLabel));
    assert_eq!(buffer.pos(), 0);
}

#[test]
fn qname_that_does_not_fit_is_out_of_bounds() {
    let mut buffer = BytePacketBuffer::new();
    buffer.seek(508).unwrap();
    assert_eq!(buffer.write_qname("abcd"), Err(DnsError::OutOfBounds));
    assert_eq!(buffer.pos(), 508);
}

#[test]
fn qname_reads_lowercased() {
    let mut buffer = buffer_with(&[3, b'W', b'w', b'W', 6, b'G', b'o', b'o', b'G', b'l', b'e', 3, b'c', b'O', b'm', 0]);
    let mut out = String::new();
    buffer.read_qname(&mut out).unwrap();
    assert_eq!(out, "www.google.com");
    assert_eq!(buffer.pos(), 16);
}

#[test]
fn qname_appends_to_existing_text() {
    let mut buffer = buffer_with(&[2, b'i', b'o', 0]);
    let mut out = String::from("x:");
    buffer.read_qname(&mut out).unwrap();
    assert_eq!(out, "x:io");
}

#[test]
fn compressed_name_moves_cursor_past_pointer() {
    // "a.b" at 0, then "c" followed by a pointer to 0 at 5.
    let mut buffer = buffer_with(&[1, b'a', 1, b'b', 0, 1, b'c', 0xc0, 0x00, 0xff]);
    buffer.seek(5).unwrap();
    let mut out = String::new();
    buffer.read_qname(&mut out).unwrap();
    assert_eq!(out, "c.a.b");
    assert_eq!(buffer.pos(), 9);
}

#[test]
fn self_pointer_is_too_many_jumps() {
    let mut buffer = buffer_with(&[0, 0, 0, 0xc0, 0x03]);
    buffer.seek(3).unwrap();
    let mut out = String::new();
    assert_eq!(buffer.read_qname(&mut out), Err(DnsError::TooManyJumps));
    assert_eq!(buffer.pos(), 3);
    assert_eq!(out, "");
}

#[test]
fn six_pointer_chain_is_too_many_jumps() {
    // Pointers at 0, 2, 4, 6, 8, 10 each point to the next; 12 ends the name.
    let mut octets = Vec::new();
    for k in 1..=6u8 {
        octets.push(0xc0);
        octets.push(2 * k);
    }
    octets.push(0);
    let mut buffer = buffer_with(&octets);
    let mut out = String::new();
    assert_eq!(buffer.read_qname(&mut out), Err(DnsError::TooManyJumps));
}

#[test]
fn five_pointer_chain_is_followed() {
    let mut octets = Vec::new();
    for k in 1..=5u8 {
        octets.push(0xc0);
        octets.push(2 * k);
    }
    octets.extend_from_slice(&[2, b'o', b'k', 0]);
    let mut buffer = buffer_with(&octets);
    let mut out = String::new();
    buffer.read_qname(&mut out).unwrap();
    assert_eq!(out, "ok");
    assert_eq!(buffer.pos(), 2);
}

#[test]
fn pointer_past_buffer_is_out_of_bounds() {
    let mut buffer = buffer_with(&[0xc3, 0xff]);
    let mut out = String::new();
    assert_eq!(buffer.read_qname(&mut out), Err(DnsError::OutOfBounds));
}

#[test]
fn label_past_buffer_is_out_of_bounds() {
    let mut buffer = BytePacketBuffer::new();
    buffer.set(500, 20).unwrap();
    buffer.seek(500).unwrap();
    let mut out = String::new();
    assert_eq!(buffer.read_qname(&mut out), Err(DnsError::OutOfBounds));
}

#[test]
fn reserved_label_bits_are_malformed() {
    let mut buffer = buffer_with(&[0x41, b'a', 0]);
    let mut out = String::new();
    assert_eq!(buffer.read_qname(&mut out), Err(DnsError::MalformedLabel));
}

#[test]
fn non_ascii_label_is_malformed() {
    let mut buffer = buffer_with(&[2, 0xc3, 0xa9, 0]);
    let mut out = String::new();
    assert_eq!(buffer.read_qname(&mut out), Err(DnsError::MalformedLabel));
}

#[test]
fn result_code_from_num() {
    assert_eq!(ResultCode::from_num(0), ResultCode::NOERROR);
    assert_eq!(ResultCode::from_num(1), ResultCode::FORMERR);
    assert_eq!(ResultCode::from_num(2), ResultCode::SERVFAIL);
    assert_eq!(ResultCode::from_num(3), ResultCode::NXDOMAIN);
    assert_eq!(ResultCode::from_num(4), ResultCode::NOTIMP);
    assert_eq!(ResultCode::from_num(5), ResultCode::REFUSED);
    assert_eq!(ResultCode::from_num(9), ResultCode::NOERROR);
    assert_eq!(ResultCode::REFUSED.to_num(), 5);
}

#[test]
fn query_type_numbers() {
    assert_eq!(QueryType::A.to_num(), 1);
    assert_eq!(QueryType::NS.to_num(), 2);
    assert_eq!(QueryType::CNAME.to_num(), 5);
    assert_eq!(QueryType::MX.to_num(), 15);
    assert_eq!(QueryType::AAAA.to_num(), 28);
    assert_eq!(QueryType::from_num(15), QueryType::MX);
    assert_eq!(QueryType::from_num(99), QueryType::UNKNOWN(99));
    for t in [QueryType::A, QueryType::NS, QueryType::CNAME, QueryType::MX, QueryType::AAAA, QueryType::UNKNOWN(16)] {
        assert_eq!(QueryType::from_num(t.to_num()), t);
    }
}

#[test]
fn header_round_trip() {
    let mut header = DnsHeader::new();
    header.id = 0xbeef;
    header.recursion_desired = true;
    header.truncated_message = false;
    header.authoritative_answer = true;
    header.opcode = 0x0a;
    header.response = true;
    header.rescode = ResultCode::NXDOMAIN;
    header.checking_disabled = true;
    header.authed_data = false;
    header.z = true;
    header.recursion_available = true;
    header.questions = 1;
    header.answers = 2;
    header.authoritative_entries = 3;
    header.resource_entries = 0x0405;
    let mut buffer = BytePacketBuffer::new();
    header.write(&mut buffer).unwrap();
    assert_eq!(buffer.pos(), 12);
    assert_eq!(&buffer.buf[..12], &[0xbe, 0xef, 0xd5, 0xd3, 0, 1, 0, 2, 0, 3, 4, 5]);
    buffer.seek(0).unwrap();
    let mut decoded = DnsHeader::new();
    decoded.read(&mut buffer).unwrap();
    assert_eq!(decoded, header);
}

#[test]
fn header_flag_bits() {
    let mut buffer = buffer_with(&[0, 7, 0x81, 0x80, 0, 1, 0, 0, 0, 0, 0, 0]);
    let mut header = DnsHeader::new();
    header.read(&mut buffer).unwrap();
    assert_eq!(header.id, 7);
    assert!(header.response && header.recursion_desired && header.recursion_available);
    assert!(!header.truncated_message && !header.authoritative_answer && !header.z);
    assert_eq!(header.opcode, 0);
    assert_eq!(header.rescode, ResultCode::NOERROR);
    assert_eq!(header.questions, 1);
}

#[test]
fn header_read_needs_twelve_octets() {
    let mut buffer = BytePacketBuffer::new();
    buffer.seek(501).unwrap();
    let mut header = DnsHeader::new();
    assert_eq!(header.read(&mut buffer), Err(DnsError::OutOfBounds));
    assert_eq!(buffer.pos(), 501);
}

#[test]
fn question_round_trip() {
    let question = DnsQuestion::new("Mail.Example.ORG".to_string(), QueryType::MX);
    let mut buffer = BytePacketBuffer::new();
    question.write(&mut buffer).unwrap();
    assert_eq!(buffer.pos(), 18 + 4);
    assert_eq!(&buffer.buf[18..22], &[0, 15, 0, 1]);
    buffer.seek(0).unwrap();
    let mut decoded = DnsQuestion::new(String::new(), QueryType::UNKNOWN(0));
    decoded.read(&mut buffer).unwrap();
    assert_eq!(decoded, DnsQuestion::new("mail.example.org".to_string(), QueryType::MX));
    assert_eq!(buffer.pos(), 22);
}

fn round_trip(record: &DnsRecord) -> DnsRecord {
    let mut buffer = BytePacketBuffer::new();
    let written = record.write(&mut buffer).unwrap();
    assert_eq!(written, buffer.pos());
    buffer.seek(0).unwrap();
    let decoded = DnsRecord::read(&mut buffer).unwrap();
    assert_eq!(buffer.pos(), written);
    decoded
}

#[test]
fn a_record_round_trip() {
    let record = DnsRecord::A { domain: "example.com".to_string(), addr: [93, 184, 216, 34], ttl: 3600 };
    assert_eq!(round_trip(&record), record);
}

#[test]
fn a_record_octets() {
    let record = DnsRecord::A { domain: "a".to_string(), addr: [10, 0, 0, 1], ttl: 0x01020304 };
    let mut buffer = BytePacketBuffer::new();
    assert_eq!(record.write(&mut buffer), Ok(17));
    assert_eq!(&buffer.buf[..17], &[1, b'a', 0, 0, 1, 0, 1, 1, 2, 3, 4, 0, 4, 10, 0, 0, 1]);
}

#[test]
fn aaaa_record_round_trip() {
    let record = DnsRecord::AAAA {
        domain: "v6.example.net".to_string(),
        addr: [0x2001, 0x0db8, 0, 0, 0, 0xff00, 0x0042, 0x8329],
        ttl: 60,
    };
    assert_eq!(round_trip(&record), record);
}

#[test]
fn ns_record_round_trip() {
    let record = DnsRecord::NS { domain: "example.com".to_string(), host: "ns1.example.com".to_string(), ttl: 86400 };
    assert_eq!(round_trip(&record), record);
}

#[test]
fn cname_record_round_trip() {
    let record = DnsRecord::CNAME { domain: "www.example.com".to_string(), host: "example.com".to_string(), ttl: 5 };
    assert_eq!(round_trip(&record), record);
}

#[test]
fn mx_record_round_trip() {
    let record = DnsRecord::MX {
        domain: "yahoo.com".to_string(),
        priority: 1,
        host: "mta5.am0.yahoodns.net".to_string(),
        ttl: 1800,
    };
    assert_eq!(round_trip(&record), record);
}

#[test]
fn mx_data_length_is_patched() {
    let record = DnsRecord::MX { domain: "a".to_string(), priority: 10, host: "mx.a".to_string(), ttl: 1 };
    let mut buffer = BytePacketBuffer::new();
    record.write(&mut buffer).unwrap();
    // owner 3 octets, type, class, ttl; then RDLENGTH = 2 + 6.
    assert_eq!(&buffer.buf[11..13], &[0, 8]);
    assert_eq!(&buffer.buf[13..15], &[0, 10]);
}

#[test]
fn unknown_record_writes_nothing() {
    let record = DnsRecord::UNKNOWN { domain: "x".to_string(), qtype: 99, data_len: 4, ttl: 1 };
    let mut buffer = BytePacketBuffer::new();
    assert_eq!(record.write(&mut buffer), Ok(0));
    assert_eq!(buffer.pos(), 0);
}

#[test]
fn unknown_record_data_is_skipped() {
    let mut buffer = buffer_with(&[1, b'x', 0, 0, 99, 0, 1, 0, 0, 0, 7, 0, 3, 0xaa, 0xbb, 0xcc, 0xee]);
    let record = DnsRecord::read(&mut buffer).unwrap();
    assert_eq!(record, DnsRecord::UNKNOWN { domain: "x".to_string(), qtype: 99, data_len: 3, ttl: 7 });
    assert_eq!(buffer.pos(), 16);
}

#[test]
fn record_that_does_not_fit_is_out_of_bounds() {
    let record = DnsRecord::A { domain: "example.com".to_string(), addr: [1, 2, 3, 4], ttl: 1 };
    let mut buffer = BytePacketBuffer::new();
    buffer.seek(490).unwrap();
    assert_eq!(record.write(&mut buffer), Err(DnsError::OutOfBounds));
}

#[test]
fn record_with_long_host_label_is_malformed() {
    let record = DnsRecord::CNAME { domain: "a".to_string(), host: "b".repeat(64), ttl: 1 };
    let mut buffer = BytePacketBuffer::new();
    assert_eq!(record.write(&mut buffer), Err(DnsError::MalformedLabel));
}
