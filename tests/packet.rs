use smart_dns::{
    build_response, first_question, query_packet, upstream_reply, BytePacketBuffer, DnsError, DnsPacket,
    DnsQuestion, DnsRecord, QueryType, ResultCode,
};

fn request(id: u16, names: &[&str]) -> DnsPacket {
    let mut packet = DnsPacket::new();
    packet.header.id = id;
    packet.header.recursion_desired = true;
    for name in names {
        packet.questions.push(DnsQuestion::new(name.to_string(), QueryType::A));
    }
    packet
}

fn decode(octets: &[u8]) -> Result<DnsPacket, DnsError> {
    let mut buffer = BytePacketBuffer::new();
    buffer.buf[..octets.len()].copy_from_slice(octets);
    DnsPacket::from_buffer(&mut buffer)
}

fn upstream_answer() -> DnsPacket {
    let mut packet = DnsPacket::new();
    packet.header.rescode = ResultCode::NXDOMAIN;
    packet.answers.push(DnsRecord::A { domain: "www.example.com".to_string(), addr: [1, 2, 3, 4], ttl: 30 });
    packet.authorities.push(DnsRecord::NS { domain: "example.com".to_string(), host: "ns.example.com".to_string(), ttl: 60 });
    packet.resources.push(DnsRecord::A { domain: "ns.example.com".to_string(), addr: [5, 6, 7, 8], ttl: 60 });
    packet
}

#[test]
fn write_sets_header_counts() {
    let mut packet = upstream_answer();
    packet.questions.push(DnsQuestion::new("www.example.com".to_string(), QueryType::A));
    packet.header.questions = 9;
    packet.header.answers = 0;
    let octets = packet.to_bytes().unwrap();
    assert_eq!(packet.header.questions, 1);
    assert_eq!(packet.header.answers, 1);
    assert_eq!(packet.header.authoritative_entries, 1);
    assert_eq!(packet.header.resource_entries, 1);
    assert_eq!(&octets[4..12], &[0, 1, 0, 1, 0, 1, 0, 1]);
    let decoded = decode(&octets).unwrap();
    assert_eq!(decoded.questions, packet.questions);
    assert_eq!(decoded.answers, packet.answers);
    assert_eq!(decoded.authorities, packet.authorities);
    assert_eq!(decoded.resources, packet.resources);
    assert_eq!(decoded.header.rescode, ResultCode::NXDOMAIN);
}

#[test]
fn packet_write_reports_position() {
    let mut packet = request(1, &["a.b"]);
    let mut buffer = BytePacketBuffer::new();
    packet.write(&mut buffer).unwrap();
    assert_eq!(buffer.pos(), 12 + 5 + 4);
}

#[test]
fn oversized_packet_is_out_of_bounds() {
    let mut packet = DnsPacket::new();
    for i in 0..20 {
        packet.answers.push(DnsRecord::A { domain: format!("host{}.example.com", i), addr: [1, 1, 1, 1], ttl: 1 });
    }
    assert_eq!(packet.to_bytes(), Err(DnsError::OutOfBounds));
}

#[test]
fn golden_a_response_decodes() {
    // A response to an A query for google.com, answer name compressed to offset 12.
    let octets: Vec<u8> = vec![
        0x86, 0x2a, 0x81, 0x80, 0x00, 0x01, 0x00, 0x01, 0x00, 0x00, 0x00, 0x00, //
        0x06, b'g', b'o', b'o', b'g', b'l', b'e', 0x03, b'c', b'o', b'm', 0x00, 0x00, 0x01, 0x00, 0x01, //
        0xc0, 0x0c, 0x00, 0x01, 0x00, 0x01, 0x00, 0x00, 0x01, 0x25, 0x00, 0x04, 0xd8, 0x3a, 0xd3, 0x8e,
    ];
    let packet = decode(&octets).unwrap();
    assert_eq!(packet.header.id, 0x862a);
    assert!(packet.header.response && packet.header.recursion_desired && packet.header.recursion_available);
    assert_eq!(packet.header.answers, 1);
    assert_eq!(packet.questions, vec![DnsQuestion::new("google.com".to_string(), QueryType::A)]);
    assert_eq!(
        packet.answers,
        vec![DnsRecord::A { domain: "google.com".to_string(), addr: [216, 58, 211, 142], ttl: 293 }]
    );
}

#[test]
fn compressed_second_question_decodes_to_same_name() {
    let octets: Vec<u8> = vec![
        0x00, 0x07, 0x01, 0x00, 0x00, 0x02, 0x00, 0x00, 0x00, 0x00, 0x00, 0x00, //
        0x03, b'w', b'w', b'w', 0x07, b'e', b'x', b'a', b'm', b'p', b'l', b'e', 0x03, b'c', b'o', b'm', 0x00,
        0x00, 0x01, 0x00, 0x01, //
        0xc0, 0x0c, 0x00, 0x0f, 0x00, 0x01,
    ];
    let packet = decode(&octets).unwrap();
    assert_eq!(packet.questions.len(), 2);
    assert_eq!(packet.questions[0].name, "www.example.com");
    assert_eq!(packet.questions[1].name, packet.questions[0].name);
    assert_eq!(packet.questions[1].qtype, QueryType::MX);
}

#[test]
fn self_pointer_question_is_too_many_jumps() {
    let octets: Vec<u8> = vec![
        0x00, 0x07, 0x01, 0x00, 0x00, 0x01, 0x00, 0x00, 0x00, 0x00, 0x00, 0x00, //
        0xc0, 0x0c, 0x00, 0x01, 0x00, 0x01,
    ];
    assert_eq!(decode(&octets).err(), Some(DnsError::TooManyJumps));
}

#[test]
fn counts_past_the_data_are_out_of_bounds() {
    let mut octets = vec![0u8; 12];
    octets[7] = 47;
    // Each zero record takes eleven octets: 12 + 47 * 11 passes the end of the buffer.
    assert_eq!(decode(&octets).err(), Some(DnsError::OutOfBounds));
}

#[test]
fn empty_question_request_gets_formerr() {
    let req = request(0x4242, &[]);
    let mut response = build_response(&req, Ok(upstream_answer()));
    assert_eq!(response.header.rescode, ResultCode::FORMERR);
    assert_eq!(response.header.id, 0x4242);
    assert!(response.questions.is_empty() && response.answers.is_empty());
    let octets = response.to_bytes().unwrap();
    assert_eq!(&octets[4..6], &[0, 0]);
    assert_eq!(octets.len(), 12);
}

#[test]
fn upstream_failure_gets_servfail() {
    let req = request(0x1234, &["www.example.com"]);
    let response = build_response(&req, Err(DnsError::UpstreamFailure));
    assert_eq!(response.header.rescode, ResultCode::SERVFAIL);
    assert_eq!(response.header.id, 0x1234);
    assert!(response.header.response);
    assert!(response.header.recursion_desired && response.header.recursion_available);
    assert!(response.questions.is_empty());
    assert!(response.answers.is_empty() && response.authorities.is_empty() && response.resources.is_empty());
}

#[test]
fn answer_is_copied_with_first_question() {
    let req = request(77, &["www.example.com", "other.example.com"]);
    let up = upstream_answer();
    let response = build_response(&req, Ok(up.clone()));
    assert_eq!(response.header.id, 77);
    assert_eq!(response.header.rescode, ResultCode::NXDOMAIN);
    assert!(response.header.response && response.header.recursion_available);
    assert!(!response.header.authoritative_answer && !response.header.truncated_message);
    assert_eq!(response.questions, vec![DnsQuestion::new("www.example.com".to_string(), QueryType::A)]);
    assert_eq!(response.answers, up.answers);
    assert_eq!(response.authorities, up.authorities);
    assert_eq!(response.resources, up.resources);
}

#[test]
fn response_echoes_request_id() {
    for id in [0u16, 1, 6666, 0xffff] {
        let req = request(id, &["a.example"]);
        assert_eq!(build_response(&req, Ok(upstream_answer())).header.id, id);
        assert_eq!(build_response(&req, Err(DnsError::UpstreamFailure)).header.id, id);
    }
}

#[test]
fn first_question_is_forwarded() {
    let req = request(1, &["one.example", "two.example"]);
    assert_eq!(first_question(&req), Some(DnsQuestion::new("one.example".to_string(), QueryType::A)));
    assert_eq!(first_question(&request(1, &[])), None);
}

#[test]
fn query_packet_asks_for_recursion() {
    let mut query = query_packet(&"yahoo.com".to_string(), QueryType::MX, 6666);
    let octets = query.to_bytes().unwrap();
    assert_eq!(&octets[..12], &[0x1a, 0x0a, 0x01, 0x00, 0, 1, 0, 0, 0, 0, 0, 0]);
    assert_eq!(&octets[12..], &[5, b'y', b'a', b'h', b'o', b'o', 3, b'c', b'o', b'm', 0, 0, 15, 0, 1]);
}

#[test]
fn upstream_reply_must_match_id() {
    let mut answer = upstream_answer();
    answer.header.id = 9;
    let octets = answer.to_bytes().unwrap();
    let mut buffer = BytePacketBuffer::new();
    buffer.buf[..octets.len()].copy_from_slice(&octets);
    assert_eq!(upstream_reply(10, &mut buffer).err(), Some(DnsError::UpstreamFailure));
    buffer.seek(0).unwrap();
    let reply = upstream_reply(9, &mut buffer).unwrap();
    assert_eq!(reply.answers, answer.answers);
}

#[test]
fn undecodable_upstream_reply_is_failure() {
    let mut buffer = BytePacketBuffer::new();
    buffer.buf[..14].copy_from_slice(&[0, 9, 0x81, 0x80, 0, 1, 0, 0, 0, 0, 0, 0, 0x40, 0]);
    assert_eq!(upstream_reply(9, &mut buffer).err(), Some(DnsError::UpstreamFailure));
}
