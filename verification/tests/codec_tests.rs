use dns_codec::byte_packet_buffer::BytePacketBuffer;
use dns_codec::dns_error::DnsError;
use dns_codec::dns_header::DnsHeader;
use dns_codec::dns_packet::DnsPacket;
use dns_codec::dns_question::DnsQuestion;
use dns_codec::dns_record::{DnsRecord, Ipv4Address};
use dns_codec::query_type::QueryType;
use dns_codec::resolver::{build_query, build_response};
use dns_codec::result_code::ResultCode;

#[test]
fn u16_u32_roundtrip_through_buffer() {
    let mut b = BytePacketBuffer::new();
    b.write_u16(0xBEEF).unwrap();
    b.write_u32(0xDEADBEEF).unwrap();
    b.write_u8(7).unwrap();
    let mut r = b;
    r.pos = 0;
    assert_eq!(r.read_u16().unwrap(), 0xBEEF);
    assert_eq!(r.read_u32().unwrap(), 0xDEADBEEF);
    assert_eq!(r.pos(), 6);
}

#[test]
fn reads_at_capacity_fail_with_bounds_error() {
    let mut b = BytePacketBuffer::new();
    b.pos = 512;
    assert_eq!(b.read_u16(), Err(DnsError::EndOfBuffer));
    assert_eq!(b.read_u32(), Err(DnsError::EndOfBuffer));
    b.pos = 511;
    assert_eq!(b.read_u16(), Err(DnsError::EndOfBuffer));
}

#[test]
fn writes_at_capacity_fail_with_bounds_error() {
    let mut b = BytePacketBuffer::new();
    b.pos = 512;
    assert_eq!(b.write_u8(1), Err(DnsError::EndOfBuffer));
    b.pos = 511;
    assert_eq!(b.write_u16(1), Err(DnsError::EndOfBuffer));
    b.pos = 509;
    assert_eq!(b.write_u32(1), Err(DnsError::EndOfBuffer));
}

#[test]
fn range_and_cursor_ops_validate_bounds() {
    let mut b = BytePacketBuffer::new();
    // a range ending exactly at the capacity touches only byte 511
    assert_eq!(b.get_range(508, 4).unwrap().len(), 4);
    assert_eq!(b.get_range(512, 0).unwrap().len(), 0);
    assert_eq!(b.get_range(509, 4), Err(DnsError::EndOfBuffer));
    assert_eq!(b.get_range(513, 0), Err(DnsError::EndOfBuffer));
    assert!(b.get_range(500, 11).is_ok());
    assert_eq!(b.step(513), Err(DnsError::EndOfBuffer));
    assert!(b.step(512).is_ok());
    assert_eq!(b.set_u16(511, 1), Err(DnsError::EndOfBuffer));
    assert!(b.set_u16(510, 0xABCD).is_ok());
    assert_eq!(b.buf[510], 0xAB);
    assert_eq!(b.buf[511], 0xCD);
}

#[test]
fn single_byte_ops_validate_bounds_without_moving() {
    let mut b = BytePacketBuffer::new();
    b.write_u8(0x42).unwrap();
    b.pos = 512;
    // a read at the capacity fails and leaves the cursor where it was
    assert_eq!(b.read(), Err(DnsError::EndOfBuffer));
    assert_eq!(b.pos(), 512);
    assert_eq!(b.write_u8(1), Err(DnsError::EndOfBuffer));
    assert_eq!(b.pos(), 512);
    assert_eq!(b.buf[0], 0x42);
    // peeking never moves the cursor, and validates its own position
    assert_eq!(b.get(0), Ok(0x42));
    assert_eq!(b.get(512), Err(DnsError::EndOfBuffer));
    assert_eq!(b.pos(), 512);
    // seeking validates the target position
    assert_eq!(b.seek(513), Err(DnsError::EndOfBuffer));
    assert_eq!(b.pos(), 512);
    assert!(b.seek(0).is_ok());
    assert_eq!(b.read(), Ok(0x42));
}

#[test]
fn label_of_63_bytes_encodes_and_64_fails() {
    let mut b = BytePacketBuffer::new();
    let long = vec![b'a'; 63];
    assert!(b.write_qname(&long).is_ok());

    let mut b2 = BytePacketBuffer::new();
    let too_long = vec![b'a'; 64];
    assert_eq!(b2.write_qname(&too_long), Err(DnsError::LabelTooLong));
}

#[test]
fn qname_roundtrips_through_the_wire() {
    let mut b = BytePacketBuffer::new();
    b.write_qname(&b"example.com".to_vec()).unwrap();
    assert_eq!(b.pos(), 13);
    b.pos = 0;
    let mut name = Vec::new();
    b.read_qname(&mut name).unwrap();
    assert_eq!(name, b"example.com".to_vec());
    assert_eq!(b.pos(), 13);
}

#[test]
fn mixed_case_name_decodes_lowercased() {
    let mut b = BytePacketBuffer::new();
    b.write_qname(&b"ExAmPlE.CoM".to_vec()).unwrap();
    b.pos = 0;
    let mut name = Vec::new();
    b.read_qname(&mut name).unwrap();
    assert_eq!(name, b"example.com".to_vec());
}

#[test]
fn compression_pointer_yields_same_name_as_direct_decode() {
    let mut b = BytePacketBuffer::new();
    b.pos = 12;
    b.write_qname(&b"example.com".to_vec()).unwrap();
    // a pointer at 40 back to the name at offset 12
    b.buf[40] = 0xC0;
    b.buf[41] = 12;

    let mut direct = Vec::new();
    b.pos = 12;
    b.read_qname(&mut direct).unwrap();

    let mut via_pointer = Vec::new();
    b.pos = 40;
    b.read_qname(&mut via_pointer).unwrap();

    assert_eq!(direct, via_pointer);
    assert_eq!(via_pointer, b"example.com".to_vec());
    // the cursor stops right after the two pointer bytes
    assert_eq!(b.pos(), 42);
}

#[test]
fn chained_pointers_resolve_to_the_final_name() {
    let mut b = BytePacketBuffer::new();
    b.pos = 12;
    b.write_qname(&b"example.com".to_vec()).unwrap();
    b.buf[60] = 0xC0;
    b.buf[61] = 12;
    b.buf[80] = 0xC0;
    b.buf[81] = 60;

    let mut name = Vec::new();
    b.pos = 80;
    b.read_qname(&mut name).unwrap();
    assert_eq!(name, b"example.com".to_vec());
}

#[test]
fn labels_before_chained_pointers_concatenate_in_order() {
    let mut b = BytePacketBuffer::new();
    // a plain name, a labelled pointer to it, and a labelled pointer to that
    b.pos = 12;
    b.write_qname(&b"example.com".to_vec()).unwrap();
    b.buf[60] = 4;
    b.buf[61..65].copy_from_slice(b"MAIL");
    b.buf[65] = 0xC0;
    b.buf[66] = 12;
    b.buf[90] = 3;
    b.buf[91..94].copy_from_slice(b"www");
    b.buf[94] = 0xC0;
    b.buf[95] = 60;

    let mut name = Vec::new();
    b.pos = 90;
    b.read_qname(&mut name).unwrap();
    assert_eq!(name, b"www.mail.example.com".to_vec());
    // the cursor stops right after the first pointer's two bytes
    assert_eq!(b.pos(), 96);
}

#[test]
fn pointer_loop_fails_instead_of_spinning() {
    let mut b = BytePacketBuffer::new();
    b.buf[100] = 0xC0;
    b.buf[101] = 100;
    let mut name = Vec::new();
    b.pos = 100;
    assert_eq!(b.read_qname(&mut name), Err(DnsError::TooManyJumps));
}

#[test]
fn header_bit_packing_survives_the_wire() {
    let mut h = DnsHeader::new();
    h.id = 0x1234;
    h.recursion_desired = true;
    h.truncated_message = true;
    h.authoritative_answer = true;
    h.opcode = 0x0A;
    h.response = true;
    h.rescode = ResultCode::REFUSED;
    h.checking_disabled = true;
    h.authed_data = true;
    h.z = true;
    h.recursion_available = true;
    h.questions = 3;
    h.answers = 2;
    h.authoritative_entries = 1;
    h.resource_entries = 4;

    let mut b = BytePacketBuffer::new();
    h.write(&mut b).unwrap();
    b.pos = 0;
    let mut back = DnsHeader::new();
    back.read(&mut b).unwrap();
    assert_eq!(format!("{:?}", back), format!("{:?}", h));
}

#[test]
fn header_flags_clear_combination_roundtrips() {
    let mut h = DnsHeader::new();
    h.id = 1;
    h.opcode = 0x05;
    h.rescode = ResultCode::NXDOMAIN;
    let mut b = BytePacketBuffer::new();
    h.write(&mut b).unwrap();
    b.pos = 0;
    let mut back = DnsHeader::new();
    back.read(&mut b).unwrap();
    assert_eq!(format!("{:?}", back), format!("{:?}", h));
    assert!(!back.response && !back.recursion_desired && !back.z);
}

#[test]
fn result_code_wire_values() {
    assert_eq!(ResultCode::from_num(0), ResultCode::NOERROR);
    assert_eq!(ResultCode::from_num(1), ResultCode::FORMERR);
    assert_eq!(ResultCode::from_num(2), ResultCode::SERVFAIL);
    assert_eq!(ResultCode::from_num(3), ResultCode::NXDOMAIN);
    assert_eq!(ResultCode::from_num(4), ResultCode::NOTIMP);
    assert_eq!(ResultCode::from_num(5), ResultCode::REFUSED);
    // unrecognized wire values fall back to NOERROR
    assert_eq!(ResultCode::from_num(9), ResultCode::NOERROR);
    assert_eq!(ResultCode::from_num(15), ResultCode::NOERROR);
    assert_eq!(ResultCode::REFUSED.to_num(), 5);
}

#[test]
fn query_type_wire_values() {
    assert_eq!(QueryType::from_num(1), QueryType::A);
    assert_eq!(QueryType::from_num(7), QueryType::UNKNOWN(7));
    assert_eq!(QueryType::A.to_num(), 1);
    assert_eq!(QueryType::UNKNOWN(300).to_num(), 300);
}

#[test]
fn question_roundtrips_through_the_wire() {
    let q = DnsQuestion::new(b"verus.example".to_vec(), QueryType::A);
    let mut b = BytePacketBuffer::new();
    q.write(&mut b).unwrap();
    b.pos = 0;
    let mut back = DnsQuestion::new(Vec::new(), QueryType::UNKNOWN(0));
    back.read(&mut b).unwrap();
    assert_eq!(back, q);
}

#[test]
fn a_record_roundtrips_through_the_wire() {
    let rec = DnsRecord::A {
        domain: b"example.com".to_vec(),
        addr: Ipv4Address { o0: 93, o1: 184, o2: 216, o3: 34 },
        ttl: 3600,
    };
    let mut b = BytePacketBuffer::new();
    rec.write(&mut b).unwrap();
    b.pos = 0;
    let back = DnsRecord::read(&mut b).unwrap();
    assert_eq!(back, rec);
}

#[test]
fn unknown_record_skips_payload_and_keeps_metadata() {
    let mut b = BytePacketBuffer::new();
    b.write_qname(&b"odd.example".to_vec()).unwrap();
    b.write_u16(99).unwrap(); // type code nothing understands
    b.write_u16(1).unwrap(); // class
    b.write_u32(600).unwrap(); // ttl
    b.write_u16(4).unwrap(); // declared payload length
    b.write_u32(0xAABBCCDD).unwrap(); // the payload itself
    let end = b.pos();
    b.pos = 0;
    let back = DnsRecord::read(&mut b).unwrap();
    assert_eq!(
        back,
        DnsRecord::UNKNOWN { domain: b"odd.example".to_vec(), qtype: 99, data_len: 4, ttl: 600 }
    );
    assert_eq!(b.pos(), end);
}

#[test]
fn single_question_message_roundtrips() {
    let mut packet = DnsPacket::new();
    packet.header.id = 7;
    packet.header.questions = 1;
    packet.questions.push(DnsQuestion::new(b"example.com".to_vec(), QueryType::A));

    let mut b = BytePacketBuffer::new();
    packet.write(&mut b).unwrap();
    b.pos = 0;
    let back = DnsPacket::from_buffer(&mut b).unwrap();

    assert_eq!(back.questions.len(), 1);
    assert_eq!(back.questions[0].name, b"example.com".to_vec());
    assert_eq!(back.questions[0].qtype, QueryType::A);
    assert_eq!(back.header.id, 7);
    assert!(back.answers.is_empty());
    assert!(back.authorities.is_empty());
    assert!(back.resources.is_empty());
}

#[test]
fn full_message_roundtrips_with_recomputed_counts() {
    let mut packet = DnsPacket::new();
    packet.header.id = 4242;
    packet.header.recursion_desired = true;
    packet.header.response = true;
    // stale counts: writing must recompute them from the sections
    packet.header.questions = 40;
    packet.header.answers = 0;
    packet.questions.push(DnsQuestion::new(b"a.example".to_vec(), QueryType::A));
    packet.answers.push(DnsRecord::A {
        domain: b"a.example".to_vec(),
        addr: Ipv4Address { o0: 10, o1: 0, o2: 0, o3: 1 },
        ttl: 60,
    });
    packet.answers.push(DnsRecord::A {
        domain: b"b.example".to_vec(),
        addr: Ipv4Address { o0: 10, o1: 0, o2: 0, o3: 2 },
        ttl: 61,
    });
    packet.authorities.push(DnsRecord::A {
        domain: b"ns.example".to_vec(),
        addr: Ipv4Address { o0: 10, o1: 0, o2: 0, o3: 3 },
        ttl: 62,
    });

    let mut b = BytePacketBuffer::new();
    packet.write(&mut b).unwrap();
    b.pos = 0;
    let back = DnsPacket::from_buffer(&mut b).unwrap();

    assert_eq!(back.header.questions, 1);
    assert_eq!(back.header.answers, 2);
    assert_eq!(back.header.authoritative_entries, 1);
    assert_eq!(back.header.resource_entries, 0);
    assert_eq!(back.questions, packet.questions);
    assert_eq!(back.answers, packet.answers);
    assert_eq!(back.authorities, packet.authorities);
    assert_eq!(back.resources, packet.resources);
}

#[test]
fn decode_fails_when_counts_outrun_the_buffer() {
    let mut b = BytePacketBuffer::new();
    let mut h = DnsHeader::new();
    h.questions = 200; // promised, never written
    h.write(&mut b).unwrap();
    b.pos = 0;
    assert!(DnsPacket::from_buffer(&mut b).is_err());
}

#[test]
fn build_query_asks_exactly_one_question() {
    let q = build_query(b"example.com".to_vec(), QueryType::A);
    assert_eq!(q.header.id, 6666);
    assert!(q.header.recursion_desired);
    assert_eq!(q.header.questions, 1);
    assert_eq!(q.questions.len(), 1);
    assert_eq!(q.questions[0].name, b"example.com".to_vec());
    assert!(q.answers.is_empty());
}

#[test]
fn empty_question_request_gets_formerr() {
    let request = DnsPacket::new();
    let response = build_response(&request, None);
    assert_eq!(response.header.rescode, ResultCode::FORMERR);
    assert!(response.header.response);
    assert!(response.header.recursion_available);
    assert!(response.questions.is_empty());
    assert!(response.answers.is_empty());
    assert!(response.authorities.is_empty());
    assert!(response.resources.is_empty());
}

#[test]
fn empty_question_request_gets_formerr_despite_lying_counts() {
    let mut request = DnsPacket::new();
    request.header.questions = 9;
    request.header.answers = 9;
    let response = build_response(&request, None);
    assert_eq!(response.header.rescode, ResultCode::FORMERR);
    assert!(response.answers.is_empty());
    assert!(response.authorities.is_empty());
    assert!(response.resources.is_empty());
}

#[test]
fn upstream_failure_becomes_servfail_without_records() {
    let mut request = DnsPacket::new();
    request.header.id = 99;
    request.questions.push(DnsQuestion::new(b"example.com".to_vec(), QueryType::A));
    let response = build_response(&request, None);
    assert_eq!(response.header.id, 99);
    assert_eq!(response.header.rescode, ResultCode::SERVFAIL);
    assert!(response.answers.is_empty());
    assert!(response.authorities.is_empty());
    assert!(response.resources.is_empty());
}

#[test]
fn upstream_answer_is_copied_into_the_response() {
    let mut request = DnsPacket::new();
    request.header.id = 77;
    request.questions.push(DnsQuestion::new(b"example.com".to_vec(), QueryType::A));

    let mut upstream = DnsPacket::new();
    upstream.header.rescode = ResultCode::NXDOMAIN;
    upstream.answers.push(DnsRecord::A {
        domain: b"example.com".to_vec(),
        addr: Ipv4Address { o0: 93, o1: 184, o2: 216, o3: 34 },
        ttl: 300,
    });

    let response = build_response(&request, Some(upstream));
    assert_eq!(response.header.id, 77);
    assert_eq!(response.header.rescode, ResultCode::NXDOMAIN);
    assert_eq!(response.questions, request.questions);
    assert_eq!(response.answers.len(), 1);
    assert!(response.header.response);
}
