use dnsafe::{
    BufferError, BytePacketBuffer, DnsHeader, DnsPacket, DnsQuestion, DnsRecord, Ipv4, Ipv6,
    PacketBuffer, QueryType, ResultCode,
};

fn question_bytes() -> Vec<u8> {
    let mut bytes = vec![8u8];
    bytes.extend_from_slice(b"centauri");
    bytes.push(9);
    bytes.extend_from_slice(b"solutions");
    bytes.extend_from_slice(&[0, 0, 1, 0, 1]);
    bytes
}

fn query_packet() -> Vec<u8> {
    let mut bytes = vec![0x86, 0x2a, 0x01, 0x20, 0, 1, 0, 0, 0, 0, 0, 0];
    bytes.extend_from_slice(&question_bytes());
    bytes
}

fn response_packet() -> Vec<u8> {
    let mut bytes = vec![0x86, 0x2a, 0x81, 0x80, 0, 1, 0, 1, 0, 0, 0, 0];
    bytes.extend_from_slice(&question_bytes());
    bytes.extend_from_slice(&[0xC0, 0x0C, 0, 1, 0, 1, 0, 0, 0x01, 0x12, 0, 4, 104, 27, 149, 54]);
    bytes
}

fn buffer_of(bytes: &[u8]) -> BytePacketBuffer {
    let mut buffer = BytePacketBuffer::new();
    buffer.buf[..bytes.len()].copy_from_slice(bytes);
    buffer
}

#[test]
fn mod_it_parses_a_request() {
    let mut buffer = buffer_of(&query_packet());
    let record = DnsPacket::from_buffer(&mut buffer).unwrap();
    assert_eq!(record.questions[0].name, "centauri.solutions");
}

#[test]
fn dns_packet_it_parses_a_request() {
    let mut buffer = buffer_of(&query_packet());
    let record = DnsPacket::from_buffer(&mut buffer).unwrap();
    assert_eq!(record.questions[0].name, "centauri.solutions");
}

#[test]
fn mod_it_parses_a_response() {
    let mut buffer = buffer_of(&response_packet());
    let record = DnsPacket::from_buffer(&mut buffer).unwrap();
    assert_eq!(record.questions[0].name, "centauri.solutions");
    assert_eq!(
        record.answers[0],
        DnsRecord::A {
            domain: "centauri.solutions".into(),
            addr: Ipv4::new(104, 27, 149, 54),
            ttl: 274,
        }
    );
}

#[test]
fn dns_packet_it_parses_a_response() {
    let mut buffer = buffer_of(&response_packet());
    let record = DnsPacket::from_buffer(&mut buffer).unwrap();
    assert_eq!(record.questions[0].name, "centauri.solutions");
    assert_eq!(record.answers[0], DnsRecord::A{domain: "centauri.solutions".into(), addr: Ipv4::new(104, 27, 149, 54), ttl: 274});
}

#[test]
fn it_parses_a_query_header() {
    let packet = query_packet();
    let header = DnsHeader::parse(&packet[..]).unwrap().0;
    println!("Header: {:?}", header);
}

#[test]
fn query_packet_has_one_question_and_no_answers() {
    let mut buffer = buffer_of(&query_packet());
    let packet = DnsPacket::from_buffer(&mut buffer).unwrap();
    assert_eq!(packet.questions.len(), 1);
    assert_eq!(packet.questions[0].qtype, QueryType::A);
    assert_eq!(packet.answers.len(), 0);
    assert_eq!(packet.authorities.len(), 0);
    assert_eq!(packet.resources.len(), 0);
    assert_eq!(packet.header.id, 0x862a);
    assert!(packet.header.recursion_desired);
    assert!(!packet.header.response);
    assert_eq!(buffer.pos(), 36);
}

#[test]
fn response_header_is_decoded_bit_by_bit() {
    let mut buffer = buffer_of(&response_packet());
    let mut header = DnsHeader::new();
    assert_eq!(header.read(&mut buffer), Ok(()));
    assert_eq!(buffer.pos(), 12);
    assert_eq!(
        header,
        DnsHeader {
            id: 0x862a,
            recursion_desired: true,
            truncated_message: false,
            authoritative_answer: false,
            opcode: 0,
            response: true,
            rescode: ResultCode::NOERROR,
            checking_disabled: false,
            authed_data: false,
            z: false,
            recursion_available: true,
            questions: 1,
            answers: 1,
            authoritative_entries: 0,
            resource_entries: 0,
        }
    );
}

#[test]
fn header_flags_stand_where_the_layout_says() {
    let mut header = DnsHeader::new();
    header.id = 0x1234;
    header.response = true;
    header.opcode = 0b1010;
    header.authoritative_answer = true;
    header.truncated_message = false;
    header.recursion_desired = true;
    header.recursion_available = true;
    header.z = false;
    header.authed_data = true;
    header.checking_disabled = false;
    header.rescode = ResultCode::NXDOMAIN;
    header.questions = 1;
    header.answers = 0x0203;
    header.authoritative_entries = 4;
    header.resource_entries = 0xFFFF;
    let mut buffer = BytePacketBuffer::new();
    assert_eq!(header.write(&mut buffer), Ok(()));
    assert_eq!(buffer.pos(), 12);
    assert_eq!(
        &buffer.buf[..12],
        &[0x12, 0x34, 0b1101_0101, 0b1010_0011, 0, 1, 2, 3, 0, 4, 0xFF, 0xFF]
    );
    buffer.seek(0).unwrap();
    let mut back = DnsHeader::new();
    back.read(&mut buffer).unwrap();
    assert_eq!(back, header);
}

#[test]
fn header_round_trips_for_every_flag_and_code() {
    for bits in 0u16..256 {
        for code in 0u8..6 {
            let header = DnsHeader {
                id: bits.wrapping_mul(257),
                recursion_desired: bits & 1 != 0,
                truncated_message: bits & 2 != 0,
                authoritative_answer: bits & 4 != 0,
                opcode: (bits >> 4) as u8,
                response: bits & 8 != 0,
                rescode: ResultCode::from_num(code),
                checking_disabled: bits & 16 != 0,
                authed_data: bits & 32 != 0,
                z: bits & 64 != 0,
                recursion_available: bits & 128 != 0,
                questions: bits,
                answers: bits + 1,
                authoritative_entries: bits + 2,
                resource_entries: bits + 3,
            };
            let mut buffer = BytePacketBuffer::new();
            header.write(&mut buffer).unwrap();
            buffer.seek(0).unwrap();
            let mut back = DnsHeader::new();
            back.read(&mut buffer).unwrap();
            assert_eq!(back, header);
        }
    }
}

#[test]
fn header_needs_twelve_bytes() {
    let mut buffer = BytePacketBuffer::new();
    buffer.seek(501).unwrap();
    let mut header = DnsHeader::new();
    header.id = 9;
    assert_eq!(header.read(&mut buffer), Err(BufferError::EndOfBuffer));
    assert_eq!(header, DnsHeader { id: 9, ..DnsHeader::new() });
    buffer.seek(501).unwrap();
    assert_eq!(header.write(&mut buffer), Err(BufferError::EndOfBuffer));
    buffer.seek(500).unwrap();
    assert_eq!(header.write(&mut buffer), Ok(()));
    assert_eq!(buffer.pos(), 512);
}

#[test]
fn opcode_is_written_with_four_bits() {
    let mut header = DnsHeader::new();
    header.opcode = 0x1F;
    let mut buffer = BytePacketBuffer::new();
    header.write(&mut buffer).unwrap();
    assert_eq!(buffer.buf[2], 0b0111_1000);
}

#[test]
fn rcode_round_trip() {
    let all = [
        ResultCode::NOERROR,
        ResultCode::FORMERR,
        ResultCode::SERVFAIL,
        ResultCode::NXDOMAIN,
        ResultCode::NOTIMP,
        ResultCode::REFUSED,
    ];
    for (num, code) in all.iter().enumerate() {
        assert_eq!(code.to_num(), num as u8);
        assert_eq!(ResultCode::from_num(num as u8), *code);
    }
    for num in 6u8..=255 {
        assert_eq!(ResultCode::from_num(num), ResultCode::NOERROR);
    }
}

#[test]
fn qtype_round_trip() {
    assert_eq!(QueryType::from_num(1), QueryType::A);
    assert_eq!(QueryType::from_num(2), QueryType::NS);
    assert_eq!(QueryType::from_num(5), QueryType::CNAME);
    assert_eq!(QueryType::from_num(15), QueryType::MX);
    assert_eq!(QueryType::from_num(28), QueryType::AAAA);
    assert_eq!(QueryType::from_num(16), QueryType::UNKNOWN(16));
    assert_eq!(QueryType::from_num(0), QueryType::UNKNOWN(0));
    for num in 0u16..=u16::MAX {
        assert_eq!(QueryType::from_num(num).to_num(), num);
    }
    assert_eq!(QueryType::UNKNOWN(1).to_num(), 1);
}

#[test]
fn question_is_name_type_and_class_in() {
    let question = DnsQuestion::new("a.bc".to_string(), QueryType::MX);
    let mut buffer = BytePacketBuffer::new();
    assert_eq!(question.write(&mut buffer), Ok(()));
    assert_eq!(&buffer.buf[..10], &[1, b'a', 2, b'b', b'c', 0, 0, 15, 0, 1]);
    assert_eq!(buffer.pos(), 10);
    buffer.seek(0).unwrap();
    let mut back = DnsQuestion::new(String::new(), QueryType::UNKNOWN(0));
    assert_eq!(back.read(&mut buffer), Ok(()));
    assert_eq!(back, question);
    assert_eq!(buffer.pos(), 10);
}

#[test]
fn question_class_is_skipped_on_read() {
    let mut buffer = buffer_of(&[1, b'x', 0, 0, 28, 0xAB, 0xCD]);
    let mut question = DnsQuestion::new(String::new(), QueryType::UNKNOWN(0));
    question.read(&mut buffer).unwrap();
    assert_eq!(question, DnsQuestion::new("x".to_string(), QueryType::AAAA));
    assert_eq!(buffer.pos(), 7);
}

#[test]
fn question_with_long_label_is_refused_untouched() {
    let question = DnsQuestion::new("a".repeat(64), QueryType::A);
    let mut buffer = BytePacketBuffer::new();
    assert_eq!(question.write(&mut buffer), Err(BufferError::InvalidLabelLength));
    assert_eq!(buffer.pos(), 0);
    assert!(buffer.buf.iter().all(|b| *b == 0));
}

#[test]
fn a_record_on_the_wire() {
    let record = DnsRecord::A { domain: "a.b".to_string(), addr: Ipv4::new(1, 2, 3, 4), ttl: 0x01020304 };
    let mut buffer = BytePacketBuffer::new();
    assert_eq!(record.write(&mut buffer), Ok(19));
    assert_eq!(
        &buffer.buf[..19],
        &[1, b'a', 1, b'b', 0, 0, 1, 0, 1, 1, 2, 3, 4, 0, 4, 1, 2, 3, 4]
    );
    assert_eq!(buffer.pos(), 19);
    buffer.seek(0).unwrap();
    assert_eq!(DnsRecord::read(&mut buffer), Ok(record));
    assert_eq!(buffer.pos(), 19);
}

#[test]
fn ns_and_cname_records_fill_in_their_length() {
    let ns = DnsRecord::NS { domain: "com".to_string(), host: "a.gtld-servers.net".to_string(), ttl: 172800 };
    let mut buffer = BytePacketBuffer::new();
    assert_eq!(ns.write(&mut buffer), Ok(35));
    // name 5, type 2, class 2, ttl 4, then the length of the host on the wire: 20
    assert_eq!(&buffer.buf[5..15], &[0, 2, 0, 1, 0, 2, 0xA3, 0, 0, 20]);
    assert_eq!(buffer.buf[15], 1);
    assert_eq!(buffer.buf[34], 0);
    let cname = DnsRecord::CNAME { domain: "w.x".to_string(), host: "y".to_string(), ttl: 1 };
    assert_eq!(cname.write(&mut buffer), Ok(18));
    assert_eq!(&buffer.buf[35..53], &[1, b'w', 1, b'x', 0, 0, 5, 0, 1, 0, 0, 0, 1, 0, 3, 1, b'y', 0]);
    buffer.seek(0).unwrap();
    assert_eq!(DnsRecord::read(&mut buffer), Ok(ns));
    assert_eq!(DnsRecord::read(&mut buffer), Ok(cname));
    assert_eq!(buffer.pos(), 53);
}

#[test]
fn mx_record_counts_priority_in_its_length() {
    let mx = DnsRecord::MX { domain: "x".to_string(), priority: 0x0A0B, host: "m.x".to_string(), ttl: 60 };
    let mut buffer = BytePacketBuffer::new();
    assert_eq!(mx.write(&mut buffer), Ok(20));
    assert_eq!(
        &buffer.buf[..20],
        &[1, b'x', 0, 0, 15, 0, 1, 0, 0, 0, 60, 0, 7, 0x0A, 0x0B, 1, b'm', 1, b'x', 0]
    );
    buffer.seek(0).unwrap();
    assert_eq!(DnsRecord::read(&mut buffer), Ok(mx));
}

#[test]
fn aaaa_record_is_eight_groups() {
    let record = DnsRecord::AAAA {
        domain: "v6".to_string(),
        addr: Ipv6::new(0x2001, 0x0db8, 0, 1, 2, 3, 0xFFFF, 0x00FF),
        ttl: 5,
    };
    let mut buffer = BytePacketBuffer::new();
    assert_eq!(record.write(&mut buffer), Ok(30));
    assert_eq!(&buffer.buf[4..14], &[0, 28, 0, 1, 0, 0, 0, 5, 0, 16]);
    assert_eq!(
        &buffer.buf[14..30],
        &[0x20, 0x01, 0x0d, 0xb8, 0, 0, 0, 1, 0, 2, 0, 3, 0xFF, 0xFF, 0, 0xFF]
    );
    buffer.seek(0).unwrap();
    assert_eq!(DnsRecord::read(&mut buffer), Ok(record));
    assert_eq!(buffer.pos(), 30);
}

#[test]
fn unknown_record_is_skipped_on_read_and_not_written() {
    let mut bytes = vec![1, b'u', 0, 0, 99, 0, 1, 0, 0, 1, 0, 0, 3, 7, 8, 9];
    bytes.extend_from_slice(&[1, b'n', 0, 0, 1, 0, 1, 0, 0, 0, 2, 0, 4, 9, 9, 9, 9]);
    let mut buffer = buffer_of(&bytes);
    let unknown = DnsRecord::read(&mut buffer).unwrap();
    assert_eq!(
        unknown,
        DnsRecord::UNKNOWN { domain: "u".to_string(), qtype: 99, data_len: 3, ttl: 256 }
    );
    assert_eq!(buffer.pos(), 16);
    let next = DnsRecord::read(&mut buffer).unwrap();
    assert_eq!(next, DnsRecord::A { domain: "n".to_string(), addr: Ipv4::new(9, 9, 9, 9), ttl: 2 });
    let mut out = BytePacketBuffer::new();
    assert_eq!(unknown.write(&mut out), Ok(0));
    assert_eq!(out.pos(), 0);
}

#[test]
fn record_name_may_point_back_into_the_message() {
    let mut buffer = buffer_of(&response_packet());
    buffer.seek(36).unwrap();
    let record = DnsRecord::read(&mut buffer).unwrap();
    assert_eq!(
        record,
        DnsRecord::A { domain: "centauri.solutions".to_string(), addr: Ipv4::new(104, 27, 149, 54), ttl: 274 }
    );
    assert_eq!(buffer.pos(), 52);
}

#[test]
fn record_cut_short_is_end_of_buffer() {
    let mut buffer = BytePacketBuffer::new();
    buffer.seek(505).unwrap();
    assert_eq!(DnsRecord::read(&mut buffer), Err(BufferError::EndOfBuffer));
    let record = DnsRecord::A { domain: "a.b".to_string(), addr: Ipv4::new(1, 2, 3, 4), ttl: 1 };
    buffer.seek(494).unwrap();
    assert_eq!(record.write(&mut buffer), Err(BufferError::EndOfBuffer));
    buffer.seek(493).unwrap();
    assert_eq!(record.write(&mut buffer), Ok(19));
}

#[test]
fn record_with_long_label_is_refused_untouched() {
    let record = DnsRecord::MX { domain: "ok".to_string(), priority: 1, host: "b".repeat(64), ttl: 1 };
    let mut buffer = BytePacketBuffer::new();
    assert_eq!(record.write(&mut buffer), Err(BufferError::InvalidLabelLength));
    assert_eq!(buffer.pos(), 0);
    assert!(buffer.buf.iter().all(|b| *b == 0));
}

fn sample_packet() -> DnsPacket {
    let mut packet = DnsPacket::new();
    packet.header.id = 77;
    packet.header.response = true;
    packet.questions.push(DnsQuestion::new("example.com".to_string(), QueryType::A));
    packet.answers.push(DnsRecord::A { domain: "example.com".to_string(), addr: Ipv4::new(93, 184, 216, 34), ttl: 300 });
    packet.answers.push(DnsRecord::CNAME { domain: "www.example.com".to_string(), host: "example.com".to_string(), ttl: 30 });
    packet.authorities.push(DnsRecord::NS { domain: "com".to_string(), host: "a.gtld-servers.net".to_string(), ttl: 9 });
    packet.resources.push(DnsRecord::A { domain: "a.gtld-servers.net".to_string(), addr: Ipv4::new(192, 5, 6, 30), ttl: 9 });
    packet.resources.push(DnsRecord::AAAA { domain: "a.gtld-servers.net".to_string(), addr: Ipv6::new(1, 2, 3, 4, 5, 6, 7, 8), ttl: 9 });
    packet.resources.push(DnsRecord::MX { domain: "example.com".to_string(), priority: 10, host: "mail.example.com".to_string(), ttl: 9 });
    packet
}

#[test]
fn header_counts_match_sections() {
    let mut packet = sample_packet();
    packet.header.questions = 9;
    packet.header.answers = 9;
    let mut buffer = BytePacketBuffer::new();
    assert_eq!(packet.write(&mut buffer), Ok(()));
    assert_eq!(packet.header.questions, 1);
    assert_eq!(packet.header.answers, 2);
    assert_eq!(packet.header.authoritative_entries, 1);
    assert_eq!(packet.header.resource_entries, 3);
    buffer.seek(0).unwrap();
    let mut header = DnsHeader::new();
    header.read(&mut buffer).unwrap();
    assert_eq!((header.questions, header.answers), (1, 2));
    assert_eq!((header.authoritative_entries, header.resource_entries), (1, 3));
}

#[test]
fn packet_written_is_packet_read() {
    let mut packet = sample_packet();
    let mut buffer = BytePacketBuffer::new();
    packet.write(&mut buffer).unwrap();
    let end = buffer.pos();
    buffer.seek(0).unwrap();
    let back = DnsPacket::from_buffer(&mut buffer).unwrap();
    assert_eq!(back.header, packet.header);
    assert_eq!(back.questions, packet.questions);
    assert_eq!(back.answers, packet.answers);
    assert_eq!(back.authorities, packet.authorities);
    assert_eq!(back.resources, packet.resources);
    assert_eq!(buffer.pos(), end);
}

#[test]
fn packet_that_announces_more_than_it_has_fails() {
    let mut bytes = query_packet();
    bytes[5] = 2;
    let mut cut = BytePacketBuffer::new();
    cut.buf[470..470 + bytes.len()].copy_from_slice(&bytes);
    cut.seek(470).unwrap();
    // the second question would have to stand in the zeros behind the first:
    // an empty name, a type and a class, which do not fit any more
    cut.buf[506..512].copy_from_slice(&[1, b'a', 1, b'b', 1, b'c']);
    assert!(matches!(DnsPacket::from_buffer(&mut cut), Err(BufferError::EndOfBuffer)));
}

#[test]
fn packet_with_long_label_is_refused_untouched() {
    let mut packet = sample_packet();
    packet.authorities.push(DnsRecord::NS { domain: "c".repeat(70), host: "x".to_string(), ttl: 1 });
    packet.header.answers = 40;
    let mut buffer = BytePacketBuffer::new();
    assert_eq!(packet.write(&mut buffer), Err(BufferError::InvalidLabelLength));
    assert_eq!(packet.header.answers, 40);
    assert_eq!(buffer.pos(), 0);
    assert!(buffer.buf.iter().all(|b| *b == 0));
}

#[test]
fn packet_with_too_many_entries_is_refused() {
    let mut packet = DnsPacket::new();
    for _ in 0..65536 {
        packet.resources.push(DnsRecord::UNKNOWN { domain: String::new(), qtype: 99, data_len: 0, ttl: 0 });
    }
    let mut buffer = BytePacketBuffer::new();
    assert_eq!(packet.write(&mut buffer), Err(BufferError::TooManyEntries));
    assert_eq!(buffer.pos(), 0);
    packet.resources.pop();
    assert_eq!(packet.write(&mut buffer), Ok(()));
    assert_eq!(packet.header.resource_entries, 65535);
    assert_eq!(buffer.pos(), 12);
}

#[test]
fn packet_too_large_is_end_of_buffer() {
    let mut packet = DnsPacket::new();
    for _ in 0..40 {
        packet.answers.push(DnsRecord::A { domain: "a.b".to_string(), addr: Ipv4::new(1, 2, 3, 4), ttl: 1 });
    }
    let mut buffer = BytePacketBuffer::new();
    assert_eq!(packet.write(&mut buffer), Err(BufferError::EndOfBuffer));
    assert_eq!(packet.header.answers, 40);
    packet.answers.truncate(26);
    let mut buffer = BytePacketBuffer::new();
    assert_eq!(packet.write(&mut buffer), Ok(()));
    assert_eq!(buffer.pos(), 12 + 26 * 19);
}

#[test]
fn ipv4_in_text() {
    assert_eq!(Ipv4::new(198, 41, 0, 4).to_text(), "198.41.0.4");
    assert_eq!(Ipv4::new(0, 0, 0, 0).to_text(), "0.0.0.0");
    assert_eq!(Ipv4::new(255, 255, 255, 255).to_text(), "255.255.255.255");
    assert_eq!(Ipv4::new(10, 100, 9, 99).to_text(), "10.100.9.99");
    assert_eq!(Ipv4::new(104, 27, 149, 54).to_text(), "104.27.149.54");
}
