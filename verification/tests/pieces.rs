use dnsafe::buffer::same_bytes;
use dnsafe::dns_header::{bit_of, word_of};
use dnsafe::name::{push_label, to_wire_char};
use dnsafe::referral::name_ends_with;
use dnsafe::wire::writable;
use dnsafe::{
    build_reply, BufferError, DnsHeader, DnsPacket, DnsQuestion, DnsRecord, Ipv4, LabelIndex,
    QueryType, ResultCode,
};

#[test]
fn header_is_parsed_from_a_slice() {
    let bytes = [0xAB, 0xCD, 0x85, 0x03, 0, 1, 0, 2, 0, 3, 0, 4, 9, 8];
    let (header, rest) = DnsHeader::parse(&bytes).unwrap();
    assert_eq!(header.id, 0xABCD);
    assert!(header.response && header.authoritative_answer && header.recursion_desired);
    assert!(!header.truncated_message && !header.recursion_available);
    assert_eq!(header.opcode, 0);
    assert_eq!(header.rescode, ResultCode::NXDOMAIN);
    assert_eq!(
        (header.questions, header.answers, header.authoritative_entries, header.resource_entries),
        (1, 2, 3, 4)
    );
    assert_eq!(rest, &[9, 8]);
    assert_eq!(DnsHeader::parse(&bytes[..11]), Err(BufferError::EndOfBuffer));
    assert_eq!(DnsHeader::parse(&bytes[..12]).unwrap().1, &[] as &[u8]);
}

#[test]
fn result_code_above_five_in_header_is_noerror() {
    let bytes = [0, 0, 0, 0x0F, 0, 0, 0, 0, 0, 0, 0, 0];
    assert_eq!(DnsHeader::parse(&bytes).unwrap().0.rescode, ResultCode::NOERROR);
}

#[test]
fn flag_bytes_are_packed_from_flags() {
    let mut header = DnsHeader::new();
    assert_eq!((header.first_flags(), header.second_flags()), (0, 0));
    header.response = true;
    header.opcode = 2;
    header.truncated_message = true;
    header.z = true;
    header.checking_disabled = true;
    header.rescode = ResultCode::REFUSED;
    assert_eq!(header.first_flags(), 0b1001_0010);
    assert_eq!(header.second_flags(), 0b0101_0101);
    assert_eq!(DnsHeader::from_parts(7, 0b1001_0010, 0b0101_0101, 0, 0, 0, 0), DnsHeader { id: 7, ..header });
    assert_eq!(bit_of(true), 1);
    assert_eq!(bit_of(false), 0);
    assert_eq!(word_of(0x12, 0x34), 0x1234);
}

#[test]
fn names_with_short_labels_are_writable() {
    assert!(writable(""));
    assert!(writable("a.b.c"));
    assert!(writable("a..b."));
    assert!(writable(&"x".repeat(63)));
    assert!(!writable(&"x".repeat(64)));
    assert!(writable(&format!("{}.{}", "x".repeat(63), "y".repeat(63))));
    assert!(!writable(&format!("{}.{}", "x".repeat(63), "y".repeat(64))));
    assert!(!writable(&format!("{}.a", "x".repeat(64))));
    // counted in bytes, not in characters
    assert!(writable(&"\u{e9}".repeat(31)));
    assert!(!writable(&"\u{e9}".repeat(32)));
}

#[test]
fn packet_is_writable_if_all_its_names_are() {
    let mut packet = DnsPacket::new();
    assert!(packet.writable());
    packet.questions.push(DnsQuestion::new("a.b".to_string(), QueryType::A));
    packet.resources.push(DnsRecord::CNAME { domain: "a".to_string(), host: "b".to_string(), ttl: 0 });
    assert!(packet.writable());
    packet.resources.push(DnsRecord::CNAME { domain: "a".to_string(), host: "b".repeat(64), ttl: 0 });
    assert!(!packet.writable());
    assert!(!packet.resources[1].writable());
    assert!(packet.resources[0].writable());
    assert!(DnsRecord::UNKNOWN { domain: "z".repeat(99), qtype: 0, data_len: 0, ttl: 0 }.writable());
}

#[test]
fn tail_of_a_name_is_told_byte_by_byte() {
    assert!(name_ends_with("www.example.com", "example.com"));
    assert!(name_ends_with("www.example.com", "www.example.com"));
    assert!(name_ends_with("www.example.com", ""));
    assert!(name_ends_with("", ""));
    assert!(!name_ends_with("example.com", "www.example.com"));
    assert!(!name_ends_with("www.example.com", "example.org"));
    assert!(!name_ends_with("www.example.com", "Example.com"));
    assert!(!name_ends_with("", "a"));
}

#[test]
fn bytes_are_the_same_or_not() {
    assert!(same_bytes(b"", b""));
    assert!(same_bytes(b"abc", b"abc"));
    assert!(!same_bytes(b"abc", b"abd"));
    assert!(!same_bytes(b"abc", b"ab"));
    assert!(!same_bytes(b"", b"a"));
}

#[test]
fn label_index_keeps_the_last_offset_saved() {
    let mut index = LabelIndex::new();
    assert_eq!(index.get(b"a.b"), None);
    index.insert(b"a.b", 3);
    index.insert(b"b", 5);
    index.insert(b"", 9);
    assert_eq!(index.get(b"a.b"), Some(3));
    assert_eq!(index.get(b"b"), Some(5));
    assert_eq!(index.get(b""), Some(9));
    assert_eq!(index.get(b"a"), None);
    index.insert(b"a.b", 30);
    assert_eq!(index.get(b"a.b"), Some(30));
    assert_eq!(index.get(b"b"), Some(5));
    assert_eq!(LabelIndex::default().get(b""), None);
}

#[test]
fn wire_bytes_become_text() {
    assert_eq!(to_wire_char(b'a'), 'a');
    assert_eq!(to_wire_char(b'A'), 'a');
    assert_eq!(to_wire_char(b'Z'), 'z');
    assert_eq!(to_wire_char(b'@'), '@');
    assert_eq!(to_wire_char(b'['), '[');
    assert_eq!(to_wire_char(b'-'), '-');
    assert_eq!(to_wire_char(0), '\0');
    assert_eq!(to_wire_char(0x7F), '\u{7f}');
    assert_eq!(to_wire_char(0x80), '\u{FFFD}');
    assert_eq!(to_wire_char(0xFF), '\u{FFFD}');
    let mut out = String::from("x");
    push_label(&mut out, b"AbC", false);
    assert_eq!(out, "xabc");
    push_label(&mut out, b"D\xC3", true);
    assert_eq!(out, "xabc.d\u{FFFD}");
    push_label(&mut out, b"", true);
    assert_eq!(out, "xabc.d\u{FFFD}.");
}

fn request(id: u16, with_question: bool) -> DnsPacket {
    let mut packet = DnsPacket::new();
    packet.header.id = id;
    packet.header.recursion_desired = false;
    packet.header.opcode = 3;
    if with_question {
        packet.questions.push(DnsQuestion::new("example.com".to_string(), QueryType::MX));
        packet.questions.push(DnsQuestion::new("second.com".to_string(), QueryType::A));
    }
    packet
}

#[test]
fn reply_without_question_is_formerr() {
    let mut outcome = DnsPacket::new();
    outcome.answers.push(DnsRecord::A { domain: "x".to_string(), addr: Ipv4::new(1, 1, 1, 1), ttl: 1 });
    let reply = build_reply(&request(21, false), Some(outcome));
    assert_eq!(reply.header.rescode, ResultCode::FORMERR);
    assert_eq!(reply.header.id, 21);
    assert!(reply.header.response && reply.header.recursion_desired && reply.header.recursion_available);
    assert_eq!(reply.header.opcode, 0);
    assert!(reply.questions.is_empty() && reply.answers.is_empty());
    assert!(reply.authorities.is_empty() && reply.resources.is_empty());
}

#[test]
fn reply_to_failed_lookup_is_servfail() {
    let reply = build_reply(&request(22, true), None);
    assert_eq!(reply.header.rescode, ResultCode::SERVFAIL);
    assert_eq!(reply.header.id, 22);
    assert!(reply.header.response && reply.header.recursion_desired && reply.header.recursion_available);
    assert!(reply.questions.is_empty() && reply.answers.is_empty());
    assert!(reply.authorities.is_empty() && reply.resources.is_empty());
}

#[test]
fn reply_hands_on_what_the_lookup_found() {
    let mut outcome = DnsPacket::new();
    outcome.header.id = 6666;
    outcome.header.rescode = ResultCode::NXDOMAIN;
    outcome.header.authoritative_answer = true;
    let answer = DnsRecord::MX { domain: "example.com".to_string(), priority: 5, host: "m.example.com".to_string(), ttl: 60 };
    let authority = DnsRecord::NS { domain: "com".to_string(), host: "a.gtld-servers.net".to_string(), ttl: 1 };
    let resource = DnsRecord::A { domain: "a.gtld-servers.net".to_string(), addr: Ipv4::new(192, 5, 6, 30), ttl: 1 };
    outcome.answers.push(answer.clone());
    outcome.authorities.push(authority.clone());
    outcome.resources.push(resource.clone());
    let reply = build_reply(&request(23, true), Some(outcome));
    assert_eq!(reply.header.id, 23);
    assert_eq!(reply.header.rescode, ResultCode::NXDOMAIN);
    assert!(reply.header.response && reply.header.recursion_desired && reply.header.recursion_available);
    assert!(!reply.header.authoritative_answer);
    assert_eq!(reply.questions, vec![DnsQuestion::new("example.com".to_string(), QueryType::MX)]);
    assert_eq!(reply.answers, vec![answer]);
    assert_eq!(reply.authorities, vec![authority]);
    assert_eq!(reply.resources, vec![resource]);
}
