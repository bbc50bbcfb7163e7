use dnsafe::{
    build_query, classify, BytePacketBuffer, DnsPacket, DnsRecord, Ipv4, Ipv6, PacketBuffer,
    QueryType, ResultCode, Step, Walker,
};

fn ns(domain: &str, host: &str) -> DnsRecord {
    DnsRecord::NS { domain: domain.to_string(), host: host.to_string(), ttl: 1 }
}

fn a(domain: &str, addr: Ipv4) -> DnsRecord {
    DnsRecord::A { domain: domain.to_string(), addr, ttl: 1 }
}

fn referral(glue: bool) -> DnsPacket {
    let mut packet = DnsPacket::new();
    packet.header.response = true;
    packet.authorities.push(ns("com", "a.gtld-servers.net"));
    if glue {
        packet.resources.push(a("a.gtld-servers.net", Ipv4::new(192, 5, 6, 30)));
    }
    packet
}

#[test]
fn referral_with_glue() {
    let response = referral(true);
    assert_eq!(response.get_resolved_ns("example.com"), Some("192.5.6.30".to_string()));
    let mut walker = Walker::new();
    assert_eq!(walker.ns, "198.41.0.4");
    let step = walker.advance(&response, "example.com", 0);
    assert_eq!(step, Step::Query { server: "192.5.6.30".to_string() });
    assert_eq!(walker.ns, "192.5.6.30");
    assert_eq!(walker.hops, 1);
}

#[test]
fn referral_without_glue() {
    let response = referral(false);
    assert_eq!(response.get_resolved_ns("example.com"), None);
    assert_eq!(response.get_unresolved_ns("example.com"), Some("a.gtld-servers.net".to_string()));
    let mut walker = Walker::new();
    let step = walker.step(&response, "example.com");
    assert_eq!(step, Step::Resolve { host: "a.gtld-servers.net".to_string() });
    assert_eq!(walker.ns, "198.41.0.4");
    assert_eq!(walker.hops, 0);
    // the lookup of the name server comes back with its address
    let mut nested = DnsPacket::new();
    nested.answers.push(a("a.gtld-servers.net", Ipv4::new(192, 5, 6, 30)));
    assert_eq!(nested.get_random_a(), Some("192.5.6.30".to_string()));
    let step = walker.step_nested(&nested);
    assert_eq!(step, Step::Query { server: "192.5.6.30".to_string() });
    assert_eq!(walker.ns, "192.5.6.30");
    assert_eq!(walker.hops, 1);
}

#[test]
fn nested_lookup_without_address_ends_the_walk() {
    let mut walker = Walker::new();
    let mut nested = DnsPacket::new();
    nested.answers.push(ns("net", "x.net"));
    assert_eq!(nested.get_random_a(), None);
    assert_eq!(walker.resume(&nested, 3), Step::Answer);
    assert_eq!(walker.hops, 0);
    assert_eq!(walker.ns, "198.41.0.4");
}

#[test]
fn answers_without_error_end_the_walk() {
    let mut response = referral(true);
    response.answers.push(a("example.com", Ipv4::new(1, 2, 3, 4)));
    assert_eq!(classify(&response, "example.com", 0), Step::Answer);
    response.header.rescode = ResultCode::SERVFAIL;
    assert_eq!(
        classify(&response, "example.com", 0),
        Step::Query { server: "192.5.6.30".to_string() }
    );
}

#[test]
fn nxdomain_ends_the_walk() {
    let mut response = referral(true);
    response.header.rescode = ResultCode::NXDOMAIN;
    assert_eq!(classify(&response, "example.com", 0), Step::Answer);
}

#[test]
fn nothing_usable_ends_the_walk() {
    let mut response = DnsPacket::new();
    assert_eq!(classify(&response, "example.com", 0), Step::Answer);
    response.authorities.push(ns("org", "a.org-servers.net"));
    response.resources.push(a("a.org-servers.net", Ipv4::new(9, 9, 9, 9)));
    assert_eq!(classify(&response, "example.com", 0), Step::Answer);
    assert_eq!(response.get_unresolved_ns("example.com"), None);
    assert_eq!(response.get_resolved_ns("example.com"), None);
}

#[test]
fn suffix_match_is_byte_for_byte() {
    let mut response = DnsPacket::new();
    response.authorities.push(ns("ample.com", "ns.ample.com"));
    response.resources.push(a("ns.ample.com", Ipv4::new(7, 7, 7, 7)));
    // a tail of bytes, not of labels
    assert_eq!(response.get_resolved_ns("example.com"), Some("7.7.7.7".to_string()));
    assert_eq!(response.get_resolved_ns("example.COM"), None);
    assert_eq!(response.get_resolved_ns("com"), None);
    let mut root = DnsPacket::new();
    root.authorities.push(ns("", "a.root-servers.net"));
    assert_eq!(root.pick_unresolved_ns("anything", 5), Some("a.root-servers.net".to_string()));
}

#[test]
fn first_glued_name_server_wins() {
    let mut response = DnsPacket::new();
    response.authorities.push(ns("com", "unglued.net"));
    response.authorities.push(ns("org", "b.net"));
    response.authorities.push(ns("com", "c.net"));
    response.authorities.push(ns("com", "d.net"));
    response.resources.push(DnsRecord::AAAA { domain: "c.net".to_string(), addr: Ipv6::new(0, 0, 0, 0, 0, 0, 0, 1), ttl: 1 });
    response.resources.push(a("d.net", Ipv4::new(4, 4, 4, 4)));
    response.resources.push(a("b.net", Ipv4::new(2, 2, 2, 2)));
    response.resources.push(a("c.net", Ipv4::new(3, 3, 3, 3)));
    response.resources.push(a("c.net", Ipv4::new(3, 3, 3, 33)));
    assert_eq!(response.get_resolved_ns("example.com"), Some("3.3.3.3".to_string()));
}

#[test]
fn pick_chooses_among_unglued_name_servers() {
    let mut response = DnsPacket::new();
    response.authorities.push(ns("com", "a.net"));
    response.authorities.push(ns("org", "skip.net"));
    response.authorities.push(a("com", Ipv4::new(1, 1, 1, 1)));
    response.authorities.push(ns("example.com", "b.net"));
    response.authorities.push(ns("", "c.net"));
    assert_eq!(response.pick_unresolved_ns("example.com", 0), Some("a.net".to_string()));
    assert_eq!(response.pick_unresolved_ns("example.com", 1), Some("b.net".to_string()));
    assert_eq!(response.pick_unresolved_ns("example.com", 2), Some("c.net".to_string()));
    assert_eq!(response.pick_unresolved_ns("example.com", 3), Some("a.net".to_string()));
    assert_eq!(response.pick_unresolved_ns("example.com", usize::MAX), Some(
        ["a.net", "b.net", "c.net"][usize::MAX % 3].to_string()
    ));
    for _ in 0..20 {
        let host = response.get_unresolved_ns("example.com").unwrap();
        assert!(["a.net", "b.net", "c.net"].contains(&host.as_str()));
    }
    assert_eq!(
        classify(&response, "example.com", 7),
        Step::Resolve { host: "b.net".to_string() }
    );
}

#[test]
fn pick_chooses_among_a_answers() {
    let mut response = DnsPacket::new();
    response.answers.push(ns("x", "y"));
    response.answers.push(a("x", Ipv4::new(1, 0, 0, 1)));
    response.answers.push(DnsRecord::CNAME { domain: "x".to_string(), host: "z".to_string(), ttl: 1 });
    response.answers.push(a("x", Ipv4::new(2, 0, 0, 2)));
    assert_eq!(response.pick_a(0), Some("1.0.0.1".to_string()));
    assert_eq!(response.pick_a(1), Some("2.0.0.2".to_string()));
    assert_eq!(response.pick_a(4), Some("1.0.0.1".to_string()));
    for _ in 0..20 {
        let addr = response.get_random_a().unwrap();
        assert!(addr == "1.0.0.1" || addr == "2.0.0.2");
    }
    assert_eq!(DnsPacket::new().pick_a(0), None);
    assert_eq!(DnsPacket::new().get_random_a(), None);
}

#[test]
fn walk_stops_after_sixteen_referrals() {
    let response = referral(true);
    let mut walker = Walker::new();
    let mut queries = 1;
    loop {
        match walker.advance(&response, "example.com", 0) {
            Step::Query { .. } => queries += 1,
            Step::Answer => break,
            Step::Resolve { .. } => unreachable!(),
        }
        assert!(queries <= 17);
    }
    assert_eq!(queries, 17);
    assert_eq!(walker.hops, 16);
    let mut nested = DnsPacket::new();
    nested.answers.push(a("n", Ipv4::new(5, 5, 5, 5)));
    assert_eq!(walker.resume(&nested, 0), Step::Answer);
    assert_eq!(walker.ns, "192.5.6.30");
}

#[test]
fn lookups_nest_no_deeper_than_sixteen() {
    let response = referral(false);
    let mut walker = Walker::new();
    for depth in 0..16 {
        assert_eq!(walker.nesting, depth);
        assert_eq!(
            walker.advance(&response, "example.com", 0),
            Step::Resolve { host: "a.gtld-servers.net".to_string() }
        );
        walker = walker.nested();
        assert_eq!(walker.ns, "198.41.0.4");
        assert_eq!(walker.hops, 0);
    }
    assert_eq!(walker.nesting, 16);
    assert_eq!(walker.advance(&response, "example.com", 0), Step::Answer);
    assert_eq!(walker.nested().nesting, 16);
}

#[test]
fn query_is_one_question_with_recursion_desired() {
    let mut packet = build_query("google.com", QueryType::MX);
    assert_eq!(packet.header.id, 6666);
    assert!(packet.header.recursion_desired);
    assert_eq!(packet.header.questions, 1);
    assert_eq!(packet.questions.len(), 1);
    assert_eq!(packet.questions[0].name, "google.com");
    assert_eq!(packet.questions[0].qtype, QueryType::MX);
    assert!(packet.answers.is_empty() && packet.authorities.is_empty() && packet.resources.is_empty());
    let mut buffer = BytePacketBuffer::new();
    packet.write(&mut buffer).unwrap();
    assert_eq!(buffer.pos(), 28);
    assert_eq!(&buffer.buf[..12], &[0x1A, 0x0A, 1, 0, 0, 1, 0, 0, 0, 0, 0, 0]);
    assert_eq!(&buffer.buf[12..28], &[6, b'g', b'o', b'o', b'g', b'l', b'e', 3, b'c', b'o', b'm', 0, 0, 15, 0, 1]);
}
