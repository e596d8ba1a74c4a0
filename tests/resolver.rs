use dnssec_client::{
    LookupIpStrategy, MdnsClientStream, MdnsQueryType, Name, ParseError, ResolverConfig,
    ResolverFuture, ResolverOpts, SocketAddr, CLASS_IN, MDNS_PORT, TYPE_A, TYPE_AAAA,
};

fn resolver(ip_strategy: LookupIpStrategy) -> ResolverFuture {
    ResolverFuture::new(ResolverConfig { name_servers: vec![] }, ResolverOpts { ip_strategy })
}

#[test]
fn lookup_ip_asks_per_strategy() {
    let qs = resolver(LookupIpStrategy::Ipv4AndIpv6).lookup_ip("www.example.com.").unwrap();
    assert_eq!(qs.len(), 2);
    assert_eq!(qs[0].query_type, TYPE_A);
    assert_eq!(qs[1].query_type, TYPE_AAAA);
    assert_eq!(qs[0].query_class, CLASS_IN);
    let www = Name::from_labels(vec![b"www".to_vec(), b"example".to_vec(), b"com".to_vec()]).unwrap();
    assert!(qs[0].name.eq_ignore_case(&www));
    let v4 = resolver(LookupIpStrategy::Ipv4Only).lookup_ip("www.example.com.").unwrap();
    assert_eq!(v4.len(), 1);
    assert_eq!(v4[0].query_type, TYPE_A);
    let v6 = resolver(LookupIpStrategy::Ipv6Only).lookup_ip("www.example.com").unwrap();
    assert_eq!(v6[0].query_type, TYPE_AAAA);
}

#[test]
fn lookup_ip_refuses_bad_names() {
    let r = resolver(LookupIpStrategy::Ipv4Only);
    assert_eq!(r.lookup_ip("").unwrap_err(), ParseError::InvalidText);
    assert_eq!(r.lookup_ip("www..com").unwrap_err(), ParseError::InvalidText);
    assert_eq!(r.lookup_ip("caf\u{e9}.com").unwrap_err(), ParseError::InvalidText);
}

#[test]
fn parse_names_in_text_form() {
    assert!(Name::parse(".").unwrap().is_root());
    let n = Name::parse("Example.COM").unwrap();
    assert_eq!(n.num_labels(), 2);
    let mut wire = Vec::new();
    n.emit(&mut wire);
    assert_eq!(wire, b"\x07Example\x03COM\x00".to_vec());
    assert!(n.eq_ignore_case(&Name::parse("example.com.").unwrap()));
    let long = "a".repeat(64);
    assert_eq!(Name::parse(&long).unwrap_err(), ParseError::InvalidLabel);
}

#[test]
fn mdns_streams_use_the_well_known_groups() {
    let v4 = MdnsClientStream::new_ipv4(MdnsQueryType::OneShot, Some(1), None);
    assert_eq!(v4.mdns_addr.ip, vec![224, 0, 0, 251]);
    assert_eq!(v4.mdns_addr.port, MDNS_PORT);
    assert_eq!(v4.mdns_addr.port, 5353);
    assert_eq!(v4.packet_ttl, Some(1));
    assert_eq!(v4.ipv6_if, None);
    let v6 = MdnsClientStream::new_ipv6(MdnsQueryType::Continuous, None, Some(3));
    assert_eq!(v6.mdns_addr.ip, vec![0xff, 2, 0, 0, 0, 0, 0, 0, 0, 0, 0, 0, 0, 0, 0, 0xfb]);
    assert_eq!(v6.ipv6_if, Some(3));
    assert_eq!(v6.ipv4_if, None);
}

#[test]
fn mdns_poll_drops_the_source() {
    let src = SocketAddr { ip: vec![169, 254, 0, 9], port: 5353 };
    assert_eq!(MdnsClientStream::poll(Some((vec![1, 2, 3], src))), Some(vec![1, 2, 3]));
    assert_eq!(MdnsClientStream::poll(None), None);
}
