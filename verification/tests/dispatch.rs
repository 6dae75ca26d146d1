use rustyalias::addr::Ipv4;
use rustyalias::config::Config;
use rustyalias::query::handle_query_internal;
use rustyalias::response::encode_domain_name;

fn test_config() -> Config {
    Config {
        glue_name: "ns.example.com".to_string(),
        glue_ip: Ipv4::new(127, 0, 0, 1),
        soa_name: "ns.example.com".to_string(),
        hostmaster: "hostmaster.example.com".to_string(),
        serial: 1,
        refresh: 3600,
        retry: 1800,
        expire: 604800,
        minimum: 3600,
        version: "test".to_string(),
    }
}

fn build_query(labels: &[&[u8]]) -> Vec<u8> {
    let mut q: Vec<u8> = vec![0x12, 0x34, 0x01, 0x00, 0x00, 0x01, 0x00, 0x00, 0x00, 0x00, 0x00, 0x00];
    for label in labels {
        q.push(label.len() as u8);
        q.extend_from_slice(label);
    }
    q.push(0);
    q.extend_from_slice(&[0x00, 0x01, 0x00, 0x01]);
    q
}

#[test]
fn test_glue_query_any_case() {
    let config = test_config();
    let name = encode_domain_name("ns.example.com");
    for labels in [
        [&b"ns"[..], &b"example"[..], &b"com"[..]],
        [&b"NS"[..], &b"Example"[..], &b"COM"[..]],
    ] {
        let q = build_query(&labels);
        let r = handle_query_internal(&q, &config);
        // ID and flags.
        assert_eq!(&r[0..4], &[0x12, 0x34, 0x81, 0x80]);
        // QDCOUNT 1, ANCOUNT 0, NSCOUNT 1, ARCOUNT 1.
        assert_eq!(&r[4..12], &[0x00, 0x01, 0x00, 0x00, 0x00, 0x01, 0x00, 0x01]);
        // The question section is copied verbatim.
        let qe = q.len();
        assert_eq!(&r[12..qe], &q[12..]);
        // NS record: pointer, type NS, class IN, TTL 60, then the glue name.
        assert_eq!(
            &r[qe..qe + 10],
            &[0xc0, 0x0c, 0x00, 0x02, 0x00, 0x01, 0x00, 0x00, 0x00, 0x3c]
        );
        assert_eq!(&r[qe + 10..qe + 12], &(name.len() as u16).to_be_bytes());
        assert_eq!(&r[qe + 12..qe + 12 + name.len()], &name[..]);
        // Additional A record for the glue name with the glue address.
        let a = qe + 12 + name.len();
        assert_eq!(&r[a..a + name.len()], &name[..]);
        assert_eq!(
            &r[a + name.len()..a + name.len() + 10],
            &[0x00, 0x01, 0x00, 0x01, 0x00, 0x00, 0x00, 0x3c, 0x00, 0x04]
        );
        assert_eq!(&r[a + name.len() + 10..], &[127, 0, 0, 1]);
    }
}

#[test]
fn test_address_query_answers_a_record() {
    let config = test_config();
    let q = build_query(&[b"10", b"0", b"0", b"1", b"example", b"com"]);
    let r = handle_query_internal(&q, &config);
    assert_eq!(&r[0..4], &[0x12, 0x34, 0x81, 0x80]);
    // QDCOUNT 1, ANCOUNT 1, NSCOUNT 0, ARCOUNT 0.
    assert_eq!(&r[4..12], &[0x00, 0x01, 0x00, 0x01, 0x00, 0x00, 0x00, 0x00]);
    let qe = q.len();
    assert_eq!(&r[12..qe], &q[12..]);
    assert_eq!(
        &r[qe..],
        &[0xc0, 0x0c, 0x00, 0x01, 0x00, 0x01, 0x00, 0x00, 0x00, 0x3c, 0x00, 0x04, 10, 0, 0, 1]
    );
}

#[test]
fn test_unrelated_query_gets_soa() {
    let config = test_config();
    // Both a subdomain of the zone and a wholly unrelated name take the
    // same fallback, whose fields come from the configuration.
    for labels in [
        [&b"foo"[..], &b"example"[..], &b"com"[..]],
        [&b"other"[..], &b"example"[..], &b"org"[..]],
    ] {
        let q = build_query(&labels);
        let r = handle_query_internal(&q, &config);
        assert_eq!(&r[0..4], &[0x12, 0x34, 0x81, 0x80]);
        // QDCOUNT 1, ANCOUNT 0, NSCOUNT 1, ARCOUNT 0.
        assert_eq!(&r[4..12], &[0x00, 0x01, 0x00, 0x00, 0x00, 0x01, 0x00, 0x00]);
        let qe = q.len();
        assert_eq!(&r[12..qe], &q[12..]);
        // SOA record with the fixed TTL of 3600 seconds.
        assert_eq!(
            &r[qe..qe + 10],
            &[0xc0, 0x0c, 0x00, 0x06, 0x00, 0x01, 0x00, 0x00, 0x0e, 0x10]
        );
        let mut rdata: Vec<u8> = Vec::new();
        rdata.extend_from_slice(&encode_domain_name("ns.example.com"));
        rdata.extend_from_slice(&encode_domain_name("hostmaster.example.com"));
        rdata.extend_from_slice(&1u32.to_be_bytes());
        rdata.extend_from_slice(&3600u32.to_be_bytes());
        rdata.extend_from_slice(&1800u32.to_be_bytes());
        rdata.extend_from_slice(&604800u32.to_be_bytes());
        rdata.extend_from_slice(&3600u32.to_be_bytes());
        assert_eq!(&r[qe + 10..qe + 12], &(rdata.len() as u16).to_be_bytes());
        assert_eq!(&r[qe + 12..], &rdata[..]);
    }
}

#[test]
fn test_boundary_queries_are_dropped() {
    let config = test_config();
    // Shorter than the header.
    for n in 0..12 {
        let q = vec![0u8; n];
        assert_eq!(handle_query_internal(&q, &config), Vec::<u8>::new());
    }
    // QDCOUNT zero and two.
    let mut q = build_query(&[b"example", b"com"]);
    q[5] = 0;
    assert_eq!(handle_query_internal(&q, &config), Vec::<u8>::new());
    q[5] = 2;
    assert_eq!(handle_query_internal(&q, &config), Vec::<u8>::new());
}

#[test]
fn test_question_without_terminator_is_dropped() {
    let config = test_config();
    // The name decodes, but the question section has no end to copy.
    let mut q: Vec<u8> = vec![0x12, 0x34, 0x01, 0x00, 0x00, 0x01, 0x00, 0x00, 0x00, 0x00, 0x00, 0x00];
    q.push(1);
    q.push(b'a');
    assert_eq!(handle_query_internal(&q, &config), Vec::<u8>::new());
}

#[test]
fn test_handling_is_deterministic() {
    let config = test_config();
    for labels in [
        vec![&b"ns"[..], &b"example"[..], &b"com"[..]],
        vec![&b"10"[..], &b"0"[..], &b"0"[..], &b"1"[..]],
    ] {
        let q = build_query(&labels);
        assert_eq!(
            handle_query_internal(&q, &config),
            handle_query_internal(&q, &config)
        );
    }
}
