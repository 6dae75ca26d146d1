use rustyalias::addr::{Ipv4, Ipv6};
use rustyalias::response::{build_response, build_soa_response, encode_domain_name, SoaParams};

fn build_query(labels: &[&[u8]]) -> Vec<u8> {
    let mut q: Vec<u8> = vec![0x12, 0x34, 0x01, 0x00, 0x00, 0x01, 0x00, 0x00, 0x00, 0x00, 0x00, 0x00];
    for label in labels {
        q.push(label.len() as u8);
        q.extend_from_slice(label);
    }
    q.push(0);
    q.extend_from_slice(&[0x00, 0x01, 0x00, 0x01]);
    q
}

#[test]
fn test_encode_domain_name_exact() {
    assert_eq!(
        encode_domain_name("ns.example.com"),
        vec![
            2, b'n', b's', 7, b'e', b'x', b'a', b'm', b'p', b'l', b'e', 3, b'c', b'o', b'm', 0
        ]
    );
}

#[test]
fn test_encode_domain_name_single_label() {
    assert_eq!(encode_domain_name("localhost"), {
        let mut v = vec![9u8];
        v.extend_from_slice(b"localhost");
        v.push(0);
        v
    });
}

#[test]
fn test_encode_domain_name_empty() {
    // An empty name still yields one empty label and the terminator.
    assert_eq!(encode_domain_name(""), vec![0, 0]);
}

#[test]
fn test_build_response_address_shape() {
    let q = build_query(&[b"10", b"0", b"0", b"1", b"example", b"com"]);
    let r = build_response(&q, None, Some((Some(Ipv4::new(10, 0, 0, 1)), None)));

    let mut expected: Vec<u8> = Vec::new();
    expected.extend_from_slice(&q[0..2]);
    expected.extend_from_slice(&[0x81, 0x80]);
    expected.extend_from_slice(&q[4..6]);
    expected.extend_from_slice(&[0x00, 0x01, 0x00, 0x00, 0x00, 0x00]);
    expected.extend_from_slice(&q[12..]);
    expected.extend_from_slice(&[0xc0, 0x0c, 0x00, 0x01, 0x00, 0x01, 0x00, 0x00, 0x00, 0x3c]);
    expected.extend_from_slice(&[0x00, 0x04, 10, 0, 0, 1]);
    assert_eq!(r, expected);
}

#[test]
fn test_build_response_aaaa_shape() {
    let q = build_query(&[b"2a04-4e42-200--201", b"example", b"com"]);
    let ip = Ipv6::new([0x2a04, 0x4e42, 0x200, 0, 0, 0, 0, 0x201]);
    let r = build_response(&q, None, Some((None, Some(ip))));

    let mut expected: Vec<u8> = Vec::new();
    expected.extend_from_slice(&q[0..2]);
    expected.extend_from_slice(&[0x81, 0x80]);
    expected.extend_from_slice(&q[4..6]);
    expected.extend_from_slice(&[0x00, 0x01, 0x00, 0x00, 0x00, 0x00]);
    expected.extend_from_slice(&q[12..]);
    expected.extend_from_slice(&[0xc0, 0x0c, 0x00, 0x1c, 0x00, 0x01, 0x00, 0x00, 0x00, 0x3c]);
    expected.extend_from_slice(&[0x00, 0x10]);
    expected.extend_from_slice(&[
        0x2a, 0x04, 0x4e, 0x42, 0x02, 0x00, 0x00, 0x00, 0x00, 0x00, 0x00, 0x00, 0x00, 0x00,
        0x02, 0x01,
    ]);
    assert_eq!(r, expected);
}

#[test]
fn test_build_response_glue_shape() {
    let q = build_query(&[b"ns", b"example", b"com"]);
    let glue_ip = Ipv4::new(127, 0, 0, 1);
    let r = build_response(&q, Some(("ns.example.com", glue_ip)), None);

    let name = encode_domain_name("ns.example.com");
    let mut expected: Vec<u8> = Vec::new();
    expected.extend_from_slice(&q[0..2]);
    expected.extend_from_slice(&[0x81, 0x80]);
    expected.extend_from_slice(&q[4..6]);
    expected.extend_from_slice(&[0x00, 0x00, 0x00, 0x01, 0x00, 0x01]);
    expected.extend_from_slice(&q[12..]);
    expected.extend_from_slice(&[0xc0, 0x0c, 0x00, 0x02, 0x00, 0x01, 0x00, 0x00, 0x00, 0x3c]);
    expected.extend_from_slice(&(name.len() as u16).to_be_bytes());
    expected.extend_from_slice(&name);
    expected.extend_from_slice(&name);
    expected.extend_from_slice(&[0x00, 0x01, 0x00, 0x01, 0x00, 0x00, 0x00, 0x3c, 0x00, 0x04]);
    expected.extend_from_slice(&[127, 0, 0, 1]);
    assert_eq!(r, expected);
}

#[test]
fn test_build_response_neither_argument() {
    let q = build_query(&[b"example", b"com"]);
    let r = build_response(&q, None, None);
    assert_eq!(r, vec![0x12, 0x34, 0x81, 0x80, 0x00, 0x01]);
}

#[test]
fn test_build_soa_response_exact() {
    let q = build_query(&[b"other", b"example", b"com"]);
    let params = SoaParams {
        soa_name: "ns.example.com",
        hostmaster: "hostmaster.example.com",
        serial: 1,
        refresh: 3600,
        retry: 1800,
        expire: 604800,
        minimum: 3600,
    };
    let r = build_soa_response(&q, &params);

    let mut rdata: Vec<u8> = Vec::new();
    rdata.extend_from_slice(&encode_domain_name("ns.example.com"));
    rdata.extend_from_slice(&encode_domain_name("hostmaster.example.com"));
    rdata.extend_from_slice(&1u32.to_be_bytes());
    rdata.extend_from_slice(&3600u32.to_be_bytes());
    rdata.extend_from_slice(&1800u32.to_be_bytes());
    rdata.extend_from_slice(&604800u32.to_be_bytes());
    rdata.extend_from_slice(&3600u32.to_be_bytes());

    let mut expected: Vec<u8> = Vec::new();
    expected.extend_from_slice(&q[0..2]);
    expected.extend_from_slice(&[0x81, 0x80]);
    expected.extend_from_slice(&q[4..6]);
    expected.extend_from_slice(&[0x00, 0x00, 0x00, 0x01, 0x00, 0x00]);
    expected.extend_from_slice(&q[12..]);
    // TTL 3600 = 0x0e10, fixed for the SOA record.
    expected.extend_from_slice(&[0xc0, 0x0c, 0x00, 0x06, 0x00, 0x01, 0x00, 0x00, 0x0e, 0x10]);
    expected.extend_from_slice(&(rdata.len() as u16).to_be_bytes());
    expected.extend_from_slice(&rdata);
    assert_eq!(r, expected);
}

#[test]
fn test_build_response_is_deterministic() {
    let q = build_query(&[b"10", b"0", b"0", b"1", b"example", b"com"]);
    let d = Some((Some(Ipv4::new(10, 0, 0, 1)), None));
    assert_eq!(build_response(&q, None, d), build_response(&q, None, d));

    let params = SoaParams {
        soa_name: "ns.example.com",
        hostmaster: "hostmaster.example.com",
        serial: 1,
        refresh: 3600,
        retry: 1800,
        expire: 604800,
        minimum: 3600,
    };
    assert_eq!(build_soa_response(&q, &params), build_soa_response(&q, &params));
}
