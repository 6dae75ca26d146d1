use rustyalias::query::parse_query;

fn build_query(labels: &[&[u8]]) -> Vec<u8> {
    let mut q: Vec<u8> = vec![0x12, 0x34, 0x01, 0x00, 0x00, 0x01, 0x00, 0x00, 0x00, 0x00, 0x00, 0x00];
    for label in labels {
        q.push(label.len() as u8);
        q.extend_from_slice(label);
    }
    q.push(0);
    q.extend_from_slice(&[0x00, 0x01, 0x00, 0x01]);
    q
}

#[test]
fn test_parse_query_reads_name() {
    let q = build_query(&[b"ns", b"example", b"com"]);
    assert_eq!(parse_query(&q), Some("ns.example.com".to_string()));
}

#[test]
fn test_parse_query_single_label() {
    let q = build_query(&[b"localhost"]);
    assert_eq!(parse_query(&q), Some("localhost".to_string()));
}

#[test]
fn test_parse_query_too_short() {
    let q = vec![0u8; 11];
    assert_eq!(parse_query(&q), None);
    assert_eq!(parse_query(&[]), None);
}

#[test]
fn test_parse_query_wrong_qdcount() {
    let mut q = build_query(&[b"example", b"com"]);
    q[5] = 0;
    assert_eq!(parse_query(&q), None);
    q[5] = 2;
    assert_eq!(parse_query(&q), None);
}

#[test]
fn test_parse_query_label_overruns_buffer() {
    let mut q: Vec<u8> = vec![0x12, 0x34, 0x01, 0x00, 0x00, 0x01, 0x00, 0x00, 0x00, 0x00, 0x00, 0x00];
    q.push(5);
    q.push(b'a');
    assert_eq!(parse_query(&q), None);
}

#[test]
fn test_parse_query_empty_name() {
    let q = build_query(&[]);
    assert_eq!(parse_query(&q), None);
}

#[test]
fn test_parse_query_rejects_bad_utf8() {
    let q = build_query(&[&[0xff, 0xfe]]);
    assert_eq!(parse_query(&q), None);
}

#[test]
fn test_parse_query_decodes_utf8_label() {
    // One label of two bytes that decode to a single non-ASCII character.
    let q = build_query(&[&[0xc3, 0xa9]]);
    assert_eq!(parse_query(&q), Some("\u{e9}".to_string()));
}

#[test]
fn test_parse_query_name_without_terminator() {
    // The scan also ends at the end of the buffer.
    let mut q: Vec<u8> = vec![0x12, 0x34, 0x01, 0x00, 0x00, 0x01, 0x00, 0x00, 0x00, 0x00, 0x00, 0x00];
    q.push(1);
    q.push(b'a');
    assert_eq!(parse_query(&q), Some("a".to_string()));
}
