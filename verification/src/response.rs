use vstd::prelude::*;

use crate::addr::{u16_be, u32_be, Ipv4, Ipv6};
use crate::text::{lemma_split_at_first, lemma_split_no_sep, split_seq};
use vstd::string::StringSliceAdditionalSpecFns;

verus! {

// ---------------------------------------------------------------------------
// Locating the end of the question section.
// ---------------------------------------------------------------------------

/// The position of the leftmost zero byte at or after `i`.
pub open spec fn find_zero_from(q: Seq<u8>, i: int) -> Option<int>
    decreases q.len() - i,
{
    if i < 0 || i >= q.len() {
        None
    } else if q[i] == 0 {
        Some(i)
    } else {
        find_zero_from(q, i + 1)
    }
}

/// One past the question section: five bytes beyond the first zero byte at
/// or after the header, taking that zero for the name's terminator and the
/// four bytes after it for the question's type and class.
pub open spec fn question_end(q: Seq<u8>) -> int {
    find_zero_from(q, 12).unwrap() + 5
}

/// What the encoders assume of a query buffer: a full header, a zero byte
/// to end the question name, and room for the question's type and class.
pub open spec fn valid_question(q: Seq<u8>) -> bool {
    q.len() >= 12 && find_zero_from(q, 12) is Some && question_end(q) <= q.len()
}

pub proof fn lemma_find_zero_some(q: Seq<u8>, i: int, z: int)
    requires
        find_zero_from(q, i) == Some(z),
    ensures
        i <= z < q.len(),
        q[z] == 0,
    decreases q.len() - i,
{
    if !(i < 0 || i >= q.len()) && q[i] != 0 {
        lemma_find_zero_some(q, i + 1, z);
    }
}

fn find_question_end(query: &[u8]) -> (r: Option<usize>)
    ensures
        r is Some <==> valid_question(query@),
        r is Some ==> r.unwrap() == question_end(query@),
{
    let n = query.len();
    if n < 12 {
        return None;
    }
    let mut i: usize = 12;
    while i < n
        invariant
            12 <= i <= n,
            n == query@.len(),
            find_zero_from(query@, 12) == find_zero_from(query@, i as int),
        decreases n - i,
    {
        if *vstd::slice::slice_index_get(query, i) == 0 {
            if n - i >= 5 {
                return Some(i + 5);
            } else {
                return None;
            }
        }
        i = i + 1;
    }
    None
}

/// Whether the query buffer carries a complete question section, so that
/// the encoders may slice it.
pub fn has_question_end(query: &[u8]) -> (r: bool)
    ensures
        r == valid_question(query@),
{
    find_question_end(query).is_some()
}

// ---------------------------------------------------------------------------
// Wire encoding of a domain name: length-prefixed labels, zero-terminated.
// ---------------------------------------------------------------------------

/// Each label preceded by its length byte (wrapped to a byte, as a cast
/// would wrap it), with a zero byte after the last.
pub open spec fn encode_labels(parts: Seq<Seq<u8>>) -> Seq<u8>
    decreases parts.len(),
{
    if parts.len() == 0 {
        seq![0u8]
    } else {
        seq![(parts[0].len() % 256) as u8] + parts[0] + encode_labels(
            parts.subrange(1, parts.len() as int),
        )
    }
}

/// The wire form of a name given by its dot-joined UTF-8 bytes.
pub open spec fn name_wire(nb: Seq<u8>) -> Seq<u8> {
    encode_labels(split_seq(nb, 46u8))
}

/// `s` split on the byte `sep`, each piece its own vector.
fn split_bytes_vec(s: &[u8], sep: u8) -> (r: Vec<Vec<u8>>)
    ensures
        r.deep_view() =~~= split_seq(s@, sep),
{
    let n = s.len();
    let mut r: Vec<Vec<u8>> = Vec::new();
    proof {
        assert(s@.subrange(0, n as int) =~= s@);
        assert(r.deep_view() =~~= Seq::<Seq<u8>>::empty());
    }
    let mut start: usize = 0;
    let mut i: usize = 0;
    while i < n
        invariant
            start <= i <= n,
            n == s@.len(),
            forall|j: int| start <= j < i ==> s@[j] != sep,
            split_seq(s@, sep) =~~= r.deep_view() + split_seq(
                s@.subrange(start as int, n as int),
                sep,
            ),
        decreases n - i,
    {
        if *vstd::slice::slice_index_get(s, i) == sep {
            let part = crate::text::subvec(s, start, i);
            proof {
                let tail = s@.subrange(start as int, n as int);
                lemma_split_at_first(tail, sep, i - start);
                assert(tail.subrange(0, i - start) =~= s@.subrange(start as int, i as int));
                assert(tail.subrange(i - start + 1, tail.len() as int) =~= s@.subrange(
                    i as int + 1,
                    n as int,
                ));
            }
            let ghost old_r = r.deep_view();
            r.push(part);
            proof {
                assert(r.deep_view() =~~= old_r + seq![part@]);
            }
            start = i + 1;
        }
        i = i + 1;
    }
    let last = crate::text::subvec(s, start, n);
    proof {
        lemma_split_no_sep(s@.subrange(start as int, n as int), sep);
    }
    let ghost old_r = r.deep_view();
    r.push(last);
    proof {
        assert(r.deep_view() =~~= old_r + seq![last@]);
    }
    r
}

fn push_bytes(out: &mut Vec<u8>, s: &[u8])
    ensures
        final(out)@ == old(out)@ + s@,
{
    let n = s.len();
    let mut i: usize = 0;
    while i < n
        invariant
            i <= n,
            n == s@.len(),
            out@ == old(out)@ + s@.subrange(0, i as int),
        decreases n - i,
    {
        out.push(*vstd::slice::slice_index_get(s, i));
        i = i + 1;
        assert(old(out)@ + s@.subrange(0, i as int) =~= (old(out)@ + s@.subrange(0, i - 1)).push(
            s@[i - 1],
        ));
    }
    assert(s@.subrange(0, n as int) =~= s@);
}

fn push_range(out: &mut Vec<u8>, src: &[u8], a: usize, b: usize)
    requires
        a <= b <= src@.len(),
    ensures
        final(out)@ == old(out)@ + src@.subrange(a as int, b as int),
{
    let mut i: usize = a;
    while i < b
        invariant
            a <= i <= b <= src@.len(),
            out@ == old(out)@ + src@.subrange(a as int, i as int),
        decreases b - i,
    {
        out.push(*vstd::slice::slice_index_get(src, i));
        i = i + 1;
        assert(old(out)@ + src@.subrange(a as int, i as int) =~= (old(out)@ + src@.subrange(
            a as int,
            i - 1,
        )).push(src@[i - 1]));
    }
}

fn push_u16_be(out: &mut Vec<u8>, x: u16)
    ensures
        final(out)@ == old(out)@ + u16_be(x),
{
    out.push((x / 256) as u8);
    out.push((x % 256) as u8);
    assert(out@ =~= old(out)@ + u16_be(x));
}

fn push_u32_be(out: &mut Vec<u8>, x: u32)
    ensures
        final(out)@ == old(out)@ + u32_be(x),
{
    out.push((x / 0x1000000) as u8);
    out.push(((x / 0x10000) % 256) as u8);
    out.push(((x / 256) % 256) as u8);
    out.push((x % 256) as u8);
    assert(out@ =~= old(out)@ + u32_be(x));
}

fn push_ipv4(out: &mut Vec<u8>, ip: Ipv4)
    ensures
        final(out)@ == old(out)@ + ip.wire_bytes(),
{
    out.push(ip.octets[0]);
    out.push(ip.octets[1]);
    out.push(ip.octets[2]);
    out.push(ip.octets[3]);
    assert(out@ =~= old(out)@ + ip.wire_bytes());
}

fn push_ipv6(out: &mut Vec<u8>, ip: Ipv6)
    ensures
        final(out)@ == old(out)@ + ip.wire_bytes(),
{
    let mut i: usize = 0;
    while i < 8
        invariant
            i <= 8,
            out@ == old(out)@ + ip.wire_bytes().subrange(0, 2 * i as int),
        decreases 8 - i,
    {
        let g = ip.segments[i];
        out.push((g / 256) as u8);
        out.push((g % 256) as u8);
        i = i + 1;
        assert(out@ =~= old(out)@ + ip.wire_bytes().subrange(0, 2 * i as int));
    }
    assert(ip.wire_bytes().subrange(0, 16) =~= ip.wire_bytes());
}

/// Encodes a dot-joined name into its wire form: each label prefixed with
/// its length byte, the whole terminated by a zero byte.
pub fn encode_domain_name(name: &str) -> (r: Vec<u8>)
    ensures
        r@ == name_wire(name.spec_bytes()),
{
    let bytes = name.as_bytes();
    let parts = split_bytes_vec(bytes, 46);
    let ghost pv = parts.deep_view();
    let n = parts.len();
    let mut r: Vec<u8> = Vec::new();
    let mut i: usize = 0;
    proof {
        assert(pv.subrange(0, pv.len() as int) =~~= pv);
    }
    while i < n
        invariant
            i <= n,
            n == parts@.len(),
            n == pv.len(),
            pv == parts.deep_view(),
            name_wire(name.spec_bytes()) =~= r@ + encode_labels(pv.subrange(i as int, n as int)),
        decreases n - i,
    {
        proof {
            assert(pv[i as int] == parts@[i as int]@);
            assert(pv.subrange(i as int, n as int).subrange(
                1,
                pv.subrange(i as int, n as int).len() as int,
            ) =~~= pv.subrange(i + 1, n as int));
        }
        let ghost r_old = r@;
        let part = &parts[i];
        let len_byte = (part.len() % 256) as u8;
        r.push(len_byte);
        push_bytes(&mut r, part.as_slice());
        proof {
            let sub = pv.subrange(i as int, n as int);
            assert(sub[0] == pv[i as int]);
            assert(encode_labels(sub) == seq![(sub[0].len() % 256) as u8] + sub[0]
                + encode_labels(sub.subrange(1, sub.len() as int)));
            assert(len_byte == (sub[0].len() % 256) as u8);
            assert(r@ =~= r_old + seq![len_byte] + sub[0]);
            assert(r_old + encode_labels(sub) =~= r@ + encode_labels(pv.subrange(i + 1, n as int)));
        }
        i = i + 1;
    }
    proof {
        assert(pv.subrange(n as int, n as int) =~~= Seq::<Seq<u8>>::empty());
    }
    r.push(0);
    proof {
        assert(r@ =~= name_wire(name.spec_bytes()));
    }
    r
}

// ---------------------------------------------------------------------------
// The three response shapes, byte for byte.
// ---------------------------------------------------------------------------

/// The fields of the fallback SOA record.
pub struct SoaParams<'a> {
    pub soa_name: &'a str,
    pub hostmaster: &'a str,
    pub serial: u32,
    pub refresh: u32,
    pub retry: u32,
    pub expire: u32,
    pub minimum: u32,
}

/// The twelve header bytes of every response: the query's ID, the fixed
/// flags `0x8180`, the query's QDCOUNT, then the three record counts.
pub open spec fn response_header(q: Seq<u8>, an: u16, ns: u16, ar: u16) -> Seq<u8> {
    q.subrange(0, 2) + seq![0x81u8, 0x80u8] + q.subrange(4, 6) + u16_be(an) + u16_be(ns) + u16_be(
        ar,
    )
}

/// The glue response: no answers, one NS record naming the server, and
/// one A record giving its address, both with TTL 60.
pub open spec fn spec_glue_response(q: Seq<u8>, glue_name: Seq<u8>, ip: Ipv4) -> Seq<u8> {
    let nw = name_wire(glue_name);
    response_header(q, 0, 1, 1) + q.subrange(12, question_end(q)) + seq![
        0xc0u8,
        0x0c,
        0x00,
        0x02,
        0x00,
        0x01,
        0x00,
        0x00,
        0x00,
        0x3c,
    ] + u16_be((nw.len() % 0x10000) as u16) + nw + nw + seq![
        0x00u8,
        0x01,
        0x00,
        0x01,
        0x00,
        0x00,
        0x00,
        0x3c,
        0x00,
        0x04,
    ] + ip.wire_bytes()
}

/// The answer records of an address response: an A record, an AAAA
/// record, or both, each naming the question by pointer, TTL 60.
pub open spec fn spec_addr_records(v4: Option<Ipv4>, v6: Option<Ipv6>) -> Seq<u8> {
    (if v4 is Some {
        seq![0xc0u8, 0x0c, 0x00, 0x01, 0x00, 0x01, 0x00, 0x00, 0x00, 0x3c, 0x00, 0x04]
            + v4.unwrap().wire_bytes()
    } else {
        Seq::<u8>::empty()
    }) + (if v6 is Some {
        seq![0xc0u8, 0x0c, 0x00, 0x1c, 0x00, 0x01, 0x00, 0x00, 0x00, 0x3c, 0x00, 0x10]
            + v6.unwrap().wire_bytes()
    } else {
        Seq::<u8>::empty()
    })
}

pub open spec fn answer_count(v4: Option<Ipv4>, v6: Option<Ipv6>) -> u16 {
    ((if v4 is Some {
        1int
    } else {
        0int
    }) + (if v6 is Some {
        1int
    } else {
        0int
    })) as u16
}

/// The address response: one answer per populated family, no authority
/// and no additional records.
pub open spec fn spec_addr_response(q: Seq<u8>, v4: Option<Ipv4>, v6: Option<Ipv6>) -> Seq<u8> {
    response_header(q, answer_count(v4, v6), 0, 0) + q.subrange(12, question_end(q))
        + spec_addr_records(v4, v6)
}

/// The RDATA of the SOA record: the zone name, the hostmaster name, then
/// the five timers, each big-endian.
pub open spec fn spec_soa_rdata(
    soa: Seq<u8>,
    host: Seq<u8>,
    serial: u32,
    refresh: u32,
    retry: u32,
    expire: u32,
    minimum: u32,
) -> Seq<u8> {
    name_wire(soa) + name_wire(host) + u32_be(serial) + u32_be(refresh) + u32_be(retry) + u32_be(
        expire,
    ) + u32_be(minimum)
}

/// The fallback response: no answers, one SOA authority record with a
/// fixed TTL of 3600.
pub open spec fn spec_soa_response(
    q: Seq<u8>,
    soa: Seq<u8>,
    host: Seq<u8>,
    serial: u32,
    refresh: u32,
    retry: u32,
    expire: u32,
    minimum: u32,
) -> Seq<u8> {
    let rdata = spec_soa_rdata(soa, host, serial, refresh, retry, expire, minimum);
    response_header(q, 0, 1, 0) + q.subrange(12, question_end(q)) + seq![
        0xc0u8,
        0x0c,
        0x00,
        0x06,
        0x00,
        0x01,
        0x00,
        0x00,
        0x0e,
        0x10,
    ] + u16_be((rdata.len() % 0x10000) as u16) + rdata
}

/// What `build_response` returns: the glue shape when a glue pair is
/// given, else the address shape when an address pair is given, else the
/// bare six header bytes.
pub open spec fn spec_build_response(
    q: Seq<u8>,
    glue: Option<(Seq<u8>, Ipv4)>,
    ip: Option<(Option<Ipv4>, Option<Ipv6>)>,
) -> Seq<u8> {
    if glue is Some {
        spec_glue_response(q, glue.unwrap().0, glue.unwrap().1)
    } else if ip is Some {
        spec_addr_response(q, ip.unwrap().0, ip.unwrap().1)
    } else {
        q.subrange(0, 2) + seq![0x81u8, 0x80u8] + q.subrange(4, 6)
    }
}

/// The names a glue argument carries, as byte sequences.
pub open spec fn glue_view(glue: Option<(&str, Ipv4)>) -> Option<(Seq<u8>, Ipv4)> {
    match glue {
        Some((n, i)) => Some((n.spec_bytes(), i)),
        None => None,
    }
}

proof fn lemma_question_end_low(q: Seq<u8>)
    requires
        valid_question(q),
    ensures
        17 <= question_end(q) <= q.len(),
{
    let z = find_zero_from(q, 12).unwrap();
    lemma_find_zero_some(q, 12, z);
}

/// Builds the glue or address response (or, with neither argument, the
/// bare header) around the query's own ID, QDCOUNT and question section.
#[verifier::rlimit(100)]
pub fn build_response(
    query: &[u8],
    glue: Option<(&str, Ipv4)>,
    ip: Option<(Option<Ipv4>, Option<Ipv6>)>,
) -> (r: Vec<u8>)
    requires
        query@.len() >= 6,
        glue is Some || ip is Some ==> valid_question(query@),
    ensures
        r@ == spec_build_response(query@, glue_view(glue), ip),
{
    let mut r: Vec<u8> = Vec::new();
    push_range(&mut r, query, 0, 2);
    r.push(0x81);
    r.push(0x80);
    push_range(&mut r, query, 4, 6);
    let ghost flag_part = query@.subrange(0, 2) + seq![0x81u8, 0x80u8] + query@.subrange(4, 6);
    proof {
        assert(r@ =~= flag_part);
    }
    if let Some((glue_name, glue_ip)) = glue {
        r.push(0x00);
        r.push(0x00);
        r.push(0x00);
        r.push(0x01);
        r.push(0x00);
        r.push(0x01);
        proof {
            assert(r@ =~= response_header(query@, 0, 1, 1));
        }
        let qe = match find_question_end(query) {
            Some(v) => v,
            None => {
                proof {
                    assert(false);
                }
                0
            },
        };
        proof {
            lemma_question_end_low(query@);
        }
        push_range(&mut r, query, 12, qe);
        let ghost with_question = response_header(query@, 0, 1, 1) + query@.subrange(
            12,
            question_end(query@),
        );
        proof {
            assert(r@ =~= with_question);
        }
        r.push(0xc0);
        r.push(0x0c);
        r.push(0x00);
        r.push(0x02);
        r.push(0x00);
        r.push(0x01);
        r.push(0x00);
        r.push(0x00);
        r.push(0x00);
        r.push(0x3c);
        let ghost ns_head = with_question + seq![
            0xc0u8,
            0x0c,
            0x00,
            0x02,
            0x00,
            0x01,
            0x00,
            0x00,
            0x00,
            0x3c,
        ];
        proof {
            assert(r@ =~= ns_head);
        }
        let nw = encode_domain_name(glue_name);
        push_u16_be(&mut r, (nw.len() % 0x10000) as u16);
        push_bytes(&mut r, nw.as_slice());
        push_bytes(&mut r, nw.as_slice());
        let ghost both_names = ns_head + u16_be((name_wire(glue_name.spec_bytes()).len()
            % 0x10000) as u16) + name_wire(glue_name.spec_bytes()) + name_wire(
            glue_name.spec_bytes(),
        );
        proof {
            assert(r@ =~= both_names);
        }
        r.push(0x00);
        r.push(0x01);
        r.push(0x00);
        r.push(0x01);
        r.push(0x00);
        r.push(0x00);
        r.push(0x00);
        r.push(0x3c);
        r.push(0x00);
        r.push(0x04);
        push_ipv4(&mut r, glue_ip);
        proof {
            assert(r@ =~= spec_glue_response(query@, glue_name.spec_bytes(), glue_ip));
        }
    } else if let Some((v4, v6)) = ip {
        let an: u16 = (if v4.is_some() {
            1u16
        } else {
            0u16
        }) + (if v6.is_some() {
            1u16
        } else {
            0u16
        });
        push_u16_be(&mut r, an);
        r.push(0x00);
        r.push(0x00);
        r.push(0x00);
        r.push(0x00);
        proof {
            assert(r@ =~= response_header(query@, answer_count(v4, v6), 0, 0));
        }
        let qe = match find_question_end(query) {
            Some(v) => v,
            None => {
                proof {
                    assert(false);
                }
                0
            },
        };
        proof {
            lemma_question_end_low(query@);
        }
        push_range(&mut r, query, 12, qe);
        let ghost with_question = response_header(query@, answer_count(v4, v6), 0, 0)
            + query@.subrange(12, question_end(query@));
        proof {
            assert(r@ =~= with_question);
        }
        if let Some(a) = v4 {
            r.push(0xc0);
            r.push(0x0c);
            r.push(0x00);
            r.push(0x01);
            r.push(0x00);
            r.push(0x01);
            r.push(0x00);
            r.push(0x00);
            r.push(0x00);
            r.push(0x3c);
            r.push(0x00);
            r.push(0x04);
            push_ipv4(&mut r, a);
        }
        if let Some(b) = v6 {
            r.push(0xc0);
            r.push(0x0c);
            r.push(0x00);
            r.push(0x1c);
            r.push(0x00);
            r.push(0x01);
            r.push(0x00);
            r.push(0x00);
            r.push(0x00);
            r.push(0x3c);
            r.push(0x00);
            r.push(0x10);
            push_ipv6(&mut r, b);
        }
        proof {
            assert(r@ =~= with_question + spec_addr_records(v4, v6));
        }
    }
    r
}

/// Builds the fallback response: the query's question answered with a
/// single SOA authority record holding the configured names and timers.
pub fn build_soa_response(query: &[u8], params: &SoaParams) -> (r: Vec<u8>)
    requires
        valid_question(query@),
    ensures
        r@ == spec_soa_response(
            query@,
            params.soa_name.spec_bytes(),
            params.hostmaster.spec_bytes(),
            params.serial,
            params.refresh,
            params.retry,
            params.expire,
            params.minimum,
        ),
{
    let mut r: Vec<u8> = Vec::new();
    push_range(&mut r, query, 0, 2);
    r.push(0x81);
    r.push(0x80);
    push_range(&mut r, query, 4, 6);
    r.push(0x00);
    r.push(0x00);
    r.push(0x00);
    r.push(0x01);
    r.push(0x00);
    r.push(0x00);
    proof {
        assert(r@ =~= response_header(query@, 0, 1, 0));
    }
    let qe = match find_question_end(query) {
        Some(v) => v,
        None => {
            proof {
                assert(false);
            }
            0
        },
    };
    proof {
        lemma_question_end_low(query@);
    }
    push_range(&mut r, query, 12, qe);
    let ghost with_question = response_header(query@, 0, 1, 0) + query@.subrange(
        12,
        question_end(query@),
    );
    proof {
        assert(r@ =~= with_question);
    }
    r.push(0xc0);
    r.push(0x0c);
    r.push(0x00);
    r.push(0x06);
    r.push(0x00);
    r.push(0x01);
    r.push(0x00);
    r.push(0x00);
    r.push(0x0e);
    r.push(0x10);
    let ghost soa_head = with_question + seq![
        0xc0u8,
        0x0c,
        0x00,
        0x06,
        0x00,
        0x01,
        0x00,
        0x00,
        0x0e,
        0x10,
    ];
    proof {
        assert(r@ =~= soa_head);
    }
    let mut rdata: Vec<u8> = Vec::new();
    let soa_wire = encode_domain_name(params.soa_name);
    push_bytes(&mut rdata, soa_wire.as_slice());
    let host_wire = encode_domain_name(params.hostmaster);
    push_bytes(&mut rdata, host_wire.as_slice());
    push_u32_be(&mut rdata, params.serial);
    push_u32_be(&mut rdata, params.refresh);
    push_u32_be(&mut rdata, params.retry);
    push_u32_be(&mut rdata, params.expire);
    push_u32_be(&mut rdata, params.minimum);
    let ghost rd = spec_soa_rdata(
        params.soa_name.spec_bytes(),
        params.hostmaster.spec_bytes(),
        params.serial,
        params.refresh,
        params.retry,
        params.expire,
        params.minimum,
    );
    proof {
        assert(rdata@ =~= rd);
    }
    push_u16_be(&mut r, (rdata.len() % 0x10000) as u16);
    push_bytes(&mut r, rdata.as_slice());
    proof {
        assert(r@ =~= soa_head + u16_be((rd.len() % 0x10000) as u16) + rd);
    }
    r
}

} // verus!
