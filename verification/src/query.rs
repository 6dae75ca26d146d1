use vstd::prelude::*;

use crate::config::Config;
use crate::ip_parser::{interpret_ip, spec_interpret};
use crate::response::{
    build_response, build_soa_response, spec_addr_response, spec_glue_response, spec_soa_response,
    valid_question, SoaParams,
};
use crate::text::{seq_eq_ignore_case, str_eq_ignore_case};
use vstd::string::StrSliceExecFns;
use vstd::string::StringExecFns;
use vstd::string::StringSliceAdditionalSpecFns;
use vstd::utf8::{decode_utf8, encode_utf8, valid_utf8};

verus! {

broadcast use
    vstd::utf8::encode_utf8_valid_utf8,
    vstd::utf8::decode_utf8_encode_utf8,
    vstd::utf8::encode_utf8_decode_utf8,
;


// ---------------------------------------------------------------------------
// The wire-format question name, as a byte-level specification.
// ---------------------------------------------------------------------------

/// The name accumulated from the labels at and after `pos`, given the
/// dot-joined UTF-8 bytes `acc` of the labels already read. The scan stops
/// at a zero length byte or at the end of the buffer; it fails on a label
/// that would run past the end, on label bytes that are not UTF-8, and on
/// a name with no labels at all.
pub open spec fn scan_name(q: Seq<u8>, pos: int, acc: Seq<u8>) -> Option<Seq<u8>>
    decreases q.len() - pos,
{
    if pos < 0 || pos >= q.len() || q[pos] == 0 {
        if acc.len() == 0 {
            None
        } else {
            Some(acc)
        }
    } else {
        let l = q[pos] as int;
        if pos + 1 + l > q.len() {
            None
        } else if !valid_utf8(q.subrange(pos + 1, pos + 1 + l)) {
            None
        } else {
            let label = q.subrange(pos + 1, pos + 1 + l);
            scan_name(
                q,
                pos + 1 + l,
                if acc.len() == 0 {
                    label
                } else {
                    acc + seq![46u8] + label
                },
            )
        }
    }
}

/// The dot-joined UTF-8 bytes of the queried name, if the buffer decodes:
/// it must hold the 12-byte header, announce exactly one question, and
/// yield a non-empty name.
pub open spec fn qname_bytes(q: Seq<u8>) -> Option<Seq<u8>> {
    if q.len() < 12 {
        None
    } else if q[4] as int * 256 + q[5] as int != 1 {
        None
    } else {
        scan_name(q, 12, Seq::<u8>::empty())
    }
}

// ---------------------------------------------------------------------------
// Executable decoding.
// ---------------------------------------------------------------------------

/// Relies on `core::str::from_utf8`: it accepts exactly the valid UTF-8
/// byte sequences, and the returned slice is a view of those same bytes.
#[verifier::external_body]
fn bytes_as_str(bytes: &[u8]) -> (r: Option<&str>)
    ensures
        r is Some <==> valid_utf8(bytes@),
        r is Some ==> r.unwrap().spec_bytes() == bytes@,
{
    core::str::from_utf8(bytes).ok()
}

proof fn lemma_encode_concat(a: Seq<char>, b: Seq<char>)
    ensures
        encode_utf8(a + b) =~= encode_utf8(a) + encode_utf8(b),
    decreases a.len(),
{
    if a.len() == 0 {
        assert(a + b =~= b);
    } else {
        assert((a + b).drop_first() =~= a.drop_first() + b);
        lemma_encode_concat(a.drop_first(), b);
    }
}

proof fn lemma_encode_dot()
    ensures
        encode_utf8(seq!['.']) =~= seq![46u8],
{
    let s = seq!['.'];
    assert(s[0] == '.');
    assert('.' as u32 == 46);
    assert(46u32 & 0x7F == 46) by (bit_vector);
    assert(vstd::utf8::leading_byte_width_1(46) == 46u8);
    assert(vstd::utf8::encode_scalar(46) =~= seq![46u8]);
    assert(s.drop_first() =~= Seq::<char>::empty());
    assert(encode_utf8(s) =~= vstd::utf8::encode_scalar('.' as u32) + encode_utf8(s.drop_first()));
}

proof fn lemma_encode_empty_iff(a: Seq<char>)
    ensures
        encode_utf8(a).len() == 0 <==> a.len() == 0,
{
    if a.len() > 0 {
        vstd::utf8::char_is_scalar(a[0]);
    }
}

/// Decodes the question section of a raw query into the dot-joined
/// queried name. Succeeds exactly when the buffer decodes to a name, and
/// then returns the name whose UTF-8 bytes are the dot-joined label bytes.
pub fn parse_query(query: &[u8]) -> (r: Option<String>)
    ensures
        r is Some <==> qname_bytes(query@) is Some,
        r is Some ==> encode_utf8(r.unwrap()@) == qname_bytes(query@).unwrap(),
{
    let n = query.len();
    if n < 12 {
        return None;
    }
    let qd: u32 = (*vstd::slice::slice_index_get(query, 4) as u32) * 256 + (*vstd::slice::slice_index_get(query, 5) as u32);
    if qd != 1 {
        return None;
    }
    let mut pos: usize = 12;
    let mut domain: String = String::new();
    proof {
        assert(encode_utf8(domain@) =~= Seq::<u8>::empty());
    }
    while pos < n
        invariant
            12 <= pos <= n,
            n == query@.len(),
            qname_bytes(query@) == scan_name(query@, pos as int, encode_utf8(domain@)),
        decreases n - pos,
    {
        let len = *vstd::slice::slice_index_get(query, pos) as usize;
        if len == 0 {
            proof {
                lemma_encode_empty_iff(domain@);
            }
            if domain.as_str().is_empty() {
                return None;
            } else {
                return Some(domain);
            }
        }
        pos = pos + 1;
        if len > n - pos {
            proof {
                lemma_encode_empty_iff(domain@);
            }
            return None;
        }
        let label = vstd::slice::slice_subrange(query, pos, pos + len);
        let s = match bytes_as_str(label) {
            Some(s) => s,
            None => {
                proof {
                    lemma_encode_empty_iff(domain@);
                }
                return None;
            },
        };
        let ghost acc = encode_utf8(domain@);
        if !domain.as_str().is_empty() {
            proof {
                lemma_encode_empty_iff(domain@);
            }
            let ghost before = domain@;
            domain.append(".");
            proof {
                reveal_strlit(".");
                lemma_encode_concat(before, "."@);
                lemma_encode_dot();
                assert("."@ =~= seq!['.']);
                assert(encode_utf8(domain@) =~= acc + seq![46u8]);
            }
            let ghost mid = domain@;
            domain.append(s);
            proof {
                lemma_encode_concat(mid, s@);
                assert(encode_utf8(domain@) =~= acc + seq![46u8] + label@);
            }
        } else {
            proof {
                lemma_encode_empty_iff(domain@);
            }
            let ghost before = domain@;
            domain.append(s);
            proof {
                lemma_encode_concat(before, s@);
                assert(encode_utf8(domain@) =~= label@);
            }
        }
        pos = pos + len;
    }
    proof {
        lemma_encode_empty_iff(domain@);
    }
    if domain.as_str().is_empty() {
        None
    } else {
        Some(domain)
    }
}

// ---------------------------------------------------------------------------
// The dispatcher: decode, classify, encode.
// ---------------------------------------------------------------------------

/// The whole response to a raw query: nothing for a query that does not
/// decode or whose question section has no end; the glue response when
/// the name is the glue name up to ASCII case; the address response when
/// the name embeds an address; the SOA fallback for every other name.
pub open spec fn spec_handle(q: Seq<u8>, c: Config) -> Seq<u8> {
    match qname_bytes(q) {
        None => Seq::<u8>::empty(),
        Some(nb) => {
            if !valid_question(q) {
                Seq::<u8>::empty()
            } else {
                let name = decode_utf8(nb);
                if seq_eq_ignore_case(name, c.glue_name@) {
                    spec_glue_response(q, encode_utf8(c.glue_name@), c.glue_ip)
                } else if spec_interpret(name) is Some {
                    spec_addr_response(q, spec_interpret(name).unwrap().0, spec_interpret(name).unwrap().1)
                } else {
                    spec_soa_response(
                        q,
                        encode_utf8(c.soa_name@),
                        encode_utf8(c.hostmaster@),
                        c.serial,
                        c.refresh,
                        c.retry,
                        c.expire,
                        c.minimum,
                    )
                }
            }
        },
    }
}

/// Answers one query: decodes it, classifies the name, and encodes the
/// matching response. An empty result means the query is dropped.
pub fn handle_query_internal(query: &[u8], config: &Config) -> (r: Vec<u8>)
    ensures
        r@ == spec_handle(query@, *config),
{
    let domain = match parse_query(query) {
        Some(d) => d,
        None => {
            let empty: Vec<u8> = Vec::new();
            assert(empty@ =~= Seq::<u8>::empty());
            return empty;
        },
    };
    let ghost nb = qname_bytes(query@).unwrap();
    proof {
        assert(decode_utf8(nb) == domain@);
    }
    if !crate::response::has_question_end(query) {
        let empty: Vec<u8> = Vec::new();
        assert(empty@ =~= Seq::<u8>::empty());
        return empty;
    }
    if str_eq_ignore_case(domain.as_str(), config.glue_name.as_str()) {
        build_response(query, Some((config.glue_name.as_str(), config.glue_ip)), None)
    } else if let Some(pair) = interpret_ip(domain.as_str()) {
        build_response(query, None, Some(pair))
    } else {
        let soa_params = SoaParams {
            soa_name: config.soa_name.as_str(),
            hostmaster: config.hostmaster.as_str(),
            serial: config.serial,
            refresh: config.refresh,
            retry: config.retry,
            expire: config.expire,
            minimum: config.minimum,
        };
        build_soa_response(query, &soa_params)
    }
}

} // verus!
