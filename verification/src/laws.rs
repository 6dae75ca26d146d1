use vstd::prelude::*;

use crate::addr::{ipv4_from, ipv6_from_groups, u16_be, Ipv4, Ipv6};
use crate::ip_parser::{
    dec_val, fill_groups, find_dcolon, find_dotted, find_hex8, find_hyph_v4,
    find_hyph_v6, group_vals, hex8_ipv4, hex_pair_val, is_hex8, is_hex_digit, is_hex_group,
    is_strict_octet, lemma_find_dcolon_some, map_hyphens, spec_hyph_v4, spec_hyph_v6,
    spec_interpret, spec_ipv6_text, window_ipv4, window_ok,
};
use crate::config::Config;
use crate::query::{qname_bytes, spec_handle};
use crate::response::{
    question_end, spec_build_response, spec_glue_response, spec_soa_rdata,
    spec_soa_response, name_wire, response_header, valid_question,
};
use crate::text::{
    join_seq, lemma_adjacent_sep_empty, lemma_join_last, lemma_split_join, lemma_split_no_sep,
    seq_eq_ignore_case, split_seq,
};
use vstd::utf8::{decode_utf8, encode_utf8};

verus! {

// ---------------------------------------------------------------------------
// How the leftmost-match searches behave.
// ---------------------------------------------------------------------------

proof fn lemma_find_hex8_none(parts: Seq<Seq<char>>, i: int)
    requires
        forall|j: int| i <= j < parts.len() ==> !is_hex8(parts[j]),
    ensures
        find_hex8(parts, i) is None,
    decreases parts.len() - i,
{
    if !(i < 0 || i >= parts.len()) {
        lemma_find_hex8_none(parts, i + 1);
    }
}

proof fn lemma_find_hex8_at(parts: Seq<Seq<char>>, i: int, k: int)
    requires
        0 <= i <= k < parts.len(),
        is_hex8(parts[k]),
        forall|j: int| i <= j < k ==> !is_hex8(parts[j]),
    ensures
        find_hex8(parts, i) == Some(hex8_ipv4(parts[k])),
    decreases k - i,
{
    if i < k {
        lemma_find_hex8_at(parts, i + 1, k);
    }
}

proof fn lemma_find_dotted_none(parts: Seq<Seq<char>>, i: int)
    requires
        forall|j: int| i <= j ==> !window_ok(parts, j),
    ensures
        find_dotted(parts, i) is None,
    decreases parts.len() - i,
{
    if !(i < 0 || i + 4 > parts.len()) {
        lemma_find_dotted_none(parts, i + 1);
    }
}

proof fn lemma_find_hyph_v6_none(parts: Seq<Seq<char>>, i: int)
    requires
        forall|j: int| i <= j < parts.len() ==> spec_hyph_v6(parts[j]) is None,
    ensures
        find_hyph_v6(parts, i) is None,
    decreases parts.len() - i,
{
    if !(i < 0 || i >= parts.len()) {
        lemma_find_hyph_v6_none(parts, i + 1);
    }
}

// ---------------------------------------------------------------------------
// Embedded dotted-decimal addresses are found.
// ---------------------------------------------------------------------------

/// A name whose first four parts write an address in strict dotted
/// decimal resolves to exactly that address, whatever follows — as long
/// as no part of the name is a run of eight hexadecimal digits, which an
/// earlier strategy would claim first.
pub proof fn lemma_dotted_decimal_resolves(parts: Seq<Seq<char>>, a: u8, b: u8, c: u8, d: u8)
    requires
        parts.len() >= 4,
        forall|i: int, j: int|
            0 <= i < parts.len() && 0 <= j < parts[i].len() ==> parts[i][j] != '.',
        forall|i: int| 0 <= i < parts.len() ==> !is_hex8(parts[i]),
        is_strict_octet(parts[0]) && dec_val(parts[0]) == a as int,
        is_strict_octet(parts[1]) && dec_val(parts[1]) == b as int,
        is_strict_octet(parts[2]) && dec_val(parts[2]) == c as int,
        is_strict_octet(parts[3]) && dec_val(parts[3]) == d as int,
    ensures
        spec_interpret(join_seq(parts, '.')) == Some((Some(ipv4_from(a, b, c, d)), None::<
            crate::addr::Ipv6,
        >)),
{
    lemma_split_join(parts, '.');
    let name = join_seq(parts, '.');
    assert(split_seq(name, '.') == parts);
    lemma_find_hex8_none(parts, 0);
    assert(window_ok(parts, 0));
    assert(find_dotted(parts, 0) == Some(window_ipv4(parts, 0)));
    assert(window_ipv4(parts, 0) == ipv4_from(a, b, c, d));
}

// ---------------------------------------------------------------------------
// Embedded hexadecimal addresses are found.
// ---------------------------------------------------------------------------

/// A name holding a label of eight hexadecimal digits resolves to the
/// address those digits spell, two digits per octet, provided no earlier
/// part is such a label.
pub proof fn lemma_hex_label_resolves(parts: Seq<Seq<char>>, k: int, a: u8, b: u8, c: u8, d: u8)
    requires
        0 <= k < parts.len(),
        forall|i: int, j: int|
            0 <= i < parts.len() && 0 <= j < parts[i].len() ==> parts[i][j] != '.',
        is_hex8(parts[k]),
        forall|j: int| 0 <= j < k ==> !is_hex8(parts[j]),
        hex_pair_val(parts[k][0], parts[k][1]) == a as int,
        hex_pair_val(parts[k][2], parts[k][3]) == b as int,
        hex_pair_val(parts[k][4], parts[k][5]) == c as int,
        hex_pair_val(parts[k][6], parts[k][7]) == d as int,
    ensures
        spec_interpret(join_seq(parts, '.')) == Some((Some(ipv4_from(a, b, c, d)), None::<
            crate::addr::Ipv6,
        >)),
{
    lemma_split_join(parts, '.');
    lemma_find_hex8_at(parts, 0, k);
    assert(hex8_ipv4(parts[k]) == ipv4_from(a, b, c, d));
}

// ---------------------------------------------------------------------------
// Joins of well-behaved pieces.
// ---------------------------------------------------------------------------

proof fn lemma_join_hex_or_sep(parts: Seq<Seq<char>>, sep: char)
    requires
        forall|i: int, j: int|
            0 <= i < parts.len() && 0 <= j < parts[i].len() ==> is_hex_digit(parts[i][j]),
    ensures
        forall|k: int|
            0 <= k < join_seq(parts, sep).len() ==> is_hex_digit(join_seq(parts, sep)[k])
                || join_seq(parts, sep)[k] == sep,
    decreases parts.len(),
{
    if parts.len() > 1 {
        let rest = parts.subrange(1, parts.len() as int);
        lemma_join_hex_or_sep(rest, sep);
        assert forall|k: int| 0 <= k < join_seq(parts, sep).len() implies is_hex_digit(
            join_seq(parts, sep)[k],
        ) || join_seq(parts, sep)[k] == sep by {
            let s = join_seq(parts, sep);
            let h = parts[0].len() as int;
            if k < h {
                assert(s[k] == parts[0][k]);
            } else if k == h {
                assert(s[k] == sep);
            } else {
                assert(s[k] == join_seq(rest, sep)[k - h - 1]);
            }
        }
    }
}

/// Replacing hyphens by colons in a join on hyphens gives the join on
/// colons, when the pieces themselves hold no hyphen.
proof fn lemma_map_hyphens_join(parts: Seq<Seq<char>>)
    requires
        forall|i: int, j: int|
            0 <= i < parts.len() && 0 <= j < parts[i].len() ==> parts[i][j] != '-',
    ensures
        map_hyphens(join_seq(parts, '-')) =~= join_seq(parts, ':'),
    decreases parts.len(),
{
    if parts.len() > 1 {
        let rest = parts.subrange(1, parts.len() as int);
        lemma_map_hyphens_join(rest);
    }
}

/// A join of non-empty colon-free pieces on `:` holds no `::`.
proof fn lemma_join_no_dcolon(parts: Seq<Seq<char>>)
    requires
        parts.len() >= 1,
        forall|i: int| 0 <= i < parts.len() ==> parts[i].len() >= 1,
        forall|i: int, j: int|
            0 <= i < parts.len() && 0 <= j < parts[i].len() ==> parts[i][j] != ':',
    ensures
        find_dcolon(join_seq(parts, ':'), 0) is None,
{
    let t = join_seq(parts, ':');
    if find_dcolon(t, 0) is Some {
        let p = find_dcolon(t, 0).unwrap();
        lemma_find_dcolon_some(t, 0, p);
        lemma_adjacent_sep_empty(t, ':', p);
        lemma_split_join(parts, ':');
        assert(false);
    }
}

proof fn lemma_find_dcolon_at(t: Seq<char>, i: int, p: int)
    requires
        0 <= i <= p,
        p + 1 < t.len(),
        t[p] == ':',
        t[p + 1] == ':',
        forall|j: int| i <= j < p ==> !(#[trigger] t[j] == ':' && t[j + 1] == ':'),
    ensures
        find_dcolon(t, i) == Some(p),
    decreases p - i,
{
    if i < p {
        lemma_find_dcolon_at(t, i + 1, p);
    }
}

// ---------------------------------------------------------------------------
// Embedded hyphenated IPv4 addresses are found.
// ---------------------------------------------------------------------------

/// A name whose first label writes an address as four hyphen-separated
/// decimal octets resolves to exactly that address, provided the rest of
/// the name gives no earlier strategy a match: no part is eight
/// hexadecimal digits, no run of four parts is a dotted-decimal address,
/// and no part reads as a hyphenated IPv6 literal.
pub proof fn lemma_hyphenated_v4_resolves(
    fields: Seq<Seq<char>>,
    tail: Seq<Seq<char>>,
    a: u8,
    b: u8,
    c: u8,
    d: u8,
)
    requires
        fields.len() == 4,
        is_strict_octet(fields[0]) && dec_val(fields[0]) == a as int,
        is_strict_octet(fields[1]) && dec_val(fields[1]) == b as int,
        is_strict_octet(fields[2]) && dec_val(fields[2]) == c as int,
        is_strict_octet(fields[3]) && dec_val(fields[3]) == d as int,
        forall|i: int, j: int| 0 <= i < tail.len() && 0 <= j < tail[i].len() ==> tail[i][j] != '.',
        forall|i: int| 0 <= i < tail.len() ==> !is_hex8(tail[i]),
        forall|i: int| 0 <= i < tail.len() ==> spec_hyph_v6(tail[i]) is None,
        forall|j: int|
            j >= 1 ==> !window_ok(seq![join_seq(fields, '-')] + tail, j),
    ensures
        spec_interpret(join_seq(seq![join_seq(fields, '-')] + tail, '.')) == Some(
            (Some(ipv4_from(a, b, c, d)), None::<Ipv6>),
        ),
{
    let label = join_seq(fields, '-');
    let parts = seq![label] + tail;
    assert(forall|i: int, j: int|
        0 <= i < fields.len() && 0 <= j < fields[i].len() ==> is_hex_digit(fields[i][j]));
    lemma_join_hex_or_sep(fields, '-');
    assert(forall|k: int| 0 <= k < label.len() ==> label[k] != '.');
    lemma_split_join(parts, '.');
    lemma_split_join(fields, '-');
    // The label is not itself eight hexadecimal digits: it holds a hyphen.
    assert(label == fields[0] + seq!['-'] + join_seq(fields.subrange(1, 4), '-'));
    let hpos = fields[0].len() as int;
    assert(label[hpos] == '-');
    assert(!is_hex8(label));
    lemma_find_hex8_none(parts, 0);
    // The label is not a decimal octet either, so no window matches.
    assert(!window_ok(parts, 0));
    lemma_find_dotted_none(parts, 0);
    // Nor does it read as an IPv6 literal: four groups and no `::`.
    assert(spec_hyph_v6(label) is None) by {
        lemma_map_hyphens_join(fields);
        let t = join_seq(fields, ':');
        lemma_join_no_dcolon(fields);
        lemma_split_join(fields, ':');
        assert(split_seq(t, ':').len() == 4);
    }
    lemma_find_hyph_v6_none(parts, 0);
    // The hyphenated reading of the label gives the four octets.
    assert(window_ok(fields, 0));
    assert(spec_hyph_v4(label) == Some(ipv4_from(a, b, c, d)));
    assert(find_hyph_v4(parts, 0) == Some(ipv4_from(a, b, c, d)));
}

// ---------------------------------------------------------------------------
// Embedded hyphenated IPv6 addresses are found.
// ---------------------------------------------------------------------------

/// A label written as hexadecimal groups joined with hyphens around one
/// `--` reads as the IPv6 address whose missing middle groups are zero.
pub proof fn lemma_hyphenated_v6_label_parses(hs: Seq<Seq<char>>, ts: Seq<Seq<char>>)
    requires
        1 <= hs.len(),
        1 <= ts.len(),
        hs.len() + ts.len() <= 7,
        forall|i: int| 0 <= i < hs.len() ==> is_hex_group(hs[i]),
        forall|i: int| 0 <= i < ts.len() ==> is_hex_group(ts[i]),
    ensures
        spec_hyph_v6(join_seq(hs, '-') + seq!['-', '-'] + join_seq(ts, '-')) == Some(
            ipv6_from_groups(fill_groups(group_vals(hs), group_vals(ts))),
        ),
{
    let label = join_seq(hs, '-') + seq!['-', '-'] + join_seq(ts, '-');
    assert(forall|i: int, j: int|
        0 <= i < hs.len() && 0 <= j < hs[i].len() ==> is_hex_digit(hs[i][j]));
    assert(forall|i: int, j: int|
        0 <= i < ts.len() && 0 <= j < ts[i].len() ==> is_hex_digit(ts[i][j]));
    lemma_map_hyphens_join(hs);
    lemma_map_hyphens_join(ts);
    let hj = join_seq(hs, ':');
    let tj = join_seq(ts, ':');
    let t = map_hyphens(label);
    assert(t =~= hj + seq![':', ':'] + tj);
    let p = hj.len() as int;
    lemma_join_last(hs, ':');
    assert(t[p] == ':');
    assert(t[p + 1] == ':');
    assert forall|j: int| 0 <= j < p implies !(#[trigger] t[j] == ':' && t[j + 1] == ':') by {
        if t[j] == ':' && t[j + 1] == ':' {
            if j + 1 < p {
                assert(hj[j] == ':' && hj[j + 1] == ':');
                lemma_adjacent_sep_empty(hj, ':', j);
                lemma_split_join(hs, ':');
            } else {
                assert(t[j] == hj.last());
                assert(is_hex_digit(hj.last()));
            }
            assert(false);
        }
    }
    lemma_find_dcolon_at(t, 0, p);
    assert(t.subrange(0, p) =~= hj);
    assert(t.subrange(p + 2, t.len() as int) =~= tj);
    lemma_split_join(hs, ':');
    lemma_split_join(ts, ':');
    assert(hj.len() >= 1);
    lemma_join_last(ts, ':');
    assert(tj.len() >= 1);
    assert(group_vals(hs).len() == hs.len());
    assert(group_vals(ts).len() == ts.len());
    assert(spec_ipv6_text(t) == Some(ipv6_from_groups(fill_groups(group_vals(hs), group_vals(ts)))));
}

/// A name whose first label writes an IPv6 address with hyphens for
/// colons and `--` for `::` resolves to exactly that address, provided
/// no part of the name is eight hexadecimal digits and no run of four
/// parts is a dotted-decimal address.
pub proof fn lemma_hyphenated_v6_resolves(hs: Seq<Seq<char>>, ts: Seq<Seq<char>>, tail: Seq<Seq<char>>)
    requires
        1 <= hs.len(),
        1 <= ts.len(),
        hs.len() + ts.len() <= 7,
        forall|i: int| 0 <= i < hs.len() ==> is_hex_group(hs[i]),
        forall|i: int| 0 <= i < ts.len() ==> is_hex_group(ts[i]),
        forall|i: int, j: int| 0 <= i < tail.len() && 0 <= j < tail[i].len() ==> tail[i][j] != '.',
        forall|i: int| 0 <= i < tail.len() ==> !is_hex8(tail[i]),
        forall|j: int|
            j >= 1 ==> !window_ok(
                seq![join_seq(hs, '-') + seq!['-', '-'] + join_seq(ts, '-')] + tail,
                j,
            ),
    ensures
        spec_interpret(
            join_seq(seq![join_seq(hs, '-') + seq!['-', '-'] + join_seq(ts, '-')] + tail, '.'),
        ) == Some((None::<Ipv4>, Some(ipv6_from_groups(fill_groups(group_vals(hs), group_vals(ts)))))),
{
    let label = join_seq(hs, '-') + seq!['-', '-'] + join_seq(ts, '-');
    let parts = seq![label] + tail;
    assert(forall|i: int, j: int|
        0 <= i < hs.len() && 0 <= j < hs[i].len() ==> is_hex_digit(hs[i][j]));
    assert(forall|i: int, j: int|
        0 <= i < ts.len() && 0 <= j < ts[i].len() ==> is_hex_digit(ts[i][j]));
    lemma_join_hex_or_sep(hs, '-');
    lemma_join_hex_or_sep(ts, '-');
    assert forall|k: int| 0 <= k < label.len() implies label[k] != '.' by {
        let hl = join_seq(hs, '-').len() as int;
        if k < hl {
            assert(label[k] == join_seq(hs, '-')[k]);
        } else if k < hl + 2 {
            assert(label[k] == '-');
        } else {
            assert(label[k] == join_seq(ts, '-')[k - hl - 2]);
        }
    }
    lemma_split_join(parts, '.');
    let hpos = join_seq(hs, '-').len() as int;
    assert(label[hpos] == '-');
    assert(!is_hex8(label));
    lemma_find_hex8_none(parts, 0);
    assert(!window_ok(parts, 0));
    lemma_find_dotted_none(parts, 0);
    lemma_hyphenated_v6_label_parses(hs, ts);
    assert(find_hyph_v6(parts, 0) == Some(
        ipv6_from_groups(fill_groups(group_vals(hs), group_vals(ts))),
    ));
}

/// A label with neither hyphens nor colons never reads as an IPv6
/// literal: nothing maps to a colon, so it is a single group, not eight.
proof fn lemma_plain_label_no_v6(s: Seq<char>)
    requires
        forall|j: int| 0 <= j < s.len() ==> s[j] != '-' && s[j] != ':',
    ensures
        spec_hyph_v6(s) is None,
{
    assert(map_hyphens(s) =~= s);
    if find_dcolon(s, 0) is Some {
        let p = find_dcolon(s, 0).unwrap();
        lemma_find_dcolon_some(s, 0, p);
        assert(false);
    }
    lemma_split_no_sep(s, ':');
}

/// The parts `example` and `com` interfere with no strategy: they hold
/// no dot, are not eight hexadecimal digits, and read as no IPv6 literal.
proof fn lemma_example_com_inert()
    ensures
        forall|i: int, j: int|
            0 <= i < 2 && 0 <= j < seq!["example"@, "com"@][i].len() ==> seq![
                "example"@,
                "com"@,
            ][i][j] != '.',
        forall|i: int| 0 <= i < 2 ==> !is_hex8(seq!["example"@, "com"@][i]),
        forall|i: int| 0 <= i < 2 ==> spec_hyph_v6(seq!["example"@, "com"@][i]) is None,
{
    reveal_strlit("example");
    reveal_strlit("com");
    let tail = seq!["example"@, "com"@];
    assert("example"@.len() == 7);
    assert("com"@.len() == 3);
    assert(forall|j: int| 0 <= j < 7 ==> "example"@[j] != '.');
    assert(forall|j: int| 0 <= j < 3 ==> "com"@[j] != '.');
    assert forall|i: int| 0 <= i < 2 implies spec_hyph_v6(tail[i]) is None by {
        if i == 0 {
            assert(forall|j: int| 0 <= j < 7 ==> "example"@[j] != '-' && "example"@[j] != ':');
            lemma_plain_label_no_v6("example"@);
        } else {
            assert(forall|j: int| 0 <= j < 3 ==> "com"@[j] != '-' && "com"@[j] != ':');
            lemma_plain_label_no_v6("com"@);
        }
    }
}

/// The round trip of the third strategy on its own shape: for any four
/// octets, the name `a-b-c-d.example.com` resolves to A `a.b.c.d`.
pub proof fn lemma_hyphenated_v4_example_com(
    fields: Seq<Seq<char>>,
    a: u8,
    b: u8,
    c: u8,
    d: u8,
)
    requires
        fields.len() == 4,
        is_strict_octet(fields[0]) && dec_val(fields[0]) == a as int,
        is_strict_octet(fields[1]) && dec_val(fields[1]) == b as int,
        is_strict_octet(fields[2]) && dec_val(fields[2]) == c as int,
        is_strict_octet(fields[3]) && dec_val(fields[3]) == d as int,
    ensures
        spec_interpret(
            join_seq(seq![join_seq(fields, '-'), "example"@, "com"@], '.'),
        ) == Some((Some(ipv4_from(a, b, c, d)), None::<Ipv6>)),
{
    let tail = seq!["example"@, "com"@];
    let parts = seq![join_seq(fields, '-')] + tail;
    lemma_example_com_inert();
    assert(parts.len() == 3);
    assert(forall|j: int| j >= 1 ==> !window_ok(parts, j));
    lemma_hyphenated_v4_resolves(fields, tail, a, b, c, d);
    assert(seq![join_seq(fields, '-'), "example"@, "com"@] =~= parts);
}

/// The round trip of the fourth strategy on its own shape: hexadecimal
/// groups joined with hyphens around one `--`, before `.example.com`,
/// resolve to the AAAA record whose missing middle groups are zero.
pub proof fn lemma_hyphenated_v6_example_com(hs: Seq<Seq<char>>, ts: Seq<Seq<char>>)
    requires
        1 <= hs.len(),
        1 <= ts.len(),
        hs.len() + ts.len() <= 7,
        forall|i: int| 0 <= i < hs.len() ==> is_hex_group(hs[i]),
        forall|i: int| 0 <= i < ts.len() ==> is_hex_group(ts[i]),
    ensures
        spec_interpret(
            join_seq(
                seq![join_seq(hs, '-') + seq!['-', '-'] + join_seq(ts, '-'), "example"@, "com"@],
                '.',
            ),
        ) == Some(
            (None::<Ipv4>, Some(ipv6_from_groups(fill_groups(group_vals(hs), group_vals(ts))))),
        ),
{
    let tail = seq!["example"@, "com"@];
    let label = join_seq(hs, '-') + seq!['-', '-'] + join_seq(ts, '-');
    let parts = seq![label] + tail;
    lemma_example_com_inert();
    assert(parts.len() == 3);
    assert(forall|j: int| j >= 1 ==> !window_ok(parts, j));
    lemma_hyphenated_v6_resolves(hs, ts, tail);
    assert(seq![label, "example"@, "com"@] =~= parts);
}

/// A lookup populates at most one address family: never an IPv4 and an
/// IPv6 address at once.
pub proof fn lemma_at_most_one_family(name: Seq<char>)
    ensures
        match spec_interpret(name) {
            Some((v4, v6)) => !(v4 is Some && v6 is Some),
            None => true,
        },
{
}

// ---------------------------------------------------------------------------
// The three response shapes carry what the configuration says.
// ---------------------------------------------------------------------------

/// A query for the glue name, in any mix of letter cases, is answered
/// with no answer records, one NS record whose RDATA encodes the glue
/// name, and one additional A record carrying the glue address.
pub proof fn lemma_glue_query_response(q: Seq<u8>, c: Config)
    requires
        qname_bytes(q) is Some,
        valid_question(q),
        seq_eq_ignore_case(decode_utf8(qname_bytes(q).unwrap()), c.glue_name@),
    ensures
        spec_handle(q, c) == spec_glue_response(q, encode_utf8(c.glue_name@), c.glue_ip),
        spec_handle(q, c)[6] == 0 && spec_handle(q, c)[7] == 0,
        spec_handle(q, c)[8] == 0 && spec_handle(q, c)[9] == 1,
        spec_handle(q, c)[10] == 0 && spec_handle(q, c)[11] == 1,
        ({
            let nw = name_wire(encode_utf8(c.glue_name@));
            let qe = question_end(q);
            spec_handle(q, c).subrange(qe + 12, qe + 12 + nw.len() as int) == nw
                && spec_handle(q, c).subrange(
                spec_handle(q, c).len() - 4,
                spec_handle(q, c).len() as int,
            ) == c.glue_ip.wire_bytes()
        }),
{
    let r = spec_handle(q, c);
    let nw = name_wire(encode_utf8(c.glue_name@));
    let qe = question_end(q);
    let hdr = response_header(q, 0, 1, 1);
    assert(r == spec_glue_response(q, encode_utf8(c.glue_name@), c.glue_ip));
    assert(hdr.len() == 12);
    assert(hdr[6] == 0 && hdr[7] == 0 && hdr[8] == 0 && hdr[9] == 1 && hdr[10] == 0 && hdr[11]
        == 1);
    let z = crate::response::find_zero_from(q, 12).unwrap();
    crate::response::lemma_find_zero_some(q, 12, z);
    assert(q.subrange(12, qe).len() == qe - 12);
    assert(u16_be((nw.len() % 0x10000) as u16).len() == 2);
    assert(r.len() == qe + 12 + nw.len() + nw.len() + 10 + 4);
    assert(r.subrange(qe + 12, qe + 12 + nw.len() as int) =~= nw);
    assert(r.subrange(r.len() - 4, r.len() as int) =~= c.glue_ip.wire_bytes());
}

/// A query whose name embeds an address, and is not the glue name, is
/// answered with exactly one answer record per populated family, no
/// authority and no additional records, and the raw address bytes as the
/// final RDATA.
pub proof fn lemma_address_query_response(
    q: Seq<u8>,
    c: Config,
    v4: Option<Ipv4>,
    v6: Option<Ipv6>,
)
    requires
        qname_bytes(q) is Some,
        valid_question(q),
        !seq_eq_ignore_case(decode_utf8(qname_bytes(q).unwrap()), c.glue_name@),
        spec_interpret(decode_utf8(qname_bytes(q).unwrap())) == Some((v4, v6)),
    ensures
        spec_handle(q, c) == crate::response::spec_addr_response(q, v4, v6),
        spec_handle(q, c)[6] == 0 && spec_handle(q, c)[7] == crate::response::answer_count(v4, v6),
        spec_handle(q, c)[8] == 0 && spec_handle(q, c)[9] == 0,
        spec_handle(q, c)[10] == 0 && spec_handle(q, c)[11] == 0,
        v4 is Some && v6 is None ==> spec_handle(q, c).subrange(
            spec_handle(q, c).len() - 4,
            spec_handle(q, c).len() as int,
        ) == v4.unwrap().wire_bytes(),
        v6 is Some && v4 is None ==> spec_handle(q, c).subrange(
            spec_handle(q, c).len() - 16,
            spec_handle(q, c).len() as int,
        ) == v6.unwrap().wire_bytes(),
{
    let r = spec_handle(q, c);
    let an = crate::response::answer_count(v4, v6);
    let hdr = response_header(q, an, 0, 0);
    assert(hdr.len() == 12);
    assert(an < 256);
    assert(hdr[6] == 0 && hdr[7] == an && hdr[8] == 0 && hdr[9] == 0 && hdr[10] == 0 && hdr[11]
        == 0);
    let z = crate::response::find_zero_from(q, 12).unwrap();
    crate::response::lemma_find_zero_some(q, 12, z);
    let qe = question_end(q);
    assert(q.subrange(12, qe).len() == qe - 12);
    if v4 is Some && v6 is None {
        assert(r.len() == qe + 12 + 4);
        assert(r.subrange(r.len() - 4, r.len() as int) =~= v4.unwrap().wire_bytes());
    }
    if v6 is Some && v4 is None {
        assert(v6.unwrap().wire_bytes().len() == 16);
        assert(r.len() == qe + 12 + 16);
        assert(r.subrange(r.len() - 16, r.len() as int) =~= v6.unwrap().wire_bytes());
    }
}

/// A decodable query whose name is neither the glue name nor
/// address-bearing is answered with no answer records and one SOA
/// authority record whose names and five timers are the configured ones.
pub proof fn lemma_soa_fallback_response(q: Seq<u8>, c: Config)
    requires
        qname_bytes(q) is Some,
        valid_question(q),
        !seq_eq_ignore_case(decode_utf8(qname_bytes(q).unwrap()), c.glue_name@),
        spec_interpret(decode_utf8(qname_bytes(q).unwrap())) is None,
    ensures
        spec_handle(q, c) == spec_soa_response(
            q,
            encode_utf8(c.soa_name@),
            encode_utf8(c.hostmaster@),
            c.serial,
            c.refresh,
            c.retry,
            c.expire,
            c.minimum,
        ),
        spec_handle(q, c)[6] == 0 && spec_handle(q, c)[7] == 0,
        spec_handle(q, c)[8] == 0 && spec_handle(q, c)[9] == 1,
        spec_handle(q, c)[10] == 0 && spec_handle(q, c)[11] == 0,
        ({
            let rdata = spec_soa_rdata(
                encode_utf8(c.soa_name@),
                encode_utf8(c.hostmaster@),
                c.serial,
                c.refresh,
                c.retry,
                c.expire,
                c.minimum,
            );
            spec_handle(q, c).subrange(
                spec_handle(q, c).len() - rdata.len() as int,
                spec_handle(q, c).len() as int,
            ) == rdata
        }),
{
    let r = spec_handle(q, c);
    let rdata = spec_soa_rdata(
        encode_utf8(c.soa_name@),
        encode_utf8(c.hostmaster@),
        c.serial,
        c.refresh,
        c.retry,
        c.expire,
        c.minimum,
    );
    let hdr = response_header(q, 0, 1, 0);
    assert(hdr.len() == 12);
    assert(hdr[6] == 0 && hdr[7] == 0 && hdr[8] == 0 && hdr[9] == 1 && hdr[10] == 0 && hdr[11]
        == 0);
    let qe = question_end(q);
    let z = crate::response::find_zero_from(q, 12).unwrap();
    crate::response::lemma_find_zero_some(q, 12, z);
    assert(q.subrange(12, qe).len() == qe - 12);
    assert(u16_be((rdata.len() % 0x10000) as u16).len() == 2);
    assert(r.len() == qe + 12 + rdata.len());
    assert(r.subrange(r.len() - rdata.len() as int, r.len() as int) =~= rdata);
}

/// Encoding is a pure function of the query bytes and the decision: the
/// same inputs give byte-identical output.
pub proof fn lemma_encoding_deterministic(
    q: Seq<u8>,
    glue: Option<(Seq<u8>, Ipv4)>,
    ip: Option<(Option<Ipv4>, Option<Ipv6>)>,
    r1: Seq<u8>,
    r2: Seq<u8>,
)
    requires
        r1 == spec_build_response(q, glue, ip),
        r2 == spec_build_response(q, glue, ip),
    ensures
        r1 == r2,
{
}

/// A buffer shorter than the header, or one whose question count is not
/// exactly one, yields no response at all.
pub proof fn lemma_boundary_dropped(q: Seq<u8>, c: Config)
    requires
        q.len() < 12 || q[4] as int * 256 + q[5] as int != 1,
    ensures
        spec_handle(q, c) == Seq::<u8>::empty(),
{
}

} // verus!
