use vstd::prelude::*;

use crate::addr::{ipv4_from, ipv6_from_groups, Ipv4, Ipv6};
use crate::text::{split_seq, split_vec, to_char_vec};

verus! {

// ---------------------------------------------------------------------------
// Character classes and numeric values.
// ---------------------------------------------------------------------------

pub open spec fn is_digit(c: char) -> bool {
    48 <= c as int <= 57
}

pub open spec fn digit_val(c: char) -> int {
    c as int - 48
}

pub open spec fn is_hex_digit(c: char) -> bool {
    is_digit(c) || 97 <= c as int <= 102 || 65 <= c as int <= 70
}

pub open spec fn hex_val(c: char) -> int {
    if is_digit(c) {
        digit_val(c)
    } else if 97 <= c as int <= 102 {
        c as int - 87
    } else {
        c as int - 55
    }
}

pub open spec fn all_digits(s: Seq<char>) -> bool {
    forall|i: int| 0 <= i < s.len() ==> is_digit(s[i])
}

pub open spec fn all_hex(s: Seq<char>) -> bool {
    forall|i: int| 0 <= i < s.len() ==> is_hex_digit(s[i])
}

/// The number the digit string stands for, most significant digit first.
pub open spec fn dec_val(s: Seq<char>) -> int
    decreases s.len(),
{
    if s.len() == 0 {
        0
    } else {
        dec_val(s.drop_last()) * 10 + digit_val(s.last())
    }
}

/// A decimal octet as the strict dotted-decimal parse accepts one:
/// one to three digits, no leading zero, value at most 255.
pub open spec fn is_strict_octet(s: Seq<char>) -> bool {
    1 <= s.len() <= 3 && all_digits(s) && (s.len() > 1 ==> s[0] != '0') && dec_val(s) <= 255
}

proof fn lemma_dec_val_small(s: Seq<char>)
    requires
        all_digits(s),
        s.len() <= 3,
    ensures
        0 <= dec_val(s) <= 999,
        s.len() <= 2 ==> dec_val(s) <= 99,
        s.len() <= 1 ==> dec_val(s) <= 9,
    decreases s.len(),
{
    if s.len() > 0 {
        assert(all_digits(s.drop_last()));
        lemma_dec_val_small(s.drop_last());
    }
}

fn digit_of(c: char) -> (r: Option<u8>)
    ensures
        r is Some <==> is_digit(c),
        r is Some ==> r.unwrap() as int == digit_val(c),
{
    let x = c as u32;
    if 48 <= x && x <= 57 {
        Some((x - 48) as u8)
    } else {
        None
    }
}

fn hex_digit_of(c: char) -> (r: Option<u8>)
    ensures
        r is Some <==> is_hex_digit(c),
        r is Some ==> r.unwrap() as int == hex_val(c),
{
    let x = c as u32;
    if 48 <= x && x <= 57 {
        Some((x - 48) as u8)
    } else if 97 <= x && x <= 102 {
        Some((x - 87) as u8)
    } else if 65 <= x && x <= 70 {
        Some((x - 55) as u8)
    } else {
        None
    }
}

/// Strict parse of one decimal octet.
fn parse_octet(s: &[char]) -> (r: Option<u8>)
    ensures
        r is Some <==> is_strict_octet(s@),
        r is Some ==> r.unwrap() as int == dec_val(s@),
{
    let n = s.len();
    if n < 1 || n > 3 {
        return None;
    }
    if n > 1 && *vstd::slice::slice_index_get(s, 0) == '0' {
        return None;
    }
    let mut v: u32 = 0;
    let mut i: usize = 0;
    while i < n
        invariant
            i <= n,
            n == s@.len(),
            1 <= n <= 3,
            all_digits(s@.subrange(0, i as int)),
            v as int == dec_val(s@.subrange(0, i as int)),
        decreases n - i,
    {
        let c = *vstd::slice::slice_index_get(s, i);
        let d = match digit_of(c) {
            Some(d) => d,
            None => {
                return None;
            },
        };
        proof {
            lemma_dec_val_small(s@.subrange(0, i as int));
        }
        v = v * 10 + d as u32;
        i = i + 1;
        proof {
            let p = s@.subrange(0, i as int);
            assert(p.drop_last() =~= s@.subrange(0, i - 1));
            assert(p.last() == s@[i - 1]);
        }
    }
    assert(s@.subrange(0, n as int) =~= s@);
    if v > 255 {
        None
    } else {
        Some(v as u8)
    }
}

// ---------------------------------------------------------------------------
// Strategy 1: a single label of exactly eight hexadecimal digits, read as
// four big-endian octet pairs.
// ---------------------------------------------------------------------------

pub open spec fn is_hex8(s: Seq<char>) -> bool {
    s.len() == 8 && all_hex(s)
}

pub open spec fn hex_pair_val(a: char, b: char) -> int {
    hex_val(a) * 16 + hex_val(b)
}

/// The address a valid eight-digit hexadecimal label stands for.
pub open spec fn hex8_ipv4(s: Seq<char>) -> Ipv4
    recommends
        is_hex8(s),
{
    ipv4_from(
        hex_pair_val(s[0], s[1]) as u8,
        hex_pair_val(s[2], s[3]) as u8,
        hex_pair_val(s[4], s[5]) as u8,
        hex_pair_val(s[6], s[7]) as u8,
    )
}

pub open spec fn spec_hex8(s: Seq<char>) -> Option<Ipv4> {
    if is_hex8(s) {
        Some(hex8_ipv4(s))
    } else {
        None
    }
}

fn hex8_of_chars(s: &[char]) -> (r: Option<Ipv4>)
    ensures
        r == spec_hex8(s@),
{
    if s.len() != 8 {
        return None;
    }
    let mut vals: Vec<u8> = Vec::new();
    let mut i: usize = 0;
    while i < 8
        invariant
            i <= 8,
            s@.len() == 8,
            vals@.len() == i,
            all_hex(s@.subrange(0, i as int)),
            forall|j: int| 0 <= j < i ==> vals@[j] as int == hex_val(s@[j]),
        decreases 8 - i,
    {
        let c = *vstd::slice::slice_index_get(s, i);
        let d = match hex_digit_of(c) {
            Some(d) => d,
            None => {
                return None;
            },
        };
        vals.push(d);
        i = i + 1;
    }
    assert(s@.subrange(0, 8) =~= s@);
    proof {
        assert forall|j: int| 0 <= j < 8 implies hex_val(s@[j]) <= 15 && vals@[j] <= 15 by {
            assert(is_hex_digit(s@[j]));
        }
    }
    let o0 = vals[0] * 16 + vals[1];
    let o1 = vals[2] * 16 + vals[3];
    let o2 = vals[4] * 16 + vals[5];
    let o3 = vals[6] * 16 + vals[7];
    Some(Ipv4::new(o0, o1, o2, o3))
}

/// Reads a label of exactly eight hexadecimal digits as an IPv4 address,
/// two digits per octet, most significant octet first.
pub fn parse_hexadecimal_ip(s: &str) -> (r: Result<Ipv4, ()>)
    ensures
        r is Ok <==> is_hex8(s@),
        r is Ok ==> r.unwrap() == hex8_ipv4(s@),
{
    let cs = to_char_vec(s);
    match hex8_of_chars(cs.as_slice()) {
        Some(ip) => Ok(ip),
        None => Err(()),
    }
}

// ---------------------------------------------------------------------------
// Strategy 2: four consecutive parts forming a strict dotted-decimal
// address; the leftmost window wins.
// ---------------------------------------------------------------------------

pub open spec fn window_ok(parts: Seq<Seq<char>>, i: int) -> bool {
    &&& 0 <= i
    &&& i + 4 <= parts.len()
    &&& is_strict_octet(parts[i])
    &&& is_strict_octet(parts[i + 1])
    &&& is_strict_octet(parts[i + 2])
    &&& is_strict_octet(parts[i + 3])
}

pub open spec fn window_ipv4(parts: Seq<Seq<char>>, i: int) -> Ipv4
    recommends
        window_ok(parts, i),
{
    ipv4_from(
        dec_val(parts[i]) as u8,
        dec_val(parts[i + 1]) as u8,
        dec_val(parts[i + 2]) as u8,
        dec_val(parts[i + 3]) as u8,
    )
}

/// The leftmost window of four octet parts at or after `i`, if any.
pub open spec fn find_dotted(parts: Seq<Seq<char>>, i: int) -> Option<Ipv4>
    decreases parts.len() - i,
{
    if i < 0 || i + 4 > parts.len() {
        None
    } else if window_ok(parts, i) {
        Some(window_ipv4(parts, i))
    } else {
        find_dotted(parts, i + 1)
    }
}

/// The leftmost part at or after `i` of eight hexadecimal digits, if any.
pub open spec fn find_hex8(parts: Seq<Seq<char>>, i: int) -> Option<Ipv4>
    decreases parts.len() - i,
{
    if i < 0 || i >= parts.len() {
        None
    } else if is_hex8(parts[i]) {
        Some(hex8_ipv4(parts[i]))
    } else {
        find_hex8(parts, i + 1)
    }
}

fn window_at(parts: &Vec<Vec<char>>, i: usize) -> (r: Option<Ipv4>)
    requires
        i + 4 <= parts@.len(),
    ensures
        r is Some <==> window_ok(parts.deep_view(), i as int),
        r is Some ==> r.unwrap() == window_ipv4(parts.deep_view(), i as int),
{
    let n = parts.len();
    proof {
        assert(parts.deep_view()[i as int] == parts@[i as int]@);
        assert(parts.deep_view()[i + 1] == parts@[i + 1]@);
        assert(parts.deep_view()[i + 2] == parts@[i + 2]@);
        assert(parts.deep_view()[i + 3] == parts@[i + 3]@);
        assert(i + 4 <= n);
    }
    let a = match parse_octet(parts[i].as_slice()) {
        Some(v) => v,
        None => {
            return None;
        },
    };
    let b = match parse_octet(parts[i + 1].as_slice()) {
        Some(v) => v,
        None => {
            return None;
        },
    };
    let c = match parse_octet(parts[i + 2].as_slice()) {
        Some(v) => v,
        None => {
            return None;
        },
    };
    let d = match parse_octet(parts[i + 3].as_slice()) {
        Some(v) => v,
        None => {
            return None;
        },
    };
    Some(Ipv4::new(a, b, c, d))
}

fn find_dotted_exec(parts: &Vec<Vec<char>>) -> (r: Option<Ipv4>)
    ensures
        r == find_dotted(parts.deep_view(), 0),
{
    let n = parts.len();
    if n < 4 {
        return None;
    }
    let mut i: usize = 0;
    while i <= n - 4
        invariant
            4 <= n,
            i <= n - 3,
            n == parts@.len(),
            n == parts.deep_view().len(),
            find_dotted(parts.deep_view(), 0) == find_dotted(parts.deep_view(), i as int),
        decreases n - i,
    {
        if let Some(ip) = window_at(parts, i) {
            return Some(ip);
        }
        i = i + 1;
    }
    None
}

fn find_hex8_exec(parts: &Vec<Vec<char>>) -> (r: Option<Ipv4>)
    ensures
        r == find_hex8(parts.deep_view(), 0),
{
    let n = parts.len();
    let mut i: usize = 0;
    while i < n
        invariant
            i <= n,
            n == parts@.len(),
            n == parts.deep_view().len(),
            find_hex8(parts.deep_view(), 0) == find_hex8(parts.deep_view(), i as int),
        decreases n - i,
    {
        proof {
            assert(parts.deep_view()[i as int] == parts@[i as int]@);
        }
        if let Some(ip) = hex8_of_chars(parts[i].as_slice()) {
            return Some(ip);
        }
        i = i + 1;
    }
    None
}

// ---------------------------------------------------------------------------
// Strategy 4: a single label of hyphen-separated decimal octets, with an
// eight-hex-digit fallback among the hyphen fields.
// ---------------------------------------------------------------------------

/// What a single label yields under the hyphenated-IPv4 reading: split on
/// `-`; the leftmost window of four octet fields wins; failing that, the
/// leftmost eight-hex-digit field.
pub open spec fn spec_hyph_v4(part: Seq<char>) -> Option<Ipv4> {
    let fields = split_seq(part, '-');
    match find_dotted(fields, 0) {
        Some(ip) => Some(ip),
        None => find_hex8(fields, 0),
    }
}

/// The leftmost part at or after `i` with a hyphenated-IPv4 reading.
pub open spec fn find_hyph_v4(parts: Seq<Seq<char>>, i: int) -> Option<Ipv4>
    decreases parts.len() - i,
{
    if i < 0 || i >= parts.len() {
        None
    } else if spec_hyph_v4(parts[i]) is Some {
        spec_hyph_v4(parts[i])
    } else {
        find_hyph_v4(parts, i + 1)
    }
}

fn hyph_v4_of_chars(s: &[char]) -> (r: Option<Ipv4>)
    ensures
        r == spec_hyph_v4(s@),
{
    let fields = split_vec(s, '-');
    match find_dotted_exec(&fields) {
        Some(ip) => Some(ip),
        None => find_hex8_exec(&fields),
    }
}

/// Reads a label of hyphen-separated decimal octets as an IPv4 address:
/// the leftmost run of four octet fields, or failing that the leftmost
/// eight-hex-digit field.
pub fn parse_hyphenated_ip(s: &str) -> (r: Option<Ipv4>)
    ensures
        r == spec_hyph_v4(s@),
{
    let cs = to_char_vec(s);
    hyph_v4_of_chars(cs.as_slice())
}

// ---------------------------------------------------------------------------
// Strategy 3: a single label read as an IPv6 literal once every hyphen
// is taken for a colon, so that `--` stands for `::`.
// ---------------------------------------------------------------------------

/// Every hyphen replaced by a colon.
pub open spec fn map_hyphens(s: Seq<char>) -> Seq<char> {
    s.map_values(|c: char| if c == '-' { ':' } else { c })
}

/// A group of an IPv6 literal: one to four hexadecimal digits.
pub open spec fn is_hex_group(s: Seq<char>) -> bool {
    1 <= s.len() <= 4 && all_hex(s)
}

/// The value of a group, most significant digit first.
pub open spec fn hex_group_val(s: Seq<char>) -> int
    decreases s.len(),
{
    if s.len() == 0 {
        0
    } else {
        hex_group_val(s.drop_last()) * 16 + hex_val(s.last())
    }
}

proof fn lemma_hex_group_small(s: Seq<char>)
    requires
        all_hex(s),
        s.len() <= 4,
    ensures
        0 <= hex_group_val(s) <= 0xffff,
        s.len() <= 3 ==> hex_group_val(s) <= 0xfff,
        s.len() <= 2 ==> hex_group_val(s) <= 0xff,
        s.len() <= 1 ==> hex_group_val(s) <= 0xf,
    decreases s.len(),
{
    if s.len() > 0 {
        assert(all_hex(s.drop_last()));
        lemma_hex_group_small(s.drop_last());
        assert(is_hex_digit(s.last()));
    }
}

pub open spec fn groups_valid(parts: Seq<Seq<char>>) -> bool {
    forall|i: int| 0 <= i < parts.len() ==> is_hex_group(parts[i])
}

pub open spec fn group_vals(parts: Seq<Seq<char>>) -> Seq<u16> {
    parts.map_values(|p: Seq<char>| hex_group_val(p) as u16)
}

/// The groups on one side of a `::`: none at all for the empty side, else
/// every colon-separated piece must be a valid group.
pub open spec fn side_groups(x: Seq<char>) -> Option<Seq<u16>> {
    if x.len() == 0 {
        Some(Seq::<u16>::empty())
    } else {
        let ps = split_seq(x, ':');
        if groups_valid(ps) {
            Some(group_vals(ps))
        } else {
            None
        }
    }
}

/// The position of the leftmost `::` at or after `i`, if any.
pub open spec fn find_dcolon(t: Seq<char>, i: int) -> Option<int>
    decreases t.len() - i,
{
    if i < 0 || i + 1 >= t.len() {
        None
    } else if t[i] == ':' && t[i + 1] == ':' {
        Some(i)
    } else {
        find_dcolon(t, i + 1)
    }
}

/// The eight groups of an address whose `::` stood for the zero groups
/// between head and tail.
pub open spec fn fill_groups(h: Seq<u16>, t: Seq<u16>) -> Seq<u16>
    recommends
        h.len() + t.len() <= 8,
{
    Seq::new(8, |i: int| {
        if i < h.len() {
            h[i]
        } else if i < 8 - t.len() {
            0u16
        } else {
            t[i - (8 - t.len())]
        }
    })
}

/// An IPv6 literal in colon form: either eight groups, or one `::` with
/// at most seven groups around it standing for the missing zero groups.
pub open spec fn spec_ipv6_text(t: Seq<char>) -> Option<Ipv6> {
    match find_dcolon(t, 0) {
        Some(p) => {
            let h = side_groups(t.subrange(0, p));
            let tl = side_groups(t.subrange(p + 2, t.len() as int));
            if h is Some && tl is Some && h.unwrap().len() + tl.unwrap().len() <= 7 {
                Some(ipv6_from_groups(fill_groups(h.unwrap(), tl.unwrap())))
            } else {
                None
            }
        },
        None => {
            let ps = split_seq(t, ':');
            if ps.len() == 8 && groups_valid(ps) {
                Some(ipv6_from_groups(group_vals(ps)))
            } else {
                None
            }
        },
    }
}

/// What a single label yields under the hyphenated-IPv6 reading.
pub open spec fn spec_hyph_v6(s: Seq<char>) -> Option<Ipv6> {
    spec_ipv6_text(map_hyphens(s))
}

/// The leftmost part at or after `i` with a hyphenated-IPv6 reading.
pub open spec fn find_hyph_v6(parts: Seq<Seq<char>>, i: int) -> Option<Ipv6>
    decreases parts.len() - i,
{
    if i < 0 || i >= parts.len() {
        None
    } else if spec_hyph_v6(parts[i]) is Some {
        spec_hyph_v6(parts[i])
    } else {
        find_hyph_v6(parts, i + 1)
    }
}

/// Parse of one group.
fn parse_group(s: &[char]) -> (r: Option<u16>)
    ensures
        r is Some <==> is_hex_group(s@),
        r is Some ==> r.unwrap() as int == hex_group_val(s@),
{
    let n = s.len();
    if n < 1 || n > 4 {
        return None;
    }
    let mut v: u32 = 0;
    let mut i: usize = 0;
    while i < n
        invariant
            i <= n,
            n == s@.len(),
            1 <= n <= 4,
            all_hex(s@.subrange(0, i as int)),
            v as int == hex_group_val(s@.subrange(0, i as int)),
        decreases n - i,
    {
        let c = *vstd::slice::slice_index_get(s, i);
        let d = match hex_digit_of(c) {
            Some(d) => d,
            None => {
                return None;
            },
        };
        proof {
            lemma_hex_group_small(s@.subrange(0, i as int));
        }
        v = v * 16 + d as u32;
        i = i + 1;
        proof {
            let p = s@.subrange(0, i as int);
            assert(p.drop_last() =~= s@.subrange(0, i - 1));
            assert(p.last() == s@[i - 1]);
        }
    }
    assert(s@.subrange(0, n as int) =~= s@);
    proof {
        lemma_hex_group_small(s@);
    }
    Some(v as u16)
}

fn side_groups_exec(t: &[char]) -> (r: Option<Vec<u16>>)
    ensures
        r is Some <==> side_groups(t@) is Some,
        r is Some ==> r.unwrap()@ == side_groups(t@).unwrap(),
{
    if t.len() == 0 {
        let empty: Vec<u16> = Vec::new();
        assert(empty@ =~= Seq::<u16>::empty());
        return Some(empty);
    }
    let ps = split_vec(t, ':');
    let ghost psv = ps.deep_view();
    let n = ps.len();
    let mut vals: Vec<u16> = Vec::new();
    let mut i: usize = 0;
    while i < n
        invariant
            i <= n,
            t@.len() != 0,
            n == ps@.len(),
            psv == ps.deep_view(),
            psv =~~= split_seq(t@, ':'),
            vals@.len() == i,
            forall|j: int| 0 <= j < i ==> is_hex_group(psv[j]),
            forall|j: int| 0 <= j < i ==> vals@[j] as int == hex_group_val(psv[j]),
        decreases n - i,
    {
        proof {
            assert(ps.deep_view()[i as int] == ps@[i as int]@);
        }
        let v = match parse_group(ps[i].as_slice()) {
            Some(v) => v,
            None => {
                assert(!groups_valid(split_seq(t@, ':')));
                return None;
            },
        };
        vals.push(v);
        i = i + 1;
    }
    proof {
        assert(groups_valid(split_seq(t@, ':')));
        assert(vals@ =~= group_vals(split_seq(t@, ':')));
    }
    Some(vals)
}

fn find_dcolon_exec(t: &[char]) -> (r: Option<usize>)
    ensures
        r is Some <==> find_dcolon(t@, 0) is Some,
        r is Some ==> r.unwrap() as int == find_dcolon(t@, 0).unwrap(),
{
    let n = t.len();
    if n < 2 {
        return None;
    }
    let mut i: usize = 0;
    while i < n - 1
        invariant
            i <= n,
            2 <= n,
            n == t@.len(),
            find_dcolon(t@, 0) == find_dcolon(t@, i as int),
        decreases n - i,
    {
        if *vstd::slice::slice_index_get(t, i) == ':' && *vstd::slice::slice_index_get(t, i + 1)
            == ':' {
            return Some(i);
        }
        i = i + 1;
    }
    None
}

pub proof fn lemma_find_dcolon_some(t: Seq<char>, i: int, p: int)
    requires
        find_dcolon(t, i) == Some(p),
    ensures
        i <= p,
        p + 1 < t.len(),
        t[p] == ':',
        t[p + 1] == ':',
    decreases t.len() - i,
{
    if !(i < 0 || i + 1 >= t.len()) && !(t[i] == ':' && t[i + 1] == ':') {
        lemma_find_dcolon_some(t, i + 1, p);
    }
}

fn seg_at(h: &Vec<u16>, t: &Vec<u16>, i: usize) -> (r: u16)
    requires
        h@.len() + t@.len() <= 7,
        i < 8,
    ensures
        r == fill_groups(h@, t@)[i as int],
{
    if i < h.len() {
        h[i]
    } else if i < 8 - t.len() {
        0
    } else {
        t[i - (8 - t.len())]
    }
}

fn ipv6_of_text(t: &[char]) -> (r: Option<Ipv6>)
    ensures
        r == spec_ipv6_text(t@),
{
    match find_dcolon_exec(t) {
        Some(p) => {
            let n = t.len();
            proof {
                lemma_find_dcolon_some(t@, 0, p as int);
            }
            assert(p + 1 < n);
            let head = vstd::slice::slice_subrange(t, 0, p);
            let tail = vstd::slice::slice_subrange(t, p + 2, n);
            let h = match side_groups_exec(head) {
                Some(h) => h,
                None => {
                    return None;
                },
            };
            let tl = match side_groups_exec(tail) {
                Some(tl) => tl,
                None => {
                    return None;
                },
            };
            if h.len() > 7 || tl.len() > 7 - h.len() {
                return None;
            }
            let s0 = seg_at(&h, &tl, 0);
            let s1 = seg_at(&h, &tl, 1);
            let s2 = seg_at(&h, &tl, 2);
            let s3 = seg_at(&h, &tl, 3);
            let s4 = seg_at(&h, &tl, 4);
            let s5 = seg_at(&h, &tl, 5);
            let s6 = seg_at(&h, &tl, 6);
            let s7 = seg_at(&h, &tl, 7);
            let ip = Ipv6::new([s0, s1, s2, s3, s4, s5, s6, s7]);
            proof {
                let g = fill_groups(h@, tl@);
                assert(ip.segments@ =~= ipv6_from_groups(g).segments@);
                assert(ip.segments =~= ipv6_from_groups(g).segments);
                assert(ip == ipv6_from_groups(g));
            }
            Some(ip)
        },
        None => {
            let ps = split_vec(t, ':');
            if ps.len() != 8 {
                proof {
                    crate::text::lemma_split_nonempty(t@, ':');
                }
                return None;
            }
            let mut vals: Vec<u16> = Vec::new();
            let ghost psv = ps.deep_view();
            let mut i: usize = 0;
            while i < 8
                invariant
                    i <= 8,
                    ps@.len() == 8,
                    psv.len() == 8,
                    find_dcolon(t@, 0) is None,
                    psv == ps.deep_view(),
                    psv =~~= split_seq(t@, ':'),
                    vals@.len() == i,
                    forall|j: int| 0 <= j < i ==> is_hex_group(psv[j]),
                    forall|j: int| 0 <= j < i ==> vals@[j] as int == hex_group_val(psv[j]),
                decreases 8 - i,
            {
                proof {
                    assert(ps.deep_view()[i as int] == ps@[i as int]@);
                }
                let v = match parse_group(ps[i].as_slice()) {
                    Some(v) => v,
                    None => {
                        assert(!groups_valid(split_seq(t@, ':')));
                        return None;
                    },
                };
                vals.push(v);
                i = i + 1;
            }
            proof {
                assert(groups_valid(split_seq(t@, ':')));
                assert(vals@ =~= group_vals(split_seq(t@, ':')));
            }
            let ip = Ipv6::new([vals[0], vals[1], vals[2], vals[3], vals[4], vals[5], vals[6], vals[7]]);
            proof {
                let g = group_vals(split_seq(t@, ':'));
                assert(ip.segments@ =~= ipv6_from_groups(g).segments@);
                assert(ip.segments =~= ipv6_from_groups(g).segments);
                assert(ip == ipv6_from_groups(g));
            }
            Some(ip)
        },
    }
}

fn map_hyphens_exec(s: &[char]) -> (r: Vec<char>)
    ensures
        r@ == map_hyphens(s@),
{
    let n = s.len();
    let mut r: Vec<char> = Vec::new();
    let mut i: usize = 0;
    while i < n
        invariant
            i <= n,
            n == s@.len(),
            r@.len() == i,
            forall|j: int| 0 <= j < i ==> r@[j] == map_hyphens(s@)[j],
        decreases n - i,
    {
        let c = *vstd::slice::slice_index_get(s, i);
        if c == '-' {
            r.push(':');
        } else {
            r.push(c);
        }
        i = i + 1;
    }
    assert(r@ =~= map_hyphens(s@));
    r
}

fn hyph_v6_of_chars(s: &[char]) -> (r: Option<Ipv6>)
    ensures
        r == spec_hyph_v6(s@),
{
    let t = map_hyphens_exec(s);
    ipv6_of_text(t.as_slice())
}

/// Reads a label as an IPv6 literal written with hyphens for colons, so
/// that `--` collapses runs of zero groups as `::` does.
pub fn parse_hyphenated_ipv6(s: &str) -> (r: Option<Ipv6>)
    ensures
        r == spec_hyph_v6(s@),
{
    let cs = to_char_vec(s);
    hyph_v6_of_chars(cs.as_slice())
}

// ---------------------------------------------------------------------------
// The interpreter: the four strategies in their fixed order of precedence.
// ---------------------------------------------------------------------------

/// What a whole domain name yields: its dot-separated parts are tried
/// against the four strategies in order — an eight-hex-digit part, a
/// dotted-decimal window, a hyphenated IPv6 part, a hyphenated IPv4
/// part — and the first strategy with a match decides.
pub open spec fn spec_interpret(name: Seq<char>) -> Option<(Option<Ipv4>, Option<Ipv6>)> {
    let parts = split_seq(name, '.');
    if find_hex8(parts, 0) is Some {
        Some((find_hex8(parts, 0), None))
    } else if find_dotted(parts, 0) is Some {
        Some((find_dotted(parts, 0), None))
    } else if find_hyph_v6(parts, 0) is Some {
        Some((None, find_hyph_v6(parts, 0)))
    } else if find_hyph_v4(parts, 0) is Some {
        Some((find_hyph_v4(parts, 0), None))
    } else {
        None
    }
}

fn find_hyph_v6_exec(parts: &Vec<Vec<char>>) -> (r: Option<Ipv6>)
    ensures
        r == find_hyph_v6(parts.deep_view(), 0),
{
    let n = parts.len();
    let mut i: usize = 0;
    while i < n
        invariant
            i <= n,
            n == parts@.len(),
            n == parts.deep_view().len(),
            find_hyph_v6(parts.deep_view(), 0) == find_hyph_v6(parts.deep_view(), i as int),
        decreases n - i,
    {
        proof {
            assert(parts.deep_view()[i as int] == parts@[i as int]@);
        }
        if let Some(ip) = hyph_v6_of_chars(parts[i].as_slice()) {
            return Some(ip);
        }
        i = i + 1;
    }
    None
}

fn find_hyph_v4_exec(parts: &Vec<Vec<char>>) -> (r: Option<Ipv4>)
    ensures
        r == find_hyph_v4(parts.deep_view(), 0),
{
    let n = parts.len();
    let mut i: usize = 0;
    while i < n
        invariant
            i <= n,
            n == parts@.len(),
            n == parts.deep_view().len(),
            find_hyph_v4(parts.deep_view(), 0) == find_hyph_v4(parts.deep_view(), i as int),
        decreases n - i,
    {
        proof {
            assert(parts.deep_view()[i as int] == parts@[i as int]@);
        }
        if let Some(ip) = hyph_v4_of_chars(parts[i].as_slice()) {
            return Some(ip);
        }
        i = i + 1;
    }
    None
}

/// Extracts the address a domain name embeds, if any: at most one of the
/// two address families is populated.
pub fn interpret_ip(domain: &str) -> (r: Option<(Option<Ipv4>, Option<Ipv6>)>)
    ensures
        r == spec_interpret(domain@),
{
    let cs = to_char_vec(domain);
    let parts = split_vec(cs.as_slice(), '.');
    if let Some(ip) = find_hex8_exec(&parts) {
        return Some((Some(ip), None));
    }
    if let Some(ip) = find_dotted_exec(&parts) {
        return Some((Some(ip), None));
    }
    if let Some(ip) = find_hyph_v6_exec(&parts) {
        return Some((None, Some(ip)));
    }
    if let Some(ip) = find_hyph_v4_exec(&parts) {
        return Some((Some(ip), None));
    }
    None
}

} // verus!
