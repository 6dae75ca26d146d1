use vstd::prelude::*;

verus! {

/// An IPv4 address, kept as its four octets in network order.
#[derive(Clone, Copy, PartialEq, Eq, Debug)]
pub struct Ipv4 {
    pub octets: [u8; 4],
}

/// An IPv6 address, kept as its eight 16-bit groups in network order.
#[derive(Clone, Copy, PartialEq, Eq, Debug)]
pub struct Ipv6 {
    pub segments: [u16; 8],
}

impl Ipv4 {
    pub fn new(a: u8, b: u8, c: u8, d: u8) -> (r: Ipv4)
        ensures
            r == ipv4_from(a, b, c, d),
            r.octets@ == seq![a, b, c, d],
    {
        let r = Ipv4 { octets: [a, b, c, d] };
        proof {
            assert(r.octets@ =~= seq![a, b, c, d]);
        }
        r
    }

    /// The four address bytes as they appear in an A record's RDATA.
    pub open spec fn wire_bytes(self) -> Seq<u8> {
        self.octets@
    }
}

/// The two big-endian bytes of a 16-bit value.
pub open spec fn u16_be(x: u16) -> Seq<u8> {
    seq![(x / 256) as u8, (x % 256) as u8]
}

/// The four big-endian bytes of a 32-bit value.
pub open spec fn u32_be(x: u32) -> Seq<u8> {
    seq![
        (x / 0x1000000) as u8,
        ((x / 0x10000) % 256) as u8,
        ((x / 256) % 256) as u8,
        (x % 256) as u8,
    ]
}

impl Ipv6 {
    pub fn new(segments: [u16; 8]) -> (r: Ipv6)
        ensures
            r.segments == segments,
            r.segments@ == segments@,
    {
        Ipv6 { segments }
    }

    /// The sixteen address bytes as they appear in an AAAA record's RDATA:
    /// each group big-endian, groups in order.
    pub open spec fn wire_bytes(self) -> Seq<u8> {
        Seq::new(16, |i: int| {
            let g = self.segments@[i / 2];
            if i % 2 == 0 {
                (g / 256) as u8
            } else {
                (g % 256) as u8
            }
        })
    }
}

/// The IPv4 value with the given octets, for use in specifications.
pub open spec fn ipv4_from(a: u8, b: u8, c: u8, d: u8) -> Ipv4 {
    Ipv4 { octets: [a, b, c, d] }
}

/// The IPv6 value with the given eight groups, for use in specifications.
pub open spec fn ipv6_from_groups(g: Seq<u16>) -> Ipv6
    recommends
        g.len() == 8,
{
    Ipv6 { segments: [g[0], g[1], g[2], g[3], g[4], g[5], g[6], g[7]] }
}

} // verus!
