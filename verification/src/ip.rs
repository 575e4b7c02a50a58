//! IPv4 addresses in dotted notation and IPv4 networks in CIDR notation.
//!
//! Addresses are read and written here. Networks are read, written and
//! tested for membership by the `ipnetwork` crate.

use crate::decimal::{
    decimal, is_digit, lemma_decimal_shape, lemma_octet_of_decimal, octet_of, parse_octet,
    push_decimal,
};
use crate::text::{
    all_free_of, join, lemma_join_four, lemma_split_join, split, split_text, texts,
};
use vstd::prelude::*;

verus! {

/// An IPv4 address, by its four octets from left to right.
#[derive(Clone, Copy, Debug, PartialEq, Eq, Structural)]
pub struct Ipv4Addr {
    pub a: u8,
    pub b: u8,
    pub c: u8,
    pub d: u8,
}

/// What `s` reads as an address: four octets with dots between them.
pub open spec fn ipv4_of(s: Seq<char>) -> Option<Ipv4Addr> {
    let parts = split(s, '.');
    if parts.len() == 4 && octet_of(parts[0]) is Some && octet_of(parts[1]) is Some && octet_of(
        parts[2],
    ) is Some && octet_of(parts[3]) is Some {
        Some(
            Ipv4Addr {
                a: octet_of(parts[0])->0,
                b: octet_of(parts[1])->0,
                c: octet_of(parts[2])->0,
                d: octet_of(parts[3])->0,
            },
        )
    } else {
        None
    }
}

/// The dotted notation of `ip`.
pub open spec fn ipv4_text(ip: Ipv4Addr) -> Seq<char> {
    join(
        seq![
            decimal(ip.a as nat),
            decimal(ip.b as nat),
            decimal(ip.c as nat),
            decimal(ip.d as nat),
        ],
        '.',
    )
}

/// The address as one number, the first octet most significant.
pub open spec fn ipv4_bits(ip: Ipv4Addr) -> u32 {
    (ip.a * 0x100_0000 + ip.b * 0x1_0000 + ip.c * 0x100 + ip.d) as u32
}

/// The dotted notation holds digits and dots only, and is at least seven
/// characters long.
pub proof fn lemma_ipv4_text_shape(ip: Ipv4Addr)
    ensures
        ipv4_text(ip).len() >= 7,
        forall|i: int|
            0 <= i < ipv4_text(ip).len() ==> is_digit(#[trigger] ipv4_text(ip)[i]) || ipv4_text(
                ip,
            )[i] == '.',
        is_digit(ipv4_text(ip)[0]),
{
    let a = decimal(ip.a as nat);
    let b = decimal(ip.b as nat);
    let c = decimal(ip.c as nat);
    let d = decimal(ip.d as nat);
    lemma_decimal_shape(ip.a as nat);
    lemma_decimal_shape(ip.b as nat);
    lemma_decimal_shape(ip.c as nat);
    lemma_decimal_shape(ip.d as nat);
    lemma_join_four(a, b, c, d, '.');
    assert(is_digit(a[0]));
}

/// The dotted notation of an address reads as that address.
pub proof fn lemma_ipv4_of_text(ip: Ipv4Addr)
    ensures
        ipv4_of(ipv4_text(ip)) == Some(ip),
{
    let parts = seq![
        decimal(ip.a as nat),
        decimal(ip.b as nat),
        decimal(ip.c as nat),
        decimal(ip.d as nat),
    ];
    lemma_decimal_shape(ip.a as nat);
    lemma_decimal_shape(ip.b as nat);
    lemma_decimal_shape(ip.c as nat);
    lemma_decimal_shape(ip.d as nat);
    assert(all_free_of(parts, '.')) by {
        assert forall|i: int| 0 <= i < parts.len() implies !(#[trigger] parts[i]).contains(
            '.',
        ) by {
            assert forall|j: int| 0 <= j < parts[i].len() implies parts[i][j] != '.' by {
                assert(is_digit(parts[i][j]));
            }
        }
    }
    lemma_split_join(parts, '.');
    lemma_octet_of_decimal(ip.a);
    lemma_octet_of_decimal(ip.b);
    lemma_octet_of_decimal(ip.c);
    lemma_octet_of_decimal(ip.d);
}

impl Ipv4Addr {
    /// The address `a.b.c.d`.
    pub fn new(a: u8, b: u8, c: u8, d: u8) -> (ip: Self)
        ensures
            ip == (Ipv4Addr { a, b, c, d }),
    {
        Ipv4Addr { a, b, c, d }
    }

    /// Reads an address in dotted notation.
    pub fn parse(s: &str) -> (r: Option<Self>)
        ensures
            r == ipv4_of(s@),
    {
        let parts = split_text(s, '.');
        if parts.len() != 4 {
            return None;
        }
        assert(texts(parts@)[0] == parts@[0]@);
        assert(texts(parts@)[1] == parts@[1]@);
        assert(texts(parts@)[2] == parts@[2]@);
        assert(texts(parts@)[3] == parts@[3]@);
        let a = parse_octet(parts[0].as_str());
        let b = parse_octet(parts[1].as_str());
        let c = parse_octet(parts[2].as_str());
        let d = parse_octet(parts[3].as_str());
        match (a, b, c, d) {
            (Some(a), Some(b), Some(c), Some(d)) => Some(Ipv4Addr { a, b, c, d }),
            _ => None,
        }
    }

    /// The address in dotted notation.
    pub fn to_string(&self) -> (s: String)
        ensures
            s@ == ipv4_text(*self),
    {
        let mut s = String::new();
        push_decimal(&mut s, self.a as u16);
        s.push('.');
        push_decimal(&mut s, self.b as u16);
        s.push('.');
        push_decimal(&mut s, self.c as u16);
        s.push('.');
        push_decimal(&mut s, self.d as u16);
        proof {
            let a = decimal(self.a as nat);
            let b = decimal(self.b as nat);
            let c = decimal(self.c as nat);
            let d = decimal(self.d as nat);
            lemma_join_four(a, b, c, d, '.');
            assert(s@ == ipv4_text(*self));
        }
        s
    }
}

/// What the `ipnetwork` crate reads `s` as: the address and the prefix
/// length of a network, or nothing where it rejects `s`.
pub uninterp spec fn cidr_of(s: Seq<char>) -> Option<(Ipv4Addr, u8)>;

/// The mask of a network: its `prefix` most significant bits are set.
pub open spec fn prefix_mask(prefix: u8) -> u32 {
    (!(0xffff_ffffu64 >> (prefix as u64))) as u32
}

/// Whether `ip` lies in the network of `addr` with a prefix of `prefix`
/// bits: under the network's mask the two addresses are the same number.
pub open spec fn in_network(addr: Ipv4Addr, prefix: u8, ip: Ipv4Addr) -> bool {
    (ipv4_bits(ip) & prefix_mask(prefix)) == (ipv4_bits(addr) & prefix_mask(prefix))
}

/// The CIDR notation of the network with address `addr` and prefix length
/// `prefix`: the address in dotted notation, a slash and the length in
/// decimal.
pub open spec fn cidr_text(addr: Ipv4Addr, prefix: u8) -> Seq<char> {
    ipv4_text(addr) + seq!['/'] + decimal(prefix as nat)
}

/// `<ipnetwork::Ipv4Network as FromStr>::from_str`, which reads a network in
/// CIDR notation. Its result is a function of the text alone, and a network
/// that it accepts has a prefix of at most 32 bits.
#[verifier::external_body]
fn network_from_str(s: &str) -> (r: Option<(Ipv4Addr, u8)>)
    ensures
        r == cidr_of(s@),
        r matches Some(n) ==> n.1 <= 32,
{
    match s.parse::<ipnetwork::Ipv4Network>() {
        Ok(n) => {
            let o = n.ip().octets();
            Some((Ipv4Addr { a: o[0], b: o[1], c: o[2], d: o[3] }, n.prefix()))
        },
        Err(_) => None,
    }
}

/// `ipnetwork::Ipv4Network::contains`, which compares the address and the
/// network's own address, each as one number, under the network's mask.
#[verifier::external_body]
fn network_contains(addr: Ipv4Addr, prefix: u8, ip: Ipv4Addr) -> (r: bool)
    requires
        prefix <= 32,
    ensures
        r == in_network(addr, prefix, ip),
{
    match ipnetwork::Ipv4Network::new([addr.a, addr.b, addr.c, addr.d].into(), prefix) {
        Ok(n) => n.contains([ip.a, ip.b, ip.c, ip.d].into()),
        Err(_) => false,
    }
}

/// `ipnetwork::Ipv4Network`'s `to_string`, which writes the address in
/// dotted notation, a slash and the prefix length in decimal.
#[verifier::external_body]
fn network_to_string(addr: Ipv4Addr, prefix: u8) -> (s: String)
    requires
        prefix <= 32,
    ensures
        s@ == cidr_text(addr, prefix),
{
    match ipnetwork::Ipv4Network::new([addr.a, addr.b, addr.c, addr.d].into(), prefix) {
        Ok(n) => n.to_string(),
        Err(_) => String::new(),
    }
}

/// An IPv4 network: an address and the length of the prefix, at most 32,
/// that the addresses of the network share with it.
#[derive(Clone, Copy, Debug, PartialEq, Eq)]
pub struct Ipv4Network {
    addr: Ipv4Addr,
    prefix: u8,
}

impl Ipv4Network {
    #[verifier::type_invariant]
    spec fn prefix_in_range(self) -> bool {
        self.prefix <= 32
    }

    /// The address that the network was given with.
    pub closed spec fn addr(self) -> Ipv4Addr {
        self.addr
    }

    /// The length of the network's prefix.
    pub closed spec fn prefix_len(self) -> u8 {
        self.prefix
    }

    /// The network of `addr` with a prefix of `prefix` bits, if that is at
    /// most 32.
    pub fn new(addr: Ipv4Addr, prefix: u8) -> (r: Option<Self>)
        ensures
            r is Some <==> prefix <= 32,
            r matches Some(n) ==> n.addr() == addr && n.prefix_len() == prefix,
    {
        if prefix <= 32 {
            Some(Ipv4Network { addr, prefix })
        } else {
            None
        }
    }

    /// The address that the network was given with.
    pub fn ip(&self) -> (ip: Ipv4Addr)
        ensures
            ip == self.addr(),
    {
        self.addr
    }

    /// The length of the network's prefix.
    pub fn prefix(&self) -> (p: u8)
        ensures
            p == self.prefix_len(),
            p <= 32,
    {
        proof {
            use_type_invariant(self);
        }
        self.prefix
    }

    /// Reads a network in CIDR notation.
    pub fn parse(s: &str) -> (r: Option<Self>)
        ensures
            r is Some <==> cidr_of(s@) is Some,
            r matches Some(n) ==> cidr_of(s@) == Some((n.addr(), n.prefix_len())),
    {
        match network_from_str(s) {
            Some(n) => Some(Ipv4Network { addr: n.0, prefix: n.1 }),
            None => None,
        }
    }

    /// Whether `ip` lies in the network.
    pub fn contains(&self, ip: Ipv4Addr) -> (r: bool)
        ensures
            r == in_network(self.addr(), self.prefix_len(), ip),
    {
        proof {
            use_type_invariant(self);
        }
        network_contains(self.addr, self.prefix, ip)
    }

    /// The network in CIDR notation.
    pub fn to_string(&self) -> (s: String)
        ensures
            s@ == cidr_text(self.addr(), self.prefix_len()),
    {
        proof {
            use_type_invariant(self);
        }
        network_to_string(self.addr, self.prefix)
    }
}

} // verus!
