//! The addresses that A and AAAA records carry.

use crate::name::push_char;
use vstd::prelude::*;

verus! {

/// An IPv4 address: four bytes, the first as it is written first.
#[derive(Clone, Copy, Debug, PartialEq, Eq)]
pub struct Ipv4 {
    pub octets: [u8; 4],
}

/// An IPv6 address: eight groups of sixteen bits.
#[derive(Clone, Copy, Debug, PartialEq, Eq)]
pub struct Ipv6 {
    pub segments: [u16; 8],
}

impl View for Ipv4 {
    type V = Seq<u8>;

    open spec fn view(&self) -> Seq<u8> {
        self.octets@
    }
}

impl View for Ipv6 {
    type V = Seq<u16>;

    open spec fn view(&self) -> Seq<u16> {
        self.segments@
    }
}

/// The character of a decimal digit.
pub open spec fn digit(d: u8) -> char {
    (0x30 + d) as char
}

/// A byte in decimal, without leading zeros.
pub open spec fn decimal(n: u8) -> Seq<char> {
    if n >= 100 {
        seq![digit(n / 100), digit(n / 10 % 10), digit(n % 10)]
    } else if n >= 10 {
        seq![digit(n / 10), digit(n % 10)]
    } else {
        seq![digit(n)]
    }
}

/// An IPv4 address in text: its four bytes in decimal with dots between
/// them.
pub open spec fn dotted(octets: Seq<u8>) -> Seq<char> {
    decimal(octets[0]) + seq!['.'] + decimal(octets[1]) + seq!['.'] + decimal(octets[2]) + seq![
        '.',
    ] + decimal(octets[3])
}

/// Appends a decimal digit.
fn push_digit(out: &mut String, d: u8)
    requires
        d < 10,
    ensures
        final(out)@ == old(out)@.push(digit(d)),
{
    push_char(out, (0x30 + d) as char);
}

/// Appends a byte in decimal.
fn push_decimal(out: &mut String, n: u8)
    ensures
        final(out)@ == old(out)@ + decimal(n),
{
    if n >= 100 {
        push_digit(out, n / 100);
    }
    if n >= 10 {
        push_digit(out, n / 10 % 10);
    }
    push_digit(out, n % 10);
    assert(out@ =~= old(out)@ + decimal(n));
}

impl Ipv4 {
    /// The address `a.b.c.d`.
    pub fn new(a: u8, b: u8, c: u8, d: u8) -> (r: Ipv4)
        ensures
            r@ == seq![a, b, c, d],
    {
        let r = Ipv4 { octets: [a, b, c, d] };
        assert(r.octets@ =~= seq![a, b, c, d]);
        r
    }

    /// The address in text, as `198.41.0.4`.
    pub fn to_text(&self) -> (r: String)
        ensures
            r@ == dotted(self@),
    {
        let mut out = String::new();
        push_decimal(&mut out, self.octets[0]);
        push_char(&mut out, '.');
        push_decimal(&mut out, self.octets[1]);
        push_char(&mut out, '.');
        push_decimal(&mut out, self.octets[2]);
        push_char(&mut out, '.');
        push_decimal(&mut out, self.octets[3]);
        assert(out@ =~= dotted(self.octets@));
        out
    }
}

impl Ipv6 {
    /// The address of the eight groups.
    pub fn new(a: u16, b: u16, c: u16, d: u16, e: u16, f: u16, g: u16, h: u16) -> (r: Ipv6)
        ensures
            r@ == seq![a, b, c, d, e, f, g, h],
    {
        let r = Ipv6 { segments: [a, b, c, d, e, f, g, h] };
        assert(r.segments@ =~= seq![a, b, c, d, e, f, g, h]);
        r
    }
}

} // verus!
