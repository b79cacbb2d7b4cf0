//! Values that an input can hold: parsed from a line of text, totally
//! ordered, compared for equality.

use crate::ip::{addr_parse, net_parse, parse_addr, parse_net, IpAddr, IpNet};
use vstd::prelude::*;

verus! {

/// A value read from one line of text, with a total order.
pub trait Element: Sized + Copy {
    /// The value that a (trimmed) text stands for, if any.
    spec fn parse_spec(s: Seq<char>) -> Option<Self>;

    /// `self` comes before `other`, or is equal to it.
    spec fn le(self, other: Self) -> bool;

    fn parse(s: &str) -> (r: Option<Self>)
        ensures
            r == Self::parse_spec(s@),
    ;

    fn is_le(&self, other: &Self) -> (r: bool)
        ensures
            r == self.le(*other),
    ;

    fn is_eq(&self, other: &Self) -> (r: bool)
        ensures
            r == (*self == *other),
    ;

    /// `le` is a total order.
    proof fn lemma_order(a: Self, b: Self, c: Self)
        ensures
            a.le(a),
            a.le(b) && b.le(a) ==> a == b,
            a.le(b) && b.le(c) ==> a.le(c),
            a.le(b) || b.le(a),
    ;
}

/// Order of addresses: IPv4 before IPv6, then by value.
pub open spec fn addr_le(a: IpAddr, b: IpAddr) -> bool {
    match (a, b) {
        (IpAddr::V4(x), IpAddr::V4(y)) => x <= y,
        (IpAddr::V6(x), IpAddr::V6(y)) => x <= y,
        (IpAddr::V4(_), IpAddr::V6(_)) => true,
        (IpAddr::V6(_), IpAddr::V4(_)) => false,
    }
}

/// Order of networks: by address, then by prefix length.
pub open spec fn net_le(a: IpNet, b: IpNet) -> bool {
    if a.addr == b.addr {
        a.prefix_len <= b.prefix_len
    } else {
        addr_le(a.addr, b.addr)
    }
}

pub fn addr_is_le(a: &IpAddr, b: &IpAddr) -> (r: bool)
    ensures
        r == addr_le(*a, *b),
{
    match (a, b) {
        (IpAddr::V4(x), IpAddr::V4(y)) => *x <= *y,
        (IpAddr::V6(x), IpAddr::V6(y)) => *x <= *y,
        (IpAddr::V4(_), IpAddr::V6(_)) => true,
        (IpAddr::V6(_), IpAddr::V4(_)) => false,
    }
}

pub fn net_is_le(a: &IpNet, b: &IpNet) -> (r: bool)
    ensures
        r == net_le(*a, *b),
{
    if a.addr == b.addr {
        a.prefix_len <= b.prefix_len
    } else {
        addr_is_le(&a.addr, &b.addr)
    }
}

impl Element for IpAddr {
    open spec fn parse_spec(s: Seq<char>) -> Option<IpAddr> {
        addr_parse(s)
    }

    open spec fn le(self, other: IpAddr) -> bool {
        addr_le(self, other)
    }

    fn parse(s: &str) -> (r: Option<IpAddr>) {
        parse_addr(s)
    }

    fn is_le(&self, other: &IpAddr) -> (r: bool) {
        addr_is_le(self, other)
    }

    fn is_eq(&self, other: &IpAddr) -> (r: bool) {
        *self == *other
    }

    proof fn lemma_order(a: IpAddr, b: IpAddr, c: IpAddr) {
    }
}

impl Element for IpNet {
    /// Only the `address/prefix` form is a network.
    open spec fn parse_spec(s: Seq<char>) -> Option<IpNet> {
        net_parse(s)
    }

    open spec fn le(self, other: IpNet) -> bool {
        net_le(self, other)
    }

    fn parse(s: &str) -> (r: Option<IpNet>) {
        parse_net(s)
    }

    fn is_le(&self, other: &IpNet) -> (r: bool) {
        net_is_le(self, other)
    }

    fn is_eq(&self, other: &IpNet) -> (r: bool) {
        *self == *other
    }

    proof fn lemma_order(a: IpNet, b: IpNet, c: IpNet) {
    }
}

} // verus!
