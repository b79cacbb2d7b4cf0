//! The two value types that most commands read: an address or a network,
//! and a network written with or without its prefix.

use crate::element::{addr_is_le, addr_le, net_is_le, net_le, Element};
use crate::ip::{addr_parse, family_bits, max_prefix_len, net_parse, parse_addr, parse_net, IpAddr, IpNet};
use vstd::prelude::*;
use vstd::string::*;

verus! {

/// Whether the text holds a slash.
fn has_slash(s: &str) -> (r: bool)
    ensures
        r == s@.contains('/'),
{
    let n = s.unicode_len();
    let mut i: usize = 0;
    while i < n
        invariant
            n == s@.len(),
            i <= n,
            forall|k: int| 0 <= k < i ==> s@[k] != '/',
        decreases n - i,
    {
        if s.get_char(i) == '/' {
            assert(s@[i as int] == '/');
            return true;
        }
        i = i + 1;
    }
    false
}

/// A bare address or a network.
#[derive(Clone, Copy, PartialEq, Eq, Structural, PartialOrd, Ord, Hash, Debug)]
pub enum AddrOrNet {
    IpAddr(IpAddr),
    IpNet(IpNet),
}

impl AddrOrNet {
    /// A network's prefix fits its family.
    pub open spec fn wf(self) -> bool {
        match self {
            AddrOrNet::IpAddr(_) => true,
            AddrOrNet::IpNet(n) => n.wf(),
        }
    }

    /// The value as a network: a bare address is the network of its family's
    /// full prefix length.
    pub open spec fn as_net(self) -> IpNet {
        match self {
            AddrOrNet::IpAddr(a) => IpNet { addr: a, prefix_len: family_bits(a) as u8 },
            AddrOrNet::IpNet(n) => n,
        }
    }

    pub fn is_valid(&self) -> (r: bool)
        ensures
            r == self.wf(),
    {
        match self {
            AddrOrNet::IpAddr(_) => true,
            AddrOrNet::IpNet(n) => n.is_valid(),
        }
    }

    /// The value as a network (see `as_net`).
    pub fn to_net(&self) -> (r: IpNet)
        ensures
            r == self.as_net(),
    {
        match self {
            AddrOrNet::IpAddr(a) => IpNet { addr: *a, prefix_len: max_prefix_len(a) },
            AddrOrNet::IpNet(n) => *n,
        }
    }

    /// The value in its usual text form (`address` or `address/prefix`).
    pub fn to_text(&self) -> (r: String)
        requires
            self.wf(),
        ensures
            r@ == match *self {
                AddrOrNet::IpAddr(a) => crate::ip::addr_to_text(a),
                AddrOrNet::IpNet(n) => crate::ip::net_text(n),
            },
    {
        match self {
            AddrOrNet::IpAddr(a) => a.to_text(),
            AddrOrNet::IpNet(n) => n.to_text(),
        }
    }
}

impl Element for AddrOrNet {
    /// A text with a slash is a network; any other text an address.
    open spec fn parse_spec(s: Seq<char>) -> Option<AddrOrNet> {
        if s.contains('/') {
            match net_parse(s) {
                Some(n) => Some(AddrOrNet::IpNet(n)),
                None => None,
            }
        } else {
            match addr_parse(s) {
                Some(a) => Some(AddrOrNet::IpAddr(a)),
                None => None,
            }
        }
    }

    /// Addresses before networks; then each by its own order.
    open spec fn le(self, other: AddrOrNet) -> bool {
        match (self, other) {
            (AddrOrNet::IpAddr(a), AddrOrNet::IpAddr(b)) => addr_le(a, b),
            (AddrOrNet::IpNet(a), AddrOrNet::IpNet(b)) => net_le(a, b),
            (AddrOrNet::IpAddr(_), AddrOrNet::IpNet(_)) => true,
            (AddrOrNet::IpNet(_), AddrOrNet::IpAddr(_)) => false,
        }
    }

    fn parse(s: &str) -> (r: Option<AddrOrNet>) {
        if has_slash(s) {
            match parse_net(s) {
                Some(n) => Some(AddrOrNet::IpNet(n)),
                None => None,
            }
        } else {
            match parse_addr(s) {
                Some(a) => Some(AddrOrNet::IpAddr(a)),
                None => None,
            }
        }
    }

    fn is_le(&self, other: &AddrOrNet) -> (r: bool) {
        match (self, other) {
            (AddrOrNet::IpAddr(a), AddrOrNet::IpAddr(b)) => addr_is_le(a, b),
            (AddrOrNet::IpNet(a), AddrOrNet::IpNet(b)) => net_is_le(a, b),
            (AddrOrNet::IpAddr(_), AddrOrNet::IpNet(_)) => true,
            (AddrOrNet::IpNet(_), AddrOrNet::IpAddr(_)) => false,
        }
    }

    fn is_eq(&self, other: &AddrOrNet) -> (r: bool) {
        *self == *other
    }

    proof fn lemma_order(a: AddrOrNet, b: AddrOrNet, c: AddrOrNet) {
    }
}

/// A network read from a text that may leave out the prefix: a bare address
/// stands for the network of its family's full prefix length.
#[derive(Clone, Copy, PartialEq, Eq, Structural, PartialOrd, Ord, Hash, Debug)]
pub struct AutoNet(pub IpNet);

impl Element for AutoNet {
    open spec fn parse_spec(s: Seq<char>) -> Option<AutoNet> {
        if s.contains('/') {
            match net_parse(s) {
                Some(n) => Some(AutoNet(n)),
                None => None,
            }
        } else {
            match addr_parse(s) {
                Some(a) => Some(AutoNet(IpNet { addr: a, prefix_len: family_bits(a) as u8 })),
                None => None,
            }
        }
    }

    open spec fn le(self, other: AutoNet) -> bool {
        net_le(self.0, other.0)
    }

    fn parse(s: &str) -> (r: Option<AutoNet>) {
        if has_slash(s) {
            match parse_net(s) {
                Some(n) => Some(AutoNet(n)),
                None => None,
            }
        } else {
            match parse_addr(s) {
                Some(a) => Some(AutoNet(IpNet { addr: a, prefix_len: max_prefix_len(&a) })),
                None => None,
            }
        }
    }

    fn is_le(&self, other: &AutoNet) -> (r: bool) {
        net_is_le(&self.0, &other.0)
    }

    fn is_eq(&self, other: &AutoNet) -> (r: bool) {
        self.0 == other.0
    }

    proof fn lemma_order(a: AutoNet, b: AutoNet, c: AutoNet) {
    }
}

} // verus!
