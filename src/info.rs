//! The fields that describe one network, and their labels.

use crate::ip::IpAddr;
use vstd::prelude::*;

verus! {

/// One line of a network's description.
#[derive(Clone, Copy, PartialEq, Eq, Structural, Debug)]
pub enum Field {
    Address,
    NetworkAddress,
    HostsRange,
    BroadcastAddress,
    HostsCount,
    UsableHostsCount,
    NetworkMaskAddress,
    HostMaskAddress,
    Cidr,
    FullAddress,
    BinaryAddress,
    BinaryNetworkMaskAddress,
    Ipv6Mapping,
}

/// The fields that describe an IPv4 network, in order.
pub open spec fn ipv4_fields() -> Seq<Field> {
    seq![
        Field::Address,
        Field::NetworkAddress,
        Field::HostsRange,
        Field::BroadcastAddress,
        Field::HostsCount,
        Field::UsableHostsCount,
        Field::NetworkMaskAddress,
        Field::HostMaskAddress,
        Field::Cidr,
        Field::FullAddress,
        Field::BinaryAddress,
        Field::BinaryNetworkMaskAddress,
        Field::Ipv6Mapping,
    ]
}

/// The fields that describe an IPv6 network, in order: no broadcast, no
/// usable host count, no IPv6 mapping.
pub open spec fn ipv6_fields() -> Seq<Field> {
    seq![
        Field::Address,
        Field::NetworkAddress,
        Field::HostsRange,
        Field::HostsCount,
        Field::NetworkMaskAddress,
        Field::HostMaskAddress,
        Field::Cidr,
        Field::FullAddress,
        Field::BinaryAddress,
        Field::BinaryNetworkMaskAddress,
    ]
}

impl Field {
    /// The label of the field.
    pub open spec fn label_text(self) -> Seq<char> {
        match self {
            Field::Address => "address"@,
            Field::NetworkAddress => "network"@,
            Field::HostsRange => "hosts ranges"@,
            Field::BroadcastAddress => "broadcast"@,
            Field::HostsCount => "hosts"@,
            Field::UsableHostsCount => "usable hosts"@,
            Field::NetworkMaskAddress => "net mask"@,
            Field::HostMaskAddress => "host mask"@,
            Field::Cidr => "cidr"@,
            Field::FullAddress => "full"@,
            Field::BinaryAddress => "binary address"@,
            Field::BinaryNetworkMaskAddress => "binary net mask"@,
            Field::Ipv6Mapping => "IPv6 mapping"@,
        }
    }

    pub open spec fn label_len(self) -> nat {
        self.label_text().len()
    }

    /// The label printed before the field's value.
    pub fn label(self) -> (r: &'static str)
        ensures
            r@ == self.label_text(),
    {
        match self {
            Field::Address => "address",
            Field::NetworkAddress => "network",
            Field::HostsRange => "hosts ranges",
            Field::BroadcastAddress => "broadcast",
            Field::HostsCount => "hosts",
            Field::UsableHostsCount => "usable hosts",
            Field::NetworkMaskAddress => "net mask",
            Field::HostMaskAddress => "host mask",
            Field::Cidr => "cidr",
            Field::FullAddress => "full",
            Field::BinaryAddress => "binary address",
            Field::BinaryNetworkMaskAddress => "binary net mask",
            Field::Ipv6Mapping => "IPv6 mapping",
        }
    }
}

/// The fields that describe a network of the family of `a`.
pub fn fields_for(a: &IpAddr) -> (r: Vec<Field>)
    ensures
        r@ == match *a {
            IpAddr::V4(_) => ipv4_fields(),
            IpAddr::V6(_) => ipv6_fields(),
        },
{
    let r = match a {
        IpAddr::V4(_) => vec![
            Field::Address,
            Field::NetworkAddress,
            Field::HostsRange,
            Field::BroadcastAddress,
            Field::HostsCount,
            Field::UsableHostsCount,
            Field::NetworkMaskAddress,
            Field::HostMaskAddress,
            Field::Cidr,
            Field::FullAddress,
            Field::BinaryAddress,
            Field::BinaryNetworkMaskAddress,
            Field::Ipv6Mapping,
        ],
        IpAddr::V6(_) => vec![
            Field::Address,
            Field::NetworkAddress,
            Field::HostsRange,
            Field::HostsCount,
            Field::NetworkMaskAddress,
            Field::HostMaskAddress,
            Field::Cidr,
            Field::FullAddress,
            Field::BinaryAddress,
            Field::BinaryNetworkMaskAddress,
        ],
    };
    assert(r@ =~= match *a {
        IpAddr::V4(_) => ipv4_fields(),
        IpAddr::V6(_) => ipv6_fields(),
    });
    r
}

/// Width of the widest label among `fields`, to align the values.
pub fn label_width(fields: &Vec<Field>) -> (r: usize)
    ensures
        forall|i: int| 0 <= i < fields@.len() ==> fields@[i].label_len() <= r,
        fields@.len() > 0 ==> exists|i: int| 0 <= i < fields@.len() && fields@[i].label_len() == r,
        fields@.len() == 0 ==> r == 0,
{
    let mut w: usize = 0;
    let mut i: usize = 0;
    while i < fields.len()
        invariant
            i <= fields@.len(),
            forall|j: int| 0 <= j < i ==> fields@[j].label_len() <= w,
            i > 0 ==> exists|j: int| 0 <= j < i && fields@[j].label_len() == w,
            i == 0 ==> w == 0,
        decreases fields@.len() - i,
    {
        let n = fields[i].label().unicode_len();
        if i == 0 || n > w {
            w = n;
        }
        i = i + 1;
    }
    w
}

} // verus!
