use iptools::addr_or_net::{AddrOrNet, AutoNet};
use iptools::element::Element;
use iptools::ip::{
    check_subnet_prefix, host_at, host_last_index, subnet_at, subnet_last_index,
    hosts, net_contains_addr, net_contains_net, network_of, parse_addr, parse_net, subnets, IpAddr,
    IpNet, PrefixError,
};

fn v4(a: u8, b: u8, c: u8, d: u8) -> IpAddr {
    IpAddr::V4(u32::from_be_bytes([a, b, c, d]))
}

fn net(s: &str) -> IpNet {
    parse_net(s).unwrap()
}

#[test]
fn network_literal_round_trips() {
    let n = net("10.0.0.0/24");
    assert_eq!(n, IpNet { addr: v4(10, 0, 0, 0), prefix_len: 24 });
    assert_eq!(n.to_text(), "10.0.0.0/24");
}

#[test]
fn bare_address_as_auto_net_has_full_prefix() {
    let a = AutoNet::parse("10.0.0.5").unwrap();
    assert_eq!(a.0, IpNet { addr: v4(10, 0, 0, 5), prefix_len: 32 });
    let b = AutoNet::parse("2001:db8::1").unwrap();
    assert_eq!(b.0.prefix_len, 128);
    assert_eq!(b.0.addr, IpAddr::V6(0x2001_0db8_0000_0000_0000_0000_0000_0001));
}

#[test]
fn auto_net_keeps_an_explicit_prefix() {
    let a = AutoNet::parse("192.168.1.7/16").unwrap();
    assert_eq!(a.0, IpNet { addr: v4(192, 168, 1, 7), prefix_len: 16 });
}

#[test]
fn addresses_parse_in_both_families() {
    assert_eq!(parse_addr("192.168.1.1"), Some(v4(192, 168, 1, 1)));
    assert_eq!(parse_addr("::1"), Some(IpAddr::V6(1)));
    assert_eq!(parse_addr("10.0.0.256"), None);
    assert_eq!(parse_addr("not an address"), None);
    assert_eq!(parse_addr("10.0.0.0/8"), None);
}

#[test]
fn networks_need_a_valid_prefix() {
    assert_eq!(parse_net("10.0.0.0/33"), None);
    assert_eq!(parse_net("10.0.0.0"), None);
    assert_eq!(parse_net("fd00::/129"), None);
    assert_eq!(net("fd00::/16").prefix_len, 16);
}

#[test]
fn addr_or_net_chooses_by_slash() {
    assert_eq!(AddrOrNet::parse("10.1.2.3"), Some(AddrOrNet::IpAddr(v4(10, 1, 2, 3))));
    assert_eq!(AddrOrNet::parse("10.1.2.0/24"), Some(AddrOrNet::IpNet(net("10.1.2.0/24"))));
    assert_eq!(AddrOrNet::parse("10.1.2.3/x"), None);
}

#[test]
fn addresses_format_as_text() {
    assert_eq!(v4(10, 1, 2, 3).to_text(), "10.1.2.3");
    assert_eq!(IpAddr::V6(1).to_text(), "::1");
    assert_eq!(AddrOrNet::IpNet(net("fd00::/16")).to_text(), "fd00::/16");
    assert_eq!(AddrOrNet::IpAddr(v4(1, 2, 3, 4)).to_text(), "1.2.3.4");
}

#[test]
fn containment_of_addresses() {
    let n = net("10.0.0.0/8");
    assert!(net_contains_addr(&n, &v4(10, 1, 2, 3)));
    assert!(net_contains_addr(&n, &v4(10, 255, 255, 255)));
    assert!(!net_contains_addr(&n, &v4(192, 168, 1, 1)));
    assert!(!net_contains_addr(&n, &IpAddr::V6(0x0a00_0000)));
    assert!(net_contains_addr(&net("0.0.0.0/0"), &v4(255, 255, 255, 255)));
    assert!(net_contains_addr(&net("::/0"), &IpAddr::V6(u128::MAX)));
    assert!(net_contains_addr(&net("10.0.0.5/32"), &v4(10, 0, 0, 5)));
    assert!(!net_contains_addr(&net("10.0.0.5/32"), &v4(10, 0, 0, 6)));
}

#[test]
fn containment_of_networks() {
    let n = net("10.0.0.0/8");
    assert!(net_contains_net(&n, &net("10.20.0.0/16")));
    assert!(net_contains_net(&n, &n));
    assert!(!net_contains_net(&n, &net("10.0.0.0/7")));
    assert!(!net_contains_net(&n, &net("11.0.0.0/16")));
    assert!(!net_contains_net(&n, &net("::/0")));
}

#[test]
fn network_of_clears_host_bits() {
    assert_eq!(network_of(v4(10, 1, 2, 3), 8), Ok(IpNet { addr: v4(10, 0, 0, 0), prefix_len: 8 }));
    assert_eq!(network_of(v4(10, 1, 2, 3), 32), Ok(IpNet { addr: v4(10, 1, 2, 3), prefix_len: 32 }));
    assert_eq!(network_of(v4(10, 1, 2, 3), 0), Ok(IpNet { addr: v4(0, 0, 0, 0), prefix_len: 0 }));
    assert_eq!(network_of(IpAddr::V6(u128::MAX), 0), Ok(IpNet { addr: IpAddr::V6(0), prefix_len: 0 }));
    assert_eq!(network_of(v4(10, 1, 2, 3), 33), Err(PrefixError::TooLong));
}

#[test]
fn subnets_of_a_slash_24() {
    let r = subnets(&net("10.0.0.0/24"), 26).unwrap();
    let texts: Vec<String> = r.iter().map(|n| n.to_text()).collect();
    assert_eq!(texts, vec!["10.0.0.0/26", "10.0.0.64/26", "10.0.0.128/26", "10.0.0.192/26"]);
}

#[test]
fn subnets_refuse_a_shorter_prefix() {
    assert_eq!(subnets(&net("10.0.0.0/24"), 22), Err(PrefixError::ShorterThanNetwork));
    assert_eq!(subnets(&net("10.0.0.0/24"), 33), Err(PrefixError::TooLong));
}

#[test]
fn subnets_of_ipv6_and_same_prefix() {
    let r = subnets(&net("fd00::/16"), 18).unwrap();
    let texts: Vec<String> = r.iter().map(|n| n.to_text()).collect();
    assert_eq!(texts, vec!["fd00::/18", "fd00:4000::/18", "fd00:8000::/18", "fd00:c000::/18"]);
    assert_eq!(subnets(&net("10.0.0.7/24"), 24).unwrap(), vec![net("10.0.0.0/24")]);
}

#[test]
fn hosts_with_and_without_all() {
    let all = hosts(&net("10.0.0.0/30"), true);
    assert_eq!(all, vec![v4(10, 0, 0, 0), v4(10, 0, 0, 1), v4(10, 0, 0, 2), v4(10, 0, 0, 3)]);
    let usable = hosts(&net("10.0.0.0/30"), false);
    assert_eq!(usable, vec![v4(10, 0, 0, 1), v4(10, 0, 0, 2)]);
}

#[test]
fn hosts_of_small_blocks() {
    assert_eq!(hosts(&net("10.0.0.0/31"), false), vec![v4(10, 0, 0, 0), v4(10, 0, 0, 1)]);
    assert_eq!(hosts(&net("10.0.0.9/32"), false), vec![v4(10, 0, 0, 9)]);
    let v6 = hosts(&net("fd00::/126"), false);
    assert_eq!(v6.len(), 4);
    assert_eq!(v6[0], IpAddr::V6(0xfd00 << 112));
}

#[test]
fn indexed_subnets_match_the_list() {
    let n = net("10.0.0.0/24");
    let all = subnets(&n, 26).unwrap();
    assert_eq!(subnet_last_index(&n, 26), 3);
    for (i, s) in all.iter().enumerate() {
        assert_eq!(subnet_at(&n, 26, i as u128), *s);
    }
    let whole = net("::/0");
    assert_eq!(subnet_last_index(&whole, 128), u128::MAX);
    assert_eq!(subnet_at(&whole, 128, u128::MAX), IpNet { addr: IpAddr::V6(u128::MAX), prefix_len: 128 });
    assert_eq!(subnet_at(&net("0.0.0.0/0"), 1, 1).to_text(), "128.0.0.0/1");
}

#[test]
fn indexed_hosts_match_the_list() {
    let n = net("10.0.0.0/30");
    assert_eq!(host_last_index(&n, false), 1);
    assert_eq!(host_last_index(&n, true), 3);
    assert_eq!(host_at(&n, false, 0), v4(10, 0, 0, 1));
    assert_eq!(host_at(&n, true, 3), v4(10, 0, 0, 3));
    assert_eq!(host_last_index(&net("::/0"), false), u128::MAX);
    assert_eq!(host_at(&net("fd00::/8"), false, 5), IpAddr::V6((0xfd << 120) + 5));
    assert_eq!(host_at(&net("10.0.0.0/8"), false, 0xfffffd), v4(10, 255, 255, 254));
}

#[test]
fn subnet_prefix_rule() {
    assert_eq!(check_subnet_prefix(&net("10.0.0.0/24"), 26), Ok(()));
    assert_eq!(check_subnet_prefix(&net("10.0.0.0/24"), 22), Err(PrefixError::ShorterThanNetwork));
    assert_eq!(check_subnet_prefix(&net("10.0.0.0/24"), 40), Err(PrefixError::TooLong));
}
