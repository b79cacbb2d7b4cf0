use iptools::addr_or_net::{AddrOrNet, AutoNet};
use iptools::configuration::{parse_group_text, Configuration, Fetch, Group, GroupError, GroupSource};
use iptools::element::Element;
use iptools::group::{matching_groups, net_holds_value, ClassifyError, Scan};

fn auto(s: &str) -> AutoNet {
    AutoNet::parse(s).unwrap()
}

fn value(s: &str) -> AddrOrNet {
    AddrOrNet::parse(s).unwrap()
}

fn raw(name: &str, nets: &[&str]) -> Group {
    Group { name: name.to_string(), source: GroupSource::Raw { nets: nets.iter().map(|n| auto(n)).collect() } }
}

fn config(groups: Vec<Group>) -> Configuration {
    Configuration { groups: Some(groups) }
}

fn names(v: &[&str]) -> Scan {
    Scan::Done(v.iter().map(|s| s.to_string()).collect())
}

#[test]
fn internal_group_matches_inside_addresses_only() {
    let c = config(vec![raw("internal", &["10.0.0.0/8"])]);
    assert_eq!(matching_groups(&value("10.1.2.3"), Some(&c), false), Ok(names(&["internal"])));
    assert_eq!(matching_groups(&value("192.168.1.1"), Some(&c), false), Ok(names(&[])));
}

#[test]
fn all_matching_groups_in_order_or_first_only() {
    let c = config(vec![
        raw("lan", &["192.168.0.0/16"]),
        raw("private", &["172.16.0.0/12", "10.0.0.0/8"]),
        raw("ten", &["10.0.0.0/16"]),
        raw("host", &["10.0.0.7"]),
    ]);
    assert_eq!(matching_groups(&value("10.0.0.7"), Some(&c), false), Ok(names(&["private", "ten", "host"])));
    assert_eq!(matching_groups(&value("10.0.0.7"), Some(&c), true), Ok(names(&["private"])));
    assert_eq!(matching_groups(&value("10.0.1.0/24"), Some(&c), false), Ok(names(&["private", "ten"])));
    assert_eq!(matching_groups(&value("10.1.0.0/24"), Some(&c), false), Ok(names(&["private"])));
    assert_eq!(matching_groups(&value("10.0.0.0/7"), Some(&c), false), Ok(names(&[])));
}

#[test]
fn duplicate_group_names_both_match() {
    let c = config(vec![raw("a", &["10.0.0.0/8"]), raw("a", &["10.1.0.0/16"])]);
    assert_eq!(matching_groups(&value("10.1.0.1"), Some(&c), false), Ok(names(&["a", "a"])));
}

#[test]
fn classification_needs_configured_groups() {
    assert_eq!(matching_groups(&value("10.0.0.1"), None, true), Err(ClassifyError::NoConfiguration));
    let c = Configuration { groups: None };
    assert_eq!(matching_groups(&value("10.0.0.1"), Some(&c), true), Err(ClassifyError::NoGroups));
}

#[test]
fn unresolved_group_is_asked_for() {
    let c = config(vec![
        raw("first", &["10.0.0.0/8"]),
        Group { name: "second".to_string(), source: GroupSource::File { file: "g.txt".to_string() } },
    ]);
    assert_eq!(matching_groups(&value("10.0.0.1"), Some(&c), true), Ok(names(&["first"])));
    assert_eq!(matching_groups(&value("10.0.0.1"), Some(&c), false), Ok(Scan::Load(1)));
    assert_eq!(matching_groups(&value("11.0.0.1"), Some(&c), true), Ok(Scan::Load(1)));
}

#[test]
fn group_file_content_is_parsed() {
    let nets = parse_group_text("\n 10.0.0.0/8\n\n192.168.1.1\r\n   \n::1\n").unwrap();
    assert_eq!(nets, vec![auto("10.0.0.0/8"), auto("192.168.1.1/32"), auto("::1/128")]);
    assert_eq!(parse_group_text("").unwrap(), vec![]);
    assert_eq!(parse_group_text("10.0.0.0/8\nnope\n"), Err(GroupError::Content("nope".to_string())));
}

#[test]
fn load_resolves_once() {
    let mut src = GroupSource::File { file: "g.txt".to_string() };
    assert_eq!(src.fetch_request(&None), Some(Fetch::ReadFile("g.txt".to_string())));
    assert_eq!(src.load(&Ok("10.0.0.0/8\n".to_string())), Ok(()));
    assert!(matches!(&src, GroupSource::Raw { nets } if nets == &vec![auto("10.0.0.0/8")]));
    assert_eq!(src.fetch_request(&None), None);
    assert_eq!(src.load(&Err(GroupError::Fetch("gone".to_string()))), Ok(()));
    assert_eq!(src.load(&Ok("192.168.0.0/16".to_string())), Ok(()));
    assert!(matches!(&src, GroupSource::Raw { nets } if nets == &vec![auto("10.0.0.0/8")]));
}

#[test]
fn failed_load_leaves_the_source_unresolved() {
    let mut src = GroupSource::Command { command: "cat nets".to_string(), shell: None };
    assert_eq!(src.load(&Err(GroupError::Fetch("spawn failed".to_string()))), Err(GroupError::Fetch("spawn failed".to_string())));
    assert_eq!(src.load(&Ok("bad line".to_string())), Err(GroupError::Content("bad line".to_string())));
    assert!(matches!(src, GroupSource::Command { .. }));
}

#[test]
fn command_shell_is_chosen_in_order() {
    let src = GroupSource::Command { command: "cat nets".to_string(), shell: Some("bash".to_string()) };
    assert_eq!(
        src.fetch_request(&Some("zsh".to_string())),
        Some(Fetch::Run { shell: "bash".to_string(), command: "cat nets".to_string() })
    );
    let src = GroupSource::Command { command: "cat nets".to_string(), shell: None };
    assert_eq!(
        src.fetch_request(&Some("zsh".to_string())),
        Some(Fetch::Run { shell: "zsh".to_string(), command: "cat nets".to_string() })
    );
    assert_eq!(src.fetch_request(&None), Some(Fetch::Run { shell: "sh".to_string(), command: "cat nets".to_string() }));
}

#[test]
fn invalid_values_are_held_by_nothing() {
    let n = auto("10.0.0.0/8").0;
    let bad = AddrOrNet::IpNet(iptools::ip::IpNet { addr: iptools::ip::IpAddr::V4(0x0a00_0000), prefix_len: 40 });
    assert!(!net_holds_value(&n, &bad));
    assert!(net_holds_value(&n, &value("10.9.9.9")));
}
