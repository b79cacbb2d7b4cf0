use iptools::addr_or_net::{AddrOrNet, AutoNet};
use iptools::configuration::{Configuration, Group, GroupSource};
use iptools::element::Element;
use iptools::filter::{evaluate, filter_value, has_word, is_admitted, FilterError, Outcome, Placeholder, Value};
use iptools::group::ClassifyError;
use iptools::info::{fields_for, label_width, Field};
use iptools::ip::IpAddr;

fn value(s: &str) -> AddrOrNet {
    AddrOrNet::parse(s).unwrap()
}

fn keep(query: &str, v: &str, c: Option<&Configuration>) -> Result<Outcome<bool>, FilterError> {
    filter_value(query, &Placeholder::requested(query), &value(v), c)
}

fn groups() -> Configuration {
    Configuration {
        groups: Some(vec![
            Group { name: "internal".to_string(), source: GroupSource::Raw { nets: vec![AutoNet::parse("10.0.0.0/8").unwrap()] } },
            Group { name: "ten".to_string(), source: GroupSource::Raw { nets: vec![AutoNet::parse("10.0.0.0/16").unwrap()] } },
        ]),
    }
}

#[test]
fn version_and_prefix_filter() {
    let q = "ip_version == 4 && prefix <= 24";
    assert_eq!(keep(q, "10.0.0.0/16", None), Ok(Outcome::Ready(true)));
    assert_eq!(keep(q, "10.0.0.0/28", None), Ok(Outcome::Ready(false)));
    assert_eq!(keep(q, "fd00::/16", None), Ok(Outcome::Ready(false)));
}

#[test]
fn placeholders_are_found_as_whole_words() {
    assert_eq!(Placeholder::requested("ip_version == 4 && prefix <= 24"), vec![Placeholder::IpVersion, Placeholder::Prefix]);
    assert_eq!(Placeholder::requested("groups == (\"a\",)"), vec![Placeholder::Groups]);
    assert_eq!(Placeholder::requested("group == \"a\" || hosts > 2 || type == \"net\""), vec![Placeholder::Type, Placeholder::Group, Placeholder::Hosts]);
    assert_eq!(Placeholder::requested("prefixes > 1"), vec![]);
}

#[test]
fn placeholder_values() {
    let none: Option<&Configuration> = None;
    assert_eq!(Placeholder::Type.resolve(&value("10.0.0.1"), none), Ok(Outcome::Ready(Value::Text("addr".to_string()))));
    assert_eq!(Placeholder::Type.resolve(&value("10.0.0.0/8"), none), Ok(Outcome::Ready(Value::Text("net".to_string()))));
    assert_eq!(Placeholder::Prefix.resolve(&value("10.0.0.1"), none), Ok(Outcome::Ready(Value::Int(32))));
    assert_eq!(Placeholder::IpVersion.resolve(&value("::1"), none), Ok(Outcome::Ready(Value::Int(6))));
    assert_eq!(Placeholder::Hosts.resolve(&value("10.0.0.0/24"), none), Ok(Outcome::Ready(Value::Int(256))));
    assert_eq!(Placeholder::Hosts.resolve(&value("10.0.0.1"), none), Ok(Outcome::Ready(Value::Int(1))));
    assert_eq!(Placeholder::Hosts.resolve(&value("fd00::/66"), none), Ok(Outcome::Ready(Value::Int(1i64 << 62))));
    assert_eq!(Placeholder::IpVersion.name(), "ip_version");
}

#[test]
fn group_placeholders_consult_the_groups() {
    let c = groups();
    assert_eq!(
        Placeholder::Group.resolve(&value("10.0.0.1"), Some(&c)),
        Ok(Outcome::Ready(Value::Text("internal".to_string())))
    );
    assert_eq!(Placeholder::Group.resolve(&value("8.8.8.8"), Some(&c)), Ok(Outcome::Ready(Value::Empty)));
    assert_eq!(
        Placeholder::Groups.resolve(&value("10.0.0.1"), Some(&c)),
        Ok(Outcome::Ready(Value::Texts(vec!["internal".to_string(), "ten".to_string()])))
    );
    assert_eq!(keep("group == \"internal\"", "10.200.0.1", Some(&c)), Ok(Outcome::Ready(true)));
    assert_eq!(keep("group == \"internal\"", "11.0.0.1", Some(&c)), Ok(Outcome::Ready(false)));
}

#[test]
fn group_placeholders_need_configuration() {
    assert_eq!(keep("group == \"x\"", "10.0.0.1", None), Err(FilterError::Classify(ClassifyError::NoConfiguration)));
    let c = Configuration { groups: None };
    assert_eq!(keep("groups == ()", "10.0.0.1", Some(&c)), Err(FilterError::Classify(ClassifyError::NoGroups)));
    assert_eq!(keep("prefix > 8", "10.0.0.1", None), Ok(Outcome::Ready(true)));
}

#[test]
fn unresolved_group_is_requested_by_the_filter() {
    let c = Configuration {
        groups: Some(vec![Group { name: "g".to_string(), source: GroupSource::File { file: "f".to_string() } }]),
    };
    assert_eq!(keep("group == \"g\"", "10.0.0.1", Some(&c)), Ok(Outcome::Load(0)));
}

#[test]
fn bad_queries_are_expression_errors() {
    assert!(matches!(keep("prefix ==", "10.0.0.1", None), Err(FilterError::Expression(_))));
    assert!(matches!(keep("unknown_name == 3", "10.0.0.1", None), Err(FilterError::Expression(_))));
    assert!(matches!(keep("prefix + 1", "10.0.0.1", None), Err(FilterError::Expression(_))));
}

#[test]
fn evaluate_uses_the_bindings() {
    let b = vec![("x".to_string(), Value::Int(3)), ("t".to_string(), Value::Text("net".to_string()))];
    assert_eq!(evaluate("x == 3 && t == \"net\"", &b), Ok(true));
    assert_eq!(evaluate("x > 3", &b), Ok(false));
}

#[test]
fn info_fields_and_labels() {
    let v4 = fields_for(&IpAddr::V4(1));
    assert_eq!(v4.len(), 13);
    assert_eq!(v4[3], Field::BroadcastAddress);
    let v6 = fields_for(&IpAddr::V6(1));
    assert_eq!(v6.len(), 10);
    assert_eq!(Field::BinaryNetworkMaskAddress.label(), "binary net mask");
    assert_eq!(Field::Ipv6Mapping.label(), "IPv6 mapping");
    assert_eq!(label_width(&v4), 15);
    assert_eq!(label_width(&vec![Field::Cidr, Field::Address]), 7);
    assert_eq!(label_width(&vec![]), 0);
}

#[test]
fn host_counts_beyond_the_integers_are_errors() {
    let none: Option<&Configuration> = None;
    assert_eq!(Placeholder::Hosts.resolve(&value("::/0"), none), Err(FilterError::TooManyHosts));
    assert_eq!(Placeholder::Hosts.resolve(&value("fd00::/65"), none), Err(FilterError::TooManyHosts));
    assert_eq!(keep("hosts > 4", "fd00::/64", None), Err(FilterError::TooManyHosts));
    assert_eq!(keep("hosts > 4", "fd00::/120", None), Ok(Outcome::Ready(true)));
}

#[test]
fn queries_with_panicking_functions_are_not_admitted() {
    assert!(is_admitted("ip_version == 4 && prefix <= 24"));
    assert!(is_admitted(""));
    assert!(is_admitted("group == \"labs\" || group == \"shl\""));
    assert!(is_admitted("str::to_lowercase(group) == \"lab\""));
    assert!(is_admitted("prefix =="));
    assert!(!is_admitted("str::substring(\"é\", 1) == \"\""));
    assert!(!is_admitted("shl(1, 64) > 0"));
    assert!(!is_admitted("prefix > 2 && shr(prefix, 70) == 0"));
    assert!(!is_admitted("math::abs(prefix) > 1"));
}

#[test]
fn whole_words_only() {
    assert!(has_word("prefix", "prefix <= 24"));
    assert!(has_word("group", "(group)"));
    assert!(!has_word("group", "groups == ()"));
    assert!(!has_word("prefix", "prefixes > 1"));
    assert!(!has_word("hosts", "ghosts"));
}
