use iptools::addr_or_net::AddrOrNet;
use iptools::element::Element;
use iptools::input::{parse_line, sort_values, unique_values, Input, InputError, ReadOutcome};
use iptools::ip::{IpAddr, IpNet};
use iptools::source::{collect_sources, RepeatedStdin, Source};

fn addr(s: &str) -> AddrOrNet {
    AddrOrNet::parse(s).unwrap()
}

fn lines(ls: &[&str]) -> ReadOutcome {
    Ok(ls.iter().map(|l| l.to_string()).collect())
}

fn lazy() -> (Input<AddrOrNet>, Vec<ReadOutcome>) {
    let sources = vec![
        Source::Arg("10.0.0.2".to_string()),
        Source::File("values.txt".to_string()),
        Source::Stdin,
    ];
    let read = vec![
        Ok(vec![]),
        lines(&["  10.0.0.1  ", "", "10.0.0.0/8", "   "]),
        lines(&["10.0.0.2", "::1"]),
    ];
    (Input::Lazy(sources), read)
}

fn values(input: Input<AddrOrNet>) -> Vec<AddrOrNet> {
    input.into_items(&vec![]).into_iter().map(|r| r.unwrap()).collect()
}

#[test]
fn lazy_iteration_matches_materialized_iteration() {
    let (input, read) = lazy();
    let items = input.into_items(&read);
    let (mut input, read) = lazy();
    input.to_memory(&read).unwrap();
    let memory = input.into_items(&vec![]);
    assert_eq!(items, memory);
    let expected: Vec<Result<AddrOrNet, InputError>> = vec![
        Ok(addr("10.0.0.2")),
        Ok(addr("10.0.0.1")),
        Ok(addr("10.0.0.0/8")),
        Ok(addr("10.0.0.2")),
        Ok(addr("::1")),
    ];
    assert_eq!(items, expected);
}

#[test]
fn blank_lines_are_skipped_and_lines_trimmed() {
    assert_eq!(parse_line::<AddrOrNet>(&"   ".to_string()), None);
    assert_eq!(parse_line::<AddrOrNet>(&"".to_string()), None);
    assert_eq!(parse_line::<AddrOrNet>(&" 1.2.3.4\t".to_string()), Some(Ok(addr("1.2.3.4"))));
}

#[test]
fn parse_errors_carry_the_raw_line() {
    let line = " 10.0.0.999 ".to_string();
    assert_eq!(parse_line::<AddrOrNet>(&line), Some(Err(InputError::Parse(line.clone()))));
    let mut input: Input<AddrOrNet> = Input::Lazy(vec![Source::Arg("1.1.1.1".to_string()), Source::Stdin]);
    let read = vec![Ok(vec![]), lines(&["2.2.2.2", "bad", "also bad"])];
    assert_eq!(input.to_memory(&read), Err(InputError::Parse("bad".to_string())));
    assert!(matches!(input, Input::Lazy(_)));
}

#[test]
fn read_errors_surface_in_place() {
    let input: Input<AddrOrNet> = Input::Lazy(vec![Source::Arg("1.1.1.1".to_string()), Source::File("x".to_string())]);
    let read = vec![Ok(vec![]), Err(InputError::Io("no such file".to_string()))];
    let items = input.into_items(&read);
    assert_eq!(items, vec![Ok(addr("1.1.1.1")), Err(InputError::Io("no such file".to_string()))]);
    let mut input: Input<AddrOrNet> = Input::Lazy(vec![Source::File("x".to_string())]);
    assert_eq!(input.sort(&read[1..].to_vec()), Err(InputError::Io("no such file".to_string())));
}

#[test]
fn memory_input_is_left_as_it_is() {
    let mut input = Input::Memory(vec![addr("10.0.0.1")]);
    input.to_memory(&vec![]).unwrap();
    assert_eq!(values(input), vec![addr("10.0.0.1")]);
}

#[test]
fn sort_orders_addresses_before_networks() {
    let (mut input, read) = lazy();
    input.sort(&read).unwrap();
    assert_eq!(
        values(input),
        vec![addr("10.0.0.1"), addr("10.0.0.2"), addr("10.0.0.2"), addr("::1"), addr("10.0.0.0/8")]
    );
}

#[test]
fn unique_keeps_first_occurrences() {
    let (mut input, read) = lazy();
    input.unique(&read).unwrap();
    assert_eq!(values(input), vec![addr("10.0.0.2"), addr("10.0.0.1"), addr("10.0.0.0/8"), addr("::1")]);
}

#[test]
fn sort_and_unique_commute() {
    let (mut a, read) = lazy();
    a.sort(&read).unwrap();
    a.unique(&vec![]).unwrap();
    let (mut b, read) = lazy();
    b.unique(&read).unwrap();
    b.sort(&vec![]).unwrap();
    let a = values(a);
    assert_eq!(a, values(b));
    assert_eq!(a, vec![addr("10.0.0.1"), addr("10.0.0.2"), addr("::1"), addr("10.0.0.0/8")]);
}

#[test]
fn sorting_networks_by_address_then_prefix() {
    let v = vec![
        IpNet { addr: IpAddr::V6(0), prefix_len: 0 },
        IpNet { addr: IpAddr::V4(5), prefix_len: 24 },
        IpNet { addr: IpAddr::V4(5), prefix_len: 8 },
        IpNet { addr: IpAddr::V4(1), prefix_len: 32 },
    ];
    let sorted = sort_values(&v);
    let mut expected = v.clone();
    expected.sort();
    assert_eq!(sorted, expected);
    let w: Vec<IpAddr> = vec![3u32, 1, 3, 1, 2].into_iter().map(IpAddr::V4).collect();
    assert_eq!(unique_values(&w), vec![IpAddr::V4(3), IpAddr::V4(1), IpAddr::V4(2)]);
    assert_eq!(sort_values::<IpAddr>(&vec![]), vec![]);
}

#[test]
fn sources_put_arguments_first() {
    let r = collect_sources(vec!["1.1.1.1".to_string()], vec![Source::Stdin, Source::File("f".to_string())]).unwrap();
    assert!(matches!(&r[0], Source::Arg(a) if a == "1.1.1.1"));
    assert!(matches!(&r[1], Source::Stdin));
    assert!(matches!(&r[2], Source::File(f) if f == "f"));
    assert_eq!(r.len(), 3);
}

#[test]
fn sources_default_to_stdin() {
    let r = collect_sources(vec![], vec![]).unwrap();
    assert_eq!(r.len(), 1);
    assert!(matches!(r[0], Source::Stdin));
}

#[test]
fn stdin_named_twice_is_refused() {
    assert_eq!(collect_sources(vec![], vec![Source::Stdin, Source::Stdin]).err(), Some(RepeatedStdin));
}

#[test]
fn tokens_name_stdin_or_files() {
    assert!(matches!(Source::from_token("-"), Source::Stdin));
    assert!(matches!(Source::from_token("--"), Source::File(f) if f == "--"));
    assert!(matches!(Source::from_token("list.txt"), Source::File(f) if f == "list.txt"));
}
