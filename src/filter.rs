//! Filter expressions: the placeholders a query refers to, their values for
//! one address or network, and the query's boolean outcome.

use evalexpr::ContextWithMutableVariables;

use crate::addr_or_net::AddrOrNet;
use crate::configuration::Configuration;
use crate::group::{matching_groups, scan_from, ClassifyError, Scan};
use crate::ip::{family_bits, max_prefix_len, IpAddr};
use vstd::arithmetic::power2::{lemma_pow2_strictly_increases, pow2};
use vstd::string::*;
use vstd::prelude::*;

verus! {

/// A name that a query may use for a property of the value.
#[derive(Clone, Copy, PartialEq, Eq, Structural, Debug)]
pub enum Placeholder {
    /// 4 or 6.
    IpVersion,
    /// `"addr"` for a bare address, `"net"` for a network.
    Type,
    /// The prefix length (the family's width for a bare address).
    Prefix,
    /// The first group that holds the value, or nothing.
    Group,
    /// All groups that hold the value.
    Groups,
    /// The number of addresses of the value's block.
    Hosts,
}

/// A placeholder's value, as the expression language sees it.
#[derive(Clone, Debug, PartialEq, Eq)]
pub enum Value {
    Int(i64),
    Text(String),
    Texts(Vec<String>),
    Empty,
}

/// Either a result, or the index of a group that must be loaded before it
/// can be had.
#[derive(Debug, PartialEq, Eq)]
pub enum Outcome<T> {
    Ready(T),
    Load(usize),
}

/// Why a filter could not decide.
#[derive(Clone, Debug, PartialEq, Eq)]
pub enum FilterError {
    /// A group placeholder was used without groups to consult.
    Classify(ClassifyError),
    /// The query is not a valid boolean expression over the placeholders,
    /// or uses a function that is not evaluated here; the message says why.
    Expression(String),
    /// The value's block holds 2^63 addresses or more, which the expression
    /// language's integers cannot count.
    TooManyHosts,
}

/// The placeholders in the order in which they are looked for.
pub open spec fn all_placeholders() -> Seq<Placeholder> {
    seq![
        Placeholder::IpVersion,
        Placeholder::Type,
        Placeholder::Prefix,
        Placeholder::Group,
        Placeholder::Groups,
        Placeholder::Hosts,
    ]
}

/// The name of a placeholder in queries.
pub open spec fn placeholder_name(p: Placeholder) -> Seq<char> {
    match p {
        Placeholder::IpVersion => seq!['i', 'p', '_', 'v', 'e', 'r', 's', 'i', 'o', 'n'],
        Placeholder::Type => seq!['t', 'y', 'p', 'e'],
        Placeholder::Prefix => seq!['p', 'r', 'e', 'f', 'i', 'x'],
        Placeholder::Group => seq!['g', 'r', 'o', 'u', 'p'],
        Placeholder::Groups => seq!['g', 'r', 'o', 'u', 'p', 's'],
        Placeholder::Hosts => seq!['h', 'o', 's', 't', 's'],
    }
}

/// Whether the regex crate's pattern `pattern` matches somewhere in
/// `text` (a pattern that does not compile matches nothing).
pub uninterp spec fn regex_found(pattern: Seq<char>, text: Seq<char>) -> bool;

/// Relies on regex's `Regex::new` and `Regex::is_match`; a pattern that
/// does not compile matches nothing.
#[verifier::external_body]
fn regex_is_match(pattern: &str, text: &str) -> (r: bool)
    ensures
        r == regex_found(pattern@, text@),
{
    regex::Regex::new(pattern).map(|re| re.is_match(text)).unwrap_or(false)
}

/// The pattern that finds `w` as a whole word: `\b`, the word, `\b`.
pub open spec fn word_pattern(w: Seq<char>) -> Seq<char> {
    seq!['\\', 'b'] + w + seq!['\\', 'b']
}

/// Whether `word` occurs in `text` as a whole word, between word boundaries.
pub fn has_word(word: &str, text: &str) -> (r: bool)
    ensures
        r == regex_found(word_pattern(word@), text@),
{
    proof {
        reveal_strlit("\\b");
    }
    let mut pattern = <String as StringExecFns>::from_str("\\b");
    pattern.append(word);
    pattern.append("\\b");
    assert(pattern@ =~= word_pattern(word@));
    regex_is_match(pattern.as_str(), text)
}

/// A placeholder's value as plain data: numbers and texts.
pub enum ValueView {
    Int(int),
    Text(Seq<char>),
    Texts(Seq<Seq<char>>),
    Empty,
}

impl View for Value {
    type V = ValueView;

    open spec fn view(&self) -> ValueView {
        match *self {
            Value::Int(i) => ValueView::Int(i as int),
            Value::Text(s) => ValueView::Text(s@),
            Value::Texts(ts) => ValueView::Texts(ts@.map_values(|t: String| t@)),
            Value::Empty => ValueView::Empty,
        }
    }
}

/// Names and values of bindings, as plain data.
pub open spec fn bindings_view(bs: Seq<(String, Value)>) -> Seq<(Seq<char>, ValueView)> {
    bs.map_values(|b: (String, Value)| (b.0@, b.1@))
}

/// What evalexpr's `eval_boolean_with_context_mut` gives for a query in a
/// context that binds each name to its value: the boolean, or `None` on an
/// error.
pub uninterp spec fn query_result(query: Seq<char>, bindings: Seq<(Seq<char>, ValueView)>) -> Option<bool>;

/// What evalexpr's `build_operator_tree` and `iter_function_identifiers`
/// give for a query: the names of the functions it calls, or `None` when it
/// does not parse.
pub uninterp spec fn called_functions(query: Seq<char>) -> Option<Seq<Seq<char>>>;

/// Relies on evalexpr's `build_operator_tree` and
/// `Node::iter_function_identifiers`: the functions that the query calls.
#[verifier::external_body]
fn function_calls(query: &str) -> (r: Option<Vec<String>>)
    ensures
        match r {
            Some(fs) => called_functions(query@) == Some(fs@.map_values(|f: String| f@)),
            None => called_functions(query@) is None,
        },
{
    evalexpr::build_operator_tree(query).ok().map(|t| t.iter_function_identifiers().map(|f| f.to_owned()).collect())
}

/// One of the expression language's functions that can fail by panicking:
/// `str::substring` off a character boundary, `shl` and `shr` by 64 or
/// more, `math::abs` of the least integer.
pub open spec fn panicking_function(f: Seq<char>) -> bool {
    ||| f == seq!['s', 't', 'r', ':', ':', 's', 'u', 'b', 's', 't', 'r', 'i', 'n', 'g']
    ||| f == seq!['s', 'h', 'l']
    ||| f == seq!['s', 'h', 'r']
    ||| f == seq!['m', 'a', 't', 'h', ':', ':', 'a', 'b', 's']
}

/// The query calls none of the panicking functions. A query that does not
/// parse is admitted: evaluating it stops at the same parse, with an error.
pub open spec fn query_admitted(q: Seq<char>) -> bool {
    match called_functions(q) {
        None => true,
        Some(fs) => none_panicking(fs),
    }
}

/// None of the functions is a panicking one.
pub open spec fn none_panicking(fs: Seq<Seq<char>>) -> bool {
    forall|i: int| 0 <= i < fs.len() ==> !panicking_function(#[trigger] fs[i])
}

/// Whether `f` names a panicking function.
fn is_panicking_function(f: &String) -> (r: bool)
    ensures
        r == panicking_function(f@),
{
    proof {
        reveal_strlit("str::substring");
        reveal_strlit("shl");
        reveal_strlit("shr");
        reveal_strlit("math::abs");
    }
    let a = "str::substring".to_owned();
    let b = "shl".to_owned();
    let c = "shr".to_owned();
    let d = "math::abs".to_owned();
    assert(a@ =~= seq!['s', 't', 'r', ':', ':', 's', 'u', 'b', 's', 't', 'r', 'i', 'n', 'g']);
    assert(b@ =~= seq!['s', 'h', 'l']);
    assert(c@ =~= seq!['s', 'h', 'r']);
    assert(d@ =~= seq!['m', 'a', 't', 'h', ':', ':', 'a', 'b', 's']);
    f.eq(&a) || f.eq(&b) || f.eq(&c) || f.eq(&d)
}

/// Whether the query may be evaluated (see `query_admitted`).
pub fn is_admitted(query: &str) -> (r: bool)
    ensures
        r == query_admitted(query@),
{
    match function_calls(query) {
        None => true,
        Some(fs) => {
            let ghost names = fs@.map_values(|f: String| f@);
            let mut i: usize = 0;
            while i < fs.len()
                invariant
                    i <= fs@.len(),
                    names == fs@.map_values(|f: String| f@),
                    called_functions(query@) == Some(names),
                    forall|k: int| 0 <= k < i ==> !panicking_function(#[trigger] names[k]),
                decreases fs@.len() - i,
            {
                assert(names.len() == fs@.len());
                assert(names[i as int] == fs@[i as int]@);
                if is_panicking_function(&fs[i]) {
                    assert(panicking_function(names[i as int]));
                    assert(!none_panicking(names));
                    return false;
                }
                i = i + 1;
            }
            true
        },
    }
}

/// Relies on evalexpr's `HashMapContext::set_value` to bind each name and
/// on `eval_boolean_with_context_mut` to evaluate the query; an error is
/// returned as evalexpr's message. The outcome depends on the names' and
/// values' contents alone.
#[verifier::external_body]
fn eval_query(query: &str, bindings: &Vec<(String, Value)>) -> (r: Result<bool, String>)
    requires
        query_admitted(query@),
    ensures
        r is Ok <==> query_result(query@, bindings_view(bindings@)) is Some,
        r matches Ok(b) ==> query_result(query@, bindings_view(bindings@)) == Some(b),
{
    let mut context = evalexpr::HashMapContext::new();
    for (name, value) in bindings {
        let value = match value {
            Value::Int(i) => evalexpr::Value::Int(*i),
            Value::Text(s) => evalexpr::Value::String(s.clone()),
            Value::Texts(ts) => evalexpr::Value::Tuple(ts.iter().cloned().map(evalexpr::Value::String).collect()),
            Value::Empty => evalexpr::Value::Empty,
        };
        context.set_value(name.clone(), value).map_err(|e| e.to_string())?;
    }
    evalexpr::eval_boolean_with_context_mut(query, &mut context).map_err(|e| e.to_string())
}

impl Placeholder {
    /// The name of the placeholder in queries.
    pub fn name(&self) -> (r: &'static str)
        ensures
            r@ == placeholder_name(*self),
    {
        proof {
            reveal_strlit("ip_version");
            reveal_strlit("type");
            reveal_strlit("prefix");
            reveal_strlit("group");
            reveal_strlit("groups");
            reveal_strlit("hosts");
        }
        let r = match self {
            Placeholder::IpVersion => "ip_version",
            Placeholder::Type => "type",
            Placeholder::Prefix => "prefix",
            Placeholder::Group => "group",
            Placeholder::Groups => "groups",
            Placeholder::Hosts => "hosts",
        };
        assert(r@ =~= placeholder_name(*self));
        r
    }

    /// The placeholders that `query` refers to as whole words, in the order
    /// of `all_placeholders`.
    pub fn requested(query: &str) -> (r: Vec<Placeholder>)
        ensures
            r@ == all_placeholders().filter(
                |p: Placeholder| regex_found(word_pattern(placeholder_name(p)), query@),
            ),
    {
        let all = [
            Placeholder::IpVersion,
            Placeholder::Type,
            Placeholder::Prefix,
            Placeholder::Group,
            Placeholder::Groups,
            Placeholder::Hosts,
        ];
        let ghost f = |p: Placeholder| regex_found(word_pattern(placeholder_name(p)), query@);
        assert(all@ =~= all_placeholders());
        let mut out: Vec<Placeholder> = Vec::new();
        let mut i: usize = 0;
        while i < 6
            invariant
                i <= 6,
                all@ == all_placeholders(),
                f == (|p: Placeholder| regex_found(word_pattern(placeholder_name(p)), query@)),
                out@ == all_placeholders().take(i as int).filter(f),
            decreases 6 - i,
        {
            let p = all[i];
            reveal(Seq::filter);
            assert(all_placeholders().take(i + 1).drop_last() =~= all_placeholders().take(i as int));
            if has_word(p.name(), query) {
                out.push(p);
            }
            i = i + 1;
        }
        assert(all_placeholders().take(6) =~= all_placeholders());
        out
    }
}

/// The value of placeholder `p` for `value`, given the configuration:
/// `Load(k)` when group `k` must be loaded first.
pub open spec fn resolution(
    p: Placeholder,
    value: AddrOrNet,
    configuration: Option<&Configuration>,
) -> Result<Outcome<ValueView>, FilterError> {
    let net = value.as_net();
    match p {
        Placeholder::IpVersion => Ok(Outcome::Ready(ValueView::Int(if family_bits(net.addr) == 32 {
            4
        } else {
            6
        }))),
        Placeholder::Type => Ok(Outcome::Ready(ValueView::Text(match value {
            AddrOrNet::IpAddr(_) => seq!['a', 'd', 'd', 'r'],
            AddrOrNet::IpNet(_) => seq!['n', 'e', 't'],
        }))),
        Placeholder::Prefix => Ok(Outcome::Ready(ValueView::Int(net.prefix_len as int))),
        Placeholder::Hosts => if net.host_bits() < 63 {
            Ok(Outcome::Ready(ValueView::Int(pow2(net.host_bits()) as int)))
        } else {
            Err(FilterError::TooManyHosts)
        },
        Placeholder::Group | Placeholder::Groups => match configuration {
            None => Err(FilterError::Classify(ClassifyError::NoConfiguration)),
            Some(c) => match c.groups {
                None => Err(FilterError::Classify(ClassifyError::NoGroups)),
                Some(gs) => match scan_from(gs@, value, p == Placeholder::Group, 0) {
                    Err(k) => Ok(Outcome::Load(k as usize)),
                    Ok(ns) => if p == Placeholder::Group {
                        if ns.len() == 0 {
                            Ok(Outcome::Ready(ValueView::Empty))
                        } else {
                            Ok(Outcome::Ready(ValueView::Text(ns[0]@)))
                        }
                    } else {
                        Ok(Outcome::Ready(ValueView::Texts(ns.map_values(|s: String| s@))))
                    },
                },
            },
        },
    }
}

/// A resolution outcome with its value as plain data.
pub open spec fn outcome_view(r: Result<Outcome<Value>, FilterError>) -> Result<Outcome<ValueView>, FilterError> {
    match r {
        Ok(Outcome::Ready(v)) => Ok(Outcome::Ready(v@)),
        Ok(Outcome::Load(k)) => Ok(Outcome::Load(k)),
        Err(e) => Err(e),
    }
}

/// `2^h` as an `i64`, for `h` below 63.
fn pow2_i64(h: u8) -> (r: i64)
    requires
        h < 63,
    ensures
        r as int == pow2(h as nat),
{
    let mut r: i64 = 1;
    let mut i: u8 = 0;
    proof {
        vstd::arithmetic::power2::lemma2_to64();
    }
    while i < h
        invariant
            i <= h < 63,
            r as int == pow2(i as nat),
        decreases h - i,
    {
        proof {
            vstd::arithmetic::power2::lemma_pow2_unfold((i + 1) as nat);
            vstd::arithmetic::power2::lemma2_to64();
            if i + 1 < 63 {
                lemma_pow2_strictly_increases((i + 1) as nat, 63);
            }
            assert(((i + 1) as nat - 1) as nat == i as nat);
            assert(pow2((i + 1) as nat) == 2 * pow2(i as nat));
            vstd::arithmetic::power2::lemma2_to64_rest();
        }
        r = r * 2;
        i = i + 1;
    }
    r
}

impl Placeholder {
    /// The value of the placeholder for `value`. The group placeholders
    /// consult the configuration, and ask for a group to be loaded when the
    /// scan reaches one that is not resolved.
    pub fn resolve(self, value: &AddrOrNet, configuration: Option<&Configuration>) -> (r: Result<
        Outcome<Value>,
        FilterError,
    >)
        requires
            value.wf(),
        ensures
            outcome_view(r) == resolution(self, *value, configuration),
    {
        let net = value.to_net();
        match self {
            Placeholder::IpVersion => Ok(Outcome::Ready(Value::Int(
                match net.addr {
                    IpAddr::V4(_) => 4,
                    IpAddr::V6(_) => 6,
                },
            ))),
            Placeholder::Type => {
                proof {
                    reveal_strlit("addr");
                    reveal_strlit("net");
                }
                let s = match value {
                    AddrOrNet::IpAddr(_) => "addr".to_owned(),
                    AddrOrNet::IpNet(_) => "net".to_owned(),
                };
                assert(s@ =~= match *value {
                    AddrOrNet::IpAddr(_) => seq!['a', 'd', 'd', 'r'],
                    AddrOrNet::IpNet(_) => seq!['n', 'e', 't'],
                });
                Ok(Outcome::Ready(Value::Text(s)))
            },
            Placeholder::Prefix => Ok(Outcome::Ready(Value::Int(net.prefix_len as i64))),
            Placeholder::Hosts => {
                let h: u8 = max_prefix_len(&net.addr) - net.prefix_len;
                if h >= 63 {
                    Err(FilterError::TooManyHosts)
                } else {
                    Ok(Outcome::Ready(Value::Int(pow2_i64(h))))
                }
            },
            Placeholder::Group | Placeholder::Groups => {
                let first_only = match self {
                    Placeholder::Group => true,
                    _ => false,
                };
                match matching_groups(value, configuration, first_only) {
                    Err(e) => Err(FilterError::Classify(e)),
                    Ok(Scan::Load(k)) => Ok(Outcome::Load(k)),
                    Ok(Scan::Done(names)) => {
                        if first_only {
                            if names.len() == 0 {
                                Ok(Outcome::Ready(Value::Empty))
                            } else {
                                Ok(Outcome::Ready(Value::Text(names[0].clone())))
                            }
                        } else {
                            let r = Value::Texts(names);
                            assert(r@ == ValueView::Texts(names@.map_values(|s: String| s@)));
                            Ok(Outcome::Ready(r))
                        }
                    },
                }
            },
        }
    }
}

/// The bindings of the placeholders `ps`, in order, for `value`: each name
/// with its value; or the first placeholder's error or request to load a
/// group.
pub open spec fn bindings_for(
    ps: Seq<Placeholder>,
    value: AddrOrNet,
    configuration: Option<&Configuration>,
) -> Result<Outcome<Seq<(Seq<char>, ValueView)>>, FilterError>
    decreases ps.len(),
{
    if ps.len() == 0 {
        Ok(Outcome::Ready(seq![]))
    } else {
        match bindings_for(ps.drop_last(), value, configuration) {
            Ok(Outcome::Ready(bs)) => match resolution(ps.last(), value, configuration) {
                Ok(Outcome::Ready(v)) => Ok(Outcome::Ready(bs.push((placeholder_name(ps.last()), v)))),
                Ok(Outcome::Load(k)) => Ok(Outcome::Load(k)),
                Err(e) => Err(e),
            },
            other => other,
        }
    }
}

/// Evaluates a query with each name bound to its value.
pub fn evaluate(query: &str, bindings: &Vec<(String, Value)>) -> (r: Result<bool, FilterError>)
    requires
        query_admitted(query@),
    ensures
        match query_result(query@, bindings_view(bindings@)) {
            Some(b) => r == Ok::<bool, FilterError>(b),
            None => r matches Err(FilterError::Expression(_)),
        },
{
    match eval_query(query, bindings) {
        Ok(b) => Ok(b),
        Err(m) => Err(FilterError::Expression(m)),
    }
}

/// Whether `value` passes the filter `query`, which refers to the
/// placeholders `requested` (see `Placeholder::requested`): only those are
/// given values. When a group must be loaded first, its index is returned
/// instead.
pub fn filter_value(
    query: &str,
    requested: &Vec<Placeholder>,
    value: &AddrOrNet,
    configuration: Option<&Configuration>,
) -> (r: Result<Outcome<bool>, FilterError>)
    requires
        value.wf(),
        query_admitted(query@),
    ensures
        match bindings_for(requested@, *value, configuration) {
            Err(e) => r == Err::<Outcome<bool>, FilterError>(e),
            Ok(Outcome::Load(k)) => r == Ok::<Outcome<bool>, FilterError>(Outcome::Load(k)),
            Ok(Outcome::Ready(bs)) => match query_result(query@, bs) {
                Some(b) => r == Ok::<Outcome<bool>, FilterError>(Outcome::Ready(b)),
                None => r matches Err(FilterError::Expression(_)),
            },
        },
{
    let mut bindings: Vec<(String, Value)> = Vec::new();
    let mut i: usize = 0;
    assert(requested@.take(0) =~= Seq::<Placeholder>::empty());
    assert(bindings_view(bindings@) =~= Seq::<(Seq<char>, ValueView)>::empty());
    while i < requested.len()
        invariant
            i <= requested@.len(),
            value.wf(),
            bindings_for(requested@.take(i as int), *value, configuration) == Ok::<
                Outcome<Seq<(Seq<char>, ValueView)>>,
                FilterError,
            >(Outcome::Ready(bindings_view(bindings@))),
        decreases requested@.len() - i,
    {
        let p = requested[i];
        let ghost pre = requested@.take(i as int);
        assert(requested@.take(i + 1).drop_last() =~= pre);
        let r = p.resolve(value, configuration);
        match r {
            Ok(Outcome::Ready(v)) => {
                let ghost before = bindings@;
                bindings.push((p.name().to_owned(), v));
                assert(bindings_view(bindings@) =~= bindings_view(before).push(
                    (placeholder_name(p), v@),
                ));
            },
            Ok(Outcome::Load(k)) => {
                proof {
                    lemma_bindings_stop(requested@, i as int, *value, configuration);
                }
                return Ok(Outcome::Load(k));
            },
            Err(e) => {
                proof {
                    lemma_bindings_stop(requested@, i as int, *value, configuration);
                }
                return Err(e);
            },
        }
        i = i + 1;
    }
    assert(requested@.take(i as int) =~= requested@);
    match evaluate(query, &bindings) {
        Ok(b) => Ok(Outcome::Ready(b)),
        Err(e) => Err(e),
    }
}

/// Once a placeholder stops the bindings, later placeholders do not change
/// the outcome.
proof fn lemma_bindings_stop(
    ps: Seq<Placeholder>,
    i: int,
    value: AddrOrNet,
    configuration: Option<&Configuration>,
)
    requires
        0 <= i < ps.len(),
        !(bindings_for(ps.take(i + 1), value, configuration) is Ok && bindings_for(
            ps.take(i + 1),
            value,
            configuration,
        )->Ok_0 is Ready),
    ensures
        bindings_for(ps, value, configuration) == bindings_for(ps.take(i + 1), value, configuration),
    decreases ps.len() - i,
{
    if i + 1 < ps.len() {
        assert(ps.take(i + 2).drop_last() =~= ps.take(i + 1));
        lemma_bindings_stop(ps, i + 1, value, configuration);
    } else {
        assert(ps.take(i + 1) =~= ps);
    }
}

} // verus!
