//! Where raw text comes from: a file, standard input, or an inline argument.

use vstd::prelude::*;

verus! {

/// One origin of raw text. Reading a file or standard input is left to the
/// caller; an inline argument stands for itself as a single line.
#[derive(Clone, Debug)]
pub enum Source {
    File(String),
    Stdin,
    Arg(String),
}

impl Source {
    /// The source that a command-line token names: `-` is standard input,
    /// any other token a file path.
    pub fn from_token(token: &str) -> (r: Source)
        ensures
            token@ == seq!['-'] ==> r is Stdin,
            token@ != seq!['-'] ==> (r matches Source::File(p) && p@ == token@),
    {
        let t = token.to_owned();
        let dash = "-".to_owned();
        proof {
            reveal_strlit("-");
            assert(dash@ =~= seq!['-']);
        }
        if t.eq(&dash) {
            Source::Stdin
        } else {
            Source::File(t)
        }
    }
}

/// A character of Unicode's `White_Space` property.
pub open spec fn is_white_space(c: char) -> bool {
    let u = c as u32;
    ||| 0x09 <= u <= 0x0d
    ||| u == 0x20
    ||| u == 0x85
    ||| u == 0xa0
    ||| u == 0x1680
    ||| 0x2000 <= u <= 0x200a
    ||| u == 0x2028
    ||| u == 0x2029
    ||| u == 0x202f
    ||| u == 0x205f
    ||| u == 0x3000
}

/// The text without its leading white space.
pub open spec fn trimmed_start(s: Seq<char>) -> Seq<char>
    decreases s.len(),
{
    if s.len() > 0 && is_white_space(s[0]) {
        trimmed_start(s.drop_first())
    } else {
        s
    }
}

/// The text without its trailing white space.
pub open spec fn trimmed_end(s: Seq<char>) -> Seq<char>
    decreases s.len(),
{
    if s.len() > 0 && is_white_space(s.last()) {
        trimmed_end(s.drop_last())
    } else {
        s
    }
}

/// The text without leading and trailing white space.
pub open spec fn trimmed(s: Seq<char>) -> Seq<char> {
    trimmed_end(trimmed_start(s))
}

/// Relies on std's `str::trim`, which removes leading and trailing
/// whitespace as Unicode's `White_Space` property defines it.
#[verifier::external_body]
pub(crate) fn trim(s: &str) -> (r: &str)
    ensures
        r@ == trimmed(s@),
{
    s.trim()
}

/// Standard input was named more than once.
#[derive(Clone, Copy, Debug, PartialEq, Eq, Structural)]
pub struct RepeatedStdin;

/// How many of the sources are standard input.
pub open spec fn stdin_count(s: Seq<Source>) -> nat
    decreases s.len(),
{
    if s.len() == 0 {
        0
    } else {
        stdin_count(s.drop_last()) + if s.last() is Stdin {
            1nat
        } else {
            0nat
        }
    }
}

/// The sources of a run: the inline arguments first, then the inputs
/// named by option; standard input alone when there are neither. Standard
/// input may be named once at most.
pub fn collect_sources(args: Vec<String>, inputs: Vec<Source>) -> (r: Result<Vec<Source>, RepeatedStdin>)
    ensures
        args@.len() == 0 && inputs@.len() == 0 ==> (r matches Ok(v) && v@ == seq![Source::Stdin]),
        args@.len() + inputs@.len() > 0 ==> (r is Err <==> stdin_count(inputs@) >= 2),
        args@.len() + inputs@.len() > 0 ==> (r matches Ok(v) ==> v@ == args@.map_values(
            |a: String| Source::Arg(a),
        ) + inputs@),
{
    if args.len() == 0 && inputs.len() == 0 {
        let mut v: Vec<Source> = Vec::new();
        v.push(Source::Stdin);
        assert(v@ =~= seq![Source::Stdin]);
        return Ok(v);
    }
    let mut count: usize = 0;
    let mut i: usize = 0;
    while i < inputs.len()
        invariant
            i <= inputs@.len(),
            count == stdin_count(inputs@.take(i as int)),
            count <= i,
        decreases inputs@.len() - i,
    {
        assert(inputs@.take(i + 1).drop_last() =~= inputs@.take(i as int));
        match &inputs[i] {
            Source::Stdin => {
                count = count + 1;
            },
            _ => {},
        }
        i = i + 1;
    }
    assert(inputs@.take(i as int) =~= inputs@);
    if count >= 2 {
        return Err(RepeatedStdin);
    }
    let mut out: Vec<Source> = Vec::new();
    let mut j: usize = 0;
    while j < args.len()
        invariant
            j <= args@.len(),
            out@ =~= args@.take(j as int).map_values(|a: String| Source::Arg(a)),
        decreases args@.len() - j,
    {
        out.push(Source::Arg(args[j].clone()));
        j = j + 1;
        assert(out@ =~= args@.take(j as int).map_values(|a: String| Source::Arg(a)));
    }
    assert(args@.take(j as int) =~= args@);
    let ghost head = out@;
    let mut k: usize = 0;
    while k < inputs.len()
        invariant
            k <= inputs@.len(),
            out@ =~= head + inputs@.take(k as int),
        decreases inputs@.len() - k,
    {
        out.push(copy_source(&inputs[k]));
        k = k + 1;
        assert(out@ =~= head + inputs@.take(k as int));
    }
    assert(inputs@.take(k as int) =~= inputs@);
    Ok(out)
}

/// A copy of a source that is equal to it.
pub fn copy_source(s: &Source) -> (r: Source)
    ensures
        r == *s,
{
    match s {
        Source::File(p) => Source::File(p.clone()),
        Source::Stdin => Source::Stdin,
        Source::Arg(a) => Source::Arg(a.clone()),
    }
}

} // verus!
