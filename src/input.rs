//! The input container: either the sources not yet read and parsed, or the
//! parsed values in memory.
//!
//! Reading a file or standard input happens outside this library: the
//! caller reads each source that is not an inline argument and hands the
//! outcome over (`read[i]` for `sources[i]`). From there on, splitting into
//! items, skipping blank lines, parsing, sorting and removing duplicates is
//! done here.

use crate::element::Element;
use crate::source::{trim, trimmed, Source};
use vstd::multiset::Multiset;
use vstd::prelude::*;

verus! {

broadcast use vstd::seq_lib::group_to_multiset_ensures;

/// Why a value could not be produced.
#[derive(Clone, Debug, PartialEq, Eq)]
pub enum InputError {
    /// A source could not be read; the message says why.
    Io(String),
    /// A line is not a valid address or network; the line as read.
    Parse(String),
}

/// What the caller read from one source: its lines, or why it failed.
pub type ReadOutcome = Result<Vec<String>, InputError>;

/// A copy of an error that is equal to it.
pub fn copy_error(e: &InputError) -> (r: InputError)
    ensures
        r == *e,
{
    match e {
        InputError::Io(s) => InputError::Io(s.clone()),
        InputError::Parse(s) => InputError::Parse(s.clone()),
    }
}

/// The lines that one source contributes: an inline argument is its own
/// single line; a file or standard input gives the lines read from it, or
/// the error met in reading it.
pub open spec fn source_stream(src: Source, read: ReadOutcome) -> Seq<Result<String, InputError>> {
    match src {
        Source::Arg(a) => seq![Ok(a)],
        _ => match read {
            Ok(lines) => lines@.map_values(|l: String| Ok::<String, InputError>(l)),
            Err(e) => seq![Err(e)],
        },
    }
}

/// The lines of all sources, in order.
pub open spec fn line_stream(srcs: Seq<Source>, read: Seq<ReadOutcome>) -> Seq<Result<String, InputError>>
    decreases srcs.len(),
{
    if srcs.len() == 0 {
        seq![]
    } else {
        line_stream(srcs.drop_last(), read) + source_stream(srcs.last(), read[srcs.len() - 1])
    }
}

/// The item that one line gives: nothing for a blank line, else the value
/// that its trimmed text parses to, or a parse error carrying the line.
pub open spec fn line_items<T: Element>(l: Result<String, InputError>) -> Seq<Result<T, InputError>> {
    match l {
        Err(e) => seq![Err(e)],
        Ok(s) => if trimmed(s@).len() == 0 {
            seq![]
        } else {
            match T::parse_spec(trimmed(s@)) {
                Some(v) => seq![Ok(v)],
                None => seq![Err(InputError::Parse(s))],
            }
        },
    }
}

/// The items that iterating a stream of lines yields.
pub open spec fn lazy_items<T: Element>(stream: Seq<Result<String, InputError>>) -> Seq<Result<T, InputError>>
    decreases stream.len(),
{
    if stream.len() == 0 {
        seq![]
    } else {
        lazy_items::<T>(stream.drop_last()) + line_items::<T>(stream.last())
    }
}

/// All the values of a sequence of items, or its first error.
pub open spec fn collect_values<T>(items: Seq<Result<T, InputError>>) -> Result<Seq<T>, InputError>
    decreases items.len(),
{
    if items.len() == 0 {
        Ok(seq![])
    } else {
        match collect_values(items.drop_last()) {
            Err(e) => Err(e),
            Ok(vs) => match items.last() {
                Ok(v) => Ok(vs.push(v)),
                Err(e) => Err(e),
            },
        }
    }
}

/// The values in memory wrapped as successful items.
pub open spec fn ok_items<T>(vs: Seq<T>) -> Seq<Result<T, InputError>> {
    vs.map_values(|v: T| Ok::<T, InputError>(v))
}

/// `s` is in order.
pub open spec fn sorted<T: Element>(s: Seq<T>) -> bool {
    forall|i: int, j: int| 0 <= i < j < s.len() ==> #[trigger] s[i].le(#[trigger] s[j])
}

/// `r` is `x` in order: sorted, with the same values the same number of
/// times.
pub open spec fn is_sorted_form<T: Element>(x: Seq<T>, r: Seq<T>) -> bool {
    &&& sorted(r)
    &&& r.to_multiset() == x.to_multiset()
}

/// The first occurrence of each value of `s`, in order.
pub open spec fn first_occurrences<T>(s: Seq<T>) -> Seq<T>
    decreases s.len(),
{
    if s.len() == 0 {
        seq![]
    } else {
        let d = first_occurrences(s.drop_last());
        if d.contains(s.last()) {
            d
        } else {
            d.push(s.last())
        }
    }
}

/// `r` is `x` without duplicates: each value of `x` once, in the order of
/// first appearance, so that a sorted `x` gives a sorted `r`.
pub open spec fn is_unique_form<T: Element>(x: Seq<T>, r: Seq<T>) -> bool {
    &&& r == first_occurrences(x)
    &&& r.no_duplicates()
    &&& forall|v: T| r.contains(v) <==> x.contains(v)
    &&& sorted(x) ==> sorted(r)
}

/// The parse outcome of one line, for iterating without materialising:
/// `None` for a blank line.
pub fn parse_line<T: Element>(line: &String) -> (r: Option<Result<T, InputError>>)
    ensures
        line_items::<T>(Ok(*line)) == match r {
            None => Seq::<Result<T, InputError>>::empty(),
            Some(item) => seq![item],
        },
{
    let t = trim(line.as_str());
    if t.unicode_len() == 0 {
        None
    } else {
        match T::parse(t) {
            Some(v) => Some(Ok(v)),
            None => Some(Err(InputError::Parse(line.clone()))),
        }
    }
}

/// The lines of all sources, in order (`read[i]` is what reading
/// `sources[i]` gave; it is not looked at for an inline argument).
pub fn stream_of(sources: &Vec<Source>, read: &Vec<ReadOutcome>) -> (r: Vec<Result<String, InputError>>)
    requires
        read@.len() == sources@.len(),
    ensures
        r@ == line_stream(sources@, read@),
{
    let mut out: Vec<Result<String, InputError>> = Vec::new();
    let mut i: usize = 0;
    while i < sources.len()
        invariant
            i <= sources@.len() == read@.len(),
            out@ == line_stream(sources@.take(i as int), read@),
        decreases sources@.len() - i,
    {
        let ghost before = out@;
        match &sources[i] {
            Source::Arg(a) => {
                out.push(Ok(a.clone()));
            },
            _ => match &read[i] {
                Ok(lines) => {
                    let mut j: usize = 0;
                    while j < lines.len()
                        invariant
                            j <= lines@.len(),
                            out@ =~= before + lines@.take(j as int).map_values(
                                |l: String| Ok::<String, InputError>(l),
                            ),
                        decreases lines@.len() - j,
                    {
                        out.push(Ok(lines[j].clone()));
                        j = j + 1;
                        assert(out@ =~= before + lines@.take(j as int).map_values(
                            |l: String| Ok::<String, InputError>(l),
                        ));
                    }
                    assert(lines@.take(j as int) =~= lines@);
                },
                Err(e) => {
                    out.push(Err(copy_error(e)));
                },
            },
        }
        assert(sources@.take(i + 1).drop_last() =~= sources@.take(i as int));
        assert(out@ =~= line_stream(sources@.take(i + 1), read@));
        i = i + 1;
    }
    assert(sources@.take(i as int) =~= sources@);
    out
}

/// The items that iterating a stream of lines yields: blank lines skipped,
/// other lines parsed, errors passed on in place.
pub fn lazy_values<T: Element>(stream: &Vec<Result<String, InputError>>) -> (r: Vec<Result<T, InputError>>)
    ensures
        r@ == lazy_items::<T>(stream@),
{
    let mut out: Vec<Result<T, InputError>> = Vec::new();
    let mut i: usize = 0;
    while i < stream.len()
        invariant
            i <= stream@.len(),
            out@ == lazy_items::<T>(stream@.take(i as int)),
        decreases stream@.len() - i,
    {
        match &stream[i] {
            Ok(line) => match parse_line::<T>(line) {
                Some(item) => out.push(item),
                None => {},
            },
            Err(e) => out.push(Err(copy_error(e))),
        }
        assert(stream@.take(i + 1).drop_last() =~= stream@.take(i as int));
        assert(out@ =~= lazy_items::<T>(stream@.take(i + 1)));
        i = i + 1;
    }
    assert(stream@.take(i as int) =~= stream@);
    out
}

/// Every value of a stream of lines, or the first error met.
pub fn materialize<T: Element>(stream: &Vec<Result<String, InputError>>) -> (r: Result<Vec<T>, InputError>)
    ensures
        match r {
            Ok(v) => collect_values(lazy_items::<T>(stream@)) == Ok::<Seq<T>, InputError>(v@),
            Err(e) => collect_values(lazy_items::<T>(stream@)) == Err::<Seq<T>, InputError>(e),
        },
{
    let mut out: Vec<T> = Vec::new();
    let mut i: usize = 0;
    while i < stream.len()
        invariant
            i <= stream@.len(),
            collect_values(lazy_items::<T>(stream@.take(i as int))) == Ok::<Seq<T>, InputError>(out@),
        decreases stream@.len() - i,
    {
        let ghost items = lazy_items::<T>(stream@.take(i as int));
        assert(stream@.take(i + 1).drop_last() =~= stream@.take(i as int));
        match &stream[i] {
            Ok(line) => match parse_line::<T>(line) {
                Some(Ok(v)) => {
                    proof {
                        lemma_collect_push(items, Ok(v));
                        assert(lazy_items::<T>(stream@.take(i + 1)) =~= items.push(Ok(v)));
                    }
                    out.push(v);
                },
                Some(Err(e)) => {
                    proof {
                        lemma_err_ends(stream@, i as int, items, e);
                    }
                    return Err(e);
                },
                None => {
                    assert(lazy_items::<T>(stream@.take(i + 1)) =~= items);
                },
            },
            Err(e) => {
                let e2 = copy_error(e);
                proof {
                    lemma_err_ends(stream@, i as int, items, e2);
                }
                return Err(e2);
            },
        }
        i = i + 1;
    }
    assert(stream@.take(i as int) =~= stream@);
    Ok(out)
}

/// An error item at line `i` ends materialisation with that error.
proof fn lemma_err_ends<T: Element>(
    stream: Seq<Result<String, InputError>>,
    i: int,
    items: Seq<Result<T, InputError>>,
    e: InputError,
)
    requires
        0 <= i < stream.len(),
        items == lazy_items::<T>(stream.take(i)),
        collect_values(items) is Ok,
        line_items::<T>(stream[i]) == seq![Err::<T, InputError>(e)],
    ensures
        collect_values(lazy_items::<T>(stream)) == Err::<Seq<T>, InputError>(e),
{
    assert(stream.take(i + 1).drop_last() =~= stream.take(i));
    let upto = lazy_items::<T>(stream.take(i + 1));
    assert(upto =~= items.push(Err(e)));
    lemma_collect_push(items, Err(e));
    lemma_lazy_append::<T>(stream.take(i + 1), stream.skip(i + 1));
    assert(stream.take(i + 1) + stream.skip(i + 1) =~= stream);
    lemma_collect_err_append(upto, lazy_items::<T>(stream.skip(i + 1)));
}

proof fn lemma_collect_push<T>(items: Seq<Result<T, InputError>>, x: Result<T, InputError>)
    ensures
        collect_values(items.push(x)) == match collect_values(items) {
            Err(e) => Err(e),
            Ok(vs) => match x {
                Ok(v) => Ok(vs.push(v)),
                Err(e) => Err::<Seq<T>, InputError>(e),
            },
        },
{
    assert(items.push(x).drop_last() =~= items);
}

/// Iterating lines one by one appends their items.
proof fn lemma_lazy_append<T: Element>(a: Seq<Result<String, InputError>>, b: Seq<Result<String, InputError>>)
    ensures
        lazy_items::<T>(a + b) == lazy_items::<T>(a) + lazy_items::<T>(b),
    decreases b.len(),
{
    if b.len() == 0 {
        assert(a + b =~= a);
        assert(lazy_items::<T>(a) + lazy_items::<T>(b) =~= lazy_items::<T>(a));
    } else {
        lemma_lazy_append::<T>(a, b.drop_last());
        assert((a + b).drop_last() =~= a + b.drop_last());
        assert(lazy_items::<T>(a + b) =~= lazy_items::<T>(a) + lazy_items::<T>(b));
    }
}

proof fn lemma_collect_err_append<T>(a: Seq<Result<T, InputError>>, b: Seq<Result<T, InputError>>)
    requires
        collect_values(a) is Err,
    ensures
        collect_values(a + b) == collect_values(a),
    decreases b.len(),
{
    if b.len() == 0 {
        assert(a + b =~= a);
    } else {
        lemma_collect_err_append(a, b.drop_last());
        assert((a + b).drop_last() =~= a + b.drop_last());
    }
}

/// The values of `v` in order (selection of the least remaining value).
pub fn sort_values<T: Element>(v: &Vec<T>) -> (r: Vec<T>)
    ensures
        is_sorted_form(v@, r@),
{
    let mut rest: Vec<T> = Vec::new();
    let mut k: usize = 0;
    while k < v.len()
        invariant
            k <= v@.len(),
            rest@ == v@.take(k as int),
        decreases v@.len() - k,
    {
        rest.push(v[k]);
        k = k + 1;
        assert(rest@ =~= v@.take(k as int));
    }
    assert(rest@ =~= v@);
    let mut out: Vec<T> = Vec::new();
    while rest.len() > 0
        invariant
            out@.to_multiset().add(rest@.to_multiset()) == v@.to_multiset(),
            sorted(out@),
            forall|i: int, j: int| 0 <= i < out@.len() && 0 <= j < rest@.len() ==> #[trigger] out@[i].le(
                #[trigger] rest@[j],
            ),
        decreases rest@.len(),
    {
        let mut m: usize = 0;
        let mut j: usize = 1;
        proof {
            T::lemma_order(rest@[0], rest@[0], rest@[0]);
        }
        while j < rest.len()
            invariant
                0 <= m < rest@.len(),
                1 <= j <= rest@.len(),
                forall|t: int| 0 <= t < j ==> #[trigger] rest@[m as int].le(rest@[t]),
            decreases rest@.len() - j,
        {
            if !rest[m].is_le(&rest[j]) {
                proof {
                    assert forall|t: int| 0 <= t < j implies #[trigger] rest@[j as int].le(rest@[t]) by {
                        T::lemma_order(rest@[j as int], rest@[m as int], rest@[t]);
                        T::lemma_order(rest@[m as int], rest@[j as int], rest@[t]);
                    }
                    T::lemma_order(rest@[j as int], rest@[j as int], rest@[j as int]);
                }
                m = j;
            } else {
                proof {
                    T::lemma_order(rest@[m as int], rest@[j as int], rest@[j as int]);
                }
            }
            j = j + 1;
        }
        let ghost old_rest = rest@;
        let ghost old_out = out@;
        let x = rest.remove(m);
        proof {
            assert(old_rest.remove(m as int).to_multiset() =~= old_rest.to_multiset().remove(x));
            assert(old_out.push(x).to_multiset() =~= old_out.to_multiset().insert(x));
            assert(old_rest.to_multiset().contains(x)) by {
                assert(old_rest.contains(x)) by {
                    assert(old_rest[m as int] == x);
                }
            }
            assert(old_out.to_multiset().insert(x).add(old_rest.to_multiset().remove(x))
                =~= old_out.to_multiset().add(old_rest.to_multiset()));
            assert forall|i: int, t: int| 0 <= i < old_out.len() + 1 && 0 <= t < rest@.len() implies
                #[trigger] old_out.push(x)[i].le(#[trigger] rest@[t]) by {
                assert(rest@[t] == old_rest[if t < m { t } else { t + 1 }]);
            }
        }
        out.push(x);
    }
    proof {
        assert(rest@.to_multiset() =~= Multiset::empty());
        assert(out@.to_multiset().add(Multiset::empty()) =~= out@.to_multiset());
    }
    out
}

/// The values of `v` without duplicates, each kept where it first appears.
pub fn unique_values<T: Element>(v: &Vec<T>) -> (r: Vec<T>)
    ensures
        is_unique_form(v@, r@),
{
    let mut out: Vec<T> = Vec::new();
    let mut i: usize = 0;
    while i < v.len()
        invariant
            i <= v@.len(),
            out@.no_duplicates(),
            forall|x: T| out@.contains(x) <==> v@.take(i as int).contains(x),
            sorted(v@) ==> sorted(out@),
            sorted(v@) && i > 0 ==> out@.len() > 0 && out@.last() == v@[i - 1],
            i == 0 ==> out@.len() == 0,
            out@ == first_occurrences(v@.take(i as int)),
        decreases v@.len() - i,
    {
        let x = v[i];
        let mut found = false;
        let mut j: usize = 0;
        while j < out.len()
            invariant
                j <= out@.len(),
                found <==> exists|t: int| 0 <= t < j && out@[t] == x,
            decreases out@.len() - j,
        {
            if out[j].is_eq(&x) {
                found = true;
            }
            j = j + 1;
        }
        let ghost old_out = out@;
        proof {
            if found {
                let t = choose|t: int| 0 <= t < old_out.len() && old_out[t] == x;
                assert(old_out.contains(x));
            }
            if sorted(v@) && i > 0 {
                assert(v@[i - 1].le(v@[i as int]));
                assert(old_out.last().le(x));
            }
        }
        if !found {
            proof {
                if sorted(v@) {
                    lemma_sorted_push(old_out, x);
                }
            }
            out.push(x);
        } else {
            proof {
                if sorted(v@) && i > 0 {
                    let t = choose|t: int| 0 <= t < old_out.len() && old_out[t] == x;
                    if t < old_out.len() - 1 {
                        assert(old_out[t].le(old_out[old_out.len() - 1]));
                    }
                    T::lemma_order(old_out.last(), x, x);
                }
            }
        }
        proof {
            let tk = v@.take(i + 1);
            assert(tk =~= v@.take(i as int).push(x));
            assert(tk.drop_last() =~= v@.take(i as int));
            if found {
                assert(out@ == first_occurrences(tk));
            } else {
                assert(!old_out.contains(x));
                assert(out@ == first_occurrences(tk));
            }
            assert forall|y: T| out@.contains(y) <==> tk.contains(y) by {
                lemma_push_contains(v@.take(i as int), x, y);
                if !found {
                    lemma_push_contains(old_out, x, y);
                }
            }
        }
        i = i + 1;
    }
    assert(v@.take(i as int) =~= v@);
    out
}

proof fn lemma_push_contains<T>(s: Seq<T>, x: T, y: T)
    ensures
        s.push(x).contains(y) <==> (s.contains(y) || y == x),
{
    if s.contains(y) {
        let t = choose|t: int| 0 <= t < s.len() && s[t] == y;
        assert(s.push(x)[t] == y);
    }
    if y == x {
        assert(s.push(x)[s.len() as int] == y);
    }
    if s.push(x).contains(y) && y != x {
        let t = choose|t: int| 0 <= t < s.len() + 1 && s.push(x)[t] == y;
        assert(s[t] == y);
    }
}

proof fn lemma_sorted_push<T: Element>(s: Seq<T>, x: T)
    requires
        sorted(s),
        s.len() > 0 ==> s.last().le(x),
    ensures
        sorted(s.push(x)),
{
    assert forall|a: int, b: int| 0 <= a < b < s.len() + 1 implies #[trigger] s.push(x)[a].le(
        #[trigger] s.push(x)[b],
    ) by {
        if b == s.len() && a < s.len() - 1 {
            assert(s[a].le(s[s.len() - 1]));
            T::lemma_order(s[a], s.last(), x);
        }
    }
}

/// The values that an input holds or, for a lazy input, would hold once
/// read (`read[i]` for its `i`-th source); else the first error met.
pub open spec fn materialized<T: Element>(input: Input<T>, read: Seq<ReadOutcome>) -> Result<Seq<T>, InputError> {
    match input {
        Input::Memory(v) => Ok(v@),
        Input::Lazy(srcs) => collect_values(lazy_items::<T>(line_stream(srcs@, read))),
    }
}

/// The items that iterating an input yields.
pub open spec fn iterated<T: Element>(input: Input<T>, read: Seq<ReadOutcome>) -> Seq<Result<T, InputError>> {
    match input {
        Input::Memory(v) => ok_items(v@),
        Input::Lazy(srcs) => lazy_items::<T>(line_stream(srcs@, read)),
    }
}

/// What the caller must hand over to read a lazy input: one outcome per
/// source.
pub open spec fn read_fits<T>(input: Input<T>, read: Seq<ReadOutcome>) -> bool {
    match input {
        Input::Memory(_) => true,
        Input::Lazy(srcs) => read.len() == srcs@.len(),
    }
}

/// Values parsed from text, either all in memory or still to be read.
pub enum Input<T> {
    /// Values already parsed.
    Memory(Vec<T>),
    /// Sources not yet read or parsed.
    Lazy(Vec<Source>),
}

impl<T: Element> Input<T> {
    /// Reads and parses every value, so that the input is in memory; an
    /// input already in memory stays as it is. On the first error the input
    /// is left unchanged and the error is returned.
    pub fn to_memory(&mut self, read: &Vec<ReadOutcome>) -> (r: Result<(), InputError>)
        requires
            read_fits(*old(self), read@),
        ensures
            match materialized(*old(self), read@) {
                Ok(vs) => r is Ok && (*final(self) matches Input::Memory(v) && v@ == vs),
                Err(e) => r == Err::<(), InputError>(e) && *final(self) == *old(self),
            },
            *old(self) is Memory ==> *final(self) == *old(self),
    {
        let values = match &*self {
            Input::Memory(_) => {
                return Ok(());
            },
            Input::Lazy(srcs) => {
                let stream = stream_of(srcs, read);
                materialize::<T>(&stream)
            },
        };
        match values {
            Ok(v) => {
                *self = Input::Memory(v);
                Ok(())
            },
            Err(e) => Err(e),
        }
    }

    /// Puts the values in order, reading and parsing them first if needed.
    pub fn sort(&mut self, read: &Vec<ReadOutcome>) -> (r: Result<(), InputError>)
        requires
            read_fits(*old(self), read@),
        ensures
            match materialized(*old(self), read@) {
                Ok(vs) => r is Ok && (*final(self) matches Input::Memory(v) && is_sorted_form(vs, v@)),
                Err(e) => r == Err::<(), InputError>(e) && *final(self) == *old(self),
            },
    {
        match self.to_memory(read) {
            Ok(()) => {},
            Err(e) => {
                return Err(e);
            },
        }
        let sorted_values = match &*self {
            Input::Memory(v) => sort_values(v),
            Input::Lazy(_) => {
                return Ok(());
            },
        };
        *self = Input::Memory(sorted_values);
        Ok(())
    }

    /// Removes duplicate values, keeping each where it first appears;
    /// reads and parses the values first if needed.
    pub fn unique(&mut self, read: &Vec<ReadOutcome>) -> (r: Result<(), InputError>)
        requires
            read_fits(*old(self), read@),
        ensures
            match materialized(*old(self), read@) {
                Ok(vs) => r is Ok && (*final(self) matches Input::Memory(v) && is_unique_form(vs, v@)),
                Err(e) => r == Err::<(), InputError>(e) && *final(self) == *old(self),
            },
    {
        match self.to_memory(read) {
            Ok(()) => {},
            Err(e) => {
                return Err(e);
            },
        }
        let unique = match &*self {
            Input::Memory(v) => unique_values(v),
            Input::Lazy(_) => {
                return Ok(());
            },
        };
        *self = Input::Memory(unique);
        Ok(())
    }

    /// The items that iterating the input yields: the values in memory, or
    /// for a lazy input the parse outcome of each non-blank line in order,
    /// read errors in their place.
    pub fn into_items(self, read: &Vec<ReadOutcome>) -> (r: Vec<Result<T, InputError>>)
        requires
            read_fits(self, read@),
        ensures
            r@ == iterated(self, read@),
    {
        match self {
            Input::Memory(v) => {
                let mut out: Vec<Result<T, InputError>> = Vec::new();
                let mut i: usize = 0;
                while i < v.len()
                    invariant
                        i <= v@.len(),
                        out@ =~= ok_items(v@.take(i as int)),
                    decreases v@.len() - i,
                {
                    out.push(Ok(v[i]));
                    i = i + 1;
                    assert(out@ =~= ok_items(v@.take(i as int)));
                }
                assert(v@.take(i as int) =~= v@);
                out
            },
            Input::Lazy(srcs) => {
                let stream = stream_of(&srcs, read);
                lazy_values::<T>(&stream)
            },
        }
    }
}

/// Materialising a sequence of items gives its values exactly when every
/// item is a value, and otherwise the first error, preceded by values only.
proof fn lemma_collect_values<T>(items: Seq<Result<T, InputError>>)
    ensures
        collect_values(items) matches Ok(vs) ==> items == ok_items(vs),
        collect_values(items) matches Err(e) ==> exists|k: int|
            0 <= k < items.len() && items[k] == Err::<T, InputError>(e) && forall|j: int|
                0 <= j < k ==> (#[trigger] items[j]) is Ok,
    decreases items.len(),
{
    if items.len() > 0 {
        let init = items.drop_last();
        lemma_collect_values(init);
        match collect_values(init) {
            Ok(vs) => {
                assert(items =~= init.push(items.last()));
                match items.last() {
                    Ok(v) => {
                        assert(items =~= ok_items(vs.push(v)));
                    },
                    Err(e) => {
                        assert forall|j: int| 0 <= j < items.len() - 1 implies (#[trigger] items[j]) is Ok by {
                            assert(items[j] == init[j]);
                        }
                        assert(items[items.len() - 1] == Err::<T, InputError>(e));
                    },
                }
            },
            Err(e) => {
                let k = choose|k: int|
                    0 <= k < init.len() && init[k] == Err::<T, InputError>(e) && forall|j: int|
                        0 <= j < k ==> (#[trigger] init[j]) is Ok;
                assert(items[k] == init[k]);
                assert forall|j: int| 0 <= j < k implies (#[trigger] items[j]) is Ok by {
                    assert(items[j] == init[j]);
                }
            },
        }
    } else {
        assert(items =~= ok_items(Seq::<T>::empty()));
    }
}

/// Iterating an input without materialising it yields what iterating it
/// after materialising yields: the same values in the same order when
/// materialising succeeds; when it fails, iteration meets that same error,
/// after values only.
pub proof fn law_lazy_iteration_matches_memory<T: Element>(input: Input<T>, read: Seq<ReadOutcome>)
    requires
        read_fits(input, read),
    ensures
        materialized(input, read) is Ok ==> iterated(input, read) == ok_items(
            materialized(input, read)->Ok_0,
        ),
        materialized(input, read) is Err ==> exists|k: int|
            0 <= k < iterated(input, read).len() && iterated(input, read)[k] == Err::<T, InputError>(
                materialized(input, read)->Err_0,
            ) && forall|j: int| 0 <= j < k ==> (#[trigger] iterated(input, read)[j]) is Ok,
{
    match input {
        Input::Memory(v) => {
            assert(materialized(input, read) == Ok::<Seq<T>, InputError>(v@));
            assert(iterated(input, read) == ok_items(v@));
        },
        Input::Lazy(srcs) => {
            let items = lazy_items::<T>(line_stream(srcs@, read));
            lemma_collect_values(items);
            assert(iterated(input, read) == items);
            if let Err(e) = collect_values(items) {
                let k = choose|k: int|
                    0 <= k < items.len() && items[k] == Err::<T, InputError>(e) && forall|j: int|
                        0 <= j < k ==> (#[trigger] items[j]) is Ok;
                assert(forall|j: int| 0 <= j < k ==> (#[trigger] iterated(input, read)[j]) is Ok);
            }
        },
    }
}

/// Two sorted sequences without duplicates that hold the same values are
/// equal.
proof fn lemma_sorted_distinct_eq<T: Element>(a: Seq<T>, b: Seq<T>)
    requires
        sorted(a),
        sorted(b),
        a.no_duplicates(),
        b.no_duplicates(),
        forall|v: T| a.contains(v) <==> b.contains(v),
    ensures
        a == b,
    decreases a.len(),
{
    if a.len() == 0 {
        if b.len() > 0 {
            assert(b.contains(b[0]));
        }
        assert(a =~= b);
    } else {
        assert(a.contains(a[0]));
        assert(b.len() > 0);
        assert(b.contains(b[0]));
        let ia = choose|i: int| 0 <= i < a.len() && a[i] == b[0];
        let ib = choose|i: int| 0 <= i < b.len() && b[i] == a[0];
        if ia > 0 {
            assert(a[0].le(a[ia]));
        }
        if ib > 0 {
            assert(b[0].le(b[ib]));
        }
        T::lemma_order(a[0], b[0], b[0]);
        T::lemma_order(a[0], a[0], a[0]);
        assert(a[0] == b[0]);
        let a1 = a.drop_first();
        let b1 = b.drop_first();
        assert forall|v: T| a1.contains(v) <==> b1.contains(v) by {
            if a1.contains(v) {
                let i = choose|i: int| 0 <= i < a1.len() && a1[i] == v;
                assert(a[i + 1] == v);
                assert(a.contains(v));
                let j = choose|j: int| 0 <= j < b.len() && b[j] == v;
                assert(j != 0);
                assert(b1[j - 1] == v);
            }
            if b1.contains(v) {
                let i = choose|i: int| 0 <= i < b1.len() && b1[i] == v;
                assert(b[i + 1] == v);
                assert(b.contains(v));
                let j = choose|j: int| 0 <= j < a.len() && a[j] == v;
                assert(j != 0);
                assert(a1[j - 1] == v);
            }
        }
        assert forall|i: int, j: int| 0 <= i < j < a1.len() implies #[trigger] a1[i].le(#[trigger] a1[j]) by {
            assert(a[i + 1].le(a[j + 1]));
        }
        assert forall|i: int, j: int| 0 <= i < j < b1.len() implies #[trigger] b1[i].le(#[trigger] b1[j]) by {
            assert(b[i + 1].le(b[j + 1]));
        }
        lemma_sorted_distinct_eq(a1, b1);
        assert(a =~= seq![a[0]] + a1);
        assert(b =~= seq![b[0]] + b1);
    }
}

/// Sorting and removing duplicates commute: for any values `x`, sorting
/// then removing duplicates gives the same sequence as removing duplicates
/// then sorting, namely the distinct values of `x` in increasing order.
pub proof fn law_sort_unique_commute<T: Element>(
    x: Seq<T>,
    sorted_x: Seq<T>,
    sorted_then_unique: Seq<T>,
    unique_x: Seq<T>,
    unique_then_sorted: Seq<T>,
)
    requires
        is_sorted_form(x, sorted_x),
        is_unique_form(sorted_x, sorted_then_unique),
        is_unique_form(x, unique_x),
        is_sorted_form(unique_x, unique_then_sorted),
    ensures
        sorted_then_unique == unique_then_sorted,
        sorted(sorted_then_unique),
        sorted_then_unique.no_duplicates(),
        forall|v: T| sorted_then_unique.contains(v) <==> x.contains(v),
{
    assert forall|v: T| sorted_x.contains(v) <==> x.contains(v) by {
        assert(sorted_x.to_multiset().count(v) == x.to_multiset().count(v));
    }
    unique_x.lemma_multiset_has_no_duplicates();
    assert forall|v: T| unique_then_sorted.to_multiset().contains(v) implies unique_then_sorted.to_multiset().count(v) == 1 by {
        assert(unique_x.to_multiset().count(v) == 1);
    }
    unique_then_sorted.lemma_multiset_has_no_duplicates_conv();
    assert forall|v: T| unique_then_sorted.contains(v) <==> sorted_then_unique.contains(v) by {
        assert(unique_then_sorted.to_multiset().count(v) == unique_x.to_multiset().count(v));
    }
    lemma_sorted_distinct_eq(sorted_then_unique, unique_then_sorted);
}

} // verus!
