//! Named groups of networks and where their networks come from.
//!
//! A group given by a file or a command is resolved once: the caller reads
//! the file or runs the command when `fetch_request` asks for it, hands the
//! text to `load`, and the source then holds the parsed networks for good.

use crate::addr_or_net::AutoNet;
use crate::element::Element;
use crate::source::{trim, trimmed};
use vstd::prelude::*;

verus! {

/// Why a group's networks could not be had.
#[derive(Clone, Debug, PartialEq, Eq)]
pub enum GroupError {
    /// The file could not be read, or the command could not be run or gave
    /// output that is not UTF-8; the message says why.
    Fetch(String),
    /// A non-blank line of the file or of the command's output is not a
    /// network; the line.
    Content(String),
}

/// Where a group's networks come from.
#[derive(Debug)]
pub enum GroupSource {
    /// Networks already known.
    Raw { nets: Vec<AutoNet> },
    /// A file with one network per line.
    File { file: String },
    /// A shell command that prints one network per line, and the shell to
    /// run it with, if not the default one.
    Command { command: String, shell: Option<String> },
}

/// A named group of networks.
#[derive(Debug)]
pub struct Group {
    pub name: String,
    pub source: GroupSource,
}

/// The groups that classification and filtering consult.
#[derive(Debug)]
pub struct Configuration {
    pub groups: Option<Vec<Group>>,
}

/// What the caller must do to resolve a source.
#[derive(Debug, PartialEq, Eq)]
pub enum Fetch {
    /// Read this file as text.
    ReadFile(String),
    /// Run `command` with `shell -c command` and take its standard output.
    Run { shell: String, command: String },
}

/// What std's `str::lines` splits a text into.
pub uninterp spec fn lines_of(s: Seq<char>) -> Seq<Seq<char>>;

/// Relies on std's `str::lines`: the lines of a text, without their line
/// endings.
#[verifier::external_body]
fn split_lines(s: &str) -> (r: Vec<String>)
    ensures
        r@.map_values(|l: String| l@) == lines_of(s@),
{
    s.lines().map(|l| l.to_owned()).collect()
}

/// The networks of a group's lines, blank lines skipped; or the first line
/// that is not a network. A line is parsed as it stands.
pub open spec fn parse_group_lines(lines: Seq<Seq<char>>) -> Result<Seq<AutoNet>, Seq<char>>
    decreases lines.len(),
{
    if lines.len() == 0 {
        Ok(seq![])
    } else {
        match parse_group_lines(lines.drop_last()) {
            Err(l) => Err(l),
            Ok(ns) => {
                let l = lines.last();
                if trimmed(l).len() == 0 {
                    Ok(ns)
                } else {
                    match AutoNet::parse_spec(l) {
                        Some(n) => Ok(ns.push(n)),
                        None => Err(l),
                    }
                }
            },
        }
    }
}

/// The networks that a group file or command output holds: the lines of the
/// trimmed text.
pub open spec fn group_content(text: Seq<char>) -> Result<Seq<AutoNet>, Seq<char>> {
    parse_group_lines(lines_of(trimmed(text)))
}

/// Parses the text of a group file or command output.
pub fn parse_group_text(text: &str) -> (r: Result<Vec<AutoNet>, GroupError>)
    ensures
        match group_content(text@) {
            Ok(ns) => r matches Ok(v) && v@ == ns,
            Err(l) => r matches Err(GroupError::Content(s)) && s@ == l,
        },
{
    let lines = split_lines(trim(text));
    let ghost ls = lines@.map_values(|l: String| l@);
    let mut nets: Vec<AutoNet> = Vec::new();
    let mut i: usize = 0;
    while i < lines.len()
        invariant
            i <= lines@.len(),
            ls == lines@.map_values(|l: String| l@),
            ls == lines_of(trimmed(text@)),
            parse_group_lines(ls.take(i as int)) == Ok::<Seq<AutoNet>, Seq<char>>(nets@),
        decreases lines@.len() - i,
    {
        let line = &lines[i];
        assert(ls.take(i + 1).drop_last() =~= ls.take(i as int));
        assert(ls.take(i + 1).last() == line@);
        if trim(line.as_str()).unicode_len() != 0 {
            match AutoNet::parse(line.as_str()) {
                Some(n) => {
                    nets.push(n);
                },
                None => {
                    proof {
                        lemma_group_err_stays(ls, i as int + 1);
                    }
                    return Err(GroupError::Content(line.clone()));
                },
            }
        }
        i = i + 1;
    }
    assert(ls.take(i as int) =~= ls);
    Ok(nets)
}

proof fn lemma_group_err_stays(ls: Seq<Seq<char>>, k: int)
    requires
        0 <= k <= ls.len(),
        parse_group_lines(ls.take(k)) is Err,
    ensures
        parse_group_lines(ls) == parse_group_lines(ls.take(k)),
    decreases ls.len() - k,
{
    if k < ls.len() {
        assert(ls.take(k + 1).drop_last() =~= ls.take(k));
        lemma_group_err_stays(ls, k + 1);
    } else {
        assert(ls.take(k) =~= ls);
    }
}

/// The shell that runs a group command: the one the group names, else the
/// one the environment names, else `sh`.
pub open spec fn chosen_shell(explicit: Option<String>, from_env: Option<String>) -> Seq<char> {
    match explicit {
        Some(s) => s@,
        None => match from_env {
            Some(s) => s@,
            None => seq!['s', 'h'],
        },
    }
}

/// What `load` does to a source, given what the caller fetched for it: an
/// unresolved source becomes the networks of the fetched text, or stays as
/// it is on an error; a resolved one stays as it is.
pub open spec fn load_post(
    before: GroupSource,
    fetched: Result<String, GroupError>,
    r: Result<(), GroupError>,
    after: GroupSource,
) -> bool {
    match before {
        GroupSource::Raw { .. } => r is Ok && after == before,
        _ => match fetched {
            Err(e) => r == Err::<(), GroupError>(e) && after == before,
            Ok(text) => match group_content(text@) {
                Ok(ns) => r is Ok && (after matches GroupSource::Raw { nets } && nets@ == ns),
                Err(l) => (r matches Err(GroupError::Content(s)) && s@ == l) && after == before,
            },
        },
    }
}

impl GroupSource {
    /// The networks, once known.
    pub open spec fn resolved_nets(self) -> Option<Seq<AutoNet>> {
        match self {
            GroupSource::Raw { nets } => Some(nets@),
            _ => None,
        }
    }

    /// What must be done to resolve the source; nothing once it is resolved.
    /// `env_shell` is the shell that the environment names, if any.
    pub fn fetch_request(&self, env_shell: &Option<String>) -> (r: Option<Fetch>)
        ensures
            match *self {
                GroupSource::Raw { .. } => r is None,
                GroupSource::File { file } => r matches Some(Fetch::ReadFile(f)) && f@ == file@,
                GroupSource::Command { command, shell } => r matches Some(Fetch::Run { shell: s, command: c })
                    && s@ == chosen_shell(shell, *env_shell) && c@ == command@,
            },
    {
        match self {
            GroupSource::Raw { .. } => None,
            GroupSource::File { file } => Some(Fetch::ReadFile(file.clone())),
            GroupSource::Command { command, shell } => {
                let s = match shell {
                    Some(s) => s.clone(),
                    None => match env_shell {
                        Some(s) => s.clone(),
                        None => {
                            proof {
                                reveal_strlit("sh");
                            }
                            let s = "sh".to_owned();
                            assert(s@ =~= seq!['s', 'h']);
                            s
                        },
                    },
                };
                Some(Fetch::Run { shell: s, command: command.clone() })
            },
        }
    }

    /// Resolves the source from the text that the caller fetched for it (the
    /// file's content or the command's output), once: a resolved source
    /// ignores `fetched` and stays as it is. On an error the source stays
    /// unresolved.
    pub fn load(&mut self, fetched: &Result<String, GroupError>) -> (r: Result<(), GroupError>)
        ensures
            load_post(*old(self), *fetched, r, *final(self)),
    {
        let text = match self {
            GroupSource::Raw { .. } => {
                return Ok(());
            },
            _ => match fetched {
                Ok(text) => text,
                Err(GroupError::Fetch(m)) => {
                    return Err(GroupError::Fetch(m.clone()));
                },
                Err(GroupError::Content(l)) => {
                    return Err(GroupError::Content(l.clone()));
                },
            },
        };
        match parse_group_text(text.as_str()) {
            Ok(nets) => {
                *self = GroupSource::Raw { nets };
                Ok(())
            },
            Err(e) => Err(e),
        }
    }
}

/// Loading is done at most once: after a successful load the source holds
/// its networks and asks for no fetch, and loading it again, whatever is
/// handed over, succeeds and leaves the same networks.
pub proof fn law_load_memoizes(
    src: GroupSource,
    first: Result<String, GroupError>,
    r1: Result<(), GroupError>,
    mid: GroupSource,
    second: Result<String, GroupError>,
    r2: Result<(), GroupError>,
    end: GroupSource,
)
    requires
        load_post(src, first, r1, mid),
        r1 is Ok,
        load_post(mid, second, r2, end),
    ensures
        mid is Raw,
        end == mid,
        r2 is Ok,
        end.resolved_nets() == mid.resolved_nets(),
        src is Raw ==> mid == src,
{
}

} // verus!
