//! Classification: which groups hold a value.

use crate::addr_or_net::{AddrOrNet, AutoNet};
use crate::configuration::{Configuration, Group, GroupSource};
use crate::ip::{net_contains_addr, net_contains_net, IpNet};
use vstd::prelude::*;

verus! {

/// Why classification could not start.
#[derive(Clone, Copy, Debug, PartialEq, Eq, Structural)]
pub enum ClassifyError {
    /// No configuration was given.
    NoConfiguration,
    /// The configuration declares no groups.
    NoGroups,
}

/// The outcome of scanning the groups for a value.
#[derive(Debug, PartialEq, Eq)]
pub enum Scan {
    /// The names of the groups that hold the value, in configuration order
    /// (at most the first one when only the first match is asked for).
    Done(Vec<String>),
    /// The group at this index is not resolved yet: load it and scan again.
    Load(usize),
}

/// Network `n` holds value `v`: an address inside it, or a network whose
/// whole block lies inside it.
pub open spec fn net_holds(n: IpNet, v: AddrOrNet) -> bool {
    n.wf() && v.wf() && match v {
        AddrOrNet::IpAddr(a) => n.holds_addr(a),
        AddrOrNet::IpNet(m) => n.holds_net(m),
    }
}

/// Some network of the list holds `v`.
pub open spec fn nets_hold(nets: Seq<AutoNet>, v: AddrOrNet) -> bool {
    exists|i: int| 0 <= i < nets.len() && net_holds(#[trigger] nets[i].0, v)
}

/// The result of scanning the groups from index `from` on: `Ok` with the
/// names of the groups that hold `v`, or `Err(k)` when group `k` must be
/// loaded first. With `first_only`, the scan ends at the first group that
/// holds `v`.
pub open spec fn scan_from(groups: Seq<Group>, v: AddrOrNet, first_only: bool, from: int) -> Result<Seq<String>, int>
    decreases groups.len() - from,
{
    if from < 0 || from >= groups.len() {
        Ok(seq![])
    } else {
        let g = groups[from];
        match g.source {
            GroupSource::Raw { nets } => if nets_hold(nets@, v) {
                if first_only {
                    Ok(seq![g.name])
                } else {
                    match scan_from(groups, v, first_only, from + 1) {
                        Ok(ns) => Ok(seq![g.name] + ns),
                        Err(k) => Err(k),
                    }
                }
            } else {
                scan_from(groups, v, first_only, from + 1)
            },
            _ => Err(from),
        }
    }
}

/// `names` found so far, followed by what the rest of the scan gives.
pub open spec fn after_names(names: Seq<String>, rest: Result<Seq<String>, int>) -> Result<Seq<String>, int> {
    match rest {
        Ok(ns) => Ok(names + ns),
        Err(k) => Err(k),
    }
}

/// Whether network `n` holds value `v`.
pub fn net_holds_value(n: &IpNet, v: &AddrOrNet) -> (r: bool)
    ensures
        r == net_holds(*n, *v),
{
    if !n.is_valid() || !v.is_valid() {
        return false;
    }
    match v {
        AddrOrNet::IpAddr(a) => net_contains_addr(n, a),
        AddrOrNet::IpNet(m) => net_contains_net(n, m),
    }
}

/// Whether some network of the list holds `v`.
fn any_holds(nets: &Vec<AutoNet>, v: &AddrOrNet) -> (r: bool)
    ensures
        r == nets_hold(nets@, *v),
{
    let mut i: usize = 0;
    while i < nets.len()
        invariant
            i <= nets@.len(),
            forall|j: int| 0 <= j < i ==> !net_holds(#[trigger] nets@[j].0, *v),
        decreases nets@.len() - i,
    {
        if net_holds_value(&nets[i].0, v) {
            return true;
        }
        i = i + 1;
    }
    false
}

/// The groups of the configuration that hold `value`, in configuration
/// order, or the first of them only. The scan stops at the first group
/// that is not resolved yet and asks for it to be loaded (with
/// `first_only`, only if no earlier group holds the value).
pub fn matching_groups(value: &AddrOrNet, configuration: Option<&Configuration>, first_only: bool) -> (r: Result<
    Scan,
    ClassifyError,
>)
    ensures
        configuration is None ==> r == Err::<Scan, ClassifyError>(ClassifyError::NoConfiguration),
        configuration matches Some(c) ==> (c.groups is None ==> r == Err::<Scan, ClassifyError>(
            ClassifyError::NoGroups,
        )),
        configuration matches Some(c) ==> (c.groups matches Some(gs) ==> match scan_from(
            gs@,
            *value,
            first_only,
            0,
        ) {
            Ok(ns) => r matches Ok(Scan::Done(v)) && v@ == ns,
            Err(k) => r == Ok::<Scan, ClassifyError>(Scan::Load(k as usize)),
        }),
{
    let groups = match configuration {
        None => {
            return Err(ClassifyError::NoConfiguration);
        },
        Some(c) => match &c.groups {
            None => {
                return Err(ClassifyError::NoGroups);
            },
            Some(gs) => gs,
        },
    };
    let mut names: Vec<String> = Vec::new();
    let mut i: usize = 0;
    while i < groups.len()
        invariant
            i <= groups@.len(),
            configuration matches Some(c) && c.groups matches Some(gs) && gs@ == groups@,
            first_only ==> names@.len() == 0,
            scan_from(groups@, *value, first_only, 0) == after_names(
                names@,
                scan_from(groups@, *value, first_only, i as int),
            ),
        decreases groups@.len() - i,
    {
        let g = &groups[i];
        match &g.source {
            GroupSource::Raw { nets } => {
                if any_holds(nets, value) {
                    let name = g.name.clone();
                    if first_only {
                        let mut one: Vec<String> = Vec::new();
                        one.push(name);
                        assert(names@ + one@ =~= one@);
                        return Ok(Scan::Done(one));
                    }
                    let ghost before = names@;
                    names.push(name);
                    proof {
                        match scan_from(groups@, *value, first_only, i + 1) {
                            Ok(ns) => {
                                assert(before + (seq![g.name] + ns) =~= names@ + ns);
                            },
                            Err(k) => {},
                        }
                    }
                }
            },
            _ => {
                return Ok(Scan::Load(i));
            },
        }
        i = i + 1;
    }
    assert(names@ + Seq::<String>::empty() =~= names@);
    Ok(Scan::Done(names))
}

} // verus!
