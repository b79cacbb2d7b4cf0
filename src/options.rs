//! What a run of the tool is asked to do.

use crate::source::Source;
use vstd::prelude::*;

verus! {

/// The options of a run.
#[derive(Debug)]
pub struct Options {
    /// The configuration file, if not the one found by the usual search.
    pub configuration_path: Option<String>,
    pub command: Command,
    /// Files to read (`-` for standard input).
    pub inputs: Vec<Source>,
    /// Sort the results before printing them.
    pub sort: bool,
    /// Remove duplicates before printing the results.
    pub unique: bool,
    /// Values given inline.
    pub args: Vec<String>,
}

/// The command of a run.
#[derive(Debug)]
pub enum Command {
    /// Parse, validate and concatenate addresses or networks.
    Cat,
    /// Describe each network.
    Info { no_padding: bool },
    /// The network of each address at a prefix length.
    Net { prefix_len: u8, cidr: bool },
    /// The subnets of each network at a longer prefix length.
    Subnet { prefix_len: u8, cidr: bool },
    /// The addresses of each network.
    Hosts { all: bool },
    /// The values for which a query holds.
    Filter { query: String },
    /// The first group of each value.
    Group { exit_no_match: bool },
}

} // verus!
