//! Parsing, classification and filtering of IP addresses and CIDR networks.

pub mod addr_or_net;
pub mod configuration;
pub mod element;
pub mod filter;
pub mod group;
pub mod info;
pub mod input;
pub mod ip;
pub mod options;
pub mod source;
