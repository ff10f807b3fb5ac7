//! The settings the server runs with.
use vstd::prelude::*;

verus! {

/// The roots to scan for markup files, and the port of the web endpoint.
#[derive(Clone, Debug, PartialEq, Eq)]
pub struct Config {
    pub org_path: Vec<String>,
    pub server_port: u32,
}

} // verus!
