//! The options that the server is started with.

use vstd::prelude::*;

verus! {

/// The options of the server. Addresses are kept as text.
#[derive(Clone, Debug, PartialEq, Eq)]
pub struct Options {
    /// UDP socket to listen on.
    pub udp: Vec<String>,
    /// TCP socket to listen on.
    pub tcp: Vec<String>,
    /// Socket address the admin API should listen on.
    pub admin_addr: String,
    /// Domain name
    pub domain: String,
}

impl Default for Options {
    /// One UDP socket on port 1053 of every address, no TCP socket, the
    /// admin API on port 4500 and the domain `internal`.
    fn default() -> (r: Options)
        ensures
            r.udp@.len() == 1,
            r.udp@[0]@ == "0.0.0.0:1053"@,
            r.tcp@.len() == 0,
            r.admin_addr@ == "0.0.0.0:4500"@,
            r.domain@ == "internal"@,
    {
        let mut udp: Vec<String> = Vec::new();
        udp.push("0.0.0.0:1053".to_owned());
        Options {
            udp,
            tcp: Vec::new(),
            admin_addr: "0.0.0.0:4500".to_owned(),
            domain: "internal".to_owned(),
        }
    }
}

} // verus!
