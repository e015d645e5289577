//! Arguments passed at the command line.
use crate::text::{append_decimal, decimal};
use vstd::prelude::*;
use vstd::string::*;

verus! {

/// Arguments passed at the command line.
pub struct Cli {
    /// Address to bind to
    pub address: String,
    /// Port on which the server listens to requests
    pub port: u16,
    /// Path to TOML configuration file
    pub configuration: String,
}

impl Cli {
    /// The endpoint to bind to: address and port, separated by a colon.
    pub fn endpoint(&self) -> (e: String)
        ensures
            e@ == self.address@ + ":"@ + decimal(self.port as nat),
    {
        let mut e = self.address.clone();
        e.append(":");
        append_decimal(&mut e, self.port as u64);
        e
    }
}

} // verus!
