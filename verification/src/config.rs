//! The settings of a service that answers from an index.

use vstd::prelude::*;
use vstd::string::StringExecFns;

verus! {

/// Where the service listens, how many words an answer may hold, and the
/// file that the words are loaded from.
pub struct Config {
    pub host: String,
    pub port: String,
    pub suggestion_number: u8,
    pub file_name: String,
}

impl Config {
    /// The address to bind: host and port with a colon between them.
    pub open spec fn address(self) -> Seq<char> {
        self.host@ + ":"@ + self.port@
    }

    /// The address to bind.
    pub fn server_address(&self) -> (address: String)
        ensures
            address@ == self.address(),
    {
        let mut address = self.host.clone();
        address.append(":");
        address.append(self.port.as_str());
        address
    }
}

} // verus!
