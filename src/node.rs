//! Node identities and peer configuration.

use vstd::prelude::*;
use vstd::string::StringExecFns;

use crate::text::{decimal, decimal_text};

verus! {

/// Identity of a node taking part in replication; totally ordered.
#[derive(Clone, Copy, Debug, PartialEq, Eq, Structural, PartialOrd, Ord, Hash)]
pub struct NodeId(pub u64);

/// The display form `node-<id>`.
pub open spec fn node_text(n: NodeId) -> Seq<char> {
    seq!['n', 'o', 'd', 'e', '-'] + decimal_text(n.0 as nat)
}

impl NodeId {
    /// The display form, e.g. `node-42`.
    pub fn to_string(&self) -> (r: String)
        ensures
            r@ == node_text(*self),
    {
        let prefix = String::from_str("node-");
        let d = decimal(self.0);
        proof {
            reveal_strlit("node-");
        }
        prefix.concat(d.as_str())
    }
}

/// A peer to pull events from.
#[derive(Clone, Debug)]
pub struct PeerConfig {
    pub node_id: NodeId,
    /// Base address of the peer's HTTP surface.
    pub endpoint: String,
    pub pull_interval_secs: u64,
}

} // verus!
