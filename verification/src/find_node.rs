//! The arguments of the find-node command: which syntax-type of node the
//! caller is interested in, and the dotted, wildcard-capable query itself.

use vstd::prelude::*;

verus! {

/// What a caller asks the engine for. The query string is handed to
/// `Search::create_search`; the node-type filter is carried for the command
/// surface and not consulted by the current matching modes.
pub struct FindNodeArgs {
    pub node_type: String,
    pub regex: String,
}

} // verus!
