//! The command line of the program: whom to bootstrap from, when to join,
//! which scenario a client plays, and where a peer keeps its objects.
use vstd::prelude::*;

use std::path::PathBuf;

verus! {

#[verifier::external_type_specification]
#[verifier::external_body]
pub struct ExPathBuf(PathBuf);

/// The options the program is started with.
pub struct Project5 {
    /// The hostname of the bootstrap server.
    pub bootstrap: Option<String>,
    /// The number of seconds to wait before joining after startup.
    pub delay: Option<u64>,
    /// The scenario that a client plays (3, 4 or 5).
    pub testcase: Option<u64>,
    /// Path to a file containing the object store of the peer.
    pub object: Option<PathBuf>,
}

impl Project5 {
    /// Whether this process is the bootstrap server: it is the one that is
    /// given no bootstrap server to reach.
    pub fn is_bootstrap(&self) -> (answer: bool)
        ensures
            answer == (self.bootstrap is None),
    {
        self.bootstrap.is_none()
    }
}

} // verus!
