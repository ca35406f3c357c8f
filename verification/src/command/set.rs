use vstd::prelude::*;

verus! {

/// A command shape reserved for setting parameters; nothing routes to it
/// today.
#[derive(Debug)]
pub struct SetParams;

} // verus!
