use vstd::prelude::*;

use crate::error::{Usage, UsageKind};

verus! {

/// The destroy command: unregister the current directory.
#[derive(Debug)]
pub struct Destroy;

impl Destroy {
    pub fn usage(&self) -> (r: Usage)
        ensures
            r.kind == UsageKind::Destroy,
    {
        Usage::new(UsageKind::Destroy)
    }
}

} // verus!
