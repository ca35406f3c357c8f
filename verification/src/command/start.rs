use vstd::prelude::*;

use crate::error::{Usage, UsageKind};

verus! {

/// The start command: schedule the recurring housekeeping.
#[derive(Debug)]
pub struct Start;

impl Start {
    pub fn usage(&self) -> (r: Usage)
        ensures
            r.kind == UsageKind::Start,
    {
        Usage::new(UsageKind::Start)
    }
}

} // verus!
