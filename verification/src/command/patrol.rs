use vstd::prelude::*;

use crate::error::{Usage, UsageKind};

verus! {

/// The patrol command: clean stale entries out of the cron table.
#[derive(Debug)]
pub struct Patrol;

impl Patrol {
    pub fn usage(&self) -> (r: Usage)
        ensures
            r.kind == UsageKind::Patrol,
    {
        Usage::new(UsageKind::Patrol)
    }
}

} // verus!
