use vstd::prelude::*;

use crate::error::{Usage, UsageKind};

verus! {

/// The end command: unschedule the recurring housekeeping.
#[derive(Debug)]
pub struct End;

impl End {
    pub fn usage(&self) -> (r: Usage)
        ensures
            r.kind == UsageKind::End,
    {
        Usage::new(UsageKind::End)
    }
}

} // verus!
