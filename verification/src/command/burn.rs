use vstd::prelude::*;

use crate::error::{Usage, UsageKind};
use crate::strutil::opt_str_eq;

verus! {

/// The burn command: delete the expired boxes of the warehouse.
#[derive(Debug)]
pub struct Burn {
    pub option: Option<String>,
}

impl Burn {
    pub fn new(option: Option<String>) -> (r: Burn)
        ensures
            r.option == option,
    {
        Burn { option }
    }

    pub fn usage(&self) -> (r: Usage)
        ensures
            r.kind == UsageKind::Burn,
    {
        Usage::new(UsageKind::Burn)
    }

    /// Whether the run is real: the sole accepted option is `indeed`.
    pub fn mode(&self) -> (r: Result<bool, Usage>)
        ensures
            match r {
                Ok(indeed) => {
                    &&& indeed == (self.option is Some && self.option.unwrap()@ == "indeed"@)
                    &&& (self.option is None || self.option.unwrap()@ == "indeed"@)
                },
                Err(u) => {
                    &&& u.kind == UsageKind::Burn
                    &&& self.option is Some && self.option.unwrap()@ != "indeed"@
                },
            },
    {
        if opt_str_eq(&self.option, "indeed") {
            Ok(true)
        } else {
            match &self.option {
                Some(_) => Err(Usage::new(UsageKind::Burn)),
                None => Ok(false),
            }
        }
    }
}

} // verus!
