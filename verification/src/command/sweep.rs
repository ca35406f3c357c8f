use vstd::prelude::*;

use crate::error::{Usage, UsageKind};
use crate::strutil::opt_str_eq;

verus! {

/// The sweep command: move dust files and newly empty directories into a
/// dated box.
#[derive(Debug)]
pub struct Sweep {
    pub option1: Option<String>,
    pub option2: Option<String>,
}

impl Sweep {
    pub fn new(option1: Option<String>, option2: Option<String>) -> (r: Sweep)
        ensures
            r.option1 == option1,
            r.option2 == option2,
    {
        Sweep { option1, option2 }
    }

    pub fn usage(&self) -> (r: Usage)
        ensures
            r.kind == UsageKind::Sweep,
    {
        Usage::new(UsageKind::Sweep)
    }

    /// Reads the options: `all` widens the target set, `indeed` makes the
    /// run real, and the first option must be one of the two.
    pub fn mode(&self) -> (r: Result<(bool, bool), Usage>)
        ensures
            match r {
                Ok(m) => {
                    &&& m.1 == ((self.option1 is Some && self.option1.unwrap()@ == "indeed"@) || (
                    self.option2 is Some && self.option2.unwrap()@ == "indeed"@))
                    &&& m.0 == (self.option1 is Some && self.option1.unwrap()@ == "all"@)
                    &&& (self.option1 is None || self.option1.unwrap()@ == "all"@
                        || self.option1.unwrap()@ == "indeed"@)
                },
                Err(u) => {
                    &&& u.kind == UsageKind::Sweep
                    &&& self.option1 is Some && self.option1.unwrap()@ != "all"@
                        && self.option1.unwrap()@ != "indeed"@
                },
            },
    {
        let indeed = opt_str_eq(&self.option1, "indeed") || opt_str_eq(&self.option2, "indeed");
        let all = if opt_str_eq(&self.option1, "all") {
            true
        } else if opt_str_eq(&self.option1, "indeed") {
            false
        } else {
            match &self.option1 {
                Some(_) => {
                    return Err(Usage::new(UsageKind::Sweep));
                },
                None => false,
            }
        };
        Ok((all, indeed))
    }
}

} // verus!
