//! The policy of the broker registry: which broker names may be served.
use vstd::prelude::*;

verus! {

/// What a lookup of a broker name leads to.
#[derive(Clone, Copy, Debug, PartialEq, Eq, Structural)]
pub enum Admission {
    /// The broker exists: serve it.
    Existing,
    /// The broker is new and fits under the cap: create it, then serve it.
    Create,
    /// The broker is new and the cap is reached: answer `NO_BROKER`.
    Refuse,
}

/// A present broker is served; a new one is created while the registry,
/// with it, stays within `broker_limit`.
pub open spec fn admission_of(present: bool, count: nat, broker_limit: u16) -> Admission {
    if present {
        Admission::Existing
    } else if count + 1 <= broker_limit {
        Admission::Create
    } else {
        Admission::Refuse
    }
}

/// Decides a lookup, given whether the name is registered and how many
/// brokers are.
pub fn admit_broker(present: bool, count: usize, broker_limit: u16) -> (r: Admission)
    ensures
        r == admission_of(present, count as nat, broker_limit),
{
    if present {
        Admission::Existing
    } else if count < broker_limit as usize {
        Admission::Create
    } else {
        Admission::Refuse
    }
}

} // verus!
