//! The definition of a denom: who issued it and what a transfer of it costs.

use vstd::prelude::*;
use crate::rate::Rate;

verus! {

/// The attributes of one denom.
#[derive(Debug)]
pub struct DenomDefinition {
    /// The identifier of the token.
    pub denom: String,
    /// The address that created the token. It pays no fee on this denom.
    pub issuer: String,
    /// The part of a transferred amount that is taken from the sender on top
    /// of it and destroyed.
    pub burn_rate: Rate,
    /// The part of a transferred amount that is taken from the sender on top
    /// of it and credited to the issuer.
    pub commission_rate: Rate,
}

impl DenomDefinition {
    /// Both rates lie between zero and one.
    pub open spec fn wf(&self) -> bool {
        self.burn_rate.wf() && self.commission_rate.wf()
    }

    /// Whether both rates lie between zero and one.
    pub fn is_valid(&self) -> (res: bool)
        ensures
            res == self.wf(),
    {
        self.burn_rate.is_valid() && self.commission_rate.is_valid()
    }
}

/// Every definition is well formed.
pub open spec fn all_wf(definitions: Seq<DenomDefinition>) -> bool {
    forall|k: int| 0 <= k < definitions.len() ==> (#[trigger] definitions[k]).wf()
}

} // verus!
