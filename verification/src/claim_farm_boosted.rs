//! The data of the subscriber that claims boosted farm rewards.

use vstd::prelude::*;

verus! {

/// What the claim of boosted rewards needs to know besides the user and the farm: nothing.
#[derive(Clone, Copy, Debug, PartialEq, Eq)]
pub struct AdditionalFarmData {
    pub dummy_data: u8,
}

} // verus!
