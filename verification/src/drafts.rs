//! Placeholder types reserving the public surface of the ledger, the
//! engine coordinating contract lifecycles, and the referral module while
//! their full interfaces settle.

use vstd::prelude::*;

verus! {

/// Placeholder for the accounting state machine's packaged interface.
pub struct LedgerDraft;

impl LedgerDraft {
    /// Temporary helper demonstrating how initialization may look.
    pub fn new() -> Self {
        LedgerDraft
    }
}

/// Marker type for the upcoming contract engine.
pub struct PocEngineDraft;

impl PocEngineDraft {
    /// Illustrative constructor.
    pub fn new() -> Self {
        PocEngineDraft
    }
}

/// Placeholder for the referral module's packaged interface.
pub struct ReferralModuleDraft;

impl ReferralModuleDraft {
    /// Illustrative constructor used while the full interface settles.
    pub fn new() -> Self {
        ReferralModuleDraft
    }
}

} // verus!
