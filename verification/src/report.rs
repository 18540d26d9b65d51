//! The report emitter: aggregate counts over the reconciliation
//! artifacts, for the caller to print as it pleases.

use vstd::prelude::*;
use crate::ownership::OwnershipMap;
use crate::reconcile::Reconciler;

verus! {

/// Aggregate counts of one reconciliation pass.
#[derive(Copy, Clone, PartialEq, Eq, Structural, Debug)]
pub struct Report {
    /// How many distinct codepoints ended up owned.
    pub codepoint_count: usize,
    /// How many intervals the reconciled collection holds.
    pub interval_count: usize,
}

/// Surface the two diagnostic counters: distinct owned codepoints and
/// stored intervals after reconciliation.
pub fn report(map: &OwnershipMap, rec: &Reconciler) -> (r: Report)
    requires
        map.wf(),
    ensures
        r.codepoint_count == map@.dom().len(),
        r.interval_count == rec.intervals@.len(),
{
    Report { codepoint_count: map.len(), interval_count: rec.intervals.len() }
}

} // verus!
