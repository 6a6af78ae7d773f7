//! When a long run reports.

use vstd::prelude::*;

verus! {

/// How often a run reports, in ticks.
pub const REPORT_TICKS: u32 = 20;

/// Whether a run of `ticks` ticks reports after tick `i`: every twentieth, and the
/// last.
pub open spec fn reported(i: u32, ticks: u32) -> bool {
    i % REPORT_TICKS == 0 || i == ticks - 1
}

/// Whether a run of `ticks` ticks reports after tick `i`: every twentieth, and the
/// last.
pub fn is_reported(i: u32, ticks: u32) -> (r: bool)
    requires
        i < ticks,
    ensures
        r == reported(i, ticks),
{
    i % REPORT_TICKS == 0 || i == ticks - 1
}

/// A run reports after its first tick and its last, and in between once in twenty
/// ticks: twenty on from a report that is not the last there is another, and none
/// between the two.
pub proof fn law_reports_come_every_twenty_ticks(i: u32, k: u32, ticks: u32)
    requires
        i + 20 < ticks,
        0 < k < 20,
    ensures
        reported(0, ticks),
        reported((ticks - 1) as u32, ticks),
        reported(i, ticks) ==> reported((i + 20) as u32, ticks) && !reported(
            (i + k) as u32,
            ticks,
        ),
{
}

} // verus!
