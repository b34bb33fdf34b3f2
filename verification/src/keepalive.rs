//! The Android keep-alive service mirrors whether a server page is open.
//! The shell keeps one flag; these decide when to tell the service.

use vstd::prelude::*;
use crate::text::owned;

verus! {

/// The flag after a report of `connected`, and whether the service must be
/// told (only on a real change).
pub open spec fn connected_step(flag: bool, connected: bool) -> (bool, bool) {
    (connected, flag != connected)
}

/// Records that the window is (or is not) on a server page; returns
/// whether the keep-alive service must be told, which is only when the
/// state changes.
pub fn set_connected(flag: &mut bool, connected: bool) -> (dispatch: bool)
    ensures
        (*final(flag), dispatch) == connected_step(*old(flag), connected),
{
    let changed = *flag != connected;
    *flag = connected;
    changed
}

/// The unread count to pass on to the service's notification: only while
/// connected.
pub fn set_badge(connected: bool, count: &str) -> (r: Option<String>)
    ensures
        connected ==> (r matches Some(c) && c@ == count@),
        !connected ==> r is None,
{
    if connected {
        Some(owned(count))
    } else {
        None
    }
}

/// Reporting the same state twice tells the service at most once.
pub proof fn lemma_connected_repeat(flag: bool, connected: bool)
    ensures
        !connected_step(connected_step(flag, connected).0, connected).1,
{
}

} // verus!
