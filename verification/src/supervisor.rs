//! Decisions the node supervisor makes from its configuration.

use vstd::prelude::*;

verus! {

/// The shortest interval, in seconds, at which the auto-upgrade poller
/// checks the release feed.
pub const MIN_UPDATE_INTERVAL_SECS: u64 = 60;

/// The auto-upgrade polling interval for a configured value: never
/// shorter than a minute.
pub fn update_interval_secs(configured: u64) -> (secs: u64)
    ensures
        secs == if configured < MIN_UPDATE_INTERVAL_SECS {
            MIN_UPDATE_INTERVAL_SECS
        } else {
            configured
        },
{
    if configured < MIN_UPDATE_INTERVAL_SECS {
        MIN_UPDATE_INTERVAL_SECS
    } else {
        configured
    }
}

} // verus!
