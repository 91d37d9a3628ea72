//! Gossipsub topic conventions.
//!
//! Three topic families:
//!
//!   c0mpute/cap/v1                  — capability advertisements
//!   c0mpute/jobs/<workload-type>    — job dispatch
//!   c0mpute/heartbeat/v1            — liveness
//!
//! Workloads are namespaced by type, e.g. `c0mpute/jobs/ffmpeg.transcode`.

use vstd::prelude::*;

verus! {

/// Topic of capability advertisements.
pub const CAPABILITY_TOPIC: &'static str = "c0mpute/cap/v1";

/// Topic of worker heartbeats.
pub const HEARTBEAT_TOPIC: &'static str = "c0mpute/heartbeat/v1";

/// Build the topic name for a workload type.
pub fn job_topic(workload_type: &str) -> (t: String)
    ensures
        t@ == "c0mpute/jobs/"@ + workload_type@,
{
    let mut t = String::from_str("c0mpute/jobs/");
    t.append(workload_type);
    t
}

} // verus!
