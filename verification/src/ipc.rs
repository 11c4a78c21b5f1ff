//! The messages the command line sends to the menu-bar daemon.
use vstd::prelude::*;

verus! {

/// What happened to the tracked time, as told to the daemon. On the wire it is
/// one JSON object per line, tagged by an `"event"` field (written in app/).
pub enum DaemonMessage {
    Started { project: String, task: String, started_at: i64 },
    Stopped,
    Cancelled,
    Continued { project: String, task: String, started_at: i64 },
}

} // verus!
