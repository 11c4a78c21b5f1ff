//! What the menu-bar daemon knows: whether time is being tracked, and the
//! label it shows for it.
use vstd::prelude::*;
use crate::db::ActiveEntry;
use crate::duration::{decimal, decimal_string, two_digit_string, two_digits};
use crate::ipc::DaemonMessage;
use crate::time::current_instant;

verus! {

/// Whether time is being tracked, and for what.
pub enum TrackingState {
    Idle,
    Active { project: String, task: String, started_at: i64 },
}

/// The state a message leaves behind: tracking after a start or a
/// continuation, idle after a stop or a cancellation, whatever came before.
pub open spec fn state_after(msg: DaemonMessage) -> TrackingState {
    match msg {
        DaemonMessage::Started { project, task, started_at } => TrackingState::Active {
            project,
            task,
            started_at,
        },
        DaemonMessage::Continued { project, task, started_at } => TrackingState::Active {
            project,
            task,
            started_at,
        },
        DaemonMessage::Stopped => TrackingState::Idle,
        DaemonMessage::Cancelled => TrackingState::Idle,
    }
}

/// Elapsed seconds as `H:MM:SS`.
pub open spec fn clock_text(elapsed: nat) -> Seq<char> {
    decimal(elapsed / 3600) + seq![':'] + two_digits((elapsed % 3600) / 60) + seq![':']
        + two_digits(elapsed % 60)
}

/// The seconds from `start` to `now`, or 0 when `now` comes first.
pub open spec fn elapsed_since(start: int, now: int) -> nat {
    if now > start {
        (now - start) as nat
    } else {
        0
    }
}

/// "project · task · H:MM:SS" for the time tracked at `now`; nothing when idle.
pub open spec fn label_text(state: TrackingState, now: int) -> Option<Seq<char>> {
    match state {
        TrackingState::Idle => None,
        TrackingState::Active { project, task, started_at } => Some(
            project@ + " · "@ + task@ + " · "@ + clock_text(elapsed_since(started_at as int, now)),
        ),
    }
}

/// What the daemon shows after a message, whatever it showed before: after a
/// start or a continuation, the project, the task and the time since the
/// start; after a stop or a cancellation, nothing.
pub proof fn lemma_label_after_message(msg: DaemonMessage, now: int)
    ensures
        match msg {
            DaemonMessage::Started { project, task, started_at } => label_text(state_after(msg), now)
                == Some(project@ + " · "@ + task@ + " · "@ + clock_text(elapsed_since(started_at as int, now))),
            DaemonMessage::Continued { project, task, started_at } => label_text(state_after(msg), now)
                == Some(project@ + " · "@ + task@ + " · "@ + clock_text(elapsed_since(started_at as int, now))),
            DaemonMessage::Stopped => label_text(state_after(msg), now) is None,
            DaemonMessage::Cancelled => label_text(state_after(msg), now) is None,
        },
{
}

impl TrackingState {
    /// Takes in what the command line reported.
    pub fn apply(&mut self, msg: DaemonMessage)
        ensures
            *final(self) == state_after(msg),
    {
        *self = match msg {
            DaemonMessage::Started { project, task, started_at } => TrackingState::Active {
                project,
                task,
                started_at,
            },
            DaemonMessage::Continued { project, task, started_at } => TrackingState::Active {
                project,
                task,
                started_at,
            },
            DaemonMessage::Stopped => TrackingState::Idle,
            DaemonMessage::Cancelled => TrackingState::Idle,
        };
    }

    /// The menu-bar label at the instant `now`, or `None` when idle.
    pub fn label_at(&self, now: i64) -> (r: Option<String>)
        ensures
            r is None <==> label_text(*self, now as int) is None,
            r matches Some(s) ==> label_text(*self, now as int) == Some(s@),
    {
        match self {
            TrackingState::Idle => None,
            TrackingState::Active { project, task, started_at } => {
                let diff: i128 = now as i128 - *started_at as i128;
                let elapsed: u64 = if diff > 0 {
                    diff as u64
                } else {
                    0
                };
                let mut s = project.clone();
                s.append(" · ");
                s.append(task.as_str());
                s.append(" · ");
                let hours = decimal_string(elapsed / 3600);
                s.append(hours.as_str());
                s.append(":");
                let minutes = two_digit_string((elapsed % 3600) / 60);
                s.append(minutes.as_str());
                s.append(":");
                let seconds = two_digit_string(elapsed % 60);
                s.append(seconds.as_str());
                proof {
                    reveal_strlit(":");
                    assert(":"@ =~= seq![':']);
                    assert(elapsed == elapsed_since(*started_at as int, now as int));
                    assert(s@ =~= project@ + " · "@ + task@ + " · "@ + clock_text(elapsed as nat));
                }
                Some(s)
            },
        }
    }

    /// The menu-bar label now (`chrono::Utc::now`), or `None` when idle.
    pub fn label(&self) -> (r: Option<String>)
        ensures
            r is None <==> *self is Idle,
            r matches Some(s) ==> exists|t: i64| label_text(*self, t as int) == Some(s@),
    {
        let t = current_instant();
        let r = self.label_at(t);
        proof {
            if r is Some {
                assert(label_text(*self, t as int) == Some(r->0@));
            }
        }
        r
    }

    /// After a restart, takes in the entry that the database shows as running,
    /// unless a message already set the state.
    pub fn reconcile(&mut self, active: Option<ActiveEntry>)
        ensures
            match (*old(self), active) {
                (TrackingState::Idle, Some(e)) => *final(self) == TrackingState::Active {
                    project: e.project_name,
                    task: e.task_name,
                    started_at: e.started_at,
                },
                _ => *final(self) == *old(self),
            },
    {
        if let TrackingState::Idle = self {
            if let Some(entry) = active {
                self.apply(
                    DaemonMessage::Started {
                        project: entry.project_name,
                        task: entry.task_name,
                        started_at: entry.started_at,
                    },
                );
            }
        }
    }
}

} // verus!
