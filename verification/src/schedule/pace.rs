//! What a turn begins with, and how long the server waits after it.

use vstd::prelude::*;

use crate::poll::PollReadiness;
use crate::schedule::conns::any_can_progress;
use crate::schedule::turn::Conn;
use crate::schedule::{conns, should_park_after_request_round};

verus! {

/// What comes first in a turn.
#[derive(Copy, Clone, Debug, PartialEq, Eq, Structural)]
pub enum TurnStart {
    /// What input has changed is shown, and the turn is over.
    ShowInput,
    /// Connections are served.
    ServeClients,
}

/// Whether the last turn only showed what input had changed.
#[derive(Copy, Clone, Debug, PartialEq, Eq, Structural)]
pub struct InputPriority {
    pub used: bool,
}

impl InputPriority {
    pub open spec fn unused() -> InputPriority {
        InputPriority { used: false }
    }

    /// What comes first in a turn in which input has changed the picture or
    /// has not.
    pub open spec fn start(self, changed: bool) -> TurnStart {
        if changed && !self.used {
            TurnStart::ShowInput
        } else {
            TurnStart::ServeClients
        }
    }

    /// The state after that.
    pub open spec fn after_start(self, changed: bool) -> InputPriority {
        InputPriority { used: self.start(changed) is ShowInput }
    }

    /// What input has changed is shown before connections are served, but
    /// never in two turns on end: whatever input does, connections are served
    /// in the next turn.
    pub proof fn law_clients_are_served_in_every_other_turn(self, first: bool, second: bool)
        ensures
            self.start(first) is ServeClients || self.after_start(first).start(second)
                is ServeClients,
            self.start(first) is ServeClients ==> (self.after_start(first).start(second)
                is ShowInput == second),
    {
    }

    /// Says what comes first in a turn in which input has changed the picture
    /// or has not.
    pub fn note_input(&mut self, changed: bool) -> (start: TurnStart)
        ensures
            start is ShowInput <==> (changed && !old(self).used),
            final(self).used == (start is ShowInput),
            start == old(self).start(changed),
            *final(self) == old(self).after_start(changed),
    {
        if changed && !self.used {
            self.used = true;
            TurnStart::ShowInput
        } else {
            self.used = false;
            TurnStart::ServeClients
        }
    }
}

impl Default for InputPriority {
    fn default() -> (priority: Self)
        ensures
            priority == InputPriority::unused(),
    {
        InputPriority { used: false }
    }
}

/// How the server waits for activity.
#[derive(Copy, Clone, Debug, PartialEq, Eq, Structural)]
pub struct Wait {
    /// For how many milliseconds at most; without end if there is none.
    pub timeout_ms: Option<u64>,
    /// Whether only new connections and those that there are matter.
    pub transport_only: bool,
}

/// How to wait after a turn. While anything is left to do, and while the end
/// has been asked for, the server only looks what has come; else it waits until
/// something comes or a restore is overdue.
pub fn wait_after_turn(
    local_pending_work: bool,
    shutdown_requested: bool,
    restore_timeout_ms: Option<u64>,
) -> (wait: Wait)
    ensures
        wait == (Wait {
            timeout_ms: if local_pending_work || shutdown_requested {
                Some(0)
            } else {
                restore_timeout_ms
            },
            transport_only: shutdown_requested,
        }),
{
    let parks = !shutdown_requested && should_park_after_request_round(local_pending_work);
    Wait {
        timeout_ms: if parks {
            restore_timeout_ms
        } else {
            Some(0)
        },
        transport_only: shutdown_requested,
    }
}

/// Whether there may be something to do for connections without waiting, after
/// a look at what has come: somebody waits to be accepted or served, or the
/// look was cut short and nothing is known.
pub fn transport_is_ready(readiness: Option<PollReadiness>, conns: &Vec<Conn>) -> (r: bool)
    ensures
        r == match readiness {
            Some(snapshot) => snapshot.listener_read_ready || conns::some_can_progress(conns@),
            None => true,
        },
{
    match readiness {
        Some(snapshot) => snapshot.listener_read_ready || any_can_progress(conns),
        None => true,
    }
}

} // verus!
