//! Ending in good order: connections that were made before the server was
//! asked to end are served, within bounds.

use vstd::prelude::*;

use crate::schedule::{SHUTDOWN_DRAIN_TURNS, SHUTDOWN_QUIESCENCE_GRACE_MS};

verus! {

/// The error of a call that would have had to wait.
pub const EAGAIN: i32 = 6;

/// The error of a call that a signal cut short.
pub const EINTR: i32 = 27;

/// What to do at the end of a turn.
#[derive(Copy, Clone, Debug, PartialEq, Eq, Structural)]
pub enum ShutdownTurnDecision {
    Continue,
    /// Wait for activity, at most the given number of milliseconds.
    WaitForDeadline(u64),
    Finish,
}

impl Default for ShutdownTurnDecision {
    fn default() -> (decision: Self)
        ensures
            decision == ShutdownTurnDecision::Continue,
    {
        ShutdownTurnDecision::Continue
    }
}

/// How far the end has got.
#[derive(Copy, Clone, Debug, PartialEq, Eq, Structural)]
pub struct ShutdownDrain {
    requested: bool,
    listener_drained: bool,
    turns_remaining: usize,
    deadline_ms: u64,
}

pub struct ShutdownModel {
    pub requested: bool,
    /// Whether nobody was waiting to be accepted in the last turn.
    pub listener_drained: bool,
    pub turns_remaining: usize,
    pub deadline_ms: u64,
}

impl View for ShutdownDrain {
    type V = ShutdownModel;

    closed spec fn view(&self) -> ShutdownModel {
        ShutdownModel {
            requested: self.requested,
            listener_drained: self.listener_drained,
            turns_remaining: self.turns_remaining,
            deadline_ms: self.deadline_ms,
        }
    }
}

impl ShutdownModel {
    pub open spec fn idle() -> ShutdownModel {
        ShutdownModel {
            requested: false,
            listener_drained: false,
            turns_remaining: 0,
            deadline_ms: 0,
        }
    }

    /// The state after the end was asked for. Asking again changes nothing.
    pub open spec fn begun(self, now_ms: u64) -> ShutdownModel {
        if self.requested {
            self
        } else {
            ShutdownModel {
                requested: true,
                listener_drained: false,
                turns_remaining: SHUTDOWN_DRAIN_TURNS,
                deadline_ms: if now_ms + SHUTDOWN_QUIESCENCE_GRACE_MS > u64::MAX {
                    u64::MAX
                } else {
                    (now_ms + SHUTDOWN_QUIESCENCE_GRACE_MS) as u64
                },
            }
        }
    }

    /// The state after a turn.
    pub open spec fn after_turn(self) -> ShutdownModel {
        if !self.requested || self.turns_remaining == 0 {
            self
        } else {
            ShutdownModel { turns_remaining: (self.turns_remaining - 1) as usize, ..self }
        }
    }

    /// What to do at the end of a turn: end after the last turn, or once
    /// nothing is left to do and the grace is over.
    pub open spec fn decision(
        self,
        now_ms: u64,
        local_pending_work: bool,
        client_transport_ready: bool,
    ) -> ShutdownTurnDecision {
        if !self.requested {
            ShutdownTurnDecision::Continue
        } else if self.turns_remaining <= 1 {
            ShutdownTurnDecision::Finish
        } else if !self.listener_drained || local_pending_work || client_transport_ready {
            ShutdownTurnDecision::Continue
        } else if now_ms >= self.deadline_ms {
            ShutdownTurnDecision::Finish
        } else {
            ShutdownTurnDecision::WaitForDeadline((self.deadline_ms - now_ms) as u64)
        }
    }

    /// The state after `n` turns, whatever comes of accepting in them.
    pub open spec fn after_turns(self, drained: Seq<bool>) -> ShutdownModel
        decreases drained.len(),
    {
        if drained.len() == 0 {
            self
        } else {
            let before = self.after_turns(drained.drop_last()).after_turn();
            if before.requested {
                ShutdownModel { listener_drained: drained.last(), ..before }
            } else {
                before
            }
        }
    }

    /// Once the end has been asked for, it comes after a bounded number of
    /// turns, whatever connections do.
    pub proof fn law_end_comes(
        self,
        asked_ms: u64,
        drained: Seq<bool>,
        now_ms: u64,
        local_pending_work: bool,
        client_transport_ready: bool,
    )
        requires
            !self.requested,
            drained.len() == SHUTDOWN_DRAIN_TURNS - 1,
        ensures
            self.begun(asked_ms).after_turns(drained).decision(
                now_ms,
                local_pending_work,
                client_transport_ready,
            ) == ShutdownTurnDecision::Finish,
    {
        self.begun(asked_ms).lemma_turns_count_down(drained);
    }

    proof fn lemma_turns_count_down(self, drained: Seq<bool>)
        requires
            self.requested,
            drained.len() <= self.turns_remaining,
        ensures
            self.after_turns(drained).requested,
            self.after_turns(drained).turns_remaining == self.turns_remaining - drained.len(),
        decreases drained.len(),
    {
        if drained.len() > 0 {
            self.lemma_turns_count_down(drained.drop_last());
        }
    }

    /// A deadline to wait for lies ahead, and nothing is left to do: nobody
    /// waits to be accepted or served.
    pub proof fn law_waits_only_when_quiet(
        self,
        now_ms: u64,
        local_pending_work: bool,
        client_transport_ready: bool,
    )
        ensures
            self.decision(now_ms, local_pending_work, client_transport_ready)
                matches ShutdownTurnDecision::WaitForDeadline(ms) ==> ms > 0 && now_ms + ms
                == self.deadline_ms && self.listener_drained && !local_pending_work
                && !client_transport_ready,
    {
    }
}

impl Default for ShutdownDrain {
    fn default() -> (drain: Self)
        ensures
            drain@ == ShutdownModel::idle(),
    {
        ShutdownDrain {
            requested: false,
            listener_drained: false,
            turns_remaining: 0,
            deadline_ms: 0,
        }
    }
}

impl ShutdownDrain {
    /// Notes that the end was asked for.
    pub fn request(&mut self, now_ms: u64)
        ensures
            final(self)@ == old(self)@.begun(now_ms),
    {
        if !self.requested {
            self.requested = true;
            self.listener_drained = false;
            self.turns_remaining = SHUTDOWN_DRAIN_TURNS;
            self.deadline_ms = now_ms.saturating_add(SHUTDOWN_QUIESCENCE_GRACE_MS);
        }
    }

    /// Notes whether anybody was still waiting to be accepted.
    pub fn observe_accept_result(&mut self, result: Result<usize, i32>)
        ensures
            final(self)@ == if old(self)@.requested {
                ShutdownModel {
                    listener_drained: result == Err::<usize, i32>(-EAGAIN as i32),
                    ..old(self)@
                }
            } else {
                old(self)@
            },
    {
        if self.requested {
            self.listener_drained = match result {
                Err(rc) => rc == -EAGAIN,
                Ok(_) => false,
            };
        }
    }

    pub fn requested(self) -> (r: bool)
        ensures
            r == self@.requested,
    {
        self.requested
    }

    /// What to do at the end of a turn.
    pub fn finish_turn(
        &mut self,
        now_ms: u64,
        local_pending_work: bool,
        client_transport_ready: bool,
    ) -> (decision: ShutdownTurnDecision)
        ensures
            final(self)@ == old(self)@.after_turn(),
            decision == old(self)@.decision(now_ms, local_pending_work, client_transport_ready),
    {
        if !self.requested {
            return ShutdownTurnDecision::Continue;
        }
        self.turns_remaining = self.turns_remaining.saturating_sub(1);
        if self.turns_remaining == 0 {
            return ShutdownTurnDecision::Finish;
        }
        if !self.listener_drained || local_pending_work || client_transport_ready {
            return ShutdownTurnDecision::Continue;
        }
        if now_ms >= self.deadline_ms {
            ShutdownTurnDecision::Finish
        } else {
            ShutdownTurnDecision::WaitForDeadline(self.deadline_ms - now_ms)
        }
    }
}

} // verus!
