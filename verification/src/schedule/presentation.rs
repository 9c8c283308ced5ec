//! When the picture is shown, and what follows from that.

use vstd::prelude::*;

use crate::ids::ClientId;
use crate::server::damage::DamageModel;
use crate::server::model::ServerModel;
use crate::server::Server;

verus! {

/// What there is to show.
#[derive(Copy, Clone, Debug, PartialEq, Eq, Structural)]
pub struct PresentationSchedule {
    frame_dirty: bool,
    scene_dirty: bool,
}

pub struct PresentationModel {
    /// Whether there is anything to show at the end of the turn.
    pub frame_dirty: bool,
    /// Whether there is anything to show at once.
    pub scene_dirty: bool,
}

impl View for PresentationSchedule {
    type V = PresentationModel;

    closed spec fn view(&self) -> PresentationModel {
        PresentationModel { frame_dirty: self.frame_dirty, scene_dirty: self.scene_dirty }
    }
}

impl PresentationModel {
    pub open spec fn clean() -> PresentationModel {
        PresentationModel { frame_dirty: false, scene_dirty: false }
    }

    pub open spec fn is_clean(self) -> bool {
        !self.frame_dirty && !self.scene_dirty
    }
}

impl Default for PresentationSchedule {
    fn default() -> (schedule: Self)
        ensures
            schedule@ == PresentationModel::clean(),
    {
        PresentationSchedule { frame_dirty: false, scene_dirty: false }
    }
}

impl PresentationSchedule {
    pub fn mark_frame_dirty(&mut self)
        ensures
            final(self)@ == (PresentationModel { frame_dirty: true, ..old(self)@ }),
    {
        self.frame_dirty = true;
    }

    pub fn mark_scene_if(&mut self, changed: bool)
        ensures
            final(self)@ == (PresentationModel {
                scene_dirty: old(self)@.scene_dirty || changed,
                ..old(self)@
            }),
    {
        self.scene_dirty = self.scene_dirty || changed;
    }

    /// Whether to show the picture now because it has changed. If so, it
    /// counts as shown.
    pub fn take_scene_ready(&mut self, deferred: bool) -> (ready: bool)
        ensures
            ready == (!deferred && old(self)@.scene_dirty),
            final(self)@ == if ready {
                PresentationModel::clean()
            } else {
                old(self)@
            },
    {
        if deferred || !self.scene_dirty {
            return false;
        }
        self.frame_dirty = false;
        self.scene_dirty = false;
        true
    }

    /// Whether to show the picture now. If so, it counts as shown.
    pub fn take_ready(&mut self, deferred: bool) -> (ready: bool)
        ensures
            ready == (!deferred && !old(self)@.is_clean()),
            final(self)@ == if ready {
                PresentationModel::clean()
            } else {
                old(self)@
            },
    {
        if deferred || (!self.frame_dirty && !self.scene_dirty) {
            return false;
        }
        self.frame_dirty = false;
        self.scene_dirty = false;
        true
    }

    /// Whether fences may be sent: everything before them has been shown.
    pub fn present_fence_ready(&self, deferred: bool) -> (ready: bool)
        ensures
            ready == (!deferred && self@.is_clean()),
    {
        !deferred && !self.frame_dirty && !self.scene_dirty
    }
}

impl ServerModel {
    /// The state after the picture was shown: nothing is left to show, and the
    /// frame callbacks that waited for it may fire.
    pub open spec fn shown(self, callback_data: u32) -> ServerModel {
        ServerModel { damage: DamageModel::none(), ..self }.presented(callback_data)
    }

    /// Whether the picture must wait.
    pub open spec fn is_deferred(self) -> bool {
        self.commit_owner is Some || self.pending
    }

    /// The state after the next fence was taken, if there is one.
    pub open spec fn fence_taken(self) -> ServerModel {
        ServerModel { fences: self.next_fence(self.fences).1, ..self }
    }

    /// The state after `n` fences were taken, as far as there are any.
    pub open spec fn fences_taken(self, n: nat) -> ServerModel
        decreases n,
    {
        if n == 0 {
            self
        } else {
            self.fences_taken((n - 1) as nat).fence_taken()
        }
    }

    /// The first `n` fences, as far as there are any.
    pub open spec fn fence_serials(self, n: nat) -> Seq<u32>
        decreases n,
    {
        if n == 0 {
            Seq::empty()
        } else {
            let before = self.fences_taken((n - 1) as nat);
            let serials = self.fence_serials((n - 1) as nat);
            match before.next_fence(before.fences).0 {
                Some(serial) => serials.push(serial),
                None => serials,
            }
        }
    }

    proof fn lemma_no_fence(self, fences: Seq<(ClientId, u32)>)
        ensures
            self.next_fence(fences).0 is None ==> self.next_fence(fences).1 == Seq::<
                (ClientId, u32),
            >::empty(),
        decreases fences.len(),
    {
        if fences.len() > 0 {
            self.lemma_no_fence(fences.skip(1));
        } else {
            assert(fences =~= Seq::empty());
        }
    }

    /// Once there is no fence left, none comes.
    proof fn lemma_fences_end(self, sent: nat, n: nat)
        requires
            sent < n,
            ({
                let s = self.fences_taken(sent);
                s.next_fence(s.fences).0 is None
            }),
        ensures
            self.fences_taken(n) == self.fences_taken(sent + 1),
            self.fence_serials(n) == self.fence_serials(sent),
        decreases n,
    {
        let s = self.fences_taken(sent);
        s.lemma_no_fence(s.fences);
        if n > sent + 1 {
            self.lemma_fences_end(sent, (n - 1) as nat);
        }
    }

    /// The first fences of more are the same.
    proof fn lemma_serials_grow(self, sent: nat, n: nat)
        requires
            sent <= n,
            self.fence_serials(sent).len() == sent,
        ensures
            self.fence_serials(n).len() >= sent,
            self.fence_serials(n).take(sent as int) == self.fence_serials(sent),
        decreases n,
    {
        if sent < n {
            self.lemma_serials_grow(sent, (n - 1) as nat);
            assert(self.fence_serials(n).take(sent as int) =~= self.fence_serials(
                (n - 1) as nat,
            ).take(sent as int));
        } else {
            assert(self.fence_serials(n).take(sent as int) =~= self.fence_serials(n));
        }
    }
}

/// Does what follows from showing the picture, unless that failed. Says how
/// many frame callbacks fired.
pub fn complete_successful_frame_presentation(
    server: &mut Server,
    present_succeeded: bool,
    deferred: bool,
    callback_data: u32,
    remaining: &mut usize,
) -> (r: Result<usize, ()>)
    ensures
        match r {
            Err(_) => !present_succeeded && final(server)@ == old(server)@ && *final(remaining)
                == *old(remaining),
            Ok(completed) => present_succeeded && if deferred {
                completed == 0 && final(server)@ == old(server)@ && *final(remaining) == *old(
                    remaining,
                )
            } else {
                let drained = old(server)@.shown(callback_data).callbacks_drained(
                    *old(remaining) as nat,
                );
                final(server)@ == drained.server && *final(remaining) == drained.remaining
                    && completed == *old(remaining) - *final(remaining)
            },
        },
{
    if !present_succeeded {
        return Err(());
    }
    if deferred {
        return Ok(0);
    }
    server.clear_presentation_damage();
    server.mark_frame_callbacks_presented(callback_data);
    Ok(server.complete_presented_frame_callbacks(remaining))
}

/// Whether frame callbacks need another turn: some fired after connections
/// were served, or more can fire.
pub fn frame_callback_lifecycle_requires_local_turn(
    server: &Server,
    completed_after_transport: usize,
) -> (r: bool)
    ensures
        r == (completed_after_transport > 0 || server@.some_can_progress()),
{
    completed_after_transport > 0 || server.ready_frame_callback_lifecycle_can_progress()
}

/// Whether fences need another turn: one is left, and fences may be sent.
pub fn present_fences_require_local_turn(
    server: &Server,
    presentation: &PresentationSchedule,
) -> (r: bool)
    ensures
        r == (server@.fences.len() > 0 && !server@.is_deferred() && presentation@.is_clean()),
{
    server.pending_present_fence_count() > 0 && presentation.present_fence_ready(
        server.presentation_deferred(),
    )
}

/// Takes the next fence, if fences may be sent.
pub fn take_ready_present_fence(server: &mut Server, presentation: &PresentationSchedule) -> (serial:
    Option<u32>)
    ensures
        if !old(server)@.is_deferred() && presentation@.is_clean() {
            serial == old(server)@.next_fence(old(server)@.fences).0 && final(server)@ == (
            ServerModel { fences: old(server)@.next_fence(old(server)@.fences).1, ..old(server)@ })
        } else {
            serial is None && final(server)@ == old(server)@
        },
{
    let deferred = server.presentation_deferred();
    take_ready_present_fence_with_deferred(server, presentation, deferred)
}

/// Takes the next fence, if fences may be sent.
pub fn take_ready_present_fence_with_deferred(
    server: &mut Server,
    presentation: &PresentationSchedule,
    deferred: bool,
) -> (serial: Option<u32>)
    ensures
        if !deferred && presentation@.is_clean() {
            serial == old(server)@.next_fence(old(server)@.fences).0 && final(server)@ == (
            ServerModel { fences: old(server)@.next_fence(old(server)@.fences).1, ..old(server)@ })
        } else {
            serial is None && final(server)@ == old(server)@
        },
{
    if presentation.present_fence_ready(deferred) {
        server.take_pending_present_fence()
    } else {
        None
    }
}

/// Whether the fences were handed to `emit`, all but the last with success.
pub open spec fn were_emitted<E: FnMut(u32) -> bool>(
    emit: E,
    serials: Seq<u32>,
    succeeded: bool,
) -> bool {
    forall|i: int|
        0 <= i < serials.len() ==> emit.ensures(
            (#[trigger] serials[i],),
            i < serials.len() - 1 || succeeded,
        )
}

/// Sends fences that may be sent, at most `writes_remaining`, until one cannot
/// be sent.
pub fn drain_ready_present_fences_bounded<E>(
    server: &mut Server,
    presentation: &PresentationSchedule,
    deferred: bool,
    writes_remaining: &mut usize,
    emit: E,
) -> (succeeded: bool)
where
    E: FnMut(u32) -> bool,
    requires
        forall|serial: u32| emit.requires((serial,)),
    ensures
        if deferred || !presentation@.is_clean() {
            succeeded && final(server)@ == old(server)@ && *final(writes_remaining) == *old(
                writes_remaining,
            )
        } else {
            let writes = *old(writes_remaining) as nat;
            let serials = old(server)@.fence_serials(writes);
            if succeeded {
                final(server)@ == old(server)@.fences_taken(writes) && *final(writes_remaining)
                    == writes - serials.len() && were_emitted(emit, serials, true)
            } else {
                exists|sent: nat|
                    sent < serials.len() && final(server)@ == #[trigger] old(server)@.fences_taken(
                        sent + 1,
                    ) && *final(writes_remaining) == writes - sent && were_emitted(
                        emit,
                        serials.take(sent as int + 1),
                        false,
                    )
            }
        },
{
    if !presentation.present_fence_ready(deferred) {
        return true;
    }
    let mut send = emit;
    let ghost start = server@;
    let ghost budget = *writes_remaining as nat;
    let ghost mut sent: nat = 0;
    while *writes_remaining > 0
        invariant_except_break
            server@ == start.fences_taken(sent),
        invariant
            !deferred && presentation@.is_clean(),
            start == old(server)@,
            budget == *old(writes_remaining),
            *writes_remaining == budget - sent,
            sent <= budget,
            send == emit,
            forall|serial: u32| emit.requires((serial,)),
            start.fence_serials(sent).len() == sent,
            were_emitted(emit, start.fence_serials(sent), true),
        ensures
            server@ == start.fences_taken(budget),
            start.fence_serials(budget) == start.fence_serials(sent),
        decreases *writes_remaining,
    {
        let ghost before = server@;
        let serial = match take_ready_present_fence_with_deferred(server, presentation, deferred) {
            Some(serial) => serial,
            None => {
                proof {
                    start.lemma_fences_end(sent, budget);
                }
                break;
            },
        };
        let ghost serials = start.fence_serials(sent + 1);
        let succeeded = send(serial);
        proof {
            assert forall|i: int| 0 <= i < serials.len() implies emit.ensures(
                (#[trigger] serials[i],),
                i < serials.len() - 1 || succeeded,
            ) by {
                if i < sent {
                    assert(serials[i] == start.fence_serials(sent)[i]);
                    assert(emit.ensures((start.fence_serials(sent)[i],), i < sent - 1 || true));
                }
            }
        }
        if !succeeded {
            proof {
                start.lemma_serials_grow(sent + 1, budget);
                assert(server@ == start.fences_taken(sent + 1));
            }
            return false;
        }
        proof {
            sent = sent + 1;
        }
        *writes_remaining -= 1;
    }
    true
}

} // verus!
