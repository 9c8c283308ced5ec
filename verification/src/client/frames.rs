//! Frame callbacks: asked for, shown, reported.

use vstd::prelude::*;

use crate::client::model;
use crate::client::model::ClientModel;
use crate::client::{Client, FrameCallbackCompletion, ReadyFrameBatch};
use crate::ids::ObjectId;

verus! {

broadcast use {
    crate::client::model::lemma_emit_frame,
    crate::ordered::lemma_remove_insert,
    crate::ordered::lemma_insert_same,
};

impl Client {
    /// Decides the callbacks of everything committed so far: it has been shown.
    pub fn mark_frame_callbacks_presented(&mut self, callback_data: u32)
        ensures
            final(self)@ == old(self)@.mark_presented(callback_data),
    {
        if self.awaiting_present_callbacks.len() == 0 {
            return;
        }
        let ghost ready_before = self@.ready;
        let mut callbacks: Vec<(ObjectId, ObjectId)> = Vec::new();
        core::mem::swap(&mut callbacks, &mut self.awaiting_present_callbacks);
        let batch = ReadyFrameBatch {
            callback_data: Some(callback_data),
            callbacks,
            surface_delete_id: None,
        };
        let ghost batch_model = batch@;
        self.ready_frame_callbacks.push(batch);
        proof {
            assert(self@.ready =~= ready_before.push(batch_model));
        }
    }

    /// Whether some decided callback or surface id is still to be reported.
    pub fn has_ready_frame_callback_lifecycle(&self) -> (r: bool)
        ensures
            r == self@.has_ready(),
    {
        let mut i: usize = 0;
        while i < self.ready_frame_callbacks.len()
            invariant
                i <= self.ready_frame_callbacks@.len(),
                forall|j: int| 0 <= j < i ==> (#[trigger] self@.ready[j]).is_spent(),
            decreases self.ready_frame_callbacks@.len() - i,
        {
            let batch = &self.ready_frame_callbacks[i];
            proof {
                assert(self@.ready[i as int] == batch@);
            }
            if batch.callbacks.len() > 0 || batch.surface_delete_id.is_some() {
                return true;
            }
            i += 1;
        }
        false
    }

    fn can_enqueue_frame_lifecycle(&self, events: usize, bytes: usize) -> (r: bool)
        ensures
            r == self@.has_room(events as int, bytes as int),
    {
        let limits = self.limits;
        !self.event_queue_overflowed && events <= limits.pending_events && self.events.len()
            <= limits.pending_events - events && bytes <= limits.pending_event_bytes
            && self.events.bytes() <= limits.pending_event_bytes - bytes
    }

    /// Whether the next report fits into the event queue.
    pub fn ready_frame_callback_lifecycle_can_progress(&self) -> (r: bool)
        ensures
            r == self@.can_progress(),
    {
        if self.ready_frame_callbacks.len() == 0 {
            return false;
        }
        let batch = &self.ready_frame_callbacks[0];
        proof {
            assert(self@.ready[0] == batch@);
        }
        if batch.callbacks.len() > 0 && batch.callback_data.is_some() {
            self.can_enqueue_frame_lifecycle(2, 28)
        } else if batch.callbacks.len() > 0 || batch.surface_delete_id.is_some() {
            self.can_enqueue_frame_lifecycle(1, 14)
        } else {
            false
        }
    }

    /// Drops the batches in front that have nothing more to report.
    fn drop_spent_batches(&mut self)
        ensures
            final(self)@ == (ClientModel {
                ready: model::unspent(old(self)@.ready),
                ..old(self)@
            }),
    {
        while self.ready_frame_callbacks.len() > 0 && self.ready_frame_callbacks[0].callbacks.len()
            == 0 && self.ready_frame_callbacks[0].surface_delete_id.is_none()
            invariant
                self@ == (ClientModel { ready: self@.ready, ..old(self)@ }),
                model::unspent(self@.ready) == model::unspent(old(self)@.ready),
            decreases self.ready_frame_callbacks@.len(),
        {
            let ghost before = self@.ready;
            proof {
                assert(before[0] == self.ready_frame_callbacks@[0]@);
            }
            let _ = self.ready_frame_callbacks.remove(0);
            proof {
                assert(self@.ready =~= before.skip(1));
            }
        }
        proof {
            if self@.ready.len() > 0 {
                assert(self@.ready[0] == self.ready_frame_callbacks@[0]@);
            }
        }
    }

    /// Reports one decided callback, if there is one and the queue has room.
    pub fn try_complete_ready_frame_callback_lifecycle(&mut self) -> (r: FrameCallbackCompletion)
        ensures
            (final(self)@, r) == old(self)@.complete_ready(),
    {
        self.drop_spent_batches();
        if self.ready_frame_callbacks.len() == 0 {
            return FrameCallbackCompletion::Empty;
        }
        if !self.ready_frame_callback_lifecycle_can_progress() {
            return FrameCallbackCompletion::Blocked;
        }
        let ghost trimmed = self@;
        let ghost first = self@.ready[0];
        proof {
            assert(first == self.ready_frame_callbacks@[0]@);
        }
        let data = self.ready_frame_callbacks[0].callback_data;
        if self.ready_frame_callbacks[0].callbacks.len() > 0 {
            let callback_id = self.ready_frame_callbacks[0].callbacks[0].1;
            if let Some(callback_data) = data {
                let _ = self.emit_callback_done(callback_id, callback_data);
            }
            let _ = self.drop_object(callback_id);
            let _ = self.emit_delete_id(callback_id);
            proof {
                assert(self.ready_frame_callbacks@[0]@ == self@.ready[0]);
            }
            let ghost ready = self@.ready;
            let mut batch = self.ready_frame_callbacks.remove(0);
            let _ = batch.callbacks.remove(0);
            proof {
                assert(batch@.callbacks =~= first.callbacks.skip(1));
            }
            let ghost rest = batch@;
            self.ready_frame_callbacks.insert(0, batch);
            proof {
                assert(self@.ready =~= ready.update(0, rest));
            }
        } else if let Some(surface_id) = self.ready_frame_callbacks[0].surface_delete_id {
            let _ = self.emit_delete_id(surface_id);
            let _ = self.retired_object_ids.remove(surface_id);
            proof {
                assert(self.ready_frame_callbacks@[0]@ == self@.ready[0]);
            }
            let ghost ready = self@.ready;
            let mut batch = self.ready_frame_callbacks.remove(0);
            batch.surface_delete_id = None;
            let ghost rest = batch@;
            self.ready_frame_callbacks.insert(0, batch);
            proof {
                assert(self@.ready =~= ready.update(0, rest));
            }
        }
        proof {
            assert(self@ == trimmed.complete_first());
        }
        self.drop_spent_batches();
        FrameCallbackCompletion::Completed
    }
}

} // verus!
