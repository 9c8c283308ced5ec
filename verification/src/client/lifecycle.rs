//! Requests that end or resize objects, and the freeing of what they leave.

use vstd::prelude::*;

use crate::bytes;
use crate::client::model;
use crate::client::model::ClientModel;
use crate::client::{Client, ClientError, ReadyFrameBatch, MAX_POOL_SIZE};
use crate::ids::ObjectId;
use crate::objects::Interface;
use crate::ordered;
use crate::requests::decode_word;

verus! {

broadcast use {crate::ordered::lemma_remove_insert, crate::ordered::lemma_insert_same};

/// A pool's buffers reach exactly one extent.
proof fn lemma_extent(c: ClientModel, pool_id: ObjectId, end: int)
    requires
        c.is_extent(pool_id, end),
    ensures
        c.pool_extent(pool_id) == end,
{
    let other = c.pool_extent(pool_id);
    assert(c.is_extent(pool_id, other));
    if end != 0 {
        let b = choose|b: ObjectId| #[trigger]
            c.buffers.contains_key(b) && c.buffers[b].pool_id == pool_id && c.buffers[b].end()
                == end;
        assert(c.buffers.contains_key(b));
    }
    if other != 0 {
        let b = choose|b: ObjectId| #[trigger]
            c.buffers.contains_key(b) && c.buffers[b].pool_id == pool_id && c.buffers[b].end()
                == other;
        assert(c.buffers.contains_key(b));
    }
}

impl Client {
    /// Whether `id` names a live object of the given kind.
    pub(crate) fn is_object(&self, id: ObjectId, interface: Interface) -> (r: bool)
        ensures
            r == self@.is_object(id, interface),
    {
        match self.objects.get(id) {
            Some(found) => *found == interface,
            None => false,
        }
    }

    /// Whether some surface shows the buffer.
    fn is_current(&self, buffer_id: ObjectId) -> (r: bool)
        ensures
            r == self@.is_current(buffer_id),
    {
        let ids = self.surfaces.keys();
        let mut i: usize = 0;
        while i < ids.len()
            invariant
                i <= ids@.len(),
                ids@.to_set() == self@.surfaces.dom(),
                forall|j: int|
                    0 <= j < i ==> !((#[trigger] self@.surfaces[ids@[j]]).current_buffer is Some
                        && self@.surfaces[ids@[j]].current_buffer->0.buffer_id == buffer_id),
            decreases ids@.len() - i,
        {
            proof {
                assert(ids@.to_set().contains(ids@[i as int]));
            }
            if let Some(surface) = self.surfaces.get(ids[i]) {
                if let Some(attachment) = surface.current_buffer {
                    if attachment.buffer_id == buffer_id {
                        proof {
                            assert(self@.surfaces.contains_key(ids@[i as int]));
                        }
                        return true;
                    }
                }
            }
            i += 1;
        }
        proof {
            assert forall|s: ObjectId| #[trigger] self@.surfaces.contains_key(s) implies !(
            self@.surfaces[s].current_buffer is Some
                && self@.surfaces[s].current_buffer->0.buffer_id == buffer_id) by {
                assert(ids@.to_set().contains(s));
                let j = choose|j: int| 0 <= j < ids@.len() && ids@[j] == s;
                assert(self@.surfaces[ids@[j]] == self@.surfaces[s]);
            }
        }
        false
    }

    /// Whether some surface shows the buffer, or will with its next commit.
    fn is_held(&self, buffer_id: ObjectId) -> (r: bool)
        ensures
            r == self@.is_held(buffer_id),
    {
        let ids = self.surfaces.keys();
        let mut i: usize = 0;
        while i < ids.len()
            invariant
                i <= ids@.len(),
                ids@.to_set() == self@.surfaces.dom(),
                forall|j: int| 0 <= j < i ==> !(#[trigger] self@.surfaces[ids@[j]]).holds(buffer_id),
            decreases ids@.len() - i,
        {
            proof {
                assert(ids@.to_set().contains(ids@[i as int]));
            }
            if let Some(surface) = self.surfaces.get(ids[i]) {
                let pending: bool = match surface.pending_buffer {
                    Some(attachment) => attachment.buffer_id == buffer_id,
                    None => false,
                };
                let current: bool = match surface.current_buffer {
                    Some(attachment) => attachment.buffer_id == buffer_id,
                    None => false,
                };
                if pending || current {
                    proof {
                        assert(self@.surfaces.contains_key(ids@[i as int]));
                    }
                    return true;
                }
            }
            i += 1;
        }
        proof {
            assert forall|s: ObjectId| #[trigger]
                self@.surfaces.contains_key(s) implies !self@.surfaces[s].holds(buffer_id) by {
                assert(ids@.to_set().contains(s));
                let j = choose|j: int| 0 <= j < ids@.len() && ids@[j] == s;
                assert(self@.surfaces[ids@[j]] == self@.surfaces[s]);
            }
        }
        false
    }

    /// Whether some buffer lies in the pool.
    fn has_buffers(&self, pool_id: ObjectId) -> (r: bool)
        ensures
            r == self@.has_buffers(pool_id),
    {
        let ids = self.buffers.keys();
        let mut i: usize = 0;
        while i < ids.len()
            invariant
                i <= ids@.len(),
                ids@.to_set() == self@.buffers.dom(),
                forall|j: int| 0 <= j < i ==> (#[trigger] self@.buffers[ids@[j]]).pool_id != pool_id,
            decreases ids@.len() - i,
        {
            proof {
                assert(ids@.to_set().contains(ids@[i as int]));
            }
            if let Some(info) = self.buffers.get(ids[i]) {
                if info.pool_id == pool_id {
                    proof {
                        assert(self@.buffers.contains_key(ids@[i as int]));
                    }
                    return true;
                }
            }
            i += 1;
        }
        proof {
            assert forall|b: ObjectId| #[trigger]
                self@.buffers.contains_key(b) implies self@.buffers[b].pool_id != pool_id by {
                assert(ids@.to_set().contains(b));
                let j = choose|j: int| 0 <= j < ids@.len() && ids@[j] == b;
                assert(self@.buffers[ids@[j]] == self@.buffers[b]);
            }
        }
        false
    }

    /// How far into the pool its buffers reach.
    fn pool_extent(&self, pool_id: ObjectId) -> (end: u64)
        ensures
            end == self@.pool_extent(pool_id),
    {
        let ids = self.buffers.keys();
        let mut extent: u64 = 0;
        let mut i: usize = 0;
        while i < ids.len()
            invariant
                i <= ids@.len(),
                ids@.to_set() == self@.buffers.dom(),
                forall|j: int|
                    0 <= j < i && (#[trigger] self@.buffers[ids@[j]]).pool_id == pool_id
                        ==> self@.buffers[ids@[j]].end() <= extent,
                extent == 0 || exists|b: ObjectId| #[trigger]
                    self@.buffers.contains_key(b) && self@.buffers[b].pool_id == pool_id
                        && self@.buffers[b].end() == extent,
            decreases ids@.len() - i,
        {
            proof {
                assert(ids@.to_set().contains(ids@[i as int]));
            }
            if let Some(info) = self.buffers.get(ids[i]) {
                if info.pool_id == pool_id {
                    let end: u64 = info.byte_end();
                    if end > extent {
                        extent = end;
                        proof {
                            assert(self@.buffers.contains_key(ids@[i as int]));
                        }
                    }
                }
            }
            i += 1;
        }
        proof {
            assert forall|b: ObjectId| #[trigger]
                self@.buffers.contains_key(b) && self@.buffers[b].pool_id
                    == pool_id implies self@.buffers[b].end() <= extent by {
                assert(ids@.to_set().contains(b));
                let j = choose|j: int| 0 <= j < ids@.len() && ids@[j] == b;
                assert(self@.buffers[ids@[j]] == self@.buffers[b]);
            }
            lemma_extent(self@, pool_id, extent as int);
        }
        extent
    }

    /// Tells the client that a buffer is no longer shown, if that is so.
    pub(crate) fn emit_buffer_release_if_unused(&mut self, buffer_id: Option<ObjectId>)
        ensures
            final(self)@ == old(self)@.release(buffer_id),
    {
        if let Some(buffer_id) = buffer_id {
            if !self.is_current(buffer_id) && self.is_object(buffer_id, Interface::Buffer) {
                let _ = self.emit_buffer_release(buffer_id);
            }
        }
    }

    /// The destroyed buffers that nothing refers to any more, in order.
    fn dead_buffers(&self) -> (dead: Vec<ObjectId>)
        ensures
            dead@ == ordered::ascending_keys(self@.dead_buffers()),
    {
        let ids = self.buffers.keys();
        let ghost pred = |b: ObjectId|
            !self@.is_object(b, Interface::Buffer) && !self@.is_held(b);
        let mut dead: Vec<ObjectId> = Vec::new();
        let mut i: usize = 0;
        proof {
            ordered::lemma_keeps_nothing(ids@, pred);
        }
        while i < ids.len()
            invariant
                i <= ids@.len(),
                ordered::is_ascending(ids@),
                pred == (|b: ObjectId|
                    !self@.is_object(b, Interface::Buffer) && !self@.is_held(b)),
                ordered::keeps_prefix(ids@, i as int, dead@, pred),
            decreases ids@.len() - i,
        {
            let id = ids[i];
            proof {
                ordered::lemma_keeps_next(ids@, i as int, dead@, pred);
            }
            if !self.is_object(id, Interface::Buffer) && !self.is_held(id) {
                dead.push(id);
            }
            i += 1;
        }
        proof {
            ordered::lemma_keeps_all(
                ids@,
                dead@,
                pred,
                self@.buffers.dom(),
                self@.dead_buffers(),
            );
        }
        dead
    }

    /// The destroyed pools that no buffer lies in any more, in order.
    fn dead_pools(&self) -> (dead: Vec<ObjectId>)
        ensures
            dead@ == ordered::ascending_keys(self@.dead_pools()),
    {
        let ids = self.pools.keys();
        let ghost pred = |p: ObjectId|
            !self@.is_object(p, Interface::ShmPool) && !self@.has_buffers(p);
        let mut dead: Vec<ObjectId> = Vec::new();
        let mut i: usize = 0;
        proof {
            ordered::lemma_keeps_nothing(ids@, pred);
        }
        while i < ids.len()
            invariant
                i <= ids@.len(),
                ordered::is_ascending(ids@),
                pred == (|p: ObjectId|
                    !self@.is_object(p, Interface::ShmPool) && !self@.has_buffers(p)),
                ordered::keeps_prefix(ids@, i as int, dead@, pred),
            decreases ids@.len() - i,
        {
            let id = ids[i];
            proof {
                ordered::lemma_keeps_next(ids@, i as int, dead@, pred);
            }
            if !self.is_object(id, Interface::ShmPool) && !self.has_buffers(id) {
                dead.push(id);
            }
            i += 1;
        }
        proof {
            ordered::lemma_keeps_all(ids@, dead@, pred, self@.pools.dom(), self@.dead_pools());
        }
        dead
    }

    /// Frees what was destroyed and is no longer referred to.
    pub(crate) fn reap_retired_resources(&mut self)
        ensures
            final(self)@ == old(self)@.reap(),
    {
        proof {
            reveal(ClientModel::reap);
        }
        let ghost start = self@;
        let buffers = self.dead_buffers();
        let mut i: usize = 0;
        proof {
            assert(buffers@.take(0) =~= Seq::<ObjectId>::empty());
        }
        while i < buffers.len()
            invariant
                i <= buffers@.len(),
                self@ == start.bury_buffers(buffers@.take(i as int)),
            decreases buffers@.len() - i,
        {
            let id = buffers[i];
            proof {
                let next = buffers@.take(i + 1);
                assert(next.drop_last() =~= buffers@.take(i as int));
                assert(next.last() == id);
            }
            let _ = self.buffers.remove(id);
            let _ = self.retired_object_ids.remove(id);
            let _ = self.emit_delete_id(id);
            i += 1;
        }
        proof {
            assert(buffers@.take(i as int) =~= buffers@);
        }
        let ghost middle = self@;
        let pools = self.dead_pools();
        let mut j: usize = 0;
        proof {
            assert(pools@.take(0) =~= Seq::<ObjectId>::empty());
        }
        while j < pools.len()
            invariant
                j <= pools@.len(),
                self@ == middle.bury_pools(pools@.take(j as int)),
            decreases pools@.len() - j,
        {
            let id = pools[j];
            proof {
                let next = pools@.take(j + 1);
                assert(next.drop_last() =~= pools@.take(j as int));
                assert(next.last() == id);
            }
            if let Some(pool) = self.pools.remove(id) {
                self.pool_bytes = self.pool_bytes.saturating_sub(pool.size as u64);
            }
            let _ = self.retired_object_ids.remove(id);
            let _ = self.emit_delete_id(id);
            j += 1;
        }
        proof {
            assert(pools@.take(j as int) =~= pools@);
        }
    }

    fn retire(&mut self, id: ObjectId)
        ensures
            final(self)@ == old(self)@.retire(id),
    {
        let _ = self.objects.remove(id);
        let _ = self.retired_object_ids.insert(id);
    }

    /// The size that a request gives a pool, if it may have it.
    fn check_resize(
        &self,
        pool_id: ObjectId,
        payload: &[u8],
        server_pool_bytes: u64,
        server_pool_byte_limit: u64,
    ) -> (r: Result<u32, ClientError>)
        ensures
            ({
                let fault = self@.resize_fault(
                    pool_id,
                    payload@,
                    server_pool_bytes,
                    server_pool_byte_limit,
                );
                match r {
                    Ok(size) => fault is None && size == bytes::le32_at(payload@, 0),
                    Err(e) => fault == Some(e),
                }
            }),
    {
        let size: u32 = match decode_word(payload) {
            Ok(size) => size,
            Err(error) => {
                return Err(
                    ClientError::Malformed { interface: Interface::ShmPool, opcode: 2, error },
                );
            },
        };
        if size > MAX_POOL_SIZE {
            return Err(ClientError::PoolTooLarge { requested: size, max: MAX_POOL_SIZE });
        }
        let old_size: u32 = match self.pools.get(pool_id) {
            Some(pool) => pool.size,
            None => {
                return Err(ClientError::UnknownPool { pool_id });
            },
        };
        let required: u64 = self.pool_extent(pool_id);
        if (size as u64) < required {
            return Err(
                ClientError::PoolResizeWouldTruncateBuffer { pool_id, requested: size, required },
            );
        }
        let additional: u64 = size.saturating_sub(old_size) as u64;
        if let Err(e) = self.ensure_pool_memory(
            additional,
            server_pool_bytes,
            server_pool_byte_limit,
        ) {
            return Err(e);
        }
        Ok(size)
    }

    /// Asks for the memory that a pool needs for a new size, and says whether
    /// it could be had.
    fn reserve_pool(&mut self, pool_id: ObjectId, size: u32) -> (granted: bool)
        ensures
            final(self)@ == old(self)@,
    {
        let mut granted: bool = true;
        if let Some(mut pool) = self.pools.remove(pool_id) {
            let held: usize = pool.storage.len();
            if size as usize > held {
                granted = pool.storage.try_reserve(size as usize - held).is_ok();
            }
            let _ = self.pools.insert(pool_id, pool);
        }
        proof {
            assert(self@.pools =~= old(self)@.pools);
        }
        granted
    }

    /// Gives a pool a new size. Memory that could not be had is refused.
    pub fn set_pool_size(&mut self, pool_id: ObjectId, size: u32, granted: bool) -> (r: Result<
        (),
        ClientError,
    >)
        ensures
            model::took(old(self)@.set_pool_size(pool_id, size, granted), final(self)@, r),
    {
        match self.pools.remove(pool_id) {
            Some(mut pool) => {
                let ghost before = pool.storage@;
                let held: usize = pool.storage.len();
                if size as usize > held && !granted {
                    let _ = self.pools.insert(pool_id, pool);
                    proof {
                        assert(self@.pools =~= old(self)@.pools);
                    }
                    return Err(ClientError::PoolAllocationFailed { requested: size });
                }
                pool.storage.resize(size as usize, 0);
                proof {
                    let after = ClientModel::resized(before, size as nat);
                    if size as usize > held {
                        assert forall|i: int| 0 <= i < size implies pool.storage@[i]
                            == after[i] by {
                            if i < held {
                                assert(pool.storage@.subrange(0, held as int)[i] == before[i]);
                            }
                        }
                    }
                    assert(pool.storage@ =~= after);
                }
                let old_size: u32 = pool.size;
                pool.size = size;
                let _ = self.pools.insert(pool_id, pool);
                self.pool_bytes = self.pool_bytes.saturating_sub(old_size as u64).saturating_add(
                    size as u64,
                );
                proof {
                    assert(self@.pools =~= old(self)@.set_pool_size(pool_id, size, granted).0.pools);
                }
                Ok(())
            },
            None => {
                proof {
                    assert(self@.pools =~= old(self)@.pools);
                }
                Err(ClientError::UnknownPool { pool_id })
            },
        }
    }

    /// Says in the second place whether the memory asked for could be had.
    fn resize_pool(
        &mut self,
        pool_id: ObjectId,
        payload: &[u8],
        server_pool_bytes: u64,
        server_pool_byte_limit: u64,
    ) -> (r: (Result<(), ClientError>, Ghost<bool>))
        ensures
            model::took(
                old(self)@.resize_pool(
                    pool_id,
                    payload@,
                    server_pool_bytes,
                    server_pool_byte_limit,
                    r.1@,
                ),
                final(self)@,
                r.0,
            ),
    {
        let size: u32 = match self.check_resize(
            pool_id,
            payload,
            server_pool_bytes,
            server_pool_byte_limit,
        ) {
            Ok(size) => size,
            Err(e) => {
                return (Err(e), Ghost(true));
            },
        };
        let granted: bool = self.reserve_pool(pool_id, size);
        (self.set_pool_size(pool_id, size, granted), Ghost(granted))
    }

    /// Takes out the callbacks that a surface waits for, shown or not.
    fn take_surface_frame_callbacks(
        &mut self,
        surface_id: ObjectId,
        pending_callbacks: &Vec<ObjectId>,
    ) -> (cancelled: Vec<(ObjectId, ObjectId)>)
        ensures
            cancelled@ == model::asked_by(
                surface_id,
                model::callbacks_of(old(self)@.awaiting, surface_id) + pending_callbacks@,
            ),
            final(self)@ == (ClientModel {
                awaiting: model::callbacks_not_of(old(self)@.awaiting, surface_id),
                ..old(self)@
            }),
    {
        let ghost all = self@.awaiting;
        let mut cancelled: Vec<(ObjectId, ObjectId)> = Vec::new();
        let mut kept: Vec<(ObjectId, ObjectId)> = Vec::new();
        let mut i: usize = 0;
        proof {
            assert(all.take(0) =~= Seq::<(ObjectId, ObjectId)>::empty());
            assert(model::asked_by(surface_id, Seq::empty()) =~= Seq::empty());
        }
        while i < self.awaiting_present_callbacks.len()
            invariant
                i <= all.len(),
                self@.awaiting == all,
                self.awaiting_present_callbacks@ == all,
                self@ == old(self)@,
                cancelled@ == model::asked_by(
                    surface_id,
                    model::callbacks_of(all.take(i as int), surface_id),
                ),
                kept@ == model::callbacks_not_of(all.take(i as int), surface_id),
            decreases all.len() - i,
        {
            let entry = self.awaiting_present_callbacks[i];
            proof {
                let next = all.take(i + 1);
                assert(next.drop_last() =~= all.take(i as int));
                assert(next.last() == entry);
            }
            if entry.0 == surface_id {
                cancelled.push((surface_id, entry.1));
            } else {
                kept.push(entry);
            }
            i += 1;
            proof {
                assert(cancelled@ =~= model::asked_by(
                    surface_id,
                    model::callbacks_of(all.take(i as int), surface_id),
                ));
            }
        }
        proof {
            assert(all.take(i as int) =~= all);
        }
        self.awaiting_present_callbacks = kept;
        let ghost shown = cancelled@;
        let mut j: usize = 0;
        proof {
            assert(pending_callbacks@.take(0) =~= Seq::<ObjectId>::empty());
            assert(shown + model::asked_by(surface_id, Seq::empty()) =~= shown);
        }
        while j < pending_callbacks.len()
            invariant
                j <= pending_callbacks@.len(),
                cancelled@ == shown + model::asked_by(
                    surface_id,
                    pending_callbacks@.take(j as int),
                ),
            decreases pending_callbacks@.len() - j,
        {
            cancelled.push((surface_id, pending_callbacks[j]));
            j += 1;
            proof {
                assert(cancelled@ =~= shown + model::asked_by(
                    surface_id,
                    pending_callbacks@.take(j as int),
                ));
            }
        }
        proof {
            assert(pending_callbacks@.take(j as int) =~= pending_callbacks@);
            assert(cancelled@ =~= model::asked_by(
                surface_id,
                model::callbacks_of(all, surface_id) + pending_callbacks@,
            ));
        }
        cancelled
    }

    fn destroy_surface(&mut self, surface_id: ObjectId) -> (r: Result<(), ClientError>)
        ensures
            model::took(old(self)@.destroy_surface(surface_id), final(self)@, r),
    {
        if let Some(toplevel_id) = self.toplevel_by_surface.get(surface_id) {
            return Err(
                ClientError::SurfaceHasToplevel { surface_id, toplevel_id: *toplevel_id },
            );
        }
        self.retire(surface_id);
        let (shown, pending) = match self.surfaces.remove(surface_id) {
            Some(surface) => (
                match surface.current_buffer {
                    Some(attachment) => Some(attachment.buffer_id),
                    None => None,
                },
                surface.pending_frame_callbacks,
            ),
            None => (None, Vec::new()),
        };
        let cancelled = self.take_surface_frame_callbacks(surface_id, &pending);
        let ghost ready_before = self@.ready;
        let batch = ReadyFrameBatch {
            callback_data: None,
            callbacks: cancelled,
            surface_delete_id: Some(surface_id),
        };
        let ghost batch_model = batch@;
        self.ready_frame_callbacks.push(batch);
        proof {
            assert(self@.ready =~= ready_before.push(batch_model));
        }
        self.emit_buffer_release_if_unused(shown);
        self.reap_retired_resources();
        Ok(())
    }

    /// Carries out a request that ends or resizes an object; other requests
    /// change nothing here. Says in the second place whether the memory asked
    /// for could be had.
    pub(crate) fn apply_resource_lifecycle(
        &mut self,
        target: ObjectId,
        interface: Interface,
        opcode: u16,
        payload: &[u8],
        server_pool_bytes: u64,
        server_pool_byte_limit: u64,
    ) -> (r: (Result<(), ClientError>, Ghost<bool>))
        ensures
            model::took(
                old(self)@.apply_resource_lifecycle(
                    target,
                    interface,
                    opcode,
                    payload@,
                    server_pool_bytes,
                    server_pool_byte_limit,
                    r.1@,
                ),
                final(self)@,
                r.0,
            ),
    {
        match (interface, opcode) {
            (Interface::ShmPool, 2) => self.resize_pool(
                target,
                payload,
                server_pool_bytes,
                server_pool_byte_limit,
            ),
            (Interface::ShmPool, 3) => {
                self.retire(target);
                self.reap_retired_resources();
                (Ok(()), Ghost(true))
            },
            (Interface::Buffer, 1) => {
                self.retire(target);
                self.reap_retired_resources();
                (Ok(()), Ghost(true))
            },
            (Interface::Surface, 1) => (self.destroy_surface(target), Ghost(true)),
            _ => (Ok(()), Ghost(true)),
        }
    }

    /// Takes a surface's buffers and damage away, as when its window ends.
    pub(crate) fn detach_surface_resources(&mut self, surface_id: ObjectId)
        ensures
            final(self)@ == old(self)@.detach_surface(surface_id),
    {
        match self.surfaces.remove(surface_id) {
            Some(mut surface) => {
                let shown = match surface.current_buffer {
                    Some(attachment) => Some(attachment.buffer_id),
                    None => None,
                };
                surface.pending_buffer = None;
                surface.pending_attach = false;
                surface.pending_damage = Vec::new();
                surface.pending_damage_unprovable = false;
                surface.current_buffer = None;
                let _ = self.surfaces.insert(surface_id, surface);
                self.emit_buffer_release_if_unused(shown);
                self.reap_retired_resources();
            },
            None => {
                proof {
                    assert(old(self)@.surfaces.remove(surface_id) =~= old(self)@.surfaces);
                }
                self.reap_retired_resources();
            },
        }
    }
}

} // verus!
