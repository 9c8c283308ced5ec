//! Making a connection and looking at it.

use vstd::prelude::*;
use vstd::slice::slice_subrange;

use crate::caps::{Cap, CapSet};
use crate::client;
use crate::client::model;
use crate::client::model::{BatchModel, ClientModel};
use crate::client::queue::EventQueue;
use crate::client::{BufferInfo, Client, ClientLimits, HandledRequest, Pool, Surface, Toplevel};
use crate::ids::{ClientId, IdAllocator, ObjectId};
use crate::objects::Interface;
use crate::ordered;
use crate::ordered::{OrderedMap, OrderedSet};
use crate::text::utf8_bytes;

verus! {

/// The callbacks that the listed surfaces ask for with their next commits.
pub open spec fn pending_callbacks(c: ClientModel, ids: Seq<ObjectId>) -> nat
    decreases ids.len(),
{
    if ids.len() == 0 {
        0
    } else {
        pending_callbacks(c, ids.drop_last())
            + c.surfaces[ids.last()].pending_frame_callbacks.len()
    }
}

impl Client {
    /// A connection without privileges.
    pub fn new(id: ClientId) -> (client: Self)
        ensures
            client@ == ClientModel::fresh(id, CapSet(0), 0, client::default_client_limits()),
    {
        Client::new_with_caps(id, CapSet::empty())
    }

    pub fn new_with_caps(id: ClientId, capabilities: CapSet) -> (client: Self)
        ensures
            client@ == ClientModel::fresh(id, capabilities, 0, client::default_client_limits()),
    {
        Client::new_with_credentials_and_limits(id, capabilities, 0, ClientLimits::default())
    }

    pub fn new_with_credentials(id: ClientId, capabilities: CapSet, peer_pid: u32) -> (client: Self)
        ensures
            client@ == ClientModel::fresh(
                id,
                capabilities,
                peer_pid,
                client::default_client_limits(),
            ),
    {
        Client::new_with_credentials_and_limits(
            id,
            capabilities,
            peer_pid,
            ClientLimits::default(),
        )
    }

    pub fn new_with_caps_and_limits(
        id: ClientId,
        capabilities: CapSet,
        limits: ClientLimits,
    ) -> (client: Self)
        ensures
            client@ == ClientModel::fresh(id, capabilities, 0, limits),
    {
        Client::new_with_credentials_and_limits(id, capabilities, 0, limits)
    }

    /// A connection of the given process, with the given privileges and limits.
    /// There is always room for the display object.
    pub fn new_with_credentials_and_limits(
        id: ClientId,
        capabilities: CapSet,
        peer_pid: u32,
        limits: ClientLimits,
    ) -> (client: Self)
        ensures
            client@ == ClientModel::fresh(id, capabilities, peer_pid, limits),
    {
        let mut limits = limits;
        if limits.objects == 0 {
            limits.objects = 1;
        }
        let mut objects: OrderedMap<ObjectId, Interface> = OrderedMap::new();
        let _ = objects.insert(ObjectId(1), Interface::Display);
        let client = Client {
            id,
            peer_pid,
            objects,
            retired_object_ids: OrderedSet::new(),
            server_ids: IdAllocator::for_server(),
            journal: Vec::new(),
            events: EventQueue::new(),
            event_queue_overflowed: false,
            limits,
            capabilities,
            pools: OrderedMap::new(),
            pool_bytes: 0,
            buffers: OrderedMap::new(),
            surfaces: OrderedMap::new(),
            awaiting_present_callbacks: Vec::new(),
            ready_frame_callbacks: Vec::new(),
            toplevels: OrderedMap::new(),
            toplevel_metadata_bytes: 0,
            toplevel_by_surface: OrderedMap::new(),
            next_toplevel_offset: 0,
            next_toplevel_ordinal: 1,
            pointer_id: None,
            keyboard_id: None,
            next_configure_serial: 1,
            shell_manager_id: None,
            shell_manager_version: None,
            shell_manager_subscribed: false,
            shell_manager_state_snapshot_id: None,
        };
        proof {
            assert(client@ =~= ClientModel::fresh(id, capabilities, peer_pid, limits));
        }
        client
    }

    pub fn has_cap(&self, cap: Cap) -> (r: bool)
        ensures
            r == self@.capabilities.spec_contains(cap),
    {
        self.capabilities.contains(cap)
    }

    /// The bytes of titles and application ids that the connection holds.
    pub fn toplevel_metadata_bytes_len(&self) -> (bytes: u64)
        ensures
            bytes == self@.toplevel_metadata_bytes,
    {
        self.toplevel_metadata_bytes
    }

    /// Gives back the bytes of a window's title and application id.
    pub(crate) fn release_toplevel_metadata(&mut self, toplevel: &Toplevel)
        ensures
            final(self)@ == old(self)@.release_metadata(toplevel@),
    {
        let title: u64 = utf8_bytes(&toplevel.title).len() as u64;
        let app_id: u64 = utf8_bytes(&toplevel.app_id).len() as u64;
        self.toplevel_metadata_bytes = self.toplevel_metadata_bytes.saturating_sub(
            title.saturating_add(app_id),
        );
    }

    /// The kind of object that an id names.
    pub fn get(&self, id: ObjectId) -> (r: Option<Interface>)
        ensures
            r == (if self@.objects.contains_key(id) {
                Some(self@.objects[id])
            } else {
                None
            }),
    {
        match self.objects.get(id) {
            Some(interface) => Some(*interface),
            None => None,
        }
    }

    /// Callbacks asked for and not yet committed, as far as the count goes.
    pub fn pending_frame_callback_count(&self) -> (n: usize)
        ensures
            n == crate::arith::min_int(
                pending_callbacks(self@, ordered::ascending_keys(self@.surfaces.dom())) as int,
                usize::MAX as int,
            ),
    {
        let ids = self.surfaces.keys();
        let mut n: usize = 0;
        let mut i: usize = 0;
        proof {
            assert(ids@.take(0) =~= Seq::<ObjectId>::empty());
        }
        while i < ids.len()
            invariant
                i <= ids@.len(),
                ids@.to_set() == self@.surfaces.dom(),
                n == crate::arith::min_int(
                    pending_callbacks(self@, ids@.take(i as int)) as int,
                    usize::MAX as int,
                ),
            decreases ids@.len() - i,
        {
            proof {
                let next = ids@.take(i + 1);
                assert(next.drop_last() =~= ids@.take(i as int));
                assert(ids@.to_set().contains(ids@[i as int]));
            }
            if let Some(surface) = self.surfaces.get(ids[i]) {
                n = n.saturating_add(surface.pending_frame_callbacks.len());
            }
            i += 1;
        }
        proof {
            assert(ids@.take(i as int) =~= ids@);
        }
        n
    }

    /// Callbacks that wait for their frame to be shown.
    pub fn awaiting_present_frame_callback_count(&self) -> (n: usize)
        ensures
            n == self@.awaiting.len(),
    {
        self.awaiting_present_callbacks.len()
    }

    /// Callbacks that have fired and are not yet reported, as far as the count
    /// goes.
    pub fn presented_frame_callback_count(&self) -> (n: usize)
        ensures
            n == crate::arith::min_int(
                model::presented_count(self@.ready) as int,
                usize::MAX as int,
            ),
    {
        let mut n: usize = 0;
        let mut i: usize = 0;
        proof {
            assert(self@.ready.take(0) =~= Seq::<BatchModel>::empty());
        }
        while i < self.ready_frame_callbacks.len()
            invariant
                i <= self.ready_frame_callbacks@.len(),
                n == crate::arith::min_int(
                    model::presented_count(self@.ready.take(i as int)) as int,
                    usize::MAX as int,
                ),
            decreases self.ready_frame_callbacks@.len() - i,
        {
            let batch = &self.ready_frame_callbacks[i];
            proof {
                let next = self@.ready.take(i + 1);
                assert(next.drop_last() =~= self@.ready.take(i as int));
                assert(next.last() == batch@);
            }
            if batch.callback_data.is_some() {
                n = n.saturating_add(batch.callbacks.len());
            }
            i += 1;
        }
        proof {
            assert(self@.ready.take(i as int) =~= self@.ready);
        }
        n
    }

    /// Cancellations and surface ids that are not yet reported, as far as the
    /// count goes.
    pub fn cancelled_frame_callback_lifecycle_count(&self) -> (n: usize)
        ensures
            n == crate::arith::min_int(
                model::cancelled_count(self@.ready) as int,
                usize::MAX as int,
            ),
    {
        let mut n: usize = 0;
        let mut i: usize = 0;
        proof {
            assert(self@.ready.take(0) =~= Seq::<BatchModel>::empty());
        }
        while i < self.ready_frame_callbacks.len()
            invariant
                i <= self.ready_frame_callbacks@.len(),
                n == crate::arith::min_int(
                    model::cancelled_count(self@.ready.take(i as int)) as int,
                    usize::MAX as int,
                ),
            decreases self.ready_frame_callbacks@.len() - i,
        {
            let batch = &self.ready_frame_callbacks[i];
            proof {
                let next = self@.ready.take(i + 1);
                assert(next.drop_last() =~= self@.ready.take(i as int));
                assert(next.last() == batch@);
            }
            if batch.callback_data.is_none() {
                n = n.saturating_add(batch.callbacks.len());
                if batch.surface_delete_id.is_some() {
                    n = n.saturating_add(1);
                }
            }
            i += 1;
        }
        proof {
            assert(self@.ready.take(i as int) =~= self@.ready);
        }
        n
    }

    pub fn pool(&self, pool_id: ObjectId) -> (r: Option<&Pool>)
        ensures
            match r {
                Some(pool) => self@.pools.contains_key(pool_id) && pool@ == self@.pools[pool_id],
                None => !self@.pools.contains_key(pool_id),
            },
    {
        self.pools.get(pool_id)
    }

    /// The memory of a pool.
    pub fn pool_bytes(&self, pool_id: ObjectId) -> (r: Option<&[u8]>)
        ensures
            match r {
                Some(bytes) => self@.pools.contains_key(pool_id) && bytes@
                    == self@.pools[pool_id].storage,
                None => !self@.pools.contains_key(pool_id),
            },
    {
        match self.pools.get(pool_id) {
            Some(pool) => Some(pool.storage.as_slice()),
            None => None,
        }
    }

    /// The memory of a pool, to be changed in place.
    pub fn pool_bytes_mut(&mut self, pool_id: ObjectId) -> (r: Option<&mut [u8]>)
        ensures
            match r {
                Some(bytes) => old(self)@.pools.contains_key(pool_id) && (*bytes)@
                    == old(self)@.pools[pool_id].storage && final(self)@
                    == old(self)@.with_storage(pool_id, (*final(bytes))@),
                None => !old(self)@.pools.contains_key(pool_id) && final(self)@ == old(self)@,
            },
    {
        match self.pools.get_mut(pool_id) {
            Some(pool) => Some(pool.storage.as_mut_slice()),
            None => None,
        }
    }

    pub fn buffer_info(&self, buffer_id: ObjectId) -> (r: Option<&BufferInfo>)
        ensures
            match r {
                Some(info) => self@.buffers.contains_key(buffer_id) && *info
                    == self@.buffers[buffer_id],
                None => !self@.buffers.contains_key(buffer_id),
            },
    {
        self.buffers.get(buffer_id)
    }

    pub fn surface(&self, surface_id: ObjectId) -> (r: Option<&Surface>)
        ensures
            match r {
                Some(surface) => self@.surfaces.contains_key(surface_id) && surface@
                    == self@.surfaces[surface_id],
                None => !self@.surfaces.contains_key(surface_id),
            },
    {
        self.surfaces.get(surface_id)
    }

    pub fn toplevel(&self, toplevel_id: ObjectId) -> (r: Option<&Toplevel>)
        ensures
            match r {
                Some(toplevel) => self@.toplevels.contains_key(toplevel_id) && toplevel@
                    == self@.toplevels[toplevel_id],
                None => !self@.toplevels.contains_key(toplevel_id),
            },
    {
        self.toplevels.get(toplevel_id)
    }

    /// The window that a surface has become.
    pub fn toplevel_for_surface(&self, surface_id: ObjectId) -> (r: Option<&Toplevel>)
        ensures
            match r {
                Some(toplevel) => self@.toplevel_by_surface.contains_key(surface_id)
                    && self@.toplevels.contains_key(self@.toplevel_by_surface[surface_id])
                    && toplevel@ == self@.toplevels[self@.toplevel_by_surface[surface_id]],
                None => !(self@.toplevel_by_surface.contains_key(surface_id)
                    && self@.toplevels.contains_key(self@.toplevel_by_surface[surface_id])),
            },
    {
        match self.toplevel_by_surface.get(surface_id) {
            Some(toplevel_id) => self.toplevels.get(*toplevel_id),
            None => None,
        }
    }

    /// The memory of a buffer, stride padding with it.
    pub fn buffer_bytes(&self, buffer_id: ObjectId) -> (r: Option<&[u8]>)
        ensures
            match r {
                Some(bytes) => self@.buffer_memory(buffer_id) == Some(bytes@),
                None => self@.buffer_memory(buffer_id) is None,
            },
    {
        let info = match self.buffers.get(buffer_id) {
            Some(info) => info,
            None => {
                return None;
            },
        };
        let pool = match self.pools.get(info.pool_id) {
            Some(pool) => pool,
            None => {
                return None;
            },
        };
        let end: u64 = info.byte_end();
        if end > pool.storage.len() as u64 {
            return None;
        }
        proof {
            info.lemma_end_fits();
        }
        Some(slice_subrange(pool.storage.as_slice(), info.offset as usize, end as usize))
    }

    /// The bytes of pool memory that the connection holds.
    pub fn pool_bytes_len(&self) -> (bytes: u64)
        ensures
            bytes == self@.pool_bytes,
    {
        self.pool_bytes
    }

    /// Takes the journal of handled requests.
    pub fn drain_journal(&mut self) -> (journal: Vec<HandledRequest>)
        ensures
            journal@ == old(self)@.journal,
            final(self)@ == (ClientModel { journal: Seq::empty(), ..old(self)@ }),
    {
        let mut journal: Vec<HandledRequest> = Vec::new();
        core::mem::swap(&mut journal, &mut self.journal);
        journal
    }

    pub fn journal_len(&self) -> (n: usize)
        ensures
            n == self@.journal.len(),
    {
        self.journal.len()
    }
}

} // verus!
