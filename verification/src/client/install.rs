//! Requests that create objects or write pool memory.

use vstd::prelude::*;

use crate::arith::saturating_sum;
use crate::bytes;
use crate::client::emit::ensure_capacity;
use crate::client::model;
use crate::client::storage::{overlay, overlay_rows};
use crate::client::{
    interface_required_cap, BufferInfo, Client, ClientError, ClientResource, Pool, Surface,
    Toplevel, AUTO_LAYOUT_STEP, MAX_POOL_SIZE,
};
use crate::ids::{IdKind, ObjectId};
use crate::objects::Interface;
use crate::requests::{
    decode_id, DecodeError, RegistryBind, ShmCreatePool, ShmPoolCreateBuffer, ShmPoolWrite,
    ShmPoolWriteRows, XdgShellGetToplevel,
};
use crate::text::utf8_text;

verus! {

broadcast use {crate::ordered::lemma_remove_insert, crate::ordered::lemma_insert_same};

/// Memory filled with zeros, if so much can be had.
fn zeroed(size: u32) -> (r: Option<Vec<u8>>)
    ensures
        r matches Some(storage) ==> storage@ == Seq::new(size as nat, |i: int| 0u8),
{
    let mut storage: Vec<u8> = Vec::new();
    if storage.try_reserve(size as usize).is_err() {
        return None;
    }
    storage.resize(size as usize, 0);
    assert(storage@ =~= Seq::new(size as nat, |i: int| 0u8));
    Some(storage)
}

impl Client {
    pub fn object_count(&self) -> (n: usize)
        ensures
            n == self@.object_count(),
    {
        self.objects.len().saturating_add(self.retired_object_ids.len())
    }

    /// Refuses an id that cannot name a new object of the client.
    pub(crate) fn ensure_client_object_installable(&self, id: ObjectId) -> (r: Result<
        (),
        ClientError,
    >)
        ensures
            match r {
                Ok(_) => self@.install_fault(id) is None,
                Err(e) => self@.install_fault(id) == Some(e),
            },
    {
        if id.kind() != IdKind::Client {
            return Err(ClientError::IllegalBindTarget { requested: id });
        }
        if self.objects.contains_key(id) || self.retired_object_ids.contains(id) {
            return Err(ClientError::DuplicateObject { id });
        }
        ensure_capacity(ClientResource::Objects, self.object_count(), 1, self.limits.objects)
    }

    /// Installs a new object under an id that the client chose.
    pub fn install_client_object(&mut self, id: ObjectId, interface: Interface) -> (r: Result<
        (),
        ClientError,
    >)
        ensures
            model::took(old(self)@.install(id, interface), final(self)@, r),
    {
        if let Err(e) = self.ensure_client_object_installable(id) {
            return Err(e);
        }
        let _ = self.objects.insert(id, interface);
        Ok(())
    }

    /// Installs a new object under an id of the server's own.
    pub fn install_server_object(&mut self, interface: Interface) -> (r: Result<
        ObjectId,
        ClientError,
    >)
        ensures
            ({
                let full = model::capacity_fault(
                    ClientResource::Objects,
                    old(self)@.object_count(),
                    1,
                    old(self)@.limits.objects,
                );
                let next = ObjectId(old(self)@.server_ids.next);
                match r {
                    Ok(id) => full is None && !old(self)@.server_ids.exhausted && id == next
                        && final(self)@ == (model::ClientModel {
                        server_ids: old(self)@.server_ids.after_allocation(),
                        ..old(self)@.with_object(id, interface)
                    }),
                    Err(e) => final(self)@ == old(self)@ && if full is Some {
                        e == full->0
                    } else {
                        old(self)@.server_ids.exhausted && e == (ClientError::DuplicateObject {
                            id: next,
                        })
                    },
                }
            }),
    {
        if let Err(e) = ensure_capacity(
            ClientResource::Objects,
            self.object_count(),
            1,
            self.limits.objects,
        ) {
            return Err(e);
        }
        match self.server_ids.allocate() {
            Ok(id) => {
                let _ = self.objects.insert(id, interface);
                Ok(id)
            },
            Err(_) => Err(ClientError::DuplicateObject { id: self.server_ids.peek() }),
        }
    }

    /// Forgets an object, and says whether it was there.
    pub fn drop_object(&mut self, id: ObjectId) -> (present: bool)
        ensures
            present == old(self)@.objects.contains_key(id),
            final(self)@ == old(self)@.without_object(id),
    {
        self.objects.remove(id).is_some()
    }

    fn ensure_pool_byte_capacity(&self, additional: u64) -> (r: Result<(), ClientError>)
        ensures
            match r {
                Ok(_) => self@.pool_byte_fault(additional) is None,
                Err(e) => self@.pool_byte_fault(additional) == Some(e),
            },
    {
        let attempted: u64 = self.pool_bytes.saturating_add(additional);
        if attempted > self.limits.pool_bytes {
            return Err(
                ClientError::ResourceLimitExceeded {
                    resource: ClientResource::PoolBytes,
                    attempted,
                    limit: self.limits.pool_bytes,
                },
            );
        }
        Ok(())
    }

    /// Refuses pool memory beyond what the client, or all clients together,
    /// may hold.
    pub(crate) fn ensure_pool_memory(
        &self,
        additional: u64,
        server_pool_bytes: u64,
        server_pool_byte_limit: u64,
    ) -> (r: Result<(), ClientError>)
        ensures
            ({
                let own = self@.pool_byte_fault(additional);
                let all = model::ClientModel::server_pool_byte_fault(
                    additional,
                    server_pool_bytes,
                    server_pool_byte_limit,
                );
                match r {
                    Ok(_) => own is None && all is None,
                    Err(e) => own == Some(e) || (own is None && all == Some(e)),
                }
            }),
    {
        if let Err(e) = self.ensure_pool_byte_capacity(additional) {
            return Err(e);
        }
        let attempted: u64 = server_pool_bytes.saturating_add(additional);
        if attempted > server_pool_byte_limit {
            return Err(
                ClientError::ResourceLimitExceeded {
                    resource: ClientResource::ServerPoolBytes,
                    attempted,
                    limit: server_pool_byte_limit,
                },
            );
        }
        Ok(())
    }

    fn install_new_id(
        &mut self,
        interface: Interface,
        opcode: u16,
        payload: &[u8],
        created: Interface,
    ) -> (r: Result<(), ClientError>)
        ensures
            model::took(
                old(self)@.install_new_id(interface, opcode, payload@, created),
                final(self)@,
                r,
            ),
    {
        match decode_id(payload) {
            Ok(id) => self.install_client_object(id, created),
            Err(error) => Err(ClientError::Malformed { interface, opcode, error }),
        }
    }

    fn bind_global(&mut self, payload: &[u8]) -> (r: Result<(), ClientError>)
        ensures
            model::took(old(self)@.bind(payload@), final(self)@, r),
    {
        let request = match RegistryBind::decode(payload) {
            Ok(request) => request,
            Err(error) => {
                return Err(
                    ClientError::Malformed { interface: Interface::Registry, opcode: 1, error },
                );
            },
        };
        let target = match Interface::from_name(request.interface) {
            Some(target) => target,
            None => {
                return match utf8_text(request.interface) {
                    Some(name) => Err(ClientError::UnknownInterfaceName { name }),
                    None => Err(
                        ClientError::Malformed {
                            interface: Interface::Registry,
                            opcode: 1,
                            error: DecodeError::InvalidText,
                        },
                    ),
                };
            },
        };
        if let Some(required) = interface_required_cap(target) {
            if !self.capabilities.contains(required) {
                return Err(
                    ClientError::PermissionDenied {
                        interface: target,
                        required,
                        new_id: request.new_id,
                    },
                );
            }
        }
        if let Err(e) = self.install_client_object(request.new_id, target) {
            return Err(e);
        }
        if target == Interface::ShellManager {
            self.shell_manager_id = Some(request.new_id);
            self.shell_manager_version = Some(request.version);
        }
        Ok(())
    }

    fn create_surface(&mut self, payload: &[u8]) -> (r: Result<(), ClientError>)
        ensures
            model::took(old(self)@.create_surface(payload@), final(self)@, r),
    {
        let id = match decode_id(payload) {
            Ok(id) => id,
            Err(error) => {
                return Err(
                    ClientError::Malformed { interface: Interface::Compositor, opcode: 1, error },
                );
            },
        };
        if let Err(e) = ensure_capacity(
            ClientResource::Surfaces,
            self.surfaces.len(),
            1,
            self.limits.surfaces,
        ) {
            return Err(e);
        }
        if let Err(e) = self.install_client_object(id, Interface::Surface) {
            return Err(e);
        }
        let _ = self.surfaces.insert(id, Surface::new(id));
        Ok(())
    }

    fn ask_frame(&mut self, surface_id: ObjectId, payload: &[u8]) -> (r: Result<(), ClientError>)
        ensures
            model::took(old(self)@.ask_frame(surface_id, payload@), final(self)@, r),
    {
        let id = match decode_id(payload) {
            Ok(id) => id,
            Err(error) => {
                return Err(
                    ClientError::Malformed { interface: Interface::Surface, opcode: 4, error },
                );
            },
        };
        if !self.surfaces.contains_key(surface_id) {
            return Err(ClientError::UnknownSurface { surface_id });
        }
        if let Err(e) = self.install_client_object(id, Interface::Callback) {
            return Err(e);
        }
        if let Some(mut surface) = self.surfaces.remove(surface_id) {
            surface.pending_frame_callbacks.push(id);
            let _ = self.surfaces.insert(surface_id, surface);
        }
        Ok(())
    }

    /// The pool that a request asks for, if it may be made.
    fn check_pool(
        &self,
        payload: &[u8],
        server_pool_bytes: u64,
        server_pool_byte_limit: u64,
    ) -> (r: Result<ShmCreatePool, ClientError>)
        ensures
            ({
                let fault = self@.pool_fault(payload@, server_pool_bytes, server_pool_byte_limit);
                match r {
                    Ok(request) => fault is None && request == ShmCreatePool::held_by(payload@),
                    Err(e) => fault == Some(e),
                }
            }),
    {
        let request = match ShmCreatePool::decode(payload) {
            Ok(request) => request,
            Err(error) => {
                return Err(
                    ClientError::Malformed { interface: Interface::Shm, opcode: 1, error },
                );
            },
        };
        if request.size > MAX_POOL_SIZE {
            return Err(ClientError::PoolTooLarge { requested: request.size, max: MAX_POOL_SIZE });
        }
        if let Err(e) = ensure_capacity(
            ClientResource::Pools,
            self.pools.len(),
            1,
            self.limits.pools,
        ) {
            return Err(e);
        }
        if let Err(e) = self.ensure_pool_memory(
            request.size as u64,
            server_pool_bytes,
            server_pool_byte_limit,
        ) {
            return Err(e);
        }
        if let Err(e) = self.ensure_client_object_installable(request.new_id) {
            return Err(e);
        }
        Ok(request)
    }

    /// Makes a pool in the memory that was had for it, and refuses where none
    /// could be had.
    pub fn install_pool(&mut self, request: ShmCreatePool, storage: Option<Vec<u8>>) -> (r: Result<
        (),
        ClientError,
    >)
        ensures
            match storage {
                Some(bytes) => r == Ok::<(), ClientError>(()) && final(self)@
                    == old(self)@.with_pool(request, bytes@),
                None => r == Err::<(), ClientError>(
                    ClientError::PoolAllocationFailed { requested: request.size },
                ) && final(self)@ == old(self)@,
            },
    {
        match storage {
            Some(storage) => {
                let _ = self.objects.insert(request.new_id, Interface::ShmPool);
                let _ = self.pools.insert(request.new_id, Pool { size: request.size, storage });
                self.pool_bytes = self.pool_bytes.saturating_add(request.size as u64);
                Ok(())
            },
            None => Err(ClientError::PoolAllocationFailed { requested: request.size }),
        }
    }

    /// Says in the second place whether the memory asked for could be had.
    fn create_pool(
        &mut self,
        payload: &[u8],
        server_pool_bytes: u64,
        server_pool_byte_limit: u64,
    ) -> (r: (Result<(), ClientError>, Ghost<bool>))
        ensures
            model::took(
                old(self)@.create_pool(
                    payload@,
                    server_pool_bytes,
                    server_pool_byte_limit,
                    r.1@,
                ),
                final(self)@,
                r.0,
            ),
    {
        let request = match self.check_pool(payload, server_pool_bytes, server_pool_byte_limit) {
            Ok(request) => request,
            Err(e) => {
                return (Err(e), Ghost(true));
            },
        };
        let storage = zeroed(request.size);
        let ghost granted = storage is Some;
        (self.install_pool(request, storage), Ghost(granted))
    }

    fn create_buffer(&mut self, pool_id: ObjectId, payload: &[u8]) -> (r: Result<(), ClientError>)
        ensures
            model::took(old(self)@.create_buffer(pool_id, payload@), final(self)@, r),
    {
        let request = match ShmPoolCreateBuffer::decode(payload) {
            Ok(request) => request,
            Err(error) => {
                return Err(
                    ClientError::Malformed { interface: Interface::ShmPool, opcode: 1, error },
                );
            },
        };
        let pool_size: u32 = match self.pools.get(pool_id) {
            Some(pool) => pool.size,
            None => {
                return Err(ClientError::UnknownPool { pool_id });
            },
        };
        let info = BufferInfo {
            pool_id,
            offset: request.offset,
            width: request.width,
            height: request.height,
            stride: request.stride,
            format: request.format,
        };
        let byte_end: u64 = info.byte_end();
        if byte_end > pool_size as u64 {
            return Err(ClientError::BufferOutOfPool { pool_id, pool_size, byte_end });
        }
        if let Err(e) = ensure_capacity(
            ClientResource::Buffers,
            self.buffers.len(),
            1,
            self.limits.buffers,
        ) {
            return Err(e);
        }
        if let Err(e) = self.install_client_object(request.new_id, Interface::Buffer) {
            return Err(e);
        }
        let _ = self.buffers.insert(request.new_id, info);
        Ok(())
    }

    fn write_pool(&mut self, pool_id: ObjectId, payload: &[u8]) -> (r: Result<(), ClientError>)
        ensures
            model::took(old(self)@.write_pool(pool_id, payload@), final(self)@, r),
    {
        let request = match ShmPoolWrite::decode(payload) {
            Ok(request) => request,
            Err(error) => {
                return Err(
                    ClientError::Malformed { interface: Interface::ShmPool, opcode: 4, error },
                );
            },
        };
        let (pool_size, held) = match self.pools.get(pool_id) {
            Some(pool) => (pool.size, pool.storage.len()),
            None => {
                return Err(ClientError::UnknownPool { pool_id });
            },
        };
        let at: usize = request.offset as usize;
        let len: usize = request.bytes.len();
        if at > held || len > held - at {
            return Err(
                ClientError::BufferOutOfPool {
                    pool_id,
                    pool_size,
                    byte_end: at.saturating_add(len) as u64,
                },
            );
        }
        proof {
            assert((1 - 1) * len as int == 0);
        }
        if let Err(e) = self.ensure_pool_write_rows_not_current(
            pool_id,
            at as u64,
            len as u64,
            1,
            len as u64,
        ) {
            return Err(e);
        }
        if let Some(mut pool) = self.pools.remove(pool_id) {
            overlay(&mut pool.storage, at, request.bytes);
            let _ = self.pools.insert(pool_id, pool);
        }
        Ok(())
    }

    fn write_pool_rows(&mut self, pool_id: ObjectId, payload: &[u8]) -> (r: Result<
        (),
        ClientError,
    >)
        ensures
            model::took(old(self)@.write_pool_rows(pool_id, payload@), final(self)@, r),
    {
        let request = match ShmPoolWriteRows::decode(payload) {
            Ok(request) => request,
            Err(error) => {
                return Err(
                    ClientError::Malformed { interface: Interface::ShmPool, opcode: 5, error },
                );
            },
        };
        let row_bytes: u32 = request.row_bytes;
        let rows: u32 = request.rows;
        let stride: u32 = request.stride;
        if row_bytes == 0 || rows == 0 || stride < row_bytes {
            return Err(ClientError::InvalidPoolWriteRows { row_bytes, rows, stride });
        }
        proof {
            assert(0 <= (rows - 1) * stride <= 0xffff_fffe * 0xffff_ffff) by (nonlinear_arith)
                requires
                    1 <= rows <= 0xffff_ffff,
                    0 <= stride <= 0xffff_ffff,
            ;
        }
        let byte_end: u64 = request.offset as u64 + (rows - 1) as u64 * stride as u64
            + row_bytes as u64;
        let (pool_size, held) = match self.pools.get(pool_id) {
            Some(pool) => (pool.size, pool.storage.len()),
            None => {
                return Err(ClientError::UnknownPool { pool_id });
            },
        };
        if byte_end > pool_size as u64 || byte_end > held as u64 {
            return Err(ClientError::BufferOutOfPool { pool_id, pool_size, byte_end });
        }
        if let Err(e) = self.ensure_pool_write_rows_not_current(
            pool_id,
            request.offset as u64,
            row_bytes as u64,
            rows as u64,
            stride as u64,
        ) {
            return Err(e);
        }
        if let Some(mut pool) = self.pools.remove(pool_id) {
            proof {
                assert(row_bytes * rows == rows * row_bytes) by (nonlinear_arith);
            }
            overlay_rows(
                &mut pool.storage,
                request.offset as usize,
                stride as usize,
                row_bytes as usize,
                request.bytes,
                rows as usize,
            );
            let _ = self.pools.insert(pool_id, pool);
        }
        Ok(())
    }

    fn get_pointer(&mut self, payload: &[u8]) -> (r: Result<(), ClientError>)
        ensures
            model::took(old(self)@.get_pointer(payload@), final(self)@, r),
    {
        let id = match decode_id(payload) {
            Ok(id) => id,
            Err(error) => {
                return Err(
                    ClientError::Malformed { interface: Interface::Seat, opcode: 1, error },
                );
            },
        };
        if let Some(existing) = self.pointer_id {
            return Err(ClientError::PointerAlreadyBound { existing });
        }
        if let Err(e) = self.install_client_object(id, Interface::Pointer) {
            return Err(e);
        }
        self.pointer_id = Some(id);
        Ok(())
    }

    fn get_keyboard(&mut self, payload: &[u8]) -> (r: Result<(), ClientError>)
        ensures
            model::took(old(self)@.get_keyboard(payload@), final(self)@, r),
    {
        let id = match decode_id(payload) {
            Ok(id) => id,
            Err(error) => {
                return Err(
                    ClientError::Malformed { interface: Interface::Seat, opcode: 2, error },
                );
            },
        };
        if let Some(existing) = self.keyboard_id {
            return Err(ClientError::KeyboardAlreadyBound { existing });
        }
        if let Err(e) = self.install_client_object(id, Interface::Keyboard) {
            return Err(e);
        }
        self.keyboard_id = Some(id);
        Ok(())
    }

    fn get_toplevel(&mut self, payload: &[u8]) -> (r: Result<(), ClientError>)
        requires
            old(self)@.next_toplevel_ordinal < u32::MAX,
        ensures
            model::took(old(self)@.get_toplevel(payload@), final(self)@, r),
    {
        let request = match XdgShellGetToplevel::decode(payload) {
            Ok(request) => request,
            Err(error) => {
                return Err(
                    ClientError::Malformed { interface: Interface::XdgShell, opcode: 1, error },
                );
            },
        };
        let surface_id = request.surface_id;
        let is_surface: bool = match self.objects.get(surface_id) {
            Some(interface) => *interface == Interface::Surface,
            None => false,
        };
        if !is_surface {
            return Err(ClientError::ToplevelSurfaceNotFound { surface_id });
        }
        if let Some(existing) = self.toplevel_by_surface.get(surface_id) {
            return Err(
                ClientError::SurfaceAlreadyHasToplevel {
                    surface_id,
                    existing_toplevel: *existing,
                },
            );
        }
        if let Err(e) = ensure_capacity(
            ClientResource::Toplevels,
            self.toplevels.len(),
            1,
            self.limits.toplevels,
        ) {
            return Err(e);
        }
        if let Err(e) = self.install_client_object(request.new_id, Interface::XdgToplevel) {
            return Err(e);
        }
        let offset: i32 = self.next_toplevel_offset;
        let ordinal: u32 = self.next_toplevel_ordinal;
        self.next_toplevel_ordinal = ordinal + 1;
        let mut toplevel = Toplevel::new(request.new_id, surface_id, offset, offset);
        toplevel.ordinal = ordinal;
        let _ = self.toplevels.insert(request.new_id, toplevel);
        if let Some(mut surface) = self.surfaces.remove(surface_id) {
            surface.had_toplevel_role = true;
            let _ = self.surfaces.insert(surface_id, surface);
        } else {
            proof {
                assert(old(self)@.surfaces.remove(surface_id) =~= old(self)@.surfaces);
            }
        }
        let _ = self.toplevel_by_surface.insert(surface_id, request.new_id);
        self.next_toplevel_offset = saturating_sum(offset, AUTO_LAYOUT_STEP);
        Ok(())
    }

    /// Carries out a request that creates an object or writes pool memory;
    /// other requests change nothing here. Says in the second place whether
    /// the memory asked for could be had.
    pub(crate) fn auto_install(
        &mut self,
        target: ObjectId,
        interface: Interface,
        opcode: u16,
        payload: &[u8],
        server_pool_bytes: u64,
        server_pool_byte_limit: u64,
    ) -> (r: (Result<(), ClientError>, Ghost<bool>))
        requires
            old(self)@.can_count(interface, opcode),
        ensures
            model::took(
                old(self)@.auto_install(
                    target,
                    interface,
                    opcode,
                    payload@,
                    server_pool_bytes,
                    server_pool_byte_limit,
                    r.1@,
                ),
                final(self)@,
                r.0,
            ),
    {
        match (interface, opcode) {
            (Interface::Display, 1) => (
                self.install_new_id(interface, opcode, payload, Interface::Callback),
                Ghost(true),
            ),
            (Interface::Display, 2) => (
                self.install_new_id(interface, opcode, payload, Interface::Registry),
                Ghost(true),
            ),
            (Interface::Registry, 1) => (self.bind_global(payload), Ghost(true)),
            (Interface::Compositor, 1) => (self.create_surface(payload), Ghost(true)),
            (Interface::Surface, 4) => (self.ask_frame(target, payload), Ghost(true)),
            (Interface::Shm, 1) => self.create_pool(
                payload,
                server_pool_bytes,
                server_pool_byte_limit,
            ),
            (Interface::ShmPool, 1) => (self.create_buffer(target, payload), Ghost(true)),
            (Interface::ShmPool, 4) => (self.write_pool(target, payload), Ghost(true)),
            (Interface::ShmPool, 5) => (self.write_pool_rows(target, payload), Ghost(true)),
            (Interface::Seat, 1) => (self.get_pointer(payload), Ghost(true)),
            (Interface::Seat, 2) => (self.get_keyboard(payload), Ghost(true)),
            (Interface::XdgShell, 1) => (self.get_toplevel(payload), Ghost(true)),
            _ => (Ok(()), Ghost(true)),
        }
    }
}

} // verus!
