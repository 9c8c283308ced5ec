//! What requests do to what a connection holds.

use vstd::prelude::*;

use crate::bytes;
use crate::client::model;
use crate::client::model::{ClientModel, SurfaceModel, ToplevelModel};
use crate::client::storage;
use crate::client::{DamageRect, ServerResourceBudgets};
use crate::ids::ObjectId;
use crate::objects::Interface;
use crate::ordered;
use crate::text;
use crate::wire::MessageHeader;

verus! {

/// Whether a request of a number to an object of a kind is taken.
pub open spec fn is_accepted(
    c: ClientModel,
    header: MessageHeader,
    payload: Seq<u8>,
    budgets: ServerResourceBudgets,
    granted: bool,
    interface: Interface,
    opcode: u16,
) -> bool {
    &&& c.is_sound()
    &&& c.is_reaped()
    &&& c.is_object(header.object_id, interface)
    &&& header.opcode == opcode
    &&& c.dispatched(header, payload, budgets, granted).1 is None
}

// What is left when the dead are buried.

pub(crate) proof fn lemma_bury_keeps(
    c: ClientModel,
    buffers: Seq<ObjectId>,
    pools: Seq<ObjectId>,
    id: ObjectId,
)
    ensures
        !buffers.contains(id) && c.buffers.contains_key(id) ==> c.bury_buffers(
            buffers,
        ).buffers.contains_key(id) && c.bury_buffers(buffers).buffers[id] == c.buffers[id],
        c.bury_buffers(buffers).pools == c.pools,
        c.bury_buffers(buffers).objects == c.objects,
        c.bury_buffers(buffers).surfaces == c.surfaces,
        !pools.contains(id) && c.pools.contains_key(id) ==> c.bury_pools(
            pools,
        ).pools.contains_key(id) && c.bury_pools(pools).pools[id] == c.pools[id],
        c.bury_pools(pools).buffers == c.buffers,
        c.bury_pools(pools).objects == c.objects,
        c.bury_pools(pools).surfaces == c.surfaces,
    decreases buffers.len() + pools.len(),
{
    broadcast use crate::client::model::lemma_emit_frame;

    if buffers.len() > 0 {
        lemma_bury_keeps(c, buffers.drop_last(), pools, id);
        if !buffers.contains(id) {
            assert(buffers[buffers.len() - 1] != id);
            if buffers.drop_last().contains(id) {
                let i = choose|i: int|
                    0 <= i < buffers.drop_last().len() && buffers.drop_last()[i] == id;
                assert(buffers[i] == id);
            }
        }
    }
    if pools.len() > 0 {
        lemma_bury_keeps(c, buffers, pools.drop_last(), id);
        if !pools.contains(id) {
            assert(pools[pools.len() - 1] != id);
            if pools.drop_last().contains(id) {
                let i = choose|i: int|
                    0 <= i < pools.drop_last().len() && pools.drop_last()[i] == id;
                assert(pools[i] == id);
            }
        }
    }
}

/// What has a name or is in use is not buried.
pub(crate) proof fn lemma_reap_keeps(c: ClientModel, id: ObjectId)
    requires
        c.buffers.dom().finite(),
        c.pools.dom().finite(),
    ensures
        c.buffers.contains_key(id) && c.is_object(id, Interface::Buffer)
            ==> c.reap().buffers.contains_key(id) && c.reap().buffers[id] == c.buffers[id],
        c.pools.contains_key(id) && c.is_object(id, Interface::ShmPool)
            ==> c.reap().pools.contains_key(id) && c.reap().pools[id] == c.pools[id],
        c.reap().objects == c.objects,
        c.reap().surfaces == c.surfaces,
{
    reveal(ClientModel::reap);
    let dead = c.dead_buffers();
    vstd::set_lib::lemma_set_subset_finite(c.buffers.dom(), dead);
    ordered::law_ascending_keys_list_all(dead);
    let ids = ordered::ascending_keys(dead);
    lemma_bury_keeps(c, ids, Seq::empty(), id);
    if ids.contains(id) {
        assert(ids.to_set().contains(id));
    }
    let fewer = c.bury_buffers(ids);
    let empty = fewer.dead_pools();
    vstd::set_lib::lemma_set_subset_finite(fewer.pools.dom(), empty);
    ordered::law_ascending_keys_list_all(empty);
    let pools = ordered::ascending_keys(empty);
    lemma_bury_keeps(fewer, Seq::empty(), pools, id);
    if pools.contains(id) {
        assert(pools.to_set().contains(id));
    }
}

/// What a surface shows is not buried, nor is the pool that it lies in.
pub(crate) proof fn lemma_reap_keeps_shown(c: ClientModel, surface_id: ObjectId)
    requires
        c.buffers.dom().finite(),
        c.pools.dom().finite(),
        c.surfaces.contains_key(surface_id),
        c.surfaces[surface_id].current_buffer is Some,
        c.buffers.contains_key((c.surfaces[surface_id].current_buffer->0).buffer_id),
    ensures
        ({
            let id = (c.surfaces[surface_id].current_buffer->0).buffer_id;
            let pool_id = c.buffers[id].pool_id;
            &&& c.reap().buffers.contains_key(id)
            &&& c.reap().buffers[id] == c.buffers[id]
            &&& c.pools.contains_key(pool_id) ==> c.reap().pools.contains_key(pool_id)
                && c.reap().pools[pool_id] == c.pools[pool_id]
        }),
{
    reveal(ClientModel::reap);
    let id = (c.surfaces[surface_id].current_buffer->0).buffer_id;
    let pool_id = c.buffers[id].pool_id;
    assert(c.surfaces[surface_id].holds(id));
    assert(c.is_held(id));
    let dead = c.dead_buffers();
    vstd::set_lib::lemma_set_subset_finite(c.buffers.dom(), dead);
    ordered::law_ascending_keys_list_all(dead);
    let ids = ordered::ascending_keys(dead);
    lemma_bury_keeps(c, ids, Seq::empty(), id);
    if ids.contains(id) {
        assert(ids.to_set().contains(id));
    }
    let fewer = c.bury_buffers(ids);
    assert(fewer.buffers.contains_key(id));
    assert(fewer.has_buffers(pool_id));
    let empty = fewer.dead_pools();
    vstd::set_lib::lemma_set_subset_finite(fewer.pools.dom(), empty);
    ordered::law_ascending_keys_list_all(empty);
    let pools = ordered::ascending_keys(empty);
    lemma_bury_keeps(fewer, Seq::empty(), pools, pool_id);
    lemma_bury_keeps(fewer, Seq::empty(), pools, id);
    if pools.contains(pool_id) {
        assert(pools.to_set().contains(pool_id));
    }
}

// Making things.

/// A new pool has the asked size, and holds zeros.
pub proof fn law_new_pool_holds_zeros(
    c: ClientModel,
    header: MessageHeader,
    payload: Seq<u8>,
    budgets: ServerResourceBudgets,
    granted: bool,
)
    requires
        is_accepted(c, header, payload, budgets, granted, Interface::Shm, 1),
    ensures
        ({
            let after = c.dispatched(header, payload, budgets, granted).0;
            let id = ObjectId(bytes::le32_at(payload, 0));
            let size = bytes::le32_at(payload, 4);
            &&& granted
            &&& !c.objects.contains_key(id)
            &&& after.is_object(id, Interface::ShmPool)
            &&& after.pools.contains_key(id)
            &&& after.pools[id].size == size
            &&& after.pools[id].storage.len() == size
            &&& forall|i: int| 0 <= i < size ==> #[trigger] after.pools[id].storage[i] == 0
        }),
{
    broadcast use crate::client::model::lemma_emit_frame;

    reveal(ClientModel::dispatched);
    reveal(ClientModel::mutated);
    let made = c.create_pool(
        payload,
        budgets.pool_bytes,
        budgets.pool_byte_limit,
        granted,
    ).0;
    let id = ObjectId(bytes::le32_at(payload, 0));
    lemma_reap_keeps(made, id);
}

/// A new buffer is the part of its pool that was asked for, with the asked size
/// and format, and lies in the pool.
pub proof fn law_new_buffer_is_as_asked(
    c: ClientModel,
    header: MessageHeader,
    payload: Seq<u8>,
    budgets: ServerResourceBudgets,
    granted: bool,
)
    requires
        is_accepted(c, header, payload, budgets, granted, Interface::ShmPool, 1),
    ensures
        ({
            let after = c.dispatched(header, payload, budgets, granted).0;
            let id = ObjectId(bytes::le32_at(payload, 0));
            let info = after.buffers[id];
            &&& !c.objects.contains_key(id)
            &&& after.is_object(id, Interface::Buffer)
            &&& after.buffers.contains_key(id)
            &&& info.pool_id == header.object_id
            &&& info.offset == bytes::le32_at(payload, 4)
            &&& info.width == bytes::le32_at(payload, 8)
            &&& info.height == bytes::le32_at(payload, 12)
            &&& info.stride == bytes::le32_at(payload, 16)
            &&& info.format == bytes::le32_at(payload, 20)
            &&& info.offset + info.stride * info.height <= c.pools[header.object_id].size
        }),
{
    broadcast use crate::client::model::lemma_emit_frame;

    reveal(ClientModel::dispatched);
    reveal(ClientModel::mutated);
    let made = c.create_buffer(header.object_id, payload).0;
    let id = ObjectId(bytes::le32_at(payload, 0));
    lemma_reap_keeps(made, id);
}

/// A new surface shows nothing, and has nothing pending.
pub proof fn law_new_surface_is_empty(
    c: ClientModel,
    header: MessageHeader,
    payload: Seq<u8>,
    budgets: ServerResourceBudgets,
    granted: bool,
)
    requires
        is_accepted(c, header, payload, budgets, granted, Interface::Compositor, 1),
    ensures
        ({
            let after = c.dispatched(header, payload, budgets, granted).0;
            let id = ObjectId(bytes::le32_at(payload, 0));
            let surface = after.surfaces[id];
            &&& !c.objects.contains_key(id)
            &&& after.objects == c.objects.insert(id, Interface::Surface)
            &&& after.surfaces == c.surfaces.insert(id, surface)
            &&& surface.current_buffer is None
            &&& surface.pending_buffer is None
            &&& !surface.pending_attach
            &&& surface.pending_damage.len() == 0
            &&& surface.pending_frame_callbacks.len() == 0
            &&& surface.commit_count == 0
            &&& !surface.had_toplevel_role
        }),
{
    broadcast use crate::client::model::lemma_emit_frame;

    reveal(ClientModel::dispatched);
    reveal(ClientModel::mutated);
    lemma_reap_keeps(c.create_surface(payload).0, header.object_id);
}

/// An object that is bound has the asked name and the interface that was named.
/// Only a shell can bind the manager of windows; it is then the one that is told
/// of them, with the asked version.
pub proof fn law_bound_object_is_as_named(
    c: ClientModel,
    header: MessageHeader,
    payload: Seq<u8>,
    budgets: ServerResourceBudgets,
    granted: bool,
    interface: Interface,
)
    requires
        is_accepted(c, header, payload, budgets, granted, Interface::Registry, 1),
        text::text_at(payload, 4) == interface.name_bytes(),
    ensures
        ({
            let after = c.dispatched(header, payload, budgets, granted).0;
            let end = text::text_end(payload, 4)->0;
            let id = ObjectId(bytes::le32_at(payload, end + 4));
            &&& text::text_end(payload, 4) is Some
            &&& !c.objects.contains_key(id)
            &&& after.objects == c.objects.insert(id, interface)
            &&& interface == Interface::ShellManager ==> c.is_shell() && after.shell_manager_id
                == Some(id) && after.shell_manager_version == Some(bytes::le32_at(payload, end))
            &&& interface != Interface::ShellManager ==> after.shell_manager_id
                == c.shell_manager_id
        }),
{
    broadcast use crate::client::model::lemma_emit_frame;
    broadcast use lemma_reap_keeps_devices;

    reveal(ClientModel::dispatched);
    reveal(ClientModel::mutated);
    let made = c.bind(payload).0;
    lemma_bound(c, payload, interface);
    lemma_reap_keeps(made, header.object_id);
}

proof fn lemma_bound(c: ClientModel, payload: Seq<u8>, interface: Interface)
    requires
        c.bind(payload).1 is None,
        text::text_at(payload, 4) == interface.name_bytes(),
    ensures
        ({
            let after = c.bind(payload).0;
            let end = text::text_end(payload, 4)->0;
            let id = ObjectId(bytes::le32_at(payload, end + 4));
            &&& text::text_end(payload, 4) is Some
            &&& !c.objects.contains_key(id)
            &&& interface == Interface::ShellManager ==> c.is_shell()
            &&& after == (ClientModel {
                objects: c.objects.insert(id, interface),
                shell_manager_id: if interface == Interface::ShellManager {
                    Some(id)
                } else {
                    c.shell_manager_id
                },
                shell_manager_version: if interface == Interface::ShellManager {
                    Some(bytes::le32_at(payload, end))
                } else {
                    c.shell_manager_version
                },
                ..c
            })
        }),
{
    let other = Interface::named(text::text_at(payload, 4))->0;
    assert(other == interface) by {
        crate::objects::law_names_are_distinct(other, interface);
    }
}

/// A seat gives out one pointer and one keyboard; each has the asked name.
pub proof fn law_devices_have_the_asked_names(
    c: ClientModel,
    header: MessageHeader,
    payload: Seq<u8>,
    budgets: ServerResourceBudgets,
    granted: bool,
    opcode: u16,
)
    requires
        opcode == 1 || opcode == 2,
        is_accepted(c, header, payload, budgets, granted, Interface::Seat, opcode),
    ensures
        ({
            let after = c.dispatched(header, payload, budgets, granted).0;
            let id = ObjectId(bytes::le32_at(payload, 0));
            &&& opcode == 1 ==> c.pointer_id is None && after.pointer_id == Some(id)
                && after.objects == c.objects.insert(id, Interface::Pointer)
                && after.keyboard_id == c.keyboard_id
            &&& opcode == 2 ==> c.keyboard_id is None && after.keyboard_id == Some(id)
                && after.objects == c.objects.insert(id, Interface::Keyboard)
                && after.pointer_id == c.pointer_id
        }),
{
    broadcast use crate::client::model::lemma_emit_frame;
    broadcast use lemma_reap_keeps_devices;

    reveal(ClientModel::dispatched);
    reveal(ClientModel::mutated);
    if opcode == 1 {
        lemma_reap_keeps(c.get_pointer(payload).0, header.object_id);
    } else {
        lemma_reap_keeps(c.get_keyboard(payload).0, header.object_id);
    }
}

proof fn lemma_bury_keeps_devices(c: ClientModel, buffers: Seq<ObjectId>, pools: Seq<ObjectId>)
    ensures
        c.bury_buffers(buffers).pointer_id == c.pointer_id,
        c.bury_buffers(buffers).keyboard_id == c.keyboard_id,
        c.bury_buffers(buffers).awaiting == c.awaiting,
        c.bury_buffers(buffers).shell_manager_id == c.shell_manager_id,
        c.bury_buffers(buffers).shell_manager_version == c.shell_manager_version,
        c.bury_pools(pools).pointer_id == c.pointer_id,
        c.bury_pools(pools).keyboard_id == c.keyboard_id,
        c.bury_pools(pools).awaiting == c.awaiting,
        c.bury_pools(pools).shell_manager_id == c.shell_manager_id,
        c.bury_pools(pools).shell_manager_version == c.shell_manager_version,
    decreases buffers.len() + pools.len(),
{
    broadcast use crate::client::model::lemma_emit_frame;

    if buffers.len() > 0 {
        lemma_bury_keeps_devices(c, buffers.drop_last(), pools);
    }
    if pools.len() > 0 {
        lemma_bury_keeps_devices(c, buffers, pools.drop_last());
    }
}

broadcast proof fn lemma_reap_keeps_devices(c: ClientModel)
    ensures
        (#[trigger] c.reap()).pointer_id == c.pointer_id,
        c.reap().keyboard_id == c.keyboard_id,
        c.reap().awaiting == c.awaiting,
        c.reap().shell_manager_id == c.shell_manager_id,
        c.reap().shell_manager_version == c.shell_manager_version,
{
    reveal(ClientModel::reap);
    let ids = ordered::ascending_keys(c.dead_buffers());
    let fewer = c.bury_buffers(ids);
    lemma_bury_keeps_devices(c, ids, Seq::empty());
    lemma_bury_keeps_devices(fewer, Seq::empty(), ordered::ascending_keys(fewer.dead_pools()));
}

// Writing.

/// A write to a pool changes the bytes that it covers to what was sent, and no
/// others.
pub proof fn law_pool_write_is_exact(
    c: ClientModel,
    header: MessageHeader,
    payload: Seq<u8>,
    budgets: ServerResourceBudgets,
    granted: bool,
    i: int,
)
    requires
        is_accepted(c, header, payload, budgets, granted, Interface::ShmPool, 4),
        c.pools.contains_key(header.object_id),
        0 <= i < c.pools[header.object_id].storage.len(),
    ensures
        ({
            let after = c.dispatched(header, payload, budgets, granted).0;
            let id = header.object_id;
            let at = bytes::le32_at(payload, 0);
            let data = payload.skip(4);
            &&& after.pools.contains_key(id)
            &&& after.pools[id].size == c.pools[id].size
            &&& after.pools[id].storage.len() == c.pools[id].storage.len()
            &&& at + data.len() <= c.pools[id].storage.len()
            &&& after.pools[id].storage[i] == if at <= i < at + data.len() {
                data[i - at]
            } else {
                c.pools[id].storage[i]
            }
        }),
{
    broadcast use crate::client::model::lemma_emit_frame;

    reveal(ClientModel::dispatched);
    reveal(ClientModel::mutated);
    lemma_reap_keeps(c.write_pool(header.object_id, payload).0, header.object_id);
}

/// A pool that is given another size keeps its bytes as far as they fit, and
/// goes on with zeros.
pub proof fn law_pool_resize_keeps_bytes(
    c: ClientModel,
    header: MessageHeader,
    payload: Seq<u8>,
    budgets: ServerResourceBudgets,
    granted: bool,
    i: int,
)
    requires
        is_accepted(c, header, payload, budgets, granted, Interface::ShmPool, 2),
        0 <= i < bytes::le32_at(payload, 0),
    ensures
        ({
            let after = c.dispatched(header, payload, budgets, granted).0;
            let id = header.object_id;
            let size = bytes::le32_at(payload, 0);
            &&& c.pools.contains_key(id)
            &&& after.pools.contains_key(id)
            &&& after.pools[id].size == size
            &&& after.pools[id].storage.len() == size
            &&& after.pools[id].storage[i] == if i < c.pools[id].storage.len() {
                c.pools[id].storage[i]
            } else {
                0
            }
        }),
{
    broadcast use crate::client::model::lemma_emit_frame;

    reveal(ClientModel::dispatched);
    reveal(ClientModel::mutated);
    let size = bytes::le32_at(payload, 0);
    lemma_reap_keeps(
        c.resize_pool(
            header.object_id,
            payload,
            budgets.pool_bytes,
            budgets.pool_byte_limit,
            granted,
        ).0,
        header.object_id,
    );
}

// Showing.

/// What is attached to a surface is not shown yet: it waits for the next commit.
/// Nothing of the other surfaces changes.
pub proof fn law_attached_buffer_waits(
    c: ClientModel,
    header: MessageHeader,
    payload: Seq<u8>,
    budgets: ServerResourceBudgets,
    granted: bool,
)
    requires
        is_accepted(c, header, payload, budgets, granted, Interface::Surface, 2),
    ensures
        ({
            let after = c.dispatched(header, payload, budgets, granted).0;
            let id = header.object_id;
            let buffer_id = ObjectId(bytes::le32_at(payload, 0));
            let surface = after.surfaces[id];
            &&& c.surfaces.contains_key(id)
            &&& after.surfaces == c.surfaces.insert(id, surface)
            &&& surface.current_buffer == c.surfaces[id].current_buffer
            &&& surface.pending_attach
            &&& buffer_id.0 == 0 ==> surface.pending_buffer is None
            &&& buffer_id.0 != 0 ==> c.is_object(buffer_id, Interface::Buffer)
                && surface.pending_buffer is Some && (surface.pending_buffer->0).buffer_id
                == buffer_id && (surface.pending_buffer->0).x == bytes::le32_at(payload, 4) as i32
                && (surface.pending_buffer->0).y == bytes::le32_at(payload, 8) as i32
            &&& surface.pending_damage == c.surfaces[id].pending_damage
            &&& surface.pending_frame_callbacks == c.surfaces[id].pending_frame_callbacks
            &&& surface.commit_count == c.surfaces[id].commit_count
        }),
{
    broadcast use crate::client::model::lemma_emit_frame;

    reveal(ClientModel::dispatched);
    reveal(ClientModel::mutated);
    lemma_reap_keeps(c.attach(header.object_id, payload).0, header.object_id);
}

/// A commit shows what was attached, or what was shown if nothing was; and takes
/// all that was pending. The callbacks that were asked for wait to be told, behind
/// those that wait already.
pub proof fn law_commit_shows_what_was_attached(
    c: ClientModel,
    header: MessageHeader,
    payload: Seq<u8>,
    budgets: ServerResourceBudgets,
    granted: bool,
)
    requires
        is_accepted(c, header, payload, budgets, granted, Interface::Surface, 7),
    ensures
        ({
            let after = c.dispatched(header, payload, budgets, granted).0;
            let id = header.object_id;
            let before = c.surfaces[id];
            let surface = after.surfaces[id];
            let asked = before.pending_frame_callbacks;
            &&& c.surfaces.contains_key(id)
            &&& after.surfaces == c.surfaces.insert(id, surface)
            &&& before.pending_attach ==> surface.current_buffer == before.pending_buffer
            &&& !before.pending_attach ==> surface.current_buffer == before.current_buffer
            &&& !surface.pending_attach
            &&& before.pending_attach ==> surface.pending_buffer is None
            &&& surface.pending_damage.len() == 0
            &&& !surface.pending_damage_unprovable
            &&& surface.pending_frame_callbacks.len() == 0
            &&& before.commit_count < u32::MAX ==> surface.commit_count == before.commit_count + 1
            &&& surface.had_toplevel_role == before.had_toplevel_role
            &&& after.awaiting.len() == c.awaiting.len() + asked.len()
            &&& forall|i: int|
                0 <= i < c.awaiting.len() ==> #[trigger] after.awaiting[i] == c.awaiting[i]
            &&& forall|i: int|
                0 <= i < asked.len() ==> #[trigger] after.awaiting[c.awaiting.len() + i] == (
                    id,
                    asked[i],
                )
        }),
{
    broadcast use crate::client::model::lemma_emit_frame;
    broadcast use lemma_reap_keeps_devices;

    reveal(ClientModel::dispatched);
    reveal(ClientModel::mutated);
    lemma_reap_keeps(c.commit(header.object_id).0, header.object_id);
}

/// A callback that a surface asks for is a new object, and waits for the next
/// commit behind those asked for before.
pub proof fn law_frame_callback_waits(
    c: ClientModel,
    header: MessageHeader,
    payload: Seq<u8>,
    budgets: ServerResourceBudgets,
    granted: bool,
)
    requires
        is_accepted(c, header, payload, budgets, granted, Interface::Surface, 4),
    ensures
        ({
            let after = c.dispatched(header, payload, budgets, granted).0;
            let id = header.object_id;
            let callback_id = ObjectId(bytes::le32_at(payload, 0));
            let before = c.surfaces[id];
            &&& !c.objects.contains_key(callback_id)
            &&& after.objects == c.objects.insert(callback_id, Interface::Callback)
            &&& after.surfaces == c.surfaces.insert(
                id,
                SurfaceModel {
                    pending_frame_callbacks: before.pending_frame_callbacks.push(callback_id),
                    ..before
                },
            )
            &&& after.awaiting == c.awaiting
        }),
{
    broadcast use crate::client::model::lemma_emit_frame;
    broadcast use lemma_reap_keeps_devices;

    reveal(ClientModel::dispatched);
    reveal(ClientModel::mutated);
    lemma_reap_keeps(c.ask_frame(header.object_id, payload).0, header.object_id);
}

/// Whether a rectangle of a surface has a point.
pub open spec fn rect_has(r: DamageRect, x: int, y: int) -> bool {
    r.x <= x < r.x + r.width && r.y <= y < r.y + r.height
}

/// Whether some rectangle of a list has a point.
pub open spec fn some_rect_has(rects: Seq<DamageRect>, x: int, y: int) -> bool {
    exists|i: int| 0 <= i < rects.len() && rect_has(#[trigger] rects[i], x, y)
}

/// Damage that is reported is remembered, beside what was reported before; or it
/// is remembered that not all of it is known.
pub proof fn law_reported_damage_is_remembered(
    c: ClientModel,
    header: MessageHeader,
    payload: Seq<u8>,
    budgets: ServerResourceBudgets,
    granted: bool,
    x: int,
    y: int,
)
    requires
        is_accepted(c, header, payload, budgets, granted, Interface::Surface, 3),
        c.limits.damage_rects_per_surface > 0,
    ensures
        ({
            let after = c.dispatched(header, payload, budgets, granted).0;
            let id = header.object_id;
            let before = c.surfaces[id];
            let surface = after.surfaces[id];
            let left = bytes::le32_at(payload, 0) as i32;
            let top = bytes::le32_at(payload, 4) as i32;
            let width = bytes::le32_at(payload, 8) as i32;
            let height = bytes::le32_at(payload, 12) as i32;
            &&& c.surfaces.contains_key(id)
            &&& after.surfaces == c.surfaces.insert(id, surface)
            &&& surface.current_buffer == before.current_buffer
            &&& surface.pending_buffer == before.pending_buffer
            &&& surface.pending_damage.len() > 0
            &&& surface.pending_damage.len() <= c.limits.damage_rects_per_surface
                || surface.pending_damage.len() == 1 || before.pending_damage.len()
                > c.limits.damage_rects_per_surface
            &&& before.pending_damage_unprovable ==> surface.pending_damage_unprovable
            &&& before.pending_damage.len() >= c.limits.damage_rects_per_surface
                ==> surface.pending_damage_unprovable
            &&& !surface.pending_damage_unprovable ==> some_rect_has(
                surface.pending_damage,
                x,
                y,
            ) == (some_rect_has(before.pending_damage, x, y) || (left <= x < left + width && top
                <= y < top + height))
        }),
{
    broadcast use crate::client::model::lemma_emit_frame;

    reveal(ClientModel::dispatched);
    reveal(ClientModel::mutated);
    let id = header.object_id;
    lemma_reap_keeps(c.damage(id, payload).0, id);
    let before = c.surfaces[id];
    let after = c.dispatched(header, payload, budgets, granted).0;
    let surface = after.surfaces[id];
    if !surface.pending_damage_unprovable {
        let rects = before.pending_damage;
        let more = surface.pending_damage;
        let rect = more.last();
        assert(more == rects.push(rect));
        if some_rect_has(rects, x, y) {
            let i = choose|i: int| 0 <= i < rects.len() && rect_has(#[trigger] rects[i], x, y);
            assert(more[i] == rects[i]);
        }
        if rect_has(rect, x, y) {
            assert(rect_has(more[rects.len() as int], x, y));
        }
        if some_rect_has(more, x, y) {
            let i = choose|i: int| 0 <= i < more.len() && rect_has(#[trigger] more[i], x, y);
            if i < rects.len() {
                assert(rects[i] == more[i]);
            }
        }
    }
}

proof fn lemma_enclosed(rects: Seq<DamageRect>, added: DamageRect, x: int, y: int)
    requires
        some_rect_has(rects, x, y) || rect_has(added, x, y),
        x < i32::MAX,
        y < i32::MAX,
    ensures
        ({
            let b = model::enclosing_bounds(rects, added);
            b.left <= x < b.right && b.top <= y < b.bottom
        }),
    decreases rects.len(),
{
    if rects.len() > 0 {
        let front = rects.drop_last();
        if some_rect_has(rects, x, y) {
            let i = choose|i: int| 0 <= i < rects.len() && rect_has(#[trigger] rects[i], x, y);
            if i < front.len() {
                assert(rect_has(front[i], x, y));
            }
        }
        if some_rect_has(front, x, y) || rect_has(added, x, y) {
            lemma_enclosed(front, added, x, y);
        }
    }
}

/// Where a surface has as much damage as can be remembered apart, all of it is
/// joined in one rectangle, which has every point that was damaged.
pub proof fn law_crowded_damage_is_joined(
    c: ClientModel,
    header: MessageHeader,
    payload: Seq<u8>,
    budgets: ServerResourceBudgets,
    granted: bool,
    x: int,
    y: int,
)
    requires
        is_accepted(c, header, payload, budgets, granted, Interface::Surface, 3),
        0 < c.limits.damage_rects_per_surface,
        c.limits.damage_rects_per_surface <= c.surfaces[header.object_id].pending_damage.len(),
        ({
            let left = bytes::le32_at(payload, 0) as i32;
            let top = bytes::le32_at(payload, 4) as i32;
            let width = bytes::le32_at(payload, 8) as i32;
            let height = bytes::le32_at(payload, 12) as i32;
            some_rect_has(c.surfaces[header.object_id].pending_damage, x, y) || (left <= x < left
                + width && top <= y < top + height)
        }),
        x < i32::MAX,
        y < i32::MAX,
    ensures
        ({
            let after = c.dispatched(header, payload, budgets, granted).0;
            let rects = after.surfaces[header.object_id].pending_damage;
            &&& rects.len() == 1
            &&& after.surfaces[header.object_id].pending_damage_unprovable
            &&& rects[0].x <= x
            &&& rects[0].y <= y
            &&& x - rects[0].x < i32::MAX ==> x < rects[0].x + rects[0].width
            &&& y - rects[0].y < i32::MAX ==> y < rects[0].y + rects[0].height
        }),
{
    broadcast use crate::client::model::lemma_emit_frame;

    reveal(ClientModel::dispatched);
    reveal(ClientModel::mutated);
    let id = header.object_id;
    lemma_reap_keeps(c.damage(id, payload).0, id);
    let rect = DamageRect {
        x: bytes::le32_at(payload, 0) as i32,
        y: bytes::le32_at(payload, 4) as i32,
        width: bytes::le32_at(payload, 8) as i32,
        height: bytes::le32_at(payload, 12) as i32,
    };
    lemma_enclosed(c.surfaces[id].pending_damage, rect, x, y);
    let joined = model::coalesced(c.surfaces[id].pending_damage, rect);
    assert(c.damage(id, payload).0.surfaces[id].pending_damage == seq![joined]);
}

/// A patch changes the pixels of its rectangle to what was sent, row by row, and
/// leaves the rest of what the surface shows.
pub proof fn law_patch_is_exact(
    c: ClientModel,
    header: MessageHeader,
    payload: Seq<u8>,
    budgets: ServerResourceBudgets,
    granted: bool,
    x: int,
    y: int,
    k: int,
)
    requires
        is_accepted(c, header, payload, budgets, granted, Interface::Surface, 8),
        0 <= x < bytes::le32_at(payload, 8),
        0 <= y < bytes::le32_at(payload, 12),
        0 <= k < 4,
    ensures
        ({
            let after = c.dispatched(header, payload, budgets, granted).0;
            let id = header.object_id;
            let buffer_id = (c.surfaces[id].current_buffer->0).buffer_id;
            let info = c.buffers[buffer_id];
            let left = bytes::le32_at(payload, 0) as i32;
            let top = bytes::le32_at(payload, 4) as i32;
            let width = bytes::le32_at(payload, 8);
            let place = info.offset + info.stride * (top + y) + 4 * (left + x) + k;
            &&& c.surfaces.contains_key(id)
            &&& c.surfaces[id].current_buffer is Some
            &&& after.surfaces[id].current_buffer == c.surfaces[id].current_buffer
            &&& 0 <= left && left + width <= info.width
            &&& 0 <= top && top + bytes::le32_at(payload, 12) <= info.height
            &&& after.buffers.contains_key(buffer_id)
            &&& after.buffers[buffer_id] == info
            &&& after.pools.contains_key(info.pool_id)
            &&& after.pools[info.pool_id].storage[place] == payload[16 + 4 * (width * y + x) + k]
        }),
{
    broadcast use crate::client::model::lemma_emit_frame;

    reveal(ClientModel::dispatched);
    reveal(ClientModel::mutated);
    let id = header.object_id;
    lemma_reap_keeps(c.patch(id, payload).0, id);
    lemma_reap_keeps_shown(c.patch(id, payload).0, id);
    let buffer_id = (c.surfaces[id].current_buffer->0).buffer_id;
    let info = c.buffers[buffer_id];
    let left = bytes::le32_at(payload, 0) as i32;
    let top = bytes::le32_at(payload, 4) as i32;
    let width = bytes::le32_at(payload, 8);
    let height = bytes::le32_at(payload, 12);
    let stride = info.stride as int;
    let at = info.offset + top * stride + 4 * left;
    assert(c.is_backed(buffer_id));
    assert(0 <= top * stride && top * stride + (height - 1) * stride + stride <= info.height
        * stride) by (nonlinear_arith)
        requires
            0 <= top,
            0 < height,
            top + height <= info.height,
            0 <= stride,
    ;
    assert(info.height * stride == stride * info.height) by (nonlinear_arith);
    assert(height * (4 * width) == 4 * (width * height)) by (nonlinear_arith);
    storage::law_written_rows_are_read_back(
        c.pools[info.pool_id].storage,
        at,
        stride,
        4 * width,
        payload.skip(16),
        height as nat,
        y,
        4 * x + k,
    );
    assert(stride * (top + y) == top * stride + y * stride) by (nonlinear_arith);
    assert(y * (4 * width) == 4 * (width * y)) by (nonlinear_arith);
    assert(0 <= width * y && width * y + width <= width * height) by (nonlinear_arith)
        requires
            0 <= y,
            y + 1 <= height,
            0 <= width,
    ;
}

// Texts.

/// A title, or a name of an application, is the text that was sent; nothing else
/// of the toplevel changes, nor any other.
pub proof fn law_texts_are_as_sent(
    c: ClientModel,
    header: MessageHeader,
    payload: Seq<u8>,
    budgets: ServerResourceBudgets,
    granted: bool,
    opcode: u16,
)
    requires
        opcode == 1 || opcode == 2,
        is_accepted(c, header, payload, budgets, granted, Interface::XdgToplevel, opcode),
    ensures
        ({
            let after = c.dispatched(header, payload, budgets, granted).0;
            let id = header.object_id;
            let before = c.toplevels[id];
            let sent = text::text_at(payload, 0);
            &&& c.toplevels.contains_key(id)
            &&& opcode == 1 ==> after.toplevels == c.toplevels.insert(
                id,
                ToplevelModel { title: sent, ..before },
            )
            &&& opcode == 2 ==> after.toplevels == c.toplevels.insert(
                id,
                ToplevelModel { app_id: sent, ..before },
            )
        }),
{
    broadcast use crate::client::model::lemma_emit_frame;

    reveal(ClientModel::dispatched);
    reveal(ClientModel::mutated);
    crate::client::bounds::lemma_reaped(c);
}

} // verus!
