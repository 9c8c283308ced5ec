//! What is left when a client destroys what it holds.

use vstd::prelude::*;

use crate::client::bounds;
use crate::client::effects;
use crate::client::effects::is_accepted;
use crate::client::model;
use crate::client::model::{ClientModel, SurfaceModel};
use crate::client::sound;
use crate::client::ServerResourceBudgets;
use crate::ids::ObjectId;
use crate::objects::Interface;
use crate::wire::MessageHeader;

verus! {

/// Whether a surface shows a buffer, or will show it with its next commit.
pub open spec fn uses(surface: SurfaceModel, buffer_id: ObjectId) -> bool {
    ||| surface.current_buffer is Some && (surface.current_buffer->0).buffer_id == buffer_id
    ||| surface.pending_buffer is Some && (surface.pending_buffer->0).buffer_id == buffer_id
}

/// A buffer that is destroyed loses its name at once. It lasts while a surface
/// shows it or is about to, and no longer.
pub proof fn law_destroyed_buffer_lasts_while_used(
    c: ClientModel,
    header: MessageHeader,
    payload: Seq<u8>,
    budgets: ServerResourceBudgets,
    granted: bool,
)
    requires
        is_accepted(c, header, payload, budgets, granted, Interface::Buffer, 1),
        c.buffers.contains_key(header.object_id),
    ensures
        ({
            let after = c.dispatched(header, payload, budgets, granted).0;
            let id = header.object_id;
            let used = exists|s: ObjectId| #[trigger]
                c.surfaces.contains_key(s) && uses(c.surfaces[s], id);
            &&& after.objects == c.objects.remove(id)
            &&& after.surfaces == c.surfaces
            &&& after.buffers.contains_key(id) == used
            &&& used ==> after.buffers[id] == c.buffers[id]
        }),
{
    broadcast use crate::client::model::lemma_emit_frame;

    reveal(ClientModel::dispatched);
    reveal(ClientModel::mutated);
    let id = header.object_id;
    let gone = c.retire(id);
    let after = c.dispatched(header, payload, budgets, granted).0;
    assert(after.objects == gone.reap().reap().objects && after.surfaces
        == gone.reap().reap().surfaces && after.buffers == gone.reap().reap().buffers);
    lemma_reap_keeps_waiting(gone);
    lemma_reap_keeps_waiting(gone.reap());
    assert(after.is_reaped()) by {
        sound::law_dispatch_keeps_sound(c, header, payload, budgets, granted);
    }
    lemma_retired_buffer(c, id, after);
}

proof fn lemma_retired_buffer(c: ClientModel, id: ObjectId, after: ClientModel)
    requires
        c.is_sound(),
        c.is_object(id, Interface::Buffer),
        c.buffers.contains_key(id),
        after.is_reaped(),
        after.objects == c.objects.remove(id),
        after.surfaces == c.surfaces,
        after.buffers == c.retire(id).reap().reap().buffers,
    ensures
        ({
            let used = exists|s: ObjectId| #[trigger]
                c.surfaces.contains_key(s) && uses(c.surfaces[s], id);
            &&& after.buffers.contains_key(id) == used
            &&& used ==> after.buffers[id] == c.buffers[id]
        }),
{
    broadcast use lemma_reap_keeps_waiting;

    let gone = c.retire(id);
    let used = exists|s: ObjectId| #[trigger]
        c.surfaces.contains_key(s) && uses(c.surfaces[s], id);
    if used {
        let s = choose|s: ObjectId| #[trigger]
            c.surfaces.contains_key(s) && uses(c.surfaces[s], id);
        assert(gone.surfaces[s].holds(id));
        assert(gone.is_held(id));
        lemma_held_is_kept(gone, id);
        assert(gone.reap().surfaces[s].holds(id));
        assert(gone.reap().is_held(id));
        lemma_held_is_kept(gone.reap(), id);
    } else if after.buffers.contains_key(id) {
        assert(!after.dead_buffers().contains(id));
        assert(after.is_held(id));
        let s = choose|s: ObjectId| #[trigger]
            after.surfaces.contains_key(s) && after.surfaces[s].holds(id);
        assert(c.surfaces.contains_key(s) && uses(c.surfaces[s], id));
    }
}

proof fn lemma_held_same(a: ClientModel, b: ClientModel, id: ObjectId)
    requires
        a.surfaces == b.surfaces,
    ensures
        a.is_held(id) == b.is_held(id),
{
    if a.is_held(id) {
        let s = choose|s: ObjectId| #[trigger]
            a.surfaces.contains_key(s) && a.surfaces[s].holds(id);
        assert(b.surfaces.contains_key(s) && b.surfaces[s].holds(id));
    }
    if b.is_held(id) {
        let s = choose|s: ObjectId| #[trigger]
            b.surfaces.contains_key(s) && b.surfaces[s].holds(id);
        assert(a.surfaces.contains_key(s) && a.surfaces[s].holds(id));
    }
}

/// A buffer that is in use is not buried.
proof fn lemma_held_is_kept(c: ClientModel, id: ObjectId)
    requires
        c.buffers.dom().finite(),
        c.pools.dom().finite(),
        c.buffers.contains_key(id),
        c.is_held(id),
    ensures
        c.reap().buffers.contains_key(id),
        c.reap().buffers[id] == c.buffers[id],
{
    reveal(ClientModel::reap);
    let dead = c.dead_buffers();
    vstd::set_lib::lemma_set_subset_finite(c.buffers.dom(), dead);
    crate::ordered::law_ascending_keys_list_all(dead);
    let ids = crate::ordered::ascending_keys(dead);
    effects::lemma_bury_keeps(c, ids, Seq::empty(), id);
    if ids.contains(id) {
        assert(ids.to_set().contains(id));
    }
    let fewer = c.bury_buffers(ids);
    effects::lemma_bury_keeps(
        fewer,
        Seq::empty(),
        crate::ordered::ascending_keys(fewer.dead_pools()),
        id,
    );
}

/// A pool that is destroyed loses its name at once. It lasts, with its bytes,
/// while a buffer lies in it, and no longer.
pub proof fn law_destroyed_pool_lasts_while_used(
    c: ClientModel,
    header: MessageHeader,
    payload: Seq<u8>,
    budgets: ServerResourceBudgets,
    granted: bool,
)
    requires
        is_accepted(c, header, payload, budgets, granted, Interface::ShmPool, 3),
        c.pools.contains_key(header.object_id),
    ensures
        ({
            let after = c.dispatched(header, payload, budgets, granted).0;
            let id = header.object_id;
            let used = exists|b: ObjectId| #[trigger]
                c.buffers.contains_key(b) && c.buffers[b].pool_id == id;
            &&& after.objects == c.objects.remove(id)
            &&& after.surfaces == c.surfaces
            &&& after.buffers == c.buffers
            &&& after.pools.contains_key(id) == used
            &&& used ==> after.pools == c.pools && after.pool_bytes == c.pool_bytes
            &&& !used ==> after.pools == c.pools.remove(id) && after.pool_bytes + c.pools[id].size
                == c.pool_bytes
        }),
{
    broadcast use crate::client::model::lemma_emit_frame;

    reveal(ClientModel::dispatched);
    reveal(ClientModel::mutated);
    let id = header.object_id;
    let gone = c.retire(id);
    let used = exists|b: ObjectId| #[trigger]
        c.buffers.contains_key(b) && c.buffers[b].pool_id == id;
    let after = c.dispatched(header, payload, budgets, granted).0;
    lemma_pool_reaped(c, id);
    sound::law_dispatch_keeps_sound(c, header, payload, budgets, granted);
    let buried = gone.reap();
    assert(buried.is_reaped()) by {
        assert(after.is_reaped());
        lemma_pools_die_once(c, id);
    }
    bounds::lemma_reaped(buried);
    crate::sums::lemma_map_remove(c.pools, sound::pool_size(), id);
}

/// Burying a pool.
proof fn lemma_pool_reaped(c: ClientModel, id: ObjectId)
    requires
        c.is_sound(),
        c.is_reaped(),
        c.is_object(id, Interface::ShmPool),
        c.pools.contains_key(id),
    ensures
        ({
            let after = c.retire(id).reap();
            let used = exists|b: ObjectId| #[trigger]
                c.buffers.contains_key(b) && c.buffers[b].pool_id == id;
            &&& after.objects == c.objects.remove(id)
            &&& after.surfaces == c.surfaces
            &&& after.buffers == c.buffers
            &&& used ==> after.pools == c.pools && after.pool_bytes == c.pool_bytes
            &&& !used ==> after.pools == c.pools.remove(id) && after.pool_bytes
                == c.pool_bytes.saturating_sub(c.pools[id].size as u64)
        }),
{
    broadcast use crate::client::model::lemma_emit_frame;

    reveal(ClientModel::reap);
    let gone = c.retire(id);
    assert(gone.dead_buffers() =~= Set::<ObjectId>::empty()) by {
        assert forall|b: ObjectId| !gone.dead_buffers().contains(b) by {
            assert(!c.dead_buffers().contains(b));
            if gone.dead_buffers().contains(b) {
                assert(c.buffers.contains_key(b));
                lemma_held_same(c, gone, b);
            }
        }
    }
    lemma_no_keys();
    let used = gone.has_buffers(id);
    assert(forall|p: ObjectId| #[trigger] gone.has_buffers(p) == c.has_buffers(p));
    let dead = gone.dead_pools();
    if used {
        assert(dead =~= Set::<ObjectId>::empty()) by {
            assert forall|p: ObjectId| !dead.contains(p) by {
                assert(!c.dead_pools().contains(p));
                if dead.contains(p) && p != id {
                    assert(gone.is_object(p, Interface::ShmPool) == c.is_object(
                        p,
                        Interface::ShmPool,
                    ));
                }
            }
        }
    } else {
        assert(dead =~= set![id]) by {
            assert forall|p: ObjectId| dead.contains(p) == (p == id) by {
                assert(!c.dead_pools().contains(p));
                if p != id {
                    assert(gone.is_object(p, Interface::ShmPool) == c.is_object(
                        p,
                        Interface::ShmPool,
                    ));
                }
            }
        }
        lemma_one_key(id);
        let ids = crate::ordered::ascending_keys(dead);
        assert(ids.drop_last() =~= Seq::<ObjectId>::empty());
        reveal_with_fuel(ClientModel::bury_pools, 2);
    }
}

/// Once a pool has been buried, nothing is left to bury.
proof fn lemma_pools_die_once(c: ClientModel, id: ObjectId)
    requires
        c.is_sound(),
        c.is_reaped(),
        c.is_object(id, Interface::ShmPool),
        c.pools.contains_key(id),
    ensures
        c.retire(id).reap().is_reaped(),
{
    lemma_pool_reaped(c, id);
    let after = c.retire(id).reap();
    assert(after.dead_buffers() =~= Set::<ObjectId>::empty()) by {
        assert forall|b: ObjectId| !after.dead_buffers().contains(b) by {
            assert(!c.dead_buffers().contains(b));
            if after.dead_buffers().contains(b) {
                assert(c.buffers.contains_key(b));
                lemma_held_same(c, after, b);
            }
        }
    }
    assert(forall|p: ObjectId| #[trigger] after.has_buffers(p) == c.has_buffers(p));
    assert(after.dead_pools() =~= Set::<ObjectId>::empty()) by {
        assert forall|p: ObjectId| !after.dead_pools().contains(p) by {
            assert(!c.dead_pools().contains(p));
            assert(c.has_buffers(p) == after.has_buffers(p));
        }
    }
}

proof fn lemma_no_keys()
    ensures
        crate::ordered::ascending_keys(Set::<ObjectId>::empty()).len() == 0,
{
    crate::ordered::law_ascending_keys_list_all(Set::<ObjectId>::empty());
    let none = crate::ordered::ascending_keys(Set::<ObjectId>::empty());
    if none.len() > 0 {
        assert(none.to_set().contains(none[0]));
    }
}

proof fn lemma_one_key(id: ObjectId)
    ensures
        crate::ordered::ascending_keys(set![id]).len() == 1,
        crate::ordered::ascending_keys(set![id])[0] == id,
{
    let one = set![id];
    crate::ordered::law_ascending_keys_list_all(one);
    let ids = crate::ordered::ascending_keys(one);
    assert(ids.to_set().contains(id));
    if ids.len() > 1 {
        assert(ids.to_set().contains(ids[0]));
        assert(ids.to_set().contains(ids[1]));
    }
    assert(ids.to_set().contains(ids[0]));
}

// Surfaces.

proof fn lemma_bury_keeps_waiting(c: ClientModel, buffers: Seq<ObjectId>, pools: Seq<ObjectId>)
    ensures
        c.bury_buffers(buffers).objects == c.objects,
        c.bury_buffers(buffers).surfaces == c.surfaces,
        c.bury_buffers(buffers).ready == c.ready,
        c.bury_buffers(buffers).awaiting == c.awaiting,
        c.bury_pools(pools).objects == c.objects,
        c.bury_pools(pools).surfaces == c.surfaces,
        c.bury_pools(pools).ready == c.ready,
        c.bury_pools(pools).awaiting == c.awaiting,
        c.buffers.dom().finite() ==> c.bury_buffers(buffers).buffers.dom().finite(),
        c.pools.dom().finite() ==> c.bury_pools(pools).pools.dom().finite(),
        c.bury_buffers(buffers).pools == c.pools,
        c.bury_pools(pools).buffers == c.buffers,
    decreases buffers.len() + pools.len(),
{
    broadcast use crate::client::model::lemma_emit_frame;

    if buffers.len() > 0 {
        lemma_bury_keeps_waiting(c, buffers.drop_last(), pools);
    }
    if pools.len() > 0 {
        lemma_bury_keeps_waiting(c, buffers, pools.drop_last());
    }
}

broadcast proof fn lemma_reap_keeps_waiting(c: ClientModel)
    ensures
        ({
            let after = #[trigger] c.reap();
            &&& after.objects == c.objects
            &&& after.surfaces == c.surfaces
            &&& after.ready == c.ready
            &&& after.awaiting == c.awaiting
            &&& c.buffers.dom().finite() ==> after.buffers.dom().finite()
            &&& c.pools.dom().finite() ==> after.pools.dom().finite()
        }),
{
    reveal(ClientModel::reap);
    let ids = crate::ordered::ascending_keys(c.dead_buffers());
    let fewer = c.bury_buffers(ids);
    lemma_bury_keeps_waiting(c, ids, Seq::empty());
    lemma_bury_keeps_waiting(
        fewer,
        Seq::empty(),
        crate::ordered::ascending_keys(fewer.dead_pools()),
    );
}

proof fn lemma_callbacks_of(
    awaiting: Seq<(ObjectId, ObjectId)>,
    surface_id: ObjectId,
    owner: ObjectId,
    callback: ObjectId,
)
    ensures
        model::callbacks_of(awaiting, surface_id).contains(callback) == awaiting.contains(
            (surface_id, callback),
        ),
        model::callbacks_not_of(awaiting, surface_id).contains((owner, callback)) == (owner
            != surface_id && awaiting.contains((owner, callback))),
    decreases awaiting.len(),
{
    broadcast use vstd::seq_lib::group_seq_properties;

    if awaiting.len() > 0 {
        let fewer = awaiting.drop_last();
        lemma_callbacks_of(fewer, surface_id, owner, callback);
        assert(awaiting =~= fewer.push(awaiting.last()));
    }
}

/// A surface that is destroyed is gone; the other surfaces stay as they are. The
/// callbacks that it asked for no longer wait: they are to be given back, and
/// then the surface's name. Those of other surfaces wait on.
pub proof fn law_destroyed_surface_is_gone(
    c: ClientModel,
    header: MessageHeader,
    payload: Seq<u8>,
    budgets: ServerResourceBudgets,
    granted: bool,
    owner: ObjectId,
    callback: ObjectId,
)
    requires
        is_accepted(c, header, payload, budgets, granted, Interface::Surface, 1),
        c.surfaces.contains_key(header.object_id),
    ensures
        ({
            let after = c.dispatched(header, payload, budgets, granted).0;
            let id = header.object_id;
            let batch = after.ready.last();
            &&& !c.toplevel_by_surface.contains_key(id)
            &&& after.objects == c.objects.remove(id)
            &&& after.surfaces == c.surfaces.remove(id)
            &&& after.toplevels == c.toplevels
            &&& after.ready.len() == c.ready.len() + 1
            &&& after.ready.drop_last() == c.ready
            &&& batch.surface_delete_id == Some(id)
            &&& batch.callback_data is None
            &&& batch.callbacks.contains((owner, callback)) == (owner == id && (
            c.awaiting.contains((id, callback))
                || c.surfaces[id].pending_frame_callbacks.contains(callback)))
            &&& after.awaiting.contains((owner, callback)) == (owner != id && c.awaiting.contains(
                (owner, callback),
            ))
        }),
{
    broadcast use crate::client::model::lemma_emit_frame;
    broadcast use crate::client::sound::lemma_reap_frame;
    broadcast use lemma_reap_keeps_waiting;

    reveal(ClientModel::dispatched);
    reveal(ClientModel::mutated);
    let id = header.object_id;
    let after = c.dispatched(header, payload, budgets, granted).0;
    lemma_callbacks_of(c.awaiting, id, owner, callback);
    let listed = model::callbacks_of(c.awaiting, id) + c.surfaces[id].pending_frame_callbacks;
    assert(after.ready.last().callbacks == model::asked_by(id, listed));
    assert(after.ready.drop_last() =~= c.ready);
    assert(model::asked_by(id, listed).contains((owner, callback)) == (owner == id
        && listed.contains(callback))) by {
        let asked = model::asked_by(id, listed);
        if asked.contains((owner, callback)) {
            let i = choose|i: int| 0 <= i < asked.len() && asked[i] == (owner, callback);
            assert(listed[i] == callback);
        }
        if owner == id && listed.contains(callback) {
            let i = choose|i: int| 0 <= i < listed.len() && listed[i] == callback;
            assert(asked[i] == (owner, callback));
        }
    }
    assert(listed.contains(callback) == (model::callbacks_of(c.awaiting, id).contains(callback)
        || c.surfaces[id].pending_frame_callbacks.contains(callback))) by {
        broadcast use vstd::seq_lib::group_seq_properties;

    }
}

/// The surface of a window cannot be destroyed before the window.
pub proof fn law_surface_of_window_is_kept(
    c: ClientModel,
    header: MessageHeader,
    payload: Seq<u8>,
    budgets: ServerResourceBudgets,
    granted: bool,
    toplevel_id: ObjectId,
)
    requires
        c.is_sound(),
        c.is_reaped(),
        c.is_object(header.object_id, Interface::Surface),
        header.opcode == 1,
        c.toplevels.contains_key(toplevel_id),
        c.toplevels[toplevel_id].surface_id == header.object_id,
    ensures
        c.dispatched(header, payload, budgets, granted).1 is Some,
        c.dispatched(header, payload, budgets, granted).0.surfaces == c.surfaces,
        c.dispatched(header, payload, budgets, granted).0.objects == c.objects,
{
    broadcast use crate::client::model::lemma_emit_frame;

    reveal(ClientModel::dispatched);
    reveal(ClientModel::mutated);
    assert(c.toplevel_by_surface.contains_key(header.object_id));
    bounds::law_refused_dispatch_changes_nothing(c, header, payload, budgets, granted);
}

} // verus!
