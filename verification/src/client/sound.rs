//! What holds of a connection at all times: its names, its memory and its
//! windows fit together.

use vstd::prelude::*;

use crate::client::bounds;
use crate::client::model;
use crate::client::model::{BatchModel, ClientModel, PoolModel, SurfaceModel, ToplevelModel};
use crate::client::{ServerResourceBudgets, MAX_POOL_SIZE, MAX_TOPLEVEL_METADATA_BYTES};
use crate::ids::ObjectId;
use crate::objects::Interface;
use crate::ordered;
use crate::requests;
use crate::sums;
use crate::wire::MessageHeader;

verus! {

broadcast use crate::client::model::lemma_emit_frame;

/// Where a frame callback is listed.
pub enum Spot {
    /// With a surface, until its next commit.
    Pending(ObjectId),
    /// Until the picture is shown.
    Waiting,
    /// In a batch that is ready to be reported.
    Batch(int),
}

pub open spec fn callback_ids(pairs: Seq<(ObjectId, ObjectId)>) -> Seq<ObjectId> {
    pairs.map_values(|pair: (ObjectId, ObjectId)| pair.1)
}

pub open spec fn pool_size() -> spec_fn(PoolModel) -> nat {
    |pool: PoolModel| pool.size as nat
}

pub open spec fn text_size() -> spec_fn(ToplevelModel) -> nat {
    |toplevel: ToplevelModel| toplevel.title.len() + toplevel.app_id.len()
}

impl ClientModel {
    pub open spec fn callbacks_in(self, spot: Spot) -> Seq<ObjectId> {
        match spot {
            Spot::Pending(s) => if self.surfaces.contains_key(s) {
                self.surfaces[s].pending_frame_callbacks
            } else {
                Seq::empty()
            },
            Spot::Waiting => callback_ids(self.awaiting),
            Spot::Batch(i) => if 0 <= i < self.ready.len() {
                callback_ids(self.ready[i].callbacks)
            } else {
                Seq::empty()
            },
        }
    }

    /// Whether no name stands for two things: a retired name is not in use,
    /// memory has a name that is in use or retired, and so on.
    pub open spec fn names_are_apart(self) -> bool {
        &&& forall|id: ObjectId| #[trigger]
            self.retired.contains(id) ==> !self.objects.contains_key(id)
        &&& forall|id: ObjectId| #[trigger]
            self.buffers.contains_key(id) ==> (self.is_object(id, Interface::Buffer)
                || self.retired.contains(id)) && !self.pools.contains_key(id)
        &&& forall|id: ObjectId| #[trigger]
            self.pools.contains_key(id) ==> self.is_object(id, Interface::ShmPool)
                || self.retired.contains(id)
        &&& forall|id: ObjectId| #[trigger]
            self.surfaces.contains_key(id) ==> self.is_object(id, Interface::Surface)
        &&& forall|id: ObjectId| #[trigger]
            self.toplevels.contains_key(id) ==> self.is_object(id, Interface::XdgToplevel)
        &&& forall|i: int|
            0 <= i < self.ready.len() && (#[trigger] self.ready[i]).surface_delete_id is Some ==> {
                let id = self.ready[i].surface_delete_id->0;
                self.retired.contains(id) && !self.buffers.contains_key(id)
                    && !self.pools.contains_key(id)
            }
        &&& forall|i: int, j: int|
            0 <= i < j < self.ready.len() && (#[trigger] self.ready[i]).surface_delete_id is Some
                ==> self.ready[i].surface_delete_id != (
            #[trigger] self.ready[j]).surface_delete_id
    }

    /// Whether every frame callback that is to be reported has a name, and is
    /// listed once.
    pub open spec fn callbacks_are_apart(self) -> bool {
        &&& forall|spot: Spot| (#[trigger] self.callbacks_in(spot)).no_duplicates()
        &&& forall|spot: Spot, id: ObjectId| #[trigger]
            self.callbacks_in(spot).contains(id) ==> self.is_object(id, Interface::Callback)
        &&& forall|a: Spot, b: Spot, id: ObjectId|
            a != b && #[trigger] self.callbacks_in(a).contains(id)
                ==> !#[trigger] self.callbacks_in(b).contains(id)
    }

    /// Whether memory is accounted for: every pool has the bytes that it says,
    /// every buffer lies in its pool, what is shown is there, and no two
    /// surfaces show the same bytes.
    pub open spec fn memory_is_sound(self) -> bool {
        &&& self.pools.dom().finite()
        &&& self.buffers.dom().finite()
        &&& self.surfaces.dom().finite()
        &&& forall|p: ObjectId| #[trigger]
            self.pools.contains_key(p) ==> self.pools[p].storage.len() == self.pools[p].size
                && self.pools[p].size <= MAX_POOL_SIZE
        &&& forall|b: ObjectId| #[trigger] self.buffers.contains_key(b) ==> self.is_backed(b)
        &&& forall|s: ObjectId| #[trigger]
            self.surfaces.contains_key(s) && self.surfaces[s].current_buffer is Some
                ==> self.buffers.contains_key((self.surfaces[s].current_buffer->0).buffer_id)
        &&& forall|s: ObjectId, t: ObjectId|
            s != t && #[trigger] self.surfaces.contains_key(s)
                && #[trigger] self.surfaces.contains_key(t) && self.surfaces[s].current_buffer
                is Some && self.surfaces[t].current_buffer is Some ==> !self.overlap(
                (self.surfaces[s].current_buffer->0).buffer_id,
                (self.surfaces[t].current_buffer->0).buffer_id,
            )
        &&& self.pool_bytes == sums::map_total(self.pools, pool_size())
        &&& self.pool_bytes <= self.limits.pool_bytes
    }

    /// Whether toplevels and their surfaces know of each other, and their
    /// texts are accounted for.
    pub open spec fn toplevels_are_sound(self) -> bool {
        &&& self.toplevels.dom().finite()
        &&& self.toplevels.dom().len() <= self.limits.toplevels
        &&& forall|s: ObjectId| #[trigger]
            self.toplevel_by_surface.contains_key(s) ==> self.toplevels.contains_key(
                self.toplevel_by_surface[s],
            ) && self.toplevels[self.toplevel_by_surface[s]].surface_id == s
        &&& forall|t: ObjectId| #[trigger]
            self.toplevels.contains_key(t) ==> self.toplevel_by_surface.contains_key(
                self.toplevels[t].surface_id,
            ) && self.toplevel_by_surface[self.toplevels[t].surface_id] == t
        &&& forall|t: ObjectId| #[trigger]
            self.toplevels.contains_key(t) ==> self.toplevels[t].title.len()
                + self.toplevels[t].app_id.len() <= MAX_TOPLEVEL_METADATA_BYTES
        &&& self.toplevel_metadata_bytes == sums::map_total(self.toplevels, text_size())
        &&& self.toplevel_metadata_bytes <= self.limits.toplevel_metadata_bytes
    }

    /// What holds of a connection at all times.
    pub open spec fn is_sound(self) -> bool {
        &&& self.names_are_apart()
        &&& self.callbacks_are_apart()
        &&& self.memory_is_sound()
        &&& self.toplevels_are_sound()
    }

    /// Whether two states hold the same things, whatever is queued for the
    /// connection and noted of it.
    pub open spec fn holds_same(self, other: ClientModel) -> bool {
        &&& self.objects == other.objects
        &&& self.retired == other.retired
        &&& self.limits == other.limits
        &&& self.pools == other.pools
        &&& self.pool_bytes == other.pool_bytes
        &&& self.buffers == other.buffers
        &&& self.surfaces == other.surfaces
        &&& self.awaiting == other.awaiting
        &&& self.ready == other.ready
        &&& self.toplevels == other.toplevels
        &&& self.toplevel_metadata_bytes == other.toplevel_metadata_bytes
        &&& self.toplevel_by_surface == other.toplevel_by_surface
    }
}

/// Whether a step keeps a connection sound.
pub open spec fn keeps_sound(a: ClientModel, b: ClientModel) -> bool {
    a.is_sound() ==> b.is_sound()
}

pub proof fn lemma_holds_same(a: ClientModel, b: ClientModel)
    requires
        a.holds_same(b),
        a.is_sound(),
    ensures
        b.is_sound(),
{
    assert forall|spot: Spot| #[trigger] b.callbacks_in(spot) == a.callbacks_in(spot) by {
    }
}

/// Callbacks that stay where they are stay apart.
pub(crate) proof fn lemma_callbacks_stay(a: ClientModel, b: ClientModel)
    requires
        a.callbacks_are_apart(),
        forall|spot: Spot| #[trigger] b.callbacks_in(spot) == a.callbacks_in(spot),
        forall|id: ObjectId|
            a.is_object(id, Interface::Callback) ==> #[trigger] b.is_object(
                id,
                Interface::Callback,
            ),
    ensures
        b.callbacks_are_apart(),
{
    assert forall|spot: Spot, id: ObjectId| #[trigger]
        b.callbacks_in(spot).contains(id) implies b.is_object(id, Interface::Callback) by {
        assert(a.callbacks_in(spot).contains(id));
        assert(a.is_object(id, Interface::Callback));
    }
    assert forall|p: Spot, q: Spot, id: ObjectId|
        p != q && #[trigger] b.callbacks_in(p).contains(id) implies !#[trigger] b.callbacks_in(
        q,
    ).contains(id) by {
        assert(a.callbacks_in(p).contains(id));
        assert(b.callbacks_in(q) == a.callbacks_in(q));
    }
}

/// A name that is free stands for nothing.
pub(crate) proof fn lemma_free_name(c: ClientModel, id: ObjectId)
    requires
        c.is_sound(),
        c.install_fault(id) is None,
    ensures
        !c.objects.contains_key(id),
        !c.retired.contains(id),
        !c.buffers.contains_key(id),
        !c.pools.contains_key(id),
        !c.surfaces.contains_key(id),
        !c.toplevels.contains_key(id),
{
}

/// A new object that holds nothing.
proof fn lemma_with_object(c: ClientModel, id: ObjectId, interface: Interface)
    requires
        c.is_sound(),
        c.install_fault(id) is None,
    ensures
        c.with_object(id, interface).is_sound(),
{
    lemma_free_name(c, id);
    lemma_callbacks_stay(c, c.with_object(id, interface));
}

proof fn lemma_bind(c: ClientModel, payload: Seq<u8>)
    ensures
        keeps_sound(c, c.bind(payload).0),
{
    if c.is_sound() && c.bind(payload).1 is None {
        let end = crate::text::text_end(payload, 4)->0;
        let new_id = ObjectId(crate::bytes::le32_at(payload, end + 4));
        let target = Interface::named(crate::text::text_at(payload, 4))->0;
        lemma_with_object(c, new_id, target);
        lemma_holds_same(c.with_object(new_id, target), c.bind(payload).0);
    }
}

proof fn lemma_create_surface(c: ClientModel, payload: Seq<u8>)
    ensures
        keeps_sound(c, c.create_surface(payload).0),
{
    let after = c.create_surface(payload).0;
    if c.is_sound() && c.create_surface(payload).1 is None {
        let id = ObjectId(crate::bytes::le32_at(payload, 0));
        lemma_free_name(c, id);
        assert forall|spot: Spot| #[trigger] after.callbacks_in(spot) == c.callbacks_in(spot) by {
            assert(after.callbacks_in(spot) =~= c.callbacks_in(spot));
        }
        lemma_callbacks_stay(c, after);
    }
}

proof fn lemma_ask_frame(c: ClientModel, surface_id: ObjectId, payload: Seq<u8>)
    ensures
        keeps_sound(c, c.ask_frame(surface_id, payload).0),
{
    let after = c.ask_frame(surface_id, payload).0;
    if c.is_sound() && c.ask_frame(surface_id, payload).1 is None {
        let id = ObjectId(crate::bytes::le32_at(payload, 0));
        lemma_free_name(c, id);
        let here = Spot::Pending(surface_id);
        let before = c.callbacks_in(here);
        let now = after.callbacks_in(here);
        assert(now == before.push(id));
        assert forall|x: ObjectId| #[trigger] now.contains(x) == (before.contains(x) || x == id) by {
            if before.contains(x) {
                let i = choose|i: int| 0 <= i < before.len() && before[i] == x;
                assert(now[i] == x);
            }
            assert(now[before.len() as int] == id);
        }
        assert forall|spot: Spot| spot != here implies #[trigger] after.callbacks_in(spot)
            == c.callbacks_in(spot) by {
        }
        assert forall|spot: Spot| !(#[trigger] c.callbacks_in(spot)).contains(id) by {
            if c.callbacks_in(spot).contains(id) {
                assert(c.is_object(id, Interface::Callback));
            }
        }
        assert(after.callbacks_are_apart()) by {
            assert forall|spot: Spot| (#[trigger] after.callbacks_in(spot)).no_duplicates() by {
                if spot == here {
                    assert(before.no_duplicates());
                    assert(!before.contains(id));
                    assert forall|i: int, j: int|
                        0 <= i < now.len() && 0 <= j < now.len() && i != j implies now[i]
                        != now[j] by {
                        if i == before.len() {
                            assert(before.contains(before[j]));
                        } else if j == before.len() {
                            assert(before.contains(before[i]));
                        }
                    }
                } else {
                    assert(c.callbacks_in(spot).no_duplicates());
                }
            }
            assert forall|spot: Spot, x: ObjectId| #[trigger]
                after.callbacks_in(spot).contains(x) implies after.is_object(
                x,
                Interface::Callback,
            ) by {
                if x != id {
                    assert(c.callbacks_in(spot).contains(x));
                    assert(c.is_object(x, Interface::Callback));
                }
            }
            assert forall|p: Spot, q: Spot, x: ObjectId|
                p != q && #[trigger] after.callbacks_in(p).contains(x) implies !#[trigger] after.callbacks_in(
                q,
            ).contains(x) by {
                if x == id {
                    if q != here {
                        assert(!c.callbacks_in(q).contains(id));
                    } else {
                        assert(!c.callbacks_in(p).contains(id));
                    }
                } else {
                    assert(c.callbacks_in(p).contains(x));
                    assert(!c.callbacks_in(q).contains(x));
                }
            }
        }
        assert(after.names_are_apart());
        assert(after.memory_is_sound());
    }
}

/// What pools hold in all can be counted.
proof fn lemma_pool_bytes_count(pools: Map<ObjectId, PoolModel>)
    requires
        pools.dom().finite(),
        forall|p: ObjectId| #[trigger] pools.contains_key(p) ==> pools[p].size <= MAX_POOL_SIZE,
    ensures
        sums::map_total(pools, pool_size()) <= MAX_POOL_SIZE * 0x1_0000_0000,
{
    let weight = |p: ObjectId| pool_size()(pools[p]);
    sums::lemma_few_keys(pools.dom());
    sums::lemma_total_bound(pools.dom(), weight, MAX_POOL_SIZE as nat);
    assert(MAX_POOL_SIZE * pools.dom().len() <= MAX_POOL_SIZE * 0x1_0000_0000) by (nonlinear_arith)
        requires
            pools.dom().len() <= 0x1_0000_0000,
    ;
}

proof fn lemma_create_pool(
    c: ClientModel,
    payload: Seq<u8>,
    server_bytes: u64,
    server_limit: u64,
    granted: bool,
)
    ensures
        keeps_sound(c, c.create_pool(payload, server_bytes, server_limit, granted).0),
{
    let step = c.create_pool(payload, server_bytes, server_limit, granted);
    let after = step.0;
    if c.is_sound() && step.1 is None {
        let request = requests::ShmCreatePool::held_by(payload);
        let id = request.new_id;
        let pool = PoolModel {
            size: request.size,
            storage: Seq::new(request.size as nat, |i: int| 0u8),
        };
        lemma_free_name(c, id);
        lemma_callbacks_stay(c, after);
        assert(after.names_are_apart());
        sums::lemma_map_insert(c.pools, pool_size(), id, pool);
        assert(after.pools == c.pools.insert(id, pool));
        lemma_pool_bytes_count(after.pools);
        assert forall|b: ObjectId| #[trigger] after.buffers.contains_key(b) implies after.is_backed(
            b,
        ) by {
            assert(c.is_backed(b));
        }
        assert(after.memory_is_sound());
    }
}

proof fn lemma_create_buffer(c: ClientModel, pool_id: ObjectId, payload: Seq<u8>)
    ensures
        keeps_sound(c, c.create_buffer(pool_id, payload).0),
{
    let step = c.create_buffer(pool_id, payload);
    let after = step.0;
    if c.is_sound() && step.1 is None {
        let request = requests::ShmPoolCreateBuffer::held_by(payload);
        lemma_free_name(c, request.new_id);
        lemma_callbacks_stay(c, after);
        assert(after.names_are_apart());
        assert forall|b: ObjectId| #[trigger] after.buffers.contains_key(b) implies after.is_backed(
            b,
        ) by {
            if b != request.new_id {
                assert(c.is_backed(b));
            }
        }
        lemma_nothing_overlaps(c, after);
        assert(after.memory_is_sound());
    }
}

/// What is shown stays apart while it stays the same.
proof fn lemma_nothing_overlaps(a: ClientModel, b: ClientModel)
    requires
        a.memory_is_sound(),
        forall|s: ObjectId| #[trigger]
            b.surfaces.contains_key(s) && b.surfaces[s].current_buffer is Some
                ==> a.surfaces.contains_key(s) && a.surfaces[s].current_buffer is Some
                && a.surfaces[s].current_buffer->0.buffer_id
                == b.surfaces[s].current_buffer->0.buffer_id,
        forall|id: ObjectId| #[trigger]
            a.buffers.contains_key(id) && a.is_current(id) ==> b.buffers.contains_key(id)
                && b.buffers[id] == a.buffers[id],
    ensures
        forall|s: ObjectId| #[trigger]
            b.surfaces.contains_key(s) && b.surfaces[s].current_buffer is Some
                ==> b.buffers.contains_key((b.surfaces[s].current_buffer->0).buffer_id),
        forall|s: ObjectId, t: ObjectId|
            s != t && #[trigger] b.surfaces.contains_key(s) && #[trigger] b.surfaces.contains_key(t)
                && b.surfaces[s].current_buffer is Some && b.surfaces[t].current_buffer is Some
                ==> !b.overlap(
                (b.surfaces[s].current_buffer->0).buffer_id,
                (b.surfaces[t].current_buffer->0).buffer_id,
            ),
{
    assert forall|s: ObjectId| #[trigger]
        b.surfaces.contains_key(s) && b.surfaces[s].current_buffer is Some implies ({
        let id = (b.surfaces[s].current_buffer->0).buffer_id;
        a.buffers.contains_key(id) && b.buffers.contains_key(id) && b.buffers[id] == a.buffers[id]
    }) by {
        let id = (b.surfaces[s].current_buffer->0).buffer_id;
        assert(a.surfaces.contains_key(s));
        assert(a.is_current(id));
        assert(a.buffers.contains_key(id));
    }
    assert forall|s: ObjectId, t: ObjectId|
        s != t && #[trigger] b.surfaces.contains_key(s) && #[trigger] b.surfaces.contains_key(t)
            && b.surfaces[s].current_buffer is Some && b.surfaces[t].current_buffer is Some implies !b.overlap(
        (b.surfaces[s].current_buffer->0).buffer_id,
        (b.surfaces[t].current_buffer->0).buffer_id,
    ) by {
        assert(a.surfaces.contains_key(s) && a.surfaces.contains_key(t));
        assert(!a.overlap(
            (a.surfaces[s].current_buffer->0).buffer_id,
            (a.surfaces[t].current_buffer->0).buffer_id,
        ));
    }
}

/// Writing into a pool changes no size.
proof fn lemma_with_storage(c: ClientModel, pool_id: ObjectId, storage: Seq<u8>)
    requires
        c.is_sound(),
        c.pools.contains_key(pool_id),
        storage.len() == c.pools[pool_id].storage.len(),
    ensures
        c.with_storage(pool_id, storage).is_sound(),
{
    let after = c.with_storage(pool_id, storage);
    let pool = PoolModel { size: c.pools[pool_id].size, storage };
    lemma_callbacks_stay(c, after);
    sums::lemma_map_insert(c.pools, pool_size(), pool_id, pool);
    assert forall|b: ObjectId| #[trigger] after.buffers.contains_key(b) implies after.is_backed(b) by {
        assert(c.is_backed(b));
    }
    lemma_nothing_overlaps(c, after);
    assert(after.names_are_apart()) by {
        assert forall|id: ObjectId| after.pools.contains_key(id) == c.pools.contains_key(id) by {
        }
    }
    assert(after.toplevels_are_sound());
}

proof fn lemma_rows_overlaid_len(
    storage: Seq<u8>,
    at: int,
    stride: int,
    row_bytes: int,
    data: Seq<u8>,
    rows: nat,
    all: nat,
)
    requires
        rows <= all,
        all > 0,
        0 <= at,
        0 <= row_bytes,
        0 <= stride,
        at + (all - 1) * stride + row_bytes <= storage.len(),
        data.len() == all * row_bytes,
    ensures
        model::rows_overlaid(storage, at, stride, row_bytes, data, rows).len() == storage.len(),
    decreases rows,
{
    if rows > 0 {
        lemma_rows_overlaid_len(storage, at, stride, row_bytes, data, (rows - 1) as nat, all);
        assert(0 <= (rows - 1) * stride <= (all - 1) * stride) by (nonlinear_arith)
            requires
                0 < rows <= all,
                0 <= stride,
        ;
        assert(0 <= (rows - 1) * row_bytes && (rows - 1) * row_bytes + row_bytes == rows * row_bytes
            && rows * row_bytes <= all * row_bytes) by (nonlinear_arith)
            requires
                0 < rows <= all,
                0 <= row_bytes,
        ;
    }
}

proof fn lemma_write_pool(c: ClientModel, pool_id: ObjectId, payload: Seq<u8>)
    ensures
        keeps_sound(c, c.write_pool(pool_id, payload).0),
{
    let step = c.write_pool(pool_id, payload);
    if c.is_sound() && step.1 is None {
        let at = crate::bytes::le32_at(payload, 0) as int;
        let data = payload.skip(4);
        lemma_with_storage(
            c,
            pool_id,
            model::overlaid(c.pools[pool_id].storage, at, data),
        );
    }
}

proof fn lemma_write_pool_rows(c: ClientModel, pool_id: ObjectId, payload: Seq<u8>)
    ensures
        keeps_sound(c, c.write_pool_rows(pool_id, payload).0),
{
    let step = c.write_pool_rows(pool_id, payload);
    if c.is_sound() && step.1 is None {
        let at = crate::bytes::le32_at(payload, 0);
        let row_bytes = crate::bytes::le32_at(payload, 4);
        let rows = crate::bytes::le32_at(payload, 8);
        let stride = crate::bytes::le32_at(payload, 12);
        let storage = c.pools[pool_id].storage;
        lemma_rows_overlaid_len(
            storage,
            at as int,
            stride as int,
            row_bytes as int,
            payload.skip(16),
            rows as nat,
            rows as nat,
        );
        lemma_with_storage(
            c,
            pool_id,
            model::rows_overlaid(
                storage,
                at as int,
                stride as int,
                row_bytes as int,
                payload.skip(16),
                rows as nat,
            ),
        );
    }
}

proof fn lemma_get_device(c: ClientModel, payload: Seq<u8>)
    ensures
        keeps_sound(c, c.get_pointer(payload).0),
        keeps_sound(c, c.get_keyboard(payload).0),
{
    let id = ObjectId(crate::bytes::le32_at(payload, 0));
    if c.is_sound() && c.install_fault(id) is None {
        lemma_with_object(c, id, Interface::Pointer);
        lemma_with_object(c, id, Interface::Keyboard);
        let pointer = c.get_pointer(payload);
        if pointer.1 is None {
            lemma_holds_same(c.with_object(id, Interface::Pointer), pointer.0);
        }
        let keyboard = c.get_keyboard(payload);
        if keyboard.1 is None {
            lemma_holds_same(c.with_object(id, Interface::Keyboard), keyboard.0);
        }
    }
}

proof fn lemma_get_toplevel(c: ClientModel, payload: Seq<u8>)
    ensures
        keeps_sound(c, c.get_toplevel(payload).0),
{
    let step = c.get_toplevel(payload);
    let after = step.0;
    if c.is_sound() && step.1 is None {
        let request = requests::XdgShellGetToplevel::held_by(payload);
        let id = request.new_id;
        lemma_free_name(c, id);
        assert forall|spot: Spot| #[trigger] after.callbacks_in(spot) == c.callbacks_in(spot) by {
        }
        lemma_callbacks_stay(c, after);
        lemma_nothing_overlaps(c, after);
        assert forall|b: ObjectId| #[trigger] after.buffers.contains_key(b) implies after.is_backed(
            b,
        ) by {
            assert(c.is_backed(b));
        }
        sums::lemma_map_insert(c.toplevels, text_size(), id, after.toplevels[id]);
        assert(after.names_are_apart());
        assert(after.memory_is_sound());
        assert(after.toplevels_are_sound());
    }
}

/// How far the buffers of a pool among the listed ones reach.
proof fn lemma_extent_among(c: ClientModel, pool_id: ObjectId, keys: Set<ObjectId>) -> (end: int)
    requires
        keys.finite(),
        keys.subset_of(c.buffers.dom()),
    ensures
        end >= 0,
        forall|b: ObjectId| #[trigger]
            keys.contains(b) && c.buffers[b].pool_id == pool_id ==> c.buffers[b].end() <= end,
        end == 0 || exists|b: ObjectId| #[trigger]
            c.buffers.contains_key(b) && c.buffers[b].pool_id == pool_id && c.buffers[b].end()
                == end,
    decreases keys.len(),
{
    if keys.len() == 0 {
        0
    } else {
        let first = keys.choose();
        let rest = lemma_extent_among(c, pool_id, keys.remove(first));
        c.buffers[first].lemma_end_fits();
        assert(c.buffers.contains_key(first));
        if c.buffers[first].pool_id == pool_id && c.buffers[first].end() > rest {
            c.buffers[first].end()
        } else {
            rest
        }
    }
}

proof fn lemma_resize_pool(
    c: ClientModel,
    pool_id: ObjectId,
    payload: Seq<u8>,
    server_bytes: u64,
    server_limit: u64,
    granted: bool,
)
    ensures
        keeps_sound(c, c.resize_pool(pool_id, payload, server_bytes, server_limit, granted).0),
{
    let step = c.resize_pool(pool_id, payload, server_bytes, server_limit, granted);
    let after = step.0;
    if c.is_sound() && step.1 is None {
        let size = crate::bytes::le32_at(payload, 0);
        let pool = c.pools[pool_id];
        let resized = PoolModel {
            size,
            storage: ClientModel::resized(pool.storage, size as nat),
        };
        let end = lemma_extent_among(c, pool_id, c.buffers.dom());
        assert(c.is_extent(pool_id, end));
        assert(c.is_extent(pool_id, c.pool_extent(pool_id)));
        sums::lemma_map_insert(c.pools, pool_size(), pool_id, resized);
        assert(after.pools == c.pools.insert(pool_id, resized));
        lemma_pool_bytes_count(c.pools);
        lemma_pool_bytes_count(after.pools);
        assert forall|b: ObjectId| #[trigger] after.buffers.contains_key(b) implies after.is_backed(
            b,
        ) by {
            assert(c.buffers.contains_key(b));
            assert(c.is_backed(b));
            if c.buffers[b].pool_id == pool_id {
                assert(c.buffers[b].end() <= c.pool_extent(pool_id));
            }
        }
        lemma_callbacks_stay(c, after);
        lemma_nothing_overlaps(c, after);
        assert(after.names_are_apart()) by {
            assert forall|id: ObjectId| after.pools.contains_key(id) == c.pools.contains_key(id) by {
            }
        }
        assert(after.memory_is_sound());
    }
}

proof fn lemma_retire(c: ClientModel, id: ObjectId)
    requires
        c.is_sound(),
        c.is_object(id, Interface::ShmPool) || c.is_object(id, Interface::Buffer),
    ensures
        c.retire(id).is_sound(),
{
    let after = c.retire(id);
    lemma_callbacks_stay(c, after);
    assert(after.names_are_apart());
    assert forall|b: ObjectId| #[trigger] after.buffers.contains_key(b) implies after.is_backed(b) by {
        assert(c.is_backed(b));
    }
    lemma_nothing_overlaps(c, after);
    assert(after.memory_is_sound());
}

/// A buffer that nobody holds can go.
proof fn lemma_bury_buffer(c: ClientModel, id: ObjectId)
    requires
        c.is_sound(),
        c.buffers.contains_key(id),
        !c.is_object(id, Interface::Buffer),
        !c.is_held(id),
    ensures
        c.bury_buffer(id).is_sound(),
{
    let fewer = ClientModel {
        buffers: c.buffers.remove(id),
        retired: c.retired.remove(id),
        ..c
    };
    lemma_callbacks_stay(c, fewer);
    assert(fewer.names_are_apart());
    assert forall|b: ObjectId| #[trigger] fewer.buffers.contains_key(b) implies fewer.is_backed(b) by {
        assert(c.buffers.contains_key(b));
        assert(c.is_backed(b));
    }
    assert forall|b: ObjectId| #[trigger]
        c.buffers.contains_key(b) && c.is_current(b) implies fewer.buffers.contains_key(b)
        && fewer.buffers[b] == c.buffers[b] by {
        let s = choose|s: ObjectId| #[trigger]
            c.surfaces.contains_key(s) && c.surfaces[s].current_buffer is Some
                && c.surfaces[s].current_buffer->0.buffer_id == b;
        assert(c.surfaces[s].holds(b));
        assert(c.is_held(b));
    }
    lemma_nothing_overlaps(c, fewer);
    assert(fewer.memory_is_sound());
    assert(fewer.toplevels_are_sound());
    lemma_holds_same(fewer, c.bury_buffer(id));
}

proof fn lemma_bury_buffers(c: ClientModel, ids: Seq<ObjectId>)
    requires
        c.is_sound(),
        ids.no_duplicates(),
        forall|i: int| 0 <= i < ids.len() ==> c.dead_buffers().contains(#[trigger] ids[i]),
    ensures
        c.bury_buffers(ids).is_sound(),
        c.bury_buffers(ids).objects == c.objects,
        c.bury_buffers(ids).surfaces == c.surfaces,
        c.bury_buffers(ids).pools == c.pools,
        forall|b: ObjectId| #[trigger]
            c.bury_buffers(ids).buffers.contains_key(b) == (c.buffers.contains_key(b)
                && !ids.contains(b)),
        forall|b: ObjectId| #[trigger]
            c.bury_buffers(ids).buffers.contains_key(b) ==> c.bury_buffers(ids).buffers[b]
                == c.buffers[b],
    decreases ids.len(),
{
    if ids.len() > 0 {
        let front = ids.drop_last();
        let id = ids.last();
        assert forall|i: int| 0 <= i < front.len() implies c.dead_buffers().contains(
            #[trigger] front[i],
        ) by {
            assert(front[i] == ids[i]);
        }
        lemma_bury_buffers(c, front);
        let before = c.bury_buffers(front);
        assert(ids[ids.len() - 1] == id);
        assert(c.dead_buffers().contains(id));
        assert(!front.contains(id)) by {
            if front.contains(id) {
                let i = choose|i: int| 0 <= i < front.len() && front[i] == id;
                assert(ids[i] == ids[ids.len() - 1]);
            }
        }
        assert(!before.is_held(id)) by {
            if before.is_held(id) {
                let s = choose|s: ObjectId| #[trigger]
                    before.surfaces.contains_key(s) && before.surfaces[s].holds(id);
                assert(c.surfaces.contains_key(s) && c.surfaces[s].holds(id));
                assert(c.is_held(id));
            }
        }
        lemma_bury_buffer(before, id);
        assert forall|b: ObjectId| ids.contains(b) == (front.contains(b) || b == id) by {
            if ids.contains(b) {
                let i = choose|i: int| 0 <= i < ids.len() && ids[i] == b;
                if i < front.len() {
                    assert(front[i] == b);
                }
            }
            if front.contains(b) {
                let i = choose|i: int| 0 <= i < front.len() && front[i] == b;
                assert(ids[i] == b);
            }
        }
    }
}

/// A pool without a name and without buffers can go.
proof fn lemma_bury_pool(c: ClientModel, id: ObjectId)
    requires
        c.is_sound(),
        c.pools.contains_key(id),
        !c.is_object(id, Interface::ShmPool),
        !c.has_buffers(id),
    ensures
        c.bury_pool(id).is_sound(),
{
    let fewer = ClientModel {
        pools: c.pools.remove(id),
        pool_bytes: c.pool_bytes.saturating_sub(c.pools[id].size as u64),
        retired: c.retired.remove(id),
        ..c
    };
    sums::lemma_map_remove(c.pools, pool_size(), id);
    lemma_callbacks_stay(c, fewer);
    assert(fewer.names_are_apart());
    assert forall|b: ObjectId| #[trigger] fewer.buffers.contains_key(b) implies fewer.is_backed(b) by {
        assert(c.buffers.contains_key(b));
        assert(c.is_backed(b));
        assert(c.buffers[b].pool_id != id);
    }
    lemma_nothing_overlaps(c, fewer);
    assert(fewer.memory_is_sound());
    assert(fewer.toplevels_are_sound());
    lemma_holds_same(fewer, c.bury_pool(id));
}

proof fn lemma_bury_pools(c: ClientModel, ids: Seq<ObjectId>)
    requires
        c.is_sound(),
        ids.no_duplicates(),
        forall|i: int| 0 <= i < ids.len() ==> c.dead_pools().contains(#[trigger] ids[i]),
    ensures
        c.bury_pools(ids).is_sound(),
        c.bury_pools(ids).objects == c.objects,
        c.bury_pools(ids).surfaces == c.surfaces,
        c.bury_pools(ids).buffers == c.buffers,
        forall|p: ObjectId| #[trigger]
            c.bury_pools(ids).pools.contains_key(p) == (c.pools.contains_key(p) && !ids.contains(
                p,
            )),
    decreases ids.len(),
{
    if ids.len() > 0 {
        let front = ids.drop_last();
        let id = ids.last();
        assert forall|i: int| 0 <= i < front.len() implies c.dead_pools().contains(
            #[trigger] front[i],
        ) by {
            assert(front[i] == ids[i]);
        }
        lemma_bury_pools(c, front);
        let before = c.bury_pools(front);
        assert(ids[ids.len() - 1] == id);
        assert(c.dead_pools().contains(id));
        assert(!front.contains(id)) by {
            if front.contains(id) {
                let i = choose|i: int| 0 <= i < front.len() && front[i] == id;
                assert(ids[i] == ids[ids.len() - 1]);
            }
        }
        assert(!before.has_buffers(id)) by {
            if before.has_buffers(id) {
                let b = choose|b: ObjectId| #[trigger]
                    before.buffers.contains_key(b) && before.buffers[b].pool_id == id;
                assert(c.buffers.contains_key(b));
                assert(c.has_buffers(id));
            }
        }
        lemma_bury_pool(before, id);
        assert forall|p: ObjectId| ids.contains(p) == (front.contains(p) || p == id) by {
            if ids.contains(p) {
                let i = choose|i: int| 0 <= i < ids.len() && ids[i] == p;
                if i < front.len() {
                    assert(front[i] == p);
                }
            }
            if front.contains(p) {
                let i = choose|i: int| 0 <= i < front.len() && front[i] == p;
                assert(ids[i] == p);
            }
        }
    }
}

/// Burying what is dead keeps a connection sound, and leaves nothing dead.
pub proof fn law_reap_leaves_nothing_dead(c: ClientModel)
    requires
        c.is_sound(),
    ensures
        c.reap().is_sound(),
        c.reap().is_reaped(),
        c.reap().objects == c.objects,
        c.reap().surfaces == c.surfaces,
        c.reap().toplevels == c.toplevels,
        c.reap().toplevel_metadata_bytes == c.toplevel_metadata_bytes,
        c.reap().toplevel_by_surface == c.toplevel_by_surface,
        c.reap().pool_bytes <= c.pool_bytes,
{
    reveal(ClientModel::reap);
    let dead = c.dead_buffers();
    vstd::set_lib::lemma_set_subset_finite(c.buffers.dom(), dead);
    ordered::law_ascending_keys_list_all(dead);
    let ids = ordered::ascending_keys(dead);
    assert forall|i: int| 0 <= i < ids.len() implies dead.contains(#[trigger] ids[i]) by {
        assert(ids.to_set().contains(ids[i]));
    }
    lemma_bury_buffers(c, ids);
    let fewer = c.bury_buffers(ids);
    let empty = fewer.dead_pools();
    vstd::set_lib::lemma_set_subset_finite(fewer.pools.dom(), empty);
    ordered::law_ascending_keys_list_all(empty);
    let pools = ordered::ascending_keys(empty);
    assert forall|i: int| 0 <= i < pools.len() implies empty.contains(#[trigger] pools[i]) by {
        assert(pools.to_set().contains(pools[i]));
    }
    lemma_bury_pools(fewer, pools);
    let after = c.reap();
    assert(after.dead_buffers() =~= Set::<ObjectId>::empty()) by {
        assert forall|b: ObjectId| !after.dead_buffers().contains(b) by {
            if after.dead_buffers().contains(b) {
                assert(fewer.buffers.contains_key(b));
                assert(!ids.contains(b));
                if c.is_held(b) {
                    let s = choose|s: ObjectId| #[trigger]
                        c.surfaces.contains_key(s) && c.surfaces[s].holds(b);
                    assert(after.surfaces.contains_key(s) && after.surfaces[s].holds(b));
                    assert(after.is_held(b));
                }
                assert(dead.contains(b));
                assert(ids.to_set().contains(b));
            }
        }
    }
    assert(after.dead_pools() =~= Set::<ObjectId>::empty()) by {
        assert forall|p: ObjectId| !after.dead_pools().contains(p) by {
            if after.dead_pools().contains(p) {
                assert(fewer.pools.contains_key(p));
                assert(!pools.contains(p));
                if fewer.has_buffers(p) {
                    let b = choose|b: ObjectId| #[trigger]
                        fewer.buffers.contains_key(b) && fewer.buffers[b].pool_id == p;
                    assert(after.buffers.contains_key(b));
                    assert(after.has_buffers(p));
                }
                assert(empty.contains(p));
                assert(pools.to_set().contains(p));
            }
        }
    }
    lemma_bury_frame(c, ids, pools);
}

/// Burying touches neither toplevels nor what pools hold beyond what goes.
proof fn lemma_bury_frame(c: ClientModel, ids: Seq<ObjectId>, pools: Seq<ObjectId>)
    ensures
        ({
            let after = c.bury_buffers(ids).bury_pools(pools);
            &&& after.toplevels == c.toplevels
            &&& after.toplevel_metadata_bytes == c.toplevel_metadata_bytes
            &&& after.toplevel_by_surface == c.toplevel_by_surface
            &&& after.pool_bytes <= c.pool_bytes
            &&& after.capabilities == c.capabilities
            &&& after.peer_pid == c.peer_pid
            &&& after.limits == c.limits
        }),
    decreases ids.len() + pools.len(),
{
    if pools.len() > 0 {
        lemma_bury_frame(c, ids, pools.drop_last());
    } else if ids.len() > 0 {
        lemma_bury_frame(c, ids.drop_last(), pools);
    }
}

/// What burying leaves alone.
pub(crate) broadcast proof fn lemma_reap_frame(c: ClientModel)
    ensures
        ({
            let after = #[trigger] c.reap();
            &&& after.toplevels == c.toplevels
            &&& after.toplevel_metadata_bytes == c.toplevel_metadata_bytes
            &&& after.pool_bytes <= c.pool_bytes
            &&& after.capabilities == c.capabilities
            &&& after.peer_pid == c.peer_pid
            &&& after.limits == c.limits
        }),
{
    reveal(ClientModel::reap);
    let ids = ordered::ascending_keys(c.dead_buffers());
    let fewer = c.bury_buffers(ids);
    lemma_bury_frame(c, ids, ordered::ascending_keys(fewer.dead_pools()));
}

/// The callbacks of a surface and the others are all callbacks, each once.
proof fn lemma_callbacks_split(awaiting: Seq<(ObjectId, ObjectId)>, surface_id: ObjectId)
    requires
        callback_ids(awaiting).no_duplicates(),
    ensures
        ({
            let all = callback_ids(awaiting);
            let of = model::callbacks_of(awaiting, surface_id);
            let others = callback_ids(model::callbacks_not_of(awaiting, surface_id));
            &&& of.no_duplicates()
            &&& others.no_duplicates()
            &&& forall|id: ObjectId| #[trigger] all.contains(id) == (of.contains(id)
                || others.contains(id))
            &&& forall|id: ObjectId| #[trigger] of.contains(id) ==> !others.contains(id)
        }),
    decreases awaiting.len(),
{
    let all = callback_ids(awaiting);
    let of = model::callbacks_of(awaiting, surface_id);
    let others = callback_ids(model::callbacks_not_of(awaiting, surface_id));
    if awaiting.len() > 0 {
        let front = awaiting.drop_last();
        let last = awaiting.last().1;
        let fewer = callback_ids(front);
        assert(all =~= fewer.push(last));
        lemma_pushed(fewer, last);
        assert(fewer.no_duplicates()) by {
            assert forall|i: int, j: int|
                0 <= i < fewer.len() && 0 <= j < fewer.len() && i != j implies fewer[i]
                != fewer[j] by {
                assert(all[i] != all[j]);
            }
        }
        assert(!fewer.contains(last)) by {
            if fewer.contains(last) {
                let i = choose|i: int| 0 <= i < fewer.len() && fewer[i] == last;
                assert(all[i] == all[fewer.len() as int]);
            }
        }
        lemma_callbacks_split(front, surface_id);
        let of_before = model::callbacks_of(front, surface_id);
        let others_before = callback_ids(model::callbacks_not_of(front, surface_id));
        if awaiting.last().0 == surface_id {
            assert(of == of_before.push(last));
            lemma_pushed(of_before, last);
        } else {
            assert(others =~= others_before.push(last));
            lemma_pushed(others_before, last);
        }
    }
}

/// One more in a sequence.
proof fn lemma_pushed(s: Seq<ObjectId>, id: ObjectId)
    ensures
        forall|x: ObjectId| #[trigger] s.push(id).contains(x) == (s.contains(x) || x == id),
        s.no_duplicates() && !s.contains(id) ==> s.push(id).no_duplicates(),
{
    let after = s.push(id);
    assert forall|x: ObjectId| #[trigger] after.contains(x) == (s.contains(x) || x == id) by {
        if s.contains(x) {
            let i = choose|i: int| 0 <= i < s.len() && s[i] == x;
            assert(after[i] == x);
        }
        assert(after[s.len() as int] == id);
    }
    if s.no_duplicates() && !s.contains(id) {
        assert forall|i: int, j: int|
            0 <= i < after.len() && 0 <= j < after.len() && i != j implies after[i] != after[j] by {
            if i == s.len() {
                assert(s.contains(s[j]));
            } else if j == s.len() {
                assert(s.contains(s[i]));
            }
        }
    }
}

/// One sequence after another.
proof fn lemma_appended(a: Seq<ObjectId>, b: Seq<ObjectId>)
    ensures
        forall|x: ObjectId| #[trigger] (a + b).contains(x) == (a.contains(x) || b.contains(x)),
        a.no_duplicates() && b.no_duplicates() && (forall|x: ObjectId|
            a.contains(x) ==> !#[trigger] b.contains(x)) ==> (a + b).no_duplicates(),
{
    let both = a + b;
    assert forall|x: ObjectId| #[trigger] both.contains(x) == (a.contains(x) || b.contains(x)) by {
        if a.contains(x) {
            let i = choose|i: int| 0 <= i < a.len() && a[i] == x;
            assert(both[i] == x);
        }
        if b.contains(x) {
            let i = choose|i: int| 0 <= i < b.len() && b[i] == x;
            assert(both[a.len() + i] == x);
        }
        if both.contains(x) {
            let i = choose|i: int| 0 <= i < both.len() && both[i] == x;
            if i < a.len() {
                assert(a[i] == x);
            } else {
                assert(b[i - a.len()] == x);
            }
        }
    }
    if a.no_duplicates() && b.no_duplicates() && (forall|x: ObjectId|
        a.contains(x) ==> !#[trigger] b.contains(x)) {
        assert forall|i: int, j: int|
            0 <= i < both.len() && 0 <= j < both.len() && i != j implies both[i] != both[j] by {
            if i < a.len() && j >= a.len() {
                assert(a.contains(a[i]));
                assert(b.contains(b[j - a.len()]));
            } else if j < a.len() && i >= a.len() {
                assert(a.contains(a[j]));
                assert(b.contains(b[i - a.len()]));
            }
        }
    }
}

proof fn lemma_asked_by(surface_id: ObjectId, callbacks: Seq<ObjectId>)
    ensures
        callback_ids(model::asked_by(surface_id, callbacks)) == callbacks,
{
    assert(callback_ids(model::asked_by(surface_id, callbacks)) =~= callbacks);
}

/// A connection without a surface: its callbacks are to be given back.
pub open spec fn without_surface(c: ClientModel, surface_id: ObjectId) -> ClientModel {
    let pending = if c.surfaces.contains_key(surface_id) {
        c.surfaces[surface_id].pending_frame_callbacks
    } else {
        Seq::empty()
    };
    ClientModel {
        surfaces: c.surfaces.remove(surface_id),
        awaiting: model::callbacks_not_of(c.awaiting, surface_id),
        ready: c.ready.push(
            BatchModel {
                callback_data: None,
                callbacks: model::asked_by(
                    surface_id,
                    model::callbacks_of(c.awaiting, surface_id) + pending,
                ),
                surface_delete_id: Some(surface_id),
            },
        ),
        ..c.retire(surface_id)
    }
}

proof fn lemma_without_surface(c: ClientModel, surface_id: ObjectId)
    requires
        c.is_sound(),
        c.is_object(surface_id, Interface::Surface),
        !c.toplevel_by_surface.contains_key(surface_id),
    ensures
        without_surface(c, surface_id).is_sound(),
{
    let after = without_surface(c, surface_id);
    let n = c.ready.len() as int;
    let here = Spot::Pending(surface_id);
    let pending = c.callbacks_in(here);
    let waiting = c.callbacks_in(Spot::Waiting);
    let of = model::callbacks_of(c.awaiting, surface_id);
    assert(waiting.no_duplicates());
    lemma_callbacks_split(c.awaiting, surface_id);
    lemma_asked_by(surface_id, of + pending);
    assert(pending.no_duplicates());
    assert forall|x: ObjectId| of.contains(x) implies !#[trigger] pending.contains(x) by {
        assert(waiting.contains(x));
        assert(!c.callbacks_in(here).contains(x));
    }
    lemma_appended(of, pending);
    assert(after.callbacks_in(Spot::Batch(n)) == of + pending);
    assert(after.callbacks_in(here) == Seq::<ObjectId>::empty());
    // Where each callback was before.
    assert forall|spot: Spot, x: ObjectId| #[trigger]
        after.callbacks_in(spot).contains(x) implies ({
        let was = if spot == Spot::Batch(n) {
            if of.contains(x) {
                Spot::Waiting
            } else {
                here
            }
        } else {
            spot
        };
        c.callbacks_in(was).contains(x) && spot != here
    }) by {
        if spot == Spot::Waiting {
            assert(waiting.contains(x));
        } else if spot != Spot::Batch(n) {
            assert(after.callbacks_in(spot) == c.callbacks_in(spot));
        }
    }
    assert(after.callbacks_are_apart()) by {
        assert forall|spot: Spot| (#[trigger] after.callbacks_in(spot)).no_duplicates() by {
            if spot != Spot::Batch(n) && spot != Spot::Waiting && spot != here {
                assert(after.callbacks_in(spot) == c.callbacks_in(spot));
                assert(c.callbacks_in(spot).no_duplicates());
            }
        }
        assert forall|spot: Spot, x: ObjectId| #[trigger]
            after.callbacks_in(spot).contains(x) implies after.is_object(
            x,
            Interface::Callback,
        ) by {
            let was = if spot == Spot::Batch(n) {
                if of.contains(x) {
                    Spot::Waiting
                } else {
                    here
                }
            } else {
                spot
            };
            assert(c.callbacks_in(was).contains(x));
            assert(c.is_object(x, Interface::Callback));
        }
        assert forall|p: Spot, q: Spot, x: ObjectId|
            p != q && #[trigger] after.callbacks_in(p).contains(x) implies !#[trigger] after.callbacks_in(
            q,
        ).contains(x) by {
            if after.callbacks_in(q).contains(x) {
                let was_p = if p == Spot::Batch(n) {
                    if of.contains(x) {
                        Spot::Waiting
                    } else {
                        here
                    }
                } else {
                    p
                };
                let was_q = if q == Spot::Batch(n) {
                    if of.contains(x) {
                        Spot::Waiting
                    } else {
                        here
                    }
                } else {
                    q
                };
                assert(c.callbacks_in(was_p).contains(x));
                assert(c.callbacks_in(was_q).contains(x));
                assert(was_p == was_q);
                // Both were waiting, and one still is.
                assert(of.contains(x));
            }
        }
    }
    assert(after.names_are_apart()) by {
        assert forall|i: int|
            0 <= i < after.ready.len() && (
            #[trigger] after.ready[i]).surface_delete_id is Some implies ({
            let id = after.ready[i].surface_delete_id->0;
            after.retired.contains(id) && !after.buffers.contains_key(id)
                && !after.pools.contains_key(id)
        }) by {
            if i < n {
                assert(after.ready[i] == c.ready[i]);
            }
        }
        assert forall|i: int, j: int|
            0 <= i < j < after.ready.len() && (
            #[trigger] after.ready[i]).surface_delete_id is Some implies after.ready[i].surface_delete_id
            != (#[trigger] after.ready[j]).surface_delete_id by {
            assert(after.ready[i] == c.ready[i]);
            if j < n {
                assert(after.ready[j] == c.ready[j]);
            } else {
                assert(c.retired.contains(c.ready[i].surface_delete_id->0));
            }
        }
    }
    assert forall|b: ObjectId| #[trigger] after.buffers.contains_key(b) implies after.is_backed(b) by {
        assert(c.is_backed(b));
    }
    lemma_nothing_overlaps(c, after);
    assert(after.memory_is_sound());
    assert(after.toplevels_are_sound());
}

proof fn lemma_release(c: ClientModel, buffer_id: Option<ObjectId>)
    requires
        c.is_sound(),
    ensures
        c.release(buffer_id).is_sound(),
        c.release(buffer_id).holds_same(c),
{
    lemma_holds_same(c, c.release(buffer_id));
}

proof fn lemma_destroy_surface(c: ClientModel, surface_id: ObjectId)
    requires
        c.is_object(surface_id, Interface::Surface),
    ensures
        keeps_sound(c, c.destroy_surface(surface_id).0),
{
    let step = c.destroy_surface(surface_id);
    if c.is_sound() && step.1 is None {
        lemma_without_surface(c, surface_id);
        let shown = if c.surfaces.contains_key(surface_id)
            && c.surfaces[surface_id].current_buffer is Some {
            Some(c.surfaces[surface_id].current_buffer->0.buffer_id)
        } else {
            None
        };
        let gone = without_surface(c, surface_id);
        lemma_release(gone, shown);
        law_reap_leaves_nothing_dead(gone.release(shown));
        assert(step.0 == gone.release(shown).reap());
    }
}

/// A surface whose callbacks and shown buffer stay.
proof fn lemma_surface_change(c: ClientModel, surface_id: ObjectId, surface: SurfaceModel)
    requires
        c.is_sound(),
        c.surfaces.contains_key(surface_id),
        surface.pending_frame_callbacks == c.surfaces[surface_id].pending_frame_callbacks,
        surface.current_buffer == c.surfaces[surface_id].current_buffer
            || surface.current_buffer is None,
    ensures
        (ClientModel { surfaces: c.surfaces.insert(surface_id, surface), ..c }).is_sound(),
{
    let after = ClientModel { surfaces: c.surfaces.insert(surface_id, surface), ..c };
    assert forall|spot: Spot| #[trigger] after.callbacks_in(spot) == c.callbacks_in(spot) by {
    }
    lemma_callbacks_stay(c, after);
    assert forall|b: ObjectId| #[trigger] after.buffers.contains_key(b) implies after.is_backed(b) by {
        assert(c.is_backed(b));
    }
    lemma_nothing_overlaps(c, after);
}

proof fn lemma_detach_surface(c: ClientModel, surface_id: ObjectId)
    ensures
        keeps_sound(c, c.detach_surface(surface_id)),
        c.is_sound() ==> c.detach_surface(surface_id).is_reaped(),
{
    if c.is_sound() {
        if c.surfaces.contains_key(surface_id) {
            let surface = c.surfaces[surface_id];
            let bare = SurfaceModel {
                pending_buffer: None,
                pending_attach: false,
                pending_damage: Seq::empty(),
                pending_damage_unprovable: false,
                current_buffer: None,
                ..surface
            };
            lemma_surface_change(c, surface_id, bare);
            let mid = ClientModel { surfaces: c.surfaces.insert(surface_id, bare), ..c };
            let shown = if surface.current_buffer is Some {
                Some(surface.current_buffer->0.buffer_id)
            } else {
                None
            };
            lemma_release(mid, shown);
            law_reap_leaves_nothing_dead(mid.release(shown));
        } else {
            law_reap_leaves_nothing_dead(c);
        }
    }
}

proof fn lemma_attach(c: ClientModel, surface_id: ObjectId, payload: Seq<u8>)
    ensures
        keeps_sound(c, c.attach(surface_id, payload).0),
{
    let step = c.attach(surface_id, payload);
    if c.is_sound() && step.1 is None {
        lemma_surface_change(c, surface_id, step.0.surfaces[surface_id]);
    }
}

proof fn lemma_damage(c: ClientModel, surface_id: ObjectId, payload: Seq<u8>)
    ensures
        keeps_sound(c, c.damage(surface_id, payload).0),
{
    let step = c.damage(surface_id, payload);
    if c.is_sound() && step.1 is None && c.limits.damage_rects_per_surface > 0 {
        lemma_surface_change(c, surface_id, step.0.surfaces[surface_id]);
    }
}

/// Where no fault is found, no surface has one.
proof fn lemma_alias_fault_among(
    c: ClientModel,
    ids: Seq<ObjectId>,
    surface_id: ObjectId,
    candidate: ObjectId,
    from: nat,
    other: ObjectId,
)
    requires
        c.alias_fault_among(ids, surface_id, candidate, from) is None,
        ids.skip(from as int).contains(other),
        from <= ids.len(),
    ensures
        c.alias_fault(surface_id, candidate, other) is None,
    decreases ids.len() - from,
{
    let rest = ids.skip(from as int);
    let i = choose|i: int| 0 <= i < rest.len() && rest[i] == other;
    if i > 0 {
        let fewer = ids.skip(from as int + 1);
        assert(fewer[i - 1] == other);
        lemma_alias_fault_among(c, ids, surface_id, candidate, from + 1, other);
    }
}

/// The next callbacks wait for the picture.
pub open spec fn with_commit(
    c: ClientModel,
    surface_id: ObjectId,
    surface: SurfaceModel,
) -> ClientModel {
    ClientModel {
        surfaces: c.surfaces.insert(surface_id, surface),
        awaiting: c.awaiting + model::asked_by(
            surface_id,
            c.surfaces[surface_id].pending_frame_callbacks,
        ),
        ..c
    }
}

proof fn lemma_commit_callbacks(c: ClientModel, surface_id: ObjectId, surface: SurfaceModel)
    requires
        c.callbacks_are_apart(),
        c.surfaces.contains_key(surface_id),
        surface.pending_frame_callbacks == Seq::<ObjectId>::empty(),
    ensures
        with_commit(c, surface_id, surface).callbacks_are_apart(),
{
    let after = with_commit(c, surface_id, surface);
    let here = Spot::Pending(surface_id);
    let pending = c.callbacks_in(here);
    let waiting = c.callbacks_in(Spot::Waiting);
    assert(waiting.no_duplicates() && pending.no_duplicates());
    assert forall|x: ObjectId| waiting.contains(x) implies !#[trigger] pending.contains(x) by {
        assert(c.callbacks_in(Spot::Waiting).contains(x));
        assert(!c.callbacks_in(here).contains(x));
    }
    lemma_appended(waiting, pending);
    assert(after.callbacks_in(Spot::Waiting) =~= waiting + pending);
    assert(after.callbacks_in(here) == Seq::<ObjectId>::empty());
    assert forall|spot: Spot| spot != here && spot != Spot::Waiting implies #[trigger] after.callbacks_in(
        spot,
    ) == c.callbacks_in(spot) by {
    }
    assert forall|spot: Spot, x: ObjectId| #[trigger]
        after.callbacks_in(spot).contains(x) implies spot != here && (c.callbacks_in(spot).contains(
        x,
    ) || (spot == Spot::Waiting && c.callbacks_in(here).contains(x))) by {
    }
    assert forall|spot: Spot| (#[trigger] after.callbacks_in(spot)).no_duplicates() by {
        if spot != here && spot != Spot::Waiting {
            assert(c.callbacks_in(spot).no_duplicates());
        }
    }
    assert forall|spot: Spot, x: ObjectId| #[trigger]
        after.callbacks_in(spot).contains(x) implies after.is_object(x, Interface::Callback) by {
        if c.callbacks_in(spot).contains(x) {
            assert(c.is_object(x, Interface::Callback));
        } else {
            assert(c.callbacks_in(here).contains(x));
            assert(c.is_object(x, Interface::Callback));
        }
    }
    assert forall|p: Spot, q: Spot, x: ObjectId|
        p != q && #[trigger] after.callbacks_in(p).contains(x) implies !#[trigger] after.callbacks_in(
        q,
    ).contains(x) by {
        if after.callbacks_in(q).contains(x) {
            let was_p = if c.callbacks_in(p).contains(x) {
                p
            } else {
                here
            };
            let was_q = if c.callbacks_in(q).contains(x) {
                q
            } else {
                here
            };
            assert(c.callbacks_in(was_p).contains(x) && c.callbacks_in(was_q).contains(x));
            assert(was_p == was_q);
        }
    }
}

/// What a surface shows next is apart from what the others show.
proof fn lemma_commit_memory(c: ClientModel, surface_id: ObjectId, surface: SurfaceModel)
    requires
        c.is_sound(),
        c.commit_fault(surface_id) is None,
        surface.current_buffer == if c.surfaces[surface_id].pending_attach {
            c.surfaces[surface_id].pending_buffer
        } else {
            c.surfaces[surface_id].current_buffer
        },
    ensures
        with_commit(c, surface_id, surface).memory_is_sound(),
{
    let after = with_commit(c, surface_id, surface);
    assert forall|b: ObjectId| #[trigger] after.buffers.contains_key(b) implies after.is_backed(b) by {
        assert(c.is_backed(b));
    }
    if c.surfaces[surface_id].pending_attach && surface.current_buffer is Some {
        let candidate = surface.current_buffer->0.buffer_id;
        let ids = ordered::ascending_keys(c.surfaces.dom());
        ordered::law_ascending_keys_list_all(c.surfaces.dom());
        assert forall|t: ObjectId|
            t != surface_id && #[trigger] c.surfaces.contains_key(t)
                && c.surfaces[t].current_buffer is Some implies !c.overlap(
            candidate,
            (c.surfaces[t].current_buffer->0).buffer_id,
        ) by {
            assert(ids.to_set().contains(t));
            assert(ids.skip(0) =~= ids);
            lemma_alias_fault_among(c, ids, surface_id, candidate, 0, t);
        }
        assert(after.buffers.contains_key(candidate));
    } else {
        lemma_nothing_overlaps(c, after);
    }
}

proof fn lemma_commit(c: ClientModel, surface_id: ObjectId)
    ensures
        keeps_sound(c, c.commit(surface_id).0),
{
    let step = c.commit(surface_id);
    if c.is_sound() && step.1 is None {
        let surface = c.surfaces[surface_id];
        let shown = if surface.pending_attach {
            surface.pending_buffer
        } else {
            surface.current_buffer
        };
        let before = if surface.current_buffer is Some {
            Some(surface.current_buffer->0.buffer_id)
        } else {
            None
        };
        let after = if shown is Some {
            Some(shown->0.buffer_id)
        } else {
            None
        };
        let next = SurfaceModel {
            current_buffer: shown,
            pending_buffer: if surface.pending_attach {
                None
            } else {
                surface.pending_buffer
            },
            pending_attach: false,
            pending_damage: Seq::empty(),
            pending_damage_unprovable: false,
            commit_count: surface.commit_count.saturating_add(1),
            pending_frame_callbacks: Seq::empty(),
            ..surface
        };
        let mid = with_commit(c, surface_id, next);
        lemma_commit_callbacks(c, surface_id, next);
        lemma_commit_memory(c, surface_id, next);
        assert(mid.names_are_apart());
        assert(mid.toplevels_are_sound());
        lemma_release(
            mid,
            if before != after {
                before
            } else {
                None
            },
        );
    }
}

proof fn lemma_patch(c: ClientModel, surface_id: ObjectId, payload: Seq<u8>)
    ensures
        keeps_sound(c, c.patch(surface_id, payload).0),
{
    let step = c.patch(surface_id, payload);
    if c.is_sound() && step.1 is None {
        let x = crate::bytes::le32_at(payload, 0) as i32;
        let y = crate::bytes::le32_at(payload, 4) as i32;
        let width = crate::bytes::le32_at(payload, 8);
        let height = crate::bytes::le32_at(payload, 12);
        let surface = c.surfaces[surface_id];
        let buffer = c.buffers[surface.current_buffer->0.buffer_id];
        let storage = c.pools[buffer.pool_id].storage;
        let at = buffer.offset + y * buffer.stride + 4 * x;
        let overlaid = model::rows_overlaid(
            storage,
            at,
            buffer.stride as int,
            4 * width,
            payload.skip(16),
            height as nat,
        );
        assert(0 <= y * buffer.stride && y * buffer.stride + (height - 1) * buffer.stride
            + buffer.stride <= buffer.height * buffer.stride) by (nonlinear_arith)
            requires
                0 <= y,
                0 < height,
                y + height <= buffer.height,
                0 <= buffer.stride,
        ;
        assert(height * (4 * width) == 4 * (width * height)) by (nonlinear_arith);
        lemma_rows_overlaid_len(
            storage,
            at,
            buffer.stride as int,
            4 * width,
            payload.skip(16),
            height as nat,
            height as nat,
        );
        lemma_with_storage(c, buffer.pool_id, overlaid);
        lemma_surface_change(
            c.with_storage(buffer.pool_id, overlaid),
            surface_id,
            SurfaceModel { commit_count: surface.commit_count.saturating_add(1), ..surface },
        );
    }
}

/// Titles and application ids are few enough to be counted.
proof fn lemma_text_count(toplevels: Map<ObjectId, ToplevelModel>)
    requires
        toplevels.dom().finite(),
        forall|t: ObjectId| #[trigger]
            toplevels.contains_key(t) ==> toplevels[t].title.len() + toplevels[t].app_id.len()
                <= MAX_TOPLEVEL_METADATA_BYTES,
    ensures
        sums::map_total(toplevels, text_size()) <= 0x1_0000_0000 * MAX_TOPLEVEL_METADATA_BYTES,
{
    let size = text_size();
    let weight = |t: ObjectId| size(toplevels[t]);
    let most = MAX_TOPLEVEL_METADATA_BYTES as nat;
    assert forall|t: ObjectId| #[trigger] toplevels.dom().contains(t) implies weight(t) <= most by {
        assert(toplevels.contains_key(t));
    }
    sums::lemma_total_bound(toplevels.dom(), weight, most);
    sums::lemma_few_keys(toplevels.dom());
    assert(most * toplevels.dom().len() <= most * 0x1_0000_0000) by (nonlinear_arith)
        requires
            toplevels.dom().len() <= 0x1_0000_0000,
    ;
}

/// Another title, application id or state of a toplevel.
proof fn lemma_toplevel_change(c: ClientModel, id: ObjectId, toplevel: ToplevelModel, bytes: u64)
    requires
        c.is_sound(),
        c.toplevels.contains_key(id),
        toplevel.surface_id == c.toplevels[id].surface_id,
        toplevel.title.len() + toplevel.app_id.len() <= MAX_TOPLEVEL_METADATA_BYTES,
        bytes == c.toplevel_metadata_bytes - text_size()(c.toplevels[id]) + text_size()(toplevel),
        bytes <= c.limits.toplevel_metadata_bytes,
    ensures
        (ClientModel {
            toplevels: c.toplevels.insert(id, toplevel),
            toplevel_metadata_bytes: bytes,
            ..c
        }).is_sound(),
{
    let after = ClientModel {
        toplevels: c.toplevels.insert(id, toplevel),
        toplevel_metadata_bytes: bytes,
        ..c
    };
    assert forall|spot: Spot| #[trigger] after.callbacks_in(spot) == c.callbacks_in(spot) by {
    }
    lemma_callbacks_stay(c, after);
    assert forall|b: ObjectId| #[trigger] after.buffers.contains_key(b) implies after.is_backed(b) by {
        assert(c.is_backed(b));
    }
    lemma_nothing_overlaps(c, after);
    sums::lemma_map_insert(c.toplevels, text_size(), id, toplevel);
    assert(after.names_are_apart()) by {
        assert forall|t: ObjectId| after.toplevels.contains_key(t) == c.toplevels.contains_key(
            t,
        ) by {
        }
    }
    assert(after.memory_is_sound());
    assert(after.toplevels_are_sound());
}

/// A new title or application id, with its bytes counted.
proof fn lemma_set_text(
    c: ClientModel,
    target: ObjectId,
    opcode: u16,
    payload: Seq<u8>,
    server_bytes: u64,
    server_limit: u64,
)
    requires
        c.is_sound(),
        opcode == 1 || opcode == 2,
        c.metadata_fault(
            target,
            Interface::XdgToplevel,
            opcode,
            payload,
            server_bytes,
            server_limit,
        ) is None,
        c.apply_toplevel_state(target, Interface::XdgToplevel, opcode, payload).1 is None,
    ensures
        (ClientModel {
            toplevel_metadata_bytes: c.metadata_after(
                target,
                Interface::XdgToplevel,
                opcode,
                payload,
            ),
            ..c.apply_toplevel_state(target, Interface::XdgToplevel, opcode, payload).0
        }).is_sound(),
{
    let toplevel = c.toplevels[target];
    let text = crate::text::text_at(payload, 0);
    let next = if opcode == 1 {
        ToplevelModel { title: text, ..toplevel }
    } else {
        ToplevelModel { app_id: text, ..toplevel }
    };
    lemma_text_count(c.toplevels);
    sums::lemma_map_insert(c.toplevels, text_size(), target, next);
    assert(text.len() <= u32::MAX);
    lemma_toplevel_change(
        c,
        target,
        next,
        c.metadata_after(target, Interface::XdgToplevel, opcode, payload),
    );
}

/// The creating part of a request.
pub(crate) proof fn lemma_auto_install(
    c: ClientModel,
    target: ObjectId,
    interface: Interface,
    opcode: u16,
    payload: Seq<u8>,
    server_bytes: u64,
    server_limit: u64,
    granted: bool,
)
    ensures
        keeps_sound(
            c,
            c.auto_install(
                target,
                interface,
                opcode,
                payload,
                server_bytes,
                server_limit,
                granted,
            ).0,
        ),
{
    if c.is_sound() {
        let id = ObjectId(crate::bytes::le32_at(payload, 0));
        if interface == Interface::Display && c.install_fault(id) is None {
            lemma_with_object(c, id, Interface::Callback);
            lemma_with_object(c, id, Interface::Registry);
        }
        lemma_bind(c, payload);
        lemma_create_surface(c, payload);
        lemma_ask_frame(c, target, payload);
        lemma_create_pool(c, payload, server_bytes, server_limit, granted);
        lemma_create_buffer(c, target, payload);
        lemma_write_pool(c, target, payload);
        lemma_write_pool_rows(c, target, payload);
        lemma_get_device(c, payload);
        lemma_get_toplevel(c, payload);
    }
}

/// The ending part of a request.
proof fn lemma_apply_resource_lifecycle(
    c: ClientModel,
    target: ObjectId,
    interface: Interface,
    opcode: u16,
    payload: Seq<u8>,
    server_bytes: u64,
    server_limit: u64,
    granted: bool,
)
    requires
        c.is_object(target, interface),
    ensures
        keeps_sound(
            c,
            c.apply_resource_lifecycle(
                target,
                interface,
                opcode,
                payload,
                server_bytes,
                server_limit,
                granted,
            ).0,
        ),
{
    if c.is_sound() {
        if interface == Interface::ShmPool || interface == Interface::Buffer {
            lemma_retire(c, target);
            law_reap_leaves_nothing_dead(c.retire(target));
        }
        if interface == Interface::Surface {
            lemma_destroy_surface(c, target);
        }
        lemma_resize_pool(c, target, payload, server_bytes, server_limit, granted);
    }
}

proof fn lemma_apply_surface_state(
    c: ClientModel,
    surface_id: ObjectId,
    interface: Interface,
    opcode: u16,
    payload: Seq<u8>,
)
    ensures
        keeps_sound(c, c.apply_surface_state(surface_id, interface, opcode, payload).0),
{
    lemma_attach(c, surface_id, payload);
    lemma_damage(c, surface_id, payload);
    lemma_commit(c, surface_id);
    lemma_patch(c, surface_id, payload);
}

/// Whether what nobody names or shows is gone depends on names, memory and
/// surfaces alone.
pub(crate) proof fn lemma_stays_reaped(a: ClientModel, b: ClientModel)
    requires
        a.is_reaped(),
        b.buffers == a.buffers,
        b.pools == a.pools,
        b.surfaces == a.surfaces,
        forall|id: ObjectId|
            a.is_object(id, Interface::Buffer) == #[trigger] b.is_object(id, Interface::Buffer),
        forall|id: ObjectId|
            a.is_object(id, Interface::ShmPool) == #[trigger] b.is_object(id, Interface::ShmPool),
    ensures
        b.is_reaped(),
{
    assert forall|id: ObjectId| a.is_held(id) == b.is_held(id) by {
    }
    assert forall|id: ObjectId| a.has_buffers(id) == b.has_buffers(id) by {
    }
    assert(b.dead_buffers() =~= a.dead_buffers());
    assert(b.dead_pools() =~= a.dead_pools());
}

/// The parts of a request that change state. A request that sets a text leaves
/// its bytes to be counted.
proof fn lemma_mutated(
    c: ClientModel,
    target: ObjectId,
    interface: Interface,
    opcode: u16,
    payload: Seq<u8>,
    budgets: ServerResourceBudgets,
    granted: bool,
)
    requires
        c.is_sound(),
        c.is_object(target, interface),
        interface != Interface::XdgToplevel || (opcode != 1 && opcode != 2),
    ensures
        ({
            let after = c.mutated(target, interface, opcode, payload, budgets, granted);
            &&& after.0.is_sound()
            &&& after.1 is None ==> after.0.is_reaped()
        }),
{
    reveal(ClientModel::mutated);
    let created = c.auto_install(
        target,
        interface,
        opcode,
        payload,
        budgets.pool_bytes,
        budgets.pool_byte_limit,
        granted,
    );
    lemma_auto_install(
        c,
        target,
        interface,
        opcode,
        payload,
        budgets.pool_bytes,
        budgets.pool_byte_limit,
        granted,
    );
    if created.1 is Some {
        lemma_holds_same(created.0, created.0.report(target, created.1->0));
    } else {
        assert(created.0.is_object(target, interface)) by {
            lemma_target_stays(
                c,
                target,
                interface,
                opcode,
                payload,
                budgets.pool_bytes,
                budgets.pool_byte_limit,
                granted,
            );
        }
        let ended = created.0.apply_resource_lifecycle(
            target,
            interface,
            opcode,
            payload,
            budgets.pool_bytes,
            budgets.pool_byte_limit,
            granted,
        );
        lemma_apply_resource_lifecycle(
            created.0,
            target,
            interface,
            opcode,
            payload,
            budgets.pool_bytes,
            budgets.pool_byte_limit,
            granted,
        );
        if ended.1 is Some {
            lemma_holds_same(ended.0, ended.0.report(target, ended.1->0));
        } else {
            let shown = ended.0.apply_surface_state(target, interface, opcode, payload);
            lemma_apply_surface_state(ended.0, target, interface, opcode, payload);
            if shown.1 is None {
                law_reap_leaves_nothing_dead(shown.0);
                let buried = shown.0.reap();
                let after = buried.apply_toplevel_state(target, interface, opcode, payload);
                if after.1 is None && after.0 != buried {
                    let toplevel = buried.toplevels[target];
                    lemma_toplevel_change(
                        buried,
                        target,
                        after.0.toplevels[target],
                        buried.toplevel_metadata_bytes,
                    );
                }
                lemma_stays_reaped(buried, after.0);
            }
        }
    }
}

/// What a request is made of is still there once it has created something.
proof fn lemma_target_stays(
    c: ClientModel,
    target: ObjectId,
    interface: Interface,
    opcode: u16,
    payload: Seq<u8>,
    server_bytes: u64,
    server_limit: u64,
    granted: bool,
)
    requires
        c.is_object(target, interface),
    ensures
        ({
            let created = c.auto_install(
                target,
                interface,
                opcode,
                payload,
                server_bytes,
                server_limit,
                granted,
            );
            created.1 is None ==> created.0.is_object(target, interface)
        }),
{
}

/// A request that sets a text, as far as it changes the connection.
proof fn lemma_mutated_text(
    c: ClientModel,
    target: ObjectId,
    opcode: u16,
    payload: Seq<u8>,
    budgets: ServerResourceBudgets,
    granted: bool,
)
    requires
        c.is_sound(),
        opcode == 1 || opcode == 2,
        c.metadata_fault(
            target,
            Interface::XdgToplevel,
            opcode,
            payload,
            budgets.toplevel_metadata_bytes,
            budgets.toplevel_metadata_byte_limit,
        ) is None,
    ensures
        ({
            let after = c.mutated(
                target,
                Interface::XdgToplevel,
                opcode,
                payload,
                budgets,
                granted,
            );
            let noted = ClientModel {
                toplevel_metadata_bytes: c.metadata_after(
                    target,
                    Interface::XdgToplevel,
                    opcode,
                    payload,
                ),
                ..after.0
            };
            &&& after.1 is Some ==> after.0.is_sound()
            &&& after.1 is None ==> noted.is_sound() && noted.is_reaped()
        }),
{
    reveal(ClientModel::mutated);
    law_reap_leaves_nothing_dead(c);
    let buried = c.reap();
    let after = buried.apply_toplevel_state(target, Interface::XdgToplevel, opcode, payload);
    bounds::lemma_reap_keeps_bounds(c);
    if after.1 is None {
        lemma_set_text(
            buried,
            target,
            opcode,
            payload,
            budgets.toplevel_metadata_bytes,
            budgets.toplevel_metadata_byte_limit,
        );
        lemma_stays_reaped(
            buried,
            ClientModel {
                toplevel_metadata_bytes: c.metadata_after(
                    target,
                    Interface::XdgToplevel,
                    opcode,
                    payload,
                ),
                ..after.0
            },
        );
    }
}

/// The answer to a sync gives back a name that nothing lists.
proof fn lemma_answer_sync(c: ClientModel, id: ObjectId)
    requires
        c.is_sound(),
        c.is_reaped(),
        c.is_object(id, Interface::Callback),
        forall|spot: Spot| !(#[trigger] c.callbacks_in(spot)).contains(id),
    ensures
        c.answer_sync(id).0.is_sound(),
        c.answer_sync(id).0.is_reaped(),
{
    let after = c.answer_sync(id).0;
    let without = c.without_object(id);
    assert(without.is_sound()) by {
        assert forall|spot: Spot| #[trigger] without.callbacks_in(spot) == c.callbacks_in(spot) by {
        }
        assert forall|spot: Spot, x: ObjectId| #[trigger]
            without.callbacks_in(spot).contains(x) implies without.is_object(
            x,
            Interface::Callback,
        ) by {
            assert(c.callbacks_in(spot).contains(x));
            assert(c.is_object(x, Interface::Callback));
        }
        assert(without.callbacks_are_apart()) by {
            assert forall|p: Spot, q: Spot, x: ObjectId|
                p != q && #[trigger] without.callbacks_in(p).contains(x) implies
                !#[trigger] without.callbacks_in(q).contains(x) by {
                assert(c.callbacks_in(p).contains(x));
                assert(without.callbacks_in(q) == c.callbacks_in(q));
            }
        }
        assert(without.names_are_apart());
        assert forall|b: ObjectId| #[trigger] without.buffers.contains_key(
            b,
        ) implies without.is_backed(b) by {
            assert(c.is_backed(b));
        }
        lemma_nothing_overlaps(c, without);
        assert(without.memory_is_sound());
    }
    if after.holds_same(c) {
        lemma_holds_same(c, after);
    } else {
        assert(after.holds_same(without));
        lemma_holds_same(without, after);
    }
    lemma_stays_reaped(c, after);
}

/// The last part of a request that was admitted.
proof fn lemma_noted(
    c: ClientModel,
    mid: ClientModel,
    entry: crate::client::HandledRequest,
    payload: Seq<u8>,
    sync: bool,
)
    requires
        c.is_sound(),
        mid.is_sound(),
        mid.is_reaped(),
        sync ==> {
            let id = ObjectId(crate::bytes::le32_at(payload, 0));
            &&& c.install_fault(id) is None
            &&& mid.is_object(id, Interface::Callback)
            &&& mid.surfaces == c.surfaces
            &&& mid.awaiting == c.awaiting
            &&& mid.ready == c.ready
        },
    ensures
        ({
            let noted = mid.journalled(entry);
            let after = if sync {
                noted.answer_sync(ObjectId(crate::bytes::le32_at(payload, 0))).0
            } else {
                noted
            };
            after.is_sound() && after.is_reaped()
        }),
{
    let noted = mid.journalled(entry);
    lemma_holds_same(mid, noted);
    lemma_stays_reaped(mid, noted);
    if sync {
        let id = ObjectId(crate::bytes::le32_at(payload, 0));
        lemma_free_name(c, id);
        assert forall|spot: Spot| !(#[trigger] noted.callbacks_in(spot)).contains(id) by {
            assert(noted.callbacks_in(spot) == c.callbacks_in(spot));
            if c.callbacks_in(spot).contains(id) {
                assert(c.is_object(id, Interface::Callback));
            }
        }
        lemma_answer_sync(noted, id);
    }
}

/// What a sync creates.
proof fn lemma_mutated_sync(
    c: ClientModel,
    target: ObjectId,
    payload: Seq<u8>,
    budgets: ServerResourceBudgets,
    granted: bool,
)
    requires
        c.is_sound(),
        c.is_reaped(),
    ensures
        ({
            let after = c.mutated(target, Interface::Display, 1, payload, budgets, granted);
            let id = ObjectId(crate::bytes::le32_at(payload, 0));
            &&& after.1 is Some ==> after.0.holds_same(c)
            &&& after.1 is None ==> {
                &&& c.install_fault(id) is None
                &&& after.0.is_object(id, Interface::Callback)
                &&& after.0.surfaces == c.surfaces
                &&& after.0.awaiting == c.awaiting
                &&& after.0.ready == c.ready
            }
        }),
{
    reveal(ClientModel::mutated);
    let id = ObjectId(crate::bytes::le32_at(payload, 0));
    if c.install_fault(id) is None {
        let with = c.with_object(id, Interface::Callback);
        lemma_free_name(c, id);
        lemma_stays_reaped(c, with);
        bounds::lemma_reaped(with);
    }
}

/// Whatever a client requests, its connection stays sound, and what it no
/// longer names or shows is gone.
pub proof fn law_dispatch_keeps_sound(
    c: ClientModel,
    header: MessageHeader,
    payload: Seq<u8>,
    budgets: ServerResourceBudgets,
    granted: bool,
)
    requires
        c.is_sound(),
        c.is_reaped(),
    ensures
        c.dispatched(header, payload, budgets, granted).0.is_sound(),
        c.dispatched(header, payload, budgets, granted).0.is_reaped(),
{
    reveal(ClientModel::dispatched);
    let target = header.object_id;
    let opcode = header.opcode;
    let step = c.dispatched(header, payload, budgets, granted);
    if c.objects.contains_key(target) {
        let interface = c.objects[target];
        let sync = interface == Interface::Display && opcode == 1;
        let after = c.mutated(target, interface, opcode, payload, budgets, granted);
        if sync {
            lemma_mutated_sync(c, target, payload, budgets, granted);
        } else if step.1 is Some {
            bounds::law_refused_dispatch_changes_nothing(c, header, payload, budgets, granted);
        }
        if step.1 is Some && step.0.holds_same(c) {
            lemma_holds_same(c, step.0);
            lemma_stays_reaped(c, step.0);
        } else {
            let wordy = interface == Interface::XdgToplevel && (opcode == 1 || opcode == 2);
            let mid = ClientModel {
                toplevel_metadata_bytes: if wordy {
                    c.metadata_after(target, interface, opcode, payload)
                } else {
                    after.0.toplevel_metadata_bytes
                },
                ..after.0
            };
            if wordy {
                lemma_mutated_text(c, target, opcode, payload, budgets, granted);
            } else {
                lemma_mutated(c, target, interface, opcode, payload, budgets, granted);
                assert(mid == after.0);
            }
            lemma_noted(
                c,
                mid,
                crate::client::HandledRequest {
                    object_id: target,
                    interface,
                    opcode,
                    opcode_name: interface.request_name(opcode)->0,
                    payload_len: payload.len() as usize,
                    fd_passing: header.fd_passing,
                },
                payload,
                sync,
            );
        }
    }
}

/// What memory, surfaces and toplevels say stays so while they stay.
pub(crate) proof fn lemma_memory_stays(a: ClientModel, b: ClientModel)
    requires
        a.memory_is_sound(),
        b.pools == a.pools,
        b.buffers == a.buffers,
        b.pool_bytes == a.pool_bytes,
        b.limits == a.limits,
        b.surfaces.dom() == a.surfaces.dom(),
        forall|s: ObjectId| #[trigger]
            b.surfaces.contains_key(s) ==> b.surfaces[s].current_buffer
                == a.surfaces[s].current_buffer,
    ensures
        b.memory_is_sound(),
{
    assert forall|x: ObjectId| #[trigger] b.buffers.contains_key(x) implies b.is_backed(x) by {
        assert(a.is_backed(x));
    }
    assert forall|s: ObjectId| #[trigger] b.surfaces.contains_key(s) implies a.surfaces.contains_key(
        s,
    ) by {
        assert(b.surfaces.dom().contains(s));
    }
    lemma_nothing_overlaps(a, b);
}

/// Showing a picture moves the callbacks that wait for it, and keeps a
/// connection sound.
pub proof fn law_showing_keeps_sound(c: ClientModel, callback_data: u32)
    requires
        c.is_sound(),
    ensures
        c.mark_presented(callback_data).is_sound(),
        c.is_reaped() ==> c.mark_presented(callback_data).is_reaped(),
{
    let after = c.mark_presented(callback_data);
    let n = c.ready.len() as int;
    if c.awaiting.len() > 0 {
        assert(after.callbacks_in(Spot::Waiting) =~= Seq::empty());
        assert(after.callbacks_in(Spot::Batch(n)) == c.callbacks_in(Spot::Waiting));
        assert forall|spot: Spot| spot != Spot::Waiting && spot != Spot::Batch(n) implies #[trigger]
            after.callbacks_in(spot) == c.callbacks_in(spot) by {
        }
        assert(after.callbacks_are_apart()) by {
            assert forall|spot: Spot, x: ObjectId| #[trigger]
                after.callbacks_in(spot).contains(x) implies spot != Spot::Waiting
                && c.callbacks_in(
                if spot == Spot::Batch(n) {
                    Spot::Waiting
                } else {
                    spot
                },
            ).contains(x) by {
            }
            assert forall|spot: Spot| (#[trigger] after.callbacks_in(spot)).no_duplicates() by {
                if spot == Spot::Batch(n) {
                    assert(c.callbacks_in(Spot::Waiting).no_duplicates());
                } else {
                    assert(c.callbacks_in(spot).no_duplicates());
                }
            }
            assert forall|spot: Spot, x: ObjectId| #[trigger]
                after.callbacks_in(spot).contains(x) implies after.is_object(
                x,
                Interface::Callback,
            ) by {
                let was = if spot == Spot::Batch(n) {
                    Spot::Waiting
                } else {
                    spot
                };
                assert(c.callbacks_in(was).contains(x));
                assert(c.is_object(x, Interface::Callback));
            }
            assert forall|p: Spot, q: Spot, x: ObjectId|
                p != q && #[trigger] after.callbacks_in(p).contains(x) implies
                !#[trigger] after.callbacks_in(q).contains(x) by {
                let was_p = if p == Spot::Batch(n) {
                    Spot::Waiting
                } else {
                    p
                };
                let was_q = if q == Spot::Batch(n) {
                    Spot::Waiting
                } else {
                    q
                };
                if after.callbacks_in(q).contains(x) {
                    assert(c.callbacks_in(was_p).contains(x) && c.callbacks_in(was_q).contains(x));
                    assert(was_p == was_q);
                }
            }
        }
        assert(after.names_are_apart()) by {
            assert forall|i: int| 0 <= i < n implies #[trigger] after.ready[i] == c.ready[i] by {
            }
        }
        lemma_memory_stays(c, after);
    }
    if c.is_reaped() {
        lemma_stays_reaped(c, after);
    }
}

/// A batch that has nothing left to report can go.
proof fn lemma_drop_spent(c: ClientModel)
    requires
        c.is_sound(),
        c.ready.len() > 0,
        c.ready[0].is_spent(),
    ensures
        (ClientModel { ready: c.ready.skip(1), ..c }).is_sound(),
{
    let after = ClientModel { ready: c.ready.skip(1), ..c };
    assert(callback_ids(c.ready[0].callbacks) =~= Seq::empty());
    assert forall|spot: Spot| #[trigger]
        after.callbacks_in(spot) == c.callbacks_in(
            match spot {
                Spot::Batch(i) => if i >= 0 {
                    Spot::Batch(i + 1)
                } else {
                    spot
                },
                _ => spot,
            },
        ) by {
    }
    assert(after.callbacks_are_apart()) by {
        assert forall|spot: Spot| (#[trigger] after.callbacks_in(spot)).no_duplicates() by {
        }
        assert forall|p: Spot, q: Spot, x: ObjectId|
            p != q && #[trigger] after.callbacks_in(p).contains(x) implies
            !#[trigger] after.callbacks_in(q).contains(x) by {
            let was_p = match p {
                Spot::Batch(i) => if i >= 0 {
                    Spot::Batch(i + 1)
                } else {
                    p
                },
                _ => p,
            };
            let was_q = match q {
                Spot::Batch(i) => if i >= 0 {
                    Spot::Batch(i + 1)
                } else {
                    q
                },
                _ => q,
            };
            assert(c.callbacks_in(was_p).contains(x));
            assert(was_p != was_q);
            assert(!c.callbacks_in(was_q).contains(x));
        }
    }
    assert(after.names_are_apart()) by {
        assert forall|i: int| 0 <= i < after.ready.len() implies #[trigger] after.ready[i]
            == c.ready[i + 1] by {
        }
    }
    lemma_memory_stays(c, after);
}

proof fn lemma_unspent(c: ClientModel)
    requires
        c.is_sound(),
    ensures
        (ClientModel { ready: model::unspent(c.ready), ..c }).is_sound(),
    decreases c.ready.len(),
{
    if c.ready.len() > 0 && c.ready[0].is_spent() {
        lemma_drop_spent(c);
        lemma_unspent(ClientModel { ready: c.ready.skip(1), ..c });
    }
}

/// A callback that has been reported gives its name back.
proof fn lemma_complete_callback(c: ClientModel)
    requires
        c.is_sound(),
        c.ready.len() > 0,
        c.ready[0].callbacks.len() > 0,
    ensures
        c.complete_first().is_sound(),
{
    let after = c.complete_first();
    let first = Spot::Batch(0);
    let before = c.callbacks_in(first);
    let id = c.ready[0].callbacks[0].1;
    let now = after.callbacks_in(first);
    assert(before.no_duplicates());
    assert(before[0] == id);
    assert(now =~= before.skip(1));
    assert(before.contains(id));
    assert forall|x: ObjectId| #[trigger] now.contains(x) implies before.contains(x) && x != id by {
        let i = choose|i: int| 0 <= i < now.len() && now[i] == x;
        assert(before[i + 1] == x);
    }
    assert forall|spot: Spot| spot != first implies #[trigger] after.callbacks_in(spot)
        == c.callbacks_in(spot) by {
    }
    assert(after.callbacks_are_apart()) by {
        assert forall|spot: Spot| (#[trigger] after.callbacks_in(spot)).no_duplicates() by {
            if spot == first {
                assert forall|i: int, j: int|
                    0 <= i < now.len() && 0 <= j < now.len() && i != j implies now[i] != now[j] by {
                    assert(before[i + 1] != before[j + 1]);
                }
            } else {
                assert(c.callbacks_in(spot).no_duplicates());
            }
        }
        assert forall|spot: Spot, x: ObjectId| #[trigger]
            after.callbacks_in(spot).contains(x) implies after.is_object(
            x,
            Interface::Callback,
        ) by {
            assert(c.callbacks_in(spot).contains(x));
            assert(c.is_object(x, Interface::Callback));
            if spot != first {
                assert(c.callbacks_in(first).contains(id));
                assert(x != id);
            }
        }
        assert forall|p: Spot, q: Spot, x: ObjectId|
            p != q && #[trigger] after.callbacks_in(p).contains(x) implies
            !#[trigger] after.callbacks_in(q).contains(x) by {
            assert(c.callbacks_in(p).contains(x));
            assert(!c.callbacks_in(q).contains(x));
        }
    }
    assert(c.is_object(id, Interface::Callback)) by {
        assert(c.callbacks_in(first).contains(id));
    }
    assert(after.names_are_apart()) by {
        assert forall|i: int| 0 <= i < after.ready.len() implies (
        #[trigger] after.ready[i]).surface_delete_id == c.ready[i].surface_delete_id by {
        }
    }
    lemma_memory_stays(c, after);
}

/// A destroyed surface gives its name back once its callbacks are reported.
proof fn lemma_complete_surface(c: ClientModel)
    requires
        c.is_sound(),
        c.ready.len() > 0,
        c.ready[0].callbacks.len() == 0,
        c.ready[0].surface_delete_id is Some,
    ensures
        c.complete_first().is_sound(),
{
    let after = c.complete_first();
    assert forall|spot: Spot| #[trigger] after.callbacks_in(spot) == c.callbacks_in(spot) by {
    }
    lemma_callbacks_stay(c, after);
    assert(after.names_are_apart()) by {
        assert forall|i: int| 0 < i < after.ready.len() implies #[trigger] after.ready[i]
            == c.ready[i] by {
        }
    }
    lemma_memory_stays(c, after);
}

/// Reporting what is ready keeps a connection sound.
pub proof fn law_reporting_keeps_sound(c: ClientModel)
    requires
        c.is_sound(),
    ensures
        c.complete_ready().0.is_sound(),
        c.is_reaped() ==> c.complete_ready().0.is_reaped(),
{
    let trimmed = ClientModel { ready: model::unspent(c.ready), ..c };
    lemma_unspent(c);
    if trimmed.ready.len() > 0 && trimmed.can_progress() {
        let reported = trimmed.complete_first();
        if trimmed.ready[0].callbacks.len() > 0 {
            assert(trimmed.callbacks_in(Spot::Batch(0))[0] == trimmed.ready[0].callbacks[0].1);
            assert(trimmed.callbacks_in(Spot::Batch(0)).contains(
                trimmed.ready[0].callbacks[0].1,
            ));
            assert(trimmed.is_object(trimmed.ready[0].callbacks[0].1, Interface::Callback));
            lemma_complete_callback(trimmed);
        } else {
            lemma_complete_surface(trimmed);
        }
        lemma_unspent(reported);
    }
    if c.is_reaped() {
        lemma_stays_reaped(c, c.complete_ready().0);
    }
}

/// A connection on which nothing has happened is sound.
pub proof fn law_fresh_is_sound(
    id: crate::ids::ClientId,
    capabilities: crate::caps::CapSet,
    peer_pid: u32,
    limits: crate::client::ClientLimits,
)
    ensures
        ClientModel::fresh(id, capabilities, peer_pid, limits).is_sound(),
        ClientModel::fresh(id, capabilities, peer_pid, limits).is_reaped(),
{
    let c = ClientModel::fresh(id, capabilities, peer_pid, limits);
    assert forall|spot: Spot| #[trigger] c.callbacks_in(spot) =~= Seq::<ObjectId>::empty() by {
    }
    assert(c.dead_buffers() =~= Set::empty());
    assert(c.dead_pools() =~= Set::empty());
}

/// A connection without one of its toplevels.
pub(crate) proof fn lemma_end_toplevel(c: ClientModel, toplevel_id: ObjectId)
    requires
        c.is_sound(),
        c.toplevels.contains_key(toplevel_id),
    ensures
        ({
            let toplevel = c.toplevels[toplevel_id];
            let released = ClientModel {
                toplevels: c.toplevels.remove(toplevel_id),
                ..c
            }.release_metadata(toplevel);
            let without = ClientModel {
                toplevel_by_surface: released.toplevel_by_surface.remove(toplevel.surface_id),
                objects: released.objects.remove(toplevel_id),
                ..released
            }.emit_delete_id(toplevel_id).detach_surface(toplevel.surface_id);
            without.is_sound() && without.is_reaped()
        }),
{
    let toplevel = c.toplevels[toplevel_id];
    let released = ClientModel {
        toplevels: c.toplevels.remove(toplevel_id),
        ..c
    }.release_metadata(toplevel);
    let without = ClientModel {
        toplevel_by_surface: released.toplevel_by_surface.remove(toplevel.surface_id),
        objects: released.objects.remove(toplevel_id),
        ..released
    };
    sums::lemma_map_remove(c.toplevels, text_size(), toplevel_id);
    assert forall|spot: Spot| #[trigger] without.callbacks_in(spot) == c.callbacks_in(spot) by {
    }
    assert(c.is_object(toplevel_id, Interface::XdgToplevel));
    lemma_callbacks_stay(c, without);
    lemma_memory_stays(c, without);
    assert(without.names_are_apart());
    assert(without.toplevels_are_sound());
    let told = without.emit_delete_id(toplevel_id);
    lemma_holds_same(without, told);
    lemma_detach_surface(told, toplevel.surface_id);
}

} // verus!
