//! What a connection's surfaces show is theirs alone, and stays as it is.

use vstd::prelude::*;

use crate::bytes;
use crate::client::bounds;
use crate::client::effects;
use crate::client::effects::is_accepted;
use crate::client::model;
use crate::client::model::ClientModel;
use crate::client::sound;
use crate::client::storage;
use crate::client::{BufferInfo, ServerResourceBudgets};
use crate::ids::ObjectId;
use crate::objects::Interface;
use crate::ordered;
use crate::server::inputs;
use crate::server::inputs::joined_words;
use crate::wire;
use crate::wire::{MessageHeader, HEADER_SIZE};

verus! {

/// Whether a surface shows a byte of a pool.
pub open spec fn shows_byte(
    c: ClientModel,
    surface_id: ObjectId,
    pool_id: ObjectId,
    i: int,
) -> bool {
    let info = c.buffers[(c.surfaces[surface_id].current_buffer->0).buffer_id];
    &&& c.surfaces.contains_key(surface_id)
    &&& c.surfaces[surface_id].current_buffer is Some
    &&& info.pool_id == pool_id
    &&& info.offset <= i < info.offset + info.stride * info.height
}

/// Whether two buffers lie apart.
pub open spec fn lie_apart(a: BufferInfo, b: BufferInfo) -> bool {
    ||| a.pool_id != b.pool_id
    ||| a.offset + a.stride * a.height <= b.offset
    ||| b.offset + b.stride * b.height <= a.offset
}

/// No byte is shown by two surfaces.
pub proof fn law_shown_bytes_are_not_shared(
    c: ClientModel,
    s: ObjectId,
    t: ObjectId,
    pool_id: ObjectId,
    i: int,
)
    requires
        c.is_sound(),
        s != t,
        shows_byte(c, s, pool_id, i),
    ensures
        !shows_byte(c, t, pool_id, i),
{
    if c.surfaces.contains_key(t) {
        assert(c.surfaces.contains_key(s));
    }
}

// Writing to pools.

proof fn lemma_write_fault_among(
    c: ClientModel,
    ids: Seq<ObjectId>,
    pool_id: ObjectId,
    at: int,
    row_bytes: int,
    rows: int,
    stride: int,
    from: nat,
)
    ensures
        c.write_fault_among(ids, pool_id, at, row_bytes, rows, stride, from) is None <==> forall|
            i: int,
        |
            from <= i < ids.len() ==> c.write_fault(
                #[trigger] ids[i],
                pool_id,
                at,
                row_bytes,
                rows,
                stride,
            ) is None,
    decreases ids.len() - from,
{
    if from < ids.len() {
        lemma_write_fault_among(c, ids, pool_id, at, row_bytes, rows, stride, from + 1);
        if c.write_fault(ids[from as int], pool_id, at, row_bytes, rows, stride) is None {
            assert forall|i: int|
                from <= i < ids.len() && c.write_fault_among(
                    ids,
                    pool_id,
                    at,
                    row_bytes,
                    rows,
                    stride,
                    from,
                ) is None implies c.write_fault(
                #[trigger] ids[i],
                pool_id,
                at,
                row_bytes,
                rows,
                stride,
            ) is None by {
                if i > from {
                    assert(from + 1 <= i);
                }
            }
        }
    }
}

/// A write is without fault if it has none for any surface.
proof fn lemma_writes_fault(
    c: ClientModel,
    pool_id: ObjectId,
    at: int,
    row_bytes: int,
    rows: int,
    stride: int,
)
    requires
        c.is_sound(),
        row_bytes > 0,
        rows > 0,
    ensures
        c.writes_fault(pool_id, at, row_bytes, rows, stride) is None <==> forall|s: ObjectId|
            c.surfaces.contains_key(s) ==> #[trigger] c.write_fault(
                s,
                pool_id,
                at,
                row_bytes,
                rows,
                stride,
            ) is None,
{
    let ids = ordered::ascending_keys(c.surfaces.dom());
    ordered::law_ascending_keys_list_all(c.surfaces.dom());
    lemma_write_fault_among(c, ids, pool_id, at, row_bytes, rows, stride, 0);
    if c.writes_fault(pool_id, at, row_bytes, rows, stride) is None {
        assert forall|s: ObjectId| c.surfaces.contains_key(s) implies #[trigger] c.write_fault(
            s,
            pool_id,
            at,
            row_bytes,
            rows,
            stride,
        ) is None by {
            assert(ids.to_set().contains(s));
            let i = choose|i: int| 0 <= i < ids.len() && ids[i] == s;
            assert(c.write_fault(ids[i], pool_id, at, row_bytes, rows, stride) is None);
        }
    } else {
        let i = choose|i: int|
            0 <= i < ids.len() && c.write_fault(
                #[trigger] ids[i],
                pool_id,
                at,
                row_bytes,
                rows,
                stride,
            ) is Some;
        assert(ids.to_set().contains(ids[i]));
    }
}

/// What a surface shows is not changed by writing to its pool.
pub proof fn law_pool_write_spares_what_is_shown(
    c: ClientModel,
    header: MessageHeader,
    payload: Seq<u8>,
    budgets: ServerResourceBudgets,
    granted: bool,
    surface_id: ObjectId,
    i: int,
)
    requires
        header.opcode == 4 || header.opcode == 5,
        is_accepted(c, header, payload, budgets, granted, Interface::ShmPool, header.opcode),
        shows_byte(c, surface_id, header.object_id, i),
    ensures
        ({
            let after = c.dispatched(header, payload, budgets, granted).0;
            let id = header.object_id;
            &&& after.surfaces == c.surfaces
            &&& after.pools.contains_key(id)
            &&& after.pools[id].storage[i] == c.pools[id].storage[i]
        }),
{
    broadcast use crate::client::model::lemma_emit_frame;

    reveal(ClientModel::dispatched);
    reveal(ClientModel::mutated);
    let id = header.object_id;
    let buffer_id = (c.surfaces[surface_id].current_buffer->0).buffer_id;
    assert(c.buffers.contains_key(buffer_id));
    assert(c.is_backed(buffer_id));
    let info = c.buffers[buffer_id];
    let at = bytes::le32_at(payload, 0) as int;
    if header.opcode == 4 {
        effects::lemma_reap_keeps(c.write_pool(id, payload).0, id);
        let n = payload.skip(4).len() as int;
        if n > 0 && at <= i < at + n {
            lemma_writes_fault(c, id, at, n, 1, n);
            assert(c.write_fault(surface_id, id, at, n, 1, n) is None);
            assert(model::row_meets(at, n, n, 0, info.offset as int, info.end()));
        }
    } else {
        effects::lemma_reap_keeps(c.write_pool_rows(id, payload).0, id);
        let row_bytes = bytes::le32_at(payload, 4) as int;
        let rows = bytes::le32_at(payload, 8) as int;
        let stride = bytes::le32_at(payload, 12) as int;
        lemma_writes_fault(c, id, at, row_bytes, rows, stride);
        assert(c.write_fault(surface_id, id, at, row_bytes, rows, stride) is None);
        if model::some_row_meets(at, row_bytes, rows, stride, i, i + 1) {
            let row = choose|row: int|
                0 <= row < rows && #[trigger] model::row_meets(
                    at,
                    row_bytes,
                    stride,
                    row,
                    i,
                    i + 1,
                );
            assert(model::row_meets(
                at,
                row_bytes,
                stride,
                row,
                info.offset as int,
                info.end(),
            ));
        }
        assert(rows * row_bytes == row_bytes * rows) by (nonlinear_arith);
        storage::law_rows_leave_the_rest_alone(
            c.pools[id].storage,
            at,
            stride,
            row_bytes,
            payload.skip(16),
            rows as nat,
            i,
        );
    }
}

/// A write that fits a pool, and touches nothing that is shown, is taken.
pub proof fn law_free_pool_write_is_taken(
    c: ClientModel,
    header: MessageHeader,
    payload: Seq<u8>,
    budgets: ServerResourceBudgets,
    granted: bool,
)
    requires
        c.is_sound(),
        c.is_object(header.object_id, Interface::ShmPool),
        header.opcode == 4,
        c.pools.contains_key(header.object_id),
        payload.len() >= 4,
        bytes::le32_at(payload, 0) + payload.len() - 4
            <= c.pools[header.object_id].storage.len(),
        forall|s: ObjectId|
            #![trigger c.surfaces.contains_key(s)]
            c.surfaces.contains_key(s) && c.surfaces[s].current_buffer is Some ==> {
                let info = c.buffers[(c.surfaces[s].current_buffer->0).buffer_id];
                ||| info.pool_id != header.object_id
                ||| info.offset + info.stride * info.height <= bytes::le32_at(payload, 0)
                ||| bytes::le32_at(payload, 0) + payload.len() - 4 <= info.offset
            },
    ensures
        c.dispatched(header, payload, budgets, granted).1 is None,
{
    broadcast use crate::client::model::lemma_emit_frame;

    reveal(ClientModel::dispatched);
    reveal(ClientModel::mutated);
    let id = header.object_id;
    let at = bytes::le32_at(payload, 0) as int;
    let n = payload.skip(4).len() as int;
    if n > 0 {
        lemma_writes_fault(c, id, at, n, 1, n);
        assert forall|s: ObjectId| c.surfaces.contains_key(s) implies #[trigger] c.write_fault(
            s,
            id,
            at,
            n,
            1,
            n,
        ) is None by {
            if c.surfaces[s].current_buffer is Some {
                let buffer_id = (c.surfaces[s].current_buffer->0).buffer_id;
                assert(c.buffers.contains_key(buffer_id));
                let info = c.buffers[buffer_id];
                if model::some_row_meets(at, n, 1, n, info.offset as int, info.end()) {
                    let row = choose|row: int|
                        0 <= row < 1 && #[trigger] model::row_meets(
                            at,
                            n,
                            n,
                            row,
                            info.offset as int,
                            info.end(),
                        );
                    assert(row == 0);
                }
            }
        }
    }
}

// Showing buffers.

proof fn lemma_alias_fault_among(
    c: ClientModel,
    ids: Seq<ObjectId>,
    surface_id: ObjectId,
    candidate: ObjectId,
    from: nat,
)
    ensures
        c.alias_fault_among(ids, surface_id, candidate, from) is None <==> forall|i: int|
            from <= i < ids.len() ==> c.alias_fault(surface_id, candidate, #[trigger] ids[i])
                is None,
    decreases ids.len() - from,
{
    if from < ids.len() {
        lemma_alias_fault_among(c, ids, surface_id, candidate, from + 1);
        if c.alias_fault_among(ids, surface_id, candidate, from) is None {
            assert forall|i: int| from <= i < ids.len() implies c.alias_fault(
                surface_id,
                candidate,
                #[trigger] ids[i],
            ) is None by {
                if i > from {
                    assert(from + 1 <= i);
                }
            }
        } else if c.alias_fault(surface_id, candidate, ids[from as int]) is None {
            assert(c.alias_fault_among(ids, surface_id, candidate, from + 1) is Some);
        }
    }
}

/// A commit of an attached buffer is taken if and only if the buffer lies apart
/// from what the other surfaces show, and from what it would replace, if that is
/// another buffer.
pub proof fn law_commit_is_taken_if_apart(
    c: ClientModel,
    header: MessageHeader,
    payload: Seq<u8>,
    budgets: ServerResourceBudgets,
    granted: bool,
)
    requires
        c.is_sound(),
        c.is_object(header.object_id, Interface::Surface),
        header.opcode == 7,
        c.surfaces.contains_key(header.object_id),
        c.surfaces[header.object_id].pending_attach,
        c.surfaces[header.object_id].pending_buffer is Some,
        c.buffers.contains_key((c.surfaces[header.object_id].pending_buffer->0).buffer_id),
    ensures
        ({
            let surface = c.surfaces[header.object_id];
            let id = (surface.pending_buffer->0).buffer_id;
            let replaced = (surface.current_buffer->0).buffer_id;
            c.dispatched(header, payload, budgets, granted).1 is None <==> {
                &&& surface.current_buffer is Some && replaced != id ==> lie_apart(
                    c.buffers[id],
                    c.buffers[replaced],
                )
                &&& forall|s: ObjectId|
                    s != header.object_id && #[trigger] c.surfaces.contains_key(s)
                        && c.surfaces[s].current_buffer is Some ==> lie_apart(
                        c.buffers[id],
                        c.buffers[(c.surfaces[s].current_buffer->0).buffer_id],
                    )
            }
        }),
{
    broadcast use crate::client::model::lemma_emit_frame;

    reveal(ClientModel::dispatched);
    reveal(ClientModel::mutated);
    let surface_id = header.object_id;
    let surface = c.surfaces[surface_id];
    let id = (surface.pending_buffer->0).buffer_id;
    let ids = ordered::ascending_keys(c.surfaces.dom());
    ordered::law_ascending_keys_list_all(c.surfaces.dom());
    lemma_alias_fault_among(c, ids, surface_id, id, 0);
    if c.alias_fault_among(ids, surface_id, id, 0) is None {
        assert forall|s: ObjectId|
            s != surface_id && #[trigger] c.surfaces.contains_key(s)
                && c.surfaces[s].current_buffer is Some implies lie_apart(
            c.buffers[id],
            c.buffers[(c.surfaces[s].current_buffer->0).buffer_id],
        ) by {
            assert(ids.to_set().contains(s));
            let i = choose|i: int| 0 <= i < ids.len() && ids[i] == s;
            assert(c.alias_fault(surface_id, id, ids[i]) is None);
        }
    } else {
        let i = choose|i: int|
            0 <= i < ids.len() && c.alias_fault(surface_id, id, #[trigger] ids[i]) is Some;
        assert(ids.to_set().contains(ids[i]));
        assert(c.surfaces.contains_key(ids[i]));
        let other = (c.surfaces[ids[i]].current_buffer->0).buffer_id;
        assert(c.buffers.contains_key(other));
        assert(c.is_backed(other));
        assert(!lie_apart(c.buffers[id], c.buffers[other]));
    }
    assert(c.is_backed(id));
    if surface.current_buffer is Some {
        assert(c.buffers.contains_key((surface.current_buffer->0).buffer_id));
    }
}

/// Whether a message is an event of an object without data.
pub open spec fn is_bare_event(m: Seq<u8>, object_id: ObjectId, opcode: u16) -> bool {
    &&& wire::header_fault(m) is None
    &&& wire::header_at(m).object_id == object_id
    &&& wire::header_at(m).opcode == opcode
    &&& m.len() == HEADER_SIZE
}

/// A buffer that a commit replaces is released, if it has its name and no other
/// surface shows it. A commit that replaces nothing tells nothing.
pub proof fn law_replaced_buffer_is_released(
    c: ClientModel,
    header: MessageHeader,
    payload: Seq<u8>,
    budgets: ServerResourceBudgets,
    granted: bool,
)
    requires
        is_accepted(c, header, payload, budgets, granted, Interface::Surface, 7),
        c.surfaces[header.object_id].current_buffer is Some,
        c.is_object(
            (c.surfaces[header.object_id].current_buffer->0).buffer_id,
            Interface::Buffer,
        ),
    ensures
        ({
            let after = c.dispatched(header, payload, budgets, granted).0;
            let id = header.object_id;
            let replaced = (c.surfaces[id].current_buffer->0).buffer_id;
            let shown = after.surfaces[id].current_buffer;
            let elsewhere = exists|s: ObjectId|
                s != id && #[trigger] c.surfaces.contains_key(s) && c.surfaces[s].current_buffer
                    is Some && (c.surfaces[s].current_buffer->0).buffer_id == replaced;
            &&& shown is Some && (shown->0).buffer_id == replaced ==> after.events == c.events
            &&& (shown is None || (shown->0).buffer_id != replaced) && !elsewhere
                ==> after.overflowed || (after.events.len() == c.events.len() + 1
                && after.events.drop_last() == c.events && is_bare_event(
                after.events.last(),
                replaced,
                1,
            ))
        }),
{
    broadcast use crate::client::model::lemma_emit_frame;

    reveal(ClientModel::dispatched);
    reveal(ClientModel::mutated);
    let id = header.object_id;
    let made = c.commit(id).0;
    let replaced = (c.surfaces[id].current_buffer->0).buffer_id;
    assert(made.is_reaped()) by {
        assert(made.dead_buffers() =~= Set::<ObjectId>::empty()) by {
            assert forall|b: ObjectId| !made.dead_buffers().contains(b) by {
                if made.dead_buffers().contains(b) {
                    assert(!c.dead_buffers().contains(b));
                    assert(c.is_held(b));
                    let s = choose|s: ObjectId| #[trigger]
                        c.surfaces.contains_key(s) && c.surfaces[s].holds(b);
                    assert(made.surfaces.contains_key(s));
                    assert(made.surfaces[s].holds(b) || b == replaced);
                }
            }
        }
        assert(made.dead_pools() =~= Set::<ObjectId>::empty()) by {
            assert forall|p: ObjectId| !made.dead_pools().contains(p) by {
                if made.dead_pools().contains(p) {
                    assert(!c.dead_pools().contains(p));
                    assert(c.has_buffers(p));
                    let b = choose|b: ObjectId| #[trigger]
                        c.buffers.contains_key(b) && c.buffers[b].pool_id == p;
                    assert(made.buffers.contains_key(b));
                }
            }
        }
    }
    bounds::lemma_reaped(made);
    let after = c.dispatched(header, payload, budgets, granted).0;
    let shown = after.surfaces[id].current_buffer;
    let elsewhere = exists|s: ObjectId|
        s != id && #[trigger] c.surfaces.contains_key(s) && c.surfaces[s].current_buffer is Some
            && (c.surfaces[s].current_buffer->0).buffer_id == replaced;
    if (shown is None || (shown->0).buffer_id != replaced) && !elsewhere && !after.overflowed {
        let bare = ClientModel { surfaces: made.surfaces, awaiting: made.awaiting, ..c };
        assert(!bare.is_current(replaced)) by {
            if bare.is_current(replaced) {
                let s = choose|s: ObjectId| #[trigger]
                    bare.surfaces.contains_key(s) && bare.surfaces[s].current_buffer is Some
                        && (bare.surfaces[s].current_buffer->0).buffer_id == replaced;
                assert(c.surfaces.contains_key(s));
            }
        }
        assert(made == bare.emit(replaced, 1, Seq::empty()));
        inputs::lemma_emitted_unless_full(bare, replaced, 1, Seq::empty());
    }
}

// Being answered.

proof fn lemma_one_word(c: ClientModel, object_id: ObjectId, opcode: u16, value: u32)
    requires
        c.emit_fault(object_id, opcode, bytes::le32(value)) is None,
        c.objects[object_id] != Interface::ShellManager,
    ensures
        ({
            let after = c.emit(object_id, opcode, bytes::le32(value));
            &&& after.events.len() == c.events.len() + 1
            &&& after.events.drop_last() == c.events
            &&& crate::client::callbacks::is_word_event(
                after.events.last(),
                object_id,
                opcode,
                value,
            )
        }),
{
    let payload = bytes::le32(value);
    let words = seq![value];
    assert(payload =~= joined_words(words)) by {
        reveal_with_fuel(joined_words, 2);
        assert(words.drop_last() =~= Seq::<u32>::empty());
    }
    assert(payload.len() == 4);
    inputs::lemma_emitted(c, object_id, opcode, payload);
    inputs::lemma_words(object_id, opcode, words, 0);
}

/// A request to be told when all before it is done is answered at once: its
/// callback is told as done, and its name is given back.
pub proof fn law_sync_is_answered(
    c: ClientModel,
    header: MessageHeader,
    payload: Seq<u8>,
    budgets: ServerResourceBudgets,
    granted: bool,
)
    requires
        is_accepted(c, header, payload, budgets, granted, Interface::Display, 1),
        c.is_object(ObjectId(1), Interface::Display),
    ensures
        ({
            let after = c.dispatched(header, payload, budgets, granted).0;
            let id = ObjectId(bytes::le32_at(payload, 0));
            let n = c.events.len() as int;
            &&& !c.objects.contains_key(id)
            &&& after.objects == c.objects
            &&& after.events.len() == n + 2
            &&& forall|i: int| 0 <= i < n ==> #[trigger] after.events[i] == c.events[i]
            &&& crate::client::callbacks::is_word_event(after.events[n], id, 1, 0)
            &&& crate::client::callbacks::is_word_event(after.events[n + 1], ObjectId(1), 2, id.0)
        }),
{
    broadcast use crate::client::model::lemma_emit_frame;

    reveal(ClientModel::dispatched);
    reveal(ClientModel::mutated);
    let id = ObjectId(bytes::le32_at(payload, 0));
    let made = c.mutated(
        header.object_id,
        Interface::Display,
        1,
        payload,
        budgets,
        granted,
    ).0;
    let with = c.with_object(id, Interface::Callback);
    sound::lemma_stays_reaped(c, with);
    bounds::lemma_reaped(with);
    assert(made == with);
    let noted = ClientModel {
        journal: c.dispatched(header, payload, budgets, granted).0.journal,
        ..with
    };
    lemma_one_word(noted, id, 1, 0);
    let fired = noted.emit(id, 1, bytes::le32(0)).without_object(id);
    lemma_one_word(fired, ObjectId(1), 2, id.0);
    let after = c.dispatched(header, payload, budgets, granted).0;
    assert(after.objects =~= c.objects);
    let n = c.events.len() as int;
    assert(after.events[n] == fired.events[n]) by {
        assert(after.events.drop_last()[n] == fired.events[n]);
    }
    assert forall|i: int| 0 <= i < n implies #[trigger] after.events[i] == c.events[i] by {
        assert(after.events.drop_last()[i] == fired.events[i]);
        assert(fired.events.drop_last()[i] == c.events[i]);
    }
}

} // verus!
