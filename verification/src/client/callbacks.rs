//! What is reported of frame callbacks.

use vstd::prelude::*;

use crate::client::model;
use crate::client::model::ClientModel;
use crate::client::FrameCallbackCompletion;
use crate::events;
use crate::ids::ObjectId;
use crate::objects::Interface;
use crate::server::inputs;
use crate::server::inputs::joined_words;
use crate::server::shells::word;
use crate::wire;
use crate::wire::HEADER_SIZE;

verus! {

/// Once all that was committed has been shown, every callback that waited for
/// that is to be reported, with the given data, behind those that are already;
/// and none waits any more.
pub proof fn law_shown_callbacks_are_to_be_reported(c: ClientModel, callback_data: u32)
    ensures
        ({
            let after = c.mark_presented(callback_data);
            &&& after.awaiting.len() == 0
            &&& c.awaiting.len() == 0 ==> after.ready == c.ready
            &&& c.awaiting.len() > 0 ==> {
                &&& after.ready.len() == c.ready.len() + 1
                &&& after.ready.drop_last() == c.ready
                &&& after.ready.last().callbacks == c.awaiting
                &&& after.ready.last().callback_data == Some(callback_data)
                &&& after.ready.last().surface_delete_id is None
            }
            &&& after == (ClientModel { ready: after.ready, awaiting: after.awaiting, ..c })
        }),
{
    let after = c.mark_presented(callback_data);
    if c.awaiting.len() == 0 {
        assert(c.awaiting =~= after.awaiting);
    } else {
        assert(after.ready.drop_last() =~= c.ready);
    }
}

/// Whether a message is an event of an object with one word.
pub open spec fn is_word_event(m: Seq<u8>, object_id: ObjectId, opcode: u16, value: u32) -> bool {
    &&& wire::header_fault(m) is None
    &&& wire::header_at(m).object_id == object_id
    &&& wire::header_at(m).opcode == opcode
    &&& m.len() == HEADER_SIZE + 4
    &&& word(m, 0) == value
}

/// An event of one word is queued where there is room for it.
proof fn lemma_word_event(c: ClientModel, object_id: ObjectId, opcode: u16, value: u32)
    requires
        c.objects.contains_key(object_id),
        c.objects[object_id] != Interface::ShellManager,
        model::event_fault(c.objects[object_id], opcode) is None,
        c.has_room(1, 14),
    ensures
        ({
            let after = c.emit(object_id, opcode, crate::bytes::le32(value));
            &&& after.events == c.events.push(after.events.last())
            &&& after.events.len() == c.events.len() + 1
            &&& is_word_event(after.events.last(), object_id, opcode, value)
            &&& !after.overflowed
        }),
{
    broadcast use crate::client::model::lemma_emit_frame;

    let payload = crate::bytes::le32(value);
    let words = seq![value];
    assert(payload =~= joined_words(words)) by {
        reveal_with_fuel(joined_words, 2);
        assert(words.drop_last() =~= Seq::<u32>::empty());
    }
    assert(payload.len() == 4);
    reveal(ClientModel::emit);
    inputs::lemma_not_superseded(
        c.events,
        c.objects[object_id],
        object_id,
        opcode,
        payload,
        0,
    );
    assert(c.emit_fault(object_id, opcode, payload) is None);
    inputs::lemma_emitted(c, object_id, opcode, payload);
    inputs::lemma_words(object_id, opcode, words, 0);
    let after = c.emit(object_id, opcode, payload);
    assert(after.events =~= c.events.push(after.events.last()));
}

/// The first callback that is to be reported is, where the queue has room: it is
/// told as done, with its data, if what it waited for was shown; and its name is
/// given back. The next one is then the first.
pub proof fn law_first_callback_is_reported(c: ClientModel)
    requires
        c.is_bounded(),
        c.ready.len() > 0,
        c.ready[0].callbacks.len() > 0,
        c.is_object(ObjectId(1), Interface::Display),
        c.is_object(c.ready[0].callbacks[0].1, Interface::Callback),
        !c.overflowed,
        c.events.len() + 2 <= c.limits.pending_events,
        crate::client::queue::total_bytes(c.events) + 28 <= c.limits.pending_event_bytes,
    ensures
        ({
            let batch = c.ready[0];
            let id = batch.callbacks[0].1;
            let (after, outcome) = c.complete_ready();
            let n = c.events.len() as int;
            &&& outcome == FrameCallbackCompletion::Completed
            &&& !after.objects.contains_key(id)
            &&& after.objects == c.objects.remove(id)
            &&& batch.callback_data is Some ==> {
                &&& after.events.len() == n + 2
                &&& is_word_event(after.events[n], id, 1, batch.callback_data->0)
                &&& is_word_event(after.events[n + 1], ObjectId(1), 2, id.0)
            }
            &&& batch.callback_data is None ==> {
                &&& after.events.len() == n + 1
                &&& is_word_event(after.events[n], ObjectId(1), 2, id.0)
            }
            &&& after.events.take(n) == c.events
            &&& batch.callbacks.len() > 1 ==> after.ready.len() == c.ready.len()
                && after.ready[0].callbacks == batch.callbacks.skip(1)
                && after.ready[0].callback_data == batch.callback_data
            &&& after.awaiting == c.awaiting
            &&& after.surfaces == c.surfaces
        }),
{
    broadcast use crate::client::model::lemma_emit_frame;

    let batch = c.ready[0];
    let id = batch.callbacks[0].1;
    assert(model::unspent(c.ready) == c.ready);
    assert((ClientModel { ready: model::unspent(c.ready), ..c }) == c);
    assert(c.can_progress());
    let n = c.events.len() as int;
    let told = if batch.callback_data is Some {
        lemma_word_event(c, id, 1, batch.callback_data->0);
        c.emit_done(id, batch.callback_data->0)
    } else {
        c
    };
    assert(told.has_room(1, 14)) by {
        if batch.callback_data is Some {
            let m = told.events.last();
            assert(told.events == c.events.push(m));
            assert(told.events.drop_last() =~= c.events);
        }
    }
    let bare = told.without_object(id);
    lemma_word_event(bare, ObjectId(1), 2, id.0);
    let back = bare.emit_delete_id(id);
    let reported = c.complete_first();
    assert(back.events.take(n) =~= c.events);
    if batch.callbacks.len() > 1 {
        assert(!reported.ready[0].is_spent());
        assert(model::unspent(reported.ready) == reported.ready);
    }
}

} // verus!
