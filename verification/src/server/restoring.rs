//! What a shell's restore of windows comes to.

use vstd::prelude::*;

use crate::bytes;
use crate::client::model;
use crate::client::model::{ClientModel, ToplevelModel};
use crate::events;
use crate::events::{RESTORE_ABORTED, RESTORE_BUSY, RESTORE_COMPLETED, RESTORE_TIMED_OUT};
use crate::ids::{ClientId, ObjectId, WindowId, WindowOwner};
use crate::objects::Interface;
use crate::ordered;
use crate::requests::MAX_SHELL_RESTORE_TIMEOUT_MS;
use crate::server::damage::DamageModel;
use crate::server::desk;
use crate::server::focus;
use crate::server::inputs;
use crate::server::inputs::joined_words;
use crate::server::laws;
use crate::server::model::{RestoreModel, ServerModel};
use crate::server::promises;
use crate::server::restore;
use crate::server::shells;
use crate::server::shells::word;
use crate::server::telling;
use crate::server::telling::{asks_manager, is_taken, is_told, is_up_to_date, only_shows, only_tells};
use crate::server::{RestorePlacement, MIN_SHELL_RESTORE_TIMEOUT_MS};
use crate::wire;
use crate::wire::HEADER_SIZE;

verus! {

/// Whether a message tells how a restore ended: of which restore, how, and how
/// many windows it placed.
pub open spec fn tells_end(m: Seq<u8>, manager: ObjectId, id: u32, status: u32, placed: u32) -> bool {
    &&& wire::header_fault(m) is None
    &&& wire::header_at(m).object_id == manager
    &&& wire::header_at(m).opcode == 8
    &&& m.len() == HEADER_SIZE + 12
    &&& word(m, 0) == id
    &&& word(m, 1) == status
    &&& word(m, 2) == placed
}

/// A shell that is told how its restore ended has that last in its queue, or its
/// queue has overflowed. Nobody else is told.
pub(crate) proof fn lemma_reported(
    s: ServerModel,
    owner: ClientId,
    id: u32,
    status: u32,
    placed: u32,
)
    ensures
        only_tells(s, s.restore_reported(owner, id, status, placed)),
        s.clients.contains_key(owner) && s.clients[owner].shell_manager_id is Some
            && s.clients[owner].is_object(
            s.clients[owner].shell_manager_id->0,
            Interface::ShellManager,
        ) ==> {
            let after = s.restore_reported(owner, id, status, placed).clients[owner];
            after.overflowed || (after.events.len() > 0 && tells_end(
                after.events.last(),
                s.clients[owner].shell_manager_id->0,
                id,
                status,
                placed,
            ))
        },
{
    broadcast use crate::client::model::lemma_emit_frame;

    if s.clients.contains_key(owner) && s.clients[owner].shell_manager_id is Some {
        let c = s.clients[owner];
        let manager = c.shell_manager_id->0;
        let payload = events::restore_finished_payload(id, status, placed);
        telling::lemma_with_told_client(s, owner, c.emit(manager, 8, payload));
        if c.is_object(manager, Interface::ShellManager) {
            let words = seq![id, status, placed];
            assert(payload =~= joined_words(words)) by {
                reveal_with_fuel(joined_words, 4);
                let w2 = words.drop_last();
                let w1 = w2.drop_last();
                assert(w1.drop_last() =~= Seq::<u32>::empty());
                assert(words.last() == placed && w2.last() == status && w1.last() == id);
            }
            inputs::lemma_joined_words(words, 0);
            inputs::lemma_words(manager, 8, words, 0);
            inputs::lemma_words(manager, 8, words, 1);
            inputs::lemma_words(manager, 8, words, 2);
            if !c.emit(manager, 8, payload).overflowed {
                lemma_ending_is_queued(c, manager, payload);
            }
        }
    } else {
        assert(only_tells(s, s));
    }
}

proof fn lemma_ending_is_queued(c: ClientModel, manager: ObjectId, payload: Seq<u8>)
    requires
        c.is_object(manager, Interface::ShellManager),
        payload.len() == 12,
        !c.emit(manager, 8, payload).overflowed,
    ensures
        ({
            let after = c.emit(manager, 8, payload);
            let m = after.events.last();
            &&& after.events.len() > 0
            &&& m == wire::message(manager, 8, payload)
            &&& wire::header_fault(m) is None
            &&& wire::header_at(m).object_id == manager
            &&& wire::header_at(m).opcode == 8
        }),
{
    reveal(ClientModel::emit);
    lemma_no_ending_is_overtaken(c.events, manager, payload, 0);
    let header = wire::MessageHeader {
        object_id: manager,
        opcode: 8,
        length: (HEADER_SIZE + payload.len()) as u16,
        fd_passing: 0,
    };
    wire::law_header_round_trip(header, payload);
}

proof fn lemma_no_ending_is_overtaken(
    queued: Seq<Seq<u8>>,
    manager: ObjectId,
    payload: Seq<u8>,
    from: nat,
)
    ensures
        model::superseded(queued, Interface::ShellManager, manager, 8, payload, from) is None,
    decreases queued.len() - from,
{
    if from < queued.len() {
        lemma_no_ending_is_overtaken(queued, manager, payload, from + 1);
    }
}

/// A shell that asks to begin a restore, under a number that is not zero, has
/// one from then on: it hides nothing yet, and ends at the latest when the asked
/// time is up, within limits. While one lasts nobody can begin another: the shell
/// is told so, and nothing else changes.
pub proof fn law_restore_begins_as_asked(
    s: ServerModel,
    client_id: ClientId,
    message: Seq<u8>,
    granted: bool,
)
    requires
        s.is_sound(),
        asks_manager(s, client_id, message, 10, 8),
        s.is_shell(client_id),
        s.clients[client_id].shell_manager_id == Some(wire::header_at(message).object_id),
    ensures
        ({
            let id = word(message, 0);
            let asked_ms = word(message, 1);
            let after = s.dispatched(client_id, message, granted).0;
            let r = after.restore->0;
            let client = after.clients[client_id];
            &&& s.dispatched(client_id, message, granted).1 is None
            &&& is_taken(ServerModel { restore: after.restore, ..s }, after)
            &&& id == 0 ==> after.restore == s.restore
            &&& s.restore is Some ==> after.restore == s.restore
            &&& id != 0 && s.restore is Some ==> client.overflowed || (client.events.len() > 0
                && tells_end(
                client.events.last(),
                wire::header_at(message).object_id,
                id,
                RESTORE_BUSY,
                0,
            ))
            &&& id != 0 && s.restore is None ==> {
                &&& after.restore is Some
                &&& r.owner == client_id
                &&& r.restore_id == id
                &&& r.hidden == Set::<WindowId>::empty()
                &&& r.placements.dom() == Set::<WindowId>::empty()
                &&& MIN_SHELL_RESTORE_TIMEOUT_MS <= asked_ms <= MAX_SHELL_RESTORE_TIMEOUT_MS
                    && s.monotonic_ms + asked_ms <= u64::MAX ==> r.deadline_ms == s.monotonic_ms
                    + asked_ms
                &&& asked_ms < MIN_SHELL_RESTORE_TIMEOUT_MS && s.monotonic_ms
                    + MIN_SHELL_RESTORE_TIMEOUT_MS <= u64::MAX ==> r.deadline_ms == s.monotonic_ms
                    + MIN_SHELL_RESTORE_TIMEOUT_MS
                &&& asked_ms > MAX_SHELL_RESTORE_TIMEOUT_MS && s.monotonic_ms
                    + MAX_SHELL_RESTORE_TIMEOUT_MS <= u64::MAX ==> r.deadline_ms == s.monotonic_ms
                    + MAX_SHELL_RESTORE_TIMEOUT_MS
            }
        }),
{
    let taken = telling::lemma_asks_manager(s, client_id, message, 10, 8, granted);
    telling::lemma_all_told(s, taken);
    assert(s.clients.contains_key(client_id));
    assert(is_told(s.clients[client_id], taken.clients[client_id]));
    reveal(ServerModel::shell_followed);
    let payload = message.subrange(10, 18);
    assert(bytes::le32_at(payload, 0) == word(message, 0));
    assert(bytes::le32_at(payload, 4) == word(message, 1));
    let id = word(message, 0);
    if id != 0 && s.restore is Some {
        lemma_reported(taken, client_id, id, RESTORE_BUSY, 0);
        let after = s.dispatched(client_id, message, granted).0;
        assert(taken.clients.dom().contains(client_id));
        inputs::lemma_told_then(s, taken, after);
    }
}

// The end.

/// Whether one window lies below another.
pub open spec fn is_below(order: Seq<WindowId>, a: WindowId, b: WindowId) -> bool {
    exists|i: int, j: int|
        0 <= i < j < order.len() && #[trigger] order[i] == a && #[trigger] order[j] == b
}

pub(crate) proof fn lemma_without_keeps_order(order: Seq<WindowId>, gone: Set<WindowId>, a: WindowId, b: WindowId)
    requires
        is_below(order, a, b),
        !gone.contains(a),
        !gone.contains(b),
    ensures
        is_below(focus::without(order, gone), a, b),
    decreases order.len(),
{
    let (i, j) = choose|i: int, j: int|
        0 <= i < j < order.len() && #[trigger] order[i] == a && #[trigger] order[j] == b;
    let front = order.drop_last();
    let rest = focus::without(front, gone);
    if j < front.len() {
        assert(front[i] == a && front[j] == b);
        lemma_without_keeps_order(front, gone, a, b);
        let (x, y) = choose|x: int, y: int|
            0 <= x < y < rest.len() && #[trigger] rest[x] == a && #[trigger] rest[y] == b;
        let after = focus::without(order, gone);
        assert(after[x] == a && after[y] == b);
    } else {
        assert(front[i] == a);
        lemma_without_keeps_others(front, gone, i);
        let x = choose|x: int| 0 <= x < rest.len() && rest[x] == a;
        let after = focus::without(order, gone);
        assert(after[x] == a && after[rest.len() as int] == b);
    }
}

pub(crate) proof fn lemma_without_keeps_others(order: Seq<WindowId>, gone: Set<WindowId>, i: int)
    requires
        0 <= i < order.len(),
        !gone.contains(order[i]),
    ensures
        focus::without(order, gone).contains(order[i]),
    decreases order.len(),
{
    let front = order.drop_last();
    let rest = focus::without(front, gone);
    let after = focus::without(order, gone);
    if i < front.len() {
        lemma_without_keeps_others(front, gone, i);
        let x = choose|x: int| 0 <= x < rest.len() && rest[x] == front[i];
        assert(after[x] == order[i]);
    } else {
        assert(after[rest.len() as int] == order[i]);
    }
}

proof fn lemma_lifted_keeps_order(order: Seq<WindowId>, w: WindowId, a: WindowId, b: WindowId)
    requires
        is_below(order, a, b),
        a != w,
        b != w,
    ensures
        is_below(focus::lifted(order, w).0, a, b),
{
    let (i, j) = choose|i: int, j: int|
        0 <= i < j < order.len() && #[trigger] order[i] == a && #[trigger] order[j] == b;
    crate::server::model::lemma_rank_of(order, w, 0);
    let after = focus::lifted(order, w).0;
    if let Some(rank) = crate::server::model::rank_of(order, w, 0) {
        if rank + 1 != order.len() {
            let r = rank as int;
            let x = if i < r {
                i
            } else {
                i - 1
            };
            let y = if j < r {
                j
            } else {
                j - 1
            };
            assert(order[r] == w);
            assert(after[x] == a && after[y] == b);
        }
    }
}

/// The windows that a restore ranks are in the order of their ranks.
proof fn lemma_ranked_in_order(placements: Map<WindowId, RestorePlacement>, w: WindowId)
    requires
        placements.dom().finite(),
        placements.dom().len() <= u32::MAX,
        restore::is_contiguous(placements),
        placements.contains_key(w),
    ensures
        0 <= placements[w].z_rank < restore::ranked(placements).len(),
        restore::ranked(placements)[placements[w].z_rank as int] == w,
{
    let order = restore::ranked(placements);
    laws::law_ranks_are_a_permutation(placements);
    assert(order.to_set().contains(w));
    let i = choose|i: int| 0 <= i < order.len() && order[i] == w;
    assert(restore::window_of_rank(placements, i) is Some);
    laws::lemma_first_ranked(
        ordered::ascending_keys(placements.dom()),
        placements,
        i as u32,
        0,
    );
}

/// Whether the windows of a restore are stacked as it ranks them, above all
/// others, which stay as they were to one another; but for one that is lifted
/// above all.
pub open spec fn is_stacked(
    before: Seq<WindowId>,
    after: Seq<WindowId>,
    placements: Map<WindowId, RestorePlacement>,
    top: Option<WindowId>,
) -> bool {
    &&& forall|a: WindowId, b: WindowId|
        placements.contains_key(a) && placements.contains_key(b) && placements[a].z_rank
            < placements[b].z_rank && top != Some(a) && top != Some(b) ==> #[trigger] is_below(
            after,
            a,
            b,
        )
    &&& forall|a: WindowId, b: WindowId|
        before.contains(a) && !placements.contains_key(a) && placements.contains_key(b) && top
            != Some(a) && top != Some(b) ==> #[trigger] is_below(after, a, b)
    &&& forall|a: WindowId, b: WindowId|
        #![trigger is_below(after, a, b)]
        is_below(before, a, b) && !placements.contains_key(a) && !placements.contains_key(b) && top
            != Some(a) && top != Some(b) ==> is_below(after, a, b)
    &&& top is Some && before.contains(top->0) ==> after.len() > 0 && after.last() == top->0
}

proof fn lemma_stacked(
    before: Seq<WindowId>,
    placements: Map<WindowId, RestorePlacement>,
    top: Option<WindowId>,
)
    requires
        placements.dom().finite(),
        placements.dom().len() <= u32::MAX,
        restore::is_contiguous(placements),
        forall|w: WindowId| #[trigger] placements.contains_key(w) ==> before.contains(w),
    ensures
        ({
            let stacked = focus::without(before, placements.dom()) + restore::ranked(placements);
            is_stacked(
                before,
                match top {
                    Some(w) => focus::lifted(stacked, w).0,
                    None => stacked,
                },
                placements,
                top,
            )
        }),
{
    let rest = focus::without(before, placements.dom());
    let ranked = restore::ranked(placements);
    let stacked = rest + ranked;
    let after = match top {
        Some(w) => focus::lifted(stacked, w).0,
        None => stacked,
    };
    assert forall|a: WindowId, b: WindowId|
        placements.contains_key(a) && placements.contains_key(b) && placements[a].z_rank
            < placements[b].z_rank && top != Some(a) && top != Some(
            b,
        ) implies #[trigger] is_below(after, a, b) by {
        lemma_ranked_in_order(placements, a);
        lemma_ranked_in_order(placements, b);
        assert(stacked[rest.len() + placements[a].z_rank] == a);
        assert(stacked[rest.len() + placements[b].z_rank] == b);
        assert(is_below(stacked, a, b));
        if let Some(w) = top {
            lemma_lifted_keeps_order(stacked, w, a, b);
        }
    }
    assert forall|a: WindowId, b: WindowId|
        before.contains(a) && !placements.contains_key(a) && placements.contains_key(b) && top
            != Some(a) && top != Some(b) implies #[trigger] is_below(after, a, b) by {
        lemma_ranked_in_order(placements, b);
        let i = choose|i: int| 0 <= i < before.len() && before[i] == a;
        lemma_without_keeps_others(before, placements.dom(), i);
        let x = choose|x: int| 0 <= x < rest.len() && rest[x] == a;
        assert(stacked[x] == a);
        assert(stacked[rest.len() + placements[b].z_rank] == b);
        assert(is_below(stacked, a, b));
        if let Some(w) = top {
            lemma_lifted_keeps_order(stacked, w, a, b);
        }
    }
    assert forall|a: WindowId, b: WindowId|
        #![trigger is_below(after, a, b)]
        is_below(before, a, b) && !placements.contains_key(a) && !placements.contains_key(b) && top
            != Some(a) && top != Some(b) implies is_below(after, a, b) by {
        lemma_without_keeps_order(before, placements.dom(), a, b);
        let (x, y) = choose|x: int, y: int|
            0 <= x < y < rest.len() && #[trigger] rest[x] == a && #[trigger] rest[y] == b;
        assert(stacked[x] == a && stacked[y] == b);
        assert(is_below(stacked, a, b));
        if let Some(w) = top {
            lemma_lifted_keeps_order(stacked, w, a, b);
        }
    }
    if top is Some && before.contains(top->0) {
        let w = top->0;
        assert(stacked.contains(w)) by {
            if placements.contains_key(w) {
                lemma_ranked_in_order(placements, w);
                assert(stacked[rest.len() + placements[w].z_rank] == w);
            } else {
                let i = choose|i: int| 0 <= i < before.len() && before[i] == w;
                lemma_without_keeps_others(before, placements.dom(), i);
                let x = choose|x: int| 0 <= x < rest.len() && rest[x] == w;
                assert(stacked[x] == w);
            }
        }
        telling::lemma_lifted_is_last(stacked, w);
    }
}

// Showing what was hidden.

/// Whether a toplevel is as it was, but no longer hidden if it was.
pub open spec fn is_shown(a: ToplevelModel, b: ToplevelModel) -> bool {
    b == (ToplevelModel { hidden_for_restore: b.hidden_for_restore, ..a })
}

/// Whether all listed windows are shown, and nothing else of windows differs.
pub open spec fn are_shown(a: ServerModel, b: ServerModel, ids: Set<WindowId>) -> bool {
    &&& b.windows == a.windows
    &&& forall|o: WindowOwner|
        #![trigger b.has_toplevel(o)]
        #![trigger b.toplevel(o)]
        b.has_toplevel(o) == a.has_toplevel(o) && (a.has_toplevel(o) ==> is_shown(
            a.toplevel(o),
            b.toplevel(o),
        ))
    &&& forall|w: WindowId| #[trigger]
        ids.contains(w) && a.windows.contains_key(w) && a.has_toplevel(a.windows[w])
            ==> !b.toplevel(a.windows[w]).hidden_for_restore
    &&& forall|o: WindowOwner|
        a.has_toplevel(o) && (forall|w: WindowId| #[trigger]
            ids.contains(w) && a.windows.contains_key(w) ==> a.windows[w] != o)
            ==> #[trigger] b.toplevel(o) == a.toplevel(o)
}

proof fn lemma_unhidden(s: ServerModel, ids: Seq<WindowId>)
    ensures
        are_shown(s, s.unhidden(ids), ids.to_set()),
        s.unhidden(ids) == (ServerModel { clients: s.unhidden(ids).clients, ..s }),
        s.unhidden(ids).clients.dom() == s.clients.dom(),
        forall|id: ClientId|
            s.clients.contains_key(id) ==> (#[trigger] s.unhidden(ids).clients[id])
                == (ClientModel {
                toplevels: s.unhidden(ids).clients[id].toplevels,
                ..s.clients[id]
            }),
    decreases ids.len(),
{
    if ids.len() > 0 {
        let front = ids.drop_last();
        let last = ids.last();
        lemma_unhidden(s, front);
        let before = s.unhidden(front);
        let after = s.unhidden(ids);
        assert(after.clients.dom() =~= s.clients.dom());
        assert forall|w: WindowId| #[trigger] ids.to_set().contains(w) implies w == last
            || front.to_set().contains(w) by {
            let i = choose|i: int| 0 <= i < ids.len() && ids[i] == w;
            if i < front.len() {
                assert(front[i] == w);
            }
        }
        assert forall|w: WindowId| #[trigger] front.to_set().contains(w) implies ids.to_set().contains(
            w,
        ) by {
            let i = choose|i: int| 0 <= i < front.len() && front[i] == w;
            assert(ids[i] == w);
        }
        assert(ids.to_set().contains(last)) by {
            assert(ids[ids.len() - 1] == last);
        }
        if before.windows.contains_key(last) && before.has_toplevel(before.windows[last]) {
            let owner = before.windows[last];
            let t = ToplevelModel { hidden_for_restore: false, ..before.toplevel(owner) };
            shells::lemma_with_toplevel(before, owner, t);
            assert forall|o: WindowOwner|
                #![trigger after.has_toplevel(o)]
                #![trigger after.toplevel(o)]
                after.has_toplevel(o) == s.has_toplevel(o) && (s.has_toplevel(o) ==> is_shown(
                    s.toplevel(o),
                    after.toplevel(o),
                )) by {
                assert(before.has_toplevel(o) == s.has_toplevel(o));
                if o != owner {
                    assert(after.has_toplevel(o) == before.has_toplevel(o));
                }
            }
            assert forall|w: WindowId| #[trigger]
                ids.to_set().contains(w) && s.windows.contains_key(w) && s.has_toplevel(
                    s.windows[w],
                ) implies !after.toplevel(s.windows[w]).hidden_for_restore by {
                let o = s.windows[w];
                if o != owner {
                    assert(front.to_set().contains(w));
                    assert(before.has_toplevel(o));
                    assert(after.has_toplevel(o) == before.has_toplevel(o));
                }
            }
            assert forall|o: WindowOwner|
                s.has_toplevel(o) && (forall|w: WindowId| #[trigger]
                    ids.to_set().contains(w) && s.windows.contains_key(w) ==> s.windows[w] != o)
                implies #[trigger] after.toplevel(o) == s.toplevel(o) by {
                assert(o != owner);
                assert(before.has_toplevel(o));
                assert(after.has_toplevel(o) == before.has_toplevel(o));
                assert forall|w: WindowId| #[trigger]
                    front.to_set().contains(w) && s.windows.contains_key(w) implies s.windows[w]
                    != o by {
                    assert(ids.to_set().contains(w));
                }
                assert(before.toplevel(o) == s.toplevel(o));
            }
        } else {
            assert(after == before);
        }
    }
}


// Ending.

/// Whether a rank is that of a placed window.
pub open spec fn is_ranked(placements: Map<WindowId, RestorePlacement>, rank: int) -> bool {
    exists|w: WindowId| #[trigger] placements.contains_key(w) && placements[w].z_rank == rank
}

/// Whether every rank below the number of placed windows is that of one of them.
pub open spec fn ranks_are_full(placements: Map<WindowId, RestorePlacement>) -> bool {
    forall|rank: int| 0 <= rank < placements.dom().len() ==> #[trigger] is_ranked(placements, rank)
}

proof fn lemma_first_ranked_is_found(
    ids: Seq<WindowId>,
    placements: Map<WindowId, RestorePlacement>,
    rank: u32,
    from: nat,
    i: int,
)
    requires
        from <= i < ids.len(),
        placements[ids[i]].z_rank == rank,
    ensures
        restore::first_ranked(ids, placements, rank, from) is Some,
    decreases ids.len() - from,
{
    if placements[ids[from as int]].z_rank != rank {
        lemma_first_ranked_is_found(ids, placements, rank, from + 1, i);
    }
}

proof fn lemma_ranks_are_full(placements: Map<WindowId, RestorePlacement>)
    requires
        placements.dom().finite(),
        placements.dom().len() <= u32::MAX,
    ensures
        ranks_are_full(placements) == restore::is_contiguous(placements),
{
    let ids = ordered::ascending_keys(placements.dom());
    ordered::law_ascending_keys_list_all(placements.dom());
    if restore::is_contiguous(placements) {
        assert forall|rank: int| 0 <= rank < placements.dom().len() implies #[trigger] is_ranked(
            placements,
            rank,
        ) by {
            assert(restore::window_of_rank(placements, rank) is Some);
            let w = restore::window_of_rank(placements, rank)->0;
            laws::lemma_first_ranked(ids, placements, rank as u32, 0);
            assert(ids.to_set().contains(w));
            assert(placements.contains_key(w));
        }
    }
    if ranks_are_full(placements) {
        assert forall|rank: int| 0 <= rank < placements.dom().len() implies (
        #[trigger] restore::window_of_rank(placements, rank)) is Some by {
            assert(is_ranked(placements, rank));
            let w = choose|w: WindowId| #[trigger]
                placements.contains_key(w) && placements[w].z_rank == rank;
            assert(ids.to_set().contains(w));
            let i = choose|i: int| 0 <= i < ids.len() && ids[i] == w;
            lemma_first_ranked_is_found(ids, placements, rank as u32, 0, i);
        }
    }
}

/// Whether a message is a request of a shell to end the restore that it began.
pub open spec fn ends_own_restore(s: ServerModel, client_id: ClientId, message: Seq<u8>) -> bool {
    &&& asks_manager(s, client_id, message, 12, 8)
    &&& s.restore is Some
    &&& (s.restore->0).owner == client_id
    &&& (s.restore->0).restore_id == word(message, 0)
    &&& word(message, 0) != 0
}

/// A request to end a restore goes unheeded as long as some window that it placed
/// has not taken its place, or if it is of another restore or another shell.
pub proof fn law_restore_waits_for_its_windows(
    s: ServerModel,
    client_id: ClientId,
    message: Seq<u8>,
    granted: bool,
)
    requires
        s.is_sound(),
        asks_manager(s, client_id, message, 12, 8),
        !ends_own_restore(s, client_id, message) || exists|w: WindowId| #[trigger]
            (s.restore->0).placements.contains_key(w) && !(
            s.restore->0).placements[w].settled,
    ensures
        is_taken(s, s.dispatched(client_id, message, granted).0),
{
    let taken = telling::lemma_asks_manager(s, client_id, message, 12, 8, granted);
    reveal(ServerModel::shell_followed);
    let payload = message.subrange(10, 18);
    assert(bytes::le32_at(payload, 0) == word(message, 0));
    assert(bytes::le32_at(payload, 4) == word(message, 1));
}

/// What is shown after telling.
proof fn lemma_shown_of_told(a: ServerModel, b: ServerModel, c: ServerModel, ids: Set<WindowId>)
    requires
        are_shown(a, b, ids),
        telling::all_told(b.clients, c.clients),
        b.windows == c.windows,
    ensures
        are_shown(a, c, ids),
{
    telling::lemma_all_told(b, c);
    assert forall|o: WindowOwner|
        #![trigger c.has_toplevel(o)]
        #![trigger c.toplevel(o)]
        c.has_toplevel(o) == a.has_toplevel(o) && (a.has_toplevel(o) ==> is_shown(
            a.toplevel(o),
            c.toplevel(o),
        )) by {
        assert(b.has_toplevel(o) == a.has_toplevel(o));
        assert(c.has_toplevel(o) == b.has_toplevel(o));
    }
    assert forall|w: WindowId| #[trigger]
        ids.contains(w) && a.windows.contains_key(w) && a.has_toplevel(a.windows[w]) implies !c.toplevel(
        a.windows[w],
    ).hidden_for_restore by {
        assert(b.has_toplevel(a.windows[w]));
    }
    assert forall|o: WindowOwner|
        a.has_toplevel(o) && (forall|w: WindowId| #[trigger]
            ids.contains(w) && a.windows.contains_key(w) ==> a.windows[w] != o)
        implies #[trigger] c.toplevel(o) == a.toplevel(o) by {
        assert(b.has_toplevel(o));
        assert(b.toplevel(o) == a.toplevel(o));
    }
}

/// The same before a request was taken as after.
proof fn lemma_shown_of_taken(a: ServerModel, b: ServerModel, c: ServerModel, ids: Set<WindowId>)
    requires
        telling::all_told(a.clients, b.clients),
        a.windows == b.windows,
        are_shown(b, c, ids),
    ensures
        are_shown(a, c, ids),
{
    telling::lemma_all_told(a, b);
    assert forall|o: WindowOwner|
        #![trigger c.has_toplevel(o)]
        #![trigger c.toplevel(o)]
        c.has_toplevel(o) == a.has_toplevel(o) && (a.has_toplevel(o) ==> is_shown(
            a.toplevel(o),
            c.toplevel(o),
        )) by {
        assert(b.has_toplevel(o) == a.has_toplevel(o));
    }
    assert forall|w: WindowId| #[trigger]
        ids.contains(w) && a.windows.contains_key(w) && a.has_toplevel(a.windows[w]) implies !c.toplevel(
        a.windows[w],
    ).hidden_for_restore by {
        assert(b.has_toplevel(a.windows[w]));
    }
    assert forall|o: WindowOwner|
        a.has_toplevel(o) && (forall|w: WindowId| #[trigger]
            ids.contains(w) && a.windows.contains_key(w) ==> a.windows[w] != o)
        implies #[trigger] c.toplevel(o) == a.toplevel(o) by {
        assert(b.has_toplevel(o));
        assert(c.toplevel(o) == b.toplevel(o));
    }
}

/// Which window has the focus, and lies highest, after a restore: the one that
/// was asked for, if it was placed and can have it; else one of the shell's, else
/// one that was hidden, else any. None, only if no window can have the focus.
pub open spec fn is_restored_top(
    s: ServerModel,
    r: RestoreModel,
    asked: u32,
    top: Option<WindowId>,
) -> bool {
    let owned = exists|w: WindowId| #[trigger]
        s.is_focusable(w) && s.z_order.contains(w) && s.windows[w].client_id == r.owner;
    let was_hidden = exists|w: WindowId| #[trigger]
        s.is_focusable(w) && s.z_order.contains(w) && r.hidden.contains(w);
    &&& match top {
        Some(w) => s.is_focusable(w) && s.focus == Some(
            (s.windows[w].client_id, s.toplevel(s.windows[w]).surface_id),
        ),
        None => s.focus is None && forall|w: WindowId|
            s.z_order.contains(w) ==> !#[trigger] s.is_focusable(w),
    }
    &&& asked != 0 && r.placements.contains_key(WindowId(asked)) && s.is_focusable(
        WindowId(asked),
    ) ==> top == Some(WindowId(asked))
    &&& !(asked != 0 && r.placements.contains_key(WindowId(asked)) && s.is_focusable(
        WindowId(asked),
    )) && owned ==> top is Some && s.windows[top->0].client_id == r.owner
    &&& !(asked != 0 && r.placements.contains_key(WindowId(asked)) && s.is_focusable(
        WindowId(asked),
    )) && !owned && was_hidden ==> top is Some && r.hidden.contains(top->0)
}


/// The window that gets the focus in the end.
proof fn lemma_restored_focus(s: ServerModel, r: RestoreModel, asked: u32)
    requires
        s.is_orderly(),
    ensures
        ({
            let top = s.restored_focus(r, asked);
            is_restored_top(
                ServerModel {
                    focus: match top {
                        Some(w) => s.focus_target(w),
                        None => None,
                    },
                    ..s
                },
                r,
                asked,
                top,
            )
        }),
        s.restored_focus(r, asked) is Some ==> s.windows.contains_key(
            s.restored_focus(r, asked)->0,
        ),
{
    let top = s.restored_focus(r, asked);
    let after = ServerModel {
        focus: match top {
            Some(w) => s.focus_target(w),
            None => None,
        },
        ..s
    };
    assert forall|w: WindowId| #[trigger] after.is_focusable(w) == s.is_focusable(w) by {}
    let owned = s.focusable().intersect(s.owned_by(r.owner));
    let hidden = s.focusable().intersect(r.hidden);
    desk::lemma_topmost(s.z_order, owned);
    desk::lemma_topmost(s.z_order, hidden);
    desk::lemma_topmost(s.z_order, s.focusable());
    let direct = asked != 0 && r.placements.contains_key(WindowId(asked)) && s.is_focusable(
        WindowId(asked),
    );
    if !direct {
        let mine = s.focusable_of(r.owner);
        let focused = if s.focus is Some && (s.focus->0).0 == r.owner {
            s.window_of_focus(s.focus)
        } else {
            None
        };
        if focused is Some {
            let w = focused->0;
            let o = s.windows[w];
            assert(o.client_id == r.owner);
        }
        if mine is Some {
            assert(s.is_focusable(mine->0) && s.windows[mine->0].client_id == r.owner);
        }
        assert forall|w: WindowId| #[trigger]
            after.is_focusable(w) && after.z_order.contains(w) && after.windows[w].client_id
                == r.owner implies mine is Some by {
            assert(s.is_focusable(w));
            assert(owned.contains(w));
            let i = choose|i: int| 0 <= i < s.z_order.len() && s.z_order[i] == w;
            assert(owned.contains(s.z_order[i]));
        }
        let back = focus::topmost(s.z_order, hidden);
        assert forall|w: WindowId| #[trigger]
            after.is_focusable(w) && after.z_order.contains(w) && r.hidden.contains(
                w,
            ) implies back is Some by {
            assert(s.is_focusable(w));
            assert(hidden.contains(w));
            let i = choose|i: int| 0 <= i < s.z_order.len() && s.z_order[i] == w;
            assert(hidden.contains(s.z_order[i]));
        }
        if back is Some {
            assert(hidden.contains(back->0));
        }
        let any = s.topmost_focusable();
        if any is Some {
            assert(s.focusable().contains(any->0));
        } else {
            assert forall|w: WindowId| after.z_order.contains(w) implies !#[trigger] after.is_focusable(
                w,
            ) by {
                let i = choose|i: int| 0 <= i < s.z_order.len() && s.z_order[i] == w;
                assert(!s.focusable().contains(s.z_order[i]));
            }
        }
    }
    if top is Some {
        assert(s.is_focusable(top->0));
        assert(after.is_focusable(top->0));
        assert(after.toplevel(after.windows[top->0]) == s.toplevel(s.windows[top->0]));
    }
    let is_owned = exists|w: WindowId| #[trigger]
        after.is_focusable(w) && after.z_order.contains(w) && after.windows[w].client_id
            == r.owner;
    let was_hidden = exists|w: WindowId| #[trigger]
        after.is_focusable(w) && after.z_order.contains(w) && r.hidden.contains(w);
    if !direct && is_owned {
        let w = choose|w: WindowId| #[trigger]
            after.is_focusable(w) && after.z_order.contains(w) && after.windows[w].client_id
                == r.owner;
        assert(s.focusable_of(r.owner) is Some);
        assert(after.windows[top->0].client_id == r.owner);
    }
    if !direct && !is_owned && was_hidden {
        let w = choose|w: WindowId| #[trigger]
            after.is_focusable(w) && after.z_order.contains(w) && r.hidden.contains(w);
        assert(focus::topmost(s.z_order, hidden) is Some);
        if s.focusable_of(r.owner) is Some {
            let m = s.focusable_of(r.owner)->0;
            assert(s.windows.contains_key(m));
            assert(s.z_order.contains(m));
            assert(after.is_focusable(m));
            assert(false);
        }
        assert(r.hidden.contains(top->0));
    }
}


proof fn lemma_top_of_told(
    a: ServerModel,
    b: ServerModel,
    r: RestoreModel,
    asked: u32,
    top: Option<WindowId>,
)
    requires
        is_restored_top(a, r, asked, top),
        telling::all_told(a.clients, b.clients),
        a.windows == b.windows,
        a.focus == b.focus,
        forall|w: WindowId| #[trigger] a.z_order.contains(w) == b.z_order.contains(w),
    ensures
        is_restored_top(b, r, asked, top),
{
    telling::lemma_all_told(a, b);
    assert forall|w: WindowId| #[trigger] a.is_focusable(w) == b.is_focusable(w) by {
        assert(b.is_focusable(w) == a.is_focusable(w));
    }
    if top is Some {
        let o = a.windows[top->0];
        assert(b.toplevel(o) == a.toplevel(o));
    }
    if exists|w: WindowId| #[trigger]
        b.is_focusable(w) && b.z_order.contains(w) && b.windows[w].client_id == r.owner {
        let w = choose|w: WindowId| #[trigger]
            b.is_focusable(w) && b.z_order.contains(w) && b.windows[w].client_id == r.owner;
        assert(a.is_focusable(w) && a.z_order.contains(w));
    }
    if exists|w: WindowId| #[trigger]
        a.is_focusable(w) && a.z_order.contains(w) && a.windows[w].client_id == r.owner {
        let w = choose|w: WindowId| #[trigger]
            a.is_focusable(w) && a.z_order.contains(w) && a.windows[w].client_id == r.owner;
        assert(b.is_focusable(w) && b.z_order.contains(w));
    }
    if exists|w: WindowId| #[trigger]
        b.is_focusable(w) && b.z_order.contains(w) && r.hidden.contains(w) {
        let w = choose|w: WindowId| #[trigger]
            b.is_focusable(w) && b.z_order.contains(w) && r.hidden.contains(w);
        assert(a.is_focusable(w) && a.z_order.contains(w));
    }
}

/// What ending a restore well comes to.
pub open spec fn is_restored(
    a: ServerModel,
    b: ServerModel,
    r: RestoreModel,
    asked: u32,
    top: Option<WindowId>,
) -> bool {
    &&& b.restore is None
    &&& are_shown(a, b, r.hidden)
    &&& is_stacked(a.z_order, b.z_order, r.placements, top)
    &&& is_restored_top(b, r, asked, top)
    &&& b.drag == a.drag
    &&& a.clients.dom().finite() && a.frame.is_whole() && !a.deferred ==> is_up_to_date(b)
}

proof fn lemma_restore_completed(s: ServerModel, asked: u32) -> (top: Option<WindowId>)
    requires
        s.is_orderly(),
        s.restore is Some,
        restore::is_contiguous((s.restore->0).placements),
    ensures
        is_restored(s, s.restore_completed(s.restore->0, asked), s.restore->0, asked, top),
        telling::all_told(
            s.unhidden(ordered::ascending_keys((s.restore->0).hidden)).clients,
            s.restore_completed(s.restore->0, asked).clients,
        ),
        ({
            let r = s.restore->0;
            let c = s.clients[r.owner];
            let after = s.restore_completed(r, asked).clients[r.owner];
            s.clients.contains_key(r.owner) && c.shell_manager_id is Some && c.is_object(
                c.shell_manager_id->0,
                Interface::ShellManager,
            ) ==> after.overflowed || (after.events.len() > 0 && tells_end(
                after.events.last(),
                c.shell_manager_id->0,
                r.restore_id,
                RESTORE_COMPLETED,
                r.placements.dom().len() as u32,
            ))
        }),
{
    broadcast use telling::group_shows;

    reveal(ServerModel::restore_completed);
    let r = s.restore->0;
    laws::lemma_few_restored(s);
    laws::lemma_restacked(s);
    let over = ServerModel { restore: None, ..s };
    let order = focus::without(over.z_order, r.placements.dom()) + restore::ranked(r.placements);
    let stacked = ServerModel { z_order: order, ..over };
    let ids = ordered::ascending_keys(r.hidden);
    ordered::law_ascending_keys_list_all(r.hidden);
    let shown = stacked.unhidden(ids);
    lemma_unhidden(stacked, ids);
    lemma_unhidden(s, ids);
    lemma_unhidden_alike(s, stacked, ids);
    assert(are_shown(s, shown, r.hidden));
    let top = shown.restored_focus(r, asked);
    lemma_restored_focus(shown, r, asked);
    let target = match top {
        Some(w) => shown.focus_target(w),
        None => None,
    };
    let moved = shown.focused(target);
    let aimed = ServerModel { focus: target, ..shown };
    assert(only_tells(aimed, moved));
    let last = match top {
        Some(w) => focus::lifted(order, w).0,
        None => order,
    };
    let lifted = ServerModel { z_order: last, ..moved };
    let drawn = lifted.changed(DamageModel::Full);
    assert(only_shows(lifted, drawn));
    let after = s.restore_completed(r, asked);
    let different = restore::with_window(
        restore::with_window(
            r.hidden.union(restore::reranked(s.z_order, drawn.z_order, drawn.z_order.len())),
            over.window_of_focus(over.focus),
        ),
        top,
    );
    let told = drawn.announce_states(ordered::ascending_keys(different));
    let focused = told.announce_focus(top);
    assert(only_tells(drawn, told));
    assert(only_tells(told, focused));
    lemma_reported(
        focused,
        r.owner,
        r.restore_id,
        RESTORE_COMPLETED,
        r.placements.dom().len() as u32,
    );
    telling::lemma_tells_then(drawn, told, focused);
    telling::lemma_tells_then(drawn, focused, after);
    inputs::lemma_told_then(shown, moved, drawn);
    inputs::lemma_told_then(shown, drawn, after);
    inputs::lemma_told_then(shown, drawn, focused);
    lemma_shown_of_told(s, shown, after, r.hidden);
    lemma_stacked(s.z_order, r.placements, top);
    assert forall|w: WindowId| #[trigger] aimed.z_order.contains(w) == after.z_order.contains(w) by {
        if let Some(t) = top {
            assert(order.contains(t));
            telling::lemma_lifted_is_last(order, t);
        }
    }
    lemma_top_of_told(aimed, after, r, asked, top);
    if s.clients.dom().finite() && s.frame.is_whole() && !s.deferred {
        promises::law_picture_is_of_the_scene(lifted, DamageModel::Full);
        telling::lemma_telling_keeps_picture(drawn, after);
    }
    if s.clients.contains_key(r.owner) {
        assert(shown.clients.dom().contains(r.owner));
        assert(shown.clients.contains_key(r.owner));
        assert(focused.clients.dom().contains(r.owner));
        assert(is_told(shown.clients[r.owner], focused.clients[r.owner]));
    }
    top
}

/// What is hidden does not depend on the order.
proof fn lemma_unhidden_alike(a: ServerModel, b: ServerModel, ids: Seq<WindowId>)
    requires
        a.clients == b.clients,
        a.windows == b.windows,
    ensures
        a.unhidden(ids).clients == b.unhidden(ids).clients,
        a.unhidden(ids).windows == b.unhidden(ids).windows,
    decreases ids.len(),
{
    if ids.len() > 0 {
        lemma_unhidden_alike(a, b, ids.drop_last());
    }
}

/// A restore whose windows have all taken their places, with every rank given
/// out, ends well when its shell asks for it. Every window that it held back is
/// shown, and nothing else of any window changes. The placed windows lie in the
/// order of their ranks above all others, which keep their order. The window that
/// the shell asks for has the focus, and lies highest; if it cannot, one of the
/// shell's, or one that was hidden, or any other that can. The shell is told.
pub proof fn law_restore_ends_as_asked(
    s: ServerModel,
    client_id: ClientId,
    message: Seq<u8>,
    granted: bool,
)
    requires
        s.is_sound(),
        ends_own_restore(s, client_id, message),
        forall|w: WindowId| #[trigger]
            (s.restore->0).placements.contains_key(w) ==> (s.restore->0).placements[w].settled,
        ranks_are_full((s.restore->0).placements),
    ensures
        ({
            let r = s.restore->0;
            let after = s.dispatched(client_id, message, granted).0;
            let client = after.clients[client_id];
            let c = s.clients[client_id];
            &&& s.dispatched(client_id, message, granted).1 is None
            &&& exists|top: Option<WindowId>| #[trigger]
                is_restored(s, after, r, word(message, 1), top)
            &&& c.shell_manager_id == Some(wire::header_at(message).object_id)
                ==> client.overflowed || (client.events.len() > 0 && tells_end(
                client.events.last(),
                wire::header_at(message).object_id,
                r.restore_id,
                RESTORE_COMPLETED,
                r.placements.dom().len() as u32,
            ))
        }),
{
    let r = s.restore->0;
    let taken = telling::lemma_asks_manager(s, client_id, message, 12, 8, granted);
    reveal(ServerModel::shell_followed);
    let payload = message.subrange(10, 18);
    assert(bytes::le32_at(payload, 0) == word(message, 0));
    assert(bytes::le32_at(payload, 4) == word(message, 1));
    laws::lemma_few_restored(s);
    lemma_ranks_are_full(r.placements);
    assert(restore::all_settled(r.placements));
    let after = s.dispatched(client_id, message, granted).0;
    assert(after == taken.restore_completed(r, word(message, 1)));
    assert(taken.is_orderly());
    let top = lemma_restore_completed(taken, word(message, 1));
    lemma_shown_of_taken(s, taken, after, r.hidden);
    assert(is_restored(s, after, r, word(message, 1), top));
    assert(s.clients.contains_key(client_id));
    assert(taken.clients.dom().contains(client_id));
    assert(is_told(s.clients[client_id], taken.clients[client_id]));
}


// Giving up.

/// What giving a restore up comes to: every window that it held back is shown,
/// in the order in which the windows are. The focus stays; if there is none, a
/// window gets it that can have it, one of the shell's before others.
pub open spec fn is_given_up(a: ServerModel, b: ServerModel, r: RestoreModel) -> bool {
    &&& b.restore is None
    &&& are_shown(a, b, r.hidden)
    &&& b.z_order == a.z_order
    &&& b.drag == a.drag
    &&& a.focus is Some ==> b.focus == a.focus
    &&& a.focus is None ==> {
        let owned = exists|w: WindowId| #[trigger]
            b.is_focusable(w) && b.z_order.contains(w) && b.windows[w].client_id == r.owner;
        &&& owned ==> b.focus is Some && (b.focus->0).0 == r.owner
        &&& !owned ==> desk::is_highest(b, b.focus)
    }
    &&& a.clients.dom().finite() && a.frame.is_whole() && !a.deferred ==> is_up_to_date(b)
}

#[verifier::rlimit(40)]
proof fn lemma_restore_aborted(s: ServerModel, status: u32, notify_owner: bool)
    requires
        s.is_orderly(),
        s.restore is Some,
    ensures
        is_given_up(s, s.restore_aborted(status, notify_owner), s.restore->0),
        notify_owner ==> ({
            let r = s.restore->0;
            let c = s.clients[r.owner];
            let after = s.restore_aborted(status, notify_owner).clients[r.owner];
            s.clients.contains_key(r.owner) && c.shell_manager_id is Some && c.is_object(
                c.shell_manager_id->0,
                Interface::ShellManager,
            ) ==> after.overflowed || (after.events.len() > 0 && tells_end(
                after.events.last(),
                c.shell_manager_id->0,
                r.restore_id,
                status,
                r.placements.dom().len() as u32,
            ))
        }),
{
    broadcast use telling::group_shows;

    reveal(ServerModel::restore_aborted);
    let r = s.restore->0;
    laws::lemma_few_restored(s);
    let ids = ordered::ascending_keys(r.hidden);
    ordered::law_ascending_keys_list_all(r.hidden);
    let over = ServerModel { restore: None, ..s };
    let shown = over.unhidden(ids);
    lemma_unhidden(over, ids);
    assert(are_shown(s, shown, r.hidden)) by {
        assert(are_shown(over, shown, r.hidden));
        assert forall|o: WindowOwner| #[trigger] over.has_toplevel(o) == s.has_toplevel(o) by {}
        lemma_shown_of_taken(s, over, shown, r.hidden);
    }
    let next = restore::or_else(shown.focusable_of(r.owner), shown.topmost_focusable());
    let moves = shown.focus is None && next is Some;
    let target = shown.focus_target(next->0);
    let moved = if moves {
        shown.focused(target)
    } else {
        shown
    };
    let aimed = ServerModel { focus: moved.focus, ..shown };
    assert(only_tells(aimed, moved)) by {
        telling::lemma_focused(shown, target);
    }
    let drawn = moved.changed(DamageModel::Full);
    assert(only_shows(moved, drawn));
    let told = drawn.announce_states(ids);
    assert(only_tells(drawn, told));
    let focused = told.announce_focus(told.window_of_focus(told.focus));
    assert(only_tells(told, focused));
    let placed = r.placements.dom().len() as u32;
    lemma_reported(focused, r.owner, r.restore_id, status, placed);
    let after = s.restore_aborted(status, notify_owner);
    assert(only_tells(focused, after));
    telling::lemma_tells_then(drawn, told, focused);
    telling::lemma_tells_then(drawn, focused, after);
    telling::lemma_shows_then(aimed, moved, drawn);
    telling::lemma_shows_then(aimed, drawn, after);
    lemma_shown_of_told(s, shown, after, r.hidden);
    if s.focus is None {
        lemma_next_focus(shown, r.owner);
        telling::lemma_all_told(aimed, after);
        assert forall|w: WindowId| #[trigger] after.is_focusable(w) == shown.is_focusable(w) by {
            assert(after.is_focusable(w) == aimed.is_focusable(w));
            assert(aimed.is_focusable(w) == shown.is_focusable(w));
        }
        let owned = exists|w: WindowId| #[trigger]
            after.is_focusable(w) && after.z_order.contains(w) && after.windows[w].client_id
                == r.owner;
        if owned {
            let w = choose|w: WindowId| #[trigger]
                after.is_focusable(w) && after.z_order.contains(w) && after.windows[w].client_id
                    == r.owner;
            assert(shown.is_focusable(w) && shown.z_order.contains(w));
            assert(shown.focusable_of(r.owner) is Some);
            assert(shown.is_focusable(next->0));
            assert(moved.focus == target);
        } else {
            if shown.focusable_of(r.owner) is Some {
                let m = shown.focusable_of(r.owner)->0;
                assert(shown.is_focusable(m));
                assert(shown.windows.contains_key(m));
                assert(s.windows.contains_key(m));
                assert(shown.z_order.contains(m));
                assert(after.is_focusable(m));
                assert(false);
            }
            assert(desk::is_highest(aimed, moved.focus)) by {
                lemma_topmost_is_highest(shown, aimed);
            }
            desk::lemma_highest_of_told(aimed, after, moved.focus);
        }
    }
    if s.clients.dom().finite() && s.frame.is_whole() && !s.deferred {
        promises::law_picture_is_of_the_scene(moved, DamageModel::Full);
        telling::lemma_telling_keeps_picture(drawn, after);
    }
    if notify_owner && s.clients.contains_key(r.owner) {
        assert(shown.clients.dom().contains(r.owner));
        assert(aimed.clients.contains_key(r.owner));
        telling::lemma_shows_then(aimed, drawn, focused);
        assert(focused.clients.dom().contains(r.owner));
        assert(is_told(aimed.clients[r.owner], focused.clients[r.owner]));
    }
}

/// A window of a connection that can have the focus is found if there is one.
proof fn lemma_next_focus(s: ServerModel, owner: ClientId)
    requires
        s.is_orderly(),
    ensures
        match s.focusable_of(owner) {
            Some(w) => s.is_focusable(w) && s.windows[w].client_id == owner,
            None => forall|w: WindowId|
                s.z_order.contains(w) && #[trigger] s.is_focusable(w) ==> s.windows[w].client_id
                    != owner,
        },
{
    let owned = s.focusable().intersect(s.owned_by(owner));
    desk::lemma_topmost(s.z_order, owned);
    assert forall|w: WindowId| #[trigger] owned.contains(w) == (s.is_focusable(w)
        && s.windows[w].client_id == owner) by {}
    let focused = if s.focus is Some && (s.focus->0).0 == owner {
        s.window_of_focus(s.focus)
    } else {
        None
    };
    if focused is Some {
        assert(s.windows[focused->0].client_id == owner);
    }
    if s.focusable_of(owner) is None {
        assert forall|w: WindowId| s.z_order.contains(w) && #[trigger] s.is_focusable(
            w,
        ) implies s.windows[w].client_id != owner by {
            let i = choose|i: int| 0 <= i < s.z_order.len() && s.z_order[i] == w;
            assert(!owned.contains(s.z_order[i]));
        }
    }
}

/// The highest window that can have the focus.
proof fn lemma_topmost_is_highest(s: ServerModel, aimed: ServerModel)
    requires
        aimed == (ServerModel { focus: aimed.focus, ..s }),
        s.topmost_focusable() is Some ==> aimed.focus == s.focus_target(s.topmost_focusable()->0),
        s.topmost_focusable() is None ==> aimed.focus is None,
    ensures
        desk::is_highest(aimed, aimed.focus),
{
    desk::lemma_topmost(s.z_order, s.focusable());
    assert forall|w: WindowId| #[trigger] aimed.is_focusable(w) == s.focusable().contains(w) by {
        assert(aimed.is_focusable(w) == s.is_focusable(w));
    }
    if let Some(w) = s.topmost_focusable() {
        let i = choose|i: int|
            0 <= i < s.z_order.len() && #[trigger] s.z_order[i] == w && s.focusable().contains(w)
                && forall|j: int|
                i < j < s.z_order.len() ==> !s.focusable().contains(#[trigger] s.z_order[j]);
        assert(aimed.is_focusable(aimed.z_order[i]));
        assert(aimed.toplevel(aimed.windows[w]) == s.toplevel(s.windows[w]));
        assert forall|j: int| i < j < aimed.z_order.len() implies !aimed.is_focusable(
            #[trigger] aimed.z_order[j],
        ) by {
            assert(!s.focusable().contains(s.z_order[j]));
        }
    } else {
        assert forall|j: int| 0 <= j < aimed.z_order.len() implies !aimed.is_focusable(
            #[trigger] aimed.z_order[j],
        ) by {
            assert(!s.focusable().contains(s.z_order[j]));
        }
    }
}

/// A restore that has taken too long is given up, and its shell is told so.
pub proof fn law_overdue_restore_is_given_up(s: ServerModel, now_ms: u64)
    requires
        s.is_sound(),
        s.restore is Some,
        now_ms >= (s.restore->0).deadline_ms,
    ensures
        ({
            let r = s.restore->0;
            let after = s.at_time(now_ms);
            let c = s.clients[r.owner];
            let client = after.clients[r.owner];
            &&& is_given_up(s, after, r)
            &&& s.clients.contains_key(r.owner) && c.shell_manager_id is Some && c.is_object(
                c.shell_manager_id->0,
                Interface::ShellManager,
            ) ==> client.overflowed || (client.events.len() > 0 && tells_end(
                client.events.last(),
                c.shell_manager_id->0,
                r.restore_id,
                RESTORE_TIMED_OUT,
                r.placements.dom().len() as u32,
            ))
        }),
{
    let r = s.restore->0;
    let later = ServerModel {
        monotonic_ms: crate::arith::max_int(s.monotonic_ms as int, now_ms as int) as u64,
        ..s
    };
    assert(later.is_orderly());
    lemma_restore_aborted(later, RESTORE_TIMED_OUT, true);
    let after = s.at_time(now_ms);
    assert forall|o: WindowOwner| #[trigger] later.has_toplevel(o) == s.has_toplevel(o) by {}
    lemma_shown_of_taken(s, later, after, r.hidden);
}

/// A restore whose windows have all taken their places, but whose ranks leave a
/// gap, is given up when its shell asks for its end, and the shell is told so.
pub proof fn law_gapped_restore_is_given_up(
    s: ServerModel,
    client_id: ClientId,
    message: Seq<u8>,
    granted: bool,
)
    requires
        s.is_sound(),
        ends_own_restore(s, client_id, message),
        forall|w: WindowId| #[trigger]
            (s.restore->0).placements.contains_key(w) ==> (s.restore->0).placements[w].settled,
        !ranks_are_full((s.restore->0).placements),
    ensures
        ({
            let r = s.restore->0;
            let after = s.dispatched(client_id, message, granted).0;
            let client = after.clients[client_id];
            &&& is_given_up(s, after, r)
            &&& s.clients[client_id].shell_manager_id == Some(wire::header_at(message).object_id)
                ==> client.overflowed || (client.events.len() > 0 && tells_end(
                client.events.last(),
                wire::header_at(message).object_id,
                r.restore_id,
                RESTORE_ABORTED,
                r.placements.dom().len() as u32,
            ))
        }),
{
    let r = s.restore->0;
    let taken = telling::lemma_asks_manager(s, client_id, message, 12, 8, granted);
    reveal(ServerModel::shell_followed);
    let payload = message.subrange(10, 18);
    assert(bytes::le32_at(payload, 0) == word(message, 0));
    laws::lemma_few_restored(s);
    lemma_ranks_are_full(r.placements);
    assert(restore::all_settled(r.placements));
    let after = s.dispatched(client_id, message, granted).0;
    assert(after == taken.restore_aborted(RESTORE_ABORTED, true));
    assert(taken.is_orderly());
    lemma_restore_aborted(taken, RESTORE_ABORTED, true);
    lemma_shown_of_taken(s, taken, after, r.hidden);
    assert(s.clients.contains_key(client_id));
    assert(taken.clients.dom().contains(client_id));
    assert(is_told(s.clients[client_id], taken.clients[client_id]));
}

} // verus!
