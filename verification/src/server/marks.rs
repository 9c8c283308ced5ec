//! How windows are numbered within their processes, and which are hidden until
//! a restore ends.

use vstd::prelude::*;

use crate::caps::CapSet;
use crate::client::accounts;
use crate::client::model::ClientModel;
use crate::events;
use crate::ids::{ClientId, WindowId, WindowOwner};
use crate::objects::Interface;
use crate::ordered;
use crate::requests::{ShellManagerBeginRestore, ShellManagerEndRestore, XdgShellGetToplevel};
use crate::server::connections;
use crate::server::focus;
use crate::server::frames::Drain;
use crate::server::holdings;
use crate::server::holdings::{held_back, keeps_marks, mark};
use crate::server::laws;
use crate::server::model::ServerModel;
use crate::server::restore;
use crate::server::sound;
use crate::wire;
use crate::wire::HEADER_SIZE;

verus! {

impl ServerModel {
    /// The process that a toplevel is of.
    pub open spec fn process(self, owner: WindowOwner) -> u32 {
        self.clients[owner.client_id].peer_pid
    }

    /// Whether no two windows of a known process have the same number, and the
    /// next number of a process is higher than all that it has.
    pub open spec fn numbers_are_apart(self) -> bool {
        &&& forall|a: WindowOwner, b: WindowOwner|
            a != b && #[trigger] self.has_toplevel(a) && #[trigger] self.has_toplevel(b)
                && self.process(a) == self.process(b) && self.process(a) != 0 ==> self.toplevel(
                a,
            ).ordinal != self.toplevel(b).ordinal
        &&& forall|o: WindowOwner| #[trigger]
            self.has_toplevel(o) && self.process(o) != 0 ==> self.toplevel(o).ordinal
                < self.next_ordinal(self.process(o))
    }

    /// Whether a restore holds back a toplevel's window.
    pub open spec fn is_held_back(self, owner: WindowOwner) -> bool {
        self.restore is Some && (self.restore->0).hidden.contains(self.window_ids[owner])
    }

    /// Whether the hidden toplevels are those that a restore holds back.
    pub open spec fn hiding_is_for_restore(self) -> bool {
        forall|o: WindowOwner| #[trigger]
            self.has_toplevel(o) ==> self.toplevel(o).hidden_for_restore == self.is_held_back(o)
    }

    /// What holds of numbers and hidden windows at all times.
    pub open spec fn is_marked(self) -> bool {
        self.numbers_are_apart() && self.hiding_is_for_restore()
    }
}

/// Whether the toplevels of the later state were there before, with the same
/// number, and hidden if they were.
pub open spec fn carries(a: ServerModel, b: ServerModel) -> bool {
    forall|o: WindowOwner| #[trigger]
        b.has_toplevel(o) ==> {
            &&& a.has_toplevel(o)
            &&& b.process(o) == a.process(o)
            &&& mark(b.toplevel(o)) == mark(a.toplevel(o))
        }
}

proof fn lemma_marks_of(s: ServerModel, o: WindowOwner)
    ensures
        s.has_toplevel(o) == (s.marks().contains_key(o.client_id) && (
        s.marks()[o.client_id].1).contains_key(o.toplevel_id)),
        s.has_toplevel(o) ==> (s.marks()[o.client_id]).0 == s.process(o) && (
        s.marks()[o.client_id].1)[o.toplevel_id] == mark(s.toplevel(o)),
{
    reveal(ServerModel::marks);
    reveal(ClientModel::marks);
}

proof fn lemma_same_marks(a: ServerModel, b: ServerModel)
    requires
        a.marks() == b.marks(),
    ensures
        carries(a, b),
        carries(b, a),
{
    assert forall|o: WindowOwner| #[trigger] b.has_toplevel(o) implies {
        &&& a.has_toplevel(o)
        &&& b.process(o) == a.process(o)
        &&& mark(b.toplevel(o)) == mark(a.toplevel(o))
    } by {
        lemma_marks_of(a, o);
        lemma_marks_of(b, o);
    }
    assert forall|o: WindowOwner| #[trigger] a.has_toplevel(o) implies {
        &&& b.has_toplevel(o)
        &&& b.process(o) == a.process(o)
        &&& mark(b.toplevel(o)) == mark(a.toplevel(o))
    } by {
        lemma_marks_of(a, o);
        lemma_marks_of(b, o);
    }
}

/// Fewer toplevels, numbered as they were.
proof fn lemma_carry_numbers(a: ServerModel, b: ServerModel)
    requires
        a.numbers_are_apart(),
        carries(a, b),
        b.ordinals == a.ordinals,
    ensures
        b.numbers_are_apart(),
{
    assert forall|x: WindowOwner, y: WindowOwner|
        x != y && #[trigger] b.has_toplevel(x) && #[trigger] b.has_toplevel(y) && b.process(x)
            == b.process(y) && b.process(x) != 0 implies b.toplevel(x).ordinal != b.toplevel(
        y,
    ).ordinal by {
        assert(a.has_toplevel(x) && a.has_toplevel(y));
        assert(mark(b.toplevel(x)) == mark(a.toplevel(x)));
        assert(mark(b.toplevel(y)) == mark(a.toplevel(y)));
    }
    assert forall|o: WindowOwner| #[trigger] b.has_toplevel(o) && b.process(o)
        != 0 implies b.toplevel(o).ordinal < b.next_ordinal(b.process(o)) by {
        assert(a.has_toplevel(o));
        assert(mark(b.toplevel(o)) == mark(a.toplevel(o)));
    }
}

/// A step that leaves marks alone keeps them right.
proof fn lemma_keeps_marked(a: ServerModel, b: ServerModel)
    requires
        a.is_marked(),
        b.window_ids == a.window_ids,
        keeps_marks(a, b),
    ensures
        b.is_marked(),
{
    lemma_same_marks(a, b);
    lemma_carry_numbers(a, b);
    assert forall|o: WindowOwner| #[trigger] b.has_toplevel(o) implies b.toplevel(
        o,
    ).hidden_for_restore == b.is_held_back(o) by {
        assert(a.has_toplevel(o));
        assert(mark(b.toplevel(o)) == mark(a.toplevel(o)));
    }
}

// Restores.

/// Windows that are no longer hidden: the listed ones, and no others.
proof fn lemma_unhidden(s: ServerModel, window_ids: Seq<WindowId>)
    ensures
        ({
            let after = s.unhidden(window_ids);
            &&& after.windows == s.windows
            &&& after.window_ids == s.window_ids
            &&& after.ordinals == s.ordinals
            &&& after.restore == s.restore
            &&& forall|o: WindowOwner| #[trigger] after.has_toplevel(o) == s.has_toplevel(o)
            &&& forall|o: WindowOwner| #[trigger]
                after.has_toplevel(o) ==> {
                    &&& after.process(o) == s.process(o)
                    &&& after.toplevel(o).ordinal == s.toplevel(o).ordinal
                    &&& after.toplevel(o).hidden_for_restore ==> s.toplevel(o).hidden_for_restore
                }
            &&& forall|i: int|
                0 <= i < window_ids.len() && s.windows.contains_key(#[trigger] window_ids[i])
                    && s.has_toplevel(s.windows[window_ids[i]]) ==> !after.toplevel(
                    s.windows[window_ids[i]],
                ).hidden_for_restore
        }),
    decreases window_ids.len(),
{
    if window_ids.len() > 0 {
        let front = window_ids.drop_last();
        lemma_unhidden(s, front);
        let before = s.unhidden(front);
        let after = s.unhidden(window_ids);
        assert forall|o: WindowOwner| #[trigger] after.has_toplevel(o) == before.has_toplevel(o) by {
        }
        assert forall|o: WindowOwner| #[trigger] after.has_toplevel(o) implies {
            &&& after.process(o) == before.process(o)
            &&& after.toplevel(o).ordinal == before.toplevel(o).ordinal
            &&& after.toplevel(o).hidden_for_restore ==> before.toplevel(o).hidden_for_restore
        } by {
            assert(before.has_toplevel(o));
        }
        assert forall|i: int|
            0 <= i < window_ids.len() && s.windows.contains_key(#[trigger] window_ids[i])
                && s.has_toplevel(s.windows[window_ids[i]]) implies !after.toplevel(
            s.windows[window_ids[i]],
        ).hidden_for_restore by {
            let o = s.windows[window_ids[i]];
            assert(before.has_toplevel(o) == s.has_toplevel(o));
            assert(after.has_toplevel(o) == before.has_toplevel(o));
            if i < front.len() {
                assert(front[i] == window_ids[i]);
            }
        }
    }
}

/// When a restore ends, in whatever way, nothing stays hidden.
proof fn lemma_shown_again(s: ServerModel, over: ServerModel)
    requires
        s.is_sound(),
        s.is_marked(),
        s.restore is Some,
        over.restore is None,
        over.clients == s.clients,
        over.windows == s.windows,
        over.window_ids == s.window_ids,
        over.ordinals == s.ordinals,
    ensures
        over.unhidden(ordered::ascending_keys((s.restore->0).hidden)).is_marked(),
{
    let hidden = (s.restore->0).hidden;
    let ids = ordered::ascending_keys(hidden);
    let after = over.unhidden(ids);
    laws::lemma_few_restored(s);
    ordered::law_ascending_keys_list_all(hidden);
    lemma_unhidden(over, ids);
    assert forall|o: WindowOwner| #[trigger] after.has_toplevel(o) implies !after.toplevel(
        o,
    ).hidden_for_restore && s.has_toplevel(o) by {
        assert(over.has_toplevel(o));
        assert(s.has_toplevel(o));
        if s.is_held_back(o) {
            let w = s.window_ids[o];
            assert(ids.to_set().contains(w));
            let i = choose|i: int| 0 <= i < ids.len() && ids[i] == w;
            assert(s.window_ids.contains_key(o));
            assert(over.windows[ids[i]] == o);
        }
    }
    assert(after.numbers_are_apart()) by {
        assert forall|x: WindowOwner, y: WindowOwner|
            x != y && #[trigger] after.has_toplevel(x) && #[trigger] after.has_toplevel(y)
                && after.process(x) == after.process(y) && after.process(x)
                != 0 implies after.toplevel(x).ordinal != after.toplevel(y).ordinal by {
            assert(s.has_toplevel(x) && s.has_toplevel(y));
            assert(over.toplevel(x) == s.toplevel(x) && over.toplevel(y) == s.toplevel(y));
        }
        assert forall|o: WindowOwner| #[trigger] after.has_toplevel(o) && after.process(o)
            != 0 implies after.toplevel(o).ordinal < after.next_ordinal(after.process(o)) by {
            assert(s.has_toplevel(o));
            assert(over.toplevel(o) == s.toplevel(o));
        }
    }
}

proof fn lemma_restore_aborted(s: ServerModel, status: u32, notify_owner: bool)
    requires
        s.is_sound(),
        s.is_marked(),
    ensures
        s.restore_aborted(status, notify_owner).is_marked(),
        s.restore_aborted(status, notify_owner).restore is None,
{
    broadcast use {holdings::group_holdings, holdings::lemma_restore_reported};

    reveal(ServerModel::restore_aborted);
    if s.restore is Some {
        let r = s.restore->0;
        let hidden = ordered::ascending_keys(r.hidden);
        let over = ServerModel { restore: None, ..s };
        lemma_shown_again(s, over);
        let shown = over.unhidden(hidden);
        lemma_unhidden(over, hidden);
        let end = s.restore_aborted(status, notify_owner);
        assert(holdings::leaves_alone(shown, end));
        lemma_keeps_marked(shown, end);
    }
}

proof fn lemma_restore_completed(s: ServerModel, asked: u32)
    requires
        s.is_sound(),
        s.is_marked(),
        s.restore is Some,
    ensures
        s.restore_completed(s.restore->0, asked).is_marked(),
        s.restore_completed(s.restore->0, asked).restore is None,
{
    broadcast use {holdings::group_holdings, holdings::lemma_restore_reported};

    reveal(ServerModel::restore_completed);
    let r = s.restore->0;
    let stacked = ServerModel {
        z_order: focus::without(s.z_order, r.placements.dom()) + restore::ranked(r.placements),
        restore: None,
        ..s
    };
    lemma_shown_again(s, stacked);
    let hidden = ordered::ascending_keys(r.hidden);
    let shown = stacked.unhidden(hidden);
    lemma_unhidden(stacked, hidden);
    let focus = shown.restored_focus(r, asked);
    let moved = shown.focused(
        match focus {
            Some(w) => shown.focus_target(w),
            None => None,
        },
    );
    let lifted = ServerModel {
        z_order: match focus {
            Some(w) => focus::lifted(moved.z_order, w).0,
            None => moved.z_order,
        },
        ..moved
    };
    holdings::lemma_rest(moved, lifted);
    let end = s.restore_completed(r, asked);
    assert(holdings::leaves_alone(lifted, end));
    lemma_keeps_marked(shown, end);
}

/// Once its time is up, a restore is over and no window stays hidden; before
/// that, the passing of time hides and shows nothing.
pub proof fn law_restore_fails_open(s: ServerModel, now_ms: u64)
    requires
        s.is_sound(),
        s.is_marked(),
    ensures
        ({
            let after = s.at_time(now_ms);
            let overdue = s.restore is Some && (now_ms >= (s.restore->0).deadline_ms
                || s.monotonic_ms >= (s.restore->0).deadline_ms);
            &&& after.is_marked()
            &&& overdue ==> after.restore is None && forall|o: WindowOwner| #[trigger]
                after.has_toplevel(o) ==> !after.toplevel(o).hidden_for_restore
            &&& !overdue ==> after == (ServerModel { monotonic_ms: after.monotonic_ms, ..s })
        }),
{
    let later = ServerModel {
        monotonic_ms: crate::arith::max_int(s.monotonic_ms as int, now_ms as int) as u64,
        ..s
    };
    holdings::lemma_rest(s, later);
    laws::lemma_same_desk_keeps_order(s, later);
    sound::law_holdings_keep_sound(s, later);
    lemma_keeps_marked(s, later);
    lemma_restore_aborted(later, events::RESTORE_TIMED_OUT, true);
}

// Requests.

/// What follows a shell's request keeps the marks right.
proof fn lemma_shell_followed(
    s: ServerModel,
    client_id: ClientId,
    opcode: u16,
    payload: Seq<u8>,
    reserved: bool,
)
    requires
        s.is_sound(),
        s.is_marked(),
    ensures
        s.shell_followed(client_id, opcode, payload, reserved).is_marked(),
{
    let end = s.shell_followed(client_id, opcode, payload, reserved);
    holdings::law_shells_take_nothing(s, client_id, opcode, payload, reserved);
    if opcode != 10 && opcode != 12 {
        lemma_keeps_marked(s, end);
    } else {
        reveal(ServerModel::shell_followed);
        let begin = ShellManagerBeginRestore::held_by(payload);
        let end_request = ShellManagerEndRestore::held_by(payload);
        lemma_restore_aborted(s, events::RESTORE_ABORTED, true);
        if s.restore is Some {
            lemma_restore_completed(s, end_request.focus_window_id);
            holdings::lemma_restore_reported(
                s,
                client_id,
                begin.restore_id,
                events::RESTORE_BUSY,
                0,
            );
            lemma_keeps_marked(
                s,
                s.restore_reported(client_id, begin.restore_id, events::RESTORE_BUSY, 0),
            );
        } else {
            let begun = s.restore_begun(client_id, begin);
            assert(begun.clients == s.clients);
            assert(begun.is_marked()) by {
                assert forall|o: WindowOwner| #[trigger] begun.has_toplevel(o) implies
                    begun.toplevel(o).hidden_for_restore == begun.is_held_back(o) by {
                    assert(s.has_toplevel(o));
                    assert(begun.toplevel(o) == s.toplevel(o));
                }
                holdings::lemma_rest(s, begun);
                lemma_same_marks(s, begun);
                lemma_carry_numbers(s, begun);
            }
        }
    }
}

/// The later state keeps what the earlier one held back.
proof fn lemma_carry_hiding(a: ServerModel, b: ServerModel)
    requires
        a.hiding_is_for_restore(),
        carries(a, b),
        forall|o: WindowOwner| #[trigger] b.has_toplevel(o) ==> b.is_held_back(o) == a.is_held_back(
            o,
        ),
    ensures
        b.hiding_is_for_restore(),
{
    assert forall|o: WindowOwner| #[trigger] b.has_toplevel(o) implies b.toplevel(
        o,
    ).hidden_for_restore == b.is_held_back(o) by {
        assert(a.has_toplevel(o));
        assert(mark(b.toplevel(o)) == mark(a.toplevel(o)));
    }
}

proof fn lemma_destroyed(s: ServerModel, owner: WindowOwner)
    requires
        s.is_sound(),
        s.is_marked(),
    ensures
        s.destroyed(owner).is_marked(),
{
    broadcast use holdings::group_holdings;

    let end = s.destroyed(owner);
    reveal(ServerModel::destroyed);
    let loses_focus = s.has_toplevel(owner) && s.focus == Some(
        (owner.client_id, s.toplevel(owner).surface_id),
    );
    let excluded = if s.window_ids.contains_key(owner) {
        Set::empty().insert(s.window_ids[owner])
    } else {
        Set::empty()
    };
    let fallback = s.fallback_focus(excluded);
    let moved = if loses_focus {
        s.focused(fallback)
    } else {
        s
    };
    laws::lemma_focused(s, fallback);
    laws::lemma_same_desk_keeps_order(s, moved);
    sound::law_holdings_keep_sound(s, moved);
    lemma_keeps_marked(s, moved);
    if moved.has_toplevel(owner) {
        let before = moved.clients[owner.client_id];
        let after = ServerModel::without_toplevel(before, owner.toplevel_id);
        let freed = moved.recounted(owner.client_id, after);
        lemma_without_toplevel(moved, owner);
        let dropped = if freed.is_dragged(owner) {
            ServerModel { drag: None, ..freed }
        } else {
            freed
        };
        holdings::lemma_rest(freed, dropped);
        let window_id = dropped.window_ids[owner];
        assert(moved.window_ids.contains_key(owner));
        lemma_unregistered(dropped, owner);
        let gone = dropped.unregistered(owner);
        assert(holdings::leaves_alone(gone, end));
        lemma_same_marks(freed, end);
        assert(carries(moved, end)) by {
            assert forall|o: WindowOwner| #[trigger] end.has_toplevel(o) implies {
                &&& moved.has_toplevel(o)
                &&& end.process(o) == moved.process(o)
                &&& mark(end.toplevel(o)) == mark(moved.toplevel(o))
            } by {
                assert(freed.has_toplevel(o));
            }
        }
        lemma_carry_numbers(moved, end);
        assert forall|o: WindowOwner| #[trigger] end.has_toplevel(o) implies end.is_held_back(o)
            == moved.is_held_back(o) by {
            assert(freed.has_toplevel(o));
            assert(o != owner);
            assert(moved.window_ids.contains_key(o) && moved.window_ids.contains_key(owner));
            assert(moved.window_ids[o] != window_id);
        }
        lemma_carry_hiding(moved, end);
    }
}

proof fn lemma_without_toplevel(s: ServerModel, owner: WindowOwner)
    requires
        s.has_toplevel(owner),
    ensures
        ({
            let before = s.clients[owner.client_id];
            let after = ServerModel::without_toplevel(before, owner.toplevel_id);
            let freed = s.recounted(owner.client_id, after);
            &&& carries(s, freed)
            &&& !freed.has_toplevel(owner)
        }),
{
    broadcast use {
        crate::client::model::lemma_emit_frame,
        crate::client::sound::lemma_reap_frame,
    };

    let before = s.clients[owner.client_id];
    let after = ServerModel::without_toplevel(before, owner.toplevel_id);
    assert(after.toplevels == before.toplevels.remove(owner.toplevel_id));
    assert(after.peer_pid == before.peer_pid);
}

proof fn lemma_unregistered(s: ServerModel, owner: WindowOwner)
    requires
        s.window_ids.contains_key(owner),
    ensures
        ({
            let gone = s.unregistered(owner);
            &&& gone.marks() == s.marks()
            &&& gone.ordinals == s.ordinals
            &&& gone.window_ids == s.window_ids.remove(owner)
            &&& held_back(gone.restore) == match held_back(s.restore) {
                Some(hidden) => Some(hidden.remove(s.window_ids[owner])),
                None => None,
            }
        }),
{
    broadcast use holdings::group_holdings;

    reveal(ServerModel::unregistered);
    let window_id = s.window_ids[owner];
    let gone = Set::<WindowId>::empty().insert(window_id);
    holdings::lemma_rest(
        s,
        ServerModel {
            window_ids: s.window_ids.remove(owner),
            windows: s.windows.remove(window_id),
            z_order: focus::without(s.z_order, gone),
            restore: crate::server::windows::restore_without(s.restore, window_id),
            ..s
        },
    );
}

/// A new window of a process gets a number that the process has not had, and
/// is hidden if a restore is to place it.
proof fn lemma_toplevel_made(
    before: ServerModel,
    s: ServerModel,
    client_id: ClientId,
    payload: Seq<u8>,
)
    requires
        before.is_sound(),
        before.is_marked(),
        s.ordinals == before.ordinals,
        s.window_ids == before.window_ids,
        s.windows == before.windows,
        s.next_window_id == before.next_window_id,
        s.restore == before.restore,
        s.clients.contains_key(client_id),
        before.clients.contains_key(client_id),
        s.clients[client_id].peer_pid == before.clients[client_id].peer_pid,
        before.can_number(client_id),
        crate::requests::size_fault(payload, 8) is None,
        sound::is_gain(before, s, client_id, Some(XdgShellGetToplevel::held_by(payload).new_id)),
        forall|o: WindowOwner| #[trigger]
            before.has_toplevel(o) ==> s.process(o) == before.process(o) && mark(s.toplevel(o))
                == mark(before.toplevel(o)),
    ensures
        s.toplevel_made(client_id, payload).is_marked(),
{
    broadcast use holdings::group_holdings;

    let end = s.toplevel_made(client_id, payload);
    reveal(ServerModel::toplevel_made);
    let request = XdgShellGetToplevel::held_by(payload);
    let owner = WindowOwner { client_id, toplevel_id: request.new_id };
    assert(s.has_toplevel(owner));
    assert(!before.has_toplevel(owner));
    assert(!before.window_ids.contains_key(owner));
    let placed = s.positioned(owner);
    let numbered = placed.numbered(owner);
    let pid = before.clients[client_id].peer_pid;
    lemma_numbered(s, owner);
    let made = numbered.created(owner);
    let window_id = WindowId(numbered.next_window_id);
    let named = numbered.registered(owner).0;
    assert(holdings::leaves_alone(named, made)) by {
        reveal(ServerModel::created);
    }
    holdings::lemma_rest(numbered, named);
    holdings::lemma_first_shown(made, client_id, request.surface_id);
    assert(holdings::leaves_alone(made, end));
    lemma_same_marks(numbered, end);
    // Every toplevel but the new one is as it was.
    assert forall|o: WindowOwner| #[trigger] end.has_toplevel(o) && o != owner implies {
        &&& before.has_toplevel(o)
        &&& end.process(o) == before.process(o)
        &&& mark(end.toplevel(o)) == mark(before.toplevel(o))
    } by {
        assert(numbered.has_toplevel(o));
        assert(s.has_toplevel(o));
        assert(before.has_toplevel(o));
    }
    assert(end.has_toplevel(owner)) by {
        assert(numbered.has_toplevel(owner));
    }
    assert(mark(end.toplevel(owner)) == mark(numbered.toplevel(owner)));
    assert(end.process(owner) == pid);
    assert forall|o: WindowOwner| #[trigger] end.has_toplevel(o) && o != owner && before.process(o)
        != 0 implies end.toplevel(o).ordinal < before.next_ordinal(before.process(o)) by {
        assert(before.has_toplevel(o));
    }
    assert(end.numbers_are_apart()) by {
        assert forall|x: WindowOwner, y: WindowOwner|
            x != y && #[trigger] end.has_toplevel(x) && #[trigger] end.has_toplevel(y)
                && end.process(x) == end.process(y) && end.process(x) != 0 implies end.toplevel(
            x,
        ).ordinal != end.toplevel(y).ordinal by {
            if x != owner && y != owner {
                assert(before.has_toplevel(x) && before.has_toplevel(y));
            }
        }
    }
    assert forall|o: WindowOwner| #[trigger] end.has_toplevel(o) implies end.toplevel(
        o,
    ).hidden_for_restore == end.is_held_back(o) by {
        if o != owner {
            assert(before.has_toplevel(o));
            assert(before.window_ids.contains_key(o));
            assert(before.windows.contains_key(before.window_ids[o]));
            assert(before.window_ids[o] != window_id);
        } else {
            if before.restore is Some {
                assert(!before.windows.contains_key(window_id));
                assert(!(before.restore->0).hidden.contains(window_id));
            }
        }
    }
}

proof fn lemma_numbered(s: ServerModel, owner: WindowOwner)
    requires
        s.has_toplevel(owner),
    ensures
        ({
            let numbered = s.positioned(owner).numbered(owner);
            let pid = s.process(owner);
            &&& numbered.window_ids == s.window_ids
            &&& numbered.windows == s.windows
            &&& numbered.next_window_id == s.next_window_id
            &&& numbered.restore == s.restore
            &&& numbered.ordinals == if pid == 0 {
                s.ordinals
            } else {
                s.ordinals.insert(pid, (s.next_ordinal(pid) + 1) as u32)
            }
            &&& forall|o: WindowOwner| #[trigger] numbered.has_toplevel(o) == s.has_toplevel(o)
            &&& forall|o: WindowOwner| #[trigger]
                numbered.has_toplevel(o) ==> numbered.process(o) == s.process(o) && (o != owner
                    ==> numbered.toplevel(o) == s.toplevel(o))
            &&& pid != 0 ==> numbered.toplevel(owner).ordinal == s.next_ordinal(pid)
            &&& numbered.toplevel(owner).hidden_for_restore == (!s.is_shell(owner.client_id)
                && s.restore is Some)
        }),
{
    let placed = s.positioned(owner);
    assert forall|o: WindowOwner| #[trigger] placed.has_toplevel(o) == s.has_toplevel(o) by {
    }
    assert(placed.has_toplevel(owner));
}

proof fn lemma_carried_out(
    s: ServerModel,
    client_id: ClientId,
    header: wire::MessageHeader,
    payload: Seq<u8>,
    granted: bool,
)
    requires
        s.is_sound(),
        s.is_marked(),
        s.can_handle(client_id, header.object_id, header.opcode),
    ensures
        s.carried_out(client_id, header, payload, granted).0.is_marked(),
{
    reveal(ServerModel::carried_out);
    let target = header.object_id;
    let opcode = header.opcode;
    if !s.is_withheld(client_id, target, opcode) && s.clients.contains_key(client_id) {
        let c = s.clients[client_id];
        let budgets = s.budgets(client_id);
        let step = c.dispatched(header, payload, budgets, granted);
        sound::lemma_settled(s, client_id, header, payload, granted);
        if step.1 is Some {
            accounts::law_refusal_costs_nothing(c, header, payload, budgets, granted);
            let end = s.with_client(client_id, step.0);
            assert(carries(s, end));
            lemma_carry_numbers(s, end);
            lemma_carry_hiding(s, end);
        } else {
            let counted = s.recounted(client_id, step.0);
            let reserved = s.is_reserved(client_id, target, opcode);
            let settled = ServerModel {
                command_owner: if reserved {
                    None
                } else {
                    counted.command_owner
                },
                ..counted
            };
            sound::lemma_afforded(s, client_id, header, payload, granted);
            holdings::lemma_rest(counted, settled);
            let end = settled.followed(s, client_id, target, opcode, payload).0;
            let interface = c.objects[target];
            assert forall|o: WindowOwner| #[trigger] s.has_toplevel(o) implies settled.process(o)
                == s.process(o) && mark(settled.toplevel(o)) == mark(s.toplevel(o)) by {
            }
            if interface == Interface::XdgShell && opcode == 1 {
                assert(sound::is_gain(
                    s,
                    settled,
                    client_id,
                    Some(XdgShellGetToplevel::held_by(payload).new_id),
                )) by {
                    assert forall|o: WindowOwner| settled.has_toplevel(o) == counted.has_toplevel(
                        o,
                    ) by {
                    }
                }
                sound::lemma_room_for_one(s, client_id, header, payload, granted);
                lemma_toplevel_made(s, settled, client_id, payload);
            } else {
                assert forall|o: WindowOwner| #[trigger] settled.has_toplevel(o) == s.has_toplevel(
                    o,
                ) by {
                    assert(counted.has_toplevel(o) == s.has_toplevel(o));
                }
                assert(settled.windows_are_toplevels()) by {
                    assert forall|o: WindowOwner|
                        #![trigger settled.window_ids.contains_key(o)]
                        settled.window_ids.contains_key(o) == settled.has_toplevel(o) by {
                        assert(s.window_ids.contains_key(o) == s.has_toplevel(o));
                    }
                }
                assert(settled.is_sound());
                assert(carries(s, settled));
                lemma_carry_numbers(s, settled);
                lemma_carry_hiding(s, settled);
                let owner = WindowOwner { client_id, toplevel_id: target };
                if interface == Interface::XdgToplevel && opcode == 3 {
                    reveal(ServerModel::toplevel_followed);
                    lemma_destroyed(settled, owner);
                } else if interface == Interface::XdgToplevel {
                    holdings::law_toplevels_take_nothing(settled, owner, opcode, payload);
                    lemma_keeps_marked(settled, end);
                } else if interface == Interface::ShellManager {
                    lemma_shell_followed(settled, client_id, opcode, payload, reserved);
                } else if interface == Interface::Surface {
                    holdings::law_surfaces_take_nothing(
                        settled,
                        s,
                        client_id,
                        target,
                        opcode,
                        payload,
                    );
                    lemma_keeps_marked(settled, end);
                }
            }
        }
    }
}

/// Whatever is asked for, no two windows of a process get the same number, and
/// the hidden windows are those that a restore holds back.
pub proof fn law_dispatch_keeps_marks(
    s: ServerModel,
    client_id: ClientId,
    message: Seq<u8>,
    granted: bool,
)
    requires
        s.is_sound(),
        s.is_marked(),
        s.can_serve(client_id, message),
    ensures
        s.dispatched(client_id, message, granted).0.is_marked(),
        s.served(client_id, message, granted).is_marked(),
{
    if wire::header_fault(message) is None {
        let header = wire::header_at(message);
        let payload = message.subrange(HEADER_SIZE as int, header.length as int);
        lemma_carried_out(s, client_id, header, payload, granted);
    }
    let after = s.dispatched(client_id, message, granted).0;
    match crate::server::serve::registry_asked_for(message) {
        Some(registry_id) => {
            holdings::lemma_advertised(after, client_id, registry_id);
            lemma_keeps_marked(after, s.served(client_id, message, granted));
        },
        None => {},
    }
}

/// Input and pictures that are shown leave the marks right.
pub proof fn law_input_keeps_marks(
    s: ServerModel,
    x: i32,
    y: i32,
    button: u32,
    key: u32,
    state: u32,
    callback_data: u32,
)
    requires
        s.is_marked(),
    ensures
        s.pointer_moved(x, y).0.is_marked(),
        s.button_changed(button, state).0.is_marked(),
        s.key_changed(key, state).0.is_marked(),
        s.presented(callback_data).is_marked(),
{
    holdings::law_input_takes_nothing(s, x, y, button, key, state, 0);
    lemma_keeps_marked(s, s.pointer_moved(x, y).0);
    lemma_keeps_marked(s, s.button_changed(button, state).0);
    lemma_keeps_marked(s, s.key_changed(key, state).0);
    let shown = s.presented(callback_data);
    assert(carries(s, shown));
    lemma_carry_numbers(s, shown);
    lemma_carry_hiding(s, shown);
}

proof fn lemma_pass(d: Drain, ids: Seq<ClientId>, start: nat, offset: nat)
    requires
        start < ids.len(),
        forall|i: int| 0 <= i < ids.len() ==> d.server.clients.contains_key(#[trigger] ids[i]),
    ensures
        ({
            let after = d.pass(ids, start, offset).server;
            &&& carries(d.server, after)
            &&& after.clients.dom() == d.server.clients.dom()
            &&& after == (ServerModel { clients: after.clients, ..d.server })
        }),
    decreases ids.len() - offset,
{
    broadcast use crate::client::model::lemma_emit_frame;

    if offset < ids.len() && d.remaining > 0 {
        let index = crate::server::frames::around(start + offset, ids.len());
        let next = d.turn(ids, index);
        let id = ids[index as int];
        assert(d.server.clients.contains_key(id));
        assert(next.server.clients.dom() =~= d.server.clients.dom());
        assert(carries(d.server, next.server));
        assert forall|i: int| 0 <= i < ids.len() implies next.server.clients.contains_key(
            #[trigger] ids[i],
        ) by {
            assert(d.server.clients.dom().contains(ids[i]));
        }
        lemma_pass(next, ids, start, offset + 1);
        let after = next.pass(ids, start, offset + 1).server;
        assert forall|o: WindowOwner| #[trigger] after.has_toplevel(o) implies {
            &&& d.server.has_toplevel(o)
            &&& after.process(o) == d.server.process(o)
            &&& mark(after.toplevel(o)) == mark(d.server.toplevel(o))
        } by {
            assert(next.server.has_toplevel(o));
        }
    }
}

proof fn lemma_passes(d: Drain, ids: Seq<ClientId>, start: nat)
    requires
        start < ids.len(),
        forall|i: int| 0 <= i < ids.len() ==> d.server.clients.contains_key(#[trigger] ids[i]),
    ensures
        ({
            let after = d.passes(ids, start).server;
            &&& carries(d.server, after)
            &&& after == (ServerModel { clients: after.clients, ..d.server })
        }),
    decreases d.remaining,
{
    let mid = d.pass(ids, start, 0);
    lemma_pass(d, ids, start, 0);
    if mid.remaining < d.remaining && mid.remaining != 0 {
        assert forall|i: int| 0 <= i < ids.len() implies mid.server.clients.contains_key(
            #[trigger] ids[i],
        ) by {
            assert(d.server.clients.dom().contains(ids[i]));
        }
        lemma_passes(mid, ids, crate::server::frames::around(start + 1, ids.len()));
        let after = d.passes(ids, start).server;
        assert forall|o: WindowOwner| #[trigger] after.has_toplevel(o) implies {
            &&& d.server.has_toplevel(o)
            &&& after.process(o) == d.server.process(o)
            &&& mark(after.toplevel(o)) == mark(d.server.toplevel(o))
        } by {
            assert(mid.server.has_toplevel(o));
        }
    }
}

/// Frame callbacks that are reported leave the marks right.
pub proof fn law_reporting_keeps_marks(s: ServerModel, budget: nat)
    requires
        s.is_sound(),
        s.is_marked(),
    ensures
        s.callbacks_drained(budget).server.is_marked(),
{
    let ids = ordered::ascending_keys(s.clients.dom());
    let end = s.callbacks_drained(budget).server;
    if budget > 0 && ids.len() > 0 {
        ordered::law_ascending_keys_list_all(s.clients.dom());
        assert forall|i: int| 0 <= i < ids.len() implies s.clients.contains_key(
            #[trigger] ids[i],
        ) by {
            assert(ids.to_set().contains(ids[i]));
        }
        sound::lemma_first_at_least(ids, s.callback_cursor, 0);
        let d = Drain { server: s, remaining: budget, last: None };
        lemma_passes(d, ids, s.first_turn(ids));
        let after = d.passes(ids, s.first_turn(ids)).server;
        assert(carries(s, end)) by {
            assert forall|o: WindowOwner| #[trigger] end.has_toplevel(o) implies {
                &&& s.has_toplevel(o)
                &&& end.process(o) == s.process(o)
                &&& mark(end.toplevel(o)) == mark(s.toplevel(o))
            } by {
                assert(after.has_toplevel(o));
            }
        }
        lemma_carry_numbers(s, end);
        lemma_carry_hiding(s, end);
    }
}

/// A connection that is accepted leaves the marks right, as long as its number
/// is not in use; one that goes always does.
pub proof fn law_connections_keep_marks(s: ServerModel, id: ClientId, caps: CapSet, peer_pid: u32)
    requires
        s.is_sound(),
        s.is_marked(),
    ensures
        !s.clients.contains_key(ClientId(s.next_client_id)) ==> s.accepted(
            caps,
            peer_pid,
        ).is_marked(),
        s.disconnected(id).is_marked(),
{
    let accepted = s.accepted(caps, peer_pid);
    if !s.clients.contains_key(ClientId(s.next_client_id)) {
        assert(carries(s, accepted));
        lemma_carry_numbers(s, accepted);
        lemma_carry_hiding(s, accepted);
    }
    lemma_disconnected(s, id);
}

proof fn lemma_buried(s: ServerModel, pairs: Seq<(WindowOwner, WindowId)>)
    ensures
        s.buried(pairs).marks() == s.marks(),
        s.buried(pairs).ordinals == s.ordinals,
    decreases pairs.len(),
{
    if pairs.len() > 0 {
        lemma_buried(s, pairs.drop_last());
        let before = s.buried(pairs.drop_last());
        let (owner, window_id) = pairs.last();
        let fewer = ServerModel {
            window_ids: before.window_ids.remove(owner),
            windows: before.windows.remove(window_id),
            ..before
        };
        let notice = crate::server::model::NoticeModel::Destroyed { window_id: window_id.0 };
        let told = fewer.announce(notice);
        holdings::lemma_rest(before, fewer);
        holdings::lemma_announce(fewer, notice);
        holdings::lemma_rest(told, s.buried(pairs));
    }
}

/// The state of a connection that goes, once its windows have gone.
proof fn lemma_emptied(s: ServerModel, id: ClientId)
    requires
        s.is_sound(),
        s.is_marked(),
    ensures
        ({
            let leaving = s.windows_leaving(id);
            let forgotten = s.unfocused(id).forgotten(id);
            let thinned = ServerModel {
                z_order: focus::without(forgotten.z_order, connections::windows_of(leaving)),
                ..forgotten
            };
            thinned.buried(leaving).is_marked()
        }),
{
    broadcast use holdings::group_holdings;

    let leaving = s.windows_leaving(id);
    let gone = connections::windows_of(leaving);
    let alone = s.unfocused(id);
    lemma_keeps_marked(s, alone);
    let forgotten = alone.forgotten(id);
    assert(carries(alone, forgotten)) by {
        reveal(ServerModel::forgotten);
    }
    let thinned = ServerModel { z_order: focus::without(forgotten.z_order, gone), ..forgotten };
    let emptied = thinned.buried(leaving);
    holdings::lemma_rest(forgotten, thinned);
    lemma_buried(thinned, leaving);
    laws::lemma_buried(thinned, leaving);
    laws::lemma_windows_leaving(s, id);
    lemma_same_marks(forgotten, emptied);
    laws::lemma_focused(s, s.focus_without(id));
    assert(thinned.window_ids == s.window_ids && thinned.restore == alone.restore
        && thinned.ordinals == s.ordinals) by {
        reveal(ServerModel::forgotten);
    }
    assert(carries(alone, emptied)) by {
        assert forall|o: WindowOwner| #[trigger] emptied.has_toplevel(o) implies {
            &&& alone.has_toplevel(o)
            &&& emptied.process(o) == alone.process(o)
            &&& mark(emptied.toplevel(o)) == mark(alone.toplevel(o))
        } by {
            assert(forgotten.has_toplevel(o));
        }
    }
    lemma_carry_numbers(alone, emptied);
    assert forall|o: WindowOwner| #[trigger] emptied.has_toplevel(o) implies emptied.is_held_back(o)
        == alone.is_held_back(o) by {
        assert(forgotten.has_toplevel(o));
        assert(o.client_id != id) by {
            reveal(ServerModel::forgotten);
        }
        lemma_same_marks(s, alone);
        assert(alone.has_toplevel(o));
        assert(s.has_toplevel(o));
        assert(s.window_ids.contains_key(o));
        let w = s.window_ids[o];
        assert(!laws::leaves(leaving, o));
        assert(emptied.window_ids.contains_key(o));
        laws::lemma_windows_of(leaving, w);
        if gone.contains(w) {
            let i = choose|i: int| 0 <= i < leaving.len() && (#[trigger] leaving[i]).1 == w;
            assert(s.windows[s.window_ids[leaving[i].0]] == leaving[i].0);
            assert(leaves_at(leaving, o, i));
        }
    }
    lemma_carry_hiding(alone, emptied);
}

spec fn leaves_at(pairs: Seq<(WindowOwner, WindowId)>, owner: WindowOwner, i: int) -> bool {
    pairs[i].0 == owner
}

proof fn lemma_disconnected(s: ServerModel, id: ClientId)
    requires
        s.is_sound(),
        s.is_marked(),
    ensures
        s.disconnected(id).is_marked(),
{
    broadcast use holdings::group_holdings;

    let end = s.disconnected(id);
    reveal(ServerModel::disconnected);
    let leaving = s.windows_leaving(id);
    let gone = connections::windows_of(leaving);
    let forgotten = s.unfocused(id).forgotten(id);
    let thinned = ServerModel { z_order: focus::without(forgotten.z_order, gone), ..forgotten };
    let emptied = thinned.buried(leaving);
    lemma_emptied(s, id);
    let told = s.parted(id);
    assert(holdings::leaves_alone(emptied, told));
    lemma_keeps_marked(emptied, told);
    sound::lemma_parted(s, id);
    lemma_restore_aborted(told, events::RESTORE_ABORTED, false);
    if !(s.restore is Some && (s.restore->0).owner == id && told.restore is Some) {
        assert(holdings::leaves_alone(told, end));
        lemma_keeps_marked(told, end);
    }
}

/// A server that has just started has no windows to number or hide.
pub proof fn law_fresh_is_marked(
    width: u32,
    height: u32,
    limits: crate::server::ServerLimits,
    default_keymap: crate::protocol::keymap::KeymapModel,
)
    ensures
        ServerModel::fresh(width, height, limits, default_keymap).is_marked(),
{
}

} // verus!
