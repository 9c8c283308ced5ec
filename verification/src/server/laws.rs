//! What holds of the windows at all times.

use vstd::prelude::*;

use crate::bytes;
use crate::client::model::ToplevelModel;
use crate::events;
use crate::ids::{ClientId, ObjectId, WindowId, WindowOwner};
use crate::objects::Interface;
use crate::ordered;
use crate::protocol::keymap::KeymapModel;
use crate::requests;
use crate::requests::{
    ShellManagerBeginRestore, ShellManagerEndRestore, ShellManagerPlaceRestoredWindow,
    XdgShellGetToplevel,
};
use crate::caps::CapSet;
use crate::server::connections;
use crate::server::damage::DamageModel;
use crate::server::focus;
use crate::server::model;
use crate::server::model::{NoticeModel, RestoreModel, ServerModel};
use crate::server::restore;
use crate::server::windows;
use crate::server::{DragState, HitResult, RestorePlacement, ServerLimits};
use crate::wire;
use crate::wire::HEADER_SIZE;

verus! {

/// The windows of a restore that are held back, and those that have a place.
pub open spec fn restored(restore: Option<RestoreModel>) -> Option<(Set<WindowId>, Set<WindowId>)> {
    match restore {
        Some(r) => Some((r.hidden, r.placements.dom())),
        None => None,
    }
}

/// Whether two states have the same windows, in the same order.
pub open spec fn same_desk(a: ServerModel, b: ServerModel) -> bool {
    &&& a.next_window_id == b.next_window_id
    &&& a.windows == b.windows
    &&& a.window_ids == b.window_ids
    &&& a.z_order == b.z_order
    &&& restored(a.restore) == restored(b.restore)
}

impl ServerModel {
    /// Whether the windows are in order: every window has its place in the
    /// stack, once, and one owner, whose only window it is. Its number is one
    /// that was handed out. Only windows are held back or placed by a restore.
    pub open spec fn is_orderly(self) -> bool {
        &&& self.next_window_id > 0
        &&& self.z_order.no_duplicates()
        &&& forall|w: WindowId|
            #![trigger self.windows.contains_key(w)]
            self.z_order.contains(w) == self.windows.contains_key(w)
        &&& forall|w: WindowId| #[trigger]
            self.windows.contains_key(w) ==> self.window_ids.contains_key(self.windows[w])
                && self.window_ids[self.windows[w]] == w && 0 < w.0 < self.next_window_id
        &&& forall|owner: WindowOwner| #[trigger]
            self.window_ids.contains_key(owner) ==> self.windows.contains_key(
                self.window_ids[owner],
            ) && self.windows[self.window_ids[owner]] == owner
        &&& self.restore is Some ==> (self.restore->0).hidden.subset_of(self.windows.dom()) && (
        self.restore->0).placements.dom().subset_of((self.restore->0).hidden)
    }
}

/// Whether a state follows another: no number of a window is handed out twice,
/// and no window changes its owner.
pub open spec fn follows(a: ServerModel, b: ServerModel) -> bool {
    &&& a.next_window_id <= b.next_window_id
    &&& forall|w: WindowId| #[trigger]
        b.windows.contains_key(w) ==> if a.windows.contains_key(w) {
            b.windows[w] == a.windows[w]
        } else {
            w.0 >= a.next_window_id
        }
}

/// Whether a step keeps the windows in order.
pub open spec fn keeps_order(a: ServerModel, b: ServerModel) -> bool {
    a.is_orderly() ==> b.is_orderly() && follows(a, b)
}

pub(crate) proof fn lemma_same_desk_keeps_order(a: ServerModel, b: ServerModel)
    requires
        same_desk(a, b),
    ensures
        keeps_order(a, b),
{
}

pub(crate) proof fn lemma_then(a: ServerModel, b: ServerModel, c: ServerModel)
    requires
        keeps_order(a, b),
        keeps_order(b, c),
    ensures
        keeps_order(a, c),
{
    if a.is_orderly() {
        assert forall|w: WindowId| #[trigger] c.windows.contains_key(w) implies if a.windows.contains_key(
            w,
        ) {
            c.windows[w] == a.windows[w]
        } else {
            w.0 >= a.next_window_id
        } by {
            if b.windows.contains_key(w) {
            } else if a.windows.contains_key(w) {
                assert(w.0 < a.next_window_id);
            }
        }
    }
}

// Steps that leave the windows alone.

pub(crate) broadcast proof fn lemma_announce(s: ServerModel, notice: NoticeModel)
    ensures
        same_desk(s, #[trigger] s.announce(notice)),
{
    reveal(ServerModel::announce);
}

pub(crate) broadcast proof fn lemma_announce_state(s: ServerModel, window_id: WindowId)
    ensures
        same_desk(s, #[trigger] s.announce_state(window_id)),
{
    reveal(ServerModel::announce_state);
    broadcast use lemma_announce;

}

pub(crate) broadcast proof fn lemma_announce_states(s: ServerModel, window_ids: Seq<WindowId>)
    ensures
        same_desk(s, #[trigger] s.announce_states(window_ids)),
    decreases window_ids.len(),
{
    broadcast use lemma_announce_state;

    if window_ids.len() > 0 {
        lemma_announce_states(s, window_ids.drop_last());
    }
}

pub(crate) broadcast proof fn lemma_configured(
    s: ServerModel,
    owner: WindowOwner,
    width: i32,
    height: i32,
)
    ensures
        same_desk(s, #[trigger] s.configured(owner, width, height)),
{
    reveal(ServerModel::configured);
}

pub(crate) broadcast proof fn lemma_focused(s: ServerModel, focus: Option<(ClientId, ObjectId)>)
    ensures
        same_desk(s, #[trigger] s.focused(focus)),
{
    reveal(ServerModel::focused);
    broadcast use lemma_configured;

}

pub(crate) broadcast proof fn lemma_changed(s: ServerModel, damage: DamageModel)
    ensures
        same_desk(s, #[trigger] s.changed(damage)),
{
    reveal(ServerModel::changed);
}

pub(crate) broadcast group group_same_desk {
    lemma_announce,
    lemma_announce_state,
    lemma_announce_states,
    lemma_configured,
    lemma_focused,
    lemma_changed,
}

broadcast proof fn lemma_unhidden(s: ServerModel, window_ids: Seq<WindowId>)
    ensures
        same_desk(s, #[trigger] s.unhidden(window_ids)),
    decreases window_ids.len(),
{
    if window_ids.len() > 0 {
        lemma_unhidden(s, window_ids.drop_last());
    }
}

// Steps that move windows.

/// A window that is lifted to the top stays in the stack once, as every other.
proof fn lemma_lifted(order: Seq<WindowId>, window_id: WindowId)
    requires
        order.no_duplicates(),
    ensures
        focus::lifted(order, window_id).0.no_duplicates(),
        forall|w: WindowId| #[trigger]
            focus::lifted(order, window_id).0.contains(w) == order.contains(w),
{
    model::lemma_rank_of(order, window_id, 0);
    match model::rank_of(order, window_id, 0) {
        Some(rank) => {
            if rank + 1 != order.len() {
                let r = rank as int;
                let rest = order.remove(r);
                let after = rest.push(window_id);
                assert forall|w: WindowId| #[trigger] after.contains(w) == order.contains(w) by {
                    if order.contains(w) {
                        let i = choose|i: int| 0 <= i < order.len() && order[i] == w;
                        if i < r {
                            assert(after[i] == w);
                        } else if i > r {
                            assert(after[i - 1] == w);
                        } else {
                            assert(after[rest.len() as int] == w);
                        }
                    }
                    if after.contains(w) {
                        let i = choose|i: int| 0 <= i < after.len() && after[i] == w;
                        if i < r {
                            assert(order[i] == w);
                        } else if i < rest.len() {
                            assert(order[i + 1] == w);
                        } else {
                            assert(order[r] == w);
                        }
                    }
                }
            }
        },
        None => {},
    }
}

proof fn lemma_raised(s: ServerModel, window_id: WindowId)
    ensures
        keeps_order(s, s.raised(window_id).0),
        s.raised(window_id).0.windows == s.windows,
        s.raised(window_id).0.window_ids == s.window_ids,
{
    reveal(ServerModel::raised);
    broadcast use group_same_desk;

    if s.is_orderly() {
        lemma_lifted(s.z_order, window_id);
    }
}

/// Windows that leave the stack leave the others in it, in order.
proof fn lemma_without(order: Seq<WindowId>, removed: Set<WindowId>)
    requires
        order.no_duplicates(),
    ensures
        focus::without(order, removed).no_duplicates(),
        forall|w: WindowId| #[trigger]
            focus::without(order, removed).contains(w) == (order.contains(w) && !removed.contains(
                w,
            )),
    decreases order.len(),
{
    if order.len() > 0 {
        let front = order.drop_last();
        let before = focus::without(front, removed);
        let after = focus::without(order, removed);
        lemma_without(front, removed);
        assert forall|w: WindowId| order.contains(w) == (front.contains(w) || w == order.last()) by {
            if order.contains(w) {
                let i = choose|i: int| 0 <= i < order.len() && order[i] == w;
                if i < front.len() {
                    assert(front[i] == w);
                }
            }
            if front.contains(w) {
                let i = choose|i: int| 0 <= i < front.len() && front[i] == w;
                assert(order[i] == w);
            }
            assert(order[order.len() - 1] == order.last());
        }
        assert(!front.contains(order.last())) by {
            if front.contains(order.last()) {
                let i = choose|i: int| 0 <= i < front.len() && front[i] == order.last();
                assert(order[i] == order[order.len() - 1]);
            }
        }
        if !removed.contains(order.last()) {
            assert forall|w: WindowId| #[trigger] after.contains(w) == (before.contains(w) || w
                == order.last()) by {
                if before.contains(w) {
                    let i = choose|i: int| 0 <= i < before.len() && before[i] == w;
                    assert(after[i] == w);
                }
                assert(after[before.len() as int] == order.last());
            }
            assert(!before.contains(order.last()));
            assert forall|i: int, j: int|
                0 <= i < after.len() && 0 <= j < after.len() && i != j implies after[i]
                != after[j] by {
                if i == before.len() {
                    assert(before.contains(before[j]));
                } else if j == before.len() {
                    assert(before.contains(before[i]));
                }
            }
        }
    }
}

/// A new window gets a number that no window had.
proof fn lemma_registered(s: ServerModel, owner: WindowOwner)
    requires
        s.next_window_id < u32::MAX,
    ensures
        keeps_order(s, s.registered(owner).0),
        s.registered(owner).0.clients == s.clients,
{
    let after = s.registered(owner).0;
    let w = WindowId(s.next_window_id);
    if s.is_orderly() && !s.window_ids.contains_key(owner) {
        assert(!s.windows.contains_key(w));
        assert(!s.z_order.contains(w));
        assert forall|v: WindowId| #[trigger] after.z_order.contains(v) == (s.z_order.contains(v)
            || v == w) by {
            if s.is_shell(owner.client_id) {
                assert(after.z_order =~= seq![w] + s.z_order);
                assert(after.z_order[0] == w);
                if s.z_order.contains(v) {
                    let i = choose|i: int| 0 <= i < s.z_order.len() && s.z_order[i] == v;
                    assert(after.z_order[i + 1] == v);
                }
                if after.z_order.contains(v) {
                    let i = choose|i: int| 0 <= i < after.z_order.len() && after.z_order[i] == v;
                    if i > 0 {
                        assert(s.z_order[i - 1] == v);
                    }
                }
            } else {
                assert(after.z_order[s.z_order.len() as int] == w);
                if s.z_order.contains(v) {
                    let i = choose|i: int| 0 <= i < s.z_order.len() && s.z_order[i] == v;
                    assert(after.z_order[i] == v);
                }
            }
        }
        assert(after.z_order.no_duplicates()) by {
            if s.is_shell(owner.client_id) {
                assert(after.z_order =~= seq![w] + s.z_order);
                assert forall|i: int, j: int|
                    0 <= i < after.z_order.len() && 0 <= j < after.z_order.len() && i
                        != j implies after.z_order[i] != after.z_order[j] by {
                    if i == 0 {
                        assert(s.z_order[j - 1] != w);
                    } else if j == 0 {
                        assert(s.z_order[i - 1] != w);
                    }
                }
            }
        }
    }
}

pub(crate) proof fn lemma_created(s: ServerModel, owner: WindowOwner)
    requires
        s.next_window_id < u32::MAX,
    ensures
        keeps_order(s, s.created(owner)),
{
    reveal(ServerModel::created);
    broadcast use group_same_desk;

    if s.has_toplevel(owner) {
        lemma_registered(s, owner);
        lemma_then(s, s.registered(owner).0, s.created(owner));
    }
}

/// A window that is gone leaves nothing behind.
pub(crate) proof fn lemma_unregistered(s: ServerModel, owner: WindowOwner)
    ensures
        keeps_order(s, s.unregistered(owner)),
{
    reveal(ServerModel::unregistered);
    broadcast use group_same_desk;

    if s.is_orderly() && s.window_ids.contains_key(owner) {
        let window_id = s.window_ids[owner];
        let gone = Set::<WindowId>::empty().insert(window_id);
        lemma_without(s.z_order, gone);
        let after = s.unregistered(owner);
        assert forall|w: WindowId| #[trigger] after.windows.contains_key(w) implies after.window_ids.contains_key(
            after.windows[w],
        ) && after.window_ids[after.windows[w]] == w && 0 < w.0 < after.next_window_id by {
            assert(s.windows.contains_key(w));
            if after.windows[w] == owner {
                assert(s.window_ids[s.windows[w]] == w);
            }
        }
        assert forall|o: WindowOwner| #[trigger]
            after.window_ids.contains_key(o) implies after.windows.contains_key(
            after.window_ids[o],
        ) && after.windows[after.window_ids[o]] == o by {
            assert(s.window_ids.contains_key(o));
        }
    }
}

pub(crate) proof fn lemma_destroyed(s: ServerModel, owner: WindowOwner)
    ensures
        keeps_order(s, s.destroyed(owner)),
{
    reveal(ServerModel::destroyed);
    broadcast use group_same_desk;

    let loses_focus = s.has_toplevel(owner) && s.focus == Some(
        (owner.client_id, s.toplevel(owner).surface_id),
    );
    let excluded = if s.window_ids.contains_key(owner) {
        Set::empty().insert(s.window_ids[owner])
    } else {
        Set::empty()
    };
    let moved = if loses_focus {
        s.focused(s.fallback_focus(excluded))
    } else {
        s
    };
    if moved.has_toplevel(owner) {
        let before = moved.clients[owner.client_id];
        let after = ServerModel::without_toplevel(before, owner.toplevel_id);
        let freed = ServerModel {
            pool_bytes: moved.pool_bytes.saturating_sub(before.pool_bytes).saturating_add(
                after.pool_bytes,
            ),
            toplevel_metadata_bytes: moved.toplevel_metadata_bytes.saturating_sub(
                before.toplevel_metadata_bytes,
            ).saturating_add(after.toplevel_metadata_bytes),
            ..moved.with_client(owner.client_id, after)
        };
        let dropped = if freed.is_dragged(owner) {
            ServerModel { drag: None, ..freed }
        } else {
            freed
        };
        assert(same_desk(s, dropped));
        lemma_unregistered(dropped, owner);
        lemma_then(s, dropped, dropped.unregistered(owner));
        lemma_then(s, dropped.unregistered(owner), s.destroyed(owner));
    }
}

proof fn lemma_maximized(s: ServerModel, owner: WindowOwner, maximize: bool)
    ensures
        same_desk(s, s.maximized(owner, maximize)),
{
    reveal(ServerModel::maximized);
    broadcast use group_same_desk;

}

proof fn lemma_minimized(s: ServerModel, window_id: WindowId, minimized: bool)
    ensures
        same_desk(s, s.minimized(window_id, minimized).0),
{
    broadcast use group_same_desk;

}

proof fn lemma_window_focused(s: ServerModel, window_id: WindowId, shell: Option<ClientId>)
    ensures
        keeps_order(s, s.window_focused(window_id, shell)),
{
    reveal(ServerModel::window_focused);
    broadcast use group_same_desk;

    if s.is_at_hand(window_id) {
        let owner = s.windows[window_id];
        let toplevel = s.toplevel(owner);
        let back = s.with_toplevel(
            owner,
            ToplevelModel { minimized: false, ..toplevel },
        );
        let moved = back.focused(Some((owner.client_id, toplevel.surface_id)));
        assert(same_desk(s, moved));
        lemma_raised(moved, window_id);
        let lifted = moved.raised(window_id).0;
        assert(same_desk(lifted, s.window_focused(window_id, shell)));
        lemma_then(s, moved, lifted);
        lemma_then(s, lifted, s.window_focused(window_id, shell));
    }
}

proof fn lemma_asked_to_close(s: ServerModel, window_id: WindowId)
    ensures
        keeps_order(s, s.asked_to_close(window_id)),
{
    lemma_window_focused(s, window_id, None);
    lemma_then(s, s.window_focused(window_id, None), s.asked_to_close(window_id));
}

proof fn lemma_toggled(s: ServerModel, window_id: WindowId)
    ensures
        keeps_order(s, s.toggled(window_id).0),
{
    broadcast use group_same_desk;

    if s.is_at_hand(window_id) {
        let owner = s.windows[window_id];
        let toplevel = s.toplevel(owner);
        let maximize = !toplevel.maximized;
        let marked = s.with_toplevel(
            owner,
            ToplevelModel {
                minimized: false,
                maximized: maximize,
                ..toplevel
            },
        );
        let moved = marked.focused(Some((owner.client_id, toplevel.surface_id)));
        lemma_raised(moved, window_id);
        let lifted = moved.raised(window_id).0;
        lemma_then(s, moved, lifted);
        lemma_maximized(lifted, owner, maximize);
        lemma_then(s, lifted, s.toggled(window_id).0);
    }
}

proof fn lemma_put_in_place(s: ServerModel, owner: WindowOwner, place: restore::WindowPlace)
    ensures
        same_desk(s, s.put_in_place(owner, place)),
        s.put_in_place(owner, place).restore == s.restore,
{
    reveal(ServerModel::put_in_place);
    reveal(ServerModel::configured);
}

proof fn lemma_restore_placed(
    s: ServerModel,
    client_id: ClientId,
    request: ShellManagerPlaceRestoredWindow,
)
    ensures
        keeps_order(s, s.restore_placed(client_id, request)),
{
    reveal(ServerModel::restore_placed);
    broadcast use group_same_desk;

    let window_id = WindowId(request.window_id);
    if s.can_place(client_id, request) {
        lemma_put_in_place(s, s.windows[window_id], s.place_of(request));
    }
}

/// The windows that a restore ranks are those that have a place, each once.
pub proof fn law_ranks_are_a_permutation(placements: Map<WindowId, RestorePlacement>)
    requires
        placements.dom().finite(),
        placements.dom().len() <= u32::MAX,
        restore::is_contiguous(placements),
    ensures
        restore::ranked(placements).no_duplicates(),
        restore::ranked(placements).to_set() == placements.dom(),
{
    let order = restore::ranked(placements);
    let n = placements.dom().len();
    assert forall|i: int| 0 <= i < n implies placements.contains_key(#[trigger] order[i])
        && placements[order[i]].z_rank == i by {
        assert(restore::window_of_rank(placements, i) is Some);
        lemma_first_ranked(
            ordered::ascending_keys(placements.dom()),
            placements,
            i as u32,
            0,
        );
        ordered::law_ascending_keys_list_all(placements.dom());
        let ids = ordered::ascending_keys(placements.dom());
        assert(ids.to_set().contains(order[i]));
    }
    assert(order.no_duplicates());
    order.unique_seq_to_set();
    assert(order.to_set().subset_of(placements.dom()));
    vstd::set_lib::lemma_subset_equality(order.to_set(), placements.dom());
}

pub(crate) proof fn lemma_first_ranked(
    ids: Seq<WindowId>,
    placements: Map<WindowId, RestorePlacement>,
    rank: u32,
    from: nat,
)
    ensures
        restore::first_ranked(ids, placements, rank, from) matches Some(w) ==> ids.contains(w)
            && placements[w].z_rank == rank,
    decreases ids.len() - from,
{
    if from < ids.len() {
        lemma_first_ranked(ids, placements, rank, from + 1);
    }
}

/// There are no more windows than numbers were handed out.
proof fn lemma_few_windows(order: Seq<WindowId>, next: u32)
    requires
        order.no_duplicates(),
        forall|i: int| 0 <= i < order.len() ==> (#[trigger] order[i]).0 < next,
    ensures
        order.len() <= next,
{
    let numbers = order.map_values(|w: WindowId| w.0 as int);
    assert(numbers.no_duplicates()) by {
        assert forall|i: int, j: int|
            0 <= i < numbers.len() && 0 <= j < numbers.len() && i != j implies numbers[i]
            != numbers[j] by {
            assert(order[i] != order[j]);
        }
    }
    numbers.unique_seq_to_set();
    vstd::set_lib::lemma_int_range(0, next as int);
    let range = vstd::set_lib::set_int_range(0, next as int);
    assert(numbers.to_set().subset_of(range)) by {
        assert forall|n: int| numbers.to_set().contains(n) implies range.contains(n) by {
            let i = choose|i: int| 0 <= i < numbers.len() && numbers[i] == n;
            assert(order[i].0 < next);
        }
    }
    vstd::set_lib::lemma_len_subset(numbers.to_set(), range);
}

/// A restore is about few windows.
pub(crate) proof fn lemma_few_restored(s: ServerModel)
    requires
        s.is_orderly(),
        s.restore is Some,
    ensures
        (s.restore->0).hidden.finite(),
        (s.restore->0).placements.dom().finite(),
        (s.restore->0).placements.dom().len() <= u32::MAX,
{
    let r = s.restore->0;
    assert(s.z_order.to_set() =~= s.windows.dom()) by {
        assert forall|w: WindowId| s.z_order.to_set().contains(w) == s.windows.dom().contains(w) by {
            assert(s.windows.contains_key(w) == s.z_order.contains(w));
        }
    }
    s.z_order.unique_seq_to_set();
    assert forall|i: int| 0 <= i < s.z_order.len() implies (#[trigger] s.z_order[i]).0
        < s.next_window_id by {
        assert(s.z_order.contains(s.z_order[i]));
        assert(s.windows.contains_key(s.z_order[i]));
    }
    lemma_few_windows(s.z_order, s.next_window_id);
    vstd::set_lib::lemma_set_subset_finite(s.windows.dom(), r.hidden);
    vstd::set_lib::lemma_set_subset_finite(r.hidden, r.placements.dom());
    vstd::set_lib::lemma_len_subset(r.placements.dom(), s.windows.dom());
}

/// The stack after a restore holds the windows that it held before.
pub(crate) proof fn lemma_restacked(s: ServerModel)
    requires
        s.is_orderly(),
        s.restore is Some,
        restore::is_contiguous((s.restore->0).placements),
    ensures
        ({
            let placements = (s.restore->0).placements;
            let after = focus::without(s.z_order, placements.dom()) + restore::ranked(placements);
            &&& after.no_duplicates()
            &&& forall|w: WindowId| #[trigger] after.contains(w) == s.z_order.contains(w)
        }),
{
    let placements = (s.restore->0).placements;
    lemma_few_restored(s);
    law_ranks_are_a_permutation(placements);
    lemma_without(s.z_order, placements.dom());
    let rest = focus::without(s.z_order, placements.dom());
    let ranked = restore::ranked(placements);
    let after = rest + ranked;
    assert forall|w: WindowId| #[trigger] ranked.contains(w) == placements.dom().contains(w) by {
        assert(ranked.to_set().contains(w) == placements.dom().contains(w));
    }
    assert forall|w: WindowId| #[trigger] after.contains(w) == s.z_order.contains(w) by {
        if rest.contains(w) {
            let i = choose|i: int| 0 <= i < rest.len() && rest[i] == w;
            assert(after[i] == w);
        }
        if ranked.contains(w) {
            let i = choose|i: int| 0 <= i < ranked.len() && ranked[i] == w;
            assert(after[rest.len() + i] == w);
            assert(s.windows.contains_key(w));
        }
        if after.contains(w) {
            let i = choose|i: int| 0 <= i < after.len() && after[i] == w;
            if i < rest.len() {
                assert(rest[i] == w);
            } else {
                assert(ranked[i - rest.len()] == w);
            }
        }
    }
    assert forall|i: int, j: int|
        0 <= i < after.len() && 0 <= j < after.len() && i != j implies after[i] != after[j] by {
        if i < rest.len() && j >= rest.len() {
            assert(rest.contains(rest[i]));
            assert(ranked.contains(ranked[j - rest.len()]));
        } else if j < rest.len() && i >= rest.len() {
            assert(rest.contains(rest[j]));
            assert(ranked.contains(ranked[i - rest.len()]));
        }
    }
}

proof fn lemma_restore_completed(s: ServerModel, asked: u32)
    requires
        s.restore is Some,
        restore::is_contiguous((s.restore->0).placements),
    ensures
        keeps_order(s, s.restore_completed(s.restore->0, asked)),
{
    reveal(ServerModel::restore_completed);
    broadcast use group_same_desk;
    broadcast use lemma_unhidden;

    if s.is_orderly() {
        let r = s.restore->0;
        lemma_restacked(s);
        let over = ServerModel { restore: None, ..s };
        let stacked = ServerModel {
            z_order: focus::without(over.z_order, r.placements.dom()) + restore::ranked(
                r.placements,
            ),
            ..over
        };
        let shown = stacked.unhidden(ordered::ascending_keys(r.hidden));
        let focus = shown.restored_focus(r, asked);
        let moved = shown.focused(
            match focus {
                Some(w) => shown.focus_target(w),
                None => None,
            },
        );
        if focus is Some {
            lemma_lifted(moved.z_order, focus->0);
        }
        let lifted = ServerModel {
            z_order: match focus {
                Some(w) => focus::lifted(moved.z_order, w).0,
                None => moved.z_order,
            },
            ..moved
        };
        assert(lifted.is_orderly());
        assert(same_desk(lifted, s.restore_completed(r, asked)));
    }
}

proof fn lemma_restore_aborted(s: ServerModel, status: u32, notify_owner: bool)
    ensures
        keeps_order(s, s.restore_aborted(status, notify_owner)),
{
    reveal(ServerModel::restore_aborted);
    broadcast use group_same_desk;
    broadcast use lemma_unhidden;

}

proof fn lemma_restore_ended(s: ServerModel, client_id: ClientId, request: ShellManagerEndRestore)
    ensures
        keeps_order(s, s.restore_ended(client_id, request)),
{
    lemma_restore_aborted(s, events::RESTORE_ABORTED, true);
    if s.restore is Some && restore::is_contiguous((s.restore->0).placements) {
        lemma_restore_completed(s, request.focus_window_id);
    }
}

proof fn lemma_first_configured(s: ServerModel, client_id: ClientId, surface_id: ObjectId)
    ensures
        same_desk(s, s.first_configured(client_id, surface_id)),
{
    reveal(ServerModel::first_configured);
    broadcast use group_same_desk;

}

proof fn lemma_first_shown(s: ServerModel, client_id: ClientId, surface_id: ObjectId)
    ensures
        keeps_order(s, s.first_shown(client_id, surface_id).0),
{
    reveal(ServerModel::first_shown);
    broadcast use group_same_desk;

    match s.owner_of_surface(client_id, surface_id) {
        Some(owner) => {
            let shown = s.with_toplevel(
                owner,
                ToplevelModel { mapped_once: true, ..s.toplevel(owner) },
            );
            if shown.window_ids.contains_key(owner) {
                let window_id = shown.window_ids[owner];
                let focused = shown.focused(Some((client_id, surface_id)));
                lemma_raised(focused, window_id);
                lemma_then(s, focused, focused.raised(window_id).0);
            }
        },
        None => {},
    }
}

proof fn lemma_committed(
    s: ServerModel,
    before: ServerModel,
    client_id: ClientId,
    surface_id: ObjectId,
)
    ensures
        keeps_order(s, s.committed(before, client_id, surface_id)),
{
    reveal(ServerModel::committed);
    reveal(ServerModel::geometry_noted);
    reveal(ServerModel::placement_noted);
    broadcast use group_same_desk;

    let size_before = before.clients[client_id].shown_size(surface_id);
    let (kept, changed) = s.geometry_noted(client_id, surface_id, size_before);
    let (placed, settled) = kept.placement_noted(client_id, surface_id);
    let (mapped, focused) = placed.first_shown(client_id, surface_id);
    assert(same_desk(s, kept));
    assert(same_desk(kept, placed)) by {
        if kept.restore is Some && placed.restore is Some {
            assert((placed.restore->0).placements.dom() =~= (kept.restore->0).placements.dom());
        }
    }
    lemma_first_shown(placed, client_id, surface_id);
    lemma_then(s, placed, mapped);
    let told = lemma_after_commit(mapped, before, s, client_id, surface_id);
    lemma_first_configured(told, client_id, surface_id);
    lemma_then(s, mapped, s.committed(before, client_id, surface_id));
}

/// What is told of after a commit moves no window.
proof fn lemma_after_commit(
    mapped: ServerModel,
    before: ServerModel,
    s: ServerModel,
    client_id: ClientId,
    surface_id: ObjectId,
) -> (told: ServerModel)
    requires
        ({
            let size_before = before.clients[client_id].shown_size(surface_id);
            let kept = s.geometry_noted(client_id, surface_id, size_before).0;
            let placed = kept.placement_noted(client_id, surface_id).0;
            mapped == placed.first_shown(client_id, surface_id).0
        }),
    ensures
        same_desk(mapped, told),
        s.committed(before, client_id, surface_id) == told.first_configured(client_id, surface_id),
{
    reveal(ServerModel::committed);
    broadcast use group_same_desk;

    let size_before = before.clients[client_id].shown_size(surface_id);
    let (expected, at) = before.commit_candidate(client_id, surface_id);
    let (kept, changed) = s.geometry_noted(client_id, surface_id, size_before);
    let (placed, settled) = kept.placement_noted(client_id, surface_id);
    let focused = placed.first_shown(client_id, surface_id).1;
    let damage = if at is Some && at == mapped.geometry(client_id, surface_id) {
        expected
    } else {
        DamageModel::Full
    };
    let drawn = mapped.changed(damage);
    let shown = ServerModel {
        commit_owner: if drawn.commit_owner == Some(client_id) {
            None
        } else {
            drawn.commit_owner
        },
        ..drawn
    };
    let announced = match focused {
        Some(window_id) => shown.announce_focus(Some(window_id)),
        None => shown,
    };
    let different = if changed is Some {
        changed
    } else {
        settled
    };
    if different is Some && !announced.drags(different->0) {
        announced.announce_state(different->0)
    } else {
        announced
    }
}

pub(crate) proof fn lemma_toplevel_made(s: ServerModel, client_id: ClientId, payload: Seq<u8>)
    requires
        s.next_window_id < u32::MAX,
    ensures
        keeps_order(s, s.toplevel_made(client_id, payload)),
{
    reveal(ServerModel::toplevel_made);
    broadcast use group_same_desk;

    let request = XdgShellGetToplevel::held_by(payload);
    let owner = WindowOwner { client_id, toplevel_id: request.new_id };
    let numbered = s.positioned(owner).numbered(owner);
    assert(same_desk(s, s.positioned(owner)));
    assert(same_desk(s, numbered));
    lemma_created(numbered, owner);
    let made = numbered.created(owner);
    lemma_then(s, numbered, made);
    lemma_first_shown(made, client_id, request.surface_id);
    let shown = made.first_shown(client_id, request.surface_id).0;
    lemma_then(s, made, shown);
    if made.has_toplevel(owner) && made.clients[client_id].shows(made.toplevel(owner).surface_id) {
        assert(same_desk(shown, s.toplevel_made(client_id, payload))
            || requests::size_fault(payload, 8) is Some);
    }
}

pub(crate) proof fn lemma_shell_followed(
    s: ServerModel,
    client_id: ClientId,
    opcode: u16,
    payload: Seq<u8>,
    reserved: bool,
)
    ensures
        keeps_order(s, s.shell_followed(client_id, opcode, payload, reserved)),
{
    reveal(ServerModel::shell_followed);
    let window_id = WindowId(bytes::le32_at(payload, 0));
    lemma_window_focused(
        s,
        window_id,
        if reserved {
            Some(client_id)
        } else {
            None
        },
    );
    lemma_window_focused(s, window_id, None);
    lemma_asked_to_close(s, window_id);
    lemma_minimized(s, window_id, true);
    lemma_toggled(s, window_id);
    lemma_restore_placed(s, client_id, ShellManagerPlaceRestoredWindow::held_by(payload));
    lemma_restore_ended(s, client_id, ShellManagerEndRestore::held_by(payload));
    let begun = s.restore_begun(client_id, ShellManagerBeginRestore::held_by(payload));
    assert(keeps_order(s, begun));
}

pub(crate) proof fn lemma_toplevel_followed(
    s: ServerModel,
    owner: WindowOwner,
    opcode: u16,
    payload: Seq<u8>,
)
    ensures
        keeps_order(s, s.toplevel_followed(owner, opcode, payload).0),
{
    reveal(ServerModel::toplevel_followed);
    broadcast use group_same_desk;

    lemma_destroyed(s, owner);
    lemma_maximized(s, owner, true);
    lemma_maximized(s, owner, false);
    if s.window_ids.contains_key(owner) {
        lemma_minimized(s, s.window_ids[owner], true);
    }
}

pub(crate) proof fn lemma_surface_followed(
    s: ServerModel,
    before: ServerModel,
    client_id: ClientId,
    surface_id: ObjectId,
    opcode: u16,
    payload: Seq<u8>,
)
    ensures
        keeps_order(s, s.surface_followed(before, client_id, surface_id, opcode, payload)),
{
    broadcast use group_same_desk;

    assert(same_desk(s, s.surface_gone(client_id, surface_id))) by {
        reveal(ServerModel::surface_gone);
    }
    lemma_committed(s, before, client_id, surface_id);
}

proof fn lemma_followed(
    s: ServerModel,
    before: ServerModel,
    client_id: ClientId,
    target: ObjectId,
    opcode: u16,
    payload: Seq<u8>,
)
    requires
        before.interface_of(client_id, target) == Some(Interface::XdgShell) && opcode == 1
            ==> s.next_window_id < u32::MAX,
    ensures
        keeps_order(s, s.followed(before, client_id, target, opcode, payload).0),
{
    match before.interface_of(client_id, target) {
        Some(Interface::Surface) => {
            lemma_surface_followed(s, before, client_id, target, opcode, payload);
        },
        Some(Interface::ShellManager) => {
            let reserved = before.is_reserved(client_id, target, opcode);
            lemma_shell_followed(s, client_id, opcode, payload, reserved);
        },
        Some(Interface::XdgToplevel) => {
            let owner = WindowOwner { client_id, toplevel_id: target };
            lemma_toplevel_followed(s, owner, opcode, payload);
        },
        Some(Interface::XdgShell) => {
            if opcode == 1 {
                lemma_toplevel_made(s, client_id, payload);
            }
        },
        _ => {},
    }
}

/// Whatever is asked for, the windows stay in order.
pub proof fn law_dispatch_keeps_order(
    s: ServerModel,
    client_id: ClientId,
    message: Seq<u8>,
    granted: bool,
)
    requires
        s.can_serve(client_id, message),
    ensures
        keeps_order(s, s.dispatched(client_id, message, granted).0),
        keeps_order(s, s.served(client_id, message, granted)),
{
    reveal(ServerModel::carried_out);
    if wire::header_fault(message) is None {
        let header = wire::header_at(message);
        let payload = message.subrange(HEADER_SIZE as int, header.length as int);
        if !s.is_withheld(client_id, header.object_id, header.opcode) && s.clients.contains_key(
            client_id,
        ) {
            let step = s.clients[client_id].dispatched(
                header,
                payload,
                s.budgets(client_id),
                granted,
            );
            if step.1 is None {
                let counted = s.recounted(client_id, step.0);
                let reserved = s.is_reserved(client_id, header.object_id, header.opcode);
                let settled = ServerModel {
                    command_owner: if reserved {
                        None
                    } else {
                        counted.command_owner
                    },
                    ..counted
                };
                assert(same_desk(s, settled));
                lemma_followed(
                    settled,
                    s,
                    client_id,
                    header.object_id,
                    header.opcode,
                    payload,
                );
                lemma_then(
                    s,
                    settled,
                    settled.followed(s, client_id, header.object_id, header.opcode, payload).0,
                );
            }
        }
    }
    let after = s.dispatched(client_id, message, granted).0;
    lemma_then(s, after, s.served(client_id, message, granted));
}

proof fn lemma_pointer_moved(s: ServerModel, x: i32, y: i32)
    ensures
        same_desk(s, s.pointer_moved(x, y).0),
{
    reveal(ServerModel::drag_advanced);
    broadcast use group_same_desk;

}

proof fn lemma_dropped(s: ServerModel, drag: DragState)
    ensures
        same_desk(s, s.dropped(drag)),
{
    reveal(ServerModel::dropped);
    broadcast use group_same_desk;

}

proof fn lemma_button_changed(s: ServerModel, button: u32, state: u32)
    ensures
        keeps_order(s, s.button_changed(button, state).0),
{
    if state == events::STATE_RELEASED && s.drag is Some {
        lemma_dropped(s, s.drag->0);
    } else {
        match s.hit(s.pointer_x, s.pointer_y) {
            Some(hit) => {
                let serial = s.next_pointer_serial;
                let counted = ServerModel {
                    next_pointer_serial: if serial == u32::MAX {
                        1
                    } else {
                        (serial + 1) as u32
                    },
                    ..s
                };
                lemma_pressed(counted, hit);
                let acted = if state == events::STATE_PRESSED {
                    counted.pressed(hit)
                } else {
                    counted
                };
                lemma_then(s, counted, acted);
                assert(same_desk(acted, acted.button_told(hit, serial, button, state).0));
                lemma_then(s, acted, acted.button_told(hit, serial, button, state).0);
            },
            None => {},
        }
    }
}

/// Input keeps the windows in order. Keys leave them alone.
pub proof fn law_input_keeps_order(
    s: ServerModel,
    x: i32,
    y: i32,
    button: u32,
    key: u32,
    state: u32,
)
    ensures
        keeps_order(s, s.pointer_moved(x, y).0),
        keeps_order(s, s.button_changed(button, state).0),
        same_desk(s, s.key_changed(key, state).0),
{
    lemma_pointer_moved(s, x, y);
    lemma_button_changed(s, button, state);
}

proof fn lemma_pressed(s: ServerModel, hit: HitResult)
    ensures
        keeps_order(s, s.pressed(hit)),
{
    reveal(ServerModel::pressed);
    reveal(ServerModel::clicked);
    broadcast use group_same_desk;

    if !s.is_command(hit) {
        let idle = ServerModel { command_owner: None, commit_owner: None, ..s };
        let drawn = if s.commit_owner is Some {
            idle.changed(DamageModel::Full)
        } else {
            idle
        };
        assert(same_desk(s, drawn));
        let moved = drawn.focused(Some((hit.client_id, hit.surface_id)));
        match moved.window_of_surface(hit.client_id, hit.surface_id) {
            Some(window_id) => {
                lemma_raised(moved, window_id);
                let lifted = moved.raised(window_id).0;
                lemma_then(s, moved, lifted);
                lemma_then(s, lifted, s.pressed(hit));
            },
            None => {},
        }
    }
}

/// The passing of time keeps the windows in order.
pub proof fn law_time_keeps_order(s: ServerModel, now_ms: u64)
    ensures
        keeps_order(s, s.at_time(now_ms)),
{
    let later = ServerModel {
        monotonic_ms: crate::arith::max_int(s.monotonic_ms as int, now_ms as int) as u64,
        ..s
    };
    lemma_restore_aborted(later, events::RESTORE_TIMED_OUT, true);
    lemma_then(s, later, s.at_time(now_ms));
}

// Connections that come and go.

/// Whether an owner's window is among those that leave.
pub open spec fn leaves(pairs: Seq<(WindowOwner, WindowId)>, owner: WindowOwner) -> bool {
    exists|i: int| 0 <= i < pairs.len() && (#[trigger] pairs[i]).0 == owner
}

pub(crate) proof fn lemma_windows_of(pairs: Seq<(WindowOwner, WindowId)>, window_id: WindowId)
    ensures
        connections::windows_of(pairs).contains(window_id) == (exists|i: int|
            0 <= i < pairs.len() && (#[trigger] pairs[i]).1 == window_id),
{
    let ids = pairs.map_values(|pair: (WindowOwner, WindowId)| pair.1);
    if ids.contains(window_id) {
        let i = choose|i: int| 0 <= i < ids.len() && ids[i] == window_id;
        assert(pairs[i].1 == window_id);
    }
    if exists|i: int| 0 <= i < pairs.len() && (#[trigger] pairs[i]).1 == window_id {
        let i = choose|i: int| 0 <= i < pairs.len() && (#[trigger] pairs[i]).1 == window_id;
        assert(ids[i] == window_id);
    }
}

pub(crate) proof fn lemma_buried(s: ServerModel, pairs: Seq<(WindowOwner, WindowId)>)
    ensures
        ({
            let b = s.buried(pairs);
            let gone = connections::windows_of(pairs);
            &&& b.next_window_id == s.next_window_id
            &&& b.z_order == s.z_order
            &&& forall|w: WindowId| #[trigger]
                b.windows.contains_key(w) == (s.windows.contains_key(w) && !gone.contains(w))
            &&& forall|w: WindowId| #[trigger]
                b.windows.contains_key(w) ==> b.windows[w] == s.windows[w]
            &&& forall|o: WindowOwner| #[trigger]
                b.window_ids.contains_key(o) == (s.window_ids.contains_key(o) && !leaves(pairs, o))
            &&& forall|o: WindowOwner| #[trigger]
                b.window_ids.contains_key(o) ==> b.window_ids[o] == s.window_ids[o]
            &&& (b.restore is Some) == (s.restore is Some)
            &&& s.restore is Some ==> (b.restore->0).hidden == (s.restore->0).hidden.difference(
                gone,
            ) && (b.restore->0).placements.dom() == (s.restore->0).placements.dom().difference(
                gone,
            )
        }),
    decreases pairs.len(),
{
    broadcast use lemma_announce;

    let gone = connections::windows_of(pairs);
    if pairs.len() == 0 {
        assert(gone =~= Set::<WindowId>::empty());
        if s.restore is Some {
            assert((s.restore->0).hidden.difference(gone) =~= (s.restore->0).hidden);
            assert((s.restore->0).placements.dom().difference(gone) =~= (
            s.restore->0).placements.dom());
        }
    } else {
        let front = pairs.drop_last();
        let (owner, window_id) = pairs.last();
        lemma_buried(s, front);
        let fewer = connections::windows_of(front);
        assert forall|w: WindowId| #[trigger] gone.contains(w) == (fewer.contains(w) || w
            == window_id) by {
            lemma_windows_of(pairs, w);
            lemma_windows_of(front, w);
            if exists|i: int| 0 <= i < pairs.len() && (#[trigger] pairs[i]).1 == w {
                let i = choose|i: int| 0 <= i < pairs.len() && (#[trigger] pairs[i]).1 == w;
                if i < front.len() {
                    assert(front[i].1 == w);
                }
            }
            if exists|i: int| 0 <= i < front.len() && (#[trigger] front[i]).1 == w {
                let i = choose|i: int| 0 <= i < front.len() && (#[trigger] front[i]).1 == w;
                assert(pairs[i].1 == w);
            }
            assert(pairs[pairs.len() - 1].1 == window_id);
        }
        assert forall|o: WindowOwner| #[trigger] leaves(pairs, o) == (leaves(front, o) || o
            == owner) by {
            if leaves(pairs, o) {
                let i = choose|i: int| 0 <= i < pairs.len() && (#[trigger] pairs[i]).0 == o;
                if i < front.len() {
                    assert(front[i].0 == o);
                }
            }
            if leaves(front, o) {
                let i = choose|i: int| 0 <= i < front.len() && (#[trigger] front[i]).0 == o;
                assert(pairs[i].0 == o);
            }
            assert(pairs[pairs.len() - 1].0 == owner);
        }
        if s.restore is Some {
            let before = s.buried(front).restore->0;
            assert(before.hidden.remove(window_id) =~= (s.restore->0).hidden.difference(gone));
            assert(before.placements.remove(window_id).dom() =~= (
            s.restore->0).placements.dom().difference(gone));
        }
    }
}

/// The windows of a connection that leaves are listed, each with its owner.
pub(crate) proof fn lemma_windows_leaving(s: ServerModel, id: ClientId)
    requires
        s.is_orderly(),
    ensures
        forall|o: WindowOwner| #[trigger]
            leaves(s.windows_leaving(id), o) == (s.window_ids.contains_key(o) && o.client_id == id),
        forall|i: int|
            0 <= i < s.windows_leaving(id).len() ==> s.window_ids.contains_key(
                (#[trigger] s.windows_leaving(id)[i]).0,
            ) && s.windows_leaving(id)[i].1 == s.window_ids[s.windows_leaving(id)[i].0],
{
    let owners = s.z_order.map_values(|w: WindowId| s.windows[w]);
    assert(owners.to_set() =~= s.window_ids.dom()) by {
        assert forall|o: WindowOwner| #[trigger] owners.to_set().contains(o)
            == s.window_ids.dom().contains(o) by {
            if owners.contains(o) {
                let i = choose|i: int| 0 <= i < owners.len() && owners[i] == o;
                assert(s.z_order.contains(s.z_order[i]));
                assert(s.windows.contains_key(s.z_order[i]));
            }
            if s.window_ids.contains_key(o) {
                let w = s.window_ids[o];
                assert(s.windows.contains_key(w));
                let i = choose|i: int| 0 <= i < s.z_order.len() && s.z_order[i] == w;
                assert(owners[i] == o);
            }
        }
    }
    vstd::set_lib::lemma_set_subset_finite(s.window_ids.dom(), s.owners_of(id));
    ordered::law_ascending_keys_list_all(s.owners_of(id));
    let keys = ordered::ascending_keys(s.owners_of(id));
    let pairs = s.windows_leaving(id);
    assert forall|o: WindowOwner| #[trigger] leaves(pairs, o) == (s.window_ids.contains_key(o)
        && o.client_id == id) by {
        assert(keys.to_set().contains(o) == s.owners_of(id).contains(o));
        if leaves(pairs, o) {
            let i = choose|i: int| 0 <= i < pairs.len() && (#[trigger] pairs[i]).0 == o;
            assert(keys[i] == o);
        }
        if keys.contains(o) {
            let i = choose|i: int| 0 <= i < keys.len() && keys[i] == o;
            assert(pairs[i].0 == o);
        }
    }
    assert forall|i: int| 0 <= i < pairs.len() implies s.window_ids.contains_key(
        (#[trigger] pairs[i]).0,
    ) by {
        assert(leaves(pairs, pairs[i].0));
    }
}

proof fn lemma_forgotten(s: ServerModel, id: ClientId)
    ensures
        same_desk(s, s.forgotten(id)),
{
    reveal(ServerModel::forgotten);
}

/// The state of a connection that leaves, once its windows have left.
pub(crate) proof fn lemma_emptied(s: ServerModel, id: ClientId)
    ensures
        ({
            let leaving = s.windows_leaving(id);
            let forgotten = s.unfocused(id).forgotten(id);
            let thinned = ServerModel {
                z_order: focus::without(forgotten.z_order, connections::windows_of(leaving)),
                ..forgotten
            };
            keeps_order(s, thinned.buried(leaving))
        }),
{
    broadcast use group_same_desk;

    if s.is_orderly() {
        let leaving = s.windows_leaving(id);
        let gone = connections::windows_of(leaving);
        let alone = s.unfocused(id);
        let forgotten = alone.forgotten(id);
        lemma_forgotten(alone, id);
        assert(same_desk(s, forgotten));
        let thinned = ServerModel {
            z_order: focus::without(forgotten.z_order, gone),
            ..forgotten
        };
        lemma_without(s.z_order, gone);
        lemma_buried(thinned, leaving);
        lemma_windows_leaving(s, id);
        let b = thinned.buried(leaving);
        assert forall|w: WindowId| s.windows.contains_key(w) implies #[trigger] gone.contains(w)
            == leaves(leaving, s.windows[w]) by {
            lemma_windows_of(leaving, w);
            if gone.contains(w) {
                let i = choose|i: int| 0 <= i < leaving.len() && (#[trigger] leaving[i]).1 == w;
                assert(s.windows[s.window_ids[leaving[i].0]] == leaving[i].0);
                assert(leaves(leaving, s.windows[w]));
            }
            if leaves(leaving, s.windows[w]) {
                let i = choose|i: int|
                    0 <= i < leaving.len() && (#[trigger] leaving[i]).0 == s.windows[w];
                assert(leaving[i].1 == w);
            }
        }
        assert forall|o: WindowOwner| #[trigger] b.window_ids.contains_key(o) implies b.windows.contains_key(
            b.window_ids[o],
        ) && b.windows[b.window_ids[o]] == o by {
            assert(s.window_ids.contains_key(o));
            assert(s.windows.contains_key(s.window_ids[o]));
            assert(gone.contains(s.window_ids[o]) == leaves(leaving, o));
        }
        assert forall|w: WindowId| #[trigger] b.windows.contains_key(w) implies b.window_ids.contains_key(
            b.windows[w],
        ) && b.window_ids[b.windows[w]] == w && 0 < w.0 < b.next_window_id by {
            assert(s.windows.contains_key(w));
            assert(gone.contains(w) == leaves(leaving, s.windows[w]));
        }
        assert forall|w: WindowId| b.z_order.contains(w) == #[trigger] b.windows.contains_key(w) by {
            assert(s.z_order.contains(w) == s.windows.contains_key(w));
        }
    }
}

/// Connections that come and go keep the windows in order.
pub proof fn law_connections_keep_order(s: ServerModel, id: ClientId, caps: CapSet, peer_pid: u32)
    ensures
        same_desk(s, s.accepted(caps, peer_pid)),
        keeps_order(s, s.disconnected(id)),
{
    reveal(ServerModel::disconnected);
    broadcast use group_same_desk;

    let leaving = s.windows_leaving(id);
    let alone = s.unfocused(id);
    let forgotten = alone.forgotten(id);
    let thinned = ServerModel {
        z_order: focus::without(forgotten.z_order, connections::windows_of(leaving)),
        ..forgotten
    };
    let emptied = thinned.buried(leaving);
    lemma_emptied(s, id);
    let told = s.parted(id);
    assert(same_desk(emptied, told));
    lemma_then(s, emptied, told);
    lemma_restore_aborted(told, events::RESTORE_ABORTED, false);
    lemma_then(s, told, s.disconnected(id));
}

/// A server that has just started has no windows, and they are in order.
pub proof fn law_fresh_is_orderly(
    width: u32,
    height: u32,
    limits: ServerLimits,
    default_keymap: KeymapModel,
)
    ensures
        ServerModel::fresh(width, height, limits, default_keymap).is_orderly(),
{
}

} // verus!
