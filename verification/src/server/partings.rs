//! What a connection leaves behind when it goes.

use vstd::prelude::*;

use crate::ids::{ClientId, ObjectId, WindowId, WindowOwner};
use crate::server::comings;
use crate::server::connections;
use crate::server::damage::DamageModel;
use crate::server::desk;
use crate::server::desk::is_highest;
use crate::server::focus;
use crate::server::laws;
use crate::server::model::ServerModel;
use crate::server::promises;
use crate::server::restoring;
use crate::server::restoring::is_below;
use crate::server::telling;
use crate::server::telling::{all_told, is_told, is_up_to_date, only_shows, only_tells};

verus! {

/// The windows of a connection.
spec fn leaving(s: ServerModel, id: ClientId) -> Set<WindowId> {
    connections::windows_of(s.windows_leaving(id))
}

/// They are those whose owner it is.
proof fn lemma_leaving(s: ServerModel, id: ClientId, w: WindowId)
    requires
        s.is_orderly(),
    ensures
        s.windows.contains_key(w) ==> leaving(s, id).contains(w) == (s.windows[w].client_id == id),
        leaving(s, id).contains(w) ==> s.windows.contains_key(w),
{
    let pairs = s.windows_leaving(id);
    laws::lemma_windows_leaving(s, id);
    laws::lemma_windows_of(pairs, w);
    if leaving(s, id).contains(w) {
        let i = choose|i: int| 0 <= i < pairs.len() && (#[trigger] pairs[i]).1 == w;
        assert(laws::leaves(pairs, pairs[i].0));
        assert(s.window_ids.contains_key(pairs[i].0));
    }
    if s.windows.contains_key(w) && s.windows[w].client_id == id {
        let o = s.windows[w];
        assert(s.window_ids.contains_key(o));
        assert(laws::leaves(pairs, o));
        let i = choose|i: int| 0 <= i < pairs.len() && (#[trigger] pairs[i]).0 == o;
        assert(pairs[i].1 == w);
    }
}

/// The focus falls to the highest window that stays.
proof fn lemma_fallback_without(s: ServerModel, b: ServerModel, gone: Set<WindowId>)
    requires
        forall|w: WindowId|
            !gone.contains(w) ==> #[trigger] b.is_focusable(w) == s.is_focusable(w),
        forall|w: WindowId|
            !gone.contains(w) && #[trigger] s.is_focusable(w) ==> b.windows[w] == s.windows[w]
                && b.toplevel(b.windows[w]).surface_id == s.toplevel(s.windows[w]).surface_id,
        b.z_order == focus::without(s.z_order, gone),
    ensures
        is_highest(b, s.fallback_focus(gone)),
{
    let allowed = s.focusable().difference(gone);
    assert forall|w: WindowId| #[trigger] allowed.contains(w) == (s.is_focusable(w)
        && !gone.contains(w)) by {}
    comings::lemma_topmost_without(s.z_order, allowed, gone);
    desk::lemma_topmost(b.z_order, allowed);
    assert forall|j: int| 0 <= j < b.z_order.len() implies b.is_focusable(#[trigger] b.z_order[j])
        == allowed.contains(b.z_order[j]) by {
        let w = b.z_order[j];
        assert(b.z_order.contains(w));
        if gone.contains(w) {
            comings::lemma_gone(s.z_order, gone, w);
        }
    }
    if let Some(w) = focus::topmost(b.z_order, allowed) {
        let i = choose|i: int|
            0 <= i < b.z_order.len() && #[trigger] b.z_order[i] == w && allowed.contains(w)
                && forall|j: int|
                i < j < b.z_order.len() ==> !allowed.contains(#[trigger] b.z_order[j]);
        assert(b.is_focusable(b.z_order[i]));
    }
}

/// Burying windows tells the others, and changes nothing of connections.
proof fn lemma_buried_tells(s: ServerModel, pairs: Seq<(WindowOwner, WindowId)>)
    ensures
        all_told(s.clients, s.buried(pairs).clients),
        s.buried(pairs) == (ServerModel {
            clients: s.buried(pairs).clients,
            window_ids: s.buried(pairs).window_ids,
            windows: s.buried(pairs).windows,
            restore: s.buried(pairs).restore,
            ..s
        }),
    decreases pairs.len(),
{
    broadcast use telling::group_shows;

    if pairs.len() > 0 {
        let before = s.buried(pairs.drop_last());
        lemma_buried_tells(s, pairs.drop_last());
        crate::server::inputs::lemma_told_then(s, before, s.buried(pairs));
    }
}

/// What the end of a connection comes to: nothing of it is left, neither windows
/// nor what it had a hold on. The others stay as they are, and in their order. If
/// it had the focus, the highest window that can have it gets it. The picture
/// follows, if it showed anything.
pub open spec fn has_parted(a: ServerModel, b: ServerModel, id: ClientId) -> bool {
    &&& b.clients.dom() == a.clients.dom().remove(id)
    &&& forall|o: WindowOwner|
        o.client_id != id ==> #[trigger] b.has_toplevel(o) == a.has_toplevel(o) && (a.has_toplevel(
            o,
        ) ==> b.toplevel(o) == a.toplevel(o))
    &&& forall|w: WindowId| #[trigger]
        b.windows.contains_key(w) == (a.windows.contains_key(w) && a.windows[w].client_id != id)
    &&& forall|w: WindowId| #[trigger] b.windows.contains_key(w) ==> b.windows[w] == a.windows[w]
    &&& forall|w: WindowId, v: WindowId|
        #![trigger is_below(b.z_order, w, v)]
        is_below(a.z_order, w, v) && a.windows.contains_key(w) && a.windows.contains_key(v)
            && a.windows[w].client_id != id && a.windows[v].client_id != id ==> is_below(
            b.z_order,
            w,
            v,
        )
    &&& a.focus is Some && (a.focus->0).0 == id ==> is_highest(b, b.focus)
    &&& !(a.focus is Some && (a.focus->0).0 == id) ==> b.focus == a.focus
    &&& a.drag is Some && (a.drag->0).client_id == id ==> b.drag is None
    &&& !(a.drag is Some && (a.drag->0).client_id == id) ==> b.drag == a.drag
    &&& a.command_owner == Some(id) ==> b.command_owner is None
    &&& a.commit_owner == Some(id) ==> b.commit_owner is None
    &&& a.work_area_owner == Some(id) ==> b.work_area_owner is None && b.taskbar_height == 0
    &&& a.work_area_owner != Some(id) ==> b.work_area_owner == a.work_area_owner
        && b.taskbar_height == a.taskbar_height
    &&& !b.fence_clients.contains(id)
    &&& a.frame.is_whole() && !a.deferred && (exists|t: ObjectId| #[trigger]
        a.clients[id].shows(t)) ==> is_up_to_date(b)
}

#[verifier::rlimit(40)]
proof fn lemma_parted(s: ServerModel, id: ClientId)
    requires
        s.is_orderly(),
        s.clients.contains_key(id),
    ensures
        ({
            let b = s.parted(id);
            &&& b.clients.dom() == s.clients.dom().remove(id)
            &&& all_told(s.clients.remove(id), b.clients)
            &&& forall|w: WindowId| #[trigger]
                b.windows.contains_key(w) == (s.windows.contains_key(w) && s.windows[w].client_id
                    != id)
            &&& forall|w: WindowId| #[trigger]
                b.windows.contains_key(w) ==> b.windows[w] == s.windows[w]
            &&& b.z_order == focus::without(s.z_order, leaving(s, id))
            &&& b.focus == if s.focus_is_of(id) {
                s.focus_without(id)
            } else {
                s.focus
            }
            &&& b.frame == s.frame
            &&& b.deferred == s.deferred
            &&& s.drag is Some && (s.drag->0).client_id == id ==> b.drag is None
            &&& !(s.drag is Some && (s.drag->0).client_id == id) ==> b.drag == s.drag
            &&& s.command_owner == Some(id) ==> b.command_owner is None
            &&& s.commit_owner == Some(id) ==> b.commit_owner is None
            &&& s.work_area_owner == Some(id) ==> b.work_area_owner is None && b.taskbar_height
                == 0
            &&& s.work_area_owner != Some(id) ==> b.work_area_owner == s.work_area_owner
                && b.taskbar_height == s.taskbar_height
            &&& !b.fence_clients.contains(id)
        }),
{
    broadcast use telling::group_shows;

    reveal(ServerModel::forgotten);
    let pairs = s.windows_leaving(id);
    let gone = leaving(s, id);
    let alone = s.unfocused(id);
    let aimed = ServerModel { focus: alone.focus, ..s };
    assert(only_tells(aimed, alone)) by {
        telling::lemma_focused(s, s.focus_without(id));
    }
    assert(alone.clients.dom().contains(id)) by {
        assert(aimed.clients.dom().contains(id));
    }
    let forgotten = alone.forgotten(id);
    let thinned = ServerModel { z_order: focus::without(forgotten.z_order, gone), ..forgotten };
    let buried = thinned.buried(pairs);
    laws::lemma_buried(thinned, pairs);
    lemma_buried_tells(thinned, pairs);
    let told = buried.announce_states(focus::dropped_by(forgotten.z_order, gone));
    assert(only_tells(buried, told));
    let b = s.parted(id);
    assert(only_tells(told, b));
    telling::lemma_tells_then(buried, told, b);
    crate::server::inputs::lemma_told_then(thinned, buried, b);
    let rest = ServerModel { clients: s.clients.remove(id), ..s };
    assert(all_told(rest.clients, thinned.clients)) by {
        assert(rest.clients.dom() =~= thinned.clients.dom());
        assert forall|o: ClientId| #[trigger] rest.clients.contains_key(o) implies is_told(
            rest.clients[o],
            thinned.clients[o],
        ) by {
            assert(aimed.clients.contains_key(o));
        }
    }
    crate::server::inputs::lemma_told_then(rest, thinned, b);
    assert(b.clients.dom() =~= s.clients.dom().remove(id));
    assert forall|w: WindowId| #[trigger] b.windows.contains_key(w) == (s.windows.contains_key(w)
        && s.windows[w].client_id != id) by {
        lemma_leaving(s, id, w);
        assert(buried.windows.contains_key(w) == (thinned.windows.contains_key(w)
            && !gone.contains(w)));
    }
}

/// A connection that goes leaves nothing of itself behind, and the others as they
/// are.
pub proof fn law_parted_connection_leaves_nothing(s: ServerModel, id: ClientId)
    requires
        s.is_sound(),
        s.clients.contains_key(id),
        s.restore is Some ==> (s.restore->0).owner != id,
    ensures
        has_parted(s, s.disconnected(id), id),
{
    broadcast use telling::group_shows;

    reveal(ServerModel::disconnected);
    lemma_parted(s, id);
    let told = s.parted(id);
    let after = s.disconnected(id);
    let gone = leaving(s, id);
    assert(only_shows(told, after));
    let rest = ServerModel { clients: s.clients.remove(id), ..s };
    crate::server::inputs::lemma_told_then(rest, told, after);
    telling::lemma_all_told(rest, after);
    assert(after.clients.dom() =~= s.clients.dom().remove(id));
    assert forall|o: WindowOwner| o.client_id != id implies #[trigger] after.has_toplevel(o)
        == s.has_toplevel(o) && (s.has_toplevel(o) ==> after.toplevel(o) == s.toplevel(o)) by {
        assert(rest.has_toplevel(o) == s.has_toplevel(o));
        if rest.has_toplevel(o) {
            assert(rest.toplevel(o) == s.toplevel(o));
        }
    }
    assert forall|w: WindowId, v: WindowId|
        #![trigger is_below(after.z_order, w, v)]
        is_below(s.z_order, w, v) && s.windows.contains_key(w) && s.windows.contains_key(v)
            && s.windows[w].client_id != id && s.windows[v].client_id != id implies is_below(
        after.z_order,
        w,
        v,
    ) by {
        lemma_leaving(s, id, w);
        lemma_leaving(s, id, v);
        restoring::lemma_without_keeps_order(s.z_order, gone, w, v);
    }
    if s.focus_is_of(id) {
        assert forall|w: WindowId| !gone.contains(w) implies #[trigger] after.is_focusable(w)
            == s.is_focusable(w) by {
            lemma_leaving(s, id, w);
            assert(after.windows.contains_key(w) == told.windows.contains_key(w));
            if s.windows.contains_key(w) {
                let o = s.windows[w];
                assert(after.has_toplevel(o) == s.has_toplevel(o));
                if s.has_toplevel(o) {
                    assert(rest.clients.contains_key(o.client_id));
                    assert(is_told(rest.clients[o.client_id], after.clients[o.client_id]));
                }
            }
        }
        assert forall|w: WindowId| !gone.contains(w) && #[trigger] s.is_focusable(w) implies after.windows[w]
            == s.windows[w] && after.toplevel(after.windows[w]).surface_id == s.toplevel(
            s.windows[w],
        ).surface_id by {
            lemma_leaving(s, id, w);
            assert(told.windows.contains_key(w));
            assert(after.has_toplevel(s.windows[w]) == s.has_toplevel(s.windows[w]));
        }
        lemma_fallback_without(s, after, gone);
    }
    if s.frame.is_whole() && !s.deferred && (exists|t: ObjectId| #[trigger]
        s.clients[id].shows(t)) {
        assert(s.shows_anything(id));
        assert(s.unfocused(id).clients.contains_key(id)) by {
            telling::lemma_focused(s, s.focus_without(id));
            let aimed = ServerModel { focus: s.focus_without(id), ..s };
            assert(aimed.clients.dom().contains(id));
        }
        promises::law_picture_is_of_the_scene(told, DamageModel::Full);
    }
}

} // verus!
