//! What connections hold, and the steps of the server that leave it alone.

use vstd::prelude::*;

use crate::bytes;
use crate::caps::CapSet;
use crate::client::bounds;
use crate::client::model;
use crate::client::model::{BatchModel, ClientModel, PoolModel, SurfaceModel, ToplevelModel};
use crate::client::{BufferInfo, ClientLimits};
use crate::ids::{ClientId, ObjectId, WindowId, WindowOwner};
use crate::layout::KeyboardLayout;
use crate::objects::Interface;
use crate::ordered;
use crate::requests::{
    ShellManagerBeginRestore, ShellManagerEndRestore, ShellManagerPlaceRestoredWindow,
};
use crate::server::damage::DamageModel;
use crate::server::focus;
use crate::server::model::{NoticeModel, RestoreModel, ServerModel};
use crate::server::restore;
use crate::client::AUTO_LAYOUT_STEP;
use crate::server::{DragState, HitResult};

verus! {

/// What a connection holds, apart from how its windows are shown.
#[verifier::ext_equal]
pub struct Holdings {
    pub capabilities: CapSet,
    pub peer_pid: u32,
    pub limits: ClientLimits,
    pub objects: Map<ObjectId, Interface>,
    pub retired: Set<ObjectId>,
    pub pools: Map<ObjectId, PoolModel>,
    pub pool_bytes: u64,
    pub buffers: Map<ObjectId, BufferInfo>,
    pub surfaces: Map<ObjectId, SurfaceModel>,
    pub awaiting: Seq<(ObjectId, ObjectId)>,
    pub ready: Seq<BatchModel>,
    /// The surface, title and application id of each toplevel.
    pub toplevels: Map<ObjectId, (ObjectId, Seq<u8>, Seq<u8>)>,
    pub toplevel_metadata_bytes: u64,
    pub toplevel_by_surface: Map<ObjectId, ObjectId>,
}

pub open spec fn named(toplevel: ToplevelModel) -> (ObjectId, Seq<u8>, Seq<u8>) {
    (toplevel.surface_id, toplevel.title, toplevel.app_id)
}

pub open spec fn mark(toplevel: ToplevelModel) -> (u32, bool) {
    (toplevel.ordinal, toplevel.hidden_for_restore)
}

impl ClientModel {
    #[verifier::opaque]
    pub open spec fn holdings(self) -> Holdings {
        Holdings {
            capabilities: self.capabilities,
            peer_pid: self.peer_pid,
            limits: self.limits,
            objects: self.objects,
            retired: self.retired,
            pools: self.pools,
            pool_bytes: self.pool_bytes,
            buffers: self.buffers,
            surfaces: self.surfaces,
            awaiting: self.awaiting,
            ready: self.ready,
            toplevels: Map::new(
                |t: ObjectId| self.toplevels.contains_key(t),
                |t: ObjectId| named(self.toplevels[t]),
            ),
            toplevel_metadata_bytes: self.toplevel_metadata_bytes,
            toplevel_by_surface: self.toplevel_by_surface,
        }
    }
}

impl ClientModel {
    /// The number of each toplevel among those of its process, and whether it
    /// is hidden until a restore ends.
    #[verifier::opaque]
    pub open spec fn marks(self) -> Map<ObjectId, (u32, bool)> {
        Map::new(
            |t: ObjectId| self.toplevels.contains_key(t),
            |t: ObjectId| mark(self.toplevels[t]),
        )
    }
}

/// What a state says of the work area, the held keys and the layout.
pub open spec fn settings(s: ServerModel) -> (
    u32,
    Option<ClientId>,
    bool,
    bool,
    u8,
    u8,
    KeyboardLayout,
) {
    (
        s.taskbar_height,
        s.work_area_owner,
        s.f4_down,
        s.f4_consumed,
        s.shift_mask,
        s.alt_mask,
        s.layout,
    )
}

/// The windows that a restore holds back.
pub open spec fn held_back(restore: Option<RestoreModel>) -> Option<Set<WindowId>> {
    match restore {
        Some(r) => Some(r.hidden),
        None => None,
    }
}

impl ServerModel {
    /// The marks of all toplevels, with their processes.
    #[verifier::opaque]
    pub open spec fn marks(self) -> Map<ClientId, (u32, Map<ObjectId, (u32, bool)>)> {
        Map::new(
            |id: ClientId| self.clients.contains_key(id),
            |id: ClientId| (self.clients[id].peer_pid, self.clients[id].marks()),
        )
    }

    #[verifier::opaque]
    pub open spec fn holdings(self) -> Map<ClientId, Holdings> {
        Map::new(
            |id: ClientId| self.clients.contains_key(id),
            |id: ClientId| self.clients[id].holdings(),
        )
    }

    /// Whether the queue and the journal of every connection are within their
    /// limits.
    #[verifier::opaque]
    pub open spec fn is_bounded(self) -> bool {
        forall|id: ClientId| #[trigger]
            self.clients.contains_key(id) ==> self.clients[id].is_bounded()
    }
}

/// Whether a step leaves alone what connections hold, and keeps their queues
/// within their limits.
pub open spec fn keeps_holdings(a: ServerModel, b: ServerModel) -> bool {
    &&& b.holdings() == a.holdings()
    &&& b.pool_bytes == a.pool_bytes
    &&& b.toplevel_metadata_bytes == a.toplevel_metadata_bytes
    &&& b.limits == a.limits
    &&& b.next_client_id == a.next_client_id
    &&& b.windows == a.windows
    &&& b.window_ids == a.window_ids
    &&& a.is_bounded() ==> b.is_bounded()
}

/// Whether a step that falls into a batch leaves the picture alone.
pub open spec fn keeps_picture(a: ServerModel, b: ServerModel) -> bool {
    a.deferred ==> b.deferred && b.frame == a.frame && b.scene_generation == a.scene_generation
}

/// Whether a step leaves alone how windows are numbered and hidden.
pub open spec fn keeps_marks(a: ServerModel, b: ServerModel) -> bool {
    &&& b.marks() == a.marks()
    &&& b.ordinals == a.ordinals
    &&& held_back(b.restore) == held_back(a.restore)
}

/// Whether a step leaves alone what connections hold, the settings, and in a
/// batch the picture.
pub open spec fn leaves_most_alone(a: ServerModel, b: ServerModel) -> bool {
    &&& keeps_holdings(a, b)
    &&& settings(b) == settings(a)
    &&& keeps_picture(a, b)
}

/// Whether a step also leaves alone how windows are numbered and hidden.
pub open spec fn leaves_alone(a: ServerModel, b: ServerModel) -> bool {
    leaves_most_alone(a, b) && keeps_marks(a, b)
}

// Connections.

broadcast proof fn lemma_emit(
    c: ClientModel,
    object_id: ObjectId,
    opcode: u16,
    payload: Seq<u8>,
)
    ensures
        (#[trigger] c.emit(object_id, opcode, payload)).holdings() == c.holdings(),
        c.emit(object_id, opcode, payload).marks() == c.marks(),
        c.emit(object_id, opcode, payload).peer_pid == c.peer_pid,
        bounds::keeps_bounds(c, c.emit(object_id, opcode, payload)),
{
    broadcast use model::lemma_emit_frame;
    broadcast use bounds::law_emit_keeps_bounds;

    reveal(ClientModel::holdings);
    reveal(ClientModel::marks);
}

broadcast proof fn lemma_toplevel_state(c: ClientModel, id: ObjectId, toplevel: ToplevelModel)
    requires
        c.toplevels.contains_key(id),
        named(toplevel) == named(c.toplevels[id]),
        mark(toplevel) == mark(c.toplevels[id]),
    ensures
        (#[trigger] c.with_toplevel_state(id, toplevel)).holdings() == c.holdings(),
        c.with_toplevel_state(id, toplevel).marks() == c.marks(),
        bounds::keeps_bounds(c, c.with_toplevel_state(id, toplevel)),
{
    reveal(ClientModel::holdings);
    reveal(ClientModel::marks);
    assert(c.with_toplevel_state(id, toplevel).holdings().toplevels =~= c.holdings().toplevels);
    assert(c.with_toplevel_state(id, toplevel).marks() =~= c.marks());
}

/// A connection that holds what it held.
broadcast proof fn lemma_with_client(s: ServerModel, id: ClientId, c: ClientModel)
    requires
        s.clients.contains_key(id),
        c.holdings() == s.clients[id].holdings(),
        c.marks() == s.clients[id].marks(),
        c.peer_pid == s.clients[id].peer_pid,
        bounds::keeps_bounds(s.clients[id], c),
    ensures
        leaves_alone(s, #[trigger] s.with_client(id, c)),
{
    reveal(ServerModel::holdings);
    reveal(ServerModel::marks);
    reveal(ServerModel::is_bounded);
    assert(s.with_client(id, c).holdings() =~= s.holdings());
    assert(s.with_client(id, c).marks() =~= s.marks());
}

broadcast proof fn lemma_with_toplevel(s: ServerModel, owner: WindowOwner, toplevel: ToplevelModel)
    requires
        s.has_toplevel(owner),
        named(toplevel) == named(s.toplevel(owner)),
        mark(toplevel) == mark(s.toplevel(owner)),
    ensures
        leaves_alone(s, #[trigger] s.with_toplevel(owner, toplevel)),
{
    broadcast use {lemma_toplevel_state, lemma_with_client};

}

/// A toplevel that is numbered or hidden in another way.
broadcast proof fn lemma_marked_toplevel(
    s: ServerModel,
    owner: WindowOwner,
    toplevel: ToplevelModel,
)
    requires
        s.has_toplevel(owner),
        named(toplevel) == named(s.toplevel(owner)),
    ensures
        leaves_most_alone(s, #[trigger] s.with_toplevel(owner, toplevel)),
{
    reveal(ServerModel::holdings);
    reveal(ServerModel::is_bounded);
    let c = s.clients[owner.client_id];
    let after = c.with_toplevel_state(owner.toplevel_id, toplevel);
    assert(after.holdings() == c.holdings()) by {
        reveal(ClientModel::holdings);
        assert(after.holdings().toplevels =~= c.holdings().toplevels);
    }
    assert(s.with_toplevel(owner, toplevel).holdings() =~= s.holdings());
}

/// The parts of the state that are not about what connections hold.
pub(crate) broadcast proof fn lemma_rest(a: ServerModel, b: ServerModel)
    requires
        a.clients == b.clients,
    ensures
        #![trigger a.holdings(), b.holdings()]
        a.holdings() == b.holdings(),
        a.marks() == b.marks(),
        a.is_bounded() == b.is_bounded(),
{
    reveal(ServerModel::holdings);
    reveal(ServerModel::marks);
    reveal(ServerModel::is_bounded);
}

pub(crate) broadcast proof fn lemma_announce(s: ServerModel, notice: NoticeModel)
    ensures
        leaves_alone(s, #[trigger] s.announce(notice)),
{
    broadcast use lemma_emit;

    reveal(ServerModel::announce);
    reveal(ServerModel::holdings);
    reveal(ServerModel::marks);
    reveal(ServerModel::is_bounded);
    let after = s.announce(notice);
    assert forall|id: ClientId| #[trigger] s.clients.contains_key(id) implies
        after.clients[id].holdings() == s.clients[id].holdings() && after.clients[id].marks()
        == s.clients[id].marks() && after.clients[id].peer_pid == s.clients[id].peer_pid && bounds::keeps_bounds(
        s.clients[id],
        after.clients[id],
    ) by {
        assert(after.clients[id] == s.clients[id].told(notice));
    }
    assert(after.holdings() =~= s.holdings());
    assert(after.marks() =~= s.marks());
}

broadcast proof fn lemma_announce_state(s: ServerModel, window_id: WindowId)
    ensures
        leaves_alone(s, #[trigger] s.announce_state(window_id)),
{
    reveal(ServerModel::announce_state);
    broadcast use lemma_announce;

}

pub(crate) broadcast proof fn lemma_announce_states(s: ServerModel, window_ids: Seq<WindowId>)
    ensures
        leaves_alone(s, #[trigger] s.announce_states(window_ids)),
    decreases window_ids.len(),
{
    broadcast use lemma_announce_state;

    if window_ids.len() > 0 {
        lemma_announce_states(s, window_ids.drop_last());
    }
}

pub(crate) broadcast proof fn lemma_changed(s: ServerModel, damage: DamageModel)
    ensures
        leaves_alone(s, #[trigger] s.changed(damage)),
{
    reveal(ServerModel::changed);
    lemma_rest(s, s.changed(damage));
}

broadcast proof fn lemma_configured(s: ServerModel, owner: WindowOwner, width: i32, height: i32)
    ensures
        leaves_alone(s, #[trigger] s.configured(owner, width, height)),
{
    broadcast use {lemma_emit, lemma_with_client};

    reveal(ServerModel::configured);
    if s.clients.contains_key(owner.client_id) {
        let c = s.clients[owner.client_id];
        assert(c.after_configure_serial().holdings() == c.holdings()) by {
            reveal(ClientModel::holdings);
        }
        assert(c.after_configure_serial().marks() == c.marks()) by {
            reveal(ClientModel::marks);
        }
        assert(bounds::keeps_bounds(c, c.after_configure_serial()));
    }
}

pub(crate) broadcast proof fn lemma_focused(s: ServerModel, focus: Option<(ClientId, ObjectId)>)
    ensures
        leaves_alone(s, #[trigger] s.focused(focus)),
{
    reveal(ServerModel::focused);
    broadcast use lemma_configured;

    lemma_rest(s, ServerModel { focus, ..s });
}

broadcast proof fn lemma_raised(s: ServerModel, window_id: WindowId)
    ensures
        leaves_alone(s, (#[trigger] s.raised(window_id)).0),
{
    reveal(ServerModel::raised);
    broadcast use lemma_announce_states;

    lemma_rest(s, ServerModel { z_order: focus::lifted(s.z_order, window_id).0, ..s });
}

pub(crate) broadcast group group_holdings {
    lemma_emit,
    lemma_with_client,
    lemma_with_toplevel,
    lemma_announce,
    lemma_announce_state,
    lemma_announce_states,
    lemma_changed,
    lemma_configured,
    lemma_focused,
    lemma_raised,
}

// Larger steps.

broadcast proof fn lemma_maximized(s: ServerModel, owner: WindowOwner, maximize: bool)
    ensures
        leaves_alone(s, #[trigger] s.maximized(owner, maximize)),
{
    broadcast use group_holdings;

    reveal(ServerModel::maximized);
}

broadcast proof fn lemma_minimized(s: ServerModel, window_id: WindowId, minimized: bool)
    ensures
        leaves_alone(s, (#[trigger] s.minimized(window_id, minimized)).0),
{
    broadcast use group_holdings;
    broadcast use lemma_rest;

}

broadcast proof fn lemma_window_focused(
    s: ServerModel,
    window_id: WindowId,
    shell: Option<ClientId>,
)
    ensures
        leaves_alone(s, #[trigger] s.window_focused(window_id, shell)),
{
    broadcast use group_holdings;
    broadcast use lemma_rest;

    reveal(ServerModel::window_focused);
}

broadcast proof fn lemma_asked_to_close(s: ServerModel, window_id: WindowId)
    ensures
        leaves_alone(s, #[trigger] s.asked_to_close(window_id)),
{
    broadcast use group_holdings;
    broadcast use lemma_window_focused;

}

broadcast proof fn lemma_toggled(s: ServerModel, window_id: WindowId)
    ensures
        leaves_alone(s, (#[trigger] s.toggled(window_id)).0),
{
    broadcast use group_holdings;
    broadcast use lemma_maximized;

}

pub(crate) broadcast proof fn lemma_positioned(s: ServerModel, owner: WindowOwner)
    ensures
        leaves_most_alone(s, #[trigger] s.positioned(owner)),
{
    broadcast use lemma_marked_toplevel;

    let advanced = ServerModel {
        next_toplevel_offset: crate::arith::sat_i32(s.next_toplevel_offset + AUTO_LAYOUT_STEP),
        ..s
    };
    lemma_rest(s, advanced);
}

pub(crate) broadcast proof fn lemma_numbered(s: ServerModel, owner: WindowOwner)
    ensures
        leaves_most_alone(s, #[trigger] s.numbered(owner)),
{
    broadcast use lemma_marked_toplevel;

    let pid = s.clients[owner.client_id].peer_pid;
    let counted = ServerModel {
        ordinals: s.ordinals.insert(pid, (s.next_ordinal(pid) + 1) as u32),
        ..s
    };
    lemma_rest(s, counted);
}

broadcast proof fn lemma_retitled(s: ServerModel, owner: WindowOwner)
    ensures
        leaves_alone(s, #[trigger] s.retitled(owner)),
{
    broadcast use group_holdings;

}

proof fn lemma_windows_listed(
    s: ServerModel,
    c: ClientModel,
    manager: ObjectId,
    window_ids: Seq<WindowId>,
)
    ensures
        s.windows_listed(c, manager, window_ids).holdings() == c.holdings(),
        s.windows_listed(c, manager, window_ids).marks() == c.marks(),
        s.windows_listed(c, manager, window_ids).peer_pid == c.peer_pid,
        bounds::keeps_bounds(c, s.windows_listed(c, manager, window_ids)),
    decreases window_ids.len(),
{
    broadcast use lemma_emit;

    if window_ids.len() > 0 {
        lemma_windows_listed(s, c, manager, window_ids.drop_last());
    }
}

proof fn lemma_states_listed(
    s: ServerModel,
    c: ClientModel,
    manager: ObjectId,
    snapshot_id: u32,
    window_ids: Seq<WindowId>,
)
    ensures
        s.states_listed(c, manager, snapshot_id, window_ids).holdings() == c.holdings(),
        s.states_listed(c, manager, snapshot_id, window_ids).marks() == c.marks(),
        s.states_listed(c, manager, snapshot_id, window_ids).peer_pid == c.peer_pid,
        bounds::keeps_bounds(c, s.states_listed(c, manager, snapshot_id, window_ids)),
    decreases window_ids.len(),
{
    broadcast use lemma_emit;

    if window_ids.len() > 0 {
        lemma_states_listed(s, c, manager, snapshot_id, window_ids.drop_last());
    }
}

broadcast proof fn lemma_subscribed(s: ServerModel, client_id: ClientId)
    ensures
        leaves_alone(s, #[trigger] s.subscribed(client_id)),
{
    broadcast use group_holdings;

    if s.clients.contains_key(client_id) && s.clients[client_id].shell_manager_id is Some {
        let c = s.clients[client_id];
        let marked = ClientModel { shell_manager_subscribed: true, ..c };
        assert(marked.holdings() == c.holdings()) by {
            reveal(ClientModel::holdings);
        }
        assert(marked.marks() == c.marks()) by {
            reveal(ClientModel::marks);
        }
        lemma_windows_listed(s, marked, c.shell_manager_id->0, s.z_order);
    }
}

broadcast proof fn lemma_state_subscribed(s: ServerModel, client_id: ClientId, snapshot_id: u32)
    ensures
        leaves_alone(s, #[trigger] s.state_subscribed(client_id, snapshot_id)),
{
    broadcast use group_holdings;

    if s.clients.contains_key(client_id) && s.clients[client_id].shell_manager_id is Some {
        let c = s.clients[client_id];
        let marked = ClientModel { shell_manager_state_snapshot_id: Some(snapshot_id), ..c };
        assert(marked.holdings() == c.holdings()) by {
            reveal(ClientModel::holdings);
        }
        assert(marked.marks() == c.marks()) by {
            reveal(ClientModel::marks);
        }
        lemma_states_listed(s, marked, c.shell_manager_id->0, snapshot_id, s.z_order);
    }
}

broadcast proof fn lemma_dragging(
    s: ServerModel,
    owner: WindowOwner,
    opcode: u16,
    payload: Seq<u8>,
)
    ensures
        leaves_alone(s, #[trigger] s.dragging(owner, opcode, payload)),
{
    lemma_rest(s, s.dragging(owner, opcode, payload));
}

broadcast proof fn lemma_fenced(s: ServerModel, client_id: ClientId)
    ensures
        leaves_alone(s, #[trigger] s.fenced(client_id)),
{
    lemma_rest(s, s.fenced(client_id));
}

broadcast proof fn lemma_surface_gone(s: ServerModel, client_id: ClientId, surface_id: ObjectId)
    ensures
        leaves_alone(s, #[trigger] s.surface_gone(client_id, surface_id)),
{
    broadcast use group_holdings;

    reveal(ServerModel::surface_gone);
}

broadcast proof fn lemma_first_configured(s: ServerModel, client_id: ClientId, surface_id: ObjectId)
    ensures
        leaves_alone(s, #[trigger] s.first_configured(client_id, surface_id)),
{
    broadcast use group_holdings;

    reveal(ServerModel::first_configured);
}

pub(crate) broadcast proof fn lemma_first_shown(s: ServerModel, client_id: ClientId, surface_id: ObjectId)
    ensures
        leaves_alone(s, (#[trigger] s.first_shown(client_id, surface_id)).0),
{
    broadcast use group_holdings;

    reveal(ServerModel::first_shown);
}

broadcast proof fn lemma_geometry_noted(
    s: ServerModel,
    client_id: ClientId,
    surface_id: ObjectId,
    before: Option<(u32, u32)>,
)
    ensures
        leaves_alone(s, (#[trigger] s.geometry_noted(client_id, surface_id, before)).0),
{
    broadcast use group_holdings;

    reveal(ServerModel::geometry_noted);
}

broadcast proof fn lemma_placement_noted(s: ServerModel, client_id: ClientId, surface_id: ObjectId)
    ensures
        leaves_alone(s, (#[trigger] s.placement_noted(client_id, surface_id)).0),
{
    reveal(ServerModel::placement_noted);
    lemma_rest(s, s.placement_noted(client_id, surface_id).0);
}

broadcast proof fn lemma_committed(
    s: ServerModel,
    before: ServerModel,
    client_id: ClientId,
    surface_id: ObjectId,
)
    ensures
        leaves_alone(s, #[trigger] s.committed(before, client_id, surface_id)),
{
    broadcast use group_holdings;
    broadcast use lemma_rest;
    broadcast use {
        lemma_geometry_noted,
        lemma_placement_noted,
        lemma_first_shown,
        lemma_first_configured,
    };

    reveal(ServerModel::committed);
}

pub(crate) broadcast proof fn lemma_restore_reported(
    s: ServerModel,
    owner: ClientId,
    restore_id: u32,
    status: u32,
    placed: u32,
)
    ensures
        leaves_alone(s, #[trigger] s.restore_reported(owner, restore_id, status, placed)),
{
    broadcast use group_holdings;

}

broadcast proof fn lemma_restore_begun(
    s: ServerModel,
    client_id: ClientId,
    request: ShellManagerBeginRestore,
)
    ensures
        leaves_most_alone(s, #[trigger] s.restore_begun(client_id, request)),
{
    broadcast use lemma_restore_reported;

    let begun = s.restore_begun(client_id, request);
    if begun.clients == s.clients {
        lemma_rest(s, begun);
    }
}

broadcast proof fn lemma_restore_placed(
    s: ServerModel,
    client_id: ClientId,
    request: ShellManagerPlaceRestoredWindow,
)
    ensures
        leaves_alone(s, #[trigger] s.restore_placed(client_id, request)),
{
    broadcast use group_holdings;
    broadcast use lemma_rest;

    reveal(ServerModel::restore_placed);
    reveal(ServerModel::put_in_place);
    if s.can_place(client_id, request) {
        let owner = s.windows[WindowId(request.window_id)];
        lemma_put_in_place(s, owner, s.place_of(request));
    }
}

proof fn lemma_put_in_place(s: ServerModel, owner: WindowOwner, place: restore::WindowPlace)
    requires
        s.has_toplevel(owner),
    ensures
        leaves_alone(s, s.put_in_place(owner, place)),
{
    broadcast use group_holdings;

    reveal(ServerModel::put_in_place);
}

broadcast proof fn lemma_unhidden(s: ServerModel, window_ids: Seq<WindowId>)
    ensures
        leaves_most_alone(s, #[trigger] s.unhidden(window_ids)),
    decreases window_ids.len(),
{
    broadcast use lemma_marked_toplevel;

    if window_ids.len() > 0 {
        lemma_unhidden(s, window_ids.drop_last());
    }
}

broadcast proof fn lemma_restore_completed(s: ServerModel, r: RestoreModel, asked: u32)
    ensures
        leaves_most_alone(s, #[trigger] s.restore_completed(r, asked)),
{
    broadcast use group_holdings;
    broadcast use {lemma_unhidden, lemma_restore_reported};

    reveal(ServerModel::restore_completed);
    let stacked = ServerModel {
        z_order: focus::without(s.z_order, r.placements.dom()) + restore::ranked(r.placements),
        restore: None,
        ..s
    };
    lemma_rest(s, stacked);
    let shown = stacked.unhidden(ordered::ascending_keys(r.hidden));
    let focus = shown.restored_focus(r, asked);
    let moved = shown.focused(
        match focus {
            Some(w) => shown.focus_target(w),
            None => None,
        },
    );
    lemma_rest(
        moved,
        ServerModel {
            z_order: match focus {
                Some(w) => focus::lifted(moved.z_order, w).0,
                None => moved.z_order,
            },
            ..moved
        },
    );
}

pub(crate) broadcast proof fn lemma_restore_aborted(s: ServerModel, status: u32, notify_owner: bool)
    ensures
        leaves_most_alone(s, #[trigger] s.restore_aborted(status, notify_owner)),
{
    broadcast use group_holdings;
    broadcast use {lemma_unhidden, lemma_restore_reported};

    reveal(ServerModel::restore_aborted);
    lemma_rest(s, ServerModel { restore: None, ..s });
}

broadcast proof fn lemma_restore_ended(
    s: ServerModel,
    client_id: ClientId,
    request: ShellManagerEndRestore,
)
    ensures
        leaves_most_alone(s, #[trigger] s.restore_ended(client_id, request)),
{
    broadcast use {lemma_restore_completed, lemma_restore_aborted};

}

pub(crate) broadcast proof fn lemma_advertised(s: ServerModel, client_id: ClientId, registry_id: ObjectId)
    ensures
        leaves_alone(s, #[trigger] s.advertised(client_id, registry_id)),
{
    broadcast use group_holdings;

}

/// What follows a shell's request leaves alone what connections hold.
pub proof fn law_shells_take_nothing(
    s: ServerModel,
    client_id: ClientId,
    opcode: u16,
    payload: Seq<u8>,
    reserved: bool,
)
    ensures
        ({
            let after = s.shell_followed(client_id, opcode, payload, reserved);
            &&& keeps_holdings(s, after)
            &&& keeps_picture(s, after)
            &&& opcode != 6 ==> settings(after) == settings(s)
            &&& opcode != 10 && opcode != 12 ==> keeps_marks(s, after)
        }),
{
    reveal(ServerModel::shell_followed);
    let window_id = WindowId(bytes::le32_at(payload, 0));
    if opcode == 6 {
        lemma_rest(s, s.shell_followed(client_id, opcode, payload, reserved));
    }
    lemma_subscribed(s, client_id);
    lemma_window_focused(s, window_id, Some(client_id));
    lemma_window_focused(s, window_id, None);
    lemma_asked_to_close(s, window_id);
    lemma_minimized(s, window_id, true);
    lemma_toggled(s, window_id);
    lemma_fenced(s, client_id);
    lemma_state_subscribed(s, client_id, window_id.0);
    lemma_restore_begun(s, client_id, ShellManagerBeginRestore::held_by(payload));
    lemma_restore_placed(s, client_id, ShellManagerPlaceRestoredWindow::held_by(payload));
    lemma_restore_ended(s, client_id, ShellManagerEndRestore::held_by(payload));
}

proof fn lemma_pressed(s: ServerModel, hit: HitResult)
    ensures
        leaves_alone(s, s.pressed(hit)),
{
    broadcast use group_holdings;

    reveal(ServerModel::pressed);
    reveal(ServerModel::clicked);
    if s.is_command(hit) {
        lemma_rest(s, s.pressed(hit));
    } else {
        let idle = ServerModel { command_owner: None, commit_owner: None, ..s };
        lemma_rest(s, idle);
    }
}

proof fn lemma_pointer_moved(s: ServerModel, x: i32, y: i32)
    ensures
        leaves_alone(s, s.pointer_moved(x, y).0),
{
    broadcast use group_holdings;

    reveal(ServerModel::drag_advanced);
    let moved = ServerModel { pointer_x: x, pointer_y: y, ..s };
    lemma_rest(s, moved);
}

proof fn lemma_dropped(s: ServerModel, drag: DragState)
    ensures
        leaves_alone(s, s.dropped(drag)),
{
    broadcast use group_holdings;

    reveal(ServerModel::dropped);
    lemma_rest(s, ServerModel { drag: None, ..s });
}

proof fn lemma_button_changed(s: ServerModel, button: u32, state: u32)
    ensures
        leaves_alone(s, s.button_changed(button, state).0),
{
    broadcast use group_holdings;

    if s.drag is Some {
        lemma_dropped(s, s.drag->0);
    }
    match s.hit(s.pointer_x, s.pointer_y) {
        Some(hit) => {
            let serial = s.next_pointer_serial;
            let counted = ServerModel {
                next_pointer_serial: if serial == u32::MAX {
                    1
                } else {
                    (serial + 1) as u32
                },
                ..s
            };
            lemma_rest(s, counted);
            lemma_pressed(counted, hit);
        },
        None => {},
    }
}

proof fn lemma_key_delivered(s: ServerModel, key: u32, state: u32)
    ensures
        leaves_alone(s, s.key_delivered(key, state).0),
{
    broadcast use group_holdings;

}

proof fn lemma_f4_changed(s: ServerModel, state: u32)
    ensures
        keeps_holdings(s, s.f4_changed(state).0),
        keeps_picture(s, s.f4_changed(state).0),
        keeps_marks(s, s.f4_changed(state).0),
{
    broadcast use group_holdings;

    let held = ServerModel { f4_down: true, ..s };
    lemma_rest(s, held);
    let told = held.close_shortcut().0;
    assert(leaves_alone(held, told));
    lemma_rest(told, ServerModel { f4_consumed: held.close_shortcut().1, ..told });
    lemma_rest(held, ServerModel { f4_consumed: false, ..held });
    lemma_rest(s, ServerModel { f4_down: false, f4_consumed: false, ..s });
}

proof fn lemma_key_changed(s: ServerModel, key: u32, state: u32)
    ensures
        keeps_holdings(s, s.key_changed(key, state).0),
        keeps_picture(s, s.key_changed(key, state).0),
        keeps_marks(s, s.key_changed(key, state).0),
{
    let held = s.modifier_changed(key, state);
    lemma_rest(s, held);
    lemma_f4_changed(held, state);
    lemma_key_delivered(held.f4_changed(state).0, key, state);
    lemma_key_delivered(held, key, state);
}

/// Input and the passing of time leave alone what connections hold.
pub proof fn law_input_takes_nothing(
    s: ServerModel,
    x: i32,
    y: i32,
    button: u32,
    key: u32,
    state: u32,
    now_ms: u64,
)
    ensures
        leaves_alone(s, s.pointer_moved(x, y).0),
        leaves_alone(s, s.button_changed(button, state).0),
        keeps_holdings(s, s.key_changed(key, state).0),
        keeps_picture(s, s.key_changed(key, state).0),
        keeps_marks(s, s.key_changed(key, state).0),
        leaves_most_alone(s, s.at_time(now_ms)),
{
    lemma_pointer_moved(s, x, y);
    lemma_button_changed(s, button, state);
    lemma_key_changed(s, key, state);
    let later = ServerModel {
        monotonic_ms: crate::arith::max_int(s.monotonic_ms as int, now_ms as int) as u64,
        ..s
    };
    lemma_rest(s, later);
    lemma_restore_aborted(later, crate::events::RESTORE_TIMED_OUT, true);
}

/// What follows a request about a surface leaves alone what connections hold.
pub proof fn law_surfaces_take_nothing(
    s: ServerModel,
    before: ServerModel,
    client_id: ClientId,
    surface_id: ObjectId,
    opcode: u16,
    payload: Seq<u8>,
)
    ensures
        leaves_alone(s, s.surface_followed(before, client_id, surface_id, opcode, payload)),
{
    broadcast use lemma_changed;

    lemma_surface_gone(s, client_id, surface_id);
    lemma_committed(s, before, client_id, surface_id);
}

/// What follows a request about a toplevel does so too, unless the toplevel is
/// destroyed.
pub proof fn law_toplevels_take_nothing(
    s: ServerModel,
    owner: WindowOwner,
    opcode: u16,
    payload: Seq<u8>,
)
    requires
        opcode != 3,
    ensures
        leaves_alone(s, s.toplevel_followed(owner, opcode, payload).0),
{
    broadcast use lemma_announce_state;

    reveal(ServerModel::toplevel_followed);
    lemma_retitled(s, owner);
    lemma_maximized(s, owner, true);
    lemma_maximized(s, owner, false);
    lemma_dragging(s, owner, opcode, payload);
    if s.window_ids.contains_key(owner) {
        lemma_minimized(s, s.window_ids[owner], true);
    }
}

} // verus!
