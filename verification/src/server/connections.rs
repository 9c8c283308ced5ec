//! Connections coming and going.

use vstd::prelude::*;

use crate::arith;
use crate::caps::{Cap, CapSet};
use crate::client;
use crate::client::model::ClientModel;
use crate::client::queue;
use crate::client::{Client, ClientLimits};
use crate::compositor::{Framebuffer, FramebufferModel, DEFAULT_HEIGHT, DEFAULT_WIDTH};
use crate::events;
use crate::events::RESTORE_ABORTED;
use crate::ids::{ClientId, ObjectId, WindowId, WindowOwner};
use crate::layout::KeyboardLayout;
use crate::objects::Interface;
use crate::ordered;
use crate::ordered::{OrderedMap, OrderedSet};
use crate::protocol::keymap;
use crate::protocol::keymap::{load_default, KeymapBundle, KeymapModel};
use crate::server;
use crate::server::damage::{DamageModel, PresentationDamage};
use crate::server::focus;
use crate::server::model::{NoticeModel, ServerModel};
use crate::server::notice::is_client;
use crate::server::windows;
use crate::server::{Server, ServerError, ServerLimits};

verus! {

broadcast use {
    crate::client::model::lemma_emit_frame,
    crate::ordered::lemma_remove_insert,
    crate::ordered::lemma_insert_same,
};

/// The fences that are not a connection's.
pub open spec fn fences_without(fences: Seq<(ClientId, u32)>, id: ClientId) -> Seq<(ClientId, u32)>
    decreases fences.len(),
{
    if fences.len() == 0 {
        fences
    } else if fences.last().0 == id {
        fences_without(fences.drop_last(), id)
    } else {
        fences_without(fences.drop_last(), id).push(fences.last())
    }
}

/// The windows of a list.
pub open spec fn windows_of(pairs: Seq<(WindowOwner, WindowId)>) -> Set<WindowId> {
    pairs.map_values(|pair: (WindowOwner, WindowId)| pair.1).to_set()
}

/// A count with one more, as far as the count goes.
pub open spec fn one_more(n: nat) -> usize {
    arith::min_int(n as int + 1, usize::MAX as int) as usize
}

impl ServerModel {
    /// A server without connections. Keys mean what they mean on the default
    /// layout.
    pub open spec fn fresh(
        width: u32,
        height: u32,
        limits: ServerLimits,
        default_keymap: KeymapModel,
    ) -> ServerModel {
        ServerModel {
            next_client_id: 1,
            clients: Map::empty(),
            limits,
            pool_bytes: 0,
            toplevel_metadata_bytes: 0,
            next_window_id: 1,
            windows: Map::empty(),
            window_ids: Map::empty(),
            ordinals: Map::empty(),
            z_order: Seq::empty(),
            frame: FramebufferModel::blank(width, height),
            scene_generation: 0,
            recomposition_serial: 0,
            deferred: false,
            pending: false,
            damage: DamageModel::none(),
            pointer_x: 0,
            pointer_y: 0,
            next_pointer_serial: 1,
            focus: None,
            layout: KeyboardLayout::UsQwerty,
            active_keymap: default_keymap,
            logical_keymap: default_keymap,
            shift_mask: 0,
            alt_mask: 0,
            f4_down: false,
            f4_consumed: false,
            taskbar_height: 0,
            work_area_owner: None,
            command_owner: None,
            commit_owner: None,
            next_fence_serial: 1,
            fence_clients: Set::empty(),
            fences: Seq::empty(),
            callback_cursor: 1,
            monotonic_ms: 0,
            restore: None,
            drag: None,
            next_toplevel_offset: 0,
        }
    }

    /// The connections that hold the shell capability.
    pub open spec fn shells(self) -> Set<ClientId> {
        Set::new(|id: ClientId| self.is_shell(id))
    }

    /// Why a connection is refused. Places for shells are kept apart from
    /// those for all others.
    pub open spec fn accept_fault(self, caps: CapSet) -> Option<ServerError> {
        let shells = self.shells().len();
        let all = self.clients.dom().len();
        let ordinary_limit = self.limits.clients.saturating_sub(self.limits.shell_clients);
        if caps.spec_contains(Cap::Shell) && one_more(shells) > self.limits.shell_clients {
            Some(
                ServerError::ShellClientLimitExceeded {
                    attempted: one_more(shells),
                    limit: self.limits.shell_clients,
                },
            )
        } else if !caps.spec_contains(Cap::Shell) && one_more((all - shells) as nat)
            > ordinary_limit {
            Some(
                ServerError::ClientLimitExceeded {
                    attempted: one_more((all - shells) as nat),
                    limit: ordinary_limit,
                },
            )
        } else if one_more(all) > self.limits.clients {
            Some(
                ServerError::ClientLimitExceeded {
                    attempted: one_more(all),
                    limit: self.limits.clients,
                },
            )
        } else {
            None
        }
    }

    /// The state with one more connection.
    pub open spec fn accepted(self, caps: CapSet, peer_pid: u32) -> ServerModel {
        let id = ClientId(self.next_client_id);
        ServerModel {
            next_client_id: self.next_client_id.saturating_add(1),
            clients: self.clients.insert(
                id,
                ClientModel::fresh(
                    id,
                    caps,
                    peer_pid,
                    ClientLimits {
                        toplevel_metadata_bytes: self.limits.client_toplevel_metadata_bytes,
                        ..client::default_client_limits()
                    },
                ),
            ),
            ..self
        }
    }

    /// The toplevels of a connection that are windows.
    pub open spec fn owners_of(self, id: ClientId) -> Set<WindowOwner> {
        Set::new(|owner: WindowOwner| self.window_ids.contains_key(owner) && owner.client_id == id)
    }

    /// The windows of a connection, in the order of their toplevels.
    pub open spec fn windows_leaving(self, id: ClientId) -> Seq<(WindowOwner, WindowId)> {
        ordered::ascending_keys(self.owners_of(id)).map_values(
            |owner: WindowOwner| (owner, self.window_ids[owner]),
        )
    }

    /// Whether a connection shows anything.
    pub open spec fn shows_anything(self, id: ClientId) -> bool {
        self.clients.contains_key(id) && exists|surface_id: ObjectId| #[trigger]
            self.clients[id].shows(surface_id)
    }

    /// The state without a connection's own state; its windows are still
    /// there.
    #[verifier::opaque]
    pub open spec fn forgotten(self, id: ClientId) -> ServerModel {
        let freed = if self.clients.contains_key(id) {
            ServerModel {
                clients: self.clients.remove(id),
                pool_bytes: self.pool_bytes.saturating_sub(self.clients[id].pool_bytes),
                toplevel_metadata_bytes: self.toplevel_metadata_bytes.saturating_sub(
                    self.clients[id].toplevel_metadata_bytes,
                ),
                ..self
            }
        } else {
            self
        };
        ServerModel {
            drag: if freed.drag is Some && (freed.drag->0).client_id == id {
                None
            } else {
                freed.drag
            },
            taskbar_height: if freed.work_area_owner == Some(id) {
                0
            } else {
                freed.taskbar_height
            },
            work_area_owner: if freed.work_area_owner == Some(id) {
                None
            } else {
                freed.work_area_owner
            },
            command_owner: if freed.command_owner == Some(id) {
                None
            } else {
                freed.command_owner
            },
            commit_owner: if freed.commit_owner == Some(id) {
                None
            } else {
                freed.commit_owner
            },
            fence_clients: freed.fence_clients.remove(id),
            fences: fences_without(freed.fences, id),
            ..freed
        }
    }

    /// The state without the listed windows.
    pub open spec fn buried(self, pairs: Seq<(WindowOwner, WindowId)>) -> ServerModel
        decreases pairs.len(),
    {
        if pairs.len() == 0 {
            self
        } else {
            let before = self.buried(pairs.drop_last());
            let (owner, window_id) = pairs.last();
            let told = ServerModel {
                window_ids: before.window_ids.remove(owner),
                windows: before.windows.remove(window_id),
                ..before
            }.announce(NoticeModel::Destroyed { window_id: window_id.0 });
            ServerModel { restore: windows::restore_without(told.restore, window_id), ..told }
        }
    }

    /// Whether the focus is a connection's.
    pub open spec fn focus_is_of(self, id: ClientId) -> bool {
        self.focus is Some && (self.focus->0).0 == id
    }

    /// The focus that is left when a connection goes.
    pub open spec fn focus_without(self, id: ClientId) -> Option<(ClientId, ObjectId)> {
        self.fallback_focus(windows_of(self.windows_leaving(id)))
    }

    /// The state just before a connection goes: it has lost the focus.
    pub open spec fn unfocused(self, id: ClientId) -> ServerModel {
        if self.focus_is_of(id) {
            self.focused(self.focus_without(id))
        } else {
            self
        }
    }

    /// The state without a connection and its windows, once the others have
    /// been told.
    pub open spec fn parted(self, id: ClientId) -> ServerModel {
        let leaving = self.windows_leaving(id);
        let forgotten = self.unfocused(id).forgotten(id);
        let thinned = ServerModel {
            z_order: focus::without(forgotten.z_order, windows_of(leaving)),
            ..forgotten
        };
        let buried = thinned.buried(leaving).announce_states(
            focus::dropped_by(forgotten.z_order, windows_of(leaving)),
        );
        if self.focus_is_of(id) {
            buried.announce_focus(buried.window_of_focus(self.focus_without(id)))
        } else {
            buried
        }
    }

    /// The state after a connection has gone: a restore of its own is given
    /// up, and what it showed is no longer drawn.
    #[verifier::opaque]
    pub open spec fn disconnected(self, id: ClientId) -> ServerModel {
        let told = self.parted(id);
        if self.restore is Some && (self.restore->0).owner == id && told.restore is Some {
            told.restore_aborted(RESTORE_ABORTED, false)
        } else if self.unfocused(id).clients.contains_key(id) && (self.shows_anything(id)
            || self.windows_leaving(id).len() > 0) {
            told.changed(DamageModel::Full)
        } else {
            told
        }
    }

    /// The state at the end of a batch.
    pub open spec fn batch_ended(self) -> ServerModel {
        if self.pending {
            (ServerModel { deferred: false, pending: false, ..self }).composed()
        } else {
            ServerModel { deferred: false, ..self }
        }
    }

    /// A connection told of a global.
    pub open spec fn offered(
        client: ClientModel,
        registry_id: ObjectId,
        name: u32,
        interface: Interface,
    ) -> ClientModel {
        client.emit(
            registry_id,
            1,
            events::registry_global_payload(
                name,
                interface.name_bytes(),
                interface.spec_supported_version(),
            ),
        )
    }

    /// The state after a connection has been told of every global that it may
    /// bind.
    pub open spec fn advertised(self, client_id: ClientId, registry_id: ObjectId) -> ServerModel {
        if !self.clients.contains_key(client_id) {
            self
        } else {
            let c0 = self.clients[client_id];
            let c1 = ServerModel::offered(c0, registry_id, 1, Interface::Compositor);
            let c2 = ServerModel::offered(c1, registry_id, 2, Interface::Shm);
            let c3 = ServerModel::offered(c2, registry_id, 3, Interface::XdgShell);
            let c4 = ServerModel::offered(c3, registry_id, 4, Interface::Seat);
            self.with_client(
                client_id,
                if c0.is_shell() {
                    ServerModel::offered(c4, registry_id, 5, Interface::ShellManager)
                } else {
                    c4
                },
            )
        }
    }
}

/// Places for shells are never taken by other connections: whatever ordinary
/// connections there are, a shell is accepted as long as there are fewer shells
/// than the limit allows and the ordinary ones keep to theirs.
pub proof fn law_shell_places_are_kept(s: ServerModel, caps: CapSet)
    requires
        caps.spec_contains(Cap::Shell),
        s.limits.shell_clients <= s.limits.clients < usize::MAX,
        s.shells().len() < s.limits.shell_clients,
        s.clients.dom().len() - s.shells().len() <= s.limits.clients - s.limits.shell_clients,
    ensures
        s.accept_fault(caps) is None,
{
}

/// An accepted connection keeps within the limits, apart from how many shells
/// there are.
pub proof fn law_accept_keeps_limits(s: ServerModel, caps: CapSet, peer_pid: u32)
    requires
        s.clients.dom().finite(),
        s.limits.clients < usize::MAX,
        s.accept_fault(caps) is None,
    ensures
        s.accepted(caps, peer_pid).clients.dom().len() <= s.limits.clients,
{
}

impl Server {
    /// A server with the default output and limits.
    pub fn new(bundle: &KeymapBundle) -> (s: Self)
        requires
            keymap::image_fault(bundle.us_qwerty@) is None,
        ensures
            s@ == ServerModel::fresh(
                DEFAULT_WIDTH,
                DEFAULT_HEIGHT,
                server::default_server_limits(),
                keymap::image_model(bundle.us_qwerty@),
            ),
    {
        proof {
            assert(DEFAULT_WIDTH * DEFAULT_HEIGHT == 786432) by (nonlinear_arith);
        }
        Server::with_framebuffer_size(DEFAULT_WIDTH, DEFAULT_HEIGHT, bundle)
    }

    pub fn with_framebuffer_size(width: u32, height: u32, bundle: &KeymapBundle) -> (s: Self)
        requires
            4 * (width * height) <= usize::MAX,
            keymap::image_fault(bundle.us_qwerty@) is None,
        ensures
            s@ == ServerModel::fresh(
                width,
                height,
                server::default_server_limits(),
                keymap::image_model(bundle.us_qwerty@),
            ),
    {
        Server::with_limits(width, height, ServerLimits::default(), bundle)
    }

    /// A server without connections, with the default layout of the bundle.
    pub fn with_limits(
        width: u32,
        height: u32,
        limits: ServerLimits,
        bundle: &KeymapBundle,
    ) -> (s: Self)
        requires
            4 * (width * height) <= usize::MAX,
            keymap::image_fault(bundle.us_qwerty@) is None,
        ensures
            s@ == ServerModel::fresh(
                width,
                height,
                limits,
                keymap::image_model(bundle.us_qwerty@),
            ),
    {
        let active_keymap = load_default(bundle);
        let logical_keymap = load_default(bundle);
        let s = Server {
            next_client_id: 1,
            clients: OrderedMap::new(),
            limits,
            pool_bytes: 0,
            toplevel_metadata_bytes: 0,
            next_window_id: 1,
            windows: OrderedMap::new(),
            window_ids: OrderedMap::new(),
            next_toplevel_ordinal_by_pid: OrderedMap::new(),
            z_order: Vec::new(),
            framebuffer: Framebuffer::new(width, height),
            scene_generation: 0,
            recomposition_serial: 0,
            recomposition_deferred: false,
            recomposition_pending: false,
            presentation_damage: PresentationDamage::none(),
            pointer_x: 0,
            pointer_y: 0,
            next_pointer_serial: 1,
            keyboard_focus: None,
            keyboard_layout: KeyboardLayout::UsQwerty,
            active_keymap,
            logical_keymap,
            shift_mask: 0,
            alt_mask: 0,
            f4_down: false,
            f4_close_shortcut_consumed: false,
            taskbar_height_px: 0,
            work_area_owner: None,
            pending_shell_command_owner: None,
            deferred_focus_commit_owner: None,
            next_present_fence_serial: 1,
            present_fence_clients: OrderedSet::new(),
            pending_present_fences: Vec::new(),
            frame_callback_client_cursor: 1,
            monotonic_ms: 0,
            restore_transaction: None,
            active_drag: None,
            next_toplevel_offset: 0,
        };
        proof {
            assert(s@ =~= ServerModel::fresh(
                width,
                height,
                limits,
                keymap::image_model(bundle.us_qwerty@),
            ));
        }
        s
    }

    pub fn framebuffer(&self) -> (frame: &Framebuffer)
        ensures
            frame@ == self@.frame,
    {
        &self.framebuffer
    }

    pub fn framebuffer_mut(&mut self) -> (frame: &mut Framebuffer)
        ensures
            (*frame)@ == old(self)@.frame,
            final(self)@ == (ServerModel { frame: (*final(frame))@, ..old(self)@ }),
    {
        &mut self.framebuffer
    }

    /// How often the picture was composed.
    pub fn scene_generation(&self) -> (n: u64)
        ensures
            n == self@.scene_generation,
    {
        self.scene_generation
    }

    /// How often a change was noted.
    pub fn recomposition_serial(&self) -> (n: u64)
        ensures
            n == self@.recomposition_serial,
    {
        self.recomposition_serial
    }

    pub fn presentation_damage(&self) -> (damage: &PresentationDamage)
        ensures
            damage@ == self@.damage,
    {
        &self.presentation_damage
    }

    /// Forgets what changed: the picture has been shown.
    pub fn clear_presentation_damage(&mut self)
        ensures
            final(self)@ == (ServerModel { damage: DamageModel::none(), ..old(self)@ }),
    {
        self.presentation_damage = PresentationDamage::none();
    }

    /// Lets changes wait until the batch ends.
    pub fn begin_recomposition_batch(&mut self)
        requires
            !old(self)@.deferred,
        ensures
            final(self)@ == (ServerModel { deferred: true, ..old(self)@ }),
    {
        self.recomposition_deferred = true;
    }

    /// Ends a batch. Composes the picture if anything changed, and says whether
    /// it did.
    pub fn finish_recomposition_batch(&mut self) -> (composed: bool)
        requires
            old(self)@.deferred,
        ensures
            composed == old(self)@.pending,
            final(self)@ == old(self)@.batch_ended(),
    {
        self.recomposition_deferred = false;
        if !self.recomposition_pending {
            return false;
        }
        self.recomposition_pending = false;
        self.recomposite_scene();
        true
    }

    /// Whether the picture is not to be shown yet.
    pub fn presentation_deferred(&self) -> (r: bool)
        ensures
            r == (self@.commit_owner is Some || self@.pending),
    {
        self.deferred_focus_commit_owner.is_some() || self.recomposition_pending
    }

    /// The windows, the lowest first.
    pub fn window_z_order(&self) -> (order: &[WindowId])
        ensures
            order@ == self@.z_order,
    {
        self.z_order.as_slice()
    }

    fn shell_count(&self) -> (n: usize)
        ensures
            n == self@.shells().len(),
            n <= self@.clients.dom().len(),
    {
        let ids = self.clients.keys();
        let ghost pred = |id: ClientId| self@.clients[id].is_shell();
        let mut shells: Vec<ClientId> = Vec::new();
        let mut i: usize = 0;
        proof {
            ordered::lemma_keeps_nothing(ids@, pred);
        }
        while i < ids.len()
            invariant
                i <= ids@.len(),
                shells@.len() <= i,
                ordered::is_ascending(ids@),
                ids@.to_set() == self@.clients.dom(),
                pred == (|id: ClientId| self@.clients[id].is_shell()),
                ordered::keeps_prefix(ids@, i as int, shells@, pred),
            decreases ids@.len() - i,
        {
            let id = ids[i];
            proof {
                ordered::lemma_keeps_next(ids@, i as int, shells@, pred);
                assert(ids@.to_set().contains(id));
            }
            if self.is_shell(id) {
                shells.push(id);
            }
            i += 1;
        }
        proof {
            ordered::lemma_keeps_all(ids@, shells@, pred, self@.clients.dom(), self@.shells());
            ordered::lemma_ascending_len(shells@);
        }
        shells.len()
    }

    /// Accepts an unprivileged connection.
    pub fn accept(&mut self) -> (id: ClientId)
        requires
            old(self)@.accept_fault(CapSet(0)) is None,
        ensures
            id == ClientId(old(self)@.next_client_id),
            final(self)@ == old(self)@.accepted(CapSet(0), 0),
    {
        self.accept_with_caps(CapSet::empty())
    }

    /// Accepts an unprivileged connection, if there is room for one.
    pub fn try_accept(&mut self) -> (r: Result<ClientId, ServerError>)
        ensures
            match r {
                Ok(id) => old(self)@.accept_fault(CapSet(0)) is None && id == ClientId(
                    old(self)@.next_client_id,
                ) && final(self)@ == old(self)@.accepted(CapSet(0), 0),
                Err(e) => old(self)@.accept_fault(CapSet(0)) == Some(e) && final(self)@
                    == old(self)@,
            },
    {
        self.try_accept_with_caps(CapSet::empty())
    }

    pub fn accept_with_caps(&mut self, caps: CapSet) -> (id: ClientId)
        requires
            old(self)@.accept_fault(caps) is None,
        ensures
            id == ClientId(old(self)@.next_client_id),
            final(self)@ == old(self)@.accepted(caps, 0),
    {
        match self.try_accept_with_caps(caps) {
            Ok(id) => id,
            Err(_) => {
                assert(false);
                ClientId(0)
            },
        }
    }

    pub fn try_accept_with_caps(&mut self, caps: CapSet) -> (r: Result<ClientId, ServerError>)
        ensures
            match r {
                Ok(id) => old(self)@.accept_fault(caps) is None && id == ClientId(
                    old(self)@.next_client_id,
                ) && final(self)@ == old(self)@.accepted(caps, 0),
                Err(e) => old(self)@.accept_fault(caps) == Some(e) && final(self)@ == old(self)@,
            },
    {
        self.try_accept_with_credentials(caps, 0)
    }

    /// Accepts a connection of the given process, with the given privileges, if
    /// there is room for one.
    pub fn try_accept_with_credentials(&mut self, caps: CapSet, peer_pid: u32) -> (r: Result<
        ClientId,
        ServerError,
    >)
        ensures
            match r {
                Ok(id) => old(self)@.accept_fault(caps) is None && id == ClientId(
                    old(self)@.next_client_id,
                ) && final(self)@ == old(self)@.accepted(caps, peer_pid),
                Err(e) => old(self)@.accept_fault(caps) == Some(e) && final(self)@ == old(self)@,
            },
    {
        let shells: usize = self.shell_count();
        let all: usize = self.clients.len();
        if caps.contains(Cap::Shell) {
            let attempted: usize = shells.saturating_add(1);
            if attempted > self.limits.shell_clients {
                return Err(
                    ServerError::ShellClientLimitExceeded {
                        attempted,
                        limit: self.limits.shell_clients,
                    },
                );
            }
        } else {
            let limit: usize = self.limits.clients.saturating_sub(self.limits.shell_clients);
            let attempted: usize = (all - shells).saturating_add(1);
            if attempted > limit {
                return Err(ServerError::ClientLimitExceeded { attempted, limit });
            }
        }
        let attempted: usize = all.saturating_add(1);
        if attempted > self.limits.clients {
            return Err(ServerError::ClientLimitExceeded { attempted, limit: self.limits.clients });
        }
        let id = ClientId(self.next_client_id);
        self.next_client_id = self.next_client_id.saturating_add(1);
        let mut limits = ClientLimits::default();
        limits.toplevel_metadata_bytes = self.limits.client_toplevel_metadata_bytes;
        let _ = self.clients.insert(
            id,
            Client::new_with_credentials_and_limits(id, caps, peer_pid, limits),
        );
        Ok(id)
    }

    fn shows_anything(&self, id: ClientId) -> (r: bool)
        ensures
            r == self@.shows_anything(id),
    {
        let client = match self.clients.get(id) {
            Some(client) => client,
            None => {
                return false;
            },
        };
        let ids = client.surfaces.keys();
        let mut i: usize = 0;
        while i < ids.len()
            invariant
                i <= ids@.len(),
                self@.clients.contains_key(id),
                client@ == self@.clients[id],
                ids@.to_set() == client@.surfaces.dom(),
                forall|j: int| #![trigger ids@[j]] 0 <= j < i ==> !client@.shows(ids@[j]),
            decreases ids@.len() - i,
        {
            if client.shows(ids[i]) {
                return true;
            }
            i += 1;
        }
        proof {
            assert forall|surface_id: ObjectId| !#[trigger] self@.clients[id].shows(surface_id) by {
                if client@.shows(surface_id) {
                    assert(ids@.to_set().contains(surface_id));
                    let j = choose|j: int| 0 <= j < ids@.len() && ids@[j] == surface_id;
                    assert(ids@[j] == surface_id);
                }
            }
        }
        false
    }

    /// The windows of a connection, in the order of their toplevels.
    fn windows_leaving(&self, id: ClientId) -> (pairs: Vec<(WindowOwner, WindowId)>)
        ensures
            pairs@ == self@.windows_leaving(id),
    {
        let owners = self.window_ids.keys();
        let ghost pred = |owner: WindowOwner| owner.client_id == id;
        let ghost mut kept: Seq<WindowOwner> = Seq::empty();
        let mut pairs: Vec<(WindowOwner, WindowId)> = Vec::new();
        let mut i: usize = 0;
        proof {
            ordered::lemma_keeps_nothing(owners@, pred);
        }
        while i < owners.len()
            invariant
                i <= owners@.len(),
                ordered::is_ascending(owners@),
                owners@.to_set() == self@.window_ids.dom(),
                pred == (|owner: WindowOwner| owner.client_id == id),
                ordered::keeps_prefix(owners@, i as int, kept, pred),
                pairs@ == kept.map_values(|owner: WindowOwner| (owner, self@.window_ids[owner])),
            decreases owners@.len() - i,
        {
            let owner = owners[i];
            proof {
                ordered::lemma_keeps_next(owners@, i as int, kept, pred);
                assert(owners@.to_set().contains(owner));
            }
            if owner.client_id.0 == id.0 {
                if let Some(window_id) = self.window_ids.get(owner) {
                    pairs.push((owner, *window_id));
                    proof {
                        kept = kept.push(owner);
                        assert(pairs@ =~= kept.map_values(
                            |owner: WindowOwner| (owner, self@.window_ids[owner]),
                        ));
                    }
                }
            }
            i += 1;
        }
        proof {
            ordered::lemma_keeps_all(
                owners@,
                kept,
                pred,
                self@.window_ids.dom(),
                self@.owners_of(id),
            );
        }
        pairs
    }

    /// Drops a connection's own state; its windows are still there.
    fn forget_client(&mut self, id: ClientId) -> (removed: Option<Client>)
        ensures
            final(self)@ == old(self)@.forgotten(id),
            match removed {
                Some(client) => old(self)@.clients.contains_key(id) && client@
                    == old(self)@.clients[id],
                None => !old(self)@.clients.contains_key(id),
            },
    {
        proof {
            reveal(ServerModel::forgotten);
        }
        let ghost start = self@;
        let removed = self.clients.remove(id);
        if let Some(client) = &removed {
            self.pool_bytes = self.pool_bytes.saturating_sub(client.pool_bytes_len());
            self.toplevel_metadata_bytes = self.toplevel_metadata_bytes.saturating_sub(
                client.toplevel_metadata_bytes_len(),
            );
        }
        if let Some(drag) = self.active_drag {
            if drag.client_id.0 == id.0 {
                self.active_drag = None;
            }
        }
        if is_client(self.work_area_owner, id) {
            self.work_area_owner = None;
            self.taskbar_height_px = 0;
        }
        if is_client(self.pending_shell_command_owner, id) {
            self.pending_shell_command_owner = None;
        }
        if is_client(self.deferred_focus_commit_owner, id) {
            self.deferred_focus_commit_owner = None;
        }
        let _ = self.present_fence_clients.remove(id);
        let ghost fences = self.pending_present_fences@;
        let mut kept: Vec<(ClientId, u32)> = Vec::new();
        let mut i: usize = 0;
        proof {
            assert(fences.take(0) =~= Seq::<(ClientId, u32)>::empty());
        }
        while i < self.pending_present_fences.len()
            invariant
                i <= self.pending_present_fences@.len(),
                fences == self.pending_present_fences@,
                kept@ == fences_without(fences.take(i as int), id),
            decreases self.pending_present_fences@.len() - i,
        {
            let fence = self.pending_present_fences[i];
            proof {
                assert(fences.take(i + 1).drop_last() =~= fences.take(i as int));
                assert(fences.take(i + 1).last() == fence);
            }
            if fence.0.0 != id.0 {
                kept.push(fence);
            }
            i += 1;
        }
        proof {
            assert(fences.take(i as int) =~= fences);
        }
        self.pending_present_fences = kept;
        proof {
            if !start.clients.contains_key(id) {
                assert(self@.clients =~= start.clients);
            }
            assert(self@ =~= start.forgotten(id));
        }
        removed
    }

    /// Takes the listed windows away.
    fn bury_windows(&mut self, pairs: &Vec<(WindowOwner, WindowId)>)
        ensures
            final(self)@ == old(self)@.buried(pairs@),
    {
        let mut i: usize = 0;
        proof {
            assert(pairs@.take(0) =~= Seq::<(WindowOwner, WindowId)>::empty());
        }
        while i < pairs.len()
            invariant
                i <= pairs@.len(),
                self@ == old(self)@.buried(pairs@.take(i as int)),
            decreases pairs@.len() - i,
        {
            let (owner, window_id) = pairs[i];
            proof {
                assert(pairs@.take(i + 1).drop_last() =~= pairs@.take(i as int));
                assert(pairs@.take(i + 1).last() == pairs@[i as int]);
            }
            let _ = self.window_ids.remove(owner);
            let _ = self.windows.remove(window_id);
            self.broadcast_window_destroyed(window_id.0);
            self.forget_restored_window(window_id);
            i += 1;
        }
        proof {
            assert(pairs@.take(i as int) =~= pairs@);
        }
    }

    /// Drops a connection with its windows, and gives what it was.
    pub fn disconnect(&mut self, id: ClientId) -> (removed: Option<Client>)
        ensures
            final(self)@ == old(self)@.disconnected(id),
            match removed {
                Some(client) => old(self)@.unfocused(id).clients.contains_key(id) && client@
                    == old(self)@.unfocused(id).clients[id],
                None => !old(self)@.unfocused(id).clients.contains_key(id),
            },
    {
        proof {
            reveal(ServerModel::disconnected);
        }
        let owned_restore: bool = match &self.restore_transaction {
            Some(restore) => restore.owner.0 == id.0,
            None => false,
        };
        let showed: bool = self.shows_anything(id);
        let leaving = self.windows_leaving(id);
        let gone = window_set(&leaving);
        let loses_focus: bool = match self.keyboard_focus {
            Some((client_id, surface_id)) => client_id.0 == id.0,
            None => false,
        };
        let fallback = if loses_focus {
            self.fallback_keyboard_focus(&gone)
        } else {
            None
        };
        if loses_focus {
            self.transition_keyboard_focus(fallback);
        }
        let removed = self.forget_client(id);
        let dropped = self.remove_from_z_order(&gone);
        self.bury_windows(&leaving);
        self.broadcast_window_states(&dropped);
        if loses_focus {
            let focused = self.window_of_focus(fallback);
            self.broadcast_window_focused(focused);
        }
        let aborted: bool = owned_restore && self.abort_restore(RESTORE_ABORTED, false);
        proof {
            reveal(ServerModel::restore_aborted);
        }
        if !aborted && removed.is_some() && (showed || leaving.len() > 0) {
            self.request_recomposition();
        }
        removed
    }

    /// The window of a toplevel.
    pub fn window_id(&self, client_id: ClientId, toplevel_id: ObjectId) -> (r: Option<u32>)
        ensures
            r == (if self@.window_ids.contains_key(WindowOwner { client_id, toplevel_id }) {
                Some(self@.window_ids[WindowOwner { client_id, toplevel_id }].0)
            } else {
                None
            }),
    {
        match self.window_ids.get(WindowOwner { client_id, toplevel_id }) {
            Some(id) => Some(id.0),
            None => None,
        }
    }

    /// The toplevel of a window.
    pub fn window_owner(&self, window_id: u32) -> (r: Option<(ClientId, ObjectId)>)
        ensures
            r == (if self@.windows.contains_key(WindowId(window_id)) {
                Some(
                    (
                        self@.windows[WindowId(window_id)].client_id,
                        self@.windows[WindowId(window_id)].toplevel_id,
                    ),
                )
            } else {
                None
            }),
    {
        match self.windows.get(WindowId(window_id)) {
            Some(owner) => Some((owner.client_id, owner.toplevel_id)),
            None => None,
        }
    }

    pub fn client_count(&self) -> (n: usize)
        ensures
            n == self@.clients.dom().len(),
    {
        self.clients.len()
    }

    /// The pool memory of all connections.
    pub fn pool_bytes_len(&self) -> (n: u64)
        ensures
            n == self@.pool_bytes,
    {
        self.pool_bytes
    }

    /// The bytes of titles and application ids of all windows.
    pub fn toplevel_metadata_bytes_len(&self) -> (n: u64)
        ensures
            n == self@.toplevel_metadata_bytes,
    {
        self.toplevel_metadata_bytes
    }

    pub fn client(&self, id: ClientId) -> (r: Option<&Client>)
        ensures
            match r {
                Some(client) => self@.clients.contains_key(id) && client@ == self@.clients[id],
                None => !self@.clients.contains_key(id),
            },
    {
        self.clients.get(id)
    }

    pub fn client_mut(&mut self, id: ClientId) -> (r: Option<&mut Client>)
        ensures
            match r {
                Some(client) => old(self)@.clients.contains_key(id) && (*client)@
                    == old(self)@.clients[id] && final(self)@ == old(self)@.with_client(
                    id,
                    (*final(client))@,
                ),
                None => !old(self)@.clients.contains_key(id) && final(self)@ == old(self)@,
            },
    {
        self.clients.get_mut(id)
    }

    pub fn client_event_queue_overflowed(&self, id: ClientId) -> (r: bool)
        ensures
            r == (self@.clients.contains_key(id) && self@.clients[id].overflowed),
    {
        match self.clients.get(id) {
            Some(client) => client.event_queue_overflowed(),
            None => false,
        }
    }

    /// Takes every event queued for a connection.
    pub fn drain_client_events(&mut self, client_id: ClientId) -> (r: Option<Vec<u8>>)
        ensures
            match r {
                Some(bytes) => old(self)@.clients.contains_key(client_id) && bytes@
                    == queue::joined(old(self)@.clients[client_id].events) && final(self)@
                    == old(self)@.with_client(
                    client_id,
                    ClientModel { events: Seq::empty(), ..old(self)@.clients[client_id] },
                ),
                None => !old(self)@.clients.contains_key(client_id) && final(self)@ == old(self)@,
            },
    {
        match self.clients.get_mut(client_id) {
            Some(client) => Some(client.drain_pending_events()),
            None => None,
        }
    }

    pub fn client_pending_event_bytes(&self, client_id: ClientId) -> (r: Option<usize>)
        ensures
            match r {
                Some(n) => self@.clients.contains_key(client_id) && n == queue::total_bytes(
                    self@.clients[client_id].events,
                ),
                None => !self@.clients.contains_key(client_id),
            },
    {
        match self.clients.get(client_id) {
            Some(client) => Some(client.pending_event_bytes()),
            None => None,
        }
    }

    pub fn client_next_pending_event_bytes(&self, client_id: ClientId) -> (r: Option<usize>)
        ensures
            match r {
                Some(n) => self@.clients.contains_key(client_id)
                    && self@.clients[client_id].events.len() > 0 && n
                    == self@.clients[client_id].events[0].len(),
                None => !self@.clients.contains_key(client_id)
                    || self@.clients[client_id].events.len() == 0,
            },
    {
        match self.clients.get(client_id) {
            Some(client) => client.next_pending_event_bytes(),
            None => None,
        }
    }

    /// Takes as many whole events from the front of a connection's queue as fit
    /// into `max_bytes`.
    pub fn drain_client_events_bounded(&mut self, client_id: ClientId, max_bytes: usize) -> (r:
        Option<Vec<u8>>)
        ensures
            match r {
                Some(bytes) => {
                    let events = old(self)@.clients[client_id].events;
                    let n = queue::fitting(events, max_bytes as nat, 0) as int;
                    &&& old(self)@.clients.contains_key(client_id)
                    &&& bytes@ == queue::joined(events.take(n))
                    &&& final(self)@ == old(self)@.with_client(
                        client_id,
                        ClientModel { events: events.skip(n), ..old(self)@.clients[client_id] },
                    )
                },
                None => !old(self)@.clients.contains_key(client_id) && final(self)@ == old(self)@,
            },
    {
        match self.clients.get_mut(client_id) {
            Some(client) => Some(client.drain_pending_events_bounded(max_bytes)),
            None => None,
        }
    }

    /// Tells a connection of every global that it may bind.
    pub fn advertise_globals_to(&mut self, client_id: ClientId, registry_id: ObjectId)
        ensures
            final(self)@ == old(self)@.advertised(client_id, registry_id),
    {
        if let Some(client) = self.clients.get_mut(client_id) {
            client.offer(registry_id, 1, Interface::Compositor);
            client.offer(registry_id, 2, Interface::Shm);
            client.offer(registry_id, 3, Interface::XdgShell);
            client.offer(registry_id, 4, Interface::Seat);
            if client.is_shell() {
                client.offer(registry_id, 5, Interface::ShellManager);
            }
        }
    }
}

impl Client {
    fn offer(&mut self, registry_id: ObjectId, name: u32, interface: Interface)
        ensures
            final(self)@ == ServerModel::offered(old(self)@, registry_id, name, interface),
    {
        let _ = self.offer_global(
            registry_id,
            name,
            interface.name().as_bytes(),
            interface.supported_version(),
        );
    }
}

/// The windows of a list.
fn window_set(pairs: &Vec<(WindowOwner, WindowId)>) -> (set: OrderedSet<WindowId>)
    ensures
        set@ == windows_of(pairs@),
{
    let mut set: OrderedSet<WindowId> = OrderedSet::new();
    let ghost ids = pairs@.map_values(|pair: (WindowOwner, WindowId)| pair.1);
    let mut i: usize = 0;
    while i < pairs.len()
        invariant
            i <= pairs@.len(),
            ids == pairs@.map_values(|pair: (WindowOwner, WindowId)| pair.1),
            forall|w: WindowId| #[trigger]
                set@.contains(w) == (exists|j: int| 0 <= j < i && #[trigger] ids[j] == w),
        decreases pairs@.len() - i,
    {
        let ghost before = set@;
        let (owner, window_id) = pairs[i];
        let _ = set.insert(window_id);
        proof {
            assert(ids[i as int] == window_id);
            assert forall|w: WindowId| #[trigger] set@.contains(w) == (exists|j: int|
                0 <= j < i + 1 && #[trigger] ids[j] == w) by {
                if before.contains(w) {
                    let j = choose|j: int| 0 <= j < i && #[trigger] ids[j] == w;
                    assert(ids[j] == w);
                }
            }
        }
        i += 1;
    }
    proof {
        assert forall|w: WindowId| set@.contains(w) == ids.to_set().contains(w) by {
            if set@.contains(w) {
                let j = choose|j: int| 0 <= j < pairs@.len() && #[trigger] ids[j] == w;
                assert(ids.contains(w));
            }
            if ids.contains(w) {
                let j = choose|j: int| 0 <= j < ids.len() && ids[j] == w;
                assert(ids[j] == w);
            }
        }
        assert(set@ =~= windows_of(pairs@));
    }
    set
}

} // verus!
