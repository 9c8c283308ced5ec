//! Telling shells about windows.

use vstd::prelude::*;
use vstd::utf8;

use crate::arith::saturating_sum;
use crate::caps::Cap;
use crate::client::{Client, Toplevel};
use crate::events::{
    ShellWindowState, WINDOW_FOCUSED, WINDOW_HIDDEN_FOR_RESTORE, WINDOW_MAPPED, WINDOW_MAXIMIZED,
    WINDOW_MINIMIZED, WINDOW_RESTORE_PLACEMENT_APPLIED, WINDOW_SHELL_OWNED,
};
use crate::ids::{ClientId, ObjectId, WindowId, WindowOwner};
use crate::server::model;
use crate::server::model::{NoticeModel, ServerModel};
use crate::server::Server;
use crate::text::utf8_bytes;

verus! {

broadcast use {
    crate::client::model::lemma_emit_frame,
    crate::ordered::lemma_remove_insert,
    crate::ordered::lemma_insert_same,
};

/// What shells are told of windows.
pub enum Notice {
    Created { window_id: u32, title: String, app_id: String, state: Option<ShellWindowState> },
    Destroyed { window_id: u32 },
    Focused { window_id: u32 },
    TitleChanged { window_id: u32, title: String },
    StateChanged { state: ShellWindowState },
}

impl View for Notice {
    type V = NoticeModel;

    open spec fn view(&self) -> NoticeModel {
        match *self {
            Notice::Created { window_id, title, app_id, state } => NoticeModel::Created {
                window_id,
                title: utf8::encode_utf8(title@),
                app_id: utf8::encode_utf8(app_id@),
                state: match state {
                    Some(state) => Some(state@),
                    None => None,
                },
            },
            Notice::Destroyed { window_id } => NoticeModel::Destroyed { window_id },
            Notice::Focused { window_id } => NoticeModel::Focused { window_id },
            Notice::TitleChanged { window_id, title } => NoticeModel::TitleChanged {
                window_id,
                title: utf8::encode_utf8(title@),
            },
            Notice::StateChanged { state } => NoticeModel::StateChanged { state: state@ },
        }
    }
}

impl Client {
    /// Tells the connection of a window, as far as it asked to be told.
    pub(crate) fn take_notice(&mut self, notice: &Notice)
        ensures
            final(self)@ == old(self)@.told(notice@),
    {
        let manager = match self.shell_manager_id {
            Some(id) => id,
            None => {
                return;
            },
        };
        let subscribed: bool = self.shell_manager_subscribed;
        let snapshot = self.shell_manager_state_snapshot_id;
        match notice {
            Notice::Created { window_id, title, app_id, state } => {
                if subscribed {
                    let _ = self.tell_window_created(
                        manager,
                        *window_id,
                        utf8_bytes(title),
                        utf8_bytes(app_id),
                    );
                }
                if let Some(snapshot_id) = snapshot {
                    if let Some(state) = state {
                        let _ = self.tell_window_state(manager, state, snapshot_id);
                    }
                }
            },
            Notice::Destroyed { window_id } => {
                if subscribed || snapshot.is_some() {
                    let _ = self.emit_window_destroyed(manager, *window_id);
                }
            },
            Notice::Focused { window_id } => {
                if subscribed || snapshot.is_some() {
                    let _ = self.emit_window_focused(manager, *window_id);
                }
            },
            Notice::TitleChanged { window_id, title } => {
                if subscribed {
                    let _ = self.tell_title_changed(manager, *window_id, utf8_bytes(title));
                }
            },
            Notice::StateChanged { state } => {
                if let Some(snapshot_id) = snapshot {
                    let _ = self.tell_state_changed(manager, state, snapshot_id);
                }
            },
        }
    }

    pub(crate) fn is_shell(&self) -> (r: bool)
        ensures
            r == self@.is_shell(),
    {
        self.capabilities.contains(Cap::Shell)
    }

    /// Whether a surface shows something.
    pub(crate) fn shows(&self, surface_id: ObjectId) -> (r: bool)
        ensures
            r == self@.shows(surface_id),
    {
        match self.surfaces.get(surface_id) {
            Some(surface) => surface.current_buffer.is_some(),
            None => false,
        }
    }

    /// The size of the buffer that a surface shows.
    pub(crate) fn shown_size(&self, surface_id: ObjectId) -> (r: Option<(u32, u32)>)
        ensures
            r == self@.shown_size(surface_id),
    {
        match self.surfaces.get(surface_id) {
            Some(surface) => match surface.current_buffer {
                Some(attachment) => match self.buffers.get(attachment.buffer_id) {
                    Some(buffer) => Some((buffer.width, buffer.height)),
                    None => None,
                },
                None => None,
            },
            None => None,
        }
    }
}

/// Whether two focuses are the same.
pub(crate) fn same_focus(
    a: Option<(ClientId, ObjectId)>,
    b: Option<(ClientId, ObjectId)>,
) -> (r: bool)
    ensures
        r == (a == b),
{
    match (a, b) {
        (Some((client_a, surface_a)), Some((client_b, surface_b))) => client_a.0 == client_b.0
            && surface_a.0 == surface_b.0,
        (None, None) => true,
        _ => false,
    }
}

/// Whether an optional connection is the given one.
pub(crate) fn is_client(a: Option<ClientId>, b: ClientId) -> (r: bool)
    ensures
        r == (a == Some(b)),
{
    match a {
        Some(id) => id.0 == b.0,
        None => false,
    }
}

impl Server {
    /// The toplevel of an owner.
    pub(crate) fn toplevel(&self, owner: WindowOwner) -> (r: Option<&Toplevel>)
        ensures
            match r {
                Some(toplevel) => self@.has_toplevel(owner) && toplevel@ == self@.toplevel(owner),
                None => !self@.has_toplevel(owner),
            },
    {
        match self.clients.get(owner.client_id) {
            Some(client) => client.toplevels.get(owner.toplevel_id),
            None => None,
        }
    }

    /// The toplevel of an owner, to be changed in place.
    pub(crate) fn toplevel_mut(&mut self, owner: WindowOwner) -> (r: Option<&mut Toplevel>)
        ensures
            match r {
                Some(toplevel) => old(self)@.has_toplevel(owner) && (*toplevel)@
                    == old(self)@.toplevel(owner) && final(self)@ == old(self)@.with_toplevel(
                    owner,
                    (*final(toplevel))@,
                ),
                None => !old(self)@.has_toplevel(owner) && final(self)@ == old(self)@,
            },
    {
        match self.clients.get_mut(owner.client_id) {
            Some(client) => client.toplevels.get_mut(owner.toplevel_id),
            None => None,
        }
    }

    pub(crate) fn is_shell(&self, id: ClientId) -> (r: bool)
        ensures
            r == self@.is_shell(id),
    {
        match self.clients.get(id) {
            Some(client) => client.is_shell(),
            None => false,
        }
    }

    /// Whether a toplevel is there and hidden until a restore ends.
    pub(crate) fn is_hidden(&self, owner: WindowOwner) -> (r: bool)
        ensures
            r == self@.is_hidden(owner),
    {
        match self.toplevel(owner) {
            Some(toplevel) => toplevel.hidden_for_restore,
            None => false,
        }
    }

    /// The window that a surface has become.
    pub(crate) fn window_id_for_surface(&self, client_id: ClientId, surface_id: ObjectId) -> (r:
        Option<WindowId>)
        ensures
            r == self@.window_of_surface(client_id, surface_id),
    {
        match self.clients.get(client_id) {
            Some(client) => match client.toplevel_by_surface.get(surface_id) {
                Some(toplevel_id) => match self.window_ids.get(
                    WindowOwner { client_id, toplevel_id: *toplevel_id },
                ) {
                    Some(window_id) => Some(*window_id),
                    None => None,
                },
                None => None,
            },
            None => None,
        }
    }

    /// The window of a focused surface.
    pub(crate) fn window_of_focus(&self, focus: Option<(ClientId, ObjectId)>) -> (r: Option<
        WindowId,
    >)
        ensures
            r == self@.window_of_focus(focus),
    {
        match focus {
            Some((client_id, surface_id)) => self.window_id_for_surface(client_id, surface_id),
            None => None,
        }
    }

    /// The owner of a window.
    pub(crate) fn owner_of(&self, window_id: WindowId) -> (r: Option<WindowOwner>)
        ensures
            match r {
                Some(owner) => self@.windows.contains_key(window_id) && owner
                    == self@.windows[window_id],
                None => !self@.windows.contains_key(window_id),
            },
    {
        match self.windows.get(window_id) {
            Some(owner) => Some(*owner),
            None => None,
        }
    }

    /// The connection and surface of a window.
    pub(crate) fn focus_target(&self, window_id: WindowId) -> (r: Option<(ClientId, ObjectId)>)
        ensures
            r == self@.focus_target(window_id),
    {
        match self.owner_of(window_id) {
            Some(owner) => match self.toplevel(owner) {
                Some(toplevel) => Some((owner.client_id, toplevel.surface_id)),
                None => None,
            },
            None => None,
        }
    }

    /// Whether a window can have the keyboard focus.
    pub(crate) fn window_is_focusable(&self, window_id: WindowId) -> (r: bool)
        ensures
            r == self@.is_focusable(window_id),
    {
        match self.owner_of(window_id) {
            Some(owner) => match self.clients.get(owner.client_id) {
                Some(client) => match client.toplevels.get(owner.toplevel_id) {
                    Some(toplevel) => !toplevel.minimized && !toplevel.hidden_for_restore
                        && client.shows(toplevel.surface_id),
                    None => false,
                },
                None => false,
            },
            None => false,
        }
    }

    fn is_settled(&self, window_id: WindowId) -> (r: bool)
        ensures
            r == self@.is_settled(window_id),
    {
        match &self.restore_transaction {
            Some(restore) => match restore.placements.get(window_id) {
                Some(placement) => placement.settled,
                None => false,
            },
            None => false,
        }
    }

    /// The place of a window in the stacking order.
    pub(crate) fn rank_of(&self, window_id: WindowId) -> (r: Option<usize>)
        ensures
            match r {
                Some(rank) => rank < self@.z_order.len() && self@.z_order[rank as int] == window_id
                    && model::rank_of(self@.z_order, window_id, 0) == Some(rank as nat),
                None => model::rank_of(self@.z_order, window_id, 0) is None,
            },
    {
        let mut i: usize = 0;
        while i < self.z_order.len()
            invariant
                i <= self.z_order@.len(),
                model::rank_of(self@.z_order, window_id, 0) == model::rank_of(
                    self@.z_order,
                    window_id,
                    i as nat,
                ),
            decreases self.z_order@.len() - i,
        {
            if self.z_order[i].0 == window_id.0 {
                return Some(i);
            }
            i += 1;
        }
        None
    }

    /// The state of a window, as reported to the shell.
    pub(crate) fn window_state(&self, window_id: WindowId) -> (r: Option<ShellWindowState>)
        ensures
            match r {
                Some(state) => self@.window_state(window_id) == Some(state@),
                None => self@.window_state(window_id) is None,
            },
    {
        let rank: usize = match self.rank_of(window_id) {
            Some(rank) => rank,
            None => {
                return None;
            },
        };
        let owner = match self.owner_of(window_id) {
            Some(owner) => owner,
            None => {
                return None;
            },
        };
        let client = match self.clients.get(owner.client_id) {
            Some(client) => client,
            None => {
                return None;
            },
        };
        let toplevel = match client.toplevels.get(owner.toplevel_id) {
            Some(toplevel) => toplevel,
            None => {
                return None;
            },
        };
        let mut flags: u32 = 0;
        let mut bounds: (i32, i32, u32, u32) = (toplevel.x, toplevel.y, 0, 0);
        if let Some(surface) = client.surfaces.get(toplevel.surface_id) {
            if let Some(attachment) = surface.current_buffer {
                flags = WINDOW_MAPPED;
                if let Some(buffer) = client.buffers.get(attachment.buffer_id) {
                    bounds = (
                        saturating_sum(toplevel.x, attachment.x),
                        saturating_sum(toplevel.y, attachment.y),
                        buffer.width,
                        buffer.height,
                    );
                }
            }
        }
        if toplevel.minimized {
            flags = flags + WINDOW_MINIMIZED;
        }
        if toplevel.maximized {
            flags = flags + WINDOW_MAXIMIZED;
        }
        if same_focus(self.keyboard_focus, Some((owner.client_id, toplevel.surface_id))) {
            flags = flags + WINDOW_FOCUSED;
        }
        if toplevel.hidden_for_restore {
            flags = flags + WINDOW_HIDDEN_FOR_RESTORE;
        }
        if self.is_settled(window_id) {
            flags = flags + WINDOW_RESTORE_PLACEMENT_APPLIED;
        }
        if client.is_shell() {
            flags = flags + WINDOW_SHELL_OWNED;
        }
        Some(
            ShellWindowState {
                snapshot_id: 0,
                window_id: window_id.0,
                owner_pid: client.peer_pid,
                ordinal: toplevel.ordinal,
                current_x: bounds.0,
                current_y: bounds.1,
                current_width: bounds.2,
                current_height: bounds.3,
                normal_x: toplevel.normal_x,
                normal_y: toplevel.normal_y,
                normal_width: toplevel.normal_width,
                normal_height: toplevel.normal_height,
                flags,
                z_rank: rank as u32,
                title: toplevel.title.clone(),
                app_id: toplevel.app_id.clone(),
            },
        )
    }

    /// Tells every connection of a window.
    pub(crate) fn announce(&mut self, notice: &Notice)
        ensures
            final(self)@ == old(self)@.announce(notice@),
    {
        let ids = self.clients.keys();
        let mut i: usize = 0;
        while i < ids.len()
            invariant
                i <= ids@.len(),
                ids@.no_duplicates(),
                ids@.to_set() == old(self)@.clients.dom(),
                self@ == (ServerModel { clients: self@.clients, ..old(self)@ }),
                self@.clients.dom() == old(self)@.clients.dom(),
                forall|j: int|
                    #![trigger ids@[j]]
                    0 <= j < i ==> self@.clients[ids@[j]] == old(self)@.clients[ids@[j]].told(
                        notice@,
                    ),
                forall|j: int|
                    #![trigger ids@[j]]
                    i <= j < ids@.len() ==> self@.clients[ids@[j]] == old(self)@.clients[ids@[j]],
            decreases ids@.len() - i,
        {
            proof {
                assert(ids@.to_set().contains(ids@[i as int]));
            }
            let ghost before = self@.clients;
            if let Some(client) = self.clients.get_mut(ids[i]) {
                client.take_notice(notice);
            }
            proof {
                assert(self@.clients.dom() =~= old(self)@.clients.dom());
            }
            i += 1;
        }
        proof {
            reveal(ServerModel::announce);
            let after = old(self)@.announce(notice@).clients;
            assert forall|id: ClientId| #[trigger]
                self@.clients.contains_key(id) implies self@.clients[id]
                == after[id] by {
                assert(ids@.to_set().contains(id));
                let j = choose|j: int| 0 <= j < ids@.len() && ids@[j] == id;
                assert(ids@[j] == id);
            }
            assert(self@.clients =~= after);
        }
    }

    /// Tells every connection which window has the focus.
    pub(crate) fn broadcast_window_focused(&mut self, window_id: Option<WindowId>)
        ensures
            final(self)@ == old(self)@.announce_focus(window_id),
    {
        let id: u32 = match window_id {
            Some(id) => id.0,
            None => 0,
        };
        self.announce(&Notice::Focused { window_id: id });
    }

    /// Tells every connection that a window is gone.
    pub fn broadcast_window_destroyed(&mut self, window_id: u32)
        ensures
            final(self)@ == old(self)@.announce(NoticeModel::Destroyed { window_id }),
    {
        self.announce(&Notice::Destroyed { window_id });
    }

    /// Tells every connection a window's state, if the window is there.
    pub(crate) fn broadcast_window_state_changed(&mut self, window_id: WindowId)
        ensures
            final(self)@ == old(self)@.announce_state(window_id),
    {
        proof {
            reveal(ServerModel::announce_state);
        }
        if let Some(state) = self.window_state(window_id) {
            self.announce(&Notice::StateChanged { state });
        }
    }

    /// The same for several windows in turn.
    pub(crate) fn broadcast_window_states(&mut self, window_ids: &Vec<WindowId>)
        ensures
            final(self)@ == old(self)@.announce_states(window_ids@),
    {
        let mut i: usize = 0;
        proof {
            assert(window_ids@.take(0) =~= Seq::<WindowId>::empty());
        }
        while i < window_ids.len()
            invariant
                i <= window_ids@.len(),
                self@ == old(self)@.announce_states(window_ids@.take(i as int)),
            decreases window_ids@.len() - i,
        {
            proof {
                assert(window_ids@.take(i + 1).drop_last() =~= window_ids@.take(i as int));
                assert(window_ids@.take(i + 1).last() == window_ids@[i as int]);
            }
            self.broadcast_window_state_changed(window_ids[i]);
            i += 1;
        }
        proof {
            assert(window_ids@.take(i as int) =~= window_ids@);
        }
    }
}

} // verus!
