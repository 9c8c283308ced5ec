//! What follows when a surface shows something new.

use vstd::prelude::*;

use crate::client::model::ToplevelModel;
use crate::ids::{ClientId, ObjectId, WindowId, WindowOwner};
use crate::server::damage::{DamageModel, PresentationDamage};
use crate::server::model::{RestoreModel, ServerModel};
use crate::server::notice::is_client;
use crate::server::scene::SurfaceOutputGeometry;
use crate::server::{RestorePlacement, Server};

verus! {

broadcast use {
    crate::client::model::lemma_emit_frame,
    crate::ordered::lemma_remove_insert,
    crate::ordered::lemma_insert_same,
};

impl ServerModel {
    /// The toplevel that a surface has become, if all of it is there.
    pub open spec fn owner_of_surface(self, client_id: ClientId, surface_id: ObjectId) -> Option<
        WindowOwner,
    > {
        if self.clients.contains_key(client_id)
            && self.clients[client_id].toplevel_by_surface.contains_key(surface_id)
            && self.clients[client_id].surfaces.contains_key(surface_id) {
            let owner = WindowOwner {
                client_id,
                toplevel_id: self.clients[client_id].toplevel_by_surface[surface_id],
            };
            if self.has_toplevel(owner) {
                Some(owner)
            } else {
                None
            }
        } else {
            None
        }
    }

    /// The state with the geometry of a committed window kept as its normal
    /// one unless it is maximized, and the window if any of it changed.
    #[verifier::opaque]
    pub open spec fn geometry_noted(
        self,
        client_id: ClientId,
        surface_id: ObjectId,
        before: Option<(u32, u32)>,
    ) -> (ServerModel, Option<WindowId>) {
        match self.owner_of_surface(client_id, surface_id) {
            Some(owner) => {
                let toplevel = self.toplevel(owner);
                let size = self.clients[client_id].shown_size(surface_id);
                let keeps = !toplevel.maximized && size is Some;
                let moved = keeps && (toplevel.x != toplevel.normal_x || toplevel.y
                    != toplevel.normal_y || (size->0).0 != toplevel.normal_width || (size->0).1
                    != toplevel.normal_height);
                (
                    if keeps {
                        self.with_toplevel(
                            owner,
                            ToplevelModel {
                                normal_x: toplevel.x,
                                normal_y: toplevel.y,
                                normal_width: (size->0).0,
                                normal_height: (size->0).1,
                                ..toplevel
                            },
                        )
                    } else {
                        self
                    },
                    if (before != size || moved) && self.window_ids.contains_key(owner) {
                        Some(self.window_ids[owner])
                    } else {
                        None
                    },
                )
            },
            None => (self, None),
        }
    }

    /// Whether a surface was committed since its window was placed, and
    /// whether it now shows the size of the place.
    pub open spec fn has_settled(
        self,
        client_id: ClientId,
        surface_id: ObjectId,
        placement: RestorePlacement,
    ) -> Option<bool> {
        if !self.clients[client_id].surfaces.contains_key(surface_id)
            || self.clients[client_id].surfaces[surface_id].commit_count
            <= placement.commit_count_at_place {
            None
        } else {
            Some(
                self.clients[client_id].shown_size(surface_id) == Some(
                    (placement.expected_width, placement.expected_height),
                ),
            )
        }
    }

    /// The state after a commit, as far as it settles or unsettles a window's
    /// place in a restore, and the window if it does.
    #[verifier::opaque]
    pub open spec fn placement_noted(self, client_id: ClientId, surface_id: ObjectId) -> (
        ServerModel,
        Option<WindowId>,
    ) {
        match self.window_of_surface(client_id, surface_id) {
            Some(window_id) => if self.restore is Some
                && (self.restore->0).placements.contains_key(window_id) {
                let restore = self.restore->0;
                let placement = restore.placements[window_id];
                match self.has_settled(client_id, surface_id, placement) {
                    Some(settled) => if settled == placement.settled {
                        (self, None)
                    } else {
                        (
                            ServerModel {
                                restore: Some(
                                    RestoreModel {
                                        placements: restore.placements.insert(
                                            window_id,
                                            RestorePlacement { settled, ..placement },
                                        ),
                                        ..restore
                                    },
                                ),
                                ..self
                            },
                            Some(window_id),
                        )
                    },
                    None => (self, None),
                }
            } else {
                (self, None)
            },
            None => (self, None),
        }
    }

    /// Whether a window that is no shell's can have the focus.
    pub open spec fn has_ordinary_focusable(self) -> bool {
        exists|w: WindowId| #[trigger]
            self.is_focusable(w) && !self.is_shell(self.windows[w].client_id)
    }

    /// The state after a window has shown something for the first time, and
    /// the window if that focuses it: a shell's does only if no other can have
    /// the focus.
    #[verifier::opaque]
    pub open spec fn first_shown(self, client_id: ClientId, surface_id: ObjectId) -> (
        ServerModel,
        Option<WindowId>,
    ) {
        match self.owner_of_surface(client_id, surface_id) {
            Some(owner) => if !self.clients[client_id].shows(surface_id) || self.toplevel(
                owner,
            ).mapped_once {
                (self, None)
            } else {
                let toplevel = self.toplevel(owner);
                let shown = self.with_toplevel(
                    owner,
                    ToplevelModel { mapped_once: true, ..toplevel },
                );
                if toplevel.minimized || toplevel.hidden_for_restore || (shown.is_shell(client_id)
                    && shown.has_ordinary_focusable()) || !shown.window_ids.contains_key(owner) {
                    (shown, None)
                } else {
                    let window_id = shown.window_ids[owner];
                    (
                        shown.focused(Some((client_id, surface_id))).raised(window_id).0,
                        Some(window_id),
                    )
                }
            },
            None => (self, None),
        }
    }

    /// Whether a window is the one being dragged.
    pub open spec fn drags(self, window_id: WindowId) -> bool {
        self.drag is Some && self.window_ids.contains_key((self.drag->0).spec_owner())
            && self.window_ids[(self.drag->0).spec_owner()] == window_id
    }

    /// What follows when a commit has been carried out; `before` is the state
    /// that it met.
    #[verifier::opaque]
    pub open spec fn committed(
        self,
        before: ServerModel,
        client_id: ClientId,
        surface_id: ObjectId,
    ) -> ServerModel {
        let size_before = before.clients[client_id].shown_size(surface_id);
        let (expected, at) = before.commit_candidate(client_id, surface_id);
        let (kept, changed) = self.geometry_noted(client_id, surface_id, size_before);
        let (placed, settled) = kept.placement_noted(client_id, surface_id);
        let (mapped, focused) = placed.first_shown(client_id, surface_id);
        let damage = if at is Some && at == mapped.geometry(client_id, surface_id) {
            expected
        } else {
            DamageModel::Full
        };
        let drawn = mapped.changed(damage);
        let shown = ServerModel {
            commit_owner: if drawn.commit_owner == Some(client_id) {
                None
            } else {
                drawn.commit_owner
            },
            ..drawn
        };
        let announced = match focused {
            Some(window_id) => shown.announce_focus(Some(window_id)),
            None => shown,
        };
        let different = if changed is Some {
            changed
        } else {
            settled
        };
        let told = if different is Some && !announced.drags(different->0) {
            announced.announce_state(different->0)
        } else {
            announced
        };
        told.first_configured(client_id, surface_id)
    }
}

impl Server {
    fn owner_of_surface(&self, client_id: ClientId, surface_id: ObjectId) -> (r: Option<
        WindowOwner,
    >)
        ensures
            r == self@.owner_of_surface(client_id, surface_id),
    {
        match self.clients.get(client_id) {
            Some(client) => match client.toplevel_by_surface.get(surface_id) {
                Some(toplevel_id) => if client.surfaces.contains_key(surface_id)
                    && client.toplevels.contains_key(*toplevel_id) {
                    Some(WindowOwner { client_id, toplevel_id: *toplevel_id })
                } else {
                    None
                },
                None => None,
            },
            None => None,
        }
    }

    fn update_normal_geometry_after_commit(
        &mut self,
        client_id: ClientId,
        surface_id: ObjectId,
        before: Option<(u32, u32)>,
    ) -> (r: Option<WindowId>)
        ensures
            (final(self)@, r) == old(self)@.geometry_noted(client_id, surface_id, before),
    {
        proof {
            reveal(ServerModel::geometry_noted);
        }
        let owner = match self.owner_of_surface(client_id, surface_id) {
            Some(owner) => owner,
            None => {
                return None;
            },
        };
        let size = match self.clients.get(client_id) {
            Some(client) => client.shown_size(surface_id),
            None => None,
        };
        let mut changed: bool = match (before, size) {
            (Some((old_width, old_height)), Some((width, height))) => old_width != width
                || old_height != height,
            (None, None) => false,
            _ => true,
        };
        if let Some(toplevel) = self.toplevel_mut(owner) {
            if !toplevel.maximized {
                if let Some((width, height)) = size {
                    if toplevel.x != toplevel.normal_x || toplevel.y != toplevel.normal_y || width
                        != toplevel.normal_width || height != toplevel.normal_height {
                        changed = true;
                    }
                    toplevel.normal_x = toplevel.x;
                    toplevel.normal_y = toplevel.y;
                    toplevel.normal_width = width;
                    toplevel.normal_height = height;
                }
            }
        }
        if changed {
            match self.window_ids.get(owner) {
                Some(window_id) => Some(*window_id),
                None => None,
            }
        } else {
            None
        }
    }

    fn has_settled(
        &self,
        client_id: ClientId,
        surface_id: ObjectId,
        placement: &RestorePlacement,
    ) -> (r: Option<bool>)
        requires
            self@.clients.contains_key(client_id),
        ensures
            r == self@.has_settled(client_id, surface_id, *placement),
    {
        match self.clients.get(client_id) {
            Some(client) => match client.surfaces.get(surface_id) {
                Some(surface) => {
                    if surface.commit_count <= placement.commit_count_at_place {
                        return None;
                    }
                    let settled: bool = match client.shown_size(surface_id) {
                        Some((width, height)) => width == placement.expected_width && height
                            == placement.expected_height,
                        None => false,
                    };
                    Some(settled)
                },
                None => None,
            },
            None => None,
        }
    }

    fn settle_restore_placement_after_commit(
        &mut self,
        client_id: ClientId,
        surface_id: ObjectId,
    ) -> (r: Option<WindowId>)
        ensures
            (final(self)@, r) == old(self)@.placement_noted(client_id, surface_id),
    {
        proof {
            reveal(ServerModel::placement_noted);
        }
        let window_id = match self.window_id_for_surface(client_id, surface_id) {
            Some(window_id) => window_id,
            None => {
                return None;
            },
        };
        let placement = match &self.restore_transaction {
            Some(restore) => match restore.placements.get(window_id) {
                Some(placement) => *placement,
                None => {
                    return None;
                },
            },
            None => {
                return None;
            },
        };
        let settled: bool = match self.has_settled(client_id, surface_id, &placement) {
            Some(settled) => settled,
            None => {
                return None;
            },
        };
        if settled == placement.settled {
            return None;
        }
        if let Some(restore) = &mut self.restore_transaction {
            let _ = restore.placements.insert(window_id, RestorePlacement { settled, ..placement });
        }
        Some(window_id)
    }

    fn has_ordinary_focusable(&self) -> (r: bool)
        ensures
            r == self@.has_ordinary_focusable(),
    {
        let ids = self.windows.keys();
        let mut i: usize = 0;
        while i < ids.len()
            invariant
                i <= ids@.len(),
                ids@.to_set() == self@.windows.dom(),
                forall|j: int|
                    #![trigger ids@[j]]
                    0 <= j < i ==> !self@.is_focusable(ids@[j]) || self@.is_shell(
                        self@.windows[ids@[j]].client_id,
                    ),
            decreases ids@.len() - i,
        {
            let id = ids[i];
            if let Some(owner) = self.owner_of(id) {
                if !self.is_shell(owner.client_id) && self.window_is_focusable(id) {
                    return true;
                }
            }
            i += 1;
        }
        proof {
            assert forall|w: WindowId| #[trigger] self@.is_focusable(w) implies self@.is_shell(
                self@.windows[w].client_id,
            ) by {
                assert(ids@.to_set().contains(w));
                let j = choose|j: int| 0 <= j < ids@.len() && ids@[j] == w;
                assert(ids@[j] == w);
            }
        }
        false
    }

    /// Focuses a window that shows something for the first time.
    pub(crate) fn focus_newly_mapped_toplevel(
        &mut self,
        client_id: ClientId,
        surface_id: ObjectId,
    ) -> (r: Option<WindowId>)
        ensures
            (final(self)@, r) == old(self)@.first_shown(client_id, surface_id),
    {
        proof {
            reveal(ServerModel::first_shown);
        }
        let owner = match self.owner_of_surface(client_id, surface_id) {
            Some(owner) => owner,
            None => {
                return None;
            },
        };
        let shows: bool = match self.clients.get(client_id) {
            Some(client) => client.shows(surface_id),
            None => false,
        };
        if !shows {
            return None;
        }
        let (minimized, hidden) = match self.toplevel_mut(owner) {
            Some(toplevel) => {
                if toplevel.mapped_once {
                    return None;
                }
                toplevel.mapped_once = true;
                (toplevel.minimized, toplevel.hidden_for_restore)
            },
            None => {
                return None;
            },
        };
        if minimized || hidden || (self.is_shell(client_id) && self.has_ordinary_focusable()) {
            return None;
        }
        let window_id = match self.window_ids.get(owner) {
            Some(window_id) => *window_id,
            None => {
                return None;
            },
        };
        self.transition_keyboard_focus(Some((client_id, surface_id)));
        let _ = self.raise_window(window_id);
        Some(window_id)
    }

    fn drags(&self, window_id: WindowId) -> (r: bool)
        ensures
            r == self@.drags(window_id),
    {
        match self.active_drag {
            Some(drag) => match self.window_ids.get(drag.owner()) {
                Some(dragged) => dragged.0 == window_id.0,
                None => false,
            },
            None => false,
        }
    }

    /// Follows up on a commit that has been carried out.
    pub(crate) fn follow_commit(
        &mut self,
        client_id: ClientId,
        surface_id: ObjectId,
        size_before: Option<(u32, u32)>,
        candidate: (PresentationDamage, Option<SurfaceOutputGeometry>),
        Ghost(before): Ghost<ServerModel>,
    )
        requires
            size_before == before.clients[client_id].shown_size(surface_id),
            (candidate.0@, candidate.1) == before.commit_candidate(client_id, surface_id),
        ensures
            final(self)@ == old(self)@.committed(before, client_id, surface_id),
    {
        proof {
            reveal(ServerModel::committed);
        }
        let changed = self.update_normal_geometry_after_commit(client_id, surface_id, size_before);
        let settled = self.settle_restore_placement_after_commit(client_id, surface_id);
        let focused = self.focus_newly_mapped_toplevel(client_id, surface_id);
        let (expected, at) = candidate;
        let holds: bool = match (at, self.surface_output_geometry(client_id, surface_id)) {
            (Some(a), Some(b)) => a == b,
            _ => false,
        };
        if holds {
            self.request_recomposition_with_damage(&expected);
        } else {
            self.request_recomposition();
        }
        if is_client(self.deferred_focus_commit_owner, client_id) {
            self.deferred_focus_commit_owner = None;
        }
        if let Some(window_id) = focused {
            self.broadcast_window_focused(Some(window_id));
        }
        let different = match changed {
            Some(window_id) => Some(window_id),
            None => settled,
        };
        if let Some(window_id) = different {
            if !self.drags(window_id) {
                self.broadcast_window_state_changed(window_id);
            }
        }
        self.maybe_emit_initial_configure(client_id, surface_id);
    }
}

} // verus!
