//! Windows coming up, changing and going away.

use vstd::prelude::*;

use crate::arith;
use crate::arith::{min_u32, saturating_difference, saturating_sum};
use crate::bytes;
use crate::bytes::read_u32;
use crate::client::model::{ClientModel, ToplevelModel};
use crate::client::{Client, AUTO_LAYOUT_STEP};
use crate::events;
use crate::events::WindowStateModel;
use crate::ids::{ClientId, ObjectId, WindowId, WindowOwner};
use crate::ordered::OrderedSet;
use crate::server::damage::{DamageModel, PresentationDamage};
use crate::server::focus;
use crate::server::model;
use crate::server::model::{NoticeModel, RestoreModel, ServerModel};
use crate::server::notice::{same_focus, Notice};
use crate::server::{DragKind, DragState, Server, ServerError};
use crate::text::utf8_bytes;

verus! {

broadcast use {
    crate::client::model::lemma_emit_frame,
    crate::ordered::lemma_remove_insert,
    crate::ordered::lemma_insert_same,
};

/// A restore that no longer knows of a window.
pub open spec fn restore_without(restore: Option<RestoreModel>, window_id: WindowId) -> Option<
    RestoreModel,
> {
    match restore {
        Some(r) => Some(
            RestoreModel {
                hidden: r.hidden.remove(window_id),
                placements: r.placements.remove(window_id),
                ..r
            },
        ),
        None => None,
    }
}

impl ServerModel {
    /// The state with a new toplevel placed: a shell's in the corner, any other
    /// a step away from the one before it, and hidden while a restore lasts.
    pub open spec fn positioned(self, owner: WindowOwner) -> ServerModel {
        let is_shell = self.is_shell(owner.client_id);
        let at = if is_shell {
            0
        } else {
            self.next_toplevel_offset
        };
        let advanced = if is_shell {
            self
        } else {
            ServerModel {
                next_toplevel_offset: arith::sat_i32(self.next_toplevel_offset + AUTO_LAYOUT_STEP),
                ..self
            }
        };
        if advanced.has_toplevel(owner) {
            advanced.with_toplevel(
                owner,
                ToplevelModel {
                    x: at,
                    y: at,
                    normal_x: at,
                    normal_y: at,
                    hidden_for_restore: !is_shell && self.restore is Some,
                    ..advanced.toplevel(owner)
                },
            )
        } else {
            advanced
        }
    }

    /// The number of the next window of a process.
    pub open spec fn next_ordinal(self, pid: u32) -> u32 {
        if self.ordinals.contains_key(pid) {
            self.ordinals[pid]
        } else {
            1
        }
    }

    /// Whether numbers are left for another window of a connection's process.
    pub open spec fn has_numbers(self, client_id: ClientId) -> bool {
        &&& self.next_window_id < u32::MAX
        &&& self.clients.contains_key(client_id) ==> self.next_ordinal(
            self.clients[client_id].peer_pid,
        ) < u32::MAX
    }

    /// Whether another window of a connection can be numbered.
    pub open spec fn can_number(self, client_id: ClientId) -> bool {
        &&& self.has_numbers(client_id)
        &&& self.clients.contains_key(client_id) ==> self.clients[client_id].next_toplevel_ordinal
            < u32::MAX
    }

    /// The state with a new toplevel numbered among those of its process, if
    /// the process is known.
    pub open spec fn numbered(self, owner: WindowOwner) -> ServerModel {
        if !self.clients.contains_key(owner.client_id)
            || self.clients[owner.client_id].peer_pid == 0 {
            self
        } else {
            let pid = self.clients[owner.client_id].peer_pid;
            let ordinal = self.next_ordinal(pid);
            let counted = ServerModel {
                ordinals: self.ordinals.insert(pid, (ordinal + 1) as u32),
                ..self
            };
            if counted.has_toplevel(owner) {
                counted.with_toplevel(owner, ToplevelModel { ordinal, ..counted.toplevel(owner) })
            } else {
                counted
            }
        }
    }

    /// The state in which a toplevel has a window id, the id, and the windows
    /// whose place that changes. A shell's window goes below all others.
    pub open spec fn registered(self, owner: WindowOwner) -> (ServerModel, WindowId, Seq<WindowId>) {
        if self.window_ids.contains_key(owner) {
            (self, self.window_ids[owner], Seq::empty())
        } else {
            let window_id = WindowId(self.next_window_id);
            let is_shell = self.is_shell(owner.client_id);
            (
                ServerModel {
                    next_window_id: (self.next_window_id + 1) as u32,
                    windows: self.windows.insert(window_id, owner),
                    window_ids: self.window_ids.insert(owner, window_id),
                    z_order: if is_shell {
                        self.z_order.insert(0, window_id)
                    } else {
                        self.z_order.push(window_id)
                    },
                    restore: if self.restore is Some && self.is_hidden(owner) {
                        Some(
                            RestoreModel {
                                hidden: (self.restore->0).hidden.insert(window_id),
                                ..self.restore->0
                            },
                        )
                    } else {
                        self.restore
                    },
                    ..self
                },
                window_id,
                if is_shell {
                    self.z_order
                } else {
                    Seq::empty()
                },
            )
        }
    }

    /// The state after a new toplevel has become a window and every connection
    /// has been told.
    #[verifier::opaque]
    pub open spec fn created(self, owner: WindowOwner) -> ServerModel {
        if !self.has_toplevel(owner) {
            self
        } else {
            let toplevel = self.toplevel(owner);
            let (named, window_id, shifted) = self.registered(owner);
            named.announce(
                NoticeModel::Created {
                    window_id: window_id.0,
                    title: toplevel.title,
                    app_id: toplevel.app_id,
                    state: named.window_state(window_id),
                },
            ).announce_states(shifted)
        }
    }

    /// The state after every connection has been told a window's new title.
    pub open spec fn retitled(self, owner: WindowOwner) -> ServerModel {
        if self.has_toplevel(owner) && self.window_ids.contains_key(owner) {
            let window_id = self.window_ids[owner];
            self.announce(
                NoticeModel::TitleChanged {
                    window_id: window_id.0,
                    title: self.toplevel(owner).title,
                },
            ).announce_state(window_id)
        } else {
            self
        }
    }

    /// A connection told of the listed windows, and which has the focus.
    pub open spec fn windows_listed(
        self,
        client: ClientModel,
        manager: ObjectId,
        window_ids: Seq<WindowId>,
    ) -> ClientModel
        decreases window_ids.len(),
    {
        if window_ids.len() == 0 {
            client
        } else {
            let id = window_ids.last();
            let before = self.windows_listed(client, manager, window_ids.drop_last());
            match self.focus_target(id) {
                Some(target) => {
                    let toplevel = self.toplevel(self.windows[id]);
                    let listed = before.emit(
                        manager,
                        1,
                        events::window_created_payload(id.0, toplevel.title, toplevel.app_id),
                    );
                    if self.focus == Some(target) {
                        listed.emit(manager, 3, events::window_word_payload(id.0))
                    } else {
                        listed
                    }
                },
                None => before,
            }
        }
    }

    /// The state after a shell has begun to follow windows.
    pub open spec fn subscribed(self, client_id: ClientId) -> ServerModel {
        if !self.clients.contains_key(client_id)
            || self.clients[client_id].shell_manager_id is None {
            self
        } else {
            let client = self.clients[client_id];
            self.with_client(
                client_id,
                self.windows_listed(
                    ClientModel { shell_manager_subscribed: true, ..client },
                    client.shell_manager_id->0,
                    self.z_order,
                ),
            )
        }
    }

    /// A connection told the states of the listed windows.
    pub open spec fn states_listed(
        self,
        client: ClientModel,
        manager: ObjectId,
        snapshot_id: u32,
        window_ids: Seq<WindowId>,
    ) -> ClientModel
        decreases window_ids.len(),
    {
        if window_ids.len() == 0 {
            client
        } else {
            let before = self.states_listed(client, manager, snapshot_id, window_ids.drop_last());
            match self.window_state(window_ids.last()) {
                Some(state) => before.emit(
                    manager,
                    5,
                    events::window_state_payload(WindowStateModel { snapshot_id, ..state }),
                ),
                None => before,
            }
        }
    }

    /// The state after a shell has begun to follow the windows' states: it is
    /// told all of them, then which has the focus, then that this was all.
    pub open spec fn state_subscribed(self, client_id: ClientId, snapshot_id: u32) -> ServerModel {
        if snapshot_id == 0 || !self.clients.contains_key(client_id)
            || self.clients[client_id].shell_manager_id is None {
            self
        } else {
            let client = self.clients[client_id];
            let manager = client.shell_manager_id->0;
            let listed = self.states_listed(
                ClientModel { shell_manager_state_snapshot_id: Some(snapshot_id), ..client },
                manager,
                snapshot_id,
                self.z_order,
            );
            let focused = match self.window_of_focus(self.focus) {
                Some(window_id) => listed.emit(
                    manager,
                    3,
                    events::window_word_payload(window_id.0),
                ),
                None => listed,
            };
            self.with_client(
                client_id,
                focused.emit(manager, 7, events::window_word_payload(snapshot_id)),
            )
        }
    }

    /// Whether a window is there and may be acted on.
    pub open spec fn is_at_hand(self, window_id: WindowId) -> bool {
        self.windows.contains_key(window_id) && self.has_toplevel(self.windows[window_id])
            && !self.toplevel(self.windows[window_id]).hidden_for_restore
    }

    /// The state with a window minimized or not, and whether it is there.
    pub open spec fn minimized(self, window_id: WindowId, minimized: bool) -> (ServerModel, bool) {
        if !self.is_at_hand(window_id) {
            (self, false)
        } else {
            let owner = self.windows[window_id];
            let toplevel = self.toplevel(owner);
            let marked = self.with_toplevel(owner, ToplevelModel { minimized, ..toplevel });
            if toplevel.minimized == minimized {
                (marked, true)
            } else {
                let loses_focus = minimized && self.focus == Some(
                    (owner.client_id, toplevel.surface_id),
                );
                let dropped = if minimized && marked.is_dragged(owner) {
                    ServerModel { drag: None, ..marked }
                } else {
                    marked
                };
                let fallback = dropped.fallback_focus(Set::empty());
                let moved = if loses_focus {
                    dropped.focused(fallback)
                } else {
                    dropped
                };
                let told = moved.changed(DamageModel::Full).announce_state(window_id);
                (
                    if loses_focus {
                        told.announce_focus(told.window_of_focus(fallback))
                    } else {
                        told
                    },
                    true,
                )
            }
        }
    }

    /// The state with a window brought back if it was minimized, focused and
    /// raised. A shell may have the picture wait for its next commit.
    #[verifier::opaque]
    pub open spec fn window_focused(self, window_id: WindowId, shell: Option<ClientId>) -> ServerModel {
        if !self.is_at_hand(window_id) {
            self
        } else {
            let owner = self.windows[window_id];
            let toplevel = self.toplevel(owner);
            let back = self.with_toplevel(owner, ToplevelModel { minimized: false, ..toplevel });
            let moved = back.focused(Some((owner.client_id, toplevel.surface_id)));
            let (lifted, raised) = moved.raised(window_id);
            let damage = if toplevel.minimized {
                DamageModel::Full
            } else {
                moved.raise_damage(window_id)
            };
            let shown = if !toplevel.minimized && !raised {
                lifted
            } else if shell is Some {
                ServerModel { commit_owner: shell, damage: lifted.damage.with(damage), ..lifted }
            } else {
                ServerModel { commit_owner: None, ..lifted }.changed(damage)
            };
            shown.announce_focus(Some(window_id)).announce_state(window_id)
        }
    }

    /// The state after a window has been focused and asked to close.
    pub open spec fn asked_to_close(self, window_id: WindowId) -> ServerModel {
        let focused = self.window_focused(window_id, None);
        if focused.windows.contains_key(window_id) && focused.clients.contains_key(
            focused.windows[window_id].client_id,
        ) {
            let owner = focused.windows[window_id];
            focused.with_client(
                owner.client_id,
                focused.clients[owner.client_id].emit(owner.toplevel_id, 2, Seq::empty()),
            )
        } else {
            focused
        }
    }

    /// A toplevel moved to the corner when it is maximized, and back to where
    /// it was when it no longer is.
    pub open spec fn maximized_toplevel(self, owner: WindowOwner, maximize: bool) -> ToplevelModel {
        let toplevel = self.toplevel(owner);
        if maximize {
            let remembered = if toplevel.restore_origin is None {
                let size = self.clients[owner.client_id].shown_size(toplevel.surface_id);
                ToplevelModel {
                    restore_origin: Some((toplevel.x, toplevel.y)),
                    normal_x: toplevel.x,
                    normal_y: toplevel.y,
                    normal_width: match size {
                        Some((width, _)) => width,
                        None => toplevel.normal_width,
                    },
                    normal_height: match size {
                        Some((_, height)) => height,
                        None => toplevel.normal_height,
                    },
                    ..toplevel
                }
            } else {
                toplevel
            };
            ToplevelModel { x: 0, y: 0, ..remembered }
        } else if toplevel.restore_origin is Some {
            ToplevelModel {
                x: toplevel.normal_x,
                y: toplevel.normal_y,
                restore_origin: None,
                ..toplevel
            }
        } else {
            toplevel
        }
    }

    /// The state after a toplevel has been moved and asked to take the size
    /// that it has when maximized, or when not.
    #[verifier::opaque]
    pub open spec fn maximized(self, owner: WindowOwner, maximize: bool) -> ServerModel {
        if !self.has_toplevel(owner) {
            self
        } else {
            let before = self.toplevel(owner);
            let after = self.maximized_toplevel(owner, maximize);
            let moves = if maximize {
                before.x != 0 || before.y != 0
            } else {
                match before.restore_origin {
                    Some((x, y)) => before.x != x || before.y != y,
                    None => false,
                }
            };
            let asked = self.with_toplevel(owner, after).configured(
                owner,
                if maximize {
                    self.frame.width as i32
                } else {
                    after.normal_width as i32
                },
                if maximize {
                    self.work_area_height() as i32
                } else {
                    after.normal_height as i32
                },
            );
            if moves {
                asked.changed(DamageModel::Full)
            } else {
                asked
            }
        }
    }

    /// The state with a window focused, raised and maximized, or no longer so,
    /// and whether it is there.
    pub open spec fn toggled(self, window_id: WindowId) -> (ServerModel, bool) {
        if !self.is_at_hand(window_id) {
            (self, false)
        } else {
            let owner = self.windows[window_id];
            let toplevel = self.toplevel(owner);
            let maximize = !toplevel.maximized;
            let marked = self.with_toplevel(
                owner,
                ToplevelModel { minimized: false, maximized: maximize, ..toplevel },
            );
            let moved = marked.focused(Some((owner.client_id, toplevel.surface_id)));
            let (lifted, raised) = moved.raised(window_id);
            if !lifted.has_toplevel(owner) {
                (lifted, false)
            } else {
                let asked = lifted.maximized(owner, maximize);
                let shown = if (toplevel.minimized || raised) && asked.scene_generation
                    == lifted.scene_generation {
                    asked.changed(DamageModel::Full)
                } else {
                    asked
                };
                (shown.announce_focus(Some(window_id)).announce_state(window_id), true)
            }
        }
    }

    /// A connection without one of its toplevels.
    pub open spec fn without_toplevel(client: ClientModel, toplevel_id: ObjectId) -> ClientModel {
        let toplevel = client.toplevels[toplevel_id];
        let released = ClientModel {
            toplevels: client.toplevels.remove(toplevel_id),
            ..client
        }.release_metadata(toplevel);
        ClientModel {
            toplevel_by_surface: released.toplevel_by_surface.remove(toplevel.surface_id),
            objects: released.objects.remove(toplevel_id),
            ..released
        }.emit_delete_id(toplevel_id).detach_surface(toplevel.surface_id)
    }

    /// The state without the window of a toplevel, if it has one.
    #[verifier::opaque]
    pub open spec fn unregistered(self, owner: WindowOwner) -> ServerModel {
        if !self.window_ids.contains_key(owner) {
            self
        } else {
            let window_id = self.window_ids[owner];
            let gone = Set::empty().insert(window_id);
            ServerModel {
                window_ids: self.window_ids.remove(owner),
                windows: self.windows.remove(window_id),
                z_order: focus::without(self.z_order, gone),
                restore: restore_without(self.restore, window_id),
                ..self
            }.announce(NoticeModel::Destroyed { window_id: window_id.0 }).announce_states(
                focus::dropped_by(self.z_order, gone),
            )
        }
    }

    /// The state without a toplevel. If it has the focus, the highest other
    /// window gets it.
    #[verifier::opaque]
    pub open spec fn destroyed(self, owner: WindowOwner) -> ServerModel {
        let loses_focus = self.has_toplevel(owner) && self.focus == Some(
            (owner.client_id, self.toplevel(owner).surface_id),
        );
        let excluded = if self.window_ids.contains_key(owner) {
            Set::empty().insert(self.window_ids[owner])
        } else {
            Set::empty()
        };
        let fallback = self.fallback_focus(excluded);
        let moved = if loses_focus {
            self.focused(fallback)
        } else {
            self
        };
        if !moved.has_toplevel(owner) {
            moved
        } else {
            let before = moved.clients[owner.client_id];
            let after = ServerModel::without_toplevel(before, owner.toplevel_id);
            let freed = ServerModel {
                pool_bytes: moved.pool_bytes.saturating_sub(before.pool_bytes).saturating_add(
                    after.pool_bytes,
                ),
                toplevel_metadata_bytes: moved.toplevel_metadata_bytes.saturating_sub(
                    before.toplevel_metadata_bytes,
                ).saturating_add(after.toplevel_metadata_bytes),
                ..moved.with_client(owner.client_id, after)
            };
            let dropped = if freed.is_dragged(owner) {
                ServerModel { drag: None, ..freed }
            } else {
                freed
            };
            let gone = dropped.unregistered(owner);
            let told = if loses_focus {
                gone.announce_focus(gone.window_of_focus(fallback))
            } else {
                gone
            };
            told.changed(DamageModel::Full)
        }
    }

    /// The state in which a toplevel follows the pointer.
    pub open spec fn dragging(self, owner: WindowOwner, opcode: u16, payload: Seq<u8>) -> ServerModel {
        if (opcode != 7 && payload.len() < 8) || !self.has_toplevel(owner) {
            self
        } else {
            let toplevel = self.toplevel(owner);
            ServerModel {
                drag: Some(
                    DragState {
                        client_id: owner.client_id,
                        toplevel_id: owner.toplevel_id,
                        kind: if opcode == 7 {
                            DragKind::Move
                        } else {
                            DragKind::Resize { edges: bytes::le32_at(payload, 4) }
                        },
                        start_pointer: (self.pointer_x, self.pointer_y),
                        start_origin: (toplevel.x, toplevel.y),
                    },
                ),
                ..self
            }
        }
    }

    /// The state after the toplevel of a surface has been asked to take its
    /// first size: a shell's the whole output, any other what is left of the
    /// work area.
    #[verifier::opaque]
    pub open spec fn first_configured(self, client_id: ClientId, surface_id: ObjectId) -> ServerModel {
        if !self.clients.contains_key(client_id)
            || !self.clients[client_id].toplevel_by_surface.contains_key(surface_id) {
            self
        } else {
            let client = self.clients[client_id];
            let owner = WindowOwner {
                client_id,
                toplevel_id: client.toplevel_by_surface[surface_id],
            };
            if !self.has_toplevel(owner) || self.toplevel(owner).initial_configure_sent {
                self
            } else {
                let toplevel = self.toplevel(owner);
                let left = arith::max_int(toplevel.x as int, 0);
                let top = arith::max_int(toplevel.y as int, 0);
                let width = if client.is_shell() {
                    self.frame.width as i32
                } else {
                    arith::sat_i32(
                        arith::max_int(self.frame.width as i32 - left, 1),
                    )
                };
                let height = if client.is_shell() {
                    self.frame.height as i32
                } else {
                    arith::sat_i32(
                        arith::max_int(self.work_area_height() as i32 - top, 1),
                    )
                };
                let asked = self.configured(owner, width, height);
                if asked.has_toplevel(owner) {
                    asked.with_toplevel(
                        owner,
                        ToplevelModel { initial_configure_sent: true, ..asked.toplevel(owner) },
                    )
                } else {
                    asked
                }
            }
        }
    }
}

impl Client {
    /// Destroys a toplevel with what its surface shows, and says whether it was
    /// there.
    fn drop_toplevel(&mut self, toplevel_id: ObjectId) -> (r: bool)
        ensures
            r == old(self)@.toplevels.contains_key(toplevel_id),
            final(self)@ == if r {
                ServerModel::without_toplevel(old(self)@, toplevel_id)
            } else {
                old(self)@
            },
    {
        match self.toplevels.remove(toplevel_id) {
            Some(toplevel) => {
                self.release_toplevel_metadata(&toplevel);
                let _ = self.toplevel_by_surface.remove(toplevel.surface_id);
                let _ = self.objects.remove(toplevel_id);
                let _ = self.emit_delete_id(toplevel_id);
                self.detach_surface_resources(toplevel.surface_id);
                true
            },
            None => {
                proof {
                    assert(self@.toplevels =~= old(self)@.toplevels);
                }
                false
            },
        }
    }
}

impl Server {
    /// Places a new toplevel.
    pub(crate) fn position_new_toplevel(&mut self, owner: WindowOwner)
        ensures
            final(self)@ == old(self)@.positioned(owner),
    {
        let is_shell: bool = self.is_shell(owner.client_id);
        let mut at: i32 = 0;
        if !is_shell {
            at = self.next_toplevel_offset;
            self.next_toplevel_offset = saturating_sum(at, AUTO_LAYOUT_STEP);
        }
        let hide: bool = !is_shell && self.restore_transaction.is_some();
        if let Some(toplevel) = self.toplevel_mut(owner) {
            toplevel.x = at;
            toplevel.y = at;
            toplevel.normal_x = at;
            toplevel.normal_y = at;
            toplevel.hidden_for_restore = hide;
        }
    }

    /// Whether another window of a connection can be numbered.
    pub fn can_number_window(&self, client_id: ClientId) -> (r: bool)
        ensures
            r == self@.can_number(client_id),
    {
        if self.next_window_id == u32::MAX {
            return false;
        }
        match self.clients.get(client_id) {
            Some(client) => {
                let next: u32 = match self.next_toplevel_ordinal_by_pid.get(client.peer_pid) {
                    Some(next) => *next,
                    None => 1,
                };
                client.next_toplevel_ordinal < u32::MAX && next < u32::MAX
            },
            None => true,
        }
    }

    /// Numbers a new toplevel among those of its process.
    pub(crate) fn assign_toplevel_ordinal(&mut self, owner: WindowOwner)
        requires
            old(self)@.has_numbers(owner.client_id),
        ensures
            final(self)@ == old(self)@.numbered(owner),
    {
        let pid: u32 = match self.clients.get(owner.client_id) {
            Some(client) => client.peer_pid,
            None => {
                return;
            },
        };
        if pid == 0 {
            return;
        }
        let ordinal: u32 = match self.next_toplevel_ordinal_by_pid.get(pid) {
            Some(next) => *next,
            None => 1,
        };
        let _ = self.next_toplevel_ordinal_by_pid.insert(pid, ordinal + 1);
        if let Some(toplevel) = self.toplevel_mut(owner) {
            toplevel.ordinal = ordinal;
        }
    }

    /// Gives a toplevel a window id.
    fn register_window(&mut self, owner: WindowOwner) -> (r: (WindowId, Vec<WindowId>))
        requires
            old(self)@.next_window_id < u32::MAX,
        ensures
            (final(self)@, r.0, r.1@) == old(self)@.registered(owner),
    {
        if let Some(window_id) = self.window_ids.get(owner) {
            let none: Vec<WindowId> = Vec::new();
            proof {
                assert(none@ =~= Seq::<WindowId>::empty());
            }
            return (*window_id, none);
        }
        let ghost start = self@;
        let window_id = WindowId(self.next_window_id);
        let hidden: bool = self.is_hidden(owner);
        let is_shell: bool = self.is_shell(owner.client_id);
        self.next_window_id = self.next_window_id + 1;
        let _ = self.windows.insert(window_id, owner);
        let _ = self.window_ids.insert(owner, window_id);
        let mut shifted: Vec<WindowId> = Vec::new();
        if is_shell {
            let mut i: usize = 0;
            while i < self.z_order.len()
                invariant
                    i <= self.z_order@.len(),
                    shifted@ == self.z_order@.take(i as int),
                decreases self.z_order@.len() - i,
            {
                shifted.push(self.z_order[i]);
                i += 1;
                proof {
                    assert(shifted@ =~= self.z_order@.take(i as int));
                }
            }
            proof {
                assert(self.z_order@.take(i as int) =~= self.z_order@);
            }
            self.z_order.insert(0, window_id);
        } else {
            self.z_order.push(window_id);
        }
        if hidden {
            if let Some(restore) = &mut self.restore_transaction {
                let _ = restore.hidden.insert(window_id);
            }
        }
        proof {
            assert(self@ =~= start.registered(owner).0);
            assert(shifted@ =~= start.registered(owner).2);
        }
        (window_id, shifted)
    }

    /// Makes a new toplevel a window, and tells every connection.
    pub(crate) fn broadcast_window_created(&mut self, owner: WindowOwner)
        requires
            old(self)@.next_window_id < u32::MAX,
        ensures
            final(self)@ == old(self)@.created(owner),
    {
        proof {
            reveal(ServerModel::created);
        }
        let (title, app_id) = match self.toplevel(owner) {
            Some(toplevel) => (toplevel.title.clone(), toplevel.app_id.clone()),
            None => {
                return;
            },
        };
        let (window_id, shifted) = self.register_window(owner);
        let state = self.window_state(window_id);
        self.announce(&Notice::Created { window_id: window_id.0, title, app_id, state });
        self.broadcast_window_states(&shifted);
    }

    /// Tells every connection a window's new title.
    pub(crate) fn broadcast_window_title_changed(&mut self, owner: WindowOwner)
        ensures
            final(self)@ == old(self)@.retitled(owner),
    {
        let title = match self.toplevel(owner) {
            Some(toplevel) => toplevel.title.clone(),
            None => {
                return;
            },
        };
        let window_id = match self.window_ids.get(owner) {
            Some(window_id) => *window_id,
            None => {
                return;
            },
        };
        self.announce(&Notice::TitleChanged { window_id: window_id.0, title });
        self.broadcast_window_state_changed(window_id);
    }

    /// Lets a shell follow windows.
    pub(crate) fn subscribe_windows_for(&mut self, client_id: ClientId)
        ensures
            final(self)@ == old(self)@.subscribed(client_id),
    {
        let ghost start = self@;
        let manager = match self.clients.get(client_id) {
            Some(client) => match client.shell_manager_id {
                Some(manager) => manager,
                None => {
                    return;
                },
            },
            None => {
                return;
            },
        };
        if let Some(client) = self.clients.get_mut(client_id) {
            client.shell_manager_subscribed = true;
        }
        let ghost first = self@.clients[client_id];
        let mut i: usize = 0;
        proof {
            assert(start.z_order.take(0) =~= Seq::<WindowId>::empty());
        }
        while i < self.z_order.len()
            invariant
                i <= self.z_order@.len(),
                start.clients.contains_key(client_id),
                first == (ClientModel {
                    shell_manager_subscribed: true,
                    ..start.clients[client_id]
                }),
                self@ == start.with_client(client_id, self@.clients[client_id]),
                self@.clients[client_id] == (ClientModel {
                    events: self@.clients[client_id].events,
                    overflowed: self@.clients[client_id].overflowed,
                    ..first
                }),
                self@.clients[client_id] == start.windows_listed(
                    first,
                    manager,
                    start.z_order.take(i as int),
                ),
            decreases self.z_order@.len() - i,
        {
            let window_id = self.z_order[i];
            proof {
                assert(start.z_order.take(i + 1).drop_last() =~= start.z_order.take(i as int));
                assert(start.z_order.take(i + 1).last() == window_id);
            }
            if let Some(owner) = self.owner_of(window_id) {
                if let Some(toplevel) = self.toplevel(owner) {
                    let title = toplevel.title.clone();
                    let app_id = toplevel.app_id.clone();
                    let focused: bool = same_focus(
                        self.keyboard_focus,
                        Some((owner.client_id, toplevel.surface_id)),
                    );
                    if let Some(client) = self.clients.get_mut(client_id) {
                        let _ = client.tell_window_created(
                            manager,
                            window_id.0,
                            utf8_bytes(&title),
                            utf8_bytes(&app_id),
                        );
                        if focused {
                            let _ = client.emit_window_focused(manager, window_id.0);
                        }
                    }
                }
            }
            i += 1;
        }
        proof {
            assert(start.z_order.take(i as int) =~= start.z_order);
        }
    }

    /// Lets a shell follow the windows' states.
    pub(crate) fn subscribe_window_state_for(&mut self, client_id: ClientId, snapshot_id: u32)
        ensures
            final(self)@ == old(self)@.state_subscribed(client_id, snapshot_id),
    {
        let ghost start = self@;
        if snapshot_id == 0 {
            return;
        }
        let manager = match self.clients.get(client_id) {
            Some(client) => match client.shell_manager_id {
                Some(manager) => manager,
                None => {
                    return;
                },
            },
            None => {
                return;
            },
        };
        let focused = self.window_of_focus(self.keyboard_focus);
        if let Some(client) = self.clients.get_mut(client_id) {
            client.shell_manager_state_snapshot_id = Some(snapshot_id);
        }
        let ghost first = self@.clients[client_id];
        let mut i: usize = 0;
        proof {
            assert(start.z_order.take(0) =~= Seq::<WindowId>::empty());
        }
        while i < self.z_order.len()
            invariant
                i <= self.z_order@.len(),
                start.clients.contains_key(client_id),
                first == (ClientModel {
                    shell_manager_state_snapshot_id: Some(snapshot_id),
                    ..start.clients[client_id]
                }),
                self@ == start.with_client(client_id, self@.clients[client_id]),
                self@.clients[client_id] == (ClientModel {
                    events: self@.clients[client_id].events,
                    overflowed: self@.clients[client_id].overflowed,
                    ..first
                }),
                self@.clients[client_id] == start.states_listed(
                    first,
                    manager,
                    snapshot_id,
                    start.z_order.take(i as int),
                ),
            decreases self.z_order@.len() - i,
        {
            let window_id = self.z_order[i];
            proof {
                assert(start.z_order.take(i + 1).drop_last() =~= start.z_order.take(i as int));
                assert(start.z_order.take(i + 1).last() == window_id);
                assert(self@.window_state(window_id) == start.window_state(window_id));
            }
            if let Some(state) = self.window_state(window_id) {
                if let Some(client) = self.clients.get_mut(client_id) {
                    let _ = client.tell_window_state(manager, &state, snapshot_id);
                }
            }
            i += 1;
        }
        proof {
            assert(start.z_order.take(i as int) =~= start.z_order);
        }
        if let Some(client) = self.clients.get_mut(client_id) {
            if let Some(window_id) = focused {
                let _ = client.emit_window_focused(manager, window_id.0);
            }
            let _ = client.emit_window_snapshot_done(manager, snapshot_id);
        }
    }

    /// Minimizes a window or brings it back, and says whether it is there and
    /// not hidden.
    pub fn set_window_minimized(&mut self, window_id: u32, minimized: bool) -> (r: bool)
        ensures
            (final(self)@, r) == old(self)@.minimized(WindowId(window_id), minimized),
    {
        let id = WindowId(window_id);
        let owner = match self.owner_of(id) {
            Some(owner) => owner,
            None => {
                return false;
            },
        };
        if self.is_hidden(owner) {
            return false;
        }
        let (surface_id, changed) = match self.toplevel_mut(owner) {
            Some(toplevel) => {
                let changed: bool = toplevel.minimized != minimized;
                toplevel.minimized = minimized;
                (toplevel.surface_id, changed)
            },
            None => {
                return false;
            },
        };
        if !changed {
            return true;
        }
        let loses_focus: bool = minimized && same_focus(
            self.keyboard_focus,
            Some((owner.client_id, surface_id)),
        );
        if minimized && self.is_dragged(owner) {
            self.active_drag = None;
        }
        let fallback = if loses_focus {
            self.fallback_keyboard_focus(&OrderedSet::new())
        } else {
            None
        };
        if loses_focus {
            self.transition_keyboard_focus(fallback);
        }
        self.request_recomposition();
        self.broadcast_window_state_changed(id);
        if loses_focus {
            let focused = self.window_of_focus(fallback);
            self.broadcast_window_focused(focused);
        }
        true
    }

    /// Brings a minimized window back.
    pub fn restore_window(&mut self, window_id: u32) -> (r: bool)
        ensures
            (final(self)@, r) == old(self)@.minimized(WindowId(window_id), false),
    {
        self.set_window_minimized(window_id, false)
    }

    /// Brings a window back if it is minimized, focuses and raises it.
    pub(crate) fn focus_window_by_id(&mut self, window_id: WindowId, shell: Option<ClientId>)
        ensures
            final(self)@ == old(self)@.window_focused(window_id, shell),
    {
        proof {
            reveal(ServerModel::window_focused);
        }
        let owner = match self.owner_of(window_id) {
            Some(owner) => owner,
            None => {
                return;
            },
        };
        if self.is_hidden(owner) {
            return;
        }
        let (surface_id, restored) = match self.toplevel_mut(owner) {
            Some(toplevel) => {
                let restored: bool = toplevel.minimized;
                toplevel.minimized = false;
                (toplevel.surface_id, restored)
            },
            None => {
                return;
            },
        };
        self.transition_keyboard_focus(Some((owner.client_id, surface_id)));
        let raise_damage = self.raised_window_presentation_damage(window_id);
        let raised: bool = self.raise_window(window_id);
        if restored || raised {
            let damage = if restored {
                PresentationDamage::Full
            } else {
                raise_damage
            };
            if shell.is_some() {
                self.deferred_focus_commit_owner = shell;
                self.presentation_damage.accumulate(&damage);
            } else {
                self.deferred_focus_commit_owner = None;
                self.request_recomposition_with_damage(&damage);
            }
        }
        self.broadcast_window_focused(Some(window_id));
        self.broadcast_window_state_changed(window_id);
    }

    /// Focuses a window and asks it to close.
    pub(crate) fn close_window_by_id(&mut self, window_id: WindowId)
        ensures
            final(self)@ == old(self)@.asked_to_close(window_id),
    {
        self.focus_window_by_id(window_id, None);
        if let Some(owner) = self.owner_of(window_id) {
            if let Some(client) = self.clients.get_mut(owner.client_id) {
                let _ = client.emit_xdg_toplevel_close(owner.toplevel_id);
            }
        }
    }

    /// Moves a toplevel and asks it to take the size that it has when
    /// maximized, or when not.
    pub(crate) fn emit_configure_for_max_state(&mut self, owner: WindowOwner, maximize: bool) -> (r:
        Result<(), ServerError>)
        ensures
            final(self)@ == old(self)@.maximized(owner, maximize),
            match r {
                Ok(_) => old(self)@.has_toplevel(owner),
                Err(e) => !old(self)@.has_toplevel(owner) && e == (ServerError::NoSuchClient {
                    id: owner.client_id,
                }),
            },
    {
        proof {
            reveal(ServerModel::maximized);
        }
        let work_width: u32 = self.work_area_width();
        let work_height: u32 = self.work_area_height();
        let size = match self.clients.get(owner.client_id) {
            Some(client) => match client.toplevels.get(owner.toplevel_id) {
                Some(toplevel) => client.shown_size(toplevel.surface_id),
                None => None,
            },
            None => None,
        };
        let (moved, width, height) = match self.toplevel_mut(owner) {
            Some(toplevel) => {
                if maximize {
                    if toplevel.restore_origin.is_none() {
                        toplevel.restore_origin = Some((toplevel.x, toplevel.y));
                        toplevel.normal_x = toplevel.x;
                        toplevel.normal_y = toplevel.y;
                        if let Some((width, height)) = size {
                            toplevel.normal_width = width;
                            toplevel.normal_height = height;
                        }
                    }
                    let moved: bool = toplevel.x != 0 || toplevel.y != 0;
                    toplevel.x = 0;
                    toplevel.y = 0;
                    (moved, work_width as i32, work_height as i32)
                } else {
                    let mut moved: bool = false;
                    if let Some((x, y)) = toplevel.restore_origin {
                        moved = toplevel.x != x || toplevel.y != y;
                        toplevel.restore_origin = None;
                        toplevel.x = toplevel.normal_x;
                        toplevel.y = toplevel.normal_y;
                    }
                    (moved, toplevel.normal_width as i32, toplevel.normal_height as i32)
                }
            },
            None => {
                return Err(ServerError::NoSuchClient { id: owner.client_id });
            },
        };
        self.emit_toplevel_configure(owner, width, height);
        if moved {
            self.request_recomposition();
        }
        Ok(())
    }

    /// Focuses and raises a window, and maximizes it or brings it back.
    pub(crate) fn toggle_window_maximized(&mut self, window_id: WindowId) -> (r: bool)
        ensures
            (final(self)@, r) == old(self)@.toggled(window_id),
    {
        let owner = match self.owner_of(window_id) {
            Some(owner) => owner,
            None => {
                return false;
            },
        };
        if self.is_hidden(owner) {
            return false;
        }
        let (surface_id, maximize, restored) = match self.toplevel_mut(owner) {
            Some(toplevel) => {
                let restored: bool = toplevel.minimized;
                let maximize: bool = !toplevel.maximized;
                toplevel.minimized = false;
                toplevel.maximized = maximize;
                (toplevel.surface_id, maximize, restored)
            },
            None => {
                return false;
            },
        };
        self.transition_keyboard_focus(Some((owner.client_id, surface_id)));
        let raised: bool = self.raise_window(window_id);
        let generation: u64 = self.scene_generation;
        proof {
            reveal(ServerModel::maximized);
        }
        if self.emit_configure_for_max_state(owner, maximize).is_err() {
            return false;
        }
        if (restored || raised) && self.scene_generation == generation {
            self.request_recomposition();
        }
        self.broadcast_window_focused(Some(window_id));
        self.broadcast_window_state_changed(window_id);
        true
    }

    /// Keeps the lowest rows of the output free of maximized windows.
    pub fn set_taskbar_height_px(&mut self, px: u32)
        ensures
            final(self)@ == (ServerModel {
                taskbar_height: arith::min_int(px as int, old(self)@.frame.height as int) as u32,
                work_area_owner: None,
                ..old(self)@
            }),
    {
        self.taskbar_height_px = min_u32(px, self.framebuffer.height());
        self.work_area_owner = None;
    }

    /// Keeps the lowest rows of the output for a shell.
    pub(crate) fn set_work_area_bottom_for(&mut self, client_id: ClientId, px: u32)
        ensures
            final(self)@ == (ServerModel {
                taskbar_height: arith::min_int(px as int, old(self)@.frame.height as int) as u32,
                work_area_owner: Some(client_id),
                ..old(self)@
            }),
    {
        self.taskbar_height_px = min_u32(px, self.framebuffer.height());
        self.work_area_owner = Some(client_id);
    }

    /// Makes a restore forget a window.
    pub(crate) fn forget_restored_window(&mut self, window_id: WindowId)
        ensures
            final(self)@ == (ServerModel {
                restore: restore_without(old(self)@.restore, window_id),
                ..old(self)@
            }),
    {
        if let Some(restore) = &mut self.restore_transaction {
            let _ = restore.hidden.remove(window_id);
            let _ = restore.placements.remove(window_id);
        }
    }

    /// Takes the window of a toplevel away.
    fn unregister_window(&mut self, owner: WindowOwner)
        ensures
            final(self)@ == old(self)@.unregistered(owner),
    {
        proof {
            reveal(ServerModel::unregistered);
        }
        if let Some(window_id) = self.window_ids.remove(owner) {
            let _ = self.windows.remove(window_id);
            let mut gone: OrderedSet<WindowId> = OrderedSet::new();
            let _ = gone.insert(window_id);
            let dropped = self.remove_from_z_order(&gone);
            self.forget_restored_window(window_id);
            self.broadcast_window_destroyed(window_id.0);
            self.broadcast_window_states(&dropped);
        }
    }

    /// Destroys a toplevel.
    pub(crate) fn destroy_toplevel(&mut self, owner: WindowOwner)
        ensures
            final(self)@ == old(self)@.destroyed(owner),
    {
        proof {
            reveal(ServerModel::destroyed);
        }
        let mut loses_focus: bool = false;
        if let Some(toplevel) = self.toplevel(owner) {
            loses_focus = same_focus(
                self.keyboard_focus,
                Some((owner.client_id, toplevel.surface_id)),
            );
        }
        let mut fallback: Option<(ClientId, ObjectId)> = None;
        if loses_focus {
            let mut excluded: OrderedSet<WindowId> = OrderedSet::new();
            if let Some(window_id) = self.window_ids.get(owner) {
                let _ = excluded.insert(*window_id);
            }
            fallback = self.fallback_keyboard_focus(&excluded);
            self.transition_keyboard_focus(fallback);
        }
        let (pool_before, pool_after, text_before, text_after) = match self.clients.get_mut(
            owner.client_id,
        ) {
            Some(client) => {
                let pool_before: u64 = client.pool_bytes_len();
                let text_before: u64 = client.toplevel_metadata_bytes_len();
                if !client.drop_toplevel(owner.toplevel_id) {
                    return;
                }
                (
                    pool_before,
                    client.pool_bytes_len(),
                    text_before,
                    client.toplevel_metadata_bytes_len(),
                )
            },
            None => {
                return;
            },
        };
        self.pool_bytes = self.pool_bytes.saturating_sub(pool_before).saturating_add(pool_after);
        self.toplevel_metadata_bytes = self.toplevel_metadata_bytes.saturating_sub(
            text_before,
        ).saturating_add(text_after);
        if self.is_dragged(owner) {
            self.active_drag = None;
        }
        self.unregister_window(owner);
        if loses_focus {
            let focused = self.window_of_focus(fallback);
            self.broadcast_window_focused(focused);
        }
        self.request_recomposition();
    }

    /// Lets a toplevel follow the pointer.
    pub(crate) fn start_drag_from_request(
        &mut self,
        owner: WindowOwner,
        opcode: u16,
        payload: &[u8],
    )
        ensures
            final(self)@ == old(self)@.dragging(owner, opcode, payload@),
    {
        let kind = if opcode == 7 {
            DragKind::Move
        } else {
            if payload.len() < 8 {
                return;
            }
            DragKind::Resize { edges: read_u32(payload, 4) }
        };
        let start_origin: (i32, i32) = match self.toplevel(owner) {
            Some(toplevel) => (toplevel.x, toplevel.y),
            None => {
                return;
            },
        };
        self.active_drag = Some(
            DragState {
                client_id: owner.client_id,
                toplevel_id: owner.toplevel_id,
                kind,
                start_pointer: (self.pointer_x, self.pointer_y),
                start_origin,
            },
        );
    }

    pub fn is_dragging(&self) -> (r: bool)
        ensures
            r == (self@.drag is Some),
    {
        self.active_drag.is_some()
    }

    /// Stops a drag where it is.
    pub fn end_drag(&mut self) -> (drag: Option<DragState>)
        ensures
            drag == old(self)@.drag,
            final(self)@ == (ServerModel { drag: None, ..old(self)@ }),
    {
        let drag = self.active_drag;
        self.active_drag = None;
        drag
    }

    /// Asks the toplevel of a surface to take its first size.
    pub fn maybe_emit_initial_configure(&mut self, client_id: ClientId, surface_id: ObjectId)
        ensures
            final(self)@ == old(self)@.first_configured(client_id, surface_id),
    {
        proof {
            reveal(ServerModel::first_configured);
        }
        let (owner, is_shell) = match self.clients.get(client_id) {
            Some(client) => match client.toplevel_by_surface.get(surface_id) {
                Some(toplevel_id) => (
                    WindowOwner { client_id, toplevel_id: *toplevel_id },
                    client.is_shell(),
                ),
                None => {
                    return;
                },
            },
            None => {
                return;
            },
        };
        let (left, top) = match self.toplevel(owner) {
            Some(toplevel) => {
                if toplevel.initial_configure_sent {
                    return;
                }
                (arith::max_i32(toplevel.x, 0), arith::max_i32(toplevel.y, 0))
            },
            None => {
                return;
            },
        };
        let (width, height) = if is_shell {
            (self.framebuffer.width() as i32, self.framebuffer.height() as i32)
        } else {
            let work_width: i32 = self.work_area_width() as i32;
            let work_height: i32 = self.work_area_height() as i32;
            (
                arith::max_i32(saturating_difference(work_width, left), 1),
                arith::max_i32(saturating_difference(work_height, top), 1),
            )
        };
        self.emit_toplevel_configure(owner, width, height);
        if let Some(toplevel) = self.toplevel_mut(owner) {
            toplevel.initial_configure_sent = true;
        }
    }
}

} // verus!
