//! The pointer: what it points at, and what it drags.

use vstd::prelude::*;

use crate::arith;
use crate::arith::saturating_sum;
use crate::client::model::ToplevelModel;
use crate::events;
use crate::events::{STATE_PRESSED, STATE_RELEASED};
use crate::ids::{WindowId, WindowOwner};
use crate::requests::{
    RESIZE_EDGE_BOTTOM, RESIZE_EDGE_LEFT, RESIZE_EDGE_RIGHT, RESIZE_EDGE_TOP,
};
use crate::server::damage::DamageModel;
use crate::server::model::ServerModel;
use crate::server::notice::{is_client, same_focus};
use crate::server::{DragKind, DragState, HitResult, Server};

verus! {

broadcast use {
    crate::client::model::lemma_emit_frame,
    crate::ordered::lemma_remove_insert,
    crate::ordered::lemma_insert_same,
};

impl DragState {
    pub open spec fn spec_owner(self) -> WindowOwner {
        WindowOwner { client_id: self.client_id, toplevel_id: self.toplevel_id }
    }

    /// The dragged toplevel.
    pub fn owner(&self) -> (owner: WindowOwner)
        ensures
            owner == self.spec_owner(),
    {
        WindowOwner { client_id: self.client_id, toplevel_id: self.toplevel_id }
    }
}

/// A size that one edge of a window is dragged to: the far edge makes it
/// larger by as much as the pointer moved, the near one smaller.
pub open spec fn dragged_size(size: i32, far: bool, near: bool, moved: int) -> i32 {
    if far {
        arith::sat_i32(arith::max_int(size + moved, 1))
    } else if near {
        arith::sat_i32(arith::max_int(size - moved, 1))
    } else {
        size
    }
}

impl ServerModel {
    /// What a point is of a window, if it lies on it: a window is where its
    /// toplevel is, and as large as what it shows.
    pub open spec fn hit_window(self, window_id: WindowId, x: i32, y: i32) -> Option<HitResult> {
        if !self.is_focusable(window_id) {
            None
        } else {
            let owner = self.windows[window_id];
            let client = self.clients[owner.client_id];
            let toplevel = self.toplevel(owner);
            let attachment = client.surfaces[toplevel.surface_id].current_buffer->0;
            if !client.buffers.contains_key(attachment.buffer_id) {
                None
            } else {
                let buffer = client.buffers[attachment.buffer_id];
                if toplevel.x <= x < arith::sat_i32(toplevel.x + buffer.width as i32)
                    && toplevel.y <= y < arith::sat_i32(toplevel.y + buffer.height as i32) {
                    Some(
                        HitResult {
                            client_id: owner.client_id,
                            surface_id: toplevel.surface_id,
                            local_x: (x - toplevel.x) as i32,
                            local_y: (y - toplevel.y) as i32,
                        },
                    )
                } else {
                    None
                }
            }
        }
    }

    /// What a point is of the highest of the listed windows that it lies on.
    pub open spec fn hit_among(self, order: Seq<WindowId>, x: i32, y: i32) -> Option<HitResult>
        decreases order.len(),
    {
        if order.len() == 0 {
            None
        } else if self.hit_window(order.last(), x, y) is Some {
            self.hit_window(order.last(), x, y)
        } else {
            self.hit_among(order.drop_last(), x, y)
        }
    }

    /// What lies under a point.
    pub open spec fn hit(self, x: i32, y: i32) -> Option<HitResult> {
        self.hit_among(self.z_order, x, y)
    }

    /// The state after the pointer has moved during a drag: a moved window
    /// follows it, a resized one is asked to take the size that it is dragged
    /// to.
    #[verifier::opaque]
    pub open spec fn drag_advanced(self, drag: DragState, x: i32, y: i32) -> ServerModel {
        let owner = drag.spec_owner();
        let dx = x - drag.start_pointer.0;
        let dy = y - drag.start_pointer.1;
        if !self.has_toplevel(owner) {
            self
        } else {
            let toplevel = self.toplevel(owner);
            match drag.kind {
                DragKind::Move => {
                    let new_x = arith::sat_i32(drag.start_origin.0 + dx);
                    let new_y = arith::sat_i32(drag.start_origin.1 + dy);
                    let moved = self.with_toplevel(
                        owner,
                        ToplevelModel { x: new_x, y: new_y, ..toplevel },
                    );
                    if toplevel.x != new_x || toplevel.y != new_y {
                        moved.changed(DamageModel::Full)
                    } else {
                        moved
                    }
                },
                DragKind::Resize { edges } => {
                    let size = match self.clients[owner.client_id].shown_size(
                        toplevel.surface_id,
                    ) {
                        Some((width, height)) => (width as i32, height as i32),
                        None => (320, 240),
                    };
                    self.configured(
                        owner,
                        dragged_size(
                            size.0,
                            edges & RESIZE_EDGE_RIGHT != 0,
                            edges & RESIZE_EDGE_LEFT != 0,
                            dx,
                        ),
                        dragged_size(
                            size.1,
                            edges & RESIZE_EDGE_BOTTOM != 0,
                            edges & RESIZE_EDGE_TOP != 0,
                            dy,
                        ),
                    )
                },
            }
        }
    }

    /// The state after the pointer has moved, and what it now points at. While
    /// a window is dragged nothing else is told.
    pub open spec fn pointer_moved(self, x: i32, y: i32) -> (ServerModel, Option<HitResult>) {
        let moved = ServerModel { pointer_x: x, pointer_y: y, ..self };
        if self.drag is Some {
            (moved.drag_advanced(self.drag->0, x, y), None)
        } else {
            match moved.hit(x, y) {
                Some(hit) => if moved.clients.contains_key(hit.client_id) {
                    let client = moved.clients[hit.client_id];
                    (
                        match client.pointer_id {
                            Some(device) => moved.with_client(
                                hit.client_id,
                                client.emit(
                                    device,
                                    1,
                                    events::pointer_motion_payload(
                                        hit.surface_id,
                                        hit.local_x,
                                        hit.local_y,
                                    ),
                                ),
                            ),
                            None => moved,
                        },
                        Some(hit),
                    )
                } else {
                    (moved, None)
                },
                None => (moved, None),
            }
        }
    }

    /// The state with the geometry that a drag led to kept as the window's
    /// normal one, unless it is maximized.
    pub open spec fn drag_settled(self, drag: DragState) -> ServerModel {
        let owner = drag.spec_owner();
        if !self.has_toplevel(owner) || self.toplevel(owner).maximized {
            self
        } else {
            let toplevel = self.toplevel(owner);
            let size = self.clients[owner.client_id].shown_size(toplevel.surface_id);
            self.with_toplevel(
                owner,
                ToplevelModel {
                    normal_x: toplevel.x,
                    normal_y: toplevel.y,
                    normal_width: match size {
                        Some((width, _)) => width,
                        None => toplevel.normal_width,
                    },
                    normal_height: match size {
                        Some((_, height)) => height,
                        None => toplevel.normal_height,
                    },
                    ..toplevel
                },
            )
        }
    }

    /// The state after a drag has ended.
    #[verifier::opaque]
    pub open spec fn dropped(self, drag: DragState) -> ServerModel {
        let owner = drag.spec_owner();
        let ended = ServerModel { drag: None, ..self };
        let asked = if drag.kind is Resize {
            let size = if ended.has_toplevel(owner) {
                match ended.clients[owner.client_id].shown_size(
                    ended.toplevel(owner).surface_id,
                ) {
                    Some((width, height)) => (width as i32, height as i32),
                    None => (0, 0),
                }
            } else {
                (0, 0)
            };
            ended.configured(owner, size.0, size.1)
        } else {
            ended
        };
        let settled = asked.drag_settled(drag);
        if settled.window_ids.contains_key(owner) {
            settled.announce_state(settled.window_ids[owner])
        } else {
            settled
        }
    }

    /// Whether a click is a command to the shell: it lies in the rows that the
    /// shell keeps.
    pub open spec fn is_command(self, hit: HitResult) -> bool {
        self.work_area_owner == Some(hit.client_id) && self.pointer_y
            >= self.work_area_height() as i32
    }

    /// The state after a click has focused and raised what it hit.
    #[verifier::opaque]
    pub open spec fn clicked(self, hit: HitResult) -> ServerModel {
        let focus = Some((hit.client_id, hit.surface_id));
        let moved = self.focused(focus);
        match moved.window_of_surface(hit.client_id, hit.surface_id) {
            Some(window_id) => {
                let (lifted, raised) = moved.raised(window_id);
                let shown = if raised {
                    lifted.changed(DamageModel::Full)
                } else {
                    lifted
                };
                if self.focus != focus {
                    shown.announce_focus(Some(window_id))
                } else {
                    shown
                }
            },
            None => moved,
        }
    }

    /// The state after a press on what the pointer hits.
    #[verifier::opaque]
    pub open spec fn pressed(self, hit: HitResult) -> ServerModel {
        if self.is_command(hit) {
            ServerModel { command_owner: Some(hit.client_id), ..self }
        } else {
            let idle = ServerModel { command_owner: None, commit_owner: None, ..self };
            (if self.commit_owner is Some {
                idle.changed(DamageModel::Full)
            } else {
                idle
            }).clicked(hit)
        }
    }

    /// The state after the window that a pointer button hit has been told.
    pub open spec fn button_told(self, hit: HitResult, serial: u32, button: u32, state: u32) -> (
        ServerModel,
        Option<HitResult>,
    ) {
        if self.clients.contains_key(hit.client_id) {
            let client = self.clients[hit.client_id];
            (
                match client.pointer_id {
                    Some(device) => self.with_client(
                        hit.client_id,
                        client.emit(
                            device,
                            2,
                            events::pointer_button_payload(
                                serial,
                                hit.surface_id,
                                hit.local_x,
                                hit.local_y,
                                button,
                                state,
                            ),
                        ),
                    ),
                    None => self,
                },
                Some(hit),
            )
        } else {
            (self, None)
        }
    }

    /// The state after a pointer button has changed, and what it hit. A
    /// release that ends a drag hits nothing.
    pub open spec fn button_changed(self, button: u32, state: u32) -> (
        ServerModel,
        Option<HitResult>,
    ) {
        if state == STATE_RELEASED && self.drag is Some {
            (self.dropped(self.drag->0), None)
        } else {
            match self.hit(self.pointer_x, self.pointer_y) {
                Some(hit) => {
                    let serial = self.next_pointer_serial;
                    let counted = ServerModel {
                        next_pointer_serial: if serial == u32::MAX {
                            1
                        } else {
                            (serial + 1) as u32
                        },
                        ..self
                    };
                    let acted = if state == STATE_PRESSED {
                        counted.pressed(hit)
                    } else {
                        counted
                    };
                    acted.button_told(hit, serial, button, state)
                },
                None => (self, None),
            }
        }
    }
}

fn drag_size(size: i32, far: bool, near: bool, moved: i64) -> (r: i32)
    requires
        -0x1_0000_0000 <= moved <= 0x1_0000_0000,
    ensures
        r == dragged_size(size, far, near, moved as int),
{
    let wide: i64 = if far {
        size as i64 + moved
    } else if near {
        size as i64 - moved
    } else {
        return size;
    };
    if wide < 1 {
        1
    } else if wide > i32::MAX as i64 {
        i32::MAX
    } else {
        wide as i32
    }
}

fn moved_to(origin: i32, moved: i64) -> (r: i32)
    requires
        -0x1_0000_0000 <= moved <= 0x1_0000_0000,
    ensures
        r == arith::sat_i32(origin + moved),
{
    let wide: i64 = origin as i64 + moved;
    if wide > i32::MAX as i64 {
        i32::MAX
    } else if wide < i32::MIN as i64 {
        i32::MIN
    } else {
        wide as i32
    }
}

impl Server {
    fn hit_window(&self, window_id: WindowId, x: i32, y: i32) -> (r: Option<HitResult>)
        ensures
            r == self@.hit_window(window_id, x, y),
    {
        if !self.window_is_focusable(window_id) {
            return None;
        }
        let owner = match self.owner_of(window_id) {
            Some(owner) => owner,
            None => {
                return None;
            },
        };
        let client = match self.clients.get(owner.client_id) {
            Some(client) => client,
            None => {
                return None;
            },
        };
        let toplevel = match client.toplevels.get(owner.toplevel_id) {
            Some(toplevel) => toplevel,
            None => {
                return None;
            },
        };
        let attachment = match client.surfaces.get(toplevel.surface_id) {
            Some(surface) => match surface.current_buffer {
                Some(attachment) => attachment,
                None => {
                    return None;
                },
            },
            None => {
                return None;
            },
        };
        let buffer = match client.buffers.get(attachment.buffer_id) {
            Some(buffer) => buffer,
            None => {
                return None;
            },
        };
        let left: i32 = toplevel.x;
        let top: i32 = toplevel.y;
        if left <= x && x < saturating_sum(left, buffer.width as i32) && top <= y && y
            < saturating_sum(top, buffer.height as i32) {
            return Some(
                HitResult {
                    client_id: owner.client_id,
                    surface_id: toplevel.surface_id,
                    local_x: x - left,
                    local_y: y - top,
                },
            );
        }
        None
    }

    /// What lies under a point: the highest window on it. A window lies where
    /// its toplevel is, and is as large as the picture that it shows.
    pub fn hit_test(&self, x: i32, y: i32) -> (r: Option<HitResult>)
        ensures
            r == self@.hit(x, y),
    {
        let mut i: usize = self.z_order.len();
        proof {
            assert(self.z_order@.take(i as int) =~= self.z_order@);
        }
        while i > 0
            invariant
                i <= self.z_order@.len(),
                self@.hit(x, y) == self@.hit_among(self@.z_order.take(i as int), x, y),
            decreases i,
        {
            proof {
                assert(self.z_order@.take(i as int).drop_last() =~= self.z_order@.take(i - 1));
                assert(self.z_order@.take(i as int).last() == self.z_order@[i - 1]);
            }
            let hit = self.hit_window(self.z_order[i - 1], x, y);
            if hit.is_some() {
                return hit;
            }
            i -= 1;
        }
        None
    }

    fn advance_drag(&mut self, drag: DragState, x: i32, y: i32)
        ensures
            final(self)@ == old(self)@.drag_advanced(drag, x, y),
    {
        proof {
            reveal(ServerModel::drag_advanced);
        }
        let owner = drag.owner();
        let dx: i64 = x as i64 - drag.start_pointer.0 as i64;
        let dy: i64 = y as i64 - drag.start_pointer.1 as i64;
        match drag.kind {
            DragKind::Move => {
                let new_x: i32 = moved_to(drag.start_origin.0, dx);
                let new_y: i32 = moved_to(drag.start_origin.1, dy);
                let moved: bool = match self.toplevel_mut(owner) {
                    Some(toplevel) => {
                        let moved: bool = toplevel.x != new_x || toplevel.y != new_y;
                        toplevel.x = new_x;
                        toplevel.y = new_y;
                        moved
                    },
                    None => false,
                };
                if moved {
                    self.request_recomposition();
                }
            },
            DragKind::Resize { edges } => {
                let size: (i32, i32) = match self.clients.get(owner.client_id) {
                    Some(client) => match client.toplevels.get(owner.toplevel_id) {
                        Some(toplevel) => match client.shown_size(toplevel.surface_id) {
                            Some((width, height)) => (width as i32, height as i32),
                            None => (320, 240),
                        },
                        None => {
                            return;
                        },
                    },
                    None => {
                        return;
                    },
                };
                let width: i32 = drag_size(
                    size.0,
                    edges & RESIZE_EDGE_RIGHT != 0,
                    edges & RESIZE_EDGE_LEFT != 0,
                    dx,
                );
                let height: i32 = drag_size(
                    size.1,
                    edges & RESIZE_EDGE_BOTTOM != 0,
                    edges & RESIZE_EDGE_TOP != 0,
                    dy,
                );
                self.emit_toplevel_configure(owner, width, height);
            },
        }
    }

    /// Moves the pointer, and tells the window under it or drags one.
    pub fn inject_pointer_motion(&mut self, x: i32, y: i32) -> (r: Option<HitResult>)
        ensures
            (final(self)@, r) == old(self)@.pointer_moved(x, y),
    {
        self.pointer_x = x;
        self.pointer_y = y;
        if let Some(drag) = self.active_drag {
            self.advance_drag(drag, x, y);
            return None;
        }
        match self.hit_test(x, y) {
            Some(hit) => match self.clients.get_mut(hit.client_id) {
                Some(client) => {
                    let _ = client.emit_pointer_motion(hit.surface_id, hit.local_x, hit.local_y);
                    Some(hit)
                },
                None => None,
            },
            None => None,
        }
    }

    fn emit_resize_final_configure(&mut self, owner: WindowOwner)
        ensures
            final(self)@ == old(self)@.configured(
                owner,
                (if old(self)@.has_toplevel(owner) && old(self)@.clients[owner.client_id].shown_size(
                    old(self)@.toplevel(owner).surface_id,
                ) is Some {
                    (old(self)@.clients[owner.client_id].shown_size(
                        old(self)@.toplevel(owner).surface_id,
                    )->0).0 as i32
                } else {
                    0
                }),
                (if old(self)@.has_toplevel(owner) && old(self)@.clients[owner.client_id].shown_size(
                    old(self)@.toplevel(owner).surface_id,
                ) is Some {
                    (old(self)@.clients[owner.client_id].shown_size(
                        old(self)@.toplevel(owner).surface_id,
                    )->0).1 as i32
                } else {
                    0
                }),
            ),
    {
        let size: (i32, i32) = match self.clients.get(owner.client_id) {
            Some(client) => match client.toplevels.get(owner.toplevel_id) {
                Some(toplevel) => match client.shown_size(toplevel.surface_id) {
                    Some((width, height)) => (width as i32, height as i32),
                    None => (0, 0),
                },
                None => (0, 0),
            },
            None => (0, 0),
        };
        self.emit_toplevel_configure(owner, size.0, size.1);
    }

    fn settle_drag_geometry(&mut self, drag: DragState)
        ensures
            final(self)@ == old(self)@.drag_settled(drag),
    {
        let owner = drag.owner();
        let size = match self.clients.get(owner.client_id) {
            Some(client) => match client.toplevels.get(owner.toplevel_id) {
                Some(toplevel) => client.shown_size(toplevel.surface_id),
                None => None,
            },
            None => None,
        };
        if let Some(toplevel) = self.toplevel_mut(owner) {
            if !toplevel.maximized {
                toplevel.normal_x = toplevel.x;
                toplevel.normal_y = toplevel.y;
                if let Some((width, height)) = size {
                    toplevel.normal_width = width;
                    toplevel.normal_height = height;
                }
            }
        }
    }

    fn drop_dragged(&mut self, drag: DragState)
        ensures
            final(self)@ == old(self)@.dropped(drag),
    {
        proof {
            reveal(ServerModel::dropped);
        }
        let owner = drag.owner();
        self.active_drag = None;
        if let DragKind::Resize { edges } = drag.kind {
            self.emit_resize_final_configure(owner);
        }
        self.settle_drag_geometry(drag);
        if let Some(window_id) = self.window_ids.get(owner) {
            let id = *window_id;
            self.broadcast_window_state_changed(id);
        }
    }

    fn click(&mut self, hit: HitResult)
        ensures
            final(self)@ == old(self)@.clicked(hit),
    {
        proof {
            reveal(ServerModel::clicked);
        }
        let previous = self.keyboard_focus;
        let focus = Some((hit.client_id, hit.surface_id));
        self.transition_keyboard_focus(focus);
        if let Some(window_id) = self.window_id_for_surface(hit.client_id, hit.surface_id) {
            if self.raise_window(window_id) {
                self.request_recomposition();
            }
            if !same_focus(previous, focus) {
                self.broadcast_window_focused(Some(window_id));
            }
        }
    }

    fn press(&mut self, hit: HitResult)
        ensures
            final(self)@ == old(self)@.pressed(hit),
    {
        proof {
            reveal(ServerModel::pressed);
        }
        let is_command: bool = is_client(self.work_area_owner, hit.client_id) && self.pointer_y
            >= self.work_area_height() as i32;
        if is_command {
            self.pending_shell_command_owner = Some(hit.client_id);
            return;
        }
        self.pending_shell_command_owner = None;
        let deferred: bool = self.deferred_focus_commit_owner.is_some();
        self.deferred_focus_commit_owner = None;
        if deferred {
            self.request_recomposition();
        }
        self.click(hit);
    }

    fn tell_button(&mut self, hit: HitResult, serial: u32, button: u32, state: u32) -> (r: Option<
        HitResult,
    >)
        ensures
            (final(self)@, r) == old(self)@.button_told(hit, serial, button, state),
    {
        match self.clients.get_mut(hit.client_id) {
            Some(client) => {
                let _ = client.emit_pointer_button(
                    serial,
                    hit.surface_id,
                    hit.local_x,
                    hit.local_y,
                    button,
                    state,
                );
                Some(hit)
            },
            None => None,
        }
    }

    /// Changes a pointer button. A press focuses and raises the window under
    /// the pointer, unless it is a command to the shell; a release ends a drag.
    pub fn inject_pointer_button(&mut self, button: u32, state: u32) -> (r: Option<HitResult>)
        ensures
            (final(self)@, r) == old(self)@.button_changed(button, state),
    {
        if state == STATE_RELEASED {
            if let Some(drag) = self.active_drag {
                self.drop_dragged(drag);
                return None;
            }
        }
        let hit = match self.hit_test(self.pointer_x, self.pointer_y) {
            Some(hit) => hit,
            None => {
                return None;
            },
        };
        let serial: u32 = self.next_pointer_serial;
        self.next_pointer_serial = if serial == u32::MAX {
            1
        } else {
            serial + 1
        };
        if state == STATE_PRESSED {
            self.press(hit);
        }
        self.tell_button(hit, serial, button, state)
    }

    pub fn pointer_position(&self) -> (at: (i32, i32))
        ensures
            at == (self@.pointer_x, self@.pointer_y),
    {
        (self.pointer_x, self.pointer_y)
    }
}

} // verus!
