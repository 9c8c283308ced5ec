//! The keyboard focus, the stacking order, and what windows are told of both.

use vstd::prelude::*;

use crate::arith;
use crate::events;
use crate::events::{
    TOPLEVEL_STATE_ACTIVATED, TOPLEVEL_STATE_MAXIMIZED, TOPLEVEL_STATE_RESIZING,
};
use crate::ids::{ClientId, ObjectId, WindowId, WindowOwner};
use crate::ordered::OrderedSet;
use crate::server::damage::DamageModel;
use crate::server::model;
use crate::server::model::ServerModel;
use crate::server::notice::same_focus;
use crate::server::{DragKind, Server};

verus! {

broadcast use {
    crate::client::model::lemma_emit_frame,
    crate::ordered::lemma_remove_insert,
    crate::ordered::lemma_insert_same,
};

/// The size that a configure event can carry.
pub open spec fn signed_size(size: u32) -> i32 {
    arith::min_int(size as int, i32::MAX as int) as i32
}

/// The highest window of an order that is in a set.
pub open spec fn topmost(order: Seq<WindowId>, allowed: Set<WindowId>) -> Option<WindowId>
    decreases order.len(),
{
    if order.len() == 0 {
        None
    } else if allowed.contains(order.last()) {
        Some(order.last())
    } else {
        topmost(order.drop_last(), allowed)
    }
}

/// An order with one window moved to its end, and the windows whose place
/// that changes.
pub open spec fn lifted(order: Seq<WindowId>, window_id: WindowId) -> (
    Seq<WindowId>,
    Seq<WindowId>,
) {
    match model::rank_of(order, window_id, 0) {
        Some(rank) => if rank + 1 == order.len() {
            (order, Seq::empty())
        } else {
            (order.remove(rank as int).push(window_id), order.skip(rank as int))
        },
        None => (order, Seq::empty()),
    }
}

/// The windows of an order that are not in a set.
pub open spec fn without(order: Seq<WindowId>, removed: Set<WindowId>) -> Seq<WindowId>
    decreases order.len(),
{
    if order.len() == 0 {
        order
    } else if removed.contains(order.last()) {
        without(order.drop_last(), removed)
    } else {
        without(order.drop_last(), removed).push(order.last())
    }
}

/// The place, from `from` on, of the lowest window of an order that is in a
/// set.
pub open spec fn first_in(order: Seq<WindowId>, set: Set<WindowId>, from: nat) -> Option<nat>
    decreases order.len() - from,
{
    if from >= order.len() {
        None
    } else if set.contains(order[from as int]) {
        Some(from)
    } else {
        first_in(order, set, from + 1)
    }
}

/// The windows that move down when a set of windows leaves an order.
pub open spec fn dropped_by(order: Seq<WindowId>, removed: Set<WindowId>) -> Seq<WindowId> {
    match first_in(order, removed, 0) {
        Some(first) => {
            let rest = without(order, removed);
            rest.skip(arith::min_int(first as int, rest.len() as int))
        },
        None => Seq::empty(),
    }
}

impl ServerModel {
    /// The windows that can have the focus.
    pub open spec fn focusable(self) -> Set<WindowId> {
        Set::new(|w: WindowId| self.is_focusable(w))
    }

    /// The highest focusable window that is not excluded.
    pub open spec fn fallback_focus(self, excluded: Set<WindowId>) -> Option<(ClientId, ObjectId)> {
        match topmost(self.z_order, self.focusable().difference(excluded)) {
            Some(window_id) => self.focus_target(window_id),
            None => None,
        }
    }

    /// The windows of a connection.
    pub open spec fn owned_by(self, client_id: ClientId) -> Set<WindowId> {
        Set::new(
            |w: WindowId| self.windows.contains_key(w) && self.windows[w].client_id == client_id,
        )
    }

    /// The connection's window to focus: the focused one if it has it, else
    /// its highest.
    pub open spec fn focusable_of(self, client_id: ClientId) -> Option<WindowId> {
        let focused = if self.focus is Some && (self.focus->0).0 == client_id {
            self.window_of_focus(self.focus)
        } else {
            None
        };
        if focused is Some && self.is_focusable(focused->0) {
            focused
        } else {
            topmost(self.z_order, self.focusable().intersect(self.owned_by(client_id)))
        }
    }

    /// The state bits of a toplevel.
    pub open spec fn states(self, owner: WindowOwner) -> u32 {
        if !self.has_toplevel(owner) {
            0
        } else {
            let toplevel = self.toplevel(owner);
            ((if toplevel.maximized {
                TOPLEVEL_STATE_MAXIMIZED as int
            } else {
                0
            }) + (if self.focus == Some((owner.client_id, toplevel.surface_id)) {
                TOPLEVEL_STATE_ACTIVATED as int
            } else {
                0
            }) + (if self.is_resized(owner) {
                TOPLEVEL_STATE_RESIZING as int
            } else {
                0
            })) as u32
        }
    }

    /// Whether a toplevel is being dragged.
    pub open spec fn is_dragged(self, owner: WindowOwner) -> bool {
        self.drag is Some && (self.drag->0).client_id == owner.client_id && (
        self.drag->0).toplevel_id == owner.toplevel_id
    }

    pub open spec fn is_resized(self, owner: WindowOwner) -> bool {
        self.is_dragged(owner) && (self.drag->0).kind is Resize
    }

    /// The state after a toplevel has been asked to take a size.
    #[verifier::opaque]
    pub open spec fn configured(self, owner: WindowOwner, width: i32, height: i32) -> ServerModel {
        if !self.clients.contains_key(owner.client_id) {
            self
        } else {
            let client = self.clients[owner.client_id];
            self.with_client(
                owner.client_id,
                client.after_configure_serial().emit(
                    owner.toplevel_id,
                    1,
                    events::toplevel_configure_payload(
                        client.next_configure_serial,
                        width,
                        height,
                        self.states(owner),
                    ),
                ),
            )
        }
    }

    /// The toplevel of a surface and the size that it has or is to have; none
    /// before it was shown and configured.
    pub open spec fn current_configuration(self, client_id: ClientId, surface_id: ObjectId) -> Option<
        (ObjectId, u32, u32),
    > {
        if !self.clients.contains_key(client_id)
            || !self.clients[client_id].toplevel_by_surface.contains_key(surface_id)
            || !self.clients[client_id].toplevels.contains_key(
            self.clients[client_id].toplevel_by_surface[surface_id],
        ) {
            None
        } else {
            let client = self.clients[client_id];
            let toplevel_id = client.toplevel_by_surface[surface_id];
            let toplevel = client.toplevels[toplevel_id];
            if !toplevel.mapped_once || !toplevel.initial_configure_sent {
                None
            } else if toplevel.maximized {
                Some((toplevel_id, self.frame.width, self.work_area_height()))
            } else {
                match client.shown_size(surface_id) {
                    Some((width, height)) => Some((toplevel_id, width, height)),
                    None => if toplevel.normal_width > 0 && toplevel.normal_height > 0 {
                        Some((toplevel_id, toplevel.normal_width, toplevel.normal_height))
                    } else {
                        None
                    },
                }
            }
        }
    }

    /// The state after the window of a surface has been told its states anew.
    pub open spec fn configured_current(self, target: (ClientId, ObjectId)) -> ServerModel {
        match self.current_configuration(target.0, target.1) {
            Some((toplevel_id, width, height)) => self.configured(
                WindowOwner { client_id: target.0, toplevel_id },
                signed_size(width),
                signed_size(height),
            ),
            None => self,
        }
    }

    /// The state with the keyboard focus moved: the window that loses it and
    /// the one that gains it are told.
    #[verifier::opaque]
    pub open spec fn focused(self, focus: Option<(ClientId, ObjectId)>) -> ServerModel {
        if self.focus == focus {
            self
        } else {
            let moved = ServerModel { focus, ..self };
            let lost = match self.focus {
                Some(previous) => moved.configured_current(previous),
                None => moved,
            };
            match focus {
                Some(next) => lost.configured_current(next),
                None => lost,
            }
        }
    }

    /// The state with a window raised above all others, and whether that
    /// changed the order.
    #[verifier::opaque]
    pub open spec fn raised(self, window_id: WindowId) -> (ServerModel, bool) {
        let (order, moved) = lifted(self.z_order, window_id);
        if moved.len() == 0 {
            (self, false)
        } else {
            (ServerModel { z_order: order, ..self }.announce_states(moved), true)
        }
    }

    /// The state with the focus moved, and the focused window raised.
    pub open spec fn focused_and_raised(self, focus: Option<(ClientId, ObjectId)>) -> ServerModel {
        let moved = self.focused(focus);
        match moved.window_of_focus(focus) {
            Some(window_id) => {
                let (lifted, changed) = moved.raised(window_id);
                if changed {
                    lifted.changed(DamageModel::Full)
                } else {
                    lifted
                }
            },
            None => moved,
        }
    }
}

/// Which windows a search considers.
pub enum Search<'a> {
    Any,
    Outside(&'a OrderedSet<WindowId>),
    Within(&'a OrderedSet<WindowId>),
    OwnedBy(ClientId),
}

impl<'a> Search<'a> {
    pub open spec fn allows(self, s: ServerModel, window_id: WindowId) -> bool {
        match self {
            Search::Any => true,
            Search::Outside(set) => !set@.contains(window_id),
            Search::Within(set) => set@.contains(window_id),
            Search::OwnedBy(client_id) => s.owned_by(client_id).contains(window_id),
        }
    }
}

impl Server {
    fn is_searched(&self, search: &Search<'_>, window_id: WindowId) -> (r: bool)
        ensures
            r == search.allows(self@, window_id),
    {
        match search {
            Search::Any => true,
            Search::Outside(set) => !set.contains(window_id),
            Search::Within(set) => set.contains(window_id),
            Search::OwnedBy(client_id) => match self.owner_of(window_id) {
                Some(owner) => owner.client_id.0 == client_id.0,
                None => false,
            },
        }
    }

    /// The highest focusable window that a search considers.
    pub(crate) fn topmost_focusable(&self, search: Search<'_>, Ghost(allowed): Ghost<
        Set<WindowId>,
    >) -> (r: Option<WindowId>)
        requires
            forall|w: WindowId| #[trigger]
                allowed.contains(w) == (self@.is_focusable(w) && search.allows(self@, w)),
        ensures
            r == topmost(self@.z_order, allowed),
    {
        let mut i: usize = self.z_order.len();
        proof {
            assert(self.z_order@.take(i as int) =~= self.z_order@);
        }
        while i > 0
            invariant
                i <= self.z_order@.len(),
                forall|w: WindowId| #[trigger]
                    allowed.contains(w) == (self@.is_focusable(w) && search.allows(self@, w)),
                topmost(self@.z_order, allowed) == topmost(self@.z_order.take(i as int), allowed),
            decreases i,
        {
            let window_id = self.z_order[i - 1];
            proof {
                assert(self.z_order@.take(i as int).last() == window_id);
                assert(self.z_order@.take(i as int).drop_last() =~= self.z_order@.take(i - 1));
            }
            if self.window_is_focusable(window_id) && self.is_searched(&search, window_id) {
                return Some(window_id);
            }
            i -= 1;
        }
        None
    }

    pub(crate) fn fallback_keyboard_focus(&self, excluded: &OrderedSet<WindowId>) -> (r: Option<
        (ClientId, ObjectId),
    >)
        ensures
            r == self@.fallback_focus(excluded@),
    {
        match self.topmost_focusable(
            Search::Outside(excluded),
            Ghost(self@.focusable().difference(excluded@)),
        ) {
            Some(window_id) => self.focus_target(window_id),
            None => None,
        }
    }

    /// The connection's window to focus.
    pub(crate) fn focusable_window_for_client(&self, client_id: ClientId) -> (r: Option<WindowId>)
        ensures
            r == self@.focusable_of(client_id),
    {
        if let Some((owner, surface)) = self.keyboard_focus {
            if owner.0 == client_id.0 {
                if let Some(window_id) = self.window_id_for_surface(owner, surface) {
                    if self.window_is_focusable(window_id) {
                        return Some(window_id);
                    }
                }
            }
        }
        self.topmost_focusable(
            Search::OwnedBy(client_id),
            Ghost(self@.focusable().intersect(self@.owned_by(client_id))),
        )
    }

    /// Whether a toplevel is being dragged.
    pub(crate) fn is_dragged(&self, owner: WindowOwner) -> (r: bool)
        ensures
            r == self@.is_dragged(owner),
    {
        match self.active_drag {
            Some(drag) => drag.client_id.0 == owner.client_id.0 && drag.toplevel_id.0
                == owner.toplevel_id.0,
            None => false,
        }
    }

    fn is_resized(&self, owner: WindowOwner) -> (r: bool)
        ensures
            r == self@.is_resized(owner),
    {
        match self.active_drag {
            Some(drag) => {
                let resize: bool = match drag.kind {
                    DragKind::Resize { edges } => true,
                    DragKind::Move => false,
                };
                resize && drag.client_id.0 == owner.client_id.0 && drag.toplevel_id.0
                    == owner.toplevel_id.0
            },
            None => false,
        }
    }

    fn composed_toplevel_states(&self, owner: WindowOwner) -> (states: u32)
        ensures
            states == self@.states(owner),
    {
        match self.toplevel(owner) {
            Some(toplevel) => {
                let mut states: u32 = 0;
                if toplevel.maximized {
                    states = states + TOPLEVEL_STATE_MAXIMIZED;
                }
                if same_focus(self.keyboard_focus, Some((owner.client_id, toplevel.surface_id))) {
                    states = states + TOPLEVEL_STATE_ACTIVATED;
                }
                if self.is_resized(owner) {
                    states = states + TOPLEVEL_STATE_RESIZING;
                }
                states
            },
            None => 0,
        }
    }

    /// Asks a toplevel to take a size.
    pub(crate) fn emit_toplevel_configure(&mut self, owner: WindowOwner, width: i32, height: i32)
        ensures
            final(self)@ == old(self)@.configured(owner, width, height),
    {
        proof {
            reveal(ServerModel::configured);
        }
        let states: u32 = self.composed_toplevel_states(owner);
        if let Some(client) = self.clients.get_mut(owner.client_id) {
            let serial: u32 = client.next_configure_serial();
            let _ = client.emit_xdg_toplevel_configure(
                owner.toplevel_id,
                serial,
                width,
                height,
                states,
            );
        }
    }

    fn current_configuration(&self, client_id: ClientId, surface_id: ObjectId) -> (r: Option<
        (ObjectId, u32, u32),
    >)
        ensures
            r == self@.current_configuration(client_id, surface_id),
    {
        let client = match self.clients.get(client_id) {
            Some(client) => client,
            None => {
                return None;
            },
        };
        let toplevel_id = match client.toplevel_by_surface.get(surface_id) {
            Some(id) => *id,
            None => {
                return None;
            },
        };
        let toplevel = match client.toplevels.get(toplevel_id) {
            Some(toplevel) => toplevel,
            None => {
                return None;
            },
        };
        if !toplevel.mapped_once || !toplevel.initial_configure_sent {
            return None;
        }
        if toplevel.maximized {
            return Some((toplevel_id, self.work_area_width(), self.work_area_height()));
        }
        match client.shown_size(surface_id) {
            Some((width, height)) => Some((toplevel_id, width, height)),
            None => if toplevel.normal_width > 0 && toplevel.normal_height > 0 {
                Some((toplevel_id, toplevel.normal_width, toplevel.normal_height))
            } else {
                None
            },
        }
    }

    fn emit_current_toplevel_configure(&mut self, target: (ClientId, ObjectId))
        ensures
            final(self)@ == old(self)@.configured_current(target),
    {
        if let Some((toplevel_id, width, height)) = self.current_configuration(target.0, target.1) {
            let max: u32 = i32::MAX as u32;
            let signed_width: i32 = if width <= max {
                width as i32
            } else {
                i32::MAX
            };
            let signed_height: i32 = if height <= max {
                height as i32
            } else {
                i32::MAX
            };
            self.emit_toplevel_configure(
                WindowOwner { client_id: target.0, toplevel_id },
                signed_width,
                signed_height,
            );
        }
    }

    /// Moves the keyboard focus.
    pub(crate) fn transition_keyboard_focus(&mut self, focus: Option<(ClientId, ObjectId)>)
        ensures
            final(self)@ == old(self)@.focused(focus),
    {
        proof {
            reveal(ServerModel::focused);
        }
        let previous = self.keyboard_focus;
        if same_focus(previous, focus) {
            return;
        }
        self.keyboard_focus = focus;
        if let Some(target) = previous {
            self.emit_current_toplevel_configure(target);
        }
        if let Some(target) = focus {
            self.emit_current_toplevel_configure(target);
        }
    }

    /// Moves the keyboard focus, and raises the focused window.
    pub fn set_keyboard_focus(&mut self, focus: Option<(ClientId, ObjectId)>)
        ensures
            final(self)@ == old(self)@.focused_and_raised(focus),
    {
        self.transition_keyboard_focus(focus);
        if let Some(window_id) = self.window_of_focus(focus) {
            if self.raise_window(window_id) {
                self.request_recomposition();
            }
        }
    }

    pub fn work_area_width(&self) -> (width: u32)
        ensures
            width == self@.frame.width,
    {
        self.framebuffer.width()
    }

    /// The height of the output without the taskbar.
    pub fn work_area_height(&self) -> (height: u32)
        ensures
            height == self@.work_area_height(),
    {
        self.framebuffer.height().saturating_sub(self.taskbar_height_px)
    }

    /// Moves a window to the end of the stacking order. Gives the windows
    /// whose place that changes.
    pub(crate) fn move_window_to_top(&mut self, window_id: WindowId) -> (moved: Vec<WindowId>)
        ensures
            moved@ == lifted(old(self)@.z_order, window_id).1,
            final(self)@ == (ServerModel {
                z_order: lifted(old(self)@.z_order, window_id).0,
                ..old(self)@
            }),
    {
        let mut moved: Vec<WindowId> = Vec::new();
        if let Some(rank) = self.rank_of(window_id) {
            let len: usize = self.z_order.len();
            if rank < len - 1 {
                let ghost order = self.z_order@;
                let mut i: usize = rank;
                while i < self.z_order.len()
                    invariant
                        rank <= i <= self.z_order@.len(),
                        self.z_order@ == order,
                        moved@ == order.subrange(rank as int, i as int),
                    decreases self.z_order@.len() - i,
                {
                    moved.push(self.z_order[i]);
                    i += 1;
                    proof {
                        assert(moved@ =~= order.subrange(rank as int, i as int));
                    }
                }
                let _ = self.z_order.remove(rank);
                self.z_order.push(window_id);
                proof {
                    assert(moved@ =~= order.skip(rank as int));
                }
            }
        }
        moved
    }

    /// Raises a window above all others, and says whether that changed the
    /// order.
    pub(crate) fn raise_window(&mut self, window_id: WindowId) -> (changed: bool)
        ensures
            (final(self)@, changed) == old(self)@.raised(window_id),
    {
        proof {
            reveal(ServerModel::raised);
        }
        proof {
            model::lemma_rank_of(self@.z_order, window_id, 0);
        }
        let moved = self.move_window_to_top(window_id);
        if moved.len() == 0 {
            return false;
        }
        self.broadcast_window_states(&moved);
        true
    }

    /// Takes windows out of the stacking order. Gives the windows that move
    /// down.
    pub(crate) fn remove_from_z_order(&mut self, removed: &OrderedSet<WindowId>) -> (dropped: Vec<
        WindowId,
    >)
        ensures
            dropped@ == dropped_by(old(self)@.z_order, removed@),
            final(self)@ == (ServerModel {
                z_order: without(old(self)@.z_order, removed@),
                ..old(self)@
            }),
    {
        let ghost order = self.z_order@;
        let mut kept: Vec<WindowId> = Vec::new();
        let mut dropped: Vec<WindowId> = Vec::new();
        let mut first: Option<usize> = None;
        let mut i: usize = 0;
        proof {
            assert(order.take(0) =~= Seq::<WindowId>::empty());
        }
        while i < self.z_order.len()
            invariant
                i <= self.z_order@.len(),
                self.z_order@ == order,
                kept@ == without(order.take(i as int), removed@),
                match first {
                    Some(rank) => rank < i && first_in(order, removed@, 0) == Some(rank as nat),
                    None => first_in(order, removed@, 0) == first_in(order, removed@, i as nat),
                },
                match first {
                    Some(rank) => dropped@ == kept@.skip(rank as int) && rank <= kept@.len(),
                    None => dropped@.len() == 0 && kept@.len() == i,
                },
            decreases self.z_order@.len() - i,
        {
            let window_id = self.z_order[i];
            proof {
                assert(order.take(i + 1).drop_last() =~= order.take(i as int));
                assert(order.take(i + 1).last() == window_id);
            }
            if removed.contains(window_id) {
                if first.is_none() {
                    first = Some(i);
                    proof {
                        assert(dropped@ =~= kept@.skip(i as int));
                    }
                }
            } else {
                let ghost before = kept@;
                kept.push(window_id);
                if first.is_some() {
                    dropped.push(window_id);
                    proof {
                        let rank = first->0;
                        assert(dropped@ =~= kept@.skip(rank as int));
                    }
                }
            }
            i += 1;
        }
        proof {
            assert(order.take(i as int) =~= order);
            if first is None {
                assert(dropped@ =~= Seq::<WindowId>::empty());
            }
        }
        self.z_order = kept;
        dropped
    }
}

} // verus!
