//! A shell's restore of the windows of a session.
//!
//! While a restore lasts, windows that come up stay hidden. The shell gives
//! each its place; when all have taken theirs, the restore ends and they are
//! shown together. A restore that fails or takes too long shows them as they
//! are.

use vstd::prelude::*;

use crate::arith;
use crate::arith::{max_u32, min_u32};
use crate::client::model::ToplevelModel;
use crate::events;
use crate::events::{RESTORE_ABORTED, RESTORE_BUSY, RESTORE_COMPLETED, RESTORE_TIMED_OUT};
use crate::ids::{ClientId, WindowId, WindowOwner};
use crate::ordered;
use crate::ordered::{OrderedMap, OrderedSet};
use crate::requests::{
    ShellManagerBeginRestore, ShellManagerEndRestore, ShellManagerPlaceRestoredWindow,
    MAX_SHELL_RESTORE_TIMEOUT_MS, RESTORE_WINDOW_ALL,
};
use crate::server::damage::DamageModel;
use crate::server::focus;
use crate::server::focus::Search;
use crate::server::model;
use crate::server::model::{RestoreModel, ServerModel};
use crate::server::{
    RestorePlacement, RestoreTransaction, Server, MIN_SHELL_RESTORE_TIMEOUT_MS,
};

verus! {

broadcast use {
    crate::client::model::lemma_emit_frame,
    crate::ordered::lemma_remove_insert,
    crate::ordered::lemma_insert_same,
};

/// The first of the listed windows, from `from` on, that is to have the given
/// rank.
pub open spec fn first_ranked(
    ids: Seq<WindowId>,
    placements: Map<WindowId, RestorePlacement>,
    rank: u32,
    from: nat,
) -> Option<WindowId>
    decreases ids.len() - from,
{
    if from >= ids.len() {
        None
    } else if placements[ids[from as int]].z_rank == rank {
        Some(ids[from as int])
    } else {
        first_ranked(ids, placements, rank, from + 1)
    }
}

/// The placed window of a rank.
pub open spec fn window_of_rank(placements: Map<WindowId, RestorePlacement>, rank: int) -> Option<
    WindowId,
> {
    first_ranked(ordered::ascending_keys(placements.dom()), placements, rank as u32, 0)
}

/// Whether every rank below the number of placements is taken.
pub open spec fn is_contiguous(placements: Map<WindowId, RestorePlacement>) -> bool {
    forall|rank: int|
        0 <= rank < placements.dom().len() ==> (#[trigger] window_of_rank(placements, rank)) is Some
}

/// The placed windows, the lowest rank first.
pub open spec fn ranked(placements: Map<WindowId, RestorePlacement>) -> Seq<WindowId> {
    Seq::new(placements.dom().len(), |rank: int| window_of_rank(placements, rank)->0)
}

/// Whether every placed window has taken its place.
pub open spec fn all_settled(placements: Map<WindowId, RestorePlacement>) -> bool {
    forall|w: WindowId| #[trigger] placements.contains_key(w) ==> placements[w].settled
}

/// Those of the first `n` windows of an order that had another place, or none,
/// in an order before.
pub open spec fn reranked(before: Seq<WindowId>, after: Seq<WindowId>, n: nat) -> Set<WindowId>
    decreases n,
{
    if n == 0 {
        Set::empty()
    } else {
        let fewer = reranked(before, after, (n - 1) as nat);
        if model::rank_of(before, after[n - 1], 0) == Some((n - 1) as nat) {
            fewer
        } else {
            fewer.insert(after[n - 1])
        }
    }
}

/// A set with one more window, if there is one.
pub open spec fn with_window(set: Set<WindowId>, window_id: Option<WindowId>) -> Set<WindowId> {
    match window_id {
        Some(w) => set.insert(w),
        None => set,
    }
}

/// The first choice that there is.
pub open spec fn or_else(a: Option<WindowId>, b: Option<WindowId>) -> Option<WindowId> {
    if a is Some {
        a
    } else {
        b
    }
}

/// A coordinate moved inside an extent.
pub open spec fn kept_inside(at: i32, extent: int) -> i32 {
    arith::min_int(arith::max_int(at as int, 0), extent) as i32
}

/// Where a window is to be, in what state, and what size it is to show.
#[derive(Copy, Clone, Debug, PartialEq, Eq, Structural)]
pub struct WindowPlace {
    pub x: i32,
    pub y: i32,
    pub width: u32,
    pub height: u32,
    pub minimized: bool,
    pub maximized: bool,
    pub expected_width: u32,
    pub expected_height: u32,
}

impl ServerModel {
    /// The state after the owner of a restore has been told how it ended.
    pub open spec fn restore_reported(
        self,
        owner: ClientId,
        restore_id: u32,
        status: u32,
        placed: u32,
    ) -> ServerModel {
        if self.clients.contains_key(owner) && self.clients[owner].shell_manager_id is Some {
            self.with_client(
                owner,
                self.clients[owner].emit(
                    self.clients[owner].shell_manager_id->0,
                    8,
                    events::restore_finished_payload(restore_id, status, placed),
                ),
            )
        } else {
            self
        }
    }

    /// The state after a shell has asked to begin a restore. There is one at a
    /// time; a second is told that the server is busy.
    pub open spec fn restore_begun(
        self,
        client_id: ClientId,
        request: ShellManagerBeginRestore,
    ) -> ServerModel {
        if !self.is_shell(client_id) || self.clients[client_id].shell_manager_id is None
            || request.restore_id == 0 {
            self
        } else if self.restore is Some {
            self.restore_reported(client_id, request.restore_id, RESTORE_BUSY, 0)
        } else {
            let timeout = arith::min_int(
                arith::max_int(request.timeout_ms as int, MIN_SHELL_RESTORE_TIMEOUT_MS as int),
                MAX_SHELL_RESTORE_TIMEOUT_MS as int,
            );
            ServerModel {
                restore: Some(
                    RestoreModel {
                        owner: client_id,
                        restore_id: request.restore_id,
                        deadline_ms: self.monotonic_ms.saturating_add(timeout as u64),
                        hidden: Set::empty(),
                        placements: Map::empty(),
                    },
                ),
                ..self
            }
        }
    }

    /// Whether a request to place a window is one that the running restore
    /// takes.
    pub open spec fn can_place(
        self,
        client_id: ClientId,
        request: ShellManagerPlaceRestoredWindow,
    ) -> bool {
        let window_id = WindowId(request.window_id);
        &&& self.restore is Some
        &&& (self.restore->0).owner == client_id
        &&& (self.restore->0).restore_id == request.restore_id
        &&& (self.restore->0).hidden.contains(window_id)
        &&& request.restore_id != 0
        &&& request.normal_width != 0
        &&& request.normal_height != 0
        &&& request.flags <= RESTORE_WINDOW_ALL
        &&& self.windows.contains_key(window_id)
        &&& self.has_toplevel(self.windows[window_id])
        &&& !self.is_shell(self.windows[window_id].client_id)
        &&& self.clients[self.windows[window_id].client_id].surfaces.contains_key(
            self.toplevel(self.windows[window_id]).surface_id,
        )
    }

    /// The place that a request gives a window, moved into the work area.
    pub open spec fn place_of(self, request: ShellManagerPlaceRestoredWindow) -> WindowPlace {
        let work_width = arith::max_int(self.frame.width as int, 1);
        let work_height = arith::max_int(self.work_area_height() as int, 1);
        let width = arith::min_int(request.normal_width as int, work_width);
        let height = arith::min_int(request.normal_height as int, work_height);
        let maximized = request.flags / 2 % 2 == 1;
        WindowPlace {
            x: kept_inside(request.normal_x, work_width - width),
            y: kept_inside(request.normal_y, work_height - height),
            width: width as u32,
            height: height as u32,
            minimized: request.flags % 2 == 1,
            maximized,
            expected_width: if maximized {
                work_width as u32
            } else {
                width as u32
            },
            expected_height: if maximized {
                work_height as u32
            } else {
                height as u32
            },
        }
    }

    /// The state with a toplevel in its place, and asked to take its size:
    /// first that of its normal place, then that of the work area if it is to
    /// be maximized.
    #[verifier::opaque]
    pub open spec fn put_in_place(self, owner: WindowOwner, place: WindowPlace) -> ServerModel {
        let placed = self.with_toplevel(
            owner,
            ToplevelModel {
                normal_x: place.x,
                normal_y: place.y,
                normal_width: place.width,
                normal_height: place.height,
                minimized: place.minimized,
                maximized: false,
                initial_configure_sent: true,
                restore_origin: None,
                x: place.x,
                y: place.y,
                ..self.toplevel(owner)
            },
        ).configured(owner, place.width as i32, place.height as i32);
        if place.maximized && placed.has_toplevel(owner) {
            placed.with_toplevel(
                owner,
                ToplevelModel {
                    maximized: true,
                    restore_origin: Some((place.x, place.y)),
                    x: 0,
                    y: 0,
                    ..placed.toplevel(owner)
                },
            ).configured(owner, place.expected_width as i32, place.expected_height as i32)
        } else {
            placed
        }
    }

    /// The placement that a request makes of a window.
    pub open spec fn placement_of(self, request: ShellManagerPlaceRestoredWindow) -> RestorePlacement {
        let owner = self.windows[WindowId(request.window_id)];
        let client = self.clients[owner.client_id];
        let surface_id = self.toplevel(owner).surface_id;
        let place = self.place_of(request);
        RestorePlacement {
            z_rank: request.z_rank,
            expected_width: place.expected_width,
            expected_height: place.expected_height,
            commit_count_at_place: client.surfaces[surface_id].commit_count,
            settled: client.shown_size(surface_id) == Some(
                (place.expected_width, place.expected_height),
            ),
        }
    }

    /// The state after a window has been given its place.
    #[verifier::opaque]
    pub open spec fn restore_placed(
        self,
        client_id: ClientId,
        request: ShellManagerPlaceRestoredWindow,
    ) -> ServerModel {
        let window_id = WindowId(request.window_id);
        if !self.can_place(client_id, request) {
            self
        } else {
            let moved = self.put_in_place(self.windows[window_id], self.place_of(request));
            ServerModel {
                restore: match moved.restore {
                    Some(r) => Some(
                        RestoreModel {
                            placements: r.placements.insert(window_id, self.placement_of(request)),
                            ..r
                        },
                    ),
                    None => None,
                },
                ..moved
            }.announce_state(window_id)
        }
    }

    /// The state with the listed windows no longer hidden.
    pub open spec fn unhidden(self, window_ids: Seq<WindowId>) -> ServerModel
        decreases window_ids.len(),
    {
        if window_ids.len() == 0 {
            self
        } else {
            let before = self.unhidden(window_ids.drop_last());
            let id = window_ids.last();
            if before.windows.contains_key(id) && before.has_toplevel(before.windows[id]) {
                let owner = before.windows[id];
                before.with_toplevel(
                    owner,
                    ToplevelModel { hidden_for_restore: false, ..before.toplevel(owner) },
                )
            } else {
                before
            }
        }
    }

    /// The highest focusable window.
    pub open spec fn topmost_focusable(self) -> Option<WindowId> {
        focus::topmost(self.z_order, self.focusable())
    }

    /// The window that gets the focus when a restore ends: the one that the
    /// shell asks for if it can have it, else one of the shell's, else the
    /// highest that was hidden, else the highest.
    pub open spec fn restored_focus(self, restore: RestoreModel, asked: u32) -> Option<WindowId> {
        if asked != 0 && restore.placements.contains_key(WindowId(asked)) && self.is_focusable(
            WindowId(asked),
        ) {
            Some(WindowId(asked))
        } else {
            or_else(
                self.focusable_of(restore.owner),
                or_else(
                    focus::topmost(self.z_order, self.focusable().intersect(restore.hidden)),
                    self.topmost_focusable(),
                ),
            )
        }
    }

    /// The state after a restore has ended well.
    #[verifier::opaque]
    pub open spec fn restore_completed(self, restore: RestoreModel, asked: u32) -> ServerModel {
        let over = ServerModel { restore: None, ..self };
        let focus_before = over.window_of_focus(over.focus);
        let stacked = ServerModel {
            z_order: focus::without(over.z_order, restore.placements.dom()) + ranked(
                restore.placements,
            ),
            ..over
        };
        let shown = stacked.unhidden(ordered::ascending_keys(restore.hidden));
        let focus = shown.restored_focus(restore, asked);
        let moved = shown.focused(
            match focus {
                Some(w) => shown.focus_target(w),
                None => None,
            },
        );
        let lifted = ServerModel {
            z_order: match focus {
                Some(w) => focus::lifted(moved.z_order, w).0,
                None => moved.z_order,
            },
            ..moved
        };
        let drawn = lifted.changed(DamageModel::Full);
        let different = with_window(
            with_window(
                restore.hidden.union(
                    reranked(self.z_order, drawn.z_order, drawn.z_order.len()),
                ),
                focus_before,
            ),
            focus,
        );
        drawn.announce_states(ordered::ascending_keys(different)).announce_focus(
            focus,
        ).restore_reported(
            restore.owner,
            restore.restore_id,
            RESTORE_COMPLETED,
            restore.placements.dom().len() as u32,
        )
    }

    /// The state after a restore has been given up, if there is one.
    #[verifier::opaque]
    pub open spec fn restore_aborted(self, status: u32, notify_owner: bool) -> ServerModel {
        if self.restore is None {
            self
        } else {
            let restore = self.restore->0;
            let hidden = ordered::ascending_keys(restore.hidden);
            let shown = ServerModel { restore: None, ..self }.unhidden(hidden);
            let next = or_else(shown.focusable_of(restore.owner), shown.topmost_focusable());
            let moved = if shown.focus is None && next is Some {
                shown.focused(shown.focus_target(next->0))
            } else {
                shown
            };
            let told = moved.changed(DamageModel::Full).announce_states(hidden);
            let focused = told.announce_focus(told.window_of_focus(told.focus));
            if notify_owner {
                focused.restore_reported(
                    restore.owner,
                    restore.restore_id,
                    status,
                    restore.placements.dom().len() as u32,
                )
            } else {
                focused
            }
        }
    }

    /// The state after a shell has asked to end its restore. It goes on as
    /// long as some window has not taken its place, and is given up if the
    /// ranks leave a gap.
    pub open spec fn restore_ended(
        self,
        client_id: ClientId,
        request: ShellManagerEndRestore,
    ) -> ServerModel {
        if self.restore is None || (self.restore->0).owner != client_id || (
        self.restore->0).restore_id != request.restore_id || request.restore_id == 0 {
            self
        } else {
            let restore = self.restore->0;
            if !all_settled(restore.placements) {
                self
            } else if !is_contiguous(restore.placements) {
                self.restore_aborted(RESTORE_ABORTED, true)
            } else {
                self.restore_completed(restore, request.focus_window_id)
            }
        }
    }

    /// The state at a later time: a restore that has taken too long is given
    /// up.
    pub open spec fn at_time(self, now_ms: u64) -> ServerModel {
        let later = ServerModel {
            monotonic_ms: arith::max_int(self.monotonic_ms as int, now_ms as int) as u64,
            ..self
        };
        if later.is_overdue() {
            later.restore_aborted(RESTORE_TIMED_OUT, true)
        } else {
            later
        }
    }

    pub open spec fn is_overdue(self) -> bool {
        self.restore is Some && (self.restore->0).deadline_ms <= self.monotonic_ms
    }
}

/// The first choice that there is.
fn first_of(a: Option<WindowId>, b: Option<WindowId>) -> (r: Option<WindowId>)
    ensures
        r == or_else(a, b),
{
    match a {
        Some(w) => Some(w),
        None => b,
    }
}

/// Whether every placed window has taken its place.
fn are_settled(placements: &OrderedMap<WindowId, RestorePlacement>) -> (r: bool)
    ensures
        r == all_settled(placements@),
{
    let ids = placements.keys();
    let mut i: usize = 0;
    while i < ids.len()
        invariant
            i <= ids@.len(),
            ids@.to_set() == placements@.dom(),
            forall|j: int|
                #![trigger ids@[j]]
                0 <= j < i ==> placements@[ids@[j]].settled,
        decreases ids@.len() - i,
    {
        let id = ids[i];
        proof {
            assert(ids@.to_set().contains(ids@[i as int]));
        }
        if let Some(placement) = placements.get(id) {
            if !placement.settled {
                proof {
                    assert(placements@.contains_key(id));
                }
                return false;
            }
        }
        i += 1;
    }
    proof {
        assert forall|w: WindowId| #[trigger]
            placements@.contains_key(w) implies placements@[w].settled by {
            assert(ids@.to_set().contains(w));
            let j = choose|j: int| 0 <= j < ids@.len() && ids@[j] == w;
            assert(ids@[j] == w);
        }
    }
    true
}

/// The placed windows, the lowest rank first, if the ranks leave no gap.
fn rank_placements(placements: &OrderedMap<WindowId, RestorePlacement>) -> (r: Option<
    Vec<WindowId>,
>)
    ensures
        match r {
            Some(order) => is_contiguous(placements@) && order@ == ranked(placements@),
            None => !is_contiguous(placements@),
        },
{
    let ids = placements.keys();
    let count: usize = ids.len();
    let mut order: Vec<WindowId> = Vec::new();
    let mut rank: usize = 0;
    while rank < count
        invariant
            rank <= count,
            count == ids@.len(),
            ids@ == ordered::ascending_keys(placements@.dom()),
            ids@.to_set() == placements@.dom(),
            ids@.len() == placements@.dom().len(),
            order@.len() == rank,
            forall|k: int|
                0 <= k < rank ==> (#[trigger] window_of_rank(placements@, k)) == Some(order@[k]),
        decreases count - rank,
    {
        let mut found: Option<WindowId> = None;
        let mut i: usize = 0;
        while i < ids.len() && found.is_none()
            invariant
                i <= ids@.len(),
                ids@ == ordered::ascending_keys(placements@.dom()),
                ids@.to_set() == placements@.dom(),
                match found {
                    Some(w) => window_of_rank(placements@, rank as int) == Some(w),
                    None => window_of_rank(placements@, rank as int) == first_ranked(
                        ids@,
                        placements@,
                        rank as u32,
                        i as nat,
                    ),
                },
            decreases ids@.len() - i,
        {
            proof {
                assert(ids@.to_set().contains(ids@[i as int]));
            }
            if let Some(placement) = placements.get(ids[i]) {
                if placement.z_rank == rank as u32 {
                    found = Some(ids[i]);
                }
            }
            i += 1;
        }
        match found {
            Some(w) => {
                order.push(w);
            },
            None => {
                proof {
                    assert(window_of_rank(placements@, rank as int) is None);
                }
                return None;
            },
        }
        rank += 1;
    }
    proof {
        assert forall|k: int| 0 <= k < placements@.dom().len() implies (#[trigger] window_of_rank(
            placements@,
            k,
        )) is Some by {
            assert(window_of_rank(placements@, k) == Some(order@[k]));
        }
        assert forall|k: int| 0 <= k < order@.len() implies order@[k] == ranked(placements@)[k] by {
            assert(window_of_rank(placements@, k) == Some(order@[k]));
        }
        assert(order@ =~= ranked(placements@));
    }
    Some(order)
}

/// The place of a window in an order.
fn rank_in(order: &Vec<WindowId>, window_id: WindowId) -> (r: Option<usize>)
    ensures
        match r {
            Some(rank) => model::rank_of(order@, window_id, 0) == Some(rank as nat),
            None => model::rank_of(order@, window_id, 0) is None,
        },
{
    let mut i: usize = 0;
    while i < order.len()
        invariant
            i <= order@.len(),
            model::rank_of(order@, window_id, 0) == model::rank_of(order@, window_id, i as nat),
        decreases order@.len() - i,
    {
        if order[i].0 == window_id.0 {
            return Some(i);
        }
        i += 1;
    }
    None
}

impl Server {
    fn emit_restore_finished(&mut self, owner: ClientId, restore_id: u32, status: u32, placed: u32)
        ensures
            final(self)@ == old(self)@.restore_reported(owner, restore_id, status, placed),
    {
        if let Some(client) = self.clients.get_mut(owner) {
            if let Some(manager) = client.shell_manager_id {
                let _ = client.emit_restore_finished(manager, restore_id, status, placed);
            }
        }
    }

    /// Begins a restore.
    pub(crate) fn begin_restore(&mut self, client_id: ClientId, request: ShellManagerBeginRestore)
        ensures
            final(self)@ == old(self)@.restore_begun(client_id, request),
    {
        let authenticated: bool = match self.clients.get(client_id) {
            Some(client) => client.is_shell() && client.shell_manager_id.is_some(),
            None => false,
        };
        if !authenticated || request.restore_id == 0 {
            return;
        }
        if self.restore_transaction.is_some() {
            self.emit_restore_finished(client_id, request.restore_id, RESTORE_BUSY, 0);
            return;
        }
        let timeout: u32 = min_u32(
            max_u32(request.timeout_ms, MIN_SHELL_RESTORE_TIMEOUT_MS),
            MAX_SHELL_RESTORE_TIMEOUT_MS,
        );
        self.restore_transaction = Some(
            RestoreTransaction {
                owner: client_id,
                restore_id: request.restore_id,
                deadline_ms: self.monotonic_ms.saturating_add(timeout as u64),
                hidden: OrderedSet::new(),
                placements: OrderedMap::new(),
            },
        );
    }

    fn is_placeable(&self, client_id: ClientId, request: &ShellManagerPlaceRestoredWindow) -> (r:
        bool)
        ensures
            r == self@.can_place(client_id, *request),
    {
        let window_id = WindowId(request.window_id);
        let running: bool = match &self.restore_transaction {
            Some(restore) => restore.owner.0 == client_id.0 && restore.restore_id
                == request.restore_id && restore.hidden.contains(window_id),
            None => false,
        };
        if !running || request.restore_id == 0 || request.normal_width == 0
            || request.normal_height == 0 || request.flags > RESTORE_WINDOW_ALL {
            return false;
        }
        match self.owner_of(window_id) {
            Some(owner) => match self.clients.get(owner.client_id) {
                Some(client) => !client.is_shell() && match client.toplevels.get(
                    owner.toplevel_id,
                ) {
                    Some(toplevel) => client.surfaces.contains_key(toplevel.surface_id),
                    None => false,
                },
                None => false,
            },
            None => false,
        }
    }

    fn place_of(&self, request: &ShellManagerPlaceRestoredWindow) -> (place: WindowPlace)
        requires
            request.normal_width > 0,
            request.normal_height > 0,
        ensures
            place == self@.place_of(*request),
    {
        let work_width: u32 = max_u32(self.work_area_width(), 1);
        let work_height: u32 = max_u32(self.work_area_height(), 1);
        let width: u32 = min_u32(request.normal_width, work_width);
        let height: u32 = min_u32(request.normal_height, work_height);
        let maximized: bool = request.flags / 2 % 2 == 1;
        WindowPlace {
            x: keep_inside(request.normal_x, work_width - width),
            y: keep_inside(request.normal_y, work_height - height),
            width,
            height,
            minimized: request.flags % 2 == 1,
            maximized,
            expected_width: if maximized {
                work_width
            } else {
                width
            },
            expected_height: if maximized {
                work_height
            } else {
                height
            },
        }
    }

    /// How often a toplevel's surface was committed, and whether it shows the
    /// size of a place.
    fn shown_now(&self, owner: WindowOwner, place: &WindowPlace) -> (r: (u32, bool))
        requires
            self@.has_toplevel(owner),
            self@.clients[owner.client_id].surfaces.contains_key(self@.toplevel(owner).surface_id),
        ensures
            r.0 == self@.clients[owner.client_id].surfaces[self@.toplevel(
                owner,
            ).surface_id].commit_count,
            r.1 == (self@.clients[owner.client_id].shown_size(self@.toplevel(owner).surface_id)
                == Some((place.expected_width, place.expected_height))),
    {
        if let Some(client) = self.clients.get(owner.client_id) {
            if let Some(toplevel) = client.toplevels.get(owner.toplevel_id) {
                if let Some(surface) = client.surfaces.get(toplevel.surface_id) {
                    let settled: bool = match client.shown_size(toplevel.surface_id) {
                        Some((width, height)) => width == place.expected_width && height
                            == place.expected_height,
                        None => false,
                    };
                    return (surface.commit_count, settled);
                }
            }
        }
        (0, false)
    }

    /// Puts a toplevel in its place, and asks it to take its size.
    fn put_in_place(&mut self, owner: WindowOwner, place: &WindowPlace)
        requires
            old(self)@.has_toplevel(owner),
        ensures
            final(self)@ == old(self)@.put_in_place(owner, *place),
    {
        proof {
            reveal(ServerModel::put_in_place);
        }
        if let Some(toplevel) = self.toplevel_mut(owner) {
            toplevel.normal_x = place.x;
            toplevel.normal_y = place.y;
            toplevel.normal_width = place.width;
            toplevel.normal_height = place.height;
            toplevel.minimized = place.minimized;
            toplevel.maximized = false;
            toplevel.initial_configure_sent = true;
            toplevel.restore_origin = None;
            toplevel.x = place.x;
            toplevel.y = place.y;
        }
        self.emit_toplevel_configure(owner, place.width as i32, place.height as i32);
        if place.maximized {
            match self.toplevel_mut(owner) {
                Some(toplevel) => {
                    toplevel.maximized = true;
                    toplevel.restore_origin = Some((place.x, place.y));
                    toplevel.x = 0;
                    toplevel.y = 0;
                },
                None => {
                    return;
                },
            }
            self.emit_toplevel_configure(
                owner,
                place.expected_width as i32,
                place.expected_height as i32,
            );
        }
    }

    /// Gives a hidden window its place.
    pub(crate) fn place_restored_window(
        &mut self,
        client_id: ClientId,
        request: ShellManagerPlaceRestoredWindow,
    )
        ensures
            final(self)@ == old(self)@.restore_placed(client_id, request),
    {
        proof {
            reveal(ServerModel::restore_placed);
        }
        let ghost start = self@;
        if !self.is_placeable(client_id, &request) {
            return;
        }
        let window_id = WindowId(request.window_id);
        let owner = match self.owner_of(window_id) {
            Some(owner) => owner,
            None => {
                return;
            },
        };
        let place = self.place_of(&request);
        let (commit_count, settled) = self.shown_now(owner, &place);
        self.put_in_place(owner, &place);
        if let Some(restore) = &mut self.restore_transaction {
            let _ = restore.placements.insert(
                window_id,
                RestorePlacement {
                    z_rank: request.z_rank,
                    expected_width: place.expected_width,
                    expected_height: place.expected_height,
                    commit_count_at_place: commit_count,
                    settled,
                },
            );
        }
        self.broadcast_window_state_changed(window_id);
    }

    /// Shows the listed windows.
    fn unhide_windows(&mut self, window_ids: &Vec<WindowId>)
        ensures
            final(self)@ == old(self)@.unhidden(window_ids@),
    {
        let mut i: usize = 0;
        proof {
            assert(window_ids@.take(0) =~= Seq::<WindowId>::empty());
        }
        while i < window_ids.len()
            invariant
                i <= window_ids@.len(),
                self@ == old(self)@.unhidden(window_ids@.take(i as int)),
            decreases window_ids@.len() - i,
        {
            proof {
                assert(window_ids@.take(i + 1).drop_last() =~= window_ids@.take(i as int));
                assert(window_ids@.take(i + 1).last() == window_ids@[i as int]);
            }
            if let Some(owner) = self.owner_of(window_ids[i]) {
                if let Some(toplevel) = self.toplevel_mut(owner) {
                    toplevel.hidden_for_restore = false;
                }
            }
            i += 1;
        }
        proof {
            assert(window_ids@.take(i as int) =~= window_ids@);
        }
    }

    fn restored_focus(&self, restore: &RestoreTransaction, asked: u32) -> (r: Option<WindowId>)
        ensures
            r == self@.restored_focus(restore@, asked),
    {
        if asked != 0 && restore.placements.contains_key(WindowId(asked))
            && self.window_is_focusable(WindowId(asked)) {
            return Some(WindowId(asked));
        }
        first_of(
            self.focusable_window_for_client(restore.owner),
            first_of(
                self.topmost_focusable(
                    Search::Within(&restore.hidden),
                    Ghost(self@.focusable().intersect(restore.hidden@)),
                ),
                self.topmost_focusable(Search::Any, Ghost(self@.focusable())),
            ),
        )
    }

    /// Ends a restore well.
    fn complete_restore(&mut self, restore: RestoreTransaction, order: &Vec<WindowId>, asked: u32)
        requires
            old(self)@.restore is None,
            order@ == ranked(restore@.placements),
        ensures
            final(self)@ == old(self)@.restore_completed(restore@, asked),
    {
        proof {
            reveal(ServerModel::restore_completed);
        }
        let before: Vec<WindowId> = self.z_order.clone();
        let ghost start = self@;
        proof {
            assert(before@ =~= start.z_order);
        }
        let focus_before = self.window_of_focus(self.keyboard_focus);
        let placed_ids = restore.placements.keys();
        let mut placed: OrderedSet<WindowId> = OrderedSet::new();
        let mut i: usize = 0;
        while i < placed_ids.len()
            invariant
                i <= placed_ids@.len(),
                placed@ == placed_ids@.take(i as int).to_set(),
            decreases placed_ids@.len() - i,
        {
            let _ = placed.insert(placed_ids[i]);
            proof {
                lemma_take_to_set(placed_ids@, i as int);
            }
            i += 1;
        }
        proof {
            assert(placed_ids@.take(i as int) =~= placed_ids@);
        }
        let _ = self.remove_from_z_order(&placed);
        let ghost kept = self.z_order@;
        let mut i: usize = 0;
        while i < order.len()
            invariant
                i <= order@.len(),
                self@ == (ServerModel { z_order: kept + order@.take(i as int), ..start }),
            decreases order@.len() - i,
        {
            self.z_order.push(order[i]);
            i += 1;
            proof {
                assert(self.z_order@ =~= kept + order@.take(i as int));
            }
        }
        proof {
            assert(order@.take(i as int) =~= order@);
        }
        let hidden = restore.hidden.keys();
        self.unhide_windows(&hidden);
        let focus = self.restored_focus(&restore, asked);
        let target = match focus {
            Some(w) => self.focus_target(w),
            None => None,
        };
        self.transition_keyboard_focus(target);
        if let Some(w) = focus {
            let _ = self.move_window_to_top(w);
        }
        self.request_recomposition();
        let placed_count: u32 = restore.placements.len() as u32;
        let owner = restore.owner;
        let restore_id: u32 = restore.restore_id;
        let ghost hidden_set = restore@.hidden;
        let mut different = restore.hidden;
        let mut i: usize = 0;
        proof {
            assert(hidden_set.union(Set::<WindowId>::empty()) =~= hidden_set);
        }
        while i < self.z_order.len()
            invariant
                i <= self.z_order@.len(),
                before@ == start.z_order,
                different@ == hidden_set.union(reranked(start.z_order, self.z_order@, i as nat)),
            decreases self.z_order@.len() - i,
        {
            let w = self.z_order[i];
            let same: bool = match rank_in(&before, w) {
                Some(rank) => rank == i,
                None => false,
            };
            if !same {
                let _ = different.insert(w);
            }
            proof {
                let fewer = reranked(start.z_order, self.z_order@, i as nat);
                assert(hidden_set.union(fewer).insert(w) =~= hidden_set.union(fewer.insert(w)));
            }
            i += 1;
        }
        if let Some(w) = focus_before {
            let _ = different.insert(w);
        }
        if let Some(w) = focus {
            let _ = different.insert(w);
        }
        let ids = different.keys();
        self.broadcast_window_states(&ids);
        self.broadcast_window_focused(focus);
        self.emit_restore_finished(owner, restore_id, RESTORE_COMPLETED, placed_count);
    }

    /// Gives a restore up, and says whether there was one.
    pub(crate) fn abort_restore(&mut self, status: u32, notify_owner: bool) -> (r: bool)
        ensures
            r == (old(self)@.restore is Some),
            final(self)@ == old(self)@.restore_aborted(status, notify_owner),
    {
        proof {
            reveal(ServerModel::restore_aborted);
        }
        let restore = match self.restore_transaction.take() {
            Some(restore) => restore,
            None => {
                return false;
            },
        };
        let hidden = restore.hidden.keys();
        self.unhide_windows(&hidden);
        if self.keyboard_focus.is_none() {
            let next = first_of(
                self.focusable_window_for_client(restore.owner),
                self.topmost_focusable(Search::Any, Ghost(self@.focusable())),
            );
            if let Some(w) = next {
                let target = self.focus_target(w);
                self.transition_keyboard_focus(target);
            }
        }
        self.request_recomposition();
        self.broadcast_window_states(&hidden);
        let focused = self.window_of_focus(self.keyboard_focus);
        self.broadcast_window_focused(focused);
        if notify_owner {
            let placed: u32 = restore.placements.len() as u32;
            self.emit_restore_finished(restore.owner, restore.restore_id, status, placed);
        }
        true
    }

    /// Ends a restore, if every window has taken its place.
    pub(crate) fn end_restore(&mut self, client_id: ClientId, request: ShellManagerEndRestore)
        ensures
            final(self)@ == old(self)@.restore_ended(client_id, request),
    {
        if request.restore_id == 0 {
            return;
        }
        let order = match &self.restore_transaction {
            Some(restore) => {
                if restore.owner.0 != client_id.0 || restore.restore_id != request.restore_id {
                    return;
                }
                if !are_settled(&restore.placements) {
                    return;
                }
                rank_placements(&restore.placements)
            },
            None => {
                return;
            },
        };
        match order {
            Some(order) => {
                if let Some(restore) = self.restore_transaction.take() {
                    proof {
                        self@.lemma_completed_without(old(self)@, restore@, request.focus_window_id);
                    }
                    self.complete_restore(restore, &order, request.focus_window_id);
                }
            },
            None => {
                let _ = self.abort_restore(RESTORE_ABORTED, true);
            },
        }
    }

    /// Moves the clock on, and says whether that ended a restore.
    pub fn advance_monotonic_time(&mut self, now_ms: u64) -> (expired: bool)
        ensures
            final(self)@ == old(self)@.at_time(now_ms),
            expired == (ServerModel {
                monotonic_ms: arith::max_int(
                    old(self)@.monotonic_ms as int,
                    now_ms as int,
                ) as u64,
                ..old(self)@
            }).is_overdue(),
    {
        if now_ms > self.monotonic_ms {
            self.monotonic_ms = now_ms;
        }
        let overdue: bool = match &self.restore_transaction {
            Some(restore) => restore.deadline_ms <= self.monotonic_ms,
            None => false,
        };
        if overdue {
            self.abort_restore(RESTORE_TIMED_OUT, true)
        } else {
            false
        }
    }

    /// How long the running restore may still take.
    pub fn restore_poll_timeout_ms(&self) -> (r: Option<u64>)
        ensures
            r == match self@.restore {
                Some(restore) => Some(restore.deadline_ms.saturating_sub(self@.monotonic_ms)),
                None => None,
            },
    {
        match &self.restore_transaction {
            Some(restore) => Some(restore.deadline_ms.saturating_sub(self.monotonic_ms)),
            None => None,
        }
    }

    pub fn restore_transaction_owner(&self) -> (r: Option<ClientId>)
        ensures
            r == match self@.restore {
                Some(restore) => Some(restore.owner),
                None => None,
            },
    {
        match &self.restore_transaction {
            Some(restore) => Some(restore.owner),
            None => None,
        }
    }
}

impl ServerModel {
    /// A restore ends the same whether or not it was taken out before.
    proof fn lemma_completed_without(self, before: ServerModel, restore: RestoreModel, asked: u32)
        requires
            self == (ServerModel { restore: None, ..before }),
        ensures
            self.restore_completed(restore, asked) == before.restore_completed(restore, asked),
    {
        reveal(ServerModel::restore_completed);
    }
}

proof fn lemma_take_to_set(s: Seq<WindowId>, i: int)
    requires
        0 <= i < s.len(),
    ensures
        s.take(i + 1).to_set() == s.take(i).to_set().insert(s[i]),
{
    let more = s.take(i + 1);
    let fewer = s.take(i);
    assert forall|w: WindowId| more.to_set().contains(w) == fewer.to_set().insert(s[i]).contains(
        w,
    ) by {
        if more.contains(w) {
            let j = choose|j: int| 0 <= j < more.len() && more[j] == w;
            if j < i {
                assert(fewer[j] == w);
            }
        }
        if fewer.contains(w) {
            let j = choose|j: int| 0 <= j < fewer.len() && fewer[j] == w;
            assert(more[j] == w);
        }
        assert(more[i] == s[i]);
    }
    assert(more.to_set() =~= fewer.to_set().insert(s[i]));
}

/// A coordinate moved inside an extent.
fn keep_inside(at: i32, extent: u32) -> (r: i32)
    ensures
        r == kept_inside(at, extent as int),
{
    if at <= 0 {
        0
    } else if at as u32 <= extent {
        at
    } else {
        extent as i32
    }
}

} // verus!
