//! Fences, the clock, new connections, and surfaces that end.

use vstd::prelude::*;

use crate::caps::{Cap, CapSet};
use crate::client::endings;
use crate::ids::{ClientId, ObjectId};
use crate::objects::Interface;
use crate::server::coverage;
use crate::server::coverage::asks_surface;
use crate::server::damage::DamageModel;
use crate::server::desk;
use crate::server::model::ServerModel;
use crate::server::promises;
use crate::server::telling;
use crate::server::telling::{asks_manager, is_up_to_date, only_shows, only_tells};
use crate::wire;

verus! {

// Fences.

/// A shell that says that the desktop is ready gets a fence, the first time: it
/// is queued behind the others, under the next number, which is never zero.
pub proof fn law_ready_shell_gets_one_fence(
    s: ServerModel,
    client_id: ClientId,
    message: Seq<u8>,
    granted: bool,
)
    requires
        s.is_sound(),
        asks_manager(s, client_id, message, 8, 0),
        s.is_shell(client_id),
    ensures
        ({
            let after = s.dispatched(client_id, message, granted).0;
            let first = !s.fence_clients.contains(client_id);
            &&& after.fence_clients.contains(client_id)
            &&& !first ==> after.fences == s.fences && after.next_fence_serial
                == s.next_fence_serial
            &&& first ==> {
                &&& after.fences.len() == s.fences.len() + 1
                &&& after.fences.drop_last() == s.fences
                &&& after.fences.last() == (client_id, s.next_fence_serial)
                &&& s.next_fence_serial < u32::MAX ==> after.next_fence_serial
                    == s.next_fence_serial + 1
                &&& s.next_fence_serial == u32::MAX ==> after.next_fence_serial == 1
            }
            &&& after.frame == s.frame
            &&& after.focus == s.focus
            &&& after.z_order == s.z_order
        }),
{
    let taken = telling::lemma_asks_manager(s, client_id, message, 8, 0, granted);
    reveal(ServerModel::shell_followed);
    assert(taken.clients.dom().contains(client_id));
    assert(telling::is_told(s.clients[client_id], taken.clients[client_id]));
    assert(taken.is_shell(client_id));
    let after = s.dispatched(client_id, message, granted).0;
    if !s.fence_clients.contains(client_id) {
        assert(after.fences.drop_last() =~= s.fences);
    }
}

/// The fence that is taken is the first whose shell is still there; it and all
/// before it leave the queue. None is taken only if no shell of the queue is
/// there.
pub proof fn law_first_living_fence_is_taken(s: ServerModel, fences: Seq<(ClientId, u32)>)
    ensures
        ({
            let (serial, rest) = s.next_fence(fences);
            &&& serial is Some ==> exists|i: int|
                0 <= i < fences.len() && #[trigger] s.is_shell(fences[i].0) && serial == Some(
                    fences[i].1,
                ) && rest == fences.skip(i + 1) && forall|j: int|
                    0 <= j < i ==> !s.is_shell((#[trigger] fences[j]).0)
            &&& serial is None ==> rest.len() == 0 && forall|j: int|
                0 <= j < fences.len() ==> !s.is_shell((#[trigger] fences[j]).0)
        }),
    decreases fences.len(),
{
    if fences.len() > 0 {
        if s.is_shell(fences[0].0) {
            assert(s.next_fence(fences).1 == fences.skip(1));
        } else {
            let fewer = fences.skip(1);
            law_first_living_fence_is_taken(s, fewer);
            let (serial, rest) = s.next_fence(fences);
            assert forall|j: int| 0 < j < fences.len() implies fewer[j - 1] == #[trigger] fences[j] by {}
            if serial is Some {
                let i = choose|i: int|
                    0 <= i < fewer.len() && #[trigger] s.is_shell(fewer[i].0) && serial == Some(
                        fewer[i].1,
                    ) && rest == fewer.skip(i + 1) && forall|j: int|
                        0 <= j < i ==> !s.is_shell((#[trigger] fewer[j]).0);
                assert(fences[i + 1] == fewer[i]);
                assert(s.is_shell(fences[i + 1].0));
                assert(fewer.skip(i + 1) =~= fences.skip(i + 1 + 1));
                assert forall|j: int| 0 <= j < i + 1 implies !s.is_shell((#[trigger] fences[j]).0) by {
                    if j > 0 {
                        assert(fewer[j - 1] == fences[j]);
                    }
                }
            } else {
                assert forall|j: int| 0 <= j < fences.len() implies !s.is_shell(
                    (#[trigger] fences[j]).0,
                ) by {
                    if j > 0 {
                        assert(fewer[j - 1] == fences[j]);
                    }
                }
            }
        }
    }
}

// The clock.

/// Time does not go back; and while no restore is overdue, nothing else comes of
/// it.
pub proof fn law_time_goes_forward(s: ServerModel, now_ms: u64)
    requires
        s.restore is Some ==> now_ms < (s.restore->0).deadline_ms && s.monotonic_ms < (
        s.restore->0).deadline_ms,
    ensures
        ({
            let after = s.at_time(now_ms);
            &&& after.monotonic_ms >= s.monotonic_ms
            &&& after.monotonic_ms >= now_ms
            &&& after.monotonic_ms == s.monotonic_ms || after.monotonic_ms == now_ms
            &&& after == (ServerModel { monotonic_ms: after.monotonic_ms, ..s })
        }),
{
}

// New connections.

/// A new connection has the next number, the given capabilities and process, and
/// holds nothing but the object that every connection begins with. The others
/// stay as they are, and nothing is seen of it.
pub proof fn law_new_connection_holds_nothing(s: ServerModel, caps: CapSet, peer_pid: u32)
    requires
        s.next_client_id < u32::MAX,
    ensures
        ({
            let id = ClientId(s.next_client_id);
            let after = s.accepted(caps, peer_pid);
            let c = after.clients[id];
            &&& after.clients == s.clients.insert(id, c)
            &&& after.next_client_id == s.next_client_id + 1
            &&& after == (ServerModel {
                clients: after.clients,
                next_client_id: after.next_client_id,
                ..s
            })
            &&& c.id == id
            &&& c.capabilities == caps
            &&& c.peer_pid == peer_pid
            &&& forall|o: ObjectId| #[trigger] c.objects.contains_key(o) == (o == ObjectId(1))
            &&& c.is_object(ObjectId(1), Interface::Display)
            &&& c.surfaces.dom() == Set::<ObjectId>::empty()
            &&& c.buffers.dom() == Set::<ObjectId>::empty()
            &&& c.pools.dom() == Set::<ObjectId>::empty()
            &&& c.toplevels.dom() == Set::<ObjectId>::empty()
            &&& c.pool_bytes == 0
            &&& c.toplevel_metadata_bytes == 0
            &&& c.events.len() == 0
            &&& !c.overflowed
            &&& c.shell_manager_id is None
            &&& c.pointer_id is None
            &&& c.keyboard_id is None
        }),
{
}

/// A connection is accepted if and only if there is a place for it: shells have
/// places of their own, and so have all others.
pub proof fn law_connection_is_accepted_if_there_is_room(
    s: ServerModel,
    caps: CapSet,
    shells: int,
    all: int,
)
    requires
        s.limits.clients < usize::MAX,
        s.limits.shell_clients <= s.limits.clients,
        shells == s.shells().len(),
        all == s.clients.dom().len(),
        shells <= all,
    ensures
        s.accept_fault(caps) is None <==> {
            &&& all < s.limits.clients
            &&& caps.spec_contains(Cap::Shell) ==> shells < s.limits.shell_clients
            &&& !caps.spec_contains(Cap::Shell) ==> all - shells < s.limits.clients
                - s.limits.shell_clients
        },
{
}

// Surfaces that end.

/// When a surface is destroyed, the picture no longer has it: it is the picture
/// of what is left. If the surface had the focus, the highest window that can
/// have it gets it; else the focus stays. The windows stay as they are.
pub proof fn law_destroyed_surface_is_not_seen(
    s: ServerModel,
    client_id: ClientId,
    message: Seq<u8>,
    granted: bool,
)
    requires
        s.is_sound(),
        asks_surface(s, client_id, message, 1),
        s.dispatched(client_id, message, granted).1 is None,
        s.clients.dom().finite(),
        s.frame.is_whole(),
        !s.deferred,
        s.clients[client_id].surfaces.contains_key(wire::header_at(message).object_id),
    ensures
        ({
            let after = s.dispatched(client_id, message, granted).0;
            let surface_id = wire::header_at(message).object_id;
            &&& is_up_to_date(after)
            &&& !after.clients[client_id].surfaces.contains_key(surface_id)
            &&& after.windows == s.windows
            &&& after.z_order == s.z_order
            &&& s.focus != Some((client_id, surface_id)) ==> after.focus == s.focus
            &&& s.focus == Some((client_id, surface_id)) ==> desk::is_highest(after, after.focus)
        }),
{
    broadcast use telling::group_shows;

    let taken = coverage::lemma_surface_request(s, client_id, message, 1, granted);
    reveal(ServerModel::surface_gone);
    let header = wire::header_at(message);
    let surface_id = header.object_id;
    let c = s.clients[client_id];
    assert(c.is_sound() && c.is_reaped());
    endings::law_destroyed_surface_is_gone(
        c,
        header,
        coverage::payload_of(message),
        s.budgets(client_id),
        granted,
        surface_id,
        surface_id,
    );
    let after = s.dispatched(client_id, message, granted).0;
    assert(taken.clients.dom() =~= s.clients.dom().insert(client_id));
    if s.focus == Some((client_id, surface_id)) {
        let fallback = taken.fallback_focus(Set::empty());
        let aimed = ServerModel { focus: fallback, ..taken };
        let focused = taken.focused(fallback);
        telling::lemma_focused(taken, fallback);
        assert(only_tells(aimed, focused));
        let told = focused.announce_focus(focused.window_of_focus(fallback));
        assert(only_tells(focused, told));
        telling::lemma_tells_then(aimed, focused, told);
        assert(only_shows(told, after));
        telling::lemma_shows_then(aimed, told, after);
        assert(desk::is_highest(aimed, fallback)) by {
            desk::lemma_fallback(taken);
            desk::lemma_highest_of_told(taken, aimed, fallback);
        }
        desk::lemma_highest_of_told(aimed, after, fallback);
        promises::law_picture_is_of_the_scene(told, DamageModel::Full);
        assert(aimed.clients.contains_key(client_id));
    } else {
        assert(only_shows(taken, after));
        promises::law_picture_is_of_the_scene(taken, DamageModel::Full);
        assert(taken.clients.contains_key(client_id));
    }
}

} // verus!
