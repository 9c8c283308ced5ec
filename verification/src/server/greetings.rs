//! What connections and windows are told first.

use vstd::prelude::*;

use crate::arith;
use crate::bytes;
use crate::client::bounds;
use crate::client::model;
use crate::client::model::{ClientModel, ToplevelModel};
use crate::events;
use crate::ids::{ClientId, ObjectId, WindowOwner};
use crate::objects::Interface;
use crate::server::inputs;
use crate::server::model::ServerModel;
use crate::server::shells::word;
use crate::server::sizes;
use crate::server::sizes::asks_size;
use crate::server::telling;
use crate::text;
use crate::wire;
use crate::wire::HEADER_SIZE;

verus! {

/// Whether a message offers a global under a number: its kind by name, and the
/// version of it.
pub open spec fn offers(m: Seq<u8>, registry_id: ObjectId, number: u32, kind: Interface) -> bool {
    &&& wire::header_fault(m) is None
    &&& wire::header_at(m).object_id == registry_id
    &&& wire::header_at(m).opcode == 1
    &&& word(m, 0) == number
    &&& text::text_at(m, HEADER_SIZE + 4) == kind.name_bytes()
    &&& text::text_end(m, HEADER_SIZE + 4) == Some(m.len() - 4)
    &&& bytes::le32_at(m, m.len() - 4) == kind.spec_supported_version()
}

proof fn lemma_offer_message(registry_id: ObjectId, number: u32, name: Seq<u8>, version: u32)
    requires
        name.len() <= 1000,
    ensures
        ({
            let m = wire::message(
                registry_id,
                1,
                events::registry_global_payload(number, name, version),
            );
            &&& word(m, 0) == number
            &&& text::text_at(m, HEADER_SIZE + 4) == name
            &&& text::text_end(m, HEADER_SIZE + 4) == Some(m.len() - 4)
            &&& bytes::le32_at(m, m.len() - 4) == version
        }),
{
    let payload = events::registry_global_payload(number, name, version);
    let m = wire::message(registry_id, 1, payload);
    let head = m.take(HEADER_SIZE as int) + bytes::le32(number);
    assert(m =~= head + text::wire_text(name) + bytes::le32(version));
    text::law_text_round_trip(head, name, bytes::le32(version));
    assert(m.subrange(HEADER_SIZE as int, HEADER_SIZE + 4) =~= bytes::le32(number));
    inputs::lemma_word(m, HEADER_SIZE as int, number);
    assert(m.subrange(m.len() - 4, m.len() as int) =~= bytes::le32(version));
    inputs::lemma_word(m, m.len() - 4, version);
}

/// An offer is queued behind the others, unless the queue has overflowed.
proof fn lemma_offered(c: ClientModel, registry_id: ObjectId, number: u32, kind: Interface)
    requires
        c.is_object(registry_id, Interface::Registry),
        kind.name_bytes().len() <= 1000,
    ensures
        ({
            let after = ServerModel::offered(c, registry_id, number, kind);
            &&& after.objects == c.objects
            &&& c.overflowed ==> after.overflowed
            &&& !after.overflowed ==> after.events.len() == c.events.len() + 1
                && after.events.drop_last() == c.events && offers(
                after.events.last(),
                registry_id,
                number,
                kind,
            )
        }),
{
    broadcast use crate::client::model::lemma_emit_frame;
    broadcast use bounds::law_emit_keeps_bounds;

    let payload = events::registry_global_payload(
        number,
        kind.name_bytes(),
        kind.spec_supported_version(),
    );
    assert(payload.len() <= 1020);
    if !c.emit(registry_id, 1, payload).overflowed {
        inputs::lemma_emitted_unless_full(c, registry_id, 1, payload);
        lemma_offer_message(
            registry_id,
            number,
            kind.name_bytes(),
            kind.spec_supported_version(),
        );
    }
}

/// The globals, in the order in which they are offered.
pub open spec fn globals() -> Seq<Interface> {
    seq![
        Interface::Compositor,
        Interface::Shm,
        Interface::XdgShell,
        Interface::Seat,
        Interface::ShellManager,
    ]
}

proof fn lemma_name_is_short(kind: Interface)
    requires
        globals().contains(kind),
    ensures
        kind.name_bytes().len() <= 1000,
{
    reveal_strlit("pmd_compositor");
    reveal_strlit("pmd_shm");
    reveal_strlit("pmd_xdg_shell");
    reveal_strlit("pmd_seat");
    reveal_strlit("pmd_shell_manager");
    vstd::string::is_ascii_spec_bytes(kind.spec_name());
    assert(kind.spec_name().is_ascii());
}

/// A connection that asks what there is is offered every global, numbered from
/// one on; the manager of windows only if it is a shell. A queue that has no room
/// for all of them is marked so.
pub proof fn law_globals_are_offered(s: ServerModel, client_id: ClientId, registry_id: ObjectId)
    requires
        s.clients.contains_key(client_id),
        s.clients[client_id].is_object(registry_id, Interface::Registry),
    ensures
        ({
            let before = s.clients[client_id];
            let after = s.advertised(client_id, registry_id).clients[client_id];
            let count: int = if before.is_shell() {
                5
            } else {
                4
            };
            &&& !after.overflowed ==> {
                &&& after.events.len() == before.events.len() + count
                &&& after.events.take(before.events.len() as int) == before.events
                &&& forall|i: int|
                    0 <= i < count ==> offers(
                        #[trigger] after.events[before.events.len() + i],
                        registry_id,
                        (i + 1) as u32,
                        globals()[i],
                    )
            }
            &&& forall|id: ClientId|
                id != client_id && s.clients.contains_key(id) ==> #[trigger] s.advertised(
                    client_id,
                    registry_id,
                ).clients[id] == s.clients[id]
        }),
{
    let c0 = s.clients[client_id];
    assert(globals()[0] == Interface::Compositor && globals()[1] == Interface::Shm && globals()[2]
        == Interface::XdgShell && globals()[3] == Interface::Seat && globals()[4]
        == Interface::ShellManager);
    lemma_name_is_short(Interface::Compositor);
    lemma_name_is_short(Interface::Shm);
    lemma_name_is_short(Interface::XdgShell);
    lemma_name_is_short(Interface::Seat);
    lemma_name_is_short(Interface::ShellManager);
    let c1 = ServerModel::offered(c0, registry_id, 1, Interface::Compositor);
    let c2 = ServerModel::offered(c1, registry_id, 2, Interface::Shm);
    let c3 = ServerModel::offered(c2, registry_id, 3, Interface::XdgShell);
    let c4 = ServerModel::offered(c3, registry_id, 4, Interface::Seat);
    let c5 = ServerModel::offered(c4, registry_id, 5, Interface::ShellManager);
    lemma_offered(c0, registry_id, 1, Interface::Compositor);
    lemma_offered(c1, registry_id, 2, Interface::Shm);
    lemma_offered(c2, registry_id, 3, Interface::XdgShell);
    lemma_offered(c3, registry_id, 4, Interface::Seat);
    lemma_offered(c4, registry_id, 5, Interface::ShellManager);
    let after = s.advertised(client_id, registry_id).clients[client_id];
    if !after.overflowed {
        let n = c0.events.len() as int;
        assert(!c4.overflowed && !c3.overflowed && !c2.overflowed && !c1.overflowed);
        assert(c1.events[n] == c1.events.last());
        assert(c2.events[n] == c2.events.drop_last()[n] && c2.events[n + 1] == c2.events.last());
        assert(c3.events[n] == c3.events.drop_last()[n] && c3.events[n + 1]
            == c3.events.drop_last()[n + 1] && c3.events[n + 2] == c3.events.last());
        assert(c4.events[n] == c4.events.drop_last()[n] && c4.events[n + 1]
            == c4.events.drop_last()[n + 1] && c4.events[n + 2] == c4.events.drop_last()[n + 2]
            && c4.events[n + 3] == c4.events.last());
        if c0.is_shell() {
            assert(c5.events[n] == c5.events.drop_last()[n] && c5.events[n + 1]
                == c5.events.drop_last()[n + 1] && c5.events[n + 2] == c5.events.drop_last()[n
                + 2] && c5.events[n + 3] == c5.events.drop_last()[n + 3] && c5.events[n + 4]
                == c5.events.last());
        }
        lemma_prefix(c0.events, c1.events, n);
        lemma_prefix(c1.events, c2.events, n);
        lemma_prefix(c2.events, c3.events, n);
        lemma_prefix(c3.events, c4.events, n);
        if c0.is_shell() {
            lemma_prefix(c4.events, c5.events, n);
        }
        assert(c0.events.take(n) =~= c0.events);
    }
}

proof fn lemma_prefix(a: Seq<Seq<u8>>, b: Seq<Seq<u8>>, n: int)
    requires
        b.len() == a.len() + 1,
        b.drop_last() == a,
        0 <= n <= a.len(),
    ensures
        b.take(n) == a.take(n),
{
    assert(b.take(n) =~= b.drop_last().take(n));
}

/// A window that has not been asked to take a size yet is asked once: a shell's
/// to fill the output, any other what is left of the work area to the right and
/// below of where it is, but at least a pixel. From then on it has been asked.
pub proof fn law_first_size_fills_what_is_left(
    s: ServerModel,
    client_id: ClientId,
    surface_id: ObjectId,
)
    requires
        s.is_sound(),
        s.clients.contains_key(client_id),
        s.clients[client_id].toplevel_by_surface.contains_key(surface_id),
        s.frame.width <= i32::MAX,
        s.frame.height <= i32::MAX,
    ensures
        ({
            let owner = WindowOwner {
                client_id,
                toplevel_id: s.clients[client_id].toplevel_by_surface[surface_id],
            };
            let before = s.toplevel(owner);
            let after = s.first_configured(client_id, surface_id);
            let client = after.clients[client_id];
            let left: int = if before.x > 0 {
                before.x as int
            } else {
                0
            };
            let top: int = if before.y > 0 {
                before.y as int
            } else {
                0
            };
            let width = s.frame.width - left;
            let height = s.work_area_height() - top;
            &&& s.has_toplevel(owner)
            &&& before.initial_configure_sent ==> after == s
            &&& after.has_toplevel(owner)
            &&& after.toplevel(owner) == (ToplevelModel {
                initial_configure_sent: true,
                ..before
            })
            &&& !before.initial_configure_sent && !client.overflowed ==> client.events.len() > 0
                && asks_size(
                client.events.last(),
                s,
                owner,
                if s.is_shell(client_id) {
                    s.frame.width as i32
                } else if width >= 1 {
                    width as i32
                } else {
                    1
                },
                if s.is_shell(client_id) {
                    s.frame.height as i32
                } else if height >= 1 {
                    height as i32
                } else {
                    1
                },
            )
        }),
{
    reveal(ServerModel::first_configured);
    let c = s.clients[client_id];
    assert(c.is_sound());
    let owner = WindowOwner { client_id, toplevel_id: c.toplevel_by_surface[surface_id] };
    assert(c.toplevels.contains_key(owner.toplevel_id));
    assert(s.has_toplevel(owner));
    let before = s.toplevel(owner);
    if !before.initial_configure_sent {
        let left = arith::max_int(before.x as int, 0);
        let top = arith::max_int(before.y as int, 0);
        let width = if c.is_shell() {
            s.frame.width as i32
        } else {
            arith::sat_i32(arith::max_int(s.frame.width as i32 - left, 1))
        };
        let height = if c.is_shell() {
            s.frame.height as i32
        } else {
            arith::sat_i32(arith::max_int(s.work_area_height() as i32 - top, 1))
        };
        sizes::law_configure_event_says_size_and_state(s, owner, width, height);
        telling::lemma_configured(s, owner, width, height);
        telling::lemma_all_told(s, s.configured(owner, width, height));
        assert(s.configured(owner, width, height).has_toplevel(owner));
    } else {
        assert(s.clients[client_id].toplevels[owner.toplevel_id].initial_configure_sent);
    }
}

} // verus!
