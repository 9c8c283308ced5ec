//! All connections: in what order they are visited, and what they wait for.

use vstd::prelude::*;

use crate::ids::ClientId;
use crate::poll::{FD_READ, FD_WRITE};
use crate::schedule::client_transport_can_make_local_progress;
use crate::schedule::order;
use crate::schedule::order::{priority_first, rotating_indices};
use crate::schedule::turn;
use crate::schedule::turn::{Conn, ConnModel};
use crate::server::model::ServerModel;
use crate::server::Server;

verus! {

/// The connections in the order of a round that begins at the cursor.
pub open spec fn visited(conns: Seq<ConnModel>, cursor: usize) -> Seq<ClientId> {
    if conns.len() == 0 {
        Seq::empty()
    } else {
        order::round(cursor as int % conns.len() as int, conns.len()).map_values(
            |place: usize| conns[place as int].client_id,
        )
    }
}

/// The connections in the order of a round that begins at the cursor.
pub fn visit_order(conns: &Vec<Conn>, cursor: usize) -> (ids: Vec<ClientId>)
    ensures
        ids@ == visited(turn::conn_models(conns@), cursor),
{
    let places = rotating_indices(conns.len(), cursor);
    let mut ids: Vec<ClientId> = Vec::new();
    let mut i: usize = 0;
    let ghost models = turn::conn_models(conns@);
    while i < places.len()
        invariant
            i <= places@.len(),
            models == turn::conn_models(conns@),
            places@ == if conns@.len() == 0 {
                Seq::empty()
            } else {
                order::round(cursor as int % conns@.len() as int, conns@.len())
            },
            ids@ == visited(models, cursor).take(i as int),
            visited(models, cursor).len() == places@.len(),
        decreases places@.len() - i,
    {
        let place: usize = places[i];
        proof {
            let start = cursor as int % conns@.len() as int;
            assert(0 <= start < conns@.len());
            assert(place == order::around(start, conns@.len() as int, i as int) as usize);
        }
        ids.push(conns[place].client_id);
        proof {
            assert(ids@ =~= visited(models, cursor).take(i + 1));
        }
        i += 1;
    }
    proof {
        assert(ids@ =~= visited(models, cursor));
    }
    ids
}

/// Which connections are shells.
pub open spec fn shell_flags(server: ServerModel, ids: Seq<ClientId>) -> Seq<bool> {
    ids.map_values(|id: ClientId| server.is_shell(id))
}

/// The shells among the connections first, then the others, each in order.
pub fn shells_first(server: &Server, ids: &Vec<ClientId>) -> (r: Vec<ClientId>)
    ensures
        r@ == order::flagged(ids@, shell_flags(server@, ids@), true) + order::flagged(
            ids@,
            shell_flags(server@, ids@),
            false,
        ),
{
    let is_shell = |id: ClientId| -> (shell: bool)
        ensures
            shell == server@.is_shell(id),
        { server.is_shell(id) };
    let r = priority_first(ids.as_slice(), is_shell);
    proof {
        let flags = shell_flags(server@, ids@);
        assert forall|seen: Seq<bool>| #[trigger] order::are_flags(is_shell, ids@, seen) implies seen
            == flags by {
            assert(seen =~= flags);
        }
    }
    r
}

/// The place of the first connection with an id, from `from` on.
pub open spec fn place_of(conns: Seq<ConnModel>, id: ClientId, from: nat) -> Option<nat>
    decreases conns.len() - from,
{
    if from >= conns.len() {
        None
    } else if conns[from as int].client_id == id {
        Some(from)
    } else {
        place_of(conns, id, from + 1)
    }
}

/// The place of the first connection with an id.
pub fn find_conn(conns: &Vec<Conn>, id: ClientId) -> (r: Option<usize>)
    ensures
        match r {
            Some(place) => place < conns@.len() && place_of(turn::conn_models(conns@), id, 0)
                == Some(place as nat) && conns@[place as int].client_id == id,
            None => place_of(turn::conn_models(conns@), id, 0) is None,
        },
{
    let mut i: usize = 0;
    while i < conns.len()
        invariant
            i <= conns@.len(),
            place_of(turn::conn_models(conns@), id, 0) == place_of(
                turn::conn_models(conns@),
                id,
                i as nat,
            ),
        decreases conns@.len() - i,
    {
        if conns[i].client_id.0 == id.0 {
            return Some(i);
        }
        i += 1;
    }
    None
}

/// The place of the first connection with a socket, from `from` on.
pub open spec fn socket_place(conns: Seq<ConnModel>, fd: i32, from: nat) -> Option<nat>
    decreases conns.len() - from,
{
    if from >= conns.len() {
        None
    } else if conns[from as int].server_fd == fd {
        Some(from)
    } else {
        socket_place(conns, fd, from + 1)
    }
}

/// The connections after activity of a socket.
pub open spec fn woken(conns: Seq<ConnModel>, fd: i32, kind: u8) -> Seq<ConnModel> {
    match socket_place(conns, fd, 0) {
        Some(place) => conns.update(place as int, conns[place as int].woken(kind)),
        None => conns,
    }
}

/// The connections after all activity that was reported.
pub open spec fn all_woken(conns: Seq<ConnModel>, ready: Seq<(i32, u8)>) -> Seq<ConnModel>
    decreases ready.len(),
{
    if ready.len() == 0 {
        conns
    } else {
        woken(all_woken(conns, ready.drop_last()), ready.last().0, ready.last().1)
    }
}

fn find_socket(conns: &Vec<Conn>, fd: i32) -> (r: Option<usize>)
    ensures
        match r {
            Some(place) => place < conns@.len() && socket_place(turn::conn_models(conns@), fd, 0)
                == Some(place as nat),
            None => socket_place(turn::conn_models(conns@), fd, 0) is None,
        },
{
    let mut i: usize = 0;
    while i < conns.len()
        invariant
            i <= conns@.len(),
            socket_place(turn::conn_models(conns@), fd, 0) == socket_place(
                turn::conn_models(conns@),
                fd,
                i as nat,
            ),
        decreases conns@.len() - i,
    {
        if conns[i].server_fd == fd {
            return Some(i);
        }
        i += 1;
    }
    None
}

/// Notes activity that was reported.
pub fn note_ready(conns: &mut Vec<Conn>, ready: &[(i32, u8)])
    ensures
        turn::conn_models(final(conns)@) == all_woken(turn::conn_models(old(conns)@), ready@),
{
    let ghost start = turn::conn_models(conns@);
    let mut i: usize = 0;
    proof {
        assert(ready@.take(0) =~= Seq::<(i32, u8)>::empty());
    }
    while i < ready.len()
        invariant
            i <= ready@.len(),
            start == turn::conn_models(old(conns)@),
            turn::conn_models(conns@) == all_woken(start, ready@.take(i as int)),
        decreases ready@.len() - i,
    {
        let (fd, kind) = ready[i];
        let ghost before = turn::conn_models(conns@);
        proof {
            assert(ready@.take(i + 1).drop_last() =~= ready@.take(i as int));
        }
        match find_socket(conns, fd) {
            Some(place) => {
                let conn = &mut conns[place];
                if kind == FD_READ {
                    conn.read_ready = true;
                } else if kind == FD_WRITE {
                    conn.write_ready = true;
                }
                proof {
                    assert(turn::conn_models(conns@) =~= before.update(
                        place as int,
                        before[place as int].woken(kind),
                    ));
                }
            },
            None => {},
        }
        i += 1;
    }
    proof {
        assert(ready@.take(i as int) =~= ready@);
    }
}

/// The sockets of the connections, and whether each has something to be sent.
pub open spec fn sockets(conns: Seq<ConnModel>) -> Seq<(i32, bool)> {
    conns.map_values(|conn: ConnModel| (conn.server_fd, conn.sending()))
}

/// The sockets of the connections, and whether each has something to be sent.
pub fn wait_clients(conns: &Vec<Conn>) -> (clients: Vec<(i32, bool)>)
    ensures
        clients@ == sockets(turn::conn_models(conns@)),
{
    let mut clients: Vec<(i32, bool)> = Vec::new();
    let mut i: usize = 0;
    while i < conns.len()
        invariant
            i <= conns@.len(),
            clients@ == sockets(turn::conn_models(conns@)).take(i as int),
        decreases conns@.len() - i,
    {
        clients.push((conns[i].server_fd, !conns[i].outbound.is_empty()));
        proof {
            assert(clients@ =~= sockets(turn::conn_models(conns@)).take(i + 1));
        }
        i += 1;
    }
    proof {
        assert(clients@ =~= sockets(turn::conn_models(conns@)));
    }
    clients
}

/// Whether something can be done for one of the connections without waiting.
pub open spec fn some_can_progress(conns: Seq<Conn>) -> bool {
    exists|i: int| 0 <= i < conns.len() && (#[trigger] conns[i])@.can_progress()
}

/// Whether something can be done for one of the connections without waiting.
pub fn any_can_progress(conns: &Vec<Conn>) -> (r: bool)
    ensures
        r == some_can_progress(conns@),
{
    let mut i: usize = 0;
    while i < conns.len()
        invariant
            i <= conns@.len(),
            forall|j: int| 0 <= j < i ==> !(#[trigger] conns@[j])@.can_progress(),
        decreases conns@.len() - i,
    {
        let conn = &conns[i];
        if client_transport_can_make_local_progress(
            conn.read_ready,
            conn.write_ready,
            !conn.outbound.is_empty(),
            conn.disconnect_pending,
        ) {
            assert(conns@[i as int]@.can_progress());
            return true;
        }
        i += 1;
    }
    false
}

} // verus!
