//! Serving a request of a connection.

use vstd::prelude::*;
use vstd::slice::slice_subrange;

use crate::bytes;
use crate::ids::{ClientId, ObjectId};
use crate::requests;
use crate::requests::decode_id;
use crate::server::model::ServerModel;
use crate::server::Server;
use crate::wire;
use crate::wire::{MessageHeader, HEADER_SIZE};

verus! {

/// The registry that a message asks for, if it asks for one.
pub open spec fn registry_asked_for(message: Seq<u8>) -> Option<ObjectId> {
    let header = wire::header_at(message);
    let payload = message.subrange(HEADER_SIZE as int, header.length as int);
    if wire::header_fault(message) is None && header.object_id == ObjectId::display()
        && header.opcode == 2 && requests::size_fault(payload, 4) is None {
        Some(ObjectId(bytes::le32_at(payload, 0)))
    } else {
        None
    }
}

impl ServerModel {
    /// The state after a connection has been told of the globals that a
    /// message asks for, if it does.
    pub open spec fn told_of_globals(self, client_id: ClientId, message: Seq<u8>) -> ServerModel {
        match registry_asked_for(message) {
            Some(registry_id) => self.advertised(client_id, registry_id),
            None => self,
        }
    }

    /// The state after a request was served.
    pub open spec fn served(self, client_id: ClientId, message: Seq<u8>, granted: bool) -> ServerModel {
        self.dispatched(client_id, message, granted).0.told_of_globals(client_id, message)
    }
}

impl Server {
    /// Tells a connection of the globals that a message asks for, if it does.
    pub fn advertise_globals_for_get_registry(&mut self, client_id: ClientId, chunk: &[u8])
        ensures
            final(self)@ == old(self)@.told_of_globals(client_id, chunk@),
    {
        let header = match MessageHeader::decode(chunk) {
            Ok(header) => header,
            Err(_) => {
                return;
            },
        };
        if header.object_id.0 != ObjectId::display().0 || header.opcode != 2 {
            return;
        }
        let payload = slice_subrange(chunk, HEADER_SIZE, header.length as usize);
        match decode_id(payload) {
            Ok(registry_id) => self.advertise_globals_to(client_id, registry_id),
            Err(_) => {},
        }
    }

    /// Serves a request of a connection. Says whether the picture is the same
    /// as before.
    pub fn serve_request(&mut self, client_id: ClientId, message: &[u8]) -> (unchanged: bool)
        requires
            old(self)@.can_serve(client_id, message@),
        ensures
            exists|granted: bool|
                final(self)@ == #[trigger] old(self)@.served(client_id, message@, granted),
            unchanged == (final(self)@.recomposition_serial == old(self)@.recomposition_serial),
    {
        let ghost start = self@;
        let serial: u64 = self.recomposition_serial();
        let _ = self.dispatch_request(client_id, message);
        let ghost granted = choose|granted: bool|
            self@ == (#[trigger] start.dispatched(client_id, message@, granted)).0;
        self.advertise_globals_for_get_registry(client_id, message);
        assert(self@ == start.served(client_id, message@, granted));
        self.recomposition_serial() == serial
    }
}

} // verus!
