//! Identifiers: protocol objects, connections and windows.

use vstd::prelude::*;

use crate::ordered::SortKey;

verus! {

/// The side of a connection that hands out an object id.
#[derive(Copy, Clone, Debug, PartialEq, Eq, Structural)]
pub enum IdKind {
    Client,
    Server,
}

/// The id of a protocol object on one connection. Odd ids are handed out by
/// the client, even ids by the server; zero names no object.
#[derive(Copy, Clone, Debug, PartialEq, Eq, PartialOrd, Ord, Hash, Structural)]
pub struct ObjectId(pub u32);

impl ObjectId {
    /// The id that names no object.
    #[verifier::allow_in_spec]
    pub fn null() -> ObjectId
        returns
            ObjectId(0),
    {
        ObjectId(0)
    }

    /// The display object, present on every connection from the start.
    #[verifier::allow_in_spec]
    pub fn display() -> ObjectId
        returns
            ObjectId(1),
    {
        ObjectId(1)
    }

    pub fn new(raw: u32) -> (id: Self)
        ensures
            id == ObjectId(raw),
    {
        ObjectId(raw)
    }

    pub fn raw(self) -> (raw: u32)
        ensures
            raw == self.0,
    {
        self.0
    }

    pub fn is_null(self) -> (r: bool)
        ensures
            r == (self == ObjectId::null()),
    {
        self.0 == 0
    }

    pub open spec fn spec_kind(self) -> IdKind {
        if self.0 % 2 == 1 {
            IdKind::Client
        } else {
            IdKind::Server
        }
    }

    /// The side that hands out this id.
    pub fn kind(self) -> (kind: IdKind)
        ensures
            kind == self.spec_kind(),
    {
        if self.0 % 2 == 1 {
            IdKind::Client
        } else {
            IdKind::Server
        }
    }
}

impl SortKey for ObjectId {
    open spec fn rank(self) -> nat {
        self.0 as nat
    }

    proof fn rank_is_injective(a: Self, b: Self) {
    }

    fn precedes(self, other: Self) -> (r: bool) {
        self.0 < other.0
    }
}

/// A connected client.
#[derive(Copy, Clone, Debug, PartialEq, Eq, PartialOrd, Ord, Hash, Structural)]
pub struct ClientId(pub u32);

impl SortKey for ClientId {
    open spec fn rank(self) -> nat {
        self.0 as nat
    }

    proof fn rank_is_injective(a: Self, b: Self) {
    }

    fn precedes(self, other: Self) -> (r: bool) {
        self.0 < other.0
    }
}

/// A window, named across all connections.
#[derive(Copy, Clone, Debug, PartialEq, Eq, PartialOrd, Ord, Hash, Structural)]
pub struct WindowId(pub u32);

impl SortKey for WindowId {
    open spec fn rank(self) -> nat {
        self.0 as nat
    }

    proof fn rank_is_injective(a: Self, b: Self) {
    }

    fn precedes(self, other: Self) -> (r: bool) {
        self.0 < other.0
    }
}

impl SortKey for u32 {
    open spec fn rank(self) -> nat {
        self as nat
    }

    proof fn rank_is_injective(a: Self, b: Self) {
    }

    fn precedes(self, other: Self) -> (r: bool) {
        self < other
    }
}

/// The toplevel that owns a window: its connection, and its id there.
#[derive(Copy, Clone, Debug, PartialEq, Eq, Hash, Structural)]
pub struct WindowOwner {
    pub client_id: ClientId,
    pub toplevel_id: ObjectId,
}

impl SortKey for WindowOwner {
    open spec fn rank(self) -> nat {
        (self.client_id.0 * 0x1_0000_0000 + self.toplevel_id.0) as nat
    }

    proof fn rank_is_injective(a: Self, b: Self) {
    }

    fn precedes(self, other: Self) -> (r: bool) {
        self.client_id.0 < other.client_id.0 || (self.client_id.0 == other.client_id.0
            && self.toplevel_id.0 < other.toplevel_id.0)
    }
}

impl View for ObjectId {
    type V = ObjectId;

    open spec fn view(&self) -> ObjectId {
        *self
    }
}

impl View for WindowId {
    type V = WindowId;

    open spec fn view(&self) -> WindowId {
        *self
    }
}

impl View for WindowOwner {
    type V = WindowOwner;

    open spec fn view(&self) -> WindowOwner {
        *self
    }
}

/// No id is left to hand out.
#[derive(Copy, Clone, Debug, PartialEq, Eq, Structural)]
pub struct ObjectIdAllocationError;

/// Hands out the server's object ids in ascending order.
#[derive(Copy, Clone, Debug, PartialEq, Eq, Structural)]
pub struct IdAllocator {
    pub next: u32,
    pub exhausted: bool,
}

impl IdAllocator {
    pub fn for_server() -> (ids: Self)
        ensures
            ids == (IdAllocator { next: 2, exhausted: false }),
    {
        IdAllocator { next: 2, exhausted: false }
    }

    /// The id that is handed out next.
    pub fn peek(&self) -> (id: ObjectId)
        ensures
            id == ObjectId(self.next),
    {
        ObjectId(self.next)
    }

    pub open spec fn after_allocation(self) -> IdAllocator {
        if self.exhausted {
            self
        } else if self.next > u32::MAX - 2 {
            IdAllocator { next: self.next, exhausted: true }
        } else {
            IdAllocator { next: (self.next + 2) as u32, exhausted: false }
        }
    }

    /// Hands out the next id; fails once every id has been handed out.
    pub fn allocate(&mut self) -> (r: Result<ObjectId, ObjectIdAllocationError>)
        ensures
            *final(self) == old(self).after_allocation(),
            match r {
                Ok(id) => !old(self).exhausted && id == ObjectId(old(self).next),
                Err(_) => old(self).exhausted,
            },
    {
        if self.exhausted {
            return Err(ObjectIdAllocationError);
        }
        let id = ObjectId(self.next);
        if self.next > u32::MAX - 2 {
            self.exhausted = true;
        } else {
            self.next = self.next + 2;
        }
        Ok(id)
    }
}

} // verus!
