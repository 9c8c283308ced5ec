//! Whole requests.

use vstd::prelude::*;

use crate::client::emit::ensure_capacity;
use crate::client::model;
use crate::client::model::ClientModel;
use crate::client::{
    Client, ClientError, ClientResource, HandledRequest, ServerResourceBudgets,
    MAX_JOURNAL_ENTRIES, MAX_TOPLEVEL_METADATA_BYTES,
};
use crate::ids::ObjectId;
use crate::objects::Interface;
use crate::requests;
use crate::requests::{decode_text, decode_word, text_byte_len, DecodeError};
use crate::text::utf8_bytes;
use crate::wire::MessageHeader;

verus! {

broadcast use {crate::ordered::lemma_remove_insert, crate::ordered::lemma_insert_same};

/// Refuses a shell request whose payload does not have the request's size.
fn check_shell_payload(interface: Interface, opcode: u16, payload: &[u8]) -> (r: Result<
    (),
    ClientError,
>)
    ensures
        match r {
            Ok(_) => ClientModel::shell_payload_fault(interface, opcode, payload@) is None,
            Err(e) => ClientModel::shell_payload_fault(interface, opcode, payload@) == Some(e),
        },
{
    if interface != Interface::ShellManager {
        return Ok(());
    }
    let size: usize = match opcode {
        8 => 0,
        9 => 4,
        10 => 8,
        11 => 32,
        12 => 8,
        _ => payload.len(),
    };
    if payload.len() < size {
        Err(ClientError::Malformed { interface, opcode, error: DecodeError::Truncated })
    } else if payload.len() > size {
        Err(ClientError::Malformed { interface, opcode, error: DecodeError::TrailingBytes })
    } else {
        Ok(())
    }
}

impl Client {
    /// Refuses a title or an application id that takes too many bytes, and
    /// gives the bytes held afterwards.
    fn admit_toplevel_metadata_change(
        &self,
        toplevel_id: ObjectId,
        interface: Interface,
        opcode: u16,
        payload: &[u8],
        server_bytes: u64,
        server_byte_limit: u64,
    ) -> (r: Result<Option<u64>, ClientError>)
        ensures
            ({
                let fault = self@.metadata_fault(
                    toplevel_id,
                    interface,
                    opcode,
                    payload@,
                    server_bytes,
                    server_byte_limit,
                );
                match r {
                    Ok(None) => fault is None && !(interface == Interface::XdgToplevel && (opcode
                        == 1 || opcode == 2)),
                    Ok(Some(after)) => fault is None && interface == Interface::XdgToplevel && (
                    opcode == 1 || opcode == 2) && after == self@.metadata_after(
                        toplevel_id,
                        interface,
                        opcode,
                        payload@,
                    ),
                    Err(e) => fault == Some(e),
                }
            }),
    {
        if interface != Interface::XdgToplevel || (opcode != 1 && opcode != 2) {
            return Ok(None);
        }
        let added: u64 = match text_byte_len(payload) {
            Ok(len) => len as u64,
            Err(error) => {
                return Err(ClientError::Malformed { interface, opcode, error });
            },
        };
        let toplevel = match self.toplevels.get(toplevel_id) {
            Some(toplevel) => toplevel,
            None => {
                return Err(ClientError::UnknownToplevel { toplevel_id });
            },
        };
        let title: u64 = utf8_bytes(&toplevel.title).len() as u64;
        let app_id: u64 = utf8_bytes(&toplevel.app_id).len() as u64;
        let (replaced, kept) = if opcode == 1 {
            (title, app_id)
        } else {
            (app_id, title)
        };
        let window_after: u64 = kept.saturating_add(added);
        if window_after > MAX_TOPLEVEL_METADATA_BYTES {
            return Err(
                ClientError::ResourceLimitExceeded {
                    resource: ClientResource::ToplevelMetadataBytesPerWindow,
                    attempted: window_after,
                    limit: MAX_TOPLEVEL_METADATA_BYTES,
                },
            );
        }
        let client_after: u64 = self.toplevel_metadata_bytes.saturating_sub(
            replaced,
        ).saturating_add(added);
        if client_after > self.limits.toplevel_metadata_bytes {
            return Err(
                ClientError::ResourceLimitExceeded {
                    resource: ClientResource::ToplevelMetadataBytes,
                    attempted: client_after,
                    limit: self.limits.toplevel_metadata_bytes,
                },
            );
        }
        let server_after: u64 = server_bytes.saturating_sub(replaced).saturating_add(added);
        if server_after > server_byte_limit {
            return Err(
                ClientError::ResourceLimitExceeded {
                    resource: ClientResource::ServerToplevelMetadataBytes,
                    attempted: server_after,
                    limit: server_byte_limit,
                },
            );
        }
        Ok(Some(client_after))
    }

    /// Carries out a request that changes a toplevel; other requests change
    /// nothing here.
    fn apply_toplevel_state(
        &mut self,
        toplevel_id: ObjectId,
        interface: Interface,
        opcode: u16,
        payload: &[u8],
    ) -> (r: Result<(), ClientError>)
        ensures
            model::took(
                old(self)@.apply_toplevel_state(toplevel_id, interface, opcode, payload@),
                final(self)@,
                r,
            ),
    {
        if interface != Interface::XdgToplevel {
            return Ok(());
        }
        if opcode == 1 || opcode == 2 {
            let value = match decode_text(payload) {
                Ok(value) => value,
                Err(error) => {
                    return Err(ClientError::Malformed { interface, opcode, error });
                },
            };
            return match self.toplevels.remove(toplevel_id) {
                Some(mut toplevel) => {
                    if opcode == 1 {
                        toplevel.title = value;
                    } else {
                        toplevel.app_id = value;
                    }
                    let _ = self.toplevels.insert(toplevel_id, toplevel);
                    Ok(())
                },
                None => {
                    proof {
                        assert(old(self)@.toplevels.remove(toplevel_id)
                            =~= old(self)@.toplevels);
                    }
                    Err(ClientError::UnknownToplevel { toplevel_id })
                },
            };
        }
        if opcode == 5 || opcode == 6 {
            return match self.toplevels.remove(toplevel_id) {
                Some(mut toplevel) => {
                    toplevel.maximized = opcode == 5;
                    let _ = self.toplevels.insert(toplevel_id, toplevel);
                    Ok(())
                },
                None => {
                    proof {
                        assert(old(self)@.toplevels.remove(toplevel_id)
                            =~= old(self)@.toplevels);
                    }
                    Err(ClientError::UnknownToplevel { toplevel_id })
                },
            };
        }
        Ok(())
    }

    fn note_handled(&mut self, entry: HandledRequest)
        ensures
            final(self)@ == old(self)@.journalled(entry),
    {
        if self.journal.len() == MAX_JOURNAL_ENTRIES {
            let _ = self.journal.remove(0);
            proof {
                assert(self@.journal =~= old(self)@.journal.skip(1));
            }
        }
        self.journal.push(entry);
    }

    fn answer_sync(&mut self, callback_id: ObjectId) -> (r: Result<(), ClientError>)
        ensures
            model::took(old(self)@.answer_sync(callback_id), final(self)@, r),
    {
        if let Err(e) = self.emit_callback_done(callback_id, 0) {
            return Err(e);
        }
        let _ = self.drop_object(callback_id);
        match self.emit_delete_id(callback_id) {
            Ok(_) => Ok(()),
            Err(e) => Err(e),
        }
    }

    /// Carries out the parts of a request that change state. Says in the
    /// second place whether the memory asked for could be had.
    fn mutate(
        &mut self,
        target: ObjectId,
        interface: Interface,
        opcode: u16,
        payload: &[u8],
        budgets: ServerResourceBudgets,
    ) -> (r: (Result<(), ClientError>, Ghost<bool>))
        requires
            old(self)@.can_count(interface, opcode),
        ensures
            model::took(
                old(self)@.mutated(target, interface, opcode, payload@, budgets, r.1@),
                final(self)@,
                r.0,
            ),
    {
        proof {
            reveal(ClientModel::mutated);
        }
        let (created, granted) = self.auto_install(
            target,
            interface,
            opcode,
            payload,
            budgets.pool_bytes,
            budgets.pool_byte_limit,
        );
        if let Err(e) = created {
            self.report_dispatch_error(target, &e);
            return (Err(e), granted);
        }
        let (ended, regranted) = self.apply_resource_lifecycle(
            target,
            interface,
            opcode,
            payload,
            budgets.pool_bytes,
            budgets.pool_byte_limit,
        );
        // At most one of the two asks for memory.
        let ghost had: bool = if interface == Interface::Shm {
            granted@
        } else {
            regranted@
        };
        if let Err(e) = ended {
            self.report_dispatch_error(target, &e);
            return (Err(e), Ghost(had));
        }
        if let Err(e) = self.apply_surface_state(target, interface, opcode, payload) {
            return (Err(e), Ghost(had));
        }
        self.reap_retired_resources();
        let done = self.apply_toplevel_state(target, interface, opcode, payload);
        (done, Ghost(had))
    }

    /// Carries out a request for a connection whose server holds what
    /// `budgets` says. Of the memory that a request may ask for, the contract
    /// leaves open whether it can be had.
    pub fn dispatch_request_with_server_budgets(
        &mut self,
        header: MessageHeader,
        payload: &[u8],
        budgets: ServerResourceBudgets,
    ) -> (r: Result<(), ClientError>)
        requires
            old(self)@.can_take(header),
        ensures
            exists|granted: bool|
                model::took(
                    #[trigger] old(self)@.dispatched(header, payload@, budgets, granted),
                    final(self)@,
                    r,
                ),
    {
        proof {
            reveal(ClientModel::dispatched);
            reveal(ClientModel::mutated);
        }
        let target = header.object_id;
        let opcode: u16 = header.opcode;
        let ghost start = self@;
        let interface = match self.objects.get(target) {
            Some(interface) => *interface,
            None => {
                assert(start.dispatched(header, payload@, budgets, true).1 is Some);
                return Err(ClientError::UnknownObject { id: target });
            },
        };
        let name = match interface.lookup_request(opcode) {
            Ok(entry) => entry.name,
            Err(_) => {
                assert(start.dispatched(header, payload@, budgets, true).1 is Some);
                return if interface.lookup_event(opcode).is_ok() {
                    Err(ClientError::WrongDirection { interface, opcode })
                } else {
                    Err(ClientError::UnknownOpcode { interface, opcode })
                };
            },
        };
        if let Err(e) = check_shell_payload(interface, opcode, payload) {
            assert(start.dispatched(header, payload@, budgets, true).1 is Some);
            return Err(e);
        }
        if interface == Interface::XdgShell && opcode == 1 {
            if let Err(e) = ensure_capacity(
                ClientResource::ServerToplevels,
                budgets.toplevels,
                1,
                budgets.toplevel_limit,
            ) {
                self.report_dispatch_error(target, &e);
                assert(start.dispatched(header, payload@, budgets, true).1 is Some);
                return Err(e);
            }
        }
        let metadata = match self.admit_toplevel_metadata_change(
            target,
            interface,
            opcode,
            payload,
            budgets.toplevel_metadata_bytes,
            budgets.toplevel_metadata_byte_limit,
        ) {
            Ok(metadata) => metadata,
            Err(e) => {
                self.report_dispatch_error(target, &e);
                assert(start.dispatched(header, payload@, budgets, true).1 is Some);
                return Err(e);
            },
        };
        let (done, granted) = self.mutate(target, interface, opcode, payload, budgets);
        let ghost step = start.dispatched(header, payload@, budgets, granted@);
        if let Err(e) = done {
            return Err(e);
        }
        if let Some(after) = metadata {
            self.toplevel_metadata_bytes = after;
        }
        self.note_handled(
            HandledRequest {
                object_id: target,
                interface,
                opcode,
                opcode_name: name,
                payload_len: payload.len(),
                fd_passing: header.fd_passing,
            },
        );
        if interface == Interface::Display && opcode == 1 {
            proof {
                assert(requests::size_fault(payload@, 4) is None);
            }
            return match decode_word(payload) {
                Ok(raw) => self.answer_sync(ObjectId(raw)),
                Err(_) => Ok(()),
            };
        }
        Ok(())
    }

    /// Carries out a request for a connection on its own.
    pub fn dispatch_request(&mut self, header: MessageHeader, payload: &[u8]) -> (r: Result<
        (),
        ClientError,
    >)
        requires
            old(self)@.can_take(header),
        ensures
            exists|granted: bool|
                model::took(
                    #[trigger] old(self)@.dispatched(
                        header,
                        payload@,
                        model::lone_budgets(old(self)@, 0, u64::MAX),
                        granted,
                    ),
                    final(self)@,
                    r,
                ),
    {
        self.dispatch_request_with_pool_budget(header, payload, 0, u64::MAX)
    }

    /// Carries out a request for a connection that shares only its pool memory
    /// with others.
    pub fn dispatch_request_with_pool_budget(
        &mut self,
        header: MessageHeader,
        payload: &[u8],
        server_pool_bytes: u64,
        server_pool_byte_limit: u64,
    ) -> (r: Result<(), ClientError>)
        requires
            old(self)@.can_take(header),
        ensures
            exists|granted: bool|
                model::took(
                    #[trigger] old(self)@.dispatched(
                        header,
                        payload@,
                        model::lone_budgets(old(self)@, server_pool_bytes, server_pool_byte_limit),
                        granted,
                    ),
                    final(self)@,
                    r,
                ),
    {
        let budgets = ServerResourceBudgets {
            pool_bytes: server_pool_bytes,
            pool_byte_limit: server_pool_byte_limit,
            toplevels: self.toplevels.len(),
            toplevel_limit: usize::MAX,
            toplevel_metadata_bytes: self.toplevel_metadata_bytes,
            toplevel_metadata_byte_limit: u64::MAX,
        };
        proof {
            assert(budgets == model::lone_budgets(
                self@,
                server_pool_bytes,
                server_pool_byte_limit,
            ));
        }
        self.dispatch_request_with_server_budgets(header, payload, budgets)
    }
}

} // verus!
