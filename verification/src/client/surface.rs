//! Requests that change what a surface shows.

use vstd::prelude::*;

use crate::arith::{max_i32, min_i32, saturating_difference, saturating_sum};
use crate::bytes;
use crate::client::model;
use crate::client::model::{ClientModel, DamageBounds};
use crate::client::storage::overlay_rows;
use crate::client::{BufferAttachment, BufferInfo, Client, ClientError, DamageRect};
use crate::ids::ObjectId;
use crate::objects::Interface;
use crate::ordered;
use crate::requests::{
    SurfaceAttach, SurfaceDamage, SurfacePatchCurrent, BUFFER_FORMAT_ARGB8888,
    BUFFER_FORMAT_XRGB8888, MAX_SURFACE_PATCH_BYTES,
};

verus! {

broadcast use {crate::ordered::lemma_remove_insert, crate::ordered::lemma_insert_same};

fn bounds_of(r: DamageRect) -> (b: DamageBounds)
    ensures
        b == model::damage_bounds(r),
{
    let x_end: i32 = saturating_sum(r.x, r.width);
    let y_end: i32 = saturating_sum(r.y, r.height);
    DamageBounds {
        left: min_i32(r.x, x_end),
        top: min_i32(r.y, y_end),
        right: max_i32(r.x, x_end),
        bottom: max_i32(r.y, y_end),
    }
}

fn join_bounds(a: DamageBounds, b: DamageBounds) -> (r: DamageBounds)
    ensures
        r == model::joined_bounds(a, b),
{
    DamageBounds {
        left: min_i32(a.left, b.left),
        top: min_i32(a.top, b.top),
        right: max_i32(a.right, b.right),
        bottom: max_i32(a.bottom, b.bottom),
    }
}

/// Folds every listed rectangle and `added` into the one that encloses them.
pub fn coalesce_damage(rects: &mut Vec<DamageRect>, added: DamageRect)
    ensures
        final(rects)@ == seq![model::coalesced(old(rects)@, added)],
{
    let mut bounds = bounds_of(added);
    let mut i: usize = 0;
    proof {
        assert(rects@.take(0) =~= Seq::<DamageRect>::empty());
    }
    while i < rects.len()
        invariant
            i <= rects@.len(),
            rects@ == old(rects)@,
            bounds == model::enclosing_bounds(rects@.take(i as int), added),
        decreases rects@.len() - i,
    {
        proof {
            let next = rects@.take(i + 1);
            assert(next.drop_last() =~= rects@.take(i as int));
            assert(next.last() == rects@[i as int]);
        }
        bounds = join_bounds(bounds, bounds_of(rects[i]));
        i += 1;
    }
    proof {
        assert(rects@.take(i as int) =~= rects@);
    }
    rects.clear();
    rects.push(
        DamageRect {
            x: bounds.left,
            y: bounds.top,
            width: saturating_difference(bounds.right, bounds.left),
            height: saturating_difference(bounds.bottom, bounds.top),
        },
    );
    proof {
        assert(rects@ =~= seq![model::coalesced(old(rects)@, added)]);
    }
}

/// The first and the last row of a patch lie inside the buffer's memory.
proof fn lemma_patch_inside(buffer: BufferInfo, x: int, y: int, width: int, height: int)
    requires
        0 <= x,
        0 <= y,
        0 < width,
        0 < height,
        x + width <= buffer.width,
        y + height <= buffer.height,
        4 * buffer.width <= buffer.stride,
    ensures
        0 <= y * buffer.stride,
        (y + height - 1) * buffer.stride == y * buffer.stride + (height - 1) * buffer.stride,
        0 <= (height - 1) * buffer.stride,
        buffer.offset + (y + height - 1) * buffer.stride + 4 * (x + width) <= buffer.end(),
        buffer.offset + y * buffer.stride + 4 * x + (height - 1) * buffer.stride + 4 * width
            == buffer.offset + (y + height - 1) * buffer.stride + 4 * (x + width),
{
    let stride = buffer.stride as int;
    let rows = buffer.height as int;
    assert(0 <= y * stride) by (nonlinear_arith)
        requires
            0 <= y,
            0 <= stride,
    ;
    assert((y + height - 1) * stride == y * stride + (height - 1) * stride) by (nonlinear_arith);
    assert(0 <= (height - 1) * stride) by (nonlinear_arith)
        requires
            0 < height,
            0 <= stride,
    ;
    assert((y + height - 1) * stride + stride <= stride * rows) by (nonlinear_arith)
        requires
            y + height <= rows,
            0 <= stride,
    ;
}

impl Client {
    fn attach(&mut self, surface_id: ObjectId, payload: &[u8]) -> (r: Result<(), ClientError>)
        ensures
            model::took(old(self)@.attach(surface_id, payload@), final(self)@, r),
    {
        let request = match SurfaceAttach::decode(payload) {
            Ok(request) => request,
            Err(error) => {
                return Err(
                    ClientError::Malformed { interface: Interface::Surface, opcode: 2, error },
                );
            },
        };
        if !request.buffer_id.is_null() && !self.is_object(request.buffer_id, Interface::Buffer) {
            return Err(ClientError::UnknownBuffer { buffer_id: request.buffer_id });
        }
        match self.surfaces.remove(surface_id) {
            Some(mut surface) => {
                surface.pending_attach = true;
                surface.pending_buffer = if request.buffer_id.is_null() {
                    None
                } else {
                    Some(
                        BufferAttachment {
                            buffer_id: request.buffer_id,
                            x: request.x,
                            y: request.y,
                        },
                    )
                };
                let _ = self.surfaces.insert(surface_id, surface);
                Ok(())
            },
            None => {
                proof {
                    assert(old(self)@.surfaces.remove(surface_id) =~= old(self)@.surfaces);
                }
                Err(ClientError::UnknownSurface { surface_id })
            },
        }
    }

    fn damage(&mut self, surface_id: ObjectId, payload: &[u8]) -> (r: Result<(), ClientError>)
        ensures
            model::took(old(self)@.damage(surface_id, payload@), final(self)@, r),
    {
        let request = match SurfaceDamage::decode(payload) {
            Ok(request) => request,
            Err(error) => {
                return Err(
                    ClientError::Malformed { interface: Interface::Surface, opcode: 3, error },
                );
            },
        };
        let rect = DamageRect {
            x: request.x,
            y: request.y,
            width: request.width,
            height: request.height,
        };
        if !self.surfaces.contains_key(surface_id) {
            return Err(ClientError::UnknownSurface { surface_id });
        }
        let limit: usize = self.limits.damage_rects_per_surface;
        if limit == 0 {
            return Ok(());
        }
        if let Some(mut surface) = self.surfaces.remove(surface_id) {
            if surface.pending_damage.len() < limit {
                surface.pending_damage.push(rect);
            } else {
                coalesce_damage(&mut surface.pending_damage, rect);
                surface.pending_damage_unprovable = true;
            }
            let _ = self.surfaces.insert(surface_id, surface);
        }
        Ok(())
    }

    /// Whether two backed buffers share bytes of one pool.
    fn do_overlap(a: BufferInfo, b: BufferInfo) -> (r: bool)
        ensures
            r == (a.pool_id == b.pool_id && a.offset < b.end() && b.offset < a.end()),
    {
        a.pool_id == b.pool_id && (a.offset as u64) < b.byte_end() && (b.offset as u64)
            < a.byte_end()
    }

    /// Refuses to show a buffer that shares bytes with one already shown.
    fn validate_surface_commit_exclusivity(&self, surface_id: ObjectId) -> (r: Result<
        (),
        ClientError,
    >)
        ensures
            match r {
                Ok(_) => self@.commit_fault(surface_id) is None,
                Err(e) => self@.commit_fault(surface_id) == Some(e),
            },
    {
        let surface = match self.surfaces.get(surface_id) {
            Some(surface) => surface,
            None => {
                return Err(ClientError::UnknownSurface { surface_id });
            },
        };
        if !surface.pending_attach {
            return Ok(());
        }
        let candidate = match surface.pending_buffer {
            Some(attachment) => attachment.buffer_id,
            None => {
                return Ok(());
            },
        };
        let extent = match self.backed_buffer(candidate) {
            Some(extent) => extent,
            None => {
                return Err(
                    ClientError::SurfaceCommitInvalidBacking { surface_id, buffer_id: candidate },
                );
            },
        };
        if let Some(replaced) = surface.current_buffer {
            let buffer_id = replaced.buffer_id;
            if buffer_id != candidate {
                match self.backed_buffer(buffer_id) {
                    None => {
                        return Err(
                            ClientError::SurfaceCommitInvalidBacking { surface_id, buffer_id },
                        );
                    },
                    Some(other) => {
                        if Self::do_overlap(extent, other) {
                            return Err(
                                ClientError::SurfaceCommitAliasedBuffer {
                                    surface_id,
                                    buffer_id: candidate,
                                    conflicting_surface_id: surface_id,
                                    conflicting_buffer_id: buffer_id,
                                },
                            );
                        }
                    },
                }
            }
        }
        let ids = self.surfaces.keys();
        let mut i: usize = 0;
        while i < ids.len()
            invariant
                i <= ids@.len(),
                ids@ == ordered::ascending_keys(self@.surfaces.dom()),
                ids@.to_set() == self@.surfaces.dom(),
                extent == self@.buffers[candidate],
                self@.commit_fault(surface_id) == self@.alias_fault_among(
                    ids@,
                    surface_id,
                    candidate,
                    i as nat,
                ),
            decreases ids@.len() - i,
        {
            let other_id = ids[i];
            proof {
                assert(ids@.to_set().contains(ids@[i as int]));
            }
            if other_id != surface_id {
                if let Some(other) = self.surfaces.get(other_id) {
                    if let Some(attachment) = other.current_buffer {
                        let buffer_id = attachment.buffer_id;
                        match self.backed_buffer(buffer_id) {
                            None => {
                                return Err(
                                    ClientError::SurfaceCommitInvalidBacking {
                                        surface_id: other_id,
                                        buffer_id,
                                    },
                                );
                            },
                            Some(info) => {
                                if Self::do_overlap(extent, info) {
                                    return Err(
                                        ClientError::SurfaceCommitAliasedBuffer {
                                            surface_id,
                                            buffer_id: candidate,
                                            conflicting_surface_id: other_id,
                                            conflicting_buffer_id: buffer_id,
                                        },
                                    );
                                }
                            },
                        }
                    }
                }
            }
            i += 1;
        }
        Ok(())
    }

    fn commit(&mut self, surface_id: ObjectId) -> (r: Result<(), ClientError>)
        ensures
            model::took(old(self)@.commit(surface_id), final(self)@, r),
    {
        if let Err(e) = self.validate_surface_commit_exclusivity(surface_id) {
            return Err(e);
        }
        let ghost asked = self@.surfaces[surface_id].pending_frame_callbacks;
        let (released, callbacks) = match self.surfaces.remove(surface_id) {
            Some(mut surface) => {
                let before = match surface.current_buffer {
                    Some(attachment) => Some(attachment.buffer_id),
                    None => None,
                };
                if surface.pending_attach {
                    surface.current_buffer = surface.pending_buffer;
                    surface.pending_buffer = None;
                    surface.pending_attach = false;
                }
                let after = match surface.current_buffer {
                    Some(attachment) => Some(attachment.buffer_id),
                    None => None,
                };
                surface.pending_damage = Vec::new();
                surface.pending_damage_unprovable = false;
                surface.commit_count = surface.commit_count.saturating_add(1);
                let mut callbacks: Vec<ObjectId> = Vec::new();
                core::mem::swap(&mut callbacks, &mut surface.pending_frame_callbacks);
                let _ = self.surfaces.insert(surface_id, surface);
                let kept: bool = match (before, after) {
                    (Some(a), Some(b)) => a == b,
                    (None, None) => true,
                    _ => false,
                };
                (
                    if kept {
                        None
                    } else {
                        before
                    },
                    callbacks,
                )
            },
            None => (None, Vec::new()),
        };
        let ghost waiting = self@.awaiting;
        let mut i: usize = 0;
        let ghost middle = self@;
        proof {
            assert(asked.take(0) =~= Seq::<ObjectId>::empty());
            assert(waiting + model::asked_by(surface_id, Seq::empty()) =~= waiting);
        }
        while i < callbacks.len()
            invariant
                i <= callbacks@.len(),
                callbacks@ == asked,
                self@ == (ClientModel {
                    awaiting: waiting + model::asked_by(surface_id, asked.take(i as int)),
                    ..middle
                }),
            decreases callbacks@.len() - i,
        {
            self.awaiting_present_callbacks.push((surface_id, callbacks[i]));
            i += 1;
            proof {
                assert(self@.awaiting =~= waiting + model::asked_by(
                    surface_id,
                    asked.take(i as int),
                ));
            }
        }
        proof {
            assert(asked.take(i as int) =~= asked);
        }
        self.emit_buffer_release_if_unused(released);
        Ok(())
    }

    /// Refuses a patch that would change bytes another surface shows.
    fn ensure_patch_not_aliased(
        &self,
        surface_id: ObjectId,
        pool_id: ObjectId,
        start: u64,
        end: u64,
    ) -> (r: Result<(), ClientError>)
        ensures
            match r {
                Ok(_) => self@.patch_alias_fault_among(
                    ordered::ascending_keys(self@.surfaces.dom()),
                    surface_id,
                    pool_id,
                    start as int,
                    end as int,
                    0,
                ) is None,
                Err(e) => self@.patch_alias_fault_among(
                    ordered::ascending_keys(self@.surfaces.dom()),
                    surface_id,
                    pool_id,
                    start as int,
                    end as int,
                    0,
                ) == Some(e),
            },
    {
        let ids = self.surfaces.keys();
        let mut i: usize = 0;
        while i < ids.len()
            invariant
                i <= ids@.len(),
                ids@ == ordered::ascending_keys(self@.surfaces.dom()),
                ids@.to_set() == self@.surfaces.dom(),
                self@.patch_alias_fault_among(
                    ids@,
                    surface_id,
                    pool_id,
                    start as int,
                    end as int,
                    0,
                ) == self@.patch_alias_fault_among(
                    ids@,
                    surface_id,
                    pool_id,
                    start as int,
                    end as int,
                    i as nat,
                ),
            decreases ids@.len() - i,
        {
            let other_id = ids[i];
            proof {
                assert(ids@.to_set().contains(ids@[i as int]));
            }
            if other_id != surface_id {
                if let Some(other) = self.surfaces.get(other_id) {
                    if let Some(attachment) = other.current_buffer {
                        let buffer_id = attachment.buffer_id;
                        match self.backed_buffer(buffer_id) {
                            None => {
                                return Err(
                                    ClientError::SurfacePatchInvalidAliasBacking {
                                        other_surface_id: other_id,
                                        buffer_id,
                                    },
                                );
                            },
                            Some(info) => {
                                if info.pool_id == pool_id && start < info.byte_end() && (
                                info.offset as u64) < end {
                                    return Err(
                                        ClientError::SurfacePatchAliasedCurrentBuffer {
                                            surface_id,
                                            other_surface_id: other_id,
                                        },
                                    );
                                }
                            },
                        }
                    }
                }
            }
            i += 1;
        }
        Ok(())
    }

    fn apply_surface_patch_current(&mut self, surface_id: ObjectId, payload: &[u8]) -> (r: Result<
        (),
        ClientError,
    >)
        ensures
            model::took(old(self)@.patch(surface_id, payload@), final(self)@, r),
    {
        if payload.len() > 16 && payload.len() - 16 > MAX_SURFACE_PATCH_BYTES {
            return Err(
                ClientError::SurfacePatchTooLarge {
                    bytes: (payload.len() - 16) as u64,
                    max: MAX_SURFACE_PATCH_BYTES,
                },
            );
        }
        let request = match SurfacePatchCurrent::decode(payload) {
            Ok(request) => request,
            Err(error) => {
                return Err(
                    ClientError::Malformed { interface: Interface::Surface, opcode: 8, error },
                );
            },
        };
        let surface = match self.surfaces.get(surface_id) {
            Some(surface) => surface,
            None => {
                return Err(ClientError::UnknownSurface { surface_id });
            },
        };
        if surface.pending_attach || surface.pending_buffer.is_some() || surface.pending_damage.len()
            > 0 {
            return Err(ClientError::SurfacePatchHasPendingState { surface_id });
        }
        let buffer_id = match surface.current_buffer {
            Some(attachment) => attachment.buffer_id,
            None => {
                return Err(ClientError::SurfacePatchNoCurrentBuffer { surface_id });
            },
        };
        let buffer = match self.buffers.get(buffer_id) {
            Some(buffer) => *buffer,
            None => {
                return Err(ClientError::UnknownBuffer { buffer_id });
            },
        };
        let pool_id = buffer.pool_id;
        if buffer.format != BUFFER_FORMAT_ARGB8888 && buffer.format != BUFFER_FORMAT_XRGB8888 {
            return Err(
                ClientError::SurfacePatchUnsupportedFormat { buffer_id, format: buffer.format },
            );
        }
        if !self.pools.contains_key(pool_id) {
            return Err(ClientError::UnknownPool { pool_id });
        }
        if (buffer.stride as u64) < 4 * (buffer.width as u64) || self.backed_buffer(
            buffer_id,
        ).is_none() {
            return Err(ClientError::SurfacePatchInvalidBacking { buffer_id, pool_id });
        }
        if request.x < 0 || request.y < 0 || request.width == 0 || request.height == 0
            || request.x as u64 + request.width as u64 > buffer.width as u64 || request.y as u64
            + request.height as u64 > buffer.height as u64 {
            return Err(
                ClientError::SurfacePatchInvalidGeometry {
                    x: request.x,
                    y: request.y,
                    width: request.width,
                    height: request.height,
                    buffer_width: buffer.width,
                    buffer_height: buffer.height,
                },
            );
        }
        proof {
            lemma_patch_inside(
                buffer,
                request.x as int,
                request.y as int,
                request.width as int,
                request.height as int,
            );
            assert(4 * (request.width * request.height) == request.height * (4 * request.width))
                by (nonlinear_arith);
        }
        let start: u64 = buffer.offset as u64 + request.y as u64 * buffer.stride as u64 + 4
            * request.x as u64;
        let end: u64 = start + (request.height - 1) as u64 * buffer.stride as u64 + 4
            * request.width as u64;
        if let Err(e) = self.ensure_patch_not_aliased(surface_id, pool_id, start, end) {
            return Err(e);
        }
        if let Some(mut pool) = self.pools.remove(pool_id) {
            overlay_rows(
                &mut pool.storage,
                start as usize,
                buffer.stride as usize,
                4 * request.width as usize,
                request.pixels,
                request.height as usize,
            );
            let _ = self.pools.insert(pool_id, pool);
        }
        if let Some(mut surface) = self.surfaces.remove(surface_id) {
            surface.commit_count = surface.commit_count.saturating_add(1);
            let _ = self.surfaces.insert(surface_id, surface);
        }
        Ok(())
    }

    /// Carries out a request that changes a surface; other requests change
    /// nothing here.
    pub(crate) fn apply_surface_state(
        &mut self,
        surface_id: ObjectId,
        interface: Interface,
        opcode: u16,
        payload: &[u8],
    ) -> (r: Result<(), ClientError>)
        ensures
            model::took(
                old(self)@.apply_surface_state(surface_id, interface, opcode, payload@),
                final(self)@,
                r,
            ),
    {
        match (interface, opcode) {
            (Interface::Surface, 2) => self.attach(surface_id, payload),
            (Interface::Surface, 3) => self.damage(surface_id, payload),
            (Interface::Surface, 7) => self.commit(surface_id),
            (Interface::Surface, 8) => self.apply_surface_patch_current(surface_id, payload),
            _ => Ok(()),
        }
    }
}

} // verus!
