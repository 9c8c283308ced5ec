//! Composing the picture, and tracking what of it changed.

use vstd::prelude::*;

use crate::arith;
use crate::arith::saturating_sum;
use crate::client::model::ClientModel;
use crate::client::{BufferAttachment, Client, DamageRect};
use crate::compositor::{Framebuffer, FramebufferModel};
use crate::ids::{ClientId, ObjectId, WindowId};
use crate::ordered;
use crate::server::damage;
use crate::server::damage::{
    merge_output_damage_rect, DamageModel, OutputDamageRect, PresentationDamage,
};
use crate::server::model::ServerModel;
use crate::server::Server;

verus! {

/// Where a surface's picture is on the output, and its size.
#[derive(Copy, Clone, Debug, PartialEq, Eq, Structural)]
pub struct SurfaceOutputGeometry {
    pub x: i32,
    pub y: i32,
    pub width: u32,
    pub height: u32,
}

/// A frame with what a surface shows drawn at the given place.
pub open spec fn surface_drawn(
    frame: FramebufferModel,
    client: ClientModel,
    surface_id: ObjectId,
    x: i32,
    y: i32,
) -> FramebufferModel {
    if !client.shows(surface_id) {
        frame
    } else {
        let buffer_id = (client.surfaces[surface_id].current_buffer->0).buffer_id;
        match client.buffer_memory(buffer_id) {
            Some(memory) => frame.blitted(
                client.buffers[buffer_id],
                memory,
                x as int,
                y as int,
            ).0,
            None => frame,
        }
    }
}

/// Whether a surface is drawn where it is attached: it never was a window.
pub open spec fn is_plain(client: ClientModel, surface_id: ObjectId) -> bool {
    client.shows(surface_id) && !client.surfaces[surface_id].had_toplevel_role
        && !client.toplevel_by_surface.contains_key(surface_id)
}

/// A frame with those of the listed surfaces drawn that are not windows.
pub open spec fn plain_drawn(
    frame: FramebufferModel,
    client: ClientModel,
    ids: Seq<ObjectId>,
) -> FramebufferModel
    decreases ids.len(),
{
    if ids.len() == 0 {
        frame
    } else {
        let under = plain_drawn(frame, client, ids.drop_last());
        let id = ids.last();
        if is_plain(client, id) {
            let attachment = client.surfaces[id].current_buffer->0;
            surface_drawn(under, client, id, attachment.x, attachment.y)
        } else {
            under
        }
    }
}

impl ServerModel {
    /// A frame with the surfaces of the listed connections drawn that are not
    /// windows.
    pub open spec fn clients_drawn(self, frame: FramebufferModel, ids: Seq<ClientId>) -> FramebufferModel
        decreases ids.len(),
    {
        if ids.len() == 0 {
            frame
        } else {
            let client = self.clients[ids.last()];
            plain_drawn(
                self.clients_drawn(frame, ids.drop_last()),
                client,
                ordered::ascending_keys(client.surfaces.dom()),
            )
        }
    }

    /// A frame with the listed windows drawn, unless they are minimized or
    /// hidden.
    pub open spec fn windows_drawn(
        self,
        frame: FramebufferModel,
        window_ids: Seq<WindowId>,
    ) -> FramebufferModel
        decreases window_ids.len(),
    {
        if window_ids.len() == 0 {
            frame
        } else {
            let under = self.windows_drawn(frame, window_ids.drop_last());
            let id = window_ids.last();
            if self.is_focusable(id) {
                let owner = self.windows[id];
                let client = self.clients[owner.client_id];
                let toplevel = self.toplevel(owner);
                let attachment = client.surfaces[toplevel.surface_id].current_buffer->0;
                surface_drawn(
                    under,
                    client,
                    toplevel.surface_id,
                    arith::sat_i32(toplevel.x + attachment.x),
                    arith::sat_i32(toplevel.y + attachment.y),
                )
            } else {
                under
            }
        }
    }

    /// The picture: the background, then the surfaces that are not windows,
    /// then the windows from the lowest to the highest.
    #[verifier::opaque]
    pub open spec fn scene(self) -> FramebufferModel {
        self.windows_drawn(
            self.clients_drawn(
                self.frame.cleared(),
                ordered::ascending_keys(self.clients.dom()),
            ),
            self.z_order,
        )
    }

    /// The state with the picture composed anew.
    pub open spec fn composed(self) -> ServerModel {
        ServerModel {
            frame: self.scene(),
            scene_generation: self.scene_generation.wrapping_add(1),
            ..self
        }
    }

    /// The state after a change has been noted: the picture is composed anew,
    /// now or at the end of the batch.
    #[verifier::opaque]
    pub open spec fn changed(self, damage: DamageModel) -> ServerModel {
        let noted = ServerModel {
            damage: self.damage.with(damage),
            recomposition_serial: self.recomposition_serial.wrapping_add(1),
            ..self
        };
        if noted.deferred {
            ServerModel { pending: true, ..noted }
        } else {
            noted.composed()
        }
    }

    /// Where a surface's picture would be if it showed the given attachment.
    pub open spec fn geometry_of(
        self,
        client_id: ClientId,
        surface_id: ObjectId,
        attachment: Option<BufferAttachment>,
    ) -> Option<SurfaceOutputGeometry> {
        if !self.clients.contains_key(client_id) || !self.clients[client_id].surfaces.contains_key(
            surface_id,
        ) || attachment is None || !self.clients[client_id].buffers.contains_key(
            (attachment->0).buffer_id,
        ) {
            None
        } else {
            let client = self.clients[client_id];
            let at = attachment->0;
            let buffer = client.buffers[at.buffer_id];
            if client.toplevel_by_surface.contains_key(surface_id) {
                let toplevel_id = client.toplevel_by_surface[surface_id];
                if !client.toplevels.contains_key(toplevel_id)
                    || client.toplevels[toplevel_id].minimized
                    || client.toplevels[toplevel_id].hidden_for_restore {
                    None
                } else {
                    let toplevel = client.toplevels[toplevel_id];
                    Some(
                        SurfaceOutputGeometry {
                            x: arith::sat_i32(toplevel.x + at.x),
                            y: arith::sat_i32(toplevel.y + at.y),
                            width: buffer.width,
                            height: buffer.height,
                        },
                    )
                }
            } else if client.surfaces[surface_id].had_toplevel_role {
                None
            } else {
                Some(
                    SurfaceOutputGeometry {
                        x: at.x,
                        y: at.y,
                        width: buffer.width,
                        height: buffer.height,
                    },
                )
            }
        }
    }

    /// Where a surface's picture is.
    pub open spec fn geometry(self, client_id: ClientId, surface_id: ObjectId) -> Option<
        SurfaceOutputGeometry,
    > {
        if self.clients.contains_key(client_id) && self.clients[client_id].surfaces.contains_key(
            surface_id,
        ) {
            self.geometry_of(
                client_id,
                surface_id,
                self.clients[client_id].surfaces[surface_id].current_buffer,
            )
        } else {
            None
        }
    }

    /// The part of a rectangle that lies on the output.
    pub open spec fn on_output(self, x: int, y: int, width: u32, height: u32) -> Option<
        OutputDamageRect,
    > {
        let left = arith::max_int(x, 0);
        let top = arith::max_int(y, 0);
        let right = arith::min_int(x + width, self.frame.width as int);
        let bottom = arith::min_int(y + height, self.frame.height as int);
        if right <= left || bottom <= top {
            None
        } else {
            Some(
                OutputDamageRect {
                    x: left as u32,
                    y: top as u32,
                    width: (right - left) as u32,
                    height: (bottom - top) as u32,
                },
            )
        }
    }
}

/// Whether a rectangle is not empty and lies inside a picture of the given
/// size.
pub open spec fn lies_inside(
    geometry: SurfaceOutputGeometry,
    x: int,
    y: int,
    width: int,
    height: int,
) -> bool {
    &&& x >= 0
    &&& y >= 0
    &&& width > 0
    &&& height > 0
    &&& x + width <= geometry.width
    &&& y + height <= geometry.height
}

impl ServerModel {
    /// The part of the output that local damage of a surface touches.
    pub open spec fn local_damage(
        self,
        geometry: SurfaceOutputGeometry,
        x: i32,
        y: i32,
        width: u32,
        height: u32,
    ) -> Option<OutputDamageRect> {
        self.on_output(geometry.x + x, geometry.y + y, width, height)
    }

    /// The parts of the output that the listed damage of a surface touches;
    /// nothing if some of it is empty or lies outside the picture.
    pub open spec fn listed_damage(
        self,
        geometry: SurfaceOutputGeometry,
        rects: Seq<DamageRect>,
    ) -> Option<Seq<OutputDamageRect>>
        decreases rects.len(),
    {
        if rects.len() == 0 {
            Some(Seq::empty())
        } else {
            let r = rects.last();
            let before = self.listed_damage(geometry, rects.drop_last());
            if before is None || !lies_inside(
                geometry,
                r.x as int,
                r.y as int,
                r.width as int,
                r.height as int,
            ) {
                None
            } else {
                match self.local_damage(geometry, r.x, r.y, r.width as u32, r.height as u32) {
                    Some(rect) => Some(damage::merged(before->0, rect)),
                    None => before,
                }
            }
        }
    }

    /// The attachment that a surface will show after its next commit.
    pub open spec fn next_attachment(self, client_id: ClientId, surface_id: ObjectId) -> Option<
        BufferAttachment,
    > {
        let surface = self.clients[client_id].surfaces[surface_id];
        if surface.pending_attach {
            surface.pending_buffer
        } else {
            surface.current_buffer
        }
    }

    /// What a commit would change on the output, and where the surface's
    /// picture must then be for it to be no more than that.
    pub open spec fn commit_candidate(self, client_id: ClientId, surface_id: ObjectId) -> (
        DamageModel,
        Option<SurfaceOutputGeometry>,
    ) {
        if !self.clients.contains_key(client_id) || !self.clients[client_id].surfaces.contains_key(
            surface_id,
        ) {
            (DamageModel::Full, None)
        } else {
            let surface = self.clients[client_id].surfaces[surface_id];
            let now = self.geometry_of(client_id, surface_id, surface.current_buffer);
            let then = self.geometry_of(
                client_id,
                surface_id,
                self.next_attachment(client_id, surface_id),
            );
            if surface.pending_damage.len() == 0 || surface.pending_damage_unprovable || now is None
                || now != then {
                (DamageModel::Full, None)
            } else {
                match self.listed_damage(now->0, surface.pending_damage) {
                    Some(rects) => (DamageModel::Bounded(rects), now),
                    None => (DamageModel::Full, None),
                }
            }
        }
    }

    /// What a patch of a surface's picture changes on the output.
    pub open spec fn patch_damage(
        self,
        client_id: ClientId,
        surface_id: ObjectId,
        x: i32,
        y: i32,
        width: u32,
        height: u32,
    ) -> DamageModel {
        match self.geometry(client_id, surface_id) {
            Some(geometry) => if lies_inside(
                geometry,
                x as int,
                y as int,
                width as int,
                height as int,
            ) {
                match self.local_damage(geometry, x, y, width, height) {
                    Some(rect) => DamageModel::Bounded(seq![rect]),
                    None => DamageModel::none(),
                }
            } else {
                DamageModel::Full
            },
            None => DamageModel::Full,
        }
    }

    /// What changes on the output when a window is raised.
    pub open spec fn raise_damage(self, window_id: WindowId) -> DamageModel {
        match self.focus_target(window_id) {
            Some((client_id, surface_id)) => match self.geometry(client_id, surface_id) {
                Some(geometry) => match self.on_output(
                    geometry.x as int,
                    geometry.y as int,
                    geometry.width,
                    geometry.height,
                ) {
                    Some(rect) => DamageModel::Bounded(seq![rect]),
                    None => DamageModel::none(),
                },
                None => DamageModel::Full,
            },
            None => DamageModel::Full,
        }
    }
}

/// Damage cut to the output lies on it, and covers every pixel of the output
/// that the rectangle covers.
pub proof fn law_clipped_damage_is_on_output(
    s: ServerModel,
    x: int,
    y: int,
    width: u32,
    height: u32,
    px: int,
    py: int,
)
    ensures
        match s.on_output(x, y, width, height) {
            Some(r) => r.width > 0 && r.height > 0 && r.right() <= s.frame.width && r.bottom()
                <= s.frame.height && r.is_regular(),
            None => true,
        },
        (x <= px < x + width && y <= py < y + height && 0 <= px < s.frame.width && 0 <= py
            < s.frame.height) <==> (s.on_output(x, y, width, height) is Some && (s.on_output(
            x,
            y,
            width,
            height,
        )->0).has(px, py)),
{
}

/// Draws what a surface shows at the given place.
fn blit_client_surface(
    framebuffer: &mut Framebuffer,
    client: &Client,
    surface_id: ObjectId,
    x: i32,
    y: i32,
)
    ensures
        final(framebuffer)@ == surface_drawn(old(framebuffer)@, client@, surface_id, x, y),
{
    if let Some(surface) = client.surfaces.get(surface_id) {
        if let Some(attachment) = surface.current_buffer {
            if let Some(info) = client.buffers.get(attachment.buffer_id) {
                if let Some(memory) = client.buffer_bytes(attachment.buffer_id) {
                    let _ = framebuffer.blit_buffer(info, memory, x, y);
                }
            }
        }
    }
}

/// Draws the surfaces of a connection that are not windows.
fn draw_plain_surfaces(framebuffer: &mut Framebuffer, client: &Client)
    ensures
        final(framebuffer)@ == plain_drawn(
            old(framebuffer)@,
            client@,
            ordered::ascending_keys(client@.surfaces.dom()),
        ),
{
    let ids = client.surfaces.keys();
    let mut i: usize = 0;
    proof {
        assert(ids@.take(0) =~= Seq::<ObjectId>::empty());
    }
    while i < ids.len()
        invariant
            i <= ids@.len(),
            framebuffer@ == plain_drawn(old(framebuffer)@, client@, ids@.take(i as int)),
        decreases ids@.len() - i,
    {
        let id = ids[i];
        proof {
            assert(ids@.take(i + 1).drop_last() =~= ids@.take(i as int));
            assert(ids@.take(i + 1).last() == id);
        }
        if let Some(surface) = client.surfaces.get(id) {
            if !surface.had_toplevel_role && !client.toplevel_by_surface.contains_key(id) {
                if let Some(attachment) = surface.current_buffer {
                    blit_client_surface(framebuffer, client, id, attachment.x, attachment.y);
                }
            }
        }
        i += 1;
    }
    proof {
        assert(ids@.take(i as int) =~= ids@);
    }
}

impl Server {
    /// Composes the picture anew.
    pub(crate) fn recomposite_scene(&mut self)
        ensures
            final(self)@ == old(self)@.composed(),
    {
        proof {
            reveal(ServerModel::scene);
        }
        let ghost start = self@;
        self.framebuffer.clear_for_composition();
        let ghost cleared = self@.frame;
        let ids = self.clients.keys();
        let mut i: usize = 0;
        proof {
            assert(ids@.take(0) =~= Seq::<ClientId>::empty());
        }
        while i < ids.len()
            invariant
                i <= ids@.len(),
                ids@.to_set() == start.clients.dom(),
                self@ == (ServerModel { frame: self@.frame, ..start }),
                self@.frame == start.clients_drawn(cleared, ids@.take(i as int)),
            decreases ids@.len() - i,
        {
            proof {
                assert(ids@.take(i + 1).drop_last() =~= ids@.take(i as int));
                assert(ids@.take(i + 1).last() == ids@[i as int]);
                assert(ids@.to_set().contains(ids@[i as int]));
            }
            if let Some(client) = self.clients.get(ids[i]) {
                draw_plain_surfaces(&mut self.framebuffer, client);
            }
            i += 1;
        }
        proof {
            assert(ids@.take(i as int) =~= ids@);
        }
        let ghost plain = self@.frame;
        let mut i: usize = 0;
        proof {
            assert(self@.z_order.take(0) =~= Seq::<WindowId>::empty());
        }
        while i < self.z_order.len()
            invariant
                i <= self.z_order@.len(),
                self@ == (ServerModel { frame: self@.frame, ..start }),
                self@.frame == start.windows_drawn(plain, start.z_order.take(i as int)),
            decreases self.z_order@.len() - i,
        {
            let window_id = self.z_order[i];
            proof {
                assert(start.z_order.take(i + 1).drop_last() =~= start.z_order.take(i as int));
                assert(start.z_order.take(i + 1).last() == window_id);
            }
            if let Some(owner) = self.windows.get(window_id) {
                if let Some(client) = self.clients.get(owner.client_id) {
                    if let Some(toplevel) = client.toplevels.get(owner.toplevel_id) {
                        if !toplevel.minimized && !toplevel.hidden_for_restore {
                            if let Some(surface) = client.surfaces.get(toplevel.surface_id) {
                                if let Some(attachment) = surface.current_buffer {
                                    blit_client_surface(
                                        &mut self.framebuffer,
                                        client,
                                        toplevel.surface_id,
                                        saturating_sum(toplevel.x, attachment.x),
                                        saturating_sum(toplevel.y, attachment.y),
                                    );
                                }
                            }
                        }
                    }
                }
            }
            i += 1;
        }
        proof {
            assert(start.z_order.take(i as int) =~= start.z_order);
        }
        self.scene_generation = self.scene_generation.wrapping_add(1);
    }

    /// Notes a change that may be anywhere.
    pub(crate) fn request_recomposition(&mut self)
        ensures
            final(self)@ == old(self)@.changed(DamageModel::Full),
    {
        self.request_recomposition_with_damage(&PresentationDamage::Full);
    }

    /// Notes a change.
    pub(crate) fn request_recomposition_with_damage(&mut self, damage: &PresentationDamage)
        ensures
            final(self)@ == old(self)@.changed(damage@),
    {
        proof {
            reveal(ServerModel::changed);
        }
        self.presentation_damage.accumulate(damage);
        self.recomposition_serial = self.recomposition_serial.wrapping_add(1);
        if self.recomposition_deferred {
            self.recomposition_pending = true;
        } else {
            self.recomposite_scene();
        }
    }

    fn surface_output_geometry_for_attachment(
        &self,
        client_id: ClientId,
        surface_id: ObjectId,
        attachment: Option<BufferAttachment>,
    ) -> (r: Option<SurfaceOutputGeometry>)
        ensures
            r == self@.geometry_of(client_id, surface_id, attachment),
    {
        let client = match self.clients.get(client_id) {
            Some(client) => client,
            None => {
                return None;
            },
        };
        let surface = match client.surfaces.get(surface_id) {
            Some(surface) => surface,
            None => {
                return None;
            },
        };
        let at = match attachment {
            Some(at) => at,
            None => {
                return None;
            },
        };
        let buffer = match client.buffers.get(at.buffer_id) {
            Some(buffer) => buffer,
            None => {
                return None;
            },
        };
        if let Some(toplevel_id) = client.toplevel_by_surface.get(surface_id) {
            return match client.toplevels.get(*toplevel_id) {
                Some(toplevel) => if toplevel.minimized || toplevel.hidden_for_restore {
                    None
                } else {
                    Some(
                        SurfaceOutputGeometry {
                            x: saturating_sum(toplevel.x, at.x),
                            y: saturating_sum(toplevel.y, at.y),
                            width: buffer.width,
                            height: buffer.height,
                        },
                    )
                },
                None => None,
            };
        }
        if surface.had_toplevel_role {
            return None;
        }
        Some(
            SurfaceOutputGeometry { x: at.x, y: at.y, width: buffer.width, height: buffer.height },
        )
    }

    pub(crate) fn surface_output_geometry(&self, client_id: ClientId, surface_id: ObjectId) -> (r:
        Option<SurfaceOutputGeometry>)
        ensures
            r == self@.geometry(client_id, surface_id),
    {
        match self.clients.get(client_id) {
            Some(client) => match client.surfaces.get(surface_id) {
                Some(surface) => self.surface_output_geometry_for_attachment(
                    client_id,
                    surface_id,
                    surface.current_buffer,
                ),
                None => None,
            },
            None => None,
        }
    }

    fn clip_output_damage(&self, x: i64, y: i64, width: u32, height: u32) -> (r: Option<
        OutputDamageRect,
    >)
        requires
            -0x1_0000_0000 <= x <= 0x1_0000_0000,
            -0x1_0000_0000 <= y <= 0x1_0000_0000,
        ensures
            r == self@.on_output(x as int, y as int, width, height),
    {
        let output_width: i64 = self.framebuffer.width() as i64;
        let output_height: i64 = self.framebuffer.height() as i64;
        let left: i64 = if x > 0 {
            x
        } else {
            0
        };
        let top: i64 = if y > 0 {
            y
        } else {
            0
        };
        let right: i64 = if x + width as i64 <= output_width {
            x + width as i64
        } else {
            output_width
        };
        let bottom: i64 = if y + height as i64 <= output_height {
            y + height as i64
        } else {
            output_height
        };
        if right <= left || bottom <= top {
            return None;
        }
        Some(
            OutputDamageRect {
                x: left as u32,
                y: top as u32,
                width: (right - left) as u32,
                height: (bottom - top) as u32,
            },
        )
    }

    /// The part of the output that local damage of a surface touches, or an
    /// error if the damage is empty or lies outside the picture.
    fn validated_surface_local_damage(
        &self,
        geometry: SurfaceOutputGeometry,
        x: i32,
        y: i32,
        width: u32,
        height: u32,
    ) -> (r: Result<Option<OutputDamageRect>, ()>)
        ensures
            match r {
                Ok(rect) => lies_inside(
                    geometry,
                    x as int,
                    y as int,
                    width as int,
                    height as int,
                ) && rect == self@.local_damage(geometry, x, y, width, height),
                Err(_) => !lies_inside(
                    geometry,
                    x as int,
                    y as int,
                    width as int,
                    height as int,
                ),
            },
    {
        if x < 0 || y < 0 || width == 0 || height == 0 {
            return Err(());
        }
        if x as u64 + width as u64 > geometry.width as u64 || y as u64 + height as u64
            > geometry.height as u64 {
            return Err(());
        }
        Ok(
            self.clip_output_damage(
                geometry.x as i64 + x as i64,
                geometry.y as i64 + y as i64,
                width,
                height,
            ),
        )
    }

    /// What a commit would change on the output, and where the surface's
    /// picture must then be for it to be no more than that.
    pub(crate) fn surface_commit_damage_candidate(
        &self,
        client_id: ClientId,
        surface_id: ObjectId,
    ) -> (r: (PresentationDamage, Option<SurfaceOutputGeometry>))
        ensures
            (r.0@, r.1) == self@.commit_candidate(client_id, surface_id),
    {
        let client = match self.clients.get(client_id) {
            Some(client) => client,
            None => {
                return (PresentationDamage::Full, None);
            },
        };
        let surface = match client.surfaces.get(surface_id) {
            Some(surface) => surface,
            None => {
                return (PresentationDamage::Full, None);
            },
        };
        if surface.pending_damage.len() == 0 || surface.pending_damage_unprovable {
            return (PresentationDamage::Full, None);
        }
        let now = self.surface_output_geometry_for_attachment(
            client_id,
            surface_id,
            surface.current_buffer,
        );
        let next = if surface.pending_attach {
            surface.pending_buffer
        } else {
            surface.current_buffer
        };
        let then = self.surface_output_geometry_for_attachment(client_id, surface_id, next);
        let geometry = match now {
            Some(geometry) => geometry,
            None => {
                return (PresentationDamage::Full, None);
            },
        };
        match then {
            Some(expected) => {
                if expected != geometry {
                    return (PresentationDamage::Full, None);
                }
            },
            None => {
                return (PresentationDamage::Full, None);
            },
        }
        let ghost pending = surface@.pending_damage;
        let mut rects: Vec<OutputDamageRect> = Vec::new();
        let mut i: usize = 0;
        proof {
            assert(pending.take(0) =~= Seq::<DamageRect>::empty());
            assert(self@.listed_damage(geometry, pending.take(0)) == Some(
                Seq::<OutputDamageRect>::empty(),
            ));
        }
        while i < surface.pending_damage.len()
            invariant
                i <= surface.pending_damage@.len(),
                pending == surface.pending_damage@,
                self@.listed_damage(geometry, pending) is None ==> self@.commit_candidate(
                    client_id,
                    surface_id,
                ) == (DamageModel::Full, None::<SurfaceOutputGeometry>),
                self@.listed_damage(geometry, pending.take(i as int)) == Some(rects@),
            decreases surface.pending_damage@.len() - i,
        {
            let r = surface.pending_damage[i];
            proof {
                assert(pending.take(i + 1).drop_last() =~= pending.take(i as int));
                assert(pending.take(i + 1).last() == r);
                if self@.listed_damage(geometry, pending.take(i + 1)) is None {
                    self@.lemma_listed_damage(geometry, pending, i + 1);
                }
            }
            if r.width < 0 || r.height < 0 {
                return (PresentationDamage::Full, None);
            }
            match self.validated_surface_local_damage(
                geometry,
                r.x,
                r.y,
                r.width as u32,
                r.height as u32,
            ) {
                Ok(Some(rect)) => {
                    merge_output_damage_rect(&mut rects, rect);
                },
                Ok(None) => {},
                Err(_) => {
                    return (PresentationDamage::Full, None);
                },
            }
            i += 1;
        }
        proof {
            assert(pending.take(i as int) =~= pending);
        }
        (PresentationDamage::Bounded(rects), Some(geometry))
    }

    /// What a patch of a surface's picture changes on the output.
    pub(crate) fn surface_patch_presentation_damage(
        &self,
        client_id: ClientId,
        surface_id: ObjectId,
        x: i32,
        y: i32,
        width: u32,
        height: u32,
    ) -> (damage: PresentationDamage)
        ensures
            damage@ == self@.patch_damage(client_id, surface_id, x, y, width, height),
    {
        match self.surface_output_geometry(client_id, surface_id) {
            Some(geometry) => match self.validated_surface_local_damage(
                geometry,
                x,
                y,
                width,
                height,
            ) {
                Ok(rect) => PresentationDamage::of_rect(rect),
                Err(_) => PresentationDamage::Full,
            },
            None => PresentationDamage::Full,
        }
    }

    /// What changes on the output when a window is raised.
    pub(crate) fn raised_window_presentation_damage(&self, window_id: WindowId) -> (damage:
        PresentationDamage)
        ensures
            damage@ == self@.raise_damage(window_id),
    {
        match self.focus_target(window_id) {
            Some((client_id, surface_id)) => match self.surface_output_geometry(
                client_id,
                surface_id,
            ) {
                Some(geometry) => PresentationDamage::of_rect(
                    self.clip_output_damage(
                        geometry.x as i64,
                        geometry.y as i64,
                        geometry.width,
                        geometry.height,
                    ),
                ),
                None => PresentationDamage::Full,
            },
            None => PresentationDamage::Full,
        }
    }
}

impl ServerModel {
    /// Once some of the damage is refused, all of it is.
    proof fn lemma_listed_damage(
        self,
        geometry: SurfaceOutputGeometry,
        rects: Seq<DamageRect>,
        n: int,
    )
        requires
            0 <= n <= rects.len(),
            self.listed_damage(geometry, rects.take(n)) is None,
        ensures
            self.listed_damage(geometry, rects) is None,
        decreases rects.len() - n,
    {
        if n == rects.len() {
            assert(rects.take(n) =~= rects);
        } else {
            assert(rects.take(n + 1).drop_last() =~= rects.take(n));
            self.lemma_listed_damage(geometry, rects, n + 1);
        }
    }
}

} // verus!
