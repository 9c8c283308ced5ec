//! Every change of the picture is noted.

use vstd::prelude::*;

use crate::arith;
use crate::bytes;
use crate::client::model;
use crate::client::model::{ClientModel, ToplevelModel};
use crate::client::sound;
use crate::client::storage;
use crate::client::{BufferAttachment, BufferInfo, DamageRect};
use crate::compositor;
use crate::compositor::FramebufferModel;
use crate::ids::{ClientId, ObjectId, WindowId};
use crate::objects::Interface;
use crate::ordered;
use crate::server::damage;
use crate::server::damage::{DamageModel, MAX_PRESENTATION_DAMAGE_RECTS};
use crate::server::focus;
use crate::server::model::ServerModel;
use crate::server::pixels;
use crate::server::pixels::same_size;
use crate::server::scene;
use crate::server::scene::SurfaceOutputGeometry;
use crate::server::shells;
use crate::server::telling;
use crate::server::telling::{is_told, is_up_to_date, only_tells, stands_same};
use crate::wire;
use crate::wire::{MessageHeader, HEADER_SIZE};

verus! {

// What a pixel of the picture depends on.

/// The byte `k` of what a surface shows at a pixel of a frame, when it is drawn
/// at a place, if it shows anything there.
pub open spec fn surface_byte(
    frame: FramebufferModel,
    client: ClientModel,
    surface_id: ObjectId,
    x: int,
    y: int,
    px: int,
    py: int,
    k: int,
) -> Option<u8> {
    if !client.shows(surface_id) {
        None
    } else {
        let buffer_id = (client.surfaces[surface_id].current_buffer->0).buffer_id;
        let info = client.buffers[buffer_id];
        match client.buffer_memory(buffer_id) {
            Some(memory) => if frame.is_drawn(info, memory.len(), x, y, px, py) {
                Some(memory[info.stride * (py - y) + 4 * (px - x) + k])
            } else {
                None
            },
            None => None,
        }
    }
}

/// The same of a surface that is not a window.
pub open spec fn plain_byte(
    frame: FramebufferModel,
    client: ClientModel,
    surface_id: ObjectId,
    px: int,
    py: int,
    k: int,
) -> Option<u8> {
    if scene::is_plain(client, surface_id) {
        let at = client.surfaces[surface_id].current_buffer->0;
        surface_byte(frame, client, surface_id, at.x as int, at.y as int, px, py, k)
    } else {
        None
    }
}

/// What is drawn last is seen.
pub(crate) proof fn lemma_surface_drawn(
    frame: FramebufferModel,
    f: FramebufferModel,
    client: ClientModel,
    surface_id: ObjectId,
    x: i32,
    y: i32,
    px: int,
    py: int,
    k: int,
)
    requires
        same_size(frame, f),
        0 <= px < frame.width,
        0 <= py < frame.height,
        0 <= k < 4,
    ensures
        ({
            let after = scene::surface_drawn(f, client, surface_id, x, y);
            let at = 4 * (frame.width * py + px) + k;
            &&& same_size(frame, after)
            &&& after.pixels[at] == match surface_byte(
                frame,
                client,
                surface_id,
                x as int,
                y as int,
                px,
                py,
                k,
            ) {
                Some(byte) => byte,
                None => f.pixels[at],
            }
        }),
{
    if client.shows(surface_id) {
        let buffer_id = (client.surfaces[surface_id].current_buffer->0).buffer_id;
        let info = client.buffers[buffer_id];
        if let Some(memory) = client.buffer_memory(buffer_id) {
            compositor::law_blit_is_exact(f, info, memory, x as int, y as int, px, py, k);
            pixels::lemma_drawn_on_same_size(
                frame,
                f,
                info,
                memory.len(),
                x as int,
                y as int,
                px,
                py,
            );
        }
    }
}

/// A byte that is the same under surfaces that show the same there is the same
/// over them.
proof fn lemma_plain_drawn_alike(
    frame: FramebufferModel,
    fa: FramebufferModel,
    fb: FramebufferModel,
    a: ClientModel,
    b: ClientModel,
    ids: Seq<ObjectId>,
    px: int,
    py: int,
    k: int,
)
    requires
        same_size(frame, fa),
        same_size(frame, fb),
        0 <= px < frame.width,
        0 <= py < frame.height,
        0 <= k < 4,
        fa.pixels[4 * (frame.width * py + px) + k] == fb.pixels[4 * (frame.width * py + px) + k],
        forall|id: ObjectId| #[trigger]
            plain_byte(frame, a, id, px, py, k) == plain_byte(frame, b, id, px, py, k),
    ensures
        ({
            let da = scene::plain_drawn(fa, a, ids);
            let db = scene::plain_drawn(fb, b, ids);
            let at = 4 * (frame.width * py + px) + k;
            same_size(frame, da) && same_size(frame, db) && da.pixels[at] == db.pixels[at]
        }),
    decreases ids.len(),
{
    if ids.len() > 0 {
        let front = ids.drop_last();
        let id = ids.last();
        lemma_plain_drawn_alike(frame, fa, fb, a, b, front, px, py, k);
        let ua = scene::plain_drawn(fa, a, front);
        let ub = scene::plain_drawn(fb, b, front);
        assert(plain_byte(frame, a, id, px, py, k) == plain_byte(frame, b, id, px, py, k));
        if scene::is_plain(a, id) {
            let at = a.surfaces[id].current_buffer->0;
            lemma_surface_drawn(frame, ua, a, id, at.x, at.y, px, py, k);
        }
        if scene::is_plain(b, id) {
            let at = b.surfaces[id].current_buffer->0;
            lemma_surface_drawn(frame, ub, b, id, at.x, at.y, px, py, k);
        }
    }
}

/// Whether two states have the same connections, with surfaces of the same
/// names.
pub open spec fn same_names(a: ServerModel, b: ServerModel) -> bool {
    &&& a.clients.dom() == b.clients.dom()
    &&& forall|id: ClientId|
        a.clients.contains_key(id) ==> (#[trigger] a.clients[id]).surfaces.dom()
            == b.clients[id].surfaces.dom()
}

/// Whether all surfaces that are not windows show the same at a pixel.
pub open spec fn plain_alike(a: ServerModel, b: ServerModel, px: int, py: int, k: int) -> bool {
    forall|id: ClientId, surface_id: ObjectId|
        a.clients.contains_key(id) ==> #[trigger] plain_byte(
            a.frame,
            a.clients[id],
            surface_id,
            px,
            py,
            k,
        ) == plain_byte(a.frame, b.clients[id], surface_id, px, py, k)
}

proof fn lemma_clients_drawn_alike(
    a: ServerModel,
    b: ServerModel,
    fa: FramebufferModel,
    fb: FramebufferModel,
    ids: Seq<ClientId>,
    px: int,
    py: int,
    k: int,
)
    requires
        same_size(a.frame, fa),
        same_size(a.frame, fb),
        0 <= px < a.frame.width,
        0 <= py < a.frame.height,
        0 <= k < 4,
        fa.pixels[4 * (a.frame.width * py + px) + k] == fb.pixels[4 * (a.frame.width * py + px)
            + k],
        same_names(a, b),
        plain_alike(a, b, px, py, k),
        forall|i: int| 0 <= i < ids.len() ==> a.clients.contains_key(#[trigger] ids[i]),
    ensures
        ({
            let da = a.clients_drawn(fa, ids);
            let db = b.clients_drawn(fb, ids);
            let at = 4 * (a.frame.width * py + px) + k;
            same_size(a.frame, da) && same_size(a.frame, db) && da.pixels[at] == db.pixels[at]
        }),
    decreases ids.len(),
{
    if ids.len() > 0 {
        let front = ids.drop_last();
        let id = ids.last();
        assert forall|i: int| 0 <= i < front.len() implies a.clients.contains_key(
            #[trigger] front[i],
        ) by {
            assert(front[i] == ids[i]);
        }
        lemma_clients_drawn_alike(a, b, fa, fb, front, px, py, k);
        assert(a.clients.contains_key(ids[ids.len() - 1]));
        let ca = a.clients[id];
        let cb = b.clients[id];
        assert(ca.surfaces.dom() == cb.surfaces.dom());
        assert forall|surface_id: ObjectId| #[trigger]
            plain_byte(a.frame, ca, surface_id, px, py, k) == plain_byte(
                a.frame,
                cb,
                surface_id,
                px,
                py,
                k,
            ) by {
            assert(plain_byte(a.frame, a.clients[id], surface_id, px, py, k) == plain_byte(
                a.frame,
                b.clients[id],
                surface_id,
                px,
                py,
                k,
            ));
        }
        lemma_plain_drawn_alike(
            a.frame,
            a.clients_drawn(fa, front),
            b.clients_drawn(fb, front),
            ca,
            cb,
            ordered::ascending_keys(ca.surfaces.dom()),
            px,
            py,
            k,
        );
    }
}

/// Whether the highest window that shows something at a pixel shows the same
/// there in two states, or no window does in either.
pub open spec fn windows_alike(a: ServerModel, b: ServerModel, px: int, py: int, k: int) -> bool {
    ||| exists|i: int, j: int|
        0 <= i < a.z_order.len() && 0 <= j < b.z_order.len() && #[trigger] a.window_byte(
            a.z_order[i],
            px,
            py,
            k,
        ) is Some && a.window_byte(a.z_order[i], px, py, k) == #[trigger] b.window_byte(
            b.z_order[j],
            px,
            py,
            k,
        ) && (forall|m: int|
            i < m < a.z_order.len() ==> a.window_byte(#[trigger] a.z_order[m], px, py, k) is None)
            && (forall|m: int|
            j < m < b.z_order.len() ==> b.window_byte(#[trigger] b.z_order[m], px, py, k) is None)
    ||| (forall|m: int|
        0 <= m < a.z_order.len() ==> a.window_byte(#[trigger] a.z_order[m], px, py, k) is None) && (
    forall|m: int|
        0 <= m < b.z_order.len() ==> b.window_byte(#[trigger] b.z_order[m], px, py, k) is None)
}

/// A pixel at which surfaces and windows show the same is the same.
pub(crate) proof fn lemma_scene_alike(a: ServerModel, b: ServerModel, px: int, py: int, k: int)
    requires
        same_size(a.frame, b.frame),
        a.frame.clear_argb == b.frame.clear_argb,
        a.clients.dom().finite(),
        0 <= px < a.frame.width,
        0 <= py < a.frame.height,
        0 <= k < 4,
        same_names(a, b),
        plain_alike(a, b, px, py, k),
        windows_alike(a, b, px, py, k),
    ensures
        a.scene().pixels[4 * (a.frame.width * py + px) + k] == b.scene().pixels[4 * (
        a.frame.width * py + px) + k],
{
    let ids = ordered::ascending_keys(a.clients.dom());
    ordered::law_ascending_keys_list_all(a.clients.dom());
    assert forall|i: int| 0 <= i < ids.len() implies a.clients.contains_key(#[trigger] ids[i]) by {
        assert(ids.to_set().contains(ids[i]));
    }
    assert(a.frame.cleared().pixels =~= b.frame.cleared().pixels) by {
        lemma_whole_pixels(a.frame.width as int, a.frame.height as int);
    }
    lemma_clients_drawn_alike(a, b, a.frame.cleared(), b.frame.cleared(), ids, px, py, k);
    pixels::law_topmost_window_is_seen(a, px, py, k);
    pixels::law_topmost_window_is_seen(b, px, py, k);
    if !(forall|m: int|
        0 <= m < a.z_order.len() ==> a.window_byte(#[trigger] a.z_order[m], px, py, k) is None) {
        let (i, j) = choose|i: int, j: int|
            0 <= i < a.z_order.len() && 0 <= j < b.z_order.len() && #[trigger] a.window_byte(
                a.z_order[i],
                px,
                py,
                k,
            ) is Some && a.window_byte(a.z_order[i], px, py, k) == #[trigger] b.window_byte(
                b.z_order[j],
                px,
                py,
                k,
            ) && (forall|m: int|
                i < m < a.z_order.len() ==> a.window_byte(#[trigger] a.z_order[m], px, py, k)
                    is None) && (forall|m: int|
                j < m < b.z_order.len() ==> b.window_byte(#[trigger] b.z_order[m], px, py, k)
                    is None);
        assert(a.window_byte(a.z_order[i], px, py, k) is Some);
    }
}

proof fn lemma_whole_pixels(width: int, height: int)
    requires
        0 <= width,
        0 <= height,
    ensures
        forall|i: int| 0 <= i < 4 * (width * height) ==> i - #[trigger] (i % 4) + 4 <= 4 * (width * height),
{
}

/// The same order, and the same shown by every window of it at a pixel.
pub(crate) proof fn lemma_same_windows(a: ServerModel, b: ServerModel, px: int, py: int, k: int)
    requires
        a.z_order == b.z_order,
        forall|w: WindowId| #[trigger]
            a.window_byte(w, px, py, k) == b.window_byte(w, px, py, k),
    ensures
        windows_alike(a, b, px, py, k),
{
    lemma_highest(a, a.z_order, px, py, k);
    assert forall|m: int| 0 <= m < a.z_order.len() implies a.window_byte(
        #[trigger] a.z_order[m],
        px,
        py,
        k,
    ) == b.window_byte(b.z_order[m], px, py, k) by {}
    if exists|m: int|
        0 <= m < a.z_order.len() && a.window_byte(#[trigger] a.z_order[m], px, py, k) is Some {
        let i = choose|i: int|
            0 <= i < a.z_order.len() && a.window_byte(#[trigger] a.z_order[i], px, py, k) is Some
                && (forall|m: int|
                i < m < a.z_order.len() ==> a.window_byte(#[trigger] a.z_order[m], px, py, k)
                    is None);
        assert(a.window_byte(a.z_order[i], px, py, k) == b.window_byte(b.z_order[i], px, py, k));
    }
}

/// Some window of an order that shows something at a pixel is the highest.
proof fn lemma_highest(s: ServerModel, order: Seq<WindowId>, px: int, py: int, k: int)
    ensures
        (exists|m: int|
            0 <= m < order.len() && s.window_byte(#[trigger] order[m], px, py, k) is Some) ==> (
        exists|i: int|
            0 <= i < order.len() && s.window_byte(#[trigger] order[i], px, py, k) is Some && (
            forall|m: int|
                i < m < order.len() ==> s.window_byte(#[trigger] order[m], px, py, k) is None)),
{
    if exists|m: int|
        0 <= m < order.len() && s.window_byte(#[trigger] order[m], px, py, k) is Some {
        let m = choose|m: int|
            0 <= m < order.len() && s.window_byte(#[trigger] order[m], px, py, k) is Some;
        let shown = Seq::new(order.len(), |i: int| s.window_byte(order[i], px, py, k) is Some);
        assert(shown[m]);
        let i = lemma_last_one(shown, m);
        assert(s.window_byte(order[i], px, py, k) is Some);
        assert forall|m: int| i < m < order.len() implies s.window_byte(
            #[trigger] order[m],
            px,
            py,
            k,
        ) is None by {
            assert(!shown[m]);
        }
    }
}

proof fn lemma_last_one(marks: Seq<bool>, m: int) -> (i: int)
    requires
        0 <= m < marks.len(),
        marks[m],
    ensures
        0 <= i < marks.len(),
        marks[i],
        forall|j: int| i < j < marks.len() ==> !#[trigger] marks[j],
    decreases marks.len(),
{
    let last = marks.len() - 1;
    if marks[last] {
        last
    } else {
        let i = lemma_last_one(marks.drop_last(), m);
        assert forall|j: int| i < j < marks.len() implies !#[trigger] marks[j] by {
            if j < last {
                assert(marks.drop_last()[j] == marks[j]);
            }
        }
        i
    }
}

// What a commit and a patch change of a connection.

/// Whether the buffers and pools that are left are as they were.
pub open spec fn rest_stays(a: ClientModel, b: ClientModel) -> bool {
    &&& forall|id: ObjectId| #[trigger]
        b.buffers.contains_key(id) ==> a.buffers.contains_key(id) && b.buffers[id]
            == a.buffers[id]
    &&& forall|id: ObjectId| #[trigger]
        b.pools.contains_key(id) ==> a.pools.contains_key(id) && b.pools[id] == a.pools[id]
}

proof fn lemma_buried(c: ClientModel, buffers: Seq<ObjectId>, pools: Seq<ObjectId>)
    ensures
        rest_stays(c, c.bury_buffers(buffers)),
        c.bury_buffers(buffers).surfaces == c.surfaces,
        c.bury_buffers(buffers).toplevel_by_surface == c.toplevel_by_surface,
        c.bury_buffers(buffers).toplevels == c.toplevels,
        rest_stays(c, c.bury_pools(pools)),
        c.bury_pools(pools).surfaces == c.surfaces,
        c.bury_pools(pools).toplevel_by_surface == c.toplevel_by_surface,
        c.bury_pools(pools).toplevels == c.toplevels,
    decreases buffers.len() + pools.len(),
{
    broadcast use crate::client::model::lemma_emit_frame;

    if buffers.len() > 0 {
        lemma_buried(c, buffers.drop_last(), pools);
    }
    if pools.len() > 0 {
        lemma_buried(c, buffers, pools.drop_last());
    }
}

pub(crate) proof fn lemma_reaped(c: ClientModel)
    ensures
        rest_stays(c, c.reap()),
        c.reap().surfaces == c.surfaces,
        c.reap().toplevel_by_surface == c.toplevel_by_surface,
        c.reap().toplevels == c.toplevels,
{
    reveal(ClientModel::reap);
    let ids = ordered::ascending_keys(c.dead_buffers());
    let fewer = c.bury_buffers(ids);
    lemma_buried(c, ids, Seq::empty());
    lemma_buried(fewer, Seq::empty(), ordered::ascending_keys(fewer.dead_pools()));
}

/// What a commit leaves of a connection.
pub(crate) proof fn lemma_commit(
    c: ClientModel,
    header: MessageHeader,
    payload: Seq<u8>,
    budgets: crate::client::ServerResourceBudgets,
    granted: bool,
)
    requires
        c.is_sound(),
        c.is_reaped(),
        c.is_object(header.object_id, Interface::Surface),
        header.opcode == 7,
        c.dispatched(header, payload, budgets, granted).1 is None,
    ensures
        ({
            let after = c.dispatched(header, payload, budgets, granted).0;
            let id = header.object_id;
            &&& after.is_sound()
            &&& rest_stays(c, after)
            &&& c.surfaces.contains_key(id)
            &&& after.surfaces.dom() == c.surfaces.dom()
            &&& forall|t: ObjectId|
                t != id && c.surfaces.contains_key(t) ==> #[trigger] after.surfaces[t]
                    == c.surfaces[t]
            &&& after.surfaces[id].current_buffer == if c.surfaces[id].pending_attach {
                c.surfaces[id].pending_buffer
            } else {
                c.surfaces[id].current_buffer
            }
            &&& after.surfaces[id].had_toplevel_role == c.surfaces[id].had_toplevel_role
            &&& after.toplevel_by_surface == c.toplevel_by_surface
            &&& after.toplevels == c.toplevels
            &&& c.commit_fault(id) is None
        }),
{
    broadcast use crate::client::model::lemma_emit_frame;

    sound::law_dispatch_keeps_sound(c, header, payload, budgets, granted);
    reveal(ClientModel::dispatched);
    reveal(ClientModel::mutated);
    let id = header.object_id;
    let step = c.commit(id);
    assert(step.1 is None);
    lemma_reaped(step.0);
    assert(step.0.surfaces.dom() =~= c.surfaces.dom());
}

/// What a patch leaves of a connection.
proof fn lemma_patch(
    c: ClientModel,
    header: MessageHeader,
    payload: Seq<u8>,
    budgets: crate::client::ServerResourceBudgets,
    granted: bool,
)
    requires
        c.is_sound(),
        c.is_reaped(),
        c.is_object(header.object_id, Interface::Surface),
        header.opcode == 8,
        c.dispatched(header, payload, budgets, granted).1 is None,
    ensures
        ({
            let after = c.dispatched(header, payload, budgets, granted).0;
            let id = header.object_id;
            let step = c.patch(id, payload).0;
            &&& after.is_sound()
            &&& c.patch_fault(id, payload) is None
            &&& rest_stays(step, after)
            &&& c.surfaces.contains_key(id)
            &&& after.surfaces.dom() == c.surfaces.dom()
            &&& forall|t: ObjectId|
                t != id && c.surfaces.contains_key(t) ==> #[trigger] after.surfaces[t]
                    == c.surfaces[t]
            &&& after.surfaces[id].current_buffer == c.surfaces[id].current_buffer
            &&& after.surfaces[id].had_toplevel_role == c.surfaces[id].had_toplevel_role
            &&& after.toplevel_by_surface == c.toplevel_by_surface
            &&& after.toplevels == c.toplevels
        }),
{
    broadcast use crate::client::model::lemma_emit_frame;

    sound::law_dispatch_keeps_sound(c, header, payload, budgets, granted);
    reveal(ClientModel::dispatched);
    reveal(ClientModel::mutated);
    let id = header.object_id;
    let step = c.patch(id, payload);
    assert(step.1 is None);
    lemma_reaped(step.0);
    assert(step.0.surfaces.dom() =~= c.surfaces.dom());
}


// Where a picture is drawn.

/// A picture whose rows do not run into one another is drawn on every pixel of
/// the frame that lies on it.
pub(crate) proof fn lemma_drawn_everywhere(
    frame: FramebufferModel,
    info: BufferInfo,
    source: nat,
    x: int,
    y: int,
    px: int,
    py: int,
)
    requires
        frame.is_whole(),
        info.stride >= 4 * info.width,
        source == info.stride * info.height,
        0 <= px < frame.width,
        0 <= py < frame.height,
    ensures
        frame.is_drawn(info, source, x, y, px, py) == (info.width <= i32::MAX && info.height
            <= i32::MAX && x <= px < x + info.width && y <= py < y + info.height),
{
    let r = compositor::clipped(
        frame.width as int,
        frame.height as int,
        x,
        y,
        info.width as int,
        info.height as int,
    );
    if r.left <= px < r.right && r.top < r.bottom {
        lemma_all_rows_present(frame, r, info, source, x, y, 0);
    }
}

proof fn lemma_all_rows_present(
    frame: FramebufferModel,
    r: compositor::ClippedRect,
    info: BufferInfo,
    source: nat,
    x: int,
    y: int,
    from: nat,
)
    requires
        frame.is_whole(),
        info.stride >= 4 * info.width,
        source == info.stride * info.height,
        r == compositor::clipped(
            frame.width as int,
            frame.height as int,
            x,
            y,
            info.width as int,
            info.height as int,
        ),
        r.left < r.right,
        from <= r.bottom - r.top,
    ensures
        frame.rows_present(r, info, source, x, y, from) == r.bottom - r.top,
    decreases r.bottom - r.top - from,
{
    if from < r.bottom - r.top {
        let stride = info.stride as int;
        let height = info.height as int;
        let width = frame.width as int;
        let row = r.top - y + from;
        let line = r.top + from;
        assert(stride * row + stride <= stride * height) by (nonlinear_arith)
            requires
                0 <= row,
                row + 1 <= height,
                0 <= stride,
        ;
        assert(4 * width * line + 4 * width <= 4 * (width * frame.height)) by (nonlinear_arith)
            requires
                0 <= line,
                line + 1 <= frame.height,
                0 <= width,
        ;
        lemma_all_rows_present(frame, r, info, source, x, y, from + 1);
    }
}

// Listed damage.

/// Whether some listed rectangle of a surface has a point.
pub open spec fn is_listed(rects: Seq<DamageRect>, x: int, y: int) -> bool {
    exists|i: int|
        0 <= i < rects.len() && (#[trigger] rects[i]).x <= x < rects[i].x + rects[i].width
            && rects[i].y <= y < rects[i].y + rects[i].height
}

/// Every pixel of the output at which a surface is damaged is one of the noted
/// ones: damage is given from the surface's corner, and noted from the output's.
proof fn lemma_listed_damage_is_noted(
    s: ServerModel,
    geometry: SurfaceOutputGeometry,
    rects: Seq<DamageRect>,
    px: int,
    py: int,
)
    requires
        s.listed_damage(geometry, rects) is Some,
        0 <= px < s.frame.width,
        0 <= py < s.frame.height,
    ensures
        ({
            let noted = s.listed_damage(geometry, rects)->0;
            &&& damage::all_regular(noted)
            &&& noted.len() <= MAX_PRESENTATION_DAMAGE_RECTS
            &&& is_listed(rects, px - geometry.x, py - geometry.y) ==> damage::some_has(
                noted,
                px,
                py,
            )
        }),
    decreases rects.len(),
{
    if rects.len() > 0 {
        let front = rects.drop_last();
        let r = rects.last();
        lemma_listed_damage_is_noted(s, geometry, front, px, py);
        let before = s.listed_damage(geometry, front)->0;
        scene::law_clipped_damage_is_on_output(
            s,
            geometry.x + r.x,
            geometry.y + r.y,
            r.width as u32,
            r.height as u32,
            px,
            py,
        );
        if let Some(rect) = s.local_damage(geometry, r.x, r.y, r.width as u32, r.height as u32) {
            damage::law_merged_covers(before, rect, px, py);
        }
        if is_listed(rects, px - geometry.x, py - geometry.y) {
            let i = choose|i: int|
                0 <= i < rects.len() && (#[trigger] rects[i]).x <= px - geometry.x < rects[i].x
                    + rects[i].width && rects[i].y <= py - geometry.y < rects[i].y
                    + rects[i].height;
            if i < front.len() {
                assert(front[i] == rects[i]);
                assert(is_listed(front, px - geometry.x, py - geometry.y));
            }
        }
    }
}

// Two states that differ in what one surface shows.

/// Whether a surface shows the same in two states of a connection.
pub open spec fn shows_same(a: ClientModel, b: ClientModel, surface_id: ObjectId) -> bool {
    &&& a.shows(surface_id) == b.shows(surface_id)
    &&& a.shows(surface_id) ==> {
        let buffer_id = (a.surfaces[surface_id].current_buffer->0).buffer_id;
        &&& b.surfaces[surface_id].current_buffer == a.surfaces[surface_id].current_buffer
        &&& b.buffers[buffer_id] == a.buffers[buffer_id]
        &&& b.buffer_memory(buffer_id) == a.buffer_memory(buffer_id)
    }
}

/// Whether two states of a connection differ at most in what one surface shows.
pub open spec fn same_but_surface(a: ClientModel, b: ClientModel, surface_id: ObjectId) -> bool {
    &&& a.surfaces.dom() == b.surfaces.dom()
    &&& a.toplevel_by_surface == b.toplevel_by_surface
    &&& a.toplevels.dom() == b.toplevels.dom()
    &&& forall|t: ObjectId|
        a.toplevels.contains_key(t) ==> stands_same(#[trigger] a.toplevels[t], b.toplevels[t])
    &&& forall|t: ObjectId|
        a.surfaces.contains_key(t) ==> (#[trigger] a.surfaces[t]).had_toplevel_role
            == b.surfaces[t].had_toplevel_role
    &&& forall|t: ObjectId| t != surface_id ==> #[trigger] shows_same(a, b, t)
}

/// The same of two states of the server.
pub open spec fn same_but_one(
    a: ServerModel,
    b: ServerModel,
    client_id: ClientId,
    surface_id: ObjectId,
) -> bool {
    &&& a.clients.contains_key(client_id)
    &&& a.clients.dom() == b.clients.dom()
    &&& a.windows == b.windows
    &&& a.z_order == b.z_order
    &&& a.frame == b.frame
    &&& same_but_surface(a.clients[client_id], b.clients[client_id], surface_id)
    &&& forall|id: ClientId|
        a.clients.contains_key(id) && id != client_id ==> #[trigger] same_but_surface(
            a.clients[id],
            b.clients[id],
            surface_id,
        ) && shows_same(a.clients[id], b.clients[id], surface_id)
}

/// What a window shows, as what its surface shows.
proof fn lemma_window_byte(s: ServerModel, window_id: WindowId, px: int, py: int, k: int)
    ensures
        s.window_byte(window_id, px, py, k) == if s.is_focusable(window_id) {
            let owner = s.windows[window_id];
            let client = s.clients[owner.client_id];
            let toplevel = s.toplevel(owner);
            let at = client.surfaces[toplevel.surface_id].current_buffer->0;
            surface_byte(
                s.frame,
                client,
                toplevel.surface_id,
                arith::sat_i32(toplevel.x + at.x) as int,
                arith::sat_i32(toplevel.y + at.y) as int,
                px,
                py,
                k,
            )
        } else {
            None
        },
{
}

/// Where the one surface shows the same too, so does the scene.
pub(crate) proof fn lemma_scene_alike_but_one(
    a: ServerModel,
    b: ServerModel,
    client_id: ClientId,
    surface_id: ObjectId,
    px: int,
    py: int,
    k: int,
)
    requires
        same_but_one(a, b, client_id, surface_id),
        a.frame.is_whole(),
        a.clients.dom().finite(),
        0 <= px < a.frame.width,
        0 <= py < a.frame.height,
        0 <= k < 4,
        plain_byte(a.frame, a.clients[client_id], surface_id, px, py, k) == plain_byte(
            a.frame,
            b.clients[client_id],
            surface_id,
            px,
            py,
            k,
        ),
        forall|w: WindowId|
            a.windows.contains_key(w) && a.windows[w].client_id == client_id && a.has_toplevel(
                a.windows[w],
            ) && a.toplevel(a.windows[w]).surface_id == surface_id ==> #[trigger] a.window_byte(
                w,
                px,
                py,
                k,
            ) == b.window_byte(w, px, py, k),
    ensures
        a.scene().pixels[4 * (a.frame.width * py + px) + k] == b.scene().pixels[4 * (
        a.frame.width * py + px) + k],
{
    assert forall|id: ClientId| a.clients.contains_key(id) implies (
    #[trigger] a.clients[id]).surfaces.dom() == b.clients[id].surfaces.dom() by {
        assert(same_but_surface(a.clients[id], b.clients[id], surface_id));
    }
    assert forall|id: ClientId, t: ObjectId| a.clients.contains_key(id) implies #[trigger] plain_byte(
        a.frame,
        a.clients[id],
        t,
        px,
        py,
        k,
    ) == plain_byte(a.frame, b.clients[id], t, px, py, k) by {
        let ca = a.clients[id];
        let cb = b.clients[id];
        assert(same_but_surface(ca, cb, surface_id));
        if id != client_id || t != surface_id {
            assert(shows_same(ca, cb, t));
            if ca.shows(t) {
                assert(ca.surfaces[t].had_toplevel_role == cb.surfaces[t].had_toplevel_role);
            }
        }
    }
    assert forall|w: WindowId| #[trigger] a.window_byte(w, px, py, k) == b.window_byte(
        w,
        px,
        py,
        k,
    ) by {
        lemma_window_byte(a, w, px, py, k);
        lemma_window_byte(b, w, px, py, k);
        if a.windows.contains_key(w) {
            let owner = a.windows[w];
            if a.clients.contains_key(owner.client_id) {
                let ca = a.clients[owner.client_id];
                let cb = b.clients[owner.client_id];
                assert(same_but_surface(ca, cb, surface_id));
                assert(b.clients.dom().contains(owner.client_id));
                assert(ca.toplevels.dom().contains(owner.toplevel_id) == cb.toplevels.dom().contains(
                    owner.toplevel_id,
                ));
                if ca.toplevels.contains_key(owner.toplevel_id) {
                    assert(stands_same(
                        ca.toplevels[owner.toplevel_id],
                        cb.toplevels[owner.toplevel_id],
                    ));
                    let t = ca.toplevels[owner.toplevel_id].surface_id;
                    if t != surface_id || owner.client_id != client_id {
                        assert(shows_same(ca, cb, t));
                    }
                }
            } else {
                assert(!b.clients.dom().contains(owner.client_id));
            }
        }
    }
    lemma_same_windows(a, b, px, py, k);
    lemma_scene_alike(a, b, px, py, k);
}


// Requests about surfaces.

/// Whether a message is a request of a number to a surface of a connection.
pub open spec fn asks_surface(
    s: ServerModel,
    client_id: ClientId,
    message: Seq<u8>,
    opcode: u16,
) -> bool {
    &&& wire::header_fault(message) is None
    &&& s.interface_of(client_id, wire::header_at(message).object_id) == Some(
        Interface::Surface,
    )
    &&& wire::header_at(message).opcode == opcode
}

/// What is sent along with a message.
pub open spec fn payload_of(message: Seq<u8>) -> Seq<u8> {
    message.subrange(HEADER_SIZE as int, wire::header_at(message).length as int)
}

/// A request about a surface that is not refused.
pub(crate) proof fn lemma_surface_request(
    s: ServerModel,
    client_id: ClientId,
    message: Seq<u8>,
    opcode: u16,
    granted: bool,
) -> (taken: ServerModel)
    requires
        asks_surface(s, client_id, message, opcode),
        s.dispatched(client_id, message, granted).1 is None,
    ensures
        ({
            let header = wire::header_at(message);
            let step = s.clients[client_id].dispatched(
                header,
                payload_of(message),
                s.budgets(client_id),
                granted,
            );
            &&& step.1 is None
            &&& s.clients.contains_key(client_id)
            &&& taken == (ServerModel {
                clients: s.clients.insert(client_id, step.0),
                pool_bytes: taken.pool_bytes,
                toplevel_metadata_bytes: taken.toplevel_metadata_bytes,
                ..s
            })
            &&& s.dispatched(client_id, message, granted).0 == taken.surface_followed(
                s,
                client_id,
                header.object_id,
                opcode,
                payload_of(message),
            )
        }),
{
    reveal(ServerModel::carried_out);
    let header = wire::header_at(message);
    let step = s.clients[client_id].dispatched(
        header,
        payload_of(message),
        s.budgets(client_id),
        granted,
    );
    s.recounted(client_id, step.0)
}

/// The first configure event changes nothing that is seen.
proof fn lemma_first_configured(s: ServerModel, client_id: ClientId, surface_id: ObjectId)
    ensures
        s.first_configured(client_id, surface_id).frame == s.frame,
        s.first_configured(client_id, surface_id).damage == s.damage,
{
    broadcast use telling::group_shows;

    reveal(ServerModel::first_configured);
}

/// What follows a commit of a surface that is no window, or one that was seen
/// before: the picture of a state that differs in what does not matter to it.
proof fn lemma_committed(
    t: ServerModel,
    before: ServerModel,
    client_id: ClientId,
    surface_id: ObjectId,
) -> (drawn: ServerModel)
    requires
        !t.deferred,
        t.clients.dom().finite(),
        t.owner_of_surface(client_id, surface_id) is Some ==> t.toplevel(
            t.owner_of_surface(client_id, surface_id)->0,
        ).mapped_once,
    ensures
        ({
            let (expected, at) = before.commit_candidate(client_id, surface_id);
            let after = t.committed(before, client_id, surface_id);
            &&& after.frame == drawn.scene()
            &&& after.damage == t.damage.with(
                if at is Some && at == t.geometry(client_id, surface_id) {
                    expected
                } else {
                    DamageModel::Full
                },
            )
            &&& drawn == (ServerModel { clients: drawn.clients, restore: drawn.restore, ..t })
            &&& drawn.clients.dom() == t.clients.dom()
            &&& forall|id: ClientId|
                t.clients.contains_key(id) ==> same_but_toplevels(
                    #[trigger] t.clients[id],
                    drawn.clients[id],
                )
        }),
{
    broadcast use telling::group_shows;

    reveal(ServerModel::committed);
    reveal(ServerModel::geometry_noted);
    reveal(ServerModel::placement_noted);
    reveal(ServerModel::first_shown);
    let size_before = before.clients[client_id].shown_size(surface_id);
    let (expected, at) = before.commit_candidate(client_id, surface_id);
    let (kept, changed) = t.geometry_noted(client_id, surface_id, size_before);
    assert(kept.clients.dom() =~= t.clients.dom());
    assert forall|id: ClientId| t.clients.contains_key(id) implies same_but_toplevels(
        #[trigger] t.clients[id],
        kept.clients[id],
    ) by {
        assert(t.clients[id].toplevels.dom() =~= kept.clients[id].toplevels.dom());
    }
    let (placed, settled) = kept.placement_noted(client_id, surface_id);
    assert(placed.owner_of_surface(client_id, surface_id) == t.owner_of_surface(
        client_id,
        surface_id,
    )) by {
        if t.clients.contains_key(client_id) {
            assert(same_but_toplevels(t.clients[client_id], kept.clients[client_id]));
            let a = t.clients[client_id].toplevels.dom();
            let b = kept.clients[client_id].toplevels.dom();
            let toplevel_id = t.clients[client_id].toplevel_by_surface[surface_id];
            assert(a.contains(toplevel_id) == b.contains(toplevel_id));
        }
        assert(t.clients.dom().contains(client_id) == kept.clients.dom().contains(client_id));
    }
    let (mapped, focused) = placed.first_shown(client_id, surface_id);
    assert(mapped == placed);
    assert(mapped.geometry(client_id, surface_id) == t.geometry(client_id, surface_id)) by {
        assert(t.clients.dom().contains(client_id) == kept.clients.dom().contains(client_id));
        if t.clients.contains_key(client_id) {
            assert(same_but_toplevels(t.clients[client_id], mapped.clients[client_id]));
            let a = t.clients[client_id].toplevels.dom();
            let b = mapped.clients[client_id].toplevels.dom();
            let toplevel_id = t.clients[client_id].toplevel_by_surface[surface_id];
            assert(a.contains(toplevel_id) == b.contains(toplevel_id));
        }
    }
    let damage = if at is Some && at == mapped.geometry(client_id, surface_id) {
        expected
    } else {
        DamageModel::Full
    };
    let drawn = mapped.changed(damage);
    assert(drawn.damage == mapped.damage.with(damage) && drawn.frame == mapped.scene()) by {
        reveal(ServerModel::changed);
        let noted = ServerModel {
            damage: mapped.damage.with(damage),
            recomposition_serial: mapped.recomposition_serial.wrapping_add(1),
            ..mapped
        };
        telling::lemma_scene_of_told(mapped, noted);
    }
    let shown = ServerModel {
        commit_owner: if drawn.commit_owner == Some(client_id) {
            None
        } else {
            drawn.commit_owner
        },
        ..drawn
    };
    let announced = match focused {
        Some(window_id) => shown.announce_focus(Some(window_id)),
        None => shown,
    };
    let different = if changed is Some {
        changed
    } else {
        settled
    };
    let told = if different is Some && !announced.drags(different->0) {
        announced.announce_state(different->0)
    } else {
        announced
    };
    assert(told.frame == shown.frame && told.damage == shown.damage);
    lemma_first_configured(told, client_id, surface_id);
    mapped
}

/// Whether two states of a connection differ at most in what its toplevels
/// remember: they are in the same places, and as visible.
pub open spec fn same_but_toplevels(a: ClientModel, b: ClientModel) -> bool {
    &&& b == (ClientModel { toplevels: b.toplevels, ..a })
    &&& a.toplevels.dom() == b.toplevels.dom()
    &&& forall|t: ObjectId|
        a.toplevels.contains_key(t) ==> stands_same(#[trigger] a.toplevels[t], b.toplevels[t])
}

/// Whether the rows of the picture that an attachment shows do not run into one
/// another.
pub open spec fn rows_are_apart(client: ClientModel, at: BufferAttachment) -> bool {
    client.buffers[at.buffer_id].stride >= 4 * client.buffers[at.buffer_id].width
}

/// The byte `k` of a pixel of the picture that an attachment shows.
pub open spec fn picture_byte(
    client: ClientModel,
    at: BufferAttachment,
    x: int,
    y: int,
    k: int,
) -> u8 {
    let info = client.buffers[at.buffer_id];
    (client.buffer_memory(at.buffer_id)->0)[info.stride * y + 4 * x + k]
}

/// Whether a surface's next commit changes nothing of its picture outside the
/// damage that was reported for it.
pub open spec fn reports_damage(client: ClientModel, surface_id: ObjectId) -> bool {
    let surface = client.surfaces[surface_id];
    let now = surface.current_buffer;
    let then = if surface.pending_attach {
        surface.pending_buffer
    } else {
        surface.current_buffer
    };
    now is Some && then is Some ==> {
        let info = client.buffers[(now->0).buffer_id];
        &&& rows_are_apart(client, now->0)
        &&& rows_are_apart(client, then->0)
        &&& forall|x: int, y: int, k: int|
            0 <= x < info.width && 0 <= y < info.height && 0 <= k < 4 && !is_listed(
                surface.pending_damage,
                x,
                y,
            ) ==> #[trigger] picture_byte(client, now->0, x, y, k) == picture_byte(
                client,
                then->0,
                x,
                y,
                k,
            )
    }
}

/// What is left of a sound connection's memory is shown as before.
proof fn lemma_memory_stays(a: ClientModel, b: ClientModel, buffer_id: ObjectId)
    requires
        a.is_sound(),
        b.is_sound(),
        rest_stays(a, b),
        b.buffers.contains_key(buffer_id),
    ensures
        a.buffers.contains_key(buffer_id),
        b.buffers[buffer_id] == a.buffers[buffer_id],
        b.buffer_memory(buffer_id) == a.buffer_memory(buffer_id),
        a.buffer_memory(buffer_id) is Some,
        (a.buffer_memory(buffer_id)->0).len() == a.buffers[buffer_id].stride
            * a.buffers[buffer_id].height,
{
    assert(b.is_backed(buffer_id));
    assert(a.is_backed(buffer_id));
    assert(b.pools.contains_key(b.buffers[buffer_id].pool_id));
    let stride = a.buffers[buffer_id].stride as int;
    let height = a.buffers[buffer_id].height as int;
    assert(0 <= stride * height) by (nonlinear_arith)
        requires
            0 <= stride,
            0 <= height,
    ;
}

/// A surface whose picture is in the same place, and the same at a point, shows
/// the same there.
proof fn lemma_surface_byte_stays(
    frame: FramebufferModel,
    a: ClientModel,
    b: ClientModel,
    surface_id: ObjectId,
    now: BufferAttachment,
    then: BufferAttachment,
    x: int,
    y: int,
    px: int,
    py: int,
    k: int,
)
    requires
        frame.is_whole(),
        0 <= px < frame.width,
        0 <= py < frame.height,
        0 <= k < 4,
        a.is_sound(),
        a.shows(surface_id),
        a.surfaces[surface_id].current_buffer == Some(now),
        b.shows(surface_id),
        b.surfaces[surface_id].current_buffer == Some(then),
        a.buffers.contains_key(now.buffer_id),
        a.buffers.contains_key(then.buffer_id),
        b.buffers[then.buffer_id] == a.buffers[then.buffer_id],
        b.buffer_memory(then.buffer_id) == a.buffer_memory(then.buffer_id),
        a.buffers[now.buffer_id].width == a.buffers[then.buffer_id].width,
        a.buffers[now.buffer_id].height == a.buffers[then.buffer_id].height,
        rows_are_apart(a, now),
        rows_are_apart(a, then),
        0 <= px - x < a.buffers[now.buffer_id].width && 0 <= py - y
            < a.buffers[now.buffer_id].height ==> picture_byte(a, now, px - x, py - y, k)
            == picture_byte(a, then, px - x, py - y, k),
    ensures
        surface_byte(frame, a, surface_id, x, y, px, py, k) == surface_byte(
            frame,
            b,
            surface_id,
            x,
            y,
            px,
            py,
            k,
        ),
{
    lemma_memory_stays(a, a, now.buffer_id);
    lemma_memory_stays(a, a, then.buffer_id);
    let old = a.buffers[now.buffer_id];
    let new = a.buffers[then.buffer_id];
    let source = (a.buffer_memory(now.buffer_id)->0).len();
    let fresh = (a.buffer_memory(then.buffer_id)->0).len();
    lemma_drawn_everywhere(frame, old, source, x, y, px, py);
    lemma_drawn_everywhere(frame, new, fresh, x, y, px, py);
}

/// After a commit, every pixel at which the picture differs from the one before
/// is among those noted as changed, for whichever window or surface it is, and
/// wherever that is on the output. The surface must be no window, or one that
/// was seen before; and its pictures must differ in no more than the damage that
/// was reported.
pub proof fn law_commit_notes_what_it_changes(
    s: ServerModel,
    client_id: ClientId,
    message: Seq<u8>,
    granted: bool,
    px: int,
    py: int,
    k: int,
)
    requires
        s.is_sound(),
        is_up_to_date(s),
        !s.deferred,
        s.damage.is_regular(),
        s.damage is Bounded ==> s.damage->0.len() <= MAX_PRESENTATION_DAMAGE_RECTS,
        asks_surface(s, client_id, message, 7),
        s.dispatched(client_id, message, granted).1 is None,
        reports_damage(s.clients[client_id], wire::header_at(message).object_id),
        s.owner_of_surface(client_id, wire::header_at(message).object_id) is Some ==> s.toplevel(
            s.owner_of_surface(client_id, wire::header_at(message).object_id)->0,
        ).mapped_once,
        0 <= px < s.frame.width,
        0 <= py < s.frame.height,
        0 <= k < 4,
    ensures
        ({
            let after = s.dispatched(client_id, message, granted).0;
            let at = 4 * (s.frame.width * py + px) + k;
            after.frame.pixels[at] != s.frame.pixels[at] ==> after.damage.has(px, py)
        }),
{
    let header = wire::header_at(message);
    let id = header.object_id;
    let taken = lemma_surface_request(s, client_id, message, 7, granted);
    let a = s.clients[client_id];
    assert(a.is_sound() && a.is_reaped());
    lemma_commit(a, header, payload_of(message), s.budgets(client_id), granted);
    let b = taken.clients[client_id];
    assert(taken.clients.dom() =~= s.clients.dom());
    let drawn = lemma_committed(taken, s, client_id, id);
    let c = drawn.clients[client_id];
    assert(same_but_toplevels(b, c)) by {
        assert(taken.clients.contains_key(client_id));
    }
    let after = s.dispatched(client_id, message, granted).0;
    let (expected, at) = s.commit_candidate(client_id, id);
    if at is Some && at == taken.geometry(client_id, id) {
        let g = at->0;
        let surface = a.surfaces[id];
        lemma_listed_damage_is_noted(s, g, surface.pending_damage, px, py);
        damage::law_damage_accumulates(s.damage, expected, px, py);
        if !after.damage.has(px, py) {
            assert(!is_listed(surface.pending_damage, px - g.x, py - g.y));
            let now = surface.current_buffer->0;
            let then = s.next_attachment(client_id, id)->0;
            assert(b.surfaces[id].current_buffer == Some(then));
            assert(b.buffers.contains_key(then.buffer_id)) by {
                assert(b.surfaces.contains_key(id));
            }
            lemma_memory_stays(a, b, then.buffer_id);
            lemma_same_but_one(s, taken, drawn, client_id, id);
            lemma_surface_byte_stays(
                s.frame,
                a,
                c,
                id,
                now,
                then,
                g.x as int,
                g.y as int,
                px,
                py,
                k,
            );
            assert(plain_byte(s.frame, a, id, px, py, k) == plain_byte(s.frame, c, id, px, py, k));
            assert forall|w: WindowId|
                s.windows.contains_key(w) && s.windows[w].client_id == client_id && s.has_toplevel(
                    s.windows[w],
                ) && s.toplevel(s.windows[w]).surface_id == id implies #[trigger] s.window_byte(
                w,
                px,
                py,
                k,
            ) == drawn.window_byte(w, px, py, k) by {
                lemma_window_byte(s, w, px, py, k);
                lemma_window_byte(drawn, w, px, py, k);
                let toplevel_id = s.windows[w].toplevel_id;
                assert(a.toplevels.contains_key(toplevel_id));
                assert(b.toplevels.dom().contains(toplevel_id));
                assert(c.toplevels.dom().contains(toplevel_id));
                assert(stands_same(b.toplevels[toplevel_id], c.toplevels[toplevel_id]));
            }
            lemma_scene_alike_but_one(s, drawn, client_id, id, px, py, k);
        }
    } else {
        assert(after.damage is Full);
    }
}

/// A commit leaves what other surfaces show.
proof fn lemma_same_but_one(
    s: ServerModel,
    taken: ServerModel,
    drawn: ServerModel,
    client_id: ClientId,
    surface_id: ObjectId,
)
    requires
        s.clients.contains_key(client_id),
        s.connections_are_sound(),
        taken == (ServerModel {
            clients: s.clients.insert(client_id, taken.clients[client_id]),
            pool_bytes: taken.pool_bytes,
            toplevel_metadata_bytes: taken.toplevel_metadata_bytes,
            ..s
        }),
        drawn == (ServerModel { clients: drawn.clients, restore: drawn.restore, ..taken }),
        drawn.clients.dom() == taken.clients.dom(),
        forall|id: ClientId|
            taken.clients.contains_key(id) ==> same_but_toplevels(
                #[trigger] taken.clients[id],
                drawn.clients[id],
            ),
        ({
            let a = s.clients[client_id];
            let b = taken.clients[client_id];
            &&& b.is_sound()
            &&& rest_stays(a, b)
            &&& b.surfaces.dom() == a.surfaces.dom()
            &&& forall|t: ObjectId|
                t != surface_id && a.surfaces.contains_key(t) ==> #[trigger] b.surfaces[t]
                    == a.surfaces[t]
            &&& a.surfaces.contains_key(surface_id)
            &&& b.surfaces[surface_id].had_toplevel_role
                == a.surfaces[surface_id].had_toplevel_role
            &&& b.toplevel_by_surface == a.toplevel_by_surface
            &&& b.toplevels == a.toplevels
        }),
    ensures
        same_but_one(s, drawn, client_id, surface_id),
{
    assert(taken.clients.dom() =~= s.clients.dom());
    let a = s.clients[client_id];
    let b = taken.clients[client_id];
    let c = drawn.clients[client_id];
    assert(a.is_sound());
    assert(taken.clients.contains_key(client_id));
    assert(same_but_toplevels(b, c));
    assert forall|t: ObjectId| t != surface_id implies #[trigger] shows_same(a, c, t) by {
        assert(a.surfaces.dom().contains(t) == b.surfaces.dom().contains(t));
        if b.shows(t) {
            assert(b.surfaces[t] == a.surfaces[t]);
            assert(b.surfaces.contains_key(t));
            let buffer_id = (b.surfaces[t].current_buffer->0).buffer_id;
            assert(b.buffers.contains_key(buffer_id));
            lemma_memory_stays(a, b, buffer_id);
            assert(c.buffer_memory(buffer_id) == b.buffer_memory(buffer_id));
        }
    }
    assert forall|t: ObjectId| a.surfaces.contains_key(t) implies (
    #[trigger] a.surfaces[t]).had_toplevel_role == c.surfaces[t].had_toplevel_role by {
        if t != surface_id {
            assert(b.surfaces[t] == a.surfaces[t]);
        }
    }
    assert(same_but_surface(a, c, surface_id));
    assert forall|id: ClientId| s.clients.contains_key(id) && id != client_id implies (
    #[trigger] same_but_surface(s.clients[id], drawn.clients[id], surface_id) && shows_same(
        s.clients[id],
        drawn.clients[id],
        surface_id,
    )) by {
        let d = s.clients[id];
        let e = drawn.clients[id];
        assert(taken.clients.contains_key(id));
        assert(taken.clients[id] == d);
        assert(same_but_toplevels(d, e));
        assert forall|t: ObjectId| #[trigger] shows_same(d, e, t) by {
            if d.shows(t) {
                let buffer_id = (d.surfaces[t].current_buffer->0).buffer_id;
                assert(e.buffer_memory(buffer_id) == d.buffer_memory(buffer_id));
            }
        }
        assert(shows_same(d, e, surface_id));
    }
}


// Patches.

/// A patch that is taken meets nothing that another surface shows.
proof fn lemma_patch_is_apart(
    c: ClientModel,
    ids: Seq<ObjectId>,
    surface_id: ObjectId,
    pool_id: ObjectId,
    start: int,
    end: int,
    from: nat,
    i: int,
)
    requires
        c.patch_alias_fault_among(ids, surface_id, pool_id, start, end, from) is None,
        from <= i < ids.len(),
    ensures
        c.patch_alias_fault(surface_id, pool_id, start, end, ids[i]) is None,
    decreases ids.len() - from,
{
    if i > from {
        lemma_patch_is_apart(c, ids, surface_id, pool_id, start, end, from + 1, i);
    }
}

/// Where the rows of a patch are.
proof fn lemma_patch_row(
    offset: int,
    stride: int,
    width: int,
    x: int,
    y: int,
    w: int,
    row: int,
    lx: int,
    ly: int,
    k: int,
)
    requires
        4 * width <= stride,
        0 <= x,
        x + w <= width,
        0 <= lx < width,
        0 <= k < 4,
        ly != y + row || lx < x || lx >= x + w,
    ensures
        !model::row_meets(
            offset + y * stride + 4 * x,
            4 * w,
            stride,
            row,
            offset + stride * ly + 4 * lx + k,
            offset + stride * ly + 4 * lx + k + 1,
        ),
{
    assert((y + row) * stride == y * stride + row * stride) by (nonlinear_arith);
    assert(stride * ly == ly * stride) by (nonlinear_arith);
    if ly < y + row {
        assert(ly * stride + stride <= (y + row) * stride) by (nonlinear_arith)
            requires
                ly + 1 <= y + row,
                0 <= stride,
        ;
    } else if ly > y + row {
        assert((y + row) * stride + stride <= ly * stride) by (nonlinear_arith)
            requires
                y + row + 1 <= ly,
                0 <= stride,
        ;
    }
}

/// What a patch that is taken is: where its rows are, and that they fit.
proof fn lemma_patch_fits(c: ClientModel, surface_id: ObjectId, payload: Seq<u8>)
    requires
        c.is_sound(),
        c.patch_fault(surface_id, payload) is None,
    ensures
        ({
            let x = bytes::le32_at(payload, 0) as i32;
            let y = bytes::le32_at(payload, 4) as i32;
            let width = bytes::le32_at(payload, 8);
            let height = bytes::le32_at(payload, 12);
            let buffer = c.buffers[(c.surfaces[surface_id].current_buffer->0).buffer_id];
            storage::rows_fit(
                c.pools[buffer.pool_id].storage,
                buffer.offset + y * buffer.stride + 4 * x,
                buffer.stride as int,
                4 * width,
                payload.skip(16),
                height as nat,
            )
        }),
{
    let x = bytes::le32_at(payload, 0) as i32;
    let y = bytes::le32_at(payload, 4) as i32;
    let width = bytes::le32_at(payload, 8);
    let height = bytes::le32_at(payload, 12);
    let buffer = c.buffers[(c.surfaces[surface_id].current_buffer->0).buffer_id];
    assert(0 <= y * buffer.stride && y * buffer.stride + (height - 1) * buffer.stride
        + buffer.stride <= buffer.height * buffer.stride) by (nonlinear_arith)
        requires
            0 <= y,
            0 < height,
            y + height <= buffer.height,
            0 <= buffer.stride,
    ;
    assert(buffer.height * buffer.stride == buffer.stride * buffer.height) by (nonlinear_arith);
    assert(height * (4 * width) == 4 * (width * height)) by (nonlinear_arith);
}

/// A patch leaves what other surfaces show.
proof fn lemma_patch_elsewhere(
    a: ClientModel,
    b: ClientModel,
    surface_id: ObjectId,
    payload: Seq<u8>,
    t: ObjectId,
)
    requires
        a.is_sound(),
        b.is_sound(),
        a.patch_fault(surface_id, payload) is None,
        rest_stays(a.patch(surface_id, payload).0, b),
        b.surfaces.dom() == a.surfaces.dom(),
        t != surface_id,
        a.surfaces.contains_key(t) ==> b.surfaces[t] == a.surfaces[t],
    ensures
        shows_same(a, b, t),
{
    assert(a.surfaces.dom().contains(t) == b.surfaces.dom().contains(t));
    if a.shows(t) {
        let step = a.patch(surface_id, payload).0;
        let buffer_id = (a.surfaces[t].current_buffer->0).buffer_id;
        assert(b.surfaces.contains_key(t));
        assert(b.buffers.contains_key(buffer_id));
        assert(a.buffers.contains_key(buffer_id));
        assert(a.is_backed(buffer_id) && b.is_backed(buffer_id));
        let info = a.buffers[buffer_id];
        assert(b.buffers[buffer_id] == info);
        assert(b.pools.contains_key(info.pool_id));
        let x = bytes::le32_at(payload, 0) as i32;
        let y = bytes::le32_at(payload, 4) as i32;
        let width = bytes::le32_at(payload, 8);
        let height = bytes::le32_at(payload, 12);
        let buffer = a.buffers[(a.surfaces[surface_id].current_buffer->0).buffer_id];
        let pool_id = buffer.pool_id;
        let stride = buffer.stride as int;
        let start = buffer.offset + y * stride + 4 * x;
        let end = buffer.offset + (y + height - 1) * stride + 4 * (x + width);
        if info.pool_id == pool_id {
            let ids = ordered::ascending_keys(a.surfaces.dom());
            ordered::law_ascending_keys_list_all(a.surfaces.dom());
            assert(ids.to_set().contains(t));
            let i = choose|i: int| 0 <= i < ids.len() && ids[i] == t;
            lemma_patch_is_apart(a, ids, surface_id, pool_id, start, end, 0, i);
            let before = a.pools[pool_id].storage;
            let after = b.pools[pool_id].storage;
            let data = payload.skip(16);
            lemma_patch_fits(a, surface_id, payload);
            assert(after == model::rows_overlaid(
                before,
                start,
                stride,
                4 * width,
                data,
                height as nat,
            ));
            assert forall|place: int| info.offset <= place < info.end() implies after[place]
                == before[place] by {
                assert forall|row: int| 0 <= row < height implies !#[trigger] model::row_meets(
                    start,
                    4 * width,
                    stride,
                    row,
                    place,
                    place + 1,
                ) by {
                    assert(0 <= row * stride && (y + row) * stride == y * stride + row * stride && (
                    y + row) * stride <= (y + height - 1) * stride) by (nonlinear_arith)
                        requires
                            0 <= row,
                            row <= height - 1,
                            0 <= stride,
                    ;
                }
                storage::law_rows_leave_the_rest_alone(
                    before,
                    start,
                    stride,
                    4 * width,
                    data,
                    height as nat,
                    place,
                );
            }
            assert(after.len() == before.len()) by {
                assert(a.pools[pool_id].size == step.pools[pool_id].size);
            }
            assert(after.subrange(info.offset as int, info.end()) =~= before.subrange(
                info.offset as int,
                info.end(),
            ));
        }
    }
}

/// A patch leaves the surface's own picture outside its rectangle.
proof fn lemma_patch_outside(
    frame: FramebufferModel,
    a: ClientModel,
    b: ClientModel,
    surface_id: ObjectId,
    payload: Seq<u8>,
    x: int,
    y: int,
    px: int,
    py: int,
    k: int,
)
    requires
        frame.is_whole(),
        0 <= px < frame.width,
        0 <= py < frame.height,
        0 <= k < 4,
        a.is_sound(),
        b.is_sound(),
        a.patch_fault(surface_id, payload) is None,
        rest_stays(a.patch(surface_id, payload).0, b),
        b.surfaces.dom() == a.surfaces.dom(),
        b.surfaces[surface_id].current_buffer == a.surfaces[surface_id].current_buffer,
        ({
            let left = bytes::le32_at(payload, 0) as i32;
            let top = bytes::le32_at(payload, 4) as i32;
            let width = bytes::le32_at(payload, 8);
            let height = bytes::le32_at(payload, 12);
            !(left <= px - x < left + width && top <= py - y < top + height)
        }),
    ensures
        surface_byte(frame, a, surface_id, x, y, px, py, k) == surface_byte(
            frame,
            b,
            surface_id,
            x,
            y,
            px,
            py,
            k,
        ),
{
    let step = a.patch(surface_id, payload).0;
    let buffer_id = (a.surfaces[surface_id].current_buffer->0).buffer_id;
    assert(b.surfaces.dom().contains(surface_id));
    assert(b.surfaces.contains_key(surface_id));
    assert(b.buffers.contains_key(buffer_id));
    assert(a.is_backed(buffer_id) && b.is_backed(buffer_id));
    let info = a.buffers[buffer_id];
    assert(b.buffers[buffer_id] == info);
    assert(b.pools.contains_key(info.pool_id));
    let left = bytes::le32_at(payload, 0) as i32;
    let top = bytes::le32_at(payload, 4) as i32;
    let width = bytes::le32_at(payload, 8);
    let height = bytes::le32_at(payload, 12);
    let stride = info.stride as int;
    let start = info.offset + top * stride + 4 * left;
    let before = a.pools[info.pool_id].storage;
    let after = b.pools[info.pool_id].storage;
    let data = payload.skip(16);
    lemma_patch_fits(a, surface_id, payload);
    assert(after == model::rows_overlaid(before, start, stride, 4 * width, data, height as nat));
    let old = a.buffer_memory(buffer_id)->0;
    let new = b.buffer_memory(buffer_id)->0;
    assert(0 <= stride * info.height) by (nonlinear_arith)
        requires
            0 <= stride,
            0 <= info.height,
    ;
    assert(after.len() == before.len()) by {
        assert(a.pools[info.pool_id].size == step.pools[info.pool_id].size);
    }
    lemma_drawn_everywhere(frame, info, old.len(), x, y, px, py);
    if frame.is_drawn(info, old.len(), x, y, px, py) {
        let lx = px - x;
        let ly = py - y;
        assert(stride * ly + stride <= stride * info.height && 0 <= stride * ly) by (
            nonlinear_arith)
            requires
                0 <= ly,
                ly + 1 <= info.height,
                0 <= stride,
        ;
        let place = info.offset + stride * ly + 4 * lx + k;
        assert forall|row: int| 0 <= row < height implies !#[trigger] model::row_meets(
            start,
            4 * width,
            stride,
            row,
            place,
            place + 1,
        ) by {
            lemma_patch_row(
                info.offset as int,
                stride,
                info.width as int,
                left as int,
                top as int,
                width as int,
                row,
                lx,
                ly,
                k,
            );
        }
        storage::law_rows_leave_the_rest_alone(
            before,
            start,
            stride,
            4 * width,
            data,
            height as nat,
            place,
        );
        assert(old[stride * ly + 4 * lx + k] == before[place]);
        assert(new[stride * ly + 4 * lx + k] == after[place]);
    }
}

/// After a patch, every pixel at which the picture differs from the one before
/// is among those noted as changed, for whichever window or surface it is, and
/// wherever that is on the output.
pub proof fn law_patch_notes_what_it_changes(
    s: ServerModel,
    client_id: ClientId,
    message: Seq<u8>,
    granted: bool,
    px: int,
    py: int,
    k: int,
)
    requires
        s.is_sound(),
        is_up_to_date(s),
        !s.deferred,
        s.damage.is_regular(),
        s.damage is Bounded ==> s.damage->0.len() <= MAX_PRESENTATION_DAMAGE_RECTS,
        asks_surface(s, client_id, message, 8),
        s.dispatched(client_id, message, granted).1 is None,
        0 <= px < s.frame.width,
        0 <= py < s.frame.height,
        0 <= k < 4,
    ensures
        ({
            let after = s.dispatched(client_id, message, granted).0;
            let at = 4 * (s.frame.width * py + px) + k;
            after.frame.pixels[at] != s.frame.pixels[at] ==> after.damage.has(px, py)
        }),
{
    let header = wire::header_at(message);
    let id = header.object_id;
    let payload = payload_of(message);
    let taken = lemma_surface_request(s, client_id, message, 8, granted);
    let a = s.clients[client_id];
    assert(a.is_sound() && a.is_reaped());
    lemma_patch(a, header, payload, s.budgets(client_id), granted);
    let b = taken.clients[client_id];
    assert(taken.clients.dom() =~= s.clients.dom());
    let after = s.dispatched(client_id, message, granted).0;
    let left = bytes::le32_at(payload, 0) as i32;
    let top = bytes::le32_at(payload, 4) as i32;
    let width = bytes::le32_at(payload, 8);
    let height = bytes::le32_at(payload, 12);
    let noted = taken.patch_damage(client_id, id, left, top, width, height);
    assert(after == taken.changed(noted));
    assert(after.damage == s.damage.with(noted) && after.frame == taken.scene()) by {
        reveal(ServerModel::changed);
        let marked = ServerModel {
            damage: taken.damage.with(noted),
            recomposition_serial: taken.recomposition_serial.wrapping_add(1),
            ..taken
        };
        telling::lemma_scene_of_told(taken, marked);
    }
    if noted is Bounded {
        let g = taken.geometry(client_id, id)->0;
        scene::law_clipped_damage_is_on_output(
            taken,
            g.x + left,
            g.y + top,
            width,
            height,
            px,
            py,
        );
        assert(noted.is_regular());
        damage::law_damage_accumulates(s.damage, noted, px, py);
        if !after.damage.has(px, py) {
            assert(!(left <= px - g.x < left + width && top <= py - g.y < top + height)) by {
                if left <= px - g.x < left + width && top <= py - g.y < top + height {
                    assert(damage::some_has(noted->0, px, py)) by {
                        assert(noted->0[0].has(px, py));
                    }
                }
            }
            assert forall|t: ObjectId| t != id implies #[trigger] shows_same(a, b, t) by {
                lemma_patch_elsewhere(a, b, id, payload, t);
            }
            assert forall|t: ObjectId| a.surfaces.contains_key(t) implies (
            #[trigger] a.surfaces[t]).had_toplevel_role == b.surfaces[t].had_toplevel_role by {
                if t != id {
                    assert(b.surfaces[t] == a.surfaces[t]);
                }
            }
            assert(same_but_surface(a, b, id));
            assert forall|o: ClientId| s.clients.contains_key(o) && o != client_id implies (
            #[trigger] same_but_surface(s.clients[o], taken.clients[o], id) && shows_same(
                s.clients[o],
                taken.clients[o],
                id,
            )) by {
                assert(taken.clients[o] == s.clients[o]);
            }
            lemma_patch_outside(
                s.frame,
                a,
                b,
                id,
                payload,
                g.x as int,
                g.y as int,
                px,
                py,
                k,
            );
            assert(plain_byte(s.frame, a, id, px, py, k) == plain_byte(s.frame, b, id, px, py, k));
            assert forall|w: WindowId|
                s.windows.contains_key(w) && s.windows[w].client_id == client_id && s.has_toplevel(
                    s.windows[w],
                ) && s.toplevel(s.windows[w]).surface_id == id implies #[trigger] s.window_byte(
                w,
                px,
                py,
                k,
            ) == taken.window_byte(w, px, py, k) by {
                lemma_window_byte(s, w, px, py, k);
                lemma_window_byte(taken, w, px, py, k);
                assert(a.toplevels.contains_key(s.windows[w].toplevel_id));
            }
            lemma_scene_alike_but_one(s, taken, client_id, id, px, py, k);
        }
    }
}

// Raising.

/// No more rows are drawn than there are.
proof fn lemma_rows_present_bound(
    frame: FramebufferModel,
    r: compositor::ClippedRect,
    info: BufferInfo,
    source: nat,
    x: int,
    y: int,
    from: nat,
)
    ensures
        frame.rows_present(r, info, source, x, y, from) <= arith::max_int(
            from as int,
            r.bottom - r.top,
        ),
    decreases r.bottom - r.top - from,
{
    if from < r.bottom - r.top {
        lemma_rows_present_bound(frame, r, info, source, x, y, from + 1);
    }
}

/// A picture is drawn nowhere but where it lies.
proof fn lemma_drawn_nowhere_else(
    frame: FramebufferModel,
    info: BufferInfo,
    source: nat,
    x: int,
    y: int,
    px: int,
    py: int,
)
    requires
        frame.is_drawn(info, source, x, y, px, py),
    ensures
        x <= px < x + info.width,
        y <= py < y + info.height,
{
    let r = compositor::clipped(
        frame.width as int,
        frame.height as int,
        x,
        y,
        info.width as int,
        info.height as int,
    );
    lemma_rows_present_bound(frame, r, info, source, x, y, 0);
}

/// Lifting a window that shows nothing at a pixel changes nothing there.
proof fn lemma_lifted_alike(
    a: ServerModel,
    b: ServerModel,
    w: WindowId,
    px: int,
    py: int,
    k: int,
)
    requires
        b.z_order == focus::lifted(a.z_order, w).0,
        forall|v: WindowId| #[trigger]
            a.window_byte(v, px, py, k) == b.window_byte(v, px, py, k),
        a.window_byte(w, px, py, k) is None,
    ensures
        windows_alike(a, b, px, py, k),
{
    crate::server::model::lemma_rank_of(a.z_order, w, 0);
    let before = a.z_order;
    let after = b.z_order;
    let rank = crate::server::model::rank_of(before, w, 0);
    if rank is None || rank->0 + 1 == before.len() {
        lemma_same_windows(a, b, px, py, k);
    } else {
        let r = rank->0 as int;
        assert(before[r] == w);
        assert forall|m: int| 0 <= m < after.len() implies b.window_byte(
            #[trigger] after[m],
            px,
            py,
            k,
        ) == (if m < r {
            a.window_byte(before[m], px, py, k)
        } else if m < after.len() - 1 {
            a.window_byte(before[m + 1], px, py, k)
        } else {
            None
        }) by {}
        lemma_highest(a, before, px, py, k);
        if exists|m: int|
            0 <= m < before.len() && a.window_byte(#[trigger] before[m], px, py, k) is Some {
            let i = choose|i: int|
                0 <= i < before.len() && a.window_byte(#[trigger] before[i], px, py, k) is Some
                    && (forall|m: int|
                    i < m < before.len() ==> a.window_byte(#[trigger] before[m], px, py, k)
                        is None);
            assert(i != r);
            let j = if i < r {
                i
            } else {
                i - 1
            };
            assert(after[j] == before[i]);
            assert forall|m: int| j < m < after.len() implies b.window_byte(
                #[trigger] after[m],
                px,
                py,
                k,
            ) is None by {
                if m < r {
                    assert(a.window_byte(before[m], px, py, k) is None);
                } else if m < after.len() - 1 {
                    assert(a.window_byte(before[m + 1], px, py, k) is None);
                }
            }
            assert(a.window_byte(before[i], px, py, k) == b.window_byte(after[j], px, py, k));
        } else {
            assert forall|m: int| 0 <= m < after.len() implies b.window_byte(
                #[trigger] after[m],
                px,
                py,
                k,
            ) is None by {
                if m < r {
                    assert(a.window_byte(before[m], px, py, k) is None);
                } else if m < after.len() - 1 {
                    assert(a.window_byte(before[m + 1], px, py, k) is None);
                }
            }
        }
    }
}

/// What focusing a window notes as changed, as far as the window was seen.
proof fn lemma_raise_is_noted(
    s: ServerModel,
    window_id: WindowId,
    px: int,
    py: int,
    k: int,
)
    requires
        s.is_at_hand(window_id),
        s.clients[s.windows[window_id].client_id].toplevels_are_sound(),
        s.clients.dom().finite(),
        is_up_to_date(s),
        !s.deferred,
        s.damage.is_regular(),
        s.damage is Bounded ==> s.damage->0.len() <= MAX_PRESENTATION_DAMAGE_RECTS,
        0 <= px < s.frame.width,
        0 <= py < s.frame.height,
        0 <= k < 4,
    ensures
        ({
            let after = s.window_focused(window_id, None);
            let at = 4 * (s.frame.width * py + px) + k;
            after.frame.pixels[at] != s.frame.pixels[at] ==> after.damage.has(px, py)
        }),
{
    broadcast use telling::group_shows;

    reveal(ServerModel::window_focused);
    let owner = s.windows[window_id];
    let toplevel = s.toplevel(owner);
    let t = ToplevelModel { minimized: false, ..toplevel };
    let back = s.with_toplevel(owner, t);
    shells::lemma_with_toplevel(s, owner, t);
    let target = Some((owner.client_id, toplevel.surface_id));
    let moved = back.focused(target);
    telling::lemma_focused(back, target);
    telling::lemma_raised(moved, window_id);
    let (lifted, raised) = moved.raised(window_id);
    let after = s.window_focused(window_id, None);
    if !toplevel.minimized && raised {
        assert(back.clients =~= s.clients) by {
            assert(s.clients[owner.client_id].toplevels.insert(owner.toplevel_id, toplevel)
                =~= s.clients[owner.client_id].toplevels);
        }
        let noted = moved.raise_damage(window_id);
        let idle = ServerModel { commit_owner: None, ..lifted };
        let drawn = idle.changed(noted);
        assert(drawn.damage == s.damage.with(noted) && drawn.frame == idle.scene()) by {
            reveal(ServerModel::changed);
            let marked = ServerModel {
                damage: idle.damage.with(noted),
                recomposition_serial: idle.recomposition_serial.wrapping_add(1),
                ..idle
            };
            telling::lemma_scene_of_told(idle, marked);
        }
        assert(after.frame == drawn.frame && after.damage == drawn.damage);
        let order = focus::lifted(s.z_order, window_id).0;
        let higher = ServerModel { z_order: order, ..s };
        let aimed = ServerModel { focus: target, z_order: order, ..back };
        assert(only_tells(aimed, ServerModel { z_order: order, ..moved }));
        telling::lemma_tells_then(aimed, ServerModel { z_order: order, ..moved }, lifted);
        telling::lemma_scene_of_told(higher, idle);
        telling::lemma_all_told(aimed, moved);
        assert(moved.has_toplevel(owner) && moved.toplevel(owner) == toplevel) by {
            assert(aimed.has_toplevel(owner));
        }
        assert(is_told(s.clients[owner.client_id], moved.clients[owner.client_id])) by {
            assert(aimed.clients.contains_key(owner.client_id));
        }
        if noted is Bounded {
            let g = moved.geometry(owner.client_id, toplevel.surface_id)->0;
            scene::law_clipped_damage_is_on_output(
                moved,
                g.x as int,
                g.y as int,
                g.width,
                g.height,
                px,
                py,
            );
            assert(noted.is_regular());
            damage::law_damage_accumulates(s.damage, noted, px, py);
            if !after.damage.has(px, py) {
                assert(!(g.x <= px < g.x + g.width && g.y <= py < g.y + g.height)) by {
                    if g.x <= px < g.x + g.width && g.y <= py < g.y + g.height {
                        assert(noted->0[0].has(px, py));
                        assert(damage::some_has(noted->0, px, py));
                    }
                }
                lemma_window_byte(s, window_id, px, py, k);
                assert(s.window_byte(window_id, px, py, k) is None) by {
                    if s.window_byte(window_id, px, py, k) is Some {
                        let c = s.clients[owner.client_id];
                        let at = c.surfaces[toplevel.surface_id].current_buffer->0;
                        let info = c.buffers[at.buffer_id];
                        let memory = c.buffer_memory(at.buffer_id)->0;
                        assert(c.toplevels.contains_key(owner.toplevel_id));
                        lemma_drawn_nowhere_else(
                            s.frame,
                            info,
                            memory.len(),
                            g.x as int,
                            g.y as int,
                            px,
                            py,
                        );
                    }
                }
                assert forall|v: WindowId| #[trigger] s.window_byte(v, px, py, k)
                    == higher.window_byte(v, px, py, k) by {
                    assert(s.is_focusable(v) == higher.is_focusable(v));
                }
                lemma_lifted_alike(s, higher, window_id, px, py, k);
                lemma_scene_alike(s, higher, px, py, k);
            }
        }
    } else if toplevel.minimized {
        assert(after.damage is Full) by {
            reveal(ServerModel::changed);
        }
    }
}

/// After a window has been brought up for a shell, every pixel at which the
/// picture differs from the one before is among those noted as changed.
pub proof fn law_focus_request_notes_what_it_changes(
    s: ServerModel,
    client_id: ClientId,
    message: Seq<u8>,
    granted: bool,
    px: int,
    py: int,
    k: int,
)
    requires
        s.is_sound(),
        is_up_to_date(s),
        !s.deferred,
        s.damage.is_regular(),
        s.damage is Bounded ==> s.damage->0.len() <= MAX_PRESENTATION_DAMAGE_RECTS,
        telling::asks_manager(s, client_id, message, 5, 4),
        s.windows.contains_key(shells::named_window(message)),
        !s.toplevel(s.windows[shells::named_window(message)]).hidden_for_restore,
        0 <= px < s.frame.width,
        0 <= py < s.frame.height,
        0 <= k < 4,
    ensures
        ({
            let after = s.dispatched(client_id, message, granted).0;
            let at = 4 * (s.frame.width * py + px) + k;
            after.frame.pixels[at] != s.frame.pixels[at] ==> after.damage.has(px, py)
        }),
{
    let window_id = shells::named_window(message);
    let owner = s.windows[window_id];
    let taken = telling::lemma_asks_manager(s, client_id, message, 5, 4, granted);
    telling::lemma_all_told(s, taken);
    reveal(ServerModel::shell_followed);
    assert(bytes::le32_at(message.subrange(10, 14), 0) == bytes::le32_at(message, 10));
    assert(s.window_ids.contains_key(owner));
    assert(s.has_toplevel(owner));
    assert(s.clients[owner.client_id].is_sound());
    assert(is_told(s.clients[owner.client_id], taken.clients[owner.client_id])) by {
        assert(s.clients.contains_key(owner.client_id));
    }
    telling::lemma_telling_keeps_picture(s, taken);
    assert(taken.is_at_hand(window_id));
    lemma_raise_is_noted(taken, window_id, px, py, k);
}

} // verus!
