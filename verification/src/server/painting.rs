//! What the picture shows at each pixel.

use vstd::prelude::*;

use crate::arith;
use crate::bytes;
use crate::client::model::ClientModel;
use crate::compositor::FramebufferModel;
use crate::ids::{ClientId, ObjectId, WindowId};
use crate::ordered;
use crate::server::coverage;
use crate::server::coverage::plain_byte;
use crate::server::model::ServerModel;
use crate::server::pixels;
use crate::server::pixels::same_size;
use crate::server::scene;

verus! {

/// Whether what a surface shows covers a pixel, when it lies at a place.
pub open spec fn covers(
    c: ClientModel,
    surface_id: ObjectId,
    x: int,
    y: int,
    px: int,
    py: int,
) -> bool {
    let info = c.buffers[(c.surfaces[surface_id].current_buffer->0).buffer_id];
    &&& c.surfaces.contains_key(surface_id)
    &&& c.surfaces[surface_id].current_buffer is Some
    &&& x <= px < x + info.width
    &&& y <= py < y + info.height
}

/// The byte `k` of the pixel that a surface shows at a pixel that it covers.
pub open spec fn byte_of(
    c: ClientModel,
    surface_id: ObjectId,
    x: int,
    y: int,
    px: int,
    py: int,
    k: int,
) -> u8 {
    let info = c.buffers[(c.surfaces[surface_id].current_buffer->0).buffer_id];
    c.pools[info.pool_id].storage[info.offset + info.stride * (py - y) + 4 * (px - x) + k]
}

/// Whether the rows of every picture are apart, and none is too large.
pub open spec fn pictures_are_regular(s: ServerModel) -> bool {
    forall|id: ClientId, b: ObjectId|
        s.clients.contains_key(id) && #[trigger] s.clients[id].buffers.contains_key(b) ==> {
            let info = s.clients[id].buffers[b];
            info.stride >= 4 * info.width && info.width <= i32::MAX && info.height <= i32::MAX
        }
}

/// Where a window shows something: at its toplevel's place, moved by what its
/// buffer was attached with.
pub open spec fn corner(s: ServerModel, w: WindowId) -> (int, int) {
    let owner = s.windows[w];
    let toplevel = s.toplevel(owner);
    let at = s.clients[owner.client_id].surfaces[toplevel.surface_id].current_buffer->0;
    (
        arith::sat_i32(toplevel.x + at.x) as int,
        arith::sat_i32(toplevel.y + at.y) as int,
    )
}

/// Whether a window can be seen at a pixel, as far as no other is in its way.
pub open spec fn window_covers(s: ServerModel, w: WindowId, px: int, py: int) -> bool {
    let owner = s.windows[w];
    let toplevel = s.toplevel(owner);
    &&& s.windows.contains_key(w)
    &&& !toplevel.minimized
    &&& !toplevel.hidden_for_restore
    &&& covers(
        s.clients[owner.client_id],
        toplevel.surface_id,
        corner(s, w).0,
        corner(s, w).1,
        px,
        py,
    )
}

/// Whether a surface that is no window, and never was, covers a pixel: it lies
/// where its buffer was attached.
pub open spec fn bare_covers(
    s: ServerModel,
    client_id: ClientId,
    surface_id: ObjectId,
    px: int,
    py: int,
) -> bool {
    let c = s.clients[client_id];
    let at = c.surfaces[surface_id].current_buffer->0;
    &&& s.clients.contains_key(client_id)
    &&& !c.surfaces[surface_id].had_toplevel_role
    &&& !c.toplevel_by_surface.contains_key(surface_id)
    &&& covers(c, surface_id, at.x as int, at.y as int, px, py)
}

/// What a surface of a sound connection shows at a pixel.
proof fn lemma_surface_byte(
    frame: FramebufferModel,
    c: ClientModel,
    surface_id: ObjectId,
    x: int,
    y: int,
    px: int,
    py: int,
    k: int,
)
    requires
        frame.is_whole(),
        c.is_sound(),
        forall|b: ObjectId| #[trigger]
            c.buffers.contains_key(b) ==> c.buffers[b].stride >= 4 * c.buffers[b].width
                && c.buffers[b].width <= i32::MAX && c.buffers[b].height <= i32::MAX,
        0 <= px < frame.width,
        0 <= py < frame.height,
        0 <= k < 4,
    ensures
        coverage::surface_byte(frame, c, surface_id, x, y, px, py, k) == if covers(
            c,
            surface_id,
            x,
            y,
            px,
            py,
        ) {
            Some(byte_of(c, surface_id, x, y, px, py, k))
        } else {
            None
        },
{
    if c.shows(surface_id) {
        let b = (c.surfaces[surface_id].current_buffer->0).buffer_id;
        assert(c.buffers.contains_key(b));
        assert(c.is_backed(b));
        let info = c.buffers[b];
        let storage = c.pools[info.pool_id].storage;
        assert(info.stride * info.height >= 0) by (nonlinear_arith)
            requires
                info.stride >= 0,
                info.height >= 0,
        ;
        let memory = storage.subrange(info.offset as int, info.end());
        assert(c.buffer_memory(b) == Some(memory));
        coverage::lemma_drawn_everywhere(frame, info, memory.len(), x, y, px, py);
        if covers(c, surface_id, x, y, px, py) {
            let row = py - y;
            let stride = info.stride as int;
            let height = info.height as int;
            assert(0 <= stride * row && stride * row + stride <= stride * height)
                by (nonlinear_arith)
                requires
                    0 <= row,
                    row + 1 <= height,
                    0 <= stride,
            ;
        }
    }
}

proof fn lemma_window_byte(s: ServerModel, w: WindowId, px: int, py: int, k: int)
    requires
        s.is_sound(),
        s.frame.is_whole(),
        pictures_are_regular(s),
        0 <= px < s.frame.width,
        0 <= py < s.frame.height,
        0 <= k < 4,
    ensures
        s.window_byte(w, px, py, k) == if window_covers(s, w, px, py) {
            let owner = s.windows[w];
            Some(
                byte_of(
                    s.clients[owner.client_id],
                    s.toplevel(owner).surface_id,
                    corner(s, w).0,
                    corner(s, w).1,
                    px,
                    py,
                    k,
                ),
            )
        } else {
            None
        },
{
    if s.windows.contains_key(w) {
        let owner = s.windows[w];
        assert(s.window_ids.contains_key(owner));
        assert(s.has_toplevel(owner));
        let c = s.clients[owner.client_id];
        assert(s.clients.contains_key(owner.client_id));
        assert(c.is_sound());
        assert forall|b: ObjectId| #[trigger] c.buffers.contains_key(b) implies c.buffers[b].stride
            >= 4 * c.buffers[b].width && c.buffers[b].width <= i32::MAX && c.buffers[b].height
            <= i32::MAX by {
            assert(s.clients[owner.client_id].buffers.contains_key(b));
        }
        lemma_surface_byte(
            s.frame,
            c,
            s.toplevel(owner).surface_id,
            corner(s, w).0,
            corner(s, w).1,
            px,
            py,
            k,
        );
    }
}

/// At a pixel that some window covers, the picture shows the highest of them:
/// the byte that lies in its memory for that pixel.
pub proof fn law_highest_window_is_painted(s: ServerModel, i: int, px: int, py: int, k: int)
    requires
        s.is_sound(),
        s.frame.is_whole(),
        pictures_are_regular(s),
        0 <= px < s.frame.width,
        0 <= py < s.frame.height,
        0 <= k < 4,
        0 <= i < s.z_order.len(),
        window_covers(s, s.z_order[i], px, py),
        forall|j: int|
            i < j < s.z_order.len() ==> !window_covers(s, #[trigger] s.z_order[j], px, py),
    ensures
        ({
            let owner = s.windows[s.z_order[i]];
            let place = corner(s, s.z_order[i]);
            s.scene().pixels[4 * (s.frame.width * py + px) + k] == byte_of(
                s.clients[owner.client_id],
                s.toplevel(owner).surface_id,
                place.0,
                place.1,
                px,
                py,
                k,
            )
        }),
{
    pixels::law_topmost_window_is_seen(s, px, py, k);
    lemma_window_byte(s, s.z_order[i], px, py, k);
    assert forall|j: int| i < j < s.z_order.len() implies s.window_byte(
        #[trigger] s.z_order[j],
        px,
        py,
        k,
    ) is None by {
        lemma_window_byte(s, s.z_order[j], px, py, k);
    }
}

// Under the windows.

/// Of listed surfaces that are no windows, the last that shows something at a
/// pixel is seen.
proof fn lemma_plain_drawn(
    frame: FramebufferModel,
    f: FramebufferModel,
    c: ClientModel,
    ids: Seq<ObjectId>,
    px: int,
    py: int,
    k: int,
    i: int,
)
    requires
        same_size(frame, f),
        0 <= px < frame.width,
        0 <= py < frame.height,
        0 <= k < 4,
        forall|j: int|
            i < j < ids.len() ==> plain_byte(frame, c, #[trigger] ids[j], px, py, k) is None,
        0 <= i < ids.len() ==> plain_byte(frame, c, ids[i], px, py, k) is Some,
        -1 <= i < ids.len(),
    ensures
        ({
            let drawn = scene::plain_drawn(f, c, ids);
            let at = 4 * (frame.width * py + px) + k;
            &&& same_size(frame, drawn)
            &&& i >= 0 ==> Some(drawn.pixels[at]) == plain_byte(frame, c, ids[i], px, py, k)
            &&& i < 0 ==> drawn.pixels[at] == f.pixels[at]
        }),
    decreases ids.len(),
{
    if ids.len() > 0 {
        let front = ids.drop_last();
        let id = ids.last();
        assert(ids[ids.len() - 1] == id);
        assert forall|j: int| 0 <= j < front.len() implies front[j] == #[trigger] ids[j] by {}
        if i < front.len() {
            lemma_plain_drawn(frame, f, c, front, px, py, k, i);
            if i >= 0 {
                assert(front[i] == ids[i]);
            }
        } else {
            lemma_plain_keeps_size(frame, f, c, front, px, py);
        }
        let under = scene::plain_drawn(f, c, front);
        if scene::is_plain(c, id) {
            let at = c.surfaces[id].current_buffer->0;
            coverage::lemma_surface_drawn(frame, under, c, id, at.x, at.y, px, py, k);
        }
    }
}

proof fn lemma_plain_keeps_size(
    frame: FramebufferModel,
    f: FramebufferModel,
    c: ClientModel,
    ids: Seq<ObjectId>,
    px: int,
    py: int,
)
    requires
        same_size(frame, f),
        0 <= px < frame.width,
        0 <= py < frame.height,
    ensures
        same_size(frame, scene::plain_drawn(f, c, ids)),
    decreases ids.len(),
{
    if ids.len() > 0 {
        lemma_plain_keeps_size(frame, f, c, ids.drop_last(), px, py);
        let under = scene::plain_drawn(f, c, ids.drop_last());
        let id = ids.last();
        if scene::is_plain(c, id) {
            let at = c.surfaces[id].current_buffer->0;
            coverage::lemma_surface_drawn(frame, under, c, id, at.x, at.y, px, py, 0);
        }
    }
}

/// What a surface that is no window shows.
proof fn lemma_plain_byte(
    s: ServerModel,
    client_id: ClientId,
    surface_id: ObjectId,
    px: int,
    py: int,
    k: int,
)
    requires
        s.is_sound(),
        s.frame.is_whole(),
        pictures_are_regular(s),
        s.clients.contains_key(client_id),
        0 <= px < s.frame.width,
        0 <= py < s.frame.height,
        0 <= k < 4,
    ensures
        ({
            let c = s.clients[client_id];
            let at = c.surfaces[surface_id].current_buffer->0;
            plain_byte(s.frame, c, surface_id, px, py, k) == if bare_covers(
                s,
                client_id,
                surface_id,
                px,
                py,
            ) {
                Some(byte_of(c, surface_id, at.x as int, at.y as int, px, py, k))
            } else {
                None
            }
        }),
{
    let c = s.clients[client_id];
    assert(c.is_sound());
    assert forall|b: ObjectId| #[trigger] c.buffers.contains_key(b) implies c.buffers[b].stride >= 4
        * c.buffers[b].width && c.buffers[b].width <= i32::MAX && c.buffers[b].height
        <= i32::MAX by {
        assert(s.clients[client_id].buffers.contains_key(b));
    }
    let at = c.surfaces[surface_id].current_buffer->0;
    lemma_surface_byte(s.frame, c, surface_id, at.x as int, at.y as int, px, py, k);
}

/// Of listed connections, the last whose surfaces that are no windows show
/// something at a pixel is seen; `i` is its place, or -1 if there is none.
proof fn lemma_clients_drawn(
    s: ServerModel,
    f: FramebufferModel,
    ids: Seq<ClientId>,
    px: int,
    py: int,
    k: int,
    i: int,
    surface_id: ObjectId,
)
    requires
        s.is_sound(),
        s.frame.is_whole(),
        pictures_are_regular(s),
        same_size(s.frame, f),
        0 <= px < s.frame.width,
        0 <= py < s.frame.height,
        0 <= k < 4,
        -1 <= i < ids.len(),
        forall|j: int| 0 <= j < ids.len() ==> s.clients.contains_key(#[trigger] ids[j]),
        forall|j: int, t: ObjectId|
            i < j < ids.len() ==> !#[trigger] bare_covers(s, ids[j], t, px, py),
        i >= 0 ==> bare_covers(s, ids[i], surface_id, px, py) && forall|t: ObjectId|
            t.0 > surface_id.0 ==> !#[trigger] bare_covers(s, ids[i], t, px, py),
    ensures
        ({
            let drawn = s.clients_drawn(f, ids);
            let at = 4 * (s.frame.width * py + px) + k;
            let c = s.clients[ids[i]];
            let place = c.surfaces[surface_id].current_buffer->0;
            &&& same_size(s.frame, drawn)
            &&& i >= 0 ==> drawn.pixels[at] == byte_of(
                c,
                surface_id,
                place.x as int,
                place.y as int,
                px,
                py,
                k,
            )
            &&& i < 0 ==> drawn.pixels[at] == f.pixels[at]
        }),
    decreases ids.len(),
{
    if ids.len() > 0 {
        let front = ids.drop_last();
        let id = ids.last();
        assert(ids[ids.len() - 1] == id);
        assert forall|j: int| 0 <= j < front.len() implies front[j] == #[trigger] ids[j] by {}
        let c = s.clients[id];
        assert(c.is_sound());
        let names = ordered::ascending_keys(c.surfaces.dom());
        ordered::law_ascending_keys_list_all(c.surfaces.dom());
        if i < front.len() {
            assert forall|j: int, t: ObjectId|
                i < j < front.len() implies !#[trigger] bare_covers(s, front[j], t, px, py) by {
                assert(front[j] == ids[j]);
                assert(!bare_covers(s, ids[j], t, px, py));
            }
            if i >= 0 {
                assert(front[i] == ids[i]);
            }
            lemma_clients_drawn(s, f, front, px, py, k, i, surface_id);
            assert forall|j: int| 0 <= j < names.len() implies plain_byte(
                s.frame,
                c,
                #[trigger] names[j],
                px,
                py,
                k,
            ) is None by {
                assert(!bare_covers(s, ids[ids.len() - 1], names[j], px, py));
                lemma_plain_byte(s, id, names[j], px, py, k);
            }
            lemma_plain_drawn(
                s.frame,
                s.clients_drawn(f, front),
                c,
                names,
                px,
                py,
                k,
                -1,
            );
        } else {
            lemma_clients_keep_size(s, f, front, px, py);
            assert(c.surfaces.dom().contains(surface_id));
            assert(names.to_set().contains(surface_id));
            let n = choose|n: int| 0 <= n < names.len() && names[n] == surface_id;
            lemma_plain_byte(s, id, surface_id, px, py, k);
            assert forall|j: int| n < j < names.len() implies plain_byte(
                s.frame,
                c,
                #[trigger] names[j],
                px,
                py,
                k,
            ) is None by {
                assert(names[n].0 < names[j].0);
                assert(!bare_covers(s, ids[i], names[j], px, py));
                lemma_plain_byte(s, id, names[j], px, py, k);
            }
            lemma_plain_drawn(s.frame, s.clients_drawn(f, front), c, names, px, py, k, n);
        }
    }
}

proof fn lemma_clients_keep_size(
    s: ServerModel,
    f: FramebufferModel,
    ids: Seq<ClientId>,
    px: int,
    py: int,
)
    requires
        same_size(s.frame, f),
        0 <= px < s.frame.width,
        0 <= py < s.frame.height,
    ensures
        same_size(s.frame, s.clients_drawn(f, ids)),
    decreases ids.len(),
{
    if ids.len() > 0 {
        lemma_clients_keep_size(s, f, ids.drop_last(), px, py);
        let c = s.clients[ids.last()];
        lemma_plain_keeps_size(
            s.frame,
            s.clients_drawn(f, ids.drop_last()),
            c,
            ordered::ascending_keys(c.surfaces.dom()),
            px,
            py,
        );
    }
}

/// The picture under the windows is seen where no window covers it.
proof fn lemma_under(s: ServerModel, px: int, py: int, k: int)
    requires
        s.is_sound(),
        s.frame.is_whole(),
        pictures_are_regular(s),
        0 <= px < s.frame.width,
        0 <= py < s.frame.height,
        0 <= k < 4,
        forall|j: int|
            0 <= j < s.z_order.len() ==> !window_covers(s, #[trigger] s.z_order[j], px, py),
    ensures
        ({
            let at = 4 * (s.frame.width * py + px) + k;
            s.scene().pixels[at] == s.clients_drawn(
                s.frame.cleared(),
                ordered::ascending_keys(s.clients.dom()),
            ).pixels[at]
        }),
{
    pixels::law_topmost_window_is_seen(s, px, py, k);
    assert forall|j: int| 0 <= j < s.z_order.len() implies s.window_byte(
        #[trigger] s.z_order[j],
        px,
        py,
        k,
    ) is None by {
        lemma_window_byte(s, s.z_order[j], px, py, k);
    }
}

/// Where no window covers a pixel, but surfaces that are no windows do, the
/// picture shows the last of them: that of the connection with the highest
/// number, and of its surfaces the one with the highest name.
pub proof fn law_last_bare_surface_is_painted(
    s: ServerModel,
    client_id: ClientId,
    surface_id: ObjectId,
    px: int,
    py: int,
    k: int,
)
    requires
        s.is_sound(),
        s.clients.dom().finite(),
        s.frame.is_whole(),
        pictures_are_regular(s),
        0 <= px < s.frame.width,
        0 <= py < s.frame.height,
        0 <= k < 4,
        forall|j: int|
            0 <= j < s.z_order.len() ==> !window_covers(s, #[trigger] s.z_order[j], px, py),
        bare_covers(s, client_id, surface_id, px, py),
        forall|c: ClientId, t: ObjectId|
            c.0 > client_id.0 || (c == client_id && t.0 > surface_id.0)
                ==> !#[trigger] bare_covers(s, c, t, px, py),
    ensures
        ({
            let c = s.clients[client_id];
            let at = c.surfaces[surface_id].current_buffer->0;
            s.scene().pixels[4 * (s.frame.width * py + px) + k] == byte_of(
                c,
                surface_id,
                at.x as int,
                at.y as int,
                px,
                py,
                k,
            )
        }),
{
    lemma_under(s, px, py, k);
    let ids = ordered::ascending_keys(s.clients.dom());
    ordered::law_ascending_keys_list_all(s.clients.dom());
    assert forall|j: int| 0 <= j < ids.len() implies s.clients.contains_key(#[trigger] ids[j]) by {
        assert(ids.to_set().contains(ids[j]));
    }
    assert(ids.to_set().contains(client_id));
    let i = choose|i: int| 0 <= i < ids.len() && ids[i] == client_id;
    assert forall|j: int, t: ObjectId| i < j < ids.len() implies !#[trigger] bare_covers(
        s,
        ids[j],
        t,
        px,
        py,
    ) by {
        assert(ids[i].0 < ids[j].0);
    }
    lemma_clients_drawn(s, s.frame.cleared(), ids, px, py, k, i, surface_id);
}

/// Where nothing covers a pixel, the picture shows the background.
pub proof fn law_background_is_painted(s: ServerModel, px: int, py: int)
    requires
        s.is_sound(),
        s.clients.dom().finite(),
        s.frame.is_whole(),
        pictures_are_regular(s),
        0 <= px < s.frame.width,
        0 <= py < s.frame.height,
        forall|j: int|
            0 <= j < s.z_order.len() ==> !window_covers(s, #[trigger] s.z_order[j], px, py),
        forall|c: ClientId, t: ObjectId| !#[trigger] bare_covers(s, c, t, px, py),
    ensures
        bytes::le32_at(s.scene().pixels, 4 * (s.frame.width * py + px)) == s.frame.clear_argb,
{
    let ids = ordered::ascending_keys(s.clients.dom());
    ordered::law_ascending_keys_list_all(s.clients.dom());
    assert forall|j: int| 0 <= j < ids.len() implies s.clients.contains_key(#[trigger] ids[j]) by {
        assert(ids.to_set().contains(ids[j]));
    }
    assert forall|j: int, t: ObjectId| -1 < j < ids.len() implies !#[trigger] bare_covers(
        s,
        ids[j],
        t,
        px,
        py,
    ) by {}
    let at = 4 * (s.frame.width * py + px);
    let width = s.frame.width as int;
    let height = s.frame.height as int;
    assert(0 <= width * py + px && width * py + px + 1 <= width * height) by (nonlinear_arith)
        requires
            0 <= px < width,
            0 <= py,
            py + 1 <= height,
    ;
    let cleared = s.frame.cleared();
    assert forall|k: int| 0 <= k < 4 implies s.scene().pixels[at + k] == #[trigger]
        crate::compositor::colour_byte(s.frame.clear_argb, k) by {
        lemma_under(s, px, py, k);
        lemma_clients_drawn(s, cleared, ids, px, py, k, -1, ObjectId(0));
        assert((at + k) % 4 == k);
        assert(cleared.pixels[at + k] == crate::compositor::colour_byte(s.frame.clear_argb, k));
    }
    assert(s.scene().pixels[at + 0] == crate::compositor::colour_byte(s.frame.clear_argb, 0));
    assert(s.scene().pixels[at + 1] == crate::compositor::colour_byte(s.frame.clear_argb, 1));
    assert(s.scene().pixels[at + 2] == crate::compositor::colour_byte(s.frame.clear_argb, 2));
    assert(s.scene().pixels[at + 3] == crate::compositor::colour_byte(s.frame.clear_argb, 3));
}

} // verus!
