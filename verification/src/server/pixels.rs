//! Which window a pixel of the picture is of.

use vstd::prelude::*;

use crate::arith;
use crate::client::BufferInfo;
use crate::compositor;
use crate::compositor::{ClippedRect, FramebufferModel};
use crate::ids::WindowId;
use crate::ordered;
use crate::server::model::ServerModel;
use crate::server::promises;

verus! {

impl ServerModel {
    /// The byte `k` of what a window shows at a pixel of the output, if it
    /// shows anything there.
    pub open spec fn window_byte(self, window_id: WindowId, px: int, py: int, k: int) -> Option<
        u8,
    > {
        if !self.is_focusable(window_id) {
            None
        } else {
            let owner = self.windows[window_id];
            let client = self.clients[owner.client_id];
            let toplevel = self.toplevel(owner);
            let attachment = client.surfaces[toplevel.surface_id].current_buffer->0;
            let x = arith::sat_i32(toplevel.x + attachment.x) as int;
            let y = arith::sat_i32(toplevel.y + attachment.y) as int;
            let info = client.buffers[attachment.buffer_id];
            match client.buffer_memory(attachment.buffer_id) {
                Some(memory) => if self.frame.is_drawn(info, memory.len(), x, y, px, py) {
                    Some(memory[info.stride * (py - y) + 4 * (px - x) + k])
                } else {
                    None
                },
                None => None,
            }
        }
    }
}

/// Whether two frames have the same size, and all of their bytes.
pub open spec fn same_size(a: FramebufferModel, b: FramebufferModel) -> bool {
    a.width == b.width && a.height == b.height && a.is_whole() && b.is_whole()
}

proof fn lemma_rows_of_same_size(
    a: FramebufferModel,
    b: FramebufferModel,
    r: ClippedRect,
    info: BufferInfo,
    source: nat,
    x: int,
    y: int,
    from: nat,
)
    requires
        same_size(a, b),
    ensures
        a.rows_present(r, info, source, x, y, from) == b.rows_present(
            r,
            info,
            source,
            x,
            y,
            from,
        ),
    decreases r.bottom - r.top - from,
{
    if from < r.bottom - r.top {
        lemma_rows_of_same_size(a, b, r, info, source, x, y, from + 1);
    }
}

/// What is drawn depends on the size of a frame alone.
pub(crate) proof fn lemma_drawn_on_same_size(
    a: FramebufferModel,
    b: FramebufferModel,
    info: BufferInfo,
    source: nat,
    x: int,
    y: int,
    px: int,
    py: int,
)
    requires
        same_size(a, b),
    ensures
        a.is_drawn(info, source, x, y, px, py) == b.is_drawn(info, source, x, y, px, py),
{
    let r = compositor::clipped(
        a.width as int,
        a.height as int,
        x,
        y,
        info.width as int,
        info.height as int,
    );
    lemma_rows_of_same_size(a, b, r, info, source, x, y, 0);
}

/// Drawing windows over a frame, one after another, leaves at every pixel what
/// the last window shows that shows something there.
proof fn lemma_windows_drawn(
    s: ServerModel,
    frame: FramebufferModel,
    order: Seq<WindowId>,
    px: int,
    py: int,
    k: int,
)
    requires
        same_size(s.frame, frame),
        0 <= px < s.frame.width,
        0 <= py < s.frame.height,
        0 <= k < 4,
    ensures
        ({
            let drawn = s.windows_drawn(frame, order);
            let at = 4 * (s.frame.width * py + px) + k;
            &&& same_size(s.frame, drawn)
            &&& forall|i: int|
                0 <= i < order.len() && s.window_byte(#[trigger] order[i], px, py, k) is Some && (
                forall|j: int|
                    i < j < order.len() ==> s.window_byte(#[trigger] order[j], px, py, k) is None)
                    ==> drawn.pixels[at] == s.window_byte(order[i], px, py, k)->0
            &&& (forall|i: int|
                0 <= i < order.len() ==> s.window_byte(#[trigger] order[i], px, py, k) is None)
                ==> drawn.pixels[at] == frame.pixels[at]
        }),
    decreases order.len(),
{
    let drawn = s.windows_drawn(frame, order);
    let at = 4 * (s.frame.width * py + px) + k;
    if order.len() > 0 {
        let front = order.drop_last();
        let last = order.last();
        let under = s.windows_drawn(frame, front);
        lemma_windows_drawn(s, frame, front, px, py, k);
        assert(order[order.len() - 1] == last);
        if s.is_focusable(last) {
            let owner = s.windows[last];
            let client = s.clients[owner.client_id];
            let toplevel = s.toplevel(owner);
            let attachment = client.surfaces[toplevel.surface_id].current_buffer->0;
            let x = arith::sat_i32(toplevel.x + attachment.x) as int;
            let y = arith::sat_i32(toplevel.y + attachment.y) as int;
            let info = client.buffers[attachment.buffer_id];
            if let Some(memory) = client.buffer_memory(attachment.buffer_id) {
                compositor::law_blit_is_exact(under, info, memory, x, y, px, py, k);
                lemma_drawn_on_same_size(s.frame, under, info, memory.len(), x, y, px, py);
            }
        }
        assert(same_size(s.frame, drawn));
        assert(drawn.pixels[at] == match s.window_byte(last, px, py, k) {
            Some(byte) => byte,
            None => under.pixels[at],
        });
        assert forall|i: int|
            0 <= i < order.len() && s.window_byte(#[trigger] order[i], px, py, k) is Some && (
            forall|j: int|
                i < j < order.len() ==> s.window_byte(#[trigger] order[j], px, py, k)
                    is None) implies drawn.pixels[at] == s.window_byte(order[i], px, py, k)->0 by {
            if i < front.len() {
                assert(front[i] == order[i]);
                assert(s.window_byte(order[order.len() - 1], px, py, k) is None);
                assert forall|j: int| i < j < front.len() implies s.window_byte(
                    #[trigger] front[j],
                    px,
                    py,
                    k,
                ) is None by {
                    assert(front[j] == order[j]);
                }
            }
        }
        if forall|i: int|
            0 <= i < order.len() ==> s.window_byte(#[trigger] order[i], px, py, k) is None {
            assert forall|i: int| 0 <= i < front.len() implies s.window_byte(
                #[trigger] front[i],
                px,
                py,
                k,
            ) is None by {
                assert(front[i] == order[i]);
            }
        }
    }
}

/// Every pixel of the picture is of the topmost window that shows something
/// there; where none does, it is of what lies under the windows.
pub proof fn law_topmost_window_is_seen(s: ServerModel, px: int, py: int, k: int)
    requires
        s.frame.is_whole(),
        0 <= px < s.frame.width,
        0 <= py < s.frame.height,
        0 <= k < 4,
    ensures
        ({
            let at = 4 * (s.frame.width * py + px) + k;
            let under = s.clients_drawn(
                s.frame.cleared(),
                ordered::ascending_keys(s.clients.dom()),
            );
            &&& forall|i: int|
                0 <= i < s.z_order.len() && s.window_byte(#[trigger] s.z_order[i], px, py, k)
                    is Some && (forall|j: int|
                    i < j < s.z_order.len() ==> s.window_byte(#[trigger] s.z_order[j], px, py, k)
                        is None) ==> s.scene().pixels[at] == s.window_byte(
                    s.z_order[i],
                    px,
                    py,
                    k,
                )->0
            &&& (forall|i: int|
                0 <= i < s.z_order.len() ==> s.window_byte(#[trigger] s.z_order[i], px, py, k)
                    is None) ==> s.scene().pixels[at] == under.pixels[at]
        }),
{
    reveal(ServerModel::scene);
    let ids = ordered::ascending_keys(s.clients.dom());
    promises::lemma_clients_drawn(s, s.frame.cleared(), ids);
    lemma_windows_drawn(s, s.clients_drawn(s.frame.cleared(), ids), s.z_order, px, py, k);
}

} // verus!
