//! The composed picture.

use vstd::prelude::*;
use vstd::slice::slice_subrange;

use crate::arith;
use crate::client::model;
use crate::client::storage::overlay;
use crate::client::BufferInfo;

verus! {

/// Bytes of a pixel: blue, green, red, alpha.
pub const BYTES_PER_PIXEL: usize = 4;

pub const DEFAULT_WIDTH: u32 = 1024;

pub const DEFAULT_HEIGHT: u32 = 768;

/// A picture of fixed size.
pub struct Framebuffer {
    width: u32,
    height: u32,
    pixels: Vec<u8>,
    clear_argb: u32,
}

#[verifier::ext_equal]
pub struct FramebufferModel {
    pub width: u32,
    pub height: u32,
    pub pixels: Seq<u8>,
    pub clear_argb: u32,
}

impl View for Framebuffer {
    type V = FramebufferModel;

    closed spec fn view(&self) -> FramebufferModel {
        FramebufferModel {
            width: self.width,
            height: self.height,
            pixels: self.pixels@,
            clear_argb: self.clear_argb,
        }
    }
}

/// The byte of a colour in the given place of a pixel, low byte first.
pub open spec fn colour_byte(argb: u32, place: int) -> u8 {
    if place == 0 {
        (argb % 0x100) as u8
    } else if place == 1 {
        (argb / 0x100 % 0x100) as u8
    } else if place == 2 {
        (argb / 0x1_0000 % 0x100) as u8
    } else {
        (argb / 0x100_0000) as u8
    }
}

/// Whole pixels of one colour; a rest too short for a pixel stays.
pub open spec fn filled(pixels: Seq<u8>, argb: u32) -> Seq<u8> {
    Seq::new(
        pixels.len(),
        |i: int|
            if i - i % 4 + 4 <= pixels.len() {
                colour_byte(argb, i % 4)
            } else {
                pixels[i]
            },
    )
}

/// The part of a picture of the given size that is visible when it is drawn at
/// an offset, in coordinates of the frame.
pub struct ClippedRect {
    pub left: int,
    pub top: int,
    pub right: int,
    pub bottom: int,
}

pub open spec fn clipped(
    frame_width: int,
    frame_height: int,
    x: int,
    y: int,
    width: int,
    height: int,
) -> ClippedRect {
    ClippedRect {
        left: arith::max_int(x, 0),
        top: arith::max_int(y, 0),
        right: arith::min_int(x + width, frame_width),
        bottom: arith::min_int(y + height, frame_height),
    }
}

impl FramebufferModel {
    /// Whether the picture has the bytes that its size asks for.
    pub open spec fn is_whole(self) -> bool {
        self.pixels.len() == 4 * (self.width * self.height)
    }

    pub open spec fn blank(width: u32, height: u32) -> FramebufferModel {
        FramebufferModel {
            width,
            height,
            pixels: Seq::new((4 * (width * height)) as nat, |i: int| 0u8),
            clear_argb: 0,
        }
    }

    pub open spec fn cleared(self) -> FramebufferModel {
        FramebufferModel { pixels: filled(self.pixels, self.clear_argb), ..self }
    }

    /// The offset in the source of row `row` of the visible part.
    pub open spec fn source_row(r: ClippedRect, info: BufferInfo, x: int, y: int, row: int) -> int {
        info.stride * (r.top - y + row) + 4 * (r.left - x)
    }

    /// The offset in the frame of row `row` of the visible part.
    pub open spec fn frame_row(self, r: ClippedRect, row: int) -> int {
        4 * self.width * (r.top + row) + 4 * r.left
    }

    /// How many rows of the visible part, from `from` on, can be copied before
    /// one does not lie inside both pictures.
    pub open spec fn rows_present(
        self,
        r: ClippedRect,
        info: BufferInfo,
        source: nat,
        x: int,
        y: int,
        from: nat,
    ) -> nat
        decreases r.bottom - r.top - from,
    {
        let row_bytes = 4 * (r.right - r.left);
        if from >= r.bottom - r.top || FramebufferModel::source_row(r, info, x, y, from as int)
            + row_bytes > source || self.frame_row(r, from as int) + row_bytes > self.pixels.len() {
            from
        } else {
            self.rows_present(r, info, source, x, y, from + 1)
        }
    }

    /// The frame's bytes after the first `rows` rows of the visible part have
    /// been copied.
    pub open spec fn with_rows(
        self,
        r: ClippedRect,
        info: BufferInfo,
        source: Seq<u8>,
        x: int,
        y: int,
        rows: nat,
    ) -> Seq<u8>
        decreases rows,
    {
        if rows == 0 {
            self.pixels
        } else {
            let from = FramebufferModel::source_row(r, info, x, y, rows - 1);
            model::overlaid(
                self.with_rows(r, info, source, x, y, (rows - 1) as nat),
                self.frame_row(r, rows - 1),
                source.subrange(from, from + 4 * (r.right - r.left)),
            )
        }
    }

    /// The frame with a buffer's picture drawn over it at the given place, and
    /// the number of pixels drawn.
    #[verifier::opaque]
    pub open spec fn blitted(self, info: BufferInfo, source: Seq<u8>, x: int, y: int) -> (
        FramebufferModel,
        nat,
    ) {
        let r = clipped(
            self.width as int,
            self.height as int,
            x,
            y,
            info.width as int,
            info.height as int,
        );
        if info.width > i32::MAX || info.height > i32::MAX || r.right <= r.left || r.bottom
            <= r.top {
            (self, 0)
        } else {
            let rows = self.rows_present(r, info, source.len(), x, y, 0);
            (
                FramebufferModel {
                    pixels: self.with_rows(r, info, source, x, y, rows),
                    ..self
                },
                (rows * (r.right - r.left)) as nat,
            )
        }
    }
}

proof fn lemma_rows_in_order(stride: int, a: int, b: int)
    requires
        0 <= stride,
        0 <= a <= b,
    ensures
        0 <= stride * a <= stride * b,
{
    assert(0 <= stride * a <= stride * b) by (nonlinear_arith)
        requires
            0 <= stride,
            0 <= a <= b,
    ;
}

impl FramebufferModel {
    /// Whether a pixel of the frame is drawn over by a blit.
    pub open spec fn is_drawn(
        self,
        info: BufferInfo,
        source: nat,
        x: int,
        y: int,
        px: int,
        py: int,
    ) -> bool {
        let r = clipped(
            self.width as int,
            self.height as int,
            x,
            y,
            info.width as int,
            info.height as int,
        );
        &&& info.width <= i32::MAX && info.height <= i32::MAX
        &&& r.left <= px < r.right
        &&& r.top <= py < r.top + self.rows_present(r, info, source, x, y, 0)
    }
}

/// Whether a row of the visible part lies inside both pictures.
spec fn row_fits(
    f: FramebufferModel,
    r: ClippedRect,
    info: BufferInfo,
    source: nat,
    x: int,
    y: int,
    row: int,
) -> bool {
    &&& FramebufferModel::source_row(r, info, x, y, row) + 4 * (r.right - r.left) <= source
    &&& f.frame_row(r, row) + 4 * (r.right - r.left) <= f.pixels.len()
}

/// The rows that can be copied lie inside both pictures.
proof fn lemma_rows_present(
    f: FramebufferModel,
    r: ClippedRect,
    info: BufferInfo,
    source: nat,
    x: int,
    y: int,
    from: nat,
    row: int,
)
    requires
        r.left <= r.right,
        from <= r.bottom - r.top,
        from <= row < f.rows_present(r, info, source, x, y, from),
    ensures
        row_fits(f, r, info, source, x, y, row),
    decreases r.bottom - r.top - from,
{
    let row_bytes = 4 * (r.right - r.left);
    if !(from >= r.bottom - r.top || FramebufferModel::source_row(r, info, x, y, from as int)
        + row_bytes > source || f.frame_row(r, from as int) + row_bytes > f.pixels.len()) {
        if row > from {
            lemma_rows_present(f, r, info, source, x, y, from + 1, row);
        }
    }
}

/// Which bytes of the frame a row is copied to.
proof fn lemma_row_place(width: int, left: int, right: int, row: int, px: int, py: int, k: int)
    requires
        0 <= left <= right <= width,
        0 <= px < width,
        0 <= k < 4,
    ensures
        (4 * width * row + 4 * left <= 4 * (width * py + px) + k < 4 * width * row + 4 * right) == (
        py == row && left <= px < right),
        py == row ==> 4 * (width * py + px) + k - (4 * width * row + 4 * left) == 4 * (px - left)
            + k,
{
    assert(4 * width * row == 4 * (width * row)) by (nonlinear_arith);
    if py < row {
        assert(width * py + width <= width * row) by (nonlinear_arith)
            requires
                py + 1 <= row,
                0 <= width,
        ;
    } else if py > row {
        assert(width * row + width <= width * py) by (nonlinear_arith)
            requires
                row + 1 <= py,
                0 <= width,
        ;
    }
}

proof fn lemma_with_rows(
    f: FramebufferModel,
    r: ClippedRect,
    info: BufferInfo,
    source: Seq<u8>,
    x: int,
    y: int,
    rows: nat,
    px: int,
    py: int,
    k: int,
)
    requires
        0 <= r.left <= r.right <= f.width,
        0 <= r.top,
        x <= r.left,
        y <= r.top,
        0 <= px < f.width,
        0 <= py < f.height,
        0 <= k < 4,
        f.is_whole(),
        forall|row: int|
            0 <= row < rows ==> #[trigger] row_fits(f, r, info, source.len(), x, y, row),
    ensures
        ({
            let after = f.with_rows(r, info, source, x, y, rows);
            let at = 4 * (f.width * py + px) + k;
            &&& after.len() == f.pixels.len()
            &&& 0 <= at < f.pixels.len()
            &&& after[at] == if r.left <= px < r.right && r.top <= py < r.top + rows {
                source[info.stride * (py - y) + 4 * (px - x) + k]
            } else {
                f.pixels[at]
            }
        }),
    decreases rows,
{
    let at = 4 * (f.width * py + px) + k;
    assert(0 <= f.width * py && f.width * py + f.width <= f.width * f.height) by (nonlinear_arith)
        requires
            0 <= py,
            py + 1 <= f.height,
            0 <= f.width,
    ;
    if rows > 0 {
        let row = rows - 1;
        lemma_with_rows(f, r, info, source, x, y, row as nat, px, py, k);
        let from = FramebufferModel::source_row(r, info, x, y, row);
        let to = f.frame_row(r, row);
        let before = f.with_rows(r, info, source, x, y, row as nat);
        let data = source.subrange(from, from + 4 * (r.right - r.left));
        assert(row_fits(f, r, info, source.len(), x, y, row));
        assert(0 <= info.stride * (r.top - y + row)) by (nonlinear_arith)
            requires
                0 <= info.stride,
                0 <= r.top - y + row,
        ;
        assert(0 <= 4 * f.width * (r.top + row)) by (nonlinear_arith)
            requires
                0 <= f.width,
                0 <= r.top + row,
        ;
        lemma_row_place(f.width as int, r.left, r.right, r.top + row, px, py, k);
        let after = model::overlaid(before, to, data);
        assert(after.len() == before.len());
        if to <= at < to + data.len() {
            assert(after[at] == data[at - to]);
            assert(data[at - to] == source[from + (at - to)]);
        } else {
            assert(after[at] == before[at]);
        }
    }
}

/// A blit draws the visible part of a picture, pixel by pixel, as far as both
/// pictures go, and touches nothing else of the frame.
pub proof fn law_blit_is_exact(
    f: FramebufferModel,
    info: BufferInfo,
    source: Seq<u8>,
    x: int,
    y: int,
    px: int,
    py: int,
    k: int,
)
    requires
        f.is_whole(),
        0 <= px < f.width,
        0 <= py < f.height,
        0 <= k < 4,
    ensures
        ({
            let after = f.blitted(info, source, x, y).0;
            let at = 4 * (f.width * py + px) + k;
            &&& after.width == f.width
            &&& after.height == f.height
            &&& after.clear_argb == f.clear_argb
            &&& after.is_whole()
            &&& after.pixels[at] == if f.is_drawn(info, source.len(), x, y, px, py) {
                source[info.stride * (py - y) + 4 * (px - x) + k]
            } else {
                f.pixels[at]
            }
        }),
{
    reveal(FramebufferModel::blitted);
    let r = clipped(
        f.width as int,
        f.height as int,
        x,
        y,
        info.width as int,
        info.height as int,
    );
    if info.width <= i32::MAX && info.height <= i32::MAX && r.left < r.right && r.top < r.bottom {
        let rows = f.rows_present(r, info, source.len(), x, y, 0);
        assert forall|row: int| 0 <= row < rows implies #[trigger] row_fits(
            f,
            r,
            info,
            source.len(),
            x,
            y,
            row,
        ) by {
            lemma_rows_present(f, r, info, source.len(), x, y, 0, row);
        }
        lemma_with_rows(f, r, info, source, x, y, rows, px, py, k);
    } else if r.bottom <= r.top {
        assert(f.rows_present(r, info, source.len(), x, y, 0) == 0);
    }
}

impl Framebuffer {
    /// A black, transparent picture.
    pub fn new(width: u32, height: u32) -> (frame: Self)
        requires
            4 * (width * height) <= usize::MAX,
        ensures
            frame@ == FramebufferModel::blank(width, height),
            frame@.is_whole(),
    {
        proof {
            assert(0 <= width * height) by (nonlinear_arith);
        }
        let total: usize = 4 * (width as usize * height as usize);
        let pixels: Vec<u8> = vec![0u8; total];
        let frame = Framebuffer { width, height, pixels, clear_argb: 0 };
        proof {
            assert(frame@ =~= FramebufferModel::blank(width, height));
        }
        frame
    }

    pub fn width(&self) -> (width: u32)
        ensures
            width == self@.width,
    {
        self.width
    }

    pub fn height(&self) -> (height: u32)
        ensures
            height == self@.height,
    {
        self.height
    }

    pub fn pixels(&self) -> (pixels: &[u8])
        ensures
            pixels@ == self@.pixels,
    {
        self.pixels.as_slice()
    }

    pub fn pixels_mut(&mut self) -> (pixels: &mut [u8])
        ensures
            (*pixels)@ == old(self)@.pixels,
            final(self)@ == (FramebufferModel { pixels: (*final(pixels))@, ..old(self)@ }),
    {
        self.pixels.as_mut_slice()
    }

    /// The bytes of the pixel in column `x` of row `y`.
    pub fn pixel(&self, x: u32, y: u32) -> (r: Option<&[u8]>)
        ensures
            match r {
                Some(bytes) => x < self@.width && y < self@.height && 4 * (y * self@.width + x) + 4
                    <= self@.pixels.len() && bytes@ == self@.pixels.subrange(
                    4 * (y * self@.width + x),
                    4 * (y * self@.width + x) + 4,
                ),
                None => x >= self@.width || y >= self@.height || 4 * (y * self@.width + x) + 4
                    > self@.pixels.len(),
            },
            self@.is_whole() ==> (r is Some) == (x < self@.width && y < self@.height),
    {
        if x >= self.width || y >= self.height {
            return None;
        }
        proof {
            assert(0 <= y * self.width <= 0xffff_ffff * 0xffff_ffff) by (nonlinear_arith)
                requires
                    0 <= y <= 0xffff_ffff,
                    0 <= self.width <= 0xffff_ffff,
            ;
        }
        let index: u64 = y as u64 * self.width as u64 + x as u64;
        let pixels: u64 = (self.pixels.len() / 4) as u64;
        proof {
            assert(y * self.width + x < self.width * self.height) by (nonlinear_arith)
                requires
                    x < self.width,
                    y + 1 <= self.height,
            ;
        }
        if index >= pixels {
            return None;
        }
        let at: usize = 4 * index as usize;
        Some(slice_subrange(self.pixels.as_slice(), at, at + 4))
    }

    /// Paints the whole picture in one colour, and keeps it as the background.
    pub fn clear(&mut self, argb: u32)
        ensures
            final(self)@ == (FramebufferModel { clear_argb: argb, ..old(self)@ }).cleared(),
            old(self)@.is_whole() ==> final(self)@.is_whole(),
    {
        self.clear_argb = argb;
        self.fill(argb);
    }

    /// Paints the whole picture in the background colour.
    pub(crate) fn clear_for_composition(&mut self)
        ensures
            final(self)@ == old(self)@.cleared(),
    {
        self.fill(self.clear_argb);
    }

    fn fill(&mut self, argb: u32)
        ensures
            final(self)@ == (FramebufferModel {
                pixels: filled(old(self)@.pixels, argb),
                ..old(self)@
            }),
    {
        let blue: u8 = (argb % 0x100) as u8;
        let green: u8 = (argb / 0x100 % 0x100) as u8;
        let red: u8 = (argb / 0x1_0000 % 0x100) as u8;
        let alpha: u8 = (argb / 0x100_0000) as u8;
        let ghost before = self.pixels@;
        let len: usize = self.pixels.len();
        let mut i: usize = 0;
        while i <= len && len - i >= 4
            invariant
                i <= len,
                i % 4 == 0,
                len == before.len(),
                self.pixels@.len() == len,
                self@ == (FramebufferModel { pixels: self.pixels@, ..old(self)@ }),
                blue == colour_byte(argb, 0),
                green == colour_byte(argb, 1),
                red == colour_byte(argb, 2),
                alpha == colour_byte(argb, 3),
                forall|j: int| 0 <= j < i ==> self.pixels@[j] == colour_byte(argb, j % 4),
                forall|j: int| i <= j < len ==> self.pixels@[j] == before[j],
            decreases len - i,
        {
            self.pixels.set(i, blue);
            self.pixels.set(i + 1, green);
            self.pixels.set(i + 2, red);
            self.pixels.set(i + 3, alpha);
            i += 4;
        }
        proof {
            assert(self.pixels@ =~= filled(before, argb));
        }
    }

    /// Draws a buffer's picture over the frame at the given place, and returns
    /// the number of pixels drawn. Rows that the source does not hold are left
    /// out, with all rows below them.
    pub fn blit_buffer(&mut self, info: &BufferInfo, source: &[u8], x: i32, y: i32) -> (drawn:
        usize)
        ensures
            (final(self)@, drawn as nat) == old(self)@.blitted(*info, source@, x as int, y as int),
            old(self)@.is_whole() ==> final(self)@.is_whole(),
    {
        proof {
            reveal(FramebufferModel::blitted);
        }
        if info.width > i32::MAX as u32 || info.height > i32::MAX as u32 {
            return 0;
        }
        let left: i64 = if x > 0 {
            x as i64
        } else {
            0
        };
        let top: i64 = if y > 0 {
            y as i64
        } else {
            0
        };
        let x_end: i64 = x as i64 + info.width as i64;
        let y_end: i64 = y as i64 + info.height as i64;
        let right: i64 = if x_end < self.width as i64 {
            x_end
        } else {
            self.width as i64
        };
        let bottom: i64 = if y_end < self.height as i64 {
            y_end
        } else {
            self.height as i64
        };
        if right <= left || bottom <= top {
            return 0;
        }
        let ghost r = clipped(
            self.width as int,
            self.height as int,
            x as int,
            y as int,
            info.width as int,
            info.height as int,
        );
        let columns: u64 = (right - left) as u64;
        let rows: u64 = (bottom - top) as u64;
        let row_bytes: u64 = 4 * columns;
        let source_left: u64 = 4 * (left - x as i64) as u64;
        let source_top: u64 = (top - y as i64) as u64;
        let stride: u64 = info.stride as u64;
        let frame_stride: u64 = 4 * self.width as u64;
        let frame_top: u64 = top as u64;
        let frame_left: u64 = 4 * left as u64;
        let ghost start = self@;
        let ghost n = start.rows_present(r, *info, source@.len(), x as int, y as int, 0);
        let mut row: u64 = 0;
        let mut drawn: usize = 0;
        while row < rows
            invariant_except_break
                n == start.rows_present(
                    r,
                    *info,
                    source@.len(),
                    x as int,
                    y as int,
                    row as nat,
                ),
            invariant
                row <= rows,
                start == old(self)@,
                r == clipped(
                    start.width as int,
                    start.height as int,
                    x as int,
                    y as int,
                    info.width as int,
                    info.height as int,
                ),
                rows == r.bottom - r.top,
                columns == r.right - r.left,
                row_bytes == 4 * columns,
                source_left == 4 * (r.left - x),
                source_top == r.top - y,
                stride == info.stride,
                frame_stride == 4 * start.width,
                frame_top == r.top,
                frame_left == 4 * r.left,
                0 <= r.left < r.right <= start.width,
                0 <= r.top < r.bottom <= start.height,
                rows <= 0xffff_ffff,
                columns <= 0xffff_ffff,
                source_top <= 0x1_0000_0000,
                source_left <= 0x4_0000_0000,
                frame_left <= 0x4_0000_0000,
                self@ == (FramebufferModel {
                    pixels: start.with_rows(
                        r,
                        *info,
                        source@,
                        x as int,
                        y as int,
                        row as nat,
                    ),
                    ..start
                }),
                self.pixels@.len() == start.pixels.len(),
                drawn == row * columns,
                row > 0 ==> drawn <= start.pixels.len(),
            ensures
                n == row,
            decreases rows - row,
        {
            proof {
                lemma_small_products(stride as int, source_top + row);
                lemma_small_products(frame_stride as int, frame_top + row);
                assert(info.stride * (r.top - y + row) == stride * (source_top + row));
                assert(4 * start.width * (r.top + row) == frame_stride * (frame_top + row));
            }
            let from: u128 = stride as u128 * (source_top + row) as u128 + source_left as u128;
            let to: u128 = frame_stride as u128 * (frame_top + row) as u128 + frame_left as u128;
            if from + row_bytes as u128 > source.len() as u128 || to + row_bytes as u128
                > self.pixels.len() as u128 {
                break;
            }
            overlay(
                &mut self.pixels,
                to as usize,
                slice_subrange(source, from as usize, from as usize + row_bytes as usize),
            );
            proof {
                assert((row + 1) * columns == row * columns + columns) by (nonlinear_arith);
                // Every row drawn so far lies in a row of its own in the frame.
                lemma_rows_in_order(frame_stride as int, row as int, frame_top + row);
                assert(row * columns <= frame_stride * row) by (nonlinear_arith)
                    requires
                        0 <= row,
                        0 <= columns <= frame_stride,
                ;
            }
            drawn = drawn + columns as usize;
            row += 1;
        }
        drawn
    }
}

proof fn lemma_small_products(a: int, b: int)
    requires
        0 <= a <= 0x4_0000_0000,
        0 <= b <= 0x2_0000_0000,
    ensures
        0 <= a * b <= 0x4_0000_0000 * 0x2_0000_0000,
{
    assert(0 <= a * b <= 0x4_0000_0000 * 0x2_0000_0000) by (nonlinear_arith)
        requires
            0 <= a <= 0x4_0000_0000,
            0 <= b <= 0x2_0000_0000,
    ;
}

impl Default for Framebuffer {
    fn default() -> (frame: Self)
        ensures
            frame@ == FramebufferModel::blank(DEFAULT_WIDTH, DEFAULT_HEIGHT),
    {
        Framebuffer::new(DEFAULT_WIDTH, DEFAULT_HEIGHT)
    }
}

} // verus!
