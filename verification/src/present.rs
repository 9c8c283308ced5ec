//! Showing the picture: what of it changed since it was last shown, and the
//! commands that bring the screen up to date.

use vstd::prelude::*;

use crate::bytes;

pub mod bands;
pub mod device;
pub mod extents;
pub mod palette;
pub mod plan;
pub mod runs;
pub mod shadow;

verus! {

/// Commands of the frame buffer device.
pub const FB_OP_SET_MODE: u8 = 0x01;

pub const FB_OP_BLIT: u8 = 0x02;

pub const FB_OP_BLIT_BEGIN: u8 = 0x03;

pub const FB_OP_BLIT_CHUNK: u8 = 0x04;

pub const FB_OP_BLIT_END: u8 = 0x05;

pub const FB_OP_PATCH: u8 = 0x06;

pub const FB_OP_PATCH_RLE: u8 = 0x07;

pub const FB_OP_PATCH_PALETTE_RLE_BATCH: u8 = 0x08;

pub const FB_OP_PRESENT_FENCE: u8 = 0x09;

/// The longest command that the device takes.
pub const FB_MAX_COMMAND_BYTES: usize = 32768;

/// Bytes of a patch before its pixels: the command and its rectangle.
pub const FB_PATCH_COMMAND_HEADER_BYTES: usize = 17;

/// Bytes of a run: its length and its colour.
pub const FB_RLE_RUN_BYTES: usize = 8;

/// Bytes of a batch before its palette: the command, the number of rectangles
/// and the number of colours.
pub const FB_PALETTE_BATCH_HEADER_BYTES: usize = 3;

pub const FB_PALETTE_BATCH_RECT_HEADER_BYTES: usize = 16;

/// Bytes of a run in a batch: its length and the place of its colour.
pub const FB_PALETTE_BATCH_RUN_BYTES: usize = 3;

pub const FB_PALETTE_BATCH_MAX_RECTS: usize = 8;

pub const FB_PALETTE_BATCH_MAX_COLORS: usize = 256;

/// A rectangle of the picture, in pixels.
#[derive(Copy, Clone, Debug, PartialEq, Eq, Structural)]
pub struct DamageRect {
    pub x: u32,
    pub y: u32,
    pub width: u32,
    pub height: u32,
}

impl DamageRect {
    pub open spec fn right(self) -> int {
        self.x + self.width
    }

    pub open spec fn bottom(self) -> int {
        self.y + self.height
    }

    /// Whether the rectangle covers a pixel.
    pub open spec fn has(self, x: int, y: int) -> bool {
        self.x <= x < self.right() && self.y <= y < self.bottom()
    }

    /// Whether the rectangle is not empty and lies on a picture of the given
    /// size.
    pub open spec fn lies_on(self, width: int, height: int) -> bool {
        self.width > 0 && self.height > 0 && self.right() <= width && self.bottom() <= height
    }

    /// The rectangle as it stands in commands.
    #[verifier::opaque]
    pub open spec fn wire(self) -> Seq<u8> {
        bytes::le32(self.x) + bytes::le32(self.y) + bytes::le32(self.width) + bytes::le32(
            self.height,
        )
    }

    pub proof fn lemma_wire_len(self)
        ensures
            self.wire().len() == 16,
    {
        reveal(DamageRect::wire);
    }

    pub(crate) fn push_onto(&self, command: &mut Vec<u8>)
        ensures
            final(command)@ == old(command)@ + self.wire(),
    {
        proof {
            reveal(DamageRect::wire);
        }
        bytes::push_u32(command, self.x);
        bytes::push_u32(command, self.y);
        bytes::push_u32(command, self.width);
        bytes::push_u32(command, self.height);
        proof {
            assert(command@ =~= old(command)@ + self.wire());
        }
    }

    /// Whether the rectangle is not empty and lies on a picture of the given
    /// size.
    pub(crate) fn is_on(&self, width: u32, height: u32) -> (r: bool)
        ensures
            r == self.lies_on(width as int, height as int),
    {
        self.width > 0 && self.height > 0 && self.x as u64 + self.width as u64 <= width as u64
            && self.y as u64 + self.height as u64 <= height as u64
    }
}

/// The pixel in place `i` of a picture, as one number.
pub open spec fn pixel(picture: Seq<u8>, i: int) -> u32 {
    bytes::le32_at(picture, 4 * i)
}

/// Whether a picture has the bytes that its size asks for.
pub open spec fn is_picture(picture: Seq<u8>, width: u32, height: u32) -> bool {
    picture.len() == 4 * (width * height)
}

/// The bytes of a picture, if that is a number that can be counted to.
pub(crate) fn picture_bytes(width: u32, height: u32) -> (r: Option<usize>)
    ensures
        match r {
            Some(n) => n == 4 * (width * height),
            None => 4 * (width * height) > usize::MAX,
        },
{
    proof {
        assert(0 <= width * height <= 0xffff_ffff * 0xffff_ffff) by (nonlinear_arith)
            requires
                0 <= width <= 0xffff_ffff,
                0 <= height <= 0xffff_ffff,
        ;
    }
    let n: u128 = 4 * (width as u128 * height as u128);
    if n <= usize::MAX as u128 {
        Some(n as usize)
    } else {
        None
    }
}

/// A place in row `y` of a picture lies on the picture.
pub proof fn lemma_place(width: u32, height: u32, x: int, y: int)
    requires
        0 <= x <= width,
        0 <= y < height,
    ensures
        0 <= y * width,
        y * width + x <= width * height,
        x < width ==> y * width + x < width * height,
{
    assert(y * width + width <= width * height) by (nonlinear_arith)
        requires
            0 <= y < height,
            0 <= width,
    ;
    assert(0 <= y * width) by (nonlinear_arith)
        requires
            0 <= y,
            0 <= width,
    ;
}

/// The command that sets the size of the screen.
pub fn encode_set_mode(width: u32, height: u32) -> (command: Vec<u8>)
    ensures
        command@ == seq![FB_OP_SET_MODE] + bytes::le32(width) + bytes::le32(height),
{
    let mut command: Vec<u8> = Vec::new();
    command.push(FB_OP_SET_MODE);
    bytes::push_u32(&mut command, width);
    bytes::push_u32(&mut command, height);
    proof {
        assert(command@ =~= seq![FB_OP_SET_MODE] + bytes::le32(width) + bytes::le32(height));
    }
    command
}

/// The command that reports when everything before it is on the screen.
pub fn encode_present_fence(serial: u32) -> (command: [u8; 5])
    ensures
        command@ == seq![FB_OP_PRESENT_FENCE] + bytes::le32(serial),
{
    let command: [u8; 5] = [
        FB_OP_PRESENT_FENCE,
        (serial % 0x100) as u8,
        (serial / 0x100 % 0x100) as u8,
        (serial / 0x1_0000 % 0x100) as u8,
        (serial / 0x100_0000) as u8,
    ];
    proof {
        assert(command@ =~= seq![FB_OP_PRESENT_FENCE] + bytes::le32(serial));
    }
    command
}

} // verus!
