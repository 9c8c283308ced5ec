//! Request payloads.
//!
//! Every integer is little-endian. A payload that is shorter or longer than
//! its request is refused.

use vstd::prelude::*;
use vstd::slice::slice_subrange;
use vstd::utf8;

use crate::bytes;
use crate::bytes::{read_i32, read_u32};
use crate::ids::ObjectId;
use crate::text;
use crate::text::{find_text_end, utf8_text};

verus! {

/// Why a payload is not the request it is taken for.
#[derive(Copy, Clone, Debug, PartialEq, Eq, Structural)]
pub enum DecodeError {
    /// The payload ends inside the request.
    Truncated,
    /// Bytes are left after the request.
    TrailingBytes,
    /// Text is not valid UTF-8.
    InvalidText,
    /// The data that follows does not have the size that the request declares.
    SizeMismatch,
}

/// Pixel layouts of a buffer.
pub const BUFFER_FORMAT_ARGB8888: u32 = 0;

pub const BUFFER_FORMAT_XRGB8888: u32 = 1;

/// The most pixel bytes that one patch of a surface may carry.
pub const MAX_SURFACE_PATCH_BYTES: usize = 32768;

/// The longest that a restore may be asked to take.
pub const MAX_SHELL_RESTORE_TIMEOUT_MS: u32 = 30000;

/// States that a restored window may be put in.
pub const RESTORE_WINDOW_MINIMIZED: u32 = 1;

pub const RESTORE_WINDOW_MAXIMIZED: u32 = 2;

pub const RESTORE_WINDOW_ALL: u32 = 3;

/// Edges of a window that a resize drags.
pub const RESIZE_EDGE_TOP: u32 = 1;

pub const RESIZE_EDGE_BOTTOM: u32 = 2;

pub const RESIZE_EDGE_LEFT: u32 = 4;

pub const RESIZE_EDGE_RIGHT: u32 = 8;

/// Why a payload is not exactly `size` bytes, if it is not.
pub open spec fn size_fault(payload: Seq<u8>, size: int) -> Option<DecodeError> {
    if payload.len() < size {
        Some(DecodeError::Truncated)
    } else if payload.len() > size {
        Some(DecodeError::TrailingBytes)
    } else {
        None
    }
}

fn check_size(payload: &[u8], size: usize) -> (r: Result<(), DecodeError>)
    ensures
        match r {
            Ok(_) => size_fault(payload@, size as int) is None,
            Err(e) => size_fault(payload@, size as int) == Some(e),
        },
{
    if payload.len() < size {
        Err(DecodeError::Truncated)
    } else if payload.len() > size {
        Err(DecodeError::TrailingBytes)
    } else {
        Ok(())
    }
}

/// Decodes a payload of one unsigned integer.
pub fn decode_word(payload: &[u8]) -> (r: Result<u32, DecodeError>)
    ensures
        match r {
            Ok(value) => size_fault(payload@, 4) is None && value == bytes::le32_at(payload@, 0),
            Err(e) => size_fault(payload@, 4) == Some(e),
        },
{
    match check_size(payload, 4) {
        Ok(_) => Ok(read_u32(payload, 0)),
        Err(e) => Err(e),
    }
}

/// Decodes a payload of one object id.
pub fn decode_id(payload: &[u8]) -> (r: Result<ObjectId, DecodeError>)
    ensures
        match r {
            Ok(id) => size_fault(payload@, 4) is None && id == ObjectId(bytes::le32_at(payload@, 0)),
            Err(e) => size_fault(payload@, 4) == Some(e),
        },
{
    match decode_word(payload) {
        Ok(value) => Ok(ObjectId(value)),
        Err(e) => Err(e),
    }
}


/// Asks for a pool of shared memory.
#[derive(Copy, Clone, Debug, PartialEq, Eq, Structural)]
pub struct ShmCreatePool {
    pub new_id: ObjectId,
    pub size: u32,
}

impl ShmCreatePool {
    pub const SIZE: usize = 8;

    /// The request that a payload of the right size holds.
    pub open spec fn held_by(payload: Seq<u8>) -> ShmCreatePool {
        ShmCreatePool {
            new_id: ObjectId(bytes::le32_at(payload, 0)),
            size: bytes::le32_at(payload, 4),
        }
    }

    pub fn decode(payload: &[u8]) -> (r: Result<ShmCreatePool, DecodeError>)
        ensures
            match r {
                Ok(request) => {
                    &&& size_fault(payload@, 8) is None
                    &&& request == ShmCreatePool::held_by(payload@)
                },
                Err(e) => size_fault(payload@, 8) == Some(e),
            },
    {
        match check_size(payload, 8) {
            Ok(_) => Ok(
                ShmCreatePool {
                    new_id: ObjectId(read_u32(payload, 0)),
                    size: read_u32(payload, 4),
                },
            ),
            Err(e) => Err(e),
        }
    }
}

/// Asks for a buffer over part of a pool.
#[derive(Copy, Clone, Debug, PartialEq, Eq, Structural)]
pub struct ShmPoolCreateBuffer {
    pub new_id: ObjectId,
    pub offset: u32,
    pub width: u32,
    pub height: u32,
    pub stride: u32,
    pub format: u32,
}

impl ShmPoolCreateBuffer {
    pub const SIZE: usize = 24;

    /// The request that a payload of the right size holds.
    pub open spec fn held_by(payload: Seq<u8>) -> ShmPoolCreateBuffer {
        ShmPoolCreateBuffer {
            new_id: ObjectId(bytes::le32_at(payload, 0)),
            offset: bytes::le32_at(payload, 4),
            width: bytes::le32_at(payload, 8),
            height: bytes::le32_at(payload, 12),
            stride: bytes::le32_at(payload, 16),
            format: bytes::le32_at(payload, 20),
        }
    }

    pub fn decode(payload: &[u8]) -> (r: Result<ShmPoolCreateBuffer, DecodeError>)
        ensures
            match r {
                Ok(request) => {
                    &&& size_fault(payload@, 24) is None
                    &&& request == ShmPoolCreateBuffer::held_by(payload@)
                },
                Err(e) => size_fault(payload@, 24) == Some(e),
            },
    {
        match check_size(payload, 24) {
            Ok(_) => Ok(
                ShmPoolCreateBuffer {
                    new_id: ObjectId(read_u32(payload, 0)),
                    offset: read_u32(payload, 4),
                    width: read_u32(payload, 8),
                    height: read_u32(payload, 12),
                    stride: read_u32(payload, 16),
                    format: read_u32(payload, 20),
                },
            ),
            Err(e) => Err(e),
        }
    }
}

/// Attaches a buffer to a surface at an offset.
#[derive(Copy, Clone, Debug, PartialEq, Eq, Structural)]
pub struct SurfaceAttach {
    pub buffer_id: ObjectId,
    pub x: i32,
    pub y: i32,
}

impl SurfaceAttach {
    pub const SIZE: usize = 12;

    /// The request that a payload of the right size holds.
    pub open spec fn held_by(payload: Seq<u8>) -> SurfaceAttach {
        SurfaceAttach {
            buffer_id: ObjectId(bytes::le32_at(payload, 0)),
            x: bytes::le32_at(payload, 4) as i32,
            y: bytes::le32_at(payload, 8) as i32,
        }
    }

    pub fn decode(payload: &[u8]) -> (r: Result<SurfaceAttach, DecodeError>)
        ensures
            match r {
                Ok(request) => {
                    &&& size_fault(payload@, 12) is None
                    &&& request == SurfaceAttach::held_by(payload@)
                },
                Err(e) => size_fault(payload@, 12) == Some(e),
            },
    {
        match check_size(payload, 12) {
            Ok(_) => Ok(
                SurfaceAttach {
                    buffer_id: ObjectId(read_u32(payload, 0)),
                    x: read_i32(payload, 4),
                    y: read_i32(payload, 8),
                },
            ),
            Err(e) => Err(e),
        }
    }
}

/// Marks part of a surface as changed.
#[derive(Copy, Clone, Debug, PartialEq, Eq, Structural)]
pub struct SurfaceDamage {
    pub x: i32,
    pub y: i32,
    pub width: i32,
    pub height: i32,
}

impl SurfaceDamage {
    pub const SIZE: usize = 16;

    /// The request that a payload of the right size holds.
    pub open spec fn held_by(payload: Seq<u8>) -> SurfaceDamage {
        SurfaceDamage {
            x: bytes::le32_at(payload, 0) as i32,
            y: bytes::le32_at(payload, 4) as i32,
            width: bytes::le32_at(payload, 8) as i32,
            height: bytes::le32_at(payload, 12) as i32,
        }
    }

    pub fn decode(payload: &[u8]) -> (r: Result<SurfaceDamage, DecodeError>)
        ensures
            match r {
                Ok(request) => {
                    &&& size_fault(payload@, 16) is None
                    &&& request == SurfaceDamage::held_by(payload@)
                },
                Err(e) => size_fault(payload@, 16) == Some(e),
            },
    {
        match check_size(payload, 16) {
            Ok(_) => Ok(
                SurfaceDamage {
                    x: read_i32(payload, 0),
                    y: read_i32(payload, 4),
                    width: read_i32(payload, 8),
                    height: read_i32(payload, 12),
                },
            ),
            Err(e) => Err(e),
        }
    }
}

/// Gives a surface the role of a toplevel window.
#[derive(Copy, Clone, Debug, PartialEq, Eq, Structural)]
pub struct XdgShellGetToplevel {
    pub new_id: ObjectId,
    pub surface_id: ObjectId,
}

impl XdgShellGetToplevel {
    pub const SIZE: usize = 8;

    /// The request that a payload of the right size holds.
    pub open spec fn held_by(payload: Seq<u8>) -> XdgShellGetToplevel {
        XdgShellGetToplevel {
            new_id: ObjectId(bytes::le32_at(payload, 0)),
            surface_id: ObjectId(bytes::le32_at(payload, 4)),
        }
    }

    pub fn decode(payload: &[u8]) -> (r: Result<XdgShellGetToplevel, DecodeError>)
        ensures
            match r {
                Ok(request) => {
                    &&& size_fault(payload@, 8) is None
                    &&& request == XdgShellGetToplevel::held_by(payload@)
                },
                Err(e) => size_fault(payload@, 8) == Some(e),
            },
    {
        match check_size(payload, 8) {
            Ok(_) => Ok(
                XdgShellGetToplevel {
                    new_id: ObjectId(read_u32(payload, 0)),
                    surface_id: ObjectId(read_u32(payload, 4)),
                },
            ),
            Err(e) => Err(e),
        }
    }
}

/// Opens a restore of saved windows.
#[derive(Copy, Clone, Debug, PartialEq, Eq, Structural)]
pub struct ShellManagerBeginRestore {
    pub restore_id: u32,
    pub timeout_ms: u32,
}

impl ShellManagerBeginRestore {
    pub const SIZE: usize = 8;

    /// The request that a payload of the right size holds.
    pub open spec fn held_by(payload: Seq<u8>) -> ShellManagerBeginRestore {
        ShellManagerBeginRestore {
            restore_id: bytes::le32_at(payload, 0),
            timeout_ms: bytes::le32_at(payload, 4),
        }
    }

    pub fn decode(payload: &[u8]) -> (r: Result<ShellManagerBeginRestore, DecodeError>)
        ensures
            match r {
                Ok(request) => {
                    &&& size_fault(payload@, 8) is None
                    &&& request == ShellManagerBeginRestore::held_by(payload@)
                },
                Err(e) => size_fault(payload@, 8) == Some(e),
            },
    {
        match check_size(payload, 8) {
            Ok(_) => Ok(
                ShellManagerBeginRestore {
                    restore_id: read_u32(payload, 0),
                    timeout_ms: read_u32(payload, 4),
                },
            ),
            Err(e) => Err(e),
        }
    }
}

/// Places one window of a restore.
#[derive(Copy, Clone, Debug, PartialEq, Eq, Structural)]
pub struct ShellManagerPlaceRestoredWindow {
    pub restore_id: u32,
    pub window_id: u32,
    pub normal_x: i32,
    pub normal_y: i32,
    pub normal_width: u32,
    pub normal_height: u32,
    pub flags: u32,
    pub z_rank: u32,
}

impl ShellManagerPlaceRestoredWindow {
    pub const SIZE: usize = 32;

    /// The request that a payload of the right size holds.
    pub open spec fn held_by(payload: Seq<u8>) -> ShellManagerPlaceRestoredWindow {
        ShellManagerPlaceRestoredWindow {
            restore_id: bytes::le32_at(payload, 0),
            window_id: bytes::le32_at(payload, 4),
            normal_x: bytes::le32_at(payload, 8) as i32,
            normal_y: bytes::le32_at(payload, 12) as i32,
            normal_width: bytes::le32_at(payload, 16),
            normal_height: bytes::le32_at(payload, 20),
            flags: bytes::le32_at(payload, 24),
            z_rank: bytes::le32_at(payload, 28),
        }
    }

    pub fn decode(payload: &[u8]) -> (r: Result<ShellManagerPlaceRestoredWindow, DecodeError>)
        ensures
            match r {
                Ok(request) => {
                    &&& size_fault(payload@, 32) is None
                    &&& request == ShellManagerPlaceRestoredWindow::held_by(payload@)
                },
                Err(e) => size_fault(payload@, 32) == Some(e),
            },
    {
        match check_size(payload, 32) {
            Ok(_) => Ok(
                ShellManagerPlaceRestoredWindow {
                    restore_id: read_u32(payload, 0),
                    window_id: read_u32(payload, 4),
                    normal_x: read_i32(payload, 8),
                    normal_y: read_i32(payload, 12),
                    normal_width: read_u32(payload, 16),
                    normal_height: read_u32(payload, 20),
                    flags: read_u32(payload, 24),
                    z_rank: read_u32(payload, 28),
                },
            ),
            Err(e) => Err(e),
        }
    }
}

/// Closes a restore.
#[derive(Copy, Clone, Debug, PartialEq, Eq, Structural)]
pub struct ShellManagerEndRestore {
    pub restore_id: u32,
    pub focus_window_id: u32,
}

impl ShellManagerEndRestore {
    pub const SIZE: usize = 8;

    /// The request that a payload of the right size holds.
    pub open spec fn held_by(payload: Seq<u8>) -> ShellManagerEndRestore {
        ShellManagerEndRestore {
            restore_id: bytes::le32_at(payload, 0),
            focus_window_id: bytes::le32_at(payload, 4),
        }
    }

    pub fn decode(payload: &[u8]) -> (r: Result<ShellManagerEndRestore, DecodeError>)
        ensures
            match r {
                Ok(request) => {
                    &&& size_fault(payload@, 8) is None
                    &&& request == ShellManagerEndRestore::held_by(payload@)
                },
                Err(e) => size_fault(payload@, 8) == Some(e),
            },
    {
        match check_size(payload, 8) {
            Ok(_) => Ok(
                ShellManagerEndRestore {
                    restore_id: read_u32(payload, 0),
                    focus_window_id: read_u32(payload, 4),
                },
            ),
            Err(e) => Err(e),
        }
    }
}

/// Binds a global to an object id.
#[derive(Copy, Clone, Debug, PartialEq, Eq)]
pub struct RegistryBind<'a> {
    pub name: u32,
    /// The interface's name, valid UTF-8.
    pub interface: &'a [u8],
    pub version: u32,
    pub new_id: ObjectId,
}

/// Why a payload is not a bind request, if it is not.
pub open spec fn bind_fault(payload: Seq<u8>) -> Option<DecodeError> {
    match text::text_end(payload, 4) {
        None => Some(DecodeError::Truncated),
        Some(end) => if !utf8::valid_utf8(text::text_at(payload, 4)) {
            Some(DecodeError::InvalidText)
        } else {
            size_fault(payload, end + 8)
        },
    }
}

impl<'a> RegistryBind<'a> {
    pub fn decode(payload: &'a [u8]) -> (r: Result<RegistryBind<'a>, DecodeError>)
        ensures
            match r {
                Ok(request) => {
                    let end = text::text_end(payload@, 4);
                    &&& bind_fault(payload@) is None
                    &&& request.name == bytes::le32_at(payload@, 0)
                    &&& request.interface@ == text::text_at(payload@, 4)
                    &&& request.version == bytes::le32_at(payload@, end->0)
                    &&& request.new_id == ObjectId(bytes::le32_at(payload@, end->0 + 4))
                },
                Err(e) => bind_fault(payload@) == Some(e),
            },
    {
        if payload.len() < 4 {
            return Err(DecodeError::Truncated);
        }
        let end = match find_text_end(payload, 4) {
            Some(end) => end,
            None => {
                return Err(DecodeError::Truncated);
            },
        };
        let len: usize = read_u32(payload, 4) as usize;
        let interface = slice_subrange(payload, 8, 8 + len);
        if utf8_text(interface).is_none() {
            return Err(DecodeError::InvalidText);
        }
        if payload.len() - end < 8 {
            return Err(DecodeError::Truncated);
        }
        if payload.len() - end > 8 {
            return Err(DecodeError::TrailingBytes);
        }
        Ok(
            RegistryBind {
                name: read_u32(payload, 0),
                interface,
                version: read_u32(payload, end),
                new_id: ObjectId(read_u32(payload, end + 4)),
            },
        )
    }
}

/// Why a payload is not a single text, judged by its framing alone.
pub open spec fn text_frame_fault(payload: Seq<u8>) -> Option<DecodeError> {
    match text::text_end(payload, 0) {
        None => Some(DecodeError::Truncated),
        Some(end) => size_fault(payload, end),
    }
}

/// Why a payload is not a single text, if it is not.
pub open spec fn text_fault(payload: Seq<u8>) -> Option<DecodeError> {
    match text_frame_fault(payload) {
        Some(e) => Some(e),
        None => if utf8::valid_utf8(text::text_at(payload, 0)) {
            None
        } else {
            Some(DecodeError::InvalidText)
        },
    }
}

/// The length in bytes of the single text that a payload frames.
pub fn text_byte_len(payload: &[u8]) -> (r: Result<usize, DecodeError>)
    ensures
        match r {
            Ok(len) => text_frame_fault(payload@) is None && len == text::text_at(payload@, 0).len(),
            Err(e) => text_frame_fault(payload@) == Some(e),
        },
{
    let end = match find_text_end(payload, 0) {
        Some(end) => end,
        None => {
            return Err(DecodeError::Truncated);
        },
    };
    match check_size(payload, end) {
        Ok(_) => Ok(read_u32(payload, 0) as usize),
        Err(e) => Err(e),
    }
}

/// Decodes a payload of a single text.
pub fn decode_text(payload: &[u8]) -> (r: Result<String, DecodeError>)
    ensures
        match r {
            Ok(value) => text_fault(payload@) is None && utf8::encode_utf8(value@)
                == text::text_at(payload@, 0),
            Err(e) => text_fault(payload@) == Some(e),
        },
{
    match text_byte_len(payload) {
        Ok(len) => {
            assert(4 + len <= payload.len());
            match utf8_text(slice_subrange(payload, 4, 4 + len)) {
                Some(value) => Ok(value),
                None => Err(DecodeError::InvalidText),
            }
        },
        Err(e) => Err(e),
    }
}

/// Writes bytes into a pool.
#[derive(Copy, Clone, Debug, PartialEq, Eq)]
pub struct ShmPoolWrite<'a> {
    pub offset: u32,
    pub bytes: &'a [u8],
}

/// Why a payload is not a pool write, if it is not.
pub open spec fn pool_write_fault(payload: Seq<u8>) -> Option<DecodeError> {
    if payload.len() < 4 {
        Some(DecodeError::Truncated)
    } else {
        None
    }
}

impl<'a> ShmPoolWrite<'a> {
    pub fn decode(payload: &'a [u8]) -> (r: Result<ShmPoolWrite<'a>, DecodeError>)
        ensures
            match r {
                Ok(request) => pool_write_fault(payload@) is None && request.offset
                    == bytes::le32_at(payload@, 0) && request.bytes@ == payload@.skip(4),
                Err(e) => pool_write_fault(payload@) == Some(e),
            },
    {
        if payload.len() < 4 {
            return Err(DecodeError::Truncated);
        }
        let data = slice_subrange(payload, 4, payload.len());
        proof {
            assert(data@ =~= payload@.skip(4));
        }
        Ok(ShmPoolWrite { offset: read_u32(payload, 0), bytes: data })
    }
}

/// Writes rows of bytes into a pool, a stride apart.
#[derive(Copy, Clone, Debug, PartialEq, Eq)]
pub struct ShmPoolWriteRows<'a> {
    pub offset: u32,
    pub row_bytes: u32,
    pub rows: u32,
    pub stride: u32,
    pub bytes: &'a [u8],
}

/// Why a payload is not a write of rows, if it is not.
pub open spec fn pool_write_rows_fault(payload: Seq<u8>) -> Option<DecodeError> {
    if payload.len() < 16 {
        Some(DecodeError::Truncated)
    } else if payload.len() - 16 != bytes::le32_at(payload, 4) * bytes::le32_at(payload, 8) {
        Some(DecodeError::SizeMismatch)
    } else {
        None
    }
}

impl<'a> ShmPoolWriteRows<'a> {
    pub fn decode(payload: &'a [u8]) -> (r: Result<ShmPoolWriteRows<'a>, DecodeError>)
        ensures
            match r {
                Ok(request) => {
                    &&& pool_write_rows_fault(payload@) is None
                    &&& request.offset == bytes::le32_at(payload@, 0)
                    &&& request.row_bytes == bytes::le32_at(payload@, 4)
                    &&& request.rows == bytes::le32_at(payload@, 8)
                    &&& request.stride == bytes::le32_at(payload@, 12)
                    &&& request.bytes@ == payload@.skip(16)
                },
                Err(e) => pool_write_rows_fault(payload@) == Some(e),
            },
    {
        if payload.len() < 16 {
            return Err(DecodeError::Truncated);
        }
        let row_bytes: u32 = read_u32(payload, 4);
        let rows: u32 = read_u32(payload, 8);
        proof {
            assert(row_bytes * rows <= 0xffff_ffff * 0xffff_ffff) by (nonlinear_arith)
                requires
                    row_bytes <= 0xffff_ffff,
                    rows <= 0xffff_ffff,
            ;
        }
        if (payload.len() - 16) as u64 != row_bytes as u64 * rows as u64 {
            return Err(DecodeError::SizeMismatch);
        }
        let data = slice_subrange(payload, 16, payload.len());
        proof {
            assert(data@ =~= payload@.skip(16));
        }
        Ok(
            ShmPoolWriteRows {
                offset: read_u32(payload, 0),
                row_bytes,
                rows,
                stride: read_u32(payload, 12),
                bytes: data,
            },
        )
    }
}

/// Replaces part of the pixels that a surface shows.
#[derive(Copy, Clone, Debug, PartialEq, Eq)]
pub struct SurfacePatchCurrent<'a> {
    pub x: i32,
    pub y: i32,
    pub width: u32,
    pub height: u32,
    pub pixels: &'a [u8],
}

/// Why a payload is not a surface patch, if it is not.
pub open spec fn surface_patch_fault(payload: Seq<u8>) -> Option<DecodeError> {
    if payload.len() < 16 {
        Some(DecodeError::Truncated)
    } else if payload.len() - 16 != 4 * (bytes::le32_at(payload, 8) * bytes::le32_at(payload, 12)) {
        Some(DecodeError::SizeMismatch)
    } else {
        None
    }
}

impl<'a> SurfacePatchCurrent<'a> {
    pub fn decode(payload: &'a [u8]) -> (r: Result<SurfacePatchCurrent<'a>, DecodeError>)
        ensures
            match r {
                Ok(request) => {
                    &&& surface_patch_fault(payload@) is None
                    &&& request.x == bytes::le32_at(payload@, 0) as i32
                    &&& request.y == bytes::le32_at(payload@, 4) as i32
                    &&& request.width == bytes::le32_at(payload@, 8)
                    &&& request.height == bytes::le32_at(payload@, 12)
                    &&& request.pixels@ == payload@.skip(16)
                },
                Err(e) => surface_patch_fault(payload@) == Some(e),
            },
    {
        if payload.len() < 16 {
            return Err(DecodeError::Truncated);
        }
        let width: u32 = read_u32(payload, 8);
        let height: u32 = read_u32(payload, 12);
        proof {
            assert(width * height <= 0xffff_ffff * 0xffff_ffff) by (nonlinear_arith)
                requires
                    width <= 0xffff_ffff,
                    height <= 0xffff_ffff,
            ;
        }
        let area: u64 = width as u64 * height as u64;
        let data_len: usize = payload.len() - 16;
        if data_len % 4 != 0 || (data_len / 4) as u64 != area {
            return Err(DecodeError::SizeMismatch);
        }
        let pixels = slice_subrange(payload, 16, payload.len());
        proof {
            assert(pixels@ =~= payload@.skip(16));
        }
        Ok(
            SurfacePatchCurrent {
                x: read_i32(payload, 0),
                y: read_i32(payload, 4),
                width,
                height,
                pixels,
            },
        )
    }
}

} // verus!
