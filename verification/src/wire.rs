//! Message framing: a ten-byte header in front of every payload.
//!
//! ```text
//! offset  size  field
//!      0     4  object id, little-endian
//!      4     2  opcode, little-endian
//!      6     2  length of the whole message, little-endian
//!      8     1  file descriptors passed along
//!      9     1  reserved, zero
//! ```

use vstd::prelude::*;

use crate::bytes;
use crate::bytes::{read_u16, read_u32};
use crate::ids::ObjectId;

verus! {

/// Bytes of a message header.
pub const HEADER_SIZE: usize = 10;

/// Bytes of the longest message, header and payload together.
pub const MAX_MESSAGE_BYTES: usize = 65535;

/// Why a header cannot be read or written.
#[derive(Copy, Clone, Debug, PartialEq, Eq, Structural)]
pub enum WireError {
    /// Fewer bytes than a header has.
    HeaderTruncated { available: usize },
    /// The declared length does not even cover the header.
    LengthBelowHeader { length: u16 },
    /// The reserved byte is not zero.
    ReservedByte { value: u8 },
    /// Fewer bytes than the header declares.
    MessageTruncated { length: u16, available: usize },
    /// The payload does not fit a message.
    PayloadTooLarge { payload: usize },
}

/// The header of one message.
#[derive(Copy, Clone, Debug, PartialEq, Eq, Structural)]
pub struct MessageHeader {
    pub object_id: ObjectId,
    pub opcode: u16,
    /// Bytes of the whole message, this header included in the count.
    pub length: u16,
    pub fd_passing: u8,
}

/// The header that the first ten bytes of `bytes` hold.
pub open spec fn header_at(bytes: Seq<u8>) -> MessageHeader {
    MessageHeader {
        object_id: ObjectId(bytes::le32_at(bytes, 0)),
        opcode: bytes::le16_at(bytes, 4),
        length: bytes::le16_at(bytes, 6),
        fd_passing: bytes[8],
    }
}

/// Why `bytes` does not start with a complete message, if it does not.
pub open spec fn header_fault(bytes: Seq<u8>) -> Option<WireError> {
    if bytes.len() < HEADER_SIZE {
        Some(WireError::HeaderTruncated { available: bytes.len() as usize })
    } else if bytes::le16_at(bytes, 6) < HEADER_SIZE {
        Some(WireError::LengthBelowHeader { length: bytes::le16_at(bytes, 6) })
    } else if bytes[9] != 0 {
        Some(WireError::ReservedByte { value: bytes[9] })
    } else if bytes::le16_at(bytes, 6) > bytes.len() {
        Some(
            WireError::MessageTruncated {
                length: bytes::le16_at(bytes, 6),
                available: bytes.len() as usize,
            },
        )
    } else {
        None
    }
}

/// The ten bytes of a header.
pub open spec fn header_bytes(header: MessageHeader) -> Seq<u8> {
    bytes::le32(header.object_id.0) + bytes::le16(header.opcode) + bytes::le16(header.length) + seq![
        header.fd_passing,
        0u8,
    ]
}

/// A message as it travels: its header, then its payload.
pub open spec fn message(object_id: ObjectId, opcode: u16, payload: Seq<u8>) -> Seq<u8> {
    header_bytes(
        MessageHeader {
            object_id,
            opcode,
            length: (HEADER_SIZE + payload.len()) as u16,
            fd_passing: 0,
        },
    ) + payload
}

/// A written header reads back as itself, once the message it declares is there.
pub proof fn law_header_round_trip(header: MessageHeader, rest: Seq<u8>)
    requires
        HEADER_SIZE <= header.length <= HEADER_SIZE + rest.len(),
        rest.len() + HEADER_SIZE <= usize::MAX,
    ensures
        header_bytes(header).len() == HEADER_SIZE,
        header_fault(header_bytes(header) + rest) == None::<WireError>,
        header_at(header_bytes(header) + rest) == header,
{
    let b = header_bytes(header) + rest;
    crate::bytes::law_le32_round_trip(header.object_id.0, 0);
    crate::bytes::law_le16_round_trip(header.opcode);
    crate::bytes::law_le16_round_trip(header.length);
    let id = bytes::le32(header.object_id.0);
    assert(b[0] == id[0] && b[1] == id[1] && b[2] == id[2] && b[3] == id[3]);
    let op = bytes::le16(header.opcode);
    assert(b[4] == op[0] && b[5] == op[1]);
    let len = bytes::le16(header.length);
    assert(b[6] == len[0] && b[7] == len[1]);
    assert(b[8] == header.fd_passing);
    assert(b[9] == 0u8);
}

impl MessageHeader {
    /// The header of a message with the given payload length.
    pub fn try_new(object_id: ObjectId, opcode: u16, payload_len: usize, fd_passing: u8) -> (r:
        Result<MessageHeader, WireError>)
        ensures
            match r {
                Ok(header) => payload_len <= MAX_MESSAGE_BYTES - HEADER_SIZE && header == (
                MessageHeader {
                    object_id,
                    opcode,
                    length: (HEADER_SIZE + payload_len) as u16,
                    fd_passing,
                }),
                Err(e) => payload_len > MAX_MESSAGE_BYTES - HEADER_SIZE && e == (
                WireError::PayloadTooLarge { payload: payload_len }),
            },
    {
        if payload_len > MAX_MESSAGE_BYTES - HEADER_SIZE {
            return Err(WireError::PayloadTooLarge { payload: payload_len });
        }
        Ok(
            MessageHeader {
                object_id,
                opcode,
                length: (HEADER_SIZE + payload_len) as u16,
                fd_passing,
            },
        )
    }

    /// Reads the header of the complete message that `bytes` starts with.
    pub fn decode(bytes: &[u8]) -> (r: Result<MessageHeader, WireError>)
        ensures
            match r {
                Ok(header) => header_fault(bytes@) == None::<WireError> && header == header_at(
                    bytes@,
                ),
                Err(e) => header_fault(bytes@) == Some(e),
            },
    {
        if bytes.len() < HEADER_SIZE {
            return Err(WireError::HeaderTruncated { available: bytes.len() });
        }
        let length: u16 = read_u16(bytes, 6);
        if (length as usize) < HEADER_SIZE {
            return Err(WireError::LengthBelowHeader { length });
        }
        if bytes[9] != 0 {
            return Err(WireError::ReservedByte { value: bytes[9] });
        }
        if length as usize > bytes.len() {
            return Err(WireError::MessageTruncated { length, available: bytes.len() });
        }
        Ok(
            MessageHeader {
                object_id: ObjectId(read_u32(bytes, 0)),
                opcode: read_u16(bytes, 4),
                length,
                fd_passing: bytes[8],
            },
        )
    }

    /// Writes the header over the first ten bytes of `out`.
    pub fn encode(&self, out: &mut [u8]) -> (r: Result<(), WireError>)
        ensures
            match r {
                Ok(_) => old(out)@.len() >= HEADER_SIZE && final(out)@ == header_bytes(*self)
                    + old(out)@.skip(HEADER_SIZE as int),
                Err(e) => old(out)@.len() < HEADER_SIZE && e == (WireError::HeaderTruncated {
                    available: old(out)@.len() as usize,
                }) && final(out)@ == old(out)@,
            },
    {
        if out.len() < HEADER_SIZE {
            return Err(WireError::HeaderTruncated { available: out.len() });
        }
        let id: u32 = self.object_id.0;
        out[0] = (id % 0x100) as u8;
        out[1] = (id / 0x100 % 0x100) as u8;
        out[2] = (id / 0x1_0000 % 0x100) as u8;
        out[3] = (id / 0x100_0000) as u8;
        out[4] = (self.opcode % 256) as u8;
        out[5] = (self.opcode / 256) as u8;
        out[6] = (self.length % 256) as u8;
        out[7] = (self.length / 256) as u8;
        out[8] = self.fd_passing;
        out[9] = 0;
        proof {
            assert(out@ =~= header_bytes(*self) + old(out)@.skip(HEADER_SIZE as int));
        }
        Ok(())
    }
}

/// The message that carries `payload`, ready to be sent.
pub fn encode_message(object_id: ObjectId, opcode: u16, payload: &[u8]) -> (bytes: Vec<u8>)
    requires
        payload@.len() <= MAX_MESSAGE_BYTES - HEADER_SIZE,
    ensures
        bytes@ == message(object_id, opcode, payload@),
{
    let mut bytes: Vec<u8> = Vec::new();
    crate::bytes::push_u32(&mut bytes, object_id.0);
    crate::bytes::push_u16(&mut bytes, opcode);
    crate::bytes::push_u16(&mut bytes, (HEADER_SIZE + payload.len()) as u16);
    bytes.push(0);
    bytes.push(0);
    crate::bytes::push_bytes(&mut bytes, payload);
    proof {
        assert(bytes@ =~= message(object_id, opcode, payload@));
    }
    bytes
}

/// The length of `bytes` if it is one complete message and nothing else.
pub fn detect_protocol_message(bytes: &[u8]) -> (r: Option<usize>)
    ensures
        r == (if bytes@.len() >= HEADER_SIZE && header_fault(bytes@) is None && header_at(
            bytes@,
        ).length == bytes@.len() {
            Some(bytes@.len() as usize)
        } else {
            None
        }),
{
    match MessageHeader::decode(bytes) {
        Ok(header) => if header.length as usize == bytes.len() {
            Some(bytes.len())
        } else {
            None
        },
        Err(_) => None,
    }
}

} // verus!
