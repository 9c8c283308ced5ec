//! What kind of stream a fresh connection carries.

use vstd::prelude::*;

use crate::bytes;
use crate::bytes::read_u16;
use crate::wire::HEADER_SIZE;

verus! {

/// The one raw picture that a connection may send instead of messages: a red,
/// a green, a blue and a white pixel.
pub const LEGACY_RAW_BLIT_PIXELS: [u8; 16] = [
    0xff, 0x00, 0x00, 0xff, 0x00, 0xff, 0x00, 0xff, 0x00, 0x00, 0xff, 0xff, 0xff, 0xff, 0xff, 0xff,
];

/// What the bytes received so far say about a connection.
#[derive(Copy, Clone, Debug, PartialEq, Eq, Structural)]
pub enum InitialStreamClassification {
    /// Too few bytes to tell.
    NeedMore,
    /// The stream carries protocol messages.
    Protocol,
    /// The stream was the raw picture.
    LegacyRawBlit,
    /// The stream is neither.
    Invalid,
}

/// The classification of the bytes received so far: the raw picture is
/// recognised only whole, its proper prefixes and anything shorter than a
/// header leave the question open, and a header decides the rest by its
/// length and its reserved byte.
pub open spec fn classification(bytes: Seq<u8>) -> InitialStreamClassification {
    if bytes == LEGACY_RAW_BLIT_PIXELS@ {
        InitialStreamClassification::LegacyRawBlit
    } else if bytes.len() < HEADER_SIZE || bytes.is_prefix_of(LEGACY_RAW_BLIT_PIXELS@) {
        InitialStreamClassification::NeedMore
    } else if bytes[9] == 0 && bytes::le16_at(bytes, 6) >= HEADER_SIZE {
        InitialStreamClassification::Protocol
    } else {
        InitialStreamClassification::Invalid
    }
}

/// Classifies a connection by the bytes received so far.
pub fn classify_initial_stream(bytes: &[u8]) -> (r: InitialStreamClassification)
    ensures
        r == classification(bytes@),
{
    let pixels = LEGACY_RAW_BLIT_PIXELS;
    let mut matched: usize = 0;
    while matched < bytes.len() && matched < 16 && bytes[matched] == pixels[matched]
        invariant
            matched <= bytes@.len(),
            matched <= 16,
            pixels@ == LEGACY_RAW_BLIT_PIXELS@,
            forall|i: int| 0 <= i < matched ==> bytes@[i] == pixels@[i],
        decreases bytes@.len() - matched,
    {
        matched += 1;
    }
    if matched == bytes.len() {
        proof {
            assert(bytes@ =~= pixels@.take(matched as int));
            assert(bytes@.is_prefix_of(pixels@));
            if matched == 16 {
                assert(bytes@ =~= pixels@);
            }
        }
        return if bytes.len() == 16 {
            InitialStreamClassification::LegacyRawBlit
        } else {
            InitialStreamClassification::NeedMore
        };
    }
    proof {
        if bytes@.is_prefix_of(pixels@) {
            assert(bytes@[matched as int] == pixels@.take(bytes@.len() as int)[matched as int]);
        }
    }
    if bytes.len() < HEADER_SIZE {
        return InitialStreamClassification::NeedMore;
    }
    let length: u16 = read_u16(bytes, 6);
    if bytes[9] == 0 && length as usize >= HEADER_SIZE {
        InitialStreamClassification::Protocol
    } else {
        InitialStreamClassification::Invalid
    }
}

/// Only the whole raw picture is ever taken for one: no shorter prefix of a
/// stream, and no stream that differs from it in a byte or goes on after it.
pub proof fn law_only_the_exact_picture_is_raw(bytes: Seq<u8>)
    ensures
        (classification(bytes) is LegacyRawBlit) == (bytes == LEGACY_RAW_BLIT_PIXELS@),
{
}

/// More bytes do not make a stream the beginning of the raw picture.
proof fn lemma_not_the_picture(bytes: Seq<u8>, more: Seq<u8>)
    requires
        !bytes.is_prefix_of(LEGACY_RAW_BLIT_PIXELS@),
    ensures
        !(bytes + more).is_prefix_of(LEGACY_RAW_BLIT_PIXELS@),
        bytes + more != LEGACY_RAW_BLIT_PIXELS@,
{
    let all = bytes + more;
    let pixels = LEGACY_RAW_BLIT_PIXELS@;
    if all.is_prefix_of(pixels) {
        assert(bytes =~= pixels.take(bytes.len() as int)) by {
            assert(all =~= pixels.take(all.len() as int));
            assert forall|i: int| 0 <= i < bytes.len() implies bytes[i] == pixels[i] by {
                assert(all[i] == pixels.take(all.len() as int)[i]);
            }
        }
        assert(bytes.is_prefix_of(pixels));
    }
    if all == pixels {
        assert(all.is_prefix_of(pixels));
    }
}

/// Once a stream is recognised as protocol messages, more bytes do not change
/// that.
pub proof fn law_protocol_is_stable(bytes: Seq<u8>, more: Seq<u8>)
    requires
        classification(bytes) is Protocol,
    ensures
        classification(bytes + more) is Protocol,
{
    let all = bytes + more;
    assert(all[6] == bytes[6] && all[7] == bytes[7] && all[9] == bytes[9]);
    lemma_not_the_picture(bytes, more);
}

/// Once a stream is known to be neither, more bytes do not change that.
pub proof fn law_invalid_is_stable(bytes: Seq<u8>, more: Seq<u8>)
    requires
        classification(bytes) is Invalid,
    ensures
        classification(bytes + more) is Invalid,
{
    let all = bytes + more;
    assert(all[6] == bytes[6] && all[7] == bytes[7] && all[9] == bytes[9]);
    lemma_not_the_picture(bytes, more);
}

} // verus!
