//! Text on the wire: a length, the UTF-8 bytes, and padding to a multiple of
//! four bytes.

use vstd::prelude::*;
use vstd::utf8;

use crate::bytes;
use crate::bytes::{push_bytes, push_u32, read_u32};

verus! {

/// Zero bytes that follow text of `len` bytes.
pub open spec fn padding(len: int) -> int {
    (4 - len % 4) % 4
}

/// The wire form of text.
pub open spec fn wire_text(text: Seq<u8>) -> Seq<u8> {
    bytes::le32(text.len() as u32) + text + Seq::new(padding(text.len() as int) as nat, |i: int| 0u8)
}

/// Where the text that starts at `at` ends, padding counted, if it is all there.
pub open spec fn text_end(bytes: Seq<u8>, at: int) -> Option<int> {
    if at + 4 > bytes.len() {
        None
    } else {
        let len = bytes::le32_at(bytes, at) as int;
        let end = at + 4 + len + padding(len);
        if end > bytes.len() {
            None
        } else {
            Some(end)
        }
    }
}

/// The bytes of the text that starts at `at`.
pub open spec fn text_at(bytes: Seq<u8>, at: int) -> Seq<u8> {
    bytes.subrange(at + 4, at + 4 + bytes::le32_at(bytes, at))
}

/// Text that was written is read back, whatever stands around it.
pub proof fn law_text_round_trip(before: Seq<u8>, text: Seq<u8>, after: Seq<u8>)
    requires
        text.len() <= u32::MAX,
    ensures
        text_end(before + wire_text(text) + after, before.len() as int) == Some(
            (before.len() + wire_text(text).len()) as int,
        ),
        text_at(before + wire_text(text) + after, before.len() as int) == text,
{
    let all = before + wire_text(text) + after;
    let at = before.len() as int;
    let len = bytes::le32(text.len() as u32);
    crate::bytes::law_le32_round_trip(text.len() as u32, 0);
    assert(all[at] == len[0] && all[at + 1] == len[1] && all[at + 2] == len[2] && all[at + 3]
        == len[3]);
    assert(text_at(all, at) =~= text);
}

/// Where the text that starts at `at` ends, padding counted, if it is all there.
pub fn find_text_end(bytes: &[u8], at: usize) -> (r: Option<usize>)
    requires
        at <= bytes@.len(),
    ensures
        match r {
            Some(end) => text_end(bytes@, at as int) == Some(end as int),
            None => text_end(bytes@, at as int) is None,
        },
{
    if bytes.len() - at < 4 {
        return None;
    }
    let len: u64 = read_u32(bytes, at) as u64;
    let pad: u64 = (4 - len % 4) % 4;
    let available: usize = bytes.len() - at - 4;
    if len + pad > available as u64 {
        return None;
    }
    Some(at + 4 + len as usize + pad as usize)
}

/// Appends the wire form of `text`.
pub fn push_text(out: &mut Vec<u8>, text: &[u8])
    ensures
        final(out)@ == old(out)@ + wire_text(text@),
{
    push_u32(out, text.len() as u32);
    push_bytes(out, text);
    let pad: usize = (4 - text.len() % 4) % 4;
    let ghost body = out@;
    let mut i: usize = 0;
    while i < pad
        invariant
            i <= pad,
            out@ == body + Seq::new(i as nat, |j: int| 0u8),
        decreases pad - i,
    {
        out.push(0);
        i += 1;
        proof {
            assert(out@ =~= body + Seq::new(i as nat, |j: int| 0u8));
        }
    }
    proof {
        assert(out@ =~= old(out)@ + wire_text(text@));
    }
}

/// The text that `bytes` encodes, if they are valid UTF-8.
///
/// Calls [`String::from_utf8`], which succeeds exactly on valid UTF-8 and then
/// gives the text whose encoding the bytes are.
#[verifier::external_body]
pub(crate) fn utf8_text(bytes: &[u8]) -> (r: Option<String>)
    ensures
        match r {
            Some(text) => utf8::valid_utf8(bytes@) && utf8::encode_utf8(text@) == bytes@,
            None => !utf8::valid_utf8(bytes@),
        },
{
    String::from_utf8(bytes.to_vec()).ok()
}

/// The UTF-8 bytes of `text`.
pub fn utf8_bytes(text: &String) -> (bytes: &[u8])
    ensures
        bytes@ == utf8::encode_utf8(text@),
{
    text.as_str().as_bytes()
}

} // verus!
