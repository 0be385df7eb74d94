//! Binary framing of the data-channel fabric.
//!
//! Every frame starts with a fixed nine-byte prefix: one type byte
//! (data, open notice, close notice), the sender id as a little-endian
//! `u32`, and the destination id as a little-endian `u32`. A frame whose
//! destination equals its sender is a broadcast. The payload that follows
//! the prefix is opaque.
//!
//! The group-manager plane uses a shorter convention: the first four bytes
//! of a group frame hold the sender id, again little-endian, and the rest
//! is opaque.

use vstd::prelude::*;

verus! {

/// Number of bytes in the fixed data-channel frame prefix.
pub const HEADER_LEN: usize = 9;

/// The three kinds of data-channel frame.
#[derive(Clone, Copy, PartialEq, Eq, Structural, Debug)]
pub enum FrameType {
    /// Application traffic.
    Data,
    /// Synthesized when a peer's channel opens.
    Open,
    /// Synthesized when a peer leaves.
    Close,
}

/// Wire byte of a frame type.
pub open spec fn frame_type_byte(t: FrameType) -> u8 {
    match t {
        FrameType::Data => 0,
        FrameType::Open => 1,
        FrameType::Close => 2,
    }
}

/// Frame type of a wire byte, if the byte is assigned one.
pub open spec fn byte_frame_type(b: u8) -> Option<FrameType> {
    if b == 0 {
        Some(FrameType::Data)
    } else if b == 1 {
        Some(FrameType::Open)
    } else if b == 2 {
        Some(FrameType::Close)
    } else {
        None
    }
}

/// Little-endian byte image of a `u32`.
pub open spec fn u32_le(v: u32) -> Seq<u8> {
    seq![
        (v % 256) as u8,
        ((v / 256) % 256) as u8,
        ((v / 65536) % 256) as u8,
        ((v / 16777216) % 256) as u8,
    ]
}

/// Value of four little-endian bytes.
pub open spec fn u32_from_le(b: Seq<u8>) -> u32
    recommends
        b.len() == 4,
{
    (b[0] + b[1] * 256 + b[2] * 65536 + b[3] * 16777216) as u32
}

/// Decoding inverts encoding: the little-endian image of a value reads
/// back as that value.
pub proof fn lemma_u32_le_round_trip(v: u32)
    ensures
        u32_from_le(u32_le(v)) == v,
{
    assert(v % 256 + ((v / 256) % 256) * 256 + ((v / 65536) % 256) * 65536 + ((v / 16777216) % 256)
        * 16777216 == v) by (bit_vector);
}

/// The nine-byte prefix of a frame.
pub open spec fn spec_header(t: FrameType, from: u32, to: u32) -> Seq<u8> {
    seq![frame_type_byte(t)] + u32_le(from) + u32_le(to)
}

/// Sender id carried by a data-channel frame.
pub open spec fn frame_from(f: Seq<u8>) -> u32
    recommends
        f.len() >= HEADER_LEN,
{
    u32_from_le(f.subrange(1, 5))
}

/// Destination id carried by a data-channel frame.
pub open spec fn frame_to(f: Seq<u8>) -> u32
    recommends
        f.len() >= HEADER_LEN,
{
    u32_from_le(f.subrange(5, 9))
}

/// A frame is a broadcast exactly when destination equals sender.
pub open spec fn frame_is_broadcast(f: Seq<u8>) -> bool
    recommends
        f.len() >= HEADER_LEN,
{
    frame_from(f) == frame_to(f)
}

/// What `decode_header` returns on a byte sequence.
pub open spec fn spec_decode_header(f: Seq<u8>) -> Option<(FrameType, u32, u32)> {
    if f.len() >= HEADER_LEN {
        match byte_frame_type(f[0]) {
            Some(t) => Some((t, frame_from(f), frame_to(f))),
            None => None,
        }
    } else {
        None
    }
}

/// Sender id of a group-manager frame: its first four bytes, little-endian.
pub open spec fn group_frame_from(f: Seq<u8>) -> u32
    recommends
        f.len() >= 4,
{
    u32_from_le(f.subrange(0, 4))
}

/// A header followed by any payload decodes back to exactly the type,
/// sender and destination it was built from.
pub proof fn lemma_header_round_trip(t: FrameType, from: u32, to: u32, payload: Seq<u8>)
    ensures
        spec_decode_header(spec_header(t, from, to) + payload) == Some((t, from, to)),
{
    let f = spec_header(t, from, to) + payload;
    assert(f.len() >= HEADER_LEN);
    assert(f[0] == frame_type_byte(t));
    assert(byte_frame_type(frame_type_byte(t)) == Some(t));
    assert(f.subrange(1, 5) =~= u32_le(from));
    assert(f.subrange(5, 9) =~= u32_le(to));
    lemma_u32_le_round_trip(from);
    lemma_u32_le_round_trip(to);
}

fn frame_type_to_byte(t: FrameType) -> (b: u8)
    ensures
        b == frame_type_byte(t),
{
    match t {
        FrameType::Data => 0,
        FrameType::Open => 1,
        FrameType::Close => 2,
    }
}

/// Append the little-endian image of `v` to `out`.
pub fn push_u32_le(out: &mut Vec<u8>, v: u32)
    requires
        old(out)@.len() + 4 <= usize::MAX,
    ensures
        final(out)@ == old(out)@ + u32_le(v),
{
    out.push((v % 256) as u8);
    out.push(((v / 256) % 256) as u8);
    out.push(((v / 65536) % 256) as u8);
    out.push(((v / 16777216) % 256) as u8);
    assert(out@ =~= old(out)@ + u32_le(v));
}

/// Read a `u32` from four little-endian bytes at `offset`.
pub fn read_u32_le(bytes: &Vec<u8>, offset: usize) -> (v: u32)
    requires
        offset + 4 <= bytes@.len(),
    ensures
        v == u32_from_le(bytes@.subrange(offset as int, offset as int + 4)),
{
    let n = bytes.len();
    assert(offset + 4 <= n);
    let b0 = bytes[offset] as u32;
    let b1 = bytes[offset + 1] as u32;
    let b2 = bytes[offset + 2] as u32;
    let b3 = bytes[offset + 3] as u32;
    let r = b0 + b1 * 256 + b2 * 65536 + b3 * 16777216;
    proof {
        let s = bytes@.subrange(offset as int, offset as int + 4);
        assert(s[0] == bytes@[offset as int]);
        assert(s[1] == bytes@[offset as int + 1]);
        assert(s[2] == bytes@[offset as int + 2]);
        assert(s[3] == bytes@[offset as int + 3]);
    }
    r
}

/// Build the nine-byte frame prefix.
pub fn encode_header(t: FrameType, from: u32, to: u32) -> (r: Vec<u8>)
    ensures
        r@ == spec_header(t, from, to),
        r@.len() == HEADER_LEN,
{
    let mut out: Vec<u8> = Vec::new();
    out.push(frame_type_to_byte(t));
    push_u32_le(&mut out, from);
    push_u32_le(&mut out, to);
    assert(out@ =~= spec_header(t, from, to));
    out
}

/// Build a full frame: prefix followed by the payload.
pub fn encode_frame(t: FrameType, from: u32, to: u32, payload: &Vec<u8>) -> (r: Vec<u8>)
    requires
        payload@.len() + HEADER_LEN <= usize::MAX,
    ensures
        r@ == spec_header(t, from, to) + payload@,
        r@.len() == HEADER_LEN + payload@.len(),
        spec_decode_header(r@) == Some((t, from, to)),
{
    let mut out = encode_header(t, from, to);
    let mut i: usize = 0;
    while i < payload.len()
        invariant
            i <= payload@.len(),
            payload@.len() + HEADER_LEN <= usize::MAX,
            out@ == spec_header(t, from, to) + payload@.subrange(0, i as int),
        decreases payload@.len() - i,
    {
        out.push(payload[i]);
        i = i + 1;
        assert(out@ =~= spec_header(t, from, to) + payload@.subrange(0, i as int));
    }
    assert(payload@.subrange(0, payload@.len() as int) =~= payload@);
    proof {
        lemma_header_round_trip(t, from, to, payload@);
    }
    out
}

/// The open or close notice a peer's arrival or departure synthesizes:
/// sender and destination both hold the peer's own id.
pub fn notice_frame(id: u32, open: bool) -> (r: Vec<u8>)
    ensures
        r@ == spec_header(if open { FrameType::Open } else { FrameType::Close }, id, id),
        frame_from(r@) == id,
        frame_to(r@) == id,
        frame_is_broadcast(r@),
{
    let t = if open {
        FrameType::Open
    } else {
        FrameType::Close
    };
    let r = encode_header(t, id, id);
    proof {
        lemma_header_round_trip(t, id, id, Seq::<u8>::empty());
        assert(r@ =~= spec_header(t, id, id) + Seq::<u8>::empty());
        lemma_u32_le_round_trip(id);
        assert(r@.subrange(1, 5) =~= u32_le(id));
        assert(r@.subrange(5, 9) =~= u32_le(id));
    }
    r
}

/// Decode the frame prefix: the type byte and the two ids. Returns `None`
/// on a short frame or an unassigned type byte.
pub fn decode_header(frame: &Vec<u8>) -> (r: Option<(FrameType, u32, u32)>)
    ensures
        r == spec_decode_header(frame@),
{
    if frame.len() < HEADER_LEN {
        return None;
    }
    let t = match frame[0] {
        0u8 => FrameType::Data,
        1u8 => FrameType::Open,
        2u8 => FrameType::Close,
        _ => {
            return None;
        },
    };
    let from = read_u32_le(frame, 1);
    let to = read_u32_le(frame, 5);
    Some((t, from, to))
}

/// Sender id of a data-channel frame.
pub fn read_frame_from(frame: &Vec<u8>) -> (v: u32)
    requires
        frame@.len() >= HEADER_LEN,
    ensures
        v == frame_from(frame@),
{
    read_u32_le(frame, 1)
}

/// Destination id of a data-channel frame.
pub fn read_frame_to(frame: &Vec<u8>) -> (v: u32)
    requires
        frame@.len() >= HEADER_LEN,
    ensures
        v == frame_to(frame@),
{
    read_u32_le(frame, 5)
}

/// Sender id of a group-manager frame.
pub fn read_group_frame_from(frame: &Vec<u8>) -> (v: u32)
    requires
        frame@.len() >= 4,
    ensures
        v == group_frame_from(frame@),
{
    read_u32_le(frame, 0)
}

} // verus!
