//! The wire format: big-endian integers and length-prefixed frames.
use vstd::prelude::*;

verus! {

/// The four big-endian bytes of `n`.
pub open spec fn u32_be(n: u32) -> Seq<u8> {
    seq![(n >> 24u32) as u8, (n >> 16u32) as u8, (n >> 8u32) as u8, n as u8]
}

/// The `u32` whose big-endian bytes are the first four of `b`.
pub open spec fn u32_from_be(b: Seq<u8>) -> u32
    recommends
        b.len() >= 4,
{
    ((b[0] as u32) << 24u32) | ((b[1] as u32) << 16u32) | ((b[2] as u32) << 8u32) | (b[3] as u32)
}

/// The eight big-endian bytes of `n`.
pub open spec fn u64_be(n: u64) -> Seq<u8> {
    seq![
        (n >> 56u64) as u8,
        (n >> 48u64) as u8,
        (n >> 40u64) as u8,
        (n >> 32u64) as u8,
        (n >> 24u64) as u8,
        (n >> 16u64) as u8,
        (n >> 8u64) as u8,
        n as u8,
    ]
}

/// The `u64` whose big-endian bytes are the first eight of `b`.
pub open spec fn u64_from_be(b: Seq<u8>) -> u64
    recommends
        b.len() >= 8,
{
    ((b[0] as u64) << 56u64) | ((b[1] as u64) << 48u64) | ((b[2] as u64) << 40u64) | ((b[3] as u64)
        << 32u64) | ((b[4] as u64) << 24u64) | ((b[5] as u64) << 16u64) | ((b[6] as u64) << 8u64)
        | (b[7] as u64)
}

/// A frame on the wire: the payload's length as four big-endian bytes, then
/// the payload.
pub open spec fn frame(payload: Seq<u8>) -> Seq<u8> {
    u32_be(payload.len() as u32) + payload
}

/// The frame at the front of `buf`, with the number of bytes it spans, or
/// `None` while `buf` does not yet hold a whole frame.
pub open spec fn frame_at(buf: Seq<u8>) -> Option<(Seq<u8>, nat)> {
    if buf.len() < 4 {
        None
    } else {
        let end = 4 + u32_from_be(buf) as nat;
        if buf.len() < end {
            None
        } else {
            Some((buf.subrange(4, end as int), end))
        }
    }
}

/// The largest payload a frame can carry.
pub const MAX_PAYLOAD: usize = 0xFFFF_FFFF;

/// Writes `n` as four big-endian bytes.
pub fn u32_to_be_bytes(n: u32) -> (r: Vec<u8>)
    ensures
        r@ == u32_be(n),
{
    let r = vec![(n >> 24) as u8, (n >> 16) as u8, (n >> 8) as u8, n as u8];
    assert(r@ =~= u32_be(n));
    r
}

/// Reads a `u64` from the first eight bytes of `b`, big-endian.
pub fn u64_from_be_bytes(b: &[u8]) -> (r: u64)
    requires
        b@.len() >= 8,
    ensures
        r == u64_from_be(b@),
{
    ((b[0] as u64) << 56) | ((b[1] as u64) << 48) | ((b[2] as u64) << 40) | ((b[3] as u64) << 32)
        | ((b[4] as u64) << 24) | ((b[5] as u64) << 16) | ((b[6] as u64) << 8) | (b[7] as u64)
}

/// Writes `n` as eight big-endian bytes.
pub fn u64_to_be_bytes(n: u64) -> (r: Vec<u8>)
    ensures
        r@ == u64_be(n),
{
    let r = vec![
        (n >> 56) as u8,
        (n >> 48) as u8,
        (n >> 40) as u8,
        (n >> 32) as u8,
        (n >> 24) as u8,
        (n >> 16) as u8,
        (n >> 8) as u8,
        n as u8,
    ];
    assert(r@ =~= u64_be(n));
    r
}

/// The payload length announced by a frame header: the first four bytes of
/// `header`, big-endian.
pub fn frame_length(header: &[u8]) -> (r: u32)
    requires
        header@.len() >= 4,
    ensures
        r == u32_from_be(header@),
{
    ((header[0] as u32) << 24) | ((header[1] as u32) << 16) | ((header[2] as u32) << 8) | (
    header[3] as u32)
}

/// Frames `payload`: its length as four big-endian bytes, then the payload.
pub fn encode_frame(payload: &[u8]) -> (r: Vec<u8>)
    requires
        payload@.len() <= MAX_PAYLOAD,
    ensures
        r@ == frame(payload@),
{
    let mut r = u32_to_be_bytes(payload.len() as u32);
    let mut i: usize = 0;
    while i < payload.len()
        invariant
            i <= payload@.len(),
            r@ == u32_be(payload@.len() as u32) + payload@.take(i as int),
        decreases payload@.len() - i,
    {
        r.push(payload[i]);
        i = i + 1;
        assert(r@ =~= u32_be(payload@.len() as u32) + payload@.take(i as int));
    }
    assert(payload@.take(payload@.len() as int) =~= payload@);
    r
}

/// Takes the frame at the front of `buf`: its payload and the number of
/// bytes it spans, or `None` while `buf` holds less than a whole frame.
pub fn decode_frame(buf: &[u8]) -> (r: Option<(Vec<u8>, usize)>)
    ensures
        r matches Some((p, n)) ==> frame_at(buf@) == Some((p@, n as nat)),
        r is None ==> frame_at(buf@) is None,
{
    if buf.len() < 4 {
        return None;
    }
    let len = frame_length(buf);
    if buf.len() - 4 < len as usize {
        return None;
    }
    let end: usize = 4 + len as usize;
    let mut p: Vec<u8> = Vec::new();
    let mut i: usize = 4;
    while i < end
        invariant
            4 <= i <= end,
            end <= buf@.len(),
            p@ == buf@.subrange(4, i as int),
        decreases end - i,
    {
        p.push(buf[i]);
        i = i + 1;
        assert(p@ =~= buf@.subrange(4, i as int));
    }
    Some((p, end))
}

/// Frames and unframes are inverse: the frame at the front of
/// `frame(p) + rest` is `p`, spanning `4 + p.len()` bytes, for every payload
/// that fits a frame and whatever follows it.
pub proof fn lemma_frame_round_trip(p: Seq<u8>, rest: Seq<u8>)
    requires
        p.len() <= MAX_PAYLOAD,
    ensures
        frame_at(frame(p) + rest) == Some((p, (4 + p.len()) as nat)),
{
    let n = p.len() as u32;
    let b = frame(p) + rest;
    assert(b[0] == (n >> 24u32) as u8 && b[1] == (n >> 16u32) as u8 && b[2] == (n >> 8u32) as u8
        && b[3] == n as u8);
    assert(((((n >> 24u32) as u8) as u32) << 24u32) | ((((n >> 16u32) as u8) as u32) << 16u32) | ((
    ((n >> 8u32) as u8) as u32) << 8u32) | ((n as u8) as u32) == n) by (bit_vector);
    assert(u32_from_be(b) == n);
    assert(b.subrange(4, 4 + p.len() as int) =~= p);
}

/// Big-endian `u64` bytes read back to the same value.
pub proof fn lemma_u64_be_round_trip(n: u64)
    ensures
        u64_from_be(u64_be(n)) == n,
{
    assert(((((n >> 56u64) as u8) as u64) << 56u64) | ((((n >> 48u64) as u8) as u64) << 48u64) | ((
    ((n >> 40u64) as u8) as u64) << 40u64) | ((((n >> 32u64) as u8) as u64) << 32u64) | ((((n
        >> 24u64) as u8) as u64) << 24u64) | ((((n >> 16u64) as u8) as u64) << 16u64) | ((((n
        >> 8u64) as u8) as u64) << 8u64) | ((n as u8) as u64) == n) by (bit_vector);
}

} // verus!
