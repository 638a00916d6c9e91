//! Fixed-width integers and length-prefixed frames as they stand on the wire.
//!
//! A frame is `[u32 big-endian L][1 type byte][L payload bytes]`; the type byte is not counted
//! in `L`. Type 0 carries control messages, type 1 carries data.
use vstd::prelude::*;

verus! {

/// Bytes of a frame header: four length bytes and the type byte.
pub const HEADER_LEN: usize = 5;

/// The number that four bytes spell, most significant byte first.
pub open spec fn be_u32(b: Seq<u8>) -> nat {
    (b[0] * 0x1000000 + b[1] * 0x10000 + b[2] * 0x100 + b[3]) as nat
}

/// The number that four bytes spell, least significant byte first.
pub open spec fn le_u32(b: Seq<u8>) -> nat {
    (b[0] + b[1] * 0x100 + b[2] * 0x10000 + b[3] * 0x1000000) as nat
}

/// The four bytes of `x`, most significant byte first.
pub open spec fn be_bytes(x: u32) -> Seq<u8> {
    seq![
        (x / 0x1000000) as u8,
        (x / 0x10000 % 0x100) as u8,
        (x / 0x100 % 0x100) as u8,
        (x % 0x100) as u8,
    ]
}

/// The four bytes of `x`, least significant byte first.
pub open spec fn le_bytes(x: u32) -> Seq<u8> {
    seq![
        (x % 0x100) as u8,
        (x / 0x100 % 0x100) as u8,
        (x / 0x10000 % 0x100) as u8,
        (x / 0x1000000) as u8,
    ]
}

/// Reads a big-endian `u32` from its four bytes.
pub fn u32_from_be(b0: u8, b1: u8, b2: u8, b3: u8) -> (r: u32)
    ensures
        r == be_u32(seq![b0, b1, b2, b3]),
{
    b0 as u32 * 0x1000000 + b1 as u32 * 0x10000 + b2 as u32 * 0x100 + b3 as u32
}

/// Reads a little-endian `u32` from its four bytes.
pub fn u32_from_le(b0: u8, b1: u8, b2: u8, b3: u8) -> (r: u32)
    ensures
        r == le_u32(seq![b0, b1, b2, b3]),
{
    b0 as u32 + b1 as u32 * 0x100 + b2 as u32 * 0x10000 + b3 as u32 * 0x1000000
}

/// Appends the big-endian bytes of `x`.
pub fn push_be(out: &mut Vec<u8>, x: u32)
    ensures
        final(out)@ == old(out)@ + be_bytes(x),
{
    out.push((x / 0x1000000) as u8);
    out.push((x / 0x10000 % 0x100) as u8);
    out.push((x / 0x100 % 0x100) as u8);
    out.push((x % 0x100) as u8);
    assert(out@ =~= old(out)@ + be_bytes(x));
}

/// Appends the little-endian bytes of `x`.
pub fn push_le(out: &mut Vec<u8>, x: u32)
    ensures
        final(out)@ == old(out)@ + le_bytes(x),
{
    out.push((x % 0x100) as u8);
    out.push((x / 0x100 % 0x100) as u8);
    out.push((x / 0x10000 % 0x100) as u8);
    out.push((x / 0x1000000) as u8);
    assert(out@ =~= old(out)@ + le_bytes(x));
}

/// Big-endian bytes read back as the number they were written from.
pub proof fn be_round_trip(x: u32)
    ensures
        be_bytes(x).len() == 4,
        be_u32(be_bytes(x)) == x,
{
}

/// Four bytes are the big-endian bytes of the number they spell.
pub proof fn be_reads_back(b: Seq<u8>)
    requires
        b.len() == 4,
    ensures
        be_bytes(be_u32(b) as u32) == b,
        be_u32(b) <= u32::MAX,
{
    let x = be_u32(b) as u32;
    let (b0, b1, b2, b3) = (b[0], b[1], b[2], b[3]);
    assert(x / 0x1000000 == b0 && x / 0x10000 % 0x100 == b1 && x / 0x100 % 0x100 == b2 && x % 0x100
        == b3) by (bit_vector)
        requires
            x == b0 * 0x1000000 + b1 * 0x10000 + b2 * 0x100 + b3,
    ;
    assert(be_bytes(x) =~= seq![b0, b1, b2, b3]);
    assert(b =~= seq![b0, b1, b2, b3]);
}

/// Little-endian bytes read back as the number they were written from.
pub proof fn le_round_trip(x: u32)
    ensures
        le_bytes(x).len() == 4,
        le_u32(le_bytes(x)) == x,
{
}

/// The frame that carries `payload` under the type byte `typ`.
pub open spec fn frame_bytes(typ: u8, payload: Seq<u8>) -> Seq<u8> {
    be_bytes(payload.len() as u32) + seq![typ] + payload
}

/// The payload length that the header at `off` announces.
pub open spec fn frame_len(buf: Seq<u8>, off: int) -> nat {
    be_u32(buf.subrange(off, off + 4))
}

/// Reads the payload length from the header that starts at `off`.
pub fn read_frame_len(buf: &[u8], off: usize) -> (r: u32)
    requires
        off + 4 <= buf@.len(),
    ensures
        r == frame_len(buf@, off as int),
{
    let r = u32_from_be(buf[off], buf[off + 1], buf[off + 2], buf[off + 3]);
    assert(buf@.subrange(off as int, off + 4) =~= seq![
        buf@[off as int],
        buf@[off + 1],
        buf@[off + 2],
        buf@[off + 3],
    ]);
    r
}

/// Builds the frame that carries `payload` under the type byte `typ`.
pub fn make_frame(typ: u8, payload: &[u8]) -> (r: Vec<u8>)
    requires
        payload@.len() <= u32::MAX,
    ensures
        r@ == frame_bytes(typ, payload@),
{
    let mut frame: Vec<u8> = Vec::new();
    push_be(&mut frame, payload.len() as u32);
    frame.push(typ);
    frame.extend_from_slice(payload);
    assert(frame@ =~= frame_bytes(typ, payload@));
    frame
}

/// A frame's header announces the length of its payload, its fifth byte is the type, and the
/// payload follows.
pub proof fn frame_reads_back(typ: u8, payload: Seq<u8>)
    requires
        payload.len() <= u32::MAX,
    ensures
        frame_bytes(typ, payload).len() == 5 + payload.len(),
        frame_len(frame_bytes(typ, payload), 0) == payload.len(),
        frame_bytes(typ, payload)[4] == typ,
        frame_bytes(typ, payload).skip(5) == payload,
{
    let f = frame_bytes(typ, payload);
    be_round_trip(payload.len() as u32);
    assert(f.subrange(0, 4) =~= be_bytes(payload.len() as u32));
    assert(f.skip(5) =~= payload);
}

/// `needle` stands somewhere in `hay`.
pub open spec fn has_infix<T>(hay: Seq<T>, needle: Seq<T>) -> bool {
    exists|i: int|
        0 <= i && i + needle.len() <= hay.len() && #[trigger] hay.subrange(i, i + needle.len())
            == needle
}

/// Whether `needle` stands somewhere in `hay`.
pub fn contains_bytes(hay: &[u8], needle: &[u8]) -> (r: bool)
    ensures
        r == has_infix(hay@, needle@),
{
    let n = hay.len();
    let m = needle.len();
    if m == 0 {
        assert(hay@.subrange(0int, 0int + needle@.len()) =~= needle@);
        return true;
    }
    if m > n {
        return false;
    }
    let mut i: usize = 0;
    while i < n - m + 1
        invariant
            n == hay@.len(),
            0 < m == needle@.len() <= n,
            i <= n - m + 1,
            forall|k: int| 0 <= k < i ==> #[trigger] hay@.subrange(k, k + m) != needle@,
        decreases n - m + 1 - i,
    {
        let mut j: usize = 0;
        while j < m && hay[i + j] == needle[j]
            invariant
                n == hay@.len(),
                m == needle@.len(),
                i + m <= n,
                j <= m,
                forall|k: int| 0 <= k < j ==> hay@[i + k] == needle@[k],
            decreases m - j,
        {
            j = j + 1;
        }
        if j == m {
            assert(hay@.subrange(i as int, i + m) =~= needle@);
            return true;
        }
        assert(hay@.subrange(i as int, i + m)[j as int] != needle@[j as int]);
        i = i + 1;
    }
    false
}

/// Of four bytes the first counts most in network order, and least in the order of the payloads.
pub proof fn order_of_bytes(a: u8, b: u8, c: u8, d: u8)
    ensures
        be_u32(seq![a, b, c, d]) == 16_777_216 * a + 65_536 * b + 256 * c + d,
        le_u32(seq![a, b, c, d]) == a + 256 * b + 65_536 * c + 16_777_216 * d,
        be_bytes(be_u32(seq![a, b, c, d]) as u32) == seq![a, b, c, d],
        le_bytes(le_u32(seq![a, b, c, d]) as u32) == seq![a, b, c, d],
{
    be_reads_back(seq![a, b, c, d]);
    be_reads_back(seq![d, c, b, a]);
    let x = le_u32(seq![a, b, c, d]) as u32;
    assert(be_u32(seq![d, c, b, a]) as u32 == x);
    assert(be_bytes(x) == seq![d, c, b, a]);
    assert(be_bytes(x)[0] == d && be_bytes(x)[1] == c && be_bytes(x)[2] == b && be_bytes(x)[3]
        == a);
    assert(le_bytes(x) =~= seq![a, b, c, d]);
}

/// The announced length is the number of the four bytes from `off` on, the first counting most.
pub proof fn length_stands_first(buf: Seq<u8>, off: int)
    requires
        0 <= off,
        off + 4 <= buf.len(),
    ensures
        frame_len(buf, off) == 16_777_216 * buf[off] + 65_536 * buf[off + 1] + 256 * buf[off + 2]
            + buf[off + 3],
{
}

/// What stands in a row is found, whatever is before and behind it, and nothing else is.
pub proof fn infix_is_found<T>(hay: Seq<T>, needle: Seq<T>, front: Seq<T>, rest: Seq<T>) -> (r: (
    Seq<T>,
    Seq<T>,
))
    ensures
        has_infix(front + needle + rest, needle),
        has_infix(hay, needle) ==> hay == r.0 + needle + r.1,
{
    let n = needle.len();
    let whole = front + needle + rest;
    let at = front.len() as int;
    assert(whole.subrange(at, at + n) =~= needle);
    let i = choose|i: int|
        0 <= i && i + n <= hay.len() && #[trigger] hay.subrange(i, i + n) == needle;
    let r = (hay.take(i), hay.skip(i + n));
    if has_infix(hay, needle) {
        assert(hay =~= hay.take(i) + hay.subrange(i, i + n) + hay.skip(i + n));
    }
    r
}

} // verus!
