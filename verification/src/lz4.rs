//! The LZ4 block format: what a block decodes to, a decoder for the first bytes of a block, and
//! the calls into `lz4_flex` for whole payloads.
//!
//! A block is a row of sequences. A sequence is a token byte (literal count in the high nibble,
//! match length minus four in the low one), the literals, a two-byte little-endian offset and a
//! copy of already decoded bytes. A nibble of 15 is continued by extension bytes up to the first
//! one that is not 255. The last sequence may end after its literals.
use vstd::prelude::*;
use crate::wire::{le_bytes, le_u32};

verus! {

/// The sum that the extension bytes at `i` spell, and the position behind them.
pub open spec fn extension(s: Seq<u8>, i: int) -> Option<(int, int)>
    decreases s.len() - i,
{
    if i < 0 || i >= s.len() {
        None
    } else if s[i] != 255 {
        Some((s[i] as int, i + 1))
    } else {
        match extension(s, i + 1) {
            Some((v, j)) => Some((v + 255, j)),
            None => None,
        }
    }
}

/// The length that `nibble` and the bytes at `i` spell, and the position behind it.
pub open spec fn field(s: Seq<u8>, i: int, nibble: int) -> Option<(int, int)> {
    if nibble != 15 {
        Some((nibble, i))
    } else {
        match extension(s, i) {
            Some((v, j)) => Some((v + 15, j)),
            None => None,
        }
    }
}

/// `out` extended by `n` bytes, each the one that stood `offset` bytes before it.
pub open spec fn copy_back(out: Seq<u8>, offset: int, n: int) -> Seq<u8>
    decreases n,
{
    if n <= 0 {
        out
    } else {
        let shorter = copy_back(out, offset, n - 1);
        shorter.push(shorter[shorter.len() - offset])
    }
}

/// A length field never ends before it starts and never spells a negative number.
pub proof fn extension_advances(s: Seq<u8>, i: int)
    ensures
        extension(s, i) matches Some((v, j)) ==> v >= 0 && i < j <= s.len(),
    decreases s.len() - i,
{
    if 0 <= i < s.len() && s[i] == 255 {
        extension_advances(s, i + 1);
    }
}

/// The literals of the sequence at `ip`: where they start and how many there are. `None` where
/// the block ends inside the length or inside the literals.
pub open spec fn literals(s: Seq<u8>, ip: int) -> Option<(int, int)> {
    match field(s, ip + 1, s[ip] as int / 16) {
        Some((lit, at)) => if at + lit <= s.len() {
            Some((at, lit))
        } else {
            None
        },
        None => None,
    }
}

/// The match that follows at `ip2` in a sequence whose token is `token`: its offset, its length
/// and the position behind it. `have` is the number of bytes decoded so far.
pub open spec fn back_reference(s: Seq<u8>, ip2: int, token: u8, have: int) -> Option<
    (int, int, int),
> {
    if ip2 + 2 > s.len() {
        None
    } else {
        let offset = s[ip2] as int + 256 * s[ip2 + 1] as int;
        if offset == 0 || offset > have {
            None
        } else {
            match field(s, ip2 + 2, token as int % 16) {
                Some((m, next)) => Some((offset, m + 4, next)),
                None => None,
            }
        }
    }
}

/// What the sequences from `ip` on make of the bytes decoded so far; `None` where the block is
/// malformed.
pub open spec fn decode_from(s: Seq<u8>, ip: int, out: Seq<u8>) -> Option<Seq<u8>>
    decreases s.len() - ip,
{
    if ip < 0 || ip >= s.len() {
        Some(out)
    } else {
        match literals(s, ip) {
            None => None,
            Some((at, lit)) => {
                let out1 = out + s.subrange(at, at + lit);
                if at + lit >= s.len() {
                    Some(out1)
                } else {
                    match back_reference(s, at + lit, s[ip], out1.len() as int) {
                        None => None,
                        Some((offset, m, next)) => {
                            proof {
                                extension_advances(s, ip + 1);
                                extension_advances(s, at + lit + 2);
                            }
                            decode_from(s, next, copy_back(out1, offset, m))
                        },
                    }
                }
            },
        }
    }
}

/// What the block `s` decodes to; `None` for a malformed block.
pub open spec fn decoded(s: Seq<u8>) -> Option<Seq<u8>> {
    decode_from(s, 0, Seq::empty())
}

/// Where one sequence of a bounded walk leads: the walk ends with the bytes reached and whether
/// the block was well formed so far, or goes on at a later position.
pub enum Walk {
    Stop(Seq<u8>, bool),
    Go(int, Seq<u8>),
}

/// The sequence at `ip`, applied to the bytes decoded so far, of which no more than `n` are
/// wanted.
pub open spec fn walk_one(s: Seq<u8>, ip: int, out: Seq<u8>, n: int) -> Walk {
    match literals(s, ip) {
        None => Walk::Stop(out, false),
        Some((at, lit)) => {
            let take = if lit < n - out.len() {
                lit
            } else {
                n - out.len()
            };
            let out1 = out + s.subrange(at, at + take);
            if (lit > 0 && out1.len() >= n) || at + lit >= s.len() {
                Walk::Stop(out1, true)
            } else {
                match back_reference(s, at + lit, s[ip], out1.len() as int) {
                    None => Walk::Stop(out1, false),
                    Some((offset, m, next)) => {
                        let copied = if m < n - out1.len() {
                            m
                        } else {
                            n - out1.len()
                        };
                        let out2 = copy_back(out1, offset, copied);
                        if out2.len() >= n {
                            Walk::Stop(out2, true)
                        } else {
                            Walk::Go(next, out2)
                        }
                    },
                }
            }
        },
    }
}

/// The walk of `decode_from`, stopped as soon as `n` bytes are there: the bytes reached (at most
/// `n`), and whether the block was well formed as far as it was read.
pub open spec fn reach_from(s: Seq<u8>, ip: int, out: Seq<u8>, n: int) -> (Seq<u8>, bool)
    decreases s.len() - ip,
{
    if ip < 0 || ip >= s.len() {
        (out, true)
    } else {
        match walk_one(s, ip, out, n) {
            Walk::Stop(bytes, ok) => (bytes, ok),
            Walk::Go(next, bytes) => {
                proof {
                    extension_advances(s, ip + 1);
                    if let Some((at, lit)) = literals(s, ip) {
                        extension_advances(s, at + lit + 2);
                    }
                }
                reach_from(s, next, bytes, n)
            },
        }
    }
}

/// The first `n` bytes that the block `s` decodes to, as far as they can be reached.
pub open spec fn reached(s: Seq<u8>, n: int) -> (Seq<u8>, bool) {
    reach_from(s, 0, Seq::empty(), n)
}

/// Reads a length field. A sum beyond `usize::MAX` is held at `usize::MAX`.
pub fn read_field(s: &[u8], i: usize, nibble: u8) -> (r: Option<(usize, usize)>)
    requires
        i <= s@.len(),
        nibble <= 15,
    ensures
        match (r, field(s@, i as int, nibble as int)) {
            (Some((len, j)), Some((v, k))) => {
                &&& j == k
                &&& i <= j <= s@.len()
                &&& len == if v <= usize::MAX {
                    v
                } else {
                    usize::MAX as int
                }
            },
            (None, None) => true,
            _ => false,
        },
{
    if nibble != 15 {
        return Some((nibble as usize, i));
    }
    let mut len: usize = 15;
    let mut j: usize = i;
    let ghost mut sum: int = 15;
    while j < s.len()
        invariant
            nibble == 15,
            i <= j <= s@.len(),
            sum >= 15,
            len == if sum <= usize::MAX {
                sum
            } else {
                usize::MAX as int
            },
            match (extension(s@, i as int), extension(s@, j as int)) {
                (Some((v, k)), Some((w, l))) => v + 15 == w + sum && k == l,
                (None, None) => true,
                _ => false,
            },
        decreases s@.len() - j,
    {
        let b = s[j];
        j = j + 1;
        len = len.saturating_add(b as usize);
        proof {
            sum = sum + b as int;
            extension_advances(s@, j - 1);
        }
        if b != 255 {
            return Some((len, j));
        }
    }
    None
}

/// Writes `count` literals from `input[at..]` behind the first `op` bytes of `out`.
fn copy_literals(out: &mut [u8], op: usize, input: &[u8], at: usize, count: usize)
    requires
        op + count <= old(out)@.len(),
        at + count <= input@.len(),
    ensures
        final(out)@ == old(out)@.take(op as int) + input@.subrange(at as int, at + count)
            + old(out)@.skip(op + count),
{
    let ghost first = out@;
    let total = out.len();
    let ilen = input.len();
    let mut k: usize = 0;
    assert(out@ =~= first.take(op as int) + input@.subrange(at as int, at + 0) + first.skip(
        op as int,
    ));
    while k < count
        invariant
            k <= count,
            total == first.len(),
            ilen == input@.len(),
            op + count <= total,
            at + count <= ilen,
            out@ == first.take(op as int) + input@.subrange(at as int, at + k) + first.skip(op + k),
        decreases count - k,
    {
        out[op + k] = input[at + k];
        k = k + 1;
        assert(out@ =~= first.take(op as int) + input@.subrange(at as int, at + k) + first.skip(
            op + k,
        ));
    }
}

/// Writes `count` bytes behind the first `op` bytes of `out`, each a copy of the byte `offset`
/// positions before it.
fn copy_match(out: &mut [u8], op: usize, offset: usize, count: usize)
    requires
        op + count <= old(out)@.len(),
        0 < offset <= op,
    ensures
        final(out)@ == copy_back(old(out)@.take(op as int), offset as int, count as int)
            + old(out)@.skip(op + count),
{
    let ghost first = out@;
    let ghost start = first.take(op as int);
    let total = out.len();
    let mut c: usize = 0;
    assert(out@ =~= start + first.skip(op as int));
    while c < count
        invariant
            c <= count,
            total == first.len(),
            op + count <= total,
            start == first.take(op as int),
            0 < offset <= op,
            out@ == copy_back(start, offset as int, c as int) + first.skip(op + c),
        decreases count - c,
    {
        proof {
            copy_back_extends(start, offset as int, c as int);
        }
        let b = out[op + c - offset];
        out[op + c] = b;
        c = c + 1;
        assert(out@ =~= copy_back(start, offset as int, c as int) + first.skip(op + c));
    }
}

/// `copy_back` keeps what is there and adds exactly the bytes asked for.
pub proof fn copy_back_extends(out: Seq<u8>, offset: int, n: int)
    requires
        0 < offset <= out.len(),
        0 <= n,
    ensures
        copy_back(out, offset, n).len() == out.len() + n,
        copy_back(out, offset, n).take(out.len() as int) == out,
    decreases n,
{
    if n > 0 {
        copy_back_extends(out, offset, n - 1);
        let shorter = copy_back(out, offset, n - 1);
        assert(copy_back(out, offset, n).take(out.len() as int) =~= shorter.take(out.len() as int));
    } else {
        assert(out.take(out.len() as int) =~= out);
    }
}

/// What `decode_one` leaves to do: nothing, or to go on at a position.
enum Step {
    Stop(bool),
    Go(usize),
}

/// Decodes the sequence at `ip` behind the first `op` bytes of `out`. Returns the new number of
/// bytes and how the walk goes on.
fn decode_one(input: &[u8], ip: usize, out: &mut [u8], op: usize) -> (r: (usize, Step))
    requires
        ip < input@.len(),
        op <= old(out)@.len(),
    ensures
        op <= r.0 <= old(out)@.len(),
        final(out)@.len() == old(out)@.len(),
        final(out)@.skip(r.0 as int) == old(out)@.skip(r.0 as int),
        match (walk_one(input@, ip as int, old(out)@.take(op as int), old(out)@.len() as int), r.1) {
            (Walk::Stop(bytes, ok), Step::Stop(done)) => {
                &&& ok == done
                &&& final(out)@.take(r.0 as int) == bytes
            },
            (Walk::Go(next, bytes), Step::Go(at)) => {
                &&& next == at
                &&& ip < at <= input@.len()
                &&& r.0 < old(out)@.len()
                &&& final(out)@.take(r.0 as int) == bytes
            },
            _ => false,
        },
{
    let n = out.len();
    let ilen = input.len();
    let ghost first = out@;
    let token = input[ip];
    let (lit, at) = match read_field(input, ip + 1, token / 16) {
        Some(x) => x,
        None => {
            return (op, Step::Stop(false));
        },
    };
    if lit > ilen - at {
        return (op, Step::Stop(false));
    }
    let take = if lit < n - op {
        lit
    } else {
        n - op
    };
    copy_literals(out, op, input, at, take);
    let op1 = op + take;
    let ghost out1 = first.take(op as int) + input@.subrange(at as int, at + take);
    assert(out@.take(op1 as int) =~= out1);
    assert(out@.skip(op1 as int) =~= first.skip(op1 as int));
    let ip1 = at + lit;
    if (lit > 0 && op1 >= n) || ip1 >= ilen {
        return (op1, Step::Stop(true));
    }
    if ilen - ip1 < 2 {
        return (op1, Step::Stop(false));
    }
    let offset: usize = input[ip1] as usize + input[ip1 + 1] as usize * 256;
    if offset == 0 || offset > op1 {
        return (op1, Step::Stop(false));
    }
    let (m, next) = match read_field(input, ip1 + 2, token % 16) {
        Some(x) => x,
        None => {
            return (op1, Step::Stop(false));
        },
    };
    let mlen = m.saturating_add(4);
    let copied = if mlen < n - op1 {
        mlen
    } else {
        n - op1
    };
    copy_match(out, op1, offset, copied);
    let op2 = op1 + copied;
    proof {
        copy_back_extends(out1, offset as int, copied as int);
    }
    assert(out@.take(op2 as int) =~= copy_back(out1, offset as int, copied as int));
    assert(out@.skip(op2 as int) =~= first.skip(op2 as int));
    if op2 >= n {
        (op2, Step::Stop(true))
    } else {
        (op2, Step::Go(next))
    }
}

/// Decodes the first `out.len()` bytes of an LZ4 block, never reading more of the block than
/// they need. Returns how many bytes were produced, or `None` where the block is malformed
/// before that many bytes are there.
pub fn lz4_first_n(input: &[u8], out: &mut [u8]) -> (r: Option<usize>)
    ensures
        ({
            let (bytes, ok) = reached(input@, old(out)@.len() as int);
            &&& bytes.len() <= old(out)@.len()
            &&& final(out)@ == bytes + old(out)@.skip(bytes.len() as int)
            &&& r == if ok {
                Some(bytes.len() as usize)
            } else {
                None
            }
        }),
{
    let n = out.len();
    let ilen = input.len();
    let mut ip: usize = 0;
    let mut op: usize = 0;
    assert(out@.take(0) =~= Seq::<u8>::empty());
    while ip < ilen
        invariant
            n == out@.len() == old(out)@.len(),
            ilen == input@.len(),
            ip <= ilen,
            op <= n,
            out@.skip(op as int) == old(out)@.skip(op as int),
            reached(input@, n as int) == reach_from(
                input@,
                ip as int,
                out@.take(op as int),
                n as int,
            ),
        decreases ilen - ip,
    {
        let ghost before = out@;
        let (op2, step) = decode_one(input, ip, out, op);
        assert(old(out)@.skip(op2 as int) =~= old(out)@.skip(op as int).skip(op2 - op));
        assert(before.skip(op2 as int) =~= before.skip(op as int).skip(op2 - op));
        op = op2;
        match step {
            Step::Stop(ok) => {
                assert(out@ =~= out@.take(op as int) + old(out)@.skip(op as int));
                return if ok {
                    Some(op)
                } else {
                    None
                };
            },
            Step::Go(next) => {
                ip = next;
            },
        }
    }
    assert(out@ =~= out@.take(op as int) + old(out)@.skip(op as int));
    Some(op)
}

/// A shorter copy is a prefix of a longer one.
proof fn copy_back_prefix(out: Seq<u8>, offset: int, k: int, n: int)
    requires
        0 < offset <= out.len(),
        0 <= k <= n,
    ensures
        copy_back(out, offset, n).take(out.len() + k) == copy_back(out, offset, k),
    decreases n - k,
{
    copy_back_extends(out, offset, k);
    copy_back_extends(out, offset, n);
    if k < n {
        copy_back_extends(out, offset, n - 1);
        copy_back_prefix(out, offset, k, n - 1);
        assert(copy_back(out, offset, n).take(out.len() + k) =~= copy_back(
            out,
            offset,
            n - 1,
        ).take(out.len() + k));
    } else {
        assert(copy_back(out, offset, n).take(out.len() + k) =~= copy_back(out, offset, n));
    }
}

/// What is decoded from some point on keeps the bytes decoded before it.
proof fn decode_extends(s: Seq<u8>, ip: int, out: Seq<u8>)
    requires
        0 <= ip,
    ensures
        decode_from(s, ip, out) matches Some(d) ==> d.len() >= out.len() && d.take(
            out.len() as int,
        ) == out,
    decreases s.len() - ip,
{
    if decode_from(s, ip, out) is Some {
        assert(out.take(out.len() as int) =~= out);
        if ip < s.len() {
            let (at, lit) = literals(s, ip)->0;
            extension_advances(s, ip + 1);
            let out1 = out + s.subrange(at, at + lit);
            assert(out1.take(out.len() as int) =~= out);
            if at + lit < s.len() {
                let (offset, m, next) = back_reference(s, at + lit, s[ip], out1.len() as int)->0;
                extension_advances(s, at + lit + 2);
                copy_back_extends(out1, offset, m);
                let out2 = copy_back(out1, offset, m);
                decode_extends(s, next, out2);
                let d = decode_from(s, ip, out)->0;
                assert(d.take(out.len() as int) =~= d.take(out2.len() as int).take(
                    out1.len() as int,
                ).take(out.len() as int));
            }
        }
    }
}

/// A well-formed block decodes to bytes that start with its first literals.
pub proof fn decode_starts_with_literals(s: Seq<u8>)
    requires
        s.len() > 0,
        decoded(s) is Some,
    ensures
        ({
            let (at, lit) = literals(s, 0)->0;
            &&& literals(s, 0) is Some
            &&& 0 <= lit <= decoded(s)->0.len()
            &&& (decoded(s)->0).take(lit) == s.subrange(at, at + lit)
        }),
{
    let d = decoded(s)->0;
    let (at, lit) = literals(s, 0)->0;
    extension_advances(s, 1);
    let out1 = Seq::<u8>::empty() + s.subrange(at, at + lit);
    assert(out1 =~= s.subrange(at, at + lit));
    if at + lit < s.len() {
        let (offset, m, next) = back_reference(s, at + lit, s[0], out1.len() as int)->0;
        extension_advances(s, at + lit + 2);
        copy_back_extends(out1, offset, m);
        let out2 = copy_back(out1, offset, m);
        decode_extends(s, next, out2);
        assert(d.take(lit) =~= d.take(out2.len() as int).take(lit));
    } else {
        assert(d.take(lit) =~= d);
    }
}

/// The bounded walk reaches exactly the first bytes of what the whole walk decodes to.
proof fn reach_is_prefix_from(s: Seq<u8>, ip: int, out: Seq<u8>, n: int)
    requires
        0 <= ip,
        out.len() < n,
        decode_from(s, ip, out) is Some,
    ensures
        ({
            let d = decode_from(s, ip, out)->0;
            reach_from(s, ip, out, n) == (
                d.take(if d.len() < n {
                    d.len() as int
                } else {
                    n
                }),
                true,
            )
        }),
    decreases s.len() - ip,
{
    let d = decode_from(s, ip, out)->0;
    assert(d.take(d.len() as int) =~= d);
    if ip < s.len() {
        let (at, lit) = literals(s, ip)->0;
        extension_advances(s, ip + 1);
        let out1 = out + s.subrange(at, at + lit);
        let take = if lit < n - out.len() {
            lit
        } else {
            n - out.len()
        };
        let got1 = out + s.subrange(at, at + take);
        assert(got1 =~= out1.take(got1.len() as int));
        if at + lit < s.len() {
            let (offset, m, next) = back_reference(s, at + lit, s[ip], out1.len() as int)->0;
            extension_advances(s, at + lit + 2);
            copy_back_extends(out1, offset, m);
            let out2 = copy_back(out1, offset, m);
            decode_extends(s, next, out2);
            assert(d.take(out1.len() as int) =~= d.take(out2.len() as int).take(
                out1.len() as int,
            ));
            if got1.len() >= n {
                assert(d.take(n) =~= d.take(out1.len() as int).take(n));
            } else {
                assert(got1 =~= out1);
                let copied = if m < n - out1.len() {
                    m
                } else {
                    n - out1.len()
                };
                copy_back_prefix(out1, offset, copied, m);
                copy_back_extends(out1, offset, copied);
                if out1.len() + copied >= n {
                    assert(d.take(n) =~= d.take(out2.len() as int).take(n));
                } else {
                    assert(copied == m);
                    reach_is_prefix_from(s, next, out2, n);
                }
            }
        } else {
            if got1.len() >= n {
                assert(d.take(n) =~= got1);
            } else {
                assert(got1 =~= out1);
            }
        }
    }
}

/// For a well-formed block, the bytes that the bounded decoder reaches are the first bytes of
/// what the block decodes to.
pub proof fn reached_is_prefix(s: Seq<u8>, n: int)
    requires
        0 < n,
        decoded(s) is Some,
    ensures
        ({
            let d = decoded(s)->0;
            reached(s, n) == (
                d.take(if d.len() < n {
                    d.len() as int
                } else {
                    n
                }),
                true,
            )
        }),
{
    reach_is_prefix_from(s, 0, Seq::empty(), n);
}

/// From some point on, the bounded walk keeps the bytes it has and never has more than `n`.
proof fn reach_extends(s: Seq<u8>, ip: int, out: Seq<u8>, n: int)
    requires
        0 <= ip,
        out.len() <= n,
    ensures
        ({
            let (bytes, ok) = reach_from(s, ip, out, n);
            &&& out.len() <= bytes.len() <= n
            &&& bytes.take(out.len() as int) == out
        }),
    decreases s.len() - ip,
{
    assert(out.take(out.len() as int) =~= out);
    if ip < s.len() && literals(s, ip) is Some {
        let (at, lit) = literals(s, ip)->0;
        extension_advances(s, ip + 1);
        let take = if lit < n - out.len() {
            lit
        } else {
            n - out.len()
        };
        let out1 = out + s.subrange(at, at + take);
        assert(out1.take(out.len() as int) =~= out);
        let reference = back_reference(s, at + lit, s[ip], out1.len() as int);
        if !((lit > 0 && out1.len() >= n) || at + lit >= s.len()) && reference is Some {
            let (offset, m, next) = reference->0;
            extension_advances(s, at + lit + 2);
            let copied = if m < n - out1.len() {
                m
            } else {
                n - out1.len()
            };
            copy_back_extends(out1, offset, copied);
            let out2 = copy_back(out1, offset, copied);
            assert(out2.take(out.len() as int) =~= out2.take(out1.len() as int).take(
                out.len() as int,
            ));
            if out2.len() < n {
                reach_extends(s, next, out2, n);
                let bytes = reach_from(s, next, out2, n).0;
                assert(bytes.take(out.len() as int) =~= bytes.take(out2.len() as int).take(
                    out.len() as int,
                ));
            }
        }
    }
}

/// From some point on, the walk that wants fewer bytes reaches the start of what the walk that
/// wants more of them reaches.
proof fn shorter_reach_from(s: Seq<u8>, ip: int, out: Seq<u8>, n: int, m: int)
    requires
        0 <= ip,
        out.len() < n <= m,
    ensures
        ({
            let (few, few_ok) = reach_from(s, ip, out, n);
            let (many, many_ok) = reach_from(s, ip, out, m);
            &&& few == many.take(if many.len() < n {
                many.len() as int
            } else {
                n
            })
            &&& few.len() < n ==> few_ok == many_ok
            &&& many_ok ==> few_ok
        }),
    decreases s.len() - ip,
{
    let (few, few_ok) = reach_from(s, ip, out, n);
    let (many, many_ok) = reach_from(s, ip, out, m);
    reach_extends(s, ip, out, n);
    reach_extends(s, ip, out, m);
    assert(many.take(many.len() as int) =~= many);
    if ip < s.len() && literals(s, ip) is Some {
        let (at, lit) = literals(s, ip)->0;
        extension_advances(s, ip + 1);
        let fewer = if lit < n - out.len() {
            lit
        } else {
            n - out.len()
        };
        let more = if lit < m - out.len() {
            lit
        } else {
            m - out.len()
        };
        let few1 = out + s.subrange(at, at + fewer);
        let many1 = out + s.subrange(at, at + more);
        assert(few1 =~= many1.take(few1.len() as int));
        if lit > 0 && few1.len() >= n {
            let reference = back_reference(s, at + lit, s[ip], many1.len() as int);
            if !(many1.len() >= m || at + lit >= s.len()) && reference is Some {
                let (offset, count, next) = reference->0;
                extension_advances(s, at + lit + 2);
                let copied = if count < m - many1.len() {
                    count
                } else {
                    m - many1.len()
                };
                copy_back_extends(many1, offset, copied);
                let many2 = copy_back(many1, offset, copied);
                if many2.len() < m {
                    reach_extends(s, next, many2, m);
                }
                assert(many.take(n) =~= many.take(many2.len() as int).take(
                    many1.len() as int,
                ).take(n));
            }
            assert(many.take(n) =~= few);
        } else {
            assert(few1 =~= many1);
            let reference = back_reference(s, at + lit, s[ip], many1.len() as int);
            if at + lit < s.len() && reference is Some {
                let (offset, count, next) = reference->0;
                extension_advances(s, at + lit + 2);
                let fewer2 = if count < n - many1.len() {
                    count
                } else {
                    n - many1.len()
                };
                let more2 = if count < m - many1.len() {
                    count
                } else {
                    m - many1.len()
                };
                copy_back_extends(many1, offset, fewer2);
                copy_back_extends(many1, offset, more2);
                copy_back_prefix(many1, offset, fewer2, more2);
                let many2 = copy_back(many1, offset, more2);
                if many1.len() + fewer2 >= n {
                    if many2.len() < m {
                        reach_extends(s, next, many2, m);
                    }
                    assert(many.take(n) =~= many.take(many2.len() as int).take(n));
                } else {
                    assert(fewer2 == more2);
                    shorter_reach_from(s, next, many2, n, m);
                }
            }
        }
    }
}

/// Decoding into a smaller buffer gives the start of what decoding into a larger one gives, of
/// every block: the smaller buffer is filled where the larger one holds that much, the two results
/// are the same where it is not filled, and the smaller one succeeds wherever the larger one does.
pub proof fn smaller_buffer_holds_the_start(s: Seq<u8>, n: int, m: int)
    requires
        0 <= n <= m,
    ensures
        ({
            let (few, few_ok) = reached(s, n);
            let (many, many_ok) = reached(s, m);
            &&& few == many.take(if many.len() < n {
                many.len() as int
            } else {
                n
            })
            &&& few.len() < n ==> few_ok == many_ok
            &&& many_ok ==> few_ok
        }),
{
    let none = Seq::<u8>::empty();
    reach_extends(s, 0, none, n);
    reach_extends(s, 0, none, m);
    if n > 0 {
        shorter_reach_from(s, 0, none, n, m);
    } else {
        assert(reached(s, m).0.take(0) =~= none);
        assert(reached(s, 0).0 =~= none);
        if s.len() > 0 && literals(s, 0) is Some {
            extension_advances(s, 1);
            let (at, lit) = literals(s, 0)->0;
            assert(none + s.subrange(at, at) =~= none);
        }
    }
}

/// The position behind the sequence at `ip`, as the lengths in the block give it; `None` where
/// the block ends with the sequence or breaks off inside it, and where its offset is 0.
pub open spec fn next_sequence(s: Seq<u8>, ip: int) -> Option<int> {
    match literals(s, ip) {
        None => None,
        Some((at, lit)) => {
            let p = at + lit;
            if p + 2 > s.len() || (s[p] == 0 && s[p + 1] == 0) {
                None
            } else {
                match field(s, p + 2, s[ip] as int % 16) {
                    Some((m, next)) => Some(next),
                    None => None,
                }
            }
        },
    }
}

/// Each sequence ends behind where it starts.
pub proof fn sequence_advances(s: Seq<u8>, ip: int)
    requires
        0 <= ip < s.len(),
    ensures
        next_sequence(s, ip) matches Some(next) ==> ip < next <= s.len(),
{
    extension_advances(s, ip + 1);
    if let Some((at, lit)) = literals(s, ip) {
        extension_advances(s, at + lit + 2);
    }
}

/// The sequences from `ip` on end with one that has no match behind its literals.
pub open spec fn ends_in_literals_from(s: Seq<u8>, ip: int) -> bool
    decreases s.len() - ip,
{
    if ip < 0 || ip >= s.len() {
        false
    } else {
        match next_sequence(s, ip) {
            Some(next) => {
                proof {
                    sequence_advances(s, ip);
                }
                ends_in_literals_from(s, next)
            },
            None => literals(s, ip) matches Some((at, lit)) && at + lit == s.len(),
        }
    }
}

/// The sum of the bytes that a reader of extension bytes at `i` adds up: all up to the first one
/// that is not 255, or up to the end of the block.
pub open spec fn run_sum(s: Seq<u8>, i: int) -> nat
    decreases s.len() - i,
{
    if i < 0 || i >= s.len() {
        0
    } else if s[i] != 255 {
        s[i] as nat
    } else {
        255 + run_sum(s, i + 1)
    }
}

/// The extension bytes of a length with this nibble, if it has any, add up to 32 bits at most.
pub open spec fn field_fits(s: Seq<u8>, i: int, nibble: int) -> bool {
    nibble == 15 ==> run_sum(s, i) <= u32::MAX
}

/// The lengths of the sequences from `ip` on, one after the other as a decoder reads them, each
/// fit in 32 bits.
pub open spec fn lengths_fit_from(s: Seq<u8>, ip: int) -> bool
    decreases s.len() - ip,
{
    if ip < 0 || ip >= s.len() {
        true
    } else {
        &&& field_fits(s, ip + 1, s[ip] as int / 16)
        &&& literals(s, ip) matches Some((at, lit)) ==> (at + lit + 2 <= s.len() && !(s[at + lit]
            == 0 && s[at + lit + 1] == 0) ==> field_fits(s, at + lit + 2, s[ip] as int % 16))
        &&& match next_sequence(s, ip) {
            Some(next) => {
                proof {
                    sequence_advances(s, ip);
                }
                lengths_fit_from(s, next)
            },
            None => true,
        }
    }
}

/// Every length that a decoder reads in the block `s` fits in 32 bits.
pub open spec fn lengths_fit(s: Seq<u8>) -> bool {
    lengths_fit_from(s, 0)
}

/// Extension bytes spell the sum of what is read.
proof fn extension_is_run_sum(s: Seq<u8>, i: int)
    ensures
        extension(s, i) matches Some((v, j)) ==> v == run_sum(s, i),
    decreases s.len() - i,
{
    if 0 <= i < s.len() && s[i] == 255 {
        extension_is_run_sum(s, i + 1);
    }
}

/// A length of a block that decodes to few enough bytes fits.
proof fn decoded_lengths_fit_from(s: Seq<u8>, ip: int, out: Seq<u8>)
    requires
        0 <= ip,
        decode_from(s, ip, out) is Some,
        decode_from(s, ip, out)->0.len() <= u32::MAX,
    ensures
        lengths_fit_from(s, ip),
    decreases s.len() - ip,
{
    if ip < s.len() {
        let d = decode_from(s, ip, out)->0;
        let (at, lit) = literals(s, ip)->0;
        extension_advances(s, ip + 1);
        extension_is_run_sum(s, ip + 1);
        let out1 = out + s.subrange(at, at + lit);
        if at + lit < s.len() {
            let (offset, m, next) = back_reference(s, at + lit, s[ip], out1.len() as int)->0;
            extension_advances(s, at + lit + 2);
            extension_is_run_sum(s, at + lit + 2);
            copy_back_extends(out1, offset, m);
            decode_extends(s, next, copy_back(out1, offset, m));
            decoded_lengths_fit_from(s, next, copy_back(out1, offset, m));
        }
    }
}

/// A block that decodes to no more bytes than 32 bits count has lengths that fit in 32 bits.
pub proof fn decoded_lengths_fit(s: Seq<u8>)
    requires
        decoded(s) is Some,
        decoded(s)->0.len() <= u32::MAX,
    ensures
        lengths_fit(s),
{
    decoded_lengths_fit_from(s, 0, Seq::empty());
}

/// Whether the extension bytes at `i` of a length with this nibble add up to 32 bits at most.
fn has_fitting_field(s: &[u8], i: usize, nibble: u8) -> (r: bool)
    requires
        i <= s@.len(),
    ensures
        r == field_fits(s@, i as int, nibble as int),
{
    if nibble != 15 {
        return true;
    }
    let n = s.len();
    let mut sum: u64 = 0;
    let mut j: usize = i;
    while j < n
        invariant
            n == s@.len(),
            i <= j <= n,
            nibble == 15,
            sum <= u32::MAX,
            run_sum(s@, i as int) == sum + run_sum(s@, j as int),
        decreases n - j,
    {
        let b = s[j];
        sum = sum + b as u64;
        j = j + 1;
        if sum > 0xffff_ffff {
            return false;
        }
        if b != 255 {
            return true;
        }
    }
    true
}

/// Whether every length that a decoder reads in the block fits in 32 bits.
pub fn has_fitting_lengths(block: &[u8]) -> (r: bool)
    ensures
        r == lengths_fit(block@),
{
    let n = block.len();
    let mut ip: usize = 0;
    while ip < n
        invariant
            n == block@.len(),
            ip <= n,
            lengths_fit(block@) == lengths_fit_from(block@, ip as int),
        decreases n - ip,
    {
        let token = block[ip];
        if !has_fitting_field(block, ip + 1, token / 16) {
            return false;
        }
        let (lit, at) = match read_field(block, ip + 1, token / 16) {
            Some(x) => x,
            None => {
                return true;
            },
        };
        if lit > n - at || n - at - lit < 2 {
            return true;
        }
        let p = at + lit;
        if block[p] == 0 && block[p + 1] == 0 {
            return true;
        }
        if !has_fitting_field(block, p + 2, token % 16) {
            return false;
        }
        match read_field(block, p + 2, token % 16) {
            Some((_, next)) => {
                ip = next;
            },
            None => {
                return true;
            },
        }
    }
    true
}

/// What a payload decompresses to: behind the four little-endian bytes of a size stands an LZ4
/// block that ends in literals, and the block decodes to no more bytes than that size. `None`
/// for every other payload.
pub open spec fn decompressed(payload: Seq<u8>) -> Option<Seq<u8>> {
    if payload.len() <= 4 || !ends_in_literals_from(payload.skip(4), 0) {
        None
    } else {
        match decoded(payload.skip(4)) {
            Some(block) => if block.len() <= le_u32(payload.take(4)) {
                Some(block)
            } else {
                None
            },
            None => None,
        }
    }
}

/// A payload that decompresses has lengths that fit in 32 bits.
pub proof fn decompressed_lengths_fit(payload: Seq<u8>)
    requires
        decompressed(payload) is Some,
    ensures
        lengths_fit(payload.skip(4)),
{
    decoded_lengths_fit(payload.skip(4));
}

/// Calls `lz4_flex::block::decompress_size_prepended`. It reads the size, decodes the rest of the
/// payload as an LZ4 block into a buffer of that size and returns the bytes it wrote, which may be
/// fewer; it reports an error where a byte is missing, where the block ends with a match, where an
/// offset is 0 or reaches before the first byte, and where the buffer is too small. It adds up a
/// length in 32 bits, so blocks with a longer one are left out; the rest of its arithmetic has room
/// where `usize` has 64 bits.
#[verifier::external_body]
pub(crate) fn decompress(payload: &[u8]) -> (r: Option<Vec<u8>>)
    requires
        payload@.len() >= 4 ==> lengths_fit(payload@.skip(4)),
    ensures
        decompressed(payload@) == match r {
            Some(d) => Some(d@),
            None => None,
        },
{
    lz4_flex::block::decompress_size_prepended(payload).ok()
}

/// Blocks of `len` bytes can be compressed: the size prefix has 32 bits, and the room for the
/// result, a tenth more than the block, is computed in the size type.
pub open spec fn compressible(len: nat) -> bool {
    len <= u32::MAX && len * 110 <= usize::MAX
}

/// The most bytes that a block of `len` bytes compresses to, with its size prefix.
pub open spec fn compressed_limit(len: nat) -> nat {
    24 + len * 110 / 100
}

/// Calls `lz4_flex::block::compress_prepend_size`: the result starts with the four little-endian
/// bytes of the size of what went in, and decompresses to what went in. It is never longer than
/// the room that is set aside for it. Which of the possible encodings comes out is left open.
#[verifier::external_body]
pub(crate) fn compress(data: &[u8]) -> (r: Vec<u8>)
    requires
        compressible(data@.len()),
    ensures
        4 <= r@.len() <= compressed_limit(data@.len()),
        r@.take(4) == le_bytes(data@.len() as u32),
        decompressed(r@) == Some(data@),
{
    lz4_flex::block::compress_prepend_size(data)
}

/// Extension bytes add up to the first one that is not 255, which is the last of them; a nibble of
/// 15 counts beside them. A block that ends before such a byte spells no length.
pub proof fn extension_bytes_add_up(front: Seq<u8>, k: nat, last: u8, rest: Seq<u8>)
    requires
        last != 255,
    ensures
        ({
            let full = Seq::new(k, |i: int| 255u8);
            let s = front + full + seq![last] + rest;
            let i = front.len() as int;
            &&& field(s, i, 15) == Some((15 + 255 * k + last, i + k + 1))
            &&& extension(s, i) == Some((255 * k + last, i + k + 1))
            &&& extension(front + full, i) is None
            &&& field(front + full, i, 15) is None
        }),
    decreases k,
{
    let full = Seq::new(k, |i: int| 255u8);
    let s = front + full + seq![last] + rest;
    if k > 0 {
        let less = Seq::new((k - 1) as nat, |i: int| 255u8);
        let next = front.push(255);
        extension_bytes_add_up(next, (k - 1) as nat, last, rest);
        assert(s =~= next + less + seq![last] + rest);
        assert(front + full =~= next + less);
        assert(s[front.len() as int] == 255);
        assert((front + full)[front.len() as int] == 255);
    } else {
        assert(s[front.len() as int] == last);
    }
}

/// A nibble below 15 is the whole length.
pub proof fn short_length_needs_no_extension(s: Seq<u8>, i: int, nibble: int)
    requires
        0 <= nibble < 15,
    ensures
        field(s, i, nibble) == Some((nibble, i)),
{
}

/// A copy leaves what is there and adds `n` bytes, each the same as the one `offset` before it, be
/// that an old one or a copied one.
pub proof fn copied_bytes_repeat(out: Seq<u8>, offset: int, n: int, j: int)
    requires
        0 < offset <= out.len(),
        0 <= j < n,
    ensures
        ({
            let all = copy_back(out, offset, n);
            &&& all.len() == out.len() + n
            &&& all.take(out.len() as int) == out
            &&& all[out.len() + j] == all[out.len() + j - offset]
        }),
    decreases n,
{
    copy_back_extends(out, offset, n);
    copy_back_extends(out, offset, n - 1);
    let shorter = copy_back(out, offset, n - 1);
    let all = copy_back(out, offset, n);
    if j < n - 1 {
        copied_bytes_repeat(out, offset, n - 1, j);
        assert(all[out.len() + j] == shorter[out.len() + j]);
        assert(all[out.len() + j - offset] == shorter[out.len() + j - offset]);
    } else {
        assert(all[out.len() + j - offset] == shorter[out.len() + j - offset]);
    }
}

/// One sequence: as many literals as the high half of its token says are added, then a match of
/// four bytes more than the low half says, from as far back as the two bytes behind the literals
/// say, the first counting less. The block breaks off where literals are missing, where the second
/// of the two bytes is missing, where they are zero, and where they reach before the first byte;
/// it may end behind the literals.
pub proof fn sequence_is_read(
    s: Seq<u8>,
    ip: int,
    out: Seq<u8>,
    at: int,
    lit: int,
    m: int,
    next: int,
)
    requires
        0 <= ip < s.len(),
        field(s, ip + 1, s[ip] as int / 16) == Some((lit, at)),
        field(s, at + lit + 2, s[ip] as int % 16) == Some((m, next)),
    ensures
        ({
            let p = at + lit;
            let out1 = out + s.subrange(at, p);
            let offset = s[p] as int + 256 * s[p + 1] as int;
            let all = decode_from(s, ip, out);
            &&& p > s.len() ==> all is None
            &&& p == s.len() ==> all == Some(out1)
            &&& p + 1 == s.len() ==> all is None
            &&& p + 2 <= s.len() && (offset == 0 || offset > out1.len()) ==> all is None
            &&& p + 2 <= s.len() && 0 < offset <= out1.len() ==> all == decode_from(
                s,
                next,
                copy_back(out1, offset, m + 4),
            )
        }),
{
    extension_advances(s, ip + 1);
}

/// A block ends where no byte is left, and an empty one decodes to nothing.
pub proof fn block_ends_with_its_bytes(s: Seq<u8>, out: Seq<u8>)
    ensures
        decode_from(s, s.len() as int, out) == Some(out),
        decoded(Seq::empty()) == Some(Seq::<u8>::empty()),
        decoded(s) == decode_from(s, 0, Seq::empty()),
{
}

/// A few literals alone are a block that decodes to them.
pub proof fn literals_decode_to_themselves(lit: Seq<u8>, size: u32)
    requires
        lit.len() <= 14,
        lit.len() <= size,
    ensures
        ({
            let block = seq![(16 * lit.len()) as u8] + lit;
            &&& decoded(block) == Some(lit)
            &&& decompressed(le_bytes(size) + block) == Some(lit)
        }),
{
    let block = seq![(16 * lit.len()) as u8] + lit;
    assert(block[0] as int / 16 == lit.len());
    assert(block.subrange(1, 1 + lit.len() as int) =~= lit);
    assert(Seq::<u8>::empty() + lit =~= lit);
    let payload = le_bytes(size) + block;
    assert(payload.skip(4) =~= block);
    assert(payload.take(4) =~= le_bytes(size));
    crate::wire::le_round_trip(size);
}

/// A bounded walk fails just where it falls short of what is wanted and the block is malformed.
pub proof fn short_walk_tells_a_malformed_block(s: Seq<u8>, n: int)
    requires
        0 < n,
    ensures
        reached(s, n).0.len() <= n,
        reached(s, n).0.len() == n ==> reached(s, n).1,
        reached(s, n).0.len() < n ==> (reached(s, n).1 <==> decoded(s) is Some),
{
    walk_fails_when_short(s, 0, Seq::empty(), n);
}

proof fn walk_fails_when_short(s: Seq<u8>, ip: int, out: Seq<u8>, n: int)
    requires
        0 <= ip,
        out.len() < n,
    ensures
        ({
            let (bytes, ok) = reach_from(s, ip, out, n);
            &&& bytes.len() <= n
            &&& bytes.len() == n ==> ok
            &&& bytes.len() < n ==> (ok <==> decode_from(s, ip, out) is Some)
        }),
    decreases s.len() - ip,
{
    if ip < s.len() {
        extension_advances(s, ip + 1);
        if let Some((at, lit)) = literals(s, ip) {
            extension_advances(s, at + lit + 2);
            let take = if lit < n - out.len() {
                lit
            } else {
                n - out.len()
            };
            let out1 = out + s.subrange(at, at + take);
            if !((lit > 0 && out1.len() >= n) || at + lit >= s.len()) {
                if let Some((offset, m, next)) = back_reference(
                    s,
                    at + lit,
                    s[ip],
                    out1.len() as int,
                ) {
                    let copied = if m < n - out1.len() {
                        m
                    } else {
                        n - out1.len()
                    };
                    copy_back_extends(out1, offset, copied);
                    if out1.len() + copied < n {
                        walk_fails_when_short(s, next, copy_back(out1, offset, copied), n);
                    }
                }
            }
        }
    }
}

/// Blocks whose size fits in 32 bits can be compressed, as far as a number a hundred and ten times
/// as large fits in the size type; they grow by a tenth and 24 bytes at most.
pub proof fn blocks_of_32_bits_are_compressible(len: nat)
    ensures
        compressible(len) <==> len <= 4_294_967_295 && 110 * len <= usize::MAX,
        10 * compressed_limit(len) <= 11 * len + 240,
        10 * compressed_limit(len) > 11 * len + 230,
{
}

/// The lengths of a block fit just where those of its first sequence do and those of all that
/// follows do: a length of 15 and more is made of extension bytes that add up to 32 bits at most.
pub proof fn lengths_fit_one_by_one(s: Seq<u8>, ip: int, at: int, lit: int, m: int, next: int)
    requires
        0 <= ip < s.len(),
        field(s, ip + 1, s[ip] as int / 16) == Some((lit, at)),
        at + lit + 2 <= s.len(),
        s[at + lit] != 0 || s[at + lit + 1] != 0,
        field(s, at + lit + 2, s[ip] as int % 16) == Some((m, next)),
    ensures
        lengths_fit_from(s, ip) <==> lit <= 4_294_967_310 && m <= 4_294_967_310
            && lengths_fit_from(s, next),
{
    extension_is_run_sum(s, ip + 1);
    extension_is_run_sum(s, at + lit + 2);
    extension_advances(s, ip + 1);
    extension_advances(s, at + lit + 2);
}

/// A run of literals that is too long does not fit, whether or not the block has as many bytes.
pub proof fn too_long_a_run_does_not_fit(s: Seq<u8>, ip: int, at: int, lit: int)
    requires
        0 <= ip < s.len(),
        field(s, ip + 1, s[ip] as int / 16) == Some((lit, at)),
        at + lit >= s.len(),
    ensures
        lengths_fit_from(s, ip) <==> lit <= 4_294_967_310,
        lengths_fit(s) == lengths_fit_from(s, 0),
        lengths_fit_from(s, s.len() as int),
{
    extension_is_run_sum(s, ip + 1);
    extension_advances(s, ip + 1);
}

} // verus!
