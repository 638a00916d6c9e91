//! Rows of frames: counting them, scanning them for block rounds, and filling a header from a
//! stream that delivers it in pieces.
use vstd::prelude::*;
use vstd::relations::sorted_by;
use vstd::seq_lib::{lemma_flatten_concat, lemma_sorted_unique};
use crate::protocol::{
    block_round, is_plausible_mainnet_round, payload_round, plausible_round, MAX_FRAME_LEN,
    MIN_COMPLETE_BOOTSTRAP_BYTES, MIN_COMPLETE_BOOTSTRAP_FRAMES,
};
use crate::wire::{
    be_bytes, be_reads_back, be_round_trip, frame_bytes, frame_len, frame_reads_back,
    read_frame_len, HEADER_LEN,
};

verus! {

/// Payload length up to which a block frame is scanned for its round.
pub const MAX_LIVE_BLOCK_FRAME: usize = 2_000_000;

/// Rounds that must agree before their maximum is believed.
pub const MIN_ROUND_CLUSTER: usize = 4;

/// Largest distance between neighbours of one cluster of rounds.
pub const MAX_ROUND_CLUSTER_GAP: u32 = 10_000;

/// Whether a capture that ends on a frame boundary is large enough for a whole bootstrap.
pub fn complete_bootstrap_at_frame_boundary(bytes: u64, frames: u64) -> (r: bool)
    ensures
        r == (bytes >= 4_400_000_000 && frames >= 4_000),
{
    bytes >= MIN_COMPLETE_BOOTSTRAP_BYTES && frames >= MIN_COMPLETE_BOOTSTRAP_FRAMES
}

/// A frame: its type byte and its payload.
pub type Frame = (u8, Seq<u8>);

/// The frame that starts at `off`, where it is whole.
pub open spec fn frame_at(buf: Seq<u8>, off: int) -> Option<Frame> {
    if 0 <= off && off + 5 <= buf.len() && off + 5 + frame_len(buf, off) <= buf.len() {
        Some((buf[off + 4], buf.subrange(off + 5, off + 5 + frame_len(buf, off))))
    } else {
        None
    }
}

/// The frames of `buf` from `off` on, where it holds nothing but whole frames of believable
/// length.
pub open spec fn split_from(buf: Seq<u8>, off: int) -> Option<Seq<Frame>>
    decreases buf.len() - off,
{
    if off >= buf.len() {
        Some(Seq::empty())
    } else {
        match frame_at(buf, off) {
            Some(frame) => if frame.1.len() > MAX_FRAME_LEN {
                None
            } else {
                match split_from(buf, off + 5 + frame.1.len()) {
                    Some(rest) => Some(seq![frame] + rest),
                    None => None,
                }
            },
            None => None,
        }
    }
}

/// The frames that `buf` is made of; `None` where it holds anything else.
pub open spec fn split_frames(buf: Seq<u8>) -> Option<Seq<Frame>> {
    split_from(buf, 0)
}

/// The bytes of a row of frames.
pub open spec fn join_frames(frames: Seq<Frame>) -> Seq<u8>
    decreases frames.len(),
{
    if frames.len() == 0 {
        Seq::empty()
    } else {
        frame_bytes(frames[0].0, frames[0].1) + join_frames(frames.skip(1))
    }
}

/// The number of frames that `buf` is made of; `None` where it ends inside a frame or announces a
/// frame longer than any that is believed.
pub fn complete_frame_count(buf: &[u8]) -> (r: Option<u64>)
    ensures
        match (r, split_frames(buf@)) {
            (Some(n), Some(frames)) => n == frames.len(),
            (None, None) => true,
            _ => false,
        },
{
    let n = buf.len();
    let mut off: usize = 0;
    let mut frames: u64 = 0;
    while off < n
        invariant
            n == buf@.len(),
            off <= n,
            frames <= off,
            match (split_frames(buf@), split_from(buf@, off as int)) {
                (Some(all), Some(rest)) => all.len() == frames + rest.len(),
                (None, None) => true,
                _ => false,
            },
        decreases n - off,
    {
        if n - off < HEADER_LEN {
            return None;
        }
        let len: u32 = read_frame_len(buf, off);
        if len > MAX_FRAME_LEN {
            return None;
        }
        if len as usize > n - off - HEADER_LEN {
            return None;
        }
        assert(frame_at(buf@, off as int) is Some);
        off = off + HEADER_LEN + len as usize;
        frames = frames + 1;
    }
    Some(frames)
}

/// Where the frame at the end of `head` starts when `tail` follows it.
proof fn frame_at_head(frame: Frame, tail: Seq<u8>)
    requires
        frame.1.len() <= u32::MAX,
    ensures
        frame_at(frame_bytes(frame.0, frame.1) + tail, 0) == Some(frame),
        frame_bytes(frame.0, frame.1).len() == 5 + frame.1.len(),
{
    let buf = frame_bytes(frame.0, frame.1) + tail;
    be_round_trip(frame.1.len() as u32);
    assert(buf.subrange(0, 4) =~= be_bytes(frame.1.len() as u32));
    assert(buf.subrange(5, 5 + frame.1.len() as int) =~= frame.1);
}

/// Splitting does not depend on what stands before the point where it starts.
proof fn split_shifts(head: Seq<u8>, buf: Seq<u8>, off: int)
    requires
        0 <= off,
    ensures
        split_from(head + buf, head.len() + off) == split_from(buf, off),
    decreases buf.len() - off,
{
    if off < buf.len() {
        let both = head + buf;
        let at = head.len() + off;
        if off + 5 <= buf.len() {
            assert(both.subrange(at, at + 4) =~= buf.subrange(off, off + 4));
            let n = frame_len(buf, off);
            if off + 5 + n <= buf.len() {
                assert(both.subrange(at + 5, at + 5 + n) =~= buf.subrange(off + 5, off + 5 + n));
                split_shifts(head, buf, off + 5 + n);
            }
        }
    }
}

/// Frames that were written one after the other are split into the same frames.
pub proof fn join_then_split(frames: Seq<Frame>)
    requires
        forall|i: int| 0 <= i < frames.len() ==> (#[trigger] frames[i]).1.len() <= MAX_FRAME_LEN,
    ensures
        split_frames(join_frames(frames)) == Some(frames),
    decreases frames.len(),
{
    if frames.len() > 0 {
        let rest = frames.skip(1);
        assert forall|i: int| 0 <= i < rest.len() implies (#[trigger] rest[i]).1.len()
            <= MAX_FRAME_LEN by {
            assert(rest[i] == frames[i + 1]);
        }
        join_then_split(rest);
        let first = frame_bytes(frames[0].0, frames[0].1);
        frame_at_head(frames[0], join_frames(rest));
        split_shifts(first, join_frames(rest), 0);
        assert(seq![frames[0]] + rest =~= frames);
    } else {
        assert(frames =~= Seq::empty());
    }
}

/// What was split into frames is the row of those frames, byte for byte.
pub proof fn split_then_join(buf: Seq<u8>)
    requires
        split_frames(buf) is Some,
    ensures
        join_frames(split_frames(buf)->0) == buf,
{
    split_from_joins(buf, 0);
    assert(buf.skip(0) =~= buf);
}

proof fn split_from_joins(buf: Seq<u8>, off: int)
    requires
        0 <= off <= buf.len(),
        split_from(buf, off) is Some,
    ensures
        join_frames(split_from(buf, off)->0) == buf.skip(off),
    decreases buf.len() - off,
{
    if off < buf.len() {
        let frame = frame_at(buf, off)->0;
        let next = off + 5 + frame.1.len();
        split_from_joins(buf, next);
        let rest = split_from(buf, next)->0;
        let all = split_from(buf, off)->0;
        assert(all.skip(1) =~= rest);
        be_reads_back(buf.subrange(off, off + 4));
        assert(frame_bytes(frame.0, frame.1) + buf.skip(next) =~= buf.skip(off));
    } else {
        assert(buf.skip(off) =~= Seq::empty());
    }
}

/// `rounds` from the lowest to the highest.
pub open spec fn in_order(rounds: Seq<u32>) -> Seq<u32> {
    rounds.sort_by(|a: u32, b: u32| a <= b)
}

/// The round at `i` lies no more than `gap` above the one before it.
pub open spec fn near(s: Seq<u32>, gap: u32, i: int) -> bool {
    s[i] - s[i - 1] <= gap
}

/// The rounds from `a` up to `b` of the ordered `s` are a cluster: neighbours within it lie no
/// more than `gap` apart, and it cannot be made longer on either side.
pub open spec fn is_cluster(s: Seq<u32>, gap: u32, a: int, b: int) -> bool {
    &&& 0 <= a < b <= s.len()
    &&& forall|i: int| a < i < b ==> #[trigger] near(s, gap, i)
    &&& a > 0 ==> !near(s, gap, a)
    &&& b < s.len() ==> !near(s, gap, b)
}

/// No cluster has more rounds, and none with as many ends higher.
pub open spec fn is_best_cluster(s: Seq<u32>, gap: u32, a: int, b: int) -> bool {
    &&& is_cluster(s, gap, a, b)
    &&& forall|c: int, d: int| #[trigger]
        is_cluster(s, gap, c, d) ==> d - c < b - a || (d - c == b - a && s[d - 1] <= s[b - 1])
}

/// The highest round of the largest cluster, where that has at least `min` rounds (and `min` is
/// not 0). Of two clusters of one size the higher counts as the larger.
pub open spec fn clustered_max(s: Seq<u32>, min: nat, gap: u32) -> Option<u32> {
    if min > 0 && exists|a: int, b: int| #[trigger] is_best_cluster(s, gap, a, b) && b - a >= min {
        let (a, b) = choose|a: int, b: int| #[trigger]
            is_best_cluster(s, gap, a, b) && b - a >= min;
        Some(s[b - 1])
    } else {
        None
    }
}

/// Calls `slice::sort_unstable` on rounds: afterwards the same rounds stand in ascending order.
#[verifier::external_body]
pub(crate) fn sort_rounds(rounds: &mut [u32])
    ensures
        final(rounds)@.to_multiset() == old(rounds)@.to_multiset(),
        sorted_by(final(rounds)@, |a: u32, b: u32| a <= b),
{
    rounds.sort_unstable()
}

/// Two clusters do not overlap.
proof fn clusters_are_apart(s: Seq<u32>, gap: u32, a: int, b: int, c: int, d: int)
    requires
        is_cluster(s, gap, a, b),
        is_cluster(s, gap, c, d),
    ensures
        b <= c || d <= a || (a == c && b == d),
{
    if a < c < b {
        assert(near(s, gap, c));
    }
    if c < a < d {
        assert(near(s, gap, a));
    }
    if a == c && b < d {
        assert(near(s, gap, b));
    }
    if a == c && d < b {
        assert(near(s, gap, d));
    }
}

/// The cluster that ends at `end` with `len` rounds is the best of those that end no later than
/// `upto`; with `len` 0 there are none.
spec fn best_upto(s: Seq<u32>, gap: u32, upto: int, end: int, len: int) -> bool {
    if len == 0 {
        upto == 0
    } else {
        &&& is_cluster(s, gap, end - len, end)
        &&& end <= upto
        &&& forall|c: int, d: int| #[trigger]
            is_cluster(s, gap, c, d) && d <= upto ==> d - c < len || (d - c == len && s[d - 1]
                <= s[end - 1])
    }
}

/// The best cluster so far, against the one that follows it.
proof fn best_of_next(s: Seq<u32>, gap: u32, a: int, b: int, end: int, len: int)
    requires
        0 <= len,
        best_upto(s, gap, a, end, len),
        is_cluster(s, gap, a, b),
    ensures
        b - a > len || (b - a == len && s[b - 1] > s[end - 1]) ==> best_upto(s, gap, b, b, b - a),
        !(b - a > len || (b - a == len && s[b - 1] > s[end - 1])) ==> best_upto(s, gap, b, end, len),
{
    assert forall|c: int, d: int| #[trigger] is_cluster(s, gap, c, d) && d <= b implies d <= a || (c
        == a && d == b) by {
        clusters_are_apart(s, gap, a, b, c, d);
    }
}

/// The highest round of the largest cluster in `rounds`, which are put in order on the way.
/// `None`, with `rounds` left alone, where there are fewer than `min_cluster` of them or
/// `min_cluster` is 0.
pub fn max_clustered_round(rounds: &mut [u32], min_cluster: usize, max_gap: u32) -> (r: Option<
    u32,
>)
    ensures
        r == clustered_max(in_order(old(rounds)@), min_cluster as nat, max_gap),
        final(rounds)@ == if old(rounds)@.len() < min_cluster || min_cluster == 0 {
            old(rounds)@
        } else {
            in_order(old(rounds)@)
        },
{
    let ghost leq = |a: u32, b: u32| a <= b;
    proof {
        old(rounds)@.lemma_sort_by_ensures(leq);
        in_order(old(rounds)@).to_multiset_ensures();
        old(rounds)@.to_multiset_ensures();
    }
    if rounds.len() < min_cluster || min_cluster == 0 {
        return None;
    }
    sort_rounds(rounds);
    let ghost s = rounds@;
    proof {
        lemma_sorted_unique(s, in_order(old(rounds)@), leq);
        assert(forall|i: int, j: int| 0 <= i <= j < s.len() ==> #[trigger] leq(s[i], s[j]));
        assert(forall|i: int, j: int| 0 <= i <= j < s.len() ==> s[i] <= s[j]) by {
            assert forall|i: int, j: int| 0 <= i <= j < s.len() implies s[i] <= s[j] by {
                assert(leq(s[i], s[j]));
            }
        }
    }
    let n = rounds.len();
    let mut best_len: usize = 0;
    let mut best_max: u32 = 0;
    let mut cur_len: usize = 1;
    let mut i: usize = 1;
    let ghost mut best_end: int = 0;
    while i < n
        invariant
            s == rounds@,
            n == s.len(),
            1 <= i <= n,
            1 <= cur_len <= i,
            best_len <= n,
            forall|i: int, j: int| 0 <= i <= j < s.len() ==> s[i] <= s[j],
            forall|k: int| i - cur_len < k < i ==> #[trigger] near(s, max_gap, k),
            i - cur_len > 0 ==> !near(s, max_gap, i - cur_len),
            best_upto(s, max_gap, i - cur_len, best_end, best_len as int),
            best_len > 0 ==> best_max == s[best_end - 1],
        decreases n - i,
    {
        if rounds[i].saturating_sub(rounds[i - 1]) <= max_gap {
            assert(near(s, max_gap, i as int));
            cur_len = cur_len + 1;
        } else {
            assert(!near(s, max_gap, i as int));
            proof {
                best_of_next(s, max_gap, i - cur_len, i as int, best_end, best_len as int);
            }
            if cur_len > best_len || (cur_len == best_len && rounds[i - 1] > best_max) {
                best_len = cur_len;
                best_max = rounds[i - 1];
                proof {
                    best_end = i as int;
                }
            }
            cur_len = 1;
        }
        i = i + 1;
    }
    proof {
        best_of_next(s, max_gap, n - cur_len, n as int, best_end, best_len as int);
    }
    if cur_len > best_len || (cur_len == best_len && rounds[n - 1] > best_max) {
        best_len = cur_len;
        best_max = rounds[n - 1];
        proof {
            best_end = n as int;
        }
    }
    proof {
        assert(is_best_cluster(s, max_gap, best_end - best_len, best_end));
        best_is_unique(s, max_gap, best_end - best_len, best_end);
    }
    if best_len >= min_cluster {
        Some(best_max)
    } else {
        None
    }
}

/// Two best clusters have the same size and the same highest round, so the largest cluster's
/// highest round is one round.
pub proof fn best_is_unique(s: Seq<u32>, gap: u32, a: int, b: int)
    requires
        is_best_cluster(s, gap, a, b),
    ensures
        forall|c: int, d: int| #[trigger]
            is_best_cluster(s, gap, c, d) ==> d - c == b - a && s[d - 1] == s[b - 1],
        forall|min: nat| #[trigger]
            clustered_max(s, min, gap) == if 0 < min <= b - a {
                Some(s[b - 1])
            } else {
                None
            },
{
    assert forall|c: int, d: int| #[trigger] is_best_cluster(s, gap, c, d) implies d - c == b - a
        && s[d - 1] == s[b - 1] by {
        assert(is_cluster(s, gap, c, d));
        assert(is_cluster(s, gap, a, b));
    }
}

/// A round that lies more than `gap` away from both its neighbours is never the result: a decode
/// artifact cannot outvote a cluster.
pub proof fn isolated_round_is_never_chosen(s: Seq<u32>, min: nat, gap: u32, i: int)
    requires
        forall|i: int, j: int| 0 <= i <= j < s.len() ==> s[i] <= s[j],
        min >= 2,
        0 <= i < s.len(),
        i > 0 ==> !near(s, gap, i),
        i + 1 < s.len() ==> !near(s, gap, i + 1),
    ensures
        clustered_max(s, min, gap) != Some(s[i]),
{
    if clustered_max(s, min, gap) is Some {
        let (a, b) = choose|a: int, b: int| #[trigger]
            is_best_cluster(s, gap, a, b) && b - a >= min;
        if s[b - 1] == s[i] {
            if b - 1 < i {
                assert(s[b - 1] <= s[i - 1]);
            }
            if b - 1 > i {
                assert(s[i + 1] <= s[b - 1]);
            }
            assert(near(s, gap, b - 1));
        }
    }
}

/// The order in which rounds were met does not matter.
pub proof fn meeting_order_is_immaterial(one: Seq<u32>, other: Seq<u32>)
    requires
        one.to_multiset() == other.to_multiset(),
    ensures
        in_order(one) == in_order(other),
{
    let leq = |a: u32, b: u32| a <= b;
    one.lemma_sort_by_ensures(leq);
    other.lemma_sort_by_ensures(leq);
    lemma_sorted_unique(in_order(one), in_order(other), leq);
}

/// The rounds that count in the frames of `blob` from `off` on: of each whole data frame that is
/// not too long, the round of its block, where it has one and that is not below the floor. The
/// scan ends at the first frame that is not whole.
pub open spec fn rounds_from(blob: Seq<u8>, off: int) -> Seq<u32>
    decreases blob.len() - off,
{
    match frame_at(blob, off) {
        None => Seq::empty(),
        Some(frame) => {
            let rest = rounds_from(blob, off + 5 + frame.1.len());
            if frame.0 == 1 && frame.1.len() <= MAX_LIVE_BLOCK_FRAME {
                match payload_round(frame.1) {
                    Some(round) if plausible_round(round, 0) => seq![round] + rest,
                    _ => rest,
                }
            } else {
                rest
            }
        },
    }
}

/// The highest round among the blocks in `blob`, taken from the largest cluster of their rounds.
pub fn max_block_round_in_frames(blob: &[u8]) -> (r: Option<u32>)
    ensures
        r == clustered_max(
            in_order(rounds_from(blob@, 0)),
            MIN_ROUND_CLUSTER as nat,
            MAX_ROUND_CLUSTER_GAP,
        ),
{
    let n = blob.len();
    let mut off: usize = 0;
    let mut rounds: Vec<u32> = Vec::new();
    assert(rounds@ + rounds_from(blob@, 0) =~= rounds_from(blob@, 0));
    while n - off >= HEADER_LEN
        invariant_except_break
            n == blob@.len(),
            off <= n,
            rounds@ + rounds_from(blob@, off as int) == rounds_from(blob@, 0),
        ensures
            rounds@ == rounds_from(blob@, 0),
        decreases n - off,
    {
        let len: usize = read_frame_len(blob, off) as usize;
        let typ = blob[off + 4];
        if len > n - off - HEADER_LEN {
            assert(rounds@ =~= rounds@ + rounds_from(blob@, off as int));
            break;
        }
        let start: usize = off + HEADER_LEN;
        let next: usize = start + len;
        let ghost before = rounds@;
        assert(frame_at(blob@, off as int) == Some(
            (typ, blob@.subrange(start as int, next as int)),
        ));
        if typ == 1 && len <= MAX_LIVE_BLOCK_FRAME {
            let payload = vstd::slice::slice_subrange(blob, start, next);
            if let Some(round) = block_round(payload) {
                if is_plausible_mainnet_round(round, 0) {
                    rounds.push(round);
                }
            }
        }
        assert(rounds@ + rounds_from(blob@, next as int) =~= before + rounds_from(
            blob@,
            off as int,
        ));
        off = next;
    }
    max_clustered_round(rounds.as_mut_slice(), MIN_ROUND_CLUSTER, MAX_ROUND_CLUSTER_GAP)
}

/// What a read of a header came to: it is there, or the time ran out after so many of its bytes.
#[derive(Clone, Copy, Debug, PartialEq, Eq, Structural)]
pub enum HeaderRead {
    Complete,
    TimedOut(usize),
}

/// What one delivery of bytes did for a header.
#[derive(Clone, Copy, Debug, PartialEq, Eq, Structural)]
pub enum HeaderStep {
    /// Bytes are still missing.
    More,
    /// The header is there.
    Complete,
    /// The stream ended before it was.
    Eof,
}

/// A frame header that is being filled.
pub struct HeaderFill {
    bytes: Vec<u8>,
}

impl View for HeaderFill {
    type V = Seq<u8>;

    closed spec fn view(&self) -> Seq<u8> {
        self.bytes@
    }
}

impl HeaderFill {
    /// A header has five bytes.
    pub open spec fn well_formed(&self) -> bool {
        self@.len() <= 5
    }

    /// A header of which nothing has come yet.
    pub fn new() -> (r: HeaderFill)
        ensures
            r.well_formed(),
            r@ == Seq::<u8>::empty(),
    {
        HeaderFill { bytes: Vec::new() }
    }

    /// The number of bytes that are still missing.
    pub fn missing(&self) -> (r: usize)
        requires
            self.well_formed(),
        ensures
            r == 5 - self@.len(),
    {
        HEADER_LEN - self.bytes.len()
    }

    /// Takes the bytes of one read. An empty read is the end of the stream.
    pub fn deliver(&mut self, chunk: &[u8]) -> (r: HeaderStep)
        requires
            old(self)@.len() < 5,
            old(self)@.len() + chunk@.len() <= 5,
        ensures
            final(self).well_formed(),
            final(self)@ == old(self)@ + chunk@,
            r == if chunk@.len() == 0 {
                HeaderStep::Eof
            } else if final(self)@.len() == 5 {
                HeaderStep::Complete
            } else {
                HeaderStep::More
            },
    {
        self.bytes.extend_from_slice(chunk);
        assert(self.bytes@ =~= old(self)@ + chunk@);
        if chunk.len() == 0 {
            HeaderStep::Eof
        } else if self.bytes.len() == HEADER_LEN {
            HeaderStep::Complete
        } else {
            HeaderStep::More
        }
    }

    /// What to report when the time runs out: nothing that has come is lost.
    pub fn time_out(&self) -> (r: HeaderRead)
        requires
            self.well_formed(),
        ensures
            r == if self@.len() == 5 {
                HeaderRead::Complete
            } else {
                HeaderRead::TimedOut(self@.len() as usize)
            },
    {
        if self.bytes.len() == HEADER_LEN {
            HeaderRead::Complete
        } else {
            HeaderRead::TimedOut(self.bytes.len())
        }
    }

    /// The payload length that a whole header announces.
    pub fn payload_len(&self) -> (r: u32)
        requires
            self@.len() == 5,
        ensures
            r == frame_len(self@, 0),
    {
        read_frame_len(self.bytes.as_slice(), 0)
    }

    /// The type byte of a whole header.
    pub fn typ(&self) -> (r: u8)
        requires
            self@.len() == 5,
        ensures
            r == self@[4],
    {
        self.bytes[4]
    }
}

/// A header after all of `chunks` were delivered, first to last.
pub open spec fn filled(start: Seq<u8>, chunks: Seq<Seq<u8>>) -> Seq<u8>
    decreases chunks.len(),
{
    if chunks.len() == 0 {
        start
    } else {
        filled(start, chunks.drop_last()) + chunks.last()
    }
}

/// However a stream cuts a header into pieces, and wherever a timeout falls between them, the
/// header is the stream's next bytes in order.
pub proof fn header_keeps_stream_order(start: Seq<u8>, chunks: Seq<Seq<u8>>, more: Seq<Seq<u8>>)
    ensures
        filled(start, chunks) == start + chunks.flatten(),
        filled(filled(start, chunks), more) == start + (chunks + more).flatten(),
{
    filled_flattens(start, chunks);
    filled_flattens(filled(start, chunks), more);
    lemma_flatten_concat(chunks, more);
}

proof fn filled_flattens(start: Seq<u8>, chunks: Seq<Seq<u8>>)
    ensures
        filled(start, chunks) == start + chunks.flatten(),
    decreases chunks.len(),
{
    if chunks.len() > 0 {
        filled_flattens(start, chunks.drop_last());
        chunks.lemma_flatten_and_flatten_alt_are_equivalent();
        chunks.drop_last().lemma_flatten_and_flatten_alt_are_equivalent();
    }
}

/// Rounds in order are the same rounds, from the lowest to the highest.
pub proof fn order_is_rising(rounds: Seq<u32>)
    ensures
        in_order(rounds).to_multiset() == rounds.to_multiset(),
        in_order(rounds).len() == rounds.len(),
        forall|i: int, j: int|
            0 <= i <= j < rounds.len() ==> #[trigger] in_order(rounds)[i] <= #[trigger] in_order(
                rounds,
            )[j],
        forall|r: u32| #[trigger] in_order(rounds).contains(r) <==> rounds.contains(r),
{
    let leq = |a: u32, b: u32| a <= b;
    rounds.lemma_sort_by_ensures(leq);
    let s = in_order(rounds);
    rounds.to_multiset_ensures();
    s.to_multiset_ensures();
    assert forall|i: int, j: int| 0 <= i <= j < rounds.len() implies #[trigger] s[i]
        <= #[trigger] s[j] by {
        if i < j {
            assert(leq(s[i], s[j]));
        }
    }
    assert forall|r: u32| #[trigger] s.contains(r) <==> rounds.contains(r) by {
        assert(s.to_multiset().count(r) == rounds.to_multiset().count(r));
    }
}

/// The result is one of the rounds, and there is none where there are fewer rounds than are asked
/// for.
pub proof fn result_is_one_of_the_rounds(s: Seq<u32>, min: nat, gap: u32)
    ensures
        clustered_max(s, min, gap) matches Some(round) ==> s.contains(round),
        min == 0 || s.len() < min ==> clustered_max(s, min, gap) is None,
{
    if clustered_max(s, min, gap) is Some {
        let (a, b) = choose|a: int, b: int| #[trigger]
            is_best_cluster(s, gap, a, b) && b - a >= min;
        assert(is_cluster(s, gap, a, b));
        assert(s[b - 1] == s[b - 1]);
    }
}

/// Where no two neighbours lie more than `gap` apart, the highest round is the result, as long as
/// there are enough.
pub proof fn close_rounds_give_the_highest(s: Seq<u32>, min: nat, gap: u32)
    requires
        0 < min <= s.len(),
        forall|i: int| 0 < i < s.len() ==> #[trigger] s[i] - s[i - 1] <= gap,
    ensures
        clustered_max(s, min, gap) == Some(s.last()),
{
    let n = s.len() as int;
    assert forall|i: int| 0 < i < n implies #[trigger] near(s, gap, i) by {
        assert(s[i] - s[i - 1] <= gap);
    }
    assert(is_cluster(s, gap, 0, n));
    assert forall|c: int, d: int| #[trigger] is_cluster(s, gap, c, d) implies d - c < n || (d - c
        == n && s[d - 1] <= s[n - 1]) by {}
    assert(is_best_cluster(s, gap, 0, n));
    best_is_unique(s, gap, 0, n);
}

/// Where the rounds fall apart in two groups that lie more than `gap` apart, the larger group's
/// highest round is the result, and the higher group's where both have as many: many low rounds
/// outvote a few high ones.
pub proof fn larger_group_wins(s: Seq<u32>, min: nat, gap: u32, m: int)
    requires
        0 < min,
        0 < m < s.len(),
        forall|i: int, j: int| 0 <= i <= j < s.len() ==> s[i] <= s[j],
        forall|i: int| 0 < i < s.len() && i != m ==> #[trigger] s[i] - s[i - 1] <= gap,
        s[m] - s[m - 1] > gap,
    ensures
        m > s.len() - m && m >= min ==> clustered_max(s, min, gap) == Some(s[m - 1]),
        m <= s.len() - m && s.len() - m >= min ==> clustered_max(s, min, gap) == Some(s.last()),
        m < min && s.len() - m < min ==> clustered_max(s, min, gap) is None,
{
    let n = s.len() as int;
    assert forall|i: int| 0 < i < n && i != m implies #[trigger] near(s, gap, i) by {
        assert(s[i] - s[i - 1] <= gap);
    }
    assert(!near(s, gap, m));
    assert(is_cluster(s, gap, 0, m));
    assert(is_cluster(s, gap, m, n));
    assert forall|c: int, d: int| #[trigger] is_cluster(s, gap, c, d) implies (c, d) == (0int, m)
        || (c, d) == (m, n) by {
        if c > 0 && c != m {
            assert(near(s, gap, c));
        }
        if d < n && d != m {
            assert(near(s, gap, d));
        }
        if c == 0 && d == n {
            assert(near(s, gap, m));
        }
    }
    assert(s[m - 1] <= s[n - 1]);
    if m > n - m {
        assert(is_best_cluster(s, gap, 0, m));
        best_is_unique(s, gap, 0, m);
    } else {
        assert(is_best_cluster(s, gap, m, n));
        best_is_unique(s, gap, m, n);
    }
}

/// What stands before the bytes that are scanned plays no part.
proof fn scan_goes_by_the_rest(front: Seq<u8>, rest: Seq<u8>, off: int)
    requires
        0 <= off,
    ensures
        rounds_from(front + rest, front.len() + off) == rounds_from(rest, off),
    decreases rest.len() - off,
{
    let all = front + rest;
    let at = front.len() + off;
    if off + 5 <= rest.len() {
        assert(all.subrange(at, at + 4) =~= rest.subrange(off, off + 4));
        let len = frame_len(rest, off);
        if off + 5 + len <= rest.len() {
            assert(all.subrange(at + 5, at + 5 + len) =~= rest.subrange(off + 5, off + 5 + len));
            assert(frame_at(all, at) == frame_at(rest, off));
            scan_goes_by_the_rest(front, rest, off + 5 + len);
        }
    }
}

/// The scan of a row of frames takes the round of each block, in order: of data frames of at most
/// 2,000,000 bytes with a round of at least 1,000,000,000. Other frames are skipped, and the scan
/// goes on behind them.
pub proof fn scan_takes_each_block(frames: Seq<Frame>)
    requires
        frames.len() > 0,
        frames[0].1.len() <= u32::MAX,
    ensures
        ({
            let first = frames[0];
            let round = payload_round(first.1);
            let rest = rounds_from(join_frames(frames.skip(1)), 0);
            let counts = first.0 == 1 && first.1.len() <= 2_000_000 && round is Some && round->0
                >= 1_000_000_000;
            &&& counts ==> rounds_from(join_frames(frames), 0) == seq![round->0] + rest
            &&& !counts ==> rounds_from(join_frames(frames), 0) == rest
        }),
        rounds_from(Seq::empty(), 0) == Seq::<u32>::empty(),
{
    let first = frames[0];
    let front = frame_bytes(first.0, first.1);
    let rest = join_frames(frames.skip(1));
    let all = front + rest;
    frame_reads_back(first.0, first.1);
    assert(all.subrange(0, 4) =~= front.subrange(0, 4));
    assert(all.subrange(5, 5 + first.1.len() as int) =~= first.1);
    assert(frame_at(all, 0) == Some(first)) by {
        assert(all[4] == front[4]);
    }
    scan_goes_by_the_rest(front, rest, 0);
}

/// Four rounds, none more than ten thousand above the one before it, show where a row of blocks
/// ends; fewer show nothing, nor do four with a wider gap among them.
pub proof fn four_close_rounds_show_the_end(s: Seq<u32>, m: int)
    requires
        forall|i: int, j: int| 0 <= i <= j < s.len() ==> s[i] <= s[j],
    ensures
        ({
            let end = clustered_max(s, MIN_ROUND_CLUSTER as nat, MAX_ROUND_CLUSTER_GAP);
            &&& s.len() < 4 ==> end is None
            &&& s.len() >= 4 && (forall|i: int|
                0 < i < s.len() ==> #[trigger] s[i] - s[i - 1] <= 10_000) ==> end == Some(s.last())
            &&& s.len() == 4 && 0 < m < 4 && s[m] - s[m - 1] > 10_000 ==> end is None
        }),
{
    let gap = MAX_ROUND_CLUSTER_GAP;
    let n = s.len() as int;
    if n >= 4 && (forall|i: int| 0 < i < s.len() ==> #[trigger] s[i] - s[i - 1] <= 10_000) {
        close_rounds_give_the_highest(s, 4, 10_000);
    }
    if n == 4 && 0 < m < 4 && s[m] - s[m - 1] > 10_000 {
        assert(!near(s, gap, m));
        assert forall|c: int, d: int| #[trigger] is_cluster(s, gap, c, d) implies d - c < 4 by {
            if c == 0 && d == 4 {
                assert(near(s, gap, m));
            }
        }
    }
}

/// A row of frames ends with its last byte. A frame that is not whole spoils it, and so does one with
/// more than one and a half billion bytes; any other frame is the first of the row, and what follows
/// it is a row of its own.
pub proof fn frames_are_taken_one_by_one(buf: Seq<u8>, off: int)
    requires
        0 <= off <= buf.len(),
    ensures
        ({
            let row = split_from(buf, off);
            let len = 16_777_216 * buf[off] + 65_536 * buf[off + 1] + 256 * buf[off + 2] + buf[off
                + 3];
            &&& off == buf.len() ==> row == Some(Seq::<Frame>::empty())
            &&& off < buf.len() < off + 5 ==> row is None
            &&& off + 5 <= buf.len() < off + 5 + len ==> row is None
            &&& off + 5 <= buf.len() && len > 1_500_000_000 ==> row is None
            &&& off + 5 + len <= buf.len() && len <= 1_500_000_000 ==> {
                let rest = split_from(buf, off + 5 + len);
                &&& row is Some <==> rest is Some
                &&& row is Some ==> row->0 == seq![
                    (buf[off + 4], buf.subrange(off + 5, off + 5 + len)),
                ] + rest->0
            }
        }),
{
    if off + 4 <= buf.len() {
        crate::wire::length_stands_first(buf, off);
    }
}

} // verus!
