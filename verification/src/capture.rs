//! Capturing a bootstrap: a row of whole frames that grows as bytes come, the capture that asks a
//! peer for a bootstrap, the tap on a bootstrap that is relayed to a node, and the race between
//! several peers.
use vstd::prelude::*;
use crate::cache::blob_outcome;
use crate::frames::{
    complete_bootstrap_at_frame_boundary, frame_at, join_frames, join_then_split, split_frames,
    split_from, split_then_join, Frame,
};
use crate::protocol::MAX_FRAME_LEN;
use crate::text::{decimal, push_decimal, push_text};
use crate::wire::{be_reads_back, frame_bytes, frame_len, read_frame_len, HEADER_LEN};

verus! {

/// Largest capture, in bytes.
pub const MAX_BOOTSTRAP_CAPTURE_BYTES: u64 = 6_000_000_000;

/// The first frame of a bootstrap is longer than this.
pub const MIN_STATE_FRAME: u32 = 4_000_000;

/// Payload length beyond which a frame is read in pieces, with an eye on the rate.
pub const LARGE_FRAME: u32 = 50_000_000;

/// Slowest peer that a bootstrap is captured from, in bytes a second.
pub const MIN_BOOTSTRAP_RATE: u64 = 5_000_000;

/// Rate below which the bulk of a bootstrap counts as over, in bytes a second.
pub const TRICKLE_RATE: u64 = 400_000;

/// Capture size from which the end of the bulk is looked for, in bytes.
pub const BULK_BYTES: u64 = 1_500_000_000;

/// Slow windows in a row after which the bulk is over.
pub const SLOW_WINDOWS: u32 = 8;

/// Length of a window over which the rate is taken, in nanoseconds.
pub const WINDOW_NS: u64 = 1_500_000_000;

/// Time that a large frame has before its rate counts, in nanoseconds.
pub const RATE_GRACE_NS: u64 = 4_000_000_000;

/// A row of whole frames and the beginning of the next one.
pub struct FrameRow {
    done: Vec<u8>,
    partial: Vec<u8>,
    frames: u64,
}

impl FrameRow {
    /// The whole frames.
    pub closed spec fn done(&self) -> Seq<u8> {
        self.done@
    }

    /// The beginning of the next frame.
    pub closed spec fn partial(&self) -> Seq<u8> {
        self.partial@
    }

    /// The number of whole frames.
    pub closed spec fn frames(&self) -> u64 {
        self.frames
    }

    /// The whole frames are whole and counted; the next one has its header and lacks a part of its
    /// payload.
    pub open spec fn well_formed(&self) -> bool {
        &&& split_frames(self.done()) matches Some(frames) && frames.len() == self.frames()
        &&& self.partial().len() > 0 ==> {
            &&& self.partial().len() >= 5
            &&& frame_len(self.partial(), 0) <= MAX_FRAME_LEN
            &&& self.partial().len() < 5 + frame_len(self.partial(), 0)
        }
    }

    /// Payload bytes that the next frame lacks.
    pub open spec fn missing(&self) -> int {
        if self.partial().len() == 0 {
            0
        } else {
            5 + frame_len(self.partial(), 0) - self.partial().len()
        }
    }

    /// An empty row with room for `capacity` bytes.
    pub fn new(capacity: usize) -> (r: FrameRow)
        requires
            capacity <= isize::MAX,
        ensures
            r.well_formed(),
            r.done() == Seq::<u8>::empty(),
            r.partial() == Seq::<u8>::empty(),
            r.frames() == 0,
    {
        FrameRow { done: Vec::with_capacity(capacity), partial: Vec::new(), frames: 0 }
    }

    /// The bytes of the whole frames.
    pub fn done_len(&self) -> (r: u64)
        ensures
            r == self.done().len(),
    {
        self.done.len() as u64
    }

    /// The number of whole frames.
    pub fn frame_count(&self) -> (r: u64)
        ensures
            r == self.frames(),
    {
        self.frames
    }

    /// Payload bytes that the next frame lacks.
    pub fn missing_len(&self) -> (r: usize)
        requires
            self.well_formed(),
        ensures
            r == self.missing(),
    {
        if self.partial.len() == 0 {
            0
        } else {
            let len: usize = read_frame_len(self.partial.as_slice(), 0) as usize;
            len - (self.partial.len() - HEADER_LEN)
        }
    }

    /// Whether the whole frames can be a whole bootstrap.
    pub fn is_complete(&self) -> (r: bool)
        ensures
            r == (self.done().len() >= 4_400_000_000 && self.frames() >= 4_000),
    {
        complete_bootstrap_at_frame_boundary(self.done.len() as u64, self.frames)
    }

    /// The whole frames.
    pub fn into_blob(self) -> (r: Vec<u8>)
        ensures
            r@ == self.done(),
    {
        self.done
    }

    /// Moves the frame that has become whole over to the others.
    fn close(&mut self)
        requires
            split_frames(old(self).done()) matches Some(frames) && frames.len() == old(
                self,
            ).frames(),
            old(self).partial().len() >= 5,
            frame_len(old(self).partial(), 0) <= MAX_FRAME_LEN,
            old(self).partial().len() == 5 + frame_len(old(self).partial(), 0),
        ensures
            final(self).well_formed(),
            final(self).done() == old(self).done() + old(self).partial(),
            final(self).partial() == Seq::<u8>::empty(),
            final(self).frames() == old(self).frames() + 1,
    {
        proof {
            split_append(self.done@, self.partial@);
            count_bounded(self.done@);
        }
        let n = self.done.len();
        assert(self.frames <= n);
        self.done.extend_from_slice(self.partial.as_slice());
        assert(self.done@ =~= old(self).done() + old(self).partial());
        let m = self.done.len();
        assert(n < m);
        self.partial = Vec::new();
        self.frames = self.frames + 1;
    }

    /// Begins the next frame with its header; whether it is whole with that.
    pub fn begin(&mut self, hdr: &[u8]) -> (r: bool)
        requires
            old(self).well_formed(),
            old(self).partial().len() == 0,
            hdr@.len() == 5,
            frame_len(hdr@, 0) <= MAX_FRAME_LEN,
        ensures
            final(self).well_formed(),
            r == (frame_len(hdr@, 0) == 0),
            r ==> {
                &&& final(self).done() == old(self).done() + hdr@
                &&& final(self).partial() == Seq::<u8>::empty()
                &&& final(self).frames() == old(self).frames() + 1
            },
            !r ==> {
                &&& final(self).done() == old(self).done()
                &&& final(self).partial() == hdr@
                &&& final(self).frames() == old(self).frames()
            },
    {
        self.partial.extend_from_slice(hdr);
        assert(self.partial@ =~= hdr@);
        if read_frame_len(hdr, 0) == 0 {
            self.close();
            true
        } else {
            false
        }
    }

    /// Takes payload bytes of the next frame; whether it is whole with them.
    pub fn take(&mut self, bytes: &[u8]) -> (r: bool)
        requires
            old(self).well_formed(),
            old(self).partial().len() > 0,
            bytes@.len() <= old(self).missing(),
        ensures
            final(self).well_formed(),
            r == (bytes@.len() == old(self).missing()),
            r ==> {
                &&& final(self).done() == old(self).done() + old(self).partial() + bytes@
                &&& final(self).partial() == Seq::<u8>::empty()
                &&& final(self).frames() == old(self).frames() + 1
            },
            !r ==> {
                &&& final(self).done() == old(self).done()
                &&& final(self).partial() == old(self).partial() + bytes@
                &&& final(self).frames() == old(self).frames()
                &&& final(self).missing() == old(self).missing() - bytes@.len()
            },
    {
        let missing = self.missing_len();
        self.partial.extend_from_slice(bytes);
        proof {
            assert(self.partial@ =~= old(self).partial() + bytes@);
            assert(self.partial@.subrange(0, 4) =~= old(self).partial().subrange(0, 4));
        }
        if bytes.len() == missing {
            self.close();
            assert(self.done() =~= old(self).done() + old(self).partial() + bytes@);
            true
        } else {
            false
        }
    }
}

/// The frames that a row splits into are not too long.
proof fn split_lens(buf: Seq<u8>, off: int)
    requires
        0 <= off,
        split_from(buf, off) is Some,
    ensures
        forall|i: int|
            0 <= i < (split_from(buf, off)->0).len() ==> (#[trigger] (split_from(
                buf,
                off,
            )->0)[i]).1.len() <= MAX_FRAME_LEN,
    decreases buf.len() - off,
{
    if off < buf.len() {
        let frame = frame_at(buf, off)->0;
        let next = off + 5 + frame.1.len();
        split_lens(buf, next);
        let rest = split_from(buf, next)->0;
        let all = split_from(buf, off)->0;
        assert forall|i: int| 0 <= i < all.len() implies (#[trigger] all[i]).1.len()
            <= MAX_FRAME_LEN by {
            if i > 0 {
                assert(all[i] == rest[i - 1]);
            }
        }
    }
}

/// A row with one more frame at its end.
proof fn join_push(frames: Seq<Frame>, frame: Frame)
    ensures
        join_frames(frames.push(frame)) == join_frames(frames) + frame_bytes(frame.0, frame.1),
    decreases frames.len(),
{
    let all = frames.push(frame);
    if frames.len() == 0 {
        assert(all.skip(1) =~= Seq::<Frame>::empty());
        assert(all[0] == frame);
        assert(join_frames(all.skip(1)) =~= Seq::<u8>::empty());
        assert(join_frames(all) =~= frame_bytes(frame.0, frame.1));
        assert(join_frames(frames) + frame_bytes(frame.0, frame.1) =~= frame_bytes(
            frame.0,
            frame.1,
        ));
    } else {
        assert(all.skip(1) =~= frames.skip(1).push(frame));
        join_push(frames.skip(1), frame);
        let first = frame_bytes(frames[0].0, frames[0].1);
        assert(first + (join_frames(frames.skip(1)) + frame_bytes(frame.0, frame.1)) =~= (first
            + join_frames(frames.skip(1))) + frame_bytes(frame.0, frame.1));
    }
}

/// Whole frames with one more whole frame behind them are whole frames.
pub proof fn split_append(done: Seq<u8>, next: Seq<u8>)
    requires
        split_frames(done) is Some,
        next.len() >= 5,
        frame_len(next, 0) <= MAX_FRAME_LEN,
        next.len() == 5 + frame_len(next, 0),
    ensures
        split_frames(done + next) == Some((split_frames(done)->0).push((next[4], next.skip(5)))),
{
    let frames = split_frames(done)->0;
    let frame: Frame = (next[4], next.skip(5));
    split_then_join(done);
    split_lens(done, 0);
    be_reads_back(next.subrange(0, 4));
    assert(frame_bytes(frame.0, frame.1) =~= next);
    join_push(frames, frame);
    let all = frames.push(frame);
    assert forall|i: int| 0 <= i < all.len() implies (#[trigger] all[i]).1.len()
        <= MAX_FRAME_LEN by {
        if i < frames.len() {
            assert(all[i] == frames[i]);
        }
    }
    join_then_split(all);
}

/// A row has at least five bytes for each frame.
proof fn count_bounded(buf: Seq<u8>)
    requires
        split_frames(buf) is Some,
    ensures
        5 * (split_frames(buf)->0).len() <= buf.len(),
{
    count_bounded_from(buf, 0);
}

proof fn count_bounded_from(buf: Seq<u8>, off: int)
    requires
        0 <= off <= buf.len(),
        split_from(buf, off) is Some,
    ensures
        5 * (split_from(buf, off)->0).len() <= buf.len() - off,
    decreases buf.len() - off,
{
    if off < buf.len() {
        let frame = frame_at(buf, off)->0;
        count_bounded_from(buf, off + 5 + frame.1.len());
    }
}

/// The time from `then` to `now` in nanoseconds; 0 where `then` is later.
pub open spec fn since(now: u64, then: u64) -> nat {
    if now > then {
        (now - then) as nat
    } else {
        0
    }
}

/// `bytes` in `nanos` nanoseconds are fewer than `rate` a second.
pub open spec fn slower(bytes: nat, nanos: nat, rate: nat) -> bool {
    bytes * 1_000_000_000 < rate * nanos
}

/// Whether `bytes` in `nanos` nanoseconds are fewer than `rate` a second.
pub fn is_slower(bytes: u64, nanos: u64, rate: u64) -> (r: bool)
    ensures
        r == slower(bytes as nat, nanos as nat, rate as nat),
{
    assert(bytes * 1_000_000_000 <= 0xffff_ffff_ffff_ffff * 1_000_000_000) by (nonlinear_arith)
        requires
            bytes <= 0xffff_ffff_ffff_ffff,
    ;
    assert(0 <= rate * nanos <= 0xffff_ffff_ffff_ffff * 0xffff_ffff_ffff_ffff)
        by (nonlinear_arith)
        requires
            rate <= 0xffff_ffff_ffff_ffff,
            nanos <= 0xffff_ffff_ffff_ffff,
    ;
    bytes as u128 * 1_000_000_000u128 < rate as u128 * nanos as u128
}

/// Why a capture failed.
pub enum CaptureError {
    HeaderFailed(String),
    HeaderTimeout,
    /// The first frame is no state: its length and type.
    NotServing(u32, u8),
    FrameTooLarge(u32),
    /// A large frame came too slowly: its length, and how much of it was there.
    SlowEarly(u32, usize),
    /// A large frame could not be read: its length, and how much of it was there.
    LargeRead(u32, usize),
    SmallRead(u32),
    TooLarge,
    SlowAfterState,
    EndedEarly,
}

/// The reason in words.
pub open spec fn capture_error_text(error: CaptureError) -> Seq<char> {
    match error {
        CaptureError::HeaderFailed(e) => "read header failed: "@ + e@,
        CaptureError::HeaderTimeout => "read header timeout"@,
        CaptureError::NotServing(len, typ) => "not serving abci_state first_len="@ + decimal(
            len as nat,
        ) + " type="@ + decimal(typ as nat),
        CaptureError::FrameTooLarge(len) => "frame too large len="@ + decimal(len as nat),
        CaptureError::SlowEarly(len, off) => "state-server too slow early len="@ + decimal(
            len as nat,
        ) + " off="@ + decimal(off as nat),
        CaptureError::LargeRead(len, off) => "large frame read failed len="@ + decimal(len as nat)
            + " off="@ + decimal(off as nat),
        CaptureError::SmallRead(len) => "small frame read failed len="@ + decimal(len as nat),
        CaptureError::TooLarge => "capture too large"@,
        CaptureError::SlowAfterState => "state-server too slow after abci_state"@,
        CaptureError::EndedEarly => "bulk ended before minimum usable size"@,
    }
}

impl CaptureError {
    /// The reason in words.
    pub fn reason(&self) -> (r: String)
        ensures
            r@ == capture_error_text(*self),
    {
        let mut r = String::new();
        match self {
            CaptureError::HeaderFailed(e) => {
                push_text(&mut r, "read header failed: ");
                push_text(&mut r, e.as_str());
            },
            CaptureError::HeaderTimeout => push_text(&mut r, "read header timeout"),
            CaptureError::NotServing(len, typ) => {
                push_text(&mut r, "not serving abci_state first_len=");
                push_decimal(&mut r, *len as u64);
                push_text(&mut r, " type=");
                push_decimal(&mut r, *typ as u64);
            },
            CaptureError::FrameTooLarge(len) => {
                push_text(&mut r, "frame too large len=");
                push_decimal(&mut r, *len as u64);
            },
            CaptureError::SlowEarly(len, off) => {
                push_text(&mut r, "state-server too slow early len=");
                push_decimal(&mut r, *len as u64);
                push_text(&mut r, " off=");
                push_decimal(&mut r, *off as u64);
            },
            CaptureError::LargeRead(len, off) => {
                push_text(&mut r, "large frame read failed len=");
                push_decimal(&mut r, *len as u64);
                push_text(&mut r, " off=");
                push_decimal(&mut r, *off as u64);
            },
            CaptureError::SmallRead(len) => {
                push_text(&mut r, "small frame read failed len=");
                push_decimal(&mut r, *len as u64);
            },
            CaptureError::TooLarge => push_text(&mut r, "capture too large"),
            CaptureError::SlowAfterState => push_text(
                &mut r,
                "state-server too slow after abci_state",
            ),
            CaptureError::EndedEarly => push_text(&mut r, "bulk ended before minimum usable size"),
        }
        assert(r@ =~= capture_error_text(*self));
        r
    }
}

/// The rate of a stream, taken window by window.
#[derive(Clone, Copy, Debug, PartialEq, Eq, Structural)]
pub struct RateWatch {
    /// When the window began, in nanoseconds.
    pub window_ns: u64,
    /// Bytes in the window.
    pub window_bytes: u64,
    /// Slow windows in a row.
    pub slow: u32,
}

/// The watch after a frame of `bytes` bytes at `now`, where the capture has `total` bytes: the
/// watch, and whether a window has just ended slow. A window that is long enough ends; it is slow
/// where the capture has got past the bulk size and the window's rate is a trickle.
pub open spec fn watched(watch: RateWatch, bytes: nat, total: nat, now: u64) -> (RateWatch, bool) {
    let window_bytes = watch.window_bytes + bytes;
    let elapsed = since(now, watch.window_ns);
    if elapsed < WINDOW_NS {
        (RateWatch { window_bytes: window_bytes as u64, ..watch }, false)
    } else if total > BULK_BYTES && slower(window_bytes as nat, elapsed, TRICKLE_RATE as nat) {
        (
            RateWatch {
                window_ns: now,
                window_bytes: 0,
                slow: if watch.slow < u32::MAX {
                    (watch.slow + 1) as u32
                } else {
                    u32::MAX
                },
            },
            true,
        )
    } else {
        (RateWatch { window_ns: now, window_bytes: 0, slow: 0 }, false)
    }
}

impl RateWatch {
    /// Takes in a frame; whether a window has just ended slow.
    pub fn note_frame(&mut self, bytes: u64, total: u64, now: u64) -> (r: bool)
        requires
            old(self).window_bytes + bytes <= u64::MAX,
        ensures
            (*final(self), r) == watched(*old(self), bytes as nat, total as nat, now),
    {
        self.window_bytes = self.window_bytes + bytes;
        let elapsed: u64 = now.saturating_sub(self.window_ns);
        if elapsed < WINDOW_NS {
            return false;
        }
        let slow = total > BULK_BYTES && is_slower(self.window_bytes, elapsed, TRICKLE_RATE);
        self.slow = if slow {
            self.slow.saturating_add(1)
        } else {
            0
        };
        self.window_ns = now;
        self.window_bytes = 0;
        slow
    }
}

/// What a capture does next.
pub enum CapturePhase {
    /// Read the five bytes of a header.
    Header,
    /// Read a piece of a large frame, up to the number of bytes that are missing.
    Piece { len: u32, begun_ns: u64 },
    /// Read the whole payload of a small frame.
    Whole { len: u32 },
    /// Nothing: the capture has all of a bootstrap.
    Captured,
    /// Nothing: the capture failed.
    Failed(CaptureError),
}

/// What came of a read.
pub enum CaptureEvent {
    /// It brought these bytes.
    Read(Vec<u8>),
    /// It did not happen in time.
    Timeout,
    /// It failed, or the peer had closed its side.
    Error(String),
}

/// Where a capture stands.
pub struct CaptureView {
    pub phase: CapturePhase,
    /// The whole frames so far.
    pub done: Seq<u8>,
    /// Their number.
    pub frames: nat,
    /// The beginning of the next frame.
    pub partial: Seq<u8>,
    pub watch: RateWatch,
}

/// The capture can be a whole bootstrap.
pub open spec fn enough(c: CaptureView) -> bool {
    c.done.len() >= 4_400_000_000 && c.frames >= 4_000
}

/// The capture with another phase.
pub open spec fn in_phase(c: CaptureView, phase: CapturePhase) -> CaptureView {
    CaptureView { phase, ..c }
}

/// The end of a capture when no more can be read: all of a bootstrap, or an error.
pub open spec fn capture_end(c: CaptureView, error: CaptureError) -> CaptureView {
    in_phase(
        c,
        if enough(c) {
            CapturePhase::Captured
        } else {
            CapturePhase::Failed(error)
        },
    )
}

/// The capture after its next frame became whole with `last`, at `now` (nanoseconds since the
/// capture began).
pub open spec fn frame_captured(c: CaptureView, last: Seq<u8>, now: u64) -> CaptureView {
    let frame = c.partial + last;
    let next = CaptureView {
        done: c.done + frame,
        frames: c.frames + 1,
        partial: Seq::empty(),
        ..c
    };
    let total = next.done.len();
    if total > MAX_BOOTSTRAP_CAPTURE_BYTES {
        in_phase(next, CapturePhase::Failed(CaptureError::TooLarge))
    } else if 900_000_000 <= total < 970_000_000 && slower(
        total,
        now as nat,
        MIN_BOOTSTRAP_RATE as nat,
    ) {
        in_phase(next, CapturePhase::Failed(CaptureError::SlowAfterState))
    } else {
        let (watch, slow) = watched(c.watch, frame.len(), total, now);
        let seen = CaptureView { watch, ..next };
        if slow && watch.slow >= SLOW_WINDOWS {
            capture_end(seen, CaptureError::EndedEarly)
        } else {
            in_phase(seen, CapturePhase::Header)
        }
    }
}

/// Where a capture goes from a phase on an event at `now`.
pub open spec fn capture_next(c: CaptureView, event: CaptureEvent, now: u64) -> CaptureView {
    match c.phase {
        CapturePhase::Header => match event {
            CaptureEvent::Error(e) => capture_end(c, CaptureError::HeaderFailed(e)),
            CaptureEvent::Timeout => capture_end(c, CaptureError::HeaderTimeout),
            CaptureEvent::Read(hdr) => {
                let len = frame_len(hdr@, 0) as u32;
                if c.frames == 0 && len <= MIN_STATE_FRAME {
                    in_phase(c, CapturePhase::Failed(CaptureError::NotServing(len, hdr@[4])))
                } else if len > MAX_FRAME_LEN {
                    in_phase(c, CapturePhase::Failed(CaptureError::FrameTooLarge(len)))
                } else if len == 0 {
                    frame_captured(c, hdr@, now)
                } else {
                    CaptureView {
                        phase: if len > LARGE_FRAME {
                            CapturePhase::Piece { len, begun_ns: now }
                        } else {
                            CapturePhase::Whole { len }
                        },
                        partial: hdr@,
                        ..c
                    }
                }
            },
        },
        CapturePhase::Piece { len, begun_ns } => match event {
            CaptureEvent::Read(bytes) if bytes@.len() > 0 => {
                let off = c.partial.len() - 5 + bytes@.len();
                let elapsed = since(now, begun_ns);
                if elapsed > RATE_GRACE_NS && slower(
                    off as nat,
                    elapsed,
                    MIN_BOOTSTRAP_RATE as nat,
                ) {
                    in_phase(c, CapturePhase::Failed(CaptureError::SlowEarly(len, off as usize)))
                } else if off == len {
                    frame_captured(c, bytes@, now)
                } else {
                    CaptureView { partial: c.partial + bytes@, ..c }
                }
            },
            _ => in_phase(
                c,
                CapturePhase::Failed(CaptureError::LargeRead(len, (c.partial.len() - 5) as usize)),
            ),
        },
        CapturePhase::Whole { len } => match event {
            CaptureEvent::Read(bytes) => frame_captured(c, bytes@, now),
            _ => in_phase(c, CapturePhase::Failed(CaptureError::SmallRead(len))),
        },
        _ => c,
    }
}

/// The bytes of an event fit the phase: five for a header, no more than are missing for a piece,
/// all that are missing for a small frame.
pub open spec fn capture_event_fits(c: CaptureView, event: CaptureEvent) -> bool {
    match (c.phase, event) {
        (CapturePhase::Header, CaptureEvent::Read(bytes)) => bytes@.len() == 5,
        (CapturePhase::Piece { len, .. }, CaptureEvent::Read(bytes)) => c.partial.len() + bytes@.len()
            <= 5 + len,
        (CapturePhase::Whole { len }, CaptureEvent::Read(bytes)) => bytes@.len() == len,
        _ => true,
    }
}

/// A capture of a bootstrap from one peer.
pub struct BootstrapCapture {
    phase: CapturePhase,
    row: FrameRow,
    watch: RateWatch,
}

impl View for BootstrapCapture {
    type V = CaptureView;

    closed spec fn view(&self) -> CaptureView {
        CaptureView {
            phase: self.phase,
            done: self.row.done(),
            frames: self.row.frames() as nat,
            partial: self.row.partial(),
            watch: self.watch,
        }
    }
}

/// The header at the start of `bytes` announces a frame that is long enough for a state.
pub open spec fn starts_with_state(bytes: Seq<u8>) -> bool {
    bytes.len() >= 5 && frame_len(bytes, 0) > MIN_STATE_FRAME
}

/// A row with no frames has no bytes.
proof fn no_frames_no_bytes(done: Seq<u8>)
    requires
        split_frames(done) matches Some(frames) && frames.len() == 0,
    ensures
        done.len() == 0,
{
    if done.len() > 0 {
        let frame = frame_at(done, 0)->0;
        let rest = split_from(done, 5 + frame.1.len() as int)->0;
        assert((seq![frame] + rest).len() > 0);
    }
}

/// The frame that becomes whole next keeps a state at the start: it is the state, or stands behind
/// it.
proof fn state_stays_first(done: Seq<u8>, frames: nat, partial: Seq<u8>, last: Seq<u8>)
    requires
        split_frames(done) matches Some(row) && row.len() == frames,
        frames > 0 ==> starts_with_state(done),
        frames == 0 ==> starts_with_state(partial),
    ensures
        starts_with_state(done + (partial + last)),
{
    let all = done + (partial + last);
    if frames == 0 {
        no_frames_no_bytes(done);
        assert(all.subrange(0, 4) =~= partial.subrange(0, 4));
    } else {
        assert(all.subrange(0, 4) =~= done.subrange(0, 4));
    }
}

impl BootstrapCapture {
    /// The frames so far are whole, the first of them is a state, the next one is begun just where
    /// its payload is being read, and a capture that is done has all of a bootstrap and no more
    /// than fits in one.
    pub open spec fn well_formed(&self) -> bool {
        let c = self@;
        &&& self.row_well_formed()
        &&& split_frames(c.done) matches Some(frames) && frames.len() == c.frames
        &&& c.watch.window_bytes <= c.done.len()
        &&& c.phase is Header ==> c.partial.len() == 0 && c.done.len()
            <= MAX_BOOTSTRAP_CAPTURE_BYTES
        &&& c.phase matches CapturePhase::Piece { len, .. } ==> c.partial.len() >= 5 && frame_len(
            c.partial,
            0,
        ) == len && c.partial.len() < 5 + len && c.done.len() <= MAX_BOOTSTRAP_CAPTURE_BYTES
        &&& c.phase matches CapturePhase::Whole { len } ==> c.partial.len() == 5 && frame_len(
            c.partial,
            0,
        ) == len && len > 0 && c.done.len() <= MAX_BOOTSTRAP_CAPTURE_BYTES
        &&& c.frames > 0 ==> starts_with_state(c.done)
        &&& c.frames == 0 && (c.phase is Piece || c.phase is Whole) ==> starts_with_state(c.partial)
        &&& c.phase is Captured ==> enough(c) && c.done.len() <= MAX_BOOTSTRAP_CAPTURE_BYTES
    }

    /// The row of frames is well formed.
    pub closed spec fn row_well_formed(&self) -> bool {
        self.row.well_formed()
    }

    /// A capture that has greeted its peer, with room for `capacity` bytes.
    pub fn new(capacity: usize) -> (r: BootstrapCapture)
        requires
            capacity <= isize::MAX,
        ensures
            r.well_formed(),
            r@ == fresh_capture(),
    {
        BootstrapCapture {
            phase: CapturePhase::Header,
            row: FrameRow::new(capacity),
            watch: RateWatch { window_ns: 0, window_bytes: 0, slow: 0 },
        }
    }

    /// What to do next.
    pub fn phase(&self) -> (r: &CapturePhase)
        ensures
            *r == self@.phase,
    {
        &self.phase
    }

    /// Payload bytes that the frame being read lacks.
    pub fn missing(&self) -> (r: usize)
        requires
            self.well_formed(),
        ensures
            r == if self@.partial.len() == 0 {
                0
            } else {
                5 + frame_len(self@.partial, 0) - self@.partial.len()
            },
    {
        self.row.missing_len()
    }

    /// Bytes of the whole frames.
    pub fn bytes(&self) -> (r: u64)
        ensures
            r == self@.done.len(),
    {
        self.row.done_len()
    }

    /// Number of the whole frames.
    pub fn frames(&self) -> (r: u64)
        ensures
            r == self@.frames,
    {
        self.row.frame_count()
    }

    /// The bootstrap of a capture that has all of it: whole frames, as many as a cache file must
    /// have and no more than a capture may take, the first of them a state. `None` where it has
    /// not.
    pub fn into_blob(self) -> (r: Option<Vec<u8>>)
        requires
            self.well_formed(),
        ensures
            match r {
                Some(blob) => {
                    &&& self@.phase is Captured
                    &&& blob@ == self@.done
                    &&& blob_outcome(blob@) is Ok
                    &&& blob@.len() <= MAX_BOOTSTRAP_CAPTURE_BYTES
                    &&& frame_len(blob@, 0) > MIN_STATE_FRAME
                },
                None => !(self@.phase is Captured),
            },
    {
        match self.phase {
            CapturePhase::Captured => Some(self.row.into_blob()),
            _ => None,
        }
    }

    fn end(&mut self, error: CaptureError)
        ensures
            final(self)@ == capture_end(old(self)@, error),
            final(self).row_well_formed() == old(self).row_well_formed(),
    {
        if self.row.is_complete() {
            self.phase = CapturePhase::Captured;
        } else {
            self.phase = CapturePhase::Failed(error);
        }
    }

    fn fail(&mut self, error: CaptureError)
        ensures
            final(self)@ == in_phase(old(self)@, CapturePhase::Failed(error)),
            final(self).row_well_formed() == old(self).row_well_formed(),
    {
        self.phase = CapturePhase::Failed(error);
    }

    /// Looks at the capture after a frame of `bytes` bytes became whole.
    fn weigh(&mut self, bytes: u64, now: u64)
        requires
            old(self).row_well_formed(),
            old(self)@.watch.window_bytes + bytes <= old(self)@.done.len(),
            old(self)@.partial.len() == 0,
            starts_with_state(old(self)@.done),
        ensures
            final(self).well_formed(),
            ({
                let next = old(self)@;
                let total = next.done.len();
                final(self)@ == if total > MAX_BOOTSTRAP_CAPTURE_BYTES {
                    in_phase(next, CapturePhase::Failed(CaptureError::TooLarge))
                } else if 900_000_000 <= total < 970_000_000 && slower(
                    total,
                    now as nat,
                    MIN_BOOTSTRAP_RATE as nat,
                ) {
                    in_phase(next, CapturePhase::Failed(CaptureError::SlowAfterState))
                } else {
                    let (watch, slow) = watched(next.watch, bytes as nat, total, now);
                    let seen = CaptureView { watch, ..next };
                    if slow && watch.slow >= SLOW_WINDOWS {
                        capture_end(seen, CaptureError::EndedEarly)
                    } else {
                        in_phase(seen, CapturePhase::Header)
                    }
                }
            }),
    {
        let total: u64 = self.row.done_len();
        if total > MAX_BOOTSTRAP_CAPTURE_BYTES {
            self.fail(CaptureError::TooLarge);
            return;
        }
        if total >= 900_000_000 && total < 970_000_000 && is_slower(
            total,
            now,
            MIN_BOOTSTRAP_RATE,
        ) {
            self.fail(CaptureError::SlowAfterState);
            return;
        }
        let slow = self.watch.note_frame(bytes, total, now);
        if slow && self.watch.slow >= SLOW_WINDOWS {
            self.end(CaptureError::EndedEarly);
        } else {
            self.phase = CapturePhase::Header;
        }
    }

    fn take_header(&mut self, hdr: Vec<u8>, now: u64)
        requires
            old(self).well_formed(),
            old(self)@.phase is Header,
            hdr@.len() == 5,
        ensures
            final(self).well_formed(),
            final(self)@ == capture_next(old(self)@, CaptureEvent::Read(hdr), now),
    {
        let len: u32 = read_frame_len(hdr.as_slice(), 0);
        let frames: u64 = self.row.frame_count();
        if frames == 0 && len <= MIN_STATE_FRAME {
            self.fail(CaptureError::NotServing(len, hdr[4]));
            return;
        }
        if len > MAX_FRAME_LEN {
            self.fail(CaptureError::FrameTooLarge(len));
            return;
        }
        if self.row.begin(hdr.as_slice()) {
            assert(Seq::<u8>::empty() + hdr@ =~= hdr@);
            proof {
                let c = old(self)@;
                state_stays_first(c.done, c.frames, c.partial, hdr@);
            }
            self.weigh(5, now);
        } else if len > LARGE_FRAME {
            self.phase = CapturePhase::Piece { len, begun_ns: now };
        } else {
            self.phase = CapturePhase::Whole { len };
        }
    }

    fn take_payload(&mut self, bytes: &[u8], now: u64)
        requires
            old(self).well_formed(),
            old(self)@.partial.len() > 0,
            old(self)@.phase is Piece || old(self)@.phase is Whole,
            bytes@.len() == 5 + frame_len(old(self)@.partial, 0) - old(self)@.partial.len(),
        ensures
            final(self).well_formed(),
            final(self)@ == frame_captured(old(self)@, bytes@, now),
    {
        let len: u64 = bytes.len() as u64 + self.partial_len();
        let whole = self.row.take(bytes);
        assert(whole);
        proof {
            let c = old(self)@;
            assert(c.done + c.partial + bytes@ =~= c.done + (c.partial + bytes@));
            state_stays_first(c.done, c.frames, c.partial, bytes@);
        }
        self.weigh(len, now);
    }

    fn partial_len(&self) -> (r: u64)
        requires
            self.row_well_formed(),
        ensures
            r == self@.partial.len(),
    {
        self.row.partial.len() as u64
    }

    /// Takes what came of the last read, at `now` (nanoseconds since the capture began).
    pub fn step(&mut self, event: CaptureEvent, now: u64)
        requires
            old(self).well_formed(),
            capture_event_fits(old(self)@, event),
        ensures
            final(self).well_formed(),
            final(self)@ == capture_next(old(self)@, event, now),
    {
        match &self.phase {
            CapturePhase::Header => match event {
                CaptureEvent::Error(e) => self.end(CaptureError::HeaderFailed(e)),
                CaptureEvent::Timeout => self.end(CaptureError::HeaderTimeout),
                CaptureEvent::Read(hdr) => self.take_header(hdr, now),
            },
            CapturePhase::Piece { len, begun_ns } => {
                let len: u32 = *len;
                let begun_ns: u64 = *begun_ns;
                let had: usize = len as usize - self.row.missing_len();
                match event {
                    CaptureEvent::Read(bytes) => {
                        if bytes.len() == 0 {
                            self.fail(CaptureError::LargeRead(len, had));
                            return;
                        }
                        let off: usize = had + bytes.len();
                        let elapsed: u64 = now.saturating_sub(begun_ns);
                        if elapsed > RATE_GRACE_NS && is_slower(
                            off as u64,
                            elapsed,
                            MIN_BOOTSTRAP_RATE,
                        ) {
                            self.fail(CaptureError::SlowEarly(len, off));
                            return;
                        }
                        if off == len as usize {
                            self.take_payload(bytes.as_slice(), now);
                        } else {
                            let whole = self.row.take(bytes.as_slice());
                            assert(!whole);
                            assert(self@.partial.subrange(0, 4) =~= old(self)@.partial.subrange(
                                0,
                                4,
                            ));
                        }
                    },
                    _ => self.fail(CaptureError::LargeRead(len, had)),
                }
            },
            CapturePhase::Whole { len } => {
                let len: u32 = *len;
                match event {
                    CaptureEvent::Read(bytes) => self.take_payload(bytes.as_slice(), now),
                    _ => self.fail(CaptureError::SmallRead(len)),
                }
            },
            _ => {},
        }
    }
}

/// What a tap does next. Everything that is read goes to the node as well.
#[derive(Clone, Copy, Debug, PartialEq, Eq, Structural)]
pub enum TapPhase {
    /// Read the five bytes of a header; with a time limit where the tap could end here.
    Header { timed: bool },
    /// Read payload, up to so many bytes.
    Payload { remaining: usize },
    /// Nothing: the relay from the peer is over.
    Over,
}

/// What came of a read, or of passing it on.
pub enum TapEvent {
    /// A header came.
    Header(Vec<u8>),
    /// Payload came.
    Payload(Vec<u8>),
    /// The time limit for a header ran out.
    Timeout,
    /// The read failed, the peer had closed its side, or the node is gone.
    Lost,
}

/// Where a tap stands.
pub struct TapView {
    pub phase: TapPhase,
    /// Whether it still captures.
    pub capturing: bool,
    /// The whole frames so far, the beginning of the next one and the number of the whole ones,
    /// while it captures.
    pub done: Seq<u8>,
    pub partial: Seq<u8>,
    pub frames: nat,
    pub watch: RateWatch,
}

/// The whole frames of a tap can be a whole bootstrap.
pub open spec fn tap_enough(t: TapView) -> bool {
    t.done.len() >= 4_400_000_000 && t.frames >= 4_000
}

/// A tap that goes on with the next header. It has a time limit where the tap could end there.
pub open spec fn tap_header(t: TapView) -> TapView {
    TapView { phase: TapPhase::Header { timed: t.capturing && tap_enough(t) }, ..t }
}

/// A tap that has stopped to capture.
pub open spec fn tap_released(t: TapView) -> TapView {
    TapView { capturing: false, done: Seq::empty(), partial: Seq::empty(), frames: 0, ..t }
}

/// A tap at its end.
pub open spec fn tap_over(t: TapView) -> TapView {
    TapView { phase: TapPhase::Over, ..t }
}

/// The tap after its next frame became whole with `last`, at `now` (nanoseconds since the relay
/// began), and the bootstrap that it has captured with it, if it has.
pub open spec fn frame_tapped(t: TapView, last: Seq<u8>, now: u64) -> (TapView, Option<Seq<u8>>) {
    if !t.capturing {
        (tap_header(t), None)
    } else {
        let frame = t.partial + last;
        let next = TapView {
            done: t.done + frame,
            partial: Seq::empty(),
            frames: t.frames + 1,
            ..t
        };
        if next.done.len() > MAX_BOOTSTRAP_CAPTURE_BYTES {
            (tap_header(tap_released(next)), None)
        } else {
            let (watch, slow) = watched(t.watch, frame.len(), next.done.len(), now);
            let seen = TapView { watch, ..next };
            if slow && watch.slow >= SLOW_WINDOWS && tap_enough(seen) {
                (tap_header(tap_released(seen)), Some(seen.done))
            } else {
                (tap_header(seen), None)
            }
        }
    }
}

/// Where a tap goes from a phase on an event at `now`, and the bootstrap that it has captured with
/// it, if it has.
pub open spec fn tap_next(t: TapView, event: TapEvent, now: u64) -> (TapView, Option<Seq<u8>>) {
    match (t.phase, event) {
        (TapPhase::Header { .. }, TapEvent::Header(hdr)) => {
            let len = frame_len(hdr@, 0);
            if len > MAX_FRAME_LEN {
                (tap_over(t), None)
            } else if len == 0 {
                frame_tapped(t, hdr@, now)
            } else {
                (
                    TapView {
                        phase: TapPhase::Payload { remaining: len as usize },
                        partial: if t.capturing {
                            hdr@
                        } else {
                            Seq::empty()
                        },
                        ..t
                    },
                    None,
                )
            }
        },
        (TapPhase::Header { timed: true }, TapEvent::Timeout) => (
            tap_header(tap_released(t)),
            Some(t.done),
        ),
        (TapPhase::Header { timed: true }, TapEvent::Lost) => (
            tap_over(tap_released(t)),
            Some(t.done),
        ),
        (TapPhase::Payload { remaining }, TapEvent::Payload(bytes)) => if bytes@.len()
            > remaining {
            (tap_over(t), None)
        } else if bytes@.len() == remaining {
            frame_tapped(t, bytes@, now)
        } else {
            (
                TapView {
                    phase: TapPhase::Payload { remaining: (remaining - bytes@.len()) as usize },
                    partial: if t.capturing {
                        t.partial + bytes@
                    } else {
                        Seq::empty()
                    },
                    ..t
                },
                None,
            )
        },
        (TapPhase::Over, _) => (t, None),
        _ => (tap_over(t), None),
    }
}

/// A header has five bytes.
pub open spec fn tap_event_fits(event: TapEvent) -> bool {
    event matches TapEvent::Header(hdr) ==> hdr@.len() == 5
}

/// A tap on a bootstrap that is relayed from a peer to a node.
pub struct CaptureTap {
    phase: TapPhase,
    capturing: bool,
    row: FrameRow,
    watch: RateWatch,
}

impl View for CaptureTap {
    type V = TapView;

    closed spec fn view(&self) -> TapView {
        TapView {
            phase: self.phase,
            capturing: self.capturing,
            done: self.row.done(),
            partial: self.row.partial(),
            frames: self.row.frames() as nat,
            watch: self.watch,
        }
    }
}

impl CaptureTap {
    /// The captured frames are whole, the next one is begun just where its payload is being read,
    /// and a header has a time limit just where the tap could end there.
    pub open spec fn well_formed(&self) -> bool {
        let t = self@;
        &&& self.row_well_formed()
        &&& split_frames(t.done) matches Some(frames) && frames.len() == t.frames
        &&& t.capturing ==> t.watch.window_bytes <= t.done.len() <= MAX_BOOTSTRAP_CAPTURE_BYTES
        &&& !t.capturing ==> t.done.len() == 0 && t.partial.len() == 0 && t.frames == 0
        &&& t.phase matches TapPhase::Header { timed } ==> t.partial.len() == 0 && timed == (
        t.capturing && tap_enough(t))
        &&& t.phase matches TapPhase::Payload { remaining } ==> {
            &&& remaining > 0
            &&& t.capturing ==> t.partial.len() >= 5 && t.partial.len() + remaining == 5 + frame_len(
                t.partial,
                0,
            )
        }
    }

    /// The row of frames is well formed.
    pub closed spec fn row_well_formed(&self) -> bool {
        self.row.well_formed()
    }

    /// A tap that captures, with room for `capacity` bytes.
    pub fn new(capacity: usize) -> (r: CaptureTap)
        requires
            capacity <= isize::MAX,
        ensures
            r.well_formed(),
            r@ == (TapView {
                phase: TapPhase::Header { timed: false },
                capturing: true,
                done: Seq::empty(),
                partial: Seq::empty(),
                frames: 0,
                watch: RateWatch { window_ns: 0, window_bytes: 0, slow: 0 },
            }),
    {
        CaptureTap {
            phase: TapPhase::Header { timed: false },
            capturing: true,
            row: FrameRow::new(capacity),
            watch: RateWatch { window_ns: 0, window_bytes: 0, slow: 0 },
        }
    }

    /// What to do next.
    pub fn phase(&self) -> (r: TapPhase)
        ensures
            r == self@.phase,
    {
        self.phase
    }

    /// Whether the tap still captures.
    pub fn is_capturing(&self) -> (r: bool)
        ensures
            r == self@.capturing,
    {
        self.capturing
    }

    /// Stops to capture and hands the whole frames out.
    fn release(&mut self) -> (r: Vec<u8>)
        requires
            old(self).row_well_formed(),
        ensures
            final(self).row_well_formed(),
            final(self)@ == tap_released(old(self)@),
            r@ == old(self)@.done,
    {
        let mut row = FrameRow::new(0);
        std::mem::swap(&mut row, &mut self.row);
        self.capturing = false;
        row.into_blob()
    }

    fn next_header(&mut self)
        ensures
            final(self)@ == tap_header(old(self)@),
            final(self).row_well_formed() == old(self).row_well_formed(),
    {
        let timed = self.capturing && self.row.is_complete();
        self.phase = TapPhase::Header { timed };
    }

    /// Looks at the capture after a frame of `bytes` bytes became whole.
    fn weigh(&mut self, bytes: u64, now: u64) -> (r: Option<Vec<u8>>)
        requires
            old(self).row_well_formed(),
            old(self)@.capturing,
            old(self)@.partial.len() == 0,
            old(self)@.watch.window_bytes + bytes <= old(self)@.done.len(),
        ensures
            final(self).well_formed(),
            r matches Some(blob) ==> blob_outcome(blob@) is Ok && !final(self)@.capturing,
            ({
                let next = old(self)@;
                let (watch, slow) = watched(next.watch, bytes as nat, next.done.len(), now);
                let seen = TapView { watch, ..next };
                if next.done.len() > MAX_BOOTSTRAP_CAPTURE_BYTES {
                    final(self)@ == tap_header(tap_released(next)) && r is None
                } else if slow && watch.slow >= SLOW_WINDOWS && tap_enough(seen) {
                    &&& final(self)@ == tap_header(tap_released(seen))
                    &&& r matches Some(blob) && blob@ == next.done
                } else {
                    final(self)@ == tap_header(seen) && r is None
                }
            }),
    {
        let total: u64 = self.row.done_len();
        if total > MAX_BOOTSTRAP_CAPTURE_BYTES {
            self.release();
            self.next_header();
            return None;
        }
        let slow = self.watch.note_frame(bytes, total, now);
        if slow && self.watch.slow >= SLOW_WINDOWS && self.row.is_complete() {
            let blob = self.release();
            self.next_header();
            return Some(blob);
        }
        self.next_header();
        None
    }

    fn take_header(&mut self, hdr: Vec<u8>, now: u64) -> (r: Option<Vec<u8>>)
        requires
            old(self).well_formed(),
            old(self)@.phase is Header,
            hdr@.len() == 5,
        ensures
            final(self).well_formed(),
            tap_outcome((final(self)@, r), tap_next(old(self)@, TapEvent::Header(hdr), now)),
            r matches Some(blob) ==> blob_outcome(blob@) is Ok && !final(self)@.capturing,
    {
        let len: u32 = read_frame_len(hdr.as_slice(), 0);
        if len > MAX_FRAME_LEN {
            self.phase = TapPhase::Over;
            return None;
        }
        if !self.capturing {
            assert(self@.partial =~= Seq::<u8>::empty());
            if len == 0 {
                self.next_header();
            } else {
                self.phase = TapPhase::Payload { remaining: len as usize };
            }
            return None;
        }
        if self.row.begin(hdr.as_slice()) {
            assert(Seq::<u8>::empty() + hdr@ =~= hdr@);
            return self.weigh(5, now);
        }
        self.phase = TapPhase::Payload { remaining: len as usize };
        None
    }

    fn take_payload(&mut self, bytes: Vec<u8>, now: u64) -> (r: Option<Vec<u8>>)
        requires
            old(self).well_formed(),
            old(self)@.phase is Payload,
        ensures
            final(self).well_formed(),
            tap_outcome((final(self)@, r), tap_next(old(self)@, TapEvent::Payload(bytes), now)),
            r matches Some(blob) ==> blob_outcome(blob@) is Ok && !final(self)@.capturing,
    {
        let remaining: usize = match self.phase {
            TapPhase::Payload { remaining } => remaining,
            _ => 0,
        };
        if bytes.len() > remaining {
            self.phase = TapPhase::Over;
            return None;
        }
        if !self.capturing {
            assert(self@.partial =~= Seq::<u8>::empty());
            if bytes.len() == remaining {
                self.next_header();
            } else {
                self.phase = TapPhase::Payload { remaining: remaining - bytes.len() };
            }
            return None;
        }
        let had: u64 = self.row.partial.len() as u64;
        let whole = self.row.take(bytes.as_slice());
        if whole {
            proof {
                let t = old(self)@;
                assert(t.done + t.partial + bytes@ =~= t.done + (t.partial + bytes@));
            }
            return self.weigh(had + bytes.len() as u64, now);
        }
        assert(self@.partial.subrange(0, 4) =~= old(self)@.partial.subrange(0, 4));
        self.phase = TapPhase::Payload { remaining: remaining - bytes.len() };
        None
    }

    /// Takes what came, at `now` (nanoseconds since the relay began). Returns the bootstrap that
    /// is captured with it, if one is; it is whole frames, and as many as a cache file must have.
    pub fn step(&mut self, event: TapEvent, now: u64) -> (r: Option<Vec<u8>>)
        requires
            old(self).well_formed(),
            tap_event_fits(event),
        ensures
            final(self).well_formed(),
            tap_outcome((final(self)@, r), tap_next(old(self)@, event, now)),
            r matches Some(blob) ==> blob_outcome(blob@) is Ok && !final(self)@.capturing,
    {
        match self.phase {
            TapPhase::Header { timed } => match event {
                TapEvent::Header(hdr) => self.take_header(hdr, now),
                TapEvent::Timeout => {
                    if timed {
                        let blob = self.release();
                        self.next_header();
                        Some(blob)
                    } else {
                        self.phase = TapPhase::Over;
                        None
                    }
                },
                TapEvent::Lost => {
                    if timed {
                        let blob = self.release();
                        self.phase = TapPhase::Over;
                        Some(blob)
                    } else {
                        self.phase = TapPhase::Over;
                        None
                    }
                },
                TapEvent::Payload(_) => {
                    self.phase = TapPhase::Over;
                    None
                },
            },
            TapPhase::Payload { remaining } => match event {
                TapEvent::Payload(bytes) => self.take_payload(bytes, now),
                _ => {
                    self.phase = TapPhase::Over;
                    None
                },
            },
            TapPhase::Over => None,
        }
    }
}

/// A state and a captured bootstrap are those that a step says.
pub open spec fn tap_outcome(got: (TapView, Option<Vec<u8>>), want: (TapView, Option<Seq<u8>>)) -> bool {
    &&& got.0 == want.0
    &&& match (got.1, want.1) {
        (Some(blob), Some(bytes)) => blob@ == bytes,
        (None, None) => true,
        _ => false,
    }
}

/// The bytes of an event.
pub open spec fn tap_bytes(event: TapEvent) -> Seq<u8> {
    match event {
        TapEvent::Header(bytes) | TapEvent::Payload(bytes) => bytes@,
        _ => Seq::empty(),
    }
}

/// A capture is verbatim: as long as a tap captures it holds, in order and without change, every
/// byte that came, and the bootstrap that it yields is just those bytes.
pub proof fn tap_is_verbatim(t: TapView, event: TapEvent, now: u64)
    requires
        t.capturing,
        t.phase is Header ==> t.partial.len() == 0,
    ensures
        ({
            let (next, blob) = tap_next(t, event, now);
            &&& next.capturing && !(next.phase is Over) ==> next.done + next.partial == t.done
                + t.partial + tap_bytes(event)
            &&& blob matches Some(bytes) ==> bytes == t.done + t.partial + tap_bytes(event)
        }),
{
    let (next, blob) = tap_next(t, event, now);
    let all = t.done + t.partial + tap_bytes(event);
    assert(t.done + (t.partial + tap_bytes(event)) =~= all);
    assert(t.done + t.partial =~= t.done + (t.partial + Seq::<u8>::empty()));
    if t.phase is Header {
        assert(t.partial =~= Seq::empty());
        assert(t.done + tap_bytes(event) =~= all);
        assert(t.done + (Seq::<u8>::empty() + tap_bytes(event)) =~= all);
        assert(t.done =~= t.done + t.partial + Seq::<u8>::empty());
    }
    assert(all + Seq::<u8>::empty() =~= all);
}

/// A capture that goes on holds, in order and without change, every byte that came.
pub proof fn capture_is_verbatim(c: CaptureView, bytes: Vec<u8>, now: u64)
    requires
        c.phase is Header ==> c.partial.len() == 0,
        c.phase is Header || c.phase is Piece || c.phase is Whole,
    ensures
        ({
            let next = capture_next(c, CaptureEvent::Read(bytes), now);
            !(next.phase is Failed) ==> next.done + next.partial == c.done + c.partial + bytes@
        }),
{
    let next = capture_next(c, CaptureEvent::Read(bytes), now);
    let all = c.done + c.partial + bytes@;
    assert(c.done + (c.partial + bytes@) =~= all);
    assert(all + Seq::<u8>::empty() =~= all);
    if c.phase is Header {
        assert(c.partial =~= Seq::empty());
        assert(c.done + bytes@ =~= all);
        assert(c.done + (Seq::<u8>::empty() + bytes@) =~= all);
    }
}

/// A capture that has greeted its peer and read nothing yet.
pub open spec fn fresh_capture() -> CaptureView {
    CaptureView {
        phase: CapturePhase::Header,
        done: Seq::empty(),
        frames: 0,
        partial: Seq::empty(),
        watch: RateWatch { window_ns: 0, window_bytes: 0, slow: 0 },
    }
}

/// A capture after a row of reads, each with its time, first to last.
pub open spec fn capture_after(reads: Seq<(Vec<u8>, u64)>) -> CaptureView
    decreases reads.len(),
{
    if reads.len() == 0 {
        fresh_capture()
    } else {
        capture_next(
            capture_after(reads.drop_last()),
            CaptureEvent::Read(reads.last().0),
            reads.last().1,
        )
    }
}

/// All bytes of a row of reads.
pub open spec fn bytes_read(reads: Seq<(Vec<u8>, u64)>) -> Seq<u8>
    decreases reads.len(),
{
    if reads.len() == 0 {
        Seq::empty()
    } else {
        bytes_read(reads.drop_last()) + reads.last().0@
    }
}

/// The capture still reads.
pub open spec fn reading(c: CaptureView) -> bool {
    c.phase is Header || c.phase is Piece || c.phase is Whole
}

/// What a capture holds in the end is all that it has read, from the first byte to the last, as
/// long as it has not failed.
pub proof fn captured_is_what_came(reads: Seq<(Vec<u8>, u64)>)
    requires
        forall|k: int|
            0 <= k < reads.len() ==> reading(capture_after(#[trigger] reads.take(k))),
    ensures
        ({
            let c = capture_after(reads);
            &&& !(c.phase is Failed) ==> c.done + c.partial == bytes_read(reads)
            &&& c.phase is Captured ==> c.done == bytes_read(reads)
            &&& c.phase is Header || c.phase is Captured ==> c.partial.len() == 0
        }),
    decreases reads.len(),
{
    if reads.len() > 0 {
        let before = reads.drop_last();
        assert(reads.take(reads.len() - 1) =~= before);
        assert forall|k: int| 0 <= k < before.len() implies reading(
            capture_after(#[trigger] before.take(k)),
        ) by {
            assert(before.take(k) =~= reads.take(k));
        }
        captured_is_what_came(before);
        capture_is_verbatim(capture_after(before), reads.last().0, reads.last().1);
        let c = capture_after(reads);
        if c.phase is Captured {
            assert(c.partial =~= Seq::empty());
            assert(c.done + c.partial =~= c.done);
        }
    } else {
        assert(fresh_capture().done + fresh_capture().partial =~= Seq::empty());
    }
}

/// A tap that no longer captures never yields a bootstrap again.
pub proof fn tap_yields_once(t: TapView, event: TapEvent, now: u64)
    requires
        !t.capturing,
        t.phase matches TapPhase::Header { timed } ==> !timed,
    ensures
        tap_next(t, event, now).1 is None,
        !tap_next(t, event, now).0.capturing,
        tap_next(t, event, now).0.phase matches TapPhase::Header { timed } ==> !timed,
{
}

/// The captures that a race has under way and those it can still begin.
pub struct CaptureRace {
    peers: usize,
    next: usize,
    in_flight: usize,
    limit: usize,
}

/// A race: the number of peers, how many have been tried, how many are under way, and how many
/// may be.
pub type RaceView = (nat, nat, nat, nat);

/// The race with one more attempt, where there is a peer left.
pub open spec fn race_launched(race: RaceView) -> RaceView {
    if race.1 < race.0 {
        (race.0, race.1 + 1, race.2 + 1, race.3)
    } else {
        race
    }
}

impl View for CaptureRace {
    type V = RaceView;

    closed spec fn view(&self) -> RaceView {
        (self.peers as nat, self.next as nat, self.in_flight as nat, self.limit as nat)
    }
}

impl CaptureRace {
    /// No peer is tried twice, no more are under way than were tried, and no more than may be (but
    /// always one).
    pub open spec fn well_formed(&self) -> bool {
        let (peers, tried, in_flight, limit) = self@;
        &&& tried <= peers
        &&& in_flight <= tried
        &&& in_flight <= limit || in_flight <= 1
    }

    /// A race between so many peers, the first of which is tried at once. `None` without peers.
    pub fn new(peers: usize, max_inflight: usize) -> (r: Option<CaptureRace>)
        ensures
            match r {
                Some(race) => {
                    &&& peers > 0
                    &&& race.well_formed()
                    &&& race@ == (peers as nat, 1nat, 1nat, max_inflight as nat)
                },
                None => peers == 0,
            },
    {
        if peers == 0 {
            None
        } else {
            Some(CaptureRace { peers, next: 1, in_flight: 1, limit: max_inflight })
        }
    }

    fn launch(&mut self) -> (r: Option<usize>)
        requires
            old(self)@.1 <= old(self)@.0,
            old(self)@.2 <= old(self)@.1,
        ensures
            final(self)@ == race_launched(old(self)@),
            r == if old(self)@.1 < old(self)@.0 {
                Some(old(self)@.1 as usize)
            } else {
                None
            },
    {
        if self.next < self.peers {
            let i: usize = self.next;
            self.next = self.next + 1;
            self.in_flight = self.in_flight + 1;
            Some(i)
        } else {
            None
        }
    }

    /// Whether all peers have been tried and none is under way: the race is lost.
    pub fn is_lost(&self) -> (r: bool)
        ensures
            r == (self@.2 == 0 && self@.1 >= self@.0),
    {
        self.in_flight == 0 && self.next >= self.peers
    }

    /// Whether another attempt may be added beside those under way.
    pub fn may_hedge(&self) -> (r: bool)
        ensures
            r == (self@.2 < self@.3 && self@.1 < self@.0),
    {
        self.in_flight < self.limit && self.next < self.peers
    }

    /// An attempt failed; the peer to try in its place.
    pub fn attempt_failed(&mut self) -> (r: Option<usize>)
        requires
            old(self).well_formed(),
            old(self)@.2 > 0,
        ensures
            final(self).well_formed(),
            final(self)@ == race_launched(
                (old(self)@.0, old(self)@.1, (old(self)@.2 - 1) as nat, old(self)@.3),
            ),
            r == if old(self)@.1 < old(self)@.0 {
                Some(old(self)@.1 as usize)
            } else {
                None
            },
    {
        self.in_flight = self.in_flight - 1;
        self.launch()
    }

    /// No attempt has won for a while; the peer to try beside those under way.
    pub fn hedge(&mut self) -> (r: Option<usize>)
        requires
            old(self).well_formed(),
        ensures
            final(self).well_formed(),
            final(self)@ == if old(self)@.2 < old(self)@.3 {
                race_launched(old(self)@)
            } else {
                old(self)@
            },
            r == if old(self)@.2 < old(self)@.3 && old(self)@.1 < old(self)@.0 {
                Some(old(self)@.1 as usize)
            } else {
                None
            },
    {
        if self.in_flight < self.limit {
            self.launch()
        } else {
            None
        }
    }
}

/// A peer that goes quiet or away between two frames ends a capture well just where what it has
/// sent can be a whole bootstrap: at least 4,400,000,000 bytes and at least 4,000 frames. The capture
/// then holds what it held. Where one of the two is not met it has failed, for that reason.
pub proof fn quiet_peer_ends_a_whole_bootstrap(c: CaptureView, e: String, now: u64)
    requires
        c.phase is Header,
    ensures
        ({
            let quiet = capture_next(c, CaptureEvent::Timeout, now);
            let gone = capture_next(c, CaptureEvent::Error(e), now);
            let whole = c.done.len() >= 4_400_000_000 && c.frames >= 4_000;
            &&& whole ==> quiet.phase is Captured && gone.phase is Captured
            &&& !whole ==> quiet.phase == CapturePhase::Failed(CaptureError::HeaderTimeout)
            &&& !whole ==> gone.phase == CapturePhase::Failed(CaptureError::HeaderFailed(e))
            &&& quiet.done == c.done && quiet.frames == c.frames && quiet.partial == c.partial
            &&& gone.done == c.done && gone.frames == c.frames && gone.partial == c.partial
        }),
{
}

/// After any row of reads that leaves a capture between two frames, with enough bytes and frames,
/// the peer's silence or its end makes the capture succeed, and what it has captured is all that
/// was read, from the first byte to the last.
pub proof fn whole_bootstrap_is_kept(reads: Seq<(Vec<u8>, u64)>, event: CaptureEvent, now: u64)
    requires
        forall|k: int|
            0 <= k < reads.len() ==> reading(capture_after(#[trigger] reads.take(k))),
        capture_after(reads).phase is Header,
        capture_after(reads).frames >= 4_000,
        bytes_read(reads).len() >= 4_400_000_000,
        !(event is Read),
    ensures
        capture_next(capture_after(reads), event, now).phase is Captured,
        capture_next(capture_after(reads), event, now).done == bytes_read(reads),
{
    captured_is_what_came(reads);
    let c = capture_after(reads);
    assert(c.done + c.partial =~= c.done);
}

/// What a capture does when its next frame becomes whole, where `total` is then its size and `ns`
/// the time since the window began. Beyond 6,000,000,000 bytes it fails. Between 900 and 970 million
/// bytes it fails where it took in fewer than 5,000,000 bytes a second. Where a window of at least a
/// second and a half has ended, beyond 1,500,000,000 bytes, with fewer than 400,000 bytes a second,
/// and seven such windows came just before it, the bulk is over: the capture has all of a bootstrap
/// where it has 4,400,000,000 bytes and 4,000 frames, else it has failed. In all other cases it goes
/// on with the next header.
pub proof fn whole_frame_decides(c: CaptureView, last: Seq<u8>, now: u64)
    requires
        c.watch.window_bytes + c.partial.len() + last.len() <= u64::MAX,
        c.watch.slow < u32::MAX,
    ensures
        ({
            let next = frame_captured(c, last, now);
            let total = c.done.len() + c.partial.len() + last.len();
            let bytes = c.watch.window_bytes + c.partial.len() + last.len();
            let ns = if now > c.watch.window_ns {
                now - c.watch.window_ns
            } else {
                0
            };
            let too_large = total > 6_000_000_000;
            let too_slow = 900_000_000 <= total < 970_000_000 && total * 1_000_000_000 < 5_000_000
                * now;
            let trickle = ns >= 1_500_000_000 && total > 1_500_000_000 && bytes * 1_000_000_000
                < 400_000 * ns;
            let bulk_over = trickle && c.watch.slow >= 7;
            let whole = total >= 4_400_000_000 && c.frames + 1 >= 4_000;
            &&& next.done == c.done + (c.partial + last)
            &&& next.frames == c.frames + 1
            &&& next.partial.len() == 0
            &&& too_large ==> next.phase == CapturePhase::Failed(CaptureError::TooLarge)
            &&& !too_large && too_slow ==> next.phase == CapturePhase::Failed(
                CaptureError::SlowAfterState,
            )
            &&& !too_large && !too_slow && bulk_over && whole ==> next.phase is Captured
            &&& !too_large && !too_slow && bulk_over && !whole ==> next.phase
                == CapturePhase::Failed(CaptureError::EndedEarly)
            &&& !too_large && !too_slow && !bulk_over ==> next.phase is Header
            &&& !too_large && !too_slow ==> next.watch.slow == if ns < 1_500_000_000 {
                c.watch.slow as int
            } else if trickle {
                c.watch.slow + 1
            } else {
                0
            }
            &&& !too_large && !too_slow && ns >= 1_500_000_000 ==> next.watch.window_ns == now
                && next.watch.window_bytes == 0
            &&& !too_large && !too_slow && ns < 1_500_000_000 ==> next.watch.window_ns
                == c.watch.window_ns && next.watch.window_bytes == bytes
        }),
{
    assert((c.partial + last).len() == c.partial.len() + last.len());
    assert((c.done + (c.partial + last)).len() == c.done.len() + c.partial.len() + last.len());
}

/// What a capture makes of a header: the first frame must be a state, that is longer than 4,000,000
/// bytes; no frame may be longer than 1,500,000,000; beyond 50,000,000 a frame is read in pieces.
pub proof fn header_decides(c: CaptureView, hdr: Vec<u8>, now: u64)
    requires
        c.phase is Header,
        hdr@.len() == 5,
    ensures
        ({
            let next = capture_next(c, CaptureEvent::Read(hdr), now);
            let len = hdr@[0] * 0x1000000 + hdr@[1] * 0x10000 + hdr@[2] * 0x100 + hdr@[3];
            let no_state = c.frames == 0 && len <= 4_000_000;
            &&& no_state ==> next.phase == CapturePhase::Failed(
                CaptureError::NotServing(len as u32, hdr@[4]),
            )
            &&& !no_state && len > 1_500_000_000 ==> next.phase == CapturePhase::Failed(
                CaptureError::FrameTooLarge(len as u32),
            )
            &&& !no_state && 50_000_000 < len <= 1_500_000_000 ==> next.phase
                == (CapturePhase::Piece { len: len as u32, begun_ns: now })
            &&& !no_state && 0 < len <= 50_000_000 ==> next.phase == (CapturePhase::Whole {
                len: len as u32,
            })
            &&& !no_state && 0 < len <= 1_500_000_000 ==> next.partial == hdr@ && next.done == c.done
                && next.frames == c.frames && next.watch == c.watch
            &&& !no_state && len == 0 ==> next == frame_captured(c, hdr@, now)
        }),
{
    assert(hdr@.subrange(0, 4) =~= seq![hdr@[0], hdr@[1], hdr@[2], hdr@[3]]);
}

/// A piece of a large frame is taken in as it comes, unless the frame has been read for more than
/// four seconds at fewer than 5,000,000 bytes a second. The frame is whole with its last byte. A
/// read that brings nothing fails the capture.
pub proof fn pieces_make_a_frame(c: CaptureView, event: CaptureEvent, now: u64)
    requires
        c.phase is Piece,
        c.partial.len() >= 5,
        capture_event_fits(c, event),
    ensures
        ({
            let next = capture_next(c, event, now);
            let len = c.phase->Piece_len;
            let had = c.partial.len() - 5;
            &&& (event is Read && (event->Read_0)@.len() > 0) ==> {
                let bytes = (event->Read_0)@;
                let off = had + bytes.len();
                let ns = if now > c.phase->begun_ns {
                    now - c.phase->begun_ns
                } else {
                    0
                };
                let slow = ns > 4_000_000_000 && off * 1_000_000_000 < 5_000_000 * ns;
                &&& slow ==> next.phase == CapturePhase::Failed(
                    CaptureError::SlowEarly(len, off as usize),
                )
                &&& !slow && off == len ==> next == frame_captured(c, bytes, now)
                &&& !slow && off < len ==> next.phase == c.phase && next.partial == c.partial + bytes
                    && next.done == c.done && next.frames == c.frames && next.watch == c.watch
            }
            &&& !(event is Read && (event->Read_0)@.len() > 0) ==> next.phase
                == CapturePhase::Failed(CaptureError::LargeRead(len, had as usize))
        }),
{
}

/// A small frame is whole with its payload; where that does not come the capture fails. A capture
/// that is done, well or not, stays as it is.
pub proof fn small_frame_is_read_at_once(c: CaptureView, event: CaptureEvent, now: u64)
    ensures
        ({
            let next = capture_next(c, event, now);
            &&& c.phase is Whole && event is Read ==> next == frame_captured(
                c,
                (event->Read_0)@,
                now,
            )
            &&& c.phase is Whole && !(event is Read) ==> next.phase == CapturePhase::Failed(
                CaptureError::SmallRead(c.phase->Whole_len),
            )
            &&& c.phase is Captured || c.phase is Failed ==> next == c
        }),
{
}

/// A tap yields the bootstrap just where the peer goes quiet or away between two frames and the tap
/// still captures and has 4,400,000,000 bytes and 4,000 frames, or at the eighth slow window in a
/// row. What it yields is the whole frames that it has. A node that is being relayed to is served
/// on after that.
pub proof fn quiet_peer_ends_a_whole_tap(t: TapView, event: TapEvent, now: u64)
    requires
        t.phase is Header,
        t.phase->timed == (t.capturing && t.done.len() >= 4_400_000_000 && t.frames >= 4_000),
    ensures
        ({
            let (next, blob) = tap_next(t, event, now);
            let whole = t.capturing && t.done.len() >= 4_400_000_000 && t.frames >= 4_000;
            &&& event is Timeout || event is Lost ==> (blob is Some <==> whole)
            &&& event is Timeout || event is Lost ==> (blob matches Some(bytes) ==> bytes == t.done)
            &&& whole && event is Timeout ==> next.phase == (TapPhase::Header { timed: false })
                && !next.capturing
            &&& event is Lost ==> next.phase is Over
            &&& !whole && event is Timeout ==> next.phase is Over
        }),
{
}

/// Wherever a tap waits for a header, the wait has a time limit just where the tap captures and what
/// it has can be a whole bootstrap.
pub proof fn header_wait_is_timed_when_whole(t: TapView, event: TapEvent, now: u64)
    requires
        !(t.phase is Over),
        t.phase is Header ==> t.phase->timed == (t.capturing && t.done.len() >= 4_400_000_000
            && t.frames >= 4_000),
    ensures
        ({
            let next = tap_next(t, event, now).0;
            next.phase is Header ==> next.phase->timed == (next.capturing && next.done.len()
                >= 4_400_000_000 && next.frames >= 4_000)
        }),
{
}

/// What a tap does when its next frame becomes whole: beyond 6,000,000,000 bytes it stops to
/// capture; at the eighth slow window in a row it yields what it has, where that can be a whole
/// bootstrap; else it goes on. The relay goes on in every case.
pub proof fn whole_frame_decides_a_tap(t: TapView, last: Seq<u8>, now: u64)
    requires
        t.capturing,
        t.watch.window_bytes + t.partial.len() + last.len() <= u64::MAX,
        t.watch.slow < u32::MAX,
    ensures
        ({
            let (next, blob) = frame_tapped(t, last, now);
            let total = t.done.len() + t.partial.len() + last.len();
            let bytes = t.watch.window_bytes + t.partial.len() + last.len();
            let ns = if now > t.watch.window_ns {
                now - t.watch.window_ns
            } else {
                0
            };
            let trickle = ns >= 1_500_000_000 && total > 1_500_000_000 && bytes * 1_000_000_000
                < 400_000 * ns;
            let whole = total >= 4_400_000_000 && t.frames + 1 >= 4_000;
            let yields = total <= 6_000_000_000 && trickle && t.watch.slow >= 7 && whole;
            &&& next.phase is Header
            &&& blob is Some <==> yields
            &&& blob matches Some(bytes) ==> bytes == t.done + (t.partial + last)
            &&& next.capturing <==> total <= 6_000_000_000 && !yields
            &&& next.capturing ==> next.done == t.done + (t.partial + last) && next.frames
                == t.frames + 1 && next.partial.len() == 0
        }),
{
    assert((t.partial + last).len() == t.partial.len() + last.len());
    assert((t.done + (t.partial + last)).len() == t.done.len() + t.partial.len() + last.len());
}

/// A tap reads a header, then just as much payload as it announces, then the next header: the relay
/// stays on frame boundaries. It is over where a frame is announced with more than 1,500,000,000
/// bytes, and where something else comes than it has asked for.
pub proof fn tap_stays_on_frame_boundaries(t: TapView, event: TapEvent, now: u64)
    requires
        tap_event_fits(event),
    ensures
        ({
            let next = tap_next(t, event, now).0;
            &&& t.phase is Over ==> next == t
            &&& (t.phase is Header && event is Header) ==> {
                let hdr = (event->Header_0)@;
                let len = hdr[0] * 0x1000000 + hdr[1] * 0x10000 + hdr[2] * 0x100 + hdr[3];
                &&& len > 1_500_000_000 ==> next.phase is Over
                &&& len == 0 ==> next.phase is Header
                &&& 0 < len <= 1_500_000_000 ==> next.phase == (TapPhase::Payload {
                    remaining: len as usize,
                })
            }
            &&& (t.phase is Payload && event is Payload) ==> {
                let bytes = (event->Payload_0)@;
                let left = t.phase->remaining - bytes.len();
                &&& left < 0 ==> next.phase is Over
                &&& left == 0 ==> next.phase is Header
                &&& left > 0 ==> next.phase == (TapPhase::Payload { remaining: left as usize })
            }
            &&& t.phase is Header && event is Payload ==> next.phase is Over
            &&& t.phase is Payload && !(event is Payload) ==> next.phase is Over
        }),
{
    if let TapEvent::Header(hdr) = event {
        assert(hdr@.subrange(0, 4) =~= seq![hdr@[0], hdr@[1], hdr@[2], hdr@[3]]);
    }
}

/// A race tries the next peer as long as there is one, and none twice.
pub proof fn race_tries_each_peer_once(race: RaceView)
    ensures
        race.1 < race.0 ==> race_launched(race) == (race.0, race.1 + 1, race.2 + 1, race.3),
        race.1 >= race.0 ==> race_launched(race) == race,
{
}

/// A window of frames is compared exactly: `bytes` in `nanos` nanoseconds are slower than `rate`
/// bytes a second just where they fall short of what that rate brings in the time.
pub proof fn slower_falls_short(bytes: nat, seconds: nat, rate: nat)
    ensures
        slower(bytes, seconds * 1_000_000_000, rate) <==> bytes < rate * seconds,
{
    assert(rate * (seconds * 1_000_000_000) == rate * seconds * 1_000_000_000) by (nonlinear_arith);
}

/// A capture starts with nothing read and waits for a header.
pub proof fn capture_starts_empty()
    ensures
        ({
            let c = fresh_capture();
            &&& c.phase is Header
            &&& c.done.len() == 0 && c.partial.len() == 0 && c.frames == 0
            &&& c.watch.window_ns == 0 && c.watch.window_bytes == 0 && c.watch.slow == 0
        }),
{
}

/// A tap that no longer captures holds nothing, and never does again: it yields no bootstrap
/// whatever comes.
pub proof fn released_tap_stays_empty(t: TapView, event: TapEvent, now: u64)
    requires
        t.phase is Payload,
    ensures
        ({
            let free = tap_released(t);
            let (next, blob) = tap_next(free, event, now);
            &&& !free.capturing && free.done.len() == 0 && free.partial.len() == 0 && free.frames
                == 0
            &&& free.phase == t.phase && free.watch == t.watch
            &&& blob is None
            &&& !next.capturing && next.done.len() == 0 && next.partial.len() == 0 && next.frames
                == 0
        }),
{
}

/// A header leaves a tap that does not capture empty, too.
pub proof fn header_leaves_a_released_tap_empty(t: TapView, hdr: Vec<u8>, now: u64)
    requires
        t.phase is Header,
    ensures
        ({
            let (next, blob) = tap_next(tap_released(t), TapEvent::Header(hdr), now);
            &&& blob is None
            &&& !next.capturing && next.done.len() == 0 && next.partial.len() == 0 && next.frames
                == 0
        }),
{
}

/// What a tap has done is what was wanted just where it is in the wanted state and yields the wanted
/// bytes, or yields none where none are wanted.
pub proof fn outcome_is_exact(got: (TapView, Option<Vec<u8>>), want: (TapView, Option<Seq<u8>>))
    ensures
        tap_outcome(got, want) <==> got.0 == want.0 && (got.1 is Some <==> want.1 is Some) && (got.1
            is Some ==> (got.1->0)@ == want.1->0),
{
}

} // verus!
