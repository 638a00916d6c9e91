//! Probing a peer for live blocks: connect, greet, then read frames until the time is up, and
//! count the blocks whose round is plausible.
use vstd::prelude::*;
use crate::protocol::{block_round, is_plausible_mainnet_round, payload_round, plausible_round};
use crate::wire::{frame_len, read_frame_len};

verus! {

/// Payload length beyond which a probe does not read a frame.
pub const MAX_PROBE_FRAME: u32 = 8_000_000;

/// Blocks that a peer must have served to count as live.
pub const MIN_LIVE_BLOCKS: usize = 2;

/// How a probe of a peer ended, or what its last frame was.
#[derive(Clone, Copy, Debug, PartialEq, Eq, Structural)]
pub enum ProbeStatus {
    NoLiveFrame,
    Live,
    ConnectTimeout,
    ConnectError,
    GreetWriteError,
    HeaderTimeout,
    HeaderEof,
    HeaderError,
    PayloadTimeout,
    PayloadEof,
    PayloadError,
    OversizedFrame,
    PeerFull,
    StatusFrame,
    LowRound,
    UnparseableBlock,
}

impl Default for ProbeStatus {
    /// Nothing has been heard of the peer.
    fn default() -> (r: ProbeStatus)
        ensures
            r == ProbeStatus::NoLiveFrame,
    {
        ProbeStatus::NoLiveFrame
    }
}

/// The name of a status.
pub open spec fn status_name(status: ProbeStatus) -> Seq<char> {
    match status {
        ProbeStatus::NoLiveFrame => "no_live_frame"@,
        ProbeStatus::Live => "live"@,
        ProbeStatus::ConnectTimeout => "connect_timeout"@,
        ProbeStatus::ConnectError => "connect_error"@,
        ProbeStatus::GreetWriteError => "greet_write_error"@,
        ProbeStatus::HeaderTimeout => "header_timeout"@,
        ProbeStatus::HeaderEof => "header_eof"@,
        ProbeStatus::HeaderError => "header_error"@,
        ProbeStatus::PayloadTimeout => "payload_timeout"@,
        ProbeStatus::PayloadEof => "payload_eof"@,
        ProbeStatus::PayloadError => "payload_error"@,
        ProbeStatus::OversizedFrame => "oversized_frame"@,
        ProbeStatus::PeerFull => "peer_full"@,
        ProbeStatus::StatusFrame => "status_frame"@,
        ProbeStatus::LowRound => "low_round"@,
        ProbeStatus::UnparseableBlock => "unparseable_block"@,
    }
}

impl ProbeStatus {
    /// The name of the status.
    pub fn as_str(self) -> (r: &'static str)
        ensures
            r@ == status_name(self),
    {
        match self {
            ProbeStatus::NoLiveFrame => "no_live_frame",
            ProbeStatus::Live => "live",
            ProbeStatus::ConnectTimeout => "connect_timeout",
            ProbeStatus::ConnectError => "connect_error",
            ProbeStatus::GreetWriteError => "greet_write_error",
            ProbeStatus::HeaderTimeout => "header_timeout",
            ProbeStatus::HeaderEof => "header_eof",
            ProbeStatus::HeaderError => "header_error",
            ProbeStatus::PayloadTimeout => "payload_timeout",
            ProbeStatus::PayloadEof => "payload_eof",
            ProbeStatus::PayloadError => "payload_error",
            ProbeStatus::OversizedFrame => "oversized_frame",
            ProbeStatus::PeerFull => "peer_full",
            ProbeStatus::StatusFrame => "status_frame",
            ProbeStatus::LowRound => "low_round",
            ProbeStatus::UnparseableBlock => "unparseable_block",
        }
    }
}

/// What a probe found.
#[derive(Clone, Copy, Debug, PartialEq, Eq, Structural)]
pub struct LiveProbe {
    /// Blocks with a plausible round.
    pub blocks: usize,
    /// The highest of their rounds.
    pub max_round: Option<u32>,
    pub status: ProbeStatus,
}

impl Default for LiveProbe {
    /// A probe that has found nothing.
    fn default() -> (r: LiveProbe)
        ensures
            r == nothing_found(),
    {
        LiveProbe { blocks: 0, max_round: None, status: ProbeStatus::NoLiveFrame }
    }
}

/// A probe that has found nothing.
pub open spec fn nothing_found() -> LiveProbe {
    LiveProbe { blocks: 0, max_round: None, status: ProbeStatus::NoLiveFrame }
}

/// What a probe knows after one more whole frame, and whether the frame ends it: a refusal (a
/// control frame of the one byte 4) does.
pub open spec fn probe_after_frame(probe: LiveProbe, typ: u8, payload: Seq<u8>) -> (LiveProbe, bool) {
    if typ == 0 && payload.len() == 1 && payload[0] == 4 {
        (LiveProbe { status: ProbeStatus::PeerFull, ..probe }, true)
    } else if typ == 0 {
        (LiveProbe { status: ProbeStatus::StatusFrame, ..probe }, false)
    } else if typ == 1 && payload.len() > 1 {
        match payload_round(payload) {
            Some(round) => if plausible_round(round, 0) {
                (
                    LiveProbe {
                        blocks: if probe.blocks < usize::MAX {
                            (probe.blocks + 1) as usize
                        } else {
                            usize::MAX
                        },
                        max_round: Some(
                            match probe.max_round {
                                Some(prev) if prev > round => prev,
                                _ => round,
                            },
                        ),
                        status: ProbeStatus::Live,
                    },
                    false,
                )
            } else {
                (LiveProbe { status: ProbeStatus::LowRound, ..probe }, false)
            },
            None => (LiveProbe { status: ProbeStatus::UnparseableBlock, ..probe }, false),
        }
    } else {
        (probe, false)
    }
}

/// What a probe does next.
#[derive(Clone, Copy, Debug, PartialEq, Eq, Structural)]
pub enum ProbePhase {
    /// Connect to the peer.
    Connect,
    /// Write the greeting.
    Greet,
    /// Read the five bytes of a header.
    Header,
    /// Read the payload of a frame.
    Payload { typ: u8, len: u32 },
    /// Nothing: the probe is over.
    Done,
}

/// What came of the thing a probe did.
pub enum ProbeEvent {
    /// The time was up before it was tried.
    TimeUp,
    /// It did not happen in time.
    Timeout,
    /// The peer had closed its side.
    Eof,
    /// It failed otherwise.
    Error,
    /// It succeeded, with these bytes where it was a read.
    Success(Vec<u8>),
}

/// A probe of one peer.
pub struct PeerProbe {
    phase: ProbePhase,
    probe: LiveProbe,
}

/// A phase and what has been found so far.
pub type ProbeState = (ProbePhase, LiveProbe);

/// The end of a probe under the given status.
pub open spec fn ended(probe: LiveProbe, status: ProbeStatus) -> ProbeState {
    (ProbePhase::Done, LiveProbe { status, ..probe })
}

/// Where a probe goes from a phase on an event.
pub open spec fn probe_next(state: ProbeState, event: ProbeEvent) -> ProbeState {
    let (phase, probe) = state;
    match phase {
        ProbePhase::Connect => match event {
            ProbeEvent::Success(_) => (ProbePhase::Greet, probe),
            ProbeEvent::TimeUp | ProbeEvent::Timeout => ended(probe, ProbeStatus::ConnectTimeout),
            _ => ended(probe, ProbeStatus::ConnectError),
        },
        ProbePhase::Greet => match event {
            ProbeEvent::Success(_) => (ProbePhase::Header, probe),
            _ => ended(probe, ProbeStatus::GreetWriteError),
        },
        ProbePhase::Header => match event {
            ProbeEvent::TimeUp => (ProbePhase::Done, probe),
            ProbeEvent::Timeout => ended(probe, ProbeStatus::HeaderTimeout),
            ProbeEvent::Eof => ended(probe, ProbeStatus::HeaderEof),
            ProbeEvent::Error => ended(probe, ProbeStatus::HeaderError),
            ProbeEvent::Success(bytes) => if frame_len(bytes@, 0) > MAX_PROBE_FRAME {
                ended(probe, ProbeStatus::OversizedFrame)
            } else {
                (
                    ProbePhase::Payload { typ: bytes@[4], len: frame_len(bytes@, 0) as u32 },
                    probe,
                )
            },
        },
        ProbePhase::Payload { typ, .. } => match event {
            ProbeEvent::TimeUp | ProbeEvent::Timeout => ended(probe, ProbeStatus::PayloadTimeout),
            ProbeEvent::Eof => ended(probe, ProbeStatus::PayloadEof),
            ProbeEvent::Error => ended(probe, ProbeStatus::PayloadError),
            ProbeEvent::Success(payload) => {
                let (found, over) = probe_after_frame(probe, typ, payload@);
                (
                    if over {
                        ProbePhase::Done
                    } else {
                        ProbePhase::Header
                    },
                    found,
                )
            },
        },
        ProbePhase::Done => state,
    }
}

/// The bytes of an event fit the phase: five for a header, the announced number for a payload.
pub open spec fn event_fits(phase: ProbePhase, event: ProbeEvent) -> bool {
    match (phase, event) {
        (ProbePhase::Header, ProbeEvent::Success(bytes)) => bytes@.len() == 5,
        (ProbePhase::Payload { len, .. }, ProbeEvent::Success(bytes)) => bytes@.len() == len,
        _ => true,
    }
}

/// What is found never contradicts itself: there is a highest round just where blocks were
/// counted, and it is plausible.
pub open spec fn probe_consistent(probe: LiveProbe) -> bool {
    &&& probe.blocks == 0 <==> probe.max_round is None
    &&& probe.max_round matches Some(round) ==> plausible_round(round, 0)
}

impl LiveProbe {
    /// Takes in one whole frame; whether it ends the probe.
    pub fn note_frame(&mut self, typ: u8, payload: &[u8]) -> (over: bool)
        ensures
            (*final(self), over) == probe_after_frame(*old(self), typ, payload@),
    {
        if typ == 0 && payload.len() == 1 && payload[0] == 4 {
            self.status = ProbeStatus::PeerFull;
            return true;
        }
        if typ == 0 {
            self.status = ProbeStatus::StatusFrame;
        }
        if typ == 1 && payload.len() > 1 {
            match block_round(payload) {
                Some(round) => {
                    if is_plausible_mainnet_round(round, 0) {
                        self.blocks = self.blocks.saturating_add(1);
                        self.max_round = match self.max_round {
                            Some(prev) => if prev > round {
                                Some(prev)
                            } else {
                                Some(round)
                            },
                            None => Some(round),
                        };
                        self.status = ProbeStatus::Live;
                    } else {
                        self.status = ProbeStatus::LowRound;
                    }
                },
                None => {
                    self.status = ProbeStatus::UnparseableBlock;
                },
            }
        }
        false
    }
}

impl View for PeerProbe {
    type V = ProbeState;

    closed spec fn view(&self) -> ProbeState {
        (self.phase, self.probe)
    }
}

impl PeerProbe {
    /// A probe that has not begun.
    pub fn new() -> (r: PeerProbe)
        ensures
            r@ == (ProbePhase::Connect, nothing_found()),
    {
        PeerProbe { phase: ProbePhase::Connect, probe: LiveProbe::default() }
    }

    /// What to do next.
    pub fn phase(&self) -> (r: ProbePhase)
        ensures
            r == self@.0,
    {
        self.phase
    }

    /// What has been found so far.
    pub fn found(&self) -> (r: LiveProbe)
        ensures
            r == self@.1,
    {
        self.probe
    }

    fn end(&mut self, status: ProbeStatus)
        ensures
            final(self)@ == ended(old(self)@.1, status),
    {
        self.phase = ProbePhase::Done;
        self.probe.status = status;
    }

    /// Takes what came of the last thing to do.
    pub fn step(&mut self, event: ProbeEvent)
        requires
            event_fits(old(self)@.0, event),
        ensures
            final(self)@ == probe_next(old(self)@, event),
            probe_consistent(old(self)@.1) ==> probe_consistent(final(self)@.1),
    {
        match self.phase {
            ProbePhase::Connect => match event {
                ProbeEvent::Success(_) => {
                    self.phase = ProbePhase::Greet;
                },
                ProbeEvent::TimeUp | ProbeEvent::Timeout => self.end(ProbeStatus::ConnectTimeout),
                _ => self.end(ProbeStatus::ConnectError),
            },
            ProbePhase::Greet => match event {
                ProbeEvent::Success(_) => {
                    self.phase = ProbePhase::Header;
                },
                _ => self.end(ProbeStatus::GreetWriteError),
            },
            ProbePhase::Header => match event {
                ProbeEvent::TimeUp => {
                    self.phase = ProbePhase::Done;
                },
                ProbeEvent::Timeout => self.end(ProbeStatus::HeaderTimeout),
                ProbeEvent::Eof => self.end(ProbeStatus::HeaderEof),
                ProbeEvent::Error => self.end(ProbeStatus::HeaderError),
                ProbeEvent::Success(bytes) => {
                    let len: u32 = read_frame_len(bytes.as_slice(), 0);
                    if len > MAX_PROBE_FRAME {
                        self.end(ProbeStatus::OversizedFrame);
                    } else {
                        self.phase = ProbePhase::Payload { typ: bytes[4], len };
                    }
                },
            },
            ProbePhase::Payload { typ, len } => match event {
                ProbeEvent::TimeUp | ProbeEvent::Timeout => self.end(ProbeStatus::PayloadTimeout),
                ProbeEvent::Eof => self.end(ProbeStatus::PayloadEof),
                ProbeEvent::Error => self.end(ProbeStatus::PayloadError),
                ProbeEvent::Success(payload) => {
                    self.phase = if self.probe.note_frame(typ, payload.as_slice()) {
                        ProbePhase::Done
                    } else {
                        ProbePhase::Header
                    };
                },
            },
            ProbePhase::Done => {},
        }
    }
}

/// Whether a probe shows a live peer: enough blocks, and a highest round that is plausible.
pub open spec fn is_live(probe: LiveProbe) -> bool {
    &&& probe.blocks >= MIN_LIVE_BLOCKS
    &&& probe.max_round matches Some(round) && plausible_round(round, 0)
}

/// Whether a probe shows a live peer.
pub fn probe_is_live(probe: &LiveProbe) -> (r: bool)
    ensures
        r == is_live(*probe),
{
    match probe.max_round {
        Some(round) => probe.blocks >= MIN_LIVE_BLOCKS && is_plausible_mainnet_round(round, 0),
        None => false,
    }
}

/// A probe after all of `frames` came, as long as none of them ends it.
pub open spec fn probe_after_frames(frames: Seq<(u8, Seq<u8>)>) -> LiveProbe
    decreases frames.len(),
{
    if frames.len() == 0 {
        nothing_found()
    } else {
        probe_after_frame(
            probe_after_frames(frames.drop_last()),
            frames.last().0,
            frames.last().1,
        ).0
    }
}

/// The round that a frame counts for, where it does.
pub open spec fn counted_round(frame: (u8, Seq<u8>)) -> Option<u32> {
    if frame.0 == 1 && frame.1.len() > 1 {
        match payload_round(frame.1) {
            Some(round) if plausible_round(round, 0) => Some(round),
            _ => None,
        }
    } else {
        None
    }
}

/// A probe reports the number of frames with a plausible block and the highest of their rounds:
/// no counted round lies above it and one equals it.
#[verifier::spinoff_prover]
#[verifier::rlimit(60)]
pub proof fn probe_counts_plausible_blocks(frames: Seq<(u8, Seq<u8>)>)
    requires
        frames.len() < usize::MAX,
    ensures
        probe_after_frames(frames).blocks == frames.filter(
            |f: (u8, Seq<u8>)| counted_round(f) is Some,
        ).len(),
        forall|i: int|
            0 <= i < frames.len() ==> (counted_round(#[trigger] frames[i]) matches Some(round)
                ==> probe_after_frames(frames).max_round matches Some(top) && round <= top),
        probe_after_frames(frames).max_round matches Some(top) ==> exists|i: int|
            0 <= i < frames.len() && counted_round(#[trigger] frames[i]) == Some(top),
        probe_after_frames(frames).blocks <= frames.len(),
    decreases frames.len(),
{
    let pred = |f: (u8, Seq<u8>)| counted_round(f) is Some;
    reveal(Seq::filter);
    if frames.len() > 0 {
        let before = frames.drop_last();
        probe_counts_plausible_blocks(before);
        let found = probe_after_frames(before);
        let now = probe_after_frames(frames);
        assert forall|i: int| 0 <= i < frames.len() implies (counted_round(
            #[trigger] frames[i],
        ) matches Some(round) ==> now.max_round matches Some(top) && round <= top) by {
            if i < before.len() {
                assert(before[i] == frames[i]);
            }
        }
        if now.max_round is Some {
            let top = now.max_round->0;
            if counted_round(frames.last()) == Some(top) {
                assert(frames[frames.len() - 1] == frames.last());
            } else {
                assert(found.max_round == Some(top));
                let i = choose|i: int|
                    0 <= i < before.len() && counted_round(#[trigger] before[i]) == Some(top);
                assert(frames[i] == before[i]);
            }
        }
    }
}

/// Whether a probe shows a live peer rests on two things alone: at least two blocks, and a highest
/// round of at least 1,000,000,000. How the probe ended plays no part.
pub proof fn live_is_two_plausible_blocks(probe: LiveProbe, status: ProbeStatus)
    ensures
        is_live(probe) <==> probe.blocks >= 2 && probe.max_round is Some && probe.max_round->0
            >= 1_000_000_000,
        is_live(LiveProbe { status, ..probe }) == is_live(probe),
{
}

/// A frame counts just where it is a data frame of more than one byte whose round is at least
/// 1,000,000,000: then there is one block more, and the highest round is the higher of the two. Any
/// other frame leaves both as they are. A control frame of the one byte 4, and nothing else, ends
/// the probe.
pub proof fn frame_counts_once(probe: LiveProbe, typ: u8, payload: Seq<u8>)
    ensures
        ({
            let (found, over) = probe_after_frame(probe, typ, payload);
            let round = payload_round(payload);
            let counts = typ == 1 && payload.len() > 1 && round is Some && round->0
                >= 1_000_000_000;
            &&& counts ==> {
                &&& found.blocks == if probe.blocks < usize::MAX {
                    probe.blocks + 1
                } else {
                    usize::MAX as int
                }
                &&& found.max_round is Some
                &&& found.max_round->0 >= round->0
                &&& probe.max_round is None ==> found.max_round == round
                &&& probe.max_round is Some ==> found.max_round->0 >= probe.max_round->0 && (
                found.max_round == round || found.max_round == probe.max_round)
                &&& found.status is Live
            }
            &&& !counts ==> found.blocks == probe.blocks && found.max_round == probe.max_round
                && (found.status is Live ==> probe.status is Live)
            &&& over <==> typ == 0 && payload == seq![4u8]
            &&& found.status is PeerFull ==> over || probe.status is PeerFull
            &&& typ == 0 && !over ==> found.status is StatusFrame
            &&& typ == 1 && payload.len() > 1 && round is None ==> found.status is UnparseableBlock
            &&& typ == 1 && payload.len() > 1 && round is Some && !counts ==> found.status
                is LowRound
            &&& typ > 1 || (typ == 1 && payload.len() <= 1) ==> found == probe
        }),
{
    if typ == 0 && payload.len() == 1 && payload[0] == 4 {
        assert(payload =~= seq![4u8]);
    }
}

/// What a probe has found is never lost, whatever comes next: no event takes a block back or lowers
/// the highest round, so that a peer that has shown itself live stays so to the end of the probe.
pub proof fn live_peer_stays_live(state: ProbeState, event: ProbeEvent)
    ensures
        ({
            let (phase, found) = probe_next(state, event);
            &&& found.blocks >= state.1.blocks
            &&& state.1.max_round is Some ==> found.max_round is Some && found.max_round->0
                >= state.1.max_round->0
            &&& is_live(state.1) ==> is_live(found)
            &&& !(state.0 is Payload && event is Success) ==> found.blocks == state.1.blocks
                && found.max_round == state.1.max_round && is_live(found) == is_live(state.1)
        }),
{
}

/// A probe after all of `events`, first to last.
pub open spec fn probe_after_events(state: ProbeState, events: Seq<ProbeEvent>) -> ProbeState
    decreases events.len(),
{
    if events.len() == 0 {
        state
    } else {
        probe_next(probe_after_events(state, events.drop_last()), events.last())
    }
}

/// A peer that has served two plausible blocks is live however its probe goes on and ends.
pub proof fn live_peer_stays_live_to_the_end(state: ProbeState, events: Seq<ProbeEvent>)
    requires
        state.1.blocks >= 2,
        state.1.max_round is Some,
        state.1.max_round->0 >= 1_000_000_000,
    ensures
        is_live(probe_after_events(state, events).1),
    decreases events.len(),
{
    if events.len() > 0 {
        live_peer_stays_live_to_the_end(state, events.drop_last());
        live_peer_stays_live(probe_after_events(state, events.drop_last()), events.last());
    }
}

/// Among whatever other frames, two data frames with a round of at least 1,000,000,000 make a live
/// peer.
pub proof fn two_blocks_make_a_live_peer(frames: Seq<(u8, Seq<u8>)>, i: int, j: int)
    requires
        0 <= i < j < frames.len(),
        frames.len() < usize::MAX,
        frames[i].0 == 1 && frames[j].0 == 1,
        frames[i].1.len() > 1 && frames[j].1.len() > 1,
        payload_round(frames[i].1) is Some && payload_round(frames[i].1)->0 >= 1_000_000_000,
        payload_round(frames[j].1) is Some && payload_round(frames[j].1)->0 >= 1_000_000_000,
    ensures
        is_live(probe_after_frames(frames)),
    decreases frames.len(),
{
    let n = frames.len() - 1;
    let before = frames.drop_last();
    found_in_frames(frames);
    frame_counts_once(probe_after_frames(before), frames.last().0, frames.last().1);
    if j < n {
        assert(before[i] == frames[i] && before[j] == frames[j]);
        two_blocks_make_a_live_peer(before, i, j);
    } else {
        assert(before[i] == frames[i]);
        one_block_is_found(before, i);
        assert(frames.last() == frames[j]);
    }
}

/// A block that came is counted.
proof fn one_block_is_found(frames: Seq<(u8, Seq<u8>)>, i: int)
    requires
        0 <= i < frames.len() < usize::MAX,
        frames[i].0 == 1,
        frames[i].1.len() > 1,
        payload_round(frames[i].1) is Some && payload_round(frames[i].1)->0 >= 1_000_000_000,
    ensures
        probe_after_frames(frames).blocks >= 1,
        probe_after_frames(frames).max_round is Some,
        probe_after_frames(frames).max_round->0 >= 1_000_000_000,
    decreases frames.len(),
{
    let before = frames.drop_last();
    found_in_frames(frames);
    frame_counts_once(probe_after_frames(before), frames.last().0, frames.last().1);
    if i < before.len() {
        assert(before[i] == frames[i]);
        one_block_is_found(before, i);
    } else {
        assert(frames.last() == frames[i]);
    }
}

/// No more blocks are counted than frames came.
proof fn found_in_frames(frames: Seq<(u8, Seq<u8>)>)
    requires
        0 < frames.len() < usize::MAX,
    ensures
        probe_after_frames(frames.drop_last()).blocks < frames.len(),
    decreases frames.len(),
{
    let before = frames.drop_last();
    if before.len() > 0 {
        found_in_frames(before);
        frame_counts_once(
            probe_after_frames(before.drop_last()),
            before.last().0,
            before.last().1,
        );
    }
}

/// A probe connects, greets, and then reads one header and one payload after the other. It is over
/// just where something fails, where a frame is announced with more than 8,000,000 bytes, or where
/// the peer refuses; and then it stays over.
pub proof fn probe_goes_on_while_it_can(state: ProbeState, event: ProbeEvent)
    requires
        event_fits(state.0, event),
    ensures
        ({
            let (phase, found) = probe_next(state, event);
            &&& state.0 is Done ==> (phase, found) == state
            &&& !(event is Success) ==> phase is Done
            &&& state.0 is Connect && event is Success ==> (phase, found) == (
                ProbePhase::Greet,
                state.1,
            )
            &&& state.0 is Greet && event is Success ==> (phase, found) == (
                ProbePhase::Header,
                state.1,
            )
            &&& (state.0 is Header && event matches ProbeEvent::Success(hdr)) ==> {
                let hdr = event->Success_0@;
                let len = hdr[0] * 0x1000000 + hdr[1] * 0x10000 + hdr[2] * 0x100 + hdr[3];
                &&& len > 8_000_000 ==> phase is Done && found.status is OversizedFrame
                &&& len <= 8_000_000 ==> phase == (ProbePhase::Payload {
                    typ: hdr[4],
                    len: len as u32,
                }) && found == state.1
            }
            &&& (state.0 matches ProbePhase::Payload { typ, len } && event
                matches ProbeEvent::Success(bytes)) ==> {
                let typ = state.0->typ;
                let bytes = event->Success_0@;
                &&& phase is Done <==> typ == 0 && bytes == seq![4u8]
                &&& !(phase is Done) ==> phase is Header
            }
        }),
{
    if let ProbeEvent::Success(bytes) = event {
        if state.0 is Header {
            assert(bytes@.subrange(0, 4) =~= seq![bytes@[0], bytes@[1], bytes@[2], bytes@[3]]);
        }
        if let ProbePhase::Payload { typ, .. } = state.0 {
            frame_counts_once(state.1, typ, bytes@);
        }
    }
}

/// A probe that ends says at which step it did and how.
pub proof fn end_of_a_probe_is_named(state: ProbeState, event: ProbeEvent)
    ensures
        ({
            let status = probe_next(state, event).1.status;
            &&& state.0 is Connect ==> {
                &&& event is TimeUp || event is Timeout ==> status is ConnectTimeout
                &&& event is Eof || event is Error ==> status is ConnectError
            }
            &&& state.0 is Greet && !(event is Success) ==> status is GreetWriteError
            &&& state.0 is Header ==> {
                &&& event is TimeUp ==> status == state.1.status
                &&& event is Timeout ==> status is HeaderTimeout
                &&& event is Eof ==> status is HeaderEof
                &&& event is Error ==> status is HeaderError
            }
            &&& state.0 is Payload ==> {
                &&& event is TimeUp || event is Timeout ==> status is PayloadTimeout
                &&& event is Eof ==> status is PayloadEof
                &&& event is Error ==> status is PayloadError
            }
        }),
{
}

} // verus!
