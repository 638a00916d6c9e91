//! Serving live blocks to a node: merging several peers by round, failing over between upstream
//! peers, and the session that pushes one active peer's stream to a node.
use vstd::prelude::*;
use crate::lists::step_round;
use crate::protocol::{
    block_round, forwards, gate_after, gate_after_all, gate_goes_by_the_last_round,
    is_plausible_mainnet_round, passed_on, passed_on_increases, payload_round,
    plausible_round, plausible_up_to_the_slack, round_is_new, slots_after, slots_after_all,
    window_knows_what_it_saw, window_remembers, RoundDedup, RoundForwardGate,
};
use crate::text::{
    before_last_colon, decimal, decimal_reads_back, decimal_text, from_chars, last_colon, number,
    push_decimal, push_text, texts, texts_push, to_chars,
};
use crate::wire::{frame_bytes, frame_len, frame_reads_back, read_frame_len, HEADER_LEN};

verus! {

/// Payload length beyond which the merge does not look at a frame.
pub const MAX_MERGE_FRAME: u32 = 50_000_000;

/// Payload length beyond which a live stream's frame is not believed.
pub const MAX_PUSH_FRAME: u32 = 60_000_000;

/// Longest greeting that a node reads.
pub const MAX_GREETING: u32 = 1000;

/// Slots of the windows that merge and push sessions de-duplicate with.
pub const DEDUP_SLOTS: usize = 16_384;

/// Frames that may wait for a slow node before the upstream readers are held up.
pub const PUSH_MERGE_QUEUE_FRAMES: usize = 256;

/// Whether blocks of peers other than the active one are pushed too. A round alone does not show
/// that a block belongs to the active peer's chain, so they are not.
pub const ENABLE_SHADOW_PUSH: bool = false;

/// Time without data after which the active upstream counts as stalled, in milliseconds.
pub const STALL_MS: u64 = 20_000;

/// Time for which a failed upstream is not picked, in milliseconds.
pub const COOLDOWN_MS: u64 = 30_000;

/// The block port.
pub const BLOCK_PORT: u16 = 4001;

/// `host` and `port` as a dialling address.
pub open spec fn endpoint_text(host: Seq<char>, port: u16) -> Seq<char> {
    host + seq![':'] + decimal(port as nat)
}

/// `host` and `port` as a dialling address.
pub fn endpoint(host: &str, port: u16) -> (r: String)
    ensures
        r@ == endpoint_text(host@, port),
{
    let mut r = host.to_owned();
    r.push(':');
    push_decimal(&mut r, port as u64);
    assert(r@ =~= endpoint_text(host@, port));
    r
}

/// The address to dial for an upstream: as it is where it names a port, else at the block port.
pub fn upstream_target(addr: &str) -> (r: String)
    ensures
        r@ == if addr@.contains(':') {
            addr@
        } else {
            endpoint_text(addr@, BLOCK_PORT)
        },
{
    let v = to_chars(addr);
    match last_colon(v.as_slice()) {
        Some(i) => {
            assert(addr@[i as int] == ':');
            addr.to_owned()
        },
        None => endpoint(addr, BLOCK_PORT),
    }
}

/// The host of an upstream: what stands before the last colon, or all of it.
pub fn host_of(addr: &str) -> (r: String)
    ensures
        r@ == before_last_colon(addr@),
{
    let v = to_chars(addr);
    match last_colon(v.as_slice()) {
        Some(i) => {
            proof {
                cut_at_last_colon(addr@, i as int);
            }
            assert(v@.subrange(0, i as int) =~= addr@.take(i as int));
            from_chars(v.as_slice(), 0, i)
        },
        None => addr.to_owned(),
    }
}

/// What stands before the last colon is cut there.
pub proof fn cut_at_last_colon(s: Seq<char>, i: int)
    requires
        0 <= i < s.len(),
        s[i] == ':',
        forall|k: int| i < k < s.len() ==> s[k] != ':',
    ensures
        before_last_colon(s) == s.take(i),
    decreases s.len(),
{
    assert(s.contains(':'));
    if i == s.len() - 1 {
        assert(s.drop_last() =~= s.take(i));
    } else {
        assert(s.last() != ':');
        let t = s.drop_last();
        assert(t[i] == ':');
        cut_at_last_colon(t, i);
        assert(t.take(i) =~= s.take(i));
    }
}

/// The hosts of a list of upstreams.
pub fn hosts_of(upstreams: &Vec<String>) -> (r: Vec<String>)
    ensures
        texts(r@) == texts(upstreams@).map_values(|u: Seq<char>| before_last_colon(u)),
{
    let ghost want = texts(upstreams@).map_values(|u: Seq<char>| before_last_colon(u));
    let mut out: Vec<String> = Vec::new();
    let mut i: usize = 0;
    while i < upstreams.len()
        invariant
            i <= upstreams@.len(),
            want == texts(upstreams@).map_values(|u: Seq<char>| before_last_colon(u)),
            texts(out@) == want.take(i as int),
        decreases upstreams@.len() - i,
    {
        let ghost before = out@;
        let host = host_of(upstreams[i].as_str());
        out.push(host);
        proof {
            texts_push(before, host);
        }
        i = i + 1;
        assert(texts(out@) =~= want.take(i as int));
    }
    assert(texts(out@) =~= want);
    out
}

/// What to do about a frame once its header is known.
#[derive(Clone, Copy, Debug, PartialEq, Eq, Structural)]
pub enum HeaderVerdict {
    /// Read the payload.
    Read,
    /// Skip the payload to stay on frame boundaries.
    Drain,
    /// Give the stream up.
    Refuse,
}

/// The merge skips a frame that is too long.
pub fn merge_header(len: u32) -> (r: HeaderVerdict)
    ensures
        r == if len > 50_000_000 {
            HeaderVerdict::Drain
        } else {
            HeaderVerdict::Read
        },
{
    if len > MAX_MERGE_FRAME {
        HeaderVerdict::Drain
    } else {
        HeaderVerdict::Read
    }
}

/// Whether the merge of several peers passes a frame on: data frames only, and of those with a
/// round only the ones whose round the window does not hold.
pub open spec fn merge_passes(slots: Seq<u32>, typ: u8, payload: Seq<u8>) -> bool {
    typ == 1 && (payload_round(payload) matches Some(round) ==> round_is_new(slots, round))
}

/// Decides whether the merge passes a frame on, and notes its round.
pub fn merge_frame(dedup: &mut RoundDedup, typ: u8, payload: &[u8]) -> (r: bool)
    requires
        old(dedup).well_formed(),
    ensures
        final(dedup).well_formed(),
        r == merge_passes(old(dedup)@, typ, payload@),
        final(dedup)@ == match payload_round(payload@) {
            Some(round) if typ == 1 => slots_after(old(dedup)@, round),
            _ => old(dedup)@,
        },
{
    if typ != 1 {
        return false;
    }
    match block_round(payload) {
        Some(round) => dedup.is_new(round),
        None => true,
    }
}

/// The merge passes a round on once: a frame with the round of an earlier one does not pass as
/// long as all rounds in between lie within the window.
pub proof fn merge_passes_round_once(
    slots: Seq<u32>,
    round: u32,
    later: Seq<u32>,
    typ: u8,
    payload: Seq<u8>,
)
    requires
        slots.len() > 0,
        forall|i: int|
            0 <= i < later.len() ==> -(slots.len() as int) < #[trigger] later[i] - round
                < slots.len(),
        payload_round(payload) == Some(round),
    ensures
        !merge_passes(slots_after_all(slots_after(slots, round), later), typ, payload),
{
    window_remembers(slots, round, later);
}

/// The number of steps from `cur` to the next upstream that is not in cooldown.
pub open spec fn next_healthy(cur: int, bad_until: Seq<u64>, now_ms: u64, n: int, off: int) -> Option<int>
    decreases n - off,
{
    if off >= n {
        None
    } else if bad_until[(cur + off) % n] <= now_ms {
        Some((cur + off) % n)
    } else {
        next_healthy(cur, bad_until, now_ms, n, off + 1)
    }
}

/// The next upstream after `cur`, walking round, that is not in cooldown. `None` where there is
/// no other.
pub fn pick_next(cur: usize, bad_until: &[u64], now_ms: u64, n: usize) -> (r: Option<usize>)
    requires
        n <= bad_until@.len(),
    ensures
        match (r, next_healthy(cur as int, bad_until@, now_ms, n as int, 1)) {
            (Some(j), Some(k)) => j == k && j < n,
            (None, None) => true,
            _ => false,
        },
{
    let mut off: usize = 1;
    while off < n
        invariant
            n <= bad_until@.len(),
            1 <= off,
            n > 0 ==> off <= n,
            next_healthy(cur as int, bad_until@, now_ms, n as int, 1) == next_healthy(
                cur as int,
                bad_until@,
                now_ms,
                n as int,
                off as int,
            ),
        decreases n - off,
    {
        let j = step_round(cur, off, n);
        if bad_until[j] <= now_ms {
            return Some(j);
        }
        off = off + 1;
    }
    None
}

/// The upstream that is picked is another one and not in cooldown; where none is picked, every
/// other one is in cooldown.
pub proof fn picked_is_healthy(cur: int, bad_until: Seq<u64>, now_ms: u64, n: int, off: int)
    requires
        0 <= cur < n,
        1 <= off,
    ensures
        match next_healthy(cur, bad_until, now_ms, n, off) {
            Some(j) => 0 <= j < n && j != cur && bad_until[j] <= now_ms,
            None => forall|k: int| off <= k < n ==> bad_until[#[trigger] ((cur + k) % n)] > now_ms,
        },
    decreases n - off,
{
    if off < n {
        assert(0 <= (cur + off) % n < n && (cur + off) % n != cur) by (nonlinear_arith)
            requires
                0 <= cur < n,
                1 <= off < n,
        {
            if cur + off < n {
                assert((cur + off) % n == cur + off);
            } else {
                assert((cur + off) % n == cur + off - n);
            }
        }
        picked_is_healthy(cur, bad_until, now_ms, n, off + 1);
    }
}

/// `now_ms` and the cooldown, held at the largest time.
pub open spec fn cooled_until(now_ms: u64) -> u64 {
    if now_ms + COOLDOWN_MS <= u64::MAX {
        (now_ms + COOLDOWN_MS) as u64
    } else {
        u64::MAX
    }
}

/// What a proxy knows of its upstreams.
pub struct ProxyView {
    /// The upstream that new connections go to.
    pub active: int,
    /// Changes with every failover.
    pub generation: u64,
    /// When data last came from an upstream, in milliseconds; 0 before the first.
    pub last_data_ms: u64,
    /// Until when each upstream is not picked, in milliseconds.
    pub bad_until: Seq<u64>,
}

/// The active upstream has gone silent for too long.
pub open spec fn stalled(proxy: ProxyView, now_ms: u64) -> bool {
    proxy.last_data_ms != 0 && now_ms - proxy.last_data_ms > STALL_MS
}

/// The proxy after it marked the upstream `idx` as bad and moved on to the next healthy one, if
/// there is one.
pub open spec fn failed_over(proxy: ProxyView, idx: int, now_ms: u64) -> ProxyView {
    let bad_until = proxy.bad_until.update(idx, cooled_until(now_ms));
    match next_healthy(idx, bad_until, now_ms, bad_until.len() as int, 1) {
        Some(j) => ProxyView {
            active: j,
            generation: if proxy.generation < u64::MAX {
                (proxy.generation + 1) as u64
            } else {
                0
            },
            bad_until,
            ..proxy
        },
        None => ProxyView { bad_until, ..proxy },
    }
}

/// The proxy after a look at the clock: it fails over where the active upstream has stalled, and
/// then counts the silence from now on.
pub open spec fn ticked(proxy: ProxyView, now_ms: u64) -> ProxyView {
    if stalled(proxy, now_ms) {
        ProxyView { last_data_ms: now_ms, ..failed_over(proxy, proxy.active, now_ms) }
    } else {
        proxy
    }
}

/// The upstreams of a failover proxy and which of them is active.
pub struct ProxyState {
    hosts: Vec<String>,
    active: usize,
    generation: u64,
    last_data_ms: u64,
    bad_until: Vec<u64>,
}

impl View for ProxyState {
    type V = ProxyView;

    closed spec fn view(&self) -> ProxyView {
        ProxyView {
            active: self.active as int,
            generation: self.generation,
            last_data_ms: self.last_data_ms,
            bad_until: self.bad_until@,
        }
    }
}

impl ProxyState {
    /// The hosts of the upstreams.
    pub closed spec fn hosts(&self) -> Seq<Seq<char>> {
        texts(self.hosts@)
    }

    /// One of the hosts is active, and each has its cooldown.
    pub open spec fn well_formed(&self) -> bool {
        &&& 0 <= self@.active < self.hosts().len()
        &&& self@.bad_until.len() == self.hosts().len()
    }

    /// A proxy for `upstreams`, the first of them active. `None` where there are none.
    pub fn new(upstreams: &Vec<String>) -> (r: Option<ProxyState>)
        ensures
            match r {
                Some(proxy) => {
                    &&& upstreams@.len() > 0
                    &&& proxy.well_formed()
                    &&& proxy.hosts() == texts(upstreams@).map_values(
                        |u: Seq<char>| before_last_colon(u),
                    )
                    &&& proxy@ == (ProxyView {
                        active: 0,
                        generation: 0,
                        last_data_ms: 0,
                        bad_until: Seq::new(upstreams@.len(), |i: int| 0u64),
                    })
                },
                None => upstreams@.len() == 0,
            },
    {
        if upstreams.len() == 0 {
            return None;
        }
        let hosts = hosts_of(upstreams);
        assert(texts(hosts@).len() == hosts@.len());
        let bad_until: Vec<u64> = vec![0u64; hosts.len()];
        assert(bad_until@ =~= Seq::new(upstreams@.len(), |i: int| 0u64));
        Some(ProxyState { hosts, active: 0, generation: 0, last_data_ms: 0, bad_until })
    }

    /// The number of upstreams.
    pub fn len(&self) -> (r: usize)
        ensures
            r == self.hosts().len(),
    {
        assert(texts(self.hosts@).len() == self.hosts@.len());
        self.hosts.len()
    }

    /// The host of the upstream `idx`.
    pub fn host(&self, idx: usize) -> (r: &str)
        requires
            idx < self.hosts().len(),
        ensures
            r@ == self.hosts()[idx as int],
    {
        self.hosts[idx].as_str()
    }

    /// What a new connection takes along: the active upstream and the generation.
    pub fn snapshot(&self) -> (r: (usize, u64))
        requires
            self.well_formed(),
        ensures
            r.0 == self@.active,
            r.1 == self@.generation,
            r.0 < self.hosts().len(),
    {
        (self.active, self.generation)
    }

    /// Whether a connection of the given generation may go on.
    pub fn is_current(&self, generation: u64) -> (r: bool)
        ensures
            r == (self@.generation == generation),
    {
        self.generation == generation
    }

    /// Notes that data came.
    pub fn note_data(&mut self, now_ms: u64)
        requires
            old(self).well_formed(),
        ensures
            final(self).well_formed(),
            final(self).hosts() == old(self).hosts(),
            final(self)@ == (ProxyView { last_data_ms: now_ms, ..old(self)@ }),
    {
        self.last_data_ms = now_ms;
    }

    /// Marks the upstream `idx`, which could not be dialled, as bad, and moves on to the next
    /// healthy one, which is returned.
    pub fn dial_failed(&mut self, idx: usize, now_ms: u64) -> (r: Option<usize>)
        requires
            old(self).well_formed(),
            idx < old(self).hosts().len(),
        ensures
            final(self).well_formed(),
            final(self).hosts() == old(self).hosts(),
            final(self)@ == failed_over(old(self)@, idx as int, now_ms),
            match (
                r,
                next_healthy(
                    idx as int,
                    final(self)@.bad_until,
                    now_ms,
                    final(self)@.bad_until.len() as int,
                    1,
                ),
            ) {
                (Some(j), Some(k)) => j == k && j == final(self)@.active,
                (None, None) => true,
                _ => false,
            },
    {
        self.bad_until.set(idx, now_ms.saturating_add(COOLDOWN_MS));
        let n = self.bad_until.len();
        let next = pick_next(idx, self.bad_until.as_slice(), now_ms, n);
        match next {
            Some(j) => {
                self.active = j;
                self.generation = self.generation.wrapping_add(1);
            },
            None => {},
        }
        next
    }

    /// How long no data came from the active upstream; 0 where the last of it lies ahead.
    pub fn silent_ms(&self, now_ms: u64) -> (r: u64)
        ensures
            r == if now_ms > self@.last_data_ms {
                now_ms - self@.last_data_ms
            } else {
                0
            },
    {
        now_ms.saturating_sub(self.last_data_ms)
    }

    /// Looks at the clock. Where the active upstream has stalled it is marked as bad, and the next
    /// healthy one, which is returned, takes over.
    pub fn tick(&mut self, now_ms: u64) -> (r: Option<usize>)
        requires
            old(self).well_formed(),
        ensures
            final(self).well_formed(),
            final(self).hosts() == old(self).hosts(),
            final(self)@ == ticked(old(self)@, now_ms),
            match r {
                Some(j) => stalled(old(self)@, now_ms) && j == final(self)@.active && j
                    != old(self)@.active,
                None => final(self)@.active == old(self)@.active,
            },
    {
        if self.last_data_ms == 0 || now_ms.saturating_sub(self.last_data_ms) <= STALL_MS {
            return None;
        }
        let idx = self.active;
        let next = self.dial_failed(idx, now_ms);
        self.last_data_ms = now_ms;
        proof {
            picked_is_healthy(
                idx as int,
                self@.bad_until,
                now_ms,
                self@.bad_until.len() as int,
                1,
            );
        }
        next
    }
}

/// An upstream that was marked as bad is not picked again before its cooldown is over.
pub proof fn bad_upstream_is_left_alone(
    proxy: ProxyView,
    idx: int,
    marked_ms: u64,
    cur: int,
    now_ms: u64,
)
    requires
        0 <= idx < proxy.bad_until.len(),
        0 <= cur < proxy.bad_until.len(),
        now_ms < cooled_until(marked_ms),
    ensures
        ({
            let bad_until = failed_over(proxy, idx, marked_ms).bad_until;
            next_healthy(cur, bad_until, now_ms, bad_until.len() as int, 1) != Some(idx)
        }),
{
    let bad_until = failed_over(proxy, idx, marked_ms).bad_until;
    picked_is_healthy(cur, bad_until, now_ms, bad_until.len() as int, 1);
}

/// An upstream that sends data at least every twenty seconds is never given up by the clock.
pub proof fn talking_upstream_stays(proxy: ProxyView, now_ms: u64)
    requires
        now_ms - proxy.last_data_ms <= STALL_MS,
    ensures
        ticked(proxy, now_ms) == proxy,
{
}

/// A push session skips or refuses a frame that is too long: from the active peer it is a broken
/// stream, from another peer it is skipped.
pub fn pump_header(len: u32, from_active: bool) -> (r: HeaderVerdict)
    ensures
        r == if len <= 60_000_000 {
            HeaderVerdict::Read
        } else if from_active {
            HeaderVerdict::Refuse
        } else {
            HeaderVerdict::Drain
        },
{
    if len > MAX_PUSH_FRAME {
        if from_active {
            HeaderVerdict::Refuse
        } else {
            HeaderVerdict::Drain
        }
    } else {
        HeaderVerdict::Read
    }
}

/// What to do with a live frame.
#[derive(Clone, Copy, Debug, PartialEq, Eq, Structural)]
pub enum FrameVerdict {
    Forward,
    Drop,
    /// The active peer sent a block with this implausible round: give its stream up.
    Implausible(u32),
}

/// What becomes of a live frame. A block passes where its round is plausible, lies above the
/// floor and follows what the session has forwarded. What has no round passes from the active
/// peer only.
pub open spec fn live_verdict(
    gate: (Seq<u32>, u32),
    typ: u8,
    payload: Seq<u8>,
    live_floor: u32,
    net_tip: u32,
    from_active: bool,
) -> FrameVerdict {
    match payload_round(payload) {
        Some(round) if typ == 1 => if !plausible_round(round, net_tip) {
            if from_active {
                FrameVerdict::Implausible(round)
            } else {
                FrameVerdict::Drop
            }
        } else if round > live_floor && forwards(gate.0, gate.1, round, from_active) {
            FrameVerdict::Forward
        } else {
            FrameVerdict::Drop
        },
        _ => if from_active {
            FrameVerdict::Forward
        } else {
            FrameVerdict::Drop
        },
    }
}

/// What has been forwarded after a live frame: only a block that passes is noted.
pub open spec fn gate_after_frame(
    gate: (Seq<u32>, u32),
    typ: u8,
    payload: Seq<u8>,
    live_floor: u32,
    net_tip: u32,
    from_active: bool,
) -> (Seq<u32>, u32) {
    match payload_round(payload) {
        Some(round) if typ == 1 && plausible_round(round, net_tip) && round > live_floor =>
            gate_after(gate, (round, from_active)),
        _ => gate,
    }
}

/// Decides what becomes of a live frame.
pub fn judge_live_frame(
    gate: &mut RoundForwardGate,
    typ: u8,
    payload: &[u8],
    live_floor: u32,
    net_tip: u32,
    from_active: bool,
) -> (r: FrameVerdict)
    requires
        old(gate).well_formed(),
    ensures
        final(gate).well_formed(),
        r == live_verdict(
            (old(gate).window(), old(gate).last()),
            typ,
            payload@,
            live_floor,
            net_tip,
            from_active,
        ),
        (final(gate).window(), final(gate).last()) == gate_after_frame(
            (old(gate).window(), old(gate).last()),
            typ,
            payload@,
            live_floor,
            net_tip,
            from_active,
        ),
{
    if typ == 1 {
        if let Some(round) = block_round(payload) {
            if !is_plausible_mainnet_round(round, net_tip) {
                if from_active {
                    return FrameVerdict::Implausible(round);
                }
                return FrameVerdict::Drop;
            }
            if round <= live_floor {
                return FrameVerdict::Drop;
            }
            if gate.should_forward(round, from_active) {
                return FrameVerdict::Forward;
            }
            return FrameVerdict::Drop;
        }
    }
    if from_active {
        FrameVerdict::Forward
    } else {
        FrameVerdict::Drop
    }
}

/// A block at or below the floor of a node never reaches it, and the round of a block that does
/// is the last one forwarded.
pub proof fn floor_holds(
    gate: (Seq<u32>, u32),
    payload: Seq<u8>,
    live_floor: u32,
    net_tip: u32,
    from_active: bool,
)
    requires
        gate.0.len() > 0,
        payload_round(payload) is Some,
    ensures
        payload_round(payload)->0 <= live_floor ==> live_verdict(
            gate,
            1,
            payload,
            live_floor,
            net_tip,
            from_active,
        ) != FrameVerdict::Forward,
        live_verdict(gate, 1, payload, live_floor, net_tip, from_active) == FrameVerdict::Forward
            ==> gate_after_frame(gate, 1, payload, live_floor, net_tip, from_active).1
            == payload_round(payload)->0,
{
}

/// A frame as a push session meets it.
pub struct MetFrame {
    pub typ: u8,
    pub payload: Seq<u8>,
    /// The node's floor at that time.
    pub live_floor: u32,
    /// The known tip at that time.
    pub net_tip: u32,
    pub from_active: bool,
}

/// The verdict on a frame.
pub open spec fn verdict_on(gate: (Seq<u32>, u32), frame: MetFrame) -> FrameVerdict {
    live_verdict(
        gate,
        frame.typ,
        frame.payload,
        frame.live_floor,
        frame.net_tip,
        frame.from_active,
    )
}

/// What a session has forwarded after all of `frames`, first to last.
pub open spec fn gate_after_frames(gate: (Seq<u32>, u32), frames: Seq<MetFrame>) -> (Seq<u32>, u32)
    decreases frames.len(),
{
    if frames.len() == 0 {
        gate
    } else {
        let f = frames.last();
        gate_after_frame(
            gate_after_frames(gate, frames.drop_last()),
            f.typ,
            f.payload,
            f.live_floor,
            f.net_tip,
            f.from_active,
        )
    }
}

/// The rounds of the blocks that go to the node out of `frames`, in order.
pub open spec fn pushed_rounds(gate: (Seq<u32>, u32), frames: Seq<MetFrame>) -> Seq<u32>
    decreases frames.len(),
{
    if frames.len() == 0 {
        Seq::empty()
    } else {
        let rounds = pushed_rounds(gate, frames.drop_last());
        let f = frames.last();
        match payload_round(f.payload) {
            Some(round) if f.typ == 1 && verdict_on(
                gate_after_frames(gate, frames.drop_last()),
                f,
            ) == FrameVerdict::Forward => rounds.push(round),
            _ => rounds,
        }
    }
}

/// The rounds of `frames` that are plausible and lie above the floor, with where they came from.
spec fn gate_events(frames: Seq<MetFrame>) -> Seq<(u32, bool)>
    decreases frames.len(),
{
    if frames.len() == 0 {
        Seq::empty()
    } else {
        let events = gate_events(frames.drop_last());
        let f = frames.last();
        match payload_round(f.payload) {
            Some(round) if f.typ == 1 && plausible_round(round, f.net_tip) && round
                > f.live_floor => events.push((round, f.from_active)),
            _ => events,
        }
    }
}

proof fn pushed_is_passed_on(gate: (Seq<u32>, u32), frames: Seq<MetFrame>)
    ensures
        gate_after_frames(gate, frames) == gate_after_all(gate, gate_events(frames)),
        pushed_rounds(gate, frames) == passed_on(gate, gate_events(frames)),
    decreases frames.len(),
{
    if frames.len() > 0 {
        let before = frames.drop_last();
        pushed_is_passed_on(gate, before);
        let f = frames.last();
        match payload_round(f.payload) {
            Some(round) if f.typ == 1 && plausible_round(round, f.net_tip) && round
                > f.live_floor => {
                let events = gate_events(before).push((round, f.from_active));
                assert(events.drop_last() =~= gate_events(before));
            },
            _ => {},
        }
    }
}

/// The node gets each round at most once and in rising order, all of them above the round that
/// the session started from, whichever peers the frames came from.
pub proof fn node_sees_rounds_rise(window: Seq<u32>, start: u32, frames: Seq<MetFrame>)
    requires
        window.len() > 0,
        forall|i: int| 0 <= i < window.len() ==> window[i] == 0,
        start < u32::MAX,
    ensures
        ({
            let rounds = pushed_rounds((window, start), frames);
            &&& forall|i: int| 0 <= i < rounds.len() ==> start < #[trigger] rounds[i]
            &&& forall|i: int, j: int|
                0 <= i < j < rounds.len() ==> #[trigger] rounds[i] < #[trigger] rounds[j]
        }),
{
    pushed_is_passed_on((window, start), frames);
    passed_on_increases(window, start, gate_events(frames));
}

/// Why a frame that was read ahead of the session cannot be used.
#[derive(Clone, Copy, Debug, PartialEq, Eq, Structural)]
pub enum FrameError {
    Short,
    MisSized,
    Implausible(u32),
}

/// The message of an error.
pub open spec fn frame_error_text(error: FrameError) -> Seq<char> {
    match error {
        FrameError::Short => "short prefetched frame"@,
        FrameError::MisSized => "mis-sized prefetched frame"@,
        FrameError::Implausible(round) => "implausible active block round "@ + decimal(
            round as nat,
        ),
    }
}

impl FrameError {
    /// The message of the error.
    pub fn message(&self) -> (r: String)
        ensures
            r@ == frame_error_text(*self),
    {
        match self {
            FrameError::Short => "short prefetched frame".to_owned(),
            FrameError::MisSized => "mis-sized prefetched frame".to_owned(),
            FrameError::Implausible(round) => {
                let mut r = "implausible active block round ".to_owned();
                push_decimal(&mut r, *round as u64);
                r
            },
        }
    }
}

/// What becomes of a frame that was read ahead of the session: an error where it is not one whole
/// frame or the active peer's round is implausible, else whether it goes to the node.
pub open spec fn prefetched_outcome(
    gate: (Seq<u32>, u32),
    frame: Seq<u8>,
    live_floor: u32,
    net_tip: u32,
    from_active: bool,
) -> Result<bool, FrameError> {
    if frame.len() < 5 {
        Err(FrameError::Short)
    } else if frame_len(frame, 0) != frame.len() - 5 {
        Err(FrameError::MisSized)
    } else {
        match live_verdict(gate, frame[4], frame.skip(5), live_floor, net_tip, from_active) {
            FrameVerdict::Forward => Ok(true),
            FrameVerdict::Drop => Ok(false),
            FrameVerdict::Implausible(round) => Err(FrameError::Implausible(round)),
        }
    }
}

/// Decides what becomes of a frame that was read ahead of the session.
pub fn process_live_frame(
    frame: &[u8],
    gate: &mut RoundForwardGate,
    live_floor: u32,
    net_tip: u32,
    from_active: bool,
) -> (r: Result<bool, FrameError>)
    requires
        old(gate).well_formed(),
    ensures
        final(gate).well_formed(),
        r == prefetched_outcome(
            (old(gate).window(), old(gate).last()),
            frame@,
            live_floor,
            net_tip,
            from_active,
        ),
        (final(gate).window(), final(gate).last()) == if frame@.len() >= 5 && frame_len(frame@, 0)
            == frame@.len() - 5 {
            gate_after_frame(
                (old(gate).window(), old(gate).last()),
                frame@[4],
                frame@.skip(5),
                live_floor,
                net_tip,
                from_active,
            )
        } else {
            (old(gate).window(), old(gate).last())
        },
{
    if frame.len() < HEADER_LEN {
        return Err(FrameError::Short);
    }
    let len: usize = read_frame_len(frame, 0) as usize;
    if len != frame.len() - HEADER_LEN {
        return Err(FrameError::MisSized);
    }
    let payload = vstd::slice::slice_subrange(frame, HEADER_LEN, frame.len());
    assert(payload@ =~= frame@.skip(5));
    match judge_live_frame(gate, frame[4], payload, live_floor, net_tip, from_active) {
        FrameVerdict::Forward => Ok(true),
        FrameVerdict::Drop => Ok(false),
        FrameVerdict::Implausible(round) => Err(FrameError::Implausible(round)),
    }
}

/// Why a push session ended.
pub enum PushExit {
    NodeGreetingWrite(String),
    GreetingHeaderRead(String),
    GreetingOversized(u32),
    GreetingPayloadRead(String),
    OutboundEnded,
    OutboundWrite(String),
    OutboundTimeout,
    OutboundJoin(String),
    Prefetched(String),
    ActiveEnded,
    ActiveError(String),
    ActiveJoin(String),
    NodeWrite(String),
}

/// The reason in words.
pub open spec fn exit_text(exit: PushExit) -> Seq<char> {
    match exit {
        PushExit::NodeGreetingWrite(e) => "node greeting write failed: "@ + e@,
        PushExit::GreetingHeaderRead(e) => "active greeting header read failed: "@ + e@,
        PushExit::GreetingOversized(len) => "active greeting oversized len="@ + decimal(len as nat),
        PushExit::GreetingPayloadRead(e) => "active greeting payload read failed: "@ + e@,
        PushExit::OutboundEnded => "node outbound ended"@,
        PushExit::OutboundWrite(e) => "node outbound write failed: "@ + e@,
        PushExit::OutboundTimeout => "node outbound write timeout"@,
        PushExit::OutboundJoin(e) => "node outbound task join error: "@ + e@,
        PushExit::Prefetched(e) => "prefetched frame processing failed: "@ + e@,
        PushExit::ActiveEnded => "active stream ended"@,
        PushExit::ActiveError(e) => "active stream error: "@ + e@,
        PushExit::ActiveJoin(e) => "active task join error: "@ + e@,
        PushExit::NodeWrite(e) => "node write failed: "@ + e@,
    }
}

fn labelled(label: &str, e: &str) -> (r: String)
    ensures
        r@ == label@ + e@,
{
    let mut r = label.to_owned();
    push_text(&mut r, e);
    r
}

impl PushExit {
    /// The reason in words.
    pub fn reason(&self) -> (r: String)
        ensures
            r@ == exit_text(*self),
    {
        match self {
            PushExit::NodeGreetingWrite(e) => labelled("node greeting write failed: ", e.as_str()),
            PushExit::GreetingHeaderRead(e) => labelled(
                "active greeting header read failed: ",
                e.as_str(),
            ),
            PushExit::GreetingOversized(len) => labelled(
                "active greeting oversized len=",
                decimal_text(*len as u64).as_str(),
            ),
            PushExit::GreetingPayloadRead(e) => labelled(
                "active greeting payload read failed: ",
                e.as_str(),
            ),
            PushExit::OutboundEnded => "node outbound ended".to_owned(),
            PushExit::OutboundWrite(e) => labelled("node outbound write failed: ", e.as_str()),
            PushExit::OutboundTimeout => "node outbound write timeout".to_owned(),
            PushExit::OutboundJoin(e) => labelled("node outbound task join error: ", e.as_str()),
            PushExit::Prefetched(e) => labelled("prefetched frame processing failed: ", e.as_str()),
            PushExit::ActiveEnded => "active stream ended".to_owned(),
            PushExit::ActiveError(e) => labelled("active stream error: ", e.as_str()),
            PushExit::ActiveJoin(e) => labelled("active task join error: ", e.as_str()),
            PushExit::NodeWrite(e) => labelled("node write failed: ", e.as_str()),
        }
    }
}

/// What a push session does next.
#[derive(Clone, Copy, Debug, PartialEq, Eq, Structural)]
pub enum PushPhase {
    /// Read the header of the active peer's greeting.
    ReadHeader,
    /// Read the payload of the greeting, so many bytes.
    ReadPayload(u32),
    /// Write the greeting to the node.
    SendGreeting,
    /// Process the frame at this place of those that were read ahead.
    Prefetched(usize),
    /// Pass frames to the node and the node's bytes to the active peer until one side ends.
    Relay,
    /// Nothing: tear the session down.
    Over,
}

/// What came of the thing a push session did.
pub enum PushEvent {
    /// It succeeded.
    Done,
    /// It was a read and brought these bytes.
    Read(Vec<u8>),
    /// It failed.
    Failed(String),
    /// The relay came to its end.
    Ended(PushExit),
}

/// Where a push session stands.
pub struct PushView {
    pub phase: PushPhase,
    /// The greeting for the node, as far as it is there.
    pub greeting: Seq<u8>,
    /// Whether the node has the greeting.
    pub greeted: bool,
    /// The number of frames that were read ahead.
    pub prefetched: nat,
    pub exit: Option<PushExit>,
}

/// The end of a session.
pub open spec fn push_over(session: PushView, exit: PushExit) -> PushView {
    PushView { phase: PushPhase::Over, exit: Some(exit), ..session }
}

/// The phase for the frame at `place` of those that were read ahead; the relay behind the last.
pub open spec fn prefetched_phase(place: int, prefetched: nat) -> PushPhase {
    if place < prefetched {
        PushPhase::Prefetched(place as usize)
    } else {
        PushPhase::Relay
    }
}

/// Where a session goes from a phase on an event. What does not fit the phase is ignored.
pub open spec fn push_next(session: PushView, event: PushEvent) -> PushView {
    match (session.phase, event) {
        (PushPhase::ReadHeader, PushEvent::Read(bytes)) => if frame_len(bytes@, 0) > MAX_GREETING {
            push_over(session, PushExit::GreetingOversized(frame_len(bytes@, 0) as u32))
        } else {
            PushView {
                phase: PushPhase::ReadPayload(frame_len(bytes@, 0) as u32),
                greeting: bytes@,
                ..session
            }
        },
        (PushPhase::ReadHeader, PushEvent::Failed(e)) => push_over(
            session,
            PushExit::GreetingHeaderRead(e),
        ),
        (PushPhase::ReadPayload(_), PushEvent::Read(bytes)) => PushView {
            phase: PushPhase::SendGreeting,
            greeting: session.greeting + bytes@,
            ..session
        },
        (PushPhase::ReadPayload(_), PushEvent::Failed(e)) => push_over(
            session,
            PushExit::GreetingPayloadRead(e),
        ),
        (PushPhase::SendGreeting, PushEvent::Done) => PushView {
            phase: prefetched_phase(0, session.prefetched),
            greeted: true,
            ..session
        },
        (PushPhase::SendGreeting, PushEvent::Failed(e)) => push_over(
            session,
            PushExit::NodeGreetingWrite(e),
        ),
        (PushPhase::Prefetched(place), PushEvent::Done) => PushView {
            phase: prefetched_phase(place + 1, session.prefetched),
            ..session
        },
        (PushPhase::Prefetched(_), PushEvent::Failed(e)) => push_over(
            session,
            PushExit::Prefetched(e),
        ),
        (PushPhase::Relay, PushEvent::Ended(exit)) => push_over(session, exit),
        _ => session,
    }
}

/// The bytes of an event fit the phase: five for a header, the announced number for a payload.
pub open spec fn push_event_fits(phase: PushPhase, event: PushEvent) -> bool {
    match (phase, event) {
        (PushPhase::ReadHeader, PushEvent::Read(bytes)) => bytes@.len() == 5,
        (PushPhase::ReadPayload(len), PushEvent::Read(bytes)) => bytes@.len() == len,
        _ => true,
    }
}

/// A session that pushes one active peer's stream to a node.
pub struct PushSession {
    phase: PushPhase,
    greeting: Vec<u8>,
    greeted: bool,
    prefetched: usize,
    exit: Option<PushExit>,
}

impl View for PushSession {
    type V = PushView;

    closed spec fn view(&self) -> PushView {
        PushView {
            phase: self.phase,
            greeting: self.greeting@,
            greeted: self.greeted,
            prefetched: self.prefetched as nat,
            exit: self.exit,
        }
    }
}

/// What holds of every session: frames go to the node only after the greeting, and the end has a
/// reason.
pub open spec fn push_sound(session: PushView) -> bool {
    &&& session.phase is Relay ==> session.greeted
    &&& session.phase matches PushPhase::Prefetched(place) ==> session.greeted && place
        < session.prefetched
    &&& session.phase is Over <==> session.exit is Some
}

impl PushSession {
    /// A session that starts with a greeting that was read ahead, or with none.
    pub fn new(greeting: Option<Vec<u8>>, prefetched: usize) -> (r: PushSession)
        ensures
            push_sound(r@),
            r@ == (PushView {
                phase: if greeting is Some {
                    PushPhase::SendGreeting
                } else {
                    PushPhase::ReadHeader
                },
                greeting: match greeting {
                    Some(bytes) => bytes@,
                    None => Seq::empty(),
                },
                greeted: false,
                prefetched: prefetched as nat,
                exit: None,
            }),
    {
        match greeting {
            Some(greeting) => PushSession {
                phase: PushPhase::SendGreeting,
                greeting,
                greeted: false,
                prefetched,
                exit: None,
            },
            None => PushSession {
                phase: PushPhase::ReadHeader,
                greeting: Vec::new(),
                greeted: false,
                prefetched,
                exit: None,
            },
        }
    }

    /// What to do next.
    pub fn phase(&self) -> (r: PushPhase)
        ensures
            r == self@.phase,
    {
        self.phase
    }

    /// The greeting for the node.
    pub fn greeting(&self) -> (r: &Vec<u8>)
        ensures
            r@ == self@.greeting,
    {
        &self.greeting
    }

    /// Why the session ended, in words; empty where it has not.
    pub fn exit_reason(&self) -> (r: String)
        ensures
            r@ == match self@.exit {
                Some(exit) => exit_text(exit),
                None => Seq::empty(),
            },
    {
        match &self.exit {
            Some(exit) => exit.reason(),
            None => String::new(),
        }
    }

    fn end(&mut self, exit: PushExit)
        ensures
            final(self)@ == push_over(old(self)@, exit),
    {
        self.phase = PushPhase::Over;
        self.exit = Some(exit);
    }

    /// Takes what came of the last thing to do.
    pub fn step(&mut self, event: PushEvent)
        requires
            push_event_fits(old(self)@.phase, event),
            push_sound(old(self)@),
        ensures
            final(self)@ == push_next(old(self)@, event),
            push_sound(final(self)@),
    {
        match self.phase {
            PushPhase::ReadHeader => match event {
                PushEvent::Read(bytes) => {
                    let len: u32 = read_frame_len(bytes.as_slice(), 0);
                    if len > MAX_GREETING {
                        self.end(PushExit::GreetingOversized(len));
                    } else {
                        self.phase = PushPhase::ReadPayload(len);
                        self.greeting = bytes;
                    }
                },
                PushEvent::Failed(e) => self.end(PushExit::GreetingHeaderRead(e)),
                _ => {},
            },
            PushPhase::ReadPayload(_) => match event {
                PushEvent::Read(bytes) => {
                    self.greeting.extend_from_slice(bytes.as_slice());
                    self.phase = PushPhase::SendGreeting;
                    assert(self@.greeting =~= old(self)@.greeting + bytes@);
                },
                PushEvent::Failed(e) => self.end(PushExit::GreetingPayloadRead(e)),
                _ => {},
            },
            PushPhase::SendGreeting => match event {
                PushEvent::Done => {
                    self.greeted = true;
                    self.phase = if 0 < self.prefetched {
                        PushPhase::Prefetched(0)
                    } else {
                        PushPhase::Relay
                    };
                },
                PushEvent::Failed(e) => self.end(PushExit::NodeGreetingWrite(e)),
                _ => {},
            },
            PushPhase::Prefetched(place) => match event {
                PushEvent::Done => {
                    self.phase = if place + 1 < self.prefetched {
                        PushPhase::Prefetched(place + 1)
                    } else {
                        PushPhase::Relay
                    };
                },
                PushEvent::Failed(e) => self.end(PushExit::Prefetched(e)),
                _ => {},
            },
            PushPhase::Relay => match event {
                PushEvent::Ended(exit) => self.end(exit),
                _ => {},
            },
            PushPhase::Over => {},
        }
    }
}

/// A session that is over stays over, for the reason it ended with: the node has to connect anew,
/// and no other peer takes the stream over.
pub proof fn over_is_final(session: PushView, event: PushEvent)
    requires
        session.phase is Over,
    ensures
        push_next(session, event) == session,
{
}

/// When the active stream of a relaying session ends in whatever way, the session is over.
pub proof fn active_death_ends_session(session: PushView, exit: PushExit)
    requires
        session.phase is Relay,
    ensures
        push_next(session, PushEvent::Ended(exit)).phase is Over,
        push_next(session, PushEvent::Ended(exit)).exit == Some(exit),
{
}

/// The peers whose blocks are pushed beside the active one's, as dialling addresses.
pub open spec fn shadow_list(hosts: Seq<Seq<char>>, active: int, port: u16) -> Seq<Seq<char>>
    decreases hosts.len(),
{
    if hosts.len() == 0 {
        Seq::empty()
    } else {
        let list = shadow_list(hosts.drop_last(), active, port);
        if hosts.len() - 1 == active {
            list
        } else {
            list.push(endpoint_text(hosts.last(), port))
        }
    }
}

/// The dialling addresses of the shadow peers: every host but the active one where shadow blocks
/// are `enabled`, else none.
pub fn shadow_targets(hosts: &Vec<String>, active: usize, port: u16, enabled: bool) -> (r: Vec<
    String,
>)
    ensures
        texts(r@) == if enabled {
            shadow_list(texts(hosts@), active as int, port)
        } else {
            Seq::empty()
        },
{
    let mut out: Vec<String> = Vec::new();
    assert(texts(out@) =~= Seq::<Seq<char>>::empty());
    if !enabled {
        return out;
    }
    let ghost all = texts(hosts@);
    let mut i: usize = 0;
    assert(all.take(0) =~= Seq::<Seq<char>>::empty());
    while i < hosts.len()
        invariant
            i <= hosts@.len(),
            all == texts(hosts@),
            texts(out@) == shadow_list(all.take(i as int), active as int, port),
        decreases hosts@.len() - i,
    {
        assert(all.take(i + 1).drop_last() =~= all.take(i as int));
        assert(all.take(i + 1).last() == hosts@[i as int]@);
        if i != active {
            let ghost before = out@;
            let target = endpoint(hosts[i].as_str(), port);
            out.push(target);
            proof {
                texts_push(before, target);
            }
        }
        i = i + 1;
    }
    assert(all.take(i as int) =~= all);
    out
}

/// What becomes of a frame at every point of the history of a session that started with an empty
/// window, where `last` is the last round that went to the node (the session's start before the
/// first). The active peer's block goes to the node where its round is plausible for the known tip
/// (at least 1,000,000,000, at most 200,000 above the tip) and lies above the node's floor and above
/// `last`; another peer's only where its round is also just the next one. An implausible round of
/// the active peer is reported. What is no block with a round goes to the node from the active peer
/// alone.
pub proof fn verdict_goes_by_the_round(
    window: Seq<u32>,
    start: u32,
    frames: Seq<MetFrame>,
    f: MetFrame,
)
    requires
        window.len() > 0,
        forall|i: int| 0 <= i < window.len() ==> window[i] == 0,
        start < u32::MAX,
    ensures
        ({
            let gate = gate_after_frames((window, start), frames);
            let sent = pushed_rounds((window, start), frames);
            let last = if sent.len() == 0 {
                start
            } else {
                sent.last()
            };
            let verdict = verdict_on(gate, f);
            let round = payload_round(f.payload);
            &&& gate.1 == last
            &&& f.typ == 1 && round is Some ==> {
                let r = round->0;
                let plausible = r >= 1_000_000_000 && (f.net_tip == 0 || r <= f.net_tip + 200_000);
                &&& !plausible && f.from_active ==> verdict == FrameVerdict::Implausible(r)
                &&& !plausible && !f.from_active ==> verdict is Drop
                &&& plausible && f.from_active ==> (verdict is Forward <==> r > f.live_floor && r
                    > last)
                &&& plausible && !f.from_active && last < u32::MAX ==> (verdict is Forward <==> r
                    > f.live_floor && last > 0 && r == last + 1)
                &&& plausible ==> verdict is Forward || verdict is Drop
            }
            &&& f.typ != 1 || round is None ==> (verdict is Forward <==> f.from_active) && (verdict
                is Drop <==> !f.from_active)
        }),
{
    pushed_is_passed_on((window, start), frames);
    let events = gate_events(frames);
    passed_on_increases(window, start, events);
    if let Some(r) = payload_round(f.payload) {
        gate_goes_by_the_last_round(window, start, events, r);
        plausible_up_to_the_slack(r, f.net_tip);
    }
}

/// A block of the active peer that is plausible and above the floor and the last round sent is the
/// next one that the node gets, and from then on the last one sent; a frame that does not go to the
/// node leaves the session as it was.
pub proof fn next_block_reaches_the_node(
    window: Seq<u32>,
    start: u32,
    frames: Seq<MetFrame>,
    f: MetFrame,
)
    requires
        window.len() > 0,
        forall|i: int| 0 <= i < window.len() ==> window[i] == 0,
        start < u32::MAX,
        f.typ == 1,
        f.from_active,
        payload_round(f.payload) is Some,
    ensures
        ({
            let r = payload_round(f.payload)->0;
            let sent = pushed_rounds((window, start), frames);
            let last = if sent.len() == 0 {
                start
            } else {
                sent.last()
            };
            let passes = r >= 1_000_000_000 && (f.net_tip == 0 || r <= f.net_tip + 200_000) && r
                > f.live_floor && r > last;
            &&& passes ==> pushed_rounds((window, start), frames.push(f)) == sent.push(r)
            &&& passes ==> gate_after_frames((window, start), frames.push(f)).1 == r
            &&& !passes ==> pushed_rounds((window, start), frames.push(f)) == sent
            &&& !passes ==> gate_after_frames((window, start), frames.push(f))
                == gate_after_frames((window, start), frames)
        }),
{
    verdict_goes_by_the_round(window, start, frames, f);
    assert(frames.push(f).drop_last() =~= frames);
    let r = payload_round(f.payload)->0;
    plausible_up_to_the_slack(r, f.net_tip);
    pushed_is_passed_on((window, start), frames);
    gate_goes_by_the_last_round(window, start, gate_events(frames), r);
}

/// A frame that was read ahead is judged as one that is met in the session; it has to be one whole
/// frame.
pub proof fn frame_read_ahead_is_judged_alike(
    gate: (Seq<u32>, u32),
    typ: u8,
    payload: Seq<u8>,
    frame: Seq<u8>,
    live_floor: u32,
    net_tip: u32,
    from_active: bool,
)
    requires
        payload.len() <= u32::MAX,
    ensures
        ({
            let outcome = prefetched_outcome(
                gate,
                frame_bytes(typ, payload),
                live_floor,
                net_tip,
                from_active,
            );
            let verdict = live_verdict(gate, typ, payload, live_floor, net_tip, from_active);
            &&& outcome == Ok::<bool, FrameError>(true) <==> verdict is Forward
            &&& outcome == Ok::<bool, FrameError>(false) <==> verdict is Drop
            &&& verdict matches FrameVerdict::Implausible(round) ==> outcome == Err::<
                bool,
                FrameError,
            >(FrameError::Implausible(round))
        }),
        frame.len() < 5 <==> prefetched_outcome(gate, frame, live_floor, net_tip, from_active)
            == Err::<bool, FrameError>(FrameError::Short),
        frame.len() >= 5 ==> (prefetched_outcome(gate, frame, live_floor, net_tip, from_active)
            == Err::<bool, FrameError>(FrameError::MisSized) <==> frame.len() != 5 + frame[0]
            * 0x1000000 + frame[1] * 0x10000 + frame[2] * 0x100 + frame[3]),
{
    frame_reads_back(typ, payload);
    if frame.len() >= 5 {
        assert(frame.subrange(0, 4) =~= seq![frame[0], frame[1], frame[2], frame[3]]);
    }
}

/// The merge passes every data frame on whose round it has not met since it began, and every data
/// frame without a round; it passes no other frame on.
pub proof fn merge_passes_new_rounds(n: nat, seen: Seq<u32>, typ: u8, payload: Seq<u8>)
    requires
        n > 0,
        payload_round(payload) matches Some(round) ==> round > 0 && !seen.contains(round),
    ensures
        merge_passes(slots_after_all(Seq::new(n, |i: int| 0u32), seen), typ, payload) <==> typ == 1,
{
    if let Some(round) = payload_round(payload) {
        window_knows_what_it_saw(n, seen, round);
    }
}

/// The upstream that is picked is the nearest one behind `cur`, walking round, that is not in
/// cooldown; one is picked wherever there is one.
pub proof fn picked_is_nearest(cur: int, bad_until: Seq<u64>, now_ms: u64, n: int, off: int)
    requires
        0 <= cur < n,
        1 <= off,
    ensures
        match next_healthy(cur, bad_until, now_ms, n, off) {
            Some(j) => exists|k: int|
                off <= k < n && j == #[trigger] ((cur + k) % n) && bad_until[j] <= now_ms && forall|
                    i: int,
                | off <= i < k ==> bad_until[#[trigger] ((cur + i) % n)] > now_ms,
            None => forall|k: int| off <= k < n ==> bad_until[#[trigger] ((cur + k) % n)] > now_ms,
        },
    decreases n - off,
{
    if off < n {
        if bad_until[(cur + off) % n] <= now_ms {
            assert(off <= off < n && next_healthy(cur, bad_until, now_ms, n, off) == Some(
                (cur + off) % n,
            ));
        } else {
            picked_is_nearest(cur, bad_until, now_ms, n, off + 1);
            if let Some(j) = next_healthy(cur, bad_until, now_ms, n, off + 1) {
                let k = choose|k: int|
                    off + 1 <= k < n && j == #[trigger] ((cur + k) % n) && bad_until[j] <= now_ms
                        && forall|i: int|
                        off + 1 <= i < k ==> bad_until[#[trigger] ((cur + i) % n)] > now_ms;
                assert forall|i: int| off <= i < k implies bad_until[#[trigger] ((cur + i) % n)]
                    > now_ms by {}
                assert(off <= k < n && j == (cur + k) % n);
            }
        }
    }
}

/// An upstream that fails is not picked for the next thirty seconds, and the next healthy one takes
/// over; where there is none, all stays as it is but for that mark. Every failover has a new
/// generation, so that the connections of the old one end.
pub proof fn failed_upstream_hands_over(proxy: ProxyView, idx: int, now_ms: u64)
    requires
        0 <= idx < proxy.bad_until.len(),
        now_ms <= u64::MAX - 30_000,
    ensures
        ({
            let after = failed_over(proxy, idx, now_ms);
            let n = proxy.bad_until.len() as int;
            &&& after.bad_until.len() == n
            &&& after.bad_until[idx] == now_ms + 30_000
            &&& forall|i: int|
                0 <= i < n && i != idx ==> #[trigger] after.bad_until[i] == proxy.bad_until[i]
            &&& after.last_data_ms == proxy.last_data_ms
            &&& (after.active, after.generation) == (proxy.active, proxy.generation) || {
                &&& 0 <= after.active < n && after.active != idx
                &&& proxy.bad_until[after.active] <= now_ms
                &&& after.generation != proxy.generation
            }
            &&& (exists|j: int|
                0 <= j < n && j != idx && #[trigger] proxy.bad_until[j] <= now_ms)
                ==> after.generation != proxy.generation && after.active != idx
        }),
{
    let after = failed_over(proxy, idx, now_ms);
    let n = proxy.bad_until.len() as int;
    picked_is_healthy(idx, after.bad_until, now_ms, n, 1);
    if exists|j: int| 0 <= j < n && j != idx && #[trigger] proxy.bad_until[j] <= now_ms {
        let j = choose|j: int| 0 <= j < n && j != idx && #[trigger] proxy.bad_until[j] <= now_ms;
        let k = if j > idx {
            j - idx
        } else {
            j - idx + n
        };
        assert((idx + k) % n == j) by (nonlinear_arith)
            requires
                0 <= idx < n,
                0 <= j < n,
                k == j - idx || k == j - idx + n,
        ;
        assert(after.bad_until[j] == proxy.bad_until[j]);
        assert(after.bad_until[(idx + k) % n] <= now_ms);
    }
}

/// The clock gives the active upstream up just where data has come before and none for more than
/// twenty seconds; the silence is then counted from that time on.
pub proof fn silent_upstream_is_given_up(proxy: ProxyView, now_ms: u64)
    requires
        0 <= proxy.active < proxy.bad_until.len(),
        now_ms <= u64::MAX - 30_000,
    ensures
        ({
            let after = ticked(proxy, now_ms);
            let silent = proxy.last_data_ms > 0 && now_ms > proxy.last_data_ms + 20_000;
            &&& !silent ==> after == proxy
            &&& silent ==> {
                &&& after.bad_until[proxy.active] == now_ms + 30_000
                &&& after.last_data_ms == now_ms
                &&& (exists|j: int|
                    0 <= j < proxy.bad_until.len() && j != proxy.active
                        && #[trigger] proxy.bad_until[j] <= now_ms) ==> after.active
                    != proxy.active && after.generation != proxy.generation
            }
        }),
{
    failed_upstream_hands_over(proxy, proxy.active, now_ms);
}

/// The greeting that the node gets is what the active peer sent, header and payload; a greeting of
/// more than 1,000 bytes ends the session.
pub proof fn greeting_is_passed_on(session: PushView, hdr: Vec<u8>, payload: Vec<u8>)
    requires
        session.phase is ReadHeader,
        hdr@.len() == 5,
    ensures
        ({
            let len = hdr@[0] * 0x1000000 + hdr@[1] * 0x10000 + hdr@[2] * 0x100 + hdr@[3];
            let one = push_next(session, PushEvent::Read(hdr));
            let two = push_next(one, PushEvent::Read(payload));
            &&& len > 1_000 ==> one.phase is Over && one.exit == Some(
                PushExit::GreetingOversized(len as u32),
            )
            &&& len <= 1_000 ==> {
                &&& one.phase == PushPhase::ReadPayload(len as u32)
                &&& one.exit == session.exit
                &&& two.phase is SendGreeting
                &&& two.greeting == hdr@ + payload@
                &&& two.greeted == session.greeted && two.prefetched == session.prefetched
            }
        }),
{
    assert(hdr@.subrange(0, 4) =~= seq![hdr@[0], hdr@[1], hdr@[2], hdr@[3]]);
}

/// Once the node has the greeting, the frames that were read ahead are processed one after the
/// other, each once, and then the relay begins.
pub proof fn frames_read_ahead_come_in_order(session: PushView)
    ensures
        ({
            let next = push_next(session, PushEvent::Done);
            &&& session.phase is SendGreeting ==> {
                &&& next.greeted
                &&& session.prefetched > 0 ==> next.phase == PushPhase::Prefetched(0)
                &&& session.prefetched == 0 ==> next.phase is Relay
            }
            &&& session.phase matches PushPhase::Prefetched(place) ==> {
                &&& place + 1 < session.prefetched <= usize::MAX ==> next.phase
                    == PushPhase::Prefetched((place + 1) as usize)
                &&& place + 1 >= session.prefetched ==> next.phase is Relay
                &&& next.greeted == session.greeted
            }
            &&& next.greeting == session.greeting && next.prefetched == session.prefetched
            &&& next.exit == session.exit
            &&& session.phase is Relay || session.phase is ReadHeader || session.phase is ReadPayload
                ==> next == session
        }),
{
}

/// Whatever fails before the relay ends the session with the reason of that step.
pub proof fn failure_ends_the_session(session: PushView, e: String)
    ensures
        ({
            let next = push_next(session, PushEvent::Failed(e));
            &&& session.phase is ReadHeader || session.phase is ReadPayload || session.phase
                is SendGreeting || session.phase is Prefetched ==> next.phase is Over
            &&& session.phase is ReadHeader ==> next.exit == Some(PushExit::GreetingHeaderRead(e))
            &&& session.phase is ReadPayload ==> next.exit == Some(PushExit::GreetingPayloadRead(e))
            &&& session.phase is SendGreeting ==> next.exit == Some(PushExit::NodeGreetingWrite(e))
            &&& session.phase is Prefetched ==> next.exit == Some(PushExit::Prefetched(e))
            &&& session.phase is Relay ==> next == session
        }),
{
}

/// Every host but the active one is a shadow peer, in the order of the hosts.
pub proof fn shadows_are_all_others(hosts: Seq<Seq<char>>, active: int, port: u16)
    requires
        0 <= active,
    ensures
        ({
            let list = shadow_list(hosts, active, port);
            &&& list.len() == if active < hosts.len() {
                hosts.len() - 1
            } else {
                hosts.len() as int
            }
            &&& forall|i: int|
                0 <= i < list.len() ==> #[trigger] list[i] == hosts[if i < active {
                    i
                } else {
                    i + 1
                }] + seq![':'] + decimal(port as nat)
        }),
    decreases hosts.len(),
{
    if hosts.len() > 0 {
        shadows_are_all_others(hosts.drop_last(), active, port);
    }
}

/// A dialling address is the host, a colon and the port; the port reads back.
pub proof fn endpoint_reads_back(host: Seq<char>, port: u16)
    ensures
        ({
            let text = endpoint_text(host, port);
            let at = host.len() as int;
            &&& text.len() > at + 1
            &&& text.take(at) == host
            &&& text[at] == ':'
            &&& number(text.skip(at + 1), u16::MAX as nat) == Some(port as nat)
        }),
{
    let text = endpoint_text(host, port);
    let at = host.len() as int;
    decimal_reads_back(port as nat, u16::MAX as nat);
    assert(text.take(at) =~= host);
    assert(text.skip(at + 1) =~= decimal(port as nat));
}

/// A cooldown lasts thirty seconds, or to the end of time where that is nearer.
pub proof fn cooldown_lasts_thirty_seconds(now_ms: u64)
    ensures
        cooled_until(now_ms) <= now_ms + 30_000,
        cooled_until(now_ms) == now_ms + 30_000 || cooled_until(now_ms) == u64::MAX,
{
}

} // verus!
