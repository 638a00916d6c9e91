//! Consensus rounds of block frames: how a round is read from a compressed block, which rounds
//! are plausible, and how rounds are de-duplicated and passed on in rising order.
use vstd::prelude::*;
use vstd::arithmetic::power2::{lemma2_to64, lemma_pow2_unfold, pow2};
use crate::lz4::{
    decode_starts_with_literals, decoded, decompress, decompressed, decompressed_lengths_fit,
    extension_advances, field, has_fitting_lengths, lz4_first_n, reached, reached_is_prefix,
    read_field,
};
use crate::wire::{le_u32, u32_from_le};

verus! {

/// Greeting that asks for live blocks only (`send_abci: false`).
pub const GREET_FALSE: [u8; 8] = [0, 0, 0, 3, 0, 0, 0, 0];

/// Greeting that asks for the full bootstrap stream (`send_abci: true`).
pub const GREET_TRUE: [u8; 8] = [0, 0, 0, 3, 0, 1, 0, 0];

/// Rounds below this are decode artifacts.
pub const MIN_PLAUSIBLE_MAINNET_ROUND: u32 = 1_000_000_000;

/// How far above the known network tip a round may lie.
pub const NET_TIP_SLACK_ROUNDS: u32 = 200_000;

/// Smallest capture that can be a whole bootstrap, in bytes.
pub const MIN_COMPLETE_BOOTSTRAP_BYTES: u64 = 4_400_000_000;

/// Smallest capture that can be a whole bootstrap, in frames.
pub const MIN_COMPLETE_BOOTSTRAP_FRAMES: u64 = 4_000;

/// Payload length beyond which no frame is believed.
pub const MAX_FRAME_LEN: u32 = 1_500_000_000;

/// Decompressed bytes up to and with the round.
pub const ROUND_END: usize = 0x63;

/// A round is plausible from the floor on and, where the network tip is known (not 0), up to the
/// tip plus the slack.
pub open spec fn plausible_round(round: u32, net_tip: u32) -> bool {
    &&& round >= MIN_PLAUSIBLE_MAINNET_ROUND
    &&& net_tip == 0 || round <= net_tip + NET_TIP_SLACK_ROUNDS
}

/// Whether `round` can be a mainnet round, given the best-known network tip (0 = unknown).
pub fn is_plausible_mainnet_round(round: u32, net_tip: u32) -> (r: bool)
    ensures
        r == plausible_round(round, net_tip),
{
    round >= MIN_PLAUSIBLE_MAINNET_ROUND && (net_tip == 0 || round <= net_tip.saturating_add(
        NET_TIP_SLACK_ROUNDS,
    ))
}

/// A higher known tip never rules out a round that a lower one admits, and an unknown tip admits
/// every round that any tip admits.
pub proof fn higher_tip_only_widens(round: u32, low: u32, high: u32)
    requires
        0 < low <= high,
        plausible_round(round, low),
    ensures
        plausible_round(round, high),
        plausible_round(round, 0),
{
}

/// The consensus round of a decompressed block: `0xfc` at `0x5e`, then four little-endian bytes.
pub open spec fn round_at(block: Seq<u8>) -> Option<u32> {
    if block.len() >= 0x63 && block[0x5e] == 0xfc {
        Some(le_u32(block.subrange(0x5f, 0x63)) as u32)
    } else {
        None
    }
}

/// The round of a payload by full decompression.
pub open spec fn full_round(payload: Seq<u8>) -> Option<u32> {
    match decompressed(payload) {
        Some(block) => round_at(block),
        None => None,
    }
}

/// The first `0x63` bytes of the block in `payload` (behind the size prefix), where they can be
/// had without full decompression: the head of a first literal run that is long enough, else what
/// the bounded decoder reaches.
pub open spec fn block_head(payload: Seq<u8>) -> Option<Seq<u8>> {
    let lz = payload.skip(4);
    match field(lz, 1, lz[0] as int / 16) {
        Some((lit, at)) if lit >= 0x63 && at + 0x63 <= lz.len() => Some(
            lz.subrange(at, at + 0x63),
        ),
        _ => {
            let (bytes, ok) = reached(lz, 0x63);
            if ok && bytes.len() >= 0x63 {
                Some(bytes)
            } else {
                None
            }
        },
    }
}

/// The round of a payload: from the head of the block where that can be had, else by full
/// decompression.
pub open spec fn payload_round(payload: Seq<u8>) -> Option<u32> {
    if payload.len() < 5 {
        full_round(payload)
    } else {
        match block_head(payload) {
            Some(head) => round_at(head),
            None => full_round(payload),
        }
    }
}

/// Reads the round from at least `0x63` bytes of `s` that start at `p`.
fn read_round(s: &[u8], p: usize) -> (r: Option<u32>)
    requires
        p + 0x63 <= s@.len(),
    ensures
        r == round_at(s@.subrange(p as int, p + 0x63)),
{
    let ghost b = s@.subrange(p as int, p + 0x63);
    let n = s.len();
    assert(p + 0x63 <= n);
    if s[p + 0x5e] == 0xfc {
        let r = u32_from_le(s[p + 0x5f], s[p + 0x60], s[p + 0x61], s[p + 0x62]);
        assert(b.subrange(0x5f, 0x63) =~= seq![b[0x5f], b[0x60], b[0x61], b[0x62]]);
        Some(r)
    } else {
        None
    }
}

/// The round of a payload by full decompression. `None` where the payload does not decompress and
/// where the block has no 32-bit round.
pub fn block_round_full(payload: &[u8]) -> (r: Option<u32>)
    ensures
        r == full_round(payload@),
{
    if payload.len() >= 4 {
        let lz = vstd::slice::slice_subrange(payload, 4, payload.len());
        assert(lz@ =~= payload@.skip(4));
        if !has_fitting_lengths(lz) {
            proof {
                if decompressed(payload@) is Some {
                    decompressed_lengths_fit(payload@);
                }
            }
            return None;
        }
    }
    match decompress(payload) {
        Some(block) => {
            if block.len() >= ROUND_END {
                let r = read_round(block.as_slice(), 0);
                let ghost head = block@.subrange(0, 0x63);
                assert(head.subrange(0x5f, 0x63) =~= block@.subrange(0x5f, 0x63));
                r
            } else {
                None
            }
        },
        None => None,
    }
}

/// The round of a payload, without decompressing more of it than the round needs.
pub fn block_round(payload: &[u8]) -> (r: Option<u32>)
    ensures
        r == payload_round(payload@),
        payload@.len() >= 4 ==> (decoded(payload@.skip(4)) matches Some(block) ==> (block.len()
            >= 0x63 ==> r == round_at(block))),
{
    proof {
        if payload@.len() >= 4 && decoded(payload@.skip(4)) is Some && decoded(
            payload@.skip(4),
        )->0.len() >= 0x63 {
            payload_round_is_block_round(payload@, decoded(payload@.skip(4))->0);
        }
    }
    if payload.len() < 5 {
        return block_round_full(payload);
    }
    let lz = vstd::slice::slice_subrange(payload, 4, payload.len());
    assert(lz@ =~= payload@.skip(4));
    match read_field(lz, 1, lz[0] / 16) {
        Some((lit, at)) => {
            if lit >= ROUND_END && ROUND_END <= lz.len() - at {
                return read_round(lz, at);
            }
        },
        None => {},
    }
    let mut buf: [u8; 0x63] = [0u8; 0x63];
    match lz4_first_n(lz, &mut buf) {
        Some(n) => {
            if n >= ROUND_END {
                let r = read_round(&buf, 0);
                assert(buf@.subrange(0, 0x63) =~= reached(lz@, 0x63).0);
                return r;
            }
        },
        None => {},
    }
    block_round_full(payload)
}

/// The head of a well-formed block is the head of what it decodes to.
pub proof fn head_of_decoded(payload: Seq<u8>, block: Seq<u8>)
    requires
        payload.len() >= 5,
        decoded(payload.skip(4)) == Some(block),
    ensures
        block_head(payload) matches Some(head) ==> block.len() >= 0x63 && head == block.take(0x63),
        block_head(payload) is None ==> block.len() < 0x63,
{
    let lz = payload.skip(4);
    reached_is_prefix(lz, 0x63);
    extension_advances(lz, 1);
    match field(lz, 1, lz[0] as int / 16) {
        Some((lit, at)) if lit >= 0x63 && at + 0x63 <= lz.len() => {
            decode_starts_with_literals(lz);
            assert(block.take(0x63) =~= block.take(lit).take(0x63));
            assert(lz.subrange(at, at + 0x63) =~= lz.subrange(at, at + lit).take(0x63));
        },
        _ => {},
    }
}

/// A payload whose block decodes to `block` has the round that stands in `block`.
pub proof fn payload_round_is_block_round(payload: Seq<u8>, block: Seq<u8>)
    requires
        payload.len() >= 4,
        decoded(payload.skip(4)) == Some(block),
        block.len() >= 0x63,
    ensures
        payload_round(payload) == round_at(block),
{
    if payload.len() >= 5 {
        head_of_decoded(payload, block);
        let head = block.take(0x63);
        assert(head.subrange(0x5f, 0x63) =~= block.subrange(0x5f, 0x63));
    } else {
        assert(payload.skip(4) =~= Seq::<u8>::empty());
    }
}

/// Wherever full decompression succeeds, the round read from the head of the block is the round of
/// the full decompression.
pub proof fn bounded_round_matches_full(payload: Seq<u8>)
    requires
        decompressed(payload) is Some,
    ensures
        payload_round(payload) == full_round(payload),
{
    let block = decompressed(payload)->0;
    head_of_decoded(payload, block);
    if block.len() >= 0x63 {
        payload_round_is_block_round(payload, block);
    }
}

/// A memory of recent rounds: slot `r % n` of `n` slots holds the latest round that fell on it.
/// Rounds come nearly in sequence, so this is a window over about the last `n` rounds.
pub struct RoundDedup {
    slots: Vec<u32>,
}

/// The slot of `round` in a window of `n` slots.
pub open spec fn slot_of(round: u32, n: nat) -> int {
    round as int % n as int
}

/// Whether `round` is not the one that its slot holds.
pub open spec fn round_is_new(slots: Seq<u32>, round: u32) -> bool {
    slots[slot_of(round, slots.len())] != round
}

/// The slots after `round` was seen.
pub open spec fn slots_after(slots: Seq<u32>, round: u32) -> Seq<u32> {
    slots.update(slot_of(round, slots.len()), round)
}

/// `n` is the least power of two that is not below `cap`.
pub open spec fn is_window_size(n: nat, cap: nat) -> bool {
    &&& exists|k: nat| n == #[trigger] pow2(k)
    &&& cap <= n
    &&& n == 1 || n < 2 * cap
}

impl View for RoundDedup {
    type V = Seq<u32>;

    closed spec fn view(&self) -> Seq<u32> {
        self.slots@
    }
}

impl RoundDedup {
    /// A window has at least one slot.
    pub open spec fn well_formed(&self) -> bool {
        self@.len() > 0
    }

    /// An empty window whose size is the least power of two from `cap` on. Empty slots hold 0.
    pub fn new(cap: usize) -> (r: RoundDedup)
        requires
            cap <= usize::MAX / 2 + 1,
        ensures
            r.well_formed(),
            is_window_size(r@.len(), cap as nat),
            forall|i: int| 0 <= i < r@.len() ==> r@[i] == 0,
    {
        let mut n: usize = 1;
        let ghost mut k: nat = 0;
        proof {
            lemma2_to64();
        }
        while n < cap
            invariant
                n == pow2(k),
                1 <= n,
                n == 1 || n < 2 * cap,
                cap <= usize::MAX / 2 + 1,
            decreases 2 * cap - n,
        {
            proof {
                lemma_pow2_unfold(k + 1);
                k = k + 1;
            }
            n = n * 2;
        }
        RoundDedup { slots: vec![0u32; n] }
    }

    /// Notes `r`; whether its slot held another round before.
    pub fn is_new(&mut self, r: u32) -> (res: bool)
        requires
            old(self).well_formed(),
        ensures
            final(self).well_formed(),
            res == round_is_new(old(self)@, r),
            final(self)@ == slots_after(old(self)@, r),
    {
        let i: usize = r as usize % self.slots.len();
        let held = self.slots[i];
        self.slots.set(i, r);
        held != r
    }
}

/// The slots after all of `rounds` were seen, first to last.
pub open spec fn slots_after_all(slots: Seq<u32>, rounds: Seq<u32>) -> Seq<u32>
    decreases rounds.len(),
{
    if rounds.len() == 0 {
        slots
    } else {
        slots_after(slots_after_all(slots, rounds.drop_last()), rounds.last())
    }
}

/// A round that was just seen is not new.
pub proof fn repeat_is_not_new(slots: Seq<u32>, round: u32)
    requires
        slots.len() > 0,
    ensures
        !round_is_new(slots_after(slots, round), round),
{
}

/// A round that falls on the slot of another one is new after it, and pushes it out: the other
/// one counts as new again.
pub proof fn colliding_round_evicts(slots: Seq<u32>, first: u32, second: u32)
    requires
        slots.len() > 0,
        first != second,
        slot_of(first, slots.len()) == slot_of(second, slots.len()),
    ensures
        round_is_new(slots_after(slots, first), second),
        round_is_new(slots_after(slots_after(slots, first), second), first),
{
}

/// The window: as long as every later round lies less than the window size away, a round that was
/// seen is remembered.
pub proof fn window_remembers(slots: Seq<u32>, round: u32, later: Seq<u32>)
    requires
        slots.len() > 0,
        forall|i: int|
            0 <= i < later.len() ==> -(slots.len() as int) < #[trigger] later[i] - round
                < slots.len(),
    ensures
        slots_after_all(slots_after(slots, round), later).len() == slots.len(),
        !round_is_new(slots_after_all(slots_after(slots, round), later), round),
    decreases later.len(),
{
    if later.len() > 0 {
        let before = later.drop_last();
        assert forall|i: int| 0 <= i < before.len() implies -(slots.len() as int)
            < #[trigger] before[i] - round < slots.len() by {
            assert(before[i] == later[i]);
        }
        window_remembers(slots, round, before);
        let r = later[later.len() - 1];
        let n = slots.len() as int;
        if r != round {
            assert(r as int % n != round as int % n) by (nonlinear_arith)
                requires
                    n > 0,
                    r != round,
                    -n < r - round < n,
            {
                let q1 = r as int / n;
                let q2 = round as int / n;
                assert(r as int == n * q1 + r as int % n);
                assert(round as int == n * q2 + round as int % n);
                if r as int % n == round as int % n {
                    assert(r - round == n * (q1 - q2));
                    assert(q1 - q2 != 0);
                }
            }
        }
    }
}

/// Whether a round is passed on. The active peer's round passes where it lies above the last one
/// passed on (or none was); another peer's only where it is the next one. Either way the window
/// must not hold it.
pub open spec fn forwards(slots: Seq<u32>, last: u32, round: u32, from_active: bool) -> bool {
    &&& if from_active {
        last == 0 || round > last
    } else {
        last != 0 && round == if last < u32::MAX {
            last + 1
        } else {
            u32::MAX as int
        }
    }
    &&& round_is_new(slots, round)
}

/// Decides whether `round` is passed on. If it is, it becomes the last one passed on and the
/// window notes it; if not, both stay as they are.
pub fn should_forward_block_round(
    round: u32,
    from_active: bool,
    last_forwarded: &mut u32,
    dedup: &mut RoundDedup,
) -> (res: bool)
    requires
        old(dedup).well_formed(),
    ensures
        final(dedup).well_formed(),
        res == forwards(old(dedup)@, *old(last_forwarded), round, from_active),
        res ==> *final(last_forwarded) == round && final(dedup)@ == slots_after(old(dedup)@, round),
        !res ==> *final(last_forwarded) == *old(last_forwarded) && final(dedup)@ == old(dedup)@,
{
    let prev: u32 = *last_forwarded;
    if from_active {
        if prev != 0 && round <= prev {
            return false;
        }
    } else {
        if prev == 0 || round != prev.saturating_add(1) {
            return false;
        }
    }
    if !dedup.is_new(round) {
        assert(dedup@ =~= old(dedup)@);
        return false;
    }
    *last_forwarded = round;
    true
}

/// A filter between several peers that send the same blocks and one node that wants each once.
pub struct RoundForwardGate {
    last_forwarded: u32,
    dedup: RoundDedup,
}

impl RoundForwardGate {
    pub open spec fn well_formed(&self) -> bool {
        self.window().len() > 0
    }

    /// The last round that was passed on; 0 where there was none.
    pub closed spec fn last(&self) -> u32 {
        self.last_forwarded
    }

    /// The slots of its window of seen rounds.
    pub closed spec fn window(&self) -> Seq<u32> {
        self.dedup@
    }

    /// A gate that takes `last_forwarded` as the last round passed on. Its window is empty.
    pub fn with_last_forwarded(cap: usize, last_forwarded: u32) -> (r: RoundForwardGate)
        requires
            cap <= usize::MAX / 2 + 1,
        ensures
            r.well_formed(),
            r.last() == last_forwarded,
            is_window_size(r.window().len(), cap as nat),
            forall|i: int| 0 <= i < r.window().len() ==> r.window()[i] == 0,
    {
        RoundForwardGate { last_forwarded, dedup: RoundDedup::new(cap) }
    }

    /// Decides whether `round` is passed on.
    pub fn should_forward(&mut self, round: u32, from_active: bool) -> (res: bool)
        requires
            old(self).well_formed(),
        ensures
            final(self).well_formed(),
            (final(self).window(), final(self).last()) == gate_after(
                (old(self).window(), old(self).last()),
                (round, from_active),
            ),
            res == forwards(old(self).window(), old(self).last(), round, from_active),
    {
        should_forward_block_round(round, from_active, &mut self.last_forwarded, &mut self.dedup)
    }
}

/// The window and the last round of a gate after one round came.
pub open spec fn gate_after(gate: (Seq<u32>, u32), event: (u32, bool)) -> (Seq<u32>, u32) {
    if forwards(gate.0, gate.1, event.0, event.1) {
        (slots_after(gate.0, event.0), event.0)
    } else {
        gate
    }
}

/// The window and the last round of a gate after all of `events` came, first to last.
pub open spec fn gate_after_all(gate: (Seq<u32>, u32), events: Seq<(u32, bool)>) -> (Seq<u32>, u32)
    decreases events.len(),
{
    if events.len() == 0 {
        gate
    } else {
        gate_after(gate_after_all(gate, events.drop_last()), events.last())
    }
}

/// The rounds that a gate passes on out of `events`, in order.
pub open spec fn passed_on(gate: (Seq<u32>, u32), events: Seq<(u32, bool)>) -> Seq<u32>
    decreases events.len(),
{
    if events.len() == 0 {
        Seq::empty()
    } else {
        let before = gate_after_all(gate, events.drop_last());
        let rounds = passed_on(gate, events.drop_last());
        let (round, from_active) = events.last();
        if forwards(before.0, before.1, round, from_active) {
            rounds.push(round)
        } else {
            rounds
        }
    }
}

/// The rounds that a fresh gate passes on strictly increase, and all of them lie above the round
/// it started from: no round goes out twice, none goes out after a later one.
pub proof fn passed_on_increases(window: Seq<u32>, start: u32, events: Seq<(u32, bool)>)
    requires
        window.len() > 0,
        forall|i: int| 0 <= i < window.len() ==> window[i] == 0,
        start < u32::MAX,
    ensures
        forall|i: int|
            0 <= i < passed_on((window, start), events).len() ==> start < #[trigger] passed_on(
                (window, start),
                events,
            )[i],
        forall|i: int, j: int|
            0 <= i < j < passed_on((window, start), events).len() ==> #[trigger] passed_on(
                (window, start),
                events,
            )[i] < #[trigger] passed_on((window, start), events)[j],
        ({
            let rounds = passed_on((window, start), events);
            gate_after_all((window, start), events).1 == if rounds.len() == 0 {
                start
            } else {
                rounds.last()
            }
        }),
{
    gate_history(window, start, events);
}

/// At every point of the history of a fresh gate, a round of the active peer passes where it lies
/// above the last one passed on, and any peer's passes where it is the very next one: nothing that
/// came before can hold it back.
pub proof fn higher_round_always_passes(
    window: Seq<u32>,
    start: u32,
    events: Seq<(u32, bool)>,
    round: u32,
)
    requires
        window.len() > 0,
        forall|i: int| 0 <= i < window.len() ==> window[i] == 0,
        round > gate_after_all((window, start), events).1,
    ensures
        ({
            let (slots, last) = gate_after_all((window, start), events);
            &&& forwards(slots, last, round, true)
            &&& last != 0 && round == last + 1 ==> forwards(slots, last, round, false)
        }),
        passed_on((window, start), events.push((round, true))) == passed_on(
            (window, start),
            events,
        ).push(round),
{
    window_below_last(window, start, events);
    let (slots, last) = gate_after_all((window, start), events);
    let n = slots.len() as int;
    assert(0 <= round as int % n < n) by (nonlinear_arith)
        requires
            n > 0,
    ;
    assert(slots[slot_of(round, slots.len())] <= last);
    assert(events.push((round, true)).drop_last() =~= events);
}

/// The window of a gate that started fresh holds no round above the last one passed on.
proof fn window_below_last(window: Seq<u32>, start: u32, events: Seq<(u32, bool)>)
    requires
        window.len() > 0,
        forall|i: int| 0 <= i < window.len() ==> window[i] == 0,
    ensures
        ({
            let (slots, last) = gate_after_all((window, start), events);
            &&& slots.len() == window.len()
            &&& forall|i: int| 0 <= i < slots.len() ==> #[trigger] slots[i] <= last
        }),
    decreases events.len(),
{
    if events.len() > 0 {
        window_below_last(window, start, events.drop_last());
    }
}

/// What holds of a fresh gate at every point of its history.
proof fn gate_history(window: Seq<u32>, start: u32, events: Seq<(u32, bool)>)
    requires
        window.len() > 0,
        forall|i: int| 0 <= i < window.len() ==> window[i] == 0,
        start < u32::MAX,
    ensures
        ({
            let (slots, last) = gate_after_all((window, start), events);
            let rounds = passed_on((window, start), events);
            &&& slots.len() == window.len()
            &&& last == 0 ==> slots[0] == 0
            &&& last == u32::MAX ==> slots[slot_of(u32::MAX, slots.len())] == u32::MAX
            &&& last == if rounds.len() == 0 {
                start
            } else {
                rounds.last()
            }
            &&& forall|i: int| 0 <= i < rounds.len() ==> start < #[trigger] rounds[i] <= last
            &&& forall|i: int, j: int|
                0 <= i < j < rounds.len() ==> #[trigger] rounds[i] < #[trigger] rounds[j]
        }),
    decreases events.len(),
{
    if events.len() > 0 {
        gate_history(window, start, events.drop_last());
        let (slots, last) = gate_after_all((window, start), events.drop_last());
        let (round, from_active) = events.last();
        if forwards(slots, last, round, from_active) {
            if last == 0 && round == 0 {
                assert(slot_of(0, slots.len()) == 0) by (nonlinear_arith)
                    requires
                        slots.len() > 0,
                ;
            }
            assert(round > last);
        }
    }
}

/// A round is plausible from 1,000,000,000 on and, where the tip of the network is known, up to
/// 200,000 above it: a block that is newer than the known tip is as good as one below it.
pub proof fn plausible_up_to_the_slack(round: u32, net_tip: u32)
    ensures
        plausible_round(round, net_tip) <==> round >= 1_000_000_000 && (net_tip == 0 || round
            <= net_tip + 200_000),
{
}

/// The round of a block stands in the four bytes from 95 on, the lowest first, behind the byte 252
/// at 94; a block that is shorter or has another byte there has no round.
pub proof fn round_stands_behind_its_marker(block: Seq<u8>)
    ensures
        round_at(block) is Some <==> block.len() >= 99 && block[94] == 252,
        round_at(block) matches Some(round) ==> round == block[95] + 256 * block[96] + 65_536
            * block[97] + 16_777_216 * block[98],
{
    if block.len() >= 99 {
        assert(block.subrange(95, 99) =~= seq![block[95], block[96], block[97], block[98]]);
    }
}

/// A payload whose block decodes to at least 99 bytes has the round that stands in the block, and a
/// payload that decompresses to fewer has none; the size in front of the block plays no part in the
/// first.
pub proof fn payload_has_its_blocks_round(payload: Seq<u8>, block: Seq<u8>)
    requires
        payload.len() >= 4,
        decoded(payload.skip(4)) == Some(block),
    ensures
        block.len() >= 99 && block[94] == 252 ==> payload_round(payload) == Some(
            (block[95] + 256 * block[96] + 65_536 * block[97] + 16_777_216 * block[98]) as u32,
        ),
        block.len() >= 99 && block[94] != 252 ==> payload_round(payload) is None,
        block.len() < 99 && decompressed(payload) is Some ==> payload_round(payload) is None,
{
    round_stands_behind_its_marker(block);
    if block.len() >= 99 {
        payload_round_is_block_round(payload, block);
    } else if decompressed(payload) is Some {
        bounded_round_matches_full(payload);
    }
}

/// At every point of the history of a fresh gate, what passes goes by the last round passed on
/// alone: the active peer's rounds above it, and any other peer's just the next one, once there is
/// a last one.
pub proof fn gate_goes_by_the_last_round(
    window: Seq<u32>,
    start: u32,
    events: Seq<(u32, bool)>,
    round: u32,
)
    requires
        window.len() > 0,
        forall|i: int| 0 <= i < window.len() ==> window[i] == 0,
    ensures
        ({
            let (slots, last) = gate_after_all((window, start), events);
            &&& forwards(slots, last, round, true) <==> round > last
            &&& last < u32::MAX ==> (forwards(slots, last, round, false) <==> last > 0 && round
                == last + 1)
        }),
{
    window_below_last(window, start, events);
    let (slots, last) = gate_after_all((window, start), events);
    let n = slots.len() as int;
    assert(0 <= round as int % n < n) by (nonlinear_arith)
        requires
            n > 0,
    ;
    assert(slots[slot_of(round, slots.len())] <= last);
    if last == 0 && round == 0 {
        assert(slots[slot_of(round, slots.len())] == 0);
    }
}

/// A gate keeps what it passed on as its last round, and a round that does not pass leaves it as it
/// was.
pub proof fn gate_keeps_what_it_passed(gate: (Seq<u32>, u32), round: u32, from_active: bool)
    ensures
        forwards(gate.0, gate.1, round, from_active) ==> gate_after(gate, (round, from_active)).1
            == round,
        !forwards(gate.0, gate.1, round, from_active) ==> gate_after(gate, (round, from_active))
            == gate,
{
}

/// A window that has just seen a round knows it; one that has seen only other rounds since it was
/// empty does not.
pub proof fn window_knows_what_it_saw(n: nat, seen: Seq<u32>, round: u32)
    requires
        n > 0,
        round > 0,
        !seen.contains(round),
    ensures
        ({
            let empty = Seq::new(n, |i: int| 0u32);
            &&& round_is_new(slots_after_all(empty, seen), round)
            &&& !round_is_new(slots_after(slots_after_all(empty, seen), round), round)
        }),
    decreases seen.len(),
{
    let empty = Seq::new(n, |i: int| 0u32);
    let i = round as int % n as int;
    assert(0 <= i < n) by (nonlinear_arith)
        requires
            n > 0,
            i == round as int % n as int,
    ;
    slots_hold_what_was_seen(n, seen, i);
    let slots = slots_after_all(empty, seen);
    assert(slots[i] == 0 || seen.contains(slots[i]));
}

/// A slot of a window that was empty holds nothing, or a round that was seen.
proof fn slots_hold_what_was_seen(n: nat, seen: Seq<u32>, i: int)
    requires
        0 <= i < n,
    ensures
        ({
            let slots = slots_after_all(Seq::new(n, |i: int| 0u32), seen);
            slots.len() == n && (slots[i] == 0 || seen.contains(slots[i]))
        }),
    decreases seen.len(),
{
    if seen.len() > 0 {
        let before = seen.drop_last();
        slots_hold_what_was_seen(n, before, i);
        let slots = slots_after_all(Seq::new(n, |i: int| 0u32), before);
        assert(seen[seen.len() - 1] == seen.last());
        if before.contains(slots[i]) {
            let k = choose|k: int| 0 <= k < before.len() && before[k] == slots[i];
            assert(seen[k] == slots[i]);
        }
    }
}

/// A window has as many slots as the least power of two that is not below what was asked for.
pub proof fn window_size_is_the_least(n: nat, cap: nat, j: nat)
    requires
        is_window_size(n, cap),
        pow2(j) >= cap,
    ensures
        cap <= n <= pow2(j),
        exists|k: nat| n == #[trigger] pow2(k),
{
    let k = choose|k: nat| n == #[trigger] pow2(k);
    vstd::arithmetic::power2::lemma_pow2_pos(j);
    if pow2(j) < n {
        if j >= k {
            if j > k {
                vstd::arithmetic::power2::lemma_pow2_strictly_increases(k, j);
            }
        } else {
            vstd::arithmetic::power2::lemma_pow2_unfold(k);
            if (k - 1) as nat > j {
                vstd::arithmetic::power2::lemma_pow2_strictly_increases(j, (k - 1) as nat);
            }
            assert(n >= 2 * pow2(j));
        }
    }
}

/// A payload without a block behind its size has no round.
pub proof fn short_payload_has_no_round(payload: Seq<u8>)
    requires
        payload.len() <= 4,
    ensures
        payload_round(payload) is None,
        full_round(payload) is None,
{
}

} // verus!
