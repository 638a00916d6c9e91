//! Tools around the gateway: a store of live blocks by round, frames for a mock peer, a benchmark
//! of the way from a payload to a de-duplicated round, and a synthetic node that checks a gateway.
use std::collections::BTreeMap;
use std::collections::HashSet;
use vstd::prelude::*;
use crate::client_blocks::{build_client_block_range_request, range_payload, response_is_peer_only};
use crate::frames::{complete_bootstrap_at_frame_boundary, sort_rounds};
use crate::lz4::{compress, compressed_limit, compressible, decompressed};
use crate::protocol::{
    block_round, block_round_full, bounded_round_matches_full, full_round, payload_round, round_at,
    round_is_new, slots_after, RoundDedup, MAX_FRAME_LEN,
};
use crate::push::DEDUP_SLOTS;
use crate::text::{
    ascii, has_prefix, last_colon, number, parse_number, parse_text, same_text, starts_with_text,
    texts, to_chars,
};
use crate::wire::{frame_bytes, frame_len, frame_reads_back, has_infix, le_bytes, make_frame};

verus! {

broadcast use vstd::std_specs::btree::group_btree_axioms, vstd::std_specs::hash::group_hash_axioms;

/// `kept` is what is left of `m` when it is cut to `cap` entries: those with the highest rounds.
pub open spec fn newest_of<V>(m: Map<u32, V>, kept: Map<u32, V>, cap: nat) -> bool {
    &&& kept.submap_of(m)
    &&& kept.dom().len() == if m.dom().len() < cap {
        m.dom().len()
    } else {
        cap
    }
    &&& forall|k: u32, d: u32|
        #![trigger kept.dom().contains(k), m.dom().contains(d)]
        kept.dom().contains(k) && m.dom().contains(d) && !kept.dom().contains(d) ==> d < k
}

/// `after` is the store `before` once a frame was put in under `round`: unchanged where the round
/// was there already, else the frame is added and the store cut to the `cap` highest rounds.
pub open spec fn put_in<V>(
    before: Map<u32, V>,
    after: Map<u32, V>,
    round: u32,
    frame: V,
    cap: nat,
) -> bool {
    if before.dom().contains(round) {
        after == before
    } else {
        newest_of(before.insert(round, frame), after, cap)
    }
}

/// The lowest round of a store that is not empty.
fn lowest_round<V>(live: &BTreeMap<u32, V>) -> (r: u32)
    requires
        live@.dom().len() > 0,
    ensures
        live@.dom().contains(r),
        forall|k: u32| #[trigger] live@.dom().contains(k) ==> r <= k,
{
    let mut best: u32 = 0;
    let mut found = false;
    for k in it: live.keys()
        invariant
            it.seq().unref().to_set() == live@.dom(),
            it.seq().len() == live@.dom().len(),
            !found ==> it.index() == 0,
            found ==> live@.dom().contains(best),
            forall|i: int| 0 <= i < it.index() ==> best <= *#[trigger] it.seq()[i],
    {
        if !found || *k < best {
            best = *k;
            found = true;
        }
    }
    best
}

/// Puts a live frame into the store, unless its round is there already; whether it was put in. The
/// store is then cut to the `cap` highest rounds.
pub fn insert_live<V>(live: &mut BTreeMap<u32, V>, round: u32, frame: V, cap: usize) -> (r: bool)
    ensures
        r == !old(live)@.dom().contains(round),
        put_in(old(live)@, final(live)@, round, frame, cap as nat),
{
    if live.contains_key(&round) {
        return false;
    }
    live.insert(round, frame);
    let ghost all = live@;
    while live.len() > cap
        invariant
            all.dom().finite(),
            live@.submap_of(all),
            live@.dom().len() <= all.dom().len(),
            live@.dom().len() >= cap || live@ == all,
            forall|k: u32, d: u32|
                #![trigger live@.dom().contains(k), all.dom().contains(d)]
                live@.dom().contains(k) && all.dom().contains(d) && !live@.dom().contains(d) ==> d
                    < k,
        decreases live@.dom().len(),
    {
        let k = lowest_round(live);
        let ghost before = live@;
        live.remove(&k);
        assert(live@ =~= before.remove(k));
        assert(live@.dom() =~= before.dom().remove(k));
    }
    true
}

/// A store never holds one round twice, and what it drops lies below everything that it keeps: a
/// node that gets it in order of rounds gets the latest rounds without a step back.
pub proof fn store_keeps_latest<V>(m: Map<u32, V>, kept: Map<u32, V>, cap: nat, round: u32)
    requires
        newest_of(m, kept, cap),
        m.dom().contains(round),
        forall|k: u32| #[trigger] m.dom().contains(k) ==> k <= round,
        m.dom().finite(),
        cap > 0,
    ensures
        kept.dom().contains(round),
        kept[round] == m[round],
{
    if !kept.dom().contains(round) {
        assert(kept.dom().len() > 0) by {
            if m.dom().len() == 0 {
                assert(m.dom() =~= Set::empty());
            }
        }
        assert(kept.dom().subset_of(m.dom()));
        let k = kept.dom().choose();
        assert(kept.dom().contains(k));
        assert(m.dom().contains(k));
    }
}

/// What a store holds after a row of frames was put into it, each under its round: the highest of
/// all rounds that ever came, up to the limit, each with the first frame that came under it.
pub open spec fn holds_highest<V>(
    store: Map<u32, V>,
    rounds: Seq<u32>,
    frames: Seq<V>,
    cap: nat,
) -> bool {
    let ever = rounds.to_set();
    &&& store.dom().subset_of(ever)
    &&& store.dom().len() == if ever.len() < cap {
        ever.len()
    } else {
        cap
    }
    &&& forall|k: u32, d: u32|
        #![trigger store.dom().contains(k), ever.contains(d)]
        store.dom().contains(k) && ever.contains(d) && !store.dom().contains(d) ==> d < k
    &&& forall|k: u32| #[trigger]
        store.dom().contains(k) ==> exists|i: int|
            0 <= i < rounds.len() && #[trigger] rounds[i] == k && store[k] == frames[i]
                && !rounds.take(i).contains(k)
}

/// A store that started empty holds, after any row of frames, the highest rounds that were ever put
/// in: `stores[i]` is the store after the first `i` of them.
pub proof fn store_holds_highest_ever<V>(
    stores: Seq<Map<u32, V>>,
    rounds: Seq<u32>,
    frames: Seq<V>,
    cap: nat,
)
    requires
        stores.len() == rounds.len() + 1,
        frames.len() == rounds.len(),
        stores[0] == Map::<u32, V>::empty(),
        forall|i: int|
            #![trigger rounds[i]]
            0 <= i < rounds.len() ==> put_in(stores[i], stores[i + 1], rounds[i], frames[i], cap),
    ensures
        holds_highest(stores.last(), rounds, frames, cap),
    decreases rounds.len(),
{
    vstd::seq_lib::seq_to_set_is_finite(rounds);
    if rounds.len() == 0 {
        assert(rounds.to_set() =~= Set::<u32>::empty());
        assert(stores.last().dom() =~= Set::<u32>::empty());
    } else {
        let n = rounds.len() - 1;
        let earlier = rounds.drop_last();
        let earlier_stores = stores.drop_last();
        assert forall|i: int|
            #![trigger earlier[i]]
            0 <= i < earlier.len() implies put_in(
            earlier_stores[i],
            earlier_stores[i + 1],
            earlier[i],
            frames.drop_last()[i],
            cap,
        ) by {
            assert(earlier[i] == rounds[i]);
        }
        store_holds_highest_ever(earlier_stores, earlier, frames.drop_last(), cap);
        assert(put_in(stores[n], stores[n + 1], rounds[n], frames[n], cap));
        one_more_put_in(stores[n], stores[n + 1], rounds, frames, cap);
    }
}

/// One more frame keeps the highest rounds.
proof fn one_more_put_in<V>(
    before: Map<u32, V>,
    after: Map<u32, V>,
    rounds: Seq<u32>,
    frames: Seq<V>,
    cap: nat,
)
    requires
        rounds.len() > 0,
        frames.len() == rounds.len(),
        holds_highest(before, rounds.drop_last(), frames.drop_last(), cap),
        put_in(before, after, rounds.last(), frames.last(), cap),
    ensures
        holds_highest(after, rounds, frames, cap),
{
    let n = rounds.len() - 1;
    let earlier = rounds.drop_last();
    let (x, f) = (rounds.last(), frames.last());
    let (ever, was) = (rounds.to_set(), earlier.to_set());
    vstd::seq_lib::seq_to_set_is_finite(earlier);
    vstd::set_lib::lemma_len_subset(before.dom(), was);
    assert(rounds =~= earlier.push(x));
    assert forall|d: u32| ever.contains(d) <==> was.contains(d) || d == x by {
        if was.contains(d) {
            let i = choose|i: int| 0 <= i < earlier.len() && earlier[i] == d;
            assert(rounds[i] == d);
        }
        assert(rounds[n] == x);
        if ever.contains(d) && d != x {
            let i = choose|i: int| 0 <= i < rounds.len() && rounds[i] == d;
            assert(earlier[i] == d);
        }
    }
    assert(ever =~= was.insert(x));
    assert forall|k: u32| before.dom().contains(k) implies exists|i: int|
        0 <= i < rounds.len() && #[trigger] rounds[i] == k && before[k] == frames[i]
            && !rounds.take(i).contains(k) by {
        let i = choose|i: int|
            0 <= i < earlier.len() && #[trigger] earlier[i] == k && before[k]
                == frames.drop_last()[i] && !earlier.take(i).contains(k);
        assert(rounds[i] == k);
        assert(rounds.take(i) =~= earlier.take(i));
    }
    if before.dom().contains(x) {
        assert(was.contains(x));
        assert(ever =~= was);
    } else {
        let more = before.insert(x, f);
        assert(more.dom() =~= before.dom().insert(x));
        assert(after.dom().subset_of(more.dom()));
        vstd::set_lib::lemma_len_subset(after.dom(), more.dom());
        if before.dom().len() == was.len() {
            vstd::set_lib::lemma_subset_equality(before.dom(), was);
        }
        // where the new round stays in a store that was full, an old one had to go, and it lies
        // below the new one
        let full = before.dom().len() == cap && after.dom().contains(x);
        if full {
            if before.dom().subset_of(after.dom()) {
                assert(more.dom().subset_of(after.dom()));
                vstd::set_lib::lemma_len_subset(more.dom(), after.dom());
            }
            let s = choose|s: u32| before.dom().contains(s) && !after.dom().contains(s);
            assert(more.dom().contains(s));
            assert(s < x);
            assert(!was.contains(x));
        }
        assert forall|k: u32, d: u32|
            #![trigger after.dom().contains(k), ever.contains(d)]
            after.dom().contains(k) && ever.contains(d) && !after.dom().contains(d) implies d
            < k by {
            if more.dom().contains(d) {
            } else {
                assert(was.contains(d));
                assert(before.dom().len() == cap);
                if k == x {
                    let s = choose|s: u32| before.dom().contains(s) && !after.dom().contains(s);
                    assert(more.dom().contains(s));
                    assert(d < s);
                } else {
                    assert(before.dom().contains(k));
                }
            }
        }
        assert forall|k: u32| #[trigger] after.dom().contains(k) implies exists|i: int|
            0 <= i < rounds.len() && #[trigger] rounds[i] == k && after[k] == frames[i]
                && !rounds.take(i).contains(k) by {
            assert(more.dom().contains(k));
            assert(after[k] == more[k]);
            if k == x {
                assert(rounds[n] == x);
                assert(rounds.take(n) =~= earlier);
                if was.contains(x) {
                    assert(before.dom().len() == cap);
                }
            } else {
                assert(before.dom().contains(k));
            }
        }
        if was.contains(x) {
            assert(ever =~= was);
        }
    }
}

/// The rounds of the store, lowest first: the order in which a node gets its blocks.
pub fn stored_rounds<V>(live: &BTreeMap<u32, V>) -> (r: Vec<u32>)
    ensures
        r@.to_set() == live@.dom(),
        r@.len() == live@.dom().len(),
        forall|i: int, j: int| 0 <= i < j < r@.len() ==> r@[i] < r@[j],
{
    let mut rounds: Vec<u32> = Vec::new();
    let ghost all = vstd::std_specs::iter::IteratorSpec::remaining(&live.keys());
    for k in it: live.keys()
        invariant
            it.seq() == all,
            rounds@ == all.unref().take(it.index()),
    {
        rounds.push(*k);
        assert(rounds@ =~= all.unref().take(it.index() + 1));
    }
    let ghost met = rounds@;
    assert(met =~= all.unref());
    assert(met.no_duplicates()) by {
        assert forall|i: int, j: int| 0 <= i < j < met.len() implies met[i] != met[j] by {
            assert(all[i] != all[j]);
        }
    }
    sort_rounds(rounds.as_mut_slice());
    proof {
        broadcast use vstd::seq_lib::group_to_multiset_ensures;

        met.lemma_multiset_has_no_duplicates();
        rounds@.lemma_multiset_has_no_duplicates_conv();
        assert forall|x: u32| met.contains(x) <==> rounds@.contains(x) by {
            assert(met.to_multiset().count(x) == rounds@.to_multiset().count(x));
        }
        assert(rounds@.to_set() =~= met.to_set());
        assert(rounds@.to_multiset().len() == met.to_multiset().len());
        let leq = |a: u32, b: u32| a <= b;
        assert forall|i: int, j: int| 0 <= i < j < rounds@.len() implies rounds@[i]
            < rounds@[j] by {
            assert(leq(rounds@[i], rounds@[j]));
        }
    }
    rounds
}

/// What a feeder does with a whole frame.
#[derive(Clone, Copy, Debug, PartialEq, Eq, Structural)]
pub enum FeedVerdict {
    /// It is the state: keep it.
    State,
    /// It is the block of this round: put it into the store.
    Live(u32),
    Ignore,
}

/// What the feeder of the state does with a frame: a very long one is the state, a block goes to
/// the store.
pub fn state_feed_verdict(typ: u8, payload: &[u8]) -> (r: FeedVerdict)
    ensures
        r == if payload@.len() > 4_000_000 {
            FeedVerdict::State
        } else {
            match payload_round(payload@) {
                Some(round) if typ == 1 => FeedVerdict::Live(round),
                _ => FeedVerdict::Ignore,
            }
        },
{
    if payload.len() > 4_000_000 {
        return FeedVerdict::State;
    }
    live_feed_verdict(typ, payload)
}

/// What the feeder of live blocks does with a frame: a block goes to the store.
pub fn live_feed_verdict(typ: u8, payload: &[u8]) -> (r: FeedVerdict)
    ensures
        r == match payload_round(payload@) {
            Some(round) if typ == 1 => FeedVerdict::Live(round),
            _ => FeedVerdict::Ignore,
        },
{
    if typ != 1 {
        return FeedVerdict::Ignore;
    }
    match block_round(payload) {
        Some(round) => FeedVerdict::Live(round),
        None => FeedVerdict::Ignore,
    }
}

/// The frame that a mock peer sends for a captured block: a data frame with the compressed block,
/// from which the block's round is read. `None` where the block cannot be compressed, or where
/// what it compresses to is too long for a frame; a block whose room for compression fits in a
/// frame gets one.
pub fn mock_frame(block: &[u8]) -> (r: Option<Vec<u8>>)
    ensures
        !compressible(block@.len()) ==> r is None,
        compressible(block@.len()) && compressed_limit(block@.len()) <= u32::MAX ==> r is Some,
        r matches Some(frame) ==> {
            &&& frame@.len() >= 9
            &&& frame@[4] == 1
            &&& frame_len(frame@, 0) == frame@.len() - 5
            &&& frame@.subrange(5, 9) == le_bytes(block@.len() as u32)
            &&& decompressed(frame@.skip(5)) == Some(block@)
            &&& payload_round(frame@.skip(5)) == round_at(block@)
        },
{
    if !can_compress(block.len()) {
        return None;
    }
    let payload = compress(block);
    if payload.len() as u64 > 0xffff_ffff {
        return None;
    }
    let frame = make_frame(1, payload.as_slice());
    proof {
        frame_reads_back(1, payload@);
        assert(frame@.skip(5) =~= payload@);
        assert(frame@.subrange(5, 9) =~= payload@.take(4));
        bounded_round_matches_full(payload@);
    }
    Some(frame)
}

/// Whether a block of `len` bytes can be compressed.
fn can_compress(len: usize) -> (r: bool)
    ensures
        r == compressible(len as nat),
{
    len as u64 <= 0xffff_ffff && len <= usize::MAX / 110
}

/// Payloads whose round, read from the head of the block, is not that of full decompression.
pub open spec fn mismatches(payloads: Seq<Vec<u8>>) -> nat
    decreases payloads.len(),
{
    if payloads.len() == 0 {
        0
    } else {
        let p = payloads.last()@;
        mismatches(payloads.drop_last()) + if payload_round(p) != full_round(p) {
            1nat
        } else {
            0
        }
    }
}

/// Counts the payloads whose round, read from the head of the block, is not that of full
/// decompression; there are none among payloads that decompress.
pub fn count_mismatches(payloads: &Vec<Vec<u8>>) -> (r: usize)
    ensures
        r == mismatches(payloads@),
        (forall|i: int| 0 <= i < payloads@.len() ==> decompressed((#[trigger] payloads@[i])@) is Some)
            ==> r == 0,
{
    let mut count: usize = 0;
    let mut i: usize = 0;
    let ghost all_sound = forall|i: int|
        0 <= i < payloads@.len() ==> decompressed((#[trigger] payloads@[i])@) is Some;
    while i < payloads.len()
        invariant
            i <= payloads@.len(),
            count <= i,
            count == mismatches(payloads@.take(i as int)),
            all_sound ==> forall|i: int|
                0 <= i < payloads@.len() ==> decompressed((#[trigger] payloads@[i])@) is Some,
            all_sound ==> count == 0,
        decreases payloads@.len() - i,
    {
        assert(payloads@.take(i + 1).drop_last() =~= payloads@.take(i as int));
        let p = payloads[i].as_slice();
        let fast = block_round(p);
        let full = block_round_full(p);
        proof {
            if all_sound {
                assert(decompressed(payloads@[i as int]@) is Some);
                bounded_round_matches_full(p@);
            }
        }
        if fast != full {
            count = count + 1;
        }
        i = i + 1;
    }
    assert(payloads@.take(i as int) =~= payloads@);
    count
}

/// The compressed form of a captured block, as a peer would send it. `None` where the block cannot
/// be compressed.
pub fn bench_payload(block: &[u8]) -> (r: Option<Vec<u8>>)
    ensures
        r is None <==> !compressible(block@.len()),
        r matches Some(payload) ==> {
            &&& 4 <= payload@.len() <= compressed_limit(block@.len())
            &&& payload@.take(4) == le_bytes(block@.len() as u32)
            &&& decompressed(payload@) == Some(block@)
            &&& payload_round(payload@) == round_at(block@)
        },
{
    if !can_compress(block.len()) {
        return None;
    }
    let payload = compress(block);
    proof {
        bounded_round_matches_full(payload@);
    }
    Some(payload)
}

/// A benchmark run: the window, the rounds passed on and the bytes read.
pub type BenchState = (Seq<u32>, nat, nat);

/// The round that the frame `i` of a benchmark stands for: that of its payload, moved on by twelve
/// with every pass over the payloads.
pub open spec fn bench_round(round: u32, pass: int) -> u32 {
    round.wrapping_add((pass as u32).wrapping_mul(12))
}

/// A benchmark after `i` frames.
pub open spec fn bench_after(payloads: Seq<Vec<u8>>, window: Seq<u32>, i: nat) -> BenchState
    decreases i,
{
    if i == 0 {
        (window, 0, 0)
    } else {
        let k = (i - 1) as nat;
        let (slots, passed, bytes) = bench_after(payloads, window, k);
        let p = payloads[k as int % payloads.len() as int]@;
        match payload_round(p) {
            Some(round) => {
                let r = bench_round(round, k as int / payloads.len() as int);
                (
                    slots_after(slots, r),
                    if round_is_new(slots, r) {
                        passed + 1
                    } else {
                        passed
                    },
                    bytes + p.len(),
                )
            },
            None => (slots, passed, bytes + p.len()),
        }
    }
}

/// Runs a benchmark over `iters` frames: the rounds passed on and the bytes read.
pub fn run_bench(payloads: &Vec<Vec<u8>>, iters: usize) -> (r: (u64, u128))
    requires
        payloads@.len() > 0,
    ensures
        exists|window: Seq<u32>|
            window.len() == 16_384 && (forall|i: int| 0 <= i < window.len() ==> window[i] == 0)
                && {
                let done = #[trigger] bench_after(payloads@, window, iters as nat);
                r.0 == done.1 && r.1 == done.2
            },
{
    let mut dedup = RoundDedup::new(DEDUP_SLOTS);
    let ghost window = dedup@;
    proof {
        window_is_whole(window.len());
    }
    let n = payloads.len();
    let mut forwarded: u64 = 0;
    let mut bytes: u128 = 0;
    let mut i: usize = 0;
    while i < iters
        invariant
            n == payloads@.len(),
            0 < n,
            i <= iters,
            dedup.well_formed(),
            forwarded <= i,
            bytes <= i * usize::MAX,
            (dedup@, forwarded as nat, bytes as nat) == bench_after(payloads@, window, i as nat),
        decreases iters - i,
    {
        let p = payloads[i % n].as_slice();
        let len: usize = p.len();
        assert(bytes + p@.len() <= (i + 1) * usize::MAX) by (nonlinear_arith)
            requires
                bytes <= i * usize::MAX,
                p@.len() <= usize::MAX,
        ;
        assert((i + 1) * usize::MAX <= usize::MAX * usize::MAX) by (nonlinear_arith)
            requires
                i + 1 <= usize::MAX,
        ;
        assert(usize::MAX * usize::MAX <= u128::MAX) by (nonlinear_arith)
            requires
                usize::MAX <= 0xffff_ffff_ffff_ffff,
        ;
        bytes = bytes + len as u128;
        if let Some(round) = block_round(p) {
            let pass: u32 = #[verifier::truncate] ((i / n) as u32);
            let rr: u32 = round.wrapping_add(pass.wrapping_mul(12));
            if dedup.is_new(rr) {
                forwarded = forwarded + 1;
            }
        }
        i = i + 1;
    }
    (forwarded, bytes)
}

/// The window for 16384 slots has just so many.
proof fn window_is_whole(n: nat)
    requires
        crate::protocol::is_window_size(n, 16_384),
    ensures
        n == 16_384,
{
    let k = choose|k: nat| n == #[trigger] vstd::arithmetic::power2::pow2(k);
    vstd::arithmetic::power2::lemma2_to64();
    assert(vstd::arithmetic::power2::pow2(14) == 16_384);
    if k < 14 {
        vstd::arithmetic::power2::lemma_pow2_strictly_increases(k, 14);
    }
    if k > 14 {
        assert(vstd::arithmetic::power2::pow2(15) == 32_768);
        if k > 15 {
            vstd::arithmetic::power2::lemma_pow2_strictly_increases(15, k);
        }
    }
}

/// The default base port of a gateway.
pub const GATEWAY_PORT: u16 = 4001;

/// Seconds for which a synthetic node reads live blocks unless told otherwise.
pub const DEFAULT_LIVE_SECS: u64 = 30;

/// Largest payload in which a synthetic node looks for a round.
pub const LIVE_BUFFER: u32 = 4_194_304;

/// Longest answer to a request that a synthetic node reads as text.
pub const RPC_TEXT: u32 = 65_536;

/// What a synthetic node is told to do.
pub struct FakenodeArgs {
    pub ip: String,
    pub port: u16,
    pub live_secs: u64,
    pub label: String,
    pub rpc: bool,
}

/// The place of the first argument that is `name`; the number of arguments where there is none.
pub open spec fn arg_at(args: Seq<Seq<char>>, name: Seq<char>) -> int
    decreases args.len(),
{
    if args.len() == 0 || args[0] == name {
        0
    } else {
        1 + arg_at(args.skip(1), name)
    }
}

/// The argument behind the first that is `name`.
pub open spec fn flag_of(args: Seq<Seq<char>>, name: Seq<char>) -> Option<Seq<char>> {
    let i = arg_at(args, name);
    if 0 <= i && i + 1 < args.len() {
        Some(args[i + 1])
    } else {
        None
    }
}

proof fn arg_at_is_first(args: Seq<Seq<char>>, name: Seq<char>, k: int)
    requires
        0 <= k <= args.len(),
        k < args.len() ==> args[k] == name,
        forall|i: int| 0 <= i < k ==> args[i] != name,
    ensures
        arg_at(args, name) == k,
    decreases args.len(),
{
    if k > 0 {
        assert(args[0] != name);
        let rest = args.skip(1);
        assert forall|i: int| 0 <= i < k - 1 implies rest[i] != name by {
            assert(rest[i] == args[i + 1]);
        }
        arg_at_is_first(rest, name, k - 1);
    }
}

fn find_arg(args: &Vec<String>, name: &str) -> (r: usize)
    ensures
        r == arg_at(texts(args@), name@),
        r <= args@.len(),
{
    let mut i: usize = 0;
    while i < args.len() && !same_text(args[i].as_str(), name)
        invariant
            i <= args@.len(),
            forall|k: int| 0 <= k < i ==> texts(args@)[k] != name@,
        decreases args@.len() - i,
    {
        i = i + 1;
    }
    proof {
        arg_at_is_first(texts(args@), name@, i as int);
    }
    i
}

/// The argument behind the first that is `name`.
pub fn flag_value(args: &Vec<String>, name: &str) -> (r: Option<String>)
    ensures
        match (r, flag_of(texts(args@), name@)) {
            (Some(v), Some(w)) => v@ == w,
            (None, None) => true,
            _ => false,
        },
{
    let i = find_arg(args, name);
    assert(texts(args@).len() == args@.len());
    if args.len() >= 1 && i < args.len() - 1 {
        assert(texts(args@)[i + 1] == args@[i + 1]@);
        Some(args[i + 1].clone())
    } else {
        None
    }
}

/// Whether one of the arguments is `name`.
pub fn has_flag(args: &Vec<String>, name: &str) -> (r: bool)
    ensures
        r == (arg_at(texts(args@), name@) < args@.len()),
{
    find_arg(args, name) < args.len()
}

/// The gateway that a target names: what stands before the last colon and the port behind it, or
/// the whole and the default port. `None` where the port is none.
pub open spec fn gateway_of(target: Seq<char>) -> Option<(Seq<char>, u16)> {
    if target.contains(':') {
        let ip = crate::text::before_last_colon(target);
        match number(target.skip(ip.len() as int + 1), u16::MAX as nat) {
            Some(port) => Some((ip, port as u16)),
            None => None,
        }
    } else {
        Some((target, GATEWAY_PORT))
    }
}

/// Reads the gateway out of a target.
pub fn parse_target(target: &str) -> (r: Option<(String, u16)>)
    ensures
        match (r, gateway_of(target@)) {
            (Some(got), Some(want)) => got.0@ == want.0 && got.1 == want.1,
            (None, None) => true,
            _ => false,
        },
{
    let v = to_chars(target);
    let n: usize = v.len();
    match last_colon(v.as_slice()) {
        Some(i) => {
            let ip = crate::push::host_of(target);
            proof {
                assert(target@.contains(':'));
                crate::push::cut_at_last_colon(target@, i as int);
                assert(v@.subrange(i + 1, v@.len() as int) =~= target@.skip(i + 1));
            }
            match parse_number(v.as_slice(), i + 1, n, 0xffff) {
                Some(port) => Some((ip, port as u16)),
                None => None,
            }
        },
        None => Some((target.to_owned(), GATEWAY_PORT)),
    }
}

/// What a list of arguments tells a synthetic node: the target first, which is no flag, then the
/// seconds, the label and whether to make a request. `None` where there is no usable target.
pub open spec fn fakenode_args(args: Seq<Seq<char>>, r: Option<FakenodeArgs>) -> bool {
    let target = if args.len() > 0 && !has_prefix(args[0], "--"@) {
        gateway_of(args[0])
    } else {
        None
    };
    match (target, r) {
        (None, None) => true,
        (Some((ip, port)), Some(got)) => {
            &&& got.ip@ == ip
            &&& got.port == port
            &&& got.live_secs == match flag_of(args, "--live-secs"@) {
                Some(text) => match number(text, u64::MAX as nat) {
                    Some(n) => n,
                    None => 30,
                },
                None => 30,
            }
            &&& got.label@ == match flag_of(args, "--label"@) {
                Some(text) => text,
                None => "fakenode"@,
            }
            &&& got.rpc == (arg_at(args, "--rpc"@) < args.len())
        },
        _ => false,
    }
}

/// Reads the arguments of a synthetic node.
pub fn parse_fakenode_args(args: &Vec<String>) -> (r: Option<FakenodeArgs>)
    ensures
        fakenode_args(texts(args@), r),
{
    assert(texts(args@).len() == args@.len());
    if args.len() == 0 {
        return None;
    }
    assert(texts(args@)[0] == args@[0]@);
    if starts_with_text(args[0].as_str(), "--") {
        return None;
    }
    let (ip, port) = match parse_target(args[0].as_str()) {
        Some(x) => x,
        None => {
            return None;
        },
    };
    let live_secs: u64 = match flag_value(args, "--live-secs") {
        Some(text) => match parse_text(text.as_str(), u64::MAX) {
            Some(n) => n,
            None => DEFAULT_LIVE_SECS,
        },
        None => DEFAULT_LIVE_SECS,
    };
    let label = match flag_value(args, "--label") {
        Some(text) => text,
        None => "fakenode".to_owned(),
    };
    let rpc = has_flag(args, "--rpc");
    Some(FakenodeArgs { ip, port, live_secs, label, rpc })
}

/// Bytes and frames of a bootstrap that a synthetic node has read.
pub struct BootTally {
    bytes: u64,
    frames: u64,
}

impl BootTally {
    /// Bytes so far.
    pub closed spec fn bytes(&self) -> u64 {
        self.bytes
    }

    /// Frames so far.
    pub closed spec fn frames(&self) -> u64 {
        self.frames
    }

    /// Nothing has been read.
    pub fn new() -> (r: BootTally)
        ensures
            r.bytes() == 0,
            r.frames() == 0,
    {
        BootTally { bytes: 0, frames: 0 }
    }

    /// Counts a whole frame with a payload of `len` bytes; whether the bootstrap is now as large as
    /// a cache must be. The counts are held at the largest number.
    pub fn note_frame(&mut self, len: u32) -> (r: bool)
        ensures
            final(self).bytes() == if old(self).bytes() + 5 + len <= u64::MAX {
                old(self).bytes() + 5 + len
            } else {
                u64::MAX as int
            },
            final(self).frames() == if old(self).frames() < u64::MAX {
                old(self).frames() + 1
            } else {
                u64::MAX as int
            },
            r == (final(self).bytes() >= 4_400_000_000 && final(self).frames() >= 4_000),
    {
        self.bytes = self.bytes.saturating_add(5 + len as u64);
        self.frames = self.frames.saturating_add(1);
        complete_bootstrap_at_frame_boundary(self.bytes, self.frames)
    }

    /// Bytes so far.
    pub fn byte_count(&self) -> (r: u64)
        ensures
            r == self.bytes(),
    {
        self.bytes
    }

    /// Frames so far.
    pub fn frame_count(&self) -> (r: u64)
        ensures
            r == self.frames(),
    {
        self.frames
    }
}

/// Live blocks that a synthetic node has read.
pub struct LiveTally {
    frames: u64,
    rounds: HashSet<u32>,
    max_round: u32,
}

impl LiveTally {
    /// Frames so far.
    pub closed spec fn frames(&self) -> u64 {
        self.frames
    }

    /// The rounds that were seen.
    pub closed spec fn rounds(&self) -> Set<u32> {
        self.rounds@
    }

    /// The highest of them; 0 where there are none.
    pub closed spec fn max_round(&self) -> u32 {
        self.max_round
    }

    /// No round that was seen lies above the highest one.
    pub open spec fn well_formed(&self) -> bool {
        &&& forall|k: u32| #[trigger] self.rounds().contains(k) ==> k <= self.max_round()
        &&& self.max_round() > 0 ==> self.rounds().contains(self.max_round())
    }

    /// Nothing has been read.
    pub fn new() -> (r: LiveTally)
        ensures
            r.well_formed(),
            r.frames() == 0,
            r.rounds() == Set::<u32>::empty(),
            r.max_round() == 0,
    {
        LiveTally { frames: 0, rounds: HashSet::new(), max_round: 0 }
    }

    /// Counts a frame, and the round of its block where `payload` is given and has one.
    pub fn note_frame(&mut self, payload: Option<&[u8]>)
        requires
            old(self).well_formed(),
        ensures
            final(self).well_formed(),
            final(self).frames() == if old(self).frames() < u64::MAX {
                old(self).frames() + 1
            } else {
                u64::MAX as int
            },
            ({
                let round = match payload {
                    Some(p) => payload_round(p@),
                    None => None,
                };
                match round {
                    Some(k) => {
                        &&& final(self).rounds() == old(self).rounds().insert(k)
                        &&& final(self).max_round() == if k > old(self).max_round() {
                            k
                        } else {
                            old(self).max_round()
                        }
                    },
                    None => final(self).rounds() == old(self).rounds() && final(self).max_round()
                        == old(self).max_round(),
                }
            }),
    {
        if let Some(p) = payload {
            if let Some(k) = block_round(p) {
                self.rounds.insert(k);
                if k > self.max_round {
                    self.max_round = k;
                }
                assert(self.rounds() == old(self).rounds().insert(k));
                assert forall|x: u32| #[trigger] self.rounds().contains(x) implies x
                    <= self.max_round() by {
                    if x != k {
                        assert(old(self).rounds().contains(x));
                    }
                }
            }
        }
        let ghost before = *self;
        self.frames = self.frames.saturating_add(1);
        assert(self.rounds() == before.rounds());
        assert(before.well_formed());
    }

    /// The number of frames, of rounds, and the highest round.
    pub fn counts(&self) -> (r: (u64, usize, u32))
        ensures
            r.0 == self.frames(),
            r.1 == self.rounds().len(),
            r.2 == self.max_round(),
    {
        (self.frames, self.rounds.len(), self.max_round)
    }

    /// Whether the live stream is good: ten frames at least, and a round.
    pub fn passes(&self) -> (r: bool)
        ensures
            r == (self.frames() >= 10 && self.rounds().len() > 0),
    {
        self.frames >= 10 && self.rounds.len() > 0
    }
}

/// Whether a synthetic node looks for a round in a frame rather than skipping it.
pub fn reads_live_payload(typ: u8, len: u32) -> (r: bool)
    ensures
        r == (typ == 1 && len <= 4_194_304),
{
    typ == 1 && len <= LIVE_BUFFER
}

/// Whether a header that a synthetic node read can be believed.
pub fn believable_len(len: u32) -> (r: bool)
    ensures
        r == (len <= 1_500_000_000),
{
    len <= MAX_FRAME_LEN
}

/// The request of a synthetic node that has seen rounds up to `max_round`: a hundred rounds from a
/// thousand below it on. `None` where it has seen none.
pub fn rpc_request(max_round: u32) -> (r: Option<Vec<u8>>)
    ensures
        match r {
            Some(req) => {
                let start = if max_round > 1000 {
                    (max_round - 1000) as u32
                } else {
                    0
                };
                &&& max_round > 0
                &&& req@ == frame_bytes(0, range_payload(start, (start + 99) as u32))
            },
            None => max_round == 0,
        },
{
    if max_round == 0 {
        return None;
    }
    let start: u32 = max_round.saturating_sub(1000);
    Some(build_client_block_range_request(start, start + 99))
}

/// Whether an answer is short enough, and of the kind, to be read as text.
pub fn reads_rpc_text(typ: u8, len: u32) -> (r: bool)
    ensures
        r == (typ == 0 && len <= 65_536),
{
    typ == 0 && len <= RPC_TEXT
}

/// Whether an answer that was read as text is good: anything but a refusal to a node that is not
/// the peer's own.
pub fn rpc_text_passes(payload: &[u8]) -> (r: bool)
    ensures
        r == !has_infix(payload@, ascii("Peer-only request"@)),
{
    !response_is_peer_only(payload)
}

/// What came of one phase of a synthetic node's visit to a gateway.
#[derive(Clone, Copy, Debug, PartialEq, Eq, Structural)]
pub enum Phase {
    /// The gateway could not be dialled.
    Undialled,
    Failed,
    Passed,
}

/// 1 where the bootstrap did not pass, 2 where the live stream did not, 4 where a request failed,
/// added up.
pub open spec fn failure_mask(boot: Phase, live: Phase, rpc: Option<bool>) -> int {
    (if boot is Passed {
        0int
    } else {
        1
    }) + (if live is Passed {
        0int
    } else {
        2
    }) + (if rpc == Some(false) {
        4int
    } else {
        0
    })
}

/// The exit code of a synthetic node: 64 where the gateway could not be dialled at all, else the
/// mask of what failed.
pub open spec fn exit_code_of(boot: Phase, live: Phase, rpc: Option<bool>) -> int {
    if boot is Undialled && live is Undialled {
        64
    } else {
        failure_mask(boot, live, rpc)
    }
}

/// The exit code of a synthetic node: 64 where neither phase could dial the gateway; else 1 for a
/// failed bootstrap, 2 for a failed live stream, 4 for a failed request, added up.
pub fn exit_code(boot: Phase, live: Phase, rpc: Option<bool>) -> (r: i32)
    ensures
        r == exit_code_of(boot, live, rpc),
{
    if boot == Phase::Undialled && live == Phase::Undialled {
        return 64;
    }
    let mut code: i32 = 0;
    if boot != Phase::Passed {
        code = code + 1;
    }
    if live != Phase::Passed {
        code = code + 2;
    }
    match rpc {
        Some(pass) => {
            if !pass {
                code = code + 4;
            }
        },
        None => {},
    }
    code
}

/// The exit code tells a gateway that could not be dialled and the three checks apart: it is 64
/// just where no phase dialled, 0 just where nothing failed, and otherwise each check has its bit.
pub proof fn exit_code_tells_apart(boot: Phase, live: Phase, rpc: Option<bool>)
    ensures
        ({
            let code = exit_code_of(boot, live, rpc);
            &&& code == 64 <==> boot is Undialled && live is Undialled
            &&& code == 0 <==> boot is Passed && live is Passed && rpc != Some(false)
            &&& code != 64 ==> {
                &&& 0 <= code < 8
                &&& code % 2 == 1 <==> boot !is Passed
                &&& code / 2 % 2 == 1 <==> live !is Passed
                &&& code / 4 == 1 <==> rpc == Some(false)
            }
        }),
{
}

/// A store with room takes a frame of a new round in beside the others; one whose round is there
/// already changes nothing.
pub proof fn store_with_room_keeps_all<V>(
    before: Map<u32, V>,
    after: Map<u32, V>,
    round: u32,
    frame: V,
    cap: nat,
)
    requires
        before.dom().finite(),
        put_in(before, after, round, frame, cap),
    ensures
        before.dom().contains(round) ==> after == before,
        !before.dom().contains(round) && before.dom().len() < cap ==> after == before.insert(
            round,
            frame,
        ),
{
    if !before.dom().contains(round) && before.dom().len() < cap {
        let all = before.insert(round, frame);
        assert(all.dom() =~= before.dom().insert(round));
        assert(after.dom().subset_of(all.dom()));
        vstd::set_lib::lemma_subset_equality(after.dom(), all.dom());
        assert(after =~= all);
    }
}

/// A full store gives up its lowest round for a higher one, and stays as it is where a lower one
/// comes.
pub proof fn full_store_gives_up_its_lowest<V>(
    before: Map<u32, V>,
    after: Map<u32, V>,
    round: u32,
    frame: V,
    low: u32,
)
    requires
        before.dom().finite(),
        before.dom().contains(low),
        forall|k: u32| #[trigger] before.dom().contains(k) ==> low <= k,
        !before.dom().contains(round),
        put_in(before, after, round, frame, before.dom().len()),
    ensures
        round > low ==> after == before.remove(low).insert(round, frame),
        round < low ==> after == before,
{
    let all = before.insert(round, frame);
    let least = if round > low {
        low
    } else {
        round
    };
    assert(all.dom() =~= before.dom().insert(round));
    assert(after.dom().subset_of(all.dom()));
    assert(!after.dom().contains(least)) by {
        if after.dom().contains(least) {
            if forall|d: u32| #[trigger] all.dom().contains(d) ==> after.dom().contains(d) {
                assert(after.dom() =~= all.dom());
            }
            let d = choose|d: u32| #[trigger] all.dom().contains(d) && !after.dom().contains(d);
            assert(d < least);
        }
    }
    let rest = all.dom().remove(least);
    assert(after.dom().subset_of(rest));
    vstd::set_lib::lemma_subset_equality(after.dom(), rest);
    if round > low {
        assert(after =~= before.remove(low).insert(round, frame));
    } else {
        assert(after =~= before);
    }
}

/// Each payload whose two readings differ counts once, and no other counts.
pub proof fn each_mismatch_counts_once(payloads: Seq<Vec<u8>>, p: Vec<u8>)
    ensures
        mismatches(Seq::empty()) == 0,
        payload_round(p@) != full_round(p@) ==> mismatches(payloads.push(p)) == mismatches(payloads)
            + 1,
        payload_round(p@) == full_round(p@) ==> mismatches(payloads.push(p)) == mismatches(payloads),
{
    assert(payloads.push(p).drop_last() =~= payloads);
}

/// A benchmark takes its payloads in turn, one more with each frame, and counts all their bytes and
/// each round once that the window does not know. Each pass over the payloads moves the rounds on by
/// twelve.
pub proof fn benchmark_takes_payloads_in_turn(
    payloads: Seq<Vec<u8>>,
    window: Seq<u32>,
    pass: nat,
    k: nat,
)
    requires
        k < payloads.len(),
        pass <= 1_000_000,
    ensures
        ({
            let i = pass * payloads.len() + k;
            let (slots, passed, bytes) = bench_after(payloads, window, i);
            let (slots1, passed1, bytes1) = bench_after(payloads, window, i + 1);
            let p = payloads[k as int]@;
            &&& bytes1 == bytes + p.len()
            &&& payload_round(p) is None ==> slots1 == slots && passed1 == passed
            &&& payload_round(p) is Some && payload_round(p)->0 + 12 * pass <= u32::MAX ==> {
                let moved = (payload_round(p)->0 + 12 * pass) as u32;
                &&& slots1 == slots_after(slots, moved)
                &&& passed1 == passed + if round_is_new(slots, moved) {
                    1nat
                } else {
                    0
                }
            }
        }),
        bench_after(payloads, window, 0) == (window, 0nat, 0nat),
{
    let n = payloads.len() as int;
    let i = pass * payloads.len() + k;
    assert(i as int % n == k && i as int / n == pass) by {
        vstd::arithmetic::div_mod::lemma_fundamental_div_mod_converse(
            i as int,
            n,
            pass as int,
            k as int,
        );
    }
    assert((i + 1 - 1) as nat == i);
    assert(i >= 0);
}

/// A flag is the first argument of its name, and its value is the argument behind it, where there
/// is one.
pub proof fn first_flag_counts(
    front: Seq<Seq<char>>,
    name: Seq<char>,
    value: Seq<char>,
    rest: Seq<Seq<char>>,
)
    requires
        forall|i: int| 0 <= i < front.len() ==> #[trigger] front[i] != name,
    ensures
        flag_of(front + seq![name, value] + rest, name) == Some(value),
        arg_at(front + seq![name, value] + rest, name) == front.len(),
        flag_of(front + seq![name], name) is None,
        arg_at(front + seq![name], name) == front.len(),
        flag_of(front, name) is None,
        arg_at(front, name) == front.len(),
{
    let n = front.len() as int;
    arg_at_is_first(front + seq![name, value] + rest, name, n);
    arg_at_is_first(front + seq![name], name, n);
    arg_at_is_first(front, name, n);
}

/// A target names its gateway by host and port, the port behind the last colon, or by a host alone
/// at port 4001; a port that is no number up to 65535 names none.
pub proof fn target_reads_back(host: Seq<char>, port: Seq<char>, n: nat)
    requires
        !port.contains(':'),
    ensures
        gateway_of(host + seq![':'] + crate::text::decimal(n)) == if n <= 65_535 {
            Some((host, n as u16))
        } else {
            None
        },
        number(port, 65_535) is None ==> gateway_of(host + seq![':'] + port) is None,
        gateway_of(port) == Some((port, 4001u16)),
{
    let digits = crate::text::decimal(n);
    crate::text::zeros_and_a_plus_change_nothing(n, 0, 65_535);
    assert(Seq::new(0, |i: int| '0') + digits =~= digits);
    assert(!digits.contains(':')) by {
        crate::text::decimal_reads_back(n, n);
        if digits.contains(':') {
            let i = choose|i: int| 0 <= i < digits.len() && digits[i] == ':';
            crate::text::other_texts_are_no_numbers(digits, n);
        }
    }
    crate::text::last_colon_cuts(host, digits);
    crate::text::last_colon_cuts(host, port);
    let one = host + seq![':'] + digits;
    let two = host + seq![':'] + port;
    assert(one[host.len() as int] == ':');
    assert(two[host.len() as int] == ':');
    assert(one.skip(host.len() as int + 1) =~= digits);
    assert(two.skip(host.len() as int + 1) =~= port);
}

/// The first argument is the target, and nothing comes of one that starts with two dashes. Seconds
/// that are no number are 30, as where none are given; the label is `fakenode` unless given; and a
/// request is made just where it is asked for.
pub proof fn arguments_are_read(args: Seq<Seq<char>>, r: Option<FakenodeArgs>)
    requires
        fakenode_args(args, r),
    ensures
        args.len() == 0 ==> r is None,
        args.len() > 0 && has_prefix(args[0], "--"@) ==> r is None,
        args.len() > 0 && !has_prefix(args[0], "--"@) ==> (r is None <==> gateway_of(args[0])
            is None),
        r matches Some(got) ==> {
            &&& gateway_of(args[0]) == Some((got.ip@, got.port))
            &&& flag_of(args, "--live-secs"@) is None ==> got.live_secs == 30
            &&& flag_of(args, "--live-secs"@) matches Some(text) ==> (number(
                text,
                u64::MAX as nat,
            ) is None ==> got.live_secs == 30) && (number(text, u64::MAX as nat) matches Some(n)
                ==> got.live_secs == n)
            &&& flag_of(args, "--label"@) is None ==> got.label@ == "fakenode"@
            &&& flag_of(args, "--label"@) matches Some(text) ==> got.label@ == text
            &&& got.rpc <==> args.contains("--rpc"@)
        },
{
    let name = "--rpc"@;
    if args.contains(name) {
        first_of(args, name);
    } else {
        assert forall|i: int| 0 <= i < args.len() implies #[trigger] args[i] != name by {
            if args[i] == name {
                assert(args.contains(name));
            }
        }
        arg_at_is_first(args, name, args.len() as int);
    }
}

proof fn first_of(args: Seq<Seq<char>>, name: Seq<char>)
    requires
        args.contains(name),
    ensures
        arg_at(args, name) < args.len(),
    decreases args.len(),
{
    if args[0] != name {
        let i = choose|i: int| 0 <= i < args.len() && args[i] == name;
        assert(args.skip(1)[i - 1] == name);
        first_of(args.skip(1), name);
    }
}

} // verus!
