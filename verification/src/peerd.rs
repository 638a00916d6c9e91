//! The peer daemon: which candidates it knows, what a round of probes makes of them, how the pool
//! of live peers is ranked and written down, and how long the daemon sleeps between rounds.
use vstd::prelude::*;
use crate::frames::{
    clustered_max, close_rounds_give_the_highest, in_order, max_clustered_round, order_is_rising,
};
use crate::lists::{
    filter_keeps, push_new, remove_text, with_new, with_new_has_no_duplicates, with_new_holds,
    without, without_holds_others,
};
use crate::order::{order_is_stable, order_of, stable_order, Key};
use crate::peers::{addresses, extract_ipv4};
use crate::probe::{is_live, live_is_two_plausible_blocks, probe_is_live, LiveProbe};
use crate::text::{
    contains_text, copy_list, decimal, join_list, joined, list_has, number, parse_text,
    push_decimal, push_text, same_text, texts, texts_push,
};
use crate::wire::has_infix;

verus! {

/// Live peers that a new pool must have to replace one that had as many.
pub const MIN_LIVE_SERVERS_TO_OVERWRITE: usize = 8;

/// How far below the tip a live peer's highest round may lie.
pub const MAX_LIVE_ROUND_LAG: u32 = 50_000;

/// Failed probes in a row after which a candidate is dropped.
pub const PRUNE_AFTER: u32 = 50;

/// Whether the last pool is kept: it is trusted and not empty, and the new one is empty or has
/// collapsed below the size that the last one had.
pub fn should_keep_previous_peer_pool(
    current_live: usize,
    previous_live: usize,
    previous_trusted: bool,
) -> (r: bool)
    ensures
        r == keeps_previous(current_live as nat, previous_live as nat, previous_trusted),
{
    previous_trusted && previous_live > 0 && (current_live == 0 || (current_live
        < MIN_LIVE_SERVERS_TO_OVERWRITE && previous_live >= MIN_LIVE_SERVERS_TO_OVERWRITE))
}

/// The last pool is kept.
pub open spec fn keeps_previous(current: nat, previous: nat, trusted: bool) -> bool {
    trusted && previous > 0 && (current == 0 || (current < MIN_LIVE_SERVERS_TO_OVERWRITE && previous
        >= MIN_LIVE_SERVERS_TO_OVERWRITE))
}

/// The pool in the file contents `s` holds an address and does not say that it is made of mere
/// candidates.
pub open spec fn trusted_pool(s: Seq<char>) -> bool {
    !has_infix(s, "\"candidate_fallback\":true"@) && addresses(s).len() > 0
}

/// Whether the pool in `contents` can be trusted.
pub fn previous_peer_pool_is_trusted(contents: &str) -> (r: bool)
    ensures
        r == trusted_pool(contents@),
{
    let found = extract_ipv4(contents);
    assert(texts(found@).len() == found@.len());
    !contains_text(contents, "\"candidate_fallback\":true") && found.len() > 0
}

/// Results of probes, with the peers as texts.
pub open spec fn probe_texts(probes: Seq<(String, LiveProbe)>) -> Seq<(Seq<char>, LiveProbe)> {
    probes.map_values(|p: (String, LiveProbe)| (p.0@, p.1))
}

/// The peers of a list of results.
pub open spec fn names(probes: Seq<(Seq<char>, LiveProbe)>) -> Seq<Seq<char>> {
    probes.map_values(|p: (Seq<char>, LiveProbe)| p.0)
}

/// The highest rounds that probes found, in order.
pub open spec fn probe_rounds(probes: Seq<(Seq<char>, LiveProbe)>) -> Seq<u32>
    decreases probes.len(),
{
    if probes.len() == 0 {
        Seq::empty()
    } else {
        let rounds = probe_rounds(probes.drop_last());
        match probes.last().1.max_round {
            Some(round) => rounds.push(round),
            None => rounds,
        }
    }
}

/// The tip of the network as probes show it: the round of the only peer that has one, else the
/// highest round of the largest cluster.
pub open spec fn probe_tip(probes: Seq<(Seq<char>, LiveProbe)>) -> Option<u32> {
    let rounds = probe_rounds(probes);
    if rounds.len() == 1 {
        Some(rounds[0])
    } else {
        clustered_max(in_order(rounds), 2, MAX_LIVE_ROUND_LAG)
    }
}

/// The tip of the network as `probes` show it.
pub fn clustered_probe_tip(probes: &[(String, LiveProbe)]) -> (r: Option<u32>)
    ensures
        r == probe_tip(probe_texts(probes@)),
{
    let ghost all = probe_texts(probes@);
    let n = probes.len();
    let mut rounds: Vec<u32> = Vec::new();
    let mut i: usize = 0;
    while i < n
        invariant
            n == probes@.len(),
            i <= n,
            all == probe_texts(probes@),
            rounds@ == probe_rounds(all.take(i as int)),
        decreases n - i,
    {
        assert(all.take(i + 1).drop_last() =~= all.take(i as int));
        match probes[i].1.max_round {
            Some(round) => {
                rounds.push(round);
            },
            None => {},
        }
        i = i + 1;
    }
    assert(all.take(i as int) =~= all);
    if rounds.len() == 1 {
        return Some(rounds[0]);
    }
    max_clustered_round(rounds.as_mut_slice(), 2, MAX_LIVE_ROUND_LAG)
}

/// A setting: the number that its text spells, held between `min` and `max`; the default where
/// there is no text or it spells none.
pub open spec fn setting(value: Option<Seq<char>>, default: nat, min: nat, max: nat, limit: nat) -> nat {
    match value {
        Some(s) => match number(s, limit) {
            Some(n) => if n < min {
                min
            } else if n > max {
                max
            } else {
                n
            },
            None => default,
        },
        None => default,
    }
}

/// The view of an optional text.
pub open spec fn opt_text(value: Option<&str>) -> Option<Seq<char>> {
    match value {
        Some(s) => Some(s@),
        None => None,
    }
}

/// A setting of the size type, from the text of its variable where that is set. The bounds must
/// be in order wherever the text spells a number.
pub fn env_usize(value: Option<&str>, default: usize, min: usize, max: usize) -> (r: usize)
    requires
        value matches Some(s) ==> number(s@, usize::MAX as nat) is Some ==> min <= max,
    ensures
        r == setting(opt_text(value), default as nat, min as nat, max as nat, usize::MAX as nat),
{
    match value {
        Some(s) => match parse_text(s, usize::MAX as u64) {
            Some(n) => {
                let v: usize = n as usize;
                if v < min {
                    min
                } else if v > max {
                    max
                } else {
                    v
                }
            },
            None => default,
        },
        None => default,
    }
}

/// A 64-bit setting, from the text of its variable where that is set. The bounds must be in order
/// wherever the text spells a number.
pub fn env_u64(value: Option<&str>, default: u64, min: u64, max: u64) -> (r: u64)
    requires
        value matches Some(s) ==> number(s@, u64::MAX as nat) is Some ==> min <= max,
    ensures
        r == setting(opt_text(value), default as nat, min as nat, max as nat, u64::MAX as nat),
{
    match value {
        Some(s) => match parse_text(s, u64::MAX) {
            Some(v) => if v < min {
                min
            } else if v > max {
                max
            } else {
                v
            },
            None => default,
        },
        None => default,
    }
}

/// How long to sleep: the interval, doubled for each empty pool in a row up to three times, but
/// never beyond the backoff limit (or the interval, where that is longer).
pub open spec fn pool_sleep(interval: nat, streak: nat, max_backoff: nat) -> nat {
    let factor: nat = if streak == 0 {
        1
    } else if streak == 1 {
        2
    } else if streak == 2 {
        4
    } else {
        8
    };
    let limit = if max_backoff > interval {
        max_backoff
    } else {
        interval
    };
    if streak == 0 || interval * factor < limit {
        interval * factor
    } else {
        limit
    }
}

/// The seconds to sleep after `empty_live_streak` empty pools in a row.
pub fn empty_pool_sleep_secs(interval: u64, empty_live_streak: u32, max_backoff: u64) -> (r: u64)
    ensures
        r == pool_sleep(interval as nat, empty_live_streak as nat, max_backoff as nat),
{
    if empty_live_streak == 0 {
        return interval;
    }
    let factor: u64 = if empty_live_streak == 1 {
        2
    } else if empty_live_streak == 2 {
        4
    } else {
        8
    };
    let limit: u64 = if max_backoff > interval {
        max_backoff
    } else {
        interval
    };
    if interval > u64::MAX / factor {
        return limit;
    }
    let scaled: u64 = interval * factor;
    if scaled < limit {
        scaled
    } else {
        limit
    }
}

/// The sleep is never shorter than the interval, never longer than the limit, and grows with the
/// row of empty pools.
pub proof fn sleep_backs_off_and_caps(interval: nat, streak: nat, max_backoff: nat)
    ensures
        interval <= pool_sleep(interval, streak, max_backoff),
        interval <= max_backoff ==> pool_sleep(interval, streak, max_backoff) <= max_backoff,
        pool_sleep(interval, streak, max_backoff) <= pool_sleep(interval, streak + 1, max_backoff),
{
}

/// What a list of entries maps each text to: the latest entry counts.
pub open spec fn counts_of(entries: Seq<(String, u32)>) -> Map<Seq<char>, u32>
    decreases entries.len(),
{
    if entries.len() == 0 {
        Map::empty()
    } else {
        counts_of(entries.drop_last()).insert(entries.last().0@, entries.last().1)
    }
}

/// Failed probes in a row, by candidate.
pub struct FailCounts {
    entries: Vec<(String, u32)>,
}

impl View for FailCounts {
    type V = Map<Seq<char>, u32>;

    closed spec fn view(&self) -> Map<Seq<char>, u32> {
        counts_of(self.entries@)
    }
}

impl FailCounts {
    /// No candidate has failed.
    pub fn new() -> (r: FailCounts)
        ensures
            r@ == Map::<Seq<char>, u32>::empty(),
    {
        FailCounts { entries: Vec::new() }
    }

    /// The count of `ip`; 0 where it has none.
    pub fn get(&self, ip: &str) -> (r: u32)
        ensures
            r == if self@.dom().contains(ip@) {
                self@[ip@]
            } else {
                0
            },
    {
        let n = self.entries.len();
        let mut i: usize = n;
        assert(self.entries@.take(n as int) =~= self.entries@);
        while i > 0
            invariant
                n == self.entries@.len(),
                i <= n,
                self@.dom().contains(ip@) <==> counts_of(
                    self.entries@.take(i as int),
                ).dom().contains(ip@),
                self@.dom().contains(ip@) ==> self@[ip@] == counts_of(
                    self.entries@.take(i as int),
                )[ip@],
            decreases i,
        {
            assert(self.entries@.take(i as int).drop_last() =~= self.entries@.take(i - 1));
            i = i - 1;
            if same_text(self.entries[i].0.as_str(), ip) {
                return self.entries[i].1;
            }
        }
        assert(self.entries@.take(0) =~= Seq::<(String, u32)>::empty());
        0
    }

    /// Forgets `ip`.
    pub fn remove(&mut self, ip: &str)
        ensures
            final(self)@ == old(self)@.remove(ip@),
    {
        let ghost all = self.entries@;
        let mut kept: Vec<(String, u32)> = Vec::new();
        let mut i: usize = 0;
        assert(counts_of(kept@) =~= counts_of(all.take(0)).remove(ip@));
        while i < self.entries.len()
            invariant
                all == self.entries@,
                i <= all.len(),
                counts_of(kept@) == counts_of(all.take(i as int)).remove(ip@),
            decreases all.len() - i,
        {
            assert(all.take(i + 1).drop_last() =~= all.take(i as int));
            let ghost before = kept@;
            if !same_text(self.entries[i].0.as_str(), ip) {
                let name = self.entries[i].0.clone();
                let count: u32 = self.entries[i].1;
                kept.push((name, count));
                assert(kept@.drop_last() =~= before);
                assert(counts_of(kept@) =~= counts_of(all.take(i + 1)).remove(ip@));
            } else {
                assert(counts_of(kept@) =~= counts_of(all.take(i + 1)).remove(ip@));
            }
            i = i + 1;
        }
        assert(all.take(i as int) =~= all);
        self.entries = kept;
    }

    /// Sets the count of `ip`.
    pub fn set(&mut self, ip: &str, count: u32)
        ensures
            final(self)@ == old(self)@.insert(ip@, count),
    {
        self.remove(ip);
        let ghost before = self.entries@;
        self.entries.push((ip.to_owned(), count));
        assert(self.entries@.drop_last() =~= before);
        assert(self@ =~= old(self)@.insert(ip@, count));
    }
}

/// Candidates, their failed probes in a row, and how many were dropped.
pub type Tally = (Seq<Seq<char>>, Map<Seq<char>, u32>, nat);

/// A candidate failed once more: it is counted, and dropped at the limit.
pub open spec fn fail_one(tally: Tally, ip: Seq<char>) -> Tally {
    let (candidates, fails, pruned) = tally;
    let count = if fails.dom().contains(ip) {
        fails[ip] + 1
    } else {
        1
    };
    if count >= PRUNE_AFTER {
        (without(candidates, ip), fails.remove(ip), pruned + 1)
    } else {
        (candidates, fails.insert(ip, count as u32), pruned)
    }
}

/// All of `ips` failed once more, first to last.
pub open spec fn fail_all(tally: Tally, ips: Seq<Seq<char>>) -> Tally
    decreases ips.len(),
{
    if ips.len() == 0 {
        tally
    } else {
        fail_one(fail_all(tally, ips.drop_last()), ips.last())
    }
}

/// The counts after the peers `ips` were live: they have none.
pub open spec fn cleared(fails: Map<Seq<char>, u32>, ips: Seq<Seq<char>>) -> Map<Seq<char>, u32> {
    fails.remove_keys(ips.to_set())
}

/// The peers that served live blocks.
pub open spec fn serving(probes: Seq<(Seq<char>, LiveProbe)>) -> Seq<(Seq<char>, LiveProbe)> {
    probes.filter(|p: (Seq<char>, LiveProbe)| is_live(p.1))
}

/// The peers that did not.
pub open spec fn not_serving(probes: Seq<(Seq<char>, LiveProbe)>) -> Seq<(Seq<char>, LiveProbe)> {
    probes.filter(|p: (Seq<char>, LiveProbe)| !is_live(p.1))
}

/// The highest round of a probe lies near the tip or above it.
pub open spec fn near_tip(probe: LiveProbe, tip: u32) -> bool {
    probe.max_round matches Some(round) && round + MAX_LIVE_ROUND_LAG >= tip
}

/// The serving peers that are near the tip; none where the tip is not known.
pub open spec fn live_peers(probes: Seq<(Seq<char>, LiveProbe)>) -> Seq<(Seq<char>, LiveProbe)> {
    match probe_tip(serving(probes)) {
        Some(tip) => serving(probes).filter(|p: (Seq<char>, LiveProbe)| near_tip(p.1, tip)),
        None => Seq::empty(),
    }
}

/// The peers whose probe counts as failed: those that did not serve, then those that lag behind a
/// known tip.
pub open spec fn failed_peers(probes: Seq<(Seq<char>, LiveProbe)>) -> Seq<Seq<char>> {
    names(not_serving(probes)) + match probe_tip(serving(probes)) {
        Some(tip) => names(
            serving(probes).filter(|p: (Seq<char>, LiveProbe)| !near_tip(p.1, tip)),
        ),
        None => Seq::empty(),
    }
}

/// What live peers are ranked by: the higher round first, then the more blocks.
pub open spec fn rank_key(probe: LiveProbe) -> Key {
    (
        match probe.max_round {
            Some(round) => (u32::MAX - round) as u64,
            None => 0x1_0000_0000u64,
        },
        (u64::MAX - probe.blocks) as u64,
        0,
    )
}

/// The peers of `live`, best first.
pub open spec fn ranked(live: Seq<(Seq<char>, LiveProbe)>) -> Seq<Seq<char>> {
    order_of(live.map_values(|p: (Seq<char>, LiveProbe)| rank_key(p.1))).map_values(
        |i: int| live[i].0,
    )
}

fn rank_key_of(probe: &LiveProbe) -> (r: Key)
    ensures
        r == rank_key(*probe),
{
    (
        match probe.max_round {
            Some(round) => (u32::MAX - round) as u64,
            None => 0x1_0000_0000u64,
        },
        u64::MAX - probe.blocks as u64,
        0,
    )
}

/// Ranks live peers, best first.
pub fn rank_live(live: &Vec<(String, LiveProbe)>) -> (r: Vec<String>)
    ensures
        texts(r@) == ranked(probe_texts(live@)),
{
    let ghost model = probe_texts(live@);
    let ghost want = model.map_values(|p: (Seq<char>, LiveProbe)| rank_key(p.1));
    let mut keys: Vec<Key> = Vec::new();
    let mut i: usize = 0;
    while i < live.len()
        invariant
            i <= live@.len(),
            model == probe_texts(live@),
            want == model.map_values(|p: (Seq<char>, LiveProbe)| rank_key(p.1)),
            keys@ == want.take(i as int),
        decreases live@.len() - i,
    {
        keys.push(rank_key_of(&live[i].1));
        i = i + 1;
        assert(keys@ =~= want.take(i as int));
    }
    assert(keys@ =~= want);
    let order = stable_order(&keys);
    let ghost places = order@.map_values(|i: usize| i as int);
    let mut out: Vec<String> = Vec::new();
    let mut j: usize = 0;
    assert(texts(out@) =~= ranked(model).take(0));
    while j < order.len()
        invariant
            j <= order@.len(),
            order@.len() == live@.len(),
            model == probe_texts(live@),
            places == order@.map_values(|i: usize| i as int),
            ranked(model) == places.map_values(|i: int| model[i].0),
            forall|k: int| 0 <= k < order@.len() ==> #[trigger] order@[k] < live@.len(),
            texts(out@) == ranked(model).take(j as int),
        decreases order@.len() - j,
    {
        let ghost before = out@;
        let name = live[order[j]].0.clone();
        out.push(name);
        proof {
            texts_push(before, name);
            assert(ranked(model)[j as int] == model[order@[j as int] as int].0);
        }
        j = j + 1;
        assert(texts(out@) =~= ranked(model).take(j as int));
    }
    assert(ranked(model).take(j as int) =~= ranked(model));
    out
}

/// The ranking holds every live peer once, the higher round first, of equal rounds the more blocks
/// first, and otherwise first come first.
pub proof fn ranking_is_best_first(live: Seq<(Seq<char>, LiveProbe)>)
    requires
        forall|i: int| 0 <= i < live.len() ==> (#[trigger] live[i]).1.max_round is Some,
    ensures
        ({
            let order = order_of(live.map_values(|p: (Seq<char>, LiveProbe)| rank_key(p.1)));
            &&& ranked(live).len() == live.len() == order.len()
            &&& order.no_duplicates()
            &&& forall|i: int|
                0 <= i < live.len() ==> 0 <= #[trigger] order[i] < live.len() && ranked(live)[i]
                    == live[order[i]].0
            &&& forall|i: int, j: int|
                0 <= i < j < live.len() ==> {
                    let (a, b) = (live[#[trigger] order[i]].1, live[#[trigger] order[j]].1);
                    let (ra, rb) = (a.max_round->0, b.max_round->0);
                    ra > rb || (ra == rb && (a.blocks > b.blocks || (a.blocks == b.blocks && order[i]
                        < order[j])))
                }
        }),
{
    let keys = live.map_values(|p: (Seq<char>, LiveProbe)| rank_key(p.1));
    order_is_stable(keys);
    let order = order_of(keys);
    assert forall|i: int| 0 <= i < live.len() implies 0 <= #[trigger] order[i] < live.len()
        && ranked(live)[i] == live[order[i]].0 by {
        assert(order.contains(order[i]));
    }
    assert forall|i: int, j: int| 0 <= i < j < live.len() implies {
        let (a, b) = (live[#[trigger] order[i]].1, live[#[trigger] order[j]].1);
        let (ra, rb) = (a.max_round->0, b.max_round->0);
        ra > rb || (ra == rb && (a.blocks > b.blocks || (a.blocks == b.blocks && order[i]
            < order[j])))
    } by {
        let (x, y) = (order[i], order[j]);
        assert(order.contains(x) && order.contains(y));
        assert(keys[x] == rank_key(live[x].1) && keys[y] == rank_key(live[y].1));
        assert(live[x].1.max_round is Some && live[y].1.max_round is Some);
        assert(x != y);
    }
}

/// `n` times the text `ip`.
pub open spec fn times(ip: Seq<char>, n: nat) -> Seq<Seq<char>> {
    Seq::new(n, |i: int| ip)
}

/// A candidate without failed probes stays for forty-nine of them in a row, which are counted,
/// and is dropped with the fiftieth; should it be found again, it starts afresh.
pub proof fn fiftieth_failure_drops(
    candidates: Seq<Seq<char>>,
    fails: Map<Seq<char>, u32>,
    ip: Seq<char>,
    n: nat,
)
    requires
        !fails.dom().contains(ip),
        n <= PRUNE_AFTER,
    ensures
        n < PRUNE_AFTER ==> fail_all((candidates, fails, 0), times(ip, n)) == (
            candidates,
            if n == 0 {
                fails
            } else {
                fails.insert(ip, n as u32)
            },
            0nat,
        ),
        n == PRUNE_AFTER ==> fail_all((candidates, fails, 0), times(ip, n)) == (
            without(candidates, ip),
            fails,
            1nat,
        ),
    decreases n,
{
    if n > 0 {
        let m = (n - 1) as nat;
        fiftieth_failure_drops(candidates, fails, ip, m);
        assert(times(ip, n).drop_last() =~= times(ip, m));
        let before = fail_all((candidates, fails, 0), times(ip, m));
        if n < PRUNE_AFTER {
            assert(before.1.insert(ip, n as u32) =~= fails.insert(ip, n as u32));
        } else {
            assert(before.1.remove(ip) =~= fails);
        }
    } else {
        assert(times(ip, 0) =~= Seq::empty());
    }
}

/// With a known tip every result counts: a peer is live, or its probe has failed. Without one no
/// serving peer is live or failed; the others have failed.
pub proof fn every_result_counts(probes: Seq<(Seq<char>, LiveProbe)>, p: (Seq<char>, LiveProbe))
    requires
        probes.contains(p),
    ensures
        probe_tip(serving(probes)) is Some ==> live_peers(probes).contains(p)
            || failed_peers(probes).contains(p.0),
        !is_live(p.1) ==> failed_peers(probes).contains(p.0) && !live_peers(probes).contains(p),
{
    let (good, bad) = (serving(probes), not_serving(probes));
    let tip = probe_tip(good);
    filter_keeps(probes, |q: (Seq<char>, LiveProbe)| is_live(q.1), p);
    filter_keeps(probes, |q: (Seq<char>, LiveProbe)| !is_live(q.1), p);
    let lagging = match tip {
        Some(t) => good.filter(|q: (Seq<char>, LiveProbe)| !near_tip(q.1, t)),
        None => Seq::empty(),
    };
    if tip is Some {
        let t = tip->0;
        filter_keeps(good, |q: (Seq<char>, LiveProbe)| near_tip(q.1, t), p);
        filter_keeps(good, |q: (Seq<char>, LiveProbe)| !near_tip(q.1, t), p);
    }
    let failed = failed_peers(probes);
    assert(failed =~= names(bad) + names(lagging));
    if bad.contains(p) {
        let k = choose|k: int| 0 <= k < bad.len() && bad[k] == p;
        assert(failed[k] == p.0);
    }
    if lagging.contains(p) {
        let k = choose|k: int| 0 <= k < lagging.len() && lagging[k] == p;
        assert(names(lagging)[k] == p.0);
        assert(failed[bad.len() + k] == p.0);
    }
}

/// `ips` as JSON strings.
pub open spec fn quoted(ips: Seq<Seq<char>>) -> Seq<Seq<char>> {
    ips.map_values(|ip: Seq<char>| seq!['"'] + ip + seq!['"'])
}

/// A number, or `null`.
pub open spec fn tip_text(tip: Option<u32>) -> Seq<char> {
    match tip {
        Some(round) => decimal(round as nat),
        None => "null"@,
    }
}

/// The contents of the peer file: the live peers, best first, the number of candidates and the
/// tip of the network.
pub open spec fn peers_file(ips: Seq<Seq<char>>, candidates: nat, tip: Option<u32>) -> Seq<char> {
    "{\"live_servers\":["@ + joined(quoted(ips), ","@) + "],\"n_candidates\":"@ + decimal(candidates)
        + ",\"round_tip\":"@ + tip_text(tip) + ",\"candidate_fallback\":false}"@
}

/// Writes out the contents of the peer file.
pub fn render_peers_file(ips: &Vec<String>, candidates: usize, tip: Option<u32>) -> (r: String)
    ensures
        r@ == peers_file(texts(ips@), candidates as nat, tip),
{
    let mut list: Vec<String> = Vec::new();
    let mut i: usize = 0;
    while i < ips.len()
        invariant
            i <= ips@.len(),
            texts(list@) == quoted(texts(ips@)).take(i as int),
        decreases ips@.len() - i,
    {
        let ghost before = list@;
        let mut item = String::new();
        item.push('"');
        push_text(&mut item, ips[i].as_str());
        item.push('"');
        list.push(item);
        proof {
            texts_push(before, item);
            assert(item@ =~= seq!['"'] + texts(ips@)[i as int] + seq!['"']);
        }
        i = i + 1;
        assert(texts(list@) =~= quoted(texts(ips@)).take(i as int));
    }
    assert(texts(list@) =~= quoted(texts(ips@)));
    let mut out = String::new();
    push_text(&mut out, "{\"live_servers\":[");
    push_text(&mut out, join_list(&list, ",").as_str());
    push_text(&mut out, "],\"n_candidates\":");
    push_decimal(&mut out, candidates as u64);
    push_text(&mut out, ",\"round_tip\":");
    match tip {
        Some(round) => push_decimal(&mut out, round as u64),
        None => push_text(&mut out, "null"),
    }
    push_text(&mut out, ",\"candidate_fallback\":false}");
    assert(out@ =~= peers_file(texts(ips@), candidates as nat, tip));
    out
}

/// The peers of a list of results.
fn names_of(probes: &Vec<(String, LiveProbe)>) -> (r: Vec<String>)
    ensures
        texts(r@) == names(probe_texts(probes@)),
{
    let ghost all = names(probe_texts(probes@));
    let mut out: Vec<String> = Vec::new();
    let mut i: usize = 0;
    while i < probes.len()
        invariant
            i <= probes@.len(),
            all == names(probe_texts(probes@)),
            texts(out@) == all.take(i as int),
        decreases probes@.len() - i,
    {
        let ghost before = out@;
        let name = probes[i].0.clone();
        out.push(name);
        proof {
            texts_push(before, name);
        }
        i = i + 1;
        assert(texts(out@) =~= all.take(i as int));
    }
    assert(texts(out@) =~= all);
    out
}

/// Adds the texts of `more` at the end of `list`.
fn append_names(list: &mut Vec<String>, more: Vec<String>)
    ensures
        texts(final(list)@) == texts(old(list)@) + texts(more@),
{
    let mut i: usize = 0;
    assert(texts(list@) =~= texts(old(list)@) + texts(more@).take(0));
    while i < more.len()
        invariant
            i <= more@.len(),
            texts(list@) == texts(old(list)@) + texts(more@).take(i as int),
        decreases more@.len() - i,
    {
        let ghost before = list@;
        let name = more[i].clone();
        list.push(name);
        proof {
            texts_push(before, name);
        }
        i = i + 1;
        assert(texts(list@) =~= texts(old(list)@) + texts(more@).take(i as int));
    }
    assert(texts(more@).take(i as int) =~= texts(more@));
}

/// Adds a copy of one result.
fn push_result(list: &mut Vec<(String, LiveProbe)>, result: &(String, LiveProbe))
    ensures
        probe_texts(final(list)@) == probe_texts(old(list)@).push((result.0@, result.1)),
{
    list.push((result.0.clone(), result.1));
    assert(probe_texts(list@) =~= probe_texts(old(list)@).push((result.0@, result.1)));
}

/// Parts the results into those of serving peers and the names of the others.
fn split_serving(probes: &Vec<(String, LiveProbe)>) -> (r: (Vec<(String, LiveProbe)>, Vec<String>))
    ensures
        probe_texts(r.0@) == serving(probe_texts(probes@)),
        texts(r.1@) == names(not_serving(probe_texts(probes@))),
{
    let ghost all = probe_texts(probes@);
    let mut served: Vec<(String, LiveProbe)> = Vec::new();
    let mut failed: Vec<String> = Vec::new();
    let mut i: usize = 0;
    proof {
        reveal(Seq::filter);
    }
    assert(probe_texts(served@) =~= serving(all.take(0)));
    assert(texts(failed@) =~= names(not_serving(all.take(0))));
    while i < probes.len()
        invariant
            i <= probes@.len(),
            all == probe_texts(probes@),
            probe_texts(served@) == serving(all.take(i as int)),
            texts(failed@) == names(not_serving(all.take(i as int))),
        decreases probes@.len() - i,
    {
        reveal(Seq::filter);
        assert(all.take(i + 1).drop_last() =~= all.take(i as int));
        assert(all.take(i + 1).last() == (probes@[i as int].0@, probes@[i as int].1));
        let ghost not_before = not_serving(all.take(i as int));
        if probe_is_live(&probes[i].1) {
            push_result(&mut served, &probes[i]);
        } else {
            let ghost before = failed@;
            let name = probes[i].0.clone();
            failed.push(name);
            proof {
                texts_push(before, name);
                assert(names(not_before.push(all[i as int])) =~= names(not_before).push(name@));
            }
        }
        i = i + 1;
    }
    assert(all.take(i as int) =~= all);
    (served, failed)
}

/// Parts the results of serving peers into those near the tip and the names of the others.
fn split_near_tip(served: &Vec<(String, LiveProbe)>, tip: u32) -> (r: (
    Vec<(String, LiveProbe)>,
    Vec<String>,
))
    ensures
        probe_texts(r.0@) == probe_texts(served@).filter(
            |p: (Seq<char>, LiveProbe)| near_tip(p.1, tip),
        ),
        texts(r.1@) == names(
            probe_texts(served@).filter(|p: (Seq<char>, LiveProbe)| !near_tip(p.1, tip)),
        ),
{
    let ghost all = probe_texts(served@);
    let ghost is_near = |p: (Seq<char>, LiveProbe)| near_tip(p.1, tip);
    let ghost is_far = |p: (Seq<char>, LiveProbe)| !near_tip(p.1, tip);
    let mut near: Vec<(String, LiveProbe)> = Vec::new();
    let mut lagging: Vec<String> = Vec::new();
    let mut i: usize = 0;
    proof {
        reveal(Seq::filter);
    }
    assert(probe_texts(near@) =~= all.take(0).filter(is_near));
    assert(texts(lagging@) =~= names(all.take(0).filter(is_far)));
    while i < served.len()
        invariant
            i <= served@.len(),
            all == probe_texts(served@),
            is_near == |p: (Seq<char>, LiveProbe)| near_tip(p.1, tip),
            is_far == |p: (Seq<char>, LiveProbe)| !near_tip(p.1, tip),
            probe_texts(near@) == all.take(i as int).filter(is_near),
            texts(lagging@) == names(all.take(i as int).filter(is_far)),
        decreases served@.len() - i,
    {
        reveal(Seq::filter);
        assert(all.take(i + 1).drop_last() =~= all.take(i as int));
        assert(all.take(i + 1).last() == (served@[i as int].0@, served@[i as int].1));
        let ghost far_before = all.take(i as int).filter(is_far);
        let keep = match served[i].1.max_round {
            Some(round) => round.saturating_add(MAX_LIVE_ROUND_LAG) >= tip,
            None => false,
        };
        if keep {
            push_result(&mut near, &served[i]);
        } else {
            let ghost before = lagging@;
            let name = served[i].0.clone();
            lagging.push(name);
            proof {
                texts_push(before, name);
                assert(names(far_before.push(all[i as int])) =~= names(far_before).push(name@));
            }
        }
        i = i + 1;
    }
    assert(all.take(i as int) =~= all);
    (near, lagging)
}

/// The addresses that are none of the nodes' own.
pub open spec fn others(ips: Seq<Seq<char>>, own: Seq<Seq<char>>) -> Seq<Seq<char>> {
    ips.filter(|ip: Seq<char>| !own.contains(ip))
}

/// The results for addresses that are none of the nodes' own.
pub open spec fn results_of_others(
    results: Seq<(Seq<char>, LiveProbe)>,
    own: Seq<Seq<char>>,
) -> Seq<(Seq<char>, LiveProbe)> {
    results.filter(|p: (Seq<char>, LiveProbe)| !own.contains(p.0))
}

/// Leaves out the results for the nodes' own addresses.
fn leave_out_own(probes: &Vec<(String, LiveProbe)>, own: &Vec<String>) -> (r: Vec<
    (String, LiveProbe),
>)
    ensures
        probe_texts(r@) == results_of_others(probe_texts(probes@), texts(own@)),
{
    let ghost all = probe_texts(probes@);
    let mut kept: Vec<(String, LiveProbe)> = Vec::new();
    let mut i: usize = 0;
    proof {
        reveal(Seq::filter);
    }
    assert(probe_texts(kept@) =~= results_of_others(all.take(0), texts(own@)));
    while i < probes.len()
        invariant
            i <= probes@.len(),
            all == probe_texts(probes@),
            probe_texts(kept@) == results_of_others(all.take(i as int), texts(own@)),
        decreases probes@.len() - i,
    {
        reveal(Seq::filter);
        assert(all.take(i + 1).drop_last() =~= all.take(i as int));
        assert(all.take(i + 1).last() == (probes@[i as int].0@, probes@[i as int].1));
        if !list_has(own, probes[i].0.as_str()) {
            push_result(&mut kept, &probes[i]);
        }
        i = i + 1;
    }
    assert(all.take(i as int) =~= all);
    kept
}

/// What the daemon keeps from one round of probes to the next.
pub struct PeerDaemon {
    own: Vec<String>,
    candidates: Vec<String>,
    fails: FailCounts,
    empty_streak: u32,
}

/// What came of a round of probes.
pub struct CycleReport {
    /// The live peers, best first.
    pub ranked: Vec<String>,
    /// The tip of the network.
    pub round_tip: Option<u32>,
    /// Candidates that were dropped.
    pub pruned: usize,
    /// Whether the last peer file is kept.
    pub kept_previous: bool,
    /// The new contents of the peer file.
    pub contents: String,
    /// Empty pools in a row.
    pub empty_streak: u32,
    /// Seconds to sleep before the next round.
    pub sleep_secs: u64,
}

impl PeerDaemon {
    /// The nodes' own addresses.
    pub closed spec fn own(&self) -> Seq<Seq<char>> {
        texts(self.own@)
    }

    /// The known candidates.
    pub closed spec fn candidates(&self) -> Seq<Seq<char>> {
        texts(self.candidates@)
    }

    /// Failed probes in a row, by candidate.
    pub closed spec fn fails(&self) -> Map<Seq<char>, u32> {
        self.fails@
    }

    /// Empty pools in a row.
    pub closed spec fn streak(&self) -> u32 {
        self.empty_streak
    }

    /// No candidate is known twice, none is one of the nodes' own addresses, and none has reached
    /// the limit of failed probes.
    pub open spec fn well_formed(&self) -> bool {
        &&& self.candidates().no_duplicates()
        &&& forall|ip: Seq<char>| #[trigger]
            self.candidates().contains(ip) ==> !self.own().contains(ip)
        &&& forall|ip: Seq<char>| #[trigger]
            self.fails().dom().contains(ip) ==> self.fails()[ip] < PRUNE_AFTER
    }

    /// A daemon that knows the candidates it has on file, but for the nodes' own addresses.
    pub fn new(on_file: &Vec<String>, own: &Vec<String>) -> (r: PeerDaemon)
        ensures
            r.well_formed(),
            r.own() == texts(own@),
            r.candidates() == with_new(Seq::empty(), others(texts(on_file@), texts(own@))),
            r.fails() == Map::<Seq<char>, u32>::empty(),
            r.streak() == 0,
    {
        let mut daemon = PeerDaemon {
            own: copy_list(own),
            candidates: Vec::new(),
            fails: FailCounts::new(),
            empty_streak: 0,
        };
        assert(daemon.candidates() =~= Seq::<Seq<char>>::empty());
        daemon.discover(on_file);
        daemon
    }

    /// Takes in the peers that were found, but for the nodes' own addresses.
    pub fn discover(&mut self, found: &Vec<String>)
        requires
            old(self).well_formed(),
        ensures
            final(self).well_formed(),
            final(self).own() == old(self).own(),
            final(self).candidates() == with_new(
                old(self).candidates(),
                others(texts(found@), old(self).own()),
            ),
            final(self).fails() == old(self).fails(),
            final(self).streak() == old(self).streak(),
    {
        let ghost own = old(self).own();
        let ghost keep = |ip: Seq<char>| !own.contains(ip);
        let ghost all = texts(found@);
        let mut i: usize = 0;
        proof {
            reveal(Seq::filter);
        }
        assert(all.take(0).filter(keep) =~= Seq::<Seq<char>>::empty());
        while i < found.len()
            invariant
                i <= found@.len(),
                all == texts(found@),
                own == old(self).own(),
                self.own() == own,
                keep == |ip: Seq<char>| !own.contains(ip),
                self.candidates() == with_new(
                    old(self).candidates(),
                    all.take(i as int).filter(keep),
                ),
                self.fails() == old(self).fails(),
                self.streak() == old(self).streak(),
            decreases found@.len() - i,
        {
            reveal(Seq::filter);
            let ghost before = all.take(i as int).filter(keep);
            assert(all.take(i + 1).drop_last() =~= all.take(i as int));
            assert(all.take(i + 1).last() == found@[i as int]@);
            if !list_has(&self.own, found[i].as_str()) {
                push_new(&mut self.candidates, found[i].as_str());
                assert(all.take(i + 1).filter(keep) =~= before.push(found@[i as int]@));
                assert(before.push(found@[i as int]@).drop_last() =~= before);
            } else {
                assert(all.take(i + 1).filter(keep) =~= before);
            }
            i = i + 1;
        }
        assert(all.take(i as int) =~= all);
        proof {
            with_new_has_no_duplicates(old(self).candidates(), all.filter(keep));
            with_new_holds(old(self).candidates(), all.filter(keep));
            assert forall|ip: Seq<char>| #[trigger] self.candidates().contains(ip) implies !own.contains(
                ip,
            ) by {
                filter_keeps(all, keep, ip);
            }
        }
    }

    /// The candidates to probe.
    pub fn to_probe(&self) -> (r: Vec<String>)
        ensures
            texts(r@) == self.candidates(),
            self.well_formed() ==> forall|ip: Seq<char>| #[trigger]
                self.own().contains(ip) ==> !texts(r@).contains(ip),
    {
        copy_list(&self.candidates)
    }

    /// The contents of the candidate file: one candidate a line.
    pub fn candidates_file(&self) -> (r: String)
        ensures
            r@ == joined(self.candidates(), "\n"@),
    {
        join_list(&self.candidates, "\n")
    }

    /// Ends a round of probes: forgives the live peers, counts the failed ones and drops those at
    /// the limit, ranks the live ones, and decides what becomes of the peer file, of which
    /// `previous` is the contents so far. A result for one of the nodes' own addresses counts for
    /// nothing.
    pub fn finish_cycle(
        &mut self,
        probes: &Vec<(String, LiveProbe)>,
        previous: &str,
        interval: u64,
        max_backoff: u64,
    ) -> (r: CycleReport)
        requires
            old(self).well_formed(),
        ensures
            final(self).well_formed(),
            final(self).own() == old(self).own(),
            forall|ip: Seq<char>| #[trigger]
                old(self).own().contains(ip) ==> !texts(r.ranked@).contains(ip),
            ({
                let results = results_of_others(probe_texts(probes@), old(self).own());
                let live = live_peers(results);
                &&& (final(self).candidates(), final(self).fails(), r.pruned as nat) == fail_all(
                    (old(self).candidates(), cleared(old(self).fails(), names(live)), 0),
                    failed_peers(results),
                )
                &&& r.round_tip == probe_tip(serving(results))
                &&& texts(r.ranked@) == ranked(live)
                &&& r.kept_previous == keeps_previous(
                    live.len(),
                    addresses(previous@).len(),
                    trusted_pool(previous@),
                )
                &&& r.contents@ == peers_file(
                    ranked(live),
                    old(self).candidates().len(),
                    probe_tip(serving(results)),
                )
                &&& r.empty_streak == if live.len() > 0 {
                    0
                } else if old(self).streak() < u32::MAX {
                    old(self).streak() + 1
                } else {
                    u32::MAX as int
                }
                &&& final(self).streak() == r.empty_streak
                &&& r.sleep_secs == pool_sleep(
                    interval as nat,
                    r.empty_streak as nat,
                    max_backoff as nat,
                )
            }),
    {
        let ghost all_probes = *probes;
        let ghost results = results_of_others(probe_texts(probes@), self.own());
        let probes = leave_out_own(probes, &self.own);
        let n_candidates: usize = self.candidates.len();
        assert(self.candidates().len() == n_candidates);
        let (served, mut failed) = split_serving(&probes);
        let round_tip = clustered_probe_tip(served.as_slice());
        let live: Vec<(String, LiveProbe)> = match round_tip {
            Some(tip) => {
                let (near, lagging) = split_near_tip(&served, tip);
                append_names(&mut failed, lagging);
                near
            },
            None => Vec::new(),
        };
        proof {
            assert(probe_texts(live@) =~= live_peers(results));
            assert(texts(failed@) =~= failed_peers(results));
        }
        let live_names = names_of(&live);
        self.forgive(&live_names);
        let pruned = self.count_failures(&failed);
        let ranked_names = rank_live(&live);
        proof {
            order_is_stable(
                live_peers(results).map_values(|p: (Seq<char>, LiveProbe)| rank_key(p.1)),
            );
            assert(texts(ranked_names@).len() == ranked_names@.len());
            assert forall|ip: Seq<char>| #[trigger] old(self).own().contains(ip) implies !texts(
                ranked_names@,
            ).contains(ip) by {
                own_address_is_not_ranked(probe_texts(all_probes@), old(self).own(), ip);
            }
        }
        let found = extract_ipv4(previous);
        assert(texts(found@).len() == found@.len());
        let trusted = previous_peer_pool_is_trusted(previous);
        let kept_previous = should_keep_previous_peer_pool(
            ranked_names.len(),
            found.len(),
            trusted,
        );
        let contents = render_peers_file(&ranked_names, n_candidates, round_tip);
        self.empty_streak = if ranked_names.len() == 0 {
            self.empty_streak.saturating_add(1)
        } else {
            0
        };
        let sleep_secs = empty_pool_sleep_secs(interval, self.empty_streak, max_backoff);
        CycleReport {
            ranked: ranked_names,
            round_tip,
            pruned,
            kept_previous,
            contents,
            empty_streak: self.empty_streak,
            sleep_secs,
        }
    }

    /// Counts the failed probes of `ips`, and drops those that reached the limit; how many.
    fn count_failures(&mut self, ips: &Vec<String>) -> (pruned: usize)
        requires
            old(self).well_formed(),
        ensures
            final(self).well_formed(),
            final(self).own() == old(self).own(),
            (final(self).candidates(), final(self).fails(), pruned as nat) == fail_all(
                (old(self).candidates(), old(self).fails(), 0),
                texts(ips@),
            ),
            final(self).streak() == old(self).streak(),
    {
        let ghost start = (old(self).candidates(), old(self).fails(), 0nat);
        let ghost all = texts(ips@);
        let mut pruned: usize = 0;
        let mut i: usize = 0;
        assert(all.take(0) =~= Seq::<Seq<char>>::empty());
        while i < ips.len()
            invariant
                i <= ips@.len(),
                all == texts(ips@),
                pruned <= i,
                start == (old(self).candidates(), old(self).fails(), 0nat),
                self.well_formed(),
                self.own() == old(self).own(),
                (self.candidates(), self.fails(), pruned as nat) == fail_all(
                    start,
                    all.take(i as int),
                ),
                self.streak() == old(self).streak(),
            decreases ips@.len() - i,
        {
            assert(all.take(i + 1).drop_last() =~= all.take(i as int));
            assert(all.take(i + 1).last() == ips@[i as int]@);
            let ip = ips[i].as_str();
            let ghost before = *self;
            let count: u32 = self.fails.get(ip) + 1;
            if count >= PRUNE_AFTER {
                remove_text(&mut self.candidates, ip);
                self.fails.remove(ip);
                pruned = pruned + 1;
                proof {
                    without_has_no_duplicates(before.candidates(), ip@);
                }
            } else {
                self.fails.set(ip, count);
            }
            i = i + 1;
        }
        assert(all.take(i as int) =~= all);
        pruned
    }

    /// Forgets the failed probes of `ips`.
    fn forgive(&mut self, ips: &Vec<String>)
        requires
            old(self).well_formed(),
        ensures
            final(self).well_formed(),
            final(self).own() == old(self).own(),
            final(self).fails() == cleared(old(self).fails(), texts(ips@)),
            final(self).candidates() == old(self).candidates(),
            final(self).streak() == old(self).streak(),
    {
        let ghost all = texts(ips@);
        let ghost fails = old(self).fails();
        let mut i: usize = 0;
        assert(cleared(fails, all.take(0)) =~= fails);
        while i < ips.len()
            invariant
                i <= ips@.len(),
                all == texts(ips@),
                fails == old(self).fails(),
                self.own() == old(self).own(),
                self.fails() == cleared(fails, all.take(i as int)),
                self.candidates() == old(self).candidates(),
                self.streak() == old(self).streak(),
            decreases ips@.len() - i,
        {
            self.fails.remove(ips[i].as_str());
            proof {
                let ip = ips@[i as int]@;
                let (less, more) = (all.take(i as int), all.take(i + 1));
                assert(more =~= less.push(ip));
                assert forall|x: Seq<char>| more.to_set().contains(x) <==> less.to_set().contains(x)
                    || x == ip by {
                    if less.contains(x) {
                        let k = choose|k: int| 0 <= k < less.len() && less[k] == x;
                        assert(more[k] == x);
                    }
                    if x == ip {
                        assert(more[i as int] == x);
                    }
                    if more.contains(x) {
                        let k = choose|k: int| 0 <= k < more.len() && more[k] == x;
                        if k < i {
                            assert(less[k] == x);
                        }
                    }
                }
                assert(self.fails() =~= cleared(fails, more));
            }
            i = i + 1;
        }
        assert(all.take(i as int) =~= all);
    }
}

/// No address but a live peer's is ranked, so none of the nodes' own is.
proof fn own_address_is_not_ranked(
    results: Seq<(Seq<char>, LiveProbe)>,
    own: Seq<Seq<char>>,
    ip: Seq<char>,
)
    requires
        own.contains(ip),
    ensures
        !ranked(live_peers(results_of_others(results, own))).contains(ip),
{
    let kept = results_of_others(results, own);
    let live = live_peers(kept);
    let keys = live.map_values(|p: (Seq<char>, LiveProbe)| rank_key(p.1));
    order_is_stable(keys);
    if ranked(live).contains(ip) {
        let i = choose|i: int| 0 <= i < ranked(live).len() && ranked(live)[i] == ip;
        assert(order_of(keys).contains(order_of(keys)[i]));
        let p = live[order_of(keys)[i]];
        assert(live.contains(p));
        let tip = probe_tip(serving(kept))->0;
        filter_keeps(serving(kept), |p: (Seq<char>, LiveProbe)| near_tip(p.1, tip), p);
        filter_keeps(kept, |p: (Seq<char>, LiveProbe)| is_live(p.1), p);
        filter_keeps(results, |p: (Seq<char>, LiveProbe)| !own.contains(p.0), p);
    }
}

/// Failed probes make no new candidate.
proof fn failures_add_no_candidate(tally: Tally, ips: Seq<Seq<char>>, ip: Seq<char>)
    ensures
        fail_all(tally, ips).0.contains(ip) ==> tally.0.contains(ip),
    decreases ips.len(),
{
    if ips.len() > 0 {
        failures_add_no_candidate(tally, ips.drop_last(), ip);
        without_holds_others(fail_all(tally, ips.drop_last()).0, ips.last(), ip);
    }
}

/// What happens to a daemon: peers are found, or a round of probes ends.
pub enum DaemonEvent {
    Found(Seq<Seq<char>>),
    Probed(Seq<(Seq<char>, LiveProbe)>),
}

/// The candidates and their failed probes after one event.
pub open spec fn after_event(
    state: (Seq<Seq<char>>, Map<Seq<char>, u32>),
    own: Seq<Seq<char>>,
    event: DaemonEvent,
) -> (Seq<Seq<char>>, Map<Seq<char>, u32>) {
    match event {
        DaemonEvent::Found(ips) => (with_new(state.0, others(ips, own)), state.1),
        DaemonEvent::Probed(all) => {
            let results = results_of_others(all, own);
            let tally = fail_all(
                (state.0, cleared(state.1, names(live_peers(results))), 0),
                failed_peers(results),
            );
            (tally.0, tally.1)
        },
    }
}

/// The candidates and their failed probes after all of `events`, from a candidate file on.
pub open spec fn after_events(
    on_file: Seq<Seq<char>>,
    own: Seq<Seq<char>>,
    events: Seq<DaemonEvent>,
) -> (Seq<Seq<char>>, Map<Seq<char>, u32>)
    decreases events.len(),
{
    if events.len() == 0 {
        (with_new(Seq::empty(), others(on_file, own)), Map::empty())
    } else {
        after_event(after_events(on_file, own, events.drop_last()), own, events.last())
    }
}

/// One of the nodes' own addresses is never a candidate, whatever the candidate file held, whatever
/// was found and whatever probes showed since, and no round of probes ranks it: no list of live
/// servers that is written holds it.
pub proof fn own_address_never_enters_the_pool(
    on_file: Seq<Seq<char>>,
    own: Seq<Seq<char>>,
    events: Seq<DaemonEvent>,
    ip: Seq<char>,
)
    requires
        own.contains(ip),
    ensures
        !after_events(on_file, own, events).0.contains(ip),
        forall|results: Seq<(Seq<char>, LiveProbe)>|
            !(#[trigger] ranked(live_peers(results_of_others(results, own)))).contains(ip),
    decreases events.len(),
{
    if events.len() == 0 {
        with_new_holds(Seq::empty(), others(on_file, own));
        filter_keeps(on_file, |x: Seq<char>| !own.contains(x), ip);
    } else {
        own_address_never_enters_the_pool(on_file, own, events.drop_last(), ip);
        let (candidates, fails) = after_events(on_file, own, events.drop_last());
        match events.last() {
            DaemonEvent::Found(ips) => {
                with_new_holds(candidates, others(ips, own));
                filter_keeps(ips, |x: Seq<char>| !own.contains(x), ip);
            },
            DaemonEvent::Probed(all) => {
                let results = results_of_others(all, own);
                failures_add_no_candidate(
                    (candidates, cleared(fails, names(live_peers(results))), 0),
                    failed_peers(results),
                    ip,
                );
            },
        }
    }
    assert forall|results: Seq<(Seq<char>, LiveProbe)>| !(#[trigger] ranked(
        live_peers(results_of_others(results, own)),
    )).contains(ip) by {
        own_address_is_not_ranked(results, own, ip);
    }
}

/// Taking a text out leaves no text twice.
proof fn without_has_no_duplicates(list: Seq<Seq<char>>, s: Seq<char>)
    requires
        list.no_duplicates(),
    ensures
        without(list, s).no_duplicates(),
        forall|x: Seq<char>| #[trigger] without(list, s).contains(x) ==> list.contains(x) && x != s,
    decreases list.len(),
{
    reveal(Seq::filter);
    if list.len() > 0 {
        let before = list.drop_last();
        without_has_no_duplicates(before, s);
        assert(!before.contains(list.last())) by {
            if before.contains(list.last()) {
                let k = choose|k: int| 0 <= k < before.len() && before[k] == list.last();
                assert(list[k] == list[list.len() - 1]);
            }
        }
        let rest = without(before, s);
        assert(!rest.contains(list.last()));
        assert forall|x: Seq<char>| #[trigger] without(list, s).contains(x) implies list.contains(x)
            && x != s by {
            let k = choose|k: int| 0 <= k < without(list, s).len() && without(list, s)[k] == x;
            if k < rest.len() {
                assert(rest[k] == x);
                assert(rest.contains(x));
                assert(before.contains(x));
                let m = choose|m: int| 0 <= m < before.len() && before[m] == x;
                assert(list[m] == x);
            } else {
                assert(list[list.len() - 1] == x);
            }
        }
    }
}

/// A pool that is trusted and not empty is kept where the new one is empty, and where the new one
/// has fewer than eight peers while the last one had eight or more. In every other case the new pool
/// takes its place.
pub proof fn collapsed_pool_is_not_written(current: nat, previous: nat, trusted: bool)
    ensures
        keeps_previous(current, previous, trusted) <==> trusted && previous > 0 && (current == 0 || (
        current < 8 && previous >= 8)),
{
}

/// The rounds of results that all have one are taken in the order of the results.
pub proof fn each_result_gives_its_round(probes: Seq<(Seq<char>, LiveProbe)>)
    requires
        forall|i: int| 0 <= i < probes.len() ==> (#[trigger] probes[i]).1.max_round is Some,
    ensures
        probe_rounds(probes).len() == probes.len(),
        forall|i: int|
            0 <= i < probes.len() ==> #[trigger] probe_rounds(probes)[i]
                == probes[i].1.max_round->0,
    decreases probes.len(),
{
    if probes.len() > 0 {
        let before = probes.drop_last();
        assert forall|i: int| 0 <= i < before.len() implies (#[trigger] before[i]).1.max_round
            is Some by {
            assert(before[i] == probes[i]);
        }
        each_result_gives_its_round(before);
        assert forall|i: int| 0 <= i < probes.len() implies #[trigger] probe_rounds(probes)[i]
            == probes[i].1.max_round->0 by {
            if i < before.len() {
                assert(probe_rounds(before)[i] == before[i].1.max_round->0);
            } else {
                assert(probes.last().1.max_round is Some);
            }
        }
    }
}

/// A peer that is alone in having a round gives the tip. Of peers whose rounds all lie within
/// 50,000 of each other the highest gives the tip.
pub proof fn close_peers_give_the_tip(probes: Seq<(Seq<char>, LiveProbe)>)
    requires
        probes.len() > 0,
        forall|i: int| 0 <= i < probes.len() ==> (#[trigger] probes[i]).1.max_round is Some,
        forall|i: int, j: int|
            0 <= i < probes.len() && 0 <= j < probes.len() ==> (#[trigger] probes[i]).1.max_round->0
                - (#[trigger] probes[j]).1.max_round->0 <= 50_000,
    ensures
        probe_tip(probes) is Some,
        forall|i: int|
            0 <= i < probes.len() ==> (#[trigger] probes[i]).1.max_round->0 <= probe_tip(probes)->0,
        exists|i: int|
            0 <= i < probes.len() && (#[trigger] probes[i]).1.max_round == probe_tip(probes),
        probes.len() == 1 ==> probe_tip(probes) == probes[0].1.max_round,
{
    each_result_gives_its_round(probes);
    let rounds = probe_rounds(probes);
    let s = in_order(rounds);
    order_is_rising(rounds);
    if rounds.len() == 1 {
        assert(rounds[0] == probes[0].1.max_round->0);
    } else {
        assert forall|i: int| 0 < i < s.len() implies #[trigger] s[i] - s[i - 1] <= 50_000 by {
            assert(s.contains(s[i]) && s.contains(s[i - 1]));
            let a = choose|a: int| 0 <= a < rounds.len() && rounds[a] == s[i];
            let b = choose|b: int| 0 <= b < rounds.len() && rounds[b] == s[i - 1];
            assert(rounds[a] == probes[a].1.max_round->0 && rounds[b] == probes[b].1.max_round->0);
        }
        close_rounds_give_the_highest(s, 2, 50_000);
        assert(s.contains(s.last()));
        let k = choose|k: int| 0 <= k < rounds.len() && rounds[k] == s.last();
        assert(rounds[k] == probes[k].1.max_round->0);
        assert forall|i: int| 0 <= i < probes.len() implies (#[trigger] probes[i]).1.max_round->0
            <= s.last() by {
            assert(rounds[i] == probes[i].1.max_round->0);
            assert(rounds.contains(rounds[i]));
            assert(s.contains(rounds[i]));
            let j = choose|j: int| 0 <= j < s.len() && s[j] == rounds[i];
            assert(s[j] <= s[s.len() - 1]);
        }
        assert(probes[k].1.max_round == Some(s.last()));
    }
}

/// A result counts as a live peer just where it shows two blocks or more, a highest round of at
/// least 1,000,000,000, and a round no more than 50,000 below the tip. How its probe ended plays no
/// part.
pub proof fn live_peer_serves_near_the_tip(
    probes: Seq<(Seq<char>, LiveProbe)>,
    p: (Seq<char>, LiveProbe),
)
    ensures
        ({
            let tip = probe_tip(serving(probes));
            let serves = p.1.blocks >= 2 && p.1.max_round is Some && p.1.max_round->0
                >= 1_000_000_000;
            &&& serving(probes).contains(p) <==> probes.contains(p) && serves
            &&& live_peers(probes).contains(p) <==> probes.contains(p) && serves && tip is Some
                && p.1.max_round->0 + 50_000 >= tip->0
        }),
{
    live_is_two_plausible_blocks(p.1, p.1.status);
    let good = serving(probes);
    filter_keeps(probes, |q: (Seq<char>, LiveProbe)| is_live(q.1), p);
    if let Some(tip) = probe_tip(good) {
        filter_keeps(good, |q: (Seq<char>, LiveProbe)| near_tip(q.1, tip), p);
    }
}

/// A peer's probe counts as failed just where one of its results shows no live peer: too few blocks,
/// no plausible round, or a round more than 50,000 below a known tip.
pub proof fn failed_peer_does_not_serve(probes: Seq<(Seq<char>, LiveProbe)>, ip: Seq<char>)
    ensures
        ({
            let tip = probe_tip(serving(probes));
            failed_peers(probes).contains(ip) <==> exists|p: (Seq<char>, LiveProbe)| #[trigger]
                probes.contains(p) && p.0 == ip && {
                    let serves = p.1.blocks >= 2 && p.1.max_round is Some && p.1.max_round->0
                        >= 1_000_000_000;
                    !serves || (tip is Some && p.1.max_round->0 + 50_000 < tip->0)
                }
        }),
{
    let tip = probe_tip(serving(probes));
    let (good, bad) = (serving(probes), not_serving(probes));
    let lagging = match tip {
        Some(t) => good.filter(|q: (Seq<char>, LiveProbe)| !near_tip(q.1, t)),
        None => Seq::empty(),
    };
    let failed = failed_peers(probes);
    assert(failed =~= names(bad) + names(lagging));
    if failed.contains(ip) {
        let k = choose|k: int| 0 <= k < failed.len() && failed[k] == ip;
        let p = if k < bad.len() {
            bad[k]
        } else {
            lagging[k - bad.len()]
        };
        assert(p.0 == ip);
        live_is_two_plausible_blocks(p.1, p.1.status);
        filter_keeps(probes, |q: (Seq<char>, LiveProbe)| is_live(q.1), p);
        filter_keeps(probes, |q: (Seq<char>, LiveProbe)| !is_live(q.1), p);
        if k < bad.len() {
            assert(bad.contains(p));
        } else {
            assert(lagging.contains(p));
            let t = tip->0;
            filter_keeps(good, |q: (Seq<char>, LiveProbe)| !near_tip(q.1, t), p);
        }
        assert(probes.contains(p));
    }
    assert forall|p: (Seq<char>, LiveProbe)| #[trigger] probes.contains(p) && p.0 == ip && {
        let serves = p.1.blocks >= 2 && p.1.max_round is Some && p.1.max_round->0 >= 1_000_000_000;
        !serves || (tip is Some && p.1.max_round->0 + 50_000 < tip->0)
    } implies failed.contains(ip) by {
        live_is_two_plausible_blocks(p.1, p.1.status);
        every_result_counts(probes, p);
        live_peer_serves_near_the_tip(probes, p);
    }
}

/// A healthy peer that is the only result is the pool: it is ranked, its round is the tip, and it
/// has not failed, however its probe ended.
pub proof fn healthy_peer_alone_is_the_pool(ip: Seq<char>, probe: LiveProbe)
    requires
        probe.blocks >= 2,
        probe.max_round is Some,
        probe.max_round->0 >= 1_000_000_000,
    ensures
        ({
            let results = seq![(ip, probe)];
            &&& probe_tip(serving(results)) == probe.max_round
            &&& live_peers(results) == results
            &&& ranked(live_peers(results)) == seq![ip]
            &&& failed_peers(results).len() == 0
        }),
{
    let results = seq![(ip, probe)];
    live_is_two_plausible_blocks(probe, probe.status);
    reveal(Seq::filter);
    assert(results.drop_last() =~= Seq::<(Seq<char>, LiveProbe)>::empty());
    assert(serving(results) =~= results);
    let bad = not_serving(results);
    if bad.len() > 0 {
        assert(bad.contains(bad[0]));
        filter_keeps(results, |q: (Seq<char>, LiveProbe)| !is_live(q.1), bad[0]);
    }
    assert(forall|i: int| 0 <= i < results.len() ==> (#[trigger] results[i]).1.max_round is Some);
    close_peers_give_the_tip(results);
    let tip = probe.max_round->0;
    assert(live_peers(results) =~= results);
    ranking_is_best_first(results);
    let order = order_of(results.map_values(|p: (Seq<char>, LiveProbe)| rank_key(p.1)));
    assert(order[0] == 0);
    assert(ranked(results) =~= seq![ip]);
    let lagging = results.filter(|q: (Seq<char>, LiveProbe)| !near_tip(q.1, tip));
    if lagging.len() > 0 {
        assert(lagging.contains(lagging[0]));
        filter_keeps(results, |q: (Seq<char>, LiveProbe)| !near_tip(q.1, tip), lagging[0]);
    }
    assert(failed_peers(results) =~= Seq::<Seq<char>>::empty());
}

/// One more failed probe of a candidate is counted, and with the fiftieth in a row the candidate is
/// dropped and its count forgotten. No other candidate and no other count is touched.
pub proof fn failure_counts_for_its_peer_only(tally: Tally, ip: Seq<char>, other: Seq<char>)
    requires
        tally.1.dom().contains(ip) ==> tally.1[ip] < 50,
        other != ip,
    ensures
        ({
            let (candidates, fails, pruned) = fail_one(tally, ip);
            let had = if tally.1.dom().contains(ip) {
                tally.1[ip] as int
            } else {
                0
            };
            &&& had < 49 ==> candidates == tally.0 && pruned == tally.2 && fails.dom().contains(ip)
                && fails[ip] == had + 1
            &&& had == 49 ==> !candidates.contains(ip) && pruned == tally.2 + 1
                && !fails.dom().contains(ip)
            &&& candidates.contains(other) <==> tally.0.contains(other)
            &&& fails.dom().contains(other) <==> tally.1.dom().contains(other)
            &&& tally.1.dom().contains(other) ==> fails[other] == tally.1[other]
        }),
{
    without_holds_others(tally.0, ip, ip);
    without_holds_others(tally.0, ip, other);
}

/// Peers that failed once more are counted one after the other.
pub proof fn failures_are_counted_in_turn(tally: Tally, ips: Seq<Seq<char>>, ip: Seq<char>)
    ensures
        fail_all(tally, Seq::empty()) == tally,
        fail_all(tally, ips.push(ip)) == fail_one(fail_all(tally, ips), ip),
{
    assert(ips.push(ip).drop_last() =~= ips);
}

/// A peer that was live has no failed probes any more; the counts of all others stay.
pub proof fn live_peer_is_forgiven(
    fails: Map<Seq<char>, u32>,
    ips: Seq<Seq<char>>,
    ip: Seq<char>,
)
    ensures
        cleared(fails, ips).dom().contains(ip) <==> fails.dom().contains(ip) && !ips.contains(ip),
        cleared(fails, ips).dom().contains(ip) ==> cleared(fails, ips)[ip] == fails[ip],
{
}

/// An empty pool makes the daemon sleep twice, four times and then always eight times as long as
/// usual, but no longer than the longest time (or the usual one, where that is longer).
pub proof fn empty_pools_stretch_the_sleep(interval: nat, streak: nat, max_backoff: nat)
    ensures
        ({
            let sleep = pool_sleep(interval, streak, max_backoff);
            let longest = if max_backoff > interval {
                max_backoff
            } else {
                interval
            };
            &&& streak == 0 ==> sleep == interval
            &&& streak == 1 ==> sleep == if 2 * interval < longest {
                2 * interval
            } else {
                longest
            }
            &&& streak == 2 ==> sleep == if 4 * interval < longest {
                4 * interval
            } else {
                longest
            }
            &&& streak >= 3 ==> sleep == if 8 * interval < longest {
                8 * interval
            } else {
                longest
            }
        }),
{
}

/// A setting that is a number counts, moved into its bounds; else the default does, as it is.
pub proof fn setting_stays_in_bounds(
    value: Option<Seq<char>>,
    default: nat,
    min: nat,
    max: nat,
    limit: nat,
)
    requires
        min <= max,
    ensures
        ({
            let got = setting(value, default, min, max, limit);
            let n = match value {
                Some(s) => number(s, limit),
                None => None,
            };
            &&& n is None ==> got == default
            &&& n is Some ==> min <= got <= max
            &&& n is Some && min <= n->0 <= max ==> got == n->0
            &&& n is Some && n->0 < min ==> got == min
            &&& n is Some && n->0 > max ==> got == max
        }),
{
}

/// Every address that is found or has a result counts, but for the nodes' own.
pub proof fn all_but_own_count(
    ips: Seq<Seq<char>>,
    results: Seq<(Seq<char>, LiveProbe)>,
    own: Seq<Seq<char>>,
    ip: Seq<char>,
    p: (Seq<char>, LiveProbe),
)
    ensures
        others(ips, own).contains(ip) <==> ips.contains(ip) && !own.contains(ip),
        results_of_others(results, own).contains(p) <==> results.contains(p) && !own.contains(p.0),
        own.len() == 0 ==> others(ips, own) == ips && results_of_others(results, own) == results,
{
    filter_keeps(ips, |x: Seq<char>| !own.contains(x), ip);
    filter_keeps(results, |q: (Seq<char>, LiveProbe)| !own.contains(q.0), p);
    if own.len() == 0 {
        filter_of_all(ips, |x: Seq<char>| !own.contains(x));
        filter_of_all(results, |q: (Seq<char>, LiveProbe)| !own.contains(q.0));
    }
}

/// A filter that all pass changes nothing.
proof fn filter_of_all<T>(s: Seq<T>, pred: spec_fn(T) -> bool)
    requires
        forall|x: T| #[trigger] pred(x),
    ensures
        s.filter(pred) == s,
    decreases s.len(),
{
    reveal(Seq::filter);
    if s.len() > 0 {
        filter_of_all(s.drop_last(), pred);
        assert(pred(s.last()));
        assert(s =~= s.drop_last().push(s.last()));
    }
}

/// A pool without an address is not trusted, nor is one that says it is made of candidates, wherever
/// it says so; any other is.
pub proof fn pool_of_candidates_is_not_trusted(front: Seq<char>, rest: Seq<char>, s: Seq<char>)
    ensures
        !trusted_pool(front + "\"candidate_fallback\":true"@ + rest),
        addresses(s).len() == 0 ==> !trusted_pool(s),
        addresses(s).len() > 0 && !trusted_pool(s) ==> has_infix(
            s,
            "\"candidate_fallback\":true"@,
        ),
{
    crate::wire::infix_is_found(s, "\"candidate_fallback\":true"@, front, rest);
}

} // verus!
