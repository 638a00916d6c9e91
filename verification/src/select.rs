//! Choosing upstream peers: which to try and in what order, what makes a peer usable, and how
//! failed attempts are summed up.
use vstd::prelude::*;
use crate::lists::{
    distinct, extend_new, push_new, remove_text, rotated, step_round, with_new, with_new_holds,
    without, without_holds_others,
};
use crate::order::{order_is_stable, order_of, placed_leq, stable_order, Key};
use crate::protocol::{
    block_round, is_plausible_mainnet_round, payload_round, plausible_round,
    plausible_up_to_the_slack,
};
use crate::push::HeaderVerdict;
use crate::text::{
    ascii, ascii_bytes, contains_text, decimal, push_decimal, push_text, same_text, texts,
    texts_push,
};
use crate::wire::{contains_bytes, frame_bytes, frame_reads_back, has_infix, HEADER_LEN};

verus! {

/// Bytes of a peer's state that are read before it is chosen.
pub const BOOTSTRAP_PREFETCH_BYTES: usize = 64_000_000;

/// Peers that are tried for a bootstrap.
pub const BOOTSTRAP_SELECT_MAX_PEERS: usize = 32;

/// Of them, so many at a time.
pub const BOOTSTRAP_SELECT_MAX_INFLIGHT: usize = 4;

/// Peers that are tried for live blocks at a time.
pub const LIVE_SELECT_MAX_PARALLEL: usize = 4;

/// Longest frame that is read while a peer is tried for live blocks.
pub const MAX_LIVE_FRAME: u32 = 8_000_000;

/// Peers that are remembered for having served state.
pub const STATE_SERVER_MEMORY: usize = 8;

/// What came of one step of an attempt.
pub enum Attempt<T> {
    Timeout,
    Error(String),
    Done(T),
}

/// The failure of a step in words.
pub open spec fn stage_text<T>(r: Attempt<T>, what: Seq<char>) -> Seq<char> {
    match r {
        Attempt::Timeout => what + " timeout"@,
        Attempt::Error(e) => what + ": "@ + e@,
        Attempt::Done(_) => Seq::empty(),
    }
}

/// Names the step that failed, so that failures can be told apart.
pub fn stage<T>(r: Attempt<T>, what: &str) -> (res: Result<T, String>)
    ensures
        match (r, res) {
            (Attempt::Done(v), Ok(w)) => v == w,
            (Attempt::Done(_), Err(_)) => false,
            (_, Ok(_)) => false,
            (_, Err(text)) => text@ == stage_text(r, what@),
        },
{
    match r {
        Attempt::Done(v) => Ok(v),
        Attempt::Timeout => {
            let mut text = what.to_owned();
            push_text(&mut text, " timeout");
            Err(text)
        },
        Attempt::Error(e) => {
            let mut text = what.to_owned();
            push_text(&mut text, ": ");
            push_text(&mut text, e.as_str());
            Err(text)
        },
    }
}

/// The kind of failure that an error text tells of; the first that fits.
pub open spec fn error_class(e: Seq<char>) -> Seq<char> {
    if has_infix(e, "peer full"@) {
        "peer_full"@
    } else if has_infix(e, "not serving abci_state"@) {
        "small_frame"@
    } else if has_infix(e, "no live block"@) {
        "no_block"@
    } else if has_infix(e, "connect"@) {
        "connect_fail"@
    } else if has_infix(e, "state prefetch"@) {
        "prefetch_fail"@
    } else if has_infix(e, "failed to fill whole buffer"@) || has_infix(e, "early eof"@) {
        "eof"@
    } else if has_infix(e, "timeout"@) || has_infix(e, "deadline has elapsed"@) {
        "timeout"@
    } else {
        "other"@
    }
}

/// The kind of failure that an error text tells of.
pub fn peer_error_class(e: &str) -> (r: &'static str)
    ensures
        r@ == error_class(e@),
{
    if contains_text(e, "peer full") {
        "peer_full"
    } else if contains_text(e, "not serving abci_state") {
        "small_frame"
    } else if contains_text(e, "no live block") {
        "no_block"
    } else if contains_text(e, "connect") {
        "connect_fail"
    } else if contains_text(e, "state prefetch") {
        "prefetch_fail"
    } else if contains_text(e, "failed to fill whole buffer") || contains_text(e, "early eof") {
        "eof"
    } else if contains_text(e, "timeout") || contains_text(e, "deadline has elapsed") {
        "timeout"
    } else {
        "other"
    }
}

/// The kinds of the errors, each once, in the order of their first errors.
pub open spec fn classes_of(errs: Seq<Seq<char>>) -> Seq<Seq<char>> {
    distinct(errs.map_values(|e: Seq<char>| error_class(e)))
}

/// How many of the errors are of a kind.
pub open spec fn class_count(errs: Seq<Seq<char>>, class: Seq<char>) -> nat {
    errs.filter(|e: Seq<char>| error_class(e) == class).len()
}

/// The kinds by number of errors, the most frequent first; as places in `classes_of`.
pub open spec fn class_order(errs: Seq<Seq<char>>) -> Seq<int> {
    order_of(
        classes_of(errs).map_values(
            |c: Seq<char>| ((u64::MAX - class_count(errs, c)) as u64, 0u64, 0u128),
        ),
    )
}

/// The counts of the kinds at `places`.
pub open spec fn count_parts(errs: Seq<Seq<char>>, places: Seq<int>) -> Seq<char>
    decreases places.len(),
{
    if places.len() == 0 {
        Seq::empty()
    } else {
        let class = classes_of(errs)[places.last()];
        count_parts(errs, places.drop_last()) + " "@ + class + "="@ + decimal(
            class_count(errs, class),
        )
    }
}

/// How many peers were tried, and the kinds of their failures with their numbers, the most
/// frequent first.
pub open spec fn error_summary(tried: nat, errs: Seq<Seq<char>>) -> Seq<char> {
    "tried="@ + decimal(tried) + count_parts(errs, class_order(errs))
}

fn count_class(errs: &Vec<String>, class: &str) -> (r: usize)
    ensures
        r == class_count(texts(errs@), class@),
        r <= errs@.len(),
{
    let ghost all = texts(errs@);
    let ghost pred = |e: Seq<char>| error_class(e) == class@;
    let mut count: usize = 0;
    let mut i: usize = 0;
    proof {
        reveal(Seq::filter);
        assert(all.take(0).filter(pred).len() == 0);
    }
    while i < errs.len()
        invariant
            i <= errs@.len(),
            count <= i,
            all == texts(errs@),
            pred == |e: Seq<char>| error_class(e) == class@,
            count == all.take(i as int).filter(pred).len(),
        decreases errs@.len() - i,
    {
        reveal(Seq::filter);
        assert(all.take(i + 1).drop_last() =~= all.take(i as int));
        assert(all.take(i + 1).last() == errs@[i as int]@);
        if same_text(peer_error_class(errs[i].as_str()), class) {
            count = count + 1;
        }
        i = i + 1;
    }
    assert(all.take(i as int) =~= all);
    count
}

fn list_classes(errs: &Vec<String>) -> (r: Vec<String>)
    ensures
        texts(r@) == classes_of(texts(errs@)),
{
    let ghost all = texts(errs@).map_values(|e: Seq<char>| error_class(e));
    let mut out: Vec<String> = Vec::new();
    let mut i: usize = 0;
    assert(all.take(0) =~= Seq::<Seq<char>>::empty());
    assert(texts(out@) =~= Seq::<Seq<char>>::empty());
    while i < errs.len()
        invariant
            i <= errs@.len(),
            all == texts(errs@).map_values(|e: Seq<char>| error_class(e)),
            texts(out@) == distinct(all.take(i as int)),
        decreases errs@.len() - i,
    {
        assert(all.take(i + 1).drop_last() =~= all.take(i as int));
        assert(all.take(i + 1).last() == error_class(errs@[i as int]@));
        push_new(&mut out, peer_error_class(errs[i].as_str()));
        i = i + 1;
    }
    assert(all.take(i as int) =~= all);
    out
}

/// Sums up failed attempts.
pub fn summarize_peer_errors(tried: usize, errs: &Vec<String>) -> (r: String)
    ensures
        r@ == error_summary(tried as nat, texts(errs@)),
{
    let ghost model = texts(errs@);
    let classes = list_classes(errs);
    let ghost names = classes_of(model);
    let ghost want = names.map_values(
        |c: Seq<char>| ((u64::MAX - class_count(model, c)) as u64, 0u64, 0u128),
    );
    let mut keys: Vec<Key> = Vec::new();
    let mut i: usize = 0;
    while i < classes.len()
        invariant
            i <= classes@.len(),
            model == texts(errs@),
            names == texts(classes@),
            want == names.map_values(
                |c: Seq<char>| ((u64::MAX - class_count(model, c)) as u64, 0u64, 0u128),
            ),
            keys@ == want.take(i as int),
        decreases classes@.len() - i,
    {
        let n = count_class(errs, classes[i].as_str());
        keys.push((u64::MAX - n as u64, 0, 0));
        assert(names[i as int] == classes@[i as int]@);
        i = i + 1;
        assert(keys@ =~= want.take(i as int));
    }
    assert(keys@ =~= want);
    let order = stable_order(&keys);
    let ghost places = order@.map_values(|i: usize| i as int);
    let mut out = "tried=".to_owned();
    push_decimal(&mut out, tried as u64);
    let ghost head = out@;
    let mut j: usize = 0;
    assert(places.take(0) =~= Seq::<int>::empty());
    assert(out@ =~= head + count_parts(model, places.take(0)));
    while j < order.len()
        invariant
            j <= order@.len() == classes@.len(),
            model == texts(errs@),
            names == texts(classes@),
            names == classes_of(model),
            places == order@.map_values(|i: usize| i as int),
            forall|k: int| 0 <= k < order@.len() ==> #[trigger] order@[k] < classes@.len(),
            out@ == head + count_parts(model, places.take(j as int)),
        decreases order@.len() - j,
    {
        let place: usize = order[j];
        let n = count_class(errs, classes[place].as_str());
        push_text(&mut out, " ");
        push_text(&mut out, classes[place].as_str());
        push_text(&mut out, "=");
        push_decimal(&mut out, n as u64);
        j = j + 1;
        proof {
            let upto = places.take(j as int);
            assert(upto.drop_last() =~= places.take(j - 1));
            assert(upto.last() == place as int);
            assert(names[place as int] == classes@[place as int]@);
            assert(out@ =~= head + count_parts(model, upto));
        }
    }
    assert(places.take(j as int) =~= places);
    assert(out@ =~= error_summary(tried as nat, model));
    out
}

/// Every error is counted under one kind, and every kind that is named has an error.
pub proof fn summary_names_every_error(errs: Seq<Seq<char>>, i: int)
    requires
        0 <= i < errs.len(),
    ensures
        classes_of(errs).contains(error_class(errs[i])),
        class_count(errs, error_class(errs[i])) > 0,
        classes_of(errs).no_duplicates(),
{
    let mapped = errs.map_values(|e: Seq<char>| error_class(e));
    with_new_holds(Seq::empty(), mapped);
    crate::lists::with_new_has_no_duplicates(Seq::empty(), mapped);
    assert(mapped[i] == error_class(errs[i]));
    assert(mapped.contains(error_class(errs[i])));
    let class = error_class(errs[i]);
    crate::lists::filter_keeps(errs, |e: Seq<char>| error_class(e) == class, errs[i]);
    assert(errs.contains(errs[i]));
}

/// Whether a peer that was asked for a bootstrap serves it, by the length of its first frame: the
/// number of bytes to read ahead, or why it does not.
pub fn state_frame_verdict(len: u32) -> (r: Result<usize, String>)
    ensures
        match r {
            Ok(n) => len > 4_000_000 && n == if len < 64_000_000 {
                len as int
            } else {
                64_000_000
            },
            Err(text) => len <= 4_000_000 && text@ == "not serving abci_state (len="@ + decimal(
                len as nat,
            ) + ")"@,
        },
{
    if len <= 4_000_000 {
        let mut text = "not serving abci_state (len=".to_owned();
        push_decimal(&mut text, len as u64);
        push_text(&mut text, ")");
        return Err(text);
    }
    let n: usize = len as usize;
    if n < BOOTSTRAP_PREFETCH_BYTES {
        Ok(n)
    } else {
        Ok(BOOTSTRAP_PREFETCH_BYTES)
    }
}

/// A frame that is longer than it may be ends the attempt.
pub fn bounded_frame_verdict(len: u32, max_len: u32) -> (r: HeaderVerdict)
    ensures
        r == if len > max_len {
            HeaderVerdict::Refuse
        } else {
            HeaderVerdict::Read
        },
{
    if len > max_len {
        HeaderVerdict::Refuse
    } else {
        HeaderVerdict::Read
    }
}

/// The round of a frame that shows a usable live peer: a block whose round is plausible and lies
/// above `min_exclusive`.
pub open spec fn vetted_round(frame: Seq<u8>, min_exclusive: u32, net_tip: u32) -> Option<u32> {
    if frame.len() >= 5 && frame[4] == 1 {
        match payload_round(frame.skip(5)) {
            Some(round) if plausible_round(round, net_tip) && round > min_exclusive => Some(round),
            _ => None,
        }
    } else {
        None
    }
}

/// The round of a frame, where the frame shows a usable live peer.
pub fn vet_live_frame(frame: &[u8], min_exclusive: u32, net_tip: u32) -> (r: Option<u32>)
    ensures
        r == vetted_round(frame@, min_exclusive, net_tip),
{
    if frame.len() < HEADER_LEN || frame[4] != 1 {
        return None;
    }
    let payload = vstd::slice::slice_subrange(frame, HEADER_LEN, frame.len());
    assert(payload@ =~= frame@.skip(5));
    match block_round(payload) {
        Some(round) => if is_plausible_mainnet_round(round, net_tip) && round > min_exclusive {
            Some(round)
        } else {
            None
        },
        None => None,
    }
}

/// A greeting that refuses the gateway: a control frame of the one byte 4, or one that says so.
pub open spec fn refuses(payload: Seq<u8>) -> bool {
    if payload.len() == 6 && payload.take(5) == seq![0u8, 0, 0, 1, 0] {
        payload[5] == 4
    } else {
        has_infix(payload, ascii("Peer full"@))
    }
}

/// Whether a greeting refuses the gateway.
pub fn response_is_peer_full(payload: &[u8]) -> (r: bool)
    ensures
        r == refuses(payload@),
{
    if payload.len() == 6 && payload[0] == 0 && payload[1] == 0 && payload[2] == 0 && payload[3]
        == 1 && payload[4] == 0 {
        assert(payload@.take(5) =~= seq![0u8, 0, 0, 1, 0]);
        return payload[5] == 4;
    }
    proof {
        reveal_strlit("Peer full");
        if payload@.len() == 6 && payload@.take(5) == seq![0u8, 0, 0, 1, 0] {
            let head = payload@.take(5);
            assert(head[0] == payload@[0] && head[1] == payload@[1] && head[2] == payload@[2]
                && head[3] == payload@[3] && head[4] == payload@[4]);
        }
    }
    contains_bytes(payload, ascii_bytes("Peer full").as_slice())
}

/// Attempts that are begun one after the other, a few at a time.
pub struct LaunchRace {
    peers: usize,
    limit: usize,
    start: usize,
    launched: usize,
    in_flight: usize,
    max_inflight: usize,
}

/// The attempts begun so far and those under way.
pub type LaunchView = (nat, nat);

impl View for LaunchRace {
    type V = LaunchView;

    closed spec fn view(&self) -> LaunchView {
        (self.launched as nat, self.in_flight as nat)
    }
}

impl LaunchRace {
    /// The number of peers.
    pub closed spec fn peers(&self) -> nat {
        self.peers as nat
    }

    /// How many of them are tried at most.
    pub closed spec fn limit(&self) -> nat {
        self.limit as nat
    }

    /// The place of the first one.
    pub closed spec fn start(&self) -> int {
        self.start as int
    }

    /// How many may be under way.
    pub closed spec fn max_inflight(&self) -> nat {
        self.max_inflight as nat
    }

    /// No peer is tried twice, and no more are under way than may be.
    pub open spec fn well_formed(&self) -> bool {
        &&& self.limit() <= self.peers()
        &&& self@.1 <= self@.0 <= self.limit()
        &&& self@.1 <= self.max_inflight()
    }

    /// A race between `peers` peers, of which at most `limit` are tried, from the place `start` on
    /// and round, and at most `max_inflight` at a time.
    pub fn new(peers: usize, limit: usize, start: usize, max_inflight: usize) -> (r: LaunchRace)
        ensures
            r.well_formed(),
            r.peers() == peers,
            r.limit() == if limit < peers {
                limit
            } else {
                peers
            },
            r.start() == start,
            r.max_inflight() == max_inflight,
            r@ == (0nat, 0nat),
    {
        LaunchRace {
            peers,
            limit: if limit < peers {
                limit
            } else {
                peers
            },
            start,
            launched: 0,
            in_flight: 0,
            max_inflight,
        }
    }

    /// The place of the next peer to try, where one may be tried now.
    pub fn next_launch(&mut self) -> (r: Option<usize>)
        requires
            old(self).well_formed(),
        ensures
            final(self).well_formed(),
            final(self).peers() == old(self).peers(),
            final(self).limit() == old(self).limit(),
            final(self).start() == old(self).start(),
            final(self).max_inflight() == old(self).max_inflight(),
            match r {
                Some(i) => {
                    &&& old(self)@.0 < old(self).limit()
                    &&& old(self)@.1 < old(self).max_inflight()
                    &&& i < old(self).peers()
                    &&& i == (old(self).start() + old(self)@.0) % (old(self).peers() as int)
                    &&& final(self)@ == (old(self)@.0 + 1, old(self)@.1 + 1)
                },
                None => {
                    &&& old(self)@.0 >= old(self).limit() || old(self)@.1 >= old(
                        self,
                    ).max_inflight()
                    &&& final(self)@ == old(self)@
                },
            },
    {
        if self.launched < self.limit && self.in_flight < self.max_inflight {
            let i = step_round(self.start, self.launched, self.peers);
            self.launched = self.launched + 1;
            self.in_flight = self.in_flight + 1;
            Some(i)
        } else {
            None
        }
    }

    /// An attempt has failed.
    pub fn attempt_failed(&mut self)
        requires
            old(self).well_formed(),
        ensures
            final(self).well_formed(),
            final(self).peers() == old(self).peers(),
            final(self).limit() == old(self).limit(),
            final(self).start() == old(self).start(),
            final(self).max_inflight() == old(self).max_inflight(),
            final(self)@ == (
                old(self)@.0,
                if old(self)@.1 > 0 {
                    (old(self)@.1 - 1) as nat
                } else {
                    0
                },
            ),
    {
        self.in_flight = self.in_flight.saturating_sub(1);
    }

    /// The attempts begun so far.
    pub fn launched(&self) -> (r: usize)
        ensures
            r == self@.0,
    {
        self.launched
    }

    /// Whether no attempt is under way.
    pub fn is_idle(&self) -> (r: bool)
        ensures
            r == (self@.1 == 0),
    {
        self.in_flight == 0
    }
}

/// The hosts of a push session: the live peer, then others of the pool up to `n_live` in all.
pub open spec fn push_hosts(live: Seq<char>, peers: Seq<Seq<char>>, n_live: nat) -> Seq<Seq<char>> {
    let others = without(peers, live);
    seq![live] + others.take(
        if n_live <= 1 {
            0
        } else if n_live - 1 < others.len() {
            n_live - 1
        } else {
            others.len() as int
        },
    )
}

/// The start of a list gives the start of what is left of it.
proof fn without_of_take(list: Seq<Seq<char>>, s: Seq<char>, i: int)
    requires
        0 <= i <= list.len(),
    ensures
        without(list.take(i), s).len() <= without(list, s).len(),
        without(list.take(i), s) == without(list, s).take(without(list.take(i), s).len() as int),
    decreases list.len(),
{
    reveal(Seq::filter);
    if i == list.len() {
        assert(list.take(i) =~= list);
        assert(without(list, s).take(without(list, s).len() as int) =~= without(list, s));
    } else {
        let before = list.drop_last();
        assert(before.take(i) =~= list.take(i));
        without_of_take(before, s, i);
        let k = without(list.take(i), s).len() as int;
        assert(without(list, s).take(k) =~= without(before, s).take(k));
    }
}

/// The hosts of a push session.
pub fn build_push_hosts(live_ip: &str, peers: &Vec<String>, n_live: usize) -> (r: Vec<String>)
    ensures
        texts(r@) == push_hosts(live_ip@, texts(peers@), n_live as nat),
{
    let ghost all = texts(peers@);
    let ghost others = without(all, live_ip@);
    let first = live_ip.to_owned();
    let mut hosts: Vec<String> = Vec::new();
    hosts.push(first);
    assert(texts(hosts@) =~= seq![live_ip@]);
    let mut i: usize = 0;
    proof {
        reveal(Seq::filter);
        assert(without(all.take(0), live_ip@) =~= Seq::<Seq<char>>::empty());
        assert(texts(hosts@) =~= seq![live_ip@] + without(all.take(0), live_ip@));
    }
    while i < peers.len() && hosts.len() < n_live
        invariant
            i <= peers@.len(),
            all == texts(peers@),
            texts(hosts@) == seq![live_ip@] + without(all.take(i as int), live_ip@),
            hosts@.len() <= n_live || hosts@.len() == 1,
        decreases peers@.len() - i,
    {
        reveal(Seq::filter);
        assert(all.take(i + 1).drop_last() =~= all.take(i as int));
        assert(all.take(i + 1).last() == peers@[i as int]@);
        let ghost before = hosts@;
        if !same_text(peers[i].as_str(), live_ip) {
            let host = peers[i].clone();
            hosts.push(host);
            proof {
                texts_push(before, host);
                assert(texts(hosts@) =~= seq![live_ip@] + without(all.take(i + 1), live_ip@));
            }
        }
        i = i + 1;
    }
    proof {
        without_of_take(all, live_ip@, i as int);
        let k = without(all.take(i as int), live_ip@).len();
        assert(texts(hosts@).len() == hosts@.len() == k + 1);
        if i == peers@.len() {
            assert(all.take(i as int) =~= all);
        }
        assert(texts(hosts@) =~= push_hosts(live_ip@, all, n_live as nat));
    }
    hosts
}

/// The peers to try for a bootstrap: those that are remembered for having served one, then the
/// pool from `start` on and round, each once.
pub fn bootstrap_candidates(remembered: Vec<String>, pool: &Vec<String>, start: usize) -> (r: Vec<
    String,
>)
    ensures
        texts(r@) == with_new(texts(remembered@), rotated(texts(pool@), start as int)),
{
    let ghost base = texts(remembered@);
    let ghost walk = rotated(texts(pool@), start as int);
    let mut out = remembered;
    let n = pool.len();
    let mut k: usize = 0;
    assert(walk.take(0) =~= Seq::<Seq<char>>::empty());
    while k < n
        invariant
            n == pool@.len(),
            k <= n,
            walk == rotated(texts(pool@), start as int),
            texts(out@) == with_new(base, walk.take(k as int)),
        decreases n - k,
    {
        let j = step_round(start, k, n);
        assert(walk.take(k + 1).drop_last() =~= walk.take(k as int));
        assert(walk.take(k + 1).last() == pool@[j as int]@);
        push_new(&mut out, pool[j].as_str());
        k = k + 1;
    }
    assert(walk.take(k as int) =~= walk);
    out
}

/// The remembered peers after `ip` served state: it comes first, and the list is cut to its size.
pub open spec fn remembered_after(list: Seq<Seq<char>>, ip: Seq<char>) -> Seq<Seq<char>> {
    let all = seq![ip] + without(list, ip);
    all.take(
        if all.len() < STATE_SERVER_MEMORY {
            all.len() as int
        } else {
            STATE_SERVER_MEMORY as int
        },
    )
}

/// Remembers that `ip` served state.
pub fn remember_state_server(list: &mut Vec<String>, ip: &str)
    ensures
        texts(final(list)@) == remembered_after(texts(old(list)@), ip@),
{
    remove_text(list, ip);
    let ghost rest = list@;
    let first = ip.to_owned();
    list.insert(0, first);
    assert(texts(list@) =~= seq![ip@] + texts(rest));
    let ghost all = list@;
    list.truncate(STATE_SERVER_MEMORY);
    assert(texts(list@) =~= remembered_after(texts(old(list)@), ip@));
}

/// The peer that served last comes first and stands once, and no more are remembered than may be.
pub proof fn last_server_comes_first(list: Seq<Seq<char>>, ip: Seq<char>)
    ensures
        remembered_after(list, ip).len() <= STATE_SERVER_MEMORY,
        remembered_after(list, ip)[0] == ip,
        forall|i: int|
            0 < i < remembered_after(list, ip).len() ==> #[trigger] remembered_after(list, ip)[i]
                != ip,
{
    let rest = without(list, ip);
    let all = remembered_after(list, ip);
    assert forall|i: int| 0 < i < all.len() implies #[trigger] all[i] != ip by {
        assert(all[i] == rest[i - 1]);
        assert(rest.contains(rest[i - 1]));
        crate::lists::filter_keeps(list, |x: Seq<char>| x != ip, rest[i - 1]);
    }
}

/// The peers that a bootstrap is captured from: the live ones, and, where those are not enough,
/// the candidates behind them.
pub fn bootstrap_capture_peers(
    live_peers: Vec<String>,
    candidates: &Vec<String>,
    include_candidates: bool,
) -> (r: Vec<String>)
    ensures
        texts(r@) == if include_candidates {
            with_new(texts(live_peers@), texts(candidates@))
        } else {
            texts(live_peers@)
        },
{
    let mut out = live_peers;
    if include_candidates {
        extend_new(&mut out, candidates);
    }
    out
}

/// A frame vets a peer just where it is a data frame whose round is at least 1,000,000,000, at most
/// 200,000 above a known tip, and above the round that the node has already; and then by that
/// round.
pub proof fn block_above_the_floor_vets_a_peer(
    typ: u8,
    payload: Seq<u8>,
    min_exclusive: u32,
    net_tip: u32,
)
    requires
        payload.len() <= u32::MAX,
    ensures
        ({
            let got = vetted_round(frame_bytes(typ, payload), min_exclusive, net_tip);
            let round = payload_round(payload);
            let vets = typ == 1 && round is Some && round->0 >= 1_000_000_000 && (net_tip == 0
                || round->0 <= net_tip + 200_000) && round->0 > min_exclusive;
            &&& vets ==> got == round
            &&& !vets ==> got is None
        }),
{
    frame_reads_back(typ, payload);
    if let Some(round) = payload_round(payload) {
        plausible_up_to_the_slack(round, net_tip);
    }
}

/// A short frame vets nobody.
pub proof fn short_frame_vets_nobody(frame: Seq<u8>, min_exclusive: u32, net_tip: u32)
    requires
        frame.len() < 5,
    ensures
        vetted_round(frame, min_exclusive, net_tip) is None,
{
}

/// A control frame of one byte is a refusal just where that byte is 4; any other answer is one where
/// it says so in words.
pub proof fn refusal_is_a_four_or_in_words(payload: Seq<u8>, code: u8)
    ensures
        refuses(seq![0u8, 0, 0, 1, 0, code]) <==> code == 4,
        payload.len() != 6 ==> (refuses(payload) <==> has_infix(payload, ascii("Peer full"@))),
{
    let status = seq![0u8, 0, 0, 1, 0, code];
    assert(status.take(5) =~= seq![0u8, 0, 0, 1, 0]);
}

/// The hosts of a session are the live peer and then others of the pool in their order, up to
/// `n_live` in all (but always the live one), and the live one only once.
pub proof fn live_peer_leads_its_hosts(live: Seq<char>, peers: Seq<Seq<char>>, n_live: nat, k: int)
    ensures
        ({
            let hosts = push_hosts(live, peers, n_live);
            let others = without(peers, live);
            &&& hosts[0] == live
            &&& hosts.len() == if n_live <= 1 {
                1
            } else if n_live < 1 + others.len() {
                n_live
            } else {
                1 + others.len()
            }
            &&& 0 < k < hosts.len() ==> hosts[k] == others[k - 1] && hosts[k] != live
                && peers.contains(hosts[k])
        }),
{
    let hosts = push_hosts(live, peers, n_live);
    let others = without(peers, live);
    if 0 < k < hosts.len() {
        assert(others.contains(others[k - 1]));
        without_holds_others(peers, live, others[k - 1]);
    }
}

/// The servers that are remembered: the latest first, then the others in their order, eight at
/// most. One that was remembered is forgotten only where eight later ones came.
pub proof fn eight_servers_are_remembered(list: Seq<Seq<char>>, ip: Seq<char>)
    ensures
        ({
            let after = remembered_after(list, ip);
            let others = without(list, ip);
            &&& after.len() == if others.len() < 7 {
                1 + others.len()
            } else {
                8
            }
            &&& after[0] == ip
            &&& forall|k: int| 0 < k < after.len() ==> #[trigger] after[k] == others[k - 1]
        }),
{
}

/// An attempt that has not come to an end in time says at which step; one that failed says why.
pub proof fn step_is_named(what: Seq<char>, e: String)
    ensures
        stage_text(Attempt::<u8>::Timeout, what) == what + " timeout"@,
        stage_text(Attempt::<u8>::Error(e), what) == what + ": "@ + e@,
{
}

/// The class of an error goes by the first of the known phrases that it holds.
pub proof fn error_is_classed_by_its_phrase(e: Seq<char>)
    ensures
        ({
            let full = has_infix(e, "peer full"@);
            let small = has_infix(e, "not serving abci_state"@);
            let no_block = has_infix(e, "no live block"@);
            let connect = has_infix(e, "connect"@);
            let prefetch = has_infix(e, "state prefetch"@);
            let eof = has_infix(e, "failed to fill whole buffer"@) || has_infix(e, "early eof"@);
            let late = has_infix(e, "timeout"@) || has_infix(e, "deadline has elapsed"@);
            &&& full ==> error_class(e) == "peer_full"@
            &&& !full && small ==> error_class(e) == "small_frame"@
            &&& !full && !small && no_block ==> error_class(e) == "no_block"@
            &&& !full && !small && !no_block && connect ==> error_class(e) == "connect_fail"@
            &&& !full && !small && !no_block && !connect && prefetch ==> error_class(e)
                == "prefetch_fail"@
            &&& !full && !small && !no_block && !connect && !prefetch && eof ==> error_class(e)
                == "eof"@
            &&& !full && !small && !no_block && !connect && !prefetch && !eof && late
                ==> error_class(e) == "timeout"@
            &&& !full && !small && !no_block && !connect && !prefetch && !eof && !late
                ==> error_class(e) == "other"@
        }),
{
}

/// Each error counts once, for its class.
pub proof fn error_counts_for_its_class(errs: Seq<Seq<char>>, e: Seq<char>, class: Seq<char>)
    ensures
        class_count(Seq::empty(), class) == 0,
        error_class(e) == class ==> class_count(errs.push(e), class) == class_count(errs, class) + 1,
        error_class(e) != class ==> class_count(errs.push(e), class) == class_count(errs, class),
{
    reveal(Seq::filter);
    let all = errs.push(e);
    assert(all.drop_last() =~= errs);
    assert(all.last() == e);
}

/// The summary names the classes by falling count, and those with one count in the order in which
/// they were met.
pub proof fn commonest_class_comes_first(errs: Seq<Seq<char>>, i: int, j: int)
    requires
        errs.len() <= u64::MAX,
        0 <= i < j < classes_of(errs).len(),
    ensures
        ({
            let order = class_order(errs);
            let (a, b) = (classes_of(errs)[order[i]], classes_of(errs)[order[j]]);
            &&& order.len() == classes_of(errs).len()
            &&& class_count(errs, a) >= class_count(errs, b)
            &&& class_count(errs, a) == class_count(errs, b) ==> order[i] < order[j]
        }),
{
    let classes = classes_of(errs);
    let keys = classes.map_values(
        |c: Seq<char>| ((u64::MAX - class_count(errs, c)) as u64, 0u64, 0u128),
    );
    order_is_stable(keys);
    let order = class_order(errs);
    assert(order.contains(order[i]) && order.contains(order[j]));
    let (a, b) = (classes[order[i]], classes[order[j]]);
    errs.lemma_filter_len(|e: Seq<char>| error_class(e) == a);
    errs.lemma_filter_len(|e: Seq<char>| error_class(e) == b);
    assert(keys[order[i]].0 == u64::MAX - class_count(errs, a));
    assert(keys[order[j]].0 == u64::MAX - class_count(errs, b));
    assert(placed_leq((keys[order[i]], order[i]), (keys[order[j]], order[j])));
    assert(order[i] != order[j]);
}

/// The summary starts with how many peers were tried and names each class with its count.
pub proof fn summary_lists_the_counts(tried: nat, errs: Seq<Seq<char>>, places: Seq<int>, p: int)
    ensures
        error_summary(tried, errs) == "tried="@ + decimal(tried) + count_parts(
            errs,
            class_order(errs),
        ),
        count_parts(errs, Seq::empty()) == Seq::<char>::empty(),
        count_parts(errs, places.push(p)) == count_parts(errs, places) + " "@ + classes_of(errs)[p]
            + "="@ + decimal(class_count(errs, classes_of(errs)[p])),
{
    assert(places.push(p).drop_last() =~= places);
}

} // verus!
