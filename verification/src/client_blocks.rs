//! Client-block requests of a node: which peers are asked, how an answer is read, and what the
//! node gets in the end.
use vstd::prelude::*;
use crate::lists::{
    distinct, distinct_of_distinct, push_new, remove_text, rotated, step_round, with_new_concat,
    with_new_holds, without,
    without_holds_others,
};
use crate::nodes::{opt_peer, unpinned, ActivePeer, NodeState, NodeView};
use crate::text::{
    ascii, ascii_bytes, decimal, join_list, joined, push_decimal, push_text, texts, texts_push,
};
use crate::wire::{
    contains_bytes, frame_bytes, has_infix, le_bytes, le_round_trip, le_u32, make_frame, push_le,
    HEADER_LEN,
};

verus! {

/// The port of client-block requests.
pub const CLIENT_BLOCK_PORT: u16 = 4002;

/// Longest request of a node.
pub const MAX_CLIENT_REQUEST: u32 = 65_536;

/// Longest answer of a peer.
pub const MAX_CLIENT_RESPONSE: u32 = 64_000_000;

/// Peers that are asked beside the active one.
pub const CLIENT_BLOCK_CANDIDATES: usize = 8;

/// How long a request waits for the pin of a session, in milliseconds: it is often close when the
/// node asks.
pub const SESSION_WAIT_MS: u64 = 1_500;

/// How long it pauses between two looks, in milliseconds.
pub const SESSION_PAUSE_MS: u64 = 250;

/// Whether a request that has waited for `waited_ms` milliseconds goes on waiting for the pin of a
/// session, given whether the look just made has found one.
pub fn waits_for_session(found: bool, waited_ms: u64) -> (r: bool)
    ensures
        r == (!found && waited_ms < 1_500),
{
    !found && waited_ms < SESSION_WAIT_MS
}

/// Whether the connections on a port are client-block requests, which are fetched and passed on.
pub fn should_fetch_forward_client_blocks(port: u16) -> (r: bool)
    ensures
        r == (port == 4002),
{
    port == CLIENT_BLOCK_PORT
}

/// Whether an answer is a peer's refusal to a node that is not its own.
pub fn response_is_peer_only(payload: &[u8]) -> (r: bool)
    ensures
        r == has_infix(payload@, ascii("Peer-only request"@)),
{
    proof {
        reveal_strlit("Peer-only request");
    }
    contains_bytes(payload, ascii_bytes("Peer-only request").as_slice())
}

/// Whether a peer says that it has no client blocks.
pub fn response_has_no_client_blocks(payload: &[u8]) -> (r: bool)
    ensures
        r == has_infix(payload@, ascii("no client blocks to serve"@)),
{
    proof {
        reveal_strlit("no client blocks to serve");
    }
    contains_bytes(payload, ascii_bytes("no client blocks to serve").as_slice())
}

/// Whether a peer says that a round lies above what it has.
pub fn response_has_client_block_round_too_large(payload: &[u8]) -> (r: bool)
    ensures
        r == has_infix(payload@, ascii("client block round too large"@)),
{
    proof {
        reveal_strlit("client block round too large");
    }
    contains_bytes(payload, ascii_bytes("client block round too large").as_slice())
}

/// Whether a peer says that a round lies below what it has.
pub fn response_has_client_block_round_too_small(payload: &[u8]) -> (r: bool)
    ensures
        r == has_infix(payload@, ascii("client block round too small"@)),
{
    proof {
        reveal_strlit("client block round too small");
    }
    contains_bytes(payload, ascii_bytes("client block round too small").as_slice())
}

/// The peers to ask: from the place `start` on and round, each once, up to `limit`.
pub open spec fn candidates_from(peers: Seq<Seq<char>>, start: int, limit: int) -> Seq<Seq<char>> {
    let all = distinct(rotated(peers, start));
    all.take(
        if limit < all.len() {
            limit
        } else {
            all.len() as int
        },
    )
}

/// The peers to ask. The turn moves on by `limit`, so that the next request starts elsewhere.
pub fn client_block_peer_candidates(peers: &Vec<String>, rr: &mut usize, limit: usize) -> (r: Vec<
    String,
>)
    ensures
        peers@.len() == 0 || limit == 0 ==> r@.len() == 0 && *final(rr) == *old(rr),
        peers@.len() > 0 && limit > 0 ==> {
            &&& texts(r@) == candidates_from(texts(peers@), *old(rr) as int, limit as int)
            &&& *final(rr) == old(rr).wrapping_add(limit)
        },
{
    let mut out: Vec<String> = Vec::new();
    let n = peers.len();
    if n == 0 || limit == 0 {
        return out;
    }
    let start: usize = *rr;
    *rr = start.wrapping_add(limit);
    let ghost walk = rotated(texts(peers@), start as int);
    let mut k: usize = 0;
    assert(walk.take(0) =~= Seq::<Seq<char>>::empty());
    assert(texts(out@) =~= Seq::<Seq<char>>::empty());
    while k < n && out.len() < limit
        invariant
            n == peers@.len(),
            k <= n,
            walk == rotated(texts(peers@), start as int),
            texts(out@) == distinct(walk.take(k as int)),
            out@.len() <= limit,
        decreases n - k,
    {
        let j = step_round(start, k, n);
        assert(walk.take(k + 1).drop_last() =~= walk.take(k as int));
        assert(walk.take(k + 1).last() == peers@[j as int]@);
        push_new(&mut out, peers[j].as_str());
        assert(texts(out@).len() == out@.len());
        k = k + 1;
    }
    proof {
        let (head, tail) = (walk.take(k as int), walk.skip(k as int));
        assert(head + tail =~= walk);
        with_new_concat(Seq::empty(), head, tail);
        with_new_holds(distinct(head), tail);
        assert(texts(out@).len() == out@.len());
        if k == n {
            assert(head =~= walk);
        }
        assert(texts(out@) =~= candidates_from(texts(peers@), start as int, limit as int));
    }
    out
}

/// The peers to ask beside the active one: up to eight from `start` on, each once, without it.
pub open spec fn hedged_peers(
    peers: Seq<Seq<char>>,
    start: int,
    active: Option<PeerTag>,
) -> Seq<Seq<char>> {
    let all = if peers.len() == 0 {
        Seq::empty()
    } else {
        candidates_from(peers, start, 8)
    };
    match active {
        Some(peer) => without(all, peer.0),
        None => all,
    }
}

/// No more than eight peers are asked beside the active one.
pub proof fn hedge_is_bounded(peers: Seq<Seq<char>>, start: int, active: Option<PeerTag>)
    ensures
        hedged_peers(peers, start, active).len() <= 8,
{
    let all = if peers.len() == 0 {
        Seq::<Seq<char>>::empty()
    } else {
        candidates_from(peers, start, 8)
    };
    if let Some(peer) = active {
        all.lemma_filter_len(|x: Seq<char>| x != peer.0);
    }
}

/// The peers to ask beside the active one.
pub fn hedge_candidates(peers: &Vec<String>, rr: &mut usize, active: Option<&ActivePeer>) -> (r: Vec<
    String,
>)
    ensures
        texts(r@) == hedged_peers(
            texts(peers@),
            *old(rr) as int,
            peer_tag(active),
        ),
        *final(rr) == if peers@.len() == 0 {
            *old(rr)
        } else {
            old(rr).wrapping_add(8)
        },
{
    let mut out = client_block_peer_candidates(peers, rr, CLIENT_BLOCK_CANDIDATES);
    match active {
        Some(peer) => {
            let ghost before = texts(out@);
            remove_text(&mut out, peer.ip.as_str());
            proof {
                reveal(Seq::filter);
                assert(texts(out@).len() == out@.len());
            }
        },
        None => {},
    }
    out
}

/// A peer's answer to a client-block request.
pub enum ClientBlockUpstreamResponse {
    /// Blocks, as a whole frame.
    Frames(Vec<u8>),
    /// The peer serves its own nodes only.
    PeerOnly,
    /// The range lies below what the peer has.
    RangeTooSmall,
    /// An error that other peers would give too, as a whole frame.
    TerminalError(Vec<u8>),
}

/// What an answer is, by the payload of its frame.
pub open spec fn answer_kind(frame: Vec<u8>, answer: ClientBlockUpstreamResponse) -> bool {
    let payload = frame@.skip(5);
    if has_infix(payload, ascii("Peer-only request"@)) {
        answer is PeerOnly
    } else if has_infix(payload, ascii("no client blocks to serve"@)) || has_infix(
        payload,
        ascii("client block round too large"@),
    ) {
        answer == ClientBlockUpstreamResponse::TerminalError(frame)
    } else if has_infix(payload, ascii("client block round too small"@)) {
        answer is RangeTooSmall
    } else {
        answer == ClientBlockUpstreamResponse::Frames(frame)
    }
}

/// Reads a peer's answer, a whole frame.
pub fn classify_client_blocks(frame: Vec<u8>) -> (r: ClientBlockUpstreamResponse)
    requires
        frame@.len() >= 5,
    ensures
        answer_kind(frame, r),
{
    let n = frame.len();
    let payload = vstd::slice::slice_subrange(frame.as_slice(), HEADER_LEN, n);
    assert(payload@ =~= frame@.skip(5));
    if response_is_peer_only(payload) {
        return ClientBlockUpstreamResponse::PeerOnly;
    }
    if response_has_no_client_blocks(payload) || response_has_client_block_round_too_large(
        payload,
    ) {
        return ClientBlockUpstreamResponse::TerminalError(frame);
    }
    if response_has_client_block_round_too_small(payload) {
        return ClientBlockUpstreamResponse::RangeTooSmall;
    }
    ClientBlockUpstreamResponse::Frames(frame)
}

/// A pinned peer: its address and the epoch of its pin.
pub type PeerTag = (Seq<char>, u64);

/// The pinned peer, where there is one.
pub open spec fn peer_tag(peer: Option<&ActivePeer>) -> Option<PeerTag> {
    match peer {
        Some(peer) => Some(peer@),
        None => None,
    }
}

/// The active peer that an attempt was made with is no longer the node's.
pub open spec fn stale_tag(node: NodeView, tag: Option<PeerTag>) -> bool {
    tag matches Some(peer) && node.active != Some(peer)
}

/// What is noted of an attempt that did not win.
pub open spec fn failure_text(
    node: NodeView,
    tag: Option<PeerTag>,
    result: Result<ClientBlockUpstreamResponse, String>,
) -> Seq<char> {
    if stale_tag(node, tag) {
        let peer = tag->0;
        peer.0 + ": stale active epoch "@ + decimal(peer.1 as nat)
    } else {
        match result {
            Ok(ClientBlockUpstreamResponse::Frames(_)) => Seq::empty(),
            Ok(ClientBlockUpstreamResponse::TerminalError(_)) => "terminal"@,
            Ok(ClientBlockUpstreamResponse::PeerOnly) => match tag {
                Some(peer) => peer.0 + ": peer-only (active unpinned)"@,
                None => "peer-only"@,
            },
            Ok(ClientBlockUpstreamResponse::RangeTooSmall) => "range-too-small"@,
            Err(e) => e@,
        }
    }
}

/// The attempt wins: it brought blocks, and the active peer it was made with, if any, is still the
/// node's.
pub open spec fn wins(
    node: NodeView,
    tag: Option<PeerTag>,
    result: Result<ClientBlockUpstreamResponse, String>,
) -> bool {
    !stale_tag(node, tag) && (result matches Ok(ClientBlockUpstreamResponse::Frames(_)))
}

/// The first terminal error after one more attempt.
pub open spec fn terminal_after(
    terminal: Option<Vec<u8>>,
    node: NodeView,
    tag: Option<PeerTag>,
    result: Result<ClientBlockUpstreamResponse, String>,
) -> Option<Vec<u8>> {
    match result {
        Ok(ClientBlockUpstreamResponse::TerminalError(frame)) if !stale_tag(node, tag)
            && terminal is None => Some(frame),
        _ => terminal,
    }
}

/// The node after an answer: an active peer that refuses is unpinned.
pub open spec fn node_after_answer(
    node: NodeView,
    tag: Option<PeerTag>,
    result: Result<ClientBlockUpstreamResponse, String>,
) -> NodeView {
    match (result, tag) {
        (Ok(ClientBlockUpstreamResponse::PeerOnly), Some(peer)) if !stale_tag(node, tag) =>
            unpinned(node, peer),
        _ => node,
    }
}

/// Notes what came of one attempt; the frame for the node where the attempt wins. An active peer
/// that refuses is unpinned. The first terminal error is kept.
pub fn note_client_block_result(
    node: &mut NodeState,
    tag: Option<&ActivePeer>,
    result: Result<ClientBlockUpstreamResponse, String>,
    failures: &mut Vec<String>,
    terminal: &mut Option<Vec<u8>>,
) -> (r: Option<Vec<u8>>)
    ensures
        match r {
            Some(frame) => wins(old(node)@, peer_tag(tag), result) && result == Ok::<_, String>(
                ClientBlockUpstreamResponse::Frames(frame),
            ),
            None => !wins(old(node)@, peer_tag(tag), result),
        },
        texts(final(failures)@) == if wins(old(node)@, peer_tag(tag), result) {
            texts(old(failures)@)
        } else {
            texts(old(failures)@).push(failure_text(old(node)@, peer_tag(tag), result))
        },
        *final(terminal) == terminal_after(*old(terminal), old(node)@, peer_tag(tag), result),
        final(node)@ == node_after_answer(old(node)@, peer_tag(tag), result),
{
    if let Some(peer) = tag {
        if !node.active_is_current(peer) {
            let mut text = peer.ip.clone();
            push_text(&mut text, ": stale active epoch ");
            push_decimal(&mut text, peer.epoch);
            note_failure(failures, text);
            return None;
        }
    }
    match result {
        Ok(ClientBlockUpstreamResponse::Frames(frame)) => {
            return Some(frame);
        },
        Ok(ClientBlockUpstreamResponse::TerminalError(frame)) => {
            if terminal.is_none() {
                *terminal = Some(frame);
            }
            note_failure(failures, "terminal".to_owned());
        },
        Ok(ClientBlockUpstreamResponse::PeerOnly) => {
            if let Some(peer) = tag {
                node.clear_active_if_current(peer);
                let mut text = peer.ip.clone();
                push_text(&mut text, ": peer-only (active unpinned)");
                note_failure(failures, text);
            } else {
                note_failure(failures, "peer-only".to_owned());
            }
        },
        Ok(ClientBlockUpstreamResponse::RangeTooSmall) => {
            note_failure(failures, "range-too-small".to_owned());
        },
        Err(e) => {
            note_failure(failures, e);
        },
    }
    None
}

fn note_failure(failures: &mut Vec<String>, text: String)
    ensures
        texts(final(failures)@) == texts(old(failures)@).push(text@),
{
    failures.push(text);
    proof {
        texts_push(old(failures)@, text);
    }
}

/// What a node gets when no attempt has won: the first terminal error, else nothing but the
/// reasons.
pub fn race_result(terminal: Option<Vec<u8>>, failures: &Vec<String>) -> (r: Result<
    Vec<u8>,
    String,
>)
    ensures
        match (terminal, r) {
            (Some(frame), Ok(got)) => got == frame,
            (None, Err(text)) => text@ == joined(texts(failures@), "; "@),
            _ => false,
        },
{
    match terminal {
        Some(frame) => Ok(frame),
        None => Err(join_list(failures, "; ")),
    }
}

/// An answer of a peer that is no longer the node's active one never reaches the node, whatever it
/// holds.
pub proof fn stale_answer_never_wins(
    node: NodeView,
    tag: Option<PeerTag>,
    result: Result<ClientBlockUpstreamResponse, String>,
)
    requires
        tag is Some,
        node.active != tag,
    ensures
        !wins(node, tag, result),
{
}

/// What a race for client blocks does next.
#[derive(Clone, Copy, Debug, PartialEq, Eq, Structural)]
pub enum AskPhase {
    /// Wait for the active peer, which is asked alone, no longer than the grace time.
    Alone,
    /// Ask other peers too.
    Hedge,
    /// Wait for the next answer.
    Collect,
    /// Nothing: the race is over.
    Over,
}

/// Where a race for client blocks stands.
pub struct AskView {
    pub phase: AskPhase,
    /// The active peer of the node's session when the race began.
    pub active: Option<PeerTag>,
    /// Peers that were asked and have not answered.
    pub waiting: nat,
    /// What is noted of the attempts that did not win.
    pub failures: Seq<Seq<char>>,
    /// The first terminal error.
    pub terminal: Option<Vec<u8>>,
    /// The answer that won.
    pub won: Option<Vec<u8>>,
}

/// A race for the blocks that a node has asked for.
pub struct ClientBlockRace {
    phase: AskPhase,
    active: Option<ActivePeer>,
    waiting: usize,
    failures: Vec<String>,
    terminal: Option<Vec<u8>>,
    won: Option<Vec<u8>>,
}

impl View for ClientBlockRace {
    type V = AskView;

    closed spec fn view(&self) -> AskView {
        AskView {
            phase: self.phase,
            active: opt_peer(self.active),
            waiting: self.waiting as nat,
            failures: texts(self.failures@),
            terminal: self.terminal,
            won: self.won,
        }
    }
}

/// While the active peer is asked alone it is the only one asked; a race that collects answers
/// waits for one; a race that is won is over.
pub open spec fn ask_sound(race: AskView) -> bool {
    &&& race.phase is Alone ==> race.active is Some && race.waiting == 1
    &&& race.phase is Collect ==> race.waiting > 0
    &&& race.phase is Hedge ==> race.waiting <= 1
    &&& race.won is Some ==> race.phase is Over
}

/// The active peer that an attempt was made with, if it was.
pub open spec fn asked_tag(race: AskView, from_active: bool) -> Option<PeerTag> {
    if from_active {
        race.active
    } else {
        None
    }
}

/// The phase after an attempt that did not win, where so many are still under way.
pub open spec fn phase_after(phase: AskPhase, waiting: nat) -> AskPhase {
    match phase {
        AskPhase::Alone => AskPhase::Hedge,
        AskPhase::Collect => if waiting == 0 {
            AskPhase::Over
        } else {
            AskPhase::Collect
        },
        _ => phase,
    }
}

/// The race after one attempt ended without any answer to note.
pub open spec fn ask_lost(race: AskView) -> AskView {
    let waiting = (race.waiting - 1) as nat;
    AskView { phase: phase_after(race.phase, waiting), waiting, ..race }
}

/// The race after one attempt ended.
pub open spec fn ask_noted(
    race: AskView,
    node: NodeView,
    from_active: bool,
    result: Result<ClientBlockUpstreamResponse, String>,
) -> AskView {
    let tag = asked_tag(race, from_active);
    match result {
        Ok(ClientBlockUpstreamResponse::Frames(frame)) if wins(node, tag, result) => AskView {
            phase: AskPhase::Over,
            waiting: (race.waiting - 1) as nat,
            won: Some(frame),
            ..race
        },
        _ => AskView {
            failures: race.failures.push(failure_text(node, tag, result)),
            terminal: terminal_after(race.terminal, node, tag, result),
            ..ask_lost(race)
        },
    }
}

/// What the node gets at the end of a race: the answer that won, else the first terminal error,
/// else nothing but the reasons.
pub open spec fn ask_outcome(race: AskView) -> Result<Seq<u8>, Seq<char>> {
    match (race.won, race.terminal) {
        (Some(frame), _) => Ok(frame@),
        (None, Some(frame)) => Ok(frame@),
        (None, None) => Err(joined(race.failures, "; "@)),
    }
}

impl ClientBlockRace {
    /// A race that asks the active peer of the node's session first, where it has one.
    pub fn new(active: Option<ActivePeer>) -> (r: ClientBlockRace)
        ensures
            ask_sound(r@),
            r@ == (AskView {
                phase: if active is Some {
                    AskPhase::Alone
                } else {
                    AskPhase::Hedge
                },
                active: opt_peer(active),
                waiting: if active is Some {
                    1
                } else {
                    0
                },
                failures: Seq::empty(),
                terminal: None,
                won: None,
            }),
    {
        let alone = active.is_some();
        let r = ClientBlockRace {
            phase: if alone {
                AskPhase::Alone
            } else {
                AskPhase::Hedge
            },
            active,
            waiting: if alone {
                1
            } else {
                0
            },
            failures: Vec::new(),
            terminal: None,
            won: None,
        };
        assert(r@.failures =~= Seq::<Seq<char>>::empty());
        r
    }

    /// What to do next.
    pub fn phase(&self) -> (r: AskPhase)
        ensures
            r == self@.phase,
    {
        self.phase
    }

    /// The grace time of the active peer is over: others are asked too. Its answer still counts.
    pub fn grace_over(&mut self)
        requires
            ask_sound(old(self)@),
        ensures
            ask_sound(final(self)@),
            final(self)@ == if old(self)@.phase is Alone {
                AskView { phase: AskPhase::Hedge, ..old(self)@ }
            } else {
                old(self)@
            },
    {
        match self.phase {
            AskPhase::Alone => {
                self.phase = AskPhase::Hedge;
            },
            _ => {},
        }
    }

    /// The other peers to ask now. `rr` is whose turn it is in the pool.
    pub fn hedge(&mut self, peers: &Vec<String>, rr: &mut usize) -> (r: Vec<String>)
        requires
            ask_sound(old(self)@),
            old(self)@.phase is Hedge,
        ensures
            ask_sound(final(self)@),
            texts(r@) == hedged_peers(texts(peers@), *old(rr) as int, old(self)@.active),
            *final(rr) == if peers@.len() == 0 {
                *old(rr)
            } else {
                old(rr).wrapping_add(8)
            },
            final(self)@ == ({
                let waiting = old(self)@.waiting + r@.len();
                AskView {
                    phase: if waiting == 0 {
                        AskPhase::Over
                    } else {
                        AskPhase::Collect
                    },
                    waiting,
                    ..old(self)@
                }
            }),
    {
        let out = hedge_candidates(peers, rr, self.active.as_ref());
        proof {
            hedge_is_bounded(texts(peers@), *old(rr) as int, self@.active);
            assert(texts(out@).len() == out@.len());
        }
        self.waiting = self.waiting + out.len();
        self.phase = if self.waiting == 0 {
            AskPhase::Over
        } else {
            AskPhase::Collect
        };
        out
    }

    /// Takes an answer, or the reason why there is none. An active peer that refuses is unpinned.
    pub fn answered(
        &mut self,
        node: &mut NodeState,
        from_active: bool,
        result: Result<ClientBlockUpstreamResponse, String>,
    )
        requires
            ask_sound(old(self)@),
            old(self)@.phase is Alone || old(self)@.phase is Collect,
        ensures
            ask_sound(final(self)@),
            final(self)@ == ask_noted(old(self)@, old(node)@, from_active, result),
            final(node)@ == node_after_answer(
                old(node)@,
                asked_tag(old(self)@, from_active),
                result,
            ),
    {
        let tag: Option<&ActivePeer> = if from_active {
            self.active.as_ref()
        } else {
            None
        };
        let won = note_client_block_result(
            node,
            tag,
            result,
            &mut self.failures,
            &mut self.terminal,
        );
        self.waiting = self.waiting - 1;
        match won {
            Some(frame) => {
                self.won = Some(frame);
                self.phase = AskPhase::Over;
            },
            None => self.advance(),
        }
    }

    /// Takes the end of an attempt that broke off.
    pub fn attempt_lost(&mut self)
        requires
            ask_sound(old(self)@),
            old(self)@.phase is Alone || old(self)@.phase is Collect,
        ensures
            ask_sound(final(self)@),
            final(self)@ == ask_lost(old(self)@),
    {
        self.waiting = self.waiting - 1;
        self.advance();
    }

    fn advance(&mut self)
        ensures
            final(self)@ == (AskView {
                phase: phase_after(old(self)@.phase, old(self)@.waiting),
                ..old(self)@
            }),
    {
        self.phase = match self.phase {
            AskPhase::Alone => AskPhase::Hedge,
            AskPhase::Collect => if self.waiting == 0 {
                AskPhase::Over
            } else {
                AskPhase::Collect
            },
            phase => phase,
        };
    }

    /// What the node gets.
    pub fn outcome(self) -> (r: Result<Vec<u8>, String>)
        ensures
            match (r, ask_outcome(self@)) {
                (Ok(frame), Ok(bytes)) => frame@ == bytes,
                (Err(text), Err(reasons)) => text@ == reasons,
                _ => false,
            },
    {
        match self.won {
            Some(frame) => Ok(frame),
            None => race_result(self.terminal, &self.failures),
        }
    }
}

/// The active peer is asked alone: no other is asked before it has answered, has failed or has
/// let its grace time go by, so that no other peer's answer can come before its own.
pub proof fn active_is_asked_alone(
    race: AskView,
    node: NodeView,
    result: Result<ClientBlockUpstreamResponse, String>,
)
    requires
        ask_sound(race),
        race.phase is Alone,
    ensures
        race.waiting == 1,
        wins(node, race.active, result) ==> ask_noted(race, node, true, result).phase
            is Over && ask_noted(race, node, true, result).waiting == 0,
        !wins(node, race.active, result) ==> ask_noted(race, node, true, result).phase
            is Hedge,
        ask_lost(race).phase is Hedge,
{
}

/// Blocks beat errors: whatever was noted before, an answer that wins is what the node gets. A
/// terminal error is what it gets only where no answer has won.
pub proof fn blocks_beat_errors(
    race: AskView,
    node: NodeView,
    from_active: bool,
    result: Result<ClientBlockUpstreamResponse, String>,
)
    requires
        race.won is None,
    ensures
        result matches Ok(ClientBlockUpstreamResponse::Frames(frame)) ==> wins(
            node,
            asked_tag(race, from_active),
            result,
        ) ==> ask_outcome(ask_noted(race, node, from_active, result)) == Ok::<Seq<u8>, Seq<char>>(
            frame@,
        ),
        ask_outcome(race) is Ok <==> race.terminal is Some,
{
}

/// The payload of a request for the blocks of a closed range of rounds.
pub open spec fn range_payload(start_round: u32, end_round: u32) -> Seq<u8> {
    seq![0u8, 0xfc] + le_bytes(start_round) + seq![0xfcu8] + le_bytes(end_round)
}

/// A request for the blocks of a closed range of rounds.
pub fn build_client_block_range_request(start_round: u32, end_round: u32) -> (r: Vec<u8>)
    ensures
        r@ == frame_bytes(0, range_payload(start_round, end_round)),
{
    let mut payload: Vec<u8> = Vec::new();
    payload.push(0x00);
    payload.push(0xfc);
    push_le(&mut payload, start_round);
    payload.push(0xfc);
    push_le(&mut payload, end_round);
    proof {
        le_round_trip(start_round);
        le_round_trip(end_round);
        assert(payload@ =~= range_payload(start_round, end_round));
    }
    make_frame(0, payload.as_slice())
}

/// A request has sixteen bytes, and its rounds are read back from it.
pub proof fn range_request_reads_back(start_round: u32, end_round: u32)
    ensures
        ({
            let payload = range_payload(start_round, end_round);
            &&& payload.len() == 11
            &&& frame_bytes(0, payload).len() == 16
            &&& payload[1] == 0xfc && payload[6] == 0xfc
            &&& le_u32(payload.subrange(2, 6)) == start_round
            &&& le_u32(payload.subrange(7, 11)) == end_round
        }),
{
    let payload = range_payload(start_round, end_round);
    le_round_trip(start_round);
    le_round_trip(end_round);
    assert(payload.subrange(2, 6) =~= le_bytes(start_round));
    assert(payload.subrange(7, 11) =~= le_bytes(end_round));
}

/// Blocks win where they come from a peer that was asked beside the active one, whatever the node
/// has pinned, and where they come from the active peer as long as the node still has that pin. No
/// other answer wins.
pub proof fn blocks_win_unless_the_pin_is_gone(
    node: NodeView,
    tag: Option<PeerTag>,
    result: Result<ClientBlockUpstreamResponse, String>,
)
    ensures
        wins(node, tag, result) <==> result is Ok && result->Ok_0 is Frames && (tag is None
            || node.active == tag),
{
}

/// Where a race is not won yet, blocks end it and are what the node gets, no matter what other
/// peers have answered before; only blocks of an active peer that is no longer the node's do not.
pub proof fn first_blocks_end_the_race(
    race: AskView,
    node: NodeView,
    from_active: bool,
    frame: Vec<u8>,
)
    requires
        race.won is None,
        race.waiting > 0,
        !from_active || race.active is None || node.active == race.active,
    ensures
        ({
            let result = Ok::<ClientBlockUpstreamResponse, String>(
                ClientBlockUpstreamResponse::Frames(frame),
            );
            let next = ask_noted(race, node, from_active, result);
            &&& next.phase is Over
            &&& next.won == Some(frame)
            &&& next.waiting == race.waiting - 1
            &&& next.failures == race.failures
            &&& ask_outcome(next) == Ok::<Seq<u8>, Seq<char>>(frame@)
            &&& node_after_answer(node, asked_tag(race, from_active), result) == node
        }),
{
}

/// An answer without blocks, and one of an active peer whose pin is gone, is only noted: the race
/// goes on while others are asked, and asks others where the active peer was asked alone.
pub proof fn race_goes_on_without_blocks(
    race: AskView,
    node: NodeView,
    from_active: bool,
    result: Result<ClientBlockUpstreamResponse, String>,
)
    requires
        race.waiting > 0,
        !(result is Ok && result->Ok_0 is Frames) || (from_active && race.active is Some
            && node.active != race.active),
    ensures
        ({
            let next = ask_noted(race, node, from_active, result);
            &&& next.won == race.won
            &&& next.waiting == race.waiting - 1
            &&& next.failures.len() == race.failures.len() + 1
            &&& next.failures.drop_last() == race.failures
            &&& next.active == race.active
            &&& race.phase is Alone ==> next.phase is Hedge
            &&& race.phase is Collect ==> (next.phase is Over <==> race.waiting == 1) && (
            next.phase is Collect <==> race.waiting > 1)
            &&& ask_lost(race).phase == next.phase
            &&& ask_lost(race).waiting == next.waiting
            &&& ask_lost(race).failures == race.failures && ask_lost(race).terminal == race.terminal
                && ask_lost(race).won == race.won
        }),
{
    let next = ask_noted(race, node, from_active, result);
    assert(next.failures.drop_last() =~= race.failures);
}

/// The first terminal error is kept for the node; one from an active peer whose pin is gone is not,
/// and no other answer makes one.
pub proof fn first_terminal_error_is_kept(
    terminal: Option<Vec<u8>>,
    node: NodeView,
    tag: Option<PeerTag>,
    result: Result<ClientBlockUpstreamResponse, String>,
)
    ensures
        ({
            let after = terminal_after(terminal, node, tag, result);
            &&& terminal is Some ==> after == terminal
            &&& terminal is None && (tag is None || node.active == tag) && result is Ok
                && result->Ok_0 is TerminalError ==> after == Some(result->Ok_0->TerminalError_0)
            &&& terminal is None && !(result is Ok && result->Ok_0 is TerminalError) ==> after
                is None
            &&& tag is Some && node.active != tag ==> after == terminal
        }),
{
}

/// An active peer that refuses as not the node's own loses the pin, as long as it still has it.
/// Nothing else of the node changes, and no other answer changes it.
pub proof fn refusing_active_peer_is_unpinned(
    node: NodeView,
    tag: Option<PeerTag>,
    result: Result<ClientBlockUpstreamResponse, String>,
)
    ensures
        ({
            let after = node_after_answer(node, tag, result);
            let refused = result is Ok && result->Ok_0 is PeerOnly && tag is Some && node.active
                == tag;
            &&& refused ==> after == (NodeView { active: None, ..node })
            &&& !refused ==> after == node
        }),
{
}

/// What the node gets at the end: blocks before a terminal error, a terminal error before nothing.
pub proof fn node_gets_the_best_answer(race: AskView)
    ensures
        race.won is Some ==> ask_outcome(race) == Ok::<Seq<u8>, Seq<char>>((race.won->0)@),
        race.won is None && race.terminal is Some ==> ask_outcome(race) == Ok::<
            Seq<u8>,
            Seq<char>,
        >((race.terminal->0)@),
        race.won is None && race.terminal is None ==> ask_outcome(race) is Err,
        race.won is None && race.terminal is None && race.failures.len() == 1 ==> ask_outcome(race)
            == Err::<Seq<u8>, Seq<char>>(race.failures[0]),
{
}

/// A race asks as long as anybody may still answer: it is lost only when nobody is left, and a race
/// that has lost without a terminal error and without an answer says so.
pub proof fn attempts_are_counted_down(race: AskView)
    requires
        race.waiting > 0,
    ensures
        ask_lost(race).waiting + 1 == race.waiting,
        race.phase is Collect ==> (ask_lost(race).phase is Over <==> race.waiting == 1),
        race.phase is Alone ==> ask_lost(race).phase is Hedge,
        race.phase is Over || race.phase is Hedge ==> ask_lost(race).phase == race.phase,
{
}

/// What an answer is taken for goes by the phrases in its payload: a refusal as not the peer's own
/// node before all, then the errors that other peers would give too, then a range that lies too
/// low; an answer with none of the phrases is blocks, handed on as the whole frame.
pub proof fn answer_goes_by_its_phrases(frame: Vec<u8>, answer: ClientBlockUpstreamResponse)
    requires
        answer_kind(frame, answer),
    ensures
        ({
            let payload = frame@.skip(5);
            let own = has_infix(payload, ascii("Peer-only request"@));
            let none = has_infix(payload, ascii("no client blocks to serve"@));
            let large = has_infix(payload, ascii("client block round too large"@));
            let small = has_infix(payload, ascii("client block round too small"@));
            &&& answer is PeerOnly <==> own
            &&& answer is TerminalError <==> !own && (none || large)
            &&& answer is RangeTooSmall <==> !own && !none && !large && small
            &&& answer is Frames <==> !own && !none && !large && !small
            &&& answer is Frames ==> answer->Frames_0@ == frame@
            &&& answer is TerminalError ==> answer->TerminalError_0@ == frame@
        }),
{
}

/// The peers to ask are taken from the turn on and round, in the order of the pool: where no peer
/// stands twice in the pool the `k`th one is the peer `k` places behind the turn.
pub proof fn candidates_follow_the_turn(peers: Seq<Seq<char>>, start: int, limit: int)
    requires
        peers.len() > 0,
        peers.no_duplicates(),
        0 <= start,
        0 <= limit,
    ensures
        ({
            let n = peers.len() as int;
            let asked = candidates_from(peers, start, limit);
            &&& asked.len() == if limit < n {
                limit
            } else {
                n
            }
            &&& forall|k: int| 0 <= k < asked.len() ==> #[trigger] asked[k] == peers[(start + k) % n]
        }),
{
    let n = peers.len() as int;
    let walk = rotated(peers, start);
    rotated_has_no_duplicates(peers, start);
    distinct_of_distinct(walk);
}

/// Walking round a list without repeats meets nothing twice.
proof fn rotated_has_no_duplicates(list: Seq<Seq<char>>, start: int)
    requires
        list.no_duplicates(),
        0 <= start,
    ensures
        rotated(list, start).no_duplicates(),
{
    let n = list.len() as int;
    let walk = rotated(list, start);
    assert forall|i: int, j: int| 0 <= i < j < walk.len() implies walk[i] != walk[j] by {
        let (a, b) = ((start + i) % n, (start + j) % n);
        assert(0 <= a < n && 0 <= b < n && a != b) by (nonlinear_arith)
            requires
                a == (start + i) % n,
                b == (start + j) % n,
                0 <= i < j < n,
                0 <= start,
        {
            let (qa, qb) = ((start + i) / n, (start + j) / n);
            assert(start + i == n * qa + a);
            assert(start + j == n * qb + b);
            if a == b {
                assert(j - i == n * (qb - qa));
                assert(qb - qa != 0);
            }
        }
    }
}

/// Beside the active peer up to eight others are asked, each once, all of them from the pool; where
/// the pool has no more than eight, all of them but the active one.
pub proof fn hedge_asks_others(
    peers: Seq<Seq<char>>,
    start: int,
    active: Option<PeerTag>,
    ip: Seq<char>,
)
    requires
        peers.no_duplicates(),
        0 <= start,
    ensures
        ({
            let asked = hedged_peers(peers, start, active);
            &&& asked.len() <= 8
            &&& asked.contains(ip) ==> peers.contains(ip) && (active is Some ==> ip != (active->0).0)
            &&& peers.len() <= 8 && peers.contains(ip) && (active is Some ==> ip != (active->0).0)
                ==> asked.contains(ip)
            &&& peers.len() > 0 && active is None ==> asked[0] == peers[start % (peers.len() as int)]
                && asked.len() == if peers.len() < 8 {
                peers.len()
            } else {
                8
            }
        }),
{
    hedge_is_bounded(peers, start, active);
    if peers.len() > 0 {
        let n = peers.len() as int;
        let all = candidates_from(peers, start, 8);
        candidates_follow_the_turn(peers, start, 8);
        assert(all[0] == peers[(start + 0) % n]);
        if all.contains(ip) {
            let k = choose|k: int| 0 <= k < all.len() && all[k] == ip;
            let j = (start + k) % n;
            assert(0 <= j < n) by (nonlinear_arith)
                requires
                    j == (start + k) % n,
                    n > 0,
            ;
            assert(peers[j] == ip);
        }
        if n <= 8 && peers.contains(ip) {
            crate::lists::rotated_holds(peers, start);
            assert(all =~= rotated(peers, start));
        }
        if let Some(peer) = active {
            without_holds_others(all, peer.0, ip);
        }
    } else if let Some(peer) = active {
        without_holds_others(Seq::empty(), peer.0, ip);
    }
}

/// A failure is named by what happened: a pin that is gone by its peer and epoch, a refusal by the
/// peer that lost its pin, an error by its own words.
pub proof fn failure_is_named(
    node: NodeView,
    tag: Option<PeerTag>,
    result: Result<ClientBlockUpstreamResponse, String>,
)
    ensures
        ({
            let text = failure_text(node, tag, result);
            let gone = tag is Some && node.active != tag;
            &&& gone ==> text == (tag->0).0 + ": stale active epoch "@ + decimal(
                (tag->0).1 as nat,
            )
            &&& !gone && result is Err ==> text == (result->Err_0)@
            &&& !gone && result is Ok && result->Ok_0 is TerminalError ==> text == "terminal"@
            &&& !gone && result is Ok && result->Ok_0 is RangeTooSmall ==> text
                == "range-too-small"@
            &&& !gone && result is Ok && result->Ok_0 is PeerOnly && tag is None ==> text
                == "peer-only"@
            &&& !gone && result is Ok && result->Ok_0 is PeerOnly && tag is Some ==> text == (
            tag->0).0 + ": peer-only (active unpinned)"@
        }),
{
}

} // verus!
