//! The gateway's shared state: the pool of peers, whose turn it is, the tip of the network, the
//! peers that served state, and whether there is a cache; and where a node's connection goes.
use vstd::prelude::*;
use crate::cache::{
    decide_replay, plan_refresh, raise_round_floor, refresh_step, replay_decision, RefreshStep,
    ReplayDecision,
};
use crate::client_blocks::{should_fetch_forward_client_blocks, PeerTag};
use crate::lists::{distinct, rotated, with_new};
use crate::nodes::{opt_peer, pinned_lazily, ActivePeer, NodeState, NodeView};
use crate::peers::{all_addresses, extract_round_tip, read_node_peers, stated_tip};
use crate::push::BLOCK_PORT;
use crate::select::{
    bootstrap_candidates, build_push_hosts, push_hosts, remember_state_server, remembered_after,
    BOOTSTRAP_SELECT_MAX_PEERS,
};
use crate::text::{copy_list, texts};

verus! {

/// The first port that the gateway listens on.
pub const FIRST_PORT: u16 = 4000;

/// The last port that the gateway listens on.
pub const LAST_PORT: u16 = 4010;

/// Where a node's connection goes.
#[derive(Clone, Copy, Debug, PartialEq, Eq, Structural)]
pub enum Route {
    /// Nowhere: there are no peers.
    Close,
    /// Read the greeting: it says what the node wants.
    Greeting,
    /// Fetch client blocks and pass them on.
    ClientBlocks,
    /// Relay to the node's active peer.
    Splice,
}

/// Where a node's connection on `port` goes.
pub fn route(port: u16, have_peers: bool) -> (r: Route)
    ensures
        r == if !have_peers {
            Route::Close
        } else if port == 4001 {
            Route::Greeting
        } else if port == 4002 {
            Route::ClientBlocks
        } else {
            Route::Splice
        },
{
    if !have_peers {
        Route::Close
    } else if port == BLOCK_PORT {
        Route::Greeting
    } else if should_fetch_forward_client_blocks(port) {
        Route::ClientBlocks
    } else {
        Route::Splice
    }
}

/// Whether a greeting asks for a bootstrap rather than for live blocks.
pub fn asks_for_bootstrap(greeting: &[u8]) -> (r: bool)
    requires
        greeting@.len() == 8,
    ensures
        r == (greeting@[5] == 1),
{
    greeting[5] == 1
}

/// The gateway's shared state.
pub struct GatewayState {
    pool: Vec<String>,
    turn: usize,
    net_tip: u32,
    servers: Vec<String>,
    have_cache: bool,
    cached_at: u64,
}

/// The gateway's shared state.
pub struct GatewayView {
    /// The live peers, best first.
    pub pool: Seq<Seq<char>>,
    /// Whose turn it is.
    pub turn: usize,
    /// The best-known tip of the network; 0 where it is not known.
    pub net_tip: u32,
    /// The peers that served state, the latest first.
    pub servers: Seq<Seq<char>>,
    /// Whether there is a cache.
    pub have_cache: bool,
    /// When it was made, in seconds.
    pub cached_at: u64,
}

/// The tip after one more was heard of.
pub open spec fn raised(tip: u32, heard: Option<u32>) -> u32 {
    match heard {
        Some(round) if round > tip => round,
        _ => tip,
    }
}

impl View for GatewayState {
    type V = GatewayView;

    closed spec fn view(&self) -> GatewayView {
        GatewayView {
            pool: texts(self.pool@),
            turn: self.turn,
            net_tip: self.net_tip,
            servers: texts(self.servers@),
            have_cache: self.have_cache,
            cached_at: self.cached_at,
        }
    }
}

impl GatewayState {
    /// A gateway that knows nothing yet.
    pub fn new() -> (r: GatewayState)
        ensures
            r@ == (GatewayView {
                pool: Seq::empty(),
                turn: 0,
                net_tip: 0,
                servers: Seq::empty(),
                have_cache: false,
                cached_at: 0,
            }),
    {
        let r = GatewayState {
            pool: Vec::new(),
            turn: 0,
            net_tip: 0,
            servers: Vec::new(),
            have_cache: false,
            cached_at: 0,
        };
        assert(r@.pool =~= Seq::<Seq<char>>::empty());
        assert(r@.servers =~= Seq::<Seq<char>>::empty());
        r
    }

    /// Takes the pool from the contents of the peer files, and the tip from `contents`, where the
    /// peer file could be read.
    pub fn refresh_pool(&mut self, files: &Vec<String>, contents: Option<&str>)
        ensures
            final(self)@ == (GatewayView {
                pool: distinct(all_addresses(texts(files@))),
                net_tip: raised(
                    old(self)@.net_tip,
                    match contents {
                        Some(s) => stated_tip(s@),
                        None => None,
                    },
                ),
                ..old(self)@
            }),
    {
        self.pool = read_node_peers(files);
        if let Some(s) = contents {
            if let Some(tip) = extract_round_tip(s) {
                raise_round_floor(&mut self.net_tip, tip);
            }
        }
    }

    /// Takes in a round that the network has reached; whether it raised the tip.
    pub fn learn_tip(&mut self, round: u32) -> (r: bool)
        ensures
            r == (round > old(self)@.net_tip),
            final(self)@ == (GatewayView {
                net_tip: raised(old(self)@.net_tip, Some(round)),
                ..old(self)@
            }),
    {
        raise_round_floor(&mut self.net_tip, round)
    }

    /// The live peers.
    pub fn pool(&self) -> (r: Vec<String>)
        ensures
            texts(r@) == self@.pool,
    {
        copy_list(&self.pool)
    }

    /// The number of live peers.
    pub fn pool_len(&self) -> (r: usize)
        ensures
            r == self@.pool.len(),
    {
        assert(texts(self.pool@).len() == self.pool@.len());
        self.pool.len()
    }

    /// The best-known tip of the network; 0 where it is not known.
    pub fn net_tip(&self) -> (r: u32)
        ensures
            r == self@.net_tip,
    {
        self.net_tip
    }

    /// When the cache was made, in seconds.
    pub fn cached_at(&self) -> (r: u64)
        ensures
            r == self@.cached_at,
    {
        self.cached_at
    }

    /// Whose turn it is; the turn moves on by `by`.
    pub fn take_turn(&mut self, by: usize) -> (r: usize)
        ensures
            r == old(self)@.turn,
            final(self)@ == (GatewayView { turn: old(self)@.turn.wrapping_add(by), ..old(self)@ }),
    {
        let r: usize = self.turn;
        self.turn = r.wrapping_add(by);
        r
    }

    /// Sets whose turn it is.
    pub fn set_turn(&mut self, turn: usize)
        ensures
            final(self)@ == (GatewayView { turn, ..old(self)@ }),
    {
        self.turn = turn;
    }

    /// Notes that a cache was made at `now`.
    pub fn note_cache(&mut self, now: u64)
        ensures
            final(self)@ == (GatewayView { have_cache: true, cached_at: now, ..old(self)@ }),
    {
        self.have_cache = true;
        self.cached_at = now;
    }

    /// Notes that `ip` served state.
    pub fn note_state_server(&mut self, ip: &str)
        ensures
            final(self)@ == (GatewayView {
                servers: remembered_after(old(self)@.servers, ip@),
                ..old(self)@
            }),
    {
        remember_state_server(&mut self.servers, ip);
    }

    /// The peers to try for a bootstrap, out of `peers`, the pool as it was when the connection was
    /// accepted: first those that served state, then the others from the turn on. The turn moves on
    /// by all that may be tried, so that the next request does not meet the same peers again.
    pub fn bootstrap_peers(&mut self, peers: &Vec<String>) -> (r: Vec<String>)
        ensures
            texts(r@) == with_new(
                old(self)@.servers,
                rotated(texts(peers@), old(self)@.turn as int),
            ),
            final(self)@ == (GatewayView {
                turn: old(self)@.turn.wrapping_add(32),
                ..old(self)@
            }),
    {
        let start = self.take_turn(BOOTSTRAP_SELECT_MAX_PEERS);
        let remembered = copy_list(&self.servers);
        bootstrap_candidates(remembered, peers, start)
    }

    /// The one of `peers` whose turn it is, for a node without a peer; `None` where there are no
    /// peers. The turn moves on.
    pub fn next_peer(&mut self, peers: &Vec<String>) -> (r: Option<String>)
        ensures
            match r {
                Some(ip) => {
                    let n = peers@.len() as int;
                    &&& n > 0
                    &&& ip@ == texts(peers@)[old(self)@.turn as int % n]
                    &&& final(self)@ == (GatewayView {
                        turn: old(self)@.turn.wrapping_add(1),
                        ..old(self)@
                    })
                },
                None => peers@.len() == 0 && final(self)@ == old(self)@,
            },
    {
        let n = peers.len();
        if n == 0 {
            return None;
        }
        let i: usize = self.take_turn(1) % n;
        assert(texts(peers@)[i as int] == peers@[i as int]@);
        Some(peers[i].clone())
    }

    /// The peer that a connection of `node` goes to, where `peers` is the pool as it was when the
    /// connection was accepted and `found` the pin that the connection has waited for: that pin or,
    /// where none came, the peer whose turn it is, which is pinned without a session unless the
    /// node has been pinned since. `None` where there are no peers.
    pub fn settle_active(
        &mut self,
        node: &mut NodeState,
        peers: &Vec<String>,
        found: Option<ActivePeer>,
    ) -> (r: Option<ActivePeer>)
        ensures
            (final(self)@, final(node)@, opt_peer(r)) == settled(
                old(self)@,
                old(node)@,
                texts(peers@),
                opt_peer(found),
            ),
    {
        assert(texts(peers@).len() == peers@.len());
        if peers.len() == 0 {
            return None;
        }
        if found.is_some() {
            return found;
        }
        match self.next_peer(peers) {
            Some(ip) => Some(node.pin_lazy_active(ip.as_str())),
            None => None,
        }
    }

    /// Decides whether a node gets the cache.
    pub fn decide_replay(&self, node: &NodeState, now: u64) -> (r: ReplayDecision)
        ensures
            r == replay_decision(
                self@.have_cache,
                now,
                node@.last_replay,
                node@.active is Some && !node@.lazy,
                self@.cached_at,
            ),
    {
        decide_replay(
            self.have_cache,
            now,
            node.last_cache_replay_secs(),
            node.has_active_session(),
            self.cached_at,
        )
    }

    /// Decides what the loop that fills the cache does next.
    pub fn plan_refresh(&self, now: u64) -> (r: RefreshStep)
        ensures
            r == refresh_step(self@.have_cache, now, self@.cached_at, self@.pool.len()),
    {
        plan_refresh(self.have_cache, now, self.cached_at, self.pool_len())
    }
}

/// The gateway and a node after a connection of the node settled on a peer, and the peer.
pub open spec fn settled(
    gateway: GatewayView,
    node: NodeView,
    peers: Seq<Seq<char>>,
    found: Option<PeerTag>,
) -> (GatewayView, NodeView, Option<PeerTag>) {
    if peers.len() == 0 {
        (gateway, node, None)
    } else if found is Some {
        (gateway, node, found)
    } else {
        let now = pinned_lazily(node, peers[gateway.turn as int % peers.len() as int]);
        (GatewayView { turn: gateway.turn.wrapping_add(1), ..gateway }, now, now.active)
    }
}

/// All connections of a node converge on one peer: the first that finds none pins one of its peers,
/// and every later one goes to it, whatever has become of the pool and the turn, and whether or not
/// it saw the pin while it waited.
pub proof fn connections_converge(
    first: GatewayView,
    first_peers: Seq<Seq<char>>,
    node: NodeView,
    later: GatewayView,
    later_peers: Seq<Seq<char>>,
    found: Option<PeerTag>,
)
    requires
        first_peers.len() > 0,
        later_peers.len() > 0,
        ({
            let pin = settled(first, node, first_peers, node.active).1.active;
            found is None || found == pin
        }),
    ensures
        ({
            let (_, now, peer) = settled(first, node, first_peers, node.active);
            &&& peer is Some && peer == now.active
            &&& node.active is Some ==> now == node
            &&& node.active is None ==> first_peers.contains((peer->0).0)
            &&& settled(later, now, later_peers, found).1 == now
            &&& settled(later, now, later_peers, found).2 == peer
        }),
{
    if node.active is None {
        let n = first_peers.len() as int;
        let i = first.turn as int % n;
        assert(0 <= i < n) by (nonlinear_arith)
            requires
                i == first.turn as int % n,
                n > 0,
        ;
        assert(first_peers.contains(first_peers[i]));
    }
}

/// How often a connection looks for its node's pin before one of the peers is pinned.
pub const PIN_LOOKS: u32 = 15;

/// How long it pauses after a look in vain, in milliseconds.
pub const PIN_PAUSE_MS: u64 = 200;

/// A connection's wait for a session that may be about to pin a peer.
pub struct PinWait {
    looks: u32,
    found: Option<ActivePeer>,
}

impl View for PinWait {
    type V = (nat, Option<PeerTag>);

    /// The looks so far, and the pin that was found.
    closed spec fn view(&self) -> (nat, Option<PeerTag>) {
        (self.looks as nat, opt_peer(self.found))
    }
}

impl PinWait {
    /// A wait that has not looked yet.
    pub fn new() -> (r: PinWait)
        ensures
            r@ == (0nat, None::<PeerTag>),
    {
        PinWait { looks: 0, found: None }
    }

    /// Whether to look again: no pin was found, and there are looks left.
    pub fn is_looking(&self) -> (r: bool)
        ensures
            r == (self@.1 is None && self@.0 < PIN_LOOKS),
    {
        self.found.is_none() && self.looks < PIN_LOOKS
    }

    /// Takes in what a look has shown; whether to pause before going on.
    pub fn looked(&mut self, found: Option<ActivePeer>) -> (r: bool)
        requires
            old(self)@.0 < PIN_LOOKS,
        ensures
            final(self)@ == (old(self)@.0 + 1, opt_peer(found)),
            r == (found is None),
    {
        let pause = found.is_none();
        self.looks = self.looks + 1;
        self.found = found;
        pause
    }

    /// The pin that was found.
    pub fn into_found(self) -> (r: Option<ActivePeer>)
        ensures
            opt_peer(r) == self@.1,
    {
        self.found
    }
}

/// The tip that the gateway knows never falls: not when the peer file states a lower one or none,
/// nor when a cache shows a lower round.
pub proof fn tip_never_falls(tip: u32, heard: Option<u32>)
    ensures
        raised(tip, heard) >= tip,
        heard matches Some(round) ==> raised(tip, heard) >= round,
{
}

/// The hosts of the push session after a replay: with pushing on the live peer and others, else
/// the live peer alone.
pub fn session_hosts(live_ip: &str, peers: &Vec<String>, n_live: usize, push: bool) -> (r: Vec<
    String,
>)
    ensures
        texts(r@) == if push {
            push_hosts(live_ip@, texts(peers@), n_live as nat)
        } else {
            seq![live_ip@]
        },
{
    if push {
        build_push_hosts(live_ip, peers, n_live)
    } else {
        let mut out: Vec<String> = Vec::new();
        out.push(live_ip.to_owned());
        assert(texts(out@) =~= seq![live_ip@]);
        out
    }
}

/// The tip that the gateway knows is one that it was told: the highest.
pub proof fn tip_is_the_highest_heard(tip: u32, heard: Option<u32>)
    ensures
        raised(tip, heard) == tip || heard == Some(raised(tip, heard)),
        heard is None ==> raised(tip, heard) == tip,
{
}

/// A connection that found a pin goes to it and changes nothing. One that found none takes the turn
/// on by one, goes to the pin that the node has got since, or else pins the peer at the turn,
/// without a session. Without peers nothing happens.
pub proof fn connection_takes_the_pin_or_the_turn(
    gateway: GatewayView,
    node: NodeView,
    peers: Seq<Seq<char>>,
    found: Option<PeerTag>,
)
    ensures
        ({
            let (after, now, peer) = settled(gateway, node, peers, found);
            &&& peers.len() == 0 ==> after == gateway && now == node && peer is None
            &&& peers.len() > 0 && found is Some ==> after == gateway && now == node && peer
                == found
            &&& peers.len() > 0 && found is None ==> {
                &&& gateway.turn < usize::MAX ==> after.turn == gateway.turn + 1
                &&& gateway.turn == usize::MAX ==> after.turn == 0
                &&& after == (GatewayView { turn: after.turn, ..gateway })
                &&& node.active is Some ==> now == node && peer == node.active
                &&& node.active is None ==> {
                    &&& peer is Some && (peer->0).0 == peers[gateway.turn as int
                        % peers.len() as int]
                    &&& now.active == peer && now.lazy
                }
            }
        }),
{
}

/// A connection waits for a pin for three seconds at most.
pub proof fn wait_for_a_pin_is_short()
    ensures
        PIN_LOOKS * PIN_PAUSE_MS == 3_000,
        PIN_PAUSE_MS == 200,
{
}

} // verus!
