//! What the gateway keeps for each node: which peer is pinned for it, when the cache was last
//! replayed to it, its floor for live blocks, and how many connections it has open; and the
//! registry of all nodes.
use vstd::prelude::*;
use crate::cache::raise_round_floor;
use crate::lists::filter_keeps;
use crate::order::{order_is_stable, order_of, placed_leq, stable_order, Key};
use crate::text::same_text;

verus! {

/// Nodes that are kept before idle ones are dropped.
pub const NODE_STATE_CAP: usize = 256;

/// Seconds after which an idle node is dropped.
pub const NODE_STATE_TTL_SECS: u64 = 3600;

/// The address that a node connects from. Addresses of the old kind come before those of the new
/// kind; within a kind they are ordered by number.
#[derive(Clone, Copy, Debug, PartialEq, Eq, Structural)]
pub struct NodeAddr {
    /// Whether the address is of the new kind, with 128 bits.
    pub v6: bool,
    /// The address as a number.
    pub bits: u128,
}

impl NodeAddr {
    /// An address of the old kind from its four parts.
    pub fn v4(a: u8, b: u8, c: u8, d: u8) -> (r: NodeAddr)
        ensures
            r == (NodeAddr {
                v6: false,
                bits: (a * 0x1000000 + b * 0x10000 + c * 0x100 + d) as u128,
            }),
    {
        NodeAddr {
            v6: false,
            bits: a as u128 * 0x1000000 + b as u128 * 0x10000 + c as u128 * 0x100 + d as u128,
        }
    }

    /// An address of the new kind from its number.
    pub fn v6(bits: u128) -> (r: NodeAddr)
        ensures
            r == (NodeAddr { v6: true, bits }),
    {
        NodeAddr { v6: true, bits }
    }
}

/// A peer that is pinned for a node. The epoch tells two pins of one peer apart.
#[derive(Debug, PartialEq, Eq)]
pub struct ActivePeer {
    pub ip: String,
    pub epoch: u64,
}

impl View for ActivePeer {
    type V = (Seq<char>, u64);

    open spec fn view(&self) -> (Seq<char>, u64) {
        (self.ip@, self.epoch)
    }
}

impl Clone for ActivePeer {
    fn clone(&self) -> (r: ActivePeer)
        ensures
            r@ == self@,
    {
        ActivePeer { ip: self.ip.clone(), epoch: self.epoch }
    }
}

impl ActivePeer {
    /// Whether two pins are the same.
    pub fn same(&self, other: &ActivePeer) -> (r: bool)
        ensures
            r == (self@ == other@),
    {
        self.epoch == other.epoch && same_text(self.ip.as_str(), other.ip.as_str())
    }
}

/// An optional pin.
pub open spec fn opt_peer(peer: Option<ActivePeer>) -> Option<(Seq<char>, u64)> {
    match peer {
        Some(p) => Some(p@),
        None => None,
    }
}

/// What is kept for a node.
pub struct NodeView {
    pub addr: NodeAddr,
    /// The pinned peer.
    pub active: Option<(Seq<char>, u64)>,
    /// Whether the latest pin was made without a session on the block port.
    pub lazy: bool,
    /// The epoch of the latest pin.
    pub epoch: u64,
    /// When the cache was last replayed, in seconds; 0 for never.
    pub last_replay: u64,
    /// Blocks up to this round are not sent any more.
    pub live_floor: u32,
    /// When the node was last seen, in seconds.
    pub last_seen: u64,
    /// Open connections.
    pub conns: nat,
}

/// A node that has just been met.
pub open spec fn new_node(addr: NodeAddr, now: u64) -> NodeView {
    NodeView {
        addr,
        active: None,
        lazy: false,
        epoch: 0,
        last_replay: 0,
        live_floor: 0,
        last_seen: now,
        conns: 0,
    }
}

/// The epoch after `epoch`.
pub open spec fn next_epoch(epoch: u64) -> u64 {
    if epoch < u64::MAX {
        (epoch + 1) as u64
    } else {
        0
    }
}

/// A node after a session on the block port pinned `ip`.
pub open spec fn pinned(node: NodeView, ip: Seq<char>) -> NodeView {
    NodeView {
        active: Some((ip, next_epoch(node.epoch))),
        lazy: false,
        epoch: next_epoch(node.epoch),
        ..node
    }
}

/// A node after another connection wanted a peer: it is pinned where there was none.
pub open spec fn pinned_lazily(node: NodeView, ip: Seq<char>) -> NodeView {
    if node.active is Some {
        node
    } else {
        NodeView {
            active: Some((ip, next_epoch(node.epoch))),
            lazy: true,
            epoch: next_epoch(node.epoch),
            ..node
        }
    }
}

/// A node after the pin `peer` was given up: only that pin goes.
pub open spec fn unpinned(node: NodeView, peer: (Seq<char>, u64)) -> NodeView {
    if node.active == Some(peer) {
        NodeView { active: None, ..node }
    } else {
        node
    }
}

/// What is kept for a node.
pub struct NodeState {
    addr: NodeAddr,
    active: Option<ActivePeer>,
    lazy: bool,
    epoch: u64,
    last_replay: u64,
    live_floor: u32,
    last_seen: u64,
    conns: usize,
}

impl View for NodeState {
    type V = NodeView;

    closed spec fn view(&self) -> NodeView {
        NodeView {
            addr: self.addr,
            active: opt_peer(self.active),
            lazy: self.lazy,
            epoch: self.epoch,
            last_replay: self.last_replay,
            live_floor: self.live_floor,
            last_seen: self.last_seen,
            conns: self.conns as nat,
        }
    }
}

impl NodeState {
    /// A node that has just been met.
    pub fn new(addr: NodeAddr, now: u64) -> (r: NodeState)
        ensures
            r@ == new_node(addr, now),
    {
        NodeState {
            addr,
            active: None,
            lazy: false,
            epoch: 0,
            last_replay: 0,
            live_floor: 0,
            last_seen: now,
            conns: 0,
        }
    }

    /// The address of the node.
    pub fn addr(&self) -> (r: NodeAddr)
        ensures
            r == self@.addr,
    {
        self.addr
    }

    fn pin(&mut self, ip: &str, lazy: bool) -> (r: ActivePeer)
        ensures
            final(self)@ == (NodeView {
                active: Some((ip@, next_epoch(old(self)@.epoch))),
                lazy,
                epoch: next_epoch(old(self)@.epoch),
                ..old(self)@
            }),
            r@ == (ip@, next_epoch(old(self)@.epoch)),
    {
        self.epoch = self.epoch.wrapping_add(1);
        self.lazy = lazy;
        let peer = ActivePeer { ip: ip.to_owned(), epoch: self.epoch };
        self.active = Some(peer.clone());
        peer
    }

    /// Pins `ip` for a session on the block port.
    pub fn pin_active(&mut self, ip: &str) -> (r: ActivePeer)
        ensures
            final(self)@ == pinned(old(self)@, ip@),
            Some(r@) == final(self)@.active,
    {
        self.pin(ip, false)
    }

    /// The pinned peer; where there is none, `ip` is pinned without a session.
    pub fn pin_lazy_active(&mut self, ip: &str) -> (r: ActivePeer)
        ensures
            final(self)@ == pinned_lazily(old(self)@, ip@),
            Some(r@) == final(self)@.active,
    {
        match &self.active {
            Some(peer) => {
                return peer.clone();
            },
            None => {},
        }
        self.pin(ip, true)
    }

    /// The pinned peer.
    pub fn active_snapshot(&self) -> (r: Option<ActivePeer>)
        ensures
            opt_peer(r) == self@.active,
    {
        match &self.active {
            Some(peer) => Some(peer.clone()),
            None => None,
        }
    }

    /// The peer that a session on the block port pinned.
    pub fn active_session_snapshot(&self) -> (r: Option<ActivePeer>)
        ensures
            opt_peer(r) == if self@.lazy {
                None
            } else {
                self@.active
            },
    {
        if self.lazy {
            None
        } else {
            self.active_snapshot()
        }
    }

    /// Whether `peer` is the pin.
    pub fn active_is_current(&self, peer: &ActivePeer) -> (r: bool)
        ensures
            r == (self@.active == Some(peer@)),
    {
        match &self.active {
            Some(current) => current.same(peer),
            None => false,
        }
    }

    /// Gives up the pin `peer`, where it is still the pin.
    pub fn clear_active_if_current(&mut self, peer: &ActivePeer)
        ensures
            final(self)@ == unpinned(old(self)@, peer@),
    {
        if self.active_is_current(peer) {
            self.active = None;
        }
    }

    /// Whether the node has a session on the block port; a lazy pin does not count.
    pub fn has_active_session(&self) -> (r: bool)
        ensures
            r == (self@.active is Some && !self@.lazy),
    {
        self.active.is_some() && !self.lazy
    }

    /// When the cache was last replayed, in seconds; 0 for never.
    pub fn last_cache_replay_secs(&self) -> (r: u64)
        ensures
            r == self@.last_replay,
    {
        self.last_replay
    }

    /// Notes that a replay of the cache begins, or has come to its end, at `now`.
    pub fn stamp_replay(&mut self, now: u64)
        ensures
            final(self)@ == (NodeView { last_replay: now, ..old(self)@ }),
    {
        self.last_replay = now;
    }

    /// Takes the stamp of a failed replay back, where no later one has been set.
    pub fn cancel_replay(&mut self, stamp: u64)
        ensures
            final(self)@ == if old(self)@.last_replay == stamp {
                NodeView { last_replay: 0, ..old(self)@ }
            } else {
                old(self)@
            },
    {
        if self.last_replay == stamp {
            self.last_replay = 0;
        }
    }

    /// The floor for live blocks.
    pub fn live_floor(&self) -> (r: u32)
        ensures
            r == self@.live_floor,
    {
        self.live_floor
    }

    /// Raises the floor for live blocks; whether `round` was higher.
    pub fn raise_live_floor(&mut self, round: u32) -> (r: bool)
        ensures
            r == (round > old(self)@.live_floor),
            final(self)@ == (NodeView {
                live_floor: if round > old(self)@.live_floor {
                    round
                } else {
                    old(self)@.live_floor
                },
                ..old(self)@
            }),
    {
        raise_round_floor(&mut self.live_floor, round)
    }

    /// When the node was last seen, in seconds.
    pub fn last_seen_secs(&self) -> (r: u64)
        ensures
            r == self@.last_seen,
    {
        self.last_seen
    }

    /// Open connections.
    pub fn open_conns(&self) -> (r: usize)
        ensures
            r == self@.conns,
    {
        self.conns
    }
}

/// Giving up a pin that a later one has replaced changes nothing, even where both name one peer.
pub proof fn later_pin_survives(node: NodeView, first: Seq<char>, second: Seq<char>)
    requires
        node.epoch < u64::MAX - 1,
    ensures
        ({
            let one = pinned(node, first);
            let two = pinned(one, second);
            &&& unpinned(two, one.active->0) == two
            &&& unpinned(two, two.active->0).active is None
        }),
{
}

/// A lazy pin never counts as a session and never replaces a pin; a session's pin replaces a lazy
/// one and counts.
pub proof fn lazy_pin_yields(node: NodeView, ip: Seq<char>, other: Seq<char>)
    requires
        node.active is None,
    ensures
        ({
            let lazy = pinned_lazily(node, ip);
            &&& lazy.active is Some && lazy.lazy
            &&& pinned_lazily(lazy, other) == lazy
            &&& !pinned(lazy, other).lazy
            &&& (pinned(lazy, other).active->0).0 == other
        }),
{
}

/// Holds a pin for as long as a relay lasts.
pub struct ActivePinGuard {
    pub peer: ActivePeer,
}

impl ActivePinGuard {
    /// Gives the pin up, where it is still the pin.
    pub fn release(self, node: &mut NodeState)
        ensures
            final(node)@ == unpinned(old(node)@, self.peer@),
    {
        node.clear_active_if_current(&self.peer);
    }
}

/// A node as the registry looks at it when it needs room: its address, when it was last seen, and
/// whether it has open connections.
pub type NodeEntry = (NodeAddr, u64, bool);

/// The node is idle for longer than `ttl` seconds.
pub open spec fn expired(entry: NodeEntry, now: u64, ttl: u64) -> bool {
    !entry.2 && now - entry.1 > ttl
}

/// The node is idle, but not for so long.
pub open spec fn evictable(entry: NodeEntry, now: u64, ttl: u64) -> bool {
    !entry.2 && now - entry.1 <= ttl
}

/// What idle nodes are dropped by: the time they were last seen, then their address.
pub open spec fn idle_key(entry: NodeEntry) -> Key {
    (
        entry.1,
        if entry.0.v6 {
            1
        } else {
            0
        },
        entry.0.bits,
    )
}

/// The addresses of `entries`.
pub open spec fn addrs(entries: Seq<NodeEntry>) -> Seq<NodeAddr> {
    entries.map_values(|e: NodeEntry| e.0)
}

/// `entries`, the one that was seen the longest time ago first.
pub open spec fn oldest_first(entries: Seq<NodeEntry>) -> Seq<NodeEntry> {
    order_of(entries.map_values(|e: NodeEntry| idle_key(e))).map_values(|i: int| entries[i])
}

/// How many of the idle nodes go so that one more node fits: as many as are too many, but no more
/// than there are.
pub open spec fn excess(kept: int, cap: int, idle: int) -> int {
    if kept + 1 <= cap {
        0
    } else if kept + 1 - cap < idle {
        kept + 1 - cap
    } else {
        idle
    }
}

/// The nodes to drop before one more is kept: all that are expired, then, where it is still too
/// many, the idle ones that were seen the longest time ago. A node with open connections stays.
pub open spec fn evicted(entries: Seq<NodeEntry>, now: u64, cap: nat, ttl: u64) -> Seq<NodeAddr> {
    let old = entries.filter(|e: NodeEntry| expired(e, now, ttl));
    let idle = entries.filter(|e: NodeEntry| evictable(e, now, ttl));
    addrs(old) + addrs(oldest_first(idle)).take(
        excess(entries.len() - old.len(), cap as int, idle.len() as int),
    )
}

/// Parts the entries into the expired and the evictable ones.
fn split_idle(entries: &[NodeEntry], now: u64, ttl: u64) -> (r: (Vec<NodeAddr>, Vec<NodeEntry>))
    ensures
        r.0@ == addrs(entries@.filter(|e: NodeEntry| expired(e, now, ttl))),
        r.1@ == entries@.filter(|e: NodeEntry| evictable(e, now, ttl)),
{
    let ghost all = entries@;
    let ghost is_old = |e: NodeEntry| expired(e, now, ttl);
    let ghost is_idle = |e: NodeEntry| evictable(e, now, ttl);
    let n = entries.len();
    let mut old_ones: Vec<NodeAddr> = Vec::new();
    let mut idle: Vec<NodeEntry> = Vec::new();
    let mut i: usize = 0;
    proof {
        reveal(Seq::filter);
    }
    assert(old_ones@ =~= addrs(all.take(0).filter(is_old)));
    assert(idle@ =~= all.take(0).filter(is_idle));
    while i < n
        invariant
            n == entries@.len(),
            i <= n,
            all == entries@,
            is_old == |e: NodeEntry| expired(e, now, ttl),
            is_idle == |e: NodeEntry| evictable(e, now, ttl),
            old_ones@ == addrs(all.take(i as int).filter(is_old)),
            idle@ == all.take(i as int).filter(is_idle),
        decreases n - i,
    {
        reveal(Seq::filter);
        assert(all.take(i + 1).drop_last() =~= all.take(i as int));
        let ghost old_before = all.take(i as int).filter(is_old);
        let entry: NodeEntry = entries[i];
        if !entry.2 {
            if now.saturating_sub(entry.1) > ttl {
                old_ones.push(entry.0);
                assert(addrs(old_before.push(entry)) =~= addrs(old_before).push(entry.0));
            } else {
                idle.push(entry);
            }
        }
        i = i + 1;
    }
    assert(all.take(i as int) =~= all);
    (old_ones, idle)
}

/// The addresses of `entries`, the one that was seen the longest time ago first.
fn addrs_oldest_first(entries: &Vec<NodeEntry>) -> (r: Vec<NodeAddr>)
    ensures
        r@ == addrs(oldest_first(entries@)),
{
    let ghost all = entries@;
    let ghost want = all.map_values(|e: NodeEntry| idle_key(e));
    let mut keys: Vec<Key> = Vec::new();
    let mut i: usize = 0;
    while i < entries.len()
        invariant
            i <= entries@.len(),
            all == entries@,
            want == all.map_values(|e: NodeEntry| idle_key(e)),
            keys@ == want.take(i as int),
        decreases entries@.len() - i,
    {
        let e: NodeEntry = entries[i];
        let kind: u64 = if e.0.v6 {
            1
        } else {
            0
        };
        keys.push((e.1, kind, e.0.bits));
        i = i + 1;
        assert(keys@ =~= want.take(i as int));
    }
    assert(keys@ =~= want);
    let order = stable_order(&keys);
    let ghost places = order@.map_values(|i: usize| i as int);
    let ghost result = addrs(oldest_first(all));
    let mut out: Vec<NodeAddr> = Vec::new();
    let mut j: usize = 0;
    assert(out@ =~= result.take(0));
    while j < order.len()
        invariant
            j <= order@.len(),
            order@.len() == entries@.len(),
            all == entries@,
            places == order@.map_values(|i: usize| i as int),
            oldest_first(all) == places.map_values(|i: int| all[i]),
            result == addrs(oldest_first(all)),
            forall|k: int| 0 <= k < order@.len() ==> #[trigger] order@[k] < entries@.len(),
            out@ == result.take(j as int),
        decreases order@.len() - j,
    {
        out.push(entries[order[j]].0);
        j = j + 1;
        assert(out@ =~= result.take(j as int));
    }
    assert(result.take(j as int) =~= result);
    out
}

/// The nodes to drop before one more is kept.
pub fn node_state_evict_keys(entries: &[NodeEntry], now: u64, cap: usize, ttl: u64) -> (r: Vec<
    NodeAddr,
>)
    ensures
        r@ == evicted(entries@, now, cap as nat, ttl),
{
    let (mut out, idle) = split_idle(entries, now, ttl);
    proof {
        entries@.lemma_filter_len(|e: NodeEntry| expired(e, now, ttl));
        order_is_stable(idle@.map_values(|e: NodeEntry| idle_key(e)));
    }
    let kept: usize = entries.len() - out.len();
    if kept < cap {
        assert(out@ =~= evicted(entries@, now, cap as nat, ttl));
        return out;
    }
    let sorted = addrs_oldest_first(&idle);
    let over: usize = kept - cap;
    let count: usize = if over < idle.len() {
        over + 1
    } else {
        idle.len()
    };
    let ghost old_ones = out@;
    let mut i: usize = 0;
    while i < count
        invariant
            i <= count <= sorted@.len(),
            out@ == old_ones + sorted@.take(i as int),
        decreases count - i,
    {
        out.push(sorted[i]);
        i = i + 1;
        assert(out@ =~= old_ones + sorted@.take(i as int));
    }
    assert(out@ =~= evicted(entries@, now, cap as nat, ttl));
    out
}

/// A node with open connections is never dropped: not for being idle, nor for want of room.
pub proof fn held_node_stays(entries: Seq<NodeEntry>, now: u64, cap: nat, ttl: u64, addr: NodeAddr)
    requires
        forall|i: int|
            0 <= i < entries.len() && (#[trigger] entries[i]).0 == addr ==> entries[i].2,
    ensures
        !evicted(entries, now, cap, ttl).contains(addr),
{
    let is_old = |e: NodeEntry| expired(e, now, ttl);
    let is_idle = |e: NodeEntry| evictable(e, now, ttl);
    let old_ones = entries.filter(is_old);
    let idle = entries.filter(is_idle);
    let sorted = oldest_first(idle);
    let out = evicted(entries, now, cap, ttl);
    order_is_stable(idle.map_values(|e: NodeEntry| idle_key(e)));
    if out.contains(addr) {
        let k = choose|k: int| 0 <= k < out.len() && out[k] == addr;
        let e = if k < old_ones.len() {
            old_ones[k]
        } else {
            sorted[k - old_ones.len()]
        };
        if k < old_ones.len() {
            assert(old_ones.contains(e));
            filter_keeps(entries, is_old, e);
        } else {
            let order = order_of(idle.map_values(|e: NodeEntry| idle_key(e)));
            let place = order[k - old_ones.len()];
            assert(order.contains(place));
            assert(idle[place] == e);
            assert(idle.contains(e));
            filter_keeps(entries, is_idle, e);
        }
        let i = choose|i: int| 0 <= i < entries.len() && entries[i] == e;
        assert(entries[i].0 == addr);
    }
}

/// Of two idle nodes the one that is dropped for want of room was not seen later than the one that
/// stays.
pub proof fn oldest_goes_first(idle: Seq<NodeEntry>, i: int, j: int)
    requires
        0 <= i < j < idle.len(),
    ensures
        oldest_first(idle).len() == idle.len(),
        oldest_first(idle)[i].1 <= oldest_first(idle)[j].1,
{
    let keys = idle.map_values(|e: NodeEntry| idle_key(e));
    order_is_stable(keys);
    let order = order_of(keys);
    assert(order.contains(order[i]) && order.contains(order[j]));
    assert(placed_leq((keys[order[i]], order[i]), (keys[order[j]], order[j])));
}

/// With the dropped nodes gone there is room for one more, unless all that are left have open
/// connections.
pub proof fn eviction_makes_room(entries: Seq<NodeEntry>, now: u64, cap: nat, ttl: u64)
    ensures
        ({
            let gone = evicted(entries, now, cap, ttl).len();
            let idle = entries.filter(|e: NodeEntry| expired(e, now, ttl)).len() + entries.filter(
                |e: NodeEntry| evictable(e, now, ttl),
            ).len();
            &&& gone <= idle
            &&& entries.len() - gone + 1 <= cap || gone == idle
        }),
{
    let idle = entries.filter(|e: NodeEntry| evictable(e, now, ttl));
    order_is_stable(idle.map_values(|e: NodeEntry| idle_key(e)));
    entries.lemma_filter_len(|e: NodeEntry| expired(e, now, ttl));
}

/// All nodes that the gateway knows.
pub struct NodeRegistry {
    nodes: Vec<NodeState>,
}

/// What is kept for each of `nodes`.
pub open spec fn views(nodes: Seq<NodeState>) -> Seq<NodeView> {
    nodes.map_values(|n: NodeState| n@)
}

/// Nodes as they are looked at when room is needed.
pub open spec fn entries_of(nodes: Seq<NodeView>) -> Seq<NodeEntry> {
    nodes.map_values(|n: NodeView| (n.addr, n.last_seen, n.conns > 0))
}

/// No address is known twice.
pub open spec fn addrs_distinct(nodes: Seq<NodeView>) -> bool {
    forall|i: int, j: int|
        0 <= i < j < nodes.len() ==> (#[trigger] nodes[i]).addr != (#[trigger] nodes[j]).addr
}

/// The nodes that are left when the addresses `gone` are dropped.
pub open spec fn remaining(nodes: Seq<NodeView>, gone: Seq<NodeAddr>) -> Seq<NodeView> {
    nodes.filter(|n: NodeView| !gone.contains(n.addr))
}

/// A node that has one more connection at `now`. The count is held at the largest number.
pub open spec fn connected(node: NodeView, now: u64) -> NodeView {
    NodeView {
        last_seen: now,
        conns: if node.conns < usize::MAX {
            node.conns + 1
        } else {
            usize::MAX as nat
        },
        ..node
    }
}

/// The place of the node with the address `addr`.
pub open spec fn place_of(nodes: Seq<NodeView>, addr: NodeAddr) -> Option<int> {
    if exists|i: int| 0 <= i < nodes.len() && (#[trigger] nodes[i]).addr == addr {
        Some(choose|i: int| 0 <= i < nodes.len() && (#[trigger] nodes[i]).addr == addr)
    } else {
        None
    }
}

/// The nodes after one connected: where it is known it is the same node as before; else the
/// registry makes room and takes it in.
pub open spec fn after_connect(nodes: Seq<NodeView>, addr: NodeAddr, now: u64) -> Seq<NodeView> {
    match place_of(nodes, addr) {
        Some(i) => nodes.update(i, connected(nodes[i], now)),
        None => remaining(
            nodes,
            evicted(entries_of(nodes), now, NODE_STATE_CAP as nat, NODE_STATE_TTL_SECS),
        ).push(connected(new_node(addr, now), now)),
    }
}

impl View for NodeRegistry {
    type V = Seq<NodeView>;

    closed spec fn view(&self) -> Seq<NodeView> {
        views(self.nodes@)
    }
}

impl NodeRegistry {
    /// No address is known twice.
    pub open spec fn well_formed(&self) -> bool {
        addrs_distinct(self@)
    }

    /// A registry without nodes.
    pub fn new() -> (r: NodeRegistry)
        ensures
            r.well_formed(),
            r@ == Seq::<NodeView>::empty(),
    {
        let r = NodeRegistry { nodes: Vec::new() };
        assert(r@ =~= Seq::<NodeView>::empty());
        r
    }

    /// The number of nodes.
    pub fn len(&self) -> (r: usize)
        ensures
            r == self@.len(),
    {
        self.nodes.len()
    }

    /// The place of the node with the address `addr`.
    pub fn find(&self, addr: NodeAddr) -> (r: Option<usize>)
        requires
            self.well_formed(),
        ensures
            match (r, place_of(self@, addr)) {
                (Some(i), Some(k)) => i == k && i < self@.len() && self@[k].addr == addr,
                (None, None) => true,
                _ => false,
            },
    {
        let mut i: usize = 0;
        while i < self.nodes.len()
            invariant
                self.well_formed(),
                i <= self.nodes@.len() == self@.len(),
                forall|k: int| 0 <= k < i ==> (#[trigger] self@[k]).addr != addr,
            decreases self.nodes@.len() - i,
        {
            assert(self@[i as int] == self.nodes@[i as int]@);
            if self.nodes[i].addr() == addr {
                proof {
                    let k = choose|k: int|
                        0 <= k < self@.len() && (#[trigger] self@[k]).addr == addr;
                    assert(self@[i as int].addr == addr);
                    assert(0 <= k < self@.len() && self@[k].addr == addr);
                    if k < i {
                        assert(self@[k].addr != self@[i as int].addr);
                    }
                    if i < k {
                        assert(self@[i as int].addr != self@[k].addr);
                    }
                }
                return Some(i);
            }
            i = i + 1;
        }
        None
    }

    /// Whether a node with the address `addr` is known.
    pub fn contains(&self, addr: NodeAddr) -> (r: bool)
        requires
            self.well_formed(),
        ensures
            r == exists|i: int| 0 <= i < self@.len() && (#[trigger] self@[i]).addr == addr,
    {
        match self.find(addr) {
            Some(i) => {
                assert(self@[i as int].addr == addr);
                true
            },
            None => false,
        }
    }

    /// The node at a place.
    pub fn node(&self, i: usize) -> (r: &NodeState)
        requires
            i < self@.len(),
        ensures
            r@ == self@[i as int],
    {
        &self.nodes[i]
    }

    /// The node at a place, to be changed. Its address must stay as it is.
    pub fn node_mut(&mut self, i: usize) -> (r: &mut NodeState)
        requires
            i < old(self)@.len(),
        ensures
            r@ == old(self)@[i as int],
            final(self)@ == old(self)@.update(i as int, final(r)@),
            final(r)@.addr == old(self)@[i as int].addr && old(self).well_formed()
                ==> final(self).well_formed(),
    {
        proof {
            assert forall|s: NodeState| #[trigger] views(self.nodes@.update(i as int, s))
                == self@.update(i as int, s@) by {
                assert(views(self.nodes@.update(i as int, s)) =~= self@.update(i as int, s@));
            }
        }
        &mut self.nodes[i]
    }

    fn entries(&self) -> (r: Vec<NodeEntry>)
        ensures
            r@ == entries_of(self@),
    {
        let ghost want = entries_of(self@);
        let mut out: Vec<NodeEntry> = Vec::new();
        let mut i: usize = 0;
        while i < self.nodes.len()
            invariant
                i <= self.nodes@.len() == self@.len(),
                want == entries_of(self@),
                out@ == want.take(i as int),
            decreases self.nodes@.len() - i,
        {
            let node = &self.nodes[i];
            assert(self@[i as int] == node@);
            out.push((node.addr, node.last_seen, node.conns > 0));
            i = i + 1;
            assert(out@ =~= want.take(i as int));
        }
        assert(out@ =~= want);
        out
    }

    /// Drops the nodes with the addresses `gone`.
    fn drop_nodes(&mut self, gone: &Vec<NodeAddr>)
        ensures
            final(self)@ == remaining(old(self)@, gone@),
    {
        let ghost keep = |n: NodeView| !gone@.contains(n.addr);
        let ghost first = self@;
        let ghost mut done: int = 0;
        let mut i: usize = 0;
        proof {
            reveal(Seq::filter);
            assert(self@.take(0) =~= first.take(0).filter(keep));
        }
        while i < self.nodes.len()
            invariant
                i <= self.nodes@.len() == self@.len(),
                keep == |n: NodeView| !gone@.contains(n.addr),
                first == old(self)@,
                0 <= done <= first.len(),
                self@.len() - i == first.len() - done,
                self@.take(i as int) == first.take(done).filter(keep),
                self@.skip(i as int) == first.skip(done),
            decreases self.nodes@.len() - i,
        {
            reveal(Seq::filter);
            let ghost before = self@;
            assert(before[i as int] == before.skip(i as int)[0]);
            assert(first.skip(done)[0] == first[done]);
            assert(first.take(done + 1).drop_last() =~= first.take(done));
            let addr = self.nodes[i].addr();
            if addr_in(gone, addr) {
                self.nodes.remove(i);
                assert(self@ =~= before.remove(i as int));
                assert(self@.take(i as int) =~= before.take(i as int));
                assert(self@.skip(i as int) =~= before.skip(i as int).skip(1));
            } else {
                assert(before.take(i + 1) =~= before.take(i as int).push(first[done]));
                assert(before.skip(i + 1) =~= before.skip(i as int).skip(1));
                i = i + 1;
            }
            assert(first.skip(done + 1) =~= first.skip(done).skip(1));
            proof {
                done = done + 1;
            }
        }
        assert(first.take(done) =~= first);
        assert(self@.take(i as int) =~= self@);
    }

    /// A node connects: its place in the registry.
    pub fn get_or_insert(&mut self, addr: NodeAddr, now: u64) -> (r: usize)
        requires
            old(self).well_formed(),
        ensures
            final(self).well_formed(),
            final(self)@ == after_connect(old(self)@, addr, now),
            r < final(self)@.len(),
            final(self)@[r as int].addr == addr,
    {
        match self.find(addr) {
            Some(i) => {
                let ghost before = self@;
                assert(self@[i as int] == self.nodes@[i as int]@);
                self.nodes[i].last_seen = now;
                self.nodes[i].conns = self.nodes[i].conns.saturating_add(1);
                assert(self@ =~= before.update(i as int, connected(before[i as int], now)));
                i
            },
            None => {
                let entries = self.entries();
                let gone = node_state_evict_keys(
                    entries.as_slice(),
                    now,
                    NODE_STATE_CAP,
                    NODE_STATE_TTL_SECS,
                );
                let ghost before = self@;
                self.drop_nodes(&gone);
                let ghost kept = self@;
                let mut node = NodeState::new(addr, now);
                node.conns = 1;
                self.nodes.push(node);
                proof {
                    assert(self@ =~= kept.push(connected(new_node(addr, now), now)));
                    remaining_stays_distinct(before, gone@);
                    assert forall|i: int, j: int| 0 <= i < j < self@.len() implies (
                    #[trigger] self@[i]).addr != (#[trigger] self@[j]).addr by {
                        if j < kept.len() {
                            assert(kept[i].addr != kept[j].addr);
                        } else {
                            assert(kept.contains(kept[i]));
                            assert(before.contains(kept[i]));
                            let k = choose|k: int| 0 <= k < before.len() && before[k] == kept[i];
                            assert(before[k].addr != addr);
                        }
                    }
                }
                self.nodes.len() - 1
            },
        }
    }

    /// A connection of the node `addr` has ended at `now`. A node that is not known is left out.
    pub fn release(&mut self, addr: NodeAddr, now: u64)
        requires
            old(self).well_formed(),
        ensures
            final(self).well_formed(),
            final(self)@ == match place_of(old(self)@, addr) {
                Some(i) => old(self)@.update(
                    i,
                    (NodeView {
                        last_seen: now,
                        conns: if old(self)@[i].conns > 0 {
                            (old(self)@[i].conns - 1) as nat
                        } else {
                            0
                        },
                        ..old(self)@[i]
                    }),
                ),
                None => old(self)@,
            },
    {
        match self.find(addr) {
            Some(i) => {
                let ghost before = self@;
                assert(self@[i as int] == self.nodes@[i as int]@);
                self.nodes[i].last_seen = now;
                self.nodes[i].conns = self.nodes[i].conns.saturating_sub(1);
                assert(self@ =~= before.update(i as int, self.nodes@[i as int]@));
            },
            None => {},
        }
    }
}

/// Whether `list` holds `addr`.
fn addr_in(list: &Vec<NodeAddr>, addr: NodeAddr) -> (r: bool)
    ensures
        r == list@.contains(addr),
{
    let mut i: usize = 0;
    while i < list.len()
        invariant
            i <= list@.len(),
            forall|k: int| 0 <= k < i ==> list@[k] != addr,
        decreases list@.len() - i,
    {
        if list[i] == addr {
            return true;
        }
        i = i + 1;
    }
    false
}

proof fn remaining_stays_distinct(nodes: Seq<NodeView>, gone: Seq<NodeAddr>)
    requires
        addrs_distinct(nodes),
    ensures
        addrs_distinct(remaining(nodes, gone)),
        forall|n: NodeView| #[trigger] remaining(nodes, gone).contains(n) ==> nodes.contains(n),
    decreases nodes.len(),
{
    reveal(Seq::filter);
    if nodes.len() > 0 {
        let before = nodes.drop_last();
        remaining_stays_distinct(before, gone);
        let kept = remaining(before, gone);
        let all = remaining(nodes, gone);
        assert forall|n: NodeView| #[trigger] all.contains(n) implies nodes.contains(n) by {
            let k = choose|k: int| 0 <= k < all.len() && all[k] == n;
            if k < kept.len() {
                assert(kept[k] == n);
                assert(kept.contains(n));
                let m = choose|m: int| 0 <= m < before.len() && before[m] == n;
                assert(nodes[m] == n);
            } else {
                assert(nodes[nodes.len() - 1] == n);
            }
        }
        assert forall|i: int, j: int| 0 <= i < j < all.len() implies (#[trigger] all[i]).addr != (
        #[trigger] all[j]).addr by {
            if j < kept.len() {
                assert(kept[i].addr != kept[j].addr);
            } else {
                assert(kept[i] == all[i]);
                assert(kept.contains(all[i]));
                let m = choose|m: int| 0 <= m < before.len() && before[m] == all[i];
                assert(nodes[m].addr != nodes[nodes.len() - 1].addr);
            }
        }
    }
}

/// A node that comes back while it is known finds what it left: its pin, its floor and the time of
/// its last replay.
pub proof fn reconnect_keeps_state(nodes: Seq<NodeView>, addr: NodeAddr, now: u64, i: int)
    requires
        addrs_distinct(nodes),
        0 <= i < nodes.len(),
        nodes[i].addr == addr,
    ensures
        ({
            let after = after_connect(nodes, addr, now);
            &&& after.len() == nodes.len()
            &&& after[i].active == nodes[i].active
            &&& after[i].live_floor == nodes[i].live_floor
            &&& after[i].last_replay == nodes[i].last_replay
            &&& after[i].conns > 0
            &&& forall|j: int| 0 <= j < nodes.len() && j != i ==> after[j] == nodes[j]
        }),
{
    assert(nodes[i].addr == addr);
    let k = choose|k: int| 0 <= k < nodes.len() && (#[trigger] nodes[k]).addr == addr;
    assert(0 <= k < nodes.len() && nodes[k].addr == addr);
    if k < i {
        assert(nodes[k].addr != nodes[i].addr);
    }
    if i < k {
        assert(nodes[i].addr != nodes[k].addr);
    }
}

/// A node with open connections is still there, with all that is kept for it, after another node
/// connected.
pub proof fn open_connection_keeps_node(nodes: Seq<NodeView>, addr: NodeAddr, now: u64, i: int)
    requires
        addrs_distinct(nodes),
        0 <= i < nodes.len(),
        nodes[i].conns > 0,
        nodes[i].addr != addr,
    ensures
        after_connect(nodes, addr, now).contains(nodes[i]),
{
    match place_of(nodes, addr) {
        Some(k) => {
            assert(after_connect(nodes, addr, now)[i] == nodes[i]);
        },
        None => {
            let entries = entries_of(nodes);
            let gone = evicted(entries, now, NODE_STATE_CAP as nat, NODE_STATE_TTL_SECS);
            assert forall|j: int| 0 <= j < entries.len() && (#[trigger] entries[j]).0
                == nodes[i].addr implies entries[j].2 by {
                assert(entries[j] == (nodes[j].addr, nodes[j].last_seen, nodes[j].conns > 0));
                if j < i {
                    assert(nodes[j].addr != nodes[i].addr);
                }
                if i < j {
                    assert(nodes[i].addr != nodes[j].addr);
                }
            }
            held_node_stays(
                entries,
                now,
                NODE_STATE_CAP as nat,
                NODE_STATE_TTL_SECS,
                nodes[i].addr,
            );
            filter_keeps(nodes, |n: NodeView| !gone.contains(n.addr), nodes[i]);
            let kept = remaining(nodes, gone);
            assert(nodes.contains(nodes[i]));
            let k = choose|k: int| 0 <= k < kept.len() && kept[k] == nodes[i];
            assert(after_connect(nodes, addr, now)[k] == nodes[i]);
        },
    }
}

/// A session's pin takes the place of any other, under an epoch of its own; a connection without a
/// session pins only where there is no pin. Nothing else of the node changes.
pub proof fn pins_replace_or_yield(node: NodeView, ip: Seq<char>)
    ensures
        ({
            let p = pinned(node, ip);
            &&& p.active is Some && (p.active->0).0 == ip
            &&& (p.active->0).1 == p.epoch && p.epoch != node.epoch
            &&& !p.lazy
            &&& p == (NodeView { active: p.active, lazy: false, epoch: p.epoch, ..node })
        }),
        node.active is Some ==> pinned_lazily(node, ip) == node,
        node.active is None ==> ({
            let q = pinned_lazily(node, ip);
            &&& q.active is Some && (q.active->0).0 == ip
            &&& (q.active->0).1 == q.epoch && q.epoch != node.epoch
            &&& q.lazy
            &&& q == (NodeView { active: q.active, lazy: true, epoch: q.epoch, ..node })
        }),
{
}

/// Giving a pin up takes that pin away and nothing else; a pin that the node no longer has is not
/// missed.
pub proof fn only_the_given_pin_goes(node: NodeView, peer: (Seq<char>, u64))
    ensures
        node.active == Some(peer) ==> unpinned(node, peer) == (NodeView { active: None, ..node }),
        node.active != Some(peer) ==> unpinned(node, peer) == node,
{
}

/// The entries that a filter by age keeps, told by their fields.
proof fn age_filters(entries: Seq<NodeEntry>, now: u64, ttl: u64)
    ensures
        entries.filter(|e: NodeEntry| expired(e, now, ttl)) == entries.filter(
            |e: NodeEntry| !e.2 && now > e.1 + ttl,
        ),
        entries.filter(|e: NodeEntry| evictable(e, now, ttl)) == entries.filter(
            |e: NodeEntry| !e.2 && now <= e.1 + ttl,
        ),
{
    assert((|e: NodeEntry| expired(e, now, ttl)) =~= (|e: NodeEntry| !e.2 && now > e.1 + ttl));
    assert((|e: NodeEntry| evictable(e, now, ttl)) =~= (|e: NodeEntry| !e.2 && now <= e.1 + ttl));
}

/// A node without connections goes once it has not been seen for longer than the time it is kept.
pub proof fn idle_node_goes_after_its_time(
    entries: Seq<NodeEntry>,
    now: u64,
    cap: nat,
    ttl: u64,
    e: NodeEntry,
)
    requires
        entries.contains(e),
        !e.2,
        now > e.1 + ttl,
    ensures
        evicted(entries, now, cap, ttl).contains(e.0),
{
    let old_ones = entries.filter(|e: NodeEntry| expired(e, now, ttl));
    filter_keeps(entries, |e: NodeEntry| expired(e, now, ttl), e);
    let k = choose|k: int| 0 <= k < old_ones.len() && old_ones[k] == e;
    assert(evicted(entries, now, cap, ttl)[k] == e.0);
}

/// While there is room for one more node, only those go that have not been seen for too long.
pub proof fn others_stay_while_there_is_room(
    entries: Seq<NodeEntry>,
    now: u64,
    cap: nat,
    ttl: u64,
    addr: NodeAddr,
)
    requires
        entries.len() < cap,
        evicted(entries, now, cap, ttl).contains(addr),
    ensures
        exists|e: NodeEntry| #[trigger]
            entries.contains(e) && e.0 == addr && !e.2 && now > e.1 + ttl,
{
    let old_ones = entries.filter(|e: NodeEntry| expired(e, now, ttl));
    entries.lemma_filter_len(|e: NodeEntry| expired(e, now, ttl));
    let out = evicted(entries, now, cap, ttl);
    let k = choose|k: int| 0 <= k < out.len() && out[k] == addr;
    assert(out =~= addrs(old_ones));
    let e = old_ones[k];
    assert(old_ones.contains(e));
    filter_keeps(entries, |e: NodeEntry| expired(e, now, ttl), e);
    assert(entries.contains(e) && e.0 == addr);
}

/// No more nodes go than have to: all that have not been seen for too long, and beyond them just so
/// many that one more fits under the limit, or all without connections where that is not enough.
pub proof fn no_more_go_than_must(entries: Seq<NodeEntry>, now: u64, cap: nat, ttl: u64)
    ensures
        ({
            let gone = evicted(entries, now, cap, ttl).len();
            let late = entries.filter(|e: NodeEntry| !e.2 && now > e.1 + ttl).len();
            let idle = entries.filter(|e: NodeEntry| !e.2 && now <= e.1 + ttl).len();
            let left = entries.len() - late;
            &&& left < cap ==> gone == late
            &&& left >= cap && left + 1 - cap <= idle ==> gone == late + (left + 1 - cap)
            &&& left >= cap && left + 1 - cap > idle ==> gone == late + idle
        }),
{
    age_filters(entries, now, ttl);
    let idle = entries.filter(|e: NodeEntry| evictable(e, now, ttl));
    order_is_stable(idle.map_values(|e: NodeEntry| idle_key(e)));
    entries.lemma_filter_len(|e: NodeEntry| expired(e, now, ttl));
}

/// A node that goes for want of room was not seen later than one without connections that stays.
pub proof fn longest_unseen_goes(
    entries: Seq<NodeEntry>,
    now: u64,
    cap: nat,
    ttl: u64,
    e: NodeEntry,
    f: NodeEntry,
)
    requires
        forall|i: int, j: int|
            0 <= i < j < entries.len() ==> (#[trigger] entries[i]).0 != (#[trigger] entries[j]).0,
        entries.contains(e) && entries.contains(f),
        !e.2 && !f.2,
        now <= e.1 + ttl,
        now <= f.1 + ttl,
        evicted(entries, now, cap, ttl).contains(e.0),
        !evicted(entries, now, cap, ttl).contains(f.0),
    ensures
        e.1 <= f.1,
{
    let is_old = |x: NodeEntry| expired(x, now, ttl);
    let is_idle = |x: NodeEntry| evictable(x, now, ttl);
    let old_ones = entries.filter(is_old);
    let idle = entries.filter(is_idle);
    let keys = idle.map_values(|x: NodeEntry| idle_key(x));
    let order = order_of(keys);
    let sorted = oldest_first(idle);
    let out = evicted(entries, now, cap, ttl);
    order_is_stable(keys);
    filter_keeps(entries, is_idle, e);
    filter_keeps(entries, is_idle, f);
    let k = choose|k: int| 0 <= k < out.len() && out[k] == e.0;
    let x = if k < old_ones.len() {
        old_ones[k]
    } else {
        sorted[k - old_ones.len()]
    };
    if k < old_ones.len() {
        assert(old_ones.contains(x));
        filter_keeps(entries, is_old, x);
    } else {
        let place = order[k - old_ones.len()];
        assert(order.contains(place));
        assert(idle[place] == x);
        assert(idle.contains(x));
        filter_keeps(entries, is_idle, x);
    }
    same_address_same_entry(entries, x, e);
    assert(x == e);
    assert(k >= old_ones.len());
    let pf = choose|p: int| 0 <= p < idle.len() && idle[p] == f;
    assert(order.contains(pf));
    let j = choose|j: int| 0 <= j < order.len() && order[j] == pf;
    assert(sorted[j] == f);
    if old_ones.len() + j < out.len() {
        assert(out[old_ones.len() + j] == f.0);
    }
    oldest_goes_first(idle, k - old_ones.len(), j);
}

/// Entries with one address are one entry.
proof fn same_address_same_entry(entries: Seq<NodeEntry>, a: NodeEntry, b: NodeEntry)
    requires
        forall|i: int, j: int|
            0 <= i < j < entries.len() ==> (#[trigger] entries[i]).0 != (#[trigger] entries[j]).0,
        entries.contains(a) && entries.contains(b),
        a.0 == b.0,
    ensures
        a == b,
{
    let i = choose|i: int| 0 <= i < entries.len() && entries[i] == a;
    let j = choose|j: int| 0 <= j < entries.len() && entries[j] == b;
    if i < j {
        assert(entries[i].0 != entries[j].0);
    }
    if j < i {
        assert(entries[j].0 != entries[i].0);
    }
}

/// A node that was not known is taken in as a new one, with one connection, seen now, without a pin,
/// a floor or a replay.
pub proof fn new_node_starts_afresh(nodes: Seq<NodeView>, addr: NodeAddr, now: u64)
    requires
        forall|i: int| 0 <= i < nodes.len() ==> (#[trigger] nodes[i]).addr != addr,
    ensures
        ({
            let after = after_connect(nodes, addr, now);
            let node = after.last();
            &&& after.len() > 0
            &&& node.addr == addr
            &&& node.conns == 1
            &&& node.last_seen == now
            &&& node.active is None
            &&& node.live_floor == 0
            &&& node.last_replay == 0
            &&& !node.lazy
        }),
{
}

/// A node that comes back has one connection more and was seen now; nothing else of it changes.
pub proof fn returning_node_is_counted(nodes: Seq<NodeView>, addr: NodeAddr, now: u64, i: int)
    requires
        addrs_distinct(nodes),
        0 <= i < nodes.len(),
        nodes[i].addr == addr,
        nodes[i].conns < usize::MAX,
    ensures
        after_connect(nodes, addr, now)[i] == (NodeView {
            last_seen: now,
            conns: nodes[i].conns + 1,
            ..nodes[i]
        }),
        place_of(nodes, addr) == Some(i),
{
    let k = place_of(nodes, addr)->0;
    assert(nodes[i].addr == addr);
    assert(nodes[k].addr == addr);
    if k < i {
        assert(nodes[k].addr != nodes[i].addr);
    }
    if i < k {
        assert(nodes[i].addr != nodes[k].addr);
    }
}

/// While fewer than 256 nodes are known, a node without connections is kept for an hour after it
/// was last seen, and no longer once another node comes.
pub proof fn known_node_is_kept_for_an_hour(nodes: Seq<NodeView>, addr: NodeAddr, now: u64, i: int)
    requires
        addrs_distinct(nodes),
        0 <= i < nodes.len() < 256,
        nodes[i].conns == 0,
        forall|j: int| 0 <= j < nodes.len() ==> (#[trigger] nodes[j]).addr != addr,
    ensures
        after_connect(nodes, addr, now).contains(nodes[i]) <==> now <= nodes[i].last_seen + 3_600,
{
    let entries = entries_of(nodes);
    let gone = evicted(entries, now, NODE_STATE_CAP as nat, NODE_STATE_TTL_SECS);
    let kept = remaining(nodes, gone);
    let after = after_connect(nodes, addr, now);
    let e: NodeEntry = (nodes[i].addr, nodes[i].last_seen, false);
    assert(entries[i] == e);
    assert(entries.contains(e));
    filter_keeps(nodes, |n: NodeView| !gone.contains(n.addr), nodes[i]);
    assert(nodes.contains(nodes[i]));
    assert forall|a: int, b: int| 0 <= a < b < entries.len() implies (#[trigger] entries[a]).0 != (
    #[trigger] entries[b]).0 by {
        assert(nodes[a].addr != nodes[b].addr);
    }
    if now > nodes[i].last_seen + 3_600 {
        idle_node_goes_after_its_time(entries, now, 256, 3_600, e);
        if after.contains(nodes[i]) {
            let k = choose|k: int| 0 <= k < after.len() && after[k] == nodes[i];
            if k < kept.len() {
                assert(kept[k] == nodes[i]);
                assert(kept.contains(nodes[i]));
            }
        }
    } else {
        if gone.contains(nodes[i].addr) {
            others_stay_while_there_is_room(entries, now, 256, 3_600, nodes[i].addr);
            let f = choose|f: NodeEntry| #[trigger]
                entries.contains(f) && f.0 == nodes[i].addr && !f.2 && now > f.1 + 3_600;
            same_address_same_entry(entries, e, f);
        }
        let k = choose|k: int| 0 <= k < kept.len() && kept[k] == nodes[i];
        assert(after[k] == nodes[i]);
    }
}

/// Of two idle nodes the one that was not seen for longer goes first; of two that were last seen at
/// one time an IPv4 address goes before an IPv6 address, and then the lower address first.
pub proof fn idle_nodes_go_in_order(a: NodeEntry, b: NodeEntry)
    ensures
        ({
            let before = crate::order::key_leq(idle_key(a), idle_key(b));
            &&& a.1 != b.1 ==> (before <==> a.1 < b.1)
            &&& a.1 == b.1 && a.0.v6 != b.0.v6 ==> (before <==> b.0.v6)
            &&& a.1 == b.1 && a.0.v6 == b.0.v6 ==> (before <==> a.0.bits <= b.0.bits)
        }),
{
}

/// A connection is counted once, up to the largest number, and nothing else of a node changes but
/// when it was seen.
pub proof fn connections_are_counted(node: NodeView, now: u64)
    requires
        node.conns <= usize::MAX,
    ensures
        ({
            let after = connected(node, now);
            &&& after == (NodeView { last_seen: now, conns: after.conns, ..node })
            &&& node.conns < usize::MAX ==> after.conns == node.conns + 1
            &&& node.conns == usize::MAX ==> after.conns == node.conns
        }),
{
}

} // verus!
