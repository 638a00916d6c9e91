use hypersync::cache::{
    bootstrap_capture_deadline_secs, cache_replay_allowed, fresh_cache_retry_delay_secs,
    is_bootstrap_cache_fresh, raise_round_floor, should_delay_cache_refresh_for_live_pool,
    should_replay_cache, ReplayDecision, RefreshStep, CACHE_REFRESH_FORCE_BEFORE_EXPIRY_SECS,
    CACHE_REFRESH_RETRY_SECS, CACHE_REFRESH_SECS, CACHE_REPLAY_COOLDOWN_SECS,
    COLD_BOOTSTRAP_REFRESH_MAX_SECS, FRESH_BOOTSTRAP_REFRESH_MAX_SECS,
    MAX_BOOTSTRAP_CACHE_AGE_SECS, MIN_LIVE_PEERS_FOR_CACHE_REFRESH,
};
use hypersync::client_blocks::{
    response_has_client_block_round_too_large, response_has_client_block_round_too_small,
    response_has_no_client_blocks, response_is_peer_only, should_fetch_forward_client_blocks,
};
use hypersync::gateway::{
    asks_for_bootstrap, route, session_hosts, GatewayState, PinWait, Route, PIN_LOOKS,
};
use hypersync::nodes::{
    node_state_evict_keys, ActivePinGuard, NodeAddr, NodeRegistry, NodeState, NODE_STATE_CAP,
    NODE_STATE_TTL_SECS,
};
use hypersync::protocol::{GREET_FALSE, GREET_TRUE};
use hypersync::select::{
    bootstrap_candidates, remember_state_server, response_is_peer_full, summarize_peer_errors,
    STATE_SERVER_MEMORY,
};

fn strings(list: &[&str]) -> Vec<String> {
    list.iter().map(|s| s.to_string()).collect()
}

#[test]
fn cache_replay_cooldown_blocks_immediate_duplicate_replay() {
    let first = 1_000_000;
    let cached_at = first;

    assert!(cache_replay_allowed(first, 0));
    assert!(!cache_replay_allowed(
        first + CACHE_REPLAY_COOLDOWN_SECS - 1,
        first
    ));
    assert!(cache_replay_allowed(
        first + CACHE_REPLAY_COOLDOWN_SECS,
        first
    ));
    assert!(!cache_replay_allowed(first - 1, first));

    assert!(should_replay_cache(first, 0, false, cached_at));
    assert!(!should_replay_cache(first, 0, true, cached_at));
    assert!(!should_replay_cache(first + 1, first, false, cached_at));
    assert!(!should_replay_cache(
        first + MAX_BOOTSTRAP_CACHE_AGE_SECS + 1,
        0,
        false,
        cached_at
    ));
    assert!(is_bootstrap_cache_fresh(
        cached_at + MAX_BOOTSTRAP_CACHE_AGE_SECS,
        cached_at
    ));
    assert!(!is_bootstrap_cache_fresh(cached_at + 15 * 60, cached_at));
}

#[test]
fn low_live_pool_delays_cache_refresh_only_until_near_expiry() {
    let cached_at = 1_000_000;

    assert!(should_delay_cache_refresh_for_live_pool(
        cached_at + CACHE_REFRESH_SECS,
        cached_at,
        MIN_LIVE_PEERS_FOR_CACHE_REFRESH - 1
    ));
    assert!(!should_delay_cache_refresh_for_live_pool(
        cached_at + MAX_BOOTSTRAP_CACHE_AGE_SECS - CACHE_REFRESH_FORCE_BEFORE_EXPIRY_SECS,
        cached_at,
        MIN_LIVE_PEERS_FOR_CACHE_REFRESH - 1
    ));
    assert!(!should_delay_cache_refresh_for_live_pool(
        cached_at + CACHE_REFRESH_SECS,
        cached_at,
        MIN_LIVE_PEERS_FOR_CACHE_REFRESH
    ));
}

#[test]
fn fresh_cache_retry_delay_does_not_sleep_past_expiry_margin() {
    let cached_at = 1_000_000;

    assert_eq!(
        fresh_cache_retry_delay_secs(cached_at + CACHE_REFRESH_SECS, cached_at),
        CACHE_REFRESH_RETRY_SECS
    );
    assert_eq!(
        fresh_cache_retry_delay_secs(
            cached_at + MAX_BOOTSTRAP_CACHE_AGE_SECS - CACHE_REFRESH_FORCE_BEFORE_EXPIRY_SECS - 1,
            cached_at
        ),
        1
    );
    assert_eq!(
        fresh_cache_retry_delay_secs(cached_at + MAX_BOOTSTRAP_CACHE_AGE_SECS - 10, cached_at),
        1
    );
}

#[test]
fn cold_capture_deadline_is_not_the_short_fresh_refresh_deadline() {
    assert_eq!(
        bootstrap_capture_deadline_secs(true),
        FRESH_BOOTSTRAP_REFRESH_MAX_SECS
    );
    assert_eq!(
        bootstrap_capture_deadline_secs(false),
        COLD_BOOTSTRAP_REFRESH_MAX_SECS
    );
    assert!(
        bootstrap_capture_deadline_secs(false) > bootstrap_capture_deadline_secs(true),
        "cold cache fill must allow valid multi-GB bootstraps that exceed the fresh refresh cap"
    );
}

#[test]
fn client_block_fetch_forward_is_always_used_for_4002() {
    assert!(should_fetch_forward_client_blocks(4002));
    assert!(!should_fetch_forward_client_blocks(4001));
    assert!(!should_fetch_forward_client_blocks(4003));
}

#[test]
fn peer_only_response_is_detected_without_parsing_rpc() {
    assert!(response_is_peer_only(br#"{"Error":"Peer-only request"}"#));
    assert!(!response_is_peer_only(br#"{"Ok":{"blocks":[]}}"#));
}

#[test]
fn peer_full_response_is_detected_without_parsing_rpc() {
    assert!(response_is_peer_full(br#"{"Error":"Peer full"}"#));
    assert!(response_is_peer_full(&[0, 0, 0, 1, 0, 4]));
    assert!(!response_is_peer_full(&[0, 0, 0, 1, 0, 3]));
    assert!(!response_is_peer_full(&[0, 0, 0, 3, 0, 0, 0, 0]));
    assert!(!response_is_peer_full(br#"{"Ok":{"round":1}}"#));
}

#[test]
fn no_client_blocks_response_is_not_treated_as_success() {
    assert!(response_has_no_client_blocks(
        br#"{"Error":"no client blocks to serve"}"#
    ));
    assert!(!response_has_no_client_blocks(br#"{"Ok":{"blocks":[1]}}"#));
}

#[test]
fn client_block_round_too_large_response_is_not_treated_as_success() {
    assert!(response_has_client_block_round_too_large(
        br#"{"Error":"client block round too large: 1354298843 > 769127346"}"#
    ));
    assert!(!response_has_client_block_round_too_large(
        br#"{"Ok":{"blocks":[1]}}"#
    ));
}

#[test]
fn client_block_round_too_small_response_is_not_treated_as_success() {
    assert!(response_has_client_block_round_too_small(
        br#"{"Error":"client block round too small: 1354354141 <= 1354362691"}"#
    ));
    assert!(!response_has_client_block_round_too_small(
        br#"{"Ok":{"blocks":[1]}}"#
    ));
}

#[test]
fn raise_round_floor_is_monotonic() {
    let mut floor = 10u32;

    assert!(!raise_round_floor(&mut floor, 9));
    assert_eq!(floor, 10);
    assert!(raise_round_floor(&mut floor, 11));
    assert_eq!(floor, 11);
}

#[test]
fn clear_active_only_clears_matching_epoch() {
    let mut node = NodeState::new(NodeAddr::v4(10, 0, 0, 1), 1);
    let first = node.pin_active("1.1.1.1");
    let second = node.pin_active("1.1.1.1");

    node.clear_active_if_current(&first);
    assert_eq!(node.active_snapshot(), Some(second.clone()));

    node.clear_active_if_current(&second);
    assert!(node.active_snapshot().is_none());
}

#[test]
fn active_pin_guard_clears_pin_on_early_drop() {
    let mut node = NodeState::new(NodeAddr::v4(10, 0, 0, 1), 1);
    let peer = node.pin_active("1.1.1.1");
    let guard = ActivePinGuard { peer };
    assert!(node.has_active_session());
    guard.release(&mut node);
    assert!(!node.has_active_session());
}

#[test]
fn active_pin_guard_leaves_a_newer_pin_untouched() {
    let mut node = NodeState::new(NodeAddr::v4(10, 0, 0, 1), 1);
    let stale = node.pin_active("1.1.1.1");
    let guard = ActivePinGuard { peer: stale };
    // a fresh session pins over the guarded one before it ends (e.g. node reconnected)
    let fresh = node.pin_active("2.2.2.2");
    guard.release(&mut node);
    assert_eq!(node.active_snapshot(), Some(fresh));
}

#[test]
fn lazy_active_is_not_a_real_4001_session() {
    let mut node = NodeState::new(NodeAddr::v4(10, 0, 0, 1), 1);
    let lazy = node.pin_lazy_active("1.1.1.1");

    assert_eq!(node.active_snapshot(), Some(lazy));
    assert!(node.active_session_snapshot().is_none());

    let real = node.pin_active("2.2.2.2");
    assert_eq!(node.active_session_snapshot(), Some(real));
}

#[test]
fn node_state_evict_keys_prunes_ttl_then_oldest() {
    let ip = |d: u8| NodeAddr::v4(10, 0, 0, d);
    let now = 10_000u64;

    // under cap, all fresh -> nothing evicted
    let entries = vec![(ip(1), now - 5, false), (ip(2), now, false)];
    assert!(node_state_evict_keys(&entries, now, 4, 3600).is_empty());

    // idle past ttl evicted regardless of cap
    let entries = vec![(ip(1), now - 3601, false), (ip(2), now, false)];
    assert_eq!(node_state_evict_keys(&entries, now, 4, 3600), vec![ip(1)]);

    // at cap with all fresh -> exactly the oldest-last_seen evicted to fit the insert
    let entries = vec![
        (ip(1), now - 30, false),
        (ip(2), now - 10, false),
        (ip(3), now - 20, false),
    ];
    assert_eq!(node_state_evict_keys(&entries, now, 3, 3600), vec![ip(1)]);

    // last_seen tie -> deterministic by ip
    let entries = vec![(ip(9), now, false), (ip(8), now, false)];
    assert_eq!(node_state_evict_keys(&entries, now, 2, 3600), vec![ip(8)]);

    // a node with open connections is never evicted: not by ttl (its long-lived live stream
    // opens no new connections for hours) and not by cap pressure
    let entries = vec![(ip(1), now - 7200, true), (ip(2), now - 30, false)];
    assert_eq!(node_state_evict_keys(&entries, now, 2, 3600), vec![ip(2)]);

    // all held and over cap -> nothing evictable; the insert may exceed cap (bounded by the
    // number of concurrently open connections)
    let entries = vec![(ip(1), now, true), (ip(2), now, true)];
    assert!(node_state_evict_keys(&entries, now, 2, 3600).is_empty());
}

#[test]
fn node_registry_reuses_state_across_reconnects() {
    let ip_a = NodeAddr::v4(10, 0, 0, 1);
    let ip_b = NodeAddr::v4(10, 0, 0, 2);
    let mut reg = NodeRegistry::new();
    let t0 = 1_700_000_000;

    let a1 = reg.get_or_insert(ip_a, t0);
    let peer = reg.node_mut(a1).pin_active("1.1.1.1");

    // same ip reconnecting -> same state (active survives), last_seen bumped
    let a2 = reg.get_or_insert(ip_a, t0 + 10);
    assert_eq!(a1, a2);
    assert_eq!(reg.node(a2).active_snapshot(), Some(peer));
    assert_eq!(reg.node(a2).last_seen_secs(), t0 + 10);
    assert_eq!(reg.node(a2).open_conns(), 2);
    reg.release(ip_a, t0);
    assert_eq!(reg.node(a1).open_conns(), 1);

    // different ip -> fresh state
    let b = reg.get_or_insert(ip_b, t0);
    assert_ne!(a1, b);
    assert!(reg.node(b).active_snapshot().is_none());
    reg.release(ip_b, t0); // ip_b is now idle with no open connections

    // ip_a still has an open connection -> survives TTL eviction; ip_b doesn't
    let later = t0 + NODE_STATE_TTL_SECS + 60;
    let ip_c = NodeAddr::v4(10, 0, 0, 3);
    reg.get_or_insert(ip_c, later);
    assert!(reg.contains(ip_a));
    assert!(!reg.contains(ip_b));
    assert!(reg.contains(ip_c));
    reg.release(ip_a, later);
}

#[test]
fn bootstrap_candidates_prefer_remembered_state_servers() {
    let pool: Vec<String> = ["1.1.1.1", "2.2.2.2", "3.3.3.3", "4.4.4.4"]
        .iter()
        .map(|s| s.to_string())
        .collect();
    // remembered heads the list, pool rotates from start, remembered ip deduped from pool
    let out = bootstrap_candidates(vec!["3.3.3.3".to_string(), "9.9.9.9".to_string()], &pool, 1);
    assert_eq!(out, ["3.3.3.3", "9.9.9.9", "2.2.2.2", "4.4.4.4", "1.1.1.1"]);
    // no memory -> plain rotation
    let out = bootstrap_candidates(Vec::new(), &pool, 2);
    assert_eq!(out, ["3.3.3.3", "4.4.4.4", "1.1.1.1", "2.2.2.2"]);
}

#[test]
fn remember_state_server_dedups_most_recent_first_and_caps() {
    let mut l = Vec::new();
    for i in 0..(STATE_SERVER_MEMORY + 3) {
        remember_state_server(&mut l, &format!("10.0.0.{i}"));
    }
    remember_state_server(&mut l, "10.0.0.5"); // re-serve moves to front, no duplicate
    assert_eq!(l.len(), STATE_SERVER_MEMORY);
    assert_eq!(l[0], "10.0.0.5");
    assert_eq!(l.iter().filter(|ip| *ip == "10.0.0.5").count(), 1);
}

#[test]
fn selection_failure_summary_buckets_by_cause() {
    let errs: Vec<String> = [
        "not serving abci_state (len=57)",
        "not serving abci_state (len=13)",
        "connect timeout",
        "connect: Connection refused (os error 111)",
        "greeting header: failed to fill whole buffer",
        "greeting header timeout",
        "peer full",
        "no live block before deadline",
        "deadline has elapsed",
    ]
    .iter()
    .map(|s| s.to_string())
    .collect();
    let s = summarize_peer_errors(12, &errs);
    assert!(s.starts_with("tried=12"), "{s}");
    for part in [
        "small_frame=2",
        "connect_fail=2",
        "eof=1",
        "timeout=2",
        "peer_full=1",
        "no_block=1",
    ] {
        assert!(s.contains(part), "missing {part} in {s}");
    }
}

#[test]
fn release_stamps_the_time_it_is_given() {
    let ip = NodeAddr::v6(7);
    let mut reg = NodeRegistry::new();
    let i = reg.get_or_insert(ip, 100);
    reg.release(ip, 90);
    assert_eq!(reg.node(i).last_seen_secs(), 90);
    reg.release(NodeAddr::v4(1, 2, 3, 4), 90);
    assert_eq!(reg.len(), 1);
    assert_eq!(reg.node(i).addr(), ip);
    assert_eq!(reg.find(ip), Some(i));
    assert_eq!(reg.find(NodeAddr::v4(0, 0, 0, 7)), None);
}

#[test]
fn full_registry_makes_room_for_one() {
    let mut reg = NodeRegistry::new();
    for i in 0..NODE_STATE_CAP {
        let addr = NodeAddr::v4(10, 1, (i / 256) as u8, (i % 256) as u8);
        reg.get_or_insert(addr, 1000 + i as u64);
        reg.release(addr, 1000 + i as u64);
    }
    assert_eq!(reg.len(), NODE_STATE_CAP);
    reg.get_or_insert(NodeAddr::v4(10, 2, 0, 0), 2000);
    assert_eq!(reg.len(), NODE_STATE_CAP);
    assert!(!reg.contains(NodeAddr::v4(10, 1, 0, 0)));
    assert!(reg.contains(NodeAddr::v4(10, 1, 0, 1)));
}

#[test]
fn later_pin_survives_and_lazy_pin_yields() {
    let mut node = NodeState::new(NodeAddr::v4(10, 0, 0, 1), 1);
    let real = node.pin_active("1.1.1.1");
    // a pin of a session stays when a lazy one is asked for
    let lazy = node.pin_lazy_active("2.2.2.2");
    assert_eq!(lazy.ip, "1.1.1.1");
    assert!(node.active_is_current(&real));
    assert!(node.has_active_session());
    let later = node.pin_active("3.3.3.3");
    assert!(!node.active_is_current(&real));
    assert!(node.active_is_current(&later));
    assert!(later.epoch > real.epoch);
}

#[test]
fn replay_stamp_is_taken_back_only_by_its_owner() {
    let mut node = NodeState::new(NodeAddr::v4(10, 0, 0, 1), 1);
    assert_eq!(node.last_cache_replay_secs(), 0);
    node.stamp_replay(50);
    node.cancel_replay(49);
    assert_eq!(node.last_cache_replay_secs(), 50);
    node.cancel_replay(50);
    assert_eq!(node.last_cache_replay_secs(), 0);
    assert!(node.raise_live_floor(7));
    assert!(!node.raise_live_floor(7));
    assert_eq!(node.live_floor(), 7);
}

#[test]
fn ports_go_their_ways() {
    assert_eq!(route(4001, true), Route::Greeting);
    assert_eq!(route(4002, true), Route::ClientBlocks);
    for port in [4000, 4003, 4010] {
        assert_eq!(route(port, true), Route::Splice);
    }
    for port in 4000..=4010 {
        assert_eq!(route(port, false), Route::Close);
    }
    assert!(asks_for_bootstrap(&GREET_TRUE));
    assert!(!asks_for_bootstrap(&GREET_FALSE));
}

#[test]
fn gateway_keeps_pool_tip_and_turns() {
    let mut g = GatewayState::new();
    assert_eq!(g.net_tip(), 0);
    assert_eq!(g.next_peer(&Vec::new()), None);
    let file = r#"{"live_servers":["9.9.9.9","8.8.8.8"],"round_tip":1355000000}"#;
    g.refresh_pool(&strings(&[file]), Some(file));
    assert_eq!(g.pool(), vec!["9.9.9.9", "8.8.8.8"]);
    assert_eq!(g.pool_len(), 2);
    assert_eq!(g.net_tip(), 1_355_000_000);
    assert!(!g.learn_tip(1_354_000_000));
    assert!(g.learn_tip(1_355_000_001));
    assert_eq!(g.net_tip(), 1_355_000_001);
    // a lower tip does not lower the tip, and an unreadable file leaves it alone
    g.refresh_pool(&strings(&[file]), Some(r#"{"round_tip":7}"#));
    g.refresh_pool(&strings(&[file]), None);
    assert_eq!(g.net_tip(), 1_355_000_001);
    let peers = g.pool();
    g.set_turn(1);
    assert_eq!(g.next_peer(&peers), Some("8.8.8.8".to_string()));
    assert_eq!(g.next_peer(&peers), Some("9.9.9.9".to_string()));
    g.set_turn(5);
    assert_eq!(g.take_turn(3), 5);
    assert_eq!(g.take_turn(1), 8);
    g.note_state_server("8.8.8.8");
    g.set_turn(0);
    assert_eq!(g.bootstrap_peers(&peers), vec!["8.8.8.8", "9.9.9.9"]);
    // an empty reading empties the pool, but not what a connection took along
    g.refresh_pool(&Vec::new(), None);
    assert_eq!(g.pool_len(), 0);
    assert_eq!(g.take_turn(0), 32);
    assert_eq!(g.next_peer(&peers), Some("9.9.9.9".to_string()));
    assert_eq!(g.bootstrap_peers(&peers), vec!["8.8.8.8", "9.9.9.9"]);
    assert_eq!(g.bootstrap_peers(&Vec::new()), vec!["8.8.8.8"]);
}

#[test]
fn gateway_decides_on_replay_and_refresh() {
    let mut g = GatewayState::new();
    let mut node = NodeState::new(NodeAddr::v4(10, 0, 0, 1), 1);
    assert_eq!(g.decide_replay(&node, 1000), ReplayDecision::NoCache);
    assert_eq!(g.plan_refresh(1000), RefreshStep::Capture { fresh: false });
    g.note_cache(1000);
    assert_eq!(g.cached_at(), 1000);
    assert_eq!(g.decide_replay(&node, 1001), ReplayDecision::Replay);
    node.stamp_replay(1001);
    assert_eq!(g.decide_replay(&node, 1011), ReplayDecision::Cooldown(10));
    assert_eq!(g.decide_replay(&node, 1500), ReplayDecision::Stale(500));
    node.pin_active("1.1.1.1");
    assert_eq!(g.decide_replay(&node, 1500), ReplayDecision::ActiveSession);
    assert_eq!(g.plan_refresh(1100), RefreshStep::Young(30));
    assert_eq!(g.plan_refresh(1235), RefreshStep::Young(5));
    assert_eq!(g.plan_refresh(1240), RefreshStep::FewLive(30));
    assert_eq!(g.plan_refresh(1390), RefreshStep::Capture { fresh: true });
    assert_eq!(g.plan_refresh(1481), RefreshStep::Capture { fresh: false });
}

#[test]
fn session_has_its_live_peer_first() {
    let peers = strings(&["1.1.1.1", "2.2.2.2", "3.3.3.3"]);
    assert_eq!(session_hosts("2.2.2.2", &peers, 3, false), vec!["2.2.2.2"]);
    assert_eq!(
        session_hosts("2.2.2.2", &peers, 3, true),
        vec!["2.2.2.2", "1.1.1.1", "3.3.3.3"]
    );
}

#[test]
fn connections_of_a_node_converge_on_one_peer() {
    let mut g = GatewayState::new();
    let mut node = NodeState::new(NodeAddr::v4(10, 0, 0, 1), 1);
    assert_eq!(g.settle_active(&mut node, &Vec::new(), None), None);
    assert_eq!(g.take_turn(0), 0);
    let peers = strings(&["9.9.9.9", "8.8.8.8"]);
    let first = g.settle_active(&mut node, &peers, None).unwrap();
    assert_eq!(first.ip, "9.9.9.9");
    assert!(!node.has_active_session());
    assert_eq!(g.take_turn(0), 1);
    let seen = node.active_snapshot();
    assert_eq!(g.settle_active(&mut node, &peers, seen).as_ref(), Some(&first));
    assert_eq!(g.take_turn(0), 1);
    // one that looked in vain before the pin was made takes a turn and gets the pin all the same
    assert_eq!(g.settle_active(&mut node, &peers, None), Some(first));
    assert_eq!(g.take_turn(0), 2);
    let pinned = node.pin_active("8.8.8.8");
    let seen = node.active_snapshot();
    assert_eq!(g.settle_active(&mut node, &peers, seen), Some(pinned));
    // a connection without peers goes nowhere
    let seen = node.active_snapshot();
    assert_eq!(g.settle_active(&mut node, &Vec::new(), seen), None);
}

#[test]
fn connection_looks_for_a_pin_and_gives_up() {
    let mut wait = PinWait::new();
    let mut pauses = 0;
    while wait.is_looking() {
        assert!(wait.looked(None));
        pauses += 1;
    }
    assert_eq!(pauses, PIN_LOOKS);
    assert_eq!(wait.into_found(), None);
    let mut node = NodeState::new(NodeAddr::v4(10, 0, 0, 1), 1);
    let mut wait = PinWait::new();
    assert!(wait.looked(node.active_snapshot()));
    let pinned = node.pin_active("8.8.8.8");
    assert!(wait.is_looking());
    assert!(!wait.looked(node.active_snapshot()));
    assert!(!wait.is_looking());
    assert_eq!(wait.into_found(), Some(pinned));
}
