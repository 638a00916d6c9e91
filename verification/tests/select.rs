use hypersync::client_blocks::{
    build_client_block_range_request, classify_client_blocks, client_block_peer_candidates,
    hedge_candidates, note_client_block_result, race_result, waits_for_session, AskPhase,
    ClientBlockRace, ClientBlockUpstreamResponse,
};
use hypersync::nodes::{NodeAddr, NodeState};
use hypersync::push::HeaderVerdict;
use hypersync::select::{
    bootstrap_capture_peers, bounded_frame_verdict, build_push_hosts, peer_error_class, stage,
    state_frame_verdict, summarize_peer_errors, vet_live_frame, Attempt, LaunchRace,
};
use hypersync::wire::make_frame;

fn strings(list: &[&str]) -> Vec<String> {
    list.iter().map(|s| s.to_string()).collect()
}

fn block_payload(round: u32) -> Vec<u8> {
    let mut dec: Vec<u8> = (0..0x100).map(|i| i as u8).collect();
    dec[0x5e] = 0xfc;
    dec[0x5f..0x63].copy_from_slice(&round.to_le_bytes());
    lz4_flex::block::compress_prepend_size(&dec)
}

#[test]
fn client_block_range_request_matches_captured_frame() {
    // captured example: 00 00 00 0b 00 | 00 fc 8e 26 81 50 fc f1 26 81 50
    let req = build_client_block_range_request(0x5081268e, 0x508126f1);
    assert_eq!(
        req,
        vec![
            0x00, 0x00, 0x00, 0x0b, 0x00, 0x00, 0xfc, 0x8e, 0x26, 0x81, 0x50, 0xfc, 0xf1, 0x26,
            0x81, 0x50
        ]
    );
}

#[test]
fn stages_label_their_failures() {
    assert_eq!(stage(Attempt::Done(7), "connect"), Ok(7));
    assert_eq!(
        stage::<u8>(Attempt::Timeout, "connect"),
        Err("connect timeout".to_string())
    );
    assert_eq!(
        stage::<u8>(Attempt::Error("refused".to_string()), "connect"),
        Err("connect: refused".to_string())
    );
}

#[test]
fn every_failure_has_its_class() {
    for (e, class) in [
        ("peer full", "peer_full"),
        ("not serving abci_state (len=57)", "small_frame"),
        ("no live block before deadline", "no_block"),
        ("connect timeout", "connect_fail"),
        ("state prefetch timeout", "prefetch_fail"),
        ("greeting header: early eof", "eof"),
        ("greeting header: failed to fill whole buffer", "eof"),
        ("greeting header timeout", "timeout"),
        ("deadline has elapsed", "timeout"),
        ("live frame too large", "other"),
        ("", "other"),
    ] {
        assert_eq!(peer_error_class(e), class, "{e}");
    }
    // the most frequent class comes first, equal ones as they were met
    let errs = strings(&["x", "peer full", "connect timeout", "connect: y", "early eof"]);
    assert_eq!(
        summarize_peer_errors(5, &errs),
        "tried=5 connect_fail=2 other=1 peer_full=1 eof=1"
    );
    assert_eq!(summarize_peer_errors(0, &Vec::new()), "tried=0");
}

#[test]
fn state_is_told_by_its_length() {
    assert_eq!(
        state_frame_verdict(4_000_000),
        Err("not serving abci_state (len=4000000)".to_string())
    );
    assert_eq!(state_frame_verdict(4_000_001), Ok(4_000_001));
    assert_eq!(state_frame_verdict(900_000_000), Ok(64_000_000));
    assert_eq!(bounded_frame_verdict(1000, 1000), HeaderVerdict::Read);
    assert_eq!(bounded_frame_verdict(1001, 1000), HeaderVerdict::Refuse);
}

#[test]
fn live_frame_is_vetted_by_its_round() {
    let round = 1_355_000_000;
    let frame = make_frame(1, &block_payload(round));
    assert_eq!(vet_live_frame(&frame, 0, 0), Some(round));
    assert_eq!(vet_live_frame(&frame, round - 1, round), Some(round));
    assert_eq!(vet_live_frame(&frame, round, 0), None);
    assert_eq!(vet_live_frame(&frame, 0, round - 200_001), None);
    assert_eq!(vet_live_frame(&make_frame(0, &block_payload(round)), 0, 0), None);
    assert_eq!(vet_live_frame(&frame[..4], 0, 0), None);
    assert_eq!(vet_live_frame(&[], 0, 0), None);
}

#[test]
fn launches_are_bounded_and_rotate() {
    let mut race = LaunchRace::new(3, 32, 2, 2);
    assert!(race.is_idle());
    assert_eq!(race.next_launch(), Some(2));
    assert_eq!(race.next_launch(), Some(0));
    assert_eq!(race.next_launch(), None);
    race.attempt_failed();
    assert_eq!(race.next_launch(), Some(1));
    race.attempt_failed();
    race.attempt_failed();
    assert_eq!(race.next_launch(), None);
    assert!(race.is_idle());
    assert_eq!(race.launched(), 3);
    let mut few = LaunchRace::new(5, 1, usize::MAX, 4);
    assert_eq!(few.next_launch(), Some(usize::MAX % 5));
    assert_eq!(few.next_launch(), None);
    assert_eq!(LaunchRace::new(0, 4, 0, 4).next_launch(), None);
}

#[test]
fn host_lists() {
    let peers = strings(&["1.1.1.1", "2.2.2.2", "3.3.3.3"]);
    assert_eq!(build_push_hosts("2.2.2.2", &peers, 2), vec!["2.2.2.2", "1.1.1.1"]);
    assert_eq!(build_push_hosts("9.9.9.9", &peers, 0), vec!["9.9.9.9"]);
    assert_eq!(
        bootstrap_capture_peers(strings(&["1.1.1.1"]), &strings(&["2.2.2.2", "1.1.1.1"]), true),
        vec!["1.1.1.1", "2.2.2.2"]
    );
    assert_eq!(
        bootstrap_capture_peers(strings(&["1.1.1.1"]), &strings(&["2.2.2.2"]), false),
        vec!["1.1.1.1"]
    );
}

#[test]
fn client_block_candidates_rotate_without_repeats() {
    let peers = strings(&["a", "b", "a", "c"]);
    let mut rr = 1;
    assert_eq!(client_block_peer_candidates(&peers, &mut rr, 2), vec!["b", "a"]);
    assert_eq!(rr, 3);
    assert_eq!(client_block_peer_candidates(&peers, &mut rr, 9), vec!["c", "a", "b"]);
    assert_eq!(rr, 12);
    assert!(client_block_peer_candidates(&peers, &mut rr, 0).is_empty());
    assert_eq!(rr, 12);
    assert!(client_block_peer_candidates(&Vec::new(), &mut rr, 8).is_empty());
    let mut node = NodeState::new(NodeAddr::v4(10, 0, 0, 1), 1);
    let active = node.pin_active("a");
    let mut rr = 0;
    assert_eq!(hedge_candidates(&peers, &mut rr, Some(&active)), vec!["b", "c"]);
    assert_eq!(hedge_candidates(&peers, &mut rr, None), vec!["a", "b", "c"]);
}

#[test]
fn answers_are_told_apart() {
    let frame = |text: &[u8]| make_frame(0, text);
    assert!(matches!(
        classify_client_blocks(frame(b"xx Peer-only request")),
        ClientBlockUpstreamResponse::PeerOnly
    ));
    assert!(matches!(
        classify_client_blocks(frame(b"client block round too small")),
        ClientBlockUpstreamResponse::RangeTooSmall
    ));
    for text in [&b"no client blocks to serve"[..], b"client block round too large"] {
        match classify_client_blocks(frame(text)) {
            ClientBlockUpstreamResponse::TerminalError(f) => assert_eq!(f, frame(text)),
            _ => panic!("not terminal"),
        }
    }
    match classify_client_blocks(frame(b"blocks")) {
        ClientBlockUpstreamResponse::Frames(f) => assert_eq!(f, frame(b"blocks")),
        _ => panic!("no blocks"),
    }
}

#[test]
fn race_notes_results_and_never_takes_a_stale_answer() {
    let mut node = NodeState::new(NodeAddr::v4(10, 0, 0, 1), 1);
    let stale = node.pin_active("1.1.1.1");
    let active = node.pin_active("2.2.2.2");
    let mut failures = Vec::new();
    let mut terminal = None;
    let blocks = || Ok(ClientBlockUpstreamResponse::Frames(vec![1]));
    assert_eq!(
        note_client_block_result(&mut node, Some(&stale), blocks(), &mut failures, &mut terminal),
        None
    );
    assert_eq!(
        note_client_block_result(&mut node, Some(&active), blocks(), &mut failures, &mut terminal),
        Some(vec![1])
    );
    assert_eq!(
        note_client_block_result(&mut node, None, blocks(), &mut failures, &mut terminal),
        Some(vec![1])
    );
    for frame in [vec![2], vec![3]] {
        let result = Ok(ClientBlockUpstreamResponse::TerminalError(frame));
        assert_eq!(
            note_client_block_result(&mut node, None, result, &mut failures, &mut terminal),
            None
        );
    }
    for result in [
        Ok(ClientBlockUpstreamResponse::RangeTooSmall),
        Err("refused".to_string()),
        Ok(ClientBlockUpstreamResponse::PeerOnly),
    ] {
        note_client_block_result(&mut node, None, result, &mut failures, &mut terminal);
    }
    // a pinned peer that refuses is unpinned
    let result = Ok(ClientBlockUpstreamResponse::PeerOnly);
    note_client_block_result(&mut node, Some(&active), result, &mut failures, &mut terminal);
    assert!(node.active_snapshot().is_none());
    assert_eq!(
        failures,
        vec![
            "1.1.1.1: stale active epoch 1",
            "terminal",
            "terminal",
            "range-too-small",
            "refused",
            "peer-only",
            "2.2.2.2: peer-only (active unpinned)",
        ]
    );
    assert_eq!(race_result(terminal, &failures), Ok(vec![2]));
    assert_eq!(
        race_result(None, &strings(&["a", "b"])),
        Err("a; b".to_string())
    );
}

#[test]
fn active_peer_is_asked_alone_first() {
    let peers = strings(&["1.1.1.1", "2.2.2.2", "3.3.3.3"]);
    let mut node = NodeState::new(NodeAddr::v4(10, 0, 0, 1), 1);
    let active = node.pin_active("1.1.1.1");
    let mut rr = 0;
    // the active peer answers in time: nobody else is asked
    let mut race = ClientBlockRace::new(Some(active.clone()));
    assert_eq!(race.phase(), AskPhase::Alone);
    race.answered(&mut node, true, Ok(ClientBlockUpstreamResponse::Frames(vec![1])));
    assert_eq!(race.phase(), AskPhase::Over);
    assert_eq!(race.outcome(), Ok(vec![1]));
    // it is slow: others are asked, and its answer still counts
    let mut race = ClientBlockRace::new(Some(active.clone()));
    race.grace_over();
    assert_eq!(race.phase(), AskPhase::Hedge);
    assert_eq!(race.hedge(&peers, &mut rr), vec!["2.2.2.2", "3.3.3.3"]);
    assert_eq!(rr, 8);
    assert_eq!(race.phase(), AskPhase::Collect);
    race.answered(&mut node, false, Ok(ClientBlockUpstreamResponse::TerminalError(vec![2])));
    assert_eq!(race.phase(), AskPhase::Collect);
    race.answered(&mut node, true, Ok(ClientBlockUpstreamResponse::Frames(vec![3])));
    assert_eq!(race.phase(), AskPhase::Over);
    assert_eq!(race.outcome(), Ok(vec![3]));
    // it refuses: it is unpinned, and a terminal error is the last resort
    let mut race = ClientBlockRace::new(Some(active));
    race.answered(&mut node, true, Ok(ClientBlockUpstreamResponse::PeerOnly));
    assert!(node.active_snapshot().is_none());
    assert_eq!(race.phase(), AskPhase::Hedge);
    race.hedge(&peers, &mut rr);
    race.answered(&mut node, false, Ok(ClientBlockUpstreamResponse::TerminalError(vec![4])));
    race.attempt_lost();
    assert_eq!(race.phase(), AskPhase::Over);
    assert_eq!(race.outcome(), Ok(vec![4]));
}

#[test]
fn request_waits_for_a_session_for_a_while() {
    assert!(waits_for_session(false, 0));
    assert!(waits_for_session(false, 1499));
    assert!(!waits_for_session(false, 1500));
    assert!(!waits_for_session(true, 0));
}

#[test]
fn race_without_active_peer_hedges_at_once() {
    let mut node = NodeState::new(NodeAddr::v4(10, 0, 0, 1), 1);
    let mut rr = 0;
    let mut race = ClientBlockRace::new(None);
    assert_eq!(race.phase(), AskPhase::Hedge);
    assert_eq!(race.hedge(&strings(&["1.1.1.1"]), &mut rr), vec!["1.1.1.1"]);
    race.answered(&mut node, false, Err("refused".to_string()));
    assert_eq!(race.phase(), AskPhase::Over);
    assert_eq!(race.outcome(), Err("refused".to_string()));
    let mut race = ClientBlockRace::new(None);
    assert!(race.hedge(&Vec::new(), &mut rr).is_empty());
    assert_eq!(rr, 8);
    assert_eq!(race.phase(), AskPhase::Over);
    assert_eq!(race.outcome(), Err(String::new()));
}
