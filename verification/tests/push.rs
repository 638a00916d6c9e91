use hypersync::protocol::{RoundDedup, RoundForwardGate};
use hypersync::push::{
    endpoint, host_of, hosts_of, judge_live_frame, merge_frame, merge_header, pick_next,
    process_live_frame, pump_header, shadow_targets, upstream_target, FrameError, FrameVerdict,
    HeaderVerdict, ProxyState, PushEvent, PushExit, PushPhase, PushSession, ENABLE_SHADOW_PUSH,
};
use hypersync::wire::make_frame;

const ROUND: u32 = 1_355_000_000;

fn strings(list: &[&str]) -> Vec<String> {
    list.iter().map(|s| s.to_string()).collect()
}

fn block_payload(round: u32) -> Vec<u8> {
    let mut dec: Vec<u8> = (0..0x100).map(|i| i as u8).collect();
    dec[0x5e] = 0xfc;
    dec[0x5f..0x63].copy_from_slice(&round.to_le_bytes());
    lz4_flex::block::compress_prepend_size(&dec)
}

// An active-peer death must tear the whole session down (the node sees the end of the stream and
// reconnects) and never hot-swap to another pool peer, whose stream would start at its own tip and
// hand the node a block with an unseen parent round.
#[test]
fn push_active_death_tears_session_down() {
    let hosts = strings(&["127.0.0.1", "127.0.0.1"]);
    let mut session = PushSession::new(None, 0);
    // greeting frame (len=1, type=0), then the peer dies
    assert_eq!(session.phase(), PushPhase::ReadHeader);
    session.step(PushEvent::Read(vec![0, 0, 0, 1, 0]));
    assert_eq!(session.phase(), PushPhase::ReadPayload(1));
    session.step(PushEvent::Read(vec![7]));
    assert_eq!(session.phase(), PushPhase::SendGreeting);
    assert_eq!(*session.greeting(), vec![0, 0, 0, 1, 0, 7]);
    session.step(PushEvent::Done);
    assert_eq!(session.phase(), PushPhase::Relay);
    session.step(PushEvent::Ended(PushExit::ActiveError("early eof".to_string())));
    assert_eq!(session.phase(), PushPhase::Over, "nothing more goes to the node");
    let reason = session.exit_reason();
    assert!(
        reason.starts_with("active stream error"),
        "unexpected exit reason: {reason}"
    );
    // nothing brings the session back, and no standby peer is ever a target
    session.step(PushEvent::Done);
    assert_eq!(session.phase(), PushPhase::Over);
    assert_eq!(session.exit_reason(), "active stream error: early eof");
    assert!(shadow_targets(&hosts, 0, 4001, ENABLE_SHADOW_PUSH).is_empty());
}

#[test]
fn session_greets_and_takes_frames_that_were_read_ahead() {
    let mut session = PushSession::new(Some(vec![0, 0, 0, 1, 0, 3]), 2);
    assert_eq!(session.phase(), PushPhase::SendGreeting);
    session.step(PushEvent::Done);
    assert_eq!(session.phase(), PushPhase::Prefetched(0));
    session.step(PushEvent::Done);
    assert_eq!(session.phase(), PushPhase::Prefetched(1));
    session.step(PushEvent::Done);
    assert_eq!(session.phase(), PushPhase::Relay);
    session.step(PushEvent::Ended(PushExit::OutboundEnded));
    assert_eq!(session.exit_reason(), "node outbound ended");
}

#[test]
fn session_ends_with_its_reason() {
    let fail = |session: &mut PushSession| {
        session.step(PushEvent::Failed("x".to_string()));
        assert_eq!(session.phase(), PushPhase::Over);
        session.exit_reason()
    };
    let mut s = PushSession::new(None, 0);
    assert_eq!(fail(&mut s), "active greeting header read failed: x");
    let mut s = PushSession::new(None, 0);
    s.step(PushEvent::Read(vec![0, 0, 3, 0xe9, 0]));
    assert_eq!(s.exit_reason(), "active greeting oversized len=1001");
    let mut s = PushSession::new(None, 0);
    s.step(PushEvent::Read(vec![0, 0, 3, 0xe8, 0]));
    assert_eq!(s.phase(), PushPhase::ReadPayload(1000));
    assert_eq!(fail(&mut s), "active greeting payload read failed: x");
    let mut s = PushSession::new(Some(vec![1]), 1);
    assert_eq!(fail(&mut s), "node greeting write failed: x");
    let mut s = PushSession::new(Some(vec![1]), 1);
    s.step(PushEvent::Done);
    assert_eq!(fail(&mut s), "prefetched frame processing failed: x");
    let e = || "x".to_string();
    for (exit, text) in [
        (PushExit::OutboundWrite(e()), "node outbound write failed: x"),
        (PushExit::OutboundTimeout, "node outbound write timeout"),
        (PushExit::OutboundJoin(e()), "node outbound task join error: x"),
        (PushExit::ActiveEnded, "active stream ended"),
        (PushExit::ActiveJoin(e()), "active task join error: x"),
        (PushExit::NodeWrite(e()), "node write failed: x"),
    ] {
        assert_eq!(exit.reason(), text);
    }
}

#[test]
fn addresses_of_upstreams() {
    assert_eq!(endpoint("1.2.3.4", 4001), "1.2.3.4:4001");
    assert_eq!(upstream_target("1.2.3.4"), "1.2.3.4:4001");
    assert_eq!(upstream_target("1.2.3.4:6001"), "1.2.3.4:6001");
    assert_eq!(host_of("1.2.3.4:6001"), "1.2.3.4");
    assert_eq!(host_of("1.2.3.4"), "1.2.3.4");
    assert_eq!(host_of("a:b:c"), "a:b");
    assert_eq!(
        hosts_of(&strings(&["1.1.1.1:4001", "2.2.2.2"])),
        vec!["1.1.1.1", "2.2.2.2"]
    );
    assert_eq!(
        shadow_targets(&strings(&["1.1.1.1", "2.2.2.2", "3.3.3.3"]), 1, 4001, true),
        vec!["1.1.1.1:4001", "3.3.3.3:4001"]
    );
}

#[test]
fn merged_round_passes_once() {
    let mut dedup = RoundDedup::new(16_384);
    assert!(merge_frame(&mut dedup, 1, &block_payload(ROUND)));
    assert!(!merge_frame(&mut dedup, 1, &block_payload(ROUND)));
    assert!(merge_frame(&mut dedup, 1, &block_payload(ROUND + 1)));
    // what has no round passes, what is no block does not
    assert!(merge_frame(&mut dedup, 1, &[1, 2, 3, 4]));
    assert!(!merge_frame(&mut dedup, 0, &block_payload(ROUND + 2)));
    assert_eq!(merge_header(50_000_000), HeaderVerdict::Read);
    assert_eq!(merge_header(50_000_001), HeaderVerdict::Drain);
    assert_eq!(pump_header(60_000_000, true), HeaderVerdict::Read);
    assert_eq!(pump_header(60_000_001, true), HeaderVerdict::Refuse);
    assert_eq!(pump_header(60_000_001, false), HeaderVerdict::Drain);
}

#[test]
fn next_upstream_is_the_first_healthy_one() {
    assert_eq!(pick_next(0, &[0, 0, 0], 5, 3), Some(1));
    assert_eq!(pick_next(0, &[0, 9, 0], 5, 3), Some(2));
    assert_eq!(pick_next(2, &[9, 5, 0], 5, 3), Some(1));
    assert_eq!(pick_next(0, &[0, 9, 9], 5, 3), None);
    assert_eq!(pick_next(0, &[0], 5, 1), None);
    assert_eq!(pick_next(0, &[], 5, 0), None);
}

#[test]
fn proxy_leaves_a_stalled_upstream() {
    assert!(ProxyState::new(&Vec::new()).is_none());
    let mut p = ProxyState::new(&strings(&["1.1.1.1:4001", "2.2.2.2"])).unwrap();
    assert_eq!(p.len(), 2);
    assert_eq!(p.host(0), "1.1.1.1");
    let (active, generation) = p.snapshot();
    assert_eq!(active, 0);
    // no data yet: no stall
    assert_eq!(p.tick(1_000_000), None);
    p.note_data(1000);
    assert_eq!(p.tick(21_000), None);
    assert_eq!((p.silent_ms(21_000), p.silent_ms(5)), (20_000, 0));
    assert!(p.is_current(generation));
    assert_eq!(p.tick(21_001), Some(1));
    assert_eq!(p.snapshot().0, 1);
    assert!(!p.is_current(generation));
    // the first is left alone for thirty seconds
    let later = p.snapshot().1;
    assert_eq!(p.tick(41_002), None);
    assert!(p.is_current(later));
    assert_eq!(p.tick(61_003), Some(0));
}

#[test]
fn proxy_leaves_an_upstream_that_cannot_be_dialed() {
    let mut p = ProxyState::new(&strings(&["1.1.1.1", "2.2.2.2"])).unwrap();
    assert_eq!(p.dial_failed(0, 100), Some(1));
    assert_eq!(p.snapshot().0, 1);
    assert_eq!(p.dial_failed(1, 200), None);
    assert_eq!(p.snapshot().0, 1);
    assert_eq!(p.dial_failed(1, 30_100), Some(0));
}

#[test]
fn node_sees_rounds_rise_above_the_floor() {
    let mut gate = RoundForwardGate::with_last_forwarded(16_384, 0);
    let mut judge =
        |round: u32, active: bool| judge_live_frame(&mut gate, 1, &block_payload(round), ROUND, 0, active);
    assert_eq!(judge(ROUND, true), FrameVerdict::Drop);
    assert_eq!(judge(ROUND + 5, true), FrameVerdict::Forward);
    assert_eq!(judge(ROUND + 5, true), FrameVerdict::Drop);
    assert_eq!(judge(ROUND + 4, true), FrameVerdict::Drop);
    assert_eq!(judge(ROUND + 6, false), FrameVerdict::Forward);
    assert_eq!(judge(ROUND + 9, false), FrameVerdict::Drop);
    assert_eq!(judge(ROUND + 9, true), FrameVerdict::Forward);
    assert_eq!(judge(5, true), FrameVerdict::Implausible(5));
    assert_eq!(judge(5, false), FrameVerdict::Drop);
}

#[test]
fn control_frames_pass_from_the_active_peer_only() {
    let mut gate = RoundForwardGate::with_last_forwarded(16, 0);
    for active in [true, false] {
        let want = if active { FrameVerdict::Forward } else { FrameVerdict::Drop };
        assert_eq!(judge_live_frame(&mut gate, 0, &[3], 0, 0, active), want);
        assert_eq!(judge_live_frame(&mut gate, 1, &[3], 0, 0, active), want);
    }
    // a tip makes rounds far above it implausible
    let far = block_payload(ROUND + 200_001);
    assert_eq!(
        judge_live_frame(&mut gate, 1, &far, 0, ROUND, true),
        FrameVerdict::Implausible(ROUND + 200_001)
    );
}

#[test]
fn whole_frames_are_judged_or_refused() {
    let mut gate = RoundForwardGate::with_last_forwarded(16_384, 0);
    let frame = make_frame(1, &block_payload(ROUND));
    assert_eq!(process_live_frame(&frame, &mut gate, 0, 0, true), Ok(true));
    assert_eq!(process_live_frame(&frame, &mut gate, 0, 0, true), Ok(false));
    assert_eq!(
        process_live_frame(&frame[..4], &mut gate, 0, 0, true),
        Err(FrameError::Short)
    );
    assert_eq!(
        process_live_frame(&frame[..9], &mut gate, 0, 0, true),
        Err(FrameError::MisSized)
    );
    let low = make_frame(1, &block_payload(9));
    assert_eq!(
        process_live_frame(&low, &mut gate, 0, 0, true),
        Err(FrameError::Implausible(9))
    );
    assert_eq!(process_live_frame(&low, &mut gate, 0, 0, false), Ok(false));
    assert_eq!(FrameError::Short.message(), "short prefetched frame");
    assert_eq!(FrameError::MisSized.message(), "mis-sized prefetched frame");
    assert_eq!(
        FrameError::Implausible(9).message(),
        "implausible active block round 9"
    );
}
