use hypersync::cache::{
    bootstrap_cache_path, cache_floor, check_cache_file, decide_replay, fresh_cache_retry_delay_secs,
    load_bootstrap_cache, plan_refresh, should_replay_cache, CacheError, CacheReplay, RefreshLoop,
    RefreshStep, ReplayDecision, ReplayPhase, REPLAY_CHUNK,
};
use hypersync::capture::{
    is_slower, BootstrapCapture, CaptureError, CaptureEvent, CapturePhase, CaptureRace, CaptureTap,
    FrameRow, RateWatch, TapEvent, TapPhase,
};
use hypersync::wire::make_frame;

fn strings(list: &[&str]) -> Vec<String> {
    list.iter().map(|s| s.to_string()).collect()
}

fn block_payload(round: u32) -> Vec<u8> {
    let mut dec: Vec<u8> = (0..0x100).map(|i| i as u8).collect();
    dec[0x5e] = 0xfc;
    dec[0x5f..0x63].copy_from_slice(&round.to_le_bytes());
    lz4_flex::block::compress_prepend_size(&dec)
}

#[test]
fn row_is_what_came_in() {
    let frames = [make_frame(1, b"abcdef"), make_frame(0, b"")];
    let mut row = FrameRow::new(0);
    for frame in &frames {
        row.begin(&frame[..5]);
        for byte in &frame[5..] {
            assert!(row.missing_len() > 0);
            row.take(&[*byte]);
        }
        assert_eq!(row.missing_len(), 0);
    }
    assert_eq!(row.frame_count(), 2);
    assert_eq!(row.done_len(), 16);
    assert!(!row.is_complete());
    assert_eq!(row.into_blob(), frames.concat());
}

#[test]
fn rates_are_compared_exactly() {
    assert!(is_slower(399_999, 1_000_000_000, 400_000));
    assert!(!is_slower(400_000, 1_000_000_000, 400_000));
    assert!(is_slower(0, 1, 1));
    assert!(!is_slower(u64::MAX, 1, u64::MAX));
    assert!(!is_slower(0, 0, 5));
}

#[test]
fn slow_windows_are_counted() {
    let total = 1_500_000_001;
    let mut watch = RateWatch { window_ns: 0, window_bytes: 0, slow: 0 };
    let mut now = 0;
    for count in 1..=8 {
        now += 1_500_000_000;
        assert!(watch.note_frame(599_999, total, now));
        assert_eq!(watch.slow, count);
    }
    // a fast window begins the count again, and so does one before the bulk is there
    now += 1_500_000_000;
    assert!(!watch.note_frame(600_000, total, now));
    assert_eq!(watch.slow, 0);
    now += 1_500_000_000;
    assert!(!watch.note_frame(1, total - 1, now));
    // before the window is over nothing is decided
    assert!(!watch.note_frame(1, total, now + 1_499_999_999));
    assert_eq!((watch.window_ns, watch.window_bytes), (now, 1));
}

#[test]
fn capture_reads_large_and_small_frames() {
    let mut c = BootstrapCapture::new(0);
    assert!(matches!(c.phase(), CapturePhase::Header));
    let len: u32 = 50_000_001;
    let mut header = len.to_be_bytes().to_vec();
    header.push(0);
    c.step(CaptureEvent::Read(header), 0);
    assert!(matches!(c.phase(), CapturePhase::Piece { len: 50_000_001, begun_ns: 0 }));
    assert_eq!(c.missing(), 50_000_001);
    c.step(CaptureEvent::Read(vec![7; 30_000_000]), 1_000_000_000);
    assert_eq!(c.missing(), 20_000_001);
    c.step(CaptureEvent::Read(vec![7; 20_000_001]), 2_000_000_000);
    assert!(matches!(c.phase(), CapturePhase::Header));
    assert_eq!((c.bytes(), c.frames()), (50_000_006, 1));
    c.step(CaptureEvent::Read(vec![0, 0, 0, 2, 1]), 2_000_000_000);
    assert!(matches!(c.phase(), CapturePhase::Whole { len: 2 }));
    c.step(CaptureEvent::Read(vec![1, 2]), 2_000_000_000);
    assert_eq!((c.bytes(), c.frames()), (50_000_013, 2));
    // the peer goes away too early
    c.step(CaptureEvent::Error("gone".to_string()), 2_000_000_000);
    match c.phase() {
        CapturePhase::Failed(e) => assert_eq!(e.reason(), "read header failed: gone"),
        _ => panic!("still going"),
    }
    assert!(c.into_blob().is_none());
}

fn failure(events: Vec<(CaptureEvent, u64)>) -> String {
    let mut c = BootstrapCapture::new(0);
    for (event, now) in events {
        c.step(event, now);
    }
    match c.phase() {
        CapturePhase::Failed(e) => e.reason(),
        _ => panic!("still going"),
    }
}

#[test]
fn capture_fails_with_its_reason() {
    let header = |len: u32, typ: u8| {
        let mut h = len.to_be_bytes().to_vec();
        h.push(typ);
        CaptureEvent::Read(h)
    };
    assert_eq!(failure(vec![(CaptureEvent::Timeout, 0)]), "read header timeout");
    assert_eq!(
        failure(vec![(header(4_000_000, 1), 0)]),
        "not serving abci_state first_len=4000000 type=1"
    );
    assert_eq!(
        failure(vec![(header(1_500_000_001, 0), 0)]),
        "frame too large len=1500000001"
    );
    assert_eq!(
        failure(vec![(header(4_000_001, 0), 0), (CaptureEvent::Timeout, 0)]),
        "small frame read failed len=4000001"
    );
    assert_eq!(
        failure(vec![
            (header(60_000_000, 0), 0),
            (CaptureEvent::Read(vec![0; 10]), 4_000_000_000),
            (CaptureEvent::Error("x".to_string()), 5_000_000_000),
        ]),
        "large frame read failed len=60000000 off=10"
    );
    assert_eq!(
        failure(vec![
            (header(60_000_000, 0), 0),
            (CaptureEvent::Read(vec![0; 10]), 4_000_000_001),
        ]),
        "state-server too slow early len=60000000 off=10"
    );
    assert_eq!(CaptureError::TooLarge.reason(), "capture too large");
    assert_eq!(
        CaptureError::SlowAfterState.reason(),
        "state-server too slow after abci_state"
    );
    assert_eq!(
        CaptureError::EndedEarly.reason(),
        "bulk ended before minimum usable size"
    );
}

#[test]
fn tap_follows_frames_and_ends() {
    let mut tap = CaptureTap::new(0);
    assert!(tap.is_capturing());
    assert_eq!(tap.phase(), TapPhase::Header { timed: false });
    assert!(tap.step(TapEvent::Header(vec![0, 0, 0, 3, 1]), 0).is_none());
    assert_eq!(tap.phase(), TapPhase::Payload { remaining: 3 });
    assert!(tap.step(TapEvent::Payload(vec![1, 2]), 0).is_none());
    assert_eq!(tap.phase(), TapPhase::Payload { remaining: 1 });
    assert!(tap.step(TapEvent::Payload(vec![3]), 0).is_none());
    assert_eq!(tap.phase(), TapPhase::Header { timed: false });
    assert!(tap.step(TapEvent::Header(vec![0, 0, 0, 0, 0]), 0).is_none());
    assert_eq!(tap.phase(), TapPhase::Header { timed: false });
    assert!(tap.step(TapEvent::Lost, 0).is_none());
    assert_eq!(tap.phase(), TapPhase::Over);
    assert!(tap.step(TapEvent::Lost, 0).is_none());
}

#[test]
fn tap_gives_up_on_what_it_cannot_believe() {
    let mut tap = CaptureTap::new(0);
    tap.step(TapEvent::Header(vec![0x60, 0, 0, 0, 1]), 0);
    assert_eq!(tap.phase(), TapPhase::Over);
    // more payload than the frame has
    let mut tap = CaptureTap::new(0);
    tap.step(TapEvent::Header(vec![0, 0, 0, 1, 1]), 0);
    tap.step(TapEvent::Payload(vec![1, 2]), 0);
    assert_eq!(tap.phase(), TapPhase::Over);
}

#[test]
fn race_replaces_and_hedges() {
    assert!(CaptureRace::new(0, 2).is_none());
    let mut race = CaptureRace::new(4, 2).unwrap();
    assert!(race.may_hedge());
    assert_eq!(race.hedge(), Some(1));
    assert!(!race.may_hedge());
    assert_eq!(race.hedge(), None);
    assert_eq!(race.attempt_failed(), Some(2));
    assert_eq!(race.attempt_failed(), Some(3));
    assert_eq!(race.attempt_failed(), None);
    assert!(!race.is_lost());
    assert_eq!(race.attempt_failed(), None);
    assert!(race.is_lost());
}

#[test]
fn cache_file_is_refused_with_its_reason() {
    let big = 4_400_000_000;
    assert_eq!(check_cache_file(1000, 900, big), Ok(()));
    assert_eq!(check_cache_file(1000, 0, big), Err(CacheError::TooOld(1000)));
    assert_eq!(check_cache_file(1000, 519, big), Err(CacheError::TooOld(481)));
    assert_eq!(check_cache_file(1000, 900, big - 1), Err(CacheError::TooSmall(big - 1)));
    let blob = make_frame(1, b"abc");
    assert_eq!(load_bootstrap_cache(&blob), Err(CacheError::Incomplete(8, 1)));
    assert_eq!(load_bootstrap_cache(&blob[..7]), Err(CacheError::IncompleteFrame(7)));
    for (e, text) in [
        (CacheError::TooOld(481), "disk cache too old: 481s"),
        (CacheError::TooSmall(7), "disk cache too small: 7 bytes"),
        (
            CacheError::IncompleteFrame(7),
            "disk cache has incomplete frame boundary: 7 bytes",
        ),
        (CacheError::Incomplete(8, 1), "disk cache incomplete: 8 bytes, 1 frames"),
    ] {
        assert_eq!(e.message(), text);
    }
}

#[test]
fn cache_path_follows_setting_then_peer_file() {
    assert_eq!(bootstrap_cache_path(Some("/x/y"), "/data/peers.json", true), "/x/y");
    assert_eq!(
        bootstrap_cache_path(None, "/data/peers.json", true),
        "/data/bootstrap.cache"
    );
    assert_eq!(
        bootstrap_cache_path(None, "/data/peers.json", false),
        "/tmp/hypersync-bootstrap.cache"
    );
    assert_eq!(bootstrap_cache_path(None, "peers.json", true), "bootstrap.cache");
}

#[test]
fn replay_is_not_repeated_at_once() {
    let cached_at = 1_000_000;
    for now in cached_at..cached_at + 30 {
        assert!(!should_replay_cache(now, cached_at, false, cached_at));
        assert_eq!(
            decide_replay(true, now, cached_at, false, cached_at),
            ReplayDecision::Cooldown(now - cached_at)
        );
    }
    assert!(should_replay_cache(cached_at + 30, cached_at, false, cached_at));
    assert_eq!(
        decide_replay(false, cached_at, 0, true, cached_at),
        ReplayDecision::NoCache
    );
}

#[test]
fn retry_ends_before_the_margin() {
    for age in 0..390 {
        let delay = fresh_cache_retry_delay_secs(1_000_000 + age, 1_000_000);
        assert!(delay >= 1 && age + delay <= 390);
    }
    assert_eq!(fresh_cache_retry_delay_secs(0, 1_000_000), 30);
    assert_eq!(
        plan_refresh(true, 1_000_390, 1_000_000, 0),
        RefreshStep::Capture { fresh: true }
    );
    assert_eq!(
        plan_refresh(true, 1_000_300, 1_000_000, 4),
        RefreshStep::Capture { fresh: true }
    );
}

#[test]
fn loop_looks_again_before_the_margin() {
    let cached_at = 1_000_000;
    for live in [0, 9] {
        for age in 0..=480 {
            match plan_refresh(true, cached_at + age, cached_at, live) {
                RefreshStep::Young(delay) | RefreshStep::FewLive(delay) => {
                    assert!((1..=30).contains(&delay) && age + delay <= 390)
                }
                RefreshStep::Capture { fresh } => assert!(fresh && age >= 240),
            }
        }
    }
}

#[test]
fn refresh_rounds_rotate_and_back_off() {
    let names: Vec<String> = (0..100).map(|i| format!("10.0.0.{i}")).collect();
    let mut rounds = RefreshLoop::new(1);
    // the first cold round starts with the best peers
    let window = rounds.next_window(&names, false);
    assert_eq!(window, names[..64]);
    assert_eq!(rounds.finish_round(false, false, 0, 0), 60);
    // after a failure it moves on: the cycle is 2, so it starts at 128 mod 100
    let window = rounds.next_window(&names, false);
    assert_eq!(window[0], "10.0.0.28");
    assert_eq!(window.len(), 64);
    assert_eq!(rounds.finish_round(false, false, 0, 0), 120);
    assert_eq!(rounds.finish_round(false, false, 0, 0), 300);
    assert_eq!(rounds.finish_round(false, false, 0, 0), 600);
    assert_eq!(rounds.finish_round(false, false, 0, 0), 600);
    assert_eq!(rounds.finish_round(false, true, 1_000_389, 1_000_000), 1);
    assert_eq!(rounds.finish_round(true, false, 0, 0), 240);
    assert_eq!(rounds.finish_round(false, false, 0, 0), 60);
    assert_eq!(rounds.next_window(&names, true).len(), 24);
    assert_eq!(rounds.next_window(&strings(&["a"]), true), vec!["a"]);
    assert!(rounds.next_window(&Vec::new(), true).is_empty());
}

#[test]
fn replay_writes_all_of_the_cache() {
    let len = 2 * REPLAY_CHUNK + 5;
    let mut replay = CacheReplay::new(len);
    let mut at = 0;
    while let ReplayPhase::Write { from, to } = replay.phase() {
        assert_eq!(from, at);
        assert!(to > from && to - from <= REPLAY_CHUNK);
        at = to;
        replay.step(true);
    }
    assert_eq!(at, len);
    assert_eq!(replay.phase(), ReplayPhase::Written);
    let mut broken = CacheReplay::new(len);
    broken.step(false);
    assert_eq!(broken.phase(), ReplayPhase::Failed);
    assert_eq!(CacheReplay::new(0).phase(), ReplayPhase::Written);
}

#[test]
fn cache_floor_is_the_clustered_round() {
    let mut blob = Vec::new();
    for round in 1_055_000_020..1_055_000_024 {
        blob.extend_from_slice(&make_frame(1, &block_payload(round)));
    }
    assert_eq!(cache_floor(&blob), 1_055_000_023);
    assert_eq!(cache_floor(&blob[..blob.len() / 2]), 0);
    assert_eq!(cache_floor(&[]), 0);
}
