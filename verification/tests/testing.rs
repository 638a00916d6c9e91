use std::collections::BTreeMap;

use hypersync::client_blocks::build_client_block_range_request;
use hypersync::protocol::{block_round, block_round_full};
use hypersync::testing::{
    believable_len, bench_payload, count_mismatches, exit_code, flag_value, has_flag, insert_live,
    live_feed_verdict, mock_frame, parse_fakenode_args, parse_target, reads_live_payload,
    reads_rpc_text, rpc_request, rpc_text_passes, run_bench, state_feed_verdict, stored_rounds,
    BootTally, FeedVerdict, LiveTally, Phase,
};
use hypersync::wire::read_frame_len;

fn strings(list: &[&str]) -> Vec<String> {
    list.iter().map(|s| s.to_string()).collect()
}

fn block(round: u32) -> Vec<u8> {
    let mut dec: Vec<u8> = (0..0x100).map(|i| i as u8).collect();
    dec[0x5e] = 0xfc;
    dec[0x5f..0x63].copy_from_slice(&round.to_le_bytes());
    dec
}

#[test]
fn store_keeps_the_highest_rounds() {
    let mut live = BTreeMap::new();
    for round in [5, 3, 9, 7] {
        assert!(insert_live(&mut live, round, round * 10, 3));
    }
    assert!(!insert_live(&mut live, 9, 1, 3));
    assert_eq!(stored_rounds(&live), vec![5, 7, 9]);
    assert_eq!(live.keys().copied().collect::<Vec<u32>>(), vec![5, 7, 9]);
    assert_eq!(live[&9], 90);
    // a round below all others is put in and leaves again
    assert!(insert_live(&mut live, 1, 10, 3));
    assert_eq!(live.keys().copied().collect::<Vec<u32>>(), vec![5, 7, 9]);
    assert!(insert_live(&mut live, 2, 20, 0));
    assert!(live.is_empty());
}

#[test]
fn store_holds_the_highest_rounds_ever_put_in() {
    let mut live = BTreeMap::new();
    let rounds = [40u32, 10, 30, 10, 50, 20, 30, 45, 10, 40];
    for (i, round) in rounds.iter().enumerate() {
        insert_live(&mut live, *round, i, 3);
    }
    assert_eq!(stored_rounds(&live), vec![40, 45, 50]);
    // each with the first frame that came under it
    assert_eq!(live.values().copied().collect::<Vec<usize>>(), vec![0, 7, 4]);
}

#[test]
fn feeds_are_sorted() {
    let payload = bench_payload(&block(1000)).unwrap();
    assert_eq!(state_feed_verdict(1, &payload), FeedVerdict::Live(1000));
    assert_eq!(state_feed_verdict(0, &payload), FeedVerdict::Ignore);
    assert_eq!(state_feed_verdict(1, &[1]), FeedVerdict::Ignore);
    assert_eq!(state_feed_verdict(0, &vec![0; 4_000_001]), FeedVerdict::State);
    assert_eq!(state_feed_verdict(0, &vec![0; 4_000_000]), FeedVerdict::Ignore);
    assert_eq!(live_feed_verdict(1, &payload), FeedVerdict::Live(1000));
    assert_eq!(live_feed_verdict(0, &payload), FeedVerdict::Ignore);
    assert_eq!(live_feed_verdict(1, &vec![0; 4_000_001]), FeedVerdict::Ignore);
}

#[test]
fn mock_frames_hold_their_blocks() {
    let data = block(1_355_000_000);
    let frame = mock_frame(&data).unwrap();
    assert_eq!(frame[4], 1);
    assert_eq!(read_frame_len(&frame, 0) as usize, frame.len() - 5);
    assert_eq!(block_round(&frame[5..]), Some(1_355_000_000));
    assert_eq!(block_round_full(&frame[5..]), Some(1_355_000_000));
    let payload = bench_payload(&data).unwrap();
    assert_eq!(frame[5..], payload[..]);
    assert_eq!(lz4_flex::block::decompress_size_prepended(&payload).unwrap(), data);
    assert_ne!(payload, data);
}

#[test]
fn bench_counts_fresh_rounds_and_bytes() {
    let payloads: Vec<Vec<u8>> = (0..12)
        .map(|i| bench_payload(&block(1_000_000 + i)).unwrap())
        .collect();
    assert_eq!(count_mismatches(&payloads), 0);
    let total: u128 = payloads.iter().map(|p| p.len() as u128).sum();
    // the second turn through the payloads stands for the next twelve rounds
    assert_eq!(run_bench(&payloads, 24), (24, 2 * total));
    assert_eq!(run_bench(&payloads, 0), (0, 0));
    let same = vec![payloads[0].clone(), payloads[0].clone()];
    assert_eq!(run_bench(&same, 2).0, 1);
}

#[test]
fn arguments_of_a_synthetic_node() {
    let args = parse_fakenode_args(&strings(&[
        "1.2.3.4:5001", "--live-secs", "7", "--rpc", "--label", "x",
    ]))
    .unwrap();
    assert_eq!(args.ip, "1.2.3.4");
    assert_eq!(args.port, 5001);
    assert_eq!(args.live_secs, 7);
    assert_eq!(args.label, "x");
    assert!(args.rpc);
    let args = parse_fakenode_args(&strings(&["1.2.3.4", "--live-secs", "x"])).unwrap();
    assert_eq!((args.port, args.live_secs, args.rpc), (4001, 30, false));
    assert_eq!(args.label, "fakenode");
    assert!(parse_fakenode_args(&strings(&["--rpc"])).is_none());
    assert!(parse_fakenode_args(&Vec::new()).is_none());
    assert!(parse_fakenode_args(&strings(&["1.2.3.4:x"])).is_none());
    assert_eq!(parse_target("a:b:7"), Some(("a:b".to_string(), 7)));
    assert_eq!(parse_target("a:65536"), None);
    assert_eq!(flag_value(&strings(&["--x"]), "--x"), None);
    assert_eq!(flag_value(&strings(&["--x", "y"]), "--x"), Some("y".to_string()));
    assert!(!has_flag(&strings(&["--x"]), "--y"));
}

#[test]
fn tallies_pass_at_their_bars() {
    let mut boot = BootTally::new();
    for i in 0..4000u32 {
        assert!(!boot.note_frame(1_000_000), "{i}");
    }
    assert_eq!((boot.byte_count(), boot.frame_count()), (4_000_020_000, 4000));
    assert!(boot.note_frame(400_000_000));
    let mut live = LiveTally::new();
    let payload = bench_payload(&block(1000)).unwrap();
    for _ in 0..9 {
        live.note_frame(Some(&payload));
    }
    assert!(!live.passes());
    live.note_frame(None);
    assert!(live.passes());
    assert_eq!(live.counts(), (10, 1, 1000));
    let mut empty = LiveTally::new();
    for _ in 0..20 {
        empty.note_frame(None);
    }
    assert!(!empty.passes());
    assert!(reads_live_payload(1, 4_194_304));
    assert!(!reads_live_payload(1, 4_194_305));
    assert!(!reads_live_payload(0, 1));
    assert!(believable_len(1_500_000_000));
    assert!(!believable_len(1_500_000_001));
}

#[test]
fn requests_and_answers_of_a_synthetic_node() {
    assert_eq!(rpc_request(0), None);
    assert_eq!(
        rpc_request(5000),
        Some(build_client_block_range_request(4000, 4099))
    );
    assert_eq!(rpc_request(7), Some(build_client_block_range_request(0, 99)));
    assert!(reads_rpc_text(0, 65_536));
    assert!(!reads_rpc_text(0, 65_537));
    assert!(!reads_rpc_text(1, 1));
    assert!(rpc_text_passes(b"anything"));
    assert!(!rpc_text_passes(b"Peer-only request"));
}

#[test]
fn exit_code_is_a_mask() {
    let (passed, failed, undialled) = (Phase::Passed, Phase::Failed, Phase::Undialled);
    assert_eq!(exit_code(passed, passed, None), 0);
    assert_eq!(exit_code(passed, passed, Some(true)), 0);
    assert_eq!(exit_code(failed, passed, None), 1);
    assert_eq!(exit_code(passed, failed, Some(true)), 2);
    assert_eq!(exit_code(failed, failed, Some(false)), 7);
    assert_eq!(exit_code(passed, passed, Some(false)), 4);
    // one phase that could not dial has failed; a gateway that no phase could dial is told apart
    assert_eq!(exit_code(undialled, passed, None), 1);
    assert_eq!(exit_code(failed, undialled, Some(false)), 7);
    assert_eq!(exit_code(undialled, undialled, None), 64);
    assert_eq!(exit_code(undialled, undialled, Some(false)), 64);
}
