use hypersync::frames::{
    complete_bootstrap_at_frame_boundary, complete_frame_count, max_block_round_in_frames,
    max_clustered_round, HeaderFill, HeaderRead, HeaderStep,
};
use hypersync::lz4::{has_fitting_lengths, lz4_first_n};
use hypersync::protocol::{
    block_round, block_round_full, is_plausible_mainnet_round, should_forward_block_round,
    RoundDedup, RoundForwardGate, GREET_FALSE, GREET_TRUE, MIN_COMPLETE_BOOTSTRAP_BYTES,
    MIN_COMPLETE_BOOTSTRAP_FRAMES, MIN_PLAUSIBLE_MAINNET_ROUND, NET_TIP_SLACK_ROUNDS,
};
use hypersync::wire::{contains_bytes, make_frame, read_frame_len, u32_from_be, u32_from_le};

// A decompressed block whose first bytes are unique (ramp), so lz4 emits a leading literal run
// >= 0x63 and block_round's fast path engages; the consensus round sits at offset 0x5e.
fn make_block(round: u32) -> Vec<u8> {
    let mut dec: Vec<u8> = (0..0x100).map(|i| i as u8).collect();
    dec[0x5e] = 0xfc;
    dec[0x5f..0x63].copy_from_slice(&round.to_le_bytes());
    lz4_flex::block::compress_prepend_size(&dec)
}

#[test]
fn block_round_matches_full_decompress() {
    for round in [0u32, 1, 1000, 1_055_000_000, u32::MAX] {
        let payload = make_block(round);
        assert_eq!(block_round_full(&payload), Some(round), "full @ {round}");
        assert_eq!(block_round(&payload), Some(round), "fast @ {round}");
    }
}

#[test]
fn max_block_round_scans_only_small_complete_block_frames() {
    let mut blob = Vec::new();
    blob.extend_from_slice(&make_frame(0, b"control"));
    blob.extend_from_slice(&make_frame(1, &make_block(1_055_000_010)));
    blob.extend_from_slice(&make_frame(1, &make_block(1_055_000_011)));
    blob.extend_from_slice(&make_frame(1, &vec![0u8; 2_000_001]));
    blob.extend_from_slice(&make_frame(1, &make_block(1_055_000_012)));
    blob.extend_from_slice(&make_frame(1, &make_block(1_055_000_013)));
    assert_eq!(max_block_round_in_frames(&blob), Some(1_055_000_013));

    let truncated = vec![0, 0, 0, 10, 1, 1, 2];
    assert_eq!(max_block_round_in_frames(&truncated), None);

    let mut isolated_false_positive = Vec::new();
    isolated_false_positive.extend_from_slice(&make_frame(1, &make_block(2_818_597_137)));
    assert_eq!(max_block_round_in_frames(&isolated_false_positive), None);

    let mut outlier = Vec::new();
    for round in [
        1_055_000_020,
        1_055_000_021,
        1_055_000_022,
        1_055_000_023,
        2_818_597_137,
    ] {
        outlier.extend_from_slice(&make_frame(1, &make_block(round)));
    }
    assert_eq!(max_block_round_in_frames(&outlier), Some(1_055_000_023));
}

#[test]
fn plausible_mainnet_round_rejects_low_and_high_decode_artifacts() {
    let tip = 1_356_000_000;
    // floor applies regardless of tip knowledge
    assert!(!is_plausible_mainnet_round(
        MIN_PLAUSIBLE_MAINNET_ROUND - 1,
        tip
    ));
    assert!(!is_plausible_mainnet_round(770_000_000, 0));
    assert!(is_plausible_mainnet_round(MIN_PLAUSIBLE_MAINNET_ROUND, tip));
    // ceiling is tip-relative: tip + slack passes, beyond it fails
    assert!(is_plausible_mainnet_round(tip + NET_TIP_SLACK_ROUNDS, tip));
    assert!(!is_plausible_mainnet_round(
        tip + NET_TIP_SLACK_ROUNDS + 1,
        tip
    ));
    assert!(!is_plausible_mainnet_round(2_818_597_137, tip));
    // unknown tip disables the ceiling (never blocks legitimate growth), keeps the floor
    assert!(is_plausible_mainnet_round(2_818_597_137, 0));
    assert!(is_plausible_mainnet_round(u32::MAX, 0));
}

#[test]
fn complete_bootstrap_boundary_accepts_only_full_sized_capture() {
    assert!(!complete_bootstrap_at_frame_boundary(
        MIN_COMPLETE_BOOTSTRAP_BYTES - 1,
        MIN_COMPLETE_BOOTSTRAP_FRAMES
    ));
    assert!(complete_bootstrap_at_frame_boundary(
        MIN_COMPLETE_BOOTSTRAP_BYTES,
        MIN_COMPLETE_BOOTSTRAP_FRAMES
    ));
    assert!(!complete_bootstrap_at_frame_boundary(
        MIN_COMPLETE_BOOTSTRAP_BYTES,
        MIN_COMPLETE_BOOTSTRAP_FRAMES - 1
    ));
    assert!(complete_bootstrap_at_frame_boundary(
        MIN_COMPLETE_BOOTSTRAP_BYTES + 1024,
        MIN_COMPLETE_BOOTSTRAP_FRAMES + 1
    ));
}

#[test]
fn complete_frame_count_rejects_partial_frames() {
    let mut blob = Vec::new();
    blob.extend_from_slice(&3u32.to_be_bytes());
    blob.push(1);
    blob.extend_from_slice(&[1, 2, 3]);
    blob.extend_from_slice(&0u32.to_be_bytes());
    blob.push(2);
    assert_eq!(complete_frame_count(&blob), Some(2));

    blob.push(9);
    assert_eq!(complete_frame_count(&blob), None);
}

#[test]
fn active_push_forwards_monotonic_rounds_after_gap() {
    let mut last = 0u32;
    let mut dedup = RoundDedup::new(16_384);

    assert!(!should_forward_block_round(11, false, &mut last, &mut dedup));
    assert!(should_forward_block_round(10, true, &mut last, &mut dedup));
    assert_eq!(last, 10);
    assert!(!should_forward_block_round(9, false, &mut last, &mut dedup));
    assert!(!should_forward_block_round(12, false, &mut last, &mut dedup));
    assert!(should_forward_block_round(11, false, &mut last, &mut dedup));
    assert_eq!(last, 11);
    assert!(!should_forward_block_round(11, true, &mut last, &mut dedup));
    assert!(should_forward_block_round(15, true, &mut last, &mut dedup));
    assert_eq!(last, 15);
    assert!(!should_forward_block_round(12, true, &mut last, &mut dedup));
    assert_eq!(last, 15);
}

#[test]
fn block_round_bounded_decode_path() {
    // A repetitive prefix compresses to a short literal run + back-references, so the bounded
    // decoder, including its overlapping match-copy loop, does the work.
    for round in [1u32, 123_456_789, u32::MAX] {
        let mut dec = vec![0xAAu8; 0x100];
        dec[0x5e] = 0xfc;
        dec[0x5f..0x63].copy_from_slice(&round.to_le_bytes());
        let payload = lz4_flex::block::compress_prepend_size(&dec);
        assert_eq!(block_round_full(&payload), Some(round), "oracle @ {round}");
        assert_eq!(block_round(&payload), Some(round), "bounded @ {round}");
    }
}

#[test]
fn round_dedup_sliding_window_semantics() {
    let mut d = RoundDedup::new(16_384);
    assert!(d.is_new(5), "first sighting is new");
    assert!(!d.is_new(5), "repeat is deduped");
    // same slot (5 + 16384), different round: evicts 5 from the window
    assert!(d.is_new(5 + 16_384), "colliding round is new");
    assert!(
        d.is_new(5),
        "evicted round counts as new again (window semantics)"
    );
}

#[test]
fn window_size_is_the_next_power_of_two() {
    // three slots are asked for, four are there: 1 and 5 share a slot, 1 and 4 do not
    let mut d = RoundDedup::new(3);
    assert!(d.is_new(1));
    assert!(d.is_new(4));
    assert!(!d.is_new(1));
    assert!(d.is_new(5));
    assert!(d.is_new(1));
    // an empty slot holds 0, so the round 0 is not new
    assert!(!RoundDedup::new(0).is_new(0));
}

#[test]
fn window_remembers_within_its_size() {
    let mut d = RoundDedup::new(8);
    assert!(d.is_new(100));
    for r in 101..108 {
        assert!(d.is_new(r));
    }
    assert!(!d.is_new(100));
    assert!(d.is_new(108));
    assert!(d.is_new(100));
}

#[test]
fn gate_passes_rising_rounds_once() {
    let mut gate = RoundForwardGate::with_last_forwarded(16, 20);
    let events = [
        (20, true),
        (19, true),
        (21, false),
        (21, true),
        (23, false),
        (25, true),
        (24, true),
        (26, false),
        (26, false),
    ];
    let passed: Vec<u32> = events
        .iter()
        .filter(|(r, a)| gate.should_forward(*r, *a))
        .map(|(r, _)| *r)
        .collect();
    assert_eq!(passed, vec![21, 25, 26]);
}

#[test]
fn higher_round_passes_whatever_came_before() {
    // a window of one slot holds only the last round
    let mut gate = RoundForwardGate::with_last_forwarded(1, 0);
    for (round, from_active) in [(7, true), (3, true), (8, false), (8, true), (12, false)] {
        gate.should_forward(round, from_active);
    }
    assert!(gate.should_forward(9, false));
    assert!(gate.should_forward(1000, true));
    assert!(gate.should_forward(1001, true));
    assert!(gate.should_forward(u32::MAX, true));
    assert!(!gate.should_forward(u32::MAX, true));
}

#[test]
fn higher_tip_admits_what_a_lower_one_does() {
    let round = 1_200_150_000;
    assert!(is_plausible_mainnet_round(round, 1_200_000_000));
    assert!(is_plausible_mainnet_round(round, 1_300_000_000));
    assert!(is_plausible_mainnet_round(round, 0));
    assert!(is_plausible_mainnet_round(u32::MAX, u32::MAX));
}

#[test]
fn round_is_absent_without_its_marker() {
    let mut dec: Vec<u8> = (0..0x100).map(|i| i as u8).collect();
    dec[0x5e] = 0xfd;
    let payload = lz4_flex::block::compress_prepend_size(&dec);
    assert_eq!(block_round(&payload), None);
    assert_eq!(block_round_full(&payload), None);
    // too short for a round
    let short = lz4_flex::block::compress_prepend_size(&dec[..0x62]);
    assert_eq!(block_round(&short), None);
    assert_eq!(block_round_full(&short), None);
}

#[test]
fn malformed_payload_has_no_round() {
    assert_eq!(block_round(&[]), None);
    assert_eq!(block_round(&[1, 2, 3, 4]), None);
    assert_eq!(block_round_full(&[1, 2, 3]), None);
    // a literal run that does not end
    assert_eq!(block_round(&[0, 0, 0, 0, 0xf0, 255, 255]), None);
    // an offset before the start
    assert_eq!(block_round(&[9, 0, 0, 0, 0x10, 7, 9, 0]), None);
}

#[test]
fn bounded_decoder_copies_matches() {
    // one literal, then a match of nine bytes at offset one
    let block = [0x15u8, 0x61, 1, 0, 0x10, 0x62];
    let mut out = [0u8; 12];
    assert_eq!(lz4_first_n(&block, &mut out), Some(11));
    assert_eq!(&out[..11], b"aaaaaaaaaab");
    assert_eq!(out[11], 0);
    let mut first = [0u8; 4];
    assert_eq!(lz4_first_n(&block, &mut first), Some(4));
    assert_eq!(&first, b"aaaa");
    // an offset of 0, and one before the start
    assert_eq!(lz4_first_n(&[0x10, 0x61, 0, 0], &mut out), None);
    assert_eq!(lz4_first_n(&[0x10, 0x61, 2, 0], &mut out), None);
    // the input ends inside the offset
    assert_eq!(lz4_first_n(&[0x10, 0x61, 1], &mut out), None);
    assert_eq!(lz4_first_n(&[], &mut out), Some(0));
}

#[test]
fn bounded_decoder_is_a_prefix_of_full_decompression() {
    let mut data = Vec::new();
    for i in 0..5000u32 {
        data.extend_from_slice(&(i % 97).to_le_bytes());
        data.push((i % 7) as u8);
    }
    let payload = lz4_flex::block::compress_prepend_size(&data);
    for n in [1usize, 50, 99, 1000, 4096] {
        let mut out = vec![0u8; n];
        assert_eq!(lz4_first_n(&payload[4..], &mut out), Some(n));
        assert_eq!(out, data[..n]);
    }
}

// A payload made of one literal run, without a match.
fn literal_payload(data: &[u8]) -> Vec<u8> {
    let mut payload = (data.len() as u32).to_le_bytes().to_vec();
    payload.push(0xf0);
    let mut rest = data.len() - 15;
    while rest >= 255 {
        payload.push(255);
        rest -= 255;
    }
    payload.push(rest as u8);
    payload.extend_from_slice(data);
    payload
}

#[test]
fn long_run_of_literals_keeps_its_round() {
    let mut data = vec![255u8; 17_000_000];
    data[0x5e] = 0xfc;
    data[0x5f..0x63].copy_from_slice(&1_055_000_010u32.to_le_bytes());
    let payload = literal_payload(&data);
    assert!(has_fitting_lengths(&payload[4..]));
    assert_eq!(block_round(&payload), Some(1_055_000_010));
    assert_eq!(block_round_full(&payload), Some(1_055_000_010));
}

#[test]
fn lengths_beyond_32_bits_are_noticed() {
    // a length that is read to the end of the block
    let mut block = vec![0xf0u8];
    block.resize(1 + 16_843_009, 255);
    assert!(has_fitting_lengths(&block));
    block.push(0);
    assert!(has_fitting_lengths(&block));
    block[16_843_010] = 1;
    assert!(!has_fitting_lengths(&block));
    let mut payload = vec![255u8; 4];
    payload.extend_from_slice(&block);
    assert_eq!(block_round_full(&payload), None);
    assert_eq!(block_round(&payload), None);
    // the same bytes behind a shorter length are no length
    block[1] = 0;
    assert!(has_fitting_lengths(&block));
    // a match length counts as well, but not behind an offset of 0
    block[0] = 0x1f;
    block[1] = 7;
    block[2] = 1;
    block[3] = 0;
    block.resize(4 + 16_843_009, 255);
    for b in block[4..].iter_mut() {
        *b = 255;
    }
    assert!(has_fitting_lengths(&block));
    block.push(255);
    assert!(!has_fitting_lengths(&block));
    block[2] = 0;
    assert!(has_fitting_lengths(&block));
}

#[test]
fn full_round_needs_a_whole_payload() {
    // 120 bytes of 0xfc: one literal, then a match of 119 at offset 1
    let block = [0x1f, 0xfc, 1, 0, 100];
    let whole = |size: u32, tail: &[u8]| {
        let mut payload = size.to_le_bytes().to_vec();
        payload.extend_from_slice(&block);
        payload.extend_from_slice(tail);
        payload
    };
    // a block must end in literals, if only in none
    assert_eq!(block_round_full(&whole(120, &[])), None);
    assert_eq!(block_round_full(&whole(120, &[0])), Some(0xfcfc_fcfc));
    assert_eq!(block_round_full(&whole(121, &[0x10, 0xfc])), Some(0xfcfc_fcfc));
    // more room than it takes is fine, less is not
    assert_eq!(block_round_full(&whole(4000, &[0])), Some(0xfcfc_fcfc));
    assert_eq!(block_round_full(&whole(119, &[0])), None);
    // the head of the block has the round either way
    assert_eq!(block_round(&whole(120, &[])), Some(0xfcfc_fcfc));
    assert_eq!(block_round(&whole(119, &[0])), Some(0xfcfc_fcfc));
    assert_eq!(block_round_full(&[]), None);
    assert_eq!(block_round_full(&[1, 0, 0, 0]), None);
}

#[test]
fn smaller_buffer_holds_the_start_of_a_larger_one() {
    let data: Vec<u8> = (0..400u32).map(|i| (i * i % 251) as u8).collect();
    let payload = lz4_flex::block::compress_prepend_size(&data);
    let mut large = [0u8; 300];
    assert_eq!(lz4_first_n(&payload[4..], &mut large), Some(300));
    for n in [0usize, 1, 17, 299] {
        let mut small = vec![0u8; n];
        assert_eq!(lz4_first_n(&payload[4..], &mut small), Some(n));
        assert_eq!(small, large[..n]);
    }
    // a block that breaks off later than the smaller buffer needs
    let cut = [0x30, 1, 2, 3, 0, 0];
    let (mut small, mut large) = ([0u8; 2], [0u8; 9]);
    assert_eq!(lz4_first_n(&cut, &mut small), Some(2));
    assert_eq!(lz4_first_n(&cut, &mut large), None);
    assert_eq!(small, large[..2]);
}

#[test]
fn clusters_are_chosen_by_size_then_height() {
    let mut rounds = vec![50, 10, 11, 52, 12, 51];
    assert_eq!(max_clustered_round(&mut rounds, 3, 1), Some(52));
    assert_eq!(rounds, vec![10, 11, 12, 50, 51, 52]);
    let mut rounds = vec![9, 100, 10, 11, 101];
    assert_eq!(max_clustered_round(&mut rounds, 2, 1), Some(11));
    assert_eq!(max_clustered_round(&mut rounds, 4, 1), None);
    // too few, or none asked for: the rounds are left as they are
    let mut few = vec![3, 1];
    assert_eq!(max_clustered_round(&mut few, 3, 9), None);
    assert_eq!(max_clustered_round(&mut few, 0, 9), None);
    assert_eq!(few, vec![3, 1]);
    let mut same = vec![7, 7];
    assert_eq!(max_clustered_round(&mut same, 2, 0), Some(7));
}

#[test]
fn frames_are_counted_and_bounded() {
    let mut blob = make_frame(1, b"abc");
    blob.extend_from_slice(&make_frame(0, b""));
    assert_eq!(complete_frame_count(&blob), Some(2));
    assert_eq!(complete_frame_count(&[]), Some(0));
    assert_eq!(complete_frame_count(&blob[..7]), None);
    // a length beyond belief
    assert_eq!(complete_frame_count(&[0x60, 0, 0, 0, 1]), None);
}

#[test]
fn header_comes_in_pieces() {
    let mut fill = HeaderFill::new();
    assert_eq!(fill.missing(), 5);
    assert_eq!(fill.deliver(&[0, 0]), HeaderStep::More);
    assert_eq!(fill.time_out(), HeaderRead::TimedOut(2));
    assert_eq!(fill.deliver(&[1, 2]), HeaderStep::More);
    assert_eq!(fill.missing(), 1);
    assert_eq!(fill.deliver(&[9]), HeaderStep::Complete);
    assert_eq!(fill.time_out(), HeaderRead::Complete);
    assert_eq!(fill.payload_len(), 258);
    assert_eq!(fill.typ(), 9);
    assert_eq!(HeaderFill::new().deliver(&[]), HeaderStep::Eof);
}

#[test]
fn integers_on_the_wire() {
    assert_eq!(u32_from_be(1, 2, 3, 4), 0x0102_0304);
    assert_eq!(u32_from_le(1, 2, 3, 4), 0x0403_0201);
    let frame = make_frame(1, &[7; 300]);
    assert_eq!(frame[..5], [0, 0, 1, 44, 1]);
    assert_eq!(read_frame_len(&frame, 0), 300);
    assert!(contains_bytes(b"hello", b"ll"));
    assert!(contains_bytes(b"", b""));
    assert!(!contains_bytes(b"hello", b"lll"));
    assert_eq!(GREET_FALSE, [0, 0, 0, 3, 0, 0, 0, 0]);
    assert_eq!(GREET_TRUE, [0, 0, 0, 3, 0, 1, 0, 0]);
}
