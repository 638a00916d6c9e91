use hypersync::lists::{extend_new, push_new, remove_text, step_round};
use hypersync::order::stable_order;
use hypersync::peerd::{
    clustered_probe_tip, empty_pool_sleep_secs, env_u64, env_usize, previous_peer_pool_is_trusted,
    rank_live, render_peers_file, should_keep_previous_peer_pool, FailCounts, PeerDaemon,
    MIN_LIVE_SERVERS_TO_OVERWRITE,
};
use hypersync::peers::{
    extract_ipv4, extract_round_tip, is_ipv4, is_routable, path_beside, peer_candidates_path,
    read_node_peers, split_csv,
};
use hypersync::probe::{
    probe_is_live, LiveProbe, PeerProbe, ProbeEvent, ProbePhase, ProbeStatus,
};
use hypersync::text::{
    contains_text, decimal_text, join_list, lines, parse_text, starts_with_text,
};
use hypersync::wire::make_frame;

fn strings(list: &[&str]) -> Vec<String> {
    list.iter().map(|s| s.to_string()).collect()
}

fn block_payload(round: u32) -> Vec<u8> {
    let mut dec: Vec<u8> = (0..0x100).map(|i| i as u8).collect();
    dec[0x5e] = 0xfc;
    dec[0x5f..0x63].copy_from_slice(&round.to_le_bytes());
    lz4_flex::block::compress_prepend_size(&dec)
}

#[test]
fn is_routable_excludes_only_real_private_ranges() {
    for ip in [
        "8.8.8.8",
        "1.1.1.1",
        "172.15.0.1",
        "172.32.0.1",
        "172.64.0.1",
        "173.0.0.1",
    ] {
        assert!(is_routable(ip), "{ip} should be routable");
    }
    for ip in [
        "10.0.0.1",
        "127.0.0.1",
        "192.168.1.1",
        "169.254.1.1",
        "172.16.0.1",
        "172.31.255.1",
        "0.0.0.0",
        "255.255.255.255",
    ] {
        assert!(!is_routable(ip), "{ip} should NOT be routable");
    }
}

#[test]
fn split_csv_splits_and_trims() {
    assert_eq!(
        split_csv("1.2.3.4, 5.6.7.8 ,,9.9.9.9"),
        vec!["1.2.3.4", "5.6.7.8", "9.9.9.9"]
    );
    assert!(split_csv("").is_empty());
    assert_eq!(
        split_csv("/hl/node1,/hl/node2"),
        vec!["/hl/node1", "/hl/node2"]
    );
}

#[test]
fn peerd_keeps_previous_pool_on_probe_collapse() {
    assert!(should_keep_previous_peer_pool(
        MIN_LIVE_SERVERS_TO_OVERWRITE - 1,
        MIN_LIVE_SERVERS_TO_OVERWRITE,
        true
    ));
    assert!(should_keep_previous_peer_pool(
        0,
        MIN_LIVE_SERVERS_TO_OVERWRITE,
        true
    ));
    assert!(!should_keep_previous_peer_pool(
        MIN_LIVE_SERVERS_TO_OVERWRITE,
        MIN_LIVE_SERVERS_TO_OVERWRITE,
        true
    ));
    assert!(!should_keep_previous_peer_pool(
        1,
        MIN_LIVE_SERVERS_TO_OVERWRITE - 1,
        true
    ));
    assert!(should_keep_previous_peer_pool(
        0,
        MIN_LIVE_SERVERS_TO_OVERWRITE - 1,
        true
    ));
    assert!(!should_keep_previous_peer_pool(
        0,
        MIN_LIVE_SERVERS_TO_OVERWRITE,
        false
    ));
}

#[test]
fn peerd_trusts_only_round_annotated_previous_pool() {
    assert!(previous_peer_pool_is_trusted(
        r#"{"live_servers":["1.1.1.1"],"round_tip":1355000000,"candidate_fallback":false}"#
    ));
    assert!(previous_peer_pool_is_trusted(
        r#"{"live_servers":["1.1.1.1"],"n_candidates":48}"#
    ));
    assert!(!previous_peer_pool_is_trusted(
        r#"{"live_servers":["1.1.1.1"],"round_tip":null,"candidate_fallback":true}"#
    ));
    assert!(!previous_peer_pool_is_trusted(
        r#"{"live_servers":[],"round_tip":null,"candidate_fallback":false}"#
    ));
}

#[test]
fn peerd_empty_pool_sleep_backs_off_and_caps() {
    assert_eq!(empty_pool_sleep_secs(300, 0, 1800), 300);
    assert_eq!(empty_pool_sleep_secs(300, 1, 1800), 600);
    assert_eq!(empty_pool_sleep_secs(300, 2, 1800), 1200);
    assert_eq!(empty_pool_sleep_secs(300, 3, 1800), 1800);
    assert_eq!(empty_pool_sleep_secs(300, 9, 1800), 1800);
    assert_eq!(empty_pool_sleep_secs(300, 1, 100), 300);
}

#[test]
fn peerd_clusters_probe_tip_to_ignore_single_outlier() {
    let probes = vec![
        (
            "1.1.1.1".to_string(),
            LiveProbe {
                blocks: 2,
                max_round: Some(1_355_730_000),
                ..LiveProbe::default()
            },
        ),
        (
            "2.2.2.2".to_string(),
            LiveProbe {
                blocks: 2,
                max_round: Some(1_355_731_000),
                ..LiveProbe::default()
            },
        ),
        (
            "3.3.3.3".to_string(),
            LiveProbe {
                blocks: 2,
                max_round: Some(2_818_597_137),
                ..LiveProbe::default()
            },
        ),
    ];
    assert_eq!(clustered_probe_tip(&probes), Some(1_355_731_000));

    let one = vec![(
        "1.1.1.1".to_string(),
        LiveProbe {
            blocks: 2,
            max_round: Some(1_355_730_000),
            ..LiveProbe::default()
        },
    )];
    assert_eq!(clustered_probe_tip(&one), Some(1_355_730_000));
}

#[test]
fn read_node_peers_preserves_order_and_dedups() {
    // rank order must survive (the gateway relies on peerd's best-first ordering) and the
    // duplicate must keep its FIRST position; "3" (n_candidates) is not a 4-octet IP.
    let files = vec![
        r#"{"live_servers":["9.9.9.9","8.8.8.8","9.9.9.9","1.1.1.1"],"n_candidates":3}"#
            .to_string(),
    ];
    let got = read_node_peers(&files);
    assert_eq!(got, vec!["9.9.9.9", "8.8.8.8", "1.1.1.1"]);
}

#[test]
fn extract_ipv4_skips_noise_and_private() {
    let s = "Ip(172.64.1.2) at 1700000000.5 port 4001, peer 8.8.8.8, bad 999.1.1.1, lan 10.0.0.3";
    let got = extract_ipv4(s);
    assert!(got.contains(&"172.64.1.2".to_string()));
    assert!(got.contains(&"8.8.8.8".to_string()));
    assert!(
        !got.contains(&"10.0.0.3".to_string()),
        "private 10/8 excluded"
    );
    assert!(!got.iter().any(|x| x == "999.1.1.1"), "octet >255 excluded");
    assert!(
        !got.iter().any(|x| x.starts_with("1700000000")),
        "float/timestamp excluded"
    );
}

#[test]
fn several_files_are_read_in_order() {
    let files = strings(&["8.8.8.8 9.9.9.9", "", "1.1.1.1\n8.8.8.8"]);
    assert_eq!(read_node_peers(&files), vec!["8.8.8.8", "9.9.9.9", "1.1.1.1"]);
    assert!(read_node_peers(&Vec::new()).is_empty());
}

#[test]
fn addresses_have_four_small_parts() {
    for good in ["1.2.3.4", "0.0.0.0", "255.255.255.255", "01.2.3.4", "+1.2.3.4"] {
        assert!(is_ipv4(good), "{good}");
    }
    for bad in [
        "", "1", "1.2.3", "1.2.3.4.5", "1..3.4", "256.1.1.1", "1234.1.1.1", "a.b.c.d", "1.2.3.4.",
        ".1.2.3", "1.2.3.-4", "+.1.1.1",
    ] {
        assert!(!is_ipv4(bad), "{bad}");
    }
    // the second part decides for 172 only where it is a number of that size
    assert!(is_routable("172.x.1.1"));
    assert!(is_routable("172."));
    assert!(!is_routable("172.20"));
}

#[test]
fn round_tip_is_read_with_and_without_space() {
    assert_eq!(extract_round_tip(r#"{"round_tip":1355000000}"#), Some(1_355_000_000));
    assert_eq!(extract_round_tip(r#"{"round_tip": 7, "x":1}"#), Some(7));
    assert_eq!(extract_round_tip(r#"{"round_tip":null}"#), None);
    assert_eq!(extract_round_tip(r#"{"n_candidates":3}"#), None);
    assert_eq!(extract_round_tip(r#"{"round_tip":4294967295}"#), Some(u32::MAX));
    assert_eq!(extract_round_tip(r#"{"round_tip":4294967296}"#), None);
    assert_eq!(extract_round_tip(""), None);
}

#[test]
fn peer_file_is_read_back() {
    let ips = strings(&["9.9.9.9", "8.8.8.8", "172.64.0.1"]);
    let text = render_peers_file(&ips, 48, Some(1_355_000_000));
    assert_eq!(
        text,
        r#"{"live_servers":["9.9.9.9","8.8.8.8","172.64.0.1"],"n_candidates":48,"round_tip":1355000000,"candidate_fallback":false}"#
    );
    assert_eq!(read_node_peers(&vec![text.clone()]), ips);
    assert_eq!(extract_round_tip(&text), Some(1_355_000_000));
    assert!(previous_peer_pool_is_trusted(&text));
    let empty = render_peers_file(&Vec::new(), 0, None);
    assert_eq!(
        empty,
        r#"{"live_servers":[],"n_candidates":0,"round_tip":null,"candidate_fallback":false}"#
    );
    assert_eq!(extract_round_tip(&empty), None);
    assert!(!previous_peer_pool_is_trusted(&empty));
}

#[test]
fn candidate_file_is_read_back() {
    let daemon = PeerDaemon::new(&strings(&["1.1.1.1", "2.2.2.2", "1.1.1.1"]), &Vec::new());
    let text = daemon.candidates_file();
    assert_eq!(text, "1.1.1.1\n2.2.2.2");
    assert_eq!(lines(&text), daemon.to_probe());
    assert_eq!(lines("a\r\nb\n\nc\r"), vec!["a", "b", "", "c\r"]);
    assert!(lines("").is_empty());
    assert_eq!(lines("a\n"), vec!["a"]);
}

#[test]
fn candidate_path_lies_beside_the_peer_file() {
    for path in [
        "/data/peers.json",
        "peers.json",
        "/peers.json",
        "data/peers.json",
        "./peers.json",
        "data//sub///peers.json",
        "a/./b",
        "a/b/",
        "a/b/.",
        "a/b/./",
        "",
        "/",
        "//",
        ".",
        "./",
        "..",
        "../x",
        "a/..",
        "/.",
        "/./a",
        "//a",
        ".a",
        "./.",
        "a/.b",
        "x/y/z",
        "/a/b//",
    ] {
        let want = std::path::Path::new(path)
            .parent()
            .unwrap_or_else(|| std::path::Path::new("."))
            .join("peer_candidates.txt");
        assert_eq!(peer_candidates_path(path), want.to_str().unwrap(), "{path:?}");
    }
    assert_eq!(path_beside("/a/b", "c"), "/a/c");
}

#[test]
fn own_fields_of_csv_are_trimmed() {
    assert_eq!(split_csv(" a ,\tb\u{a0},, ,c"), vec!["a", "b", "c"]);
    assert_eq!(split_csv("one"), vec!["one"]);
}

#[test]
fn settings_are_clamped() {
    assert_eq!(env_usize(None, 8, 1, 64), 8);
    assert_eq!(env_usize(Some("x"), 8, 1, 64), 8);
    assert_eq!(env_usize(Some("0"), 8, 1, 64), 1);
    assert_eq!(env_usize(Some("100"), 8, 1, 64), 64);
    assert_eq!(env_usize(Some("+9"), 8, 1, 64), 9);
    assert_eq!(env_u64(Some("99999999999999999999"), 1800, 300, 7200), 1800);
    assert_eq!(env_u64(Some("60"), 1800, 300, 7200), 300);
    assert_eq!(env_u64(Some("18446744073709551615"), 1, 0, u64::MAX), u64::MAX);
}

#[test]
fn sleep_does_not_overflow() {
    assert_eq!(empty_pool_sleep_secs(u64::MAX, 3, 5), u64::MAX);
    assert_eq!(empty_pool_sleep_secs(u64::MAX / 2, 2, u64::MAX), u64::MAX);
    assert_eq!(empty_pool_sleep_secs(0, 3, 1800), 0);
}

#[test]
fn fail_counts_are_kept_by_name() {
    let mut fails = FailCounts::new();
    assert_eq!(fails.get("a"), 0);
    fails.set("a", 3);
    fails.set("b", 1);
    fails.set("a", 4);
    assert_eq!((fails.get("a"), fails.get("b")), (4, 1));
    fails.remove("a");
    assert_eq!((fails.get("a"), fails.get("b")), (0, 1));
}

fn live(blocks: usize, round: u32) -> LiveProbe {
    LiveProbe {
        blocks,
        max_round: Some(round),
        status: ProbeStatus::Live,
    }
}

#[test]
fn ranking_is_by_round_then_blocks_then_order() {
    let probes = vec![
        ("a".to_string(), live(2, 1_000_000_010)),
        ("b".to_string(), live(5, 1_000_000_020)),
        ("c".to_string(), live(9, 1_000_000_010)),
        ("d".to_string(), live(5, 1_000_000_020)),
    ];
    assert_eq!(rank_live(&probes), vec!["b", "d", "c", "a"]);
}

#[test]
fn cycle_ranks_counts_and_writes() {
    let own = strings(&["6.6.6.6"]);
    let on_file = strings(&["1.1.1.1", "2.2.2.2", "3.3.3.3", "4.4.4.4"]);
    let mut daemon = PeerDaemon::new(&on_file, &own);
    daemon.discover(&strings(&["5.5.5.5", "6.6.6.6"]));
    assert_eq!(daemon.to_probe().len(), 5);
    let probes = vec![
        ("1.1.1.1".to_string(), live(2, 1_355_730_000)),
        ("2.2.2.2".to_string(), live(3, 1_355_731_000)),
        // far behind the tip
        ("3.3.3.3".to_string(), live(3, 1_355_000_000)),
        // one block is not enough
        ("4.4.4.4".to_string(), live(1, 1_355_731_000)),
        ("5.5.5.5".to_string(), LiveProbe::default()),
    ];
    let report = daemon.finish_cycle(&probes, "", 300, 1800);
    assert_eq!(report.ranked, vec!["2.2.2.2", "1.1.1.1"]);
    assert_eq!(report.round_tip, Some(1_355_731_000));
    assert_eq!(report.pruned, 0);
    assert!(!report.kept_previous);
    assert_eq!(report.empty_streak, 0);
    assert_eq!(report.sleep_secs, 300);
    assert_eq!(
        report.contents,
        r#"{"live_servers":["2.2.2.2","1.1.1.1"],"n_candidates":5,"round_tip":1355731000,"candidate_fallback":false}"#
    );
    // the next round finds nobody: the last file is kept and the sleep grows
    let empty = daemon.finish_cycle(&Vec::new(), &report.contents, 300, 1800);
    assert!(empty.kept_previous);
    assert_eq!((empty.empty_streak, empty.sleep_secs), (1, 600));
    assert_eq!(empty.round_tip, None);
}

#[test]
fn own_addresses_stay_out_of_the_pool() {
    let own = strings(&["9.9.9.9", "8.8.8.8"]);
    // the candidate file was written before the addresses were known to be the nodes' own
    let mut daemon = PeerDaemon::new(&strings(&["9.9.9.9", "1.1.1.1", "8.8.8.8"]), &own);
    assert_eq!(daemon.to_probe(), vec!["1.1.1.1"]);
    daemon.discover(&strings(&["8.8.8.8", "2.2.2.2"]));
    assert_eq!(daemon.to_probe(), vec!["1.1.1.1", "2.2.2.2"]);
    assert_eq!(daemon.candidates_file(), "1.1.1.1\n2.2.2.2");
    let probes = vec![
        ("9.9.9.9".to_string(), live(9, 1_355_731_000)),
        ("1.1.1.1".to_string(), live(2, 1_355_731_000)),
        ("2.2.2.2".to_string(), LiveProbe::default()),
    ];
    let report = daemon.finish_cycle(&probes, "", 300, 1800);
    assert_eq!(report.ranked, vec!["1.1.1.1"]);
    assert!(!report.contents.contains("9.9.9.9"));
    assert_eq!(daemon.to_probe(), vec!["1.1.1.1", "2.2.2.2"]);
}

#[test]
fn fiftieth_failed_cycle_drops_a_candidate() {
    let mut daemon = PeerDaemon::new(&strings(&["1.1.1.1", "2.2.2.2"]), &Vec::new());
    let probes = vec![
        ("1.1.1.1".to_string(), LiveProbe::default()),
        ("2.2.2.2".to_string(), live(2, 1_355_731_000)),
    ];
    for _ in 0..49 {
        assert_eq!(daemon.finish_cycle(&probes, "", 300, 1800).pruned, 0);
    }
    assert_eq!(daemon.to_probe().len(), 2);
    assert_eq!(daemon.finish_cycle(&probes, "", 300, 1800).pruned, 1);
    assert_eq!(daemon.to_probe(), vec!["2.2.2.2"]);
}

#[test]
fn live_cycle_forgives_failures() {
    let mut daemon = PeerDaemon::new(&strings(&["1.1.1.1"]), &Vec::new());
    let bad = vec![("1.1.1.1".to_string(), LiveProbe::default())];
    let good = vec![("1.1.1.1".to_string(), live(2, 1_355_731_000))];
    for _ in 0..49 {
        daemon.finish_cycle(&bad, "", 300, 1800);
    }
    daemon.finish_cycle(&good, "", 300, 1800);
    for _ in 0..49 {
        assert_eq!(daemon.finish_cycle(&bad, "", 300, 1800).pruned, 0);
    }
    assert_eq!(daemon.to_probe(), vec!["1.1.1.1"]);
}

#[test]
fn probe_counts_plausible_blocks() {
    let mut probe = PeerProbe::new();
    assert_eq!(probe.phase(), ProbePhase::Connect);
    probe.step(ProbeEvent::Success(Vec::new()));
    assert_eq!(probe.phase(), ProbePhase::Greet);
    probe.step(ProbeEvent::Success(Vec::new()));
    for (typ, payload, status) in [
        (0u8, vec![3u8], ProbeStatus::StatusFrame),
        (1, block_payload(1_355_000_001), ProbeStatus::Live),
        (1, block_payload(5), ProbeStatus::LowRound),
        (1, vec![1, 2, 3, 4], ProbeStatus::UnparseableBlock),
        (1, block_payload(1_355_000_000), ProbeStatus::Live),
    ] {
        assert_eq!(probe.phase(), ProbePhase::Header);
        let frame = make_frame(typ, &payload);
        probe.step(ProbeEvent::Success(frame[..5].to_vec()));
        let len = payload.len() as u32;
        assert_eq!(probe.phase(), ProbePhase::Payload { typ, len });
        probe.step(ProbeEvent::Success(payload));
        assert_eq!(probe.found().status, status);
    }
    assert!(probe_is_live(&probe.found()));
    probe.step(ProbeEvent::TimeUp);
    assert_eq!(probe.phase(), ProbePhase::Done);
    let found = probe.found();
    assert_eq!(found.blocks, 2);
    assert_eq!(found.max_round, Some(1_355_000_001));
}

#[test]
fn probe_ends_with_its_reason() {
    let at = |steps: usize| {
        let mut probe = PeerProbe::new();
        for _ in 0..steps {
            probe.step(ProbeEvent::Success(Vec::new()));
        }
        probe
    };
    let ends = |mut probe: PeerProbe, event: ProbeEvent| {
        probe.step(event);
        assert_eq!(probe.phase(), ProbePhase::Done);
        probe.found().status
    };
    assert_eq!(ends(at(0), ProbeEvent::Timeout), ProbeStatus::ConnectTimeout);
    assert_eq!(ends(at(0), ProbeEvent::Error), ProbeStatus::ConnectError);
    assert_eq!(ends(at(1), ProbeEvent::Error), ProbeStatus::GreetWriteError);
    assert_eq!(ends(at(2), ProbeEvent::Timeout), ProbeStatus::HeaderTimeout);
    assert_eq!(ends(at(2), ProbeEvent::Eof), ProbeStatus::HeaderEof);
    assert_eq!(ends(at(2), ProbeEvent::Error), ProbeStatus::HeaderError);
    assert_eq!(ends(at(2), ProbeEvent::TimeUp), ProbeStatus::NoLiveFrame);
    let long = ProbeEvent::Success(vec![0, 0x7a, 0x12, 1, 1]);
    assert_eq!(ends(at(2), long), ProbeStatus::OversizedFrame);
    let in_payload = || {
        let mut probe = at(2);
        probe.step(ProbeEvent::Success(vec![0, 0, 0, 1, 0]));
        probe
    };
    assert_eq!(ends(in_payload(), ProbeEvent::Timeout), ProbeStatus::PayloadTimeout);
    assert_eq!(ends(in_payload(), ProbeEvent::Eof), ProbeStatus::PayloadEof);
    assert_eq!(ends(in_payload(), ProbeEvent::Error), ProbeStatus::PayloadError);
    assert_eq!(ends(in_payload(), ProbeEvent::Success(vec![4])), ProbeStatus::PeerFull);
    assert_eq!(ProbeStatus::PeerFull.as_str(), "peer_full");
    assert_eq!(ProbeStatus::default().as_str(), "no_live_frame");
}

#[test]
fn texts_and_lists() {
    assert_eq!(decimal_text(0), "0");
    assert_eq!(decimal_text(u64::MAX), u64::MAX.to_string());
    assert_eq!(parse_text("00012", 12), Some(12));
    assert_eq!(parse_text("13", 12), None);
    assert_eq!(parse_text("", 12), None);
    assert_eq!(parse_text("+", 12), None);
    assert_eq!(parse_text("-1", 12), None);
    assert!(contains_text("abcabd", "abd"));
    assert!(contains_text("abc", ""));
    assert!(!contains_text("ab", "abc"));
    assert!(starts_with_text("--rpc", "--"));
    assert!(!starts_with_text("-", "--"));
    assert_eq!(join_list(&strings(&["a", "b", "c"]), "; "), "a; b; c");
    let mut list = strings(&["a"]);
    assert!(!push_new(&mut list, "a"));
    assert!(push_new(&mut list, "b"));
    extend_new(&mut list, &strings(&["b", "c", "c"]));
    assert_eq!(list, vec!["a", "b", "c"]);
    remove_text(&mut list, "b");
    assert_eq!(list, vec!["a", "c"]);
    assert_eq!(step_round(usize::MAX, 2, 3), (usize::MAX % 3 + 2) % 3);
    assert_eq!(
        stable_order(&vec![(2, 0, 0), (1, 5, 0), (1, 5, 0), (1, 4, 9)]),
        vec![3, 1, 2, 0]
    );
}
