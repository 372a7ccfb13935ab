//! End-to-end searches: known hashes, round trips, sharding, the unknown
//! marker, and configuration errors.

use xivcrc::{
    build_word_table, parse_hex_u32, result_line, run_search, search_all, search_shard,
    shard_bounds, AffixSettings, ConfigError, SearchSettings, XivCrc32,
};

fn words(list: &[&[u8]]) -> Vec<Vec<u8>> {
    list.iter().map(|w| w.to_vec()).collect()
}

fn settings(threads: usize, max_words: usize) -> SearchSettings {
    SearchSettings {
        threads,
        max_words,
        print_when_found: false,
        report_progress: false,
        progress_granularity: 1_000_000,
    }
}

fn matches_of(
    dict: &[&[u8]],
    threads: usize,
    max_words: usize,
    target: u32,
) -> Vec<Vec<u8>> {
    let (mut results, _) = run_search(
        words(dict),
        Vec::new(),
        None,
        Vec::new(),
        Vec::new(),
        &settings(threads, max_words),
        &vec![target],
    )
    .unwrap();
    results.remove(0).matches
}

#[test]
fn one_word_search_finds_known_hash() {
    let found = matches_of(&[b"g_", b"EmissiveColor"], 1, 1, 0xd168b105);
    assert_eq!(found, vec![b"g_".to_vec()]);
}

#[test]
fn two_word_search_finds_known_hash() {
    let found = matches_of(&[b"g_", b"EmissiveColor"], 1, 2, 0x38a64362);
    assert_eq!(found, vec![b"g_EmissiveColor".to_vec()]);
}

#[test]
fn round_trip_one_word() {
    let target = XivCrc32::from_bytes(b"p_beta_s").crc;
    let (mut results, _) = run_search(
        words(&[b"alpha", b"beta", b"gamma"]),
        b"p_".to_vec(),
        None,
        b"__".to_vec(),
        b"_s".to_vec(),
        &settings(1, 1),
        &vec![target],
    )
    .unwrap();
    let found = results.remove(0).matches;
    assert!(found.contains(&b"p_beta_s".to_vec()));
}

#[test]
fn round_trip_two_words() {
    let target = XivCrc32::from_bytes(b"p_alpha__beta_s").crc;
    let (mut results, _) = run_search(
        words(&[b"alpha", b"beta", b"gamma"]),
        b"p_".to_vec(),
        None,
        b"__".to_vec(),
        b"_s".to_vec(),
        &settings(1, 2),
        &vec![target],
    )
    .unwrap();
    let found = results.remove(0).matches;
    assert!(found.contains(&b"p_alpha__beta_s".to_vec()));
}

#[test]
fn round_trip_three_words() {
    let target = XivCrc32::from_bytes(b"p_gamma__alpha__beta_s").crc;
    let (mut results, _) = run_search(
        words(&[b"alpha", b"beta", b"gamma"]),
        b"p_".to_vec(),
        None,
        b"__".to_vec(),
        b"_s".to_vec(),
        &settings(1, 3),
        &vec![target],
    )
    .unwrap();
    let found = results.remove(0).matches;
    assert!(found.contains(&b"p_gamma__alpha__beta_s".to_vec()));
}

#[test]
fn sharding_gives_same_results_as_single_thread() {
    let dict: &[&[u8]] = &[b"alpha", b"beta", b"gamma", b"delta", b"kappa", b"omega"];
    let targets = vec![
        XivCrc32::from_bytes(b"p_alpha__beta_s").crc,
        XivCrc32::from_bytes(b"p_omega_s").crc,
        0x12345678,
    ];
    for max_words in 1..=3usize {
        let single = run_search(
            words(dict),
            b"p_".to_vec(),
            None,
            b"__".to_vec(),
            b"_s".to_vec(),
            &settings(1, max_words),
            &targets,
        )
        .unwrap()
        .0;
        for threads in [2usize, 3, 6] {
            let sharded = run_search(
                words(dict),
                b"p_".to_vec(),
                None,
                b"__".to_vec(),
                b"_s".to_vec(),
                &settings(threads, max_words),
                &targets,
            )
            .unwrap()
            .0;
            for (a, b) in single.iter().zip(sharded.iter()) {
                assert_eq!(a.target, b.target);
                assert_eq!(a.matches, b.matches);
            }
        }
    }
}

#[test]
fn search_all_agrees_with_manual_shards() {
    let affix = AffixSettings::from_literals(Vec::new(), Vec::new(), Vec::new());
    let dict = words(&[b"g_", b"EmissiveColor", b"abc", b"xy"]);
    let (t, _) = build_word_table(dict, &affix);
    let target = 0x38a64362;
    let whole = search_all(target, &t, &affix, 1, 2);
    let bounds = shard_bounds(4, 2);
    let mut pieced = Vec::new();
    for (lo, hi) in bounds {
        pieced.extend(search_shard(target, &t, &affix, lo, hi, 2));
    }
    assert_eq!(whole, pieced);
    assert_eq!(whole, vec![b"g_EmissiveColor".to_vec()]);
}

#[test]
fn unknown_marker_for_empty_match_set() {
    let found = matches_of(&[b"g_"], 1, 1, 0x12345678);
    assert!(found.is_empty());
    let line = result_line(0x12345678, &found);
    assert_eq!(line, b"12345678 = unknown".to_vec());
}

#[test]
fn result_line_joins_matches() {
    let ms = vec![b"aa".to_vec(), b"bb".to_vec()];
    assert_eq!(result_line(0x1, &ms), b"1 = aa, bb".to_vec());
    assert_eq!(result_line(0xd168b105, &vec![b"g_".to_vec()]), b"d168b105 = g_".to_vec());
}

#[test]
fn external_prefix_hash_stands_in_for_the_literal() {
    let prefix_hash = XivCrc32::from_bytes(b"p_").crc;
    let target = XivCrc32::from_bytes(b"p_alpha").crc;
    let (mut results, _) = run_search(
        words(&[b"alpha", b"beta"]),
        Vec::new(),
        Some(prefix_hash),
        Vec::new(),
        Vec::new(),
        &settings(1, 1),
        &vec![target],
    )
    .unwrap();
    let found = results.remove(0).matches;
    assert_eq!(found, vec![b"alpha".to_vec()]);
}

#[test]
fn zero_threads_is_a_fatal_configuration_error() {
    let r = run_search(
        words(&[b"a"]),
        Vec::new(),
        None,
        Vec::new(),
        Vec::new(),
        &settings(0, 1),
        &vec![1],
    );
    assert_eq!(r.err(), Some(ConfigError::ZeroThreads));
}

#[test]
fn word_count_out_of_range_is_a_fatal_configuration_error() {
    for bad in [0usize, 4] {
        let r = run_search(
            words(&[b"a"]),
            Vec::new(),
            None,
            Vec::new(),
            Vec::new(),
            &settings(1, bad),
            &vec![1],
        );
        assert_eq!(r.err(), Some(ConfigError::WordCountOutOfRange));
    }
}

#[test]
fn empty_dictionary_is_a_fatal_configuration_error() {
    let r = run_search(
        Vec::new(),
        Vec::new(),
        None,
        Vec::new(),
        Vec::new(),
        &settings(1, 1),
        &vec![1],
    );
    assert_eq!(r.err(), Some(ConfigError::EmptyDictionary));
}

#[test]
fn empty_word_is_a_fatal_configuration_error() {
    let r = run_search(
        words(&[b"ok", b""]),
        Vec::new(),
        None,
        Vec::new(),
        Vec::new(),
        &settings(1, 1),
        &vec![1],
    );
    assert_eq!(r.err(), Some(ConfigError::InvalidWord));
}

#[test]
fn oversized_affix_is_a_fatal_configuration_error() {
    let huge = vec![0x61u8; xivcrc::LEN_BOUND + 1];
    let r = run_search(
        words(&[b"a"]),
        huge,
        None,
        Vec::new(),
        Vec::new(),
        &settings(1, 1),
        &vec![1],
    );
    assert_eq!(r.err(), Some(ConfigError::OversizedAffix));
}

#[test]
fn parse_hex_accepts_both_forms() {
    assert_eq!(parse_hex_u32(b"0x38a64362"), Ok(0x38a64362));
    assert_eq!(parse_hex_u32(b"38A64362"), Ok(0x38a64362));
    assert_eq!(parse_hex_u32(b"ffffffff"), Ok(0xffffffff));
    assert_eq!(parse_hex_u32(b"0"), Ok(0));
    assert_eq!(parse_hex_u32(b"00000000001"), Ok(1));
}

#[test]
fn parse_hex_rejects_malformed_hashes() {
    assert_eq!(parse_hex_u32(b""), Err(ConfigError::MalformedHash));
    assert_eq!(parse_hex_u32(b"0x"), Err(ConfigError::MalformedHash));
    assert_eq!(parse_hex_u32(b"xyz"), Err(ConfigError::MalformedHash));
    assert_eq!(parse_hex_u32(b"12 34"), Err(ConfigError::MalformedHash));
    assert_eq!(parse_hex_u32(b"123456789"), Err(ConfigError::MalformedHash));
}

#[test]
fn shard_bounds_cover_everything_contiguously() {
    assert_eq!(shard_bounds(5, 2), vec![(0, 2), (2, 5)]);
    assert_eq!(shard_bounds(6, 3), vec![(0, 2), (2, 4), (4, 6)]);
    assert_eq!(shard_bounds(3, 5), vec![(0, 0), (0, 0), (0, 0), (0, 0), (0, 3)]);
}
