//! Word-table construction: checksums, buckets, the reverse index, and
//! collision logging.

use xivcrc::{build_word_table, AffixSettings, XivCrc32};

fn words(list: &[&[u8]]) -> Vec<Vec<u8>> {
    list.iter().map(|w| w.to_vec()).collect()
}

#[test]
fn table_holds_plain_and_suffixed_checksums() {
    let affix = AffixSettings::from_literals(Vec::new(), Vec::new(), b"_s".to_vec());
    let (t, cols) = build_word_table(words(&[b"g_", b"EmissiveColor"]), &affix);
    assert!(cols.is_empty());
    assert_eq!(t.plain.len(), 2);
    assert_eq!(t.plain[0], XivCrc32::from_bytes(b"g_"));
    assert_eq!(t.plain[1], XivCrc32::from_bytes(b"EmissiveColor"));
    assert_eq!(t.suff[0], XivCrc32::from_bytes(b"g__s").crc);
    assert_eq!(t.suff[1], XivCrc32::from_bytes(b"EmissiveColor_s").crc);
    // buckets by byte length: "g_" has length 2, "EmissiveColor" length 13
    assert_eq!(t.buckets[1], vec![0usize]);
    assert_eq!(t.buckets[12], vec![1usize]);
    // reverse index keyed by suffixed checksum, bucketed by composed length
    let hit = t.suffixed[2 + 2 - 1].get(&XivCrc32::from_bytes(b"g__s").crc);
    assert_eq!(hit, Some(&0usize));
    let miss = t.suffixed[2 + 2 - 1].get(&0xDEADBEEF);
    assert_eq!(miss, None);
}

#[test]
fn collision_is_logged_once_and_drops_no_word() {
    // two words of equal length with equal checksums, so their suffixed
    // checksums collide at the same composed length
    let a: &[u8] = b"plumless";
    let b: &[u8] = b"buckeroo";
    assert_eq!(XivCrc32::from_bytes(a).crc, XivCrc32::from_bytes(b).crc);

    let affix = AffixSettings::from_literals(Vec::new(), Vec::new(), Vec::new());
    let (t, cols) = build_word_table(words(&[a, b]), &affix);
    // exactly one collision notice
    assert_eq!(cols.len(), 1);
    assert_eq!(cols[0].earlier, 0);
    assert_eq!(cols[0].later, 1);
    // both words stay in the plain and length-bucketed tables
    assert_eq!(t.plain.len(), 2);
    assert_eq!(t.plain[0], XivCrc32::from_bytes(a));
    assert_eq!(t.plain[1], XivCrc32::from_bytes(b));
    assert_eq!(t.buckets[7], vec![0usize, 1usize]);
    // the later insertion wins in the reverse index
    assert_eq!(t.suffixed[7].get(&t.suff[0]), Some(&1usize));
}

#[test]
fn distinct_words_do_not_collide() {
    let affix = AffixSettings::from_literals(Vec::new(), Vec::new(), Vec::new());
    let (t, cols) = build_word_table(words(&[b"alpha", b"gamma", b"be"]), &affix);
    assert!(cols.is_empty());
    assert_eq!(t.buckets[4], vec![0usize, 1usize]);
    assert_eq!(t.buckets[1], vec![2usize]);
}
