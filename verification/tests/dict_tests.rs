//! Dictionary finalization: ordering and deduplication.

use xivcrc::prepare_dictionary;

fn words(list: &[&[u8]]) -> Vec<Vec<u8>> {
    list.iter().map(|w| w.to_vec()).collect()
}

#[test]
fn sorts_and_deduplicates() {
    let out = prepare_dictionary(words(&[b"gamma", b"alpha", b"beta", b"alpha", b"gamma"]));
    assert_eq!(out, words(&[b"alpha", b"beta", b"gamma"]));
}

#[test]
fn orders_prefixes_before_extensions() {
    let out = prepare_dictionary(words(&[b"ab", b"a", b"abc", b"b"]));
    assert_eq!(out, words(&[b"a", b"ab", b"abc", b"b"]));
}

#[test]
fn empty_list_stays_empty() {
    let out = prepare_dictionary(Vec::new());
    assert!(out.is_empty());
}

#[test]
fn single_word_is_kept() {
    let out = prepare_dictionary(words(&[b"only"]));
    assert_eq!(out, words(&[b"only"]));
}

#[test]
fn byte_order_is_used() {
    let out = prepare_dictionary(words(&[b"Zeta", b"alpha", b"Beta"]));
    // uppercase ASCII sorts before lowercase
    assert_eq!(out, words(&[b"Beta", b"Zeta", b"alpha"]));
}
