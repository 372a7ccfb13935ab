//! The per-shard candidate enumeration.
//!
//! A worker owns a contiguous shard of the dictionary as its first-word
//! anchor. For one word it tests the one-word candidate directly, and for the
//! larger word counts it never visits the cross product of words: it extends
//! the known left part by the unknown candidate's length in zero bytes and
//! looks the XOR against the target up in the reverse index, so each
//! candidate costs one lookup.

use vstd::prelude::*;
use std::collections::HashMap;
use crate::crc::{XivCrc32, crc_of, combine_crc};
use crate::table::{AffixSettings, WordTable};

verus! {

broadcast use vstd::std_specs::hash::group_hash_axioms;

/// The byte sequences of a list of byte vectors.
pub open spec fn views_of(s: Seq<Vec<u8>>) -> Seq<Seq<u8>> {
    s.map_values(|m: Vec<u8>| m@)
}

pub open spec fn word_at(t: WordTable, i: int) -> Seq<u8> {
    t.words[i]@
}

/// Checksum of the prefix followed by word `i`.
pub open spec fn prefixed_crc(t: WordTable, affix: AffixSettings, i: int) -> u32 {
    combine_crc(affix.prefix_cv.crc, crc_of(word_at(t, i)), word_at(t, i).len())
}

/// Checksum of prefix, word `i` and the separator: the left part every
/// longer candidate anchored at word `i` starts with.
pub open spec fn blank_crc(t: WordTable, affix: AffixSettings, i: int) -> u32 {
    combine_crc(prefixed_crc(t, affix, i), crc_of(affix.separator@), affix.separator@.len())
}

/// That left part as a byte sequence.
pub open spec fn left2(t: WordTable, affix: AffixSettings, i: int) -> Seq<u8> {
    affix.prefix@ + word_at(t, i) + affix.separator@
}

pub open spec fn candidate1(t: WordTable, affix: AffixSettings, i: int) -> Seq<u8> {
    affix.prefix@ + word_at(t, i) + affix.suffix@
}

pub open spec fn candidate2(t: WordTable, affix: AffixSettings, i: int, j: int) -> Seq<u8> {
    affix.prefix@ + word_at(t, i) + affix.separator@ + word_at(t, j) + affix.suffix@
}

pub open spec fn candidate3(t: WordTable, affix: AffixSettings, i: int, j: int, k: int) -> Seq<
    u8,
> {
    affix.prefix@ + word_at(t, i) + affix.separator@ + word_at(t, j) + affix.separator@ + word_at(
        t,
        k,
    ) + affix.suffix@
}

/// The one-word test: prefix + word + suffix against the target.
pub open spec fn hit1(t: WordTable, affix: AffixSettings, target: u32, i: int) -> bool {
    combine_crc(prefixed_crc(t, affix, i), crc_of(affix.suffix@), affix.suffix@.len()) == target
}

pub open spec fn hit1_part(t: WordTable, affix: AffixSettings, target: u32, i: int) -> Seq<
    Seq<u8>,
> {
    if hit1(t, affix, target, i) {
        seq![candidate1(t, affix, i)]
    } else {
        Seq::empty()
    }
}

/// The left part extended by `l + 1` unread bytes.
pub open spec fn ext2_crc(t: WordTable, affix: AffixSettings, i: int, l: int) -> u32 {
    combine_crc(blank_crc(t, affix, i), 0, (l + 1) as nat)
}

/// The reverse-index lookup for a second word of composed length `l + 1`.
pub open spec fn lookup2(t: WordTable, affix: AffixSettings, target: u32, i: int, l: int) -> Option<
    usize,
> {
    let need = ext2_crc(t, affix, i, l) ^ target;
    if t.suffixed[l]@.contains_key(need) {
        Some(t.suffixed[l]@[need])
    } else {
        None
    }
}

/// The two-word matches for word `i` found by the lookups at composed
/// lengths below `l`, in iteration order.
pub open spec fn hits2_upto(t: WordTable, affix: AffixSettings, target: u32, i: int, l: int) -> Seq<
    Seq<u8>,
>
    decreases l,
{
    if l <= 0 {
        Seq::empty()
    } else {
        hits2_upto(t, affix, target, i, l - 1) + match lookup2(t, affix, target, i, l - 1) {
            Some(j) => seq![candidate2(t, affix, i, j as int)],
            None => Seq::empty(),
        }
    }
}

/// Checksum of prefix, word `i`, separator and word `j`, as the worker
/// computes it: the zero-extended left part XORed with word `j`'s checksum.
pub open spec fn mid_crc(t: WordTable, affix: AffixSettings, i: int, j: int) -> u32 {
    combine_crc(blank_crc(t, affix, i), 0, word_at(t, j).len()) ^ crc_of(word_at(t, j))
}

/// The two-of-three test: prefix + word `i` + separator + word `j` + suffix.
pub open spec fn hit2b(t: WordTable, affix: AffixSettings, target: u32, i: int, j: int) -> bool {
    combine_crc(mid_crc(t, affix, i, j), crc_of(affix.suffix@), affix.suffix@.len()) == target
}

pub open spec fn hit2b_part(t: WordTable, affix: AffixSettings, target: u32, i: int, j: int) -> Seq<
    Seq<u8>,
> {
    if hit2b(t, affix, target, i, j) {
        seq![candidate2(t, affix, i, j)]
    } else {
        Seq::empty()
    }
}

pub open spec fn mid_sep_crc(t: WordTable, affix: AffixSettings, i: int, j: int) -> u32 {
    combine_crc(mid_crc(t, affix, i, j), crc_of(affix.separator@), affix.separator@.len())
}

/// The two-word left part as a byte sequence.
pub open spec fn left3(t: WordTable, affix: AffixSettings, i: int, j: int) -> Seq<u8> {
    affix.prefix@ + word_at(t, i) + affix.separator@ + word_at(t, j) + affix.separator@
}

pub open spec fn ext3_crc(t: WordTable, affix: AffixSettings, i: int, j: int, l: int) -> u32 {
    combine_crc(mid_sep_crc(t, affix, i, j), 0, (l + 1) as nat)
}

/// The reverse-index lookup for a third word of composed length `l + 1`.
pub open spec fn lookup3(
    t: WordTable,
    affix: AffixSettings,
    target: u32,
    i: int,
    j: int,
    l: int,
) -> Option<usize> {
    let need = ext3_crc(t, affix, i, j, l) ^ target;
    if t.suffixed[l]@.contains_key(need) {
        Some(t.suffixed[l]@[need])
    } else {
        None
    }
}

/// The three-word matches for first word `i` and second word `j` found by
/// the lookups at composed lengths below `l`, in iteration order.
pub open spec fn hits3_inner_upto(
    t: WordTable,
    affix: AffixSettings,
    target: u32,
    i: int,
    j: int,
    l: int,
) -> Seq<Seq<u8>>
    decreases l,
{
    if l <= 0 {
        Seq::empty()
    } else {
        hits3_inner_upto(t, affix, target, i, j, l - 1) + match lookup3(
            t,
            affix,
            target,
            i,
            j,
            l - 1,
        ) {
            Some(k) => seq![candidate3(t, affix, i, j, k as int)],
            None => Seq::empty(),
        }
    }
}

/// Everything emitted while word `j` is the second word: the two-of-three
/// test, then the third-word lookups.
pub open spec fn hits3_word(
    t: WordTable,
    affix: AffixSettings,
    target: u32,
    i: int,
    j: int,
) -> Seq<Seq<u8>> {
    hit2b_part(t, affix, target, i, j) + hits3_inner_upto(
        t,
        affix,
        target,
        i,
        j,
        t.suffixed@.len() as int,
    )
}

/// The three-word-mode matches for word `i` over the first `k` entries of
/// length bucket `l2`.
pub open spec fn hits3_row_upto(
    t: WordTable,
    affix: AffixSettings,
    target: u32,
    i: int,
    l2: int,
    k: int,
) -> Seq<Seq<u8>>
    decreases k,
{
    if k <= 0 {
        Seq::empty()
    } else {
        hits3_row_upto(t, affix, target, i, l2, k - 1) + hits3_word(
            t,
            affix,
            target,
            i,
            t.buckets[l2]@[k - 1] as int,
        )
    }
}

/// The three-word-mode matches for word `i` over the first `l2` length
/// buckets.
pub open spec fn hits3_upto(
    t: WordTable,
    affix: AffixSettings,
    target: u32,
    i: int,
    l2: int,
) -> Seq<Seq<u8>>
    decreases l2,
{
    if l2 <= 0 {
        Seq::empty()
    } else {
        hits3_upto(t, affix, target, i, l2 - 1) + hits3_row_upto(
            t,
            affix,
            target,
            i,
            l2 - 1,
            t.buckets[l2 - 1]@.len() as int,
        )
    }
}

/// Everything the worker emits while word `i` is the first word.
pub open spec fn word_hits(
    t: WordTable,
    affix: AffixSettings,
    target: u32,
    max_words: int,
    i: int,
) -> Seq<Seq<u8>> {
    hit1_part(t, affix, target, i) + if max_words == 2 {
        hits2_upto(t, affix, target, i, t.suffixed@.len() as int)
    } else if max_words >= 3 {
        hits3_upto(t, affix, target, i, t.buckets@.len() as int)
    } else {
        Seq::empty()
    }
}

/// Everything the worker emits for the shard `[lo, hi)`, in iteration order.
pub open spec fn shard_hits(
    t: WordTable,
    affix: AffixSettings,
    target: u32,
    max_words: int,
    lo: int,
    hi: int,
) -> Seq<Seq<u8>>
    decreases hi - lo,
{
    if hi <= lo {
        Seq::empty()
    } else {
        shard_hits(t, affix, target, max_words, lo, hi - 1) + word_hits(
            t,
            affix,
            target,
            max_words,
            hi - 1,
        )
    }
}

/// Appends the bytes of `src` to `dst`.
pub(crate) fn append_bytes(dst: &mut Vec<u8>, src: &Vec<u8>)
    ensures
        final(dst)@ == old(dst)@ + src@,
{
    let n = src.len();
    let mut k: usize = 0;
    while k < n
        invariant
            k <= n,
            n == src@.len(),
            dst@ == old(dst)@ + src@.subrange(0, k as int),
        decreases n - k,
    {
        dst.push(src[k]);
        proof {
            assert(old(dst)@ + src@.subrange(0, k as int) + seq![src@[k as int]] =~= old(dst)@
                + src@.subrange(0, k + 1));
        }
        k += 1;
    }
    proof {
        assert(src@.subrange(0, n as int) =~= src@);
    }
}

/// prefix + word `i` + suffix, assembled literally.
fn assemble1(t: &WordTable, affix: &AffixSettings, i: usize) -> (r: Vec<u8>)
    requires
        i < t.words@.len(),
    ensures
        r@ == candidate1(*t, *affix, i as int),
{
    let mut r: Vec<u8> = Vec::new();
    append_bytes(&mut r, &affix.prefix);
    append_bytes(&mut r, &t.words[i]);
    append_bytes(&mut r, &affix.suffix);
    r
}

/// prefix + word `i` + separator + word `j` + suffix, assembled literally.
fn assemble2(t: &WordTable, affix: &AffixSettings, i: usize, j: usize) -> (r: Vec<u8>)
    requires
        i < t.words@.len(),
        j < t.words@.len(),
    ensures
        r@ == candidate2(*t, *affix, i as int, j as int),
{
    let mut r: Vec<u8> = Vec::new();
    append_bytes(&mut r, &affix.prefix);
    append_bytes(&mut r, &t.words[i]);
    append_bytes(&mut r, &affix.separator);
    append_bytes(&mut r, &t.words[j]);
    append_bytes(&mut r, &affix.suffix);
    r
}

/// prefix + word `i` + separator + word `j` + separator + word `k` + suffix.
fn assemble3(t: &WordTable, affix: &AffixSettings, i: usize, j: usize, k: usize) -> (r: Vec<u8>)
    requires
        i < t.words@.len(),
        j < t.words@.len(),
        k < t.words@.len(),
    ensures
        r@ == candidate3(*t, *affix, i as int, j as int, k as int),
{
    let mut r: Vec<u8> = Vec::new();
    append_bytes(&mut r, &affix.prefix);
    append_bytes(&mut r, &t.words[i]);
    append_bytes(&mut r, &affix.separator);
    append_bytes(&mut r, &t.words[j]);
    append_bytes(&mut r, &affix.separator);
    append_bytes(&mut r, &t.words[k]);
    append_bytes(&mut r, &affix.suffix);
    r
}

proof fn lemma_views_push(s: Seq<Vec<u8>>, x: Vec<u8>)
    ensures
        views_of(s.push(x)) == views_of(s).push(x@),
{
    assert(views_of(s.push(x)) =~= views_of(s).push(x@));
}

/// Every match in the list checksums to the target.
pub open spec fn all_target(s: Seq<Seq<u8>>, target: u32) -> bool {
    forall|k: int| 0 <= k < s.len() ==> crc_of(#[trigger] s[k]) == target
}

/// No other word of the same length shares word `j`'s suffixed checksum, so
/// the reverse index answers `j` itself.
pub open spec fn unambiguous(t: WordTable, j: int) -> bool {
    forall|j2: int|
        0 <= j2 < t.words@.len() && j2 != j && (#[trigger] t.words[j2])@.len() == t.words[j]@.len()
            ==> t.suff[j2] != t.suff[j]
}

proof fn lemma_contains_left(s1: Seq<Seq<u8>>, s2: Seq<Seq<u8>>, x: Seq<u8>)
    requires
        s1.contains(x),
    ensures
        (s1 + s2).contains(x),
{
    let k = choose|k: int| 0 <= k < s1.len() && s1[k] == x;
    assert((s1 + s2)[k] == x);
}

proof fn lemma_contains_right(s1: Seq<Seq<u8>>, s2: Seq<Seq<u8>>, x: Seq<u8>)
    requires
        s2.contains(x),
    ensures
        (s1 + s2).contains(x),
{
    let k = choose|k: int| 0 <= k < s2.len() && s2[k] == x;
    assert((s1 + s2)[s1.len() + k] == x);
}

pub proof fn lemma_all_target_concat(s1: Seq<Seq<u8>>, s2: Seq<Seq<u8>>, target: u32)
    requires
        all_target(s1, target),
        all_target(s2, target),
    ensures
        all_target(s1 + s2, target),
{
    assert forall|k: int| 0 <= k < (s1 + s2).len() implies crc_of(#[trigger] (s1 + s2)[k])
        == target by {
        if k < s1.len() {
            assert((s1 + s2)[k] == s1[k]);
        } else {
            assert((s1 + s2)[k] == s2[k - s1.len()]);
        }
    }
}

proof fn lemma_xor_flip(e: u32, s: u32, t: u32)
    by (bit_vector)
    requires
        t == e ^ s,
    ensures
        s == e ^ t,
{
}

proof fn lemma_xor_cancel2(a: u32, b: u32)
    by (bit_vector)
    ensures
        a ^ b ^ b == a,
        (a ^ b) ^ a == b,
        a ^ (a ^ b) == b,
{
}

/// A hit at lookup step `l` stays in the two-word enumeration through every
/// later step.
proof fn lemma_hits2_contains(
    t: WordTable,
    affix: AffixSettings,
    target: u32,
    i: int,
    l: int,
    hi: int,
    j: usize,
)
    requires
        0 <= l < hi,
        lookup2(t, affix, target, i, l) == Some(j),
    ensures
        hits2_upto(t, affix, target, i, hi).contains(candidate2(t, affix, i, j as int)),
    decreases hi,
{
    let x = candidate2(t, affix, i, j as int);
    if l == hi - 1 {
        let s1 = hits2_upto(t, affix, target, i, hi - 1);
        assert(seq![x][0] == x);
        lemma_contains_right(s1, seq![x], x);
    } else {
        lemma_hits2_contains(t, affix, target, i, l, hi - 1, j);
        let s1 = hits2_upto(t, affix, target, i, hi - 1);
        let s2 = match lookup2(t, affix, target, i, hi - 1) {
            Some(j2) => seq![candidate2(t, affix, i, j2 as int)],
            None => Seq::<Seq<u8>>::empty(),
        };
        lemma_contains_left(s1, s2, x);
    }
}

/// The two-word pass for first word `i`: one reverse-index lookup per
/// possible composed length of the second word.
#[verifier::loop_isolation(false)]
fn scan2(
    matches: &mut Vec<Vec<u8>>,
    target: u32,
    t: &WordTable,
    affix: &AffixSettings,
    i: usize,
    blank0: XivCrc32,
)
    requires
        affix.wf(),
        t.wf(affix.suffix@),
        i < t.words@.len(),
        blank0.crc == blank_crc(*t, *affix, i as int),
        blank0.len <= 3 * crate::table::LEN_BOUND,
        affix.prefix_exact() ==> blank0.summarizes(left2(*t, *affix, i as int)),
    ensures
        views_of(final(matches)@) == views_of(old(matches)@) + hits2_upto(
            *t,
            *affix,
            target,
            i as int,
            t.suffixed@.len() as int,
        ),
        affix.prefix_exact() ==> all_target(
            hits2_upto(*t, *affix, target, i as int, t.suffixed@.len() as int),
            target,
        ),
        affix.prefix_exact() ==> forall|j: int|
            0 <= j < t.words@.len() && unambiguous(*t, j) && crc_of(
                #[trigger] candidate2(*t, *affix, i as int, j),
            ) == target ==> hits2_upto(
                *t,
                *affix,
                target,
                i as int,
                t.suffixed@.len() as int,
            ).contains(candidate2(*t, *affix, i as int, j)),
{
    let ghost base1 = views_of(old(matches)@);
    let ghost x = left2(*t, *affix, i as int);
    let nl = t.suffixed.len();
    let mut l: usize = 0;
    while l < nl
        invariant
            l <= nl,
            views_of(matches@) == base1 + hits2_upto(*t, *affix, target, i as int, l as int),
            affix.prefix_exact() ==> all_target(
                hits2_upto(*t, *affix, target, i as int, l as int),
                target,
            ),
            affix.prefix_exact() ==> forall|y: Seq<u8>|
                #![trigger crc_of(left2(*t, *affix, i as int) + y)]
                1 <= y.len() <= l ==> crc_of(left2(*t, *affix, i as int) + y) == ext2_crc(
                    *t,
                    *affix,
                    i as int,
                    y.len() - 1,
                ) ^ crc_of(y),
        decreases nl - l,
    {
        let e = blank0.extend_by_zero(l + 1);
        let need = e.crc ^ target;
        proof {
            if affix.prefix_exact() {
                assert forall|y: Seq<u8>| y.len() == l + 1 implies #[trigger] crc_of(x + y)
                    == ext2_crc(*t, *affix, i as int, l as int) ^ crc_of(y) by {
                    assert(e.crc == crc_of(x + y) ^ crc_of(y));
                    lemma_xor_cancel2(crc_of(x + y), crc_of(y));
                }
            }
        }
        match t.suffixed[l].get(&need) {
            Some(j) => {
                let msg = assemble2(t, affix, i, *j);
                proof {
                    lemma_views_push(matches@, msg);
                    if affix.prefix_exact() {
                        let jj = *j as int;
                        let y = word_at(*t, jj) + affix.suffix@;
                        assert(t.suffixed[l as int]@.contains_key(need));
                        assert(y.len() == l + 1);
                        assert(crc_of(y) == t.suff[jj]);
                        assert(crc_of(x + y) == e.crc ^ crc_of(y));
                        lemma_xor_cancel2(e.crc, target);
                        assert(crc_of(x + y) == target);
                        assert(candidate2(*t, *affix, i as int, jj) =~= x + y);
                    }
                }
                matches.push(msg);
            },
            None => {},
        }
        proof {
            assert(views_of(matches@) =~= base1 + hits2_upto(*t, *affix, target, i as int, l + 1));
            if affix.prefix_exact() {
                assert(all_target(hits2_upto(*t, *affix, target, i as int, l + 1), target));
            }
        }
        l += 1;
    }
    proof {
        if affix.prefix_exact() {
            assert forall|j: int|
                0 <= j < t.words@.len() && unambiguous(*t, j) && crc_of(
                    #[trigger] candidate2(*t, *affix, i as int, j),
                ) == target implies hits2_upto(
                *t,
                *affix,
                target,
                i as int,
                nl as int,
            ).contains(candidate2(*t, *affix, i as int, j)) by {
                let y = word_at(*t, j) + affix.suffix@;
                let l = y.len() - 1;
                assert(0 <= l < nl && t.suffixed[l]@.contains_key(t.suff[j]));
                assert(candidate2(*t, *affix, i as int, j) =~= x + y);
                assert(crc_of(y) == t.suff[j]);
                assert(crc_of(x + y) == ext2_crc(*t, *affix, i as int, l) ^ crc_of(y));
                lemma_xor_flip(ext2_crc(*t, *affix, i as int, l), crc_of(y), target);
                let need = ext2_crc(*t, *affix, i as int, l) ^ target;
                assert(need == t.suff[j]);
                let stored = t.suffixed[l]@[need];
                assert(t.words[stored as int]@.len() + affix.suffix@.len() == l + 1);
                assert(t.suff[stored as int] == need);
                assert(stored as int == j) by {
                    if stored as int != j {
                        assert(t.words[stored as int]@.len() == t.words[j]@.len());
                        assert(t.suff[stored as int] != t.suff[j]);
                        assert(false);
                    }
                }
                assert(lookup2(*t, *affix, target, i as int, l) == Some(stored));
                lemma_hits2_contains(*t, *affix, target, i as int, l, nl as int, stored);
            }
        }
    }
}

/// A hit at lookup step `l` stays in the three-word inner enumeration
/// through every later step.
proof fn lemma_hits3_inner_contains(
    t: WordTable,
    affix: AffixSettings,
    target: u32,
    i: int,
    j: int,
    l: int,
    hi: int,
    k: usize,
)
    requires
        0 <= l < hi,
        lookup3(t, affix, target, i, j, l) == Some(k),
    ensures
        hits3_inner_upto(t, affix, target, i, j, hi).contains(candidate3(t, affix, i, j, k as int)),
    decreases hi,
{
    let x = candidate3(t, affix, i, j, k as int);
    if l == hi - 1 {
        let s1 = hits3_inner_upto(t, affix, target, i, j, hi - 1);
        assert(seq![x][0] == x);
        lemma_contains_right(s1, seq![x], x);
    } else {
        lemma_hits3_inner_contains(t, affix, target, i, j, l, hi - 1, k);
        let s1 = hits3_inner_upto(t, affix, target, i, j, hi - 1);
        let s2 = match lookup3(t, affix, target, i, j, hi - 1) {
            Some(k2) => seq![candidate3(t, affix, i, j, k2 as int)],
            None => Seq::<Seq<u8>>::empty(),
        };
        lemma_contains_left(s1, s2, x);
    }
}

/// The third-word pass for first word `i` and second word `j`: one lookup
/// per possible composed length of the third word.
#[verifier::loop_isolation(false)]
fn scan3_inner(
    matches: &mut Vec<Vec<u8>>,
    target: u32,
    t: &WordTable,
    affix: &AffixSettings,
    i: usize,
    j: usize,
    mid: XivCrc32,
)
    requires
        affix.wf(),
        t.wf(affix.suffix@),
        i < t.words@.len(),
        j < t.words@.len(),
        mid.crc == mid_sep_crc(*t, *affix, i as int, j as int),
        mid.len <= 5 * crate::table::LEN_BOUND,
        affix.prefix_exact() ==> mid.summarizes(left3(*t, *affix, i as int, j as int)),
    ensures
        views_of(final(matches)@) == views_of(old(matches)@) + hits3_inner_upto(
            *t,
            *affix,
            target,
            i as int,
            j as int,
            t.suffixed@.len() as int,
        ),
        affix.prefix_exact() ==> all_target(
            hits3_inner_upto(*t, *affix, target, i as int, j as int, t.suffixed@.len() as int),
            target,
        ),
        affix.prefix_exact() ==> forall|kk: int|
            0 <= kk < t.words@.len() && unambiguous(*t, kk) && crc_of(
                #[trigger] candidate3(*t, *affix, i as int, j as int, kk),
            ) == target ==> hits3_inner_upto(
                *t,
                *affix,
                target,
                i as int,
                j as int,
                t.suffixed@.len() as int,
            ).contains(candidate3(*t, *affix, i as int, j as int, kk)),
{
    let ghost base4 = views_of(old(matches)@);
    let ghost x = left3(*t, *affix, i as int, j as int);
    let nl = t.suffixed.len();
    let mut l3: usize = 0;
    while l3 < nl
        invariant
            l3 <= nl,
            views_of(matches@) == base4 + hits3_inner_upto(
                *t,
                *affix,
                target,
                i as int,
                j as int,
                l3 as int,
            ),
            affix.prefix_exact() ==> all_target(
                hits3_inner_upto(*t, *affix, target, i as int, j as int, l3 as int),
                target,
            ),
            affix.prefix_exact() ==> forall|y: Seq<u8>|
                #![trigger crc_of(left3(*t, *affix, i as int, j as int) + y)]
                1 <= y.len() <= l3 ==> crc_of(left3(*t, *affix, i as int, j as int) + y)
                    == ext3_crc(*t, *affix, i as int, j as int, y.len() - 1) ^ crc_of(y),
        decreases nl - l3,
    {
        let e3 = mid.extend_by_zero(l3 + 1);
        let need = e3.crc ^ target;
        proof {
            if affix.prefix_exact() {
                assert forall|y: Seq<u8>| y.len() == l3 + 1 implies #[trigger] crc_of(x + y)
                    == ext3_crc(*t, *affix, i as int, j as int, l3 as int) ^ crc_of(y) by {
                    assert(e3.crc == crc_of(x + y) ^ crc_of(y));
                    lemma_xor_cancel2(crc_of(x + y), crc_of(y));
                }
            }
        }
        match t.suffixed[l3].get(&need) {
            Some(kk) => {
                let msg = assemble3(t, affix, i, j, *kk);
                proof {
                    lemma_views_push(matches@, msg);
                    if affix.prefix_exact() {
                        let kki = *kk as int;
                        let y = word_at(*t, kki) + affix.suffix@;
                        assert(t.suffixed[l3 as int]@.contains_key(need));
                        assert(y.len() == l3 + 1);
                        assert(crc_of(y) == t.suff[kki]);
                        assert(crc_of(x + y) == e3.crc ^ crc_of(y));
                        lemma_xor_cancel2(e3.crc, target);
                        assert(crc_of(x + y) == target);
                        assert(candidate3(*t, *affix, i as int, j as int, kki) =~= x + y);
                    }
                }
                matches.push(msg);
            },
            None => {},
        }
        proof {
            assert(views_of(matches@) =~= base4 + hits3_inner_upto(
                *t,
                *affix,
                target,
                i as int,
                j as int,
                l3 + 1,
            ));
            if affix.prefix_exact() {
                assert(all_target(
                    hits3_inner_upto(*t, *affix, target, i as int, j as int, l3 + 1),
                    target,
                ));
            }
        }
        l3 += 1;
    }
    proof {
        if affix.prefix_exact() {
            assert forall|kk: int|
                0 <= kk < t.words@.len() && unambiguous(*t, kk) && crc_of(
                    #[trigger] candidate3(*t, *affix, i as int, j as int, kk),
                ) == target implies hits3_inner_upto(
                *t,
                *affix,
                target,
                i as int,
                j as int,
                nl as int,
            ).contains(candidate3(*t, *affix, i as int, j as int, kk)) by {
                let y = word_at(*t, kk) + affix.suffix@;
                let l = y.len() - 1;
                assert(0 <= l < nl && t.suffixed[l]@.contains_key(t.suff[kk]));
                assert(candidate3(*t, *affix, i as int, j as int, kk) =~= x + y);
                assert(crc_of(y) == t.suff[kk]);
                assert(crc_of(x + y) == ext3_crc(*t, *affix, i as int, j as int, l) ^ crc_of(y));
                lemma_xor_flip(ext3_crc(*t, *affix, i as int, j as int, l), crc_of(y), target);
                let need = ext3_crc(*t, *affix, i as int, j as int, l) ^ target;
                assert(need == t.suff[kk]);
                let stored = t.suffixed[l]@[need];
                assert(t.words[stored as int]@.len() + affix.suffix@.len() == l + 1);
                assert(t.suff[stored as int] == need);
                assert(stored as int == kk) by {
                    if stored as int != kk {
                        assert(t.words[stored as int]@.len() == t.words[kk]@.len());
                        assert(t.suff[stored as int] != t.suff[kk]);
                        assert(false);
                    }
                }
                assert(lookup3(*t, *affix, target, i as int, j as int, l) == Some(stored));
                lemma_hits3_inner_contains(
                    *t,
                    *affix,
                    target,
                    i as int,
                    j as int,
                    l,
                    nl as int,
                    stored,
                );
            }
        }
    }
}

/// What holding word `j` as the second word guarantees: everything emitted
/// checksums to the target, the two-of-three candidate is found if it
/// matches, and so is any three-word candidate whose third word the reverse
/// index answers unambiguously.
pub open spec fn word3_complete(
    t: WordTable,
    affix: AffixSettings,
    target: u32,
    i: int,
    j: int,
) -> bool {
    &&& all_target(hits3_word(t, affix, target, i, j), target)
    &&& crc_of(candidate2(t, affix, i, j)) == target ==> hits3_word(
        t,
        affix,
        target,
        i,
        j,
    ).contains(candidate2(t, affix, i, j))
    &&& forall|kk: int|
        0 <= kk < t.words@.len() && unambiguous(t, kk) && crc_of(
            #[trigger] candidate3(t, affix, i, j, kk),
        ) == target ==> hits3_word(t, affix, target, i, j).contains(candidate3(t, affix, i, j, kk))
}

/// Whatever the pass over the second word at position `k0` of the bucket
/// emitted stays in the bucket's enumeration through every later entry.
proof fn lemma_row_segment(
    t: WordTable,
    affix: AffixSettings,
    target: u32,
    i: int,
    l2: int,
    k0: int,
    hi: int,
    x: Seq<u8>,
)
    requires
        0 <= k0 < hi,
        hits3_word(t, affix, target, i, t.buckets[l2]@[k0] as int).contains(x),
    ensures
        hits3_row_upto(t, affix, target, i, l2, hi).contains(x),
    decreases hi,
{
    if k0 == hi - 1 {
        lemma_contains_right(
            hits3_row_upto(t, affix, target, i, l2, hi - 1),
            hits3_word(t, affix, target, i, t.buckets[l2]@[hi - 1] as int),
            x,
        );
    } else {
        lemma_row_segment(t, affix, target, i, l2, k0, hi - 1, x);
        lemma_contains_left(
            hits3_row_upto(t, affix, target, i, l2, hi - 1),
            hits3_word(t, affix, target, i, t.buckets[l2]@[hi - 1] as int),
            x,
        );
    }
}

/// The three-word pass for first word `i` over length bucket `l2`: each
/// entry is tried as the second word.
#[verifier::loop_isolation(false)]
#[verifier::rlimit(100)]
fn scan3_row(
    matches: &mut Vec<Vec<u8>>,
    target: u32,
    t: &WordTable,
    affix: &AffixSettings,
    i: usize,
    l2: usize,
    e2: XivCrc32,
)
    requires
        affix.wf(),
        t.wf(affix.suffix@),
        i < t.words@.len(),
        l2 < t.buckets@.len(),
        e2.crc == combine_crc(blank_crc(*t, *affix, i as int), 0, (l2 + 1) as nat),
        e2.len <= 4 * crate::table::LEN_BOUND,
        affix.prefix_exact() ==> e2.len == left2(*t, *affix, i as int).len() + l2 + 1,
        affix.prefix_exact() ==> forall|y: Seq<u8>|
            #![trigger crc_of(left2(*t, *affix, i as int) + y)]
            y.len() == l2 + 1 ==> e2.crc == crc_of(left2(*t, *affix, i as int) + y) ^ crc_of(y),
    ensures
        views_of(final(matches)@) == views_of(old(matches)@) + hits3_row_upto(
            *t,
            *affix,
            target,
            i as int,
            l2 as int,
            t.buckets[l2 as int]@.len() as int,
        ),
        affix.prefix_exact() ==> all_target(
            hits3_row_upto(
                *t,
                *affix,
                target,
                i as int,
                l2 as int,
                t.buckets[l2 as int]@.len() as int,
            ),
            target,
        ),
        affix.prefix_exact() ==> forall|j: int|
            0 <= j < t.words@.len() && t.words[j]@.len() == l2 + 1 && crc_of(
                #[trigger] candidate2(*t, *affix, i as int, j),
            ) == target ==> hits3_row_upto(
                *t,
                *affix,
                target,
                i as int,
                l2 as int,
                t.buckets[l2 as int]@.len() as int,
            ).contains(candidate2(*t, *affix, i as int, j)),
        affix.prefix_exact() ==> forall|j: int, kk: int|
            0 <= j < t.words@.len() && t.words[j]@.len() == l2 + 1 && 0 <= kk < t.words@.len()
                && unambiguous(*t, kk) && crc_of(
                #[trigger] candidate3(*t, *affix, i as int, j, kk),
            ) == target ==> hits3_row_upto(
                *t,
                *affix,
                target,
                i as int,
                l2 as int,
                t.buckets[l2 as int]@.len() as int,
            ).contains(candidate3(*t, *affix, i as int, j, kk)),
{
    let ghost base2 = views_of(old(matches)@);
    let ghost xl = left2(*t, *affix, i as int);
    let row_len = t.buckets[l2].len();
    let mut k: usize = 0;
    while k < row_len
        invariant
            k <= row_len,
            views_of(matches@) == base2 + hits3_row_upto(
                *t,
                *affix,
                target,
                i as int,
                l2 as int,
                k as int,
            ),
            affix.prefix_exact() ==> all_target(
                hits3_row_upto(*t, *affix, target, i as int, l2 as int, k as int),
                target,
            ),
            affix.prefix_exact() ==> forall|k2: int|
                0 <= k2 < k ==> word3_complete(
                    *t,
                    *affix,
                    target,
                    i as int,
                    (#[trigger] t.buckets[l2 as int]@[k2]) as int,
                ),
        decreases row_len - k,
    {
        let ghost base3 = views_of(matches@);
        let j = t.buckets[l2][k];
        let comb = e2.xor_compose(XivCrc32::new(t.plain[j].crc, 0));
        let ghost wj = word_at(*t, j as int);
        proof {
            assert(comb.crc == mid_crc(*t, *affix, i as int, j as int));
            if affix.prefix_exact() {
                assert(e2.crc == crc_of(xl + wj) ^ crc_of(wj));
                lemma_xor_cancel2(crc_of(xl + wj), crc_of(wj));
                assert(comb.summarizes(xl + wj));
            }
        }
        let full2 = comb.combine(affix.suffix_cv);
        if full2.crc == target {
            let msg = assemble2(t, affix, i, j);
            proof {
                lemma_views_push(matches@, msg);
            }
            matches.push(msg);
        }
        proof {
            assert(views_of(matches@) =~= base3 + hit2b_part(
                *t,
                *affix,
                target,
                i as int,
                j as int,
            ));
            if affix.prefix_exact() {
                assert(crc_of((xl + wj) + affix.suffix@) == full2.crc);
                assert(candidate2(*t, *affix, i as int, j as int) =~= (xl + wj) + affix.suffix@);
                assert(all_target(hit2b_part(*t, *affix, target, i as int, j as int), target));
            }
        }
        let mid = comb.combine(affix.separator_cv);
        proof {
            if affix.prefix_exact() {
                assert(crc_of((xl + wj) + affix.separator@) == mid.crc);
                assert(left3(*t, *affix, i as int, j as int) =~= (xl + wj) + affix.separator@);
                assert(mid.summarizes(left3(*t, *affix, i as int, j as int)));
            }
        }
        scan3_inner(matches, target, t, affix, i, j, mid);
        proof {
            assert(views_of(matches@) =~= base2 + hits3_row_upto(
                *t,
                *affix,
                target,
                i as int,
                l2 as int,
                k + 1,
            ));
            if affix.prefix_exact() {
                let ji = j as int;
                let h2 = hit2b_part(*t, *affix, target, i as int, ji);
                let h3 = hits3_inner_upto(
                    *t,
                    *affix,
                    target,
                    i as int,
                    ji,
                    t.suffixed@.len() as int,
                );
                lemma_all_target_concat(h2, h3, target);
                if crc_of(candidate2(*t, *affix, i as int, ji)) == target {
                    assert(hit2b(*t, *affix, target, i as int, ji));
                    assert(h2[0] == candidate2(*t, *affix, i as int, ji));
                    lemma_contains_left(h2, h3, candidate2(*t, *affix, i as int, ji));
                }
                assert forall|kk: int|
                    0 <= kk < t.words@.len() && unambiguous(*t, kk) && crc_of(
                        #[trigger] candidate3(*t, *affix, i as int, ji, kk),
                    ) == target implies hits3_word(*t, *affix, target, i as int, ji).contains(
                    candidate3(*t, *affix, i as int, ji, kk),
                ) by {
                    lemma_contains_right(h2, h3, candidate3(*t, *affix, i as int, ji, kk));
                }
                assert(word3_complete(*t, *affix, target, i as int, ji));
            }
        }
        k += 1;
    }
    proof {
        if affix.prefix_exact() {
            let nrow = t.buckets[l2 as int]@.len() as int;
            assert forall|j: int|
                0 <= j < t.words@.len() && t.words[j]@.len() == l2 + 1 && crc_of(
                    #[trigger] candidate2(*t, *affix, i as int, j),
                ) == target implies hits3_row_upto(
                *t,
                *affix,
                target,
                i as int,
                l2 as int,
                nrow,
            ).contains(candidate2(*t, *affix, i as int, j)) by {
                assert(t.buckets[l2 as int]@.contains(j as usize));
                let k0 = choose|k0: int|
                    0 <= k0 < t.buckets[l2 as int]@.len() && t.buckets[l2 as int]@[k0]
                        == j as usize;
                assert(word3_complete(*t, *affix, target, i as int, j));
                lemma_row_segment(
                    *t,
                    *affix,
                    target,
                    i as int,
                    l2 as int,
                    k0,
                    nrow,
                    candidate2(*t, *affix, i as int, j),
                );
            }
            assert forall|j: int, kk: int|
                0 <= j < t.words@.len() && t.words[j]@.len() == l2 + 1 && 0 <= kk
                    < t.words@.len() && unambiguous(*t, kk) && crc_of(
                    #[trigger] candidate3(*t, *affix, i as int, j, kk),
                ) == target implies hits3_row_upto(
                *t,
                *affix,
                target,
                i as int,
                l2 as int,
                nrow,
            ).contains(candidate3(*t, *affix, i as int, j, kk)) by {
                assert(t.buckets[l2 as int]@.contains(j as usize));
                let k0 = choose|k0: int|
                    0 <= k0 < t.buckets[l2 as int]@.len() && t.buckets[l2 as int]@[k0]
                        == j as usize;
                assert(word3_complete(*t, *affix, target, i as int, j));
                lemma_row_segment(
                    *t,
                    *affix,
                    target,
                    i as int,
                    l2 as int,
                    k0,
                    nrow,
                    candidate3(*t, *affix, i as int, j, kk),
                );
            }
        }
    }
}

/// What the pass over length bucket `l2` guarantees for first word `i`.
pub open spec fn row3_complete(
    t: WordTable,
    affix: AffixSettings,
    target: u32,
    i: int,
    l2: int,
) -> bool {
    &&& forall|j: int|
        0 <= j < t.words@.len() && t.words[j]@.len() == l2 + 1 && crc_of(
            #[trigger] candidate2(t, affix, i, j),
        ) == target ==> hits3_row_upto(
            t,
            affix,
            target,
            i,
            l2,
            t.buckets[l2]@.len() as int,
        ).contains(candidate2(t, affix, i, j))
    &&& forall|j: int, kk: int|
        0 <= j < t.words@.len() && t.words[j]@.len() == l2 + 1 && 0 <= kk < t.words@.len()
            && unambiguous(t, kk) && crc_of(#[trigger] candidate3(t, affix, i, j, kk)) == target
            ==> hits3_row_upto(t, affix, target, i, l2, t.buckets[l2]@.len() as int).contains(
            candidate3(t, affix, i, j, kk),
        )
}

/// Whatever the pass over length bucket `l2` emitted stays in the
/// enumeration through every later bucket.
proof fn lemma_bucket_segment(
    t: WordTable,
    affix: AffixSettings,
    target: u32,
    i: int,
    l2: int,
    hi: int,
    x: Seq<u8>,
)
    requires
        0 <= l2 < hi,
        hits3_row_upto(t, affix, target, i, l2, t.buckets[l2]@.len() as int).contains(x),
    ensures
        hits3_upto(t, affix, target, i, hi).contains(x),
    decreases hi,
{
    if l2 == hi - 1 {
        lemma_contains_right(
            hits3_upto(t, affix, target, i, hi - 1),
            hits3_row_upto(t, affix, target, i, hi - 1, t.buckets[hi - 1]@.len() as int),
            x,
        );
    } else {
        lemma_bucket_segment(t, affix, target, i, l2, hi - 1, x);
        lemma_contains_left(
            hits3_upto(t, affix, target, i, hi - 1),
            hits3_row_upto(t, affix, target, i, hi - 1, t.buckets[hi - 1]@.len() as int),
            x,
        );
    }
}

/// The full three-word pass for first word `i`: every length bucket in turn.
#[verifier::loop_isolation(false)]
fn scan3(
    matches: &mut Vec<Vec<u8>>,
    target: u32,
    t: &WordTable,
    affix: &AffixSettings,
    i: usize,
    blank0: XivCrc32,
)
    requires
        affix.wf(),
        t.wf(affix.suffix@),
        i < t.words@.len(),
        blank0.crc == blank_crc(*t, *affix, i as int),
        blank0.len <= 3 * crate::table::LEN_BOUND,
        affix.prefix_exact() ==> blank0.summarizes(left2(*t, *affix, i as int)),
    ensures
        views_of(final(matches)@) == views_of(old(matches)@) + hits3_upto(
            *t,
            *affix,
            target,
            i as int,
            t.buckets@.len() as int,
        ),
        affix.prefix_exact() ==> all_target(
            hits3_upto(*t, *affix, target, i as int, t.buckets@.len() as int),
            target,
        ),
        affix.prefix_exact() ==> forall|j: int|
            0 <= j < t.words@.len() && crc_of(#[trigger] candidate2(*t, *affix, i as int, j))
                == target ==> hits3_upto(
                *t,
                *affix,
                target,
                i as int,
                t.buckets@.len() as int,
            ).contains(candidate2(*t, *affix, i as int, j)),
        affix.prefix_exact() ==> forall|j: int, kk: int|
            0 <= j < t.words@.len() && 0 <= kk < t.words@.len() && unambiguous(*t, kk) && crc_of(
                #[trigger] candidate3(*t, *affix, i as int, j, kk),
            ) == target ==> hits3_upto(
                *t,
                *affix,
                target,
                i as int,
                t.buckets@.len() as int,
            ).contains(candidate3(*t, *affix, i as int, j, kk)),
{
    let ghost base1 = views_of(old(matches)@);
    let ghost xl = left2(*t, *affix, i as int);
    let nb = t.buckets.len();
    let mut l2: usize = 0;
    while l2 < nb
        invariant
            l2 <= nb,
            views_of(matches@) == base1 + hits3_upto(*t, *affix, target, i as int, l2 as int),
            affix.prefix_exact() ==> all_target(
                hits3_upto(*t, *affix, target, i as int, l2 as int),
                target,
            ),
            affix.prefix_exact() ==> forall|l2p: int|
                0 <= l2p < l2 ==> #[trigger] row3_complete(*t, *affix, target, i as int, l2p),
        decreases nb - l2,
    {
        let e2 = blank0.extend_by_zero(l2 + 1);
        proof {
            if affix.prefix_exact() {
                assert forall|y: Seq<u8>| y.len() == l2 + 1 implies e2.crc == crc_of(
                    #[trigger] (left2(*t, *affix, i as int) + y),
                ) ^ crc_of(y) by {
                    assert(e2.crc == crc_of(xl + y) ^ crc_of(y));
                }
            }
        }
        scan3_row(matches, target, t, affix, i, l2, e2);
        proof {
            assert(views_of(matches@) =~= base1 + hits3_upto(*t, *affix, target, i as int, l2 + 1));
            if affix.prefix_exact() {
                lemma_all_target_concat(
                    hits3_upto(*t, *affix, target, i as int, l2 as int),
                    hits3_row_upto(
                        *t,
                        *affix,
                        target,
                        i as int,
                        l2 as int,
                        t.buckets[l2 as int]@.len() as int,
                    ),
                    target,
                );
                assert(row3_complete(*t, *affix, target, i as int, l2 as int));
            }
        }
        l2 += 1;
    }
    proof {
        if affix.prefix_exact() {
            assert forall|j: int|
                0 <= j < t.words@.len() && crc_of(#[trigger] candidate2(*t, *affix, i as int, j))
                    == target implies hits3_upto(
                *t,
                *affix,
                target,
                i as int,
                nb as int,
            ).contains(candidate2(*t, *affix, i as int, j)) by {
                let l2 = t.words[j]@.len() - 1;
                assert(row3_complete(*t, *affix, target, i as int, l2));
                lemma_bucket_segment(
                    *t,
                    *affix,
                    target,
                    i as int,
                    l2,
                    nb as int,
                    candidate2(*t, *affix, i as int, j),
                );
            }
            assert forall|j: int, kk: int|
                0 <= j < t.words@.len() && 0 <= kk < t.words@.len() && unambiguous(*t, kk)
                    && crc_of(#[trigger] candidate3(*t, *affix, i as int, j, kk))
                    == target implies hits3_upto(
                *t,
                *affix,
                target,
                i as int,
                nb as int,
            ).contains(candidate3(*t, *affix, i as int, j, kk)) by {
                let l2 = t.words[j]@.len() - 1;
                assert(row3_complete(*t, *affix, target, i as int, l2));
                lemma_bucket_segment(
                    *t,
                    *affix,
                    target,
                    i as int,
                    l2,
                    nb as int,
                    candidate3(*t, *affix, i as int, j, kk),
                );
            }
        }
    }
}

/// What processing first word `i` guarantees: everything emitted checksums
/// to the target, and every candidate anchored at word `i` that the search
/// is answerable for is found.
pub open spec fn word_complete(
    t: WordTable,
    affix: AffixSettings,
    target: u32,
    max_words: int,
    i: int,
) -> bool {
    &&& all_target(word_hits(t, affix, target, max_words, i), target)
    &&& crc_of(candidate1(t, affix, i)) == target ==> word_hits(
        t,
        affix,
        target,
        max_words,
        i,
    ).contains(candidate1(t, affix, i))
    &&& max_words == 2 ==> forall|j: int|
        0 <= j < t.words@.len() && unambiguous(t, j) && crc_of(
            #[trigger] candidate2(t, affix, i, j),
        ) == target ==> word_hits(t, affix, target, max_words, i).contains(
            candidate2(t, affix, i, j),
        )
    &&& max_words == 3 ==> forall|j: int|
        0 <= j < t.words@.len() && crc_of(#[trigger] candidate2(t, affix, i, j)) == target
            ==> word_hits(t, affix, target, max_words, i).contains(candidate2(t, affix, i, j))
    &&& max_words == 3 ==> forall|j: int, kk: int|
        0 <= j < t.words@.len() && 0 <= kk < t.words@.len() && unambiguous(t, kk) && crc_of(
            #[trigger] candidate3(t, affix, i, j, kk),
        ) == target ==> word_hits(t, affix, target, max_words, i).contains(
            candidate3(t, affix, i, j, kk),
        )
}

/// Whatever processing first word `i` emitted stays in the shard's
/// enumeration through every later word.
pub proof fn lemma_shard_segment(
    t: WordTable,
    affix: AffixSettings,
    target: u32,
    max_words: int,
    lo: int,
    i: int,
    hi: int,
    x: Seq<u8>,
)
    requires
        lo <= i < hi,
        word_hits(t, affix, target, max_words, i).contains(x),
    ensures
        shard_hits(t, affix, target, max_words, lo, hi).contains(x),
    decreases hi - lo,
{
    if i == hi - 1 {
        lemma_contains_right(
            shard_hits(t, affix, target, max_words, lo, hi - 1),
            word_hits(t, affix, target, max_words, hi - 1),
            x,
        );
    } else {
        lemma_shard_segment(t, affix, target, max_words, lo, i, hi - 1, x);
        lemma_contains_left(
            shard_hits(t, affix, target, max_words, lo, hi - 1),
            word_hits(t, affix, target, max_words, hi - 1),
            x,
        );
    }
}

/// Enumerates the shard `[lo, hi)` of first words against one target hash
/// and returns the assembled matches, in iteration order.
///
/// The matches are exactly the candidates the table lookups answer, and when
/// the prefix checksum is that of the prefix literal, every match checksums
/// to the target and every candidate the search is answerable for is among
/// the matches: any matching one-word candidate; any matching two-word
/// candidate whose second word's suffixed checksum is unambiguous (in
/// two-word mode) or any matching two-word candidate at all (in three-word
/// mode, which re-tests them directly); and any matching three-word
/// candidate whose third word's suffixed checksum is unambiguous.
#[verifier::loop_isolation(false)]
pub fn search_shard(
    target: u32,
    t: &WordTable,
    affix: &AffixSettings,
    lo: usize,
    hi: usize,
    max_words: usize,
) -> (matches: Vec<Vec<u8>>)
    requires
        affix.wf(),
        t.wf(affix.suffix@),
        lo <= hi <= t.words@.len(),
        1 <= max_words <= 3,
    ensures
        views_of(matches@) == shard_hits(
            *t,
            *affix,
            target,
            max_words as int,
            lo as int,
            hi as int,
        ),
        affix.prefix_exact() ==> all_target(
            shard_hits(*t, *affix, target, max_words as int, lo as int, hi as int),
            target,
        ),
        affix.prefix_exact() ==> forall|i: int|
            lo <= i < hi ==> #[trigger] word_complete(*t, *affix, target, max_words as int, i),
        affix.prefix_exact() ==> forall|i: int|
            lo <= i < hi && crc_of(#[trigger] candidate1(*t, *affix, i)) == target ==> shard_hits(
                *t,
                *affix,
                target,
                max_words as int,
                lo as int,
                hi as int,
            ).contains(candidate1(*t, *affix, i)),
        affix.prefix_exact() && max_words == 2 ==> forall|i: int, j: int|
            lo <= i < hi && 0 <= j < t.words@.len() && unambiguous(*t, j) && crc_of(
                #[trigger] candidate2(*t, *affix, i, j),
            ) == target ==> shard_hits(
                *t,
                *affix,
                target,
                max_words as int,
                lo as int,
                hi as int,
            ).contains(candidate2(*t, *affix, i, j)),
        affix.prefix_exact() && max_words == 3 ==> forall|i: int, j: int|
            lo <= i < hi && 0 <= j < t.words@.len() && crc_of(
                #[trigger] candidate2(*t, *affix, i, j),
            ) == target ==> shard_hits(
                *t,
                *affix,
                target,
                max_words as int,
                lo as int,
                hi as int,
            ).contains(candidate2(*t, *affix, i, j)),
        affix.prefix_exact() && max_words == 3 ==> forall|i: int, j: int, kk: int|
            lo <= i < hi && 0 <= j < t.words@.len() && 0 <= kk < t.words@.len() && unambiguous(
                *t,
                kk,
            ) && crc_of(#[trigger] candidate3(*t, *affix, i, j, kk)) == target ==> shard_hits(
                *t,
                *affix,
                target,
                max_words as int,
                lo as int,
                hi as int,
            ).contains(candidate3(*t, *affix, i, j, kk)),
{
    let mut matches: Vec<Vec<u8>> = Vec::new();
    proof {
        assert(views_of(matches@) =~= Seq::<Seq<u8>>::empty());
    }
    let mut i: usize = lo;
    while i < hi
        invariant
            lo <= i <= hi,
            views_of(matches@) == shard_hits(
                *t,
                *affix,
                target,
                max_words as int,
                lo as int,
                i as int,
            ),
            affix.prefix_exact() ==> all_target(
                shard_hits(*t, *affix, target, max_words as int, lo as int, i as int),
                target,
            ),
            affix.prefix_exact() ==> forall|ip: int|
                lo <= ip < i ==> #[trigger] word_complete(
                    *t,
                    *affix,
                    target,
                    max_words as int,
                    ip,
                ),
        decreases hi - i,
    {
        let ghost done = views_of(matches@);
        let pre = affix.prefix_cv.combine(t.plain[i]);
        proof {
            if affix.prefix_exact() {
                assert(crc_of(affix.prefix@ + word_at(*t, i as int)) == pre.crc);
                assert(pre.summarizes(affix.prefix@ + word_at(*t, i as int)));
            }
        }
        let full1 = pre.combine(affix.suffix_cv);
        proof {
            if affix.prefix_exact() {
                assert(crc_of((affix.prefix@ + word_at(*t, i as int)) + affix.suffix@)
                    == full1.crc);
                assert(candidate1(*t, *affix, i as int) =~= (affix.prefix@ + word_at(*t, i as int))
                    + affix.suffix@);
            }
        }
        if full1.crc == target {
            let msg = assemble1(t, affix, i);
            proof {
                lemma_views_push(matches@, msg);
            }
            matches.push(msg);
        }
        proof {
            assert(views_of(matches@) =~= done + hit1_part(*t, *affix, target, i as int));
        }
        if max_words == 2 {
            let blank0 = pre.combine(affix.separator_cv);
            proof {
                if affix.prefix_exact() {
                    assert(crc_of((affix.prefix@ + word_at(*t, i as int)) + affix.separator@)
                        == blank0.crc);
                    assert(left2(*t, *affix, i as int) =~= (affix.prefix@ + word_at(*t, i as int))
                        + affix.separator@);
                    assert(blank0.summarizes(left2(*t, *affix, i as int)));
                }
            }
            scan2(&mut matches, target, t, affix, i, blank0);
        } else if max_words == 3 {
            let blank0 = pre.combine(affix.separator_cv);
            proof {
                if affix.prefix_exact() {
                    assert(crc_of((affix.prefix@ + word_at(*t, i as int)) + affix.separator@)
                        == blank0.crc);
                    assert(left2(*t, *affix, i as int) =~= (affix.prefix@ + word_at(*t, i as int))
                        + affix.separator@);
                    assert(blank0.summarizes(left2(*t, *affix, i as int)));
                }
            }
            scan3(&mut matches, target, t, affix, i, blank0);
        }
        proof {
            assert(views_of(matches@) =~= shard_hits(
                *t,
                *affix,
                target,
                max_words as int,
                lo as int,
                i + 1,
            ));
            if affix.prefix_exact() {
                let ii = i as int;
                let mw = max_words as int;
                let h1 = hit1_part(*t, *affix, target, ii);
                let rest = if mw == 2 {
                    hits2_upto(*t, *affix, target, ii, t.suffixed@.len() as int)
                } else if mw >= 3 {
                    hits3_upto(*t, *affix, target, ii, t.buckets@.len() as int)
                } else {
                    Seq::<Seq<u8>>::empty()
                };
                assert(all_target(h1, target));
                assert(all_target(rest, target));
                lemma_all_target_concat(h1, rest, target);
                if crc_of(candidate1(*t, *affix, ii)) == target {
                    assert(hit1(*t, *affix, target, ii));
                    assert(h1[0] == candidate1(*t, *affix, ii));
                    lemma_contains_left(h1, rest, candidate1(*t, *affix, ii));
                }
                if mw == 2 {
                    assert forall|j: int|
                        0 <= j < t.words@.len() && unambiguous(*t, j) && crc_of(
                            #[trigger] candidate2(*t, *affix, ii, j),
                        ) == target implies word_hits(*t, *affix, target, mw, ii).contains(
                        candidate2(*t, *affix, ii, j),
                    ) by {
                        lemma_contains_right(h1, rest, candidate2(*t, *affix, ii, j));
                    }
                }
                if mw == 3 {
                    assert forall|j: int|
                        0 <= j < t.words@.len() && crc_of(#[trigger] candidate2(*t, *affix, ii, j))
                            == target implies word_hits(*t, *affix, target, mw, ii).contains(
                        candidate2(*t, *affix, ii, j),
                    ) by {
                        lemma_contains_right(h1, rest, candidate2(*t, *affix, ii, j));
                    }
                    assert forall|j: int, kk: int|
                        0 <= j < t.words@.len() && 0 <= kk < t.words@.len() && unambiguous(*t, kk)
                            && crc_of(#[trigger] candidate3(*t, *affix, ii, j, kk))
                            == target implies word_hits(*t, *affix, target, mw, ii).contains(
                        candidate3(*t, *affix, ii, j, kk),
                    ) by {
                        lemma_contains_right(h1, rest, candidate3(*t, *affix, ii, j, kk));
                    }
                }
                assert(word_complete(*t, *affix, target, mw, ii));
                lemma_all_target_concat(
                    shard_hits(*t, *affix, target, mw, lo as int, ii),
                    word_hits(*t, *affix, target, mw, ii),
                    target,
                );
            }
        }
        i += 1;
    }
    proof {
        if affix.prefix_exact() {
            let mw = max_words as int;
            assert forall|ii: int|
                lo <= ii < hi && crc_of(#[trigger] candidate1(*t, *affix, ii))
                    == target implies shard_hits(
                *t,
                *affix,
                target,
                mw,
                lo as int,
                hi as int,
            ).contains(candidate1(*t, *affix, ii)) by {
                assert(word_complete(*t, *affix, target, mw, ii));
                lemma_shard_segment(
                    *t,
                    *affix,
                    target,
                    mw,
                    lo as int,
                    ii,
                    hi as int,
                    candidate1(*t, *affix, ii),
                );
            }
            if mw == 2 {
                assert forall|ii: int, j: int|
                    lo <= ii < hi && 0 <= j < t.words@.len() && unambiguous(*t, j) && crc_of(
                        #[trigger] candidate2(*t, *affix, ii, j),
                    ) == target implies shard_hits(
                    *t,
                    *affix,
                    target,
                    mw,
                    lo as int,
                    hi as int,
                ).contains(candidate2(*t, *affix, ii, j)) by {
                    assert(word_complete(*t, *affix, target, mw, ii));
                    lemma_shard_segment(
                        *t,
                        *affix,
                        target,
                        mw,
                        lo as int,
                        ii,
                        hi as int,
                        candidate2(*t, *affix, ii, j),
                    );
                }
            }
            if mw == 3 {
                assert forall|ii: int, j: int|
                    lo <= ii < hi && 0 <= j < t.words@.len() && crc_of(
                        #[trigger] candidate2(*t, *affix, ii, j),
                    ) == target implies shard_hits(
                    *t,
                    *affix,
                    target,
                    mw,
                    lo as int,
                    hi as int,
                ).contains(candidate2(*t, *affix, ii, j)) by {
                    assert(word_complete(*t, *affix, target, mw, ii));
                    lemma_shard_segment(
                        *t,
                        *affix,
                        target,
                        mw,
                        lo as int,
                        ii,
                        hi as int,
                        candidate2(*t, *affix, ii, j),
                    );
                }
                assert forall|ii: int, j: int, kk: int|
                    lo <= ii < hi && 0 <= j < t.words@.len() && 0 <= kk < t.words@.len()
                        && unambiguous(*t, kk) && crc_of(
                        #[trigger] candidate3(*t, *affix, ii, j, kk),
                    ) == target implies shard_hits(
                    *t,
                    *affix,
                    target,
                    mw,
                    lo as int,
                    hi as int,
                ).contains(candidate3(*t, *affix, ii, j, kk)) by {
                    assert(word_complete(*t, *affix, target, mw, ii));
                    lemma_shard_segment(
                        *t,
                        *affix,
                        target,
                        mw,
                        lo as int,
                        ii,
                        hi as int,
                        candidate3(*t, *affix, ii, j, kk),
                    );
                }
            }
        }
    }
    matches
}

} // verus!
