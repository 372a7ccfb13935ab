//! Affix settings and the precomputed word table the search consults.
//!
//! The table holds, for every dictionary word, its plain checksum, its
//! suffixed checksum (word followed by the suffix), a bucketing of the words
//! by byte length, and a reverse index from suffixed checksum back to the
//! word, bucketed by composed length. Two distinct words whose suffixed
//! checksums collide at the same composed length are recorded, not silently
//! dropped: the later insertion wins in the reverse index, which would
//! otherwise cause unreported false negatives.

use vstd::prelude::*;
use std::collections::HashMap;
use crate::crc::{XivCrc32, crc_of};

verus! {

broadcast use vstd::std_specs::hash::group_hash_axioms;

/// Upper bound on the byte length of a single word or affix literal; keeps
/// every length sum comfortably inside `usize` on any platform.
pub const LEN_BOUND: usize = 0x1000_0000;

/// The fixed template around the candidate words, with the precomputed
/// checksum of each part. The prefix checksum may be supplied externally
/// instead of being computed from the literal text.
pub struct AffixSettings {
    pub prefix: Vec<u8>,
    pub separator: Vec<u8>,
    pub suffix: Vec<u8>,
    pub prefix_cv: XivCrc32,
    pub separator_cv: XivCrc32,
    pub suffix_cv: XivCrc32,
}

impl AffixSettings {
    pub open spec fn wf(self) -> bool {
        &&& self.prefix@.len() <= LEN_BOUND
        &&& self.prefix_cv.len <= LEN_BOUND
        &&& self.separator@.len() <= LEN_BOUND
        &&& self.suffix@.len() <= LEN_BOUND
        &&& self.separator_cv.summarizes(self.separator@)
        &&& self.suffix_cv.summarizes(self.suffix@)
    }

    /// The prefix checksum really is the checksum of the prefix literal
    /// (false when an external prefix hash was supplied).
    pub open spec fn prefix_exact(self) -> bool {
        self.prefix_cv.summarizes(self.prefix@)
    }

    /// Settings whose three checksums are all computed from the literals.
    pub fn from_literals(prefix: Vec<u8>, separator: Vec<u8>, suffix: Vec<u8>) -> (r:
        AffixSettings)
        requires
            prefix@.len() <= LEN_BOUND,
            separator@.len() <= LEN_BOUND,
            suffix@.len() <= LEN_BOUND,
        ensures
            r.wf(),
            r.prefix_exact(),
            r.prefix == prefix,
            r.separator == separator,
            r.suffix == suffix,
    {
        let prefix_cv = XivCrc32::from_bytes(prefix.as_slice());
        let separator_cv = XivCrc32::from_bytes(separator.as_slice());
        let suffix_cv = XivCrc32::from_bytes(suffix.as_slice());
        AffixSettings { prefix, separator, suffix, prefix_cv, separator_cv, suffix_cv }
    }

    /// Settings with an externally supplied prefix checksum composed in front
    /// of the prefix literal's own checksum, for when the prefix is unknown
    /// but its hash is known.
    pub fn with_prefix_hash(
        prefix: Vec<u8>,
        prefix_hash: u32,
        separator: Vec<u8>,
        suffix: Vec<u8>,
    ) -> (r: AffixSettings)
        requires
            prefix@.len() <= LEN_BOUND,
            separator@.len() <= LEN_BOUND,
            suffix@.len() <= LEN_BOUND,
        ensures
            r.wf(),
            r.prefix == prefix,
            r.separator == separator,
            r.suffix == suffix,
            r.prefix_cv.len == prefix@.len(),
            r.prefix_cv.crc == crate::crc::combine_crc(
                prefix_hash,
                crc_of(prefix@),
                prefix@.len() as nat,
            ),
    {
        let lit_cv = XivCrc32::from_bytes(prefix.as_slice());
        let prefix_cv = XivCrc32::new(prefix_hash, 0).combine(lit_cv);
        let separator_cv = XivCrc32::from_bytes(separator.as_slice());
        let suffix_cv = XivCrc32::from_bytes(suffix.as_slice());
        AffixSettings { prefix, separator, suffix, prefix_cv, separator_cv, suffix_cv }
    }
}

/// A reverse-index collision: while building, the word at index `later` was
/// inserted under a suffixed checksum and composed length already occupied by
/// the word at index `earlier`; `later` is the one the index now answers.
#[derive(Clone, Copy, PartialEq, Eq, Structural, Debug)]
pub struct Collision {
    pub earlier: usize,
    pub later: usize,
}

/// The derived, read-only tables shared by every search worker.
pub struct WordTable {
    /// The dictionary the table was built from.
    pub words: Vec<Vec<u8>>,
    /// `plain[i]` is the checksum of `words[i]`.
    pub plain: Vec<XivCrc32>,
    /// `suff[i]` is the checksum of `words[i]` followed by the suffix.
    pub suff: Vec<u32>,
    /// `buckets[l]` holds the indices of the words of byte length `l + 1`,
    /// in increasing order.
    pub buckets: Vec<Vec<usize>>,
    /// `suffixed[l]` maps the suffixed checksum of a word of composed length
    /// `l + 1` (word plus suffix) back to the word's index; on a collision
    /// the later insertion wins.
    pub suffixed: Vec<HashMap<u32, usize>>,
}

impl WordTable {
    /// Every word is nonempty and of bounded length.
    pub open spec fn words_ok(self) -> bool {
        forall|i: int|
            0 <= i < self.words@.len() ==> 1 <= (#[trigger] self.words[i])@.len() <= LEN_BOUND
    }

    /// The first `m` plain and suffixed checksums are those of the words.
    pub open spec fn sums_ok(self, suffix: Seq<u8>, m: int) -> bool {
        &&& self.plain@.len() == m
        &&& self.suff@.len() == m
        &&& forall|i: int| 0 <= i < m ==> (#[trigger] self.plain[i]).summarizes(self.words[i]@)
        &&& forall|i: int| 0 <= i < m ==> #[trigger] self.suff[i] == crc_of(self.words[i]@ + suffix)
    }

    /// The length buckets hold exactly the indices below `m` of the words of
    /// the bucket's length, in increasing order.
    pub open spec fn buckets_ok(self, m: int) -> bool {
        &&& self.buckets@.len() <= LEN_BOUND
        &&& forall|l: int, k: int|
            #![trigger self.buckets[l]@[k]]
            0 <= l < self.buckets@.len() && 0 <= k < self.buckets[l]@.len() ==> {
                let i = self.buckets[l]@[k] as int;
                &&& 0 <= i < m
                &&& i < self.words@.len()
                &&& self.words[i]@.len() == l + 1
            }
        &&& forall|l: int, k1: int, k2: int|
            #![trigger self.buckets[l]@[k1], self.buckets[l]@[k2]]
            0 <= l < self.buckets@.len() && 0 <= k1 < k2 < self.buckets[l]@.len()
                ==> self.buckets[l]@[k1] < self.buckets[l]@[k2]
        &&& forall|i: int|
            0 <= i < m ==> {
                let l = (#[trigger] self.words[i])@.len() - 1;
                &&& l < self.buckets@.len()
                &&& self.buckets[l]@.contains(i as usize)
            }
    }

    /// The reverse index is sound (every entry is the latest word below `m`
    /// with that suffixed checksum at that composed length) and complete
    /// (every word below `m` is found under its suffixed checksum).
    pub open spec fn index_ok(self, suffix: Seq<u8>, m: int) -> bool {
        &&& self.suffixed@.len() <= 2 * LEN_BOUND
        &&& forall|l: int, c: u32|
            #![trigger self.suffixed[l]@.contains_key(c)]
            0 <= l < self.suffixed@.len() && self.suffixed[l]@.contains_key(c) ==> {
                let i = self.suffixed[l]@[c] as int;
                &&& 0 <= i < m
                &&& i < self.words@.len()
                &&& self.words[i]@.len() + suffix.len() == l + 1
                &&& self.suff[i] == c
                &&& forall|i2: int|
                    i < i2 < m && (#[trigger] self.words[i2])@.len() + suffix.len() == l + 1
                        ==> self.suff[i2] != c
            }
        &&& forall|i: int|
            0 <= i < m ==> {
                let l = (#[trigger] self.words[i])@.len() + suffix.len() - 1;
                &&& 0 <= l < self.suffixed@.len()
                &&& self.suffixed[l]@.contains_key(self.suff[i])
            }
    }

    /// The table is fully built from its words and the given suffix.
    pub open spec fn wf(self, suffix: Seq<u8>) -> bool {
        &&& suffix.len() <= LEN_BOUND
        &&& self.words_ok()
        &&& self.sums_ok(suffix, self.words@.len() as int)
        &&& self.buckets_ok(self.words@.len() as int)
        &&& self.index_ok(suffix, self.words@.len() as int)
    }
}

/// Some earlier word of the same length has the same suffixed checksum as
/// word `j`.
pub open spec fn collides_before(t: WordTable, j: int) -> bool {
    exists|i: int|
        0 <= i < j && (#[trigger] t.words[i])@.len() == t.words[j]@.len() && t.suff[i]
            == t.suff[j]
}

/// The collision log is sound (each entry names two distinct same-length
/// words with equal suffixed checksums), ordered, and complete (every word
/// below `m` that repeats an earlier suffixed checksum has an entry).
pub open spec fn collisions_ok(t: WordTable, cols: Seq<Collision>, m: int) -> bool {
    &&& forall|k: int|
        0 <= k < cols.len() ==> {
            let col = #[trigger] cols[k];
            &&& col.earlier < col.later
            &&& (col.later as int) < m
            &&& (col.later as int) < t.words@.len()
            &&& t.words[col.earlier as int]@.len() == t.words[col.later as int]@.len()
            &&& t.suff[col.earlier as int] == t.suff[col.later as int]
        }
    &&& forall|k1: int, k2: int|
        #![trigger cols[k1], cols[k2]]
        0 <= k1 < k2 < cols.len() ==> cols[k1].later < cols[k2].later
    &&& forall|j: int|
        0 <= j < m && #[trigger] collides_before(t, j) ==> exists|k: int|
            0 <= k < cols.len() && (#[trigger] cols[k]).later == j
}

/// Appends empty rows until there are at least `target` of them; existing
/// rows are untouched.
fn grow_rows(v: &mut Vec<Vec<usize>>, target: usize)
    ensures
        final(v)@.len() >= target,
        final(v)@.len() >= old(v)@.len(),
        old(v)@.len() >= target ==> final(v)@.len() == old(v)@.len(),
        old(v)@.len() < target ==> final(v)@.len() == target,
        forall|l: int| 0 <= l < old(v)@.len() ==> final(v)@[l] == old(v)@[l],
        forall|l: int| old(v)@.len() <= l < final(v)@.len() ==> (#[trigger] final(v)@[l])@.len() == 0,
{
    while v.len() < target
        invariant
            v@.len() >= old(v)@.len(),
            v@.len() <= target || v@.len() == old(v)@.len(),
            forall|l: int| 0 <= l < old(v)@.len() ==> v@[l] == old(v)@[l],
            forall|l: int| old(v)@.len() <= l < v@.len() ==> (#[trigger] v@[l])@.len() == 0,
        decreases target - v@.len(),
    {
        v.push(Vec::new());
    }
}

/// Appends empty maps until there are at least `target` of them; existing
/// maps are untouched.
fn grow_maps(v: &mut Vec<HashMap<u32, usize>>, target: usize)
    ensures
        final(v)@.len() >= target,
        final(v)@.len() >= old(v)@.len(),
        old(v)@.len() >= target ==> final(v)@.len() == old(v)@.len(),
        old(v)@.len() < target ==> final(v)@.len() == target,
        forall|l: int| 0 <= l < old(v)@.len() ==> final(v)@[l] == old(v)@[l],
        forall|l: int|
            old(v)@.len() <= l < final(v)@.len() ==> (#[trigger] final(v)@[l])@ == Map::<
                u32,
                usize,
            >::empty(),
{
    while v.len() < target
        invariant
            v@.len() >= old(v)@.len(),
            v@.len() <= target || v@.len() == old(v)@.len(),
            forall|l: int| 0 <= l < old(v)@.len() ==> v@[l] == old(v)@[l],
            forall|l: int|
                old(v)@.len() <= l < v@.len() ==> (#[trigger] v@[l])@ == Map::<u32, usize>::empty(),
        decreases target - v@.len(),
    {
        v.push(HashMap::new());
    }
}

/// Appends `i` to row `l`; every other row is untouched.
fn push_index(v: &mut Vec<Vec<usize>>, l: usize, i: usize)
    requires
        l < old(v)@.len(),
    ensures
        final(v)@.len() == old(v)@.len(),
        forall|l2: int| 0 <= l2 < old(v)@.len() && l2 != l ==> final(v)@[l2] == old(v)@[l2],
        final(v)@[l as int]@ == old(v)@[l as int]@.push(i),
{
    let row = &mut v[l];
    row.push(i);
}

/// Inserts `key -> i` into map `l`, returning the evicted value if the key
/// was already present; every other map is untouched.
fn insert_index(v: &mut Vec<HashMap<u32, usize>>, l: usize, key: u32, i: usize) -> (prev: Option<
    usize,
>)
    requires
        l < old(v)@.len(),
    ensures
        final(v)@.len() == old(v)@.len(),
        forall|l2: int| 0 <= l2 < old(v)@.len() && l2 != l ==> final(v)@[l2] == old(v)@[l2],
        final(v)@[l as int]@ == old(v)@[l as int]@.insert(key, i),
        match prev {
            Some(p) => old(v)@[l as int]@.contains_key(key) && p == old(v)@[l as int]@[key],
            None => !old(v)@[l as int]@.contains_key(key),
        },
{
    let m = &mut v[l];
    m.insert(key, i)
}

/// Builds the word table from a finalized dictionary and affix settings in a
/// single pass, returning the table and the reverse-index collision log.
#[verifier::loop_isolation(false)]
#[verifier::rlimit(100)]
pub fn build_word_table(words: Vec<Vec<u8>>, affix: &AffixSettings) -> (r: (
    WordTable,
    Vec<Collision>,
))
    requires
        affix.wf(),
        forall|i: int| 0 <= i < words@.len() ==> 1 <= (#[trigger] words[i])@.len() <= LEN_BOUND,
    ensures
        r.0.wf(affix.suffix@),
        r.0.words == words,
        collisions_ok(r.0, r.1@, words@.len() as int),
{
    let n = words.len();
    let mut t = WordTable {
        words,
        plain: Vec::new(),
        suff: Vec::new(),
        buckets: Vec::new(),
        suffixed: Vec::new(),
    };
    let mut cols: Vec<Collision> = Vec::new();
    let mut i: usize = 0;
    while i < n
        invariant
            i <= n,
            t.words == words,
            t.words_ok(),
            t.sums_ok(affix.suffix@, i as int),
            t.buckets_ok(i as int),
            t.index_ok(affix.suffix@, i as int),
            collisions_ok(t, cols@, i as int),
        decreases n - i,
    {
        let ghost t0 = t;
        let ghost cols0 = cols@;
        let cv = XivCrc32::from_bytes(t.words[i].as_slice());
        let scv = cv.combine(affix.suffix_cv);
        proof {
            assert(crc_of(t.words[i as int]@ + affix.suffix@) == scv.crc);
        }
        t.plain.push(cv);
        t.suff.push(scv.crc);
        let wlen = t.words[i].len();

        grow_rows(&mut t.buckets, wlen);
        let ghost b1 = t.buckets@;
        push_index(&mut t.buckets, wlen - 1, i);
        proof {
            let bl = wlen - 1;
            assert forall|ii: int| 0 <= ii < i + 1 implies {
                let l = (#[trigger] t.words[ii])@.len() - 1;
                &&& l < t.buckets@.len()
                &&& t.buckets[l]@.contains(ii as usize)
            } by {
                let l = t.words[ii]@.len() - 1;
                if ii == i as int {
                    assert(t.buckets[l]@.last() == i);
                } else {
                    let k = choose|k: int| 0 <= k < b1[l]@.len() && b1[l]@[k] == ii as usize;
                    assert(t.buckets[l]@[k] == ii as usize);
                }
            }
        }

        let comp = wlen + affix.suffix.len();
        grow_maps(&mut t.suffixed, comp);
        let ghost s1 = t.suffixed@;
        let prev = insert_index(&mut t.suffixed, comp - 1, scv.crc, i);
        if let Some(p) = prev {
            cols.push(Collision { earlier: p, later: i });
        }
        proof {
            let cl = comp - 1;
            let sfx = affix.suffix@;
            // the reverse index stays sound and complete
            assert forall|ii: int| 0 <= ii < i + 1 implies {
                let l = (#[trigger] t.words[ii])@.len() + sfx.len() - 1;
                &&& 0 <= l < t.suffixed@.len()
                &&& t.suffixed[l]@.contains_key(t.suff[ii])
            } by {
                let l = t.words[ii]@.len() + sfx.len() - 1;
                if ii < i as int {
                    assert(s1[l]@.contains_key(t.suff[ii]));
                }
            }
            // the collision log stays sound and complete
            assert forall|j: int| 0 <= j < i + 1 && #[trigger] collides_before(t, j) implies exists|
                k: int,
            | 0 <= k < cols@.len() && (#[trigger] cols@[k]).later == j by {
                if j == i as int {
                    match prev {
                        Some(p) => {
                            let kw = cols@.len() - 1;
                            assert(0 <= kw < cols@.len() && cols@[kw].later == i);
                        },
                        None => {
                            let i0 = choose|i0: int|
                                0 <= i0 < j && (#[trigger] t.words[i0])@.len() == t.words[j]@.len()
                                    && t.suff[i0] == t.suff[j];
                            // word `i0` was already indexed under this very key
                            // and composed length, so the insert could not
                            // have found the slot empty
                            assert(t0.suffixed[cl as int]@.contains_key(t0.suff[i0]));
                            assert(s1[cl as int] == t0.suffixed[cl as int]);
                            assert(false);
                        },
                    }
                } else {
                    // an earlier collision is still logged at its old position
                    assert(collides_before(t0, j)) by {
                        let i0 = choose|i0: int|
                            0 <= i0 < j && (#[trigger] t.words[i0])@.len() == t.words[j]@.len()
                                && t.suff[i0] == t.suff[j];
                        assert(t0.words[i0]@.len() == t0.words[j]@.len() && t0.suff[i0] == t0.suff[
                            j
                        ]);
                    }
                    let k0 = choose|k0: int| 0 <= k0 < cols0.len() && (#[trigger] cols0[k0]).later
                        == j;
                    assert(0 <= k0 < cols@.len() && cols@[k0].later == j);
                }
            }
            match prev {
                Some(p) => {
                    assert(collides_before(t, i as int)) by {
                        let pi = p as int;
                        assert(t.words[pi]@.len() == t.words[i as int]@.len());
                        assert(t.suff[pi] == t.suff[i as int]);
                    }
                },
                None => {},
            }
        }

        i += 1;
    }
    (t, cols)
}

} // verus!
