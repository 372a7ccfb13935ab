//! Orchestration: configuration checks, shard partitioning, aggregation of
//! the per-shard results, and the textual input/output forms (hexadecimal
//! target hashes in, result lines out).

use vstd::prelude::*;
use crate::crc::crc_of;
use crate::table::{AffixSettings, WordTable, Collision, LEN_BOUND, build_word_table};
use crate::search::{
    views_of, shard_hits, word_hits, search_shard, all_target, word_complete, candidate1,
    candidate2, candidate3, unambiguous, lemma_all_target_concat, lemma_shard_segment,
    append_bytes,
};

verus! {

/// A fatal configuration error, reported before any search begins.
#[derive(Clone, Copy, PartialEq, Eq, Structural, Debug)]
pub enum ConfigError {
    /// The dictionary holds no words.
    EmptyDictionary,
    /// The thread count is zero.
    ZeroThreads,
    /// The maximum word count is not 1, 2 or 3.
    WordCountOutOfRange,
    /// A dictionary word is empty or longer than `LEN_BOUND`.
    InvalidWord,
    /// An affix literal is longer than `LEN_BOUND`.
    OversizedAffix,
    /// A target hash is not a hexadecimal `u32`.
    MalformedHash,
}

/// The knobs of one run, constant for its whole duration.
#[derive(Clone, Copy, PartialEq, Eq, Structural, Debug)]
pub struct SearchSettings {
    pub threads: usize,
    pub max_words: usize,
    pub print_when_found: bool,
    pub report_progress: bool,
    pub progress_granularity: u64,
}

impl SearchSettings {
    pub open spec fn valid(self) -> bool {
        &&& self.threads >= 1
        &&& 1 <= self.max_words <= 3
    }
}

/// Partitions `0..n` into exactly `threads` contiguous shards; every shard
/// but the last has `n / threads` words and the last takes the remainder.
#[verifier::loop_isolation(false)]
pub fn shard_bounds(n: usize, threads: usize) -> (r: Vec<(usize, usize)>)
    requires
        threads >= 1,
    ensures
        r@.len() == threads,
        r@[0].0 == 0,
        r@[threads - 1].1 == n,
        forall|k: int| 0 <= k < threads ==> (#[trigger] r@[k]).0 <= r@[k].1 <= n,
        forall|k: int| 0 <= k < threads - 1 ==> (#[trigger] r@[k]).1 == r@[k + 1].0,
{
    let chunk = n / threads;
    proof {
        assert(threads * chunk + n % threads == n) by {
            vstd::arithmetic::div_mod::lemma_fundamental_div_mod(n as int, threads as int);
        }
    }
    let mut r: Vec<(usize, usize)> = Vec::new();
    let mut k: usize = 0;
    let mut start: usize = 0;
    while k < threads
        invariant
            k <= threads,
            r@.len() == k,
            start == k * chunk,
            threads * chunk <= n,
            chunk == n / threads,
            k > 0 ==> r@[0].0 == 0,
            k == threads ==> r@[k - 1].1 == n,
            forall|k2: int| 0 <= k2 < k ==> (#[trigger] r@[k2]).0 <= r@[k2].1 <= n,
            forall|k2: int| 0 <= k2 < k - 1 ==> (#[trigger] r@[k2]).1 == r@[k2 + 1].0,
            forall|k2: int| 0 <= k2 < k && k2 < threads - 1 ==> (#[trigger] r@[k2]).1 == (k2 + 1)
                * chunk,
        decreases threads - k,
    {
        proof {
            assert((k + 1) * chunk <= threads * chunk) by (nonlinear_arith)
                requires
                    k + 1 <= threads,
                    chunk >= 0,
            ;
            assert(k * chunk + chunk == (k + 1) * chunk) by (nonlinear_arith);
        }
        let next = start + chunk;
        if k == threads - 1 {
            r.push((start, n));
        } else {
            r.push((start, next));
        }
        start = next;
        k += 1;
    }
    r
}

/// Splitting a shard in two loses nothing and adds nothing: the two halves'
/// enumerations concatenate to the whole shard's, so any partition of the
/// dictionary yields exactly the single-shard results.
pub proof fn lemma_shards_exhaustive(
    t: WordTable,
    affix: AffixSettings,
    target: u32,
    max_words: int,
    lo: int,
    mid: int,
    hi: int,
)
    requires
        lo <= mid <= hi,
    ensures
        shard_hits(t, affix, target, max_words, lo, mid) + shard_hits(
            t,
            affix,
            target,
            max_words,
            mid,
            hi,
        ) == shard_hits(t, affix, target, max_words, lo, hi),
    decreases hi - mid,
{
    if mid == hi {
        assert(shard_hits(t, affix, target, max_words, mid, hi) =~= Seq::<Seq<u8>>::empty());
        assert(shard_hits(t, affix, target, max_words, lo, mid) + Seq::<Seq<u8>>::empty()
            =~= shard_hits(t, affix, target, max_words, lo, mid));
    } else {
        lemma_shards_exhaustive(t, affix, target, max_words, lo, mid, hi - 1);
        assert(shard_hits(t, affix, target, max_words, lo, mid) + (shard_hits(
            t,
            affix,
            target,
            max_words,
            mid,
            hi - 1,
        ) + word_hits(t, affix, target, max_words, hi - 1)) =~= (shard_hits(
            t,
            affix,
            target,
            max_words,
            lo,
            mid,
        ) + shard_hits(t, affix, target, max_words, mid, hi - 1)) + word_hits(
            t,
            affix,
            target,
            max_words,
            hi - 1,
        ));
    }
}

/// Runs every shard of the dictionary in turn against one target hash and
/// concatenates the results in shard order. The outcome is the full
/// enumeration over all words, whatever the thread count: partitioning loses
/// no candidate and duplicates none.
#[verifier::loop_isolation(false)]
pub fn search_all(
    target: u32,
    t: &WordTable,
    affix: &AffixSettings,
    threads: usize,
    max_words: usize,
) -> (matches: Vec<Vec<u8>>)
    requires
        affix.wf(),
        t.wf(affix.suffix@),
        threads >= 1,
        1 <= max_words <= 3,
    ensures
        views_of(matches@) == shard_hits(
            *t,
            *affix,
            target,
            max_words as int,
            0,
            t.words@.len() as int,
        ),
        affix.prefix_exact() ==> all_target(views_of(matches@), target),
        affix.prefix_exact() ==> forall|i: int|
            0 <= i < t.words@.len() ==> #[trigger] word_complete(
                *t,
                *affix,
                target,
                max_words as int,
                i,
            ),
{
    let bounds = shard_bounds(t.words.len(), threads);
    let mut matches: Vec<Vec<u8>> = Vec::new();
    proof {
        assert(views_of(matches@) =~= Seq::<Seq<u8>>::empty());
        assert(Seq::<Seq<u8>>::empty() =~= shard_hits(
            *t,
            *affix,
            target,
            max_words as int,
            0,
            0,
        ));
    }
    let nb = bounds.len();
    let mut k: usize = 0;
    while k < nb
        invariant
            k <= nb,
            nb == threads,
            k < nb ==> bounds@[k as int].0 <= bounds@[k as int].1 <= t.words@.len(),
            k > 0 ==> bounds@[k - 1].1 <= t.words@.len(),
            views_of(matches@) == shard_hits(
                *t,
                *affix,
                target,
                max_words as int,
                0,
                if k == 0 {
                    0
                } else {
                    bounds@[k - 1].1 as int
                },
            ),
            affix.prefix_exact() ==> all_target(views_of(matches@), target),
            affix.prefix_exact() ==> forall|i: int|
                0 <= i < (if k == 0 {
                    0
                } else {
                    bounds@[k - 1].1 as int
                }) ==> #[trigger] word_complete(*t, *affix, target, max_words as int, i),
        decreases nb - k,
    {
        let lo = bounds[k].0;
        let hi = bounds[k].1;
        proof {
            if k > 0 {
                assert(bounds@[k - 1].1 == bounds@[k as int].0);
            }
        }
        let mut part = search_shard(target, t, affix, lo, hi, max_words);
        proof {
            assert(views_of(matches@ + part@) =~= views_of(matches@) + views_of(part@));
            lemma_shards_exhaustive(
                *t,
                *affix,
                target,
                max_words as int,
                0,
                lo as int,
                hi as int,
            );
        }
        matches.append(&mut part);
        k += 1;
    }
    proof {
        assert(bounds@[threads - 1].1 == t.words@.len());
    }
    matches
}

/// The character is an ASCII hexadecimal digit.
pub open spec fn is_hex_digit(c: u8) -> bool {
    (0x30 <= c <= 0x39) || (0x61 <= c <= 0x66) || (0x41 <= c <= 0x46)
}

/// The numeric value of an ASCII hexadecimal digit.
pub open spec fn hex_val(c: u8) -> nat {
    if 0x30 <= c <= 0x39 {
        (c - 0x30) as nat
    } else if 0x61 <= c <= 0x66 {
        (c - 0x57) as nat
    } else {
        (c - 0x37) as nat
    }
}

/// The number a big-endian string of hexadecimal digits denotes.
pub open spec fn hex_value(s: Seq<u8>) -> nat
    decreases s.len(),
{
    if s.len() == 0 {
        0
    } else {
        hex_value(s.drop_last()) * 16 + hex_val(s.last())
    }
}

/// The digits after an optional leading `0x`.
pub open spec fn strip_radix_prefix(s: Seq<u8>) -> Seq<u8> {
    if s.len() >= 2 && s[0] == 0x30 && s[1] == 0x78 {
        s.skip(2)
    } else {
        s
    }
}

proof fn lemma_hex_value_prefix(b: Seq<u8>, k: int)
    requires
        0 <= k <= b.len(),
    ensures
        hex_value(b.take(k)) <= hex_value(b),
    decreases b.len() - k,
{
    if k == b.len() {
        assert(b.take(k) =~= b);
    } else {
        assert(b.take(k + 1).drop_last() =~= b.take(k));
        assert(hex_value(b.take(k + 1)) == hex_value(b.take(k)) * 16 + hex_val(b.take(k + 1).last()));
        lemma_hex_value_prefix(b, k + 1);
    }
}

/// Parses a target hash: hexadecimal digits, with or without a leading
/// `0x`, denoting a 32-bit value. Anything else is a configuration error.
#[verifier::loop_isolation(false)]
pub fn parse_hex_u32(s: &[u8]) -> (r: Result<u32, ConfigError>)
    ensures
        ({
            let b = strip_radix_prefix(s@);
            &&& ((r matches Ok(_)) <==> (b.len() > 0 && (forall|i: int|
                0 <= i < b.len() ==> is_hex_digit(#[trigger] b[i])) && hex_value(b) <= u32::MAX))
            &&& (r matches Ok(v) ==> v as nat == hex_value(b))
            &&& (r matches Err(e) ==> e == ConfigError::MalformedHash)
        }),
{
    let ghost b = strip_radix_prefix(s@);
    let mut start: usize = 0;
    if s.len() >= 2 && s[0] == 0x30 && s[1] == 0x78 {
        start = 2;
    }
    proof {
        assert(b =~= s@.skip(start as int));
    }
    if s.len() == start {
        return Err(ConfigError::MalformedHash);
    }
    let n = s.len();
    let mut acc: u64 = 0;
    let mut k: usize = start;
    while k < n
        invariant
            start <= k <= n,
            acc == hex_value(s@.subrange(start as int, k as int)),
            acc <= u32::MAX,
            forall|i: int| start <= i < k ==> is_hex_digit(#[trigger] s@[i]),
        decreases n - k,
    {
        let c = s[k];
        let d: u64 = if 0x30 <= c && c <= 0x39 {
            (c - 0x30) as u64
        } else if 0x61 <= c && c <= 0x66 {
            (c - 0x57) as u64
        } else if 0x41 <= c && c <= 0x46 {
            (c - 0x37) as u64
        } else {
            return Err(ConfigError::MalformedHash);
        };
        let nacc = acc * 16 + d;
        proof {
            assert(s@.subrange(start as int, k + 1).drop_last() =~= s@.subrange(
                start as int,
                k as int,
            ));
            assert(s@.subrange(start as int, k + 1).last() == s@[k as int]);
        }
        if nacc > 0xFFFF_FFFF {
            proof {
                assert(b.take(k + 1 - start) =~= s@.subrange(start as int, k + 1));
                lemma_hex_value_prefix(b, k + 1 - start);
            }
            return Err(ConfigError::MalformedHash);
        }
        acc = nacc;
        k += 1;
    }
    proof {
        assert(s@.subrange(start as int, n as int) =~= b);
    }
    Ok(acc as u32)
}

/// The digit character for a value below 16: `0`-`9`, then `a`-`f`.
pub open spec fn hex_digit_char(v: nat) -> u8 {
    if v < 10 {
        (0x30 + v) as u8
    } else {
        (0x57 + v) as u8
    }
}

/// The shortest lowercase hexadecimal rendering of a number.
pub open spec fn hex_digits(v: nat) -> Seq<u8>
    decreases v,
{
    if v < 16 {
        seq![hex_digit_char(v)]
    } else {
        hex_digits(v / 16).push(hex_digit_char(v % 16))
    }
}

/// The matches joined with a comma and a space, in order.
pub open spec fn joined_matches(ms: Seq<Seq<u8>>) -> Seq<u8>
    decreases ms.len(),
{
    if ms.len() == 0 {
        seq![]
    } else if ms.len() == 1 {
        ms[0]
    } else {
        joined_matches(ms.drop_last()) + seq![0x2cu8, 0x20u8] + ms.last()
    }
}

/// The `unknown` marker, emitted in place of an empty match list.
pub open spec fn unknown_marker() -> Seq<u8> {
    seq![0x75u8, 0x6eu8, 0x6bu8, 0x6eu8, 0x6fu8, 0x77u8, 0x6eu8]
}

/// The output line for one target: the hash in lowercase hexadecimal, an
/// equals sign, and either the comma-separated matches or the literal
/// `unknown` marker — never an empty tail.
pub open spec fn result_line_spec(target: u32, ms: Seq<Seq<u8>>) -> Seq<u8> {
    hex_digits(target as nat) + seq![0x20u8, 0x3du8, 0x20u8] + (if ms.len() == 0 {
        unknown_marker()
    } else {
        joined_matches(ms)
    })
}

fn push_hex(v: u32, out: &mut Vec<u8>)
    ensures
        final(out)@ == old(out)@ + hex_digits(v as nat),
    decreases v,
{
    if v >= 16 {
        push_hex(v / 16, out);
    }
    let dv = (v % 16) as u8;
    let c = if dv < 10 {
        0x30u8 + dv
    } else {
        0x57u8 + dv
    };
    out.push(c);
    proof {
        if v < 16 {
            assert(old(out)@ + hex_digits(v as nat) =~= old(out)@.push(c));
        } else {
            assert(old(out)@ + hex_digits(v as nat) =~= (old(out)@ + hex_digits(
                (v / 16) as nat,
            )).push(c));
        }
    }
}

/// Renders the output line for one target hash.
#[verifier::loop_isolation(false)]
pub fn result_line(target: u32, matches: &Vec<Vec<u8>>) -> (r: Vec<u8>)
    ensures
        r@ == result_line_spec(target, views_of(matches@)),
{
    let ghost ms = views_of(matches@);
    let mut out: Vec<u8> = Vec::new();
    push_hex(target, &mut out);
    out.push(0x20);
    out.push(0x3d);
    out.push(0x20);
    let ghost head = hex_digits(target as nat) + seq![0x20u8, 0x3du8, 0x20u8];
    proof {
        assert(out@ =~= head);
    }
    let nm = matches.len();
    if nm == 0 {
        out.push(0x75);
        out.push(0x6e);
        out.push(0x6b);
        out.push(0x6e);
        out.push(0x6f);
        out.push(0x77);
        out.push(0x6e);
        proof {
            assert(out@ =~= result_line_spec(target, ms));
        }
    } else {
        let mut k: usize = 0;
        while k < nm
            invariant
                k <= nm,
                k == 0 ==> out@ == head,
                k >= 1 ==> out@ == head + joined_matches(ms.take(k as int)),
            decreases nm - k,
        {
            if k > 0 {
                out.push(0x2c);
                out.push(0x20);
            }
            append_bytes(&mut out, &matches[k]);
            proof {
                assert(ms.take(k + 1).drop_last() =~= ms.take(k as int));
                assert(ms.take(k + 1).last() == matches@[k as int]@);
                if k == 0 {
                    assert(out@ =~= head + joined_matches(ms.take(1)));
                } else {
                    assert(out@ =~= head + joined_matches(ms.take(k + 1)));
                }
            }
            k += 1;
        }
        proof {
            assert(ms.take(nm as int) =~= ms);
            assert(out@ =~= result_line_spec(target, ms));
        }
    }
    out
}

/// The matches of one target hash.
pub struct TargetResult {
    pub target: u32,
    pub matches: Vec<Vec<u8>>,
}

/// No other dictionary word of the same length has the same suffixed
/// checksum as word `j`, so the reverse index cannot confuse them.
pub open spec fn distinct_suffixed(words: Seq<Vec<u8>>, suffix: Seq<u8>, j: int) -> bool {
    forall|j2: int|
        0 <= j2 < words.len() && j2 != j && (#[trigger] words[j2])@.len() == words[j]@.len()
            ==> crc_of(words[j2]@ + suffix) != crc_of(words[j]@ + suffix)
}

/// Validates the whole configuration, builds the word table once, and runs
/// every target hash against it, sequentially. Returns the per-target match
/// lists and the reverse-index collisions seen while building.
///
/// When no external prefix hash is supplied, every returned match checksums
/// to its target, and conversely every candidate the table can answer for is
/// returned: each matching one-word candidate, each matching two-word
/// candidate whose second word has a distinct suffixed checksum (with two
/// words) or any matching two-word candidate (with three words), and each
/// matching three-word candidate whose third word has a distinct suffixed
/// checksum.
#[verifier::loop_isolation(false)]
pub fn run_search(
    words: Vec<Vec<u8>>,
    prefix: Vec<u8>,
    prefix_hash: Option<u32>,
    separator: Vec<u8>,
    suffix: Vec<u8>,
    settings: &SearchSettings,
    targets: &Vec<u32>,
) -> (r: Result<(Vec<TargetResult>, Vec<Collision>), ConfigError>)
    ensures
        (r matches Err(ConfigError::ZeroThreads)) <==> settings.threads == 0,
        settings.threads != 0 ==> ((r matches Err(ConfigError::WordCountOutOfRange)) <==> !(1
            <= settings.max_words <= 3)),
        settings.valid() ==> ((r matches Err(ConfigError::OversizedAffix)) <==> !(prefix@.len()
            <= LEN_BOUND && separator@.len() <= LEN_BOUND && suffix@.len() <= LEN_BOUND)),
        settings.valid() && prefix@.len() <= LEN_BOUND && separator@.len() <= LEN_BOUND
            && suffix@.len() <= LEN_BOUND ==> ((r matches Err(ConfigError::EmptyDictionary))
            <==> words@.len() == 0),
        settings.valid() && prefix@.len() <= LEN_BOUND && separator@.len() <= LEN_BOUND
            && suffix@.len() <= LEN_BOUND && words@.len() > 0 ==> ((r matches Err(
            ConfigError::InvalidWord,
        )) <==> !(forall|i: int|
            0 <= i < words@.len() ==> 1 <= (#[trigger] words[i])@.len() <= LEN_BOUND)),
        r matches Ok(_) <==> (settings.valid() && prefix@.len() <= LEN_BOUND && separator@.len()
            <= LEN_BOUND && suffix@.len() <= LEN_BOUND && words@.len() > 0 && (forall|i: int|
            0 <= i < words@.len() ==> 1 <= (#[trigger] words[i])@.len() <= LEN_BOUND)),
        r matches Ok(_) ==> {
            let results = r->Ok_0.0;
            &&& results@.len() == targets@.len()
            &&& forall|k: int| 0 <= k < targets@.len() ==> (#[trigger] results@[k]).target
                == targets@[k]
        },
        r matches Ok(_) && prefix_hash is None ==> {
            let results = r->Ok_0.0;
            forall|k: int, m: int|
                0 <= k < results@.len() && 0 <= m < (#[trigger] results@[k]).matches@.len()
                    ==> crc_of(#[trigger] results@[k].matches@[m]@) == targets@[k]
        },
        r matches Ok(_) && prefix_hash is None ==> {
            let results = r->Ok_0.0;
            forall|k: int, i: int|
                0 <= k < results@.len() && 0 <= i < words@.len() && crc_of(
                    #[trigger] (prefix@ + words[i]@ + suffix@),
                ) == targets@[k] ==> views_of((#[trigger] results@[k]).matches@).contains(
                    prefix@ + words[i]@ + suffix@,
                )
        },
        r matches Ok(_) && prefix_hash is None && settings.max_words >= 2 ==> {
            let results = r->Ok_0.0;
            forall|k: int, i: int, j: int|
                0 <= k < results@.len() && 0 <= i < words@.len() && 0 <= j < words@.len()
                    && (settings.max_words == 3 || distinct_suffixed(words@, suffix@, j))
                    && crc_of(#[trigger] (prefix@ + words[i]@ + separator@ + words[j]@ + suffix@))
                    == targets@[k] ==> views_of((#[trigger] results@[k]).matches@).contains(
                    prefix@ + words[i]@ + separator@ + words[j]@ + suffix@,
                )
        },
        r matches Ok(_) && prefix_hash is None && settings.max_words == 3 ==> {
            let results = r->Ok_0.0;
            forall|k: int, i: int, j: int, kk: int|
                0 <= k < results@.len() && 0 <= i < words@.len() && 0 <= j < words@.len() && 0
                    <= kk < words@.len() && distinct_suffixed(words@, suffix@, kk) && crc_of(
                    #[trigger] (prefix@ + words[i]@ + separator@ + words[j]@ + separator@
                        + words[kk]@ + suffix@),
                ) == targets@[k] ==> views_of((#[trigger] results@[k]).matches@).contains(
                    prefix@ + words[i]@ + separator@ + words[j]@ + separator@ + words[kk]@
                        + suffix@,
                )
        },
{
    if settings.threads == 0 {
        return Err(ConfigError::ZeroThreads);
    }
    if settings.max_words < 1 || settings.max_words > 3 {
        return Err(ConfigError::WordCountOutOfRange);
    }
    if prefix.len() > LEN_BOUND || separator.len() > LEN_BOUND || suffix.len() > LEN_BOUND {
        return Err(ConfigError::OversizedAffix);
    }
    if words.len() == 0 {
        return Err(ConfigError::EmptyDictionary);
    }
    let nw = words.len();
    let mut i: usize = 0;
    while i < nw
        invariant
            i <= nw,
            nw == words@.len(),
            forall|i2: int| 0 <= i2 < i ==> 1 <= (#[trigger] words[i2])@.len() <= LEN_BOUND,
        decreases nw - i,
    {
        if words[i].len() == 0 || words[i].len() > LEN_BOUND {
            return Err(ConfigError::InvalidWord);
        }
        i += 1;
    }
    let affix = match prefix_hash {
        Some(h) => AffixSettings::with_prefix_hash(prefix, h, separator, suffix),
        None => AffixSettings::from_literals(prefix, separator, suffix),
    };
    let (t, cols) = build_word_table(words, &affix);
    let mut results: Vec<TargetResult> = Vec::new();
    let nt = targets.len();
    let mut k: usize = 0;
    while k < nt
        invariant
            k <= nt,
            nt == targets@.len(),
            affix.wf(),
            t.wf(affix.suffix@),
            settings.valid(),
            results@.len() == k,
            forall|k2: int| 0 <= k2 < k ==> (#[trigger] results@[k2]).target == targets@[k2],
            forall|k2: int| 0 <= k2 < k ==> views_of((#[trigger] results@[k2]).matches@)
                == shard_hits(
                t,
                affix,
                targets@[k2],
                settings.max_words as int,
                0,
                t.words@.len() as int,
            ),
            affix.prefix_exact() ==> forall|k2: int|
                0 <= k2 < k ==> all_target(
                    views_of((#[trigger] results@[k2]).matches@),
                    targets@[k2],
                ),
            affix.prefix_exact() ==> forall|k2: int, i2: int|
                0 <= k2 < k && 0 <= i2 < t.words@.len() ==> #[trigger] word_complete(
                    t,
                    affix,
                    results@[k2].target,
                    settings.max_words as int,
                    i2,
                ),
        decreases nt - k,
    {
        let target = targets[k];
        let matches = search_all(target, &t, &affix, settings.threads, settings.max_words);
        results.push(TargetResult { target, matches });
        k += 1;
    }
    proof {
        let n = t.words@.len() as int;
        let mw = settings.max_words as int;
        if prefix_hash is None {
            assert(affix.prefix_exact());
            // every returned match checksums to its target
            assert forall|k2: int, m: int|
                0 <= k2 < results@.len() && 0 <= m < (#[trigger] results@[k2]).matches@.len() implies crc_of(
                #[trigger] results@[k2].matches@[m]@,
            ) == targets@[k2] by {
                assert(all_target(views_of(results@[k2].matches@), targets@[k2]));
                assert(views_of(results@[k2].matches@)[m] == results@[k2].matches@[m]@);
            }
            // one-word candidates
            assert forall|k2: int, i2: int|
                0 <= k2 < results@.len() && 0 <= i2 < words@.len() && crc_of(
                    #[trigger] (prefix@ + words[i2]@ + suffix@),
                ) == targets@[k2] implies views_of((#[trigger] results@[k2]).matches@).contains(
                prefix@ + words[i2]@ + suffix@,
            ) by {
                assert(word_complete(t, affix, results@[k2].target, mw, i2));
                assert(candidate1(t, affix, i2) =~= prefix@ + words[i2]@ + suffix@);
                lemma_shard_segment(
                    t,
                    affix,
                    targets@[k2],
                    mw,
                    0,
                    i2,
                    n,
                    candidate1(t, affix, i2),
                );
            }
            // two-word candidates
            if settings.max_words >= 2 {
                assert forall|k2: int, i2: int, j: int|
                    0 <= k2 < results@.len() && 0 <= i2 < words@.len() && 0 <= j < words@.len()
                        && (settings.max_words == 3 || distinct_suffixed(words@, suffix@, j))
                        && crc_of(
                        #[trigger] (prefix@ + words[i2]@ + separator@ + words[j]@ + suffix@),
                    ) == targets@[k2] implies views_of(
                    (#[trigger] results@[k2]).matches@,
                ).contains(prefix@ + words[i2]@ + separator@ + words[j]@ + suffix@) by {
                    assert(word_complete(t, affix, results@[k2].target, mw, i2));
                    assert(candidate2(t, affix, i2, j) =~= prefix@ + words[i2]@ + separator@
                        + words[j]@ + suffix@);
                    if settings.max_words == 2 {
                        assert(unambiguous(t, j)) by {
                            assert forall|j2: int|
                                0 <= j2 < t.words@.len() && j2 != j && (#[trigger] t.words[j2])@.len()
                                    == t.words[j]@.len() implies t.suff[j2] != t.suff[j] by {
                                assert(t.suff[j2] == crc_of(words[j2]@ + suffix@));
                                assert(t.suff[j] == crc_of(words[j]@ + suffix@));
                            }
                        }
                    }
                    lemma_shard_segment(
                        t,
                        affix,
                        targets@[k2],
                        mw,
                        0,
                        i2,
                        n,
                        candidate2(t, affix, i2, j),
                    );
                }
            }
            // three-word candidates
            if settings.max_words == 3 {
                assert forall|k2: int, i2: int, j: int, kk: int|
                    0 <= k2 < results@.len() && 0 <= i2 < words@.len() && 0 <= j < words@.len()
                        && 0 <= kk < words@.len() && distinct_suffixed(words@, suffix@, kk)
                        && crc_of(
                        #[trigger] (prefix@ + words[i2]@ + separator@ + words[j]@ + separator@
                            + words[kk]@ + suffix@),
                    ) == targets@[k2] implies views_of(
                    (#[trigger] results@[k2]).matches@,
                ).contains(
                    prefix@ + words[i2]@ + separator@ + words[j]@ + separator@ + words[kk]@
                        + suffix@,
                ) by {
                    assert(word_complete(t, affix, results@[k2].target, mw, i2));
                    assert(candidate3(t, affix, i2, j, kk) =~= prefix@ + words[i2]@ + separator@
                        + words[j]@ + separator@ + words[kk]@ + suffix@);
                    assert(unambiguous(t, kk)) by {
                        assert forall|j2: int|
                            0 <= j2 < t.words@.len() && j2 != kk && (#[trigger] t.words[j2])@.len()
                                == t.words[kk]@.len() implies t.suff[j2] != t.suff[kk] by {
                            assert(t.suff[j2] == crc_of(words[j2]@ + suffix@));
                            assert(t.suff[kk] == crc_of(words[kk]@ + suffix@));
                        }
                    }
                    lemma_shard_segment(
                        t,
                        affix,
                        targets@[k2],
                        mw,
                        0,
                        i2,
                        n,
                        candidate3(t, affix, i2, j, kk),
                    );
                }
            }
        }
    }
    Ok((results, cols))
}

} // verus!
