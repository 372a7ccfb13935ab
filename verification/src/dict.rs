//! Dictionary finalization: the word list is sorted into lexicographic byte
//! order and stripped of duplicates, once, before any table is built.

use vstd::prelude::*;

verus! {

/// Lexicographic order on byte sequences: the empty sequence first, then by
/// first byte, ties decided by the rest.
pub open spec fn lex_le(a: Seq<u8>, b: Seq<u8>) -> bool
    decreases a.len(),
{
    if a.len() == 0 {
        true
    } else if b.len() == 0 {
        false
    } else if a[0] < b[0] {
        true
    } else if a[0] > b[0] {
        false
    } else {
        lex_le(a.skip(1), b.skip(1))
    }
}

proof fn lemma_lex_refl(a: Seq<u8>)
    ensures
        lex_le(a, a),
    decreases a.len(),
{
    if a.len() > 0 {
        lemma_lex_refl(a.skip(1));
    }
}

proof fn lemma_lex_total(a: Seq<u8>, b: Seq<u8>)
    ensures
        lex_le(a, b) || lex_le(b, a),
    decreases a.len(),
{
    if a.len() > 0 && b.len() > 0 && a[0] == b[0] {
        lemma_lex_total(a.skip(1), b.skip(1));
    }
}

proof fn lemma_lex_antisym(a: Seq<u8>, b: Seq<u8>)
    requires
        lex_le(a, b),
        lex_le(b, a),
    ensures
        a == b,
    decreases a.len(),
{
    if a.len() == 0 {
        assert(b.len() == 0);
        assert(a =~= b);
    } else {
        assert(b.len() > 0);
        assert(a[0] == b[0]);
        lemma_lex_antisym(a.skip(1), b.skip(1));
        assert(a =~= b) by {
            assert(forall|i: int|
                1 <= i < a.len() ==> a[i] == a.skip(1)[i - 1] && b[i] == b.skip(1)[i - 1]);
        }
    }
}

proof fn lemma_lex_trans(a: Seq<u8>, b: Seq<u8>, c: Seq<u8>)
    requires
        lex_le(a, b),
        lex_le(b, c),
    ensures
        lex_le(a, c),
    decreases a.len(),
{
    if a.len() > 0 {
        assert(b.len() > 0);
        assert(c.len() > 0);
        if a[0] == c[0] {
            assert(a[0] == b[0] && b[0] == c[0]);
            lemma_lex_trans(a.skip(1), b.skip(1), c.skip(1));
        } else {
            assert(a[0] < c[0]);
        }
    }
}

/// Decides the lexicographic order of two byte vectors.
#[verifier::loop_isolation(false)]
pub fn bytes_le(a: &Vec<u8>, b: &Vec<u8>) -> (r: bool)
    ensures
        r == lex_le(a@, b@),
{
    let na = a.len();
    let nb = b.len();
    let n = if na <= nb {
        na
    } else {
        nb
    };
    let mut k: usize = 0;
    proof {
        assert(a@.skip(0) =~= a@);
        assert(b@.skip(0) =~= b@);
    }
    while k < n
        invariant
            k <= n,
            lex_le(a@, b@) == lex_le(a@.skip(k as int), b@.skip(k as int)),
        decreases n - k,
    {
        let ghost sa = a@.skip(k as int);
        let ghost sb = b@.skip(k as int);
        proof {
            assert(sa[0] == a@[k as int] && sb[0] == b@[k as int]);
        }
        if a[k] < b[k] {
            return true;
        }
        if a[k] > b[k] {
            return false;
        }
        proof {
            assert(sa.skip(1) =~= a@.skip(k + 1));
            assert(sb.skip(1) =~= b@.skip(k + 1));
        }
        k += 1;
    }
    if na <= nb {
        proof {
            assert(a@.skip(n as int).len() == 0);
        }
        true
    } else {
        proof {
            assert(b@.skip(n as int).len() == 0);
            assert(a@.skip(n as int).len() > 0);
        }
        false
    }
}

/// The word `x` occurs in the list.
pub open spec fn contains_word(ws: Seq<Vec<u8>>, x: Seq<u8>) -> bool {
    exists|i: int| 0 <= i < ws.len() && (#[trigger] ws[i])@ == x
}

/// The list is strictly ordered: sorted lexicographically with no word
/// repeated.
pub open spec fn strictly_sorted(ws: Seq<Vec<u8>>) -> bool {
    forall|k1: int, k2: int|
        #![trigger ws[k1], ws[k2]]
        0 <= k1 < k2 < ws.len() ==> lex_le(ws[k1]@, ws[k2]@) && ws[k1]@ != ws[k2]@
}

/// Finalizes a dictionary: the result holds exactly the distinct words of
/// the input, in lexicographic order.
#[verifier::loop_isolation(false)]
pub fn prepare_dictionary(words: Vec<Vec<u8>>) -> (r: Vec<Vec<u8>>)
    ensures
        strictly_sorted(r@),
        forall|x: Seq<u8>| contains_word(r@, x) <==> contains_word(words@, x),
{
    let ghost orig = words@;
    let mut rest = words;
    let mut out: Vec<Vec<u8>> = Vec::new();
    while rest.len() > 0
        invariant
            rest@.len() <= orig.len(),
            rest@ =~= orig.take(rest@.len() as int),
            strictly_sorted(out@),
            forall|x: Seq<u8>| contains_word(out@, x) <==> contains_word(
                orig.skip(rest@.len() as int),
                x,
            ),
        decreases rest@.len(),
    {
        let ghost pre_len = rest@.len() as int;
        let w = match rest.pop() {
            Some(w) => w,
            None => {
                proof {
                    assert(false);
                }
                continue ;
            },
        };
        proof {
            assert(rest@ =~= orig.take(pre_len - 1));
            assert(w@ == orig[pre_len - 1]@);
        }
        let ghost old_out = out@;
        let no = out.len();
        let mut pos: usize = 0;
        while pos < no && !bytes_le(&w, &out[pos])
            invariant
                pos <= no,
                out@ == old_out,
                forall|k: int| 0 <= k < pos ==> !lex_le(w@, (#[trigger] out@[k])@),
            decreases no - pos,
        {
            pos += 1;
        }
        let duplicate = if pos < no {
            out[pos] == w
        } else {
            false
        };
        if duplicate {
            proof {
                assert(out@[pos as int]@ =~= w@);
                assert(contains_word(out@, w@));
                assert forall|x: Seq<u8>| contains_word(out@, x) <==> contains_word(
                    orig.skip(pre_len - 1),
                    x,
                ) by {
                    assert(orig.skip(pre_len - 1) =~= seq![orig[pre_len - 1]] + orig.skip(
                        pre_len,
                    ));
                    if contains_word(orig.skip(pre_len - 1), x) {
                        let i = choose|i: int|
                            0 <= i < orig.skip(pre_len - 1).len() && (#[trigger] orig.skip(
                                pre_len - 1,
                            )[i])@ == x;
                        if i == 0 {
                            assert(x == w@);
                            assert(contains_word(out@, x));
                        } else {
                            assert(orig.skip(pre_len)[i - 1]@ == x);
                            assert(contains_word(orig.skip(pre_len), x));
                            assert(contains_word(out@, x));
                        }
                    } else {
                        if contains_word(out@, x) {
                            assert(contains_word(orig.skip(pre_len), x));
                            let i = choose|i: int|
                                0 <= i < orig.skip(pre_len).len() && (#[trigger] orig.skip(
                                    pre_len,
                                )[i])@ == x;
                            assert(orig.skip(pre_len - 1)[i + 1]@ == x);
                            assert(contains_word(orig.skip(pre_len - 1), x));
                            assert(false);
                        }
                    }
                }
            }
        } else {
            proof {
                if pos < no {
                    assert(lex_le(w@, out@[pos as int]@));
                    assert(out@[pos as int]@ != w@);
                }
                old_out.insert_ensures(pos as int, w);
            }
            out.insert(pos, w);
            proof {
                // the inserted word keeps the list strictly ordered
                assert forall|k1: int, k2: int|
                    0 <= k1 < k2 < out@.len() implies lex_le(
                    (#[trigger] out@[k1])@,
                    (#[trigger] out@[k2])@,
                ) && out@[k1]@ != out@[k2]@ by {
                    let p = pos as int;
                    if k1 < p && k2 == p {
                        lemma_lex_total(w@, old_out[k1]@);
                        if out@[k1]@ == w@ {
                            lemma_lex_refl(w@);
                            assert(false);
                        }
                    } else if k1 == p && k2 > p {
                        assert(p < no);
                        assert(lex_le(w@, old_out[p]@));
                        if k2 - 1 > p {
                            lemma_lex_trans(w@, old_out[p]@, old_out[k2 - 1]@);
                            if w@ == old_out[k2 - 1]@ {
                                lemma_lex_antisym(old_out[p]@, old_out[k2 - 1]@);
                                assert(false);
                            }
                        }
                    } else if k1 < p && k2 > p {
                        assert(out@[k1] == old_out[k1] && out@[k2] == old_out[k2 - 1]);
                        if k1 == k2 - 1 {
                            lemma_lex_total(w@, old_out[k1]@);
                            lemma_lex_refl(old_out[k1]@);
                        }
                    }
                }
                // the set of words grows by exactly the popped word
                assert(orig.skip(pre_len - 1) =~= seq![orig[pre_len - 1]] + orig.skip(pre_len));
                assert forall|x: Seq<u8>| contains_word(out@, x) <==> contains_word(
                    orig.skip(pre_len - 1),
                    x,
                ) by {
                    if contains_word(out@, x) {
                        let i = choose|i: int| 0 <= i < out@.len() && (#[trigger] out@[i])@ == x;
                        if i == pos as int {
                            assert(x == w@);
                            assert(orig.skip(pre_len - 1)[0]@ == x);
                            assert(contains_word(orig.skip(pre_len - 1), x));
                        } else {
                            let iold: int = if i < pos as int {
                                i
                            } else {
                                i - 1
                            };
                            assert(old_out[iold]@ == x);
                            assert(contains_word(old_out, x));
                            assert(contains_word(orig.skip(pre_len), x));
                            let i2 = choose|i2: int|
                                0 <= i2 < orig.skip(pre_len).len() && (#[trigger] orig.skip(
                                    pre_len,
                                )[i2])@ == x;
                            assert(orig.skip(pre_len - 1)[i2 + 1]@ == x);
                            assert(contains_word(orig.skip(pre_len - 1), x));
                        }
                    }
                    if contains_word(orig.skip(pre_len - 1), x) {
                        let i = choose|i: int|
                            0 <= i < orig.skip(pre_len - 1).len() && (#[trigger] orig.skip(
                                pre_len - 1,
                            )[i])@ == x;
                        if i == 0 {
                            assert(x == w@);
                            assert(out@[pos as int]@ == x);
                            assert(contains_word(out@, x));
                        } else {
                            assert(orig.skip(pre_len)[i - 1]@ == x);
                            assert(contains_word(orig.skip(pre_len), x));
                            assert(contains_word(old_out, x));
                            let i2 = choose|i2: int|
                                0 <= i2 < old_out.len() && (#[trigger] old_out[i2])@ == x;
                            let inew: int = if i2 < pos as int {
                                i2
                            } else {
                                i2 + 1
                            };
                            assert(out@[inew]@ == x);
                            assert(contains_word(out@, x));
                        }
                    }
                }
            }
        }
    }
    proof {
        assert(orig.skip(0) =~= orig);
    }
    out
}

} // verus!
