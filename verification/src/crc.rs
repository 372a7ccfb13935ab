//! The checksum value type and its composition algebra.
//!
//! A `XivCrc32` carries a 32-bit checksum together with the number of bytes
//! it summarizes. Two such values can be composed as if their underlying byte
//! sequences had been concatenated, without re-reading either sequence; a
//! value can also be advanced past a number of unread bytes (zero-extension)
//! and mixed with another value by XOR. These three operations are the whole
//! algebra the search engine builds on.

use vstd::prelude::*;

verus! {

/// The checksum of a byte sequence under the convention used throughout this
/// crate: the CRC-32 accumulator is seeded with the all-ones word and the
/// result is bit-complemented, which matches the hashing convention of the
/// target-hash source.
pub uninterp spec fn crc_of(s: Seq<u8>) -> u32;

/// The value that advancing a checksum past `n > 0` unread bytes produces:
/// the linear map that the combine primitive applies to its left operand
/// before mixing in the right one.
pub uninterp spec fn crc_shift(c: u32, n: nat) -> u32;

/// What the combine primitive returns, as a function of the two checksums and
/// the right-hand byte count alone.
pub open spec fn combine_crc(c1: u32, c2: u32, l2: nat) -> u32 {
    if l2 == 0 {
        c1
    } else {
        crc_shift(c1, l2) ^ c2
    }
}

/// Relies on `crc32fast::Hasher` (`new_with_initial`, `update`, `finalize`):
/// the returned checksum is a function of the input bytes alone. The hasher
/// resumes from a previous check value and complements internally at both
/// ends of `update`, so resuming from the all-ones word and complementing the
/// result yields this crate's convention; an empty input leaves the seeded
/// state untouched, so its checksum is 0.
#[verifier::external_body]
fn crc32_of_bytes(s: &[u8]) -> (r: u32)
    ensures
        r == crc_of(s@),
        s@.len() == 0 ==> r == 0,
{
    let mut h = crc32fast::Hasher::new_with_initial(0xFFFF_FFFF);
    h.update(s);
    !h.finalize()
}

/// Relies on `crc32fast::Hasher::combine`: for a right-hand byte count of
/// zero it returns the left checksum unchanged; otherwise it applies to the
/// left checksum a transformation that depends only on that checksum and the
/// byte count (named `crc_shift` here), and XORs the right checksum into the
/// result. The transformation multiplies the left checksum by `x^(8*len2)`
/// in the CRC polynomial's field, which is exactly how this crate's
/// convention of a checksum advances past unread bytes: `crc_of` of a
/// concatenation equals the advanced left `crc_of` XOR the right part's
/// `crc_of`. The last clause states that identity with the free right
/// checksum XORed in, which makes it hold for every `crc2`, not only the
/// right part's own checksum.
#[verifier::external_body]
fn crc32_combine(crc1: u32, crc2: u32, len2: usize) -> (r: u32)
    ensures
        len2 == 0 ==> r == crc1,
        len2 > 0 ==> r == crc_shift(crc1, len2 as nat) ^ crc2,
        forall|a: Seq<u8>, b: Seq<u8>|
            #![trigger crc_of(a + b)]
            len2 > 0 && crc_of(a) == crc1 && b.len() == len2 ==> r == crc_of(a + b) ^ crc_of(b)
                ^ crc2,
{
    let mut h1 = crc32fast::Hasher::new_with_initial_len(crc1, 0);
    let h2 = crc32fast::Hasher::new_with_initial_len(crc2, len2 as u64);
    h1.combine(&h2);
    h1.finalize()
}

proof fn lemma_xor_cancel(a: u32, b: u32)
    by (bit_vector)
    ensures
        a ^ b ^ b == a,
        a ^ 0 == a,
{
}

/// A checksum together with the number of bytes it summarizes.
#[derive(Clone, Copy, PartialEq, Eq, Structural, Debug, Hash)]
pub struct XivCrc32 {
    pub crc: u32,
    pub len: usize,
}

impl Default for XivCrc32 {
    /// The checksum of no bytes at all: zero checksum, zero length.
    fn default() -> (r: Self)
        ensures
            r.crc == 0,
            r.len == 0,
    {
        XivCrc32 { crc: 0, len: 0 }
    }
}

impl XivCrc32 {
    /// `self` is the checksum of exactly the byte sequence `s`.
    pub open spec fn summarizes(self, s: Seq<u8>) -> bool {
        self.crc == crc_of(s) && self.len == s.len()
    }

    pub fn new(crc: u32, len: usize) -> (r: Self)
        ensures
            r.crc == crc,
            r.len == len,
    {
        XivCrc32 { crc, len }
    }

    pub fn zero(len: usize) -> (r: Self)
        ensures
            r.crc == 0,
            r.len == len,
    {
        XivCrc32 { crc: 0, len }
    }

    /// The checksum of the given bytes.
    pub fn from_bytes(s: &[u8]) -> (r: Self)
        ensures
            r.summarizes(s@),
            s@.len() == 0 ==> r.crc == 0,
    {
        let crc = crc32_of_bytes(s);
        XivCrc32 { crc, len: s.len() }
    }

    /// The checksum of `self`'s bytes immediately followed by `rhs`'s bytes,
    /// computed without re-reading either sequence. Not commutative: the two
    /// operands play different roles.
    pub fn combine(self, rhs: XivCrc32) -> (r: XivCrc32)
        requires
            self.len + rhs.len <= usize::MAX,
        ensures
            r.len == self.len + rhs.len,
            r.crc == combine_crc(self.crc, rhs.crc, rhs.len as nat),
            forall|x: Seq<u8>, y: Seq<u8>|
                #![trigger crc_of(x + y)]
                self.summarizes(x) && rhs.summarizes(y) ==> r.summarizes(x + y),
            forall|x: Seq<u8>, y: Seq<u8>|
                #![trigger crc_of(x + y)]
                rhs.len > 0 && crc_of(x) == self.crc && y.len() == rhs.len ==> r.crc == crc_of(
                    x + y,
                ) ^ crc_of(y) ^ rhs.crc,
    {
        let c = crc32_combine(self.crc, rhs.crc, rhs.len);
        let r = XivCrc32 { crc: c, len: self.len + rhs.len };
        proof {
            assert forall|x: Seq<u8>, y: Seq<u8>|
                self.summarizes(x) && rhs.summarizes(y) implies #[trigger] crc_of(x + y)
                == r.crc by {
                if rhs.len == 0 {
                    assert(x + y =~= x);
                } else {
                    lemma_xor_cancel(crc_of(x + y), crc_of(y));
                }
            }
        }
        r
    }

    /// The checksum as if `n` further bytes followed `self`'s bytes, of
    /// unknown content: combining with the checksum of that many zero bytes.
    pub fn extend_by_zero(self, n: usize) -> (r: XivCrc32)
        requires
            self.len + n <= usize::MAX,
        ensures
            r.len == self.len + n,
            r.crc == combine_crc(self.crc, 0, n as nat),
            n == 0 ==> r == self,
            forall|x: Seq<u8>, y: Seq<u8>|
                #![trigger crc_of(x + y)]
                n > 0 && crc_of(x) == self.crc && y.len() == n ==> r.crc == crc_of(x + y) ^ crc_of(
                    y,
                ),
    {
        let r = self.combine(XivCrc32::zero(n));
        proof {
            assert forall|x: Seq<u8>, y: Seq<u8>|
                n > 0 && crc_of(x) == self.crc && y.len() == n implies #[trigger] crc_of(x + y)
                ^ crc_of(y) == r.crc by {
                lemma_xor_cancel(crc_of(x + y) ^ crc_of(y), 0);
            }
        }
        r
    }

    /// Bitwise XOR of the two checksums; the length is the larger of the two.
    pub fn xor_compose(self, rhs: XivCrc32) -> (r: XivCrc32)
        ensures
            r.crc == self.crc ^ rhs.crc,
            r.len == if self.len >= rhs.len {
                self.len
            } else {
                rhs.len
            },
    {
        XivCrc32 {
            crc: self.crc ^ rhs.crc,
            len: if self.len >= rhs.len {
                self.len
            } else {
                rhs.len
            },
        }
    }
}

} // verus!
