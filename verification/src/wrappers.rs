//! Calls into other crates and into parts of the standard library that the
//! verifier has no specification for. The contracts in this file are believed,
//! not proved.

use bitvec::boxed::BitBox;
use bitvec::order::Lsb0;
use bitvec::vec::BitVec;
use rand::distributions::Alphanumeric;
use rand::rngs::SmallRng;
use rand::seq::SliceRandom;
use rand::{Rng, SeedableRng};
use sha1::{Digest, Sha1};
use vstd::prelude::*;
use vstd::string::StringSliceAdditionalSpecFns;
use vstd::utf8::valid_utf8;

verus! {

/// The digest that `sha1::Sha1::digest` gives for `data`: its SHA-1.
pub uninterp spec fn sha1_digest(data: Seq<u8>) -> Seq<u8>;

/// Hashes `data` with `sha1::Sha1::digest`. The contract claims that the
/// twenty bytes that come back depend on the bytes of `data` and on nothing
/// else.
#[verifier::external_body]
pub(crate) fn sha1(data: &[u8]) -> (r: [u8; 20])
    ensures
        r@ == sha1_digest(data@),
{
    Sha1::digest(data).into()
}

/// Reads `bytes` as text with `core::str::from_utf8`. The contract claims
/// that text comes back exactly when the bytes are well-formed UTF-8, and
/// that it is then made of those bytes.
#[verifier::external_body]
pub(crate) fn utf8_text<'a>(bytes: &'a [u8]) -> (r: Option<&'a str>)
    ensures
        r is Some <==> valid_utf8(bytes@),
        r matches Some(s) ==> s.spec_bytes() == bytes@,
{
    core::str::from_utf8(bytes).ok()
}

/// `rand::rngs::SmallRng`, a small pseudo-random generator. Nothing is
/// claimed of the numbers that it gives.
#[verifier::external_type_specification]
#[verifier::external_body]
pub struct ExSmallRng(SmallRng);

/// Makes a generator with `SeedableRng::seed_from_u64`. Nothing is claimed
/// of it.
#[verifier::external_body]
pub(crate) fn seeded(seed: u64) -> SmallRng {
    SmallRng::seed_from_u64(seed)
}

/// Shuffles `items` in place with `SliceRandom::shuffle`, which swaps items
/// of the slice among themselves. The contract claims that the same items
/// are there afterwards, each as often as before, in whatever order.
#[verifier::external_body]
pub(crate) fn shuffle<T>(items: &mut Vec<T>, rng: &mut SmallRng)
    ensures
        final(items)@.to_multiset() == old(items)@.to_multiset(),
{
    items.shuffle(rng)
}

/// Whether `c` is an ASCII letter or digit.
pub open spec fn is_alphanumeric(c: char) -> bool {
    ('0' <= c <= '9') || ('a' <= c <= 'z') || ('A' <= c <= 'Z')
}

/// Draws `n` characters with `Rng::sample_iter` from
/// `rand::distributions::Alphanumeric`, which picks each from the ASCII
/// letters and digits. The contract claims the number of characters and that
/// each is one of those.
#[verifier::external_body]
pub(crate) fn alphanumeric(rng: &mut SmallRng, n: usize) -> (r: String)
    ensures
        r@.len() == n,
        forall|i: int| 0 <= i < n ==> is_alphanumeric(#[trigger] r@[i]),
{
    rng.sample_iter(&Alphanumeric).take(n).map(char::from).collect()
}

/// One claim per piece, held in a `bitvec::boxed::BitBox`.
#[verifier::external_body]
#[derive(Debug)]
pub struct PieceSet {
    bits: BitBox<usize, Lsb0>,
}

/// The claims that a `PieceSet` holds, piece by piece.
pub uninterp spec fn claims(set: PieceSet) -> Seq<bool>;

/// The most claims that a `PieceSet` can hold: `bitvec` keeps three bits of a
/// length for its own use.
pub open spec fn max_claims() -> nat {
    usize::MAX as nat / 8
}

impl PieceSet {
    /// Makes `len` claims, none of them set, with `BitVec::repeat` and
    /// `BitVec::into_boxed_bitslice`. `repeat` panics on a length over
    /// `max_claims()`, which `requires` leaves out.
    #[verifier::external_body]
    pub(crate) fn new(len: usize) -> (r: PieceSet)
        requires
            len <= max_claims(),
        ensures
            claims(r) == Seq::new(len as nat, |i: int| false),
    {
        PieceSet { bits: BitVec::<usize, Lsb0>::repeat(false, len).into_boxed_bitslice() }
    }

    /// The number of claims, from `BitSlice::len`.
    #[verifier::external_body]
    pub(crate) fn len(&self) -> (r: usize)
        ensures
            r == claims(*self).len(),
    {
        self.bits.len()
    }

    /// The claim for piece `index`, read by indexing the `BitSlice`, which
    /// panics on an index that is out of range.
    #[verifier::external_body]
    pub(crate) fn get(&self, index: usize) -> (r: bool)
        requires
            index < claims(*self).len(),
        ensures
            r == claims(*self)[index as int],
    {
        self.bits[index]
    }

    /// Writes the claim for piece `index` with `BitSlice::set`, which panics
    /// on an index that is out of range. The contract claims that this claim
    /// is `value` afterwards and every other claim what it was.
    #[verifier::external_body]
    pub(crate) fn set(&mut self, index: usize, value: bool)
        requires
            index < claims(*old(self)).len(),
        ensures
            claims(*final(self)) == claims(*old(self)).update(index as int, value),
    {
        self.bits.set(index, value)
    }
}

} // verus!
