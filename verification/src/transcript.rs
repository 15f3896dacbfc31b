//! The Fiat–Shamir transcript: a domain-separation label followed by the
//! compressed encodings of the absorbed points, hashed with SHA-512.

use crate::point::{point_encoding, Point};
use crate::scalar::{group_order, le_value, Scalar};
use sha2::Digest;
use vstd::prelude::*;

verus! {

/// The SHA-512 digest of `data` (`sha2::Sha512::digest`).
pub uninterp spec fn sha512_digest(data: Seq<u8>) -> Seq<u8>;

/// `Sha512::digest(data)`: the 64-byte SHA-512 digest of `data`.
#[verifier::external_body]
fn sha512(data: &[u8]) -> (digest: Vec<u8>)
    ensures
        digest@ == sha512_digest(data@),
        digest@.len() == 64,
{
    sha2::Sha512::digest(data).to_vec()
}

/// The encodings of points with logarithms `logs`, one after the other.
pub open spec fn encodings(logs: Seq<int>) -> Seq<u8>
    decreases logs.len(),
{
    if logs.len() == 0 {
        Seq::empty()
    } else {
        encodings(logs.drop_last()) + point_encoding(logs.last())
    }
}

/// The scalar challenge squeezed from a transcript holding `data`: its SHA-512
/// digest read as a little-endian integer, reduced modulo `r`.
pub open spec fn challenge_of(data: Seq<u8>) -> int {
    (le_value(sha512_digest(data)) as int) % group_order()
}

/// The challenge bit `j` drawn from a digest: bit `j % 8` of byte `j / 8`.
pub open spec fn digest_bit(digest: Seq<u8>, j: int) -> bool {
    (digest[j / 8] >> ((j % 8) as u8)) & 1u8 == 1u8
}

/// A Fiat–Shamir transcript: the bytes absorbed so far.
pub struct Transcript {
    data: Vec<u8>,
}

impl View for Transcript {
    type V = Seq<u8>;

    closed spec fn view(&self) -> Seq<u8> {
        self.data@
    }
}

impl Transcript {
    /// A transcript that starts with the domain-separation `label`.
    pub fn new(label: &[u8]) -> (t: Transcript)
        ensures
            t@ == label@,
    {
        Transcript { data: vstd::slice::slice_to_vec(label) }
    }

    /// Absorb the compressed encoding of `p`.
    pub fn absorb(&mut self, p: &Point)
        ensures
            final(self)@ == old(self)@ + point_encoding(p@),
    {
        let bytes = p.to_bytes();
        let mut i: usize = 0;
        while i < 33
            invariant
                0 <= i <= 33,
                bytes@ == point_encoding(p@),
                self@ == old(self)@ + bytes@.take(i as int),
            decreases 33 - i,
        {
            self.data.push(bytes[i]);
            i = i + 1;
            assert(bytes@.take(i as int) == bytes@.take(i - 1) + seq![bytes@[i - 1]]);
        }
        assert(bytes@.take(33) == bytes@);
    }

    /// Absorb the encodings of every point of `points`, in order.
    pub fn absorb_all(&mut self, points: &[Point])
        ensures
            final(self)@ == old(self)@ + encodings(points@.map_values(|p: Point| p@)),
    {
        let mut i: usize = 0;
        while i < points.len()
            invariant
                0 <= i <= points@.len(),
                self@ == old(self)@ + encodings(points@.take(i as int).map_values(|p: Point| p@)),
            decreases points@.len() - i,
        {
            self.absorb(&points[i]);
            i = i + 1;
            assert(points@.take(i as int).map_values(|p: Point| p@).drop_last() == points@.take(
                i - 1,
            ).map_values(|p: Point| p@));
        }
        assert(points@.take(points@.len() as int) == points@);
    }

    /// Squeeze the scalar challenge: the SHA-512 digest of the transcript, read
    /// as a little-endian integer modulo `r` (`Fr::from_le_bytes_mod_order`).
    pub fn challenge(self) -> (e: Scalar)
        ensures
            e@ == challenge_of(self@),
    {
        let digest = sha512(self.data.as_slice());
        Scalar::from_le_bytes_mod_order(digest.as_slice())
    }

    /// Squeeze `n` challenge bits: bit `j` is bit `j % 8` of byte `j / 8` of the
    /// SHA-512 digest of the transcript.
    pub fn challenge_bits(self, n: usize) -> (bits: Vec<bool>)
        requires
            n <= 512,
        ensures
            bits@.len() == n,
            forall|j: int| 0 <= j < n ==> #[trigger] bits@[j] == digest_bit(sha512_digest(self@), j),
    {
        let digest = sha512(self.data.as_slice());
        let mut bits: Vec<bool> = Vec::new();
        let mut j: usize = 0;
        while j < n
            invariant
                j <= n <= 512,
                digest@ == sha512_digest(self@),
                digest@.len() == 64,
                bits@.len() == j,
                forall|k: int| 0 <= k < j ==> #[trigger] bits@[k] == digest_bit(digest@, k),
            decreases n - j,
        {
            let byte = digest[j / 8];
            let shift = (j % 8) as u8;
            bits.push((byte >> shift) & 1u8 == 1u8);
            j = j + 1;
        }
        bits
    }
}

} // verus!
