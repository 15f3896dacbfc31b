//! Points of the Pallas group, held as their canonical compressed encoding.
//!
//! The Pallas group is cyclic of prime order `r` and generated by `G`, so every
//! point is `k·G` for exactly one `k` in `[0, r)`, its discrete logarithm. A
//! `Point` holds its canonical compressed encoding, which no other point
//! shares, and its view is the logarithm of the point encoded; the group law,
//! scalar multiplication and equality are then exact statements about
//! logarithms.

use crate::scalar::{group_order, Scalar};
use ark_ec::PrimeGroup;
use ark_ff::PrimeField;
use ark_serialize::{CanonicalDeserialize, CanonicalSerialize};
use ark_std::Zero;
use vstd::prelude::*;
use vstd::std_specs::cmp::PartialEqSpecImpl;

verus! {

/// The compressed encoding (`CanonicalSerialize::serialize_compressed`) of the
/// Pallas point `k·G`, where `G` is `Projective::generator()`.
pub uninterp spec fn point_encoding(k: int) -> Seq<u8>;

/// `bytes` is the compressed encoding of `k·G`, and of no other point: the
/// compressed encoding is canonical, so distinct points have distinct
/// encodings.
pub open spec fn encodes_only(bytes: Seq<u8>, k: int) -> bool {
    &&& bytes == point_encoding(k)
    &&& forall|j: int| 0 <= j < group_order() && #[trigger] point_encoding(j) == bytes ==> j == k
}

/// The logarithm of the point whose compressed encoding is `bytes`.
pub closed spec fn logarithm_of(bytes: Seq<u8>) -> int {
    choose|k: int| 0 <= k < group_order() && #[trigger] encodes_only(bytes, k)
}

/// A point `k·G` of the Pallas group, held as its compressed encoding.
#[derive(Clone, Copy, Debug)]
pub struct Point {
    pub(crate) bytes: [u8; 33],
}

impl View for Point {
    type V = int;

    /// The discrete logarithm of the point to the base `G`.
    closed spec fn view(&self) -> int {
        logarithm_of(self.bytes@)
    }
}

impl Point {
    #[verifier::type_invariant]
    spec fn encodes_its_log(self) -> bool {
        &&& 0 <= logarithm_of(self.bytes@) < group_order()
        &&& encodes_only(self.bytes@, logarithm_of(self.bytes@))
    }

    fn from_encoding(bytes: [u8; 33], Ghost(log): Ghost<int>) -> (p: Point)
        requires
            0 <= log < group_order(),
            encodes_only(bytes@, log),
        ensures
            p@ == log,
    {
        let p = Point { bytes };
        assert(p@ == log) by {
            let k = logarithm_of(bytes@);
            assert(0 <= k < group_order() && encodes_only(bytes@, k));
            assert(point_encoding(k) == bytes@);
        }
        p
    }
}

/// `Projective::generator()`, the point `1·G`, returned as its compressed
/// encoding, which no other point shares.
#[verifier::external_body]
fn pallas_generator() -> (r: [u8; 33])
    ensures
        r@ == point_encoding(1),
        encodes_only(r@, 1),
{
    let mut out = [0u8; 33];
    ark_pallas::Projective::generator().serialize_compressed(&mut out[..]).unwrap();
    out
}

/// `Projective::zero()`, the identity point `0·G`, returned as its compressed
/// encoding, which no other point shares.
#[verifier::external_body]
fn pallas_zero() -> (r: [u8; 33])
    ensures
        r@ == point_encoding(0),
        encodes_only(r@, 0),
{
    let mut out = [0u8; 33];
    ark_pallas::Projective::zero().serialize_compressed(&mut out[..]).unwrap();
    out
}

/// Group addition `a + b` on Pallas points: the logarithms add modulo `r`; the
/// sum is returned as its compressed encoding, which no other point shares.
#[verifier::external_body]
fn pallas_add(a: &Point, b: &Point) -> (r: [u8; 33])
    ensures
        r@ == point_encoding((a@ + b@) % group_order()),
        encodes_only(r@, (a@ + b@) % group_order()),
{
    let x = ark_pallas::Projective::deserialize_compressed_unchecked(&a.bytes[..]).unwrap();
    let y = ark_pallas::Projective::deserialize_compressed_unchecked(&b.bytes[..]).unwrap();
    let mut out = [0u8; 33];
    (x + y).serialize_compressed(&mut out[..]).unwrap();
    out
}

/// Group subtraction `a - b` on Pallas points: the logarithms subtract modulo
/// `r`; the difference is returned as its compressed encoding, which no other
/// point shares.
#[verifier::external_body]
fn pallas_sub(a: &Point, b: &Point) -> (r: [u8; 33])
    ensures
        r@ == point_encoding((a@ - b@) % group_order()),
        encodes_only(r@, (a@ - b@) % group_order()),
{
    let x = ark_pallas::Projective::deserialize_compressed_unchecked(&a.bytes[..]).unwrap();
    let y = ark_pallas::Projective::deserialize_compressed_unchecked(&b.bytes[..]).unwrap();
    let mut out = [0u8; 33];
    (x - y).serialize_compressed(&mut out[..]).unwrap();
    out
}

/// Scalar multiplication `a * k` of a Pallas point: the logarithm is
/// multiplied by `k` modulo `r`; the product is returned as its compressed
/// encoding, which no other point shares.
#[verifier::external_body]
fn pallas_mul(a: &Point, k: &Scalar) -> (r: [u8; 33])
    ensures
        r@ == point_encoding((a@ * k@) % group_order()),
        encodes_only(r@, (a@ * k@) % group_order()),
{
    let x = ark_pallas::Projective::deserialize_compressed_unchecked(&a.bytes[..]).unwrap();
    let s = ark_pallas::Fr::from_le_bytes_mod_order(&k.bytes);
    let mut out = [0u8; 33];
    (x * s).serialize_compressed(&mut out[..]).unwrap();
    out
}

/// `Projective == Projective`: two points are equal exactly when they are the
/// same group element, that is, when their logarithms agree.
#[verifier::external_body]
fn pallas_eq(a: &Point, b: &Point) -> (r: bool)
    ensures
        r == (a@ == b@),
{
    let x = ark_pallas::Projective::deserialize_compressed_unchecked(&a.bytes[..]).unwrap();
    let y = ark_pallas::Projective::deserialize_compressed_unchecked(&b.bytes[..]).unwrap();
    x == y
}

impl PartialEq for Point {
    /// Whether two points are the same group element.
    fn eq(&self, other: &Point) -> (r: bool) {
        pallas_eq(self, other)
    }
}

impl PartialEqSpecImpl for Point {
    open spec fn obeys_eq_spec() -> bool {
        true
    }

    open spec fn eq_spec(&self, other: &Point) -> bool {
        self@ == other@
    }
}

impl Eq for Point {

}

impl Default for Point {
    /// The identity element, as `Projective::default()` is.
    fn default() -> (p: Point)
        ensures
            p@ == 0,
    {
        Point::identity()
    }
}

impl Point {
    /// The fixed generator `G` of the group.
    pub fn generator() -> (p: Point)
        ensures
            p@ == 1,
    {
        Point::from_encoding(pallas_generator(), Ghost(1))
    }

    /// The identity element `O = 0·G`.
    pub fn identity() -> (p: Point)
        ensures
            p@ == 0,
    {
        Point::from_encoding(pallas_zero(), Ghost(0))
    }

    /// The discrete logarithm of a point always lies in `[0, r)`.
    pub fn log_in_range(&self)
        ensures
            0 <= self@ < group_order(),
    {
        proof {
            use_type_invariant(self);
        }
    }

    /// `self + other`.
    pub fn add(&self, other: &Point) -> (p: Point)
        ensures
            p@ == (self@ + other@) % group_order(),
    {
        let bytes = pallas_add(self, other);
        Point::from_encoding(bytes, Ghost((self@ + other@) % group_order()))
    }

    /// `self - other`.
    pub fn sub(&self, other: &Point) -> (p: Point)
        ensures
            p@ == (self@ - other@) % group_order(),
    {
        let bytes = pallas_sub(self, other);
        Point::from_encoding(bytes, Ghost((self@ - other@) % group_order()))
    }

    /// `self · k`.
    pub fn mul(&self, k: &Scalar) -> (p: Point)
        ensures
            p@ == (self@ * k@) % group_order(),
    {
        let bytes = pallas_mul(self, k);
        Point::from_encoding(bytes, Ghost((self@ * k@) % group_order()))
    }

    /// Whether two points are the same group element.
    pub fn equals(&self, other: &Point) -> (b: bool)
        ensures
            b == (self@ == other@),
    {
        pallas_eq(self, other)
    }

    /// The compressed encoding of the point, which no other point shares.
    pub fn to_bytes(&self) -> (b: [u8; 33])
        ensures
            encodes_only(b@, self@),
    {
        proof {
            use_type_invariant(self);
        }
        self.bytes
    }
}

} // verus!
