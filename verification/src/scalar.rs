//! Elements of the Pallas scalar field `F_r`, held as their canonical
//! 32-byte little-endian encoding.

use ark_ff::PrimeField;
use ark_serialize::CanonicalSerialize;
use vstd::prelude::*;
use vstd::std_specs::cmp::PartialEqSpecImpl;

verus! {

/// The order `r` of the Pallas group, which is also the size of its scalar field.
pub open spec fn group_order() -> int {
    28948022309329048855892746252171976963363056481941647379679742748393362948097int
}

/// The unsigned integer that a little-endian byte string denotes.
pub open spec fn le_value(bytes: Seq<u8>) -> nat
    decreases bytes.len(),
{
    if bytes.len() == 0 {
        0
    } else {
        (bytes[0] + 256 * le_value(bytes.drop_first())) as nat
    }
}

/// A scalar `s` in `[0, r)`.
#[derive(Clone, Copy, Debug)]
pub struct Scalar {
    pub(crate) bytes: [u8; 32],
}

impl View for Scalar {
    type V = int;

    closed spec fn view(&self) -> int {
        le_value(self.bytes@) as int
    }
}

impl Scalar {
    #[verifier::type_invariant]
    spec fn canonical(self) -> bool {
        le_value(self.bytes@) < group_order()
    }

    /// The value of a scalar, which always lies in `[0, r)`.
    pub fn value_in_range(&self)
        ensures
            0 <= self@ < group_order(),
    {
        proof {
            use_type_invariant(self);
        }
    }

    fn from_canonical(bytes: [u8; 32]) -> (s: Scalar)
        requires
            le_value(bytes@) < group_order(),
        ensures
            s@ == le_value(bytes@),
    {
        Scalar { bytes }
    }
}

/// Little-endian byte strings of one length denote one value only if they are
/// the same string.
pub proof fn lemma_le_value_injective(a: Seq<u8>, b: Seq<u8>)
    requires
        a.len() == b.len(),
        le_value(a) == le_value(b),
    ensures
        a == b,
    decreases a.len(),
{
    if a.len() > 0 {
        let x = a[0] as int;
        let y = b[0] as int;
        let ra = le_value(a.drop_first()) as int;
        let rb = le_value(b.drop_first()) as int;
        assert(x + 256 * ra == y + 256 * rb);
        assert(x == y && ra == rb);
        lemma_le_value_injective(a.drop_first(), b.drop_first());
        assert forall|i: int| 0 <= i < a.len() implies a[i] == b[i] by {
            if i > 0 {
                assert(a[i] == a.drop_first()[i - 1]);
                assert(b[i] == b.drop_first()[i - 1]);
            }
        }
        assert(a =~= b);
    }
}

impl PartialEq for Scalar {
    /// Whether two scalars are the same field element.
    fn eq(&self, other: &Scalar) -> (r: bool) {
        let mut i: usize = 0;
        while i < 32
            invariant
                0 <= i <= 32,
                forall|j: int| 0 <= j < i ==> self.bytes@[j] == other.bytes@[j],
            decreases 32 - i,
        {
            if self.bytes[i] != other.bytes[i] {
                proof {
                    if self@ == other@ {
                        lemma_le_value_injective(self.bytes@, other.bytes@);
                    }
                }
                return false;
            }
            i = i + 1;
        }
        assert(self.bytes@ =~= other.bytes@);
        true
    }
}

impl PartialEqSpecImpl for Scalar {
    open spec fn obeys_eq_spec() -> bool {
        true
    }

    open spec fn eq_spec(&self, other: &Scalar) -> bool {
        self@ == other@
    }
}

impl Eq for Scalar {

}

/// The field element `n`, computed by `Fr::from(n)`: its value is `n`,
/// because every `u64` is below `r`.
#[verifier::external_body]
fn fr_from_u64(n: u64) -> (r: [u8; 32])
    ensures
        le_value(r@) == n,
{
    let mut out = [0u8; 32];
    ark_pallas::Fr::from(n).serialize_compressed(&mut out[..]).unwrap();
    out
}

/// Field addition `a + b` in `ark_pallas::Fr`: `(a + b) mod r`.
#[verifier::external_body]
fn fr_add(a: &Scalar, b: &Scalar) -> (r: [u8; 32])
    ensures
        le_value(r@) == (a@ + b@) % group_order(),
{
    let x = ark_pallas::Fr::from_le_bytes_mod_order(&a.bytes);
    let y = ark_pallas::Fr::from_le_bytes_mod_order(&b.bytes);
    let mut out = [0u8; 32];
    (x + y).serialize_compressed(&mut out[..]).unwrap();
    out
}

/// Field subtraction `a - b` in `ark_pallas::Fr`: `(a - b) mod r`.
#[verifier::external_body]
fn fr_sub(a: &Scalar, b: &Scalar) -> (r: [u8; 32])
    ensures
        le_value(r@) == (a@ - b@) % group_order(),
{
    let x = ark_pallas::Fr::from_le_bytes_mod_order(&a.bytes);
    let y = ark_pallas::Fr::from_le_bytes_mod_order(&b.bytes);
    let mut out = [0u8; 32];
    (x - y).serialize_compressed(&mut out[..]).unwrap();
    out
}

/// Field multiplication `a * b` in `ark_pallas::Fr`: `(a * b) mod r`.
#[verifier::external_body]
fn fr_mul(a: &Scalar, b: &Scalar) -> (r: [u8; 32])
    ensures
        le_value(r@) == (a@ * b@) % group_order(),
{
    let x = ark_pallas::Fr::from_le_bytes_mod_order(&a.bytes);
    let y = ark_pallas::Fr::from_le_bytes_mod_order(&b.bytes);
    let mut out = [0u8; 32];
    (x * y).serialize_compressed(&mut out[..]).unwrap();
    out
}

/// `Fr::from_le_bytes_mod_order`: the little-endian integer that `bytes`
/// denotes, reduced modulo `r`.
#[verifier::external_body]
fn fr_from_le_bytes_mod_order(bytes: &[u8]) -> (r: [u8; 32])
    ensures
        le_value(r@) == (le_value(bytes@) as int) % group_order(),
{
    let x = ark_pallas::Fr::from_le_bytes_mod_order(bytes);
    let mut out = [0u8; 32];
    x.serialize_compressed(&mut out[..]).unwrap();
    out
}

/// `Fr::rand(rng)`: a scalar drawn by the caller's random source. Nothing is
/// stated of which scalar comes out, beyond its being a field element. The
/// draw is by rejection sampling, so for a source that never yields a value
/// below `r` the call does not return.
#[verifier::external_body]
fn fr_rand<R: rand::RngCore>(rng: &mut R) -> (r: [u8; 32])
    ensures
        le_value(r@) < group_order(),
{
    let x = <ark_pallas::Fr as ark_std::UniformRand>::rand(rng);
    let mut out = [0u8; 32];
    x.serialize_compressed(&mut out[..]).unwrap();
    out
}

impl Scalar {
    /// The scalar `n` (`Fr::from(n)`).
    pub fn from_u64(n: u64) -> (s: Scalar)
        ensures
            s@ == n,
    {
        let bytes = fr_from_u64(n);
        assert(n < group_order());
        Scalar::from_canonical(bytes)
    }

    /// `self + other` in the scalar field.
    pub fn add(&self, other: &Scalar) -> (s: Scalar)
        ensures
            s@ == (self@ + other@) % group_order(),
    {
        let bytes = fr_add(self, other);
        Scalar::from_canonical(bytes)
    }

    /// `self - other` in the scalar field.
    pub fn sub(&self, other: &Scalar) -> (s: Scalar)
        ensures
            s@ == (self@ - other@) % group_order(),
    {
        let bytes = fr_sub(self, other);
        Scalar::from_canonical(bytes)
    }

    /// `self * other` in the scalar field.
    pub fn mul(&self, other: &Scalar) -> (s: Scalar)
        ensures
            s@ == (self@ * other@) % group_order(),
    {
        let bytes = fr_mul(self, other);
        Scalar::from_canonical(bytes)
    }

    /// The little-endian integer `bytes` reduced modulo `r`.
    pub fn from_le_bytes_mod_order(bytes: &[u8]) -> (s: Scalar)
        ensures
            s@ == (le_value(bytes@) as int) % group_order(),
    {
        let out = fr_from_le_bytes_mod_order(bytes);
        Scalar::from_canonical(out)
    }

    /// A scalar drawn from `rng` (`Fr::rand`).
    pub fn rand<R: rand::RngCore>(rng: &mut R) -> (s: Scalar)
        ensures
            0 <= s@ < group_order(),
    {
        let out = fr_rand(rng);
        Scalar::from_canonical(out)
    }

    /// The canonical little-endian encoding of the scalar.
    pub fn to_bytes(&self) -> (b: [u8; 32])
        ensures
            le_value(b@) == self@,
    {
        self.bytes
    }
}

} // verus!
