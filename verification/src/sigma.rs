//! Non-interactive sigma proofs over the Pallas group, made non-interactive
//! with the Fiat–Shamir transform:
//!
//! - [`SchnorrProof`]: knowledge of `w` with `P = w·G`;
//! - [`DleqProof`] (Chaum–Pedersen): `P1 = w·G1` and `P2 = w·G2` for one `w`.

use crate::algebra::{
    lemma_challenge_cancels, lemma_one_times, lemma_reduced_equal, lemma_response_balances,
};
use crate::point::{point_encoding, Point};
use crate::scalar::{group_order, Scalar};
use crate::transcript::{challenge_of, digest_bit, encodings, sha512_digest, Transcript};
use vstd::prelude::*;
use vstd::std_specs::cmp::PartialEqSpecImpl;

verus! {

/// The domain-separation label of Schnorr transcripts, `b"pkmental/schnorr"`.
pub open spec fn schnorr_label() -> Seq<u8> {
    seq![112u8, 107, 109, 101, 110, 116, 97, 108, 47, 115, 99, 104, 110, 111, 114, 114]
}

/// The domain-separation label of Chaum–Pedersen transcripts, `b"pkmental/dleq"`.
pub open spec fn dleq_label() -> Seq<u8> {
    seq![112u8, 107, 109, 101, 110, 116, 97, 108, 47, 100, 108, 101, 113]
}

fn schnorr_label_bytes() -> (b: Vec<u8>)
    ensures
        b@ == schnorr_label(),
{
    let b = vec![112u8, 107, 109, 101, 110, 116, 97, 108, 47, 115, 99, 104, 110, 111, 114, 114];
    assert(b@ == schnorr_label());
    b
}

fn dleq_label_bytes() -> (b: Vec<u8>)
    ensures
        b@ == dleq_label(),
{
    let b = vec![112u8, 107, 109, 101, 110, 116, 97, 108, 47, 100, 108, 101, 113];
    assert(b@ == dleq_label());
    b
}

/// The fixed Pallas generator `G`.
pub fn generator() -> (g: Point)
    ensures
        g@ == 1,
{
    Point::generator()
}

/// The Schnorr challenge for the statement `P` (logarithm `p`) and the
/// commitment `R` (logarithm `r`): the transcript absorbs `G`, `P`, `R`.
pub open spec fn schnorr_challenge(p: int, r: int) -> int {
    challenge_of(schnorr_label() + point_encoding(1) + point_encoding(p) + point_encoding(r))
}

/// The Schnorr verification equation `s·G == R + e·P`, over logarithms.
pub open spec fn schnorr_accepts(p: int, r: int, s: int) -> bool {
    (1 * s) % group_order() == (r + (p * schnorr_challenge(p, r)) % group_order())
        % group_order()
}

/// A Schnorr proof of knowledge of `w` with `P = w·G`: a commitment `R` and a
/// response `s`.
#[derive(Clone, Copy, Debug)]
pub struct SchnorrProof {
    r: Point,
    s: Scalar,
}

impl View for SchnorrProof {
    /// The logarithm of the commitment and the value of the response.
    type V = (int, int);

    closed spec fn view(&self) -> (int, int) {
        (self.r@, self.s@)
    }
}

impl SchnorrProof {
    /// The proof with nonce `k`: commitment `R = k·G`, challenge
    /// `e = H(G, P, R)`, response `s = k + e·w`.
    pub fn prove_with_nonce(w: &Scalar, point: &Point, k: &Scalar) -> (proof: SchnorrProof)
        ensures
            proof@.0 == k@,
            proof@.1 == (k@ + (schnorr_challenge(point@, k@) * w@) % group_order())
                % group_order(),
    {
        let g = generator();
        k.value_in_range();
        proof {
            lemma_one_times(k@);
        }
        let r = g.mul(k);
        let mut t = Transcript::new(schnorr_label_bytes().as_slice());
        t.absorb(&g);
        t.absorb(point);
        t.absorb(&r);
        let e = t.challenge();
        let s = k.add(&e.mul(w));
        SchnorrProof { r, s }
    }

    /// Prove knowledge of `w` such that `point = w·G`, with a nonce drawn from
    /// `rng`. Whatever nonce is drawn, the response is `s = k + e·w` for the
    /// commitment `R = k·G` and `e = H(G, P, R)`; when `point = w·G` the proof
    /// verifies.
    pub fn prove<R: rand::RngCore>(w: Scalar, point: Point, rng: &mut R) -> (proof: SchnorrProof)
        ensures
            proof@.1 == (proof@.0 + (schnorr_challenge(point@, proof@.0) * w@) % group_order())
                % group_order(),
            point@ == w@ ==> schnorr_accepts(point@, proof@.0, proof@.1),
    {
        let k = Scalar::rand(rng);
        w.value_in_range();
        let proof = SchnorrProof::prove_with_nonce(&w, &point, &k);
        proof {
            if point@ == w@ {
                lemma_schnorr_complete(w@, point@, k@);
            }
        }
        proof
    }

    /// Verify the proof against the claimed `point = w·G`: recompute
    /// `e = H(G, P, R)` and check `s·G == R + e·P`.
    pub fn verify(&self, point: Point) -> (ok: bool)
        ensures
            ok == schnorr_accepts(point@, self@.0, self@.1),
    {
        let g = generator();
        let mut t = Transcript::new(schnorr_label_bytes().as_slice());
        t.absorb(&g);
        t.absorb(&point);
        t.absorb(&self.r);
        let e = t.challenge();
        g.mul(&self.s).equals(&self.r.add(&point.mul(&e)))
    }
}

impl PartialEq for SchnorrProof {
    /// Whether two proofs have the same commitment and response.
    fn eq(&self, other: &SchnorrProof) -> (r: bool) {
        self.r == other.r && self.s == other.s
    }
}

impl PartialEqSpecImpl for SchnorrProof {
    open spec fn obeys_eq_spec() -> bool {
        true
    }

    open spec fn eq_spec(&self, other: &SchnorrProof) -> bool {
        self@ == other@
    }
}

impl Eq for SchnorrProof {

}

/// Completeness of Schnorr proofs: the proof of `w` for `P = w·G`, with any
/// nonce `k`, satisfies the verification equation.
pub proof fn lemma_schnorr_complete(w: int, p: int, k: int)
    requires
        0 <= w < group_order(),
        0 <= k < group_order(),
        p == w,
    ensures
        schnorr_accepts(
            p,
            k,
            (k + (schnorr_challenge(p, k) * w) % group_order()) % group_order(),
        ),
{
    let e = schnorr_challenge(p, k);
    lemma_response_balances(1, k, w, e);
    lemma_one_times(k);
    lemma_one_times(w);
}

/// Soundness of a Schnorr proof formed for a witness `w`: it passes for the
/// statement `P` (logarithm `p`) only if the challenge times the gap `w − p`
/// is a multiple of `r`; so, whenever the challenge is invertible modulo `r`
/// (`e_inv` an inverse), only if `P = w·G`.
pub proof fn lemma_schnorr_sound(w: int, p: int, k: int, e_inv: int)
    requires
        0 <= w < group_order(),
        0 <= p < group_order(),
        schnorr_accepts(
            p,
            k,
            (k + (schnorr_challenge(p, k) * w) % group_order()) % group_order(),
        ),
    ensures
        (schnorr_challenge(p, k) * (w - p)) % group_order() == 0,
        (schnorr_challenge(p, k) * e_inv) % group_order() == 1 ==> p == w,
{
    let m = group_order();
    let e = schnorr_challenge(p, k);
    lemma_response_balances(1, k, w, e);
    lemma_one_times(w);
    assert(1 * k == k);
    vstd::arithmetic::div_mod::lemma_add_mod_noop(k, (p * e) % m, m);
    vstd::arithmetic::div_mod::lemma_mod_twice(p * e, m);
    lemma_challenge_cancels(k % m, w, p, e, e_inv);
    if (e * e_inv) % m == 1 {
        lemma_reduced_equal(w, p);
    }
}

/// The Chaum–Pedersen challenge binding the statement `(G1, P1, G2, P2)` and
/// the commitments `(R1, R2)`, all given by their logarithms.
pub open spec fn dleq_challenge(g1: int, p1: int, g2: int, p2: int, r1: int, r2: int) -> int {
    challenge_of(
        dleq_label() + point_encoding(g1) + point_encoding(p1) + point_encoding(g2)
            + point_encoding(p2) + point_encoding(r1) + point_encoding(r2),
    )
}

/// The Chaum–Pedersen verification equations `s·G1 == R1 + e·P1` and
/// `s·G2 == R2 + e·P2`, over logarithms.
pub open spec fn dleq_accepts(
    g1: int,
    p1: int,
    g2: int,
    p2: int,
    r1: int,
    r2: int,
    s: int,
) -> bool {
    let e = dleq_challenge(g1, p1, g2, p2, r1, r2);
    &&& (g1 * s) % group_order() == (r1 + (p1 * e) % group_order()) % group_order()
    &&& (g2 * s) % group_order() == (r2 + (p2 * e) % group_order()) % group_order()
}

/// The Chaum–Pedersen proof of witness `w` for `(G1, P1, G2, P2)` with nonce
/// `k`: commitments `(k·G1, k·G2)` and response `k + e·w`.
pub open spec fn dleq_proof_with_nonce(
    w: int,
    g1: int,
    p1: int,
    g2: int,
    p2: int,
    k: int,
) -> (int, int, int) {
    let r1 = (g1 * k) % group_order();
    let r2 = (g2 * k) % group_order();
    let e = dleq_challenge(g1, p1, g2, p2, r1, r2);
    (r1, r2, (k + (e * w) % group_order()) % group_order())
}

/// A Chaum–Pedersen proof that `P1 = w·G1` and `P2 = w·G2` for one `w`.
#[derive(Clone, Copy, Debug)]
pub struct DleqProof {
    r1: Point,
    r2: Point,
    s: Scalar,
}

impl View for DleqProof {
    /// The logarithms of the two commitments and the value of the response.
    type V = (int, int, int);

    closed spec fn view(&self) -> (int, int, int) {
        (self.r1@, self.r2@, self.s@)
    }
}

impl DleqProof {
    /// The proof with nonce `k`: one nonce for both bases.
    pub fn prove_with_nonce(
        w: &Scalar,
        g1: &Point,
        p1: &Point,
        g2: &Point,
        p2: &Point,
        k: &Scalar,
    ) -> (proof: DleqProof)
        ensures
            proof@ == dleq_proof_with_nonce(w@, g1@, p1@, g2@, p2@, k@),
    {
        let r1 = g1.mul(k);
        let r2 = g2.mul(k);
        let e = Self::challenge(g1, p1, g2, p2, &r1, &r2);
        let s = k.add(&e.mul(w));
        DleqProof { r1, r2, s }
    }

    /// Prove that `p1 = w·g1` and `p2 = w·g2` share the witness `w`, with a
    /// nonce drawn from `rng`. Whatever nonce is drawn, the proof is the one
    /// of [`DleqProof::prove_with_nonce`] for it; when both statements hold
    /// the proof verifies.
    pub fn prove<R: rand::RngCore>(
        w: Scalar,
        g1: Point,
        p1: Point,
        g2: Point,
        p2: Point,
        rng: &mut R,
    ) -> (proof: DleqProof)
        ensures
            exists|k: int|
                0 <= k < group_order() && proof@ == dleq_proof_with_nonce(
                    w@,
                    g1@,
                    p1@,
                    g2@,
                    p2@,
                    k,
                ),
            p1@ == (g1@ * w@) % group_order() && p2@ == (g2@ * w@) % group_order()
                ==> dleq_accepts(g1@, p1@, g2@, p2@, proof@.0, proof@.1, proof@.2),
    {
        let k = Scalar::rand(rng);
        let proof = DleqProof::prove_with_nonce(&w, &g1, &p1, &g2, &p2, &k);
        proof {
            if p1@ == (g1@ * w@) % group_order() && p2@ == (g2@ * w@) % group_order() {
                lemma_dleq_complete(w@, g1@, p1@, g2@, p2@, k@);
            }
        }
        proof
    }

    /// Verify the equality-of-discrete-logs proof: recompute `e` and check both
    /// `s·g1 == r1 + e·p1` and `s·g2 == r2 + e·p2`.
    pub fn verify(&self, g1: Point, p1: Point, g2: Point, p2: Point) -> (ok: bool)
        ensures
            ok == dleq_accepts(g1@, p1@, g2@, p2@, self@.0, self@.1, self@.2),
    {
        let e = Self::challenge(&g1, &p1, &g2, &p2, &self.r1, &self.r2);
        if !g1.mul(&self.s).equals(&self.r1.add(&p1.mul(&e))) {
            return false;
        }
        g2.mul(&self.s).equals(&self.r2.add(&p2.mul(&e)))
    }

    /// The Fiat–Shamir challenge: the transcript absorbs `g1, p1, g2, p2, r1, r2`.
    fn challenge(
        g1: &Point,
        p1: &Point,
        g2: &Point,
        p2: &Point,
        r1: &Point,
        r2: &Point,
    ) -> (e: Scalar)
        ensures
            e@ == dleq_challenge(g1@, p1@, g2@, p2@, r1@, r2@),
    {
        let mut t = Transcript::new(dleq_label_bytes().as_slice());
        t.absorb(g1);
        t.absorb(p1);
        t.absorb(g2);
        t.absorb(p2);
        t.absorb(r1);
        t.absorb(r2);
        t.challenge()
    }
}

/// Soundness of a Chaum–Pedersen proof formed for a witness `w`: it passes for
/// the statement `(G1, P1, G2, P2)` only if the challenge times each gap
/// `w·G1 − P1` and `w·G2 − P2` is a multiple of `r`; so, whenever the
/// challenge is invertible modulo `r` (`e_inv` an inverse), only if
/// `P1 = w·G1` and `P2 = w·G2`.
pub proof fn lemma_dleq_sound(
    w: int,
    g1: int,
    p1: int,
    g2: int,
    p2: int,
    k: int,
    e_inv: int,
)
    requires
        0 <= p1 < group_order(),
        0 <= p2 < group_order(),
        ({
            let proof = dleq_proof_with_nonce(w, g1, p1, g2, p2, k);
            dleq_accepts(g1, p1, g2, p2, proof.0, proof.1, proof.2)
        }),
    ensures
        ({
            let proof = dleq_proof_with_nonce(w, g1, p1, g2, p2, k);
            let e = dleq_challenge(g1, p1, g2, p2, proof.0, proof.1);
            &&& (e * ((g1 * w) % group_order() - p1)) % group_order() == 0
            &&& (e * ((g2 * w) % group_order() - p2)) % group_order() == 0
            &&& (e * e_inv) % group_order() == 1 ==> p1 == (g1 * w) % group_order() && p2 == (g2
                * w) % group_order()
        }),
{
    let m = group_order();
    let proof = dleq_proof_with_nonce(w, g1, p1, g2, p2, k);
    let e = dleq_challenge(g1, p1, g2, p2, proof.0, proof.1);
    lemma_response_balances(g1, k, w, e);
    lemma_response_balances(g2, k, w, e);
    lemma_challenge_cancels((g1 * k) % m, (g1 * w) % m, p1, e, e_inv);
    lemma_challenge_cancels((g2 * k) % m, (g2 * w) % m, p2, e, e_inv);
    if (e * e_inv) % m == 1 {
        vstd::arithmetic::div_mod::lemma_mod_bound(g1 * w, m);
        vstd::arithmetic::div_mod::lemma_mod_bound(g2 * w, m);
        lemma_reduced_equal((g1 * w) % m, p1);
        lemma_reduced_equal((g2 * w) % m, p2);
    }
}

impl PartialEq for DleqProof {
    /// Whether two proofs have the same commitments and response.
    fn eq(&self, other: &DleqProof) -> (r: bool) {
        self.r1 == other.r1 && self.r2 == other.r2 && self.s == other.s
    }
}

impl PartialEqSpecImpl for DleqProof {
    open spec fn obeys_eq_spec() -> bool {
        true
    }

    open spec fn eq_spec(&self, other: &DleqProof) -> bool {
        self@ == other@
    }
}

impl Eq for DleqProof {

}

/// The logarithms of a sequence of points.
pub open spec fn logs_of(points: Seq<Point>) -> Seq<int> {
    points.map_values(|p: Point| p@)
}

/// The Fiat–Shamir challenge bit `j` for a transcript that absorbs `label` and
/// then the points with logarithms `logs`.
pub open spec fn fiat_shamir_bit(label: Seq<u8>, logs: Seq<int>, j: int) -> bool {
    digest_bit(sha512_digest(label + encodings(logs)), j)
}

/// `n` challenge bits bound to `label` and `points`: the transcript absorbs
/// the label and every point, and bit `j` is bit `j % 8` of byte `j / 8` of its
/// SHA-512 digest (so at most 512 bits can be drawn).
pub fn fiat_shamir_bits(label: &[u8], points: &[Point], n: usize) -> (bits: Vec<bool>)
    requires
        n <= 512,
    ensures
        bits@.len() == n,
        forall|j: int|
            0 <= j < n ==> #[trigger] bits@[j] == fiat_shamir_bit(label@, logs_of(points@), j),
{
    let mut t = Transcript::new(label);
    t.absorb_all(points);
    t.challenge_bits(n)
}

/// Completeness of Chaum–Pedersen proofs: when `P1 = w·G1` and `P2 = w·G2`,
/// the proof with any nonce satisfies both verification equations.
pub proof fn lemma_dleq_complete(w: int, g1: int, p1: int, g2: int, p2: int, k: int)
    requires
        p1 == (g1 * w) % group_order(),
        p2 == (g2 * w) % group_order(),
    ensures
        ({
            let proof = dleq_proof_with_nonce(w, g1, p1, g2, p2, k);
            dleq_accepts(g1, p1, g2, p2, proof.0, proof.1, proof.2)
        }),
{
    let proof = dleq_proof_with_nonce(w, g1, p1, g2, p2, k);
    let e = dleq_challenge(g1, p1, g2, p2, proof.0, proof.1);
    lemma_response_balances(g1, k, w, e);
    lemma_response_balances(g2, k, w, e);
}

} // verus!
