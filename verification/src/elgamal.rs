//! Threshold ElGamal masking of cards.
//!
//! Each card is an ElGamal ciphertext `(c1, c2)` of a plaintext point `M`
//! under the aggregate key `H = ∑ x_i·G`:
//!
//! ```text
//! mask:    (c1, c2) = (r·G, M + r·H)
//! token_i: d_i = x_i·c1                       (with a Chaum–Pedersen proof)
//! unmask:  M = c2 − ∑ d_i = (M + r·H) − r·H   (since ∑ x_i·c1 = r·H)
//! ```

use crate::algebra::{
    lemma_add_after_reduction, lemma_first_component_composes, lemma_withheld_term, lemma_one_times, lemma_reduced, lemma_second_component_composes,
};
use crate::card::{deck_index, Card};
use crate::encode::{decode_point, decoded_card, encode_point};
use crate::point::Point;
use crate::scalar::{group_order, Scalar};
use crate::sigma::{
    dleq_accepts, dleq_proof_with_nonce, generator, schnorr_accepts, schnorr_challenge, DleqProof,
    SchnorrProof,
};
use vstd::arithmetic::div_mod::{
    lemma_add_mod_noop, lemma_add_mod_noop_right, lemma_mod_bound, lemma_mod_twice,
    lemma_mul_mod_noop_left, lemma_mul_mod_noop_right, lemma_sub_mod_noop, lemma_sub_mod_noop_right,
};
use vstd::arithmetic::mul::{
    lemma_mul_is_commutative, lemma_mul_is_distributive_add, lemma_mul_is_distributive_add_other_way,
};
use vstd::prelude::*;
use vstd::std_specs::cmp::PartialEqSpecImpl;

verus! {

/// Errors raised by the card-crypto layer.
#[derive(Clone, Debug, PartialEq, Eq)]
pub enum MpError {
    /// `decode` was called on a card that is not yet fully unmasked.
    StillMasked,
    /// A zero-knowledge proof failed to verify.
    BadProof(&'static str),
    /// Two decks that should match differ in length.
    DeckLength { expected: usize, got: usize },
}

/// A player's secret key share `x_i`.
#[derive(Clone, Copy, Debug)]
pub struct SecretKey(pub(crate) Scalar);

/// A player's public key share `h_i = x_i·G`.
#[derive(Clone, Copy, Debug)]
pub struct PublicKey(pub(crate) Point);

/// The aggregate public key `H = ∑ h_i`.
#[derive(Clone, Copy, Debug)]
pub struct AggregateKey(pub(crate) Point);

impl View for SecretKey {
    type V = int;

    /// The value of the secret share.
    closed spec fn view(&self) -> int {
        self.0@
    }
}

impl View for PublicKey {
    type V = int;

    /// The logarithm of the public share.
    closed spec fn view(&self) -> int {
        self.0@
    }
}

impl View for AggregateKey {
    type V = int;

    /// The logarithm of the aggregate key.
    closed spec fn view(&self) -> int {
        self.0@
    }
}

impl SecretKey {
    /// The value of a secret share always lies in `[0, r)`.
    pub fn value_in_range(&self)
        ensures
            0 <= self@ < group_order(),
    {
        self.0.value_in_range();
    }
}

impl PublicKey {
    /// The logarithm of a public share always lies in `[0, r)`.
    pub fn log_in_range(&self)
        ensures
            0 <= self@ < group_order(),
    {
        self.0.log_in_range();
    }
}

/// A masked card: an ElGamal ciphertext, two Pallas points.
#[derive(Clone, Copy, Debug)]
pub struct MaskedCard {
    /// `c1 = r·G`.
    pub c1: Point,
    /// `c2 = M + r·H`.
    pub c2: Point,
}

impl View for MaskedCard {
    type V = (int, int);

    /// The logarithms of the two components.
    open spec fn view(&self) -> (int, int) {
        (self.c1@, self.c2@)
    }
}

/// A reveal token: one player's partial unmask `d_i` plus its Chaum–Pedersen
/// proof.
#[derive(Clone, Copy, Debug)]
pub struct RevealToken {
    /// `d_i = x_i·c1`.
    pub d: Point,
    proof: DleqProof,
}

impl View for RevealToken {
    type V = (int, (int, int, int));

    /// The logarithm of `d` and the view of the token's proof.
    closed spec fn view(&self) -> (int, (int, int, int)) {
        (self.d@, self.proof@)
    }
}

impl PartialEq for SecretKey {
    /// Whether two secret shares are the same scalar.
    fn eq(&self, other: &SecretKey) -> (r: bool) {
        self.0 == other.0
    }
}

impl PartialEqSpecImpl for SecretKey {
    open spec fn obeys_eq_spec() -> bool {
        true
    }

    open spec fn eq_spec(&self, other: &SecretKey) -> bool {
        self@ == other@
    }
}

impl Eq for SecretKey {

}

impl PartialEq for PublicKey {
    /// Whether two public shares are the same point.
    fn eq(&self, other: &PublicKey) -> (r: bool) {
        self.0 == other.0
    }
}

impl PartialEqSpecImpl for PublicKey {
    open spec fn obeys_eq_spec() -> bool {
        true
    }

    open spec fn eq_spec(&self, other: &PublicKey) -> bool {
        self@ == other@
    }
}

impl Eq for PublicKey {

}

impl PartialEq for AggregateKey {
    /// Whether two aggregate keys are the same point.
    fn eq(&self, other: &AggregateKey) -> (r: bool) {
        self.0 == other.0
    }
}

impl PartialEqSpecImpl for AggregateKey {
    open spec fn obeys_eq_spec() -> bool {
        true
    }

    open spec fn eq_spec(&self, other: &AggregateKey) -> bool {
        self@ == other@
    }
}

impl Eq for AggregateKey {

}

impl PartialEq for MaskedCard {
    /// Whether two masked cards have the same components.
    fn eq(&self, other: &MaskedCard) -> (r: bool) {
        self.c1 == other.c1 && self.c2 == other.c2
    }
}

impl PartialEqSpecImpl for MaskedCard {
    open spec fn obeys_eq_spec() -> bool {
        true
    }

    open spec fn eq_spec(&self, other: &MaskedCard) -> bool {
        self@ == other@
    }
}

impl Eq for MaskedCard {

}

impl PartialEq for RevealToken {
    /// Whether two reveal tokens have the same share and the same proof.
    fn eq(&self, other: &RevealToken) -> (r: bool) {
        self.d == other.d && self.proof == other.proof
    }
}

impl PartialEqSpecImpl for RevealToken {
    open spec fn obeys_eq_spec() -> bool {
        true
    }

    open spec fn eq_spec(&self, other: &RevealToken) -> bool {
        self@ == other@
    }
}

impl Eq for RevealToken {

}

/// The ciphertext `c` re-masked by `a` under the key with logarithm `h`:
/// `(c1 + a·G, c2 + a·H)`, over logarithms.
pub open spec fn remasked(h: int, c: (int, int), a: int) -> (int, int) {
    ((c.0 + a) % group_order(), (c.1 + (h * a) % group_order()) % group_order())
}

/// The sum modulo `r` of a sequence of logarithms (the logarithm of the sum
/// of the points).
pub open spec fn sum_mod(logs: Seq<int>) -> int
    decreases logs.len(),
{
    if logs.len() == 0 {
        0
    } else {
        (sum_mod(logs.drop_last()) + logs.last()) % group_order()
    }
}

/// The logarithm of `c2 − x·c1`: what a ciphertext decrypts to under the
/// secret `x` whose public key is `x·G`.
pub open spec fn plaintext(c: (int, int), x: int) -> int {
    (c.1 - (c.0 * x) % group_order()) % group_order()
}

/// The statement that a mask proof attests: the increments `(Δc1, Δc2)` from
/// `input` to `output` share one logarithm to the bases `G` and `H`.
pub open spec fn mask_proof_accepts(
    h: int,
    input: (int, int),
    output: (int, int),
    proof: (int, int, int),
) -> bool {
    dleq_accepts(
        1,
        (output.0 - input.0) % group_order(),
        h,
        (output.1 - input.1) % group_order(),
        proof.0,
        proof.1,
        proof.2,
    )
}

/// The statement that a reveal token `d` with proof `proof` attests:
/// `log_G(pk) == log_{c1}(d)`.
pub open spec fn token_accepts(pk: int, c: (int, int), d: int, proof: (int, int, int)) -> bool {
    dleq_accepts(1, pk, c.0, d, proof.0, proof.1, proof.2)
}

/// The proof that a re-mask by `a` under the aggregate key `agg` carries for
/// the nonce `k`: a DLEQ proof that `a·G` and `a·H` share the witness `a`.
pub open spec fn mask_proof_with_nonce(agg: int, a: int, k: int) -> (int, int, int) {
    dleq_proof_with_nonce(a, 1, a, agg, (agg * a) % group_order(), k)
}

/// The sum of the shares `∑ h_i` of a set of public keys, as a logarithm.
pub open spec fn key_sum(pks: Seq<PublicKey>) -> int {
    sum_mod(pks.map_values(|pk: PublicKey| pk@))
}

/// The sum `∑ d_i` of a set of reveal tokens, as a logarithm.
pub open spec fn token_sum(tokens: Seq<RevealToken>) -> int {
    sum_mod(tokens.map_values(|t: RevealToken| t@.0))
}

/// The ciphertext `c` with the tokens `tokens` taken off its second
/// component: `(c1, c2 − ∑ d_i)`.
pub open spec fn unmasked(c: (int, int), tokens: Seq<RevealToken>) -> (int, int) {
    (c.0, (c.1 - token_sum(tokens)) % group_order())
}

/// The threshold-ElGamal mental-poker backend.
#[derive(Clone, Copy, Debug, Default)]
pub struct ElGamalCrypto;

impl ElGamalCrypto {
    /// Construct the backend.
    pub fn new() -> (c: Self) {
        ElGamalCrypto
    }

    /// Re-mask `c` with explicit randomness `a`: `(c1 + a·G, c2 + a·H)`.
    pub fn remask_with(agg: &AggregateKey, c: &MaskedCard, a: &Scalar) -> (out: MaskedCard)
        ensures
            out@ == remasked(agg@, c@, a@),
    {
        a.value_in_range();
        proof {
            lemma_one_times(a@);
        }
        MaskedCard { c1: c.c1.add(&generator().mul(a)), c2: c.c2.add(&agg.0.mul(a)) }
    }

    /// Generate a key share with a Schnorr proof of knowledge of its secret.
    pub fn keygen<R: rand::RngCore>(&self, rng: &mut R) -> (keys: (
        SecretKey,
        PublicKey,
        SchnorrProof,
    ))
        ensures
            keys.1@ == keys.0@,
            keys.2@.1 == (keys.2@.0 + (schnorr_challenge(keys.1@, keys.2@.0) * keys.0@)
                % group_order()) % group_order(),
            schnorr_accepts(keys.1@, keys.2@.0, keys.2@.1),
    {
        let x = Scalar::rand(rng);
        let h = generator().mul(&x);
        proof {
            lemma_one_times(x@);
        }
        let proof = SchnorrProof::prove(x, h, rng);
        (SecretKey(x), PublicKey(h), proof)
    }

    /// Verify a key share's proof of knowledge (stops rogue-key attacks).
    pub fn verify_key(&self, pk: &PublicKey, proof: &SchnorrProof) -> (res: Result<(), MpError>)
        ensures
            res == if schnorr_accepts(pk@, proof@.0, proof@.1) {
                Ok(())
            } else {
                Err(MpError::BadProof("key ownership"))
            },
    {
        if proof.verify(pk.0) {
            Ok(())
        } else {
            Err(MpError::BadProof("key ownership"))
        }
    }

    /// Fold key shares into the aggregate key `H = ∑ h_i`.
    pub fn aggregate(&self, pks: &[PublicKey]) -> (agg: AggregateKey)
        ensures
            agg@ == key_sum(pks@),
    {
        let mut sum = Point::identity();
        let mut i: usize = 0;
        while i < pks.len()
            invariant
                0 <= i <= pks@.len(),
                sum@ == sum_mod(pks@.take(i as int).map_values(|pk: PublicKey| pk@)),
            decreases pks@.len() - i,
        {
            sum = sum.add(&pks[i].0);
            i = i + 1;
            assert(pks@.take(i as int).map_values(|pk: PublicKey| pk@).drop_last() == pks@.take(
                i - 1,
            ).map_values(|pk: PublicKey| pk@));
        }
        assert(pks@.take(pks@.len() as int) == pks@);
        AggregateKey(sum)
    }

    /// Encode a card to its trivial (public) masked form `(O, M)`.
    pub fn encode(&self, card: Card) -> (m: MaskedCard)
        ensures
            m@ == (0int, deck_index(card) + 1),
    {
        MaskedCard { c1: Point::identity(), c2: encode_point(card) }
    }

    /// Recover the card from a fully unmasked card, or `StillMasked` when `c2`
    /// is not one of the 52 card encodings.
    pub fn decode(&self, m: &MaskedCard) -> (res: Result<Card, MpError>)
        ensures
            res == match decoded_card(m@.1) {
                Some(card) => Ok(card),
                None => Err(MpError::StillMasked),
            },
    {
        match decode_point(&m.c2) {
            Some(card) => Ok(card),
            None => Err(MpError::StillMasked),
        }
    }

    /// Mask a (public) card under the aggregate key: a re-mask with fresh
    /// randomness.
    pub fn mask<R: rand::RngCore>(&self, agg: &AggregateKey, m: &MaskedCard, rng: &mut R) -> (res: (
        MaskedCard,
        DleqProof,
    ))
        ensures
            exists|a: int, k: int|
                #![trigger remasked(agg@, m@, a), mask_proof_with_nonce(agg@, a, k)]
                0 <= a < group_order() && res.0@ == remasked(agg@, m@, a) && res.1@
                    == mask_proof_with_nonce(agg@, a, k),
            mask_proof_accepts(agg@, m@, res.0@, res.1@),
    {
        self.remask(agg, m, rng)
    }

    /// Re-mask an already-masked card without decrypting it, with a proof that
    /// the same randomness was added to both components.
    pub fn remask<R: rand::RngCore>(&self, agg: &AggregateKey, c: &MaskedCard, rng: &mut R) -> (res: (
        MaskedCard,
        DleqProof,
    ))
        ensures
            exists|a: int, k: int|
                #![trigger remasked(agg@, c@, a), mask_proof_with_nonce(agg@, a, k)]
                0 <= a < group_order() && res.0@ == remasked(agg@, c@, a) && res.1@
                    == mask_proof_with_nonce(agg@, a, k),
            mask_proof_accepts(agg@, c@, res.0@, res.1@),
    {
        let a = Scalar::rand(rng);
        let out = Self::remask_with(agg, c, &a);
        let d1 = out.c1.sub(&c.c1);
        let d2 = out.c2.sub(&c.c2);
        c.c1.log_in_range();
        c.c2.log_in_range();
        agg.0.log_in_range();
        proof {
            lemma_increment(c.c1@, a@);
            lemma_increment(c.c2@, (agg@ * a@) % group_order());
            lemma_one_times(a@);
            lemma_mod_bound(agg@ * a@, group_order());
            lemma_reduced((agg@ * a@) % group_order());
        }
        let proof = DleqProof::prove(a, generator(), d1, agg.0, d2, rng);
        proof {
            let k = choose|k: int|
                0 <= k < group_order() && proof@ == dleq_proof_with_nonce(
                    a@,
                    1,
                    d1@,
                    agg@,
                    d2@,
                    k,
                );
            assert(proof@ == mask_proof_with_nonce(agg@, a@, k));
            assert(out@ == remasked(agg@, c@, a@));
        }
        (out, proof)
    }

    /// Verify a mask/remask proof.
    pub fn verify_mask(
        &self,
        agg: &AggregateKey,
        input: &MaskedCard,
        output: &MaskedCard,
        proof: &DleqProof,
    ) -> (res: Result<(), MpError>)
        ensures
            res == if mask_proof_accepts(agg@, input@, output@, proof@) {
                Ok(())
            } else {
                Err(MpError::BadProof("mask re-encryption"))
            },
    {
        let d1 = output.c1.sub(&input.c1);
        let d2 = output.c2.sub(&input.c2);
        if proof.verify(generator(), d1, agg.0, d2) {
            Ok(())
        } else {
            Err(MpError::BadProof("mask re-encryption"))
        }
    }

    /// Produce this player's reveal token `d = x·c1` for a card, with a proof
    /// that `log_G(pk) == log_{c1}(d)`.
    pub fn reveal_token<R: rand::RngCore>(
        &self,
        sk: &SecretKey,
        pk: &PublicKey,
        c: &MaskedCard,
        rng: &mut R,
    ) -> (t: RevealToken)
        ensures
            t@.0 == (c@.0 * sk@) % group_order(),
            exists|k: int| t@.1 == dleq_proof_with_nonce(sk@, 1, pk@, c@.0, t@.0, k),
            pk@ == sk@ ==> token_accepts(pk@, c@, t@.0, t@.1),
    {
        let d = c.c1.mul(&sk.0);
        sk.0.value_in_range();
        proof {
            lemma_one_times(sk@);
        }
        let proof = DleqProof::prove(sk.0, generator(), pk.0, c.c1, d, rng);
        let t = RevealToken { d, proof };
        proof {
            let k = choose|k: int|
                0 <= k < group_order() && proof@ == dleq_proof_with_nonce(
                    sk@,
                    1,
                    pk@,
                    c@.0,
                    d@,
                    k,
                );
            assert(t@.1 == dleq_proof_with_nonce(sk@, 1, pk@, c@.0, t@.0, k));
        }
        t
    }

    /// Verify a reveal token against its author's public key.
    pub fn verify_reveal_token(&self, pk: &PublicKey, c: &MaskedCard, t: &RevealToken) -> (res:
        Result<(), MpError>)
        ensures
            res == if token_accepts(pk@, c@, t@.0, t@.1) {
                Ok(())
            } else {
                Err(MpError::BadProof("reveal token"))
            },
    {
        if t.proof.verify(generator(), pk.0, c.c1, t.d) {
            Ok(())
        } else {
            Err(MpError::BadProof("reveal token"))
        }
    }

    /// Combine reveal tokens, subtracting `∑ d_i` from `c2`.
    pub fn unmask(&self, c: &MaskedCard, tokens: &[RevealToken]) -> (res: Result<
        MaskedCard,
        MpError,
    >)
        ensures
            res matches Ok(m) && m@ == unmasked(c@, tokens@),
    {
        let mut sum = Point::identity();
        let mut i: usize = 0;
        while i < tokens.len()
            invariant
                0 <= i <= tokens@.len(),
                sum@ == sum_mod(tokens@.take(i as int).map_values(|t: RevealToken| t@.0)),
            decreases tokens@.len() - i,
        {
            sum = sum.add(&tokens[i].d);
            i = i + 1;
            assert(tokens@.take(i as int).map_values(|t: RevealToken| t@.0).drop_last()
                == tokens@.take(i - 1).map_values(|t: RevealToken| t@.0));
        }
        assert(tokens@.take(tokens@.len() as int) == tokens@);
        Ok(MaskedCard { c1: c.c1, c2: c.c2.sub(&sum) })
    }
}

/// Re-masking never changes what a ciphertext decrypts to: under the secret
/// `x` of the key `H = x·G`, `remask(c, a)` and `c` have the same plaintext.
pub proof fn lemma_remask_preserves_plaintext(c: (int, int), x: int, a: int)
    ensures
        plaintext(remasked(x, c, a), x) == plaintext(c, x),
{
    let m = group_order();
    let c0 = (c.0 + a) % m;
    let c1 = (c.1 + (x * a) % m) % m;
    // (c1 - c0·x) ≡ (c.1 + x·a) - (c.0 + a)·x ≡ c.1 - c.0·x  (mod r)
    lemma_sub_mod_noop(c1, (c0 * x) % m, m);
    lemma_mod_twice(c0 * x, m);
    lemma_mod_twice(c1, m);
    lemma_sub_mod_noop(c1, c0 * x, m);
    lemma_mul_mod_noop_left(c.0 + a, x, m);
    lemma_sub_mod_noop_right(c1, (c.0 + a) * x, m);
    lemma_add_mod_noop_right(c.1, x * a, m);
    lemma_sub_mod_noop(c.1 + x * a, (c.0 + a) * x, m);
    lemma_mod_twice(c.1 + x * a, m);
    lemma_mod_twice((c.0 + a) * x, m);
    lemma_mul_is_distributive_add_other_way(x, c.0, a);
    lemma_mul_is_commutative(x, a);
    lemma_sub_mod_noop(c.1, c.0 * x, m);
    lemma_mod_twice(c.1, m);
    lemma_mod_twice(c.0 * x, m);
    lemma_sub_mod_noop_right(c.1, c.0 * x, m);
    assert((c.1 + x * a) - (c.0 + a) * x == c.1 - c.0 * x);
}

/// The tokens `x_i·c1` of all shares sum to `(∑ x_i)·c1`, over logarithms.
pub proof fn lemma_tokens_sum(xs: Seq<int>, c1: int)
    ensures
        sum_mod(xs.map_values(|x: int| (c1 * x) % group_order())) == (c1 * sum_mod(xs))
            % group_order(),
    decreases xs.len(),
{
    let m = group_order();
    let f = |x: int| (c1 * x) % m;
    if xs.len() == 0 {
        assert(xs.map_values(f) =~= Seq::<int>::empty());
    } else {
        let init = xs.drop_last();
        lemma_tokens_sum(init, c1);
        assert(xs.map_values(f).drop_last() =~= init.map_values(f));
        let s = sum_mod(init);
        let x = xs.last();
        // ((c1·s) % r + (c1·x) % r) % r == (c1·(s + x)) % r == (c1·((s + x) % r)) % r
        lemma_add_mod_noop(c1 * s, c1 * x, m);
        lemma_mul_is_distributive_add(c1, s, x);
        lemma_mul_mod_noop_right(c1, s + x, m);
    }
}

/// What a full set of reveal tokens opens: subtracting the tokens of every
/// share from `c2` leaves the plaintext under the aggregate secret `∑ x_i`.
pub proof fn lemma_unmask_all_tokens(xs: Seq<int>, c: (int, int))
    ensures
        (c.1 - sum_mod(xs.map_values(|x: int| (c.0 * x) % group_order()))) % group_order()
            == plaintext(c, sum_mod(xs)),
{
    lemma_tokens_sum(xs, c.0);
}

/// Threshold decryption recovers the card: a card encoded, masked under the
/// aggregate of the shares `xs` with any randomness `a`, and opened with the
/// reveal tokens of all the shares decodes to the same card.
pub proof fn lemma_full_unmask_recovers_card(xs: Seq<int>, card: Card, a: int)
    ensures
        ({
            let masked = remasked(sum_mod(xs), (0int, deck_index(card) + 1), a);
            let tokens = xs.map_values(|x: int| (masked.0 * x) % group_order());
            decoded_card((masked.1 - sum_mod(tokens)) % group_order()) == Some(card)
        }),
{
    let m = group_order();
    let h = sum_mod(xs);
    let plain = (0int, deck_index(card) + 1);
    let masked = remasked(h, plain, a);
    lemma_unmask_all_tokens(xs, masked);
    lemma_remask_preserves_plaintext(plain, h, a);
    crate::card::lemma_card_at_its_index(card);
    lemma_reduced(deck_index(card) + 1);
    assert(plaintext(plain, h) == deck_index(card) + 1);
}

/// Re-masking by `a` and then by `(c - a) mod r` is re-masking by `c`.
pub proof fn lemma_remask_composes(h: int, x: (int, int), a: int, c: int)
    ensures
        remasked(h, remasked(h, x, a), (c - a) % group_order()) == remasked(h, x, c),
{
    lemma_first_component_composes(x.0, a, c);
    lemma_second_component_composes(x.1, h, a, c);
}

/// Re-masking depends on the randomness only modulo `r`.
pub proof fn lemma_remask_residue(h: int, x: (int, int), a: int)
    ensures
        remasked(h, x, a % group_order()) == remasked(h, x, a),
{
    let m = group_order();
    vstd::arithmetic::div_mod::lemma_add_mod_noop_right(x.0, a, m);
    vstd::arithmetic::div_mod::lemma_mul_mod_noop_right(h, a, m);
}

/// Re-masking by `a` and then by `b` is re-masking once by `a + b`.
pub proof fn lemma_remask_twice(h: int, x: (int, int), a: int, b: int)
    ensures
        remasked(h, remasked(h, x, a), b) == remasked(h, x, (a + b) % group_order()),
{
    lemma_remask_composes(h, x, a, a + b);
    assert(a + b - a == b);
    lemma_remask_residue(h, remasked(h, x, a), b);
    lemma_remask_residue(h, x, a + b);
}

/// The reveal tokens `x·c1` of the shares `xs` for a ciphertext whose first
/// component has logarithm `c1`.
pub open spec fn tokens_of(xs: Seq<int>, c1: int) -> Seq<int> {
    xs.map_values(|x: int| (c1 * x) % group_order())
}

/// A sum modulo `r` lies in `[0, r)`.
pub proof fn lemma_sum_mod_range(logs: Seq<int>)
    ensures
        0 <= sum_mod(logs) < group_order(),
    decreases logs.len(),
{
    if logs.len() > 0 {
        lemma_mod_bound(sum_mod(logs.drop_last()) + logs.last(), group_order());
    }
}

/// The sum of a concatenation is the sum of the sums, modulo `r`.
#[verifier::spinoff_prover]
pub proof fn lemma_sum_mod_concat(a: Seq<int>, b: Seq<int>)
    ensures
        sum_mod(a + b) == (sum_mod(a) + sum_mod(b)) % group_order(),
    decreases b.len(),
{
    let m = group_order();
    lemma_sum_mod_range(a);
    if b.len() == 0 {
        assert(a + b =~= a);
        lemma_reduced(sum_mod(a));
    } else {
        lemma_sum_mod_concat(a, b.drop_last());
        assert((a + b).drop_last() =~= a + b.drop_last());
        assert((a + b).last() == b.last());
        lemma_add_mod_noop(sum_mod(a) + sum_mod(b.drop_last()), b.last(), m);
        lemma_add_mod_noop(sum_mod(a), sum_mod(b.drop_last()) + b.last(), m);
        lemma_sum_mod_range(b.drop_last());
        lemma_reduced(sum_mod(a));
        lemma_mod_twice(sum_mod(a) + sum_mod(b.drop_last()), m);
        lemma_mod_twice(sum_mod(b.drop_last()) + b.last(), m);
        lemma_mod_twice(b.last(), m);
    }
}

/// Removing the element at `i` takes it out of the sum: the sum of `s` is the
/// sum without `s[i]`, plus `s[i]`, modulo `r`.
#[verifier::spinoff_prover]
pub proof fn lemma_sum_mod_remove(s: Seq<int>, i: int)
    requires
        0 <= i < s.len(),
    ensures
        sum_mod(s) == (sum_mod(s.remove(i)) + s[i]) % group_order(),
{
    let m = group_order();
    let pre = s.take(i);
    let post = s.skip(i + 1);
    let t = s[i];
    assert(s =~= pre + seq![t] + post);
    assert(s.remove(i) =~= pre + post);
    assert(sum_mod(seq![t]) == t % m) by {
        assert(seq![t].drop_last() =~= Seq::<int>::empty());
        assert(sum_mod(Seq::<int>::empty()) == 0);
        assert(seq![t].last() == t);
    }
    let a = sum_mod(pre);
    let b = sum_mod(post);
    lemma_sum_mod_concat(pre, seq![t]);
    lemma_sum_mod_concat(pre + seq![t], post);
    lemma_sum_mod_concat(pre, post);
    // sum(s) = ((a + t % m) % m + b) % m = (a + t + b) % m
    lemma_add_mod_noop_right(a, t, m);
    lemma_add_mod_noop(a + t, b, m);
    lemma_mod_twice(a + t, m);
    lemma_sum_mod_range(post);
    lemma_reduced(b);
    lemma_add_mod_noop(a + b, t, m);
    lemma_sum_mod_range(pre);
    lemma_reduced(a);
    lemma_mod_twice(a + b, m);
    lemma_add_mod_noop(a + b, t % m, m);
    lemma_mod_twice(t, m);
    assert(a + t + b == a + b + t);
}

/// The sum modulo `r` of the values `f(x)` does not depend on the order of the
/// `x`: two sequences holding the same elements, each as often, have the same
/// sum.
pub proof fn lemma_sum_mod_order_free<A>(xs: Seq<A>, ys: Seq<A>, f: spec_fn(A) -> int)
    requires
        xs.to_multiset() == ys.to_multiset(),
    ensures
        sum_mod(xs.map_values(f)) == sum_mod(ys.map_values(f)),
    decreases xs.len(),
{
    broadcast use vstd::seq_lib::group_to_multiset_ensures;
    broadcast use vstd::multiset::group_multiset_axioms;
    if xs.len() == 0 {
        assert(ys.to_multiset().len() == 0);
        assert(ys.len() == 0);
        assert(xs.map_values(f) =~= ys.map_values(f));
    } else {
        let x = xs.last();
        let rest = xs.drop_last();
        assert(xs =~= rest.push(x));
        assert(xs.to_multiset() =~= rest.to_multiset().insert(x));
        assert(ys.to_multiset().count(x) > 0);
        assert(ys.contains(x));
        let i = choose|i: int| 0 <= i < ys.len() && ys[i] == x;
        let ys2 = ys.remove(i);
        assert(ys2.to_multiset() =~= ys.to_multiset().remove(x));
        assert(rest.to_multiset() =~= ys2.to_multiset());
        lemma_sum_mod_order_free(rest, ys2, f);
        assert(xs.map_values(f).drop_last() =~= rest.map_values(f));
        assert(ys2.map_values(f) =~= ys.map_values(f).remove(i));
        lemma_sum_mod_remove(ys.map_values(f), i);
    }
}

/// The aggregate key does not depend on the order of the shares: two lists
/// holding the same keys, each as often, aggregate to the same key.
pub proof fn lemma_aggregate_order_free(pks: Seq<PublicKey>, qs: Seq<PublicKey>)
    requires
        pks.to_multiset() == qs.to_multiset(),
    ensures
        key_sum(pks) == key_sum(qs),
{
    lemma_sum_mod_order_free(pks, qs, |pk: PublicKey| pk@);
}

/// Aggregating two lists of shares one after the other adds their aggregates.
pub proof fn lemma_aggregate_concat(a: Seq<PublicKey>, b: Seq<PublicKey>)
    ensures
        key_sum(a + b) == (key_sum(a) + key_sum(b)) % group_order(),
{
    let f = |pk: PublicKey| pk@;
    assert((a + b).map_values(f) =~= a.map_values(f) + b.map_values(f));
    lemma_sum_mod_concat(a.map_values(f), b.map_values(f));
}

/// Unmasking with no token leaves the card as it is.
pub proof fn lemma_unmask_no_tokens(c: (int, int))
    requires
        0 <= c.1 < group_order(),
    ensures
        unmasked(c, Seq::<RevealToken>::empty()) == c,
{
    assert(Seq::<RevealToken>::empty().map_values(|t: RevealToken| t@.0) =~= Seq::<int>::empty());
    lemma_reduced(c.1);
}

/// Unmasking touches only the second component: whatever the tokens, the
/// first component `c1` is kept, so a reveal token `x·c1` made on the result
/// is the token made on the card itself, and the second becomes
/// `c2 − ∑ d_i` modulo `r`.
pub proof fn lemma_unmask_keeps_first_component(c: (int, int), tokens: Seq<RevealToken>, x: int)
    ensures
        unmasked(c, tokens).0 == c.0,
        (unmasked(c, tokens).0 * x) % group_order() == (c.0 * x) % group_order(),
        unmasked(c, tokens).1 == (c.1 - sum_mod(tokens.map_values(|t: RevealToken| t@.0)))
            % group_order(),
{
}

/// Unmasking in two steps, first with `t1` and then with `t2`, is unmasking
/// once with all of the tokens.
pub proof fn lemma_unmask_in_steps(c: (int, int), t1: Seq<RevealToken>, t2: Seq<RevealToken>)
    ensures
        unmasked(unmasked(c, t1), t2) == unmasked(c, t1 + t2),
{
    let m = group_order();
    let f = |t: RevealToken| t@.0;
    assert((t1 + t2).map_values(f) =~= t1.map_values(f) + t2.map_values(f));
    lemma_sum_mod_concat(t1.map_values(f), t2.map_values(f));
    let s1 = token_sum(t1);
    let s2 = token_sum(t2);
    lemma_sum_mod_range(t2.map_values(f));
    lemma_reduced(s2);
    lemma_sub_mod_noop(c.1 - s1, s2, m);
    lemma_mod_twice(c.1 - s1, m);
    lemma_sub_mod_noop_right(c.1, s1 + s2, m);
    assert(c.1 - s1 - s2 == c.1 - (s1 + s2));
}

/// Unmasking does not depend on the order of the tokens: two lists holding the
/// same tokens, each as often, unmask a card alike.
pub proof fn lemma_unmask_order_free(c: (int, int), t1: Seq<RevealToken>, t2: Seq<RevealToken>)
    requires
        t1.to_multiset() == t2.to_multiset(),
    ensures
        unmasked(c, t1) == unmasked(c, t2),
{
    lemma_sum_mod_order_free(t1, t2, |t: RevealToken| t@.0);
}

/// The threshold property, algebraically: unmasking with the tokens of every
/// share but the `j`-th leaves exactly that share's token `x_j·c1` on top of
/// what the full set of tokens opens.
pub proof fn lemma_partial_unmask(xs: Seq<int>, j: int, c: (int, int))
    requires
        0 <= j < xs.len(),
    ensures
        (c.1 - sum_mod(tokens_of(xs.remove(j), c.0))) % group_order() == ((c.1 - sum_mod(
            tokens_of(xs, c.0),
        )) % group_order() + (c.0 * xs[j]) % group_order()) % group_order(),
{
    let m = group_order();
    let pre = tokens_of(xs.take(j), c.0);
    let post = tokens_of(xs.skip(j + 1), c.0);
    let t = (c.0 * xs[j]) % m;
    assert(tokens_of(xs.remove(j), c.0) =~= pre + post);
    assert(tokens_of(xs, c.0) =~= pre + seq![t] + post);
    let sp = sum_mod(pre);
    let sq = sum_mod(post);
    lemma_sum_mod_range(pre);
    lemma_sum_mod_range(post);
    lemma_mod_bound(c.0 * xs[j], m);
    assert(sum_mod(seq![t]) == t) by {
        assert(seq![t].drop_last() =~= Seq::<int>::empty());
        assert(sum_mod(Seq::<int>::empty()) == 0);
        assert(seq![t].last() == t);
        lemma_reduced(t);
    }
    // The remaining tokens sum to `sp + sq`, all of them to `sp + t + sq`.
    lemma_sum_mod_concat(pre, post);
    lemma_sum_mod_concat(pre, seq![t]);
    lemma_reduced(t);
    lemma_sum_mod_concat(pre + seq![t], post);
    lemma_add_after_reduction(sp + t, sq);
    assert(sum_mod(tokens_of(xs, c.0)) == (sp + sq + t) % m);
    lemma_withheld_term(c.1, sp + sq, t);
}

/// The increment from `x` to `(x + a) mod r` is `a`, for `x` and `a` in `[0, r)`.
pub proof fn lemma_increment(x: int, a: int)
    requires
        0 <= x < group_order(),
        0 <= a < group_order(),
    ensures
        ((x + a) % group_order() - x) % group_order() == a,
{
    let m = group_order();
    lemma_sub_mod_noop(x + a, x, m);
    lemma_reduced(x);
    lemma_reduced(a);
}

} // verus!
