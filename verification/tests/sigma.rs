use mental_poker::{generator, DleqProof, Scalar, SchnorrProof};
use rand::RngCore;

fn rng() -> impl RngCore {
    ark_std::test_rng()
}

/// A proof built with the real witness verifies. (Completeness.)
#[test]
fn schnorr_valid_proof_verifies() {
    let mut r = rng();
    let w = Scalar::rand(&mut r);
    let p = generator().mul(&w);
    let proof = SchnorrProof::prove(w, p, &mut r);
    assert!(proof.verify(p));
}

/// A proof for one point does not verify against a different point.
#[test]
fn schnorr_wrong_point_fails() {
    let mut r = rng();
    let w = Scalar::rand(&mut r);
    let p = generator().mul(&w);
    let proof = SchnorrProof::prove(w, p, &mut r);
    let other = generator().mul(&Scalar::rand(&mut r));
    assert!(!proof.verify(other));
}

/// When both points genuinely share the discrete log, the DLEQ verifies.
#[test]
fn dleq_valid_proof_verifies() {
    let mut r = rng();
    let w = Scalar::rand(&mut r);
    let g1 = generator();
    let g2 = generator().mul(&Scalar::rand(&mut r));
    let p1 = g1.mul(&w);
    let p2 = g2.mul(&w);
    let proof = DleqProof::prove(w, g1, p1, g2, p2, &mut r);
    assert!(proof.verify(g1, p1, g2, p2));
}

/// When the two logs differ, no proof can make the verifier accept.
#[test]
fn dleq_mismatched_logs_fail() {
    let mut r = rng();
    let g1 = generator();
    let g2 = generator().mul(&Scalar::rand(&mut r));
    let p1 = g1.mul(&Scalar::rand(&mut r));
    let p2 = g2.mul(&Scalar::rand(&mut r)); // independent witness
    let proof = DleqProof::prove(Scalar::rand(&mut r), g1, p1, g2, p2, &mut r);
    assert!(!proof.verify(g1, p1, g2, p2));
}
