use mental_poker::{
    deck_array, generator, AggregateKey, ElGamalCrypto, MpError, PublicKey, Scalar, SecretKey,
};

fn setup(n: usize) -> (ElGamalCrypto, Vec<SecretKey>, Vec<PublicKey>, AggregateKey) {
    let mut rng = ark_std::test_rng();
    let crypto = ElGamalCrypto::new();
    let mut sks = Vec::new();
    let mut pks = Vec::new();
    for _ in 0..n {
        let (sk, pk, proof) = crypto.keygen(&mut rng);
        crypto.verify_key(&pk, &proof).unwrap();
        sks.push(sk);
        pks.push(pk);
    }
    let agg = crypto.aggregate(&pks);
    (crypto, sks, pks, agg)
}

fn check_full_unmask_recovers_card() {
    let mut rng = ark_std::test_rng();
    let (crypto, sks, pks, agg) = setup(3);
    let card = deck_array()[17];
    let (masked, _) = crypto.mask(&agg, &crypto.encode(card), &mut rng);
    let tokens: Vec<_> = (0..3)
        .map(|i| crypto.reveal_token(&sks[i], &pks[i], &masked, &mut rng))
        .collect();
    let opened = crypto.unmask(&masked, &tokens).unwrap();
    assert_eq!(crypto.decode(&opened), Ok(card));
}

fn check_partial_unmask_stays_masked() {
    let mut rng = ark_std::test_rng();
    let (crypto, sks, pks, agg) = setup(3);
    let card = deck_array()[17];
    let (masked, _) = crypto.mask(&agg, &crypto.encode(card), &mut rng);
    // Only seats 1 and 2 contribute; seat 0 (the recipient) withholds.
    let tokens: Vec<_> = (1..3)
        .map(|i| crypto.reveal_token(&sks[i], &pks[i], &masked, &mut rng))
        .collect();
    let partial = crypto.unmask(&masked, &tokens).unwrap();
    assert_eq!(crypto.decode(&partial), Err(MpError::StillMasked));
}

fn check_mask_proof_round_trips() {
    let mut rng = ark_std::test_rng();
    let (crypto, _, _, agg) = setup(2);
    let card = deck_array()[0];
    let input = crypto.encode(card);
    let (output, proof) = crypto.mask(&agg, &input, &mut rng);
    assert!(crypto.verify_mask(&agg, &input, &output, &proof).is_ok());
}

fn check_reveal_token_with_wrong_key_fails() {
    let mut rng = ark_std::test_rng();
    let (crypto, sks, pks, agg) = setup(2);
    let card = deck_array()[0];
    let (masked, _) = crypto.mask(&agg, &crypto.encode(card), &mut rng);
    // Token computed with seat 0's secret but presented as seat 1's.
    let t = crypto.reveal_token(&sks[0], &pks[0], &masked, &mut rng);
    assert!(crypto.verify_reveal_token(&pks[1], &masked, &t).is_err());
}

/// A full set of reveal tokens recovers the card that was masked.
#[test]
fn full_unmask_recovers_card() {
    check_full_unmask_recovers_card();
}

#[test]
fn lib_full_unmask_recovers_card() {
    check_full_unmask_recovers_card();
}

/// A *partial* set of tokens leaves the card masked — the threshold property.
#[test]
fn partial_unmask_stays_masked() {
    check_partial_unmask_stays_masked();
}

#[test]
fn lib_partial_unmask_stays_masked() {
    check_partial_unmask_stays_masked();
}

/// A mask comes with a proof that verifies against input and output.
#[test]
fn mask_proof_round_trips() {
    check_mask_proof_round_trips();
}

#[test]
fn lib_mask_proof_round_trips() {
    check_mask_proof_round_trips();
}

/// A token computed with one secret but presented under another key fails.
#[test]
fn reveal_token_with_wrong_key_fails() {
    check_reveal_token_with_wrong_key_fails();
}

#[test]
fn lib_reveal_token_with_wrong_key_fails() {
    check_reveal_token_with_wrong_key_fails();
}

// ---- further scenarios ----

/// The withheld token is exactly what a partial unmask lacks: applying it
/// afterwards opens the card.
#[test]
fn withheld_token_completes_partial_unmask() {
    let mut rng = ark_std::test_rng();
    let (crypto, sks, pks, agg) = setup(3);
    let card = deck_array()[40];
    let (masked, _) = crypto.mask(&agg, &crypto.encode(card), &mut rng);
    let tokens: Vec<_> = (1..3)
        .map(|i| crypto.reveal_token(&sks[i], &pks[i], &masked, &mut rng))
        .collect();
    let partial = crypto.unmask(&masked, &tokens).unwrap();
    let t0 = crypto.reveal_token(&sks[0], &pks[0], &masked, &mut rng);
    let opened = crypto.unmask(&partial, &[t0]).unwrap();
    assert_eq!(crypto.decode(&opened), Ok(card));
}

/// Re-masking keeps the plaintext: a card masked, then re-masked twice, still
/// opens to the same card.
#[test]
fn remask_preserves_the_card() {
    let mut rng = ark_std::test_rng();
    let (crypto, sks, pks, agg) = setup(2);
    let card = deck_array()[51];
    let (m1, _) = crypto.mask(&agg, &crypto.encode(card), &mut rng);
    let (m2, p2) = crypto.remask(&agg, &m1, &mut rng);
    let (m3, p3) = crypto.remask(&agg, &m2, &mut rng);
    assert!(crypto.verify_mask(&agg, &m1, &m2, &p2).is_ok());
    assert!(crypto.verify_mask(&agg, &m2, &m3, &p3).is_ok());
    let tokens: Vec<_> = (0..2)
        .map(|i| crypto.reveal_token(&sks[i], &pks[i], &m3, &mut rng))
        .collect();
    for (i, t) in tokens.iter().enumerate() {
        assert!(crypto.verify_reveal_token(&pks[i], &m3, t).is_ok());
    }
    let opened = crypto.unmask(&m3, &tokens).unwrap();
    assert_eq!(crypto.decode(&opened), Ok(card));
}

#[test]
fn encode_is_the_trivial_ciphertext() {
    let crypto = ElGamalCrypto::new();
    for (i, &card) in deck_array().iter().enumerate() {
        let m = crypto.encode(card);
        assert!(m.c1.equals(&mental_poker::Point::identity()));
        assert!(m.c2.equals(&generator().mul(&Scalar::from_u64(i as u64 + 1))));
        assert_eq!(crypto.decode(&m), Ok(card));
    }
}

#[test]
fn unmask_with_no_tokens_changes_nothing() {
    let mut rng = ark_std::test_rng();
    let (crypto, _, _, agg) = setup(2);
    let card = deck_array()[3];
    let (masked, _) = crypto.mask(&agg, &crypto.encode(card), &mut rng);
    let same = crypto.unmask(&masked, &[]).unwrap();
    assert!(same.c1.equals(&masked.c1));
    assert!(same.c2.equals(&masked.c2));
}

#[test]
fn remask_with_explicit_randomness() {
    let (crypto, _, _, agg) = setup(2);
    let card = deck_array()[5];
    let a = Scalar::from_u64(7);
    let out = ElGamalCrypto::remask_with(&agg, &crypto.encode(card), &a);
    assert!(out.c1.equals(&generator().mul(&a)));
    // Masking by `a` then by `-a` gets back to the encoding.
    let back = ElGamalCrypto::remask_with(&agg, &out, &Scalar::from_u64(0).sub(&a));
    assert!(back.c1.equals(&mental_poker::Point::identity()));
    assert_eq!(crypto.decode(&back), Ok(card));
}

#[test]
fn verify_key_rejects_another_key() {
    let mut rng = ark_std::test_rng();
    let crypto = ElGamalCrypto::new();
    let (_, pk0, proof0) = crypto.keygen(&mut rng);
    let (_, pk1, proof1) = crypto.keygen(&mut rng);
    assert_eq!(crypto.verify_key(&pk0, &proof0), Ok(()));
    assert_eq!(crypto.verify_key(&pk1, &proof1), Ok(()));
    assert_eq!(
        crypto.verify_key(&pk1, &proof0),
        Err(MpError::BadProof("key ownership"))
    );
}

#[test]
fn verify_mask_rejects_a_foreign_output() {
    let mut rng = ark_std::test_rng();
    let (crypto, _, _, agg) = setup(2);
    let input = crypto.encode(deck_array()[0]);
    let (_, proof) = crypto.mask(&agg, &input, &mut rng);
    let (other, _) = crypto.mask(&agg, &input, &mut rng);
    assert_eq!(
        crypto.verify_mask(&agg, &input, &other, &proof),
        Err(MpError::BadProof("mask re-encryption"))
    );
}

#[test]
fn verify_reveal_token_error_names_the_token() {
    let mut rng = ark_std::test_rng();
    let (crypto, sks, pks, agg) = setup(2);
    let (masked, _) = crypto.mask(&agg, &crypto.encode(deck_array()[9]), &mut rng);
    let t = crypto.reveal_token(&sks[1], &pks[1], &masked, &mut rng);
    assert_eq!(crypto.verify_reveal_token(&pks[1], &masked, &t), Ok(()));
    assert_eq!(
        crypto.verify_reveal_token(&pks[0], &masked, &t),
        Err(MpError::BadProof("reveal token"))
    );
}

#[test]
fn masked_card_does_not_decode() {
    let mut rng = ark_std::test_rng();
    let (crypto, _, _, agg) = setup(2);
    let (masked, _) = crypto.mask(&agg, &crypto.encode(deck_array()[20]), &mut rng);
    assert_eq!(crypto.decode(&masked), Err(MpError::StillMasked));
}

#[test]
fn aggregate_ignores_key_order() {
    let (crypto, _, pks, agg) = setup(3);
    let reordered = vec![pks[2], pks[0], pks[1]];
    assert!(crypto.aggregate(&reordered) == agg);
    assert!(crypto.aggregate(&pks[..2]) != agg);
}

#[test]
fn unmask_in_steps_and_in_any_order() {
    let mut rng = ark_std::test_rng();
    let (crypto, sks, pks, agg) = setup(3);
    let card = deck_array()[7];
    let masked = crypto.mask(&agg, &crypto.encode(card), &mut rng).0;
    let tokens: Vec<_> = (0..3)
        .map(|i| crypto.reveal_token(&sks[i], &pks[i], &masked, &mut rng))
        .collect();
    assert!(crypto.unmask(&masked, &[]).unwrap() == masked);
    let once = crypto.unmask(&masked, &tokens).unwrap();
    let step = crypto.unmask(&masked, &tokens[..1]).unwrap();
    let twice = crypto.unmask(&step, &tokens[1..]).unwrap();
    assert!(once == twice);
    let reordered = vec![tokens[2], tokens[0], tokens[1]];
    assert!(crypto.unmask(&masked, &reordered).unwrap() == once);
    assert_eq!(crypto.decode(&once), Ok(card));
    assert!(tokens[0] == tokens[0].clone());
    assert!(tokens[0] != tokens[1]);
    assert!(!format!("{:?}", once).is_empty());
}

#[test]
fn secret_share_is_a_field_element() {
    let (_, sks, pks, _) = setup(1);
    sks[0].value_in_range();
    pks[0].log_in_range();
    assert!(sks[0] == sks[0].clone());
    assert!(pks[0] == pks[0].clone());
}
