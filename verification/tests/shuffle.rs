use mental_poker::shuffle::{invert, is_permutation};
use mental_poker::{
    deck_array, prove, verify, AggregateKey, ElGamalCrypto, MaskedCard, MpError, PublicKey,
    SecretKey,
};

fn agg_and_deck() -> (ElGamalCrypto, AggregateKey, Vec<MaskedCard>) {
    let mut rng = ark_std::test_rng();
    let crypto = ElGamalCrypto::new();
    let (_, pk0, _) = crypto.keygen(&mut rng);
    let (_, pk1, _) = crypto.keygen(&mut rng);
    let agg = crypto.aggregate(&[pk0, pk1]);
    let deck: Vec<MaskedCard> = deck_array()
        .iter()
        .map(|&c| crypto.mask(&agg, &crypto.encode(c), &mut rng).0)
        .collect();
    (crypto, agg, deck)
}

fn check_honest_shuffle_verifies() {
    let mut rng = ark_std::test_rng();
    let (_, agg, deck) = agg_and_deck();
    let (out, proof) = prove(&agg, &deck, &mut rng);
    assert_eq!(out.len(), 52);
    assert!(verify(&agg, &deck, &out, &proof).is_ok());
}

fn check_tampered_output_is_rejected() {
    let mut rng = ark_std::test_rng();
    let (_, agg, deck) = agg_and_deck();
    let (mut out, proof) = prove(&agg, &deck, &mut rng);
    out.swap(0, 1);
    assert!(verify(&agg, &deck, &out, &proof).is_err());
}

fn check_duplicated_card_is_rejected() {
    let mut rng = ark_std::test_rng();
    let (_, agg, deck) = agg_and_deck();
    let (mut out, proof) = prove(&agg, &deck, &mut rng);
    out[5] = out[6]; // inject a duplicate
    assert!(verify(&agg, &deck, &out, &proof).is_err());
}

/// An honestly produced shuffle proof verifies.
#[test]
fn honest_shuffle_verifies() {
    check_honest_shuffle_verifies();
}

#[test]
fn lib_honest_shuffle_verifies() {
    check_honest_shuffle_verifies();
}

/// Tampering with the output (a swap) breaks verification.
#[test]
fn tampered_output_is_rejected() {
    check_tampered_output_is_rejected();
}

#[test]
fn lib_tampered_output_is_rejected() {
    check_tampered_output_is_rejected();
}

/// Injecting a duplicate card is rejected.
#[test]
fn duplicated_card_is_rejected() {
    check_duplicated_card_is_rejected();
}

#[test]
fn lib_duplicated_card_is_rejected() {
    check_duplicated_card_is_rejected();
}

// ---- further scenarios ----

/// A shuffled deck, fully unmasked, holds the same 52 cards.
#[test]
fn shuffle_keeps_the_cards() {
    let mut rng = ark_std::test_rng();
    let crypto = ElGamalCrypto::new();
    let mut sks: Vec<SecretKey> = Vec::new();
    let mut pks: Vec<PublicKey> = Vec::new();
    for _ in 0..2 {
        let (sk, pk, _) = crypto.keygen(&mut rng);
        sks.push(sk);
        pks.push(pk);
    }
    let agg = crypto.aggregate(&pks);
    let deck: Vec<MaskedCard> = deck_array()
        .iter()
        .map(|&c| crypto.mask(&agg, &crypto.encode(c), &mut rng).0)
        .collect();
    let (out, proof) = prove(&agg, &deck, &mut rng);
    assert!(verify(&agg, &deck, &out, &proof).is_ok());
    let mut cards = Vec::new();
    for c in out.iter() {
        let tokens: Vec<_> = (0..2)
            .map(|i| crypto.reveal_token(&sks[i], &pks[i], c, &mut rng))
            .collect();
        let opened = crypto.unmask(c, &tokens).unwrap();
        cards.push(crypto.decode(&opened).unwrap());
    }
    cards.sort();
    let mut expected = deck_array();
    expected.sort();
    assert_eq!(cards, expected);
}

#[test]
fn shorter_output_is_a_length_error() {
    let mut rng = ark_std::test_rng();
    let (_, agg, deck) = agg_and_deck();
    let (mut out, proof) = prove(&agg, &deck, &mut rng);
    out.pop();
    assert_eq!(
        verify(&agg, &deck, &out, &proof),
        Err(MpError::DeckLength {
            expected: 52,
            got: 51
        })
    );
}

#[test]
fn proof_for_another_input_is_rejected() {
    let mut rng = ark_std::test_rng();
    let (crypto, agg, deck) = agg_and_deck();
    let (out, proof) = prove(&agg, &deck, &mut rng);
    let mut other = deck.clone();
    other[0] = crypto.remask(&agg, &deck[0], &mut rng).0;
    assert!(verify(&agg, &other, &out, &proof).is_err());
}

#[test]
fn small_deck_shuffle_verifies() {
    let mut rng = ark_std::test_rng();
    let (_, agg, deck) = agg_and_deck();
    let small: Vec<MaskedCard> = deck[..3].to_vec();
    let (out, proof) = prove(&agg, &small, &mut rng);
    assert_eq!(out.len(), 3);
    assert_eq!(verify(&agg, &small, &out, &proof), Ok(()));
    let empty: Vec<MaskedCard> = Vec::new();
    let (out, proof) = prove(&agg, &empty, &mut rng);
    assert!(out.is_empty());
    assert_eq!(verify(&agg, &empty, &out, &proof), Ok(()));
}

#[test]
fn invert_gives_the_inverse_permutation() {
    assert_eq!(invert(&[2, 0, 1]), vec![1, 2, 0]);
    assert_eq!(invert(&[0, 1, 2, 3]), vec![0, 1, 2, 3]);
    assert_eq!(invert(&[]), Vec::<usize>::new());
    // A repeated index keeps its last position; a missing one stays 0.
    assert_eq!(invert(&[1, 1, 0]), vec![2, 1, 0]);
}

#[test]
fn is_permutation_checks_length_range_and_repeats() {
    assert!(is_permutation(&[1, 0, 2], 3));
    assert!(is_permutation(&[], 0));
    assert!(!is_permutation(&[0, 1], 3));
    assert!(!is_permutation(&[0, 3, 1], 3));
    assert!(!is_permutation(&[0, 0, 1], 3));
}

/// Two shuffles in a row, each verified, still hold the cards of the input.
#[test]
fn two_shuffles_keep_the_cards() {
    let mut rng = ark_std::test_rng();
    let crypto = ElGamalCrypto::new();
    let mut sks: Vec<SecretKey> = Vec::new();
    let mut pks: Vec<PublicKey> = Vec::new();
    for _ in 0..2 {
        let (sk, pk, _) = crypto.keygen(&mut rng);
        sks.push(sk);
        pks.push(pk);
    }
    let agg = crypto.aggregate(&pks);
    let hand: Vec<_> = deck_array()[..8].to_vec();
    let deck: Vec<MaskedCard> = hand
        .iter()
        .map(|&c| crypto.mask(&agg, &crypto.encode(c), &mut rng).0)
        .collect();
    let (mid, proof1) = prove(&agg, &deck, &mut rng);
    assert_eq!(verify(&agg, &deck, &mid, &proof1), Ok(()));
    let (out, proof2) = prove(&agg, &mid, &mut rng);
    assert_eq!(verify(&agg, &mid, &out, &proof2), Ok(()));
    let mut cards = Vec::new();
    for c in out.iter() {
        let tokens: Vec<_> = (0..2)
            .map(|i| crypto.reveal_token(&sks[i], &pks[i], c, &mut rng))
            .collect();
        let opened = crypto.unmask(c, &tokens).unwrap();
        cards.push(crypto.decode(&opened).unwrap());
    }
    cards.sort();
    let mut expected = hand.clone();
    expected.sort();
    assert_eq!(cards, expected);
}

#[test]
fn shuffle_proof_equality() {
    let mut rng = ark_std::test_rng();
    let (_, agg, deck) = agg_and_deck();
    let small: Vec<MaskedCard> = deck[..4].to_vec();
    let (out, proof) = prove(&agg, &small, &mut rng);
    assert!(proof == proof.clone());
    let (_, other) = prove(&agg, &small, &mut rng);
    assert!(proof != other);
    assert!(out[0] == out[0].clone());
    assert!(!format!("{:?}", proof).is_empty());
}
