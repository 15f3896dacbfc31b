use mental_poker::sigma::fiat_shamir_bits;
use mental_poker::transcript::Transcript;
use mental_poker::{
    card::card_at, decode_point, deck_array, encode_point, generator, point_key, Card, Point,
    Rank, Scalar, Suit,
};

fn scalar_from_le(bytes: &[u8]) -> Scalar {
    Scalar::from_le_bytes_mod_order(bytes)
}

const R_MINUS_ONE: [u8; 32] = [
    0, 0, 0, 0, 33, 235, 70, 140, 221, 168, 148, 9, 252, 152, 70, 34, 0, 0, 0, 0, 0, 0, 0, 0, 0,
    0, 0, 0, 0, 0, 0, 64,
];

const R_PLUS_FIVE: [u8; 32] = [
    6, 0, 0, 0, 33, 235, 70, 140, 221, 168, 148, 9, 252, 152, 70, 34, 0, 0, 0, 0, 0, 0, 0, 0, 0,
    0, 0, 0, 0, 0, 0, 64,
];

#[test]
fn deck_order_is_spades_hearts_diamonds_clubs() {
    let deck = deck_array();
    assert_eq!(deck.len(), 52);
    assert_eq!(deck[0], Card { rank: Rank::Ace, suit: Suit::Spades });
    assert_eq!(deck[12], Card { rank: Rank::Deuce, suit: Suit::Spades });
    assert_eq!(deck[13], Card { rank: Rank::Ace, suit: Suit::Hearts });
    assert_eq!(deck[17], Card { rank: Rank::Ten, suit: Suit::Hearts });
    assert_eq!(deck[26], Card { rank: Rank::Ace, suit: Suit::Diamonds });
    assert_eq!(deck[51], Card { rank: Rank::Deuce, suit: Suit::Clubs });
    let mut sorted = deck.clone();
    sorted.sort();
    sorted.dedup();
    assert_eq!(sorted.len(), 52);
    for i in 0..52 {
        assert_eq!(card_at(i), deck[i]);
    }
}

#[test]
fn scalar_arithmetic_is_modular() {
    let two = Scalar::from_u64(2);
    let three = Scalar::from_u64(3);
    assert_eq!(two.add(&three).to_bytes(), Scalar::from_u64(5).to_bytes());
    assert_eq!(three.sub(&two).to_bytes(), Scalar::from_u64(1).to_bytes());
    assert_eq!(two.sub(&three).to_bytes(), R_MINUS_ONE);
    assert_eq!(
        Scalar::from_u64(6).mul(&Scalar::from_u64(7)).to_bytes(),
        Scalar::from_u64(42).to_bytes()
    );
    let minus_one = scalar_from_le(&R_MINUS_ONE);
    assert_eq!(minus_one.mul(&minus_one).to_bytes(), Scalar::from_u64(1).to_bytes());
    assert_eq!(minus_one.add(&two).to_bytes(), Scalar::from_u64(1).to_bytes());
    assert_eq!(scalar_from_le(&R_PLUS_FIVE).to_bytes(), Scalar::from_u64(5).to_bytes());
    let mut le = [0u8; 32];
    le[0] = 0x34;
    le[1] = 0x12;
    assert_eq!(Scalar::from_u64(0x1234).to_bytes(), le);
}

#[test]
fn group_law_on_points() {
    let g = generator();
    let two_g = g.mul(&Scalar::from_u64(2));
    assert!(g.add(&g).equals(&two_g));
    assert!(!g.add(&g).equals(&g));
    assert!(!two_g.equals(&g));
    assert!(g.mul(&Scalar::from_u64(1)).equals(&g));
    assert!(g
        .mul(&Scalar::from_u64(5))
        .sub(&g.mul(&Scalar::from_u64(3)))
        .equals(&two_g));
    assert!(g.sub(&g).equals(&Point::identity()));
    assert!(!g.equals(&Point::identity()));
    assert!(g.add(&Point::identity()).equals(&g));
    let minus_one = scalar_from_le(&R_MINUS_ONE);
    assert!(g.mul(&minus_one).add(&g).equals(&Point::identity()));
    assert!(g.mul(&Scalar::from_u64(0)).equals(&Point::identity()));
    assert_eq!(point_key(&g).len(), 33);
    assert_ne!(point_key(&g), point_key(&two_g));
    assert_eq!(point_key(&g.add(&g)), point_key(&two_g));
}

#[test]
fn cards_encode_to_multiples_of_the_generator() {
    let g = generator();
    for (i, &card) in deck_array().iter().enumerate() {
        let p = encode_point(card);
        assert!(p.equals(&g.mul(&Scalar::from_u64(i as u64 + 1))));
    }
    assert_eq!(
        decode_point(&g),
        Some(Card { rank: Rank::Ace, suit: Suit::Spades })
    );
    assert_eq!(
        decode_point(&g.mul(&Scalar::from_u64(52))),
        Some(Card { rank: Rank::Deuce, suit: Suit::Clubs })
    );
    assert_eq!(decode_point(&g.mul(&Scalar::from_u64(53))), None);
}

#[test]
fn transcript_challenge_is_the_reduced_sha512_digest() {
    // SHA-512("abc") as a little-endian integer, reduced modulo r.
    let expected: [u8; 32] = [
        254, 5, 12, 198, 198, 254, 117, 136, 45, 238, 222, 234, 150, 95, 161, 77, 220, 139, 135,
        234, 132, 61, 155, 149, 155, 63, 137, 254, 179, 81, 200, 10,
    ];
    assert_eq!(Transcript::new(b"abc").challenge().to_bytes(), expected);
}

#[test]
fn fiat_shamir_bits_read_the_digest_bits() {
    // The low 16 bits of SHA-512("abc"), least significant bit of each byte first.
    let expected = vec![
        true, false, true, true, true, false, true, true, true, true, true, true, false, true,
        false, true,
    ];
    assert_eq!(fiat_shamir_bits(b"abc", &[], 16), expected);
    assert_eq!(fiat_shamir_bits(b"abc", &[], 0), Vec::<bool>::new());
    let g = generator();
    let a = fiat_shamir_bits(b"abc", &[g], 64);
    let b = fiat_shamir_bits(b"abc", &[g.add(&g)], 64);
    assert_ne!(a, b);
}

#[test]
fn point_equality_is_group_equality() {
    let g = generator();
    let two = g.mul(&Scalar::from_u64(2));
    assert!(two == g.add(&g));
    assert!(two != g);
    assert!(Point::identity() == g.sub(&g));
    assert!(Point::default() == Point::identity());
    assert!(!format!("{:?}", two).is_empty());
}

#[test]
fn scalar_equality_is_field_equality() {
    let five = Scalar::from_u64(5);
    assert!(five == Scalar::from_u64(2).add(&Scalar::from_u64(3)));
    assert!(five != Scalar::from_u64(6));
    assert!(Scalar::from_u64(0) == five.sub(&five));
    assert!(!format!("{:?}", five).is_empty());
}
