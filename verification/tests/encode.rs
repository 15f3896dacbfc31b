use mental_poker::{decode_point, deck_array, encode_point, point_key, Point};

#[test]
fn all_52_cards_round_trip() {
    for &card in deck_array().iter() {
        let point = encode_point(card);
        assert_eq!(decode_point(&point), Some(card));
    }
}

#[test]
fn lib_all_52_cards_round_trip() {
    for &card in deck_array().iter() {
        let point = encode_point(card);
        assert_eq!(decode_point(&point), Some(card));
    }
}

#[test]
fn all_52_encodings_are_distinct() {
    let mut keys: Vec<Vec<u8>> = deck_array()
        .iter()
        .map(|&c| point_key(&encode_point(c)))
        .collect();
    keys.sort();
    keys.dedup();
    assert_eq!(
        keys.len(),
        52,
        "all 52 card encodings must be distinct points"
    );
}

#[test]
fn lib_all_52_encodings_are_distinct() {
    let mut keys: Vec<Vec<u8>> = deck_array()
        .iter()
        .map(|&c| point_key(&encode_point(c)))
        .collect();
    keys.sort();
    keys.dedup();
    assert_eq!(
        keys.len(),
        52,
        "all 52 card encodings must be distinct points"
    );
}

#[test]
fn identity_is_not_a_card() {
    assert_eq!(decode_point(&Point::default()), None);
}

#[test]
fn lib_identity_is_not_a_card() {
    assert_eq!(decode_point(&Point::default()), None);
}
