//! The bijection between the 52 cards and 52 distinct points of the group.
//!
//! The card at index `i` of the canonical deck encodes to `G·(i + 1)`. Using
//! `i + 1` keeps every encoding away from the identity, and since the group has
//! prime order `r > 52`, the 52 encodings are pairwise distinct.

use crate::card::{card_at, deck_array, deck_card, deck_index, Card, DECK_SIZE};
use crate::point::{encodes_only, point_encoding, Point};
use crate::scalar::Scalar;
use vstd::prelude::*;

verus! {

/// The card that a point with logarithm `log` stands for, if any: the point
/// `G·(i + 1)` stands for the card at index `i`.
pub open spec fn decoded_card(log: int) -> Option<Card> {
    if 1 <= log <= DECK_SIZE {
        Some(deck_card(log - 1))
    } else {
        None
    }
}

/// The compressed encoding of a point, the key of the decoding table.
pub fn point_key(p: &Point) -> (key: Vec<u8>)
    ensures
        encodes_only(key@, p@),
{
    let bytes = p.to_bytes();
    vstd::slice::slice_to_vec(bytes.as_slice())
}

/// The plaintext point `G·(i + 1)` of the card at index `i`.
pub fn point_for_index(i: usize) -> (p: Point)
    requires
        i < DECK_SIZE,
    ensures
        p@ == i + 1,
{
    let k = Scalar::from_u64((i as u64) + 1);
    let p = Point::generator().mul(&k);
    assert(1 * (i + 1) == i + 1);
    p
}

/// The decoding table: each card of the deck beside its plaintext point.
pub fn decode_table() -> (table: Vec<(Point, Card)>)
    ensures
        table@.len() == DECK_SIZE,
        forall|i: int|
            0 <= i < DECK_SIZE ==> (#[trigger] table@[i]).0@ == i + 1 && table@[i].1 == deck_card(
                i,
            ),
{
    let deck = deck_array();
    let mut table: Vec<(Point, Card)> = Vec::new();
    let mut i: usize = 0;
    while i < DECK_SIZE
        invariant
            i <= DECK_SIZE,
            deck@.len() == DECK_SIZE,
            forall|j: int| 0 <= j < DECK_SIZE ==> #[trigger] deck@[j] == deck_card(j),
            table@.len() == i,
            forall|j: int|
                0 <= j < i ==> (#[trigger] table@[j]).0@ == j + 1 && table@[j].1 == deck_card(j),
        decreases DECK_SIZE - i,
    {
        table.push((point_for_index(i), deck[i]));
        i = i + 1;
    }
    table
}

/// The index table: each card of the deck beside its index.
pub fn index_table() -> (table: Vec<(Card, usize)>)
    ensures
        table@.len() == DECK_SIZE,
        forall|i: int|
            0 <= i < DECK_SIZE ==> (#[trigger] table@[i]).0 == deck_card(i) && table@[i].1 == i,
{
    let mut table: Vec<(Card, usize)> = Vec::new();
    let mut i: usize = 0;
    while i < DECK_SIZE
        invariant
            i <= DECK_SIZE,
            table@.len() == i,
            forall|j: int|
                0 <= j < i ==> (#[trigger] table@[j]).0 == deck_card(j) && table@[j].1 == j,
        decreases DECK_SIZE - i,
    {
        table.push((card_at(i), i));
        i = i + 1;
    }
    table
}

/// Encode a card to its fixed plaintext point `G·(i + 1)`, where `i` is the
/// card's index in the canonical deck.
pub fn encode_point(card: Card) -> (p: Point)
    ensures
        p@ == deck_index(card) + 1,
{
    let table = index_table();
    proof {
        crate::card::lemma_card_at_its_index(card);
    }
    let mut i: usize = 0;
    while i < DECK_SIZE
        invariant
            i <= DECK_SIZE,
            table@.len() == DECK_SIZE,
            forall|j: int|
                0 <= j < DECK_SIZE ==> (#[trigger] table@[j]).0 == deck_card(j) && table@[j].1 == j,
            forall|j: int| 0 <= j < i ==> deck_card(j) != card,
            0 <= deck_index(card) < DECK_SIZE,
            deck_card(deck_index(card)) == card,
        decreases DECK_SIZE - i,
    {
        if table[i].0 == card {
            proof {
                crate::card::lemma_deck_index_of_card(i as int);
            }
            return point_for_index(table[i].1);
        }
        i = i + 1;
    }
    proof {
        assert(deck_card(deck_index(card)) != card);
    }
    point_for_index(0)
}

/// Recover the card whose plaintext point is `point`, or `None` when the point
/// is not one of the 52 card encodings.
pub fn decode_point(point: &Point) -> (card: Option<Card>)
    ensures
        card == decoded_card(point@),
{
    let table = decode_table();
    let mut i: usize = 0;
    while i < DECK_SIZE
        invariant
            i <= DECK_SIZE,
            table@.len() == DECK_SIZE,
            forall|j: int|
                0 <= j < DECK_SIZE ==> (#[trigger] table@[j]).0@ == j + 1 && table@[j].1
                    == deck_card(j),
            !(1 <= point@ <= i),
        decreases DECK_SIZE - i,
    {
        if table[i].0.equals(point) {
            return Some(table[i].1);
        }
        i = i + 1;
    }
    None
}

/// Every card round-trips: the point that a card encodes to decodes back to
/// that card.
pub proof fn lemma_encode_decode_round_trip(card: Card)
    ensures
        decoded_card(deck_index(card) + 1) == Some(card),
{
    crate::card::lemma_card_at_its_index(card);
}

/// The 52 encodings are pairwise distinct: distinct cards encode to points
/// with distinct logarithms, hence to distinct points.
pub proof fn lemma_encodings_distinct(a: Card, b: Card)
    requires
        a != b,
    ensures
        deck_index(a) + 1 != deck_index(b) + 1,
{
    crate::card::lemma_card_at_its_index(a);
    crate::card::lemma_card_at_its_index(b);
}

/// The keys of the 52 encodings are pairwise distinct: the compressed
/// encodings `point_key(encode_point(a))` and `point_key(encode_point(b))` of
/// two distinct cards differ.
pub proof fn lemma_encoding_keys_distinct(a: Card, b: Card, key_a: Seq<u8>, key_b: Seq<u8>)
    requires
        a != b,
        encodes_only(key_a, deck_index(a) + 1),
        encodes_only(key_b, deck_index(b) + 1),
    ensures
        key_a != key_b,
{
    lemma_encodings_distinct(a, b);
    crate::card::lemma_card_at_its_index(b);
    if key_a == key_b {
        assert(point_encoding(deck_index(b) + 1) == key_a);
    }
}

/// Every card encodes to a point other than the identity, and the identity
/// decodes to no card.
pub proof fn lemma_identity_is_not_a_card(card: Card)
    ensures
        deck_index(card) + 1 != 0,
        decoded_card(0) == None::<Card>,
{
    crate::card::lemma_card_at_its_index(card);
}

/// Decoding inverts encoding on the 52 card points: a point that decodes to a
/// card is that card's encoding.
pub proof fn lemma_decode_encode(log: int)
    ensures
        decoded_card(log) matches Some(card) ==> deck_index(card) + 1 == log,
{
    if 1 <= log <= DECK_SIZE {
        crate::card::lemma_deck_index_of_card(log - 1);
    }
}

} // verus!
