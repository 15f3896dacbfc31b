//! Playing cards and the canonical 52-card deck.
//!
//! A card is a rank and a suit. The cryptography never looks inside a card: it
//! only needs 52 distinct cards in a fixed order, the canonical deck of
//! [`deck_array`] (spades Ace to Deuce, then hearts, diamonds and clubs).

use vstd::prelude::*;

verus! {

/// Card rank, high to low.
#[derive(Clone, Copy, Debug, PartialEq, Eq, Structural, Hash, PartialOrd, Ord)]
pub enum Rank {
    Ace,
    King,
    Queen,
    Jack,
    Ten,
    Nine,
    Eight,
    Seven,
    Six,
    Five,
    Four,
    Trey,
    Deuce,
}

/// Card suit.
#[derive(Clone, Copy, Debug, PartialEq, Eq, Structural, Hash, PartialOrd, Ord)]
pub enum Suit {
    Spades,
    Hearts,
    Diamonds,
    Clubs,
}

/// A single playing card.
#[derive(Clone, Copy, Debug, PartialEq, Eq, Structural, Hash, PartialOrd, Ord)]
pub struct Card {
    pub rank: Rank,
    pub suit: Suit,
}

/// The number of cards in the deck.
pub const DECK_SIZE: usize = 52;

/// The position of a rank within a suit of the canonical deck (Ace first).
pub open spec fn rank_index(r: Rank) -> int {
    match r {
        Rank::Ace => 0,
        Rank::King => 1,
        Rank::Queen => 2,
        Rank::Jack => 3,
        Rank::Ten => 4,
        Rank::Nine => 5,
        Rank::Eight => 6,
        Rank::Seven => 7,
        Rank::Six => 8,
        Rank::Five => 9,
        Rank::Four => 10,
        Rank::Trey => 11,
        Rank::Deuce => 12,
    }
}

/// The position of a suit's block of thirteen cards in the canonical deck.
pub open spec fn suit_index(s: Suit) -> int {
    match s {
        Suit::Spades => 0,
        Suit::Hearts => 1,
        Suit::Diamonds => 2,
        Suit::Clubs => 3,
    }
}

/// The index of a card in the canonical deck.
pub open spec fn deck_index(c: Card) -> int {
    13 * suit_index(c.suit) + rank_index(c.rank)
}

/// The rank with position `i` in a suit (Ace is `0`, Deuce is `12`).
pub open spec fn rank_at(i: int) -> Rank {
    if i == 0 {
        Rank::Ace
    } else if i == 1 {
        Rank::King
    } else if i == 2 {
        Rank::Queen
    } else if i == 3 {
        Rank::Jack
    } else if i == 4 {
        Rank::Ten
    } else if i == 5 {
        Rank::Nine
    } else if i == 6 {
        Rank::Eight
    } else if i == 7 {
        Rank::Seven
    } else if i == 8 {
        Rank::Six
    } else if i == 9 {
        Rank::Five
    } else if i == 10 {
        Rank::Four
    } else if i == 11 {
        Rank::Trey
    } else {
        Rank::Deuce
    }
}

/// The suit whose block is the `i`-th of the deck (spades are `0`).
pub open spec fn suit_at(i: int) -> Suit {
    if i == 0 {
        Suit::Spades
    } else if i == 1 {
        Suit::Hearts
    } else if i == 2 {
        Suit::Diamonds
    } else {
        Suit::Clubs
    }
}

/// The card at index `i` (`0 <= i < 52`) of the canonical deck.
pub open spec fn deck_card(i: int) -> Card {
    Card { rank: rank_at(i % 13), suit: suit_at(i / 13) }
}


fn rank_with_index(i: usize) -> (r: Rank)
    requires
        i < 13,
    ensures
        r == rank_at(i as int),
{
    if i == 0 {
        Rank::Ace
    } else if i == 1 {
        Rank::King
    } else if i == 2 {
        Rank::Queen
    } else if i == 3 {
        Rank::Jack
    } else if i == 4 {
        Rank::Ten
    } else if i == 5 {
        Rank::Nine
    } else if i == 6 {
        Rank::Eight
    } else if i == 7 {
        Rank::Seven
    } else if i == 8 {
        Rank::Six
    } else if i == 9 {
        Rank::Five
    } else if i == 10 {
        Rank::Four
    } else if i == 11 {
        Rank::Trey
    } else {
        Rank::Deuce
    }
}

fn suit_with_index(i: usize) -> (s: Suit)
    requires
        i < 4,
    ensures
        s == suit_at(i as int),
{
    if i == 0 {
        Suit::Spades
    } else if i == 1 {
        Suit::Hearts
    } else if i == 2 {
        Suit::Diamonds
    } else {
        Suit::Clubs
    }
}

/// The card at index `i` of the canonical deck.
pub fn card_at(i: usize) -> (c: Card)
    requires
        i < DECK_SIZE,
    ensures
        c == deck_card(i as int),
{
    Card { rank: rank_with_index(i % 13), suit: suit_with_index(i / 13) }
}

/// The canonical 52-card deck: spades Ace to Deuce, then
/// hearts, diamonds and clubs.
pub fn deck_array() -> (deck: Vec<Card>)
    ensures
        deck@.len() == DECK_SIZE,
        forall|i: int| 0 <= i < DECK_SIZE ==> #[trigger] deck@[i] == deck_card(i),
{
    let mut deck: Vec<Card> = Vec::new();
    let mut i: usize = 0;
    while i < DECK_SIZE
        invariant
            i <= DECK_SIZE,
            deck@.len() == i,
            forall|j: int| 0 <= j < i ==> #[trigger] deck@[j] == deck_card(j),
        decreases DECK_SIZE - i,
    {
        deck.push(card_at(i));
        i = i + 1;
    }
    deck
}

/// The order of the canonical deck: card `13·s + r` has the `r`-th rank of
/// Ace, King, Queen, Jack, Ten, Nine, Eight, Seven, Six, Five, Four, Trey,
/// Deuce and the `s`-th suit of Spades, Hearts, Diamonds, Clubs, and that card
/// sits at index `13·s + r`.
pub proof fn lemma_deck_order(r: int, s: int)
    requires
        0 <= r < 13,
        0 <= s < 4,
    ensures
        deck_card(13 * s + r) == (Card {
            rank: seq![Rank::Ace, Rank::King, Rank::Queen, Rank::Jack, Rank::Ten, Rank::Nine, Rank::Eight, Rank::Seven, Rank::Six, Rank::Five, Rank::Four, Rank::Trey, Rank::Deuce][r],
            suit: seq![Suit::Spades, Suit::Hearts, Suit::Diamonds, Suit::Clubs][s],
        }),
        deck_index(
            Card {
                rank: seq![Rank::Ace, Rank::King, Rank::Queen, Rank::Jack, Rank::Ten, Rank::Nine, Rank::Eight, Rank::Seven, Rank::Six, Rank::Five, Rank::Four, Rank::Trey, Rank::Deuce][r],
                suit: seq![Suit::Spades, Suit::Hearts, Suit::Diamonds, Suit::Clubs][s],
            },
        ) == 13 * s + r,
{
    let ranks = seq![Rank::Ace, Rank::King, Rank::Queen, Rank::Jack, Rank::Ten, Rank::Nine, Rank::Eight, Rank::Seven, Rank::Six, Rank::Five, Rank::Four, Rank::Trey, Rank::Deuce];
    let suits = seq![Suit::Spades, Suit::Hearts, Suit::Diamonds, Suit::Clubs];
    assert((13 * s + r) % 13 == r && (13 * s + r) / 13 == s);
    if r == 0 {
        assert(ranks[0] == Rank::Ace);
    } else if r == 1 {
        assert(ranks[1] == Rank::King);
    } else if r == 2 {
        assert(ranks[2] == Rank::Queen);
    } else if r == 3 {
        assert(ranks[3] == Rank::Jack);
    } else if r == 4 {
        assert(ranks[4] == Rank::Ten);
    } else if r == 5 {
        assert(ranks[5] == Rank::Nine);
    } else if r == 6 {
        assert(ranks[6] == Rank::Eight);
    } else if r == 7 {
        assert(ranks[7] == Rank::Seven);
    } else if r == 8 {
        assert(ranks[8] == Rank::Six);
    } else if r == 9 {
        assert(ranks[9] == Rank::Five);
    } else if r == 10 {
        assert(ranks[10] == Rank::Four);
    } else if r == 11 {
        assert(ranks[11] == Rank::Trey);
    } else if r == 12 {
        assert(ranks[12] == Rank::Deuce);
    }
    if s == 0 {
        assert(suits[0] == Suit::Spades);
    } else if s == 1 {
        assert(suits[1] == Suit::Hearts);
    } else if s == 2 {
        assert(suits[2] == Suit::Diamonds);
    } else {
        assert(suits[3] == Suit::Clubs);
    }
}

/// Every index of the deck holds the card whose index it is.
pub proof fn lemma_deck_index_of_card(i: int)
    requires
        0 <= i < DECK_SIZE,
    ensures
        deck_index(deck_card(i)) == i,
{
}

/// Every card sits in the deck at its index.
pub proof fn lemma_card_at_its_index(c: Card)
    ensures
        0 <= deck_index(c) < DECK_SIZE,
        deck_card(deck_index(c)) == c,
{
}

} // verus!
