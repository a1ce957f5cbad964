use std::collections::HashSet;

use sequence_game::card::Card;
use sequence_game::rank::Rank;
use sequence_game::suit::Suit;

#[test]
fn standard_deck_lists_each_card_once() {
    let deck = Card::standard_deck();
    assert_eq!(deck.len(), 52);
    assert_eq!(deck[0], Card { rank: Rank::Two, suit: Suit::Spades });
    assert_eq!(deck[12], Card { rank: Rank::Ace, suit: Suit::Spades });
    assert_eq!(deck[13], Card { rank: Rank::Two, suit: Suit::Hearts });
    assert_eq!(deck[51], Card { rank: Rank::Ace, suit: Suit::Clubs });
    let distinct: HashSet<Card> = deck.iter().cloned().collect();
    assert_eq!(52, distinct.len());
    for (place, card) in deck.iter().enumerate() {
        assert_eq!(place, card.index());
    }
}
