use sequence_game::card::Card;
use sequence_game::deck::Deck;
use sequence_game::rank::Rank;
use sequence_game::suit::Suit;

fn two_standard_decks() -> Vec<Card> {
    let mut cards = Card::standard_deck();
    cards.extend(Card::standard_deck());
    cards
}

fn assert_draw_pile_contains(deck: &Deck, cards: &Vec<Card>) {
    let mut draw_pile_sorted = deck.draw_pile().to_vec();
    draw_pile_sorted.sort();

    let mut cards_sorted = cards.clone();
    cards_sorted.sort();

    assert!(draw_pile_sorted == cards_sorted);
}

#[test]
fn new_deck_has_two_of_each_card() {
    let deck = Deck::new();
    assert_draw_pile_contains(&deck, &two_standard_decks());
    assert!(deck.discard_pile().is_empty());
}

#[test]
fn deck_is_reshuffled_when_exhausted() {
    let mut deck = Deck::new();

    let mut discarded_cards = vec![];
    while deck.draw_pile_size() > 0 {
        let card = deck.draw();
        deck.discard(card);
        discarded_cards.push(card);
    }

    assert_eq!(0, deck.draw_pile_size());
    assert!(discarded_cards == deck.discard_pile());
    let last_card = deck.draw();

    let mut deck_minus_last_card = Deck::new().draw_pile().to_vec();
    let last_card_index = deck_minus_last_card.iter().position(|c| c == &last_card).unwrap();
    deck_minus_last_card.remove(last_card_index);
    assert_draw_pile_contains(&deck, &deck_minus_last_card);
    assert!(deck.discard_pile().is_empty());
}

#[test]
fn new_deck_is_shuffled() {
    let unshuffled = two_standard_decks();
    let first = Deck::new();
    let second = Deck::new();
    assert_eq!(104, first.draw_pile_size());
    assert!(first.draw_pile() != unshuffled.as_slice() || second.draw_pile() != unshuffled.as_slice());
    assert!(first.draw_pile() != second.draw_pile());
}

#[test]
fn draw_takes_the_top_of_the_draw_pile() {
    let two = Card { rank: Rank::Two, suit: Suit::Spades };
    let three = Card { rank: Rank::Three, suit: Suit::Hearts };
    let four = Card { rank: Rank::Four, suit: Suit::Clubs };
    let mut deck = Deck::from_piles(vec![two, three], vec![four]);
    assert_eq!(three, deck.draw());
    assert_eq!(&[two][..], deck.draw_pile());
    assert_eq!(&[four][..], deck.discard_pile());
    assert_eq!(two, deck.draw());
    assert_eq!(0, deck.draw_pile_size());
}

#[test]
fn draw_from_an_empty_pile_brings_the_discards_back() {
    let two = Card { rank: Rank::Two, suit: Suit::Spades };
    let mut deck = Deck::from_piles(vec![], vec![two]);
    assert_eq!(two, deck.draw());
    assert_eq!(0, deck.draw_pile_size());
    assert!(deck.discard_pile().is_empty());
}

#[test]
fn discard_puts_the_card_on_the_discard_pile() {
    let two = Card { rank: Rank::Two, suit: Suit::Spades };
    let jack = Card { rank: Rank::Jack, suit: Suit::Diamonds };
    let mut deck = Deck::from_piles(vec![two], vec![]);
    deck.discard(jack);
    deck.discard(two);
    assert_eq!(&[jack, two][..], deck.discard_pile());
    assert_eq!(&[two][..], deck.draw_pile());
}
