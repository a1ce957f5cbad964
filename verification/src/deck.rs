//! The deck: a shuffled draw pile and the pile of cards played so far.

use rand::seq::SliceRandom;
use rand::thread_rng;
use vstd::multiset::Multiset;
use vstd::prelude::*;

use crate::card::Card;

verus! {

/// Number of cards in the game: two of each of the 52.
pub const DECK_SIZE: usize = 104;

/// The two piles of a deck as values. The top of the draw pile is its last card.
pub struct DeckView {
    pub draw_pile: Seq<Card>,
    pub discard_pile: Seq<Card>,
}

impl DeckView {
    /// Number of cards in both piles together.
    pub open spec fn size(self) -> nat {
        self.draw_pile.len() + self.discard_pile.len()
    }

    /// The cards of both piles together, each as often as the deck holds it.
    pub open spec fn cards(self) -> Multiset<Card> {
        self.draw_pile.to_multiset().add(self.discard_pile.to_multiset())
    }

    /// The deck with one more card on its discard pile.
    pub open spec fn discarded(self, card: Card) -> DeckView {
        DeckView { discard_pile: self.discard_pile.push(card), ..self }
    }

    /// Drawing from this deck can give `card` and leave `after`: the card
    /// is the top of the draw pile, or, when that pile is empty, the top of
    /// some rearrangement of the discard pile, which is the new draw pile.
    pub open spec fn draws(self, card: Card, after: DeckView) -> bool {
        if self.draw_pile.len() > 0 {
            &&& card == self.draw_pile.last()
            &&& after.draw_pile == self.draw_pile.drop_last()
            &&& after.discard_pile == self.discard_pile
        } else {
            &&& after.discard_pile.len() == 0
            &&& after.draw_pile.push(card).to_multiset() == self.discard_pile.to_multiset()
        }
    }
}

/// The cards of a new deck before they are shuffled: the 52 cards in order, twice.
pub open spec fn fresh_cards() -> Seq<Card> {
    Seq::new(DECK_SIZE as nat, |i: int| Card::at(i % 52))
}

/// A card drawn leaves the deck with the cards it held but this one.
pub proof fn lemma_draw_keeps_cards(before: DeckView, card: Card, after: DeckView)
    requires
        before.draws(card, after),
    ensures
        before.cards() == after.cards().insert(card),
{
    broadcast use vstd::seq_lib::group_to_multiset_ensures;

    if before.draw_pile.len() > 0 {
        assert(before.draw_pile =~= after.draw_pile.push(card));
    } else {
        assert(before.draw_pile.to_multiset() =~= Multiset::<Card>::empty());
        assert(after.discard_pile.to_multiset() =~= Multiset::<Card>::empty());
    }
    assert(before.cards() =~= after.cards().insert(card));
}

pub struct Deck {
    draw_pile: Vec<Card>,
    // one pile for all players: when the draw pile runs out, everything
    // discarded goes back into it together
    discard_pile: Vec<Card>,
}

impl View for Deck {
    type V = DeckView;

    closed spec fn view(&self) -> DeckView {
        DeckView { draw_pile: self.draw_pile@, discard_pile: self.discard_pile@ }
    }
}

/// Calls `SliceRandom::shuffle` of rand on the cards, with the generator
/// that `thread_rng` of rand hands out, which the system seeds. Taken on
/// trust: the call only swaps cards within the list, so that afterwards the
/// list holds the cards it held before, each as often as before, in some
/// order. Nothing is claimed about the order. (`thread_rng` fails where the
/// system cannot provide a seed.)
#[verifier::external_body]
fn shuffle(cards: &mut Vec<Card>)
    ensures
        final(cards)@.to_multiset() == old(cards)@.to_multiset(),
{
    cards.shuffle(&mut thread_rng());
}

impl Deck {
    /// A deck of two full sets of cards, shuffled, with nothing discarded.
    pub fn new() -> (deck: Deck)
        ensures
            deck@.draw_pile.to_multiset() == fresh_cards().to_multiset(),
            deck@.draw_pile.len() == DECK_SIZE,
            deck@.discard_pile.len() == 0,
    {
        let mut draw_pile = Card::standard_deck();
        let mut second = Card::standard_deck();
        draw_pile.append(&mut second);
        assert(draw_pile@ =~= fresh_cards());
        shuffle(&mut draw_pile);
        proof {
            draw_pile@.to_multiset_ensures();
            fresh_cards().to_multiset_ensures();
        }
        Deck { draw_pile, discard_pile: Vec::new() }
    }

    /// A deck with the given piles, the top of the draw pile last.
    pub fn from_piles(draw_pile: Vec<Card>, discard_pile: Vec<Card>) -> (deck: Deck)
        ensures
            deck@.draw_pile == draw_pile@,
            deck@.discard_pile == discard_pile@,
    {
        Deck { draw_pile, discard_pile }
    }

    /// Takes the top card of the draw pile. When the draw pile is empty, the
    /// discard pile is shuffled and becomes the draw pile first. The deck
    /// must hold a card somewhere.
    pub fn draw(&mut self) -> (card: Card)
        requires
            old(self)@.size() > 0,
        ensures
            old(self)@.draws(card, final(self)@),
            final(self)@.size() == old(self)@.size() - 1,
    {
        if self.draw_pile.len() == 0 {
            self.draw_pile.append(&mut self.discard_pile);
            shuffle(&mut self.draw_pile);
            self.discard_pile.clear();
            proof {
                self.draw_pile@.to_multiset_ensures();
                old(self)@.discard_pile.to_multiset_ensures();
            }
        }
        let ghost pile = self.draw_pile@;
        let card = self.draw_pile.pop().unwrap();
        assert(self.draw_pile@.push(card) =~= pile);
        card
    }

    /// Number of cards left to draw before the next shuffle.
    pub fn draw_pile_size(&self) -> (size: usize)
        ensures
            size == self@.draw_pile.len(),
    {
        self.draw_pile.len()
    }

    /// The cards left to draw, the next one last.
    pub fn draw_pile(&self) -> (pile: &[Card])
        ensures
            pile@ == self@.draw_pile,
    {
        self.draw_pile.as_slice()
    }

    /// The cards played since the last shuffle, oldest first.
    pub fn discard_pile(&self) -> (pile: &[Card])
        ensures
            pile@ == self@.discard_pile,
    {
        self.discard_pile.as_slice()
    }

    /// Puts a card on the discard pile.
    pub fn discard(&mut self, card: Card)
        ensures
            final(self)@ == old(self)@.discarded(card),
    {
        self.discard_pile.push(card);
    }
}

impl Default for Deck {
    fn default() -> (deck: Deck)
        ensures
            deck@.draw_pile.to_multiset() == fresh_cards().to_multiset(),
            deck@.draw_pile.len() == DECK_SIZE,
            deck@.discard_pile.len() == 0,
    {
        Deck::new()
    }
}

} // verus!
