use vstd::prelude::*;

use crate::rank::Rank;
use crate::suit::Suit;

verus! {

/// One of the 52 distinct playing cards.
#[derive(Clone, Copy, Debug, PartialEq, Eq, Hash, PartialOrd, Ord, Structural)]
pub struct Card {
    pub rank: Rank,
    pub suit: Suit,
}

impl Card {
    /// A jack that removes an opposing chip: the jack of spades or of hearts.
    pub open spec fn one_eyed_jack(&self) -> bool {
        self.rank == Rank::Jack && (self.suit == Suit::Spades || self.suit == Suit::Hearts)
    }

    /// A jack that claims any empty square: the jack of diamonds or of clubs.
    pub open spec fn two_eyed_jack(&self) -> bool {
        self.rank == Rank::Jack && (self.suit == Suit::Diamonds || self.suit == Suit::Clubs)
    }

    pub open spec fn jack(&self) -> bool {
        self.rank == Rank::Jack
    }

    /// Position of the card in a fresh deck, suit by suit and lowest rank first.
    pub open spec fn ordinal(self) -> int {
        self.suit.ordinal() * 13 + self.rank.ordinal()
    }

    /// The card at a given position of a fresh deck.
    pub open spec fn at(i: int) -> Card {
        Card { rank: Rank::at(i % 13), suit: Suit::at(i / 13) }
    }

    #[verifier::when_used_as_spec(one_eyed_jack)]
    pub fn is_one_eyed_jack(&self) -> (b: bool)
        ensures
            b == self.one_eyed_jack(),
    {
        self.rank == Rank::Jack && (self.suit == Suit::Spades || self.suit == Suit::Hearts)
    }

    #[verifier::when_used_as_spec(two_eyed_jack)]
    pub fn is_two_eyed_jack(&self) -> (b: bool)
        ensures
            b == self.two_eyed_jack(),
    {
        self.rank == Rank::Jack && (self.suit == Suit::Diamonds || self.suit == Suit::Clubs)
    }

    #[verifier::when_used_as_spec(jack)]
    pub fn is_jack(&self) -> (b: bool)
        ensures
            b == self.jack(),
    {
        self.rank == Rank::Jack
    }

    /// The card as printed: the character of its rank, then the pip of its suit.
    pub open spec fn text(self) -> Seq<char> {
        seq![self.rank.symbol(), self.suit.symbol()]
    }

    /// The card as printed: the character of its rank, then the pip of its suit.
    pub fn to_string(&self) -> (text: String)
        ensures
            text@ == self.text(),
    {
        let mut text = String::new();
        text.push(self.rank.to_char());
        text.push(self.suit.to_char());
        assert(text@ =~= seq![self.rank.symbol(), self.suit.symbol()]);
        text
    }

    pub fn index(&self) -> (i: usize)
        ensures
            i == self.ordinal(),
            i < 52,
    {
        self.suit.index() * 13 + self.rank.index()
    }

    /// Every suit and rank combination exactly once, suit by suit.
    pub fn standard_deck() -> (cards: Vec<Card>)
        ensures
            cards@.len() == 52,
            forall|i: int| 0 <= i < 52 ==> cards@[i] == Card::at(i),
    {
        let suits = Suit::all();
        let ranks = Rank::all();
        let mut cards: Vec<Card> = Vec::new();
        for s in 0..4usize
            invariant
                cards@.len() == s * 13,
                forall|i: int| 0 <= i < 4 ==> suits@[i] == Suit::at(i),
                forall|i: int| 0 <= i < 13 ==> ranks@[i] == Rank::at(i),
                forall|i: int| 0 <= i < cards@.len() ==> cards@[i] == Card::at(i),
        {
            for r in 0..13usize
                invariant
                    0 <= s < 4,
                    cards@.len() == s * 13 + r,
                    forall|i: int| 0 <= i < 4 ==> suits@[i] == Suit::at(i),
                    forall|i: int| 0 <= i < 13 ==> ranks@[i] == Rank::at(i),
                    forall|i: int| 0 <= i < cards@.len() ==> cards@[i] == Card::at(i),
            {
                cards.push(Card { rank: ranks[r], suit: suits[s] });
            }
        }
        cards
    }
}

/// Every card sits at its own position of a fresh deck, so the 52 positions
/// name 52 different cards.
pub proof fn lemma_card_ordinal_roundtrip(c: Card)
    ensures
        0 <= c.ordinal() < 52,
        Card::at(c.ordinal()) == c,
{
    crate::rank::lemma_rank_ordinal_roundtrip(c.rank);
    crate::suit::lemma_suit_ordinal_roundtrip(c.suit);
}

} // verus!
