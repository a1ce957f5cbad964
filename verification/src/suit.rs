use vstd::prelude::*;

verus! {

/// The four card suits.
#[derive(Clone, Copy, Debug, PartialEq, Eq, Hash, PartialOrd, Ord, Structural)]
pub enum Suit {
    Spades,
    Hearts,
    Diamonds,
    Clubs,
}

impl Suit {
    /// Position of the suit in declaration order.
    pub open spec fn ordinal(self) -> int {
        match self {
            Suit::Spades => 0,
            Suit::Hearts => 1,
            Suit::Diamonds => 2,
            Suit::Clubs => 3,
        }
    }

    /// The suit at a given position; positions past the end give `Clubs`.
    pub open spec fn at(i: int) -> Suit {
        if i <= 0 {
            Suit::Spades
        } else if i == 1 {
            Suit::Hearts
        } else if i == 2 {
            Suit::Diamonds
        } else {
            Suit::Clubs
        }
    }

    /// The pip that stands for the suit on a printed card.
    pub open spec fn symbol(self) -> char {
        match self {
            Suit::Spades => '♠',
            Suit::Hearts => '♥',
            Suit::Diamonds => '♦',
            Suit::Clubs => '♣',
        }
    }

    pub fn index(&self) -> (i: usize)
        ensures
            i == self.ordinal(),
            i < 4,
    {
        match self {
            Suit::Spades => 0,
            Suit::Hearts => 1,
            Suit::Diamonds => 2,
            Suit::Clubs => 3,
        }
    }

    /// Every suit once, in declaration order.
    pub fn all() -> (suits: [Suit; 4])
        ensures
            forall|i: int| 0 <= i < 4 ==> suits@[i] == Suit::at(i),
    {
        [Suit::Spades, Suit::Hearts, Suit::Diamonds, Suit::Clubs]
    }

    pub fn to_char(&self) -> (c: char)
        ensures
            c == self.symbol(),
    {
        match self {
            Suit::Spades => '♠',
            Suit::Hearts => '♥',
            Suit::Diamonds => '♦',
            Suit::Clubs => '♣',
        }
    }
}

/// `ordinal` and `at` are inverse to each other.
pub proof fn lemma_suit_ordinal_roundtrip(s: Suit)
    ensures
        0 <= s.ordinal() < 4,
        Suit::at(s.ordinal()) == s,
{
}

} // verus!
