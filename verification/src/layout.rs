//! The standard arrangement of cards on the board.
//!
//! ```text
//!      a    b    c    d    e    f    g    h    i    j
//! 0    --   2♠   3♠   4♠   5♠   6♠   7♠   8♠   9♠   --
//! 1    6♣   5♣   4♣   3♣   2♣   A♥   K♥   Q♥   T♥   T♠
//! 2    7♣   A♠   2♦   3♦   4♦   5♦   6♦   7♦   9♥   Q♠
//! 3    8♣   K♠   6♣   5♣   4♣   3♣   2♣   8♦   8♥   K♠
//! 4    9♣   Q♠   7♣   6♥   5♥   4♥   A♥   9♦   7♥   A♠
//! 5    T♣   T♠   8♣   7♥   2♥   3♥   K♥   T♦   6♥   2♦
//! 6    Q♣   9♠   9♣   8♥   9♥   T♥   Q♥   Q♦   5♥   3♦
//! 7    K♣   8♠   T♣   Q♣   K♣   A♣   A♦   K♦   4♥   4♦
//! 8    A♣   7♠   6♠   5♠   4♠   3♠   2♠   2♥   3♥   5♦
//! 9    --   A♦   K♦   Q♦   T♦   9♦   8♦   7♦   6♦   --
//! ```

use vstd::prelude::*;

use crate::board::{layout_card, layout_complete, Board};
use crate::model::{BoardView, SequenceView};
use crate::team::Team;
use crate::card::{lemma_card_ordinal_roundtrip, Card};
use crate::counting::square_at;
use crate::rank::Rank;
use crate::square::Square;
use crate::suit::Suit;

verus! {

/// The standard layout, one byte for each square: the high half names the
/// suit (0 spades, 1 hearts, 2 diamonds, 3 clubs), the low half the rank
/// (2 to 9 for the pip cards, then a for ten, c for queen, d for king, e for
/// ace), and ff marks a blank corner.
pub const STANDARD_LAYOUT: [[u8; 10]; 10] = [
    [0xff, 0x02, 0x03, 0x04, 0x05, 0x06, 0x07, 0x08, 0x09, 0xff],
    [0x36, 0x35, 0x34, 0x33, 0x32, 0x1e, 0x1d, 0x1c, 0x1a, 0x0a],
    [0x37, 0x0e, 0x22, 0x23, 0x24, 0x25, 0x26, 0x27, 0x19, 0x0c],
    [0x38, 0x0d, 0x36, 0x35, 0x34, 0x33, 0x32, 0x28, 0x18, 0x0d],
    [0x39, 0x0c, 0x37, 0x16, 0x15, 0x14, 0x1e, 0x29, 0x17, 0x0e],
    [0x3a, 0x0a, 0x38, 0x17, 0x12, 0x13, 0x1d, 0x2a, 0x16, 0x22],
    [0x3c, 0x09, 0x39, 0x18, 0x19, 0x1a, 0x1c, 0x2c, 0x15, 0x23],
    [0x3d, 0x08, 0x3a, 0x3c, 0x3d, 0x3e, 0x2e, 0x2d, 0x14, 0x24],
    [0x3e, 0x07, 0x06, 0x05, 0x04, 0x03, 0x02, 0x12, 0x13, 0x25],
    [0xff, 0x2e, 0x2d, 0x2c, 0x2a, 0x29, 0x28, 0x27, 0x26, 0xff],
];

/// Where each card lies on the standard layout: for every card, by its
/// place in a fresh deck, the two squares that bear it, by their places when
/// the board is read row by row. The entries of the jacks, which lie
/// nowhere, are not used.
pub const STANDARD_PLACES: [[u8; 2]; 52] = [
    [1, 86], [2, 85], [3, 84], [4, 83], [5, 82], [6, 81], [7, 71], [8, 61], [19, 51], [0, 0],
    [29, 41], [31, 39], [21, 49],
    [54, 87], [55, 88], [45, 78], [44, 68], [43, 58], [48, 53], [38, 63], [28, 64], [18, 65],
    [0, 0], [17, 66], [16, 56], [15, 46],
    [22, 59], [23, 69], [24, 79], [25, 89], [26, 98], [27, 97], [37, 96], [47, 95], [57, 94],
    [0, 0], [67, 93], [77, 92], [76, 91],
    [14, 36], [13, 35], [12, 34], [11, 33], [10, 32], [20, 42], [30, 52], [40, 62], [50, 72],
    [0, 0], [60, 73], [70, 74], [75, 80],
];

/// The rank that a layout byte names, if any.
pub open spec fn rank_of_code(code: u8) -> Option<Rank> {
    let low = code % 16;
    if low == 2 {
        Some(Rank::Two)
    } else if low == 3 {
        Some(Rank::Three)
    } else if low == 4 {
        Some(Rank::Four)
    } else if low == 5 {
        Some(Rank::Five)
    } else if low == 6 {
        Some(Rank::Six)
    } else if low == 7 {
        Some(Rank::Seven)
    } else if low == 8 {
        Some(Rank::Eight)
    } else if low == 9 {
        Some(Rank::Nine)
    } else if low == 10 {
        Some(Rank::Ten)
    } else if low == 11 {
        Some(Rank::Jack)
    } else if low == 12 {
        Some(Rank::Queen)
    } else if low == 13 {
        Some(Rank::King)
    } else if low == 14 {
        Some(Rank::Ace)
    } else {
        None
    }
}

/// The suit that a layout byte names, if any.
pub open spec fn suit_of_code(code: u8) -> Option<Suit> {
    let high = code / 16;
    if high == 0 {
        Some(Suit::Spades)
    } else if high == 1 {
        Some(Suit::Hearts)
    } else if high == 2 {
        Some(Suit::Diamonds)
    } else if high == 3 {
        Some(Suit::Clubs)
    } else {
        None
    }
}

/// The card that a layout byte names; none for a blank.
pub open spec fn card_of_code(code: u8) -> Option<Card> {
    match (rank_of_code(code), suit_of_code(code)) {
        (Some(rank), Some(suit)) => Some(Card { rank, suit }),
        _ => None,
    }
}

/// The card that the standard layout prints on a square.
pub open spec fn standard_card(s: Square) -> Option<Card> {
    if s.valid() {
        card_of_code(STANDARD_LAYOUT[s.row as int][s.col as int])
    } else {
        None
    }
}

/// The standard layout prints a card on every playable square and leaves
/// the four corners blank.
pub proof fn lemma_standard_layout_complete()
    ensures
        forall|s: Square| s.valid() ==> (#[trigger] standard_card(s) is Some <==> s.playable()),
{
}

/// Reads one byte of the layout.
fn card_from_code(code: u8) -> (card: Option<Card>)
    ensures
        card == card_of_code(code),
{
    let rank = match code % 16 {
        2 => Rank::Two,
        3 => Rank::Three,
        4 => Rank::Four,
        5 => Rank::Five,
        6 => Rank::Six,
        7 => Rank::Seven,
        8 => Rank::Eight,
        9 => Rank::Nine,
        10 => Rank::Ten,
        11 => Rank::Jack,
        12 => Rank::Queen,
        13 => Rank::King,
        14 => Rank::Ace,
        _ => {
            return None;
        },
    };
    let suit = match code / 16 {
        0 => Suit::Spades,
        1 => Suit::Hearts,
        2 => Suit::Diamonds,
        3 => Suit::Clubs,
        _ => {
            return None;
        },
    };
    Some(Card { rank, suit })
}

/// The standard layout as a grid of cards.
pub fn standard_cards() -> (cards: [[Option<Card>; 10]; 10])
    ensures
        layout_complete(cards),
        forall|s: Square| layout_card(cards, s) == standard_card(s),
{
    let mut cards: [[Option<Card>; 10]; 10] = [[None; 10]; 10];
    for row in 0..10usize
        invariant
            forall|s: Square| s.valid() && s.row < row ==> layout_card(cards, s) == standard_card(s),
    {
        for col in 0..10usize
            invariant
                row < 10,
                forall|s: Square|
                    s.valid() && (s.row < row || (s.row == row && s.col < col)) ==> layout_card(
                        cards,
                        s,
                    ) == standard_card(s),
        {
            cards[row][col] = card_from_code(STANDARD_LAYOUT[row][col]);
        }
    }
    proof {
        lemma_standard_layout_complete();
    }
    cards
}

/// A board with the standard layout and no chips on it.
pub fn standard_board() -> (board: Board)
    ensures
        board.wf(),
        forall|s: Square| board@.card_at(s) == standard_card(s),
        board@.chips == Map::<Square, Team>::empty(),
        board@.sequences == Seq::<SequenceView>::empty(),
{
    Board::new(standard_cards())
}

impl Board {
    /// A board with the standard layout and no chips on it.
    pub fn standard_board() -> (board: Board)
        ensures
            board.wf(),
            forall|s: Square| board@.card_at(s) == standard_card(s),
            board@.chips == Map::<Square, Team>::empty(),
            board@.sequences == Seq::<SequenceView>::empty(),
    {
        standard_board()
    }
}

impl Default for Board {
    fn default() -> (board: Board)
        ensures
            board.wf(),
            forall|s: Square| board@.card_at(s) == standard_card(s),
            board@.chips == Map::<Square, Team>::empty(),
            board@.sequences == Seq::<SequenceView>::empty(),
    {
        standard_board()
    }
}

/// The squares that bear a card on the standard layout.
pub open spec fn standard_bearing(card: Card) -> Set<Square> {
    Set::new(|s: Square| standard_card(s) == Some(card))
}

/// The first or the second of the squares listed for a card.
pub open spec fn standard_place(card: Card, second: bool) -> Square {
    square_at(
        STANDARD_PLACES[card.ordinal()][if second {
            1int
        } else {
            0int
        }] as int,
    )
}

/// The two squares listed for a card that is no jack are two different
/// squares, and both bear the card.
proof fn lemma_places_bear_card(card: Card)
    requires
        !card.jack(),
    ensures
        standard_card(standard_place(card, false)) == Some(card),
        standard_card(standard_place(card, true)) == Some(card),
        standard_place(card, false) != standard_place(card, true),
{
    lemma_card_ordinal_roundtrip(card);
    lemma_places_bear(card.ordinal());
}

/// The two squares listed at a place of the table bear the card of that place.
proof fn lemma_places_bear(k: int)
    requires
        0 <= k < 52,
        k % 13 != 9,
    ensures
        standard_card(square_at(STANDARD_PLACES[k][0] as int)) == Some(Card::at(k)),
        standard_card(square_at(STANDARD_PLACES[k][1] as int)) == Some(Card::at(k)),
        STANDARD_PLACES[k][0] < STANDARD_PLACES[k][1] < 100,
{
}

/// Every card on the standard layout lies on one of the two squares listed
/// for it, and no jack lies anywhere.
proof fn lemma_square_is_listed(s: Square)
    requires
        s.valid(),
    ensures
        standard_card(s) matches Some(card) ==> !card.jack() && (s == standard_place(card, false)
            || s == standard_place(card, true)),
{
}

/// The standard layout holds every card that is no jack exactly twice, and
/// no jack at all.
pub proof fn lemma_standard_layout_two_copies(card: Card)
    ensures
        standard_bearing(card).finite(),
        standard_bearing(card).len() == if card.jack() {
            0nat
        } else {
            2nat
        },
{
    assert forall|s: Square| #[trigger] standard_bearing(card).contains(s) implies !card.jack() && (
    s == standard_place(card, false) || s == standard_place(card, true)) by {
        lemma_square_is_listed(s);
    }
    if card.jack() {
        assert(standard_bearing(card) =~= Set::<Square>::empty());
    } else {
        lemma_places_bear_card(card);
        let first = standard_place(card, false);
        let second = standard_place(card, true);
        assert(standard_bearing(card) =~= set![first, second]);
    }
}

/// On a board with the standard layout every card that is no jack lies on
/// exactly two squares, and no jack lies anywhere.
pub proof fn lemma_standard_board_two_copies(board: BoardView, card: Card)
    requires
        forall|s: Square| board.card_at(s) == standard_card(s),
    ensures
        board.bearing(card).finite(),
        board.bearing(card).len() == if card.jack() {
            0nat
        } else {
            2nat
        },
{
    lemma_standard_layout_two_copies(card);
    assert(board.bearing(card) =~= standard_bearing(card));
}

} // verus!
