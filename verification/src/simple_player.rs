//! Players that think in squares and leave the choice of the card to the
//! engine.

use vstd::prelude::*;

use crate::board::Board;
use crate::card::Card;
use crate::deck::Deck;
use crate::model::BoardView;
use crate::player::{holds_playable_card, Player, MAX_HAND_SIZE};
use crate::square::Square;
use crate::team::Team;
use crate::util::Wrapper;

verus! {

/// How a card can serve a move on a square.
#[derive(Clone, Copy, Debug, PartialEq, Eq, Structural)]
pub enum Use {
    /// A one-eyed jack, to take a chip away.
    Remove,
    /// The card that the square bears.
    Claim,
    /// A two-eyed jack, to claim whatever the square bears.
    Wild,
}

/// Whether a card serves a move on a square in the given way.
pub open spec fn serves(board: BoardView, square: Square, how: Use, card: Card) -> bool {
    match how {
        Use::Remove => card.one_eyed_jack(),
        Use::Claim => board.card_at(square) == Some(card),
        Use::Wild => card.two_eyed_jack(),
    }
}

/// Some card of the hand serves a move on the square in the given way.
pub open spec fn holds_card_for(board: BoardView, hand: Seq<Card>, square: Square, how: Use) -> bool {
    exists|i: int| 0 <= i < hand.len() && serves(board, square, how, #[trigger] hand[i])
}

/// `at` is the place of the first card in the hand that serves a move on
/// the square in the given way, or the length of the hand if none does.
pub open spec fn first_card_for(
    board: BoardView,
    hand: Seq<Card>,
    square: Square,
    how: Use,
    at: int,
) -> bool {
    &&& 0 <= at <= hand.len()
    &&& at < hand.len() ==> serves(board, square, how, hand[at])
    &&& forall|j: int| 0 <= j < at ==> !serves(board, square, how, #[trigger] hand[j])
}

/// The way to move on a square with the given hand: a chip on the square
/// can only be removed, an empty square is claimed with the card it bears
/// if the hand holds it, and else with a two-eyed jack.
pub open spec fn use_for(board: BoardView, hand: Seq<Card>, square: Square) -> Use {
    if board.chip_at(square) is Some {
        Use::Remove
    } else if holds_card_for(board, hand, square, Use::Claim) {
        Use::Claim
    } else {
        Use::Wild
    }
}

/// A player that only names the square to move on. The card is found for
/// it: see `card_for_square`.
pub trait SimplePlayer {
    /// Picks the square to move on.
    fn play_square(&self, team: &Team, hand: &[Card], board: &Board, deck: &Deck) -> (square:
        Square)
        requires
            board.wf(),
            hand@.len() <= MAX_HAND_SIZE,
            holds_playable_card(board@, hand@, *team),
    ;
}

/// The place of the first card in a hand that serves a move on a square in
/// the given way; the length of the hand if there is none.
fn find_card(board: &Board, hand: &[Card], square: &Square, how: Use) -> (at: usize)
    requires
        how == Use::Claim ==> square.valid(),
    ensures
        first_card_for(board@, hand@, *square, how, at as int),
{
    let mut i: usize = 0;
    while i < hand.len()
        invariant
            how == Use::Claim ==> square.valid(),
            i <= hand@.len(),
            forall|j: int| 0 <= j < i ==> !serves(board@, *square, how, #[trigger] hand@[j]),
        decreases hand@.len() - i,
    {
        let wanted = match how {
            Use::Remove => hand[i].is_one_eyed_jack(),
            Use::Claim => board.card_at(square).wraps(&hand[i]),
            Use::Wild => hand[i].is_two_eyed_jack(),
        };
        if wanted {
            return i;
        }
        i += 1;
    }
    i
}

/// The place in the hand of the card to play on a square: a one-eyed jack if
/// the square holds a chip; else the card that the square bears; else a
/// two-eyed jack; in each case the first in the hand. Where the hand holds
/// no such card, the answer is the length of the hand, which is no place in it.
pub fn card_for_square(board: &Board, hand: &[Card], square: &Square) -> (at: usize)
    requires
        board.wf(),
    ensures
        first_card_for(board@, hand@, *square, use_for(board@, hand@, *square), at as int),
{
    if !square.is_valid() {
        proof {
            board.lemma_wf_view();
        }
        return find_card(board, hand, square, Use::Wild);
    }
    if board.chip_at(square).is_some() {
        return find_card(board, hand, square, Use::Remove);
    }
    let claim = find_card(board, hand, square, Use::Claim);
    if claim < hand.len() {
        claim
    } else {
        find_card(board, hand, square, Use::Wild)
    }
}

impl<T: SimplePlayer> Player for T {
    /// Moves on the square that `play_square` names, with the card that
    /// `card_for_square` finds for it.
    fn play(&self, team: &Team, hand: &[Card], board: &Board, deck: &Deck) -> (choice: (
        u8,
        Square,
    ))
        ensures
            first_card_for(
                board@,
                hand@,
                choice.1,
                use_for(board@, hand@, choice.1),
                choice.0 as int,
            ),
    {
        let square = self.play_square(team, hand, board, deck);
        let index = card_for_square(board, hand, &square);
        (index as u8, square)
    }
}

} // verus!
