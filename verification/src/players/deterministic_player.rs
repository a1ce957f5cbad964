use vstd::prelude::*;

use crate::board::Board;
use crate::card::Card;
use crate::deck::Deck;
use crate::game::{has_legal_move, has_move, legal_squares, placement_error};
use crate::model::BoardView;
use crate::player::Player;
use crate::square::Square;
use crate::team::Team;

verus! {

/// A player without choice: plays the first card of the hand that has a
/// move within the rules, on the first square, reading the board row by row,
/// where the card may go.
pub struct DeterministicPlayer {}

/// The square is the first, when the board is read row by row, on which the
/// team may play the card.
pub open spec fn first_legal(board: BoardView, team: Team, card: Card, s: Square) -> bool {
    placement_error(board, team, card, s) is None && forall|q: Square|
        #[trigger] placement_error(board, team, card, q) is None ==> s.flat() <= q.flat()
}

impl Player for DeterministicPlayer {
    /// Plays the first card of the hand that has a move within the rules,
    /// on the first square where it may go: an ordinary card on an empty
    /// square that bears it, a two-eyed jack on an empty square, a one-eyed
    /// jack on an unprotected chip of another team. Where no card has such a
    /// move, the answer is the length of the hand and the first corner, which
    /// is no move at all.
    fn play(&self, team: &Team, hand: &[Card], board: &Board, deck: &Deck) -> (choice: (
        u8,
        Square,
    ))
        ensures
            has_legal_move(board@, *team, hand@) ==> choice.0 < hand@.len() && first_legal(
                board@,
                *team,
                hand@[choice.0 as int],
                choice.1,
            ),
            has_legal_move(board@, *team, hand@) ==> forall|j: int|
                0 <= j < choice.0 ==> !has_move(board@, *team, #[trigger] hand@[j]),
            !has_legal_move(board@, *team, hand@) ==> choice.0 == hand@.len() && choice.1 == (
            Square { row: 0, col: 0 }),
    {
        let mut i: usize = 0;
        while i < hand.len()
            invariant
                board.wf(),
                hand@.len() <= crate::player::MAX_HAND_SIZE,
                i <= hand@.len(),
                forall|j: int| 0 <= j < i ==> !has_move(board@, *team, #[trigger] hand@[j]),
            decreases hand@.len() - i,
        {
            let squares = legal_squares(board, team, &hand[i]);
            if squares.len() > 0 {
                proof {
                    let card = hand@[i as int];
                    assert(squares@.contains(squares@[0]));
                    assert(has_move(board@, *team, card));
                    assert forall|q: Square| #[trigger]
                        placement_error(board@, *team, card, q) is None implies squares@[0].flat()
                        <= q.flat() by {
                        assert(squares@.contains(q));
                        let k = choose|k: int| 0 <= k < squares@.len() && squares@[k] == q;
                        assert(k == 0 || squares@[0].flat() < squares@[k].flat());
                    }
                }
                return (i as u8, squares[0]);
            }
            proof {
                if has_move(board@, *team, hand@[i as int]) {
                    let s = choose|s: Square| #[trigger]
                        placement_error(board@, *team, hand@[i as int], s) is None;
                    assert(squares@.contains(s));
                }
            }
            i += 1;
        }
        (hand.len() as u8, Square { row: 0, col: 0 })
    }
}

} // verus!
