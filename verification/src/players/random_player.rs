use rand::seq::IteratorRandom;
use rand::thread_rng;
use vstd::prelude::*;

use crate::board::Board;
use crate::card::Card;
use crate::deck::Deck;
use crate::game::{has_legal_move, has_move, legal_squares, placement_error};
use crate::model::BoardView;
use crate::player::Player;
use crate::square::Square;
use crate::team::Team;

verus! {

/// A player that moves at random: any card of the hand that has a move
/// within the rules, on any square where the card may go.
pub struct RandomPlayer {}

/// Calls `IteratorRandom::choose` of rand on the numbers below `len`, with
/// the generator that `thread_rng` of rand hands out, which the system
/// seeds. Taken on trust: the call gives nothing if and only if there is no
/// number below `len`, and else one of those numbers. Nothing is claimed
/// about which. (`thread_rng` fails where the system cannot provide a seed.)
#[verifier::external_body]
fn choose_index(len: usize) -> (chosen: Option<usize>)
    ensures
        chosen is None <==> len == 0,
        chosen matches Some(i) ==> i < len,
{
    (0..len).choose(&mut thread_rng())
}

/// A chip that the team may take off the board: it lies on a playable
/// square, belongs to another team, and no sequence protects it.
pub open spec fn removable(board: BoardView, team: Team, s: Square) -> bool {
    s.playable() && board.chip_at(s) is Some && board.chip_at(s) != Some(team) && !board.protected(
        s,
    )
}

/// One of the squares of a list, at random; nothing if the list is empty.
pub fn pick_square(squares: &Vec<Square>) -> (picked: Option<Square>)
    ensures
        picked is None <==> squares@.len() == 0,
        picked matches Some(s) ==> squares@.contains(s),
{
    match choose_index(squares.len()) {
        Some(i) => Some(squares[i]),
        None => None,
    }
}

/// A square with a chip that the team may take off the board, at random;
/// nothing if there is no such chip.
pub fn rand_occupied_square_not_in_sequence(board: &Board, excluding_team: &Team) -> (picked:
    Option<Square>)
    requires
        board.wf(),
    ensures
        picked is None <==> forall|s: Square| !#[trigger] removable(board@, *excluding_team, s),
        picked matches Some(s) ==> removable(board@, *excluding_team, s),
{
    let remover = Card { rank: crate::rank::Rank::Jack, suit: crate::suit::Suit::Spades };
    let squares = legal_squares(board, excluding_team, &remover);
    proof {
        assert forall|s: Square| #[trigger]
            removable(board@, *excluding_team, s) <==> squares@.contains(s) by {}
        if squares@.len() > 0 {
            assert(removable(board@, *excluding_team, squares@[0]));
        }
    }
    pick_square(&squares)
}

/// An empty playable square, at random; nothing if the board is full.
pub fn rand_unoccupied_square(board: &Board) -> (picked: Option<Square>)
    requires
        board.wf(),
    ensures
        picked is None <==> board@.is_full(),
        picked matches Some(s) ==> s.playable() && board@.chip_at(s) is None,
{
    let wild = Card { rank: crate::rank::Rank::Jack, suit: crate::suit::Suit::Clubs };
    let squares = legal_squares(board, &Team::One, &wild);
    proof {
        assert forall|s: Square|
            s.playable() && board@.chip_at(s) is None <==> #[trigger] squares@.contains(s) by {}
        if !board@.is_full() {
            let s = choose|s: Square| s.playable() && !board@.chips.dom().contains(s);
            assert(squares@.contains(s));
        }
    }
    pick_square(&squares)
}

/// The places in a hand of the cards that have a move within the rules.
fn cards_with_a_move(board: &Board, team: &Team, hand: &[Card]) -> (places: Vec<usize>)
    requires
        board.wf(),
    ensures
        forall|k: int|
            0 <= k < places@.len() ==> (#[trigger] places@[k]) < hand@.len() && has_move(
                board@,
                *team,
                hand@[places@[k] as int],
            ),
        has_legal_move(board@, *team, hand@) ==> places@.len() > 0,
{
    let mut places: Vec<usize> = Vec::new();
    let mut i: usize = 0;
    while i < hand.len()
        invariant
            board.wf(),
            i <= hand@.len(),
            forall|k: int|
                0 <= k < places@.len() ==> (#[trigger] places@[k]) < hand@.len() && has_move(
                    board@,
                    *team,
                    hand@[places@[k] as int],
                ),
            places@.len() == 0 ==> forall|j: int|
                0 <= j < i ==> !has_move(board@, *team, #[trigger] hand@[j]),
        decreases hand@.len() - i,
    {
        let squares = legal_squares(board, team, &hand[i]);
        if squares.len() > 0 {
            proof {
                assert(squares@.contains(squares@[0]));
            }
            places.push(i);
        } else {
            proof {
                if has_move(board@, *team, hand@[i as int]) {
                    let s = choose|s: Square| #[trigger]
                        placement_error(board@, *team, hand@[i as int], s) is None;
                    assert(squares@.contains(s));
                }
            }
        }
        i += 1;
    }
    places
}

impl Player for RandomPlayer {
    /// Plays a card chosen at random among those in the hand that have a
    /// move within the rules, on a square chosen at random among those where
    /// the card may go. Where no card has such a move, the answer is the
    /// length of the hand and the first corner, which is no move at all.
    fn play(&self, team: &Team, hand: &[Card], board: &Board, deck: &Deck) -> (choice: (
        u8,
        Square,
    ))
        ensures
            has_legal_move(board@, *team, hand@) ==> choice.0 < hand@.len() && placement_error(
                board@,
                *team,
                hand@[choice.0 as int],
                choice.1,
            ) is None,
            !has_legal_move(board@, *team, hand@) ==> choice.0 == hand@.len() && choice.1 == (
            Square { row: 0, col: 0 }),
    {
        let no_move = (hand.len() as u8, Square { row: 0, col: 0 });
        let places = cards_with_a_move(board, team, hand);
        let at = match choose_index(places.len()) {
            Some(k) => places[k],
            None => {
                return no_move;
            },
        };
        let squares = legal_squares(board, team, &hand[at]);
        match pick_square(&squares) {
            Some(square) => (at as u8, square),
            None => {
                proof {
                    let s = choose|s: Square| #[trigger]
                        placement_error(board@, *team, hand@[at as int], s) is None;
                    assert(squares@.contains(s));
                }
                no_move
            },
        }
    }
}

} // verus!
