//! The decisions that a player makes for the game.

use vstd::prelude::*;

use crate::board::Board;
use crate::card::Card;
use crate::deck::Deck;
use crate::model::BoardView;
use crate::square::Square;
use crate::team::Team;

verus! {

/// The most cards that a hand can hold.
pub const MAX_HAND_SIZE: usize = 7;

/// Some card of the hand can be played on the board.
pub open spec fn holds_playable_card(board: BoardView, hand: Seq<Card>, team: Team) -> bool {
    exists|i: int| 0 <= i < hand.len() && board.can_be_played(#[trigger] hand[i], team)
}

/// Some card of the hand is dead on the board.
pub open spec fn holds_dead_card(board: BoardView, hand: Seq<Card>) -> bool {
    exists|i: int| 0 <= i < hand.len() && board.is_dead(#[trigger] hand[i])
}

/// The place of the first dead card in the hand, if it holds one.
pub open spec fn first_dead(board: BoardView, hand: Seq<Card>) -> Option<int> {
    if holds_dead_card(board, hand) {
        Some(
            choose|i: int|
                0 <= i < hand.len() && board.is_dead(hand[i]) && forall|j: int|
                    0 <= j < i ==> !board.is_dead(#[trigger] hand[j]),
        )
    } else {
        None
    }
}

/// A player decides which card to play where. The game checks every answer
/// against the rules, so an implementation promises nothing; it may rely on
/// the board being consistent and, when asked for a move, on holding a card
/// that can be played.
pub trait Player {
    /// Picks a card of the hand, by its place, and the square to play it on.
    /// An ordinary card claims a square that bears it, a two-eyed jack claims
    /// any empty square, and a one-eyed jack takes an unprotected chip of
    /// another team off its square.
    fn play(&self, team: &Team, hand: &[Card], board: &Board, deck: &Deck) -> (choice: (
        u8,
        Square,
    ))
        requires
            board.wf(),
            hand@.len() <= MAX_HAND_SIZE,
            holds_playable_card(board@, hand@, *team),
    ;

    /// Picks a dead card of the hand to trade for a new one, by its place, or
    /// declines. Unless an implementation decides otherwise, the first dead
    /// card goes.
    fn replace_dead_card(&self, board: &Board, hand: &[Card]) -> (choice: Option<usize>)
        requires
            board.wf(),
        default_ensures
            choice matches Some(i) ==> first_dead(board@, hand@) == Some(i as int),
            choice is None ==> first_dead(board@, hand@) is None,
    {
        first_dead_card(board, hand)
    }
}

/// The place of the first dead card in a hand.
pub fn first_dead_card(board: &Board, hand: &[Card]) -> (found: Option<usize>)
    requires
        board.wf(),
    ensures
        found matches Some(i) ==> first_dead(board@, hand@) == Some(i as int),
        found is None ==> first_dead(board@, hand@) is None,
        found matches Some(i) ==> i < hand@.len() && board@.is_dead(hand@[i as int]),
        found is None ==> !holds_dead_card(board@, hand@),
{
    let mut i: usize = 0;
    while i < hand.len()
        invariant
            board.wf(),
            i <= hand@.len(),
            forall|j: int| 0 <= j < i ==> !board@.is_dead(#[trigger] hand@[j]),
        decreases hand@.len() - i,
    {
        if board.is_dead(&hand[i]) {
            proof {
                lemma_first_dead_is(board@, hand@, i as int);
            }
            return Some(i);
        }
        i += 1;
    }
    None
}

/// Whether a hand holds a card that can be played.
pub fn has_playable_card(board: &Board, hand: &[Card], team: &Team) -> (found: bool)
    requires
        board.wf(),
    ensures
        found == holds_playable_card(board@, hand@, *team),
{
    let mut i: usize = 0;
    while i < hand.len()
        invariant
            board.wf(),
            i <= hand@.len(),
            forall|j: int| 0 <= j < i ==> !board@.can_be_played(#[trigger] hand@[j], *team),
        decreases hand@.len() - i,
    {
        if board.can_be_played(&hand[i], team) {
            return true;
        }
        i += 1;
    }
    false
}

/// The first dead card of a hand is the one with no dead card before it.
pub proof fn lemma_first_dead_is(board: BoardView, hand: Seq<Card>, i: int)
    requires
        0 <= i < hand.len(),
        board.is_dead(hand[i]),
        forall|j: int| 0 <= j < i ==> !board.is_dead(#[trigger] hand[j]),
    ensures
        first_dead(board, hand) == Some(i),
{
}

} // verus!
