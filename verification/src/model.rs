//! The mathematical model of a board: which card each square bears, which team
//! has claimed it, and which runs of chips have been recorded as sequences.
//! Everything here is specification; `Board` is the executable counterpart.

use vstd::prelude::*;

use crate::card::Card;
use crate::square::Square;
use crate::team::Team;

verus! {

/// Number of squares in line, corners included, that make a sequence.
pub const SEQUENCE_LENGTH: u8 = 5;

/// Number of squares that can hold a chip.
pub const NUM_PLAYABLE_SQUARES: u8 = 96;

/// The four lines through a square, as row and column steps: along the row,
/// down the falling diagonal, along the column, down the rising diagonal.
pub const DIRECTIONS: [(i8, i8); 4] = [(0i8, 1i8), (1i8, 1i8), (1i8, 0i8), (1i8, -1i8)];

/// A recorded sequence as a value: its owner and the chipped squares it
/// protects, the placed chip first, then the squares met going forward, then
/// those met going backward.
pub struct SequenceView {
    pub team: Team,
    pub squares: Seq<Square>,
}

/// The abstract state of a board.
pub struct BoardView {
    /// The card printed on each playable square.
    pub cards: Map<Square, Card>,
    /// The owner of each chip on the board.
    pub chips: Map<Square, Team>,
    /// The sequences recorded so far, oldest first.
    pub sequences: Seq<SequenceView>,
}

/// The square `k` steps from `src` along line `d`; a negative `k` goes backward.
pub open spec fn neighbor(src: Square, d: int, k: int) -> Square {
    if d == 0 {
        src.shifted(0, k)
    } else if d == 1 {
        src.shifted(k, k)
    } else if d == 2 {
        src.shifted(k, 0)
    } else {
        src.shifted(k, -k)
    }
}

/// The `i`-th square of one arm of line `d` through `src`.
pub open spec fn cell(src: Square, d: int, forward: bool, i: int) -> Square {
    neighbor(
        src,
        d,
        if forward {
            i
        } else {
            -i
        },
    )
}

/// The first `n` squares of an arm that are not corners, nearest first.
pub open spec fn arm_squares(src: Square, d: int, forward: bool, n: int) -> Seq<Square>
    decreases n,
{
    if n <= 0 {
        Seq::empty()
    } else {
        let nearer = arm_squares(src, d, forward, n - 1);
        let q = cell(src, d, forward, n);
        if q.corner() {
            nearer
        } else {
            nearer.push(q)
        }
    }
}

/// All squares on the board.
pub open spec fn valid_squares() -> Set<Square> {
    Set::new(|s: Square| s.valid())
}

/// All squares that can hold a chip.
pub open spec fn playable_squares() -> Set<Square> {
    Set::new(|s: Square| s.playable())
}

impl BoardView {
    pub open spec fn card_at(self, s: Square) -> Option<Card> {
        if self.cards.dom().contains(s) {
            Some(self.cards[s])
        } else {
            None
        }
    }

    pub open spec fn chip_at(self, s: Square) -> Option<Team> {
        if self.chips.dom().contains(s) {
            Some(self.chips[s])
        } else {
            None
        }
    }

    /// A square counts toward a team's runs if it is a corner or holds the team's chip.
    pub open spec fn counts_for(self, s: Square, team: Team) -> bool {
        s.corner() || self.chip_at(s) == Some(team)
    }

    /// A square is protected once some recorded sequence holds it.
    pub open spec fn protected(self, s: Square) -> bool {
        exists|i: int| 0 <= i < self.sequences.len() && (#[trigger] self.sequences[i]).squares.contains(s)
    }

    /// The squares that bear a given card.
    pub open spec fn bearing(self, card: Card) -> Set<Square> {
        Set::new(|s: Square| self.card_at(s) == Some(card))
    }

    /// The squares chipped by a given team.
    pub open spec fn owned_by(self, team: Team) -> Set<Square> {
        Set::new(|s: Square| self.chip_at(s) == Some(team))
    }

    pub open spec fn num_chips(self) -> nat {
        self.chips.dom().len()
    }

    pub open spec fn is_full(self) -> bool {
        forall|s: Square| s.playable() ==> self.chips.dom().contains(s)
    }

    pub open spec fn is_empty(self) -> bool {
        forall|s: Square| !self.chips.dom().contains(s)
    }

    /// A card is dead when it is no jack and every square that bears it is chipped.
    pub open spec fn is_dead(self, card: Card) -> bool {
        !card.jack() && forall|s: Square| #[trigger]
            self.card_at(s) == Some(card) ==> self.chips.dom().contains(s)
    }

    /// Whether a card has any use on this board. The team plays no part in the rule.
    pub open spec fn can_be_played(self, card: Card, team: Team) -> bool {
        if card.one_eyed_jack() {
            !self.is_empty()
        } else if card.two_eyed_jack() {
            !self.is_full()
        } else {
            !self.is_dead(card)
        }
    }

    /// Number of recorded sequences that a team owns.
    pub open spec fn sequence_count(self, team: Team) -> nat {
        self.sequences.filter(|q: SequenceView| q.team == team).len()
    }

    /// The invariants of every board: exactly the playable squares bear a card,
    /// only playable squares hold chips, every square of a recorded sequence
    /// holds a chip of the sequence's owner, and no sequence lists a square
    /// twice.
    pub open spec fn wf(self) -> bool {
        &&& forall|s: Square|
            #![trigger self.cards.dom().contains(s)]
            #![trigger s.playable()]
            self.cards.dom().contains(s) <==> s.playable()
        &&& forall|s: Square| #[trigger] self.chips.dom().contains(s) ==> s.playable()
        &&& forall|i: int, s: Square|
            0 <= i < self.sequences.len() && #[trigger] self.sequences[i].squares.contains(s)
                ==> self.chip_at(s) == Some(self.sequences[i].team)
        &&& forall|i: int|
            0 <= i < self.sequences.len() ==> (#[trigger] self.sequences[i]).squares.no_duplicates()
    }

    /// The `i`-th square of an arm lies on the board and counts for the team.
    pub open spec fn extends(self, src: Square, d: int, forward: bool, i: int, team: Team) -> bool {
        cell(src, d, forward, i).valid() && self.counts_for(cell(src, d, forward, i), team)
    }

    /// The `i`-th square of an arm already belongs to a recorded sequence.
    pub open spec fn overlap(self, src: Square, d: int, forward: bool, i: int) -> bool {
        self.protected(cell(src, d, forward, i))
    }

    /// Some square among the first `n` of an arm belongs to a recorded sequence.
    pub open spec fn touches(self, src: Square, d: int, forward: bool, n: int) -> bool {
        exists|i: int| 1 <= i <= n && #[trigger] self.overlap(src, d, forward, i)
    }

    /// The first `n` squares of an arm can all join a run: each lies on the
    /// board and counts for the team, and at most one of them is protected,
    /// none if the run has `used` its one overlap already.
    pub open spec fn admits(
        self,
        src: Square,
        d: int,
        forward: bool,
        team: Team,
        n: int,
        used: bool,
    ) -> bool {
        &&& forall|i: int| 1 <= i <= n ==> #[trigger] self.extends(src, d, forward, i, team)
        &&& forall|i: int, j: int|
            1 <= i < j <= n ==> !(#[trigger] self.overlap(src, d, forward, i)
                && #[trigger] self.overlap(src, d, forward, j))
        &&& used ==> forall|i: int| 1 <= i <= n ==> !#[trigger] self.overlap(src, d, forward, i)
    }

    /// How many squares a scan takes along one arm: the most, up to four, that
    /// the arm admits.
    pub open spec fn reach(self, src: Square, d: int, forward: bool, team: Team, used: bool) -> int {
        if self.admits(src, d, forward, team, 4, used) {
            4
        } else if self.admits(src, d, forward, team, 3, used) {
            3
        } else if self.admits(src, d, forward, team, 2, used) {
            2
        } else if self.admits(src, d, forward, team, 1, used) {
            1
        } else {
            0
        }
    }

    /// Squares taken going forward from `src` along line `d`.
    pub open spec fn forward_reach(self, src: Square, d: int, team: Team) -> int {
        self.reach(src, d, true, team, false)
    }

    /// Squares taken going backward, after the forward arm has had its turn at
    /// the one permitted overlap.
    pub open spec fn backward_reach(self, src: Square, d: int, team: Team) -> int {
        self.reach(
            src,
            d,
            false,
            team,
            self.touches(src, d, true, self.forward_reach(src, d, team)),
        )
    }

    /// Length of the run through `src` along line `d`, corners included.
    pub open spec fn run_length(self, src: Square, d: int, team: Team) -> int {
        1 + self.forward_reach(src, d, team) + self.backward_reach(src, d, team)
    }

    /// The chipped squares of the run through `src` along line `d`.
    pub open spec fn run_squares(self, src: Square, d: int, team: Team) -> Seq<Square> {
        seq![src] + arm_squares(src, d, true, self.forward_reach(src, d, team)) + arm_squares(
            src,
            d,
            false,
            self.backward_reach(src, d, team),
        )
    }

    /// The run through `src` along line `d` is long enough to be recorded.
    pub open spec fn completes(self, src: Square, d: int, team: Team) -> bool {
        self.run_length(src, d, team) >= SEQUENCE_LENGTH
    }

    /// The recorded sequences after the first `n` lines through `src` have been
    /// searched, in the order of `DIRECTIONS`. Every run is measured on `self`,
    /// the board as it stands once the chip is down and before anything new is
    /// recorded.
    pub open spec fn recorded_after(self, src: Square, team: Team, n: int) -> Seq<SequenceView>
        decreases n,
    {
        if n <= 0 {
            self.sequences
        } else {
            let earlier = self.recorded_after(src, team, n - 1);
            if self.completes(src, n - 1, team) {
                earlier.push(
                    SequenceView { team, squares: self.run_squares(src, n - 1, team) },
                )
            } else {
                earlier
            }
        }
    }

    /// Some line through `src` holds a run long enough to be recorded.
    pub open spec fn completes_any(self, src: Square, team: Team) -> bool {
        exists|d: int| 0 <= d < 4 && #[trigger] self.completes(src, d, team)
    }

    /// The board with a chip of `team` on `s` and nothing else changed.
    pub open spec fn with_chip(self, s: Square, team: Team) -> BoardView {
        BoardView { chips: self.chips.insert(s, team), ..self }
    }

    /// The board after `team` has claimed `s`: the chip is down and every run
    /// that it completes is recorded.
    pub open spec fn after_add(self, s: Square, team: Team) -> BoardView {
        let placed = self.with_chip(s, team);
        BoardView { sequences: placed.recorded_after(s, team, 4), ..placed }
    }

    /// The board after the chip on `s` has been taken away.
    pub open spec fn after_remove(self, s: Square) -> BoardView {
        BoardView { chips: self.chips.remove(s), ..self }
    }

    /// A chip may be put on `s`: the square is playable and empty.
    pub open spec fn can_add(self, s: Square) -> bool {
        s.playable() && self.chip_at(s) is None
    }

    /// The chip on `s` may be taken away: the square is playable, holds a
    /// chip, and no sequence protects it.
    pub open spec fn can_remove(self, s: Square) -> bool {
        s.playable() && self.chip_at(s) is Some && !self.protected(s)
    }
}

} // verus!
