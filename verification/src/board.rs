//! The board: the card layout, the chips on it, the recorded sequences, and
//! the indexes that answer questions about them quickly.

use vstd::prelude::*;

use crate::card::{lemma_card_ordinal_roundtrip, Card};
use crate::counting::lemma_playable_subset;
use crate::model::{
    arm_squares, BoardView, SequenceView, NUM_PLAYABLE_SQUARES, SEQUENCE_LENGTH,
};
use crate::grid_traversal::arm_square;
use crate::runs::{
    lemma_admits_no_more, lemma_admits_one_more, lemma_line_unaffected,
    lemma_reach_bounds, lemma_reach_is, lemma_run_squares_distinct, lemma_run_squares_members,
    searched,
};
use crate::square::{lemma_flat_is_injective, row_major, Square, BOARD_SIZE};
use crate::team::Team;
use crate::util::{generate_vector, lemma_push_contains, Wrapper};

verus! {

/// A completed run of chips, locked for the rest of the game.
pub struct Sequence {
    pub team: Team,
    pub squares: Vec<Square>,
}

impl View for Sequence {
    type V = SequenceView;

    open spec fn view(&self) -> SequenceView {
        SequenceView { team: self.team, squares: self.squares@ }
    }
}

/// The card that a layout prints on a square; nothing off the board.
pub open spec fn layout_card(cards: [[Option<Card>; 10]; 10], s: Square) -> Option<Card> {
    if s.valid() {
        cards@[s.row as int]@[s.col as int]
    } else {
        None
    }
}

/// A layout is complete when it prints a card on every playable square and
/// leaves the corners blank.
pub open spec fn layout_complete(cards: [[Option<Card>; 10]; 10]) -> bool {
    forall|s: Square| s.valid() ==> (#[trigger] layout_card(cards, s) is Some <==> s.playable())
}

pub struct Board {
    cards: [[Option<Card>; 10]; 10],
    chips: [[Option<Team>; 10]; 10],
    // for each card, by its position in a fresh deck, the squares that bear it
    card_to_squares: Vec<Vec<Square>>,
    // for each team, by its position, the squares it has claimed
    team_to_squares: Vec<Vec<Square>>,
    // the completed sequences, oldest first
    sequences: Vec<Sequence>,
    // whether a square belongs to some completed sequence
    squares_in_sequence: [[bool; 10]; 10],
    // number of chips on the board
    num_chips: u8,
}

impl View for Board {
    type V = BoardView;

    closed spec fn view(&self) -> BoardView {
        BoardView {
            cards: Map::new(
                |s: Square| layout_card(self.cards, s) is Some,
                |s: Square| layout_card(self.cards, s).unwrap(),
            ),
            chips: Map::new(
                |s: Square| s.valid() && self.chips@[s.row as int]@[s.col as int] is Some,
                |s: Square| self.chips@[s.row as int]@[s.col as int].unwrap(),
            ),
            sequences: self.sequences@.map_values(|q: Sequence| q@),
        }
    }
}

impl Board {
    /// The list kept for each card holds exactly the squares that bear it.
    spec fn card_index_ok(&self) -> bool {
        &&& self.card_to_squares@.len() == 52
        &&& forall|k: int, s: Square|
            0 <= k < 52 ==> (#[trigger] self.card_to_squares@[k]@.contains(s) <==> self@.card_at(s)
                == Some(Card::at(k)))
        &&& forall|k: int| 0 <= k < 52 ==> row_major(#[trigger] self.card_to_squares@[k]@)
    }

    /// The list kept for each team holds exactly the squares that it has claimed.
    spec fn team_index_ok(&self) -> bool {
        &&& self.team_to_squares@.len() == 3
        &&& forall|t: int, s: Square|
            0 <= t < 3 ==> (#[trigger] self.team_to_squares@[t]@.contains(s) <==> self@.chip_at(s)
                == Some(Team::at(t)))
        &&& forall|t: int| 0 <= t < 3 ==> (#[trigger] self.team_to_squares@[t]@).no_duplicates()
    }

    /// The protection marks agree with the recorded sequences.
    spec fn marks_ok(&self) -> bool {
        forall|s: Square|
            s.valid() ==> self.squares_in_sequence@[s.row as int]@[s.col as int]
                == #[trigger] self@.protected(s)
    }

    /// The board's state is consistent: the model's invariants hold, and the
    /// card index, the team index, the protection marks and the chip counter
    /// all say what the grid says.
    pub closed spec fn wf(&self) -> bool {
        &&& self@.wf()
        &&& self.card_index_ok()
        &&& self.team_index_ok()
        &&& self.marks_ok()
        &&& self.num_chips == self@.num_chips()
    }

    /// A consistent board follows the model's invariants, and its chip
    /// counter fits the number of playable squares.
    pub proof fn lemma_wf_view(&self)
        requires
            self.wf(),
        ensures
            self@.wf(),
            self@.chips.dom().finite(),
            self@.num_chips() <= NUM_PLAYABLE_SQUARES,
    {
        lemma_playable_subset(self@.chips.dom());
    }

    /// A board with the given card layout and no chips on it.
    pub fn new(cards: [[Option<Card>; 10]; 10]) -> (board: Board)
        requires
            layout_complete(cards),
        ensures
            board.wf(),
            forall|s: Square| board@.card_at(s) == layout_card(cards, s),
            board@.chips == Map::<Square, Team>::empty(),
            board@.sequences == Seq::<SequenceView>::empty(),
    {
        let mut card_to_squares: Vec<Vec<Square>> = generate_vector(52, no_squares);
        for row in 0..BOARD_SIZE
            invariant
                card_to_squares@.len() == 52,
                forall|k: int, s: Square|
                    0 <= k < 52 ==> (#[trigger] card_to_squares@[k]@.contains(s) <==> s.flat() < row
                        * 10 && layout_card(cards, s) == Some(Card::at(k))),
                forall|k: int| 0 <= k < 52 ==> row_major(#[trigger] card_to_squares@[k]@),
        {
            for col in 0..BOARD_SIZE
                invariant
                    row < BOARD_SIZE,
                    card_to_squares@.len() == 52,
                    forall|k: int, s: Square|
                        0 <= k < 52 ==> (#[trigger] card_to_squares@[k]@.contains(s) <==> s.flat()
                            < row * 10 + col && layout_card(cards, s) == Some(Card::at(k))),
                    forall|k: int| 0 <= k < 52 ==> row_major(#[trigger] card_to_squares@[k]@),
            {
                let square = Square { row, col };
                if let Some(card) = cards[row as usize][col as usize] {
                    let ghost before = card_to_squares@;
                    let at = card.index();
                    card_to_squares[at].push(square);
                    proof {
                        lemma_card_ordinal_roundtrip(card);
                        assert forall|k: int, s: Square| 0 <= k < 52 implies (
                        #[trigger] card_to_squares@[k]@.contains(s) <==> s.flat() < row * 10 + col
                            + 1 && layout_card(cards, s) == Some(Card::at(k))) by {
                            if s.valid() {
                                lemma_flat_is_injective(s, square);
                            }
                            if k == at {
                                lemma_push_contains(before[k]@, square, s);
                            } else {
                                lemma_card_at_ordinal(k);
                            }
                        }
                        assert forall|k: int| 0 <= k < 52 implies row_major(
                            #[trigger] card_to_squares@[k]@,
                        ) by {
                            if k == at {
                                let list = before[k]@;
                                assert forall|i: int| 0 <= i < list.len() implies list[i].flat()
                                    < square.flat() by {
                                    assert(list.contains(list[i]));
                                }
                            }
                        }
                    }
                } else {
                    proof {
                        assert forall|k: int, s: Square| 0 <= k < 52 implies (
                        #[trigger] card_to_squares@[k]@.contains(s) <==> s.flat() < row * 10 + col
                            + 1 && layout_card(cards, s) == Some(Card::at(k))) by {
                            if s.valid() {
                                lemma_flat_is_injective(s, square);
                            }
                        }
                    }
                }
            }
        }
        let team_to_squares: Vec<Vec<Square>> = generate_vector(3, no_squares);
        let chips = blank_chips();
        let squares_in_sequence = blank_marks();
        let board = Board {
            cards,
            chips,
            card_to_squares,
            team_to_squares,
            sequences: Vec::new(),
            squares_in_sequence,
            num_chips: 0,
        };
        proof {
            assert(board@.chips =~= Map::<Square, Team>::empty());
        }
        board
    }

    /// The card printed on a square; none on a corner.
    pub fn card_at(&self, square: &Square) -> (card: Option<Card>)
        requires
            square.valid(),
        ensures
            card == self@.card_at(*square),
    {
        self.cards[square.row as usize][square.col as usize]
    }

    /// The team whose chip lies on a square, if any.
    pub fn chip_at(&self, square: &Square) -> (chip: Option<Team>)
        requires
            square.valid(),
        ensures
            chip == self@.chip_at(*square),
    {
        self.chips[square.row as usize][square.col as usize]
    }

    /// Number of chips on the board.
    pub fn num_chips(&self) -> (n: u8)
        requires
            self.wf(),
        ensures
            n == self@.num_chips(),
            n <= NUM_PLAYABLE_SQUARES,
    {
        proof {
            lemma_playable_subset(self@.chips.dom());
        }
        self.num_chips
    }

    /// Whether every playable square holds a chip.
    pub fn is_full(&self) -> (full: bool)
        requires
            self.wf(),
        ensures
            full == self@.is_full(),
    {
        proof {
            lemma_playable_subset(self@.chips.dom());
        }
        self.num_chips == NUM_PLAYABLE_SQUARES
    }

    /// Whether no square holds a chip.
    pub fn is_empty(&self) -> (empty: bool)
        requires
            self.wf(),
        ensures
            empty == self@.is_empty(),
    {
        proof {
            lemma_playable_subset(self@.chips.dom());
        }
        self.num_chips == 0
    }

    /// The squares that bear a card, read row by row; none for a jack.
    pub fn squares_for_card(&self, card: &Card) -> (squares: Vec<Square>)
        requires
            self.wf(),
        ensures
            row_major(squares@),
            forall|s: Square| squares@.contains(s) <==> self@.bearing(*card).contains(s),
    {
        proof {
            lemma_card_ordinal_roundtrip(*card);
        }
        copy_squares(&self.card_to_squares[card.index()])
    }

    /// The squares that bear a card and hold no chip yet, read row by row;
    /// none for a jack.
    pub fn unoccupied_squares_for_card(&self, card: &Card) -> (squares: Vec<Square>)
        requires
            self.wf(),
        ensures
            row_major(squares@),
            forall|s: Square|
                #[trigger] squares@.contains(s) <==> self@.card_at(s) == Some(*card)
                    && self@.chip_at(s) is None,
    {
        proof {
            lemma_card_ordinal_roundtrip(*card);
        }
        let bearing = &self.card_to_squares[card.index()];
        let mut squares: Vec<Square> = Vec::new();
        let mut i: usize = 0;
        while i < bearing.len()
            invariant
                self.wf(),
                0 <= card.ordinal() < 52,
                Card::at(card.ordinal()) == *card,
                bearing@ == self.card_to_squares@[card.ordinal()]@,
                i <= bearing@.len(),
                row_major(squares@),
                forall|s: Square|
                    #[trigger] squares@.contains(s) <==> self@.chip_at(s) is None && exists|j: int|
                        0 <= j < i && bearing@[j] == s,
            decreases bearing@.len() - i,
        {
            let square = bearing[i];
            assert(bearing@.contains(square));
            let ghost before = squares@;
            if self.chip_at(&square).is_none() {
                squares.push(square);
                proof {
                    assert forall|s: Square| #[trigger]
                        squares@.contains(s) <==> self@.chip_at(s) is None && exists|j: int|
                            0 <= j < i + 1 && bearing@[j] == s by {
                        lemma_push_contains(before, square, s);
                    }
                    assert forall|k: int| 0 <= k < before.len() implies before[k].flat()
                        < square.flat() by {
                        assert(before.contains(before[k]));
                    }
                }
            }
            i += 1;
        }
        proof {
            assert forall|s: Square| #[trigger]
                squares@.contains(s) <==> self@.card_at(s) == Some(*card) && self@.chip_at(s)
                    is None by {
                if squares@.contains(s) {
                    assert(bearing@.contains(s));
                }
                if self@.card_at(s) == Some(*card) && self@.chip_at(s) is None {
                    assert(bearing@.contains(s));
                }
            }
        }
        squares
    }

    /// The squares that a team has claimed, each once, in no particular order.
    pub fn squares_owned_by(&self, team: &Team) -> (squares: Vec<Square>)
        requires
            self.wf(),
        ensures
            squares@.no_duplicates(),
            forall|s: Square| squares@.contains(s) <==> self@.owned_by(*team).contains(s),
    {
        copy_squares(&self.team_to_squares[team.index()])
    }

    /// Whether a card is dead: no jack, and a chip on every square that bears it.
    pub fn is_dead(&self, card: &Card) -> (dead: bool)
        requires
            self.wf(),
        ensures
            dead == self@.is_dead(*card),
    {
        if card.is_jack() {
            return false;
        }
        proof {
            lemma_card_ordinal_roundtrip(*card);
        }
        let squares = &self.card_to_squares[card.index()];
        let mut i: usize = 0;
        while i < squares.len()
            invariant
                self.wf(),
                squares@ == self.card_to_squares@[card.ordinal()]@,
                0 <= card.ordinal() < 52,
                Card::at(card.ordinal()) == *card,
                i <= squares@.len(),
                forall|j: int| 0 <= j < i ==> self@.chips.dom().contains(#[trigger] squares@[j]),
            decreases squares@.len() - i,
        {
            let square = squares[i];
            assert(squares@.contains(square));
            if self.chip_at(&square).is_none() {
                return false;
            }
            i += 1;
        }
        proof {
            assert forall|s: Square| #[trigger] self@.card_at(s) == Some(*card) implies self@.chips.dom().contains(s) by {
                assert(squares@.contains(s));
            }
        }
        true
    }

    /// Whether a card has any use: a one-eyed jack needs a chip on the board, a
    /// two-eyed jack needs an empty square, and any other card must not be dead.
    pub fn can_be_played(&self, card: &Card, team: &Team) -> (playable: bool)
        requires
            self.wf(),
        ensures
            playable == self@.can_be_played(*card, *team),
    {
        if card.is_one_eyed_jack() {
            !self.is_empty()
        } else if card.is_two_eyed_jack() {
            !self.is_full()
        } else {
            !self.is_dead(card)
        }
    }

    /// Whether a square counts toward a team's runs: it is a corner, or the
    /// team has a chip on it.
    pub fn counts_for(&self, square: &Square, team: &Team) -> (counts: bool)
        requires
            square.valid(),
        ensures
            counts == self@.counts_for(*square, *team),
    {
        square.is_corner() || self.chip_at(square).wraps(team)
    }

    /// Whether a completed sequence protects the chip on a square.
    pub fn in_sequence(&self, square: &Square) -> (protected: bool)
        requires
            self.wf(),
            square.valid(),
        ensures
            protected == self@.protected(*square),
    {
        self.squares_in_sequence[square.row as usize][square.col as usize]
    }

    /// Takes the chip off a square. The square must be playable, hold a chip,
    /// and lie outside every completed sequence.
    pub fn remove_chip(&mut self, square: &Square)
        requires
            old(self).wf(),
            old(self)@.can_remove(*square),
        ensures
            final(self).wf(),
            final(self)@ == old(self)@.after_remove(*square),
    {
        let ghost before = *self;
        proof {
            lemma_playable_subset(self@.chips.dom());
        }
        let team = match self.chips[square.row as usize][square.col as usize] {
            Some(team) => team,
            None => Team::One,
        };
        self.chips[square.row as usize][square.col as usize] = None;
        self.num_chips -= 1;
        drop_square(&mut self.team_to_squares[team.index()], square);
        proof {
            assert(self@.chips =~= before@.chips.remove(*square));
            assert(self.marks_ok()) by {
                assert forall|s: Square| s.valid() implies self.squares_in_sequence@[s.row as int]@[s.col as int]
                    == #[trigger] self@.protected(s) by {
                    assert(before@.protected(s) == self@.protected(s));
                }
            }
        }
    }

    /// Puts a chip of `team` on a square, then records every run of five or
    /// more that the chip completes. Returns how many sequences the team owns
    /// if the chip completed at least one, and nothing otherwise. The square
    /// must be playable and empty.
    pub fn add_chip(&mut self, square: &Square, team: Team) -> (count: Option<usize>)
        requires
            old(self).wf(),
            old(self)@.can_add(*square),
        ensures
            final(self).wf(),
            final(self)@ == old(self)@.after_add(*square, team),
            count is Some <==> old(self)@.with_chip(*square, team).completes_any(*square, team),
            count matches Some(owned) ==> owned == final(self)@.sequence_count(team),
    {
        let ghost before = *self;
        proof {
            lemma_playable_subset(self@.chips.dom());
        }
        self.chips[square.row as usize][square.col as usize] = Some(team);
        self.num_chips += 1;
        self.team_to_squares[team.index()].push(*square);
        proof {
            assert(self@.chips =~= before@.chips.insert(*square, team));
            assert(self.team_index_ok()) by {
                let list = before.team_to_squares@[team.ordinal()]@;
                assert forall|t: int, s: Square| 0 <= t < 3 implies (
                #[trigger] self.team_to_squares@[t]@.contains(s) <==> self@.chip_at(s) == Some(
                    Team::at(t),
                )) by {
                    if t == team.ordinal() {
                        lemma_push_contains(list, *square, s);
                    }
                }
                assert forall|t: int| 0 <= t < 3 implies (
                #[trigger] self.team_to_squares@[t]@).no_duplicates() by {
                    if t == team.ordinal() {
                        assert(!list.contains(*square));
                    }
                }
            }
            assert(self.marks_ok()) by {
                assert forall|s: Square| s.valid() implies self.squares_in_sequence@[s.row as int]@[s.col as int]
                    == #[trigger] self@.protected(s) by {
                    assert(before@.protected(s) == self@.protected(s));
                }
            }
        }
        self.find_new_sequences(square, team)
    }

    /// Searches the four lines through a freshly chipped square for runs of
    /// five or more and records each one found. Returns how many sequences
    /// the team owns if any was recorded.
    fn find_new_sequences(&mut self, source: &Square, team: Team) -> (count: Option<usize>)
        requires
            old(self).wf(),
            source.playable(),
            old(self)@.chip_at(*source) == Some(team),
        ensures
            final(self).wf(),
            final(self)@ == searched(old(self)@, *source, team, 4),
            count is Some <==> old(self)@.completes_any(*source, team),
            count matches Some(owned) ==> owned == final(self)@.sequence_count(team),
    {
        let ghost start = self@;
        let mut added_sequence = false;
        for d in 0..4usize
            invariant
                self.wf(),
                start.wf(),
                source.playable(),
                start.chip_at(*source) == Some(team),
                self@ == searched(start, *source, team, d as int),
                added_sequence == exists|e: int|
                    0 <= e < d && #[trigger] start.completes(*source, e, team),
        {
            let ghost line = d as int;
            let mut squares: Vec<Square> = Vec::new();
            squares.push(*source);
            let (ahead, overlap) = self.scan_arm(source, d, true, team, false, &mut squares);
            let (behind, _) = self.scan_arm(source, d, false, team, overlap, &mut squares);
            proof {
                lemma_line_unaffected(start, *source, team, line, line);
                lemma_reach_bounds(start, *source, line, true, team, false);
            }
            if 1 + ahead + behind >= SEQUENCE_LENGTH {
                proof {
                    assert forall|i: int| 0 <= i < squares@.len() implies squares@[i].valid()
                        && self@.chip_at(squares@[i]) == Some(team) by {
                        let q = squares@[i];
                        lemma_run_squares_members(start, *source, line, team, q);
                    }
                    lemma_run_squares_distinct(start, *source, line, team);
                }
                self.record(team, squares);
                added_sequence = true;
            }
            proof {
                assert(self@ == searched(start, *source, team, line + 1));
            }
        }
        if added_sequence {
            Some(self.count_sequences(&team))
        } else {
            None
        }
    }

    /// Walks one arm of line `d` from `source`, at most four squares far. A
    /// square joins the run if it lies on the board and counts for the team;
    /// the first square met that is already protected may join, a second one
    /// ends the walk. Squares that join, corners left out, are added to
    /// `squares`. Returns how many squares joined and whether the run has now
    /// met a protected square.
    fn scan_arm(
        &self,
        source: &Square,
        d: usize,
        forward: bool,
        team: Team,
        used: bool,
        squares: &mut Vec<Square>,
    ) -> (found: (u8, bool))
        requires
            self.wf(),
            source.valid(),
            d < 4,
        ensures
            found.0 == self@.reach(*source, d as int, forward, team, used),
            found.1 == (used || self@.touches(*source, d as int, forward, found.0 as int)),
            final(squares)@ == old(squares)@ + arm_squares(
                *source,
                d as int,
                forward,
                found.0 as int,
            ),
    {
        let ghost line = d as int;
        let ghost given = squares@;
        let mut overlap = used;
        let mut taken: u8 = 0;
        let mut open = true;
        while open && taken < SEQUENCE_LENGTH - 1
            invariant
                self.wf(),
                source.valid(),
                line == d,
                d < 4,
                taken <= 4,
                self@.admits(*source, line, forward, team, taken as int, used),
                overlap == (used || self@.touches(*source, line, forward, taken as int)),
                !open ==> taken < 4 && !self@.admits(
                    *source,
                    line,
                    forward,
                    team,
                    taken + 1,
                    used,
                ),
                squares@ == given + arm_squares(*source, line, forward, taken as int),
            decreases
                    (4 - taken) + (if open {
                        1int
                    } else {
                        0int
                    }),
        {
            let square = arm_square(source, d, forward, taken + 1);
            let joins = square.is_valid() && self.counts_for(&square, &team);
            let protected = joins && self.in_sequence(&square);
            if joins && !(protected && overlap) {
                proof {
                    lemma_admits_one_more(
                        self@,
                        *source,
                        line,
                        forward,
                        team,
                        taken as int,
                        used,
                    );
                }
                if protected {
                    overlap = true;
                }
                taken += 1;
                if !square.is_corner() {
                    squares.push(square);
                }
            } else {
                open = false;
                proof {
                    lemma_admits_no_more(self@, *source, line, forward, team, taken as int, used);
                }
            }
        }
        proof {
            lemma_reach_is(self@, *source, line, forward, team, used, taken as int);
        }
        (taken, overlap)
    }

    /// Records a completed run: marks its squares as protected and appends it
    /// to the list of sequences.
    fn record(&mut self, team: Team, squares: Vec<Square>)
        requires
            old(self).wf(),
            forall|i: int|
                0 <= i < squares@.len() ==> (#[trigger] squares@[i]).valid() && old(
                    self,
                )@.chip_at(squares@[i]) == Some(team),
            squares@.no_duplicates(),
        ensures
            final(self).wf(),
            final(self)@ == (BoardView {
                sequences: old(self)@.sequences.push(SequenceView { team, squares: squares@ }),
                ..old(self)@
            }),
    {
        let ghost before = *self;
        let mut i: usize = 0;
        while i < squares.len()
            invariant
                i <= squares@.len(),
                forall|j: int| 0 <= j < squares@.len() ==> (#[trigger] squares@[j]).valid(),
                self.cards == before.cards,
                self.chips == before.chips,
                self.card_to_squares == before.card_to_squares,
                self.team_to_squares == before.team_to_squares,
                self.sequences == before.sequences,
                self.num_chips == before.num_chips,
                forall|s: Square|
                    s.valid() ==> #[trigger] self.squares_in_sequence@[s.row as int]@[s.col as int]
                        == (before.squares_in_sequence@[s.row as int]@[s.col as int]
                        || squares@.take(i as int).contains(s)),
            decreases squares@.len() - i,
        {
            let square = squares[i];
            self.squares_in_sequence[square.row as usize][square.col as usize] = true;
            i += 1;
            proof {
                assert(squares@.take(i as int) =~= squares@.take(i - 1).push(square));
                assert forall|s: Square| s.valid() implies #[trigger] self.squares_in_sequence@[s.row as int]@[s.col as int]
                    == (before.squares_in_sequence@[s.row as int]@[s.col as int] || squares@.take(
                    i as int,
                ).contains(s)) by {
                    lemma_push_contains(squares@.take(i - 1), square, s);
                }
            }
        }
        let ghost run = SequenceView { team, squares: squares@ };
        proof {
            assert(squares@.take(squares@.len() as int) =~= squares@);
        }
        self.sequences.push(Sequence { team, squares });
        proof {
            let after = self@;
            assert(after.sequences =~= before@.sequences.push(run));
            assert(self.marks_ok()) by {
                assert forall|s: Square| s.valid() implies self.squares_in_sequence@[s.row as int]@[s.col as int]
                    == #[trigger] after.protected(s) by {
                    if before@.protected(s) {
                        let k = choose|k: int|
                            0 <= k < before@.sequences.len() && (
                            #[trigger] before@.sequences[k]).squares.contains(s);
                        assert(after.sequences[k].squares.contains(s));
                    }
                    if run.squares.contains(s) {
                        assert(after.sequences[before@.sequences.len() as int].squares.contains(s));
                    }
                }
            }
        }
    }

    /// Number of completed sequences that a team owns.
    pub fn count_sequences(&self, team: &Team) -> (count: usize)
        ensures
            count == self@.sequence_count(*team),
    {
        let ghost owned = |q: SequenceView| q.team == *team;
        let ghost all = self@.sequences;
        let mut count: usize = 0;
        let mut i: usize = 0;
        while i < self.sequences.len()
            invariant
                i <= self.sequences@.len(),
                all == self@.sequences,
                all.len() == self.sequences@.len(),
                owned == |q: SequenceView| q.team == *team,
                count == all.take(i as int).filter(owned).len(),
                count <= i,
            decreases self.sequences@.len() - i,
        {
            proof {
                let longer = all.take(i + 1);
                assert(longer.drop_last() =~= all.take(i as int));
                reveal_with_fuel(Seq::filter, 2);
            }
            if self.sequences[i].team == *team {
                count += 1;
            }
            i += 1;
        }
        proof {
            assert(all.take(i as int) =~= all);
        }
        count
    }

    /// The completed sequences, oldest first.
    pub fn sequences(&self) -> (list: &Vec<Sequence>)
        ensures
            list@.len() == self@.sequences.len(),
            forall|i: int| 0 <= i < list@.len() ==> (#[trigger] list@[i])@ == self@.sequences[i],
    {
        &self.sequences
    }
}

/// Takes a square out of a list that holds it at most once.
fn drop_square(list: &mut Vec<Square>, square: &Square)
    requires
        old(list)@.no_duplicates(),
    ensures
        final(list)@.no_duplicates(),
        forall|s: Square| final(list)@.contains(s) <==> old(list)@.contains(s) && s != *square,
{
    let ghost before = list@;
    let mut i: usize = 0;
    while i < list.len()
        invariant
            list@ == before,
            before == old(list)@,
            before.no_duplicates(),
            i <= list@.len(),
            forall|j: int| 0 <= j < i ==> list@[j] != *square,
        decreases list@.len() - i,
    {
        if list[i] == *square {
            list.remove(i);
            proof {
                let after = list@;
                assert forall|s: Square| after.contains(s) <==> before.contains(s) && s
                    != *square by {
                    if before.contains(s) && s != *square {
                        let j = choose|j: int| 0 <= j < before.len() && before[j] == s;
                        if j < i {
                            assert(after[j] == s);
                        } else {
                            assert(after[j - 1] == s);
                        }
                    }
                }
            }
            return ;
        }
        i += 1;
    }
}

/// A grid without chips.
fn blank_chips() -> (chips: [[Option<Team>; 10]; 10])
    ensures
        forall|s: Square| s.valid() ==> chips@[s.row as int]@[s.col as int] is None,
{
    let mut chips: [[Option<Team>; 10]; 10] = [[None; 10]; 10];
    for row in 0..10usize
        invariant
            forall|s: Square| s.valid() && s.row < row ==> chips@[s.row as int]@[s.col as int] is None,
    {
        for col in 0..10usize
            invariant
                row < 10,
                forall|s: Square|
                    s.valid() && (s.row < row || (s.row == row && s.col < col))
                        ==> chips@[s.row as int]@[s.col as int] is None,
        {
            chips[row][col] = None;
        }
    }
    chips
}

/// A grid without protection marks.
fn blank_marks() -> (marks: [[bool; 10]; 10])
    ensures
        forall|s: Square| s.valid() ==> !marks@[s.row as int]@[s.col as int],
{
    let no_mark = false;
    let row: [bool; 10] = [no_mark; 10];
    let marks: [[bool; 10]; 10] = [row; 10];
    marks
}

/// An empty list of squares, whatever the place it is made for.
fn no_squares(place: usize) -> (list: Vec<Square>)
    ensures
        list@.len() == 0,
{
    Vec::new()
}

/// A copy of a list of squares.
fn copy_squares(list: &Vec<Square>) -> (copy: Vec<Square>)
    ensures
        copy@ == list@,
{
    let mut copy: Vec<Square> = Vec::new();
    let mut i: usize = 0;
    while i < list.len()
        invariant
            i <= list@.len(),
            copy@ == list@.take(i as int),
        decreases list@.len() - i,
    {
        copy.push(list[i]);
        i += 1;
    }
    copy
}

/// The card at a position of a fresh deck has that position for its ordinal.
pub proof fn lemma_card_at_ordinal(k: int)
    requires
        0 <= k < 52,
    ensures
        Card::at(k).ordinal() == k,
{
}

} // verus!
