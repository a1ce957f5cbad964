use itertools::Itertools;
use vstd::prelude::*;

use crate::board::Board;
use crate::card::Card;
use crate::deck::Deck;
use crate::grid_traversal::{free_line, held_by_other, open_runs_for_team};
use crate::model::BoardView;
use crate::players::random_player::{rand_occupied_square_not_in_sequence, removable};
use crate::simple_player::SimplePlayer;
use crate::square::{row_major, Square};
use crate::team::Team;
use crate::util::{lemma_push_contains, Wrapper};

verus! {

/// A player that rates every square it could claim by what lies around it,
/// and claims the one it rates best.
pub struct SquareEvaluationPlayer {
    /// The rating from which on a square is worth a two-eyed jack.
    pub two_eyed_jack_cutoff: i32,
}

impl Default for SquareEvaluationPlayer {
    fn default() -> (player: SquareEvaluationPlayer)
        ensures
            player.two_eyed_jack_cutoff == 100,
    {
        SquareEvaluationPlayer { two_eyed_jack_cutoff: 100 }
    }
}

/// The square bears a card of the hand.
pub open spec fn normal(board: BoardView, hand: Seq<Card>, s: Square) -> bool {
    exists|i: int| 0 <= i < hand.len() && board.card_at(s) == Some(#[trigger] hand[i])
}

/// The hand holds a two-eyed jack.
pub open spec fn holds_wild(hand: Seq<Card>) -> bool {
    exists|i: int| 0 <= i < hand.len() && (#[trigger] hand[i]).two_eyed_jack()
}

pub open spec fn gap(a: u8, b: u8) -> int {
    if a >= b {
        a - b
    } else {
        b - a
    }
}

/// How many steps along a row, a column or a diagonal lead from one square
/// to the other; nothing if they share no line.
pub open spec fn distance(a: Square, b: Square) -> Option<int> {
    let rows = gap(a.row, b.row);
    let cols = gap(a.col, b.col);
    if rows == 0 || cols == 0 || rows == cols {
        Some(
            if rows >= cols {
                rows
            } else {
                cols
            },
        )
    } else {
        None
    }
}

/// Twenty times what a square is worth to a team next to a square that it
/// thinks of claiming: ten if the square counts for the team already, two
/// and a half if a card of the hand could claim it, and a half otherwise.
pub open spec fn weight(board: BoardView, team: Team, hand: Seq<Card>, q: Square) -> int {
    if board.counts_for(q, team) {
        200
    } else if normal(board, hand, q) {
        50
    } else {
        10
    }
}

/// What a square adds to a rating: its worth, divided by one and a
/// twentieth for each step beyond the first that it lies away, rounded
/// down. Only squares up to five steps away add anything.
pub open spec fn points(weight: int, steps: int) -> int {
    if 1 <= steps <= 5 {
        weight / (19 + steps)
    } else {
        0
    }
}

/// What the square `q` adds to the rating of `origin`.
pub open spec fn square_points(
    board: BoardView,
    team: Team,
    hand: Seq<Card>,
    origin: Square,
    q: Square,
) -> int {
    match distance(origin, q) {
        Some(steps) => points(weight(board, team, hand, q), steps),
        None => 0,
    }
}

/// What the squares of a list add to the rating of `origin`.
pub open spec fn run_points(
    board: BoardView,
    team: Team,
    hand: Seq<Card>,
    origin: Square,
    run: Seq<Square>,
) -> int
    decreases run.len(),
{
    if run.len() == 0 {
        0
    } else {
        run_points(board, team, hand, origin, run.drop_last()) + square_points(
            board,
            team,
            hand,
            origin,
            run.last(),
        )
    }
}

/// What line `d` through `origin` adds to the rating of `origin`: the
/// points of its squares up to the first chip of another team either way.
pub open spec fn line_points(
    board: BoardView,
    team: Team,
    hand: Seq<Card>,
    origin: Square,
    d: int,
) -> int {
    run_points(board, team, hand, origin, free_line(held_by_other(board, team), origin, d))
}

/// The rating of a square: the points of the four lines through it.
pub open spec fn rating(board: BoardView, team: Team, hand: Seq<Card>, origin: Square) -> int {
    line_points(board, team, hand, origin, 0) + line_points(board, team, hand, origin, 1)
        + line_points(board, team, hand, origin, 2) + line_points(board, team, hand, origin, 3)
}

/// Whether a square bears a card of the hand.
pub fn bears_card_of(board: &Board, hand: &[Card], square: &Square) -> (found: bool)
    requires
        square.valid(),
    ensures
        found == normal(board@, hand@, *square),
{
    let printed = board.card_at(square);
    let mut i: usize = 0;
    while i < hand.len()
        invariant
            i <= hand@.len(),
            printed == board@.card_at(*square),
            forall|j: int| 0 <= j < i ==> board@.card_at(*square) != Some(#[trigger] hand@[j]),
        decreases hand@.len() - i,
    {
        if printed.wraps(&hand[i]) {
            return true;
        }
        i += 1;
    }
    false
}

impl Board {
    /// The squares that the cards could claim without a jack, were they
    /// empty: those that bear one of the cards, read row by row.
    pub fn normally_playable_squares(&self, cards: &[Card]) -> (squares: Vec<Square>)
        ensures
            row_major(squares@),
            forall|s: Square| #[trigger] squares@.contains(s) <==> s.playable() && normal(self@, cards@, s),
    {
        let playable = Square::playable_squares();
        let mut squares: Vec<Square> = Vec::new();
        let mut i: usize = 0;
        while i < playable.len()
            invariant
                i <= playable@.len(),
                row_major(playable@),
                forall|s: Square| #[trigger] playable@.contains(s) <==> s.playable(),
                row_major(squares@),
                forall|s: Square|
                    #[trigger] squares@.contains(s) <==> normal(self@, cards@, s) && exists|j: int|
                        0 <= j < i && playable@[j] == s,
            decreases playable@.len() - i,
        {
            let square = playable[i];
            let ghost before = squares@;
            assert(playable@.contains(square));
            let keep = bears_card_of(self, cards, &square);
            if keep {
                squares.push(square);
            }
            proof {
                assert forall|s: Square| #[trigger]
                    squares@.contains(s) <==> normal(self@, cards@, s) && exists|j: int|
                        0 <= j < i + 1 && playable@[j] == s by {
                    if keep {
                        lemma_push_contains(before, square, s);
                    }
                }
                if keep {
                    assert forall|k: int| 0 <= k < before.len() implies before[k].flat()
                        < square.flat() by {
                        assert(before.contains(before[k]));
                    }
                }
            }
            i += 1;
        }
        proof {
            assert forall|s: Square| #[trigger]
                squares@.contains(s) <==> s.playable() && normal(self@, cards@, s) by {
                if squares@.contains(s) {
                    assert(playable@.contains(s));
                }
                if s.playable() && normal(self@, cards@, s) {
                    assert(playable@.contains(s));
                }
            }
        }
        squares
    }
}

/// No square adds less than nothing or more than ten points.
pub proof fn lemma_square_points_bounds(
    board: BoardView,
    team: Team,
    hand: Seq<Card>,
    origin: Square,
    q: Square,
)
    ensures
        0 <= square_points(board, team, hand, origin, q) <= 10,
{
    if distance(origin, q) is Some {
        lemma_points_bounds(weight(board, team, hand, q), distance(origin, q)->0);
    }
}

/// The points of a square with a worth of ten at most lie between nothing
/// and ten.
pub proof fn lemma_points_bounds(weight: int, steps: int)
    requires
        0 <= weight <= 200,
    ensures
        0 <= points(weight, steps) <= 10,
{
    if steps == 1 {
        assert(0 <= weight / 20 <= 10);
    } else if steps == 2 {
        assert(0 <= weight / 21 <= 10);
    } else if steps == 3 {
        assert(0 <= weight / 22 <= 10);
    } else if steps == 4 {
        assert(0 <= weight / 23 <= 10);
    } else if steps == 5 {
        assert(0 <= weight / 24 <= 10);
    }
}

/// The points of a list with one more square at its end.
proof fn lemma_run_points_push(
    board: BoardView,
    team: Team,
    hand: Seq<Card>,
    origin: Square,
    run: Seq<Square>,
    q: Square,
)
    ensures
        run_points(board, team, hand, origin, run.push(q)) == run_points(
            board,
            team,
            hand,
            origin,
            run,
        ) + square_points(board, team, hand, origin, q),
{
    assert(run.push(q).drop_last() =~= run);
}

impl SquareEvaluationPlayer {
    /// How many steps along a row, a column or a diagonal lead from one
    /// square to the other; nothing if they share no line.
    pub fn sequence_distance(square1: &Square, square2: &Square) -> (steps: Option<u8>)
        ensures
            steps is Some <==> distance(*square1, *square2) is Some,
            steps matches Some(n) ==> distance(*square1, *square2) == Some(n as int),
    {
        let row_diff = if square1.row >= square2.row {
            square1.row - square2.row
        } else {
            square2.row - square1.row
        };
        let col_diff = if square1.col >= square2.col {
            square1.col - square2.col
        } else {
            square2.col - square1.col
        };
        if row_diff == 0 || col_diff == 0 || row_diff == col_diff {
            Some(
                if row_diff >= col_diff {
                    row_diff
                } else {
                    col_diff
                },
            )
        } else {
            None
        }
    }

    /// What one square adds to the rating of `origin`.
    fn points_of(origin: &Square, square: &Square, team: &Team, hand: &[Card], board: &Board) -> (added:
        i32)
        requires
            square.valid(),
        ensures
            added == square_points(board@, *team, hand@, *origin, *square),
            0 <= added <= 10,
    {
        let worth: i32 = if board.counts_for(square, team) {
            200
        } else if bears_card_of(board, hand, square) {
            50
        } else {
            10
        };
        proof {
            lemma_square_points_bounds(board@, *team, hand@, *origin, *square);
        }
        match SquareEvaluationPlayer::sequence_distance(origin, square) {
            Some(steps) => {
                if 1 <= steps && steps <= 5 {
                    worth / (19 + steps as i32)
                } else {
                    0
                }
            },
            None => 0,
        }
    }

    /// Rates a square that the team thinks of claiming: along each line
    /// through it, up to five squares either way and as far as no chip of
    /// another team interrupts, every square adds its points.
    pub fn evaluate_empty_square(square: &Square, team: &Team, hand: &[Card], board: &Board) -> (score:
        i32)
        ensures
            score == rating(board@, *team, hand@, *square),
            0 <= score <= 400,
    {
        let runs = open_runs_for_team(board, square, team);
        let mut score: i32 = 0;
        for d in 0..4usize
            invariant
                forall|e: int|
                    0 <= e < 4 ==> (#[trigger] runs@[e])@ == free_line(
                        held_by_other(board@, *team),
                        *square,
                        e,
                    ),
                0 <= score <= 100 * d,
                score == partial_rating(board@, *team, hand@, *square, d as int),
        {
            let run = &runs[d];
            let ghost line = free_line(held_by_other(board@, *team), *square, d as int);
            proof {
                lemma_free_line_on_board(held_by_other(board@, *team), *square, d as int);
            }
            let mut added: i32 = 0;
            let mut i: usize = 0;
            while i < run.len()
                invariant
                    run@ == line,
                    line.len() <= 10,
                    forall|k: int| 0 <= k < line.len() ==> (#[trigger] line[k]).valid(),
                    i <= run@.len(),
                    0 <= added <= 10 * i,
                    added == run_points(board@, *team, hand@, *square, line.take(i as int)),
                decreases run@.len() - i,
            {
                let points = SquareEvaluationPlayer::points_of(square, &run[i], team, hand, board);
                proof {
                    lemma_run_points_push(
                        board@,
                        *team,
                        hand@,
                        *square,
                        line.take(i as int),
                        line[i as int],
                    );
                    assert(line.take(i + 1) =~= line.take(i as int).push(line[i as int]));
                }
                added += points;
                i += 1;
            }
            proof {
                assert(line.take(line.len() as int) =~= line);
            }
            score += added;
        }
        proof {
            lemma_rating_is_partial(board@, *team, hand@, *square);
        }
        score
    }
}

/// The points of the first `n` lines through a square.
pub open spec fn partial_rating(
    board: BoardView,
    team: Team,
    hand: Seq<Card>,
    origin: Square,
    n: int,
) -> int
    decreases n,
{
    if n <= 0 {
        0
    } else {
        partial_rating(board, team, hand, origin, n - 1) + line_points(
            board,
            team,
            hand,
            origin,
            n - 1,
        )
    }
}

/// The four lines make the rating.
pub proof fn lemma_rating_is_partial(board: BoardView, team: Team, hand: Seq<Card>, origin: Square)
    ensures
        rating(board, team, hand, origin) == partial_rating(board, team, hand, origin, 4),
{
    reveal_with_fuel(partial_rating, 5);
}

/// The free squares of a line lie on the board, and there are ten at most.
pub proof fn lemma_free_line_on_board(blocked: spec_fn(Square) -> bool, origin: Square, d: int)
    ensures
        free_line(blocked, origin, d).len() <= 10,
        forall|k: int|
            0 <= k < free_line(blocked, origin, d).len() ==> (#[trigger] free_line(
                blocked,
                origin,
                d,
            )[k]).valid(),
{
}

/// A square with its rating.
pub type Rated = (Square, i32);

/// The entries are listed in the order of their squares, read row by row.
pub open spec fn squares_rising(entries: Seq<Rated>) -> bool {
    forall|i: int, j: int|
        0 <= i < j < entries.len() ==> (#[trigger] entries[i]).0.flat() < (
        #[trigger] entries[j]).0.flat()
}

/// No entry of the list is rated higher than this one.
pub open spec fn top_rated(entries: Seq<Rated>) -> spec_fn(Rated) -> bool {
    |e: Rated| forall|j: int| 0 <= j < entries.len() ==> (#[trigger] entries[j]).1 <= e.1
}

/// Calls `Itertools::max_set_by_key` of itertools on the entries, with the
/// rating as the key. Taken on trust: the call returns the entries that no
/// other entry outrates, all of them and in the order in which they were
/// listed.
#[verifier::external_body]
fn max_set(entries: Vec<Rated>) -> (best: Vec<Rated>)
    ensures
        best@ == entries@.filter(top_rated(entries@)),
{
    entries.into_iter().max_set_by_key(|entry| entry.1)
}

/// What is left of a list in the order of its squares when entries are
/// struck from it: the entries kept, still in the order of their squares.
pub proof fn lemma_filter_rising(entries: Seq<Rated>, keep: spec_fn(Rated) -> bool)
    requires
        squares_rising(entries),
    ensures
        squares_rising(entries.filter(keep)),
        forall|e: Rated| #[trigger] entries.filter(keep).contains(e) <==> entries.contains(e) && keep(e),
    decreases entries.len(),
{
    reveal_with_fuel(Seq::filter, 2);
    if entries.len() > 0 {
        let front = entries.drop_last();
        let last = entries.last();
        lemma_filter_rising(front, keep);
        let kept = front.filter(keep);
        assert forall|e: Rated| #[trigger]
            entries.filter(keep).contains(e) <==> entries.contains(e) && keep(e) by {
            lemma_push_contains(front, last, e);
            if keep(last) {
                lemma_push_contains(kept, last, e);
            }
        }
        if keep(last) {
            assert forall|i: int| 0 <= i < kept.len() implies (#[trigger] kept[i]).0.flat()
                < last.0.flat() by {
                assert(kept.contains(kept[i]));
            }
        }
    }
}

/// A square that the player can claim: playable, empty, and within reach of
/// the hand, which a two-eyed jack makes every square.
pub open spec fn considered(board: BoardView, hand: Seq<Card>, s: Square) -> bool {
    s.playable() && board.chip_at(s) is None && (holds_wild(hand) || normal(board, hand, s))
}

/// A square that the player would claim: one that an ordinary card of the
/// hand claims, or one rated high enough for a two-eyed jack.
pub open spec fn worthy(cutoff: int, board: BoardView, team: Team, hand: Seq<Card>, s: Square) -> bool {
    considered(board, hand, s) && (rating(board, team, hand, s) >= cutoff || normal(board, hand, s))
}

pub open spec fn any_worthy(cutoff: int, board: BoardView, team: Team, hand: Seq<Card>) -> bool {
    exists|s: Square| #[trigger] worthy(cutoff, board, team, hand, s)
}

/// A worthy square that no worthy square outrates.
pub open spec fn best(cutoff: int, board: BoardView, team: Team, hand: Seq<Card>, s: Square) -> bool {
    worthy(cutoff, board, team, hand, s) && forall|q: Square|
        #[trigger] worthy(cutoff, board, team, hand, q) ==> rating(board, team, hand, q) <= rating(
            board,
            team,
            hand,
            s,
        )
}

/// A best square that an ordinary card claims.
pub open spec fn best_normal(cutoff: int, board: BoardView, team: Team, hand: Seq<Card>, s: Square) -> bool {
    best(cutoff, board, team, hand, s) && normal(board, hand, s)
}

/// Among the best squares, one for an ordinary card goes before one for a
/// jack, and an earlier square before a later one.
pub open spec fn first_choice(
    cutoff: int,
    board: BoardView,
    team: Team,
    hand: Seq<Card>,
    s: Square,
) -> bool {
    &&& best(cutoff, board, team, hand, s)
    &&& (exists|q: Square| #[trigger] best_normal(cutoff, board, team, hand, q)) ==> normal(
        board,
        hand,
        s,
    )
    &&& forall|q: Square|
        #[trigger] best(cutoff, board, team, hand, q) && (normal(board, hand, q) || !normal(
            board,
            hand,
            s,
        )) ==> s.flat() <= q.flat()
}

/// The square rated highest of all that the player can claim, the last of
/// them if several are.
pub open spec fn top_considered(board: BoardView, team: Team, hand: Seq<Card>, s: Square) -> bool {
    considered(board, hand, s) && forall|q: Square|
        #[trigger] considered(board, hand, q) ==> rating(board, team, hand, q) < rating(
            board,
            team,
            hand,
            s,
        ) || (rating(board, team, hand, q) == rating(board, team, hand, s) && q.flat()
            <= s.flat())
}

/// A chip to take off the board, or, where there is none to take, the
/// first corner, which is no move at all.
pub open spec fn last_resort(board: BoardView, team: Team, s: Square) -> bool {
    removable(board, team, s) || (s == (Square { row: 0, col: 0 }) && forall|q: Square|
        !#[trigger] removable(board, team, q))
}

/// The list rates the empty squares among the candidates.
pub open spec fn rates(
    entries: Seq<Rated>,
    candidates: Seq<Square>,
    board: BoardView,
    team: Team,
    hand: Seq<Card>,
) -> bool {
    forall|e: Rated| #[trigger]
        entries.contains(e) <==> candidates.contains(e.0) && board.chip_at(e.0) is None && e.1
            == rating(board, team, hand, e.0)
}

/// Rates the empty squares of a list.
fn rate_squares(candidates: &Vec<Square>, team: &Team, hand: &[Card], board: &Board) -> (entries:
    Vec<Rated>)
    requires
        row_major(candidates@),
        forall|k: int| 0 <= k < candidates@.len() ==> (#[trigger] candidates@[k]).valid(),
    ensures
        squares_rising(entries@),
        rates(entries@, candidates@, board@, *team, hand@),
{
    let mut entries: Vec<Rated> = Vec::new();
    let mut i: usize = 0;
    while i < candidates.len()
        invariant
            row_major(candidates@),
            forall|k: int| 0 <= k < candidates@.len() ==> (#[trigger] candidates@[k]).valid(),
            i <= candidates@.len(),
            squares_rising(entries@),
            rates(entries@, candidates@.take(i as int), board@, *team, hand@),
        decreases candidates@.len() - i,
    {
        let square = candidates[i];
        let ghost before = entries@;
        let ghost seen = candidates@.take(i as int);
        let empty = board.chip_at(&square).is_none();
        if empty {
            let score = SquareEvaluationPlayer::evaluate_empty_square(&square, team, hand, board);
            entries.push((square, score));
        }
        proof {
            assert(candidates@.take(i + 1) =~= seen.push(square));
            assert forall|e: Rated| #[trigger]
                entries@.contains(e) <==> candidates@.take(i + 1).contains(e.0) && board@.chip_at(
                    e.0,
                ) is None && e.1 == rating(board@, *team, hand@, e.0) by {
                lemma_push_contains(seen, square, e.0);
                if empty {
                    lemma_push_contains(before, (square, rating(board@, *team, hand@, square) as i32), e);
                }
            }
            if empty {
                assert forall|k: int| 0 <= k < before.len() implies (#[trigger] before[k]).0.flat()
                    < square.flat() by {
                    assert(before.contains(before[k]));
                }
            }
        }
        i += 1;
    }
    proof {
        assert(candidates@.take(i as int) =~= candidates@);
    }
    entries
}

/// The entries that the player would act on: those rated at the cutoff or
/// above, and those whose square bears a card of the hand.
fn worthy_entries(entries: &Vec<Rated>, cutoff: i32, hand: &[Card], board: &Board) -> (kept: Vec<
    Rated,
>)
    requires
        squares_rising(entries@),
        forall|k: int| 0 <= k < entries@.len() ==> (#[trigger] entries@[k]).0.valid(),
    ensures
        squares_rising(kept@),
        forall|e: Rated|
            #[trigger] kept@.contains(e) <==> entries@.contains(e) && (e.1 >= cutoff || normal(
                board@,
                hand@,
                e.0,
            )),
{
    let mut kept: Vec<Rated> = Vec::new();
    let mut i: usize = 0;
    while i < entries.len()
        invariant
            squares_rising(entries@),
            forall|k: int| 0 <= k < entries@.len() ==> (#[trigger] entries@[k]).0.valid(),
            i <= entries@.len(),
            squares_rising(kept@),
            forall|e: Rated|
                #[trigger] kept@.contains(e) <==> entries@.take(i as int).contains(e) && (e.1
                    >= cutoff || normal(board@, hand@, e.0)),
        decreases entries@.len() - i,
    {
        let entry = entries[i];
        let ghost before = kept@;
        let ghost seen = entries@.take(i as int);
        let keep = entry.1 >= cutoff || bears_card_of(board, hand, &entry.0);
        if keep {
            kept.push(entry);
        }
        proof {
            assert(entries@.take(i + 1) =~= seen.push(entry));
            assert forall|e: Rated| #[trigger]
                kept@.contains(e) <==> entries@.take(i + 1).contains(e) && (e.1 >= cutoff || normal(
                    board@,
                    hand@,
                    e.0,
                )) by {
                lemma_push_contains(seen, entry, e);
                if keep {
                    lemma_push_contains(before, entry, e);
                }
            }
            if keep {
                assert forall|k: int| 0 <= k < before.len() implies (#[trigger] before[k]).0.flat()
                    < entry.0.flat() by {
                    assert(before.contains(before[k]));
                }
            }
        }
        i += 1;
    }
    proof {
        assert(entries@.take(i as int) =~= entries@);
    }
    kept
}

/// The first entry of a list whose square bears a card of the hand.
fn first_normal(entries: &Vec<Rated>, hand: &[Card], board: &Board) -> (found: Option<Square>)
    requires
        forall|k: int| 0 <= k < entries@.len() ==> (#[trigger] entries@[k]).0.valid(),
    ensures
        found matches Some(s) ==> exists|k: int|
            0 <= k < entries@.len() && (#[trigger] entries@[k]).0 == s && normal(board@, hand@, s)
                && forall|j: int| 0 <= j < k ==> !normal(board@, hand@, (#[trigger] entries@[j]).0),
        found is None ==> forall|j: int|
            0 <= j < entries@.len() ==> !normal(board@, hand@, (#[trigger] entries@[j]).0),
{
    let mut i: usize = 0;
    while i < entries.len()
        invariant
            forall|k: int| 0 <= k < entries@.len() ==> (#[trigger] entries@[k]).0.valid(),
            i <= entries@.len(),
            forall|j: int| 0 <= j < i ==> !normal(board@, hand@, (#[trigger] entries@[j]).0),
        decreases entries@.len() - i,
    {
        if bears_card_of(board, hand, &entries[i].0) {
            return Some(entries[i].0);
        }
        i += 1;
    }
    None
}

/// The last of the entries that none outrates; nothing for an empty list.
fn last_top(entries: &Vec<Rated>) -> (found: Option<Rated>)
    ensures
        found is None <==> entries@.len() == 0,
        found matches Some(e) ==> exists|k: int|
            0 <= k < entries@.len() && #[trigger] entries@[k] == e && (forall|j: int|
                0 <= j < entries@.len() ==> (#[trigger] entries@[j]).1 <= e.1) && (forall|j: int|
                k < j < entries@.len() ==> (#[trigger] entries@[j]).1 < e.1),
{
    if entries.len() == 0 {
        return None;
    }
    let mut top: usize = 0;
    let mut i: usize = 1;
    while i < entries.len()
        invariant
            1 <= i <= entries@.len(),
            top < i,
            forall|j: int| 0 <= j < i ==> (#[trigger] entries@[j]).1 <= entries@[top as int].1,
            forall|j: int| top < j < i ==> (#[trigger] entries@[j]).1 < entries@[top as int].1,
        decreases entries@.len() - i,
    {
        if entries[i].1 >= entries[top].1 {
            top = i;
        }
        i += 1;
    }
    Some(entries[top])
}

/// Whether a hand holds a two-eyed jack.
fn hand_holds_wild(hand: &[Card]) -> (found: bool)
    ensures
        found == holds_wild(hand@),
{
    let mut i: usize = 0;
    while i < hand.len()
        invariant
            i <= hand@.len(),
            forall|j: int| 0 <= j < i ==> !(#[trigger] hand@[j]).two_eyed_jack(),
        decreases hand@.len() - i,
    {
        if hand[i].is_two_eyed_jack() {
            return true;
        }
        i += 1;
    }
    false
}

/// A chip to take off the board, chosen at random, or the first corner.
fn resort(board: &Board, team: &Team) -> (square: Square)
    requires
        board.wf(),
    ensures
        last_resort(board@, *team, square),
{
    match rand_occupied_square_not_in_sequence(board, team) {
        Some(square) => square,
        None => Square { row: 0, col: 0 },
    }
}

/// The list holds the squares that satisfy `wanted`, each with its rating.
pub open spec fn lists(
    entries: Seq<Rated>,
    wanted: spec_fn(Square) -> bool,
    board: BoardView,
    team: Team,
    hand: Seq<Card>,
) -> bool {
    forall|e: Rated| #[trigger]
        entries.contains(e) <==> wanted(e.0) && e.1 == rating(board, team, hand, e.0)
}

/// Of the worthy squares with their ratings, those that none outrates are
/// the best squares; there is one if there is a worthy square at all.
proof fn lemma_best_entries(
    listed: Seq<Rated>,
    cutoff: int,
    board: BoardView,
    team: Team,
    hand: Seq<Card>,
)
    requires
        squares_rising(listed),
        lists(listed, |s: Square| worthy(cutoff, board, team, hand, s), board, team, hand),
    ensures
        squares_rising(listed.filter(top_rated(listed))),
        lists(
            listed.filter(top_rated(listed)),
            |s: Square| best(cutoff, board, team, hand, s),
            board,
            team,
            hand,
        ),
        any_worthy(cutoff, board, team, hand) <==> listed.filter(top_rated(listed)).len() > 0,
{
    let kept = listed.filter(top_rated(listed));
    lemma_filter_rising(listed, top_rated(listed));
    lemma_rating_in_range(board, team, hand);
    assert forall|e: Rated| #[trigger]
        kept.contains(e) <==> best(cutoff, board, team, hand, e.0) && e.1 == rating(
            board,
            team,
            hand,
            e.0,
        ) by {
        if kept.contains(e) {
            assert forall|q: Square| #[trigger]
                worthy(cutoff, board, team, hand, q) implies rating(board, team, hand, q) <= rating(
                board,
                team,
                hand,
                e.0,
            ) by {
                let other = (q, rating(board, team, hand, q) as i32);
                assert(listed.contains(other));
            }
        }
        if best(cutoff, board, team, hand, e.0) && e.1 == rating(board, team, hand, e.0) {
            assert forall|j: int| 0 <= j < listed.len() implies (#[trigger] listed[j]).1 <= e.1 by {
                assert(listed.contains(listed[j]));
            }
        }
    }
    if any_worthy(cutoff, board, team, hand) {
        let s = choose|s: Square| #[trigger] worthy(cutoff, board, team, hand, s);
        assert(listed.contains((s, rating(board, team, hand, s) as i32)));
        lemma_some_entry_is_top(listed);
    }
    if kept.len() > 0 {
        assert(kept.contains(kept[0]));
    }
}

/// Of the best squares in the order of the board, the first that an
/// ordinary card claims is the first choice, and if no card claims any, the
/// first of them all.
proof fn lemma_first_choice(
    kept: Seq<Rated>,
    at: int,
    cutoff: int,
    board: BoardView,
    team: Team,
    hand: Seq<Card>,
)
    requires
        squares_rising(kept),
        lists(kept, |s: Square| best(cutoff, board, team, hand, s), board, team, hand),
        0 <= at < kept.len(),
        forall|j: int| 0 <= j < at ==> !normal(board, hand, (#[trigger] kept[j]).0),
        normal(board, hand, kept[at].0) || (at == 0 && forall|j: int|
            0 <= j < kept.len() ==> !normal(board, hand, (#[trigger] kept[j]).0)),
    ensures
        first_choice(cutoff, board, team, hand, kept[at].0),
{
    let square = kept[at].0;
    lemma_rating_in_range(board, team, hand);
    assert(kept.contains(kept[at]));
    if exists|q: Square| #[trigger] best_normal(cutoff, board, team, hand, q) {
        let q = choose|q: Square| #[trigger] best_normal(cutoff, board, team, hand, q);
        let other = (q, rating(board, team, hand, q) as i32);
        assert(kept.contains(other));
    }
    assert forall|q: Square| #[trigger]
        best(cutoff, board, team, hand, q) && (normal(board, hand, q) || !normal(
            board,
            hand,
            square,
        )) implies square.flat() <= q.flat() by {
        let other = (q, rating(board, team, hand, q) as i32);
        assert(kept.contains(other));
        let j = choose|j: int| 0 <= j < kept.len() && kept[j] == other;
        if j < at {
            assert(!normal(board, hand, kept[j].0));
        }
        if at < j {
            assert(kept[at].0.flat() < kept[j].0.flat());
        }
    }
}

/// Of the squares that the player can claim, in the order of the board,
/// the last that none outrates is the one rated highest, the last of them
/// if several are.
proof fn lemma_top_considered(
    ratings: Seq<Rated>,
    k: int,
    board: BoardView,
    team: Team,
    hand: Seq<Card>,
)
    requires
        squares_rising(ratings),
        lists(ratings, |s: Square| considered(board, hand, s), board, team, hand),
        0 <= k < ratings.len(),
        forall|j: int| 0 <= j < ratings.len() ==> (#[trigger] ratings[j]).1 <= ratings[k].1,
        forall|j: int| k < j < ratings.len() ==> (#[trigger] ratings[j]).1 < ratings[k].1,
    ensures
        top_considered(board, team, hand, ratings[k].0),
{
    let entry = ratings[k];
    lemma_rating_in_range(board, team, hand);
    assert(ratings.contains(entry));
    assert forall|q: Square| #[trigger] considered(board, hand, q) implies rating(
        board,
        team,
        hand,
        q,
    ) < rating(board, team, hand, entry.0) || (rating(board, team, hand, q) == rating(
        board,
        team,
        hand,
        entry.0,
    ) && q.flat() <= entry.0.flat()) by {
        let other = (q, rating(board, team, hand, q) as i32);
        assert(ratings.contains(other));
    }
}

impl SimplePlayer for SquareEvaluationPlayer {
    /// On a full board, goes for a chip to remove, chosen at random. Else
    /// rates every empty square that the hand can claim, and of those that
    /// an ordinary card claims or that are rated at the cutoff or above,
    /// names one of the best rated: the first that an ordinary card claims,
    /// or else the first. Where no square qualifies, a two-eyed jack goes to
    /// the square rated highest, and without one a chip is removed.
    fn play_square(&self, team: &Team, hand: &[Card], board: &Board, deck: &Deck) -> (square:
        Square)
        ensures
            board@.is_full() || (!holds_wild(hand@) && !any_worthy(
                self.two_eyed_jack_cutoff as int,
                board@,
                *team,
                hand@,
            )) ==> last_resort(board@, *team, square),
            !board@.is_full() && any_worthy(
                self.two_eyed_jack_cutoff as int,
                board@,
                *team,
                hand@,
            ) ==> first_choice(self.two_eyed_jack_cutoff as int, board@, *team, hand@, square),
            !board@.is_full() && holds_wild(hand@) && !any_worthy(
                self.two_eyed_jack_cutoff as int,
                board@,
                *team,
                hand@,
            ) ==> top_considered(board@, *team, hand@, square),
    {
        if board.is_full() {
            return resort(board, team);
        }
        let ghost cutoff = self.two_eyed_jack_cutoff as int;
        let wild = hand_holds_wild(hand);
        let candidates = if wild {
            Square::playable_squares()
        } else {
            board.normally_playable_squares(hand)
        };
        proof {
            assert forall|k: int| 0 <= k < candidates@.len() implies (
            #[trigger] candidates@[k]).valid() by {
                assert(candidates@.contains(candidates@[k]));
            }
        }
        let ratings = rate_squares(&candidates, team, hand, board);
        proof {
            assert forall|k: int| 0 <= k < ratings@.len() implies (#[trigger] ratings@[k]).0.valid() by {
                assert(ratings@.contains(ratings@[k]));
            }
        }
        let worthy_ones = worthy_entries(&ratings, self.two_eyed_jack_cutoff, hand, board);
        let ghost listed = worthy_ones@;
        proof {
            lemma_best_entries(listed, cutoff, board@, *team, hand@);
        }
        let best_ones = max_set(worthy_ones);
        if best_ones.len() == 0 {
            if !wild {
                return resort(board, team);
            }
            proof {
                lemma_rating_in_range(board@, *team, hand@);
                let s = choose|s: Square| s.playable() && !board@.chips.dom().contains(s);
                assert(ratings@.contains((s, rating(board@, *team, hand@, s) as i32)));
            }
            return match last_top(&ratings) {
                Some(entry) => {
                    proof {
                        let k = choose|k: int|
                            0 <= k < ratings@.len() && #[trigger] ratings@[k] == entry && (forall|
                                j: int,
                            |
                                0 <= j < ratings@.len() ==> (#[trigger] ratings@[j]).1 <= entry.1)
                                && (forall|j: int|
                                k < j < ratings@.len() ==> (#[trigger] ratings@[j]).1 < entry.1);
                        lemma_top_considered(ratings@, k, board@, *team, hand@);
                    }
                    entry.0
                },
                None => Square { row: 0, col: 0 },
            };
        }
        proof {
            assert forall|k: int| 0 <= k < best_ones@.len() implies (
            #[trigger] best_ones@[k]).0.valid() by {
                assert(best_ones@.contains(best_ones@[k]));
            }
        }
        let found = first_normal(&best_ones, hand, board);
        let square = match found {
            Some(square) => square,
            None => best_ones[0].0,
        };
        proof {
            let at = if found is Some {
                choose|k: int|
                    0 <= k < best_ones@.len() && (#[trigger] best_ones@[k]).0 == square && normal(
                        board@,
                        hand@,
                        square,
                    ) && forall|j: int|
                        0 <= j < k ==> !normal(board@, hand@, (#[trigger] best_ones@[j]).0)
            } else {
                0
            };
            lemma_first_choice(best_ones@, at, cutoff, board@, *team, hand@);
        }
        square
    }
}

/// Every rating fits the range of its type.
pub proof fn lemma_rating_in_range(board: BoardView, team: Team, hand: Seq<Card>)
    ensures
        forall|s: Square| 0 <= #[trigger] rating(board, team, hand, s) <= 400,
{
    assert forall|s: Square| 0 <= #[trigger] rating(board, team, hand, s) <= 400 by {
        lemma_line_points_bounds(board, team, hand, s, 0);
        lemma_line_points_bounds(board, team, hand, s, 1);
        lemma_line_points_bounds(board, team, hand, s, 2);
        lemma_line_points_bounds(board, team, hand, s, 3);
    }
}

/// A line adds a hundred points at most.
pub proof fn lemma_line_points_bounds(
    board: BoardView,
    team: Team,
    hand: Seq<Card>,
    origin: Square,
    d: int,
)
    ensures
        0 <= line_points(board, team, hand, origin, d) <= 100,
{
    lemma_free_line_on_board(held_by_other(board, team), origin, d);
    lemma_run_points_bounds(
        board,
        team,
        hand,
        origin,
        free_line(held_by_other(board, team), origin, d),
    );
}

/// A list of squares adds ten points a square at most.
pub proof fn lemma_run_points_bounds(
    board: BoardView,
    team: Team,
    hand: Seq<Card>,
    origin: Square,
    run: Seq<Square>,
)
    ensures
        0 <= run_points(board, team, hand, origin, run) <= 10 * run.len(),
    decreases run.len(),
{
    if run.len() > 0 {
        lemma_run_points_bounds(board, team, hand, origin, run.drop_last());
        lemma_square_points_bounds(board, team, hand, origin, run.last());
    }
}

/// A list that is not empty has an entry that none outrates.
pub proof fn lemma_some_entry_is_top(entries: Seq<Rated>)
    ensures
        entries.len() > 0 ==> entries.filter(top_rated(entries)).len() > 0,
{
    if entries.len() > 0 {
        let top = lemma_top_entry(entries, entries.len() as int);
        lemma_filter_member(entries, top_rated(entries), entries[top]);
    }
}

/// The place of an entry that none of the first `n` outrates.
proof fn lemma_top_entry(entries: Seq<Rated>, n: int) -> (top: int)
    requires
        0 < n <= entries.len(),
    ensures
        0 <= top < n,
        forall|j: int| 0 <= j < n ==> (#[trigger] entries[j]).1 <= entries[top].1,
    decreases n,
{
    if n == 1 {
        0
    } else {
        let before = lemma_top_entry(entries, n - 1);
        if entries[n - 1].1 >= entries[before].1 {
            n - 1
        } else {
            before
        }
    }
}

/// An entry that is kept is in what is left of the list.
proof fn lemma_filter_member(entries: Seq<Rated>, keep: spec_fn(Rated) -> bool, e: Rated)
    requires
        entries.contains(e),
        keep(e),
    ensures
        entries.filter(keep).contains(e),
        entries.filter(keep).len() > 0,
    decreases entries.len(),
{
    reveal_with_fuel(Seq::filter, 2);
    let front = entries.drop_last();
    let last = entries.last();
    lemma_push_contains(front, last, e);
    if keep(last) {
        lemma_push_contains(front.filter(keep), last, e);
    }
    if front.contains(e) {
        lemma_filter_member(front, keep, e);
    }
}

} // verus!
