//! Walks along the four lines through a square.

use vstd::prelude::*;

use crate::board::Board;
use crate::model::{cell, BoardView, DIRECTIONS, SEQUENCE_LENGTH};
use crate::runs::cell_offset;
use crate::square::Square;
use crate::team::Team;

verus! {

/// The first `n` squares of one arm of line `d` through `origin`, nearest first.
pub open spec fn arm_cells(origin: Square, d: int, forward: bool, n: int) -> Seq<Square> {
    Seq::new(n as nat, |i: int| cell(origin, d, forward, i + 1))
}

/// A walk along one arm that asks `stop` at every square ends after `n`
/// squares: each of them lies on the board and was let pass, and the walk
/// ended there because it had gone `max` squares far, or the next square
/// lies off the board, or `stop` said so.
pub open spec fn stops_after<F: Fn(Square) -> bool>(
    stop: F,
    origin: Square,
    d: int,
    forward: bool,
    max: int,
    n: int,
) -> bool {
    &&& 0 <= n <= max
    &&& forall|i: int|
        1 <= i <= n ==> (#[trigger] cell(origin, d, forward, i)).valid() && call_ensures(
            stop,
            (cell(origin, d, forward, i),),
            false,
        )
    &&& n < max ==> !cell(origin, d, forward, n + 1).valid() || call_ensures(
        stop,
        (cell(origin, d, forward, n + 1),),
        true,
    )
}

/// The list holds the squares of a walk along line `d`, the forward arm
/// first and then the backward arm, each as far as `stop` let it go.
pub open spec fn walked<F: Fn(Square) -> bool>(
    run: Seq<Square>,
    stop: F,
    origin: Square,
    d: int,
    max: int,
) -> bool {
    exists|ahead: int, behind: int|
        #![trigger arm_cells(origin, d, true, ahead), arm_cells(origin, d, false, behind)]
        stops_after(stop, origin, d, true, max, ahead) && stops_after(
            stop,
            origin,
            d,
            false,
            max,
            behind,
        ) && run == arm_cells(origin, d, true, ahead) + arm_cells(origin, d, false, behind)
}

/// An arm is free of blocked squares for exactly `n` squares: each lies on
/// the board and is not blocked, and the arm ends there because it is `max`
/// squares long or the next square lies off the board or is blocked.
pub open spec fn free_for(
    blocked: spec_fn(Square) -> bool,
    origin: Square,
    d: int,
    forward: bool,
    max: int,
    n: int,
) -> bool {
    &&& 0 <= n <= max
    &&& forall|i: int|
        1 <= i <= n ==> (#[trigger] cell(origin, d, forward, i)).valid() && !blocked(
            cell(origin, d, forward, i),
        )
    &&& n < max ==> !cell(origin, d, forward, n + 1).valid() || blocked(
        cell(origin, d, forward, n + 1),
    )
}

/// The list holds the free squares of line `d` through `origin`: the
/// forward arm up to its first blocked square, then the backward arm up to
/// its first blocked square.
pub open spec fn free_run(
    run: Seq<Square>,
    blocked: spec_fn(Square) -> bool,
    origin: Square,
    d: int,
    max: int,
) -> bool {
    exists|ahead: int, behind: int|
        #![trigger arm_cells(origin, d, true, ahead), arm_cells(origin, d, false, behind)]
        free_for(blocked, origin, d, true, max, ahead) && free_for(
            blocked,
            origin,
            d,
            false,
            max,
            behind,
        ) && run == arm_cells(origin, d, true, ahead) + arm_cells(origin, d, false, behind)
}

/// A square without a chip of the team.
pub open spec fn not_held_by(board: BoardView, team: Team) -> spec_fn(Square) -> bool {
    |s: Square| board.chip_at(s) != Some(team)
}

/// A square with a chip of another team.
pub open spec fn held_by_other(board: BoardView, team: Team) -> spec_fn(Square) -> bool {
    |s: Square| board.chip_at(s) is Some && board.chip_at(s) != Some(team)
}

/// The first `n` squares of an arm all lie on the board and none is blocked.
pub open spec fn free_within(
    blocked: spec_fn(Square) -> bool,
    origin: Square,
    d: int,
    forward: bool,
    n: int,
) -> bool {
    forall|i: int|
        1 <= i <= n ==> (#[trigger] cell(origin, d, forward, i)).valid() && !blocked(
            cell(origin, d, forward, i),
        )
}

/// How many squares of an arm, up to five, come before the first that is
/// blocked or off the board.
pub open spec fn free_reach(
    blocked: spec_fn(Square) -> bool,
    origin: Square,
    d: int,
    forward: bool,
) -> int {
    if free_within(blocked, origin, d, forward, 5) {
        5
    } else if free_within(blocked, origin, d, forward, 4) {
        4
    } else if free_within(blocked, origin, d, forward, 3) {
        3
    } else if free_within(blocked, origin, d, forward, 2) {
        2
    } else if free_within(blocked, origin, d, forward, 1) {
        1
    } else {
        0
    }
}

/// The free squares of line `d` through `origin`, up to five either way:
/// those of the forward arm, nearest first, then those of the backward arm.
pub open spec fn free_line(blocked: spec_fn(Square) -> bool, origin: Square, d: int) -> Seq<Square> {
    arm_cells(origin, d, true, free_reach(blocked, origin, d, true)) + arm_cells(
        origin,
        d,
        false,
        free_reach(blocked, origin, d, false),
    )
}

/// An arm that is free for exactly `n` of five squares has reach `n`.
pub proof fn lemma_free_for_is_reach(
    blocked: spec_fn(Square) -> bool,
    origin: Square,
    d: int,
    forward: bool,
    n: int,
)
    requires
        free_for(blocked, origin, d, forward, 5, n),
    ensures
        free_reach(blocked, origin, d, forward) == n,
{
}

/// A list of the free squares of a line is the line's one list of free squares.
pub proof fn lemma_free_run_is_line(
    run: Seq<Square>,
    blocked: spec_fn(Square) -> bool,
    origin: Square,
    d: int,
)
    requires
        free_run(run, blocked, origin, d, 5),
    ensures
        run == free_line(blocked, origin, d),
{
    let (ahead, behind) = choose|ahead: int, behind: int|
        #![trigger arm_cells(origin, d, true, ahead), arm_cells(origin, d, false, behind)]
        free_for(blocked, origin, d, true, 5, ahead) && free_for(
            blocked,
            origin,
            d,
            false,
            5,
            behind,
        ) && run == arm_cells(origin, d, true, ahead) + arm_cells(origin, d, false, behind);
    lemma_free_for_is_reach(blocked, origin, d, true, ahead);
    lemma_free_for_is_reach(blocked, origin, d, false, behind);
}

/// The row and column step of a line.
fn line_step(d: usize) -> (step: (i8, i8))
    requires
        d < 4,
    ensures
        (step.0 as int, step.1 as int) == cell_offset(d as int, true, 1),
{
    DIRECTIONS[d]
}

/// The square at a distance from `source` along one arm of line `d`.
pub fn arm_square(source: &Square, d: usize, forward: bool, distance: u8) -> (square: Square)
    requires
        d < 4,
        1 <= distance <= 127,
    ensures
        square == cell(*source, d as int, forward, distance as int),
{
    let (row_delta, col_delta) = line_step(d);
    let step: i8 = if forward {
        distance as i8
    } else {
        -(distance as i8)
    };
    assert(row_delta * step == cell_offset(d as int, forward, distance as int).0 && col_delta
        * step == cell_offset(d as int, forward, distance as int).1) by (nonlinear_arith)
        requires
            (row_delta as int, col_delta as int) == cell_offset(d as int, true, 1),
            0 <= d < 4,
            step == if forward {
                distance as int
            } else {
                -(distance as int)
            },
    ;
    source.plus(row_delta * step, col_delta * step)
}

/// Walks one arm and adds the squares passed to `run`.
fn walk_arm<F: Fn(Square) -> bool>(
    origin: &Square,
    d: usize,
    forward: bool,
    max_distance: u8,
    stop: &F,
    run: &mut Vec<Square>,
) -> (n: Ghost<int>)
    requires
        d < 4,
        max_distance <= 127,
        forall|s: Square| s.valid() ==> call_requires(*stop, (s,)),
    ensures
        stops_after(*stop, *origin, d as int, forward, max_distance as int, n@),
        final(run)@ == old(run)@ + arm_cells(*origin, d as int, forward, n@),
{
    let ghost given = run@;
    let ghost line = d as int;
    let mut i: u8 = 1;
    while i <= max_distance
        invariant
            d < 4,
            line == d,
            max_distance <= 127,
            1 <= i <= max_distance + 1,
            forall|s: Square| s.valid() ==> call_requires(*stop, (s,)),
            forall|k: int|
                1 <= k < i ==> (#[trigger] cell(*origin, line, forward, k)).valid() && call_ensures(
                    *stop,
                    (cell(*origin, line, forward, k),),
                    false,
                ),
            given == old(run)@,
            run@ == given + arm_cells(*origin, line, forward, i - 1),
        decreases max_distance + 1 - i,
    {
        let square = arm_square(origin, d, forward, i);
        if !square.is_valid() || stop(square) {
            return Ghost(i - 1);
        }
        run.push(square);
        i += 1;
    }
    Ghost(max_distance as int)
}

/// Walks both arms of one line.
fn walk_line<F: Fn(Square) -> bool>(origin: &Square, d: usize, max_distance: u8, stop: &F) -> (run:
    Vec<Square>)
    requires
        d < 4,
        max_distance <= 127,
        forall|s: Square| s.valid() ==> call_requires(*stop, (s,)),
    ensures
        walked(run@, *stop, *origin, d as int, max_distance as int),
{
    let mut run: Vec<Square> = Vec::new();
    let ahead = walk_arm(origin, d, true, max_distance, stop, &mut run);
    let behind = walk_arm(origin, d, false, max_distance, stop, &mut run);
    run
}

/// For each of the four lines through `origin`, the squares that a walk
/// passes: forward from `origin`, square by square and at most
/// `max_distance` far, until a square lies off the board or `stop` holds of
/// it, and then backward in the same way. Neither `origin` nor the squares
/// that ended a walk are listed.
pub fn find_runs<F: Fn(Square) -> bool>(origin: &Square, max_distance: u8, stop: F) -> (runs: [Vec<
    Square,
>; 4])
    requires
        max_distance <= 127,
        forall|s: Square| s.valid() ==> call_requires(stop, (s,)),
    ensures
        forall|d: int|
            0 <= d < 4 ==> walked((#[trigger] runs@[d])@, stop, *origin, d, max_distance as int),
{
    let along_row = walk_line(origin, 0, max_distance, &stop);
    let falling = walk_line(origin, 1, max_distance, &stop);
    let along_column = walk_line(origin, 2, max_distance, &stop);
    let rising = walk_line(origin, 3, max_distance, &stop);
    [along_row, falling, along_column, rising]
}

/// For each line through `origin`, the squares next to it, up to five
/// either way, that hold a chip of the team without a gap.
pub fn runs_for_team(board: &Board, origin: &Square, team: &Team) -> (runs: [Vec<Square>; 4])
    ensures
        forall|d: int|
            0 <= d < 4 ==> (#[trigger] runs@[d])@ == free_line(
                not_held_by(board@, *team),
                *origin,
                d,
            ),
{
    let stop = |square: Square| -> (stop: bool)
        requires
            square.valid(),
        ensures
            stop == not_held_by(board@, *team)(square),
        {
            match board.chip_at(&square) {
                Some(chip) => chip != *team,
                None => true,
            }
        };
    let runs = find_runs(origin, SEQUENCE_LENGTH, stop);
    proof {
        assert forall|d: int| 0 <= d < 4 implies (#[trigger] runs@[d])@ == free_line(
            not_held_by(board@, *team),
            *origin,
            d,
        ) by {
            lemma_walk_is_free_run(runs@[d]@, stop, not_held_by(board@, *team), *origin, d, 5);
            lemma_free_run_is_line(runs@[d]@, not_held_by(board@, *team), *origin, d);
        }
    }
    runs
}

/// For each line through `origin`, the squares next to it, up to five
/// either way, that no chip of another team interrupts: empty squares,
/// corners and squares of the team itself.
pub fn open_runs_for_team(board: &Board, origin: &Square, team: &Team) -> (runs: [Vec<Square>; 4])
    ensures
        forall|d: int|
            0 <= d < 4 ==> (#[trigger] runs@[d])@ == free_line(
                held_by_other(board@, *team),
                *origin,
                d,
            ),
{
    let stop = |square: Square| -> (stop: bool)
        requires
            square.valid(),
        ensures
            stop == held_by_other(board@, *team)(square),
        {
            match board.chip_at(&square) {
                Some(chip) => chip != *team,
                None => false,
            }
        };
    let runs = find_runs(origin, SEQUENCE_LENGTH, stop);
    proof {
        assert forall|d: int| 0 <= d < 4 implies (#[trigger] runs@[d])@ == free_line(
            held_by_other(board@, *team),
            *origin,
            d,
        ) by {
            lemma_walk_is_free_run(runs@[d]@, stop, held_by_other(board@, *team), *origin, d, 5);
            lemma_free_run_is_line(runs@[d]@, held_by_other(board@, *team), *origin, d);
        }
    }
    runs
}

/// A walk whose `stop` decides as `blocked` does passes the free squares.
proof fn lemma_walk_is_free_run<F: Fn(Square) -> bool>(
    run: Seq<Square>,
    stop: F,
    blocked: spec_fn(Square) -> bool,
    origin: Square,
    d: int,
    max: int,
)
    requires
        walked(run, stop, origin, d, max),
        forall|s: Square, b: bool| call_ensures(stop, (s,), b) ==> b == blocked(s),
    ensures
        free_run(run, blocked, origin, d, max),
{
}

/// Hands squares to `on_square`: those that lie one, two, three steps from
/// `origin`, each step `row_delta` rows and `col_delta` columns wide, at most
/// `max_distance` steps far, until a square lies off the board or
/// `on_square` returns `false`. Only squares on the board are handed over.
/// The farthest step must fit the range of its type. The walk is known by
/// what `on_square` answered: see `handed_on`.
pub fn traverse_in_direction<F: FnMut(Square) -> bool>(
    origin: &Square,
    row_delta: i8,
    col_delta: i8,
    max_distance: u8,
    on_square: &mut F,
)
    requires
        max_distance <= 127,
        -127 <= max_distance * row_delta <= 127,
        -127 <= max_distance * col_delta <= 127,
        forall|s: Square| s.valid() ==> call_requires(*old(on_square), (s,)),
    ensures
        *final(on_square) == *old(on_square),
        exists|n: int|
            #[trigger] handed_on(
                *old(on_square),
                *origin,
                row_delta as int,
                col_delta as int,
                max_distance as int,
                n,
            ),
{
    let ghost asked = *on_square;
    let mut i: u8 = 1;
    while i <= max_distance
        invariant
            max_distance <= 127,
            -127 <= max_distance * row_delta <= 127,
            -127 <= max_distance * col_delta <= 127,
            1 <= i <= max_distance + 1,
            *on_square == asked,
            asked == *old(on_square),
            forall|s: Square| s.valid() ==> call_requires(asked, (s,)),
            forall|k: int|
                1 <= k < i ==> (#[trigger] step_square(
                    *origin,
                    row_delta as int,
                    col_delta as int,
                    k,
                )).valid() && call_ensures(
                    asked,
                    (step_square(*origin, row_delta as int, col_delta as int, k),),
                    true,
                ),
        decreases max_distance + 1 - i,
    {
        assert(-127 <= i * row_delta <= 127) by (nonlinear_arith)
            requires
                1 <= i <= max_distance,
                -127 <= max_distance * row_delta <= 127,
        ;
        assert(-127 <= i * col_delta <= 127) by (nonlinear_arith)
            requires
                1 <= i <= max_distance,
                -127 <= max_distance * col_delta <= 127,
        ;
        let square = origin.plus((i as i8) * row_delta, (i as i8) * col_delta);
        assert(square == step_square(*origin, row_delta as int, col_delta as int, i as int));
        if !square.is_valid() || !on_square(square) {
            assert(handed_on(
                asked,
                *origin,
                row_delta as int,
                col_delta as int,
                max_distance as int,
                i - 1,
            ));
            return ;
        }
        i += 1;
    }
    assert(handed_on(
        asked,
        *origin,
        row_delta as int,
        col_delta as int,
        max_distance as int,
        max_distance as int,
    ));
}

/// Hands the squares around `origin` to `on_square`: for each of the four
/// lines its forward arm and then its backward arm, as
/// `traverse_in_direction` does, so that all eight arms are walked.
pub fn traverse<F: FnMut(Square) -> bool>(origin: &Square, max_distance: u8, on_square: &mut F)
    requires
        max_distance <= 127,
        forall|s: Square| s.valid() ==> call_requires(*old(on_square), (s,)),
    ensures
        *final(on_square) == *old(on_square),
        forall|d: int, forward: bool|
            0 <= d < 4 ==> #[trigger] arm_walked(
                *old(on_square),
                *origin,
                d,
                forward,
                max_distance as int,
            ),
{
    let ghost asked = *on_square;
    for d in 0..4usize
        invariant
            max_distance <= 127,
            *on_square == asked,
            forall|s: Square| s.valid() ==> call_requires(asked, (s,)),
            forall|e: int, forward: bool|
                0 <= e < d ==> #[trigger] arm_walked(
                    asked,
                    *origin,
                    e,
                    forward,
                    max_distance as int,
                ),
    {
        let (row_delta, col_delta) = line_step(d);
        assert(-127 <= max_distance * row_delta <= 127 && -127 <= max_distance * col_delta <= 127
            && -127 <= max_distance * (-row_delta) <= 127 && -127 <= max_distance * (-col_delta)
            <= 127) by (nonlinear_arith)
            requires
                max_distance <= 127,
                -1 <= row_delta <= 1,
                -1 <= col_delta <= 1,
        ;
        traverse_in_direction(origin, row_delta, col_delta, max_distance, on_square);
        assert(arm_walked(asked, *origin, d as int, true, max_distance as int));
        assert(-row_delta == cell_offset(d as int, false, 1).0 && -col_delta == cell_offset(
            d as int,
            false,
            1,
        ).1);
        traverse_in_direction(origin, -row_delta, -col_delta, max_distance, on_square);
        assert(arm_walked(asked, *origin, d as int, false, max_distance as int));
    }
}

/// The square `i` steps from `origin`, each step `row_delta` rows and
/// `col_delta` columns wide.
pub open spec fn step_square(origin: Square, row_delta: int, col_delta: int, i: int) -> Square {
    origin.shifted(i * row_delta, i * col_delta)
}

/// A walk that hands square after square to `on_square` goes on past `n`
/// squares: each of them lies on the board and `on_square` said to go on,
/// and the walk ended behind them because it had gone `max` steps far, or
/// the next square lies off the board, or that square was handed over too
/// and `on_square` said to stop.
pub open spec fn handed_on<F: FnMut(Square) -> bool>(
    on_square: F,
    origin: Square,
    row_delta: int,
    col_delta: int,
    max: int,
    n: int,
) -> bool {
    &&& 0 <= n <= max
    &&& forall|k: int|
        1 <= k <= n ==> (#[trigger] step_square(origin, row_delta, col_delta, k)).valid()
            && call_ensures(on_square, (step_square(origin, row_delta, col_delta, k),), true)
    &&& n < max ==> !step_square(origin, row_delta, col_delta, n + 1).valid() || call_ensures(
        on_square,
        (step_square(origin, row_delta, col_delta, n + 1),),
        false,
    )
}

/// The walk along one arm of line `d` through `origin` was made: square
/// after square was handed to `on_square`, as far as `handed_on` says.
pub open spec fn arm_walked<F: FnMut(Square) -> bool>(
    on_square: F,
    origin: Square,
    d: int,
    forward: bool,
    max: int,
) -> bool {
    exists|n: int|
        #[trigger] handed_on(
            on_square,
            origin,
            cell_offset(d, forward, 1).0,
            cell_offset(d, forward, 1).1,
            max,
            n,
        )
}

} // verus!
