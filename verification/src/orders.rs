//! Five chips in a line make a sequence in whatever order they are put down.

use vstd::prelude::*;

use crate::guarantees::{
    lemma_add_counts, lemma_blocked_run_is_not_recorded, lemma_chip_leaves_line,
    lemma_one_run_one_sequence, lemma_unbroken_run_is_recorded,
};
use crate::model::{arm_squares, cell, neighbor, BoardView, SequenceView};
use crate::runs::{
    lemma_arm_squares_members, lemma_cell_coords, lemma_cells_apart, lemma_reach_bounds,
    lemma_wrap_small,
};
use crate::square::Square;
use crate::team::Team;

verus! {

/// The square `i` steps from `s0` along line `d`.
pub open spec fn line_square(s0: Square, d: int, i: int) -> Square {
    neighbor(s0, d, i)
}

/// Five squares in line, from `s0` along line `d`: all of them playable,
/// and no corner next to either end.
pub open spec fn line_of_five(s0: Square, d: int) -> bool {
    &&& 0 <= d < 4
    &&& forall|i: int| 0 <= i < 5 ==> (#[trigger] line_square(s0, d, i)).playable()
    &&& !line_square(s0, d, -1).corner()
    &&& !line_square(s0, d, 5).corner()
}

/// An order in which to take the five squares: each of the numbers from
/// nought to four once.
pub open spec fn order_of_five(order: Seq<int>) -> bool {
    &&& order.len() == 5
    &&& forall|k: int| 0 <= k < 5 ==> 0 <= #[trigger] order[k] < 5
    &&& order.no_duplicates()
}

/// The square is one of the first `k` of the order.
pub open spec fn taken_before(s0: Square, d: int, order: Seq<int>, k: int, s: Square) -> bool {
    exists|j: int| 0 <= j < k && s == line_square(s0, d, #[trigger] order[j])
}

/// The board after the team has put chips on the first `k` squares of the order.
pub open spec fn built(b: BoardView, s0: Square, d: int, team: Team, order: Seq<int>, k: int) -> BoardView
    decreases k,
{
    if k <= 0 {
        b
    } else {
        built(b, s0, d, team, order, k - 1).after_add(line_square(s0, d, order[k - 1]), team)
    }
}

/// The `k`-th chip of the order, counted from one, completes a run.
pub open spec fn reports(b: BoardView, s0: Square, d: int, team: Team, order: Seq<int>, k: int) -> bool {
    built(b, s0, d, team, order, k - 1).with_chip(
        line_square(s0, d, order[k - 1]),
        team,
    ).completes_any(line_square(s0, d, order[k - 1]), team)
}

/// A board without sequences that holds chips of the team on the first `k`
/// squares of the order and nowhere else.
pub open spec fn bare(b: BoardView, s0: Square, d: int, team: Team, order: Seq<int>, k: int) -> BoardView {
    BoardView {
        cards: b.cards,
        chips: Map::new(|s: Square| taken_before(s0, d, order, k, s), |s: Square| team),
        sequences: Seq::empty(),
    }
}

/// Squares of a line of five lie where their numbers say.
pub proof fn lemma_line_coords(s0: Square, d: int, i: int)
    requires
        s0.valid(),
        0 <= d < 4,
        -5 <= i <= 9,
    ensures
        ({
            let q = line_square(s0, d, i);
            let dr = if d == 0 { 0int } else { i };
            let dc = if d == 0 { i } else if d == 1 { i } else if d == 2 { 0int } else { -i };
            &&& q.valid() <==> 0 <= s0.row + dr < 10 && 0 <= s0.col + dc < 10
            &&& q.valid() ==> q.row == s0.row + dr && q.col == s0.col + dc
        }),
{
    let dr = if d == 0 { 0int } else { i };
    let dc = if d == 0 { i } else if d == 1 { i } else if d == 2 { 0int } else { -i };
    lemma_wrap_small(s0.row + dr);
    lemma_wrap_small(s0.col + dc);
}

/// The squares around a square of the line are squares of the line.
pub proof fn lemma_line_cells(s0: Square, d: int, m: int, forward: bool, i: int)
    requires
        s0.valid(),
        0 <= d < 4,
        0 <= m <= 4,
        line_square(s0, d, m).valid(),
        1 <= i <= 4,
    ensures
        cell(line_square(s0, d, m), d, forward, i) == line_square(
            s0,
            d,
            if forward {
                m + i
            } else {
                m - i
            },
        ),
{
    let src = line_square(s0, d, m);
    let to = if forward { m + i } else { m - i };
    lemma_line_coords(s0, d, m);
    lemma_line_coords(s0, d, to);
    let k = if forward { i } else { -i };
    let dr = if d == 0 { 0int } else { k };
    let dc = if d == 0 { k } else if d == 1 { k } else if d == 2 { 0int } else { -k };
    lemma_wrap_small(src.row + dr);
    lemma_wrap_small(src.col + dc);
    let tr = if d == 0 { 0int } else { to };
    let tc = if d == 0 { to } else if d == 1 { to } else if d == 2 { 0int } else { -to };
    lemma_wrap_small(s0.row + tr);
    lemma_wrap_small(s0.col + tc);
}

/// Beyond a corner the board ends.
pub proof fn lemma_beyond_corner(src: Square, d: int, forward: bool, i: int)
    requires
        src.valid(),
        0 <= d < 4,
        1 <= i <= 3,
        cell(src, d, forward, i).valid(),
        cell(src, d, forward, i).corner(),
    ensures
        !cell(src, d, forward, i + 1).valid(),
{
    lemma_cell_coords(src, d, forward, i);
    lemma_cell_coords(src, d, forward, i + 1);
}

/// Along a line without a chip of the team, the run through a new chip is
/// three squares long at most: the chip and a corner at either side.
pub proof fn lemma_bare_line_is_short(c: BoardView, src: Square, e: int, team: Team)
    requires
        src.valid(),
        0 <= e < 4,
        forall|forward: bool, i: int|
            1 <= i <= 4 ==> c.chip_at(#[trigger] cell(src, e, forward, i)) != Some(team),
    ensures
        c.with_chip(src, team).run_length(src, e, team) <= 3,
        !c.with_chip(src, team).completes(src, e, team),
{
    let placed = c.with_chip(src, team);
    assert forall|forward: bool, used: bool| #[trigger]
        placed.reach(src, e, forward, team, used) <= 1 by {
        lemma_reach_bounds(placed, src, e, forward, team, used);
        if placed.reach(src, e, forward, team, used) >= 2 {
            assert(placed.extends(src, e, forward, 1, team));
            assert(placed.extends(src, e, forward, 2, team));
            lemma_chip_leaves_line(c, src, team, e, forward, 1, team);
            assert(c.chip_at(cell(src, e, forward, 1)) != Some(team));
            lemma_beyond_corner(src, e, forward, 1);
        }
    }
}

/// Different numbers name different squares of a line.
pub proof fn lemma_lines_differ(s0: Square, d: int, a: int, b: int)
    requires
        s0.valid(),
        0 <= d < 4,
        -1 <= a <= 5,
        -1 <= b <= 5,
        line_square(s0, d, a).valid(),
        a != b,
    ensures
        line_square(s0, d, a) != line_square(s0, d, b),
{
    lemma_line_coords(s0, d, a);
    lemma_line_coords(s0, d, b);
}

/// The first square of a line of five is the one the line starts from.
pub proof fn lemma_line_start(s0: Square, d: int)
    requires
        line_of_five(s0, d),
    ensures
        s0.playable(),
        line_square(s0, d, 0) == s0,
{
    let q = line_square(s0, d, 0);
    assert(q.playable());
    lemma_wrap_small(s0.row as int);
    lemma_wrap_small(s0.col as int);
}

/// What a bare board holds: it keeps the invariants, a chip of the team lies
/// on the squares taken and on no other, and nothing is protected.
pub proof fn lemma_bare_board(b: BoardView, s0: Square, d: int, team: Team, order: Seq<int>, k: int)
    requires
        b.wf(),
        line_of_five(s0, d),
        order_of_five(order),
        0 <= k <= 5,
    ensures
        bare(b, s0, d, team, order, k).wf(),
        forall|s: Square|
            #[trigger] bare(b, s0, d, team, order, k).chip_at(s) == if taken_before(
                s0,
                d,
                order,
                k,
                s,
            ) {
                Some(team)
            } else {
                None
            },
        forall|s: Square| !#[trigger] bare(b, s0, d, team, order, k).protected(s),
        bare(b, s0, d, team, order, k).sequence_count(team) == 0,
{
    let c = bare(b, s0, d, team, order, k);
    assert forall|s: Square| #[trigger] c.chips.dom().contains(s) implies s.playable() by {
        let j = choose|j: int| 0 <= j < k && s == line_square(s0, d, #[trigger] order[j]);
        assert(line_square(s0, d, order[j]).playable());
    }
    assert(c.sequences.filter(|q: SequenceView| q.team == team) =~= Seq::<SequenceView>::empty())
        by {
        reveal_with_fuel(Seq::filter, 1);
    }
}

/// A square of the line is among the first `k` of the order exactly if its
/// number is.
pub proof fn lemma_taken(s0: Square, d: int, order: Seq<int>, k: int, x: int)
    requires
        line_of_five(s0, d),
        order_of_five(order),
        0 <= k <= 5,
        -1 <= x <= 5,
    ensures
        taken_before(s0, d, order, k, line_square(s0, d, x)) <==> exists|j: int|
            0 <= j < k && #[trigger] order[j] == x,
{
    lemma_line_start(s0, d);
    if taken_before(s0, d, order, k, line_square(s0, d, x)) {
        let j = choose|j: int|
            0 <= j < k && line_square(s0, d, x) == line_square(s0, d, #[trigger] order[j]);
        assert(line_square(s0, d, order[j]).playable());
        if order[j] != x {
            lemma_lines_differ(s0, d, order[j], x);
        }
    }
}

/// A square on another line through a square of the line of five is not a
/// square of the line of five.
pub proof fn lemma_off_the_line(
    s0: Square,
    d: int,
    order: Seq<int>,
    k: int,
    m: int,
    e: int,
    forward: bool,
    i: int,
)
    requires
        line_of_five(s0, d),
        order_of_five(order),
        0 <= k <= 5,
        0 <= m < 5,
        0 <= e < 4,
        e != d,
        1 <= i <= 4,
    ensures
        !taken_before(s0, d, order, k, cell(line_square(s0, d, m), e, forward, i)),
{
    lemma_line_start(s0, d);
    let src = line_square(s0, d, m);
    let q = cell(src, e, forward, i);
    assert(src.playable());
    if taken_before(s0, d, order, k, q) {
        let j = choose|j: int| 0 <= j < k && q == line_square(s0, d, #[trigger] order[j]);
        let x = order[j];
        assert(line_square(s0, d, x).playable());
        if x == m {
            lemma_cell_coords(src, e, forward, i);
        } else if x > m {
            lemma_line_cells(s0, d, m, true, x - m);
            lemma_cells_apart(src, e, forward, i, d, true, x - m);
        } else {
            lemma_line_cells(s0, d, m, false, m - x);
            lemma_cells_apart(src, e, forward, i, d, false, m - x);
        }
    }
}

/// With one of the five squares still empty, a chip on another of them
/// completes nothing.
pub proof fn lemma_early_chip(b: BoardView, s0: Square, d: int, team: Team, order: Seq<int>, k: int)
    requires
        b.wf(),
        line_of_five(s0, d),
        order_of_five(order),
        1 <= k <= 4,
    ensures
        bare(b, s0, d, team, order, k - 1).can_add(line_square(s0, d, order[k - 1])),
        !bare(b, s0, d, team, order, k - 1).with_chip(
            line_square(s0, d, order[k - 1]),
            team,
        ).completes_any(line_square(s0, d, order[k - 1]), team),
        bare(b, s0, d, team, order, k - 1).after_add(line_square(s0, d, order[k - 1]), team)
            == bare(b, s0, d, team, order, k),
{
    let c = bare(b, s0, d, team, order, k - 1);
    let m = order[k - 1];
    let src = line_square(s0, d, m);
    let placed = c.with_chip(src, team);
    lemma_line_start(s0, d);
    lemma_bare_board(b, s0, d, team, order, k - 1);
    assert(src.playable());
    lemma_taken(s0, d, order, k - 1, m);
    assert(c.can_add(src));
    // the last square of the order is still empty
    let open = order[4];
    lemma_taken(s0, d, order, k - 1, open);
    lemma_taken(s0, d, order, k - 1, -1);
    lemma_taken(s0, d, order, k - 1, 5);
    assert(line_square(s0, d, open).playable());
    lemma_line_coords(s0, d, -1);
    lemma_line_coords(s0, d, 5);
    if open > m {
        lemma_line_cells(s0, d, m, true, open - m);
        lemma_line_cells(s0, d, m, false, m + 1);
        assert(!c.extends(src, d, true, open - m, team));
        assert(!c.extends(src, d, false, m + 1, team));
        lemma_blocked_run_is_not_recorded(c, src, team, d, open - m, m + 1);
    } else {
        lemma_line_cells(s0, d, m, false, m - open);
        lemma_line_cells(s0, d, m, true, 5 - m);
        assert(!c.extends(src, d, false, m - open, team));
        assert(!c.extends(src, d, true, 5 - m, team));
        lemma_blocked_run_is_not_recorded(c, src, team, d, 5 - m, m - open);
    }
    assert forall|e: int| 0 <= e < 4 implies !#[trigger] placed.completes(src, e, team) by {
        if e != d {
            assert forall|forward: bool, i: int| 1 <= i <= 4 implies c.chip_at(
                #[trigger] cell(src, e, forward, i),
            ) != Some(team) by {
                lemma_off_the_line(s0, d, order, k - 1, m, e, forward, i);
            }
            lemma_bare_line_is_short(c, src, e, team);
        }
    }
    lemma_add_counts(c, src, team, team);
    assert(c.after_add(src, team).chips =~= bare(b, s0, d, team, order, k).chips) by {
        assert forall|s: Square|
            taken_before(s0, d, order, k, s) <==> taken_before(s0, d, order, k - 1, s) || s
                == src by {
            if taken_before(s0, d, order, k, s) {
                let j = choose|j: int| 0 <= j < k && s == line_square(s0, d, #[trigger] order[j]);
                if j < k - 1 {
                    assert(taken_before(s0, d, order, k - 1, s));
                }
            }
            if taken_before(s0, d, order, k - 1, s) {
                let j = choose|j: int|
                    0 <= j < k - 1 && s == line_square(s0, d, #[trigger] order[j]);
                assert(0 <= j < k && s == line_square(s0, d, order[j]));
            }
            if s == src {
                assert(0 <= k - 1 < k && s == line_square(s0, d, order[k - 1]));
            }
        }
    }
}

/// As long as one of the five squares is empty no chip reports a sequence,
/// and the board stays bare.
pub proof fn lemma_built_is_bare(b: BoardView, s0: Square, d: int, team: Team, order: Seq<int>, k: int)
    requires
        b.wf(),
        forall|s: Square| !b.chips.dom().contains(s),
        b.sequences.len() == 0,
        line_of_five(s0, d),
        order_of_five(order),
        0 <= k <= 4,
    ensures
        built(b, s0, d, team, order, k) == bare(b, s0, d, team, order, k),
        forall|j: int| 1 <= j <= k ==> !#[trigger] reports(b, s0, d, team, order, j),
    decreases k,
{
    if k == 0 {
        assert(bare(b, s0, d, team, order, 0).chips =~= b.chips);
        assert(bare(b, s0, d, team, order, 0).sequences =~= b.sequences);
    } else {
        lemma_built_is_bare(b, s0, d, team, order, k - 1);
        lemma_early_chip(b, s0, d, team, order, k);
    }
}

/// An order of five takes every number from nought to four.
pub proof fn lemma_order_covers(order: Seq<int>, x: int)
    requires
        order_of_five(order),
        0 <= x < 5,
    ensures
        exists|j: int| 0 <= j < 5 && #[trigger] order[j] == x,
{
    if forall|j: int| 0 <= j < 5 ==> #[trigger] order[j] != x {
        let a = order[0];
        let b = order[1];
        let c = order[2];
        let e = order[3];
        let f = order[4];
        assert(a != b && a != c && a != e && a != f && b != c && b != e && b != f && c != e && c
            != f && e != f);
        assert(false);
    }
}

/// The square is one of the five of the line.
pub open spec fn on_line(s0: Square, d: int, s: Square) -> bool {
    exists|x: int| 0 <= x < 5 && s == #[trigger] line_square(s0, d, x)
}

/// With four of the five squares taken, the run through the fifth is
/// unbroken from one end of the line to the other and ends there.
proof fn lemma_fifth_unbroken(b: BoardView, s0: Square, d: int, team: Team, order: Seq<int>)
    requires
        b.wf(),
        line_of_five(s0, d),
        order_of_five(order),
    ensures
        bare(b, s0, d, team, order, 4).wf(),
        bare(b, s0, d, team, order, 4).can_add(line_square(s0, d, order[4])),
        crate::guarantees::unbroken_run(
            bare(b, s0, d, team, order, 4),
            line_square(s0, d, order[4]),
            d,
            team,
            4 - order[4],
            order[4],
        ),
        crate::guarantees::at_most_one_protected(
            bare(b, s0, d, team, order, 4),
            line_square(s0, d, order[4]),
            d,
            4 - order[4],
            order[4],
        ),
{
    let c = bare(b, s0, d, team, order, 4);
    let m = order[4];
    let src = line_square(s0, d, m);
    let ahead = 4 - m;
    let behind = m;
    lemma_line_start(s0, d);
    lemma_bare_board(b, s0, d, team, order, 4);
    assert(src.playable());
    lemma_taken(s0, d, order, 4, m);
    lemma_taken(s0, d, order, 4, -1);
    lemma_taken(s0, d, order, 4, 5);
    lemma_line_coords(s0, d, -1);
    lemma_line_coords(s0, d, 5);
    assert forall|i: int| 1 <= i <= ahead implies #[trigger] c.extends(src, d, true, i, team) by {
        lemma_line_cells(s0, d, m, true, i);
        assert(line_square(s0, d, m + i).playable());
        lemma_order_covers(order, m + i);
        lemma_taken(s0, d, order, 4, m + i);
    }
    assert forall|i: int| 1 <= i <= behind implies #[trigger] c.extends(src, d, false, i, team) by {
        lemma_line_cells(s0, d, m, false, i);
        assert(line_square(s0, d, m - i).playable());
        lemma_order_covers(order, m - i);
        lemma_taken(s0, d, order, 4, m - i);
    }
    if ahead < 4 {
        lemma_line_cells(s0, d, m, true, 5 - m);
        assert(!c.extends(src, d, true, ahead + 1, team));
    }
    if behind < 4 {
        lemma_line_cells(s0, d, m, false, m + 1);
        assert(!c.extends(src, d, false, behind + 1, team));
    }
}

/// With four of the five squares taken, the chip on the fifth completes no
/// run along another line.
proof fn lemma_fifth_alone(b: BoardView, s0: Square, d: int, team: Team, order: Seq<int>)
    requires
        b.wf(),
        line_of_five(s0, d),
        order_of_five(order),
    ensures
        forall|e: int|
            0 <= e < 4 && e != d ==> !#[trigger] bare(b, s0, d, team, order, 4).with_chip(
                line_square(s0, d, order[4]),
                team,
            ).completes(line_square(s0, d, order[4]), e, team),
{
    let c = bare(b, s0, d, team, order, 4);
    let m = order[4];
    let src = line_square(s0, d, m);
    lemma_line_start(s0, d);
    lemma_bare_board(b, s0, d, team, order, 4);
    assert(src.playable());
    assert forall|e: int| 0 <= e < 4 && e != d implies !#[trigger] c.with_chip(
        src,
        team,
    ).completes(src, e, team) by {
        assert forall|forward: bool, i: int| 1 <= i <= 4 implies c.chip_at(
            #[trigger] cell(src, e, forward, i),
        ) != Some(team) by {
            lemma_off_the_line(s0, d, order, 4, m, e, forward, i);
        }
        lemma_bare_line_is_short(c, src, e, team);
    }
}

/// The run from one end of the line to the other, listed from its `m`-th
/// square, holds the five squares of the line.
proof fn lemma_line_run_members(s0: Square, d: int, m: int, q: Square)
    requires
        line_of_five(s0, d),
        0 <= m < 5,
    ensures
        (seq![line_square(s0, d, m)] + arm_squares(line_square(s0, d, m), d, true, 4 - m)
            + arm_squares(line_square(s0, d, m), d, false, m)).contains(q) <==> on_line(s0, d, q),
{
    let src = line_square(s0, d, m);
    let front = arm_squares(src, d, true, 4 - m);
    let back = arm_squares(src, d, false, m);
    let run = seq![src] + front + back;
    lemma_line_start(s0, d);
    assert(src.playable());
    lemma_arm_squares_members(src, d, true, 4 - m, q);
    lemma_arm_squares_members(src, d, false, m, q);
    if run.contains(q) {
        let at = choose|at: int| 0 <= at < run.len() && run[at] == q;
        if at == 0 {
            assert(q == line_square(s0, d, m));
        } else if at < 1 + front.len() {
            assert(front[at - 1] == q);
            assert(front.contains(q));
            let i = choose|i: int|
                1 <= i <= 4 - m && q == #[trigger] cell(src, d, true, i) && !q.corner();
            lemma_line_cells(s0, d, m, true, i);
            assert(q == line_square(s0, d, m + i));
        } else {
            assert(back[at - 1 - front.len()] == q);
            assert(back.contains(q));
            let i = choose|i: int|
                1 <= i <= m && q == #[trigger] cell(src, d, false, i) && !q.corner();
            lemma_line_cells(s0, d, m, false, i);
            assert(q == line_square(s0, d, m - i));
        }
    }
    if on_line(s0, d, q) {
        let x = choose|x: int| 0 <= x < 5 && q == #[trigger] line_square(s0, d, x);
        assert(line_square(s0, d, x).playable());
        if x == m {
            assert(run[0] == q);
        } else if x > m {
            lemma_line_cells(s0, d, m, true, x - m);
            assert(q == cell(src, d, true, x - m));
            assert(front.contains(q));
            let j = choose|j: int| 0 <= j < front.len() && front[j] == q;
            assert(run[1 + j] == q);
        } else {
            lemma_line_cells(s0, d, m, false, m - x);
            assert(q == cell(src, d, false, m - x));
            assert(back.contains(q));
            let j = choose|j: int| 0 <= j < back.len() && back[j] == q;
            assert(run[1 + front.len() + j] == q);
        }
    }
}

/// With four of the five squares taken, the chip on the fifth completes one
/// run, which holds the five squares.
pub proof fn lemma_fifth_chip(b: BoardView, s0: Square, d: int, team: Team, order: Seq<int>)
    requires
        b.wf(),
        line_of_five(s0, d),
        order_of_five(order),
    ensures
        bare(b, s0, d, team, order, 4).with_chip(line_square(s0, d, order[4]), team).completes_any(
            line_square(s0, d, order[4]),
            team,
        ),
        ({
            let end = bare(b, s0, d, team, order, 4).after_add(line_square(s0, d, order[4]), team);
            &&& end.sequences.len() == 1
            &&& end.sequences[0].team == team
            &&& end.sequence_count(team) == 1
            &&& forall|q: Square| #[trigger] end.sequences[0].squares.contains(q) <==> on_line(s0, d, q)
        }),
{
    let c = bare(b, s0, d, team, order, 4);
    let m = order[4];
    let src = line_square(s0, d, m);
    let placed = c.with_chip(src, team);
    lemma_bare_board(b, s0, d, team, order, 4);
    lemma_fifth_unbroken(b, s0, d, team, order);
    lemma_fifth_alone(b, s0, d, team, order);
    lemma_unbroken_run_is_recorded(c, src, team, d, 4 - m, m);
    lemma_one_run_one_sequence(c, src, team, d);
    let end = c.after_add(src, team);
    assert(end.sequences[0].squares == placed.run_squares(src, d, team));
    assert forall|q: Square| #[trigger] end.sequences[0].squares.contains(q) <==> on_line(
        s0,
        d,
        q,
    ) by {
        lemma_line_run_members(s0, d, m, q);
    }
}

/// Five chips of one team in a line make one sequence, whatever the order
/// in which they are put down. On a board that is empty, with five playable
/// squares in line along any of the four lines and no corner next to either
/// end, the first four chips report nothing and leave no sequence, in any
/// order; the fifth chip reports a sequence, the only one on the board; it
/// belongs to the team and holds the five squares, and these five squares
/// and no others are protected.
pub proof fn lemma_five_in_any_order(b: BoardView, s0: Square, d: int, team: Team, order: Seq<int>)
    requires
        b.wf(),
        forall|s: Square| !b.chips.dom().contains(s),
        b.sequences.len() == 0,
        line_of_five(s0, d),
        order_of_five(order),
    ensures
        forall|k: int| 1 <= k <= 4 ==> !#[trigger] reports(b, s0, d, team, order, k),
        forall|k: int|
            0 <= k <= 4 ==> (#[trigger] built(b, s0, d, team, order, k)).sequences.len() == 0,
        reports(b, s0, d, team, order, 5),
        built(b, s0, d, team, order, 5).sequences.len() == 1,
        built(b, s0, d, team, order, 5).sequences[0].team == team,
        built(b, s0, d, team, order, 5).sequence_count(team) == 1,
        forall|q: Square|
            #[trigger] built(b, s0, d, team, order, 5).sequences[0].squares.contains(q)
                <==> on_line(s0, d, q),
        forall|q: Square|
            #[trigger] built(b, s0, d, team, order, 5).protected(q) <==> on_line(s0, d, q),
{
    assert forall|k: int| 0 <= k <= 4 implies (#[trigger] built(
        b,
        s0,
        d,
        team,
        order,
        k,
    )).sequences.len() == 0 by {
        lemma_built_is_bare(b, s0, d, team, order, k);
    }
    lemma_built_is_bare(b, s0, d, team, order, 4);
    lemma_fifth_chip(b, s0, d, team, order);
    let end = built(b, s0, d, team, order, 5);
    assert(end == bare(b, s0, d, team, order, 4).after_add(line_square(s0, d, order[4]), team));
    assert forall|q: Square| #[trigger] end.protected(q) <==> on_line(s0, d, q) by {
        if end.protected(q) {
            let i = choose|i: int|
                0 <= i < end.sequences.len() && (#[trigger] end.sequences[i]).squares.contains(q);
            assert(end.sequences[0].squares.contains(q));
        }
        if on_line(s0, d, q) {
            assert(end.sequences[0].squares.contains(q));
        }
    }
}

} // verus!
