//! What the rules of the board guarantee, proved of the model that every
//! `Board` follows.

use vstd::prelude::*;

use crate::counting::lemma_playable_subset;
use crate::model::{arm_squares, cell, BoardView, SequenceView};
use crate::runs::{
    lemma_arm_squares_members, lemma_cell_coords, lemma_reach_bounds, lemma_reach_is,
    lemma_run_squares_distinct, lemma_run_squares_members, lemma_searched_protects, searched,
};
use crate::square::Square;
use crate::team::Team;

verus! {

/// Among the first `ahead` squares forward and the first `behind` squares
/// backward of `src` along line `d`, at most one is protected.
pub open spec fn at_most_one_protected(
    b: BoardView,
    src: Square,
    d: int,
    ahead: int,
    behind: int,
) -> bool {
    &&& forall|i: int, j: int|
        1 <= i < j <= ahead ==> !(#[trigger] b.overlap(src, d, true, i) && #[trigger] b.overlap(
            src,
            d,
            true,
            j,
        ))
    &&& forall|i: int, j: int|
        1 <= i < j <= behind ==> !(#[trigger] b.overlap(src, d, false, i) && #[trigger] b.overlap(
            src,
            d,
            false,
            j,
        ))
    &&& forall|i: int, j: int|
        1 <= i <= ahead && 1 <= j <= behind ==> !(#[trigger] b.overlap(src, d, true, i)
            && #[trigger] b.overlap(src, d, false, j))
}

/// The squares `ahead` forward and `behind` backward of `src` along line `d`
/// are exactly the ones that continue a run of `team` through `src`: each
/// lies on the board and counts for the team, and the next square on either
/// side, if within four steps, does not.
pub open spec fn unbroken_run(
    b: BoardView,
    src: Square,
    d: int,
    team: Team,
    ahead: int,
    behind: int,
) -> bool {
    &&& 0 <= ahead <= 4
    &&& 0 <= behind <= 4
    &&& forall|i: int| 1 <= i <= ahead ==> #[trigger] b.extends(src, d, true, i, team)
    &&& forall|i: int| 1 <= i <= behind ==> #[trigger] b.extends(src, d, false, i, team)
    &&& ahead < 4 ==> !b.extends(src, d, true, ahead + 1, team)
    &&& behind < 4 ==> !b.extends(src, d, false, behind + 1, team)
}

/// A chip put on `src` changes nothing about the other squares of a line
/// through `src`.
pub proof fn lemma_chip_leaves_line(
    b: BoardView,
    src: Square,
    owner: Team,
    d: int,
    forward: bool,
    i: int,
    team: Team,
)
    requires
        src.valid(),
        1 <= i <= 4,
    ensures
        b.with_chip(src, owner).extends(src, d, forward, i, team) == b.extends(
            src,
            d,
            forward,
            i,
            team,
        ),
        b.with_chip(src, owner).overlap(src, d, forward, i) == b.overlap(src, d, forward, i),
{
    lemma_cell_coords(src, d, forward, i);
}

/// Five or more in a row make a sequence, whichever chip of the run comes
/// last. When a chip goes down on `src` and the run through it along line
/// `d` is unbroken for `ahead` squares one way and `behind` the other, five
/// or more squares in all, of which at most one is protected already, then
/// the whole run is found, however long it is, and recorded with all its
/// chipped squares.
pub proof fn lemma_unbroken_run_is_recorded(
    b: BoardView,
    src: Square,
    team: Team,
    d: int,
    ahead: int,
    behind: int,
)
    requires
        b.wf(),
        b.can_add(src),
        0 <= d < 4,
        unbroken_run(b, src, d, team, ahead, behind),
        at_most_one_protected(b, src, d, ahead, behind),
        1 + ahead + behind >= 5,
    ensures
        b.with_chip(src, team).forward_reach(src, d, team) == ahead,
        b.with_chip(src, team).backward_reach(src, d, team) == behind,
        b.with_chip(src, team).completes(src, d, team),
        b.with_chip(src, team).run_squares(src, d, team) == seq![src] + arm_squares(
            src,
            d,
            true,
            ahead,
        ) + arm_squares(src, d, false, behind),
        exists|k: int|
            b.sequences.len() <= k < b.after_add(src, team).sequences.len() && #[trigger] b.after_add(
                src,
                team,
            ).sequences[k] == (SequenceView {
                team,
                squares: b.with_chip(src, team).run_squares(src, d, team),
            }),
{
    let placed = b.with_chip(src, team);
    lemma_run_measures(b, src, team, d, ahead, behind);
    lemma_completed_run_is_listed(placed, src, team, d, 4);
    let run = SequenceView { team, squares: placed.run_squares(src, d, team) };
    let k = choose|k: int|
        placed.sequences.len() <= k < placed.recorded_after(src, team, 4).len()
            && #[trigger] placed.recorded_after(src, team, 4)[k] == run;
    assert(b.after_add(src, team).sequences[k] == run);
}

/// The measure of an unbroken run with at most one protected square.
proof fn lemma_run_measures(
    b: BoardView,
    src: Square,
    team: Team,
    d: int,
    ahead: int,
    behind: int,
)
    requires
        src.valid(),
        unbroken_run(b, src, d, team, ahead, behind),
        at_most_one_protected(b, src, d, ahead, behind),
    ensures
        b.with_chip(src, team).forward_reach(src, d, team) == ahead,
        b.with_chip(src, team).backward_reach(src, d, team) == behind,
{
    let placed = b.with_chip(src, team);
    assert forall|forward: bool, i: int| 1 <= i <= 4 implies #[trigger] placed.extends(
        src,
        d,
        forward,
        i,
        team,
    ) == b.extends(src, d, forward, i, team) by {
        lemma_chip_leaves_line(b, src, team, d, forward, i, team);
    }
    assert forall|forward: bool, i: int| 1 <= i <= 4 implies #[trigger] placed.overlap(
        src,
        d,
        forward,
        i,
    ) == b.overlap(src, d, forward, i) by {
        lemma_chip_leaves_line(b, src, team, d, forward, i, team);
    }
    if ahead < 4 {
        assert(!placed.extends(src, d, true, ahead + 1, team));
    }
    lemma_reach_is(placed, src, d, true, team, false, ahead);
    let used = placed.touches(src, d, true, ahead);
    if behind < 4 {
        assert(!placed.extends(src, d, false, behind + 1, team));
    }
    lemma_reach_is(placed, src, d, false, team, used, behind);
}

/// A run that is long enough along one of the lines searched is in the list
/// of sequences afterwards, behind all that were there before.
proof fn lemma_completed_run_is_listed(
    placed: BoardView,
    src: Square,
    team: Team,
    d: int,
    n: int,
)
    requires
        0 <= d < n <= 4,
        placed.completes(src, d, team),
    ensures
        exists|k: int|
            placed.sequences.len() <= k < placed.recorded_after(src, team, n).len()
                && #[trigger] placed.recorded_after(src, team, n)[k] == (SequenceView {
                team,
                squares: placed.run_squares(src, d, team),
            }),
    decreases n,
{
    lemma_recorded_grows(placed, src, team, n - 1);
    let earlier = placed.recorded_after(src, team, n - 1);
    let now = placed.recorded_after(src, team, n);
    if d == n - 1 {
        assert(now[earlier.len() as int] == (SequenceView {
            team,
            squares: placed.run_squares(src, d, team),
        }));
    } else {
        lemma_completed_run_is_listed(placed, src, team, d, n - 1);
        let k = choose|k: int|
            placed.sequences.len() <= k < earlier.len() && #[trigger] earlier[k] == (SequenceView {
                team,
                squares: placed.run_squares(src, d, team),
            });
        assert(now[k] == earlier[k]);
    }
}

/// Recorded sequences are permanent: a search appends to the list and leaves
/// every earlier entry as it was.
pub proof fn lemma_recorded_grows(placed: BoardView, src: Square, team: Team, n: int)
    ensures
        placed.sequences.len() <= placed.recorded_after(src, team, n).len(),
        forall|k: int|
            0 <= k < placed.sequences.len() ==> #[trigger] placed.recorded_after(src, team, n)[k]
                == placed.sequences[k],
        forall|k: int|
            placed.sequences.len() <= k < placed.recorded_after(src, team, n).len() ==> (
            #[trigger] placed.recorded_after(src, team, n)[k]).team == team && placed.recorded_after(
                src,
                team,
                n,
            )[k].squares.len() > 0 && placed.recorded_after(src, team, n)[k].squares[0] == src,
    decreases n,
{
    if n > 0 {
        lemma_recorded_grows(placed, src, team, n - 1);
    }
}

/// A chip that completes a run along exactly one line adds exactly one
/// sequence: the list of sequences grows by that run and nothing else, and
/// the team owns one sequence more than before.
pub proof fn lemma_one_run_one_sequence(b: BoardView, src: Square, team: Team, d: int)
    requires
        0 <= d < 4,
        b.with_chip(src, team).completes(src, d, team),
        forall|e: int|
            0 <= e < 4 && e != d ==> !#[trigger] b.with_chip(src, team).completes(src, e, team),
    ensures
        b.after_add(src, team).sequences == b.sequences.push(
            SequenceView { team, squares: b.with_chip(src, team).run_squares(src, d, team) },
        ),
        b.after_add(src, team).sequence_count(team) == b.sequence_count(team) + 1,
{
    let placed = b.with_chip(src, team);
    reveal_with_fuel(BoardView::recorded_after, 5);
    let run = SequenceView { team, squares: placed.run_squares(src, d, team) };
    lemma_count_after_push(b.sequences, run, team);
}

/// A new sequence adds one to its owner's count and nothing to any other
/// team's.
pub proof fn lemma_count_after_push(list: Seq<SequenceView>, run: SequenceView, team: Team)
    ensures
        list.push(run).filter(|q: SequenceView| q.team == team).len() == list.filter(
            |q: SequenceView| q.team == team,
        ).len() + if run.team == team {
            1int
        } else {
            0int
        },
{
    assert(list.push(run).drop_last() =~= list);
    reveal_with_fuel(Seq::filter, 2);
}

/// A run that an opposing chip, an empty square or the edge of the board
/// interrupts makes no sequence: when the `i`-th square one way and the
/// `j`-th square the other way do not continue the run, and fewer than five
/// squares lie between them, nothing is recorded along that line, whatever
/// stands beyond.
pub proof fn lemma_blocked_run_is_not_recorded(
    b: BoardView,
    src: Square,
    team: Team,
    d: int,
    i: int,
    j: int,
)
    requires
        src.valid(),
        1 <= i <= 4,
        1 <= j <= 4,
        !b.extends(src, d, true, i, team),
        !b.extends(src, d, false, j, team),
        i + j <= 5,
    ensures
        b.with_chip(src, team).run_length(src, d, team) <= i + j - 1,
        !b.with_chip(src, team).completes(src, d, team),
{
    let placed = b.with_chip(src, team);
    lemma_chip_leaves_line(b, src, team, d, true, i, team);
    lemma_chip_leaves_line(b, src, team, d, false, j, team);
    lemma_reach_stops(placed, src, d, true, team, false, i);
    lemma_reach_stops(
        placed,
        src,
        d,
        false,
        team,
        placed.touches(src, d, true, placed.forward_reach(src, d, team)),
        j,
    );
}

/// An arm reaches no square at or beyond one that does not continue the run.
pub proof fn lemma_reach_stops(
    b: BoardView,
    src: Square,
    d: int,
    forward: bool,
    team: Team,
    used: bool,
    i: int,
)
    requires
        1 <= i <= 4,
        !b.extends(src, d, forward, i, team),
    ensures
        b.reach(src, d, forward, team, used) < i,
{
    lemma_reach_bounds(b, src, d, forward, team, used);
}

/// Every square of a run that a chip completes holds a chip of the team, so
/// no sequence ever spans an opposing chip or an empty square.
pub proof fn lemma_run_holds_own_chips(
    b: BoardView,
    src: Square,
    team: Team,
    d: int,
    q: Square,
)
    requires
        b.wf(),
        b.can_add(src),
        b.with_chip(src, team).run_squares(src, d, team).contains(q),
    ensures
        q.playable(),
        b.with_chip(src, team).chip_at(q) == Some(team),
{
    lemma_run_squares_members(b.with_chip(src, team), src, d, team, q);
}

/// Runs apart stay apart: a run that is unbroken, five squares long or more
/// and free of protected squares is recorded whole, every sequence recorded
/// before stays as it was, and the new one shares no square with any of them.
pub proof fn lemma_separate_run_shares_nothing(
    b: BoardView,
    src: Square,
    team: Team,
    d: int,
    ahead: int,
    behind: int,
)
    requires
        b.wf(),
        b.can_add(src),
        0 <= d < 4,
        unbroken_run(b, src, d, team, ahead, behind),
        1 + ahead + behind >= 5,
        forall|i: int| 1 <= i <= ahead ==> !#[trigger] b.overlap(src, d, true, i),
        forall|i: int| 1 <= i <= behind ==> !#[trigger] b.overlap(src, d, false, i),
    ensures
        b.with_chip(src, team).completes(src, d, team),
        forall|i: int|
            0 <= i < b.sequences.len() ==> #[trigger] b.after_add(src, team).sequences[i]
                == b.sequences[i],
        forall|i: int, q: Square|
            0 <= i < b.sequences.len() && b.with_chip(src, team).run_squares(
                src,
                d,
                team,
            ).contains(q) ==> !(#[trigger] b.sequences[i].squares.contains(q)),
{
    let placed = b.with_chip(src, team);
    lemma_unbroken_run_is_recorded(b, src, team, d, ahead, behind);
    lemma_recorded_grows(placed, src, team, 4);
    lemma_unprotected_when_empty(b, src);
    assert forall|i: int, q: Square|
        0 <= i < b.sequences.len() && placed.run_squares(src, d, team).contains(q) implies !(
    #[trigger] b.sequences[i].squares.contains(q)) by {
        if b.sequences[i].squares.contains(q) {
            let (forward, at) = lemma_place_in_run(placed, src, team, d, q);
            assert(b.overlap(src, d, forward, at));
        }
    }
}

/// A new sequence shares at most one square with all the sequences recorded
/// before it: of the squares of a run that a chip completes, at most one was
/// protected already.
pub proof fn lemma_run_shares_one_square(
    b: BoardView,
    src: Square,
    team: Team,
    d: int,
    q1: Square,
    q2: Square,
)
    requires
        b.wf(),
        b.can_add(src),
        0 <= d < 4,
        b.with_chip(src, team).run_squares(src, d, team).contains(q1),
        b.with_chip(src, team).run_squares(src, d, team).contains(q2),
        b.protected(q1),
        b.protected(q2),
    ensures
        q1 == q2,
{
    let placed = b.with_chip(src, team);
    let f = placed.forward_reach(src, d, team);
    let used = placed.touches(src, d, true, f);
    lemma_reach_bounds(placed, src, d, true, team, false);
    lemma_reach_bounds(placed, src, d, false, team, used);
    lemma_unprotected_when_empty(b, src);
    let (fw1, i1) = lemma_place_in_run(placed, src, team, d, q1);
    let (fw2, i2) = lemma_place_in_run(placed, src, team, d, q2);
    assert(placed.overlap(src, d, fw1, i1));
    assert(placed.overlap(src, d, fw2, i2));
}

/// An empty square is in no sequence.
pub proof fn lemma_unprotected_when_empty(b: BoardView, s: Square)
    requires
        b.wf(),
        b.chip_at(s) is None,
    ensures
        !b.protected(s),
{
}

/// Where a protected square of a run lies on the run's line.
proof fn lemma_place_in_run(placed: BoardView, src: Square, team: Team, d: int, q: Square) -> (at:
    (bool, int))
    requires
        placed.run_squares(src, d, team).contains(q),
        placed.protected(q),
        !placed.protected(src),
    ensures
        q == cell(src, d, at.0, at.1),
        at.0 ==> 1 <= at.1 <= placed.forward_reach(src, d, team),
        !at.0 ==> 1 <= at.1 <= placed.backward_reach(src, d, team),
{
    let f = placed.forward_reach(src, d, team);
    let k = placed.backward_reach(src, d, team);
    let ahead = arm_squares(src, d, true, f);
    let all = placed.run_squares(src, d, team);
    let at = choose|at: int| 0 <= at < all.len() && all[at] == q;
    if at < 1 + ahead.len() {
        lemma_arm_squares_members(src, d, true, f, q);
        let i = choose|i: int| 1 <= i <= f && q == #[trigger] cell(src, d, true, i) && !q.corner();
        (true, i)
    } else {
        lemma_arm_squares_members(src, d, false, k, q);
        let i = choose|i: int| 1 <= i <= k && q == #[trigger] cell(src, d, false, i) && !q.corner();
        (false, i)
    }
}

/// A chip in a sequence stays for good: putting a chip on the board leaves
/// every protected square protected and its chip where it was.
pub proof fn lemma_add_keeps_protected_chips(b: BoardView, src: Square, team: Team, q: Square)
    requires
        b.wf(),
        b.can_add(src),
        b.protected(q),
    ensures
        b.after_add(src, team).protected(q),
        b.after_add(src, team).chip_at(q) == b.chip_at(q),
{
    let placed = b.with_chip(src, team);
    lemma_unprotected_when_empty(b, src);
    lemma_searched_protects(placed, src, team, 4, q);
}

/// A chip in a sequence stays for good: no chip that may be removed is
/// protected, and removing a chip leaves every protected square protected and
/// its chip where it was.
pub proof fn lemma_remove_keeps_protected_chips(b: BoardView, s: Square, q: Square)
    requires
        b.wf(),
        b.can_remove(s),
        b.protected(q),
    ensures
        q != s,
        b.after_remove(s).protected(q),
        b.after_remove(s).chip_at(q) == b.chip_at(q),
{
}

/// A chip put next to the end of a sequence of its own team does not make
/// another sequence out of it: the arm that runs into the sequence takes one
/// square of it and no more, so the run is at most two squares longer than
/// what the far side of the chip contributes, and nothing is recorded unless
/// that side alone holds three squares that continue the run.
pub proof fn lemma_extending_a_sequence(
    b: BoardView,
    src: Square,
    team: Team,
    d: int,
    toward: bool,
)
    requires
        b.wf(),
        b.can_add(src),
        0 <= d < 4,
        b.protected(cell(src, d, toward, 1)),
        b.protected(cell(src, d, toward, 2)),
    ensures
        b.with_chip(src, team).run_length(src, d, team) <= 2 + b.with_chip(src, team).reach(
            src,
            d,
            !toward,
            team,
            false,
        ),
        b.with_chip(src, team).reach(src, d, !toward, team, false) <= 2 ==> !b.with_chip(
            src,
            team,
        ).completes(src, d, team),
        !b.extends(src, d, !toward, 1, team) ==> !b.with_chip(src, team).completes(src, d, team),
{
    let placed = b.with_chip(src, team);
    lemma_chip_leaves_line(b, src, team, d, toward, 1, team);
    lemma_chip_leaves_line(b, src, team, d, toward, 2, team);
    lemma_chip_leaves_line(b, src, team, d, !toward, 1, team);
    let f = placed.forward_reach(src, d, team);
    let used = placed.touches(src, d, true, f);
    lemma_reach_bounds(placed, src, d, true, team, false);
    lemma_reach_bounds(placed, src, d, false, team, used);
    lemma_reach_bounds(placed, src, d, false, team, false);
    if toward {
        lemma_reach_with_overlap_used(placed, src, d, false, team, used);
    }
    if !b.extends(src, d, !toward, 1, team) {
        lemma_reach_stops(placed, src, d, !toward, team, false, 1);
    }
}

/// An arm reaches no further once the run has used its overlap than it
/// would have otherwise.
pub proof fn lemma_reach_with_overlap_used(
    b: BoardView,
    src: Square,
    d: int,
    forward: bool,
    team: Team,
    used: bool,
)
    ensures
        b.reach(src, d, forward, team, used) <= b.reach(src, d, forward, team, false),
{
    lemma_reach_bounds(b, src, d, forward, team, used);
    lemma_reach_bounds(b, src, d, forward, team, false);
    let n = b.reach(src, d, forward, team, used);
    if b.reach(src, d, forward, team, false) < n {
        crate::runs::lemma_admits_fewer(
            b,
            src,
            d,
            forward,
            team,
            n,
            b.reach(src, d, forward, team, false) + 1,
            false,
        );
    }
}

/// The chip count follows the chips: a board holds at most 96 chips, holds
/// 96 exactly when it is full and none exactly when it is empty; a chip
/// added makes one more and a chip removed one less.
pub proof fn lemma_chip_count(b: BoardView)
    requires
        b.wf(),
    ensures
        b.chips.dom().finite(),
        b.num_chips() <= 96,
        b.num_chips() == 96 <==> b.is_full(),
        b.num_chips() == 0 <==> b.is_empty(),
        forall|s: Square, team: Team|
            b.can_add(s) ==> #[trigger] b.after_add(s, team).num_chips() == b.num_chips() + 1,
        forall|s: Square| b.can_remove(s) ==> #[trigger] b.after_remove(s).num_chips() == b.num_chips() - 1,
{
    lemma_playable_subset(b.chips.dom());
}

/// Putting a chip on a playable, empty square keeps the board's invariants.
pub proof fn lemma_add_keeps_invariants(b: BoardView, src: Square, team: Team)
    requires
        b.wf(),
        b.can_add(src),
    ensures
        b.after_add(src, team).wf(),
        b.after_add(src, team).cards == b.cards,
        b.after_add(src, team).chips == b.chips.insert(src, team),
{
    let placed = b.with_chip(src, team);
    let after = b.after_add(src, team);
    lemma_recorded_grows(placed, src, team, 4);
    assert forall|i: int, s: Square|
        0 <= i < after.sequences.len() && #[trigger] after.sequences[i].squares.contains(
            s,
        ) implies after.chip_at(s) == Some(after.sequences[i].team) by {
        if i >= b.sequences.len() {
            lemma_new_entry_is_a_run(placed, src, team, 4, i);
            let d = choose|d: int|
                0 <= d < 4 && after.sequences[i].squares == placed.run_squares(src, d, team);
            lemma_run_holds_own_chips(b, src, team, d, s);
        }
    }
    assert forall|i: int| 0 <= i < after.sequences.len() implies (
    #[trigger] after.sequences[i]).squares.no_duplicates() by {
        if i >= b.sequences.len() {
            lemma_new_entry_is_a_run(placed, src, team, 4, i);
            let d = choose|d: int|
                0 <= d < 4 && after.sequences[i].squares == placed.run_squares(src, d, team);
            lemma_run_squares_distinct(placed, src, d, team);
        } else {
            assert(after.sequences[i] == b.sequences[i]);
        }
    }
}

/// Each entry that a search appends is the run along one of the lines searched.
proof fn lemma_new_entry_is_a_run(placed: BoardView, src: Square, team: Team, n: int, k: int)
    requires
        0 <= n <= 4,
        placed.sequences.len() <= k < placed.recorded_after(src, team, n).len(),
    ensures
        exists|d: int|
            0 <= d < n && placed.recorded_after(src, team, n)[k].squares == placed.run_squares(
                src,
                d,
                team,
            ),
    decreases n,
{
    if n > 0 {
        let earlier = placed.recorded_after(src, team, n - 1);
        if k < earlier.len() {
            lemma_new_entry_is_a_run(placed, src, team, n - 1, k);
        }
    }
}

/// Taking away a chip that may be removed keeps the board's invariants.
pub proof fn lemma_remove_keeps_invariants(b: BoardView, s: Square)
    requires
        b.wf(),
        b.can_remove(s),
    ensures
        b.after_remove(s).wf(),
        b.after_remove(s).cards == b.cards,
        b.after_remove(s).sequences == b.sequences,
{
}

/// A search adds sequences for the searching team alone: every other
/// team's count stays, the team's own count does not fall, and when no line
/// holds a complete run the list of sequences stays as it was.
pub proof fn lemma_search_counts(placed: BoardView, src: Square, team: Team, n: int, other: Team)
    requires
        0 <= n <= 4,
    ensures
        other != team ==> searched(placed, src, team, n).sequence_count(other)
            == placed.sequence_count(other),
        searched(placed, src, team, n).sequence_count(team) >= placed.sequence_count(team),
        (forall|d: int| 0 <= d < n ==> !#[trigger] placed.completes(src, d, team)) ==> searched(
            placed,
            src,
            team,
            n,
        ).sequences == placed.sequences,
        (exists|d: int| 0 <= d < n && #[trigger] placed.completes(src, d, team)) ==> searched(
            placed,
            src,
            team,
            n,
        ).sequence_count(team) > placed.sequence_count(team),
    decreases n,
{
    if n > 0 {
        lemma_search_counts(placed, src, team, n - 1, other);
        let earlier = placed.recorded_after(src, team, n - 1);
        if placed.completes(src, n - 1, team) {
            let run = SequenceView { team, squares: placed.run_squares(src, n - 1, team) };
            lemma_count_after_push(earlier, run, team);
            lemma_count_after_push(earlier, run, other);
        }
    }
}

/// Number of lines through `src`, among the first `n`, that hold a run long
/// enough to be recorded.
pub open spec fn completed_lines(placed: BoardView, src: Square, team: Team, n: int) -> int
    decreases n,
{
    if n <= 0 {
        0
    } else {
        completed_lines(placed, src, team, n - 1) + if placed.completes(src, n - 1, team) {
            1int
        } else {
            0int
        }
    }
}

/// Every line that a chip completes adds one sequence: a chip that completes
/// runs along two lines at once, which cross on its square, adds two.
pub proof fn lemma_each_run_adds_a_sequence(b: BoardView, src: Square, team: Team)
    ensures
        b.after_add(src, team).sequences.len() == b.sequences.len() + completed_lines(
            b.with_chip(src, team),
            src,
            team,
            4,
        ),
        b.after_add(src, team).sequence_count(team) == b.sequence_count(team) + completed_lines(
            b.with_chip(src, team),
            src,
            team,
            4,
        ),
{
    let placed = b.with_chip(src, team);
    lemma_search_adds(placed, src, team, 4);
}

/// A search of the first `n` lines adds one sequence for each line that
/// holds a complete run.
proof fn lemma_search_adds(placed: BoardView, src: Square, team: Team, n: int)
    requires
        0 <= n <= 4,
    ensures
        placed.recorded_after(src, team, n).len() == placed.sequences.len() + completed_lines(
            placed,
            src,
            team,
            n,
        ),
        searched(placed, src, team, n).sequence_count(team) == placed.sequence_count(team)
            + completed_lines(placed, src, team, n),
    decreases n,
{
    if n > 0 {
        lemma_search_adds(placed, src, team, n - 1);
        if placed.completes(src, n - 1, team) {
            let run = SequenceView { team, squares: placed.run_squares(src, n - 1, team) };
            lemma_count_after_push(placed.recorded_after(src, team, n - 1), run, team);
        }
    }
}

/// A chip put on the board adds sequences for its own team alone, and adds
/// one at least exactly when it completes a run.
pub proof fn lemma_add_counts(b: BoardView, src: Square, team: Team, other: Team)
    ensures
        other != team ==> b.after_add(src, team).sequence_count(other) == b.sequence_count(other),
        b.after_add(src, team).sequence_count(team) >= b.sequence_count(team),
        !b.with_chip(src, team).completes_any(src, team) ==> b.after_add(src, team).sequences
            == b.sequences,
        b.with_chip(src, team).completes_any(src, team) ==> b.after_add(src, team).sequence_count(
            team,
        ) > b.sequence_count(team),
{
    let placed = b.with_chip(src, team);
    lemma_search_counts(placed, src, team, 4, other);
}

} // verus!
