//! Facts about runs on the model board that the search for new sequences
//! rests on.

use vstd::prelude::*;

use crate::model::{arm_squares, cell, BoardView};
use crate::square::Square;
use crate::team::Team;

verus! {

/// An arm that admits `n` squares admits any smaller number of them.
pub proof fn lemma_admits_fewer(
    b: BoardView,
    src: Square,
    d: int,
    forward: bool,
    team: Team,
    n: int,
    m: int,
    used: bool,
)
    requires
        b.admits(src, d, forward, team, n, used),
        m <= n,
    ensures
        b.admits(src, d, forward, team, m, used),
{
}

/// The reach of an arm is the one number, from none to four, of squares that
/// the arm admits while it does not admit one more.
pub proof fn lemma_reach_is(
    b: BoardView,
    src: Square,
    d: int,
    forward: bool,
    team: Team,
    used: bool,
    n: int,
)
    requires
        0 <= n <= 4,
        b.admits(src, d, forward, team, n, used),
        n < 4 ==> !b.admits(src, d, forward, team, n + 1, used),
    ensures
        b.reach(src, d, forward, team, used) == n,
{
    if n < 4 {
        if b.admits(src, d, forward, team, 4, used) {
            lemma_admits_fewer(b, src, d, forward, team, 4, n + 1, used);
        }
        if n < 3 && b.admits(src, d, forward, team, 3, used) {
            lemma_admits_fewer(b, src, d, forward, team, 3, n + 1, used);
        }
        if n < 2 && b.admits(src, d, forward, team, 2, used) {
            lemma_admits_fewer(b, src, d, forward, team, 2, n + 1, used);
        }
    }
    if n >= 1 {
        lemma_admits_fewer(b, src, d, forward, team, n, 1, used);
    }
    if n >= 2 {
        lemma_admits_fewer(b, src, d, forward, team, n, 2, used);
    }
    if n >= 3 {
        lemma_admits_fewer(b, src, d, forward, team, n, 3, used);
    }
}

/// The reach of an arm lies between none and four; the arm admits that many
/// squares and, short of four, not one more.
pub proof fn lemma_reach_bounds(
    b: BoardView,
    src: Square,
    d: int,
    forward: bool,
    team: Team,
    used: bool,
)
    ensures
        0 <= b.reach(src, d, forward, team, used) <= 4,
        b.admits(src, d, forward, team, b.reach(src, d, forward, team, used), used),
        b.reach(src, d, forward, team, used) < 4 ==> !b.admits(
            src,
            d,
            forward,
            team,
            b.reach(src, d, forward, team, used) + 1,
            used,
        ),
{
}

/// The squares listed for an arm are its squares up to the given distance,
/// corners left out.
pub proof fn lemma_arm_squares_members(src: Square, d: int, forward: bool, n: int, q: Square)
    ensures
        arm_squares(src, d, forward, n).contains(q) <==> exists|i: int|
            1 <= i <= n && q == #[trigger] cell(src, d, forward, i) && !q.corner(),
    decreases n,
{
    if n > 0 {
        lemma_arm_squares_members(src, d, forward, n - 1, q);
        let nearer = arm_squares(src, d, forward, n - 1);
        let last = cell(src, d, forward, n);
        if !last.corner() {
            let list = nearer.push(last);
            if exists|i: int|
                1 <= i <= n && q == #[trigger] cell(src, d, forward, i) && !q.corner() {
                let i = choose|i: int|
                    1 <= i <= n && q == #[trigger] cell(src, d, forward, i) && !q.corner();
                if i == n {
                    assert(list[nearer.len() as int] == q);
                } else {
                    let j = choose|j: int| 0 <= j < nearer.len() && nearer[j] == q;
                    assert(list[j] == q);
                }
            }
        }
    }
}

/// How far the `i`-th square of an arm lies from the start of the arm, in
/// rows and in columns.
pub open spec fn cell_offset(d: int, forward: bool, i: int) -> (int, int) {
    let k = if forward {
        i
    } else {
        -i
    };
    if d == 0 {
        (0, k)
    } else if d == 1 {
        (k, k)
    } else if d == 2 {
        (k, 0)
    } else {
        (k, -k)
    }
}

/// Where the `i`-th square of an arm lies: a valid square lies exactly its
/// offset away from the start, and a square that wrapped around is not valid.
pub proof fn lemma_cell_coords(src: Square, d: int, forward: bool, i: int)
    requires
        src.valid(),
        1 <= i <= 4,
    ensures
        ({
            let q = cell(src, d, forward, i);
            let off = cell_offset(d, forward, i);
            &&& q.valid() <==> 0 <= src.row + off.0 < 10 && 0 <= src.col + off.1 < 10
            &&& q.valid() ==> q.row == src.row + off.0 && q.col == src.col + off.1
            &&& q != src
        }),
{
    let off = cell_offset(d, forward, i);
    lemma_wrap_small(src.row + off.0);
    lemma_wrap_small(src.col + off.1);
}

/// What wrapping does to a number less than 256 away from zero.
pub proof fn lemma_wrap_small(x: int)
    requires
        -256 <= x < 256,
    ensures
        crate::square::wrap_u8(x) == if x >= 0 {
            x
        } else {
            x + 256
        },
{
}

/// No valid square lies on two different lines through one square, nor at
/// two places of one line.
pub proof fn lemma_cells_apart(
    src: Square,
    d: int,
    forward: bool,
    i: int,
    d2: int,
    forward2: bool,
    j: int,
)
    requires
        src.valid(),
        0 <= d < 4,
        0 <= d2 < 4,
        1 <= i <= 4,
        1 <= j <= 4,
        cell(src, d2, forward2, j).valid(),
        d != d2 || forward != forward2 || i != j,
    ensures
        cell(src, d, forward, i) != cell(src, d2, forward2, j),
{
    lemma_cell_coords(src, d, forward, i);
    lemma_cell_coords(src, d2, forward2, j);
}

/// The board that stands once the first `n` lines through `src` have been searched.
pub open spec fn searched(b: BoardView, src: Square, team: Team, n: int) -> BoardView {
    BoardView { sequences: b.recorded_after(src, team, n), ..b }
}

/// After a search of the first `n` lines, a square is protected if it was
/// protected before or lies in a run that the search recorded.
pub proof fn lemma_searched_protects(b: BoardView, src: Square, team: Team, n: int, q: Square)
    requires
        0 <= n <= 4,
    ensures
        searched(b, src, team, n).protected(q) <==> b.protected(q) || exists|d: int|
            0 <= d < n && #[trigger] b.completes(src, d, team) && b.run_squares(
                src,
                d,
                team,
            ).contains(q),
    decreases n,
{
    if n > 0 {
        lemma_searched_protects(b, src, team, n - 1, q);
        let earlier = b.recorded_after(src, team, n - 1);
        let before = searched(b, src, team, n - 1);
        let after = searched(b, src, team, n);
        if b.completes(src, n - 1, team) {
            if before.protected(q) {
                let i = choose|i: int|
                    0 <= i < before.sequences.len() && (
                    #[trigger] before.sequences[i]).squares.contains(q);
                assert(after.sequences[i].squares.contains(q));
            }
            if b.run_squares(src, n - 1, team).contains(q) {
                assert(after.sequences[earlier.len() as int].squares.contains(q));
            }
        }
    }
}

/// A square of a run is the square the run goes through or a valid square of
/// one of its two arms.
pub proof fn lemma_run_squares_members(b: BoardView, src: Square, d: int, team: Team, q: Square)
    requires
        b.run_squares(src, d, team).contains(q),
    ensures
        q == src || exists|forward: bool, i: int|
            1 <= i <= 4 && q == #[trigger] cell(src, d, forward, i) && q.valid() && !q.corner()
                && b.counts_for(q, team),
{
    let f = b.forward_reach(src, d, team);
    let used = b.touches(src, d, true, f);
    let k = b.backward_reach(src, d, team);
    lemma_reach_bounds(b, src, d, true, team, false);
    lemma_reach_bounds(b, src, d, false, team, used);
    let ahead = arm_squares(src, d, true, f);
    let all = b.run_squares(src, d, team);
    let at = choose|at: int| 0 <= at < all.len() && all[at] == q;
    if 0 < at < 1 + ahead.len() {
        lemma_arm_squares_members(src, d, true, f, q);
        let i = choose|i: int| 1 <= i <= f && q == #[trigger] cell(src, d, true, i) && !q.corner();
        assert(b.extends(src, d, true, i, team));
    } else if at > 0 {
        lemma_arm_squares_members(src, d, false, k, q);
        let i = choose|i: int| 1 <= i <= k && q == #[trigger] cell(src, d, false, i) && !q.corner();
        assert(b.extends(src, d, false, i, team));
    }
}

/// A search of earlier lines leaves a later line as it was: runs along line
/// `d` measure the same on the board searched up to line `n <= d` as on the
/// board before the search.
pub proof fn lemma_line_unaffected(b: BoardView, src: Square, team: Team, n: int, d: int)
    requires
        src.valid(),
        0 <= n <= d < 4,
    ensures
        forall|forward: bool, i: int|
            1 <= i <= 4 ==> #[trigger] searched(b, src, team, n).overlap(src, d, forward, i)
                == b.overlap(src, d, forward, i),
        forall|forward: bool, used: bool|
            #[trigger] searched(b, src, team, n).reach(src, d, forward, team, used) == b.reach(
                src,
                d,
                forward,
                team,
                used,
            ),
        forall|forward: bool, m: int|
            0 <= m <= 4 ==> #[trigger] searched(b, src, team, n).touches(src, d, forward, m)
                == b.touches(src, d, forward, m),
        searched(b, src, team, n).run_length(src, d, team) == b.run_length(src, d, team),
        searched(b, src, team, n).run_squares(src, d, team) == b.run_squares(src, d, team),
{
    let s = searched(b, src, team, n);
    assert forall|forward: bool, i: int| 1 <= i <= 4 implies #[trigger] s.overlap(
        src,
        d,
        forward,
        i,
    ) == b.overlap(src, d, forward, i) by {
        let q = cell(src, d, forward, i);
        lemma_searched_protects(b, src, team, n, q);
        if exists|d2: int|
            0 <= d2 < n && #[trigger] b.completes(src, d2, team) && b.run_squares(
                src,
                d2,
                team,
            ).contains(q) {
            let d2 = choose|d2: int|
                0 <= d2 < n && #[trigger] b.completes(src, d2, team) && b.run_squares(
                    src,
                    d2,
                    team,
                ).contains(q);
            lemma_run_squares_members(b, src, d2, team, q);
            if q != src {
                let (forward2, j) = choose|forward2: bool, j: int|
                    1 <= j <= 4 && q == #[trigger] cell(src, d2, forward2, j) && q.valid()
                        && !q.corner() && b.counts_for(q, team);
                lemma_cells_apart(src, d, forward, i, d2, forward2, j);
            } else {
                lemma_cell_coords(src, d, forward, i);
            }
        }
    }
    assert forall|forward: bool, used: bool, m: int| 0 <= m <= 4 implies #[trigger] s.admits(
        src,
        d,
        forward,
        team,
        m,
        used,
    ) == b.admits(src, d, forward, team, m, used) by {
        if s.admits(src, d, forward, team, m, used) {
            lemma_admits_agree(s, b, src, d, forward, team, m, used);
        }
        if b.admits(src, d, forward, team, m, used) {
            lemma_admits_agree(b, s, src, d, forward, team, m, used);
        }
    }
    assert forall|forward: bool, m: int| 0 <= m <= 4 implies #[trigger] s.touches(
        src,
        d,
        forward,
        m,
    ) == b.touches(src, d, forward, m) by {
        if b.touches(src, d, forward, m) {
            let i = choose|i: int| 1 <= i <= m && #[trigger] b.overlap(src, d, forward, i);
            assert(s.overlap(src, d, forward, i));
        }
    }
    lemma_reach_bounds(b, src, d, true, team, false);
}

/// Two boards that agree on the first four squares of an arm admit the same
/// number of them.
pub proof fn lemma_admits_agree(
    a: BoardView,
    b: BoardView,
    src: Square,
    d: int,
    forward: bool,
    team: Team,
    n: int,
    used: bool,
)
    requires
        n <= 4,
        forall|i: int|
            1 <= i <= 4 ==> #[trigger] a.extends(src, d, forward, i, team) == b.extends(
                src,
                d,
                forward,
                i,
                team,
            ),
        forall|i: int|
            1 <= i <= 4 ==> #[trigger] a.overlap(src, d, forward, i) == b.overlap(
                src,
                d,
                forward,
                i,
            ),
        a.admits(src, d, forward, team, n, used),
    ensures
        b.admits(src, d, forward, team, n, used),
{
    assert forall|i: int| 1 <= i <= n implies #[trigger] b.extends(src, d, forward, i, team) by {
        assert(a.extends(src, d, forward, i, team));
    }
    assert forall|i: int, j: int| 1 <= i < j <= n implies !(#[trigger] b.overlap(
        src,
        d,
        forward,
        i,
    ) && #[trigger] b.overlap(src, d, forward, j)) by {
        assert(a.overlap(src, d, forward, i) == b.overlap(src, d, forward, i));
        assert(a.overlap(src, d, forward, j) == b.overlap(src, d, forward, j));
    }
    if used {
        assert forall|i: int| 1 <= i <= n implies !#[trigger] b.overlap(src, d, forward, i) by {
            assert(a.overlap(src, d, forward, i) == b.overlap(src, d, forward, i));
        }
    }
}

/// An arm that admits `n` squares admits the next one too if that square
/// continues the run and is not a second protected square.
pub proof fn lemma_admits_one_more(
    b: BoardView,
    src: Square,
    d: int,
    forward: bool,
    team: Team,
    n: int,
    used: bool,
)
    requires
        0 <= n,
        b.admits(src, d, forward, team, n, used),
        b.extends(src, d, forward, n + 1, team),
        !(b.overlap(src, d, forward, n + 1) && (used || b.touches(src, d, forward, n))),
    ensures
        b.admits(src, d, forward, team, n + 1, used),
        b.touches(src, d, forward, n + 1) == (b.touches(src, d, forward, n) || b.overlap(
            src,
            d,
            forward,
            n + 1,
        )),
{
    lemma_touches_one_more(b, src, d, forward, n);
}

/// An arm touches a sequence within `n + 1` squares if it does within `n`
/// or at the square after.
pub proof fn lemma_touches_one_more(b: BoardView, src: Square, d: int, forward: bool, n: int)
    requires
        0 <= n,
    ensures
        b.touches(src, d, forward, n + 1) == (b.touches(src, d, forward, n) || b.overlap(
            src,
            d,
            forward,
            n + 1,
        )),
{
}

/// An arm does not admit a square that does not continue the run, nor a
/// second protected square.
pub proof fn lemma_admits_no_more(
    b: BoardView,
    src: Square,
    d: int,
    forward: bool,
    team: Team,
    n: int,
    used: bool,
)
    requires
        0 <= n,
        !b.extends(src, d, forward, n + 1, team) || (b.overlap(src, d, forward, n + 1) && (used
            || b.touches(src, d, forward, n))),
    ensures
        !b.admits(src, d, forward, team, n + 1, used),
{
}

/// The squares listed for an arm whose squares all lie on the board are
/// all different.
pub proof fn lemma_arm_squares_distinct(src: Square, d: int, forward: bool, n: int)
    requires
        src.valid(),
        0 <= d < 4,
        0 <= n <= 4,
        forall|i: int| 1 <= i <= n ==> (#[trigger] cell(src, d, forward, i)).valid(),
    ensures
        arm_squares(src, d, forward, n).no_duplicates(),
    decreases n,
{
    if n > 0 {
        lemma_arm_squares_distinct(src, d, forward, n - 1);
        let nearer = arm_squares(src, d, forward, n - 1);
        let last = cell(src, d, forward, n);
        if !last.corner() {
            assert(!nearer.contains(last)) by {
                lemma_arm_squares_members(src, d, forward, n - 1, last);
                if nearer.contains(last) {
                    let i = choose|i: int|
                        1 <= i <= n - 1 && last == #[trigger] cell(src, d, forward, i)
                            && !last.corner();
                    lemma_cells_apart(src, d, forward, i, d, forward, n);
                }
            }
            assert forall|a: int, b: int|
                0 <= a < nearer.len() + 1 && 0 <= b < nearer.len() + 1 && a != b implies nearer.push(
                last,
            )[a] != nearer.push(last)[b] by {
                if a < nearer.len() {
                    assert(nearer.contains(nearer[a]));
                }
                if b < nearer.len() {
                    assert(nearer.contains(nearer[b]));
                }
            }
        }
    }
}

/// The squares of a run are all different.
pub proof fn lemma_run_squares_distinct(b: BoardView, src: Square, d: int, team: Team)
    requires
        src.valid(),
        0 <= d < 4,
    ensures
        b.run_squares(src, d, team).no_duplicates(),
{
    let f = b.forward_reach(src, d, team);
    let used = b.touches(src, d, true, f);
    let k = b.backward_reach(src, d, team);
    lemma_reach_bounds(b, src, d, true, team, false);
    lemma_reach_bounds(b, src, d, false, team, used);
    assert forall|i: int| 1 <= i <= f implies (#[trigger] cell(src, d, true, i)).valid() by {
        assert(b.extends(src, d, true, i, team));
    }
    assert forall|i: int| 1 <= i <= k implies (#[trigger] cell(src, d, false, i)).valid() by {
        assert(b.extends(src, d, false, i, team));
    }
    lemma_arm_squares_distinct(src, d, true, f);
    lemma_arm_squares_distinct(src, d, false, k);
    let ahead = arm_squares(src, d, true, f);
    let behind = arm_squares(src, d, false, k);
    assert forall|i: int, j: int| 0 <= i < ahead.len() && 0 <= j < behind.len() implies ahead[i]
        != behind[j] by {
        assert(ahead.contains(ahead[i]));
        assert(behind.contains(behind[j]));
        lemma_arm_squares_members(src, d, true, f, ahead[i]);
        lemma_arm_squares_members(src, d, false, k, behind[j]);
        let x = choose|x: int|
            1 <= x <= f && ahead[i] == #[trigger] cell(src, d, true, x) && !ahead[i].corner();
        let y = choose|y: int|
            1 <= y <= k && behind[j] == #[trigger] cell(src, d, false, y) && !behind[j].corner();
        lemma_cells_apart(src, d, true, x, d, false, y);
    }
    vstd::seq_lib::lemma_no_dup_in_concat(ahead, behind);
    let arms = ahead + behind;
    assert forall|i: int, j: int| 0 <= i < 1 && 0 <= j < arms.len() implies seq![src][i]
        != arms[j] by {
        let q = arms[j];
        if j < ahead.len() {
            assert(ahead.contains(q));
            lemma_arm_squares_members(src, d, true, f, q);
            let x = choose|x: int|
                1 <= x <= f && q == #[trigger] cell(src, d, true, x) && !q.corner();
            lemma_cell_coords(src, d, true, x);
        } else {
            assert(behind[j - ahead.len()] == q);
            assert(behind.contains(q));
            lemma_arm_squares_members(src, d, false, k, q);
            let y = choose|y: int|
                1 <= y <= k && q == #[trigger] cell(src, d, false, y) && !q.corner();
            lemma_cell_coords(src, d, false, y);
        }
    }
    vstd::seq_lib::lemma_no_dup_in_concat(seq![src], arms);
    assert(b.run_squares(src, d, team) =~= seq![src] + arms);
}

} // verus!
