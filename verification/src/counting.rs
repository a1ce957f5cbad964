//! How many squares the board has, proved once for the whole crate.

use vstd::prelude::*;
use vstd::set_lib::*;

use crate::model::{playable_squares, valid_squares};
use crate::square::Square;

verus! {

/// The square at a given position when the board is read row by row.
pub open spec fn square_at(i: int) -> Square {
    Square { row: (i / 10) as u8, col: (i % 10) as u8 }
}

/// The board has exactly 100 squares.
pub proof fn lemma_valid_squares_count()
    ensures
        valid_squares().finite(),
        valid_squares().len() == 100,
{
    let positions = set_int_range(0, 100);
    let f = |i: int| square_at(i);
    lemma_int_range(0, 100);
    assert(positions.map(f) =~= valid_squares()) by {
        assert forall|s: Square| valid_squares().contains(s) implies positions.map(f).contains(
            s,
        ) by {
            let i = s.flat();
            assert(positions.contains(i));
        }
    }
    lemma_map_size(positions, valid_squares(), f);
}

/// Of the 100 squares, all but the four corners can hold a chip.
pub proof fn lemma_playable_squares_count()
    ensures
        playable_squares().finite(),
        playable_squares().len() == 96,
{
    lemma_valid_squares_count();
    let a = Square { row: 0, col: 0 };
    let b = Square { row: 0, col: 9 };
    let c = Square { row: 9, col: 0 };
    let d = Square { row: 9, col: 9 };
    assert(playable_squares() =~= valid_squares().remove(a).remove(b).remove(c).remove(d));
}

/// A set of playable squares is finite and has at most 96 members; with 96
/// members it is the set of all playable squares.
pub proof fn lemma_playable_subset(chipped: Set<Square>)
    requires
        forall|s: Square| chipped.contains(s) ==> s.playable(),
    ensures
        chipped.finite(),
        chipped.len() <= 96,
        chipped.len() == 96 <==> (forall|s: Square| s.playable() ==> chipped.contains(s)),
        chipped.len() == 0 <==> (forall|s: Square| !chipped.contains(s)),
{
    lemma_playable_squares_count();
    lemma_set_subset_finite(playable_squares(), chipped);
    lemma_len_subset(chipped, playable_squares());
    if chipped.len() == 96 {
        lemma_subset_equality(chipped, playable_squares());
    }
    if forall|s: Square| s.playable() ==> chipped.contains(s) {
        assert(chipped =~= playable_squares());
    }
    if chipped.len() == 0 {
        chipped.lemma_len0_is_empty();
    }
    if forall|s: Square| !chipped.contains(s) {
        assert(chipped =~= Set::<Square>::empty());
    }
}

} // verus!
