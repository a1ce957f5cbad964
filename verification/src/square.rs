use vstd::prelude::*;

verus! {

/// Number of rows, and of columns, of the board.
pub const BOARD_SIZE: u8 = 10;

/// A grid coordinate. Squares with `row` and `col` below `BOARD_SIZE` lie on
/// the board; every other value stands for a place off the board.
#[derive(Clone, Copy, Debug, PartialEq, Eq, Hash, Structural)]
pub struct Square {
    pub row: u8,
    pub col: u8,
}

/// The squares of a list read row by row, each further on than the one before.
pub open spec fn row_major(list: Seq<Square>) -> bool {
    forall|i: int, j: int| 0 <= i < j < list.len() ==> list[i].flat() < list[j].flat()
}

/// Two squares at the same place of the row-by-row reading are one square.
pub proof fn lemma_flat_is_injective(a: Square, b: Square)
    requires
        a.valid(),
        b.valid(),
    ensures
        a.flat() == b.flat() <==> a == b,
{
}

/// The value of `x` as a `u8` after wrapping around at 256.
pub open spec fn wrap_u8(x: int) -> u8 {
    (x % 256) as u8
}

impl Square {
    pub open spec fn valid(&self) -> bool {
        self.row < BOARD_SIZE && self.col < BOARD_SIZE
    }

    pub open spec fn corner(&self) -> bool {
        (self.row == 0 || self.row == BOARD_SIZE - 1) && (self.col == 0 || self.col == BOARD_SIZE
            - 1)
    }

    pub open spec fn playable(&self) -> bool {
        self.valid() && !self.corner()
    }

    /// The square reached by moving `row_delta` rows and `col_delta` columns,
    /// each coordinate wrapping around at 256. A step over the low edge of the
    /// board therefore lands on a square that is not valid.
    pub open spec fn shifted(self, row_delta: int, col_delta: int) -> Square {
        Square { row: wrap_u8(self.row + row_delta), col: wrap_u8(self.col + col_delta) }
    }

    /// Position of the square when the board is read row by row.
    pub open spec fn flat(self) -> int {
        self.row * 10 + self.col
    }

    #[verifier::when_used_as_spec(valid)]
    pub fn is_valid(&self) -> (b: bool)
        ensures
            b == self.valid(),
    {
        self.row < BOARD_SIZE && self.col < BOARD_SIZE
    }

    #[verifier::when_used_as_spec(corner)]
    pub fn is_corner(&self) -> (b: bool)
        ensures
            b == self.corner(),
    {
        (self.row == 0 || self.row == BOARD_SIZE - 1) && (self.col == 0 || self.col == BOARD_SIZE
            - 1)
    }

    #[verifier::when_used_as_spec(playable)]
    pub fn is_playable(&self) -> (b: bool)
        ensures
            b == self.playable(),
    {
        self.is_valid() && !self.is_corner()
    }

    /// Every square that can hold a chip, read row by row.
    pub fn playable_squares() -> (squares: Vec<Square>)
        ensures
            row_major(squares@),
            forall|s: Square| #[trigger] squares@.contains(s) <==> s.playable(),
    {
        let mut squares: Vec<Square> = Vec::new();
        for row in 0..BOARD_SIZE
            invariant
                row_major(squares@),
                forall|s: Square| #[trigger] squares@.contains(s) <==> s.playable() && s.flat() < row * 10,
        {
            for col in 0..BOARD_SIZE
                invariant
                    row < BOARD_SIZE,
                    row_major(squares@),
                    forall|s: Square|
                        #[trigger] squares@.contains(s) <==> s.playable() && s.flat() < row * 10
                            + col,
            {
                let square = Square { row, col };
                if !square.is_corner() {
                    let ghost before = squares@;
                    squares.push(square);
                    proof {
                        assert forall|s: Square| #[trigger]
                            squares@.contains(s) <==> s.playable() && s.flat() < row * 10 + col
                                + 1 by {
                            if s.valid() {
                                lemma_flat_is_injective(s, square);
                            }
                            if before.contains(s) {
                                let i = choose|i: int| 0 <= i < before.len() && before[i] == s;
                                assert(squares@[i] == s);
                            }
                            if s == square {
                                assert(squares@[before.len() as int] == s);
                            }
                        }
                        assert forall|i: int| 0 <= i < before.len() implies before[i].flat()
                            < square.flat() by {
                            assert(before.contains(before[i]));
                        }
                    }
                } else {
                    proof {
                        assert forall|s: Square| #[trigger]
                            squares@.contains(s) <==> s.playable() && s.flat() < row * 10 + col
                                + 1 by {
                            if s.valid() {
                                lemma_flat_is_injective(s, square);
                            }
                        }
                    }
                }
            }
        }
        proof {
            assert forall|s: Square| s.playable() implies s.flat() < 100 by {}
        }
        squares
    }

    /// The letter of the square's column, `a` for the first.
    pub open spec fn col_symbol(self) -> char {
        ('a' as u8 + self.col) as char
    }

    /// The digit of the square's row, `0` for the first.
    pub open spec fn row_symbol(self) -> char {
        ('0' as u8 + self.row) as char
    }

    /// The name of a square on the board: the letter of its column, then the
    /// digit of its row.
    pub open spec fn notation(self) -> Seq<char> {
        seq![self.col_symbol(), self.row_symbol()]
    }

    /// The name of a square on the board: the letter of its column, then the
    /// digit of its row.
    pub fn to_notation(&self) -> (name: String)
        requires
            self.valid(),
        ensures
            name@ == self.notation(),
    {
        let mut name = String::new();
        name.push((97u8 + self.col) as char);
        name.push((48u8 + self.row) as char);
        name
    }

    /// The square that a two-character name stands for: the column is how far
    /// the first character lies past `a`, the row how far the second lies
    /// past `0`, and a character before its base counts as the base.
    pub fn from_notation(notation: &str) -> (square: Square)
        requires
            notation.is_ascii(),
            notation@.len() == 2,
        ensures
            square.col == past(notation@[0], 'a'),
            square.row == past(notation@[1], '0'),
    {
        let col_char = notation.get_char(0);
        let row_char = notation.get_char(1);
        Square { col: distance_past(col_char, 'a'), row: distance_past(row_char, '0') }
    }

    pub fn plus(&self, row_delta: i8, col_delta: i8) -> (moved: Square)
        ensures
            moved == self.shifted(row_delta as int, col_delta as int),
    {
        Square { row: offset_u8(self.row, row_delta), col: offset_u8(self.col, col_delta) }
    }
}

/// How far an ASCII character lies past a base; zero if it lies before.
pub open spec fn past(c: char, base: char) -> int {
    if c as int >= base as int {
        c as int - base as int
    } else {
        0
    }
}

fn distance_past(c: char, base: char) -> (n: u8)
    requires
        (c as int) < 128,
    ensures
        n == past(c, base),
{
    let code = c as u32;
    let from = base as u32;
    if code >= from {
        (code - from) as u8
    } else {
        0
    }
}

/// Adds a signed offset to a coordinate, wrapping around at 256.
fn offset_u8(x: u8, delta: i8) -> (y: u8)
    ensures
        y == wrap_u8(x + delta),
{
    let sum: i16 = x as i16 + delta as i16;
    if sum < 0 {
        (sum + 256) as u8
    } else if sum > 255 {
        (sum - 256) as u8
    } else {
        sum as u8
    }
}

} // verus!
