//! The board as text for a terminal.

use vstd::prelude::*;
use vstd::string::StringExecFns;

use crate::board::Board;
use crate::card::Card;
use crate::model::BoardView;
use crate::square::Square;

verus! {

/// A square as plain text: its name, a blank, and the card it bears, or two
/// dashes for a corner.
pub open spec fn plain_cell(board: BoardView, s: Square) -> Seq<char> {
    s.notation() + " "@ + match board.card_at(s) {
        Some(card) => card.text(),
        None => "--"@,
    }
}

/// A square as text for a terminal. A square with a chip shows in the
/// colour of its team, on that colour if a sequence protects it. An empty
/// square that bears one of the cards to highlight shows in yellow.
pub open spec fn cell(board: BoardView, s: Square, highlighted: Seq<Card>) -> Seq<char> {
    match board.chip_at(s) {
        Some(team) => team.coloured(plain_cell(board, s), board.protected(s)),
        None => if board.card_at(s) is Some && highlighted.contains(board.card_at(s).unwrap()) {
            "\x1b[33m"@ + plain_cell(board, s) + "\x1b[39m"@
        } else {
            plain_cell(board, s)
        },
    }
}

/// The first `cols` squares of a row as text: each between a bar with a
/// blank and a blank.
pub open spec fn row_text(board: BoardView, row: u8, cols: int, highlighted: Seq<Card>) -> Seq<char>
    decreases cols,
{
    if cols <= 0 {
        Seq::empty()
    } else {
        row_text(board, row, cols - 1, highlighted) + "| "@ + cell(
            board,
            Square { row, col: (cols - 1) as u8 },
            highlighted,
        ) + " "@
    }
}

/// The first `rows` rows of the board as text: each closed by a bar and
/// ended by a line break.
pub open spec fn board_text(board: BoardView, rows: int, highlighted: Seq<Card>) -> Seq<char>
    decreases rows,
{
    if rows <= 0 {
        Seq::empty()
    } else {
        board_text(board, rows - 1, highlighted) + row_text(
            board,
            (rows - 1) as u8,
            10,
            highlighted,
        ) + "|\n"@
    }
}

/// Whether a list of cards holds a card.
fn holds(cards: &[Card], card: &Card) -> (found: bool)
    ensures
        found == cards@.contains(*card),
{
    let mut i: usize = 0;
    while i < cards.len()
        invariant
            i <= cards@.len(),
            forall|j: int| 0 <= j < i ==> cards@[j] != *card,
        decreases cards@.len() - i,
    {
        if cards[i] == *card {
            return true;
        }
        i += 1;
    }
    false
}

impl Board {
    /// The text that shows a square on a terminal, with the cards to
    /// highlight picked out where their squares are empty.
    pub fn cell_text(&self, square: &Square, highlighted: &[Card]) -> (text: String)
        requires
            self.wf(),
            square.valid(),
        ensures
            text@ == cell(self@, *square, highlighted@),
    {
        let card = self.card_at(square);
        let mut base = square.to_notation();
        base.append(" ");
        match card {
            Some(printed) => {
                base.append(printed.to_string().as_str());
            },
            None => {
                base.append("--");
            },
        }
        match self.chip_at(square) {
            Some(team) => team.with_team_color(base.as_str(), self.in_sequence(square)),
            None => {
                let highlight = match card {
                    Some(printed) => holds(highlighted, &printed),
                    None => false,
                };
                if highlight {
                    let mut text = String::from_str("\x1b[33m");
                    text.append(base.as_str());
                    text.append("\x1b[39m");
                    text
                } else {
                    base
                }
            },
        }
    }

    /// The board as text for a terminal, row by row, with the cards to
    /// highlight picked out where their squares are empty.
    pub fn render(&self, highlighted: &[Card]) -> (text: String)
        requires
            self.wf(),
        ensures
            text@ == board_text(self@, 10, highlighted@),
    {
        let mut text = String::new();
        for row in 0..10u8
            invariant
                self.wf(),
                text@ == board_text(self@, row as int, highlighted@),
        {
            let ghost above = text@;
            for col in 0..10u8
                invariant
                    self.wf(),
                    row < 10,
                    text@ == above + row_text(self@, row, col as int, highlighted@),
            {
                let square = Square { row, col };
                text.append("| ");
                text.append(self.cell_text(&square, highlighted).as_str());
                text.append(" ");
            }
            text.append("|\n");
        }
        text
    }
}

} // verus!
