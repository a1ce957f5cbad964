use std::collections::HashMap;

use sequence_game::board::Board;
use sequence_game::card::Card;
use sequence_game::layout::standard_board;
use sequence_game::rank::Rank;
use sequence_game::square::Square;
use sequence_game::team::Team;

fn assert_sequences(board: &Board, mut sequences: Vec<Vec<&str>>) {
    let actual: Vec<Vec<String>> = board
        .sequences()
        .iter()
        .map(|sequence| {
            let mut formatted: Vec<String> =
                sequence.squares.iter().map(|square| square.to_notation()).collect();
            formatted.sort();
            formatted
        })
        .collect();
    for sequence in sequences.iter_mut() {
        sequence.sort();
    }
    assert_eq!(actual, sequences);
}

fn no_team_owns_a_square(board: &Board) -> bool {
    board.squares_owned_by(&Team::One).is_empty()
        && board.squares_owned_by(&Team::Two).is_empty()
        && board.squares_owned_by(&Team::Three).is_empty()
}

#[test]
fn add_chip() {
    let square = Square::from_notation("e4");
    let mut board = Board::standard_board();

    assert!(board.is_empty());
    assert!(!board.is_full());
    assert!(board.sequences().is_empty());
    assert!(no_team_owns_a_square(&board));
    assert_eq!(board.num_chips(), 0);

    board.add_chip(&square, Team::One);

    assert!(!board.is_empty());
    assert!(!board.is_full());
    assert!(board.sequences().is_empty());
    assert_eq!(board.squares_owned_by(&Team::One), vec![square]);
    assert!(board.squares_owned_by(&Team::Two).is_empty());
    assert!(board.squares_owned_by(&Team::Three).is_empty());
    assert_eq!(board.num_chips(), 1);
}

#[test]
fn remove_chip() {
    let square = Square::from_notation("e4");
    let mut board = Board::standard_board();

    board.add_chip(&square, Team::One);
    board.remove_chip(&square);

    assert!(board.is_empty());
    assert!(!board.is_full());
    assert!(board.sequences().is_empty());
    assert!(no_team_owns_a_square(&board));
    assert_eq!(board.num_chips(), 0);
}

#[test]
fn board_create_horizontal_sequence_in_order() {
    let mut board = standard_board();
    assert_eq!(None, board.add_chip(&Square::from_notation("c4"), Team::One));
    assert_eq!(None, board.add_chip(&Square::from_notation("c5"), Team::One));
    assert_eq!(None, board.add_chip(&Square::from_notation("c6"), Team::One));
    assert_eq!(None, board.add_chip(&Square::from_notation("c7"), Team::One));
    assert_eq!(Some(1), board.add_chip(&Square::from_notation("c8"), Team::One));
    assert_sequences(&board, vec![vec!["c4", "c5", "c6", "c7", "c8"]]);
}

#[test]
fn board_create_vertical_sequence_with_middle_last() {
    let mut board = standard_board();
    assert_eq!(None, board.add_chip(&Square::from_notation("h1"), Team::One));
    assert_eq!(None, board.add_chip(&Square::from_notation("h2"), Team::One));
    assert_eq!(None, board.add_chip(&Square::from_notation("h4"), Team::One));
    assert_eq!(None, board.add_chip(&Square::from_notation("h5"), Team::One));
    assert_eq!(Some(1), board.add_chip(&Square::from_notation("h3"), Team::One));
    assert_sequences(&board, vec![vec!["h1", "h2", "h3", "h4", "h5"]]);
}

#[test]
fn board_create_diagonal_sequence_using_corner() {
    let mut board = standard_board();
    assert_eq!(None, board.add_chip(&Square::from_notation("i8"), Team::One));
    assert_eq!(None, board.add_chip(&Square::from_notation("h7"), Team::One));
    assert_eq!(None, board.add_chip(&Square::from_notation("f5"), Team::One));
    assert_eq!(Some(1), board.add_chip(&Square::from_notation("g6"), Team::One));
    assert_sequences(&board, vec![vec!["i8", "h7", "f5", "g6"]]);
}

#[test]
fn board_create_horizontal_run_with_another_team_blocking() {
    let mut board = standard_board();
    assert_eq!(None, board.add_chip(&Square::from_notation("c4"), Team::One));
    assert_eq!(None, board.add_chip(&Square::from_notation("c5"), Team::Two));
    assert_eq!(None, board.add_chip(&Square::from_notation("c6"), Team::One));
    assert_eq!(None, board.add_chip(&Square::from_notation("c7"), Team::One));
    assert_eq!(None, board.add_chip(&Square::from_notation("c8"), Team::One));
    assert_sequences(&board, vec![]);
}

#[test]
fn board_create_two_sequences_without_overlap() {
    let mut board = standard_board();
    assert_eq!(None, board.add_chip(&Square::from_notation("c4"), Team::One));
    assert_eq!(None, board.add_chip(&Square::from_notation("c5"), Team::One));
    assert_eq!(None, board.add_chip(&Square::from_notation("c6"), Team::One));
    assert_eq!(None, board.add_chip(&Square::from_notation("c7"), Team::One));
    assert_eq!(Some(1), board.add_chip(&Square::from_notation("c8"), Team::One));
    assert_sequences(&board, vec![vec!["c4", "c5", "c6", "c7", "c8"]]);

    assert_eq!(None, board.add_chip(&Square::from_notation("h1"), Team::One));
    assert_eq!(None, board.add_chip(&Square::from_notation("h2"), Team::One));
    assert_eq!(None, board.add_chip(&Square::from_notation("h4"), Team::One));
    assert_eq!(None, board.add_chip(&Square::from_notation("h5"), Team::One));
    assert_eq!(Some(2), board.add_chip(&Square::from_notation("h3"), Team::One));
    assert_sequences(
        &board,
        vec![vec!["c4", "c5", "c6", "c7", "c8"], vec!["h1", "h2", "h3", "h4", "h5"]],
    );
}

#[test]
fn board_create_two_sequences_with_single_overlap_in_different_direction() {
    let mut board = standard_board();
    assert_eq!(None, board.add_chip(&Square::from_notation("c4"), Team::One));
    assert_eq!(None, board.add_chip(&Square::from_notation("c5"), Team::One));
    assert_eq!(None, board.add_chip(&Square::from_notation("c6"), Team::One));
    assert_eq!(None, board.add_chip(&Square::from_notation("c7"), Team::One));
    assert_eq!(Some(1), board.add_chip(&Square::from_notation("c8"), Team::One));
    assert_sequences(&board, vec![vec!["c4", "c5", "c6", "c7", "c8"]]);

    assert_eq!(None, board.add_chip(&Square::from_notation("a5"), Team::One));
    assert_eq!(None, board.add_chip(&Square::from_notation("b5"), Team::One));
    assert_eq!(None, board.add_chip(&Square::from_notation("d5"), Team::One));
    assert_eq!(Some(2), board.add_chip(&Square::from_notation("e5"), Team::One));
    assert_sequences(
        &board,
        vec![vec!["c4", "c5", "c6", "c7", "c8"], vec!["a5", "b5", "c5", "d5", "e5"]],
    );
}

#[test]
fn create_two_sequences_simultaneously_with_overlap_in_different_direction() {
    let mut board = Board::standard_board();
    assert_eq!(None, board.add_chip(&Square::from_notation("c4"), Team::One));
    assert_eq!(None, board.add_chip(&Square::from_notation("c6"), Team::One));
    assert_eq!(None, board.add_chip(&Square::from_notation("c7"), Team::One));
    assert_eq!(None, board.add_chip(&Square::from_notation("c8"), Team::One));
    assert_eq!(None, board.add_chip(&Square::from_notation("a5"), Team::One));
    assert_eq!(None, board.add_chip(&Square::from_notation("b5"), Team::One));
    assert_eq!(None, board.add_chip(&Square::from_notation("d5"), Team::One));
    assert_eq!(None, board.add_chip(&Square::from_notation("e5"), Team::One));
    assert_sequences(&board, vec![]);

    assert_eq!(Some(2), board.add_chip(&Square::from_notation("c5"), Team::One));
    assert_sequences(
        &board,
        vec![vec!["a5", "b5", "c5", "d5", "e5"], vec!["c4", "c5", "c6", "c7", "c8"]],
    );
}

#[test]
fn board_create_two_sequences_without_single_overlap_in_same_direction() {
    let mut board = standard_board();
    assert_eq!(None, board.add_chip(&Square::from_notation("c0"), Team::One));
    assert_eq!(None, board.add_chip(&Square::from_notation("c1"), Team::One));
    assert_eq!(None, board.add_chip(&Square::from_notation("c2"), Team::One));
    assert_eq!(None, board.add_chip(&Square::from_notation("c3"), Team::One));
    assert_eq!(Some(1), board.add_chip(&Square::from_notation("c4"), Team::One));
    assert_sequences(&board, vec![vec!["c0", "c1", "c2", "c3", "c4"]]);

    assert_eq!(None, board.add_chip(&Square::from_notation("c5"), Team::One));
    assert_eq!(None, board.add_chip(&Square::from_notation("c6"), Team::One));
    assert_eq!(None, board.add_chip(&Square::from_notation("c7"), Team::One));
    assert_eq!(Some(2), board.add_chip(&Square::from_notation("c8"), Team::One));
    assert_sequences(
        &board,
        vec![vec!["c0", "c1", "c2", "c3", "c4"], vec!["c4", "c5", "c6", "c7", "c8"]],
    );
}

#[test]
fn board_create_sequence_with_more_than_5_squares() {
    let mut board = standard_board();
    assert_eq!(None, board.add_chip(&Square::from_notation("b0"), Team::One));
    assert_eq!(None, board.add_chip(&Square::from_notation("c0"), Team::One));
    assert_eq!(None, board.add_chip(&Square::from_notation("d0"), Team::One));
    assert_eq!(None, board.add_chip(&Square::from_notation("f0"), Team::One));
    assert_eq!(None, board.add_chip(&Square::from_notation("g0"), Team::One));
    assert_eq!(Some(1), board.add_chip(&Square::from_notation("e0"), Team::One));
    assert_sequences(&board, vec![vec!["b0", "c0", "d0", "e0", "f0", "g0"]]);
}

#[test]
fn board_adding_chip_at_end_of_sequence_does_not_lengthen_it() {
    let mut board = standard_board();
    assert_eq!(None, board.add_chip(&Square::from_notation("b0"), Team::One));
    assert_eq!(None, board.add_chip(&Square::from_notation("c0"), Team::One));
    assert_eq!(None, board.add_chip(&Square::from_notation("d0"), Team::One));
    assert_eq!(Some(1), board.add_chip(&Square::from_notation("e0"), Team::One));
    assert_sequences(&board, vec![vec!["b0", "c0", "d0", "e0"]]);

    assert_eq!(None, board.add_chip(&Square::from_notation("f0"), Team::One));
    assert_sequences(&board, vec![vec!["b0", "c0", "d0", "e0"]]);
}

fn standard_card_counts() -> HashMap<Card, i32> {
    let board = standard_board();
    let mut counts = HashMap::new();
    for row in 0..10u8 {
        for col in 0..10u8 {
            if let Some(card) = board.card_at(&Square { row, col }) {
                let count = counts.entry(card).or_insert(0);
                *count += 1;
            }
        }
    }
    counts
}

#[test]
fn standard_board_standard_board_has_two_copies_of_each_card_except_jacks() {
    let counts = standard_card_counts();
    for card in Card::standard_deck() {
        let expected = if card.rank == Rank::Jack { None } else { Some(&2) };
        let actual = counts.get(&card);
        assert_eq!(expected, actual, "Card count was unexpected for {}", card.to_string());
    }
}

#[test]
fn board_standard_board_has_two_copies_of_each_card_except_jacks() {
    let counts = standard_card_counts();
    for card in Card::standard_deck() {
        let expected = if card.rank == Rank::Jack { None } else { Some(&2) };
        let actual = counts.get(&card);
        assert_eq!(expected, actual, "Card count was unexpected for {}", card.to_string());
    }
    assert_eq!(counts.len(), 48);
}

#[test]
fn standard_board_has_correct_counts() {
    let counts = standard_card_counts();
    let cards = Card::standard_deck();
    for card in cards {
        let expected = if card.rank == Rank::Jack { None } else { Some(&2) };
        let actual = counts.get(&card);
        assert_eq!(expected, actual, "Card count was unexpected for {:?}", card);
    }
}

#[test]
fn standard_board_corners_hold_no_card() {
    let board = standard_board();
    for (row, col) in [(0u8, 0u8), (0, 9), (9, 0), (9, 9)] {
        assert_eq!(None, board.card_at(&Square { row, col }));
    }
    assert_eq!(
        Some(Card { rank: Rank::Three, suit: sequence_game::suit::Suit::Clubs }),
        board.card_at(&Square::from_notation("d1")),
    );
}

#[test]
fn create_horizontal_sequence_in_order() {
    let mut board = Board::standard_board();
    assert_eq!(None, board.add_chip(&Square::from_notation("c4"), Team::One));
    assert_eq!(None, board.add_chip(&Square::from_notation("c5"), Team::One));
    assert_eq!(None, board.add_chip(&Square::from_notation("c6"), Team::One));
    assert_eq!(None, board.add_chip(&Square::from_notation("c7"), Team::One));
    assert_eq!(Some(1), board.add_chip(&Square::from_notation("c8"), Team::One));
    assert_sequences(&board, vec![vec!["c4", "c5", "c6", "c7", "c8"]]);
}

#[test]
fn create_vertical_sequence_with_middle_last() {
    let mut board = Board::standard_board();
    assert_eq!(None, board.add_chip(&Square::from_notation("h1"), Team::One));
    assert_eq!(None, board.add_chip(&Square::from_notation("h2"), Team::One));
    assert_eq!(None, board.add_chip(&Square::from_notation("h4"), Team::One));
    assert_eq!(None, board.add_chip(&Square::from_notation("h5"), Team::One));
    assert_eq!(Some(1), board.add_chip(&Square::from_notation("h3"), Team::One));
    assert_sequences(&board, vec![vec!["h1", "h2", "h3", "h4", "h5"]]);
}

#[test]
fn create_diagonal_sequence_using_corner() {
    let mut board = Board::standard_board();
    assert_eq!(None, board.add_chip(&Square::from_notation("i8"), Team::One));
    assert_eq!(None, board.add_chip(&Square::from_notation("h7"), Team::One));
    assert_eq!(None, board.add_chip(&Square::from_notation("f5"), Team::One));
    assert_eq!(Some(1), board.add_chip(&Square::from_notation("g6"), Team::One));
    assert_sequences(&board, vec![vec!["i8", "h7", "f5", "g6"]]);
}

#[test]
fn create_horizontal_run_with_another_team_blocking() {
    let mut board = Board::standard_board();
    assert_eq!(None, board.add_chip(&Square::from_notation("c4"), Team::One));
    assert_eq!(None, board.add_chip(&Square::from_notation("c5"), Team::Two));
    assert_eq!(None, board.add_chip(&Square::from_notation("c6"), Team::One));
    assert_eq!(None, board.add_chip(&Square::from_notation("c7"), Team::One));
    assert_eq!(None, board.add_chip(&Square::from_notation("c8"), Team::One));
    assert_sequences(&board, vec![]);
}

#[test]
fn create_two_sequences_without_overlap() {
    let mut board = Board::standard_board();
    assert_eq!(None, board.add_chip(&Square::from_notation("c4"), Team::One));
    assert_eq!(None, board.add_chip(&Square::from_notation("c5"), Team::One));
    assert_eq!(None, board.add_chip(&Square::from_notation("c6"), Team::One));
    assert_eq!(None, board.add_chip(&Square::from_notation("c7"), Team::One));
    assert_eq!(Some(1), board.add_chip(&Square::from_notation("c8"), Team::One));
    assert_sequences(&board, vec![vec!["c4", "c5", "c6", "c7", "c8"]]);

    assert_eq!(None, board.add_chip(&Square::from_notation("h1"), Team::One));
    assert_eq!(None, board.add_chip(&Square::from_notation("h2"), Team::One));
    assert_eq!(None, board.add_chip(&Square::from_notation("h4"), Team::One));
    assert_eq!(None, board.add_chip(&Square::from_notation("h5"), Team::One));
    assert_eq!(Some(2), board.add_chip(&Square::from_notation("h3"), Team::One));
    assert_sequences(
        &board,
        vec![vec!["c4", "c5", "c6", "c7", "c8"], vec!["h1", "h2", "h3", "h4", "h5"]],
    );
}

#[test]
fn create_two_sequences_with_single_overlap_in_different_direction() {
    let mut board = Board::standard_board();
    assert_eq!(None, board.add_chip(&Square::from_notation("c4"), Team::One));
    assert_eq!(None, board.add_chip(&Square::from_notation("c5"), Team::One));
    assert_eq!(None, board.add_chip(&Square::from_notation("c6"), Team::One));
    assert_eq!(None, board.add_chip(&Square::from_notation("c7"), Team::One));
    assert_eq!(Some(1), board.add_chip(&Square::from_notation("c8"), Team::One));
    assert_sequences(&board, vec![vec!["c4", "c5", "c6", "c7", "c8"]]);

    assert_eq!(None, board.add_chip(&Square::from_notation("a5"), Team::One));
    assert_eq!(None, board.add_chip(&Square::from_notation("b5"), Team::One));
    assert_eq!(None, board.add_chip(&Square::from_notation("d5"), Team::One));
    assert_eq!(Some(2), board.add_chip(&Square::from_notation("e5"), Team::One));
    assert_sequences(
        &board,
        vec![vec!["c4", "c5", "c6", "c7", "c8"], vec!["a5", "b5", "c5", "d5", "e5"]],
    );
}

#[test]
fn create_two_sequences_without_single_overlap_in_same_direction() {
    let mut board = Board::standard_board();
    assert_eq!(None, board.add_chip(&Square::from_notation("c0"), Team::One));
    assert_eq!(None, board.add_chip(&Square::from_notation("c1"), Team::One));
    assert_eq!(None, board.add_chip(&Square::from_notation("c2"), Team::One));
    assert_eq!(None, board.add_chip(&Square::from_notation("c3"), Team::One));
    assert_eq!(Some(1), board.add_chip(&Square::from_notation("c4"), Team::One));
    assert_sequences(&board, vec![vec!["c0", "c1", "c2", "c3", "c4"]]);

    assert_eq!(None, board.add_chip(&Square::from_notation("c5"), Team::One));
    assert_eq!(None, board.add_chip(&Square::from_notation("c6"), Team::One));
    assert_eq!(None, board.add_chip(&Square::from_notation("c7"), Team::One));
    assert_eq!(Some(2), board.add_chip(&Square::from_notation("c8"), Team::One));
    assert_sequences(
        &board,
        vec![vec!["c0", "c1", "c2", "c3", "c4"], vec!["c4", "c5", "c6", "c7", "c8"]],
    );
}

#[test]
fn create_sequence_with_more_than_5_squares() {
    let mut board = Board::standard_board();
    assert_eq!(None, board.add_chip(&Square::from_notation("b0"), Team::One));
    assert_eq!(None, board.add_chip(&Square::from_notation("c0"), Team::One));
    assert_eq!(None, board.add_chip(&Square::from_notation("d0"), Team::One));
    assert_eq!(None, board.add_chip(&Square::from_notation("f0"), Team::One));
    assert_eq!(None, board.add_chip(&Square::from_notation("g0"), Team::One));
    assert_eq!(Some(1), board.add_chip(&Square::from_notation("e0"), Team::One));
    assert_sequences(&board, vec![vec!["b0", "c0", "d0", "e0", "f0", "g0"]]);
}

#[test]
fn adding_chip_at_end_of_sequence_does_not_lengthen_it() {
    let mut board = Board::standard_board();
    assert_eq!(None, board.add_chip(&Square::from_notation("b0"), Team::One));
    assert_eq!(None, board.add_chip(&Square::from_notation("c0"), Team::One));
    assert_eq!(None, board.add_chip(&Square::from_notation("d0"), Team::One));
    assert_eq!(Some(1), board.add_chip(&Square::from_notation("e0"), Team::One));
    assert_sequences(&board, vec![vec!["b0", "c0", "d0", "e0"]]);

    assert_eq!(None, board.add_chip(&Square::from_notation("f0"), Team::One));
    assert_sequences(&board, vec![vec!["b0", "c0", "d0", "e0"]]);
}


fn chipped_squares(board: &Board) -> usize {
    Square::playable_squares().iter().filter(|square| board.chip_at(square).is_some()).count()
}

#[test]
fn five_in_a_row_make_one_sequence_in_every_direction() {
    // a run of five from c2 along each line, none of them near a corner
    let steps = [(0i8, 1i8), (1, 1), (1, 0), (1, -1)];
    let starts = [(2u8, 2u8), (2, 2), (2, 2), (2, 6)];
    for team in [Team::One, Team::Two, Team::Three] {
        for (step, start) in steps.iter().zip(starts.iter()) {
            let origin = Square { row: start.0, col: start.1 };
            let run: Vec<Square> = (0..5).map(|i| origin.plus(step.0 * i, step.1 * i)).collect();
            for last in 0..5 {
                let mut board = standard_board();
                for (i, square) in run.iter().enumerate() {
                    if i != last {
                        assert_eq!(None, board.add_chip(square, team));
                    }
                }
                assert_eq!(Some(1), board.add_chip(&run[last], team));
                assert_eq!(1, board.sequences().len());
                assert_eq!(team, board.sequences()[0].team);
                let mut recorded = board.sequences()[0].squares.clone();
                recorded.sort_by_key(|square| (square.row, square.col));
                let mut expected = run.clone();
                expected.sort_by_key(|square| (square.row, square.col));
                assert_eq!(expected, recorded);
                assert_eq!(run[last], board.sequences()[0].squares[0]);
                for square in run.iter() {
                    assert!(board.in_sequence(square));
                }
                assert_eq!(1, board.count_sequences(&team));
                assert_eq!(5, board.num_chips());
            }
        }
    }
}

#[test]
fn a_corner_stands_in_for_a_chip_of_any_team() {
    for team in [Team::One, Team::Two, Team::Three] {
        let mut board = standard_board();
        for name in ["j5", "j6", "j7"] {
            assert_eq!(None, board.add_chip(&Square::from_notation(name), team));
        }
        assert_eq!(Some(1), board.add_chip(&Square::from_notation("j8"), team));
        assert_sequences(&board, vec![vec!["j5", "j6", "j7", "j8"]]);
        assert!(!board.in_sequence(&Square::from_notation("j9")));
        assert!(board.counts_for(&Square::from_notation("j9"), &team));
        assert!(board.counts_for(&Square::from_notation("j8"), &team));
        assert!(!board.counts_for(&Square::from_notation("j4"), &team));
    }
}

#[test]
fn chip_count_follows_the_chips() {
    let mut board = standard_board();
    let squares = Square::playable_squares();
    assert_eq!(96, squares.len());
    let teams = [Team::One, Team::Two, Team::Three];
    for (i, square) in squares.iter().enumerate() {
        // chips in a pattern that keeps every line mixed
        let team = teams[(i + i / 10 + i / 3) % 3];
        board.add_chip(square, team);
        assert_eq!(i + 1, board.num_chips() as usize);
        assert_eq!(i + 1, chipped_squares(&board));
        assert!(!board.is_empty());
        assert_eq!(i + 1 == 96, board.is_full());
        if i % 4 == 3 && !board.in_sequence(square) {
            board.remove_chip(square);
            assert_eq!(i, board.num_chips() as usize);
            assert_eq!(i, chipped_squares(&board));
            assert!(!board.is_full());
            assert_eq!(None, board.chip_at(square));
            board.add_chip(square, teams[(i + 1) % 3]);
        }
    }
    assert!(board.is_full());
    assert_eq!(96, chipped_squares(&board));
    let owned: usize = teams.iter().map(|team| board.squares_owned_by(team).len()).sum();
    assert_eq!(96, owned);
    for team in teams.iter() {
        for square in board.squares_owned_by(team) {
            assert_eq!(Some(*team), board.chip_at(&square));
        }
    }
    for sequence in board.sequences() {
        for square in sequence.squares.iter() {
            assert_eq!(Some(sequence.team), board.chip_at(square));
            assert!(board.in_sequence(square));
        }
    }
}

#[test]
fn a_card_is_dead_once_both_its_squares_are_taken() {
    let mut board = standard_board();
    let two = Card { rank: Rank::Two, suit: sequence_game::suit::Suit::Spades };
    let one_eyed = Card { rank: Rank::Jack, suit: sequence_game::suit::Suit::Hearts };
    let two_eyed = Card { rank: Rank::Jack, suit: sequence_game::suit::Suit::Diamonds };
    let b0 = Square::from_notation("b0");
    let g8 = Square::from_notation("g8");
    assert_eq!(vec![b0, g8], board.squares_for_card(&two));
    assert_eq!(vec![b0, g8], board.unoccupied_squares_for_card(&two));
    assert!(board.squares_for_card(&one_eyed).is_empty());
    assert!(board.unoccupied_squares_for_card(&two_eyed).is_empty());

    assert!(!board.is_dead(&two));
    assert!(board.can_be_played(&two, &Team::One));
    // on an empty board there is nothing for a one-eyed jack to remove
    assert!(!board.can_be_played(&one_eyed, &Team::One));
    assert!(board.can_be_played(&two_eyed, &Team::One));

    board.add_chip(&b0, Team::One);
    assert!(!board.is_dead(&two));
    assert_eq!(vec![g8], board.unoccupied_squares_for_card(&two));
    assert!(board.can_be_played(&one_eyed, &Team::One));

    board.add_chip(&g8, Team::Two);
    assert!(board.is_dead(&two));
    assert!(!board.can_be_played(&two, &Team::One));
    assert!(board.unoccupied_squares_for_card(&two).is_empty());
    assert_eq!(vec![b0, g8], board.squares_for_card(&two));
    // jacks are never dead
    assert!(!board.is_dead(&one_eyed));
    assert!(!board.is_dead(&two_eyed));

    board.remove_chip(&b0);
    assert!(!board.is_dead(&two));
}

#[test]
fn a_two_eyed_jack_has_no_use_on_a_full_board() {
    let mut board = standard_board();
    let teams = [Team::One, Team::Two, Team::Three];
    for (i, square) in Square::playable_squares().iter().enumerate() {
        board.add_chip(square, teams[(i + i / 10 + i / 3) % 3]);
    }
    let two_eyed = Card { rank: Rank::Jack, suit: sequence_game::suit::Suit::Clubs };
    let one_eyed = Card { rank: Rank::Jack, suit: sequence_game::suit::Suit::Spades };
    assert!(board.is_full());
    assert!(!board.can_be_played(&two_eyed, &Team::One));
    assert!(board.can_be_played(&one_eyed, &Team::One));
}

#[test]
fn a_board_can_be_made_with_another_layout() {
    let king = Card { rank: Rank::King, suit: sequence_game::suit::Suit::Hearts };
    let queen = Card { rank: Rank::Queen, suit: sequence_game::suit::Suit::Hearts };
    let mut cards = [[Some(king); 10]; 10];
    for (row, col) in [(0, 0), (0, 9), (9, 0), (9, 9)] {
        cards[row][col] = None;
    }
    cards[4][4] = Some(queen);
    let mut board = Board::new(cards);
    assert!(board.is_empty());
    assert_eq!(Some(queen), board.card_at(&Square { row: 4, col: 4 }));
    assert_eq!(vec![Square { row: 4, col: 4 }], board.squares_for_card(&queen));
    assert_eq!(95, board.squares_for_card(&king).len());
    // a card that the layout does not hold has nowhere to go
    let ace = Card { rank: Rank::Ace, suit: sequence_game::suit::Suit::Hearts };
    assert!(board.is_dead(&ace));
    assert_eq!(None, board.add_chip(&Square { row: 4, col: 4 }, Team::Three));
    assert!(board.is_dead(&queen));
}

#[test]
fn a_chip_between_a_sequence_and_three_more_chips_makes_a_second_sequence() {
    let mut board = standard_board();
    for name in ["c0", "c1", "c2", "c3"] {
        assert_eq!(None, board.add_chip(&Square::from_notation(name), Team::One));
    }
    assert_eq!(Some(1), board.add_chip(&Square::from_notation("c4"), Team::One));
    for name in ["c6", "c7", "c8"] {
        assert_eq!(None, board.add_chip(&Square::from_notation(name), Team::One));
    }
    // c5 lies at the end of the sequence; the run beyond it takes one square of the sequence
    assert_eq!(Some(2), board.add_chip(&Square::from_notation("c5"), Team::One));
    assert_sequences(
        &board,
        vec![vec!["c0", "c1", "c2", "c3", "c4"], vec!["c4", "c5", "c6", "c7", "c8"]],
    );
}

#[test]
fn a_chip_next_to_a_sequence_and_two_more_chips_makes_none() {
    let mut board = standard_board();
    for name in ["c0", "c1", "c2", "c3"] {
        assert_eq!(None, board.add_chip(&Square::from_notation(name), Team::One));
    }
    assert_eq!(Some(1), board.add_chip(&Square::from_notation("c4"), Team::One));
    for name in ["c6", "c7"] {
        assert_eq!(None, board.add_chip(&Square::from_notation(name), Team::One));
    }
    assert_eq!(None, board.add_chip(&Square::from_notation("c5"), Team::One));
    assert_sequences(&board, vec![vec!["c0", "c1", "c2", "c3", "c4"]]);
}

fn orders_of(items: &[usize]) -> Vec<Vec<usize>> {
    if items.len() <= 1 {
        return vec![items.to_vec()];
    }
    let mut orders = Vec::new();
    for (at, item) in items.iter().enumerate() {
        let mut rest = items.to_vec();
        rest.remove(at);
        for mut order in orders_of(&rest) {
            order.insert(0, *item);
            orders.push(order);
        }
    }
    orders
}

#[test]
fn five_chips_in_any_order_make_one_sequence() {
    let steps = [(0i8, 1i8), (1, 1), (1, 0), (1, -1)];
    let starts = [(3u8, 2u8), (2, 3), (3, 4), (2, 7)];
    let orders = orders_of(&[0, 1, 2, 3, 4]);
    assert_eq!(120, orders.len());
    for (step, start) in steps.iter().zip(starts.iter()) {
        let origin = Square { row: start.0, col: start.1 };
        let line: Vec<Square> = (0..5).map(|i| origin.plus(step.0 * i, step.1 * i)).collect();
        for order in orders.iter() {
            let mut board = standard_board();
            for (count, at) in order.iter().enumerate() {
                let reported = board.add_chip(&line[*at], Team::Three);
                if count < 4 {
                    assert_eq!(None, reported);
                    assert!(board.sequences().is_empty());
                } else {
                    assert_eq!(Some(1), reported);
                }
            }
            assert_eq!(1, board.sequences().len());
            assert_eq!(Team::Three, board.sequences()[0].team);
            let mut recorded = board.sequences()[0].squares.clone();
            recorded.sort_by_key(|square| (square.row, square.col));
            let mut expected = line.clone();
            expected.sort_by_key(|square| (square.row, square.col));
            assert_eq!(expected, recorded);
            for square in Square::playable_squares() {
                assert_eq!(line.contains(&square), board.in_sequence(&square));
            }
        }
    }
}

#[test]
fn no_sequence_lists_a_square_twice() {
    let mut board = standard_board();
    let teams = [Team::One, Team::Two];
    for (i, square) in Square::playable_squares().iter().enumerate() {
        board.add_chip(square, teams[(i / 7) % 2]);
    }
    assert!(!board.sequences().is_empty());
    for sequence in board.sequences() {
        let distinct: std::collections::HashSet<Square> = sequence.squares.iter().cloned().collect();
        assert_eq!(sequence.squares.len(), distinct.len());
        assert!(sequence.squares.len() >= 4);
    }
}
