use sequence_game::board::Board;
use sequence_game::grid_traversal::{
    find_runs, open_runs_for_team, runs_for_team, traverse, traverse_in_direction,
};
use sequence_game::model::DIRECTIONS;
use sequence_game::square::Square;
use sequence_game::team::Team;
use sequence_game::util::{generate_vector, Wrapper};

fn squares(names: &[&str]) -> Vec<Square> {
    names.iter().map(|name| Square::from_notation(name)).collect()
}

#[test]
fn find_runs_walks_both_ways_along_each_line() {
    let origin = Square::from_notation("b1");
    let runs = find_runs(&origin, 2, |_| false);
    assert_eq!(squares(&["c1", "d1", "a1"]), runs[0]);
    assert_eq!(squares(&["c2", "d3", "a0"]), runs[1]);
    assert_eq!(squares(&["b2", "b3", "b0"]), runs[2]);
    assert_eq!(squares(&["a2", "c0"]), runs[3]);
}

#[test]
fn find_runs_stops_where_told() {
    let origin = Square::from_notation("e4");
    let runs = find_runs(&origin, 5, |square: Square| square.col == 6 || square.row == 1);
    assert_eq!(squares(&["f4", "d4", "c4", "b4", "a4"]), runs[0]);
    assert_eq!(squares(&["f5", "d3", "c2"]), runs[1]);
    assert_eq!(squares(&["e5", "e6", "e7", "e8", "e9", "e3", "e2"]), runs[2]);
    assert_eq!(squares(&["d5", "c6", "b7", "a8", "f3"]), runs[3]);
    assert!(find_runs(&origin, 0, |_| false).iter().all(|run| run.is_empty()));
}

#[test]
fn runs_for_team_hold_the_chips_of_the_team() {
    let mut board = Board::standard_board();
    for name in ["c4", "d4", "f4", "e5", "e6"] {
        board.add_chip(&Square::from_notation(name), Team::One);
    }
    board.add_chip(&Square::from_notation("e7"), Team::Two);
    let origin = Square::from_notation("e4");
    let runs = runs_for_team(&board, &origin, &Team::One);
    assert_eq!(squares(&["f4", "d4", "c4"]), runs[0]);
    assert!(runs[1].is_empty());
    assert_eq!(squares(&["e5", "e6"]), runs[2]);
    assert!(runs[3].is_empty());

    let open = open_runs_for_team(&board, &origin, &Team::One);
    assert_eq!(squares(&["f4", "g4", "h4", "i4", "j4", "d4", "c4", "b4", "a4"]), open[0]);
    assert_eq!(squares(&["e5", "e6", "e3", "e2", "e1", "e0"]), open[2]);
    let open = open_runs_for_team(&board, &origin, &Team::Two);
    assert!(open[0].is_empty());
    assert_eq!(squares(&["e3", "e2", "e1", "e0"]), open[2]);
}

#[test]
fn traverse_hands_over_the_squares_around() {
    let origin = Square::from_notation("b1");
    let mut seen = Vec::new();
    traverse(&origin, 2, &mut |square| {
        seen.push(square);
        true
    });
    assert_eq!(
        squares(&["c1", "d1", "a1", "c2", "d3", "a0", "b2", "b3", "b0", "a2", "c0"]),
        seen,
    );

    let mut seen = Vec::new();
    traverse_in_direction(&origin, DIRECTIONS[1].0, DIRECTIONS[1].1, 5, &mut |square| {
        seen.push(square);
        seen.len() < 3
    });
    assert_eq!(squares(&["c2", "d3", "e4"]), seen);
}

#[test]
fn wraps_asks_for_one_value() {
    assert!(Some(Team::One).wraps(&Team::One));
    assert!(!Some(Team::One).wraps(&Team::Two));
    assert!(!None.wraps(&Team::One));
}

#[test]
fn generate_vector_numbers_the_places() {
    assert_eq!(vec![0, 2, 4, 6], generate_vector(4, |i| 2 * i));
    assert_eq!(Vec::<usize>::new(), generate_vector(0, |i| i));
}
