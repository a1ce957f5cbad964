use sequence_game::board::Board;
use sequence_game::card::Card;
use sequence_game::deck::Deck;
use sequence_game::game::{check_placement, legal_squares, Game};
use sequence_game::player::Player;
use sequence_game::players::deterministic_player::DeterministicPlayer;
use sequence_game::players::random_player::{
    pick_square, rand_occupied_square_not_in_sequence, rand_unoccupied_square, RandomPlayer,
};
use sequence_game::players::square_evaluation_player::SquareEvaluationPlayer;
use sequence_game::rank::Rank;
use sequence_game::simple_player::{card_for_square, SimplePlayer};
use sequence_game::square::Square;
use sequence_game::suit::Suit;
use sequence_game::team::Team;

fn card(rank: Rank, suit: Suit) -> Card {
    Card { rank, suit }
}

#[test]
fn plays_card_near_existing_chip() {
    let mut board = Board::standard_board();
    let deck = Deck::default();
    let player = SquareEvaluationPlayer::default();

    board.add_chip(&Square::from_notation("e0"), Team::One);
    // 3 and 4 of clubs are never in line with a corner square
    let hand = vec![
        Card { rank: Rank::Three, suit: Suit::Clubs },
        Card { rank: Rank::Four, suit: Suit::Clubs },
    ];

    let (index, square) = player.play(&Team::One, &hand, &board, &deck);
    assert_eq!(index, 0);
    assert_eq!(square, Square::from_notation("d1"));
}

#[test]
fn plays_card_near_corner() {
    let board = Board::standard_board();
    let deck = Deck::default();
    let player = SquareEvaluationPlayer::default();

    // 3 and 4 of clubs are never in line with a corner square
    let hand = vec![
        Card { rank: Rank::Three, suit: Suit::Clubs },
        Card { rank: Rank::Four, suit: Suit::Clubs },
        Card { rank: Rank::Three, suit: Suit::Diamonds },
    ];

    let (index, square) = player.play(&Team::One, &hand, &board, &deck);
    assert_eq!(index, 2);
    assert_eq!(square, Square::from_notation("j6"));
}

#[test]
fn plays_card_with_more_nearby_chips() {
    let mut board = Board::standard_board();
    let deck = Deck::default();
    let player = SquareEvaluationPlayer::default();

    // run near the 3 of clubs on d1
    board.add_chip(&Square::from_notation("d3"), Team::One);
    board.add_chip(&Square::from_notation("d4"), Team::One);
    board.add_chip(&Square::from_notation("d5"), Team::One);

    // single chip near the 4 of clubs on c1
    board.add_chip(&Square::from_notation("b2"), Team::One);

    let hand = vec![
        Card { rank: Rank::Three, suit: Suit::Clubs },
        Card { rank: Rank::Four, suit: Suit::Clubs },
    ];

    let (index, square) = player.play(&Team::One, &hand, &board, &deck);
    assert_eq!(index, 0);
    assert_eq!(square, Square::from_notation("d1"));
}

#[test]
fn does_not_play_card_near_blocked_run() {
    let mut board = Board::standard_board();
    let deck = Deck::default();
    let player = SquareEvaluationPlayer::default();

    // run up to the 3 of clubs on d1 is blocked
    board.add_chip(&Square::from_notation("d2"), Team::Two);
    board.add_chip(&Square::from_notation("d3"), Team::One);
    board.add_chip(&Square::from_notation("d4"), Team::One);
    board.add_chip(&Square::from_notation("d5"), Team::One);

    // single chip near the 4 of clubs on c1
    board.add_chip(&Square::from_notation("b2"), Team::One);

    // block the second option for the 4 of clubs
    board.add_chip(&Square::from_notation("e3"), Team::Three);

    let hand = vec![
        Card { rank: Rank::Three, suit: Suit::Clubs },
        Card { rank: Rank::Four, suit: Suit::Clubs },
    ];

    let (index, square) = player.play(&Team::One, &hand, &board, &deck);
    assert_eq!(index, 1);
    assert_eq!(square, Square::from_notation("c1"));
}

#[test]
fn sequence_distance_counts_steps_along_a_line() {
    let origin = Square { row: 4, col: 4 };
    let distance = |row, col| SquareEvaluationPlayer::sequence_distance(&origin, &Square { row, col });
    assert_eq!(Some(0), distance(4, 4));
    assert_eq!(Some(3), distance(4, 7));
    assert_eq!(Some(4), distance(0, 4));
    assert_eq!(Some(2), distance(6, 2));
    assert_eq!(Some(5), distance(9, 9));
    assert_eq!(None, distance(5, 6));
    assert_eq!(None, distance(0, 5));
}

// what a square of the given worth adds to a rating at the given distance
fn expected_points(worth: f32, steps: u8) -> i32 {
    let dist = steps as f32;
    let dist_multiplier = (dist - 1.0) * 0.05;
    (worth / (1.0 + dist_multiplier)) as i32
}

#[test]
fn a_lone_chip_adds_points_by_its_distance() {
    // squares of the row of e4 bear nothing that the hand holds
    let hand = vec![card(Rank::Ace, Suit::Diamonds)];
    for steps in 1..=5u8 {
        let mut board = Board::standard_board();
        let origin = Square { row: 4, col: 2 };
        board.add_chip(&Square { row: 4, col: 2 + steps }, Team::One);
        let empty = SquareEvaluationPlayer::evaluate_empty_square(
            &origin,
            &Team::One,
            &hand,
            &Board::standard_board(),
        );
        let score = SquareEvaluationPlayer::evaluate_empty_square(&origin, &Team::One, &hand, &board);
        assert_eq!(expected_points(10.0, steps) - expected_points(0.5, steps), score - empty);
        assert_eq!(0, expected_points(0.5, steps));
    }
    assert_eq!(vec![10, 9, 9, 8, 8], (1..=5).map(|s| expected_points(10.0, s)).collect::<Vec<_>>());
    assert_eq!(vec![2, 2, 2, 2, 2], (1..=5).map(|s| expected_points(2.5, s)).collect::<Vec<_>>());
}

#[test]
fn squares_of_the_hand_add_points() {
    let board = Board::standard_board();
    // no corner lies within five steps of c4 on any of its lines
    let origin = Square::from_notation("c4");
    let without = SquareEvaluationPlayer::evaluate_empty_square(&origin, &Team::One, &[], &board);
    assert_eq!(0, without);
    // the six of hearts lies on d4, next to c4, and on i5, off its lines
    let hand = vec![card(Rank::Six, Suit::Hearts)];
    let with = SquareEvaluationPlayer::evaluate_empty_square(&origin, &Team::One, &hand, &board);
    assert_eq!(expected_points(2.5, 1), with);
    assert_eq!(2, with);
    // from e4 both ends of a diagonal are corners, four and five steps away
    let e4 = SquareEvaluationPlayer::evaluate_empty_square(
        &Square::from_notation("e4"),
        &Team::One,
        &[],
        &board,
    );
    assert_eq!(expected_points(10.0, 4) + expected_points(10.0, 5), e4);
    assert_eq!(16, e4);
}

#[test]
fn a_chip_of_another_team_ends_the_rated_run() {
    let mut board = Board::standard_board();
    let origin = Square::from_notation("c4");
    board.add_chip(&Square::from_notation("c6"), Team::One);
    let open = SquareEvaluationPlayer::evaluate_empty_square(&origin, &Team::One, &[], &board);
    assert_eq!(expected_points(10.0, 2), open);
    board.add_chip(&Square::from_notation("c5"), Team::Two);
    let blocked = SquareEvaluationPlayer::evaluate_empty_square(&origin, &Team::One, &[], &board);
    assert_eq!(0, blocked);
}

#[test]
fn corners_count_for_the_rating() {
    let board = Board::standard_board();
    // b0 lies next to the corner a0, and b1 lies next to it on a diagonal
    for name in ["b0", "b1", "a1"] {
        let score = SquareEvaluationPlayer::evaluate_empty_square(
            &Square::from_notation(name),
            &Team::Two,
            &[],
            &board,
        );
        assert_eq!(10, score);
    }
}

#[test]
fn normally_playable_squares_are_those_of_the_hand() {
    let board = Board::standard_board();
    let hand = vec![card(Rank::Three, Suit::Clubs), card(Rank::Jack, Suit::Clubs)];
    let squares = board.normally_playable_squares(&hand);
    assert_eq!(vec![Square::from_notation("d1"), Square::from_notation("f3")], squares);
    assert!(board.normally_playable_squares(&[]).is_empty());
}

#[test]
fn a_two_eyed_jack_goes_to_the_best_square_of_the_board() {
    let mut board = Board::standard_board();
    let deck = Deck::default();
    let player = SquareEvaluationPlayer { two_eyed_jack_cutoff: 20 };
    for name in ["e4", "e5", "e6"] {
        board.add_chip(&Square::from_notation(name), Team::One);
    }
    let hand = vec![card(Rank::Jack, Suit::Diamonds)];
    let (index, square) = player.play(&Team::One, &hand, &board, &deck);
    assert_eq!(0, index);
    // f5 touches all three chips and looks at two corners, four and five steps away
    let f5 = Square::from_notation("f5");
    assert_eq!(46, SquareEvaluationPlayer::evaluate_empty_square(&f5, &Team::One, &hand, &board));
    assert_eq!(f5, square);

    // with every square below the cutoff the jack still goes to the square rated highest
    let player = SquareEvaluationPlayer { two_eyed_jack_cutoff: 1000 };
    let (index, square) = player.play(&Team::One, &hand, &board, &deck);
    assert_eq!(0, index);
    assert_eq!(f5, square);
}

#[test]
fn without_a_square_to_claim_a_chip_is_removed() {
    let mut board = Board::standard_board();
    let deck = Deck::default();
    let player = SquareEvaluationPlayer::default();
    // both threes of clubs are taken
    board.add_chip(&Square::from_notation("d1"), Team::Two);
    board.add_chip(&Square::from_notation("f3"), Team::One);
    let hand = vec![card(Rank::Three, Suit::Clubs), card(Rank::Jack, Suit::Spades)];
    let (index, square) = player.play(&Team::One, &hand, &board, &deck);
    assert_eq!(1, index);
    assert_eq!(Square::from_notation("d1"), square);
    assert_eq!(Ok(()), check_placement(&board, &Team::One, &hand[1], &square));
}

struct Fixed {
    square: Square,
}

impl SimplePlayer for Fixed {
    fn play_square(&self, _team: &Team, _hand: &[Card], _board: &Board, _deck: &Deck) -> Square {
        self.square
    }
}

#[test]
fn the_card_is_found_for_the_square() {
    let mut board = Board::standard_board();
    let deck = Deck::default();
    let hand = vec![
        card(Rank::Jack, Suit::Hearts),
        card(Rank::Jack, Suit::Clubs),
        card(Rank::Three, Suit::Clubs),
        card(Rank::Three, Suit::Clubs),
    ];
    let d1 = Square::from_notation("d1");
    let e1 = Square::from_notation("e1");
    // the card that the square bears goes first, then a two-eyed jack
    assert_eq!((2, d1), Fixed { square: d1 }.play(&Team::One, &hand, &board, &deck));
    assert_eq!((1, e1), Fixed { square: e1 }.play(&Team::One, &hand, &board, &deck));
    assert_eq!(2, card_for_square(&board, &hand, &d1));
    // a chip calls for a one-eyed jack
    board.add_chip(&d1, Team::Two);
    assert_eq!((0, d1), Fixed { square: d1 }.play(&Team::One, &hand, &board, &deck));
    // an absent card gives the length of the hand
    assert_eq!(2, card_for_square(&board, &hand[2..], &d1));
    assert_eq!(2, card_for_square(&board, &hand[2..], &e1));
    assert_eq!(4, card_for_square(&board, &hand, &Square { row: 10, col: 10 }) + 3);
}

#[test]
fn random_player_moves_within_the_rules() {
    let player = RandomPlayer {};
    let deck = Deck::default();
    for _ in 0..20 {
        let mut board = Board::standard_board();
        let mut deck_cards = Deck::new();
        for turn in 0..60 {
            let team = if turn % 2 == 0 { Team::One } else { Team::Two };
            let hand: Vec<Card> = (0..7).map(|_| deck_cards.draw()).collect();
            for card in hand.iter() {
                deck_cards.discard(*card);
            }
            let (index, square) = player.play(&team, &hand, &board, &deck);
            let has_move = hand.iter().any(|card| !legal_squares(&board, &team, card).is_empty());
            if !has_move {
                assert_eq!((7, Square { row: 0, col: 0 }), (index, square));
                continue;
            }
            let played = hand[index as usize];
            assert_eq!(Ok(()), check_placement(&board, &team, &played, &square));
            if played.is_one_eyed_jack() {
                board.remove_chip(&square);
            } else {
                board.add_chip(&square, team);
            }
        }
    }
}

#[test]
fn random_player_varies() {
    let player = RandomPlayer {};
    let board = Board::standard_board();
    let deck = Deck::default();
    let hand = vec![card(Rank::Jack, Suit::Clubs), card(Rank::Jack, Suit::Diamonds)];
    let first = player.play(&Team::One, &hand, &board, &deck);
    let varied = (0..200).any(|_| player.play(&Team::One, &hand, &board, &deck) != first);
    assert!(varied);
}

#[test]
fn random_squares_are_picked_from_those_that_qualify() {
    let mut board = Board::standard_board();
    assert_eq!(None, rand_occupied_square_not_in_sequence(&board, &Team::One));
    assert_eq!(None, pick_square(&vec![]));
    let b0 = Square::from_notation("b0");
    assert_eq!(Some(b0), pick_square(&vec![b0]));
    board.add_chip(&b0, Team::One);
    assert_eq!(None, rand_occupied_square_not_in_sequence(&board, &Team::One));
    assert_eq!(Some(b0), rand_occupied_square_not_in_sequence(&board, &Team::Two));
    for name in ["c0", "d0", "e0"] {
        board.add_chip(&Square::from_notation(name), Team::One);
    }
    // the four chips make a sequence with the corner
    assert_eq!(None, rand_occupied_square_not_in_sequence(&board, &Team::Two));
    for _ in 0..20 {
        let square = rand_unoccupied_square(&board).unwrap();
        assert!(square.is_playable());
        assert_eq!(None, board.chip_at(&square));
    }
}

#[test]
fn deterministic_player_takes_the_first_card_and_square() {
    let mut board = Board::standard_board();
    let deck = Deck::default();
    let player = DeterministicPlayer {};
    let hand = vec![
        card(Rank::Jack, Suit::Spades),
        card(Rank::Two, Suit::Spades),
        card(Rank::Jack, Suit::Clubs),
    ];
    let b0 = Square::from_notation("b0");
    let g8 = Square::from_notation("g8");
    // the one-eyed jack has no use on an empty board
    assert_eq!((1, b0), player.play(&Team::One, &hand, &board, &deck));
    board.add_chip(&b0, Team::One);
    // nor where only the own team has chips
    assert_eq!((1, g8), player.play(&Team::One, &hand, &board, &deck));
    assert_eq!((0, b0), player.play(&Team::Two, &hand, &board, &deck));
    board.add_chip(&g8, Team::One);
    // the two of spades is dead, and the two-eyed jack takes the first empty square
    assert_eq!((2, Square::from_notation("c0")), player.play(&Team::One, &hand, &board, &deck));
    // a hand without a move gives no move
    assert_eq!((2, Square { row: 0, col: 0 }), player.play(&Team::One, &hand[..2], &board, &deck));
}

#[test]
fn deterministic_player_leaves_protected_chips_alone() {
    let mut board = Board::standard_board();
    let deck = Deck::default();
    let player = DeterministicPlayer {};
    for name in ["b0", "c0", "d0"] {
        board.add_chip(&Square::from_notation(name), Team::Two);
    }
    assert_eq!(Some(1), board.add_chip(&Square::from_notation("e0"), Team::Two));
    board.add_chip(&Square::from_notation("e4"), Team::Two);
    let hand = vec![card(Rank::Jack, Suit::Hearts)];
    // the first chips of the other team are in a sequence
    assert_eq!((0, Square::from_notation("e4")), player.play(&Team::One, &hand, &board, &deck));
    board.remove_chip(&Square::from_notation("e4"));
    assert_eq!((1, Square { row: 0, col: 0 }), player.play(&Team::One, &hand, &board, &deck));
}

#[test]
fn a_game_of_the_built_in_players_ends() {
    for _ in 0..10 {
        let players: Vec<Box<dyn Player>> = vec![
            Box::new(RandomPlayer {}),
            Box::new(SquareEvaluationPlayer::default()),
        ];
        let mut game = Game::new(players, 2).unwrap();
        let result = game.run().unwrap().unwrap();
        assert!(game.board().count_sequences(&result.winner) >= 2);
        assert_eq!(result.turns, game.turn_count());
    }
}
