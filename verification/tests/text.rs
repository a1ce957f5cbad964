use sequence_game::board::Board;
use sequence_game::card::Card;
use sequence_game::log::LogLevel;
use sequence_game::rank::Rank;
use sequence_game::square::Square;
use sequence_game::suit::Suit;
use sequence_game::team::Team;

#[test]
fn cards_read_rank_then_suit() {
    assert_eq!("2♠", Card { rank: Rank::Two, suit: Suit::Spades }.to_string());
    assert_eq!("T♥", Card { rank: Rank::Ten, suit: Suit::Hearts }.to_string());
    assert_eq!("J♦", Card { rank: Rank::Jack, suit: Suit::Diamonds }.to_string());
    assert_eq!("A♣", Card { rank: Rank::Ace, suit: Suit::Clubs }.to_string());
    let ranks: String = Rank::all().iter().map(|rank| rank.to_char()).collect();
    assert_eq!("23456789TJQKA", ranks);
    let suits: String = Suit::all().iter().map(|suit| suit.to_char()).collect();
    assert_eq!("♠♥♦♣", suits);
}

#[test]
fn jacks_come_in_two_kinds() {
    for suit in Suit::all() {
        for rank in Rank::all() {
            let card = Card { rank, suit };
            let one_eyed = rank == Rank::Jack && (suit == Suit::Spades || suit == Suit::Hearts);
            let two_eyed = rank == Rank::Jack && (suit == Suit::Diamonds || suit == Suit::Clubs);
            assert_eq!(one_eyed, card.is_one_eyed_jack());
            assert_eq!(two_eyed, card.is_two_eyed_jack());
            assert_eq!(rank == Rank::Jack, card.is_jack());
            assert_eq!(suit.index() * 13 + rank.index(), card.index());
        }
    }
}

#[test]
fn teams_have_colours() {
    assert_eq!("BLUE", Team::One.to_string());
    assert_eq!("GREEN", Team::Two.to_string());
    assert_eq!("RED", Team::Three.to_string());
    assert_eq!("\x1b[34mhello\x1b[39;49m", Team::One.with_team_color("hello", false));
    assert_eq!("\x1b[44mhello\x1b[39;49m", Team::One.with_team_color("hello", true));
    assert_eq!("\x1b[32m\x1b[39;49m", Team::Two.with_team_color("", false));
    assert_eq!("\x1b[42mx\x1b[39;49m", Team::Two.with_team_color("x", true));
    assert_eq!("\x1b[31mx\x1b[39;49m", Team::Three.with_team_color("x", false));
    assert_eq!("\x1b[41mx\x1b[39;49m", Team::Three.with_team_color("x", true));
    assert_eq!([0, 1, 2], [Team::One.index(), Team::Two.index(), Team::Three.index()]);
}

#[test]
fn squares_show_their_card_and_chip() {
    let mut board = Board::standard_board();
    let a0 = Square::from_notation("a0");
    let b0 = Square::from_notation("b0");
    let two = Card { rank: Rank::Two, suit: Suit::Spades };
    let three = Card { rank: Rank::Three, suit: Suit::Spades };
    assert_eq!("a0 --", board.cell_text(&a0, &[]));
    assert_eq!("b0 2♠", board.cell_text(&b0, &[]));
    assert_eq!("b0 2♠", board.cell_text(&b0, &[three]));
    assert_eq!("\x1b[33mb0 2♠\x1b[39m", board.cell_text(&b0, &[three, two]));
    board.add_chip(&b0, Team::Two);
    assert_eq!("\x1b[32mb0 2♠\x1b[39;49m", board.cell_text(&b0, &[two]));
    for name in ["c0", "d0", "e0"] {
        board.add_chip(&Square::from_notation(name), Team::Two);
    }
    assert_eq!("\x1b[42mb0 2♠\x1b[39;49m", board.cell_text(&b0, &[]));
}

#[test]
fn the_board_is_rendered_row_by_row() {
    let board = Board::standard_board();
    let text = board.render(&[]);
    let lines: Vec<&str> = text.lines().collect();
    assert_eq!(10, lines.len());
    assert_eq!(
        "| a0 -- | b0 2♠ | c0 3♠ | d0 4♠ | e0 5♠ | f0 6♠ | g0 7♠ | h0 8♠ | i0 9♠ | j0 -- |",
        lines[0],
    );
    assert_eq!(
        "| a1 6♣ | b1 5♣ | c1 4♣ | d1 3♣ | e1 2♣ | f1 A♥ | g1 K♥ | h1 Q♥ | i1 T♥ | j1 T♠ |",
        lines[1],
    );
    assert_eq!(
        "| a9 -- | b9 A♦ | c9 K♦ | d9 Q♦ | e9 T♦ | f9 9♦ | g9 8♦ | h9 7♦ | i9 6♦ | j9 -- |",
        lines[9],
    );
    assert!(text.ends_with("|\n"));
    let ten = Card { rank: Rank::Ten, suit: Suit::Spades };
    let highlighted = board.render(&[ten]);
    assert!(highlighted.contains("| \x1b[33mj1 T♠\x1b[39m |"));
    assert!(highlighted.contains("| \x1b[33mb5 T♠\x1b[39m |"));
    assert_eq!(2, highlighted.matches("\x1b[33m").count());
}

#[test]
fn log_levels_include_the_lower_ones() {
    let levels = [LogLevel::Off, LogLevel::Results, LogLevel::Turn, LogLevel::Board];
    for (i, level) in levels.iter().enumerate() {
        assert_eq!(i as i8, level.ord());
        for (j, configured) in levels.iter().enumerate() {
            assert_eq!(j >= i, level.is_logged(configured));
            let mut ran = false;
            assert_eq!(j >= i, level.if_logged(configured, || ran = true));
            assert_eq!(j >= i, ran);
        }
    }
}
