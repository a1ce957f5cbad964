//! The turn engine: whose turn it is, what each player holds, and how one
//! turn changes the board and the deck.

use vstd::arithmetic::div_mod::{lemma_add_mod_noop, lemma_small_mod};
use vstd::multiset::Multiset;
use vstd::prelude::*;

use crate::board::Board;
use crate::card::Card;
use crate::deck::{fresh_cards, lemma_draw_keeps_cards, Deck, DeckView, DECK_SIZE};
use crate::guarantees::lemma_add_counts;
use crate::layout::standard_card;
use crate::model::BoardView;
use crate::player::{first_dead_card, has_playable_card, holds_dead_card, holds_playable_card, Player};
use crate::square::{row_major, Square};
use crate::team::Team;
use crate::util::lemma_push_contains;

verus! {

/// Why a game cannot be set up.
#[derive(Clone, Copy, Debug, PartialEq, Eq, Structural)]
pub enum ConfigError {
    /// No hand size is laid down for this number of players.
    UnsupportedPlayerCount,
    /// The number of teams is neither two nor three, or the players cannot
    /// be split evenly among the teams.
    UnsupportedTeamCount,
    /// The deck holds too few cards to deal every hand.
    NotEnoughCards,
}

/// How an answer of a player breaks the rules.
#[derive(Clone, Copy, Debug, PartialEq, Eq, Structural)]
pub enum MoveError {
    /// The hand has no card at the chosen place.
    IndexOutOfBounds,
    /// The chosen square is a corner or lies off the board.
    SquareNotPlayable,
    /// A one-eyed jack was played on a square without a chip of another team.
    NoOpposingChip,
    /// A one-eyed jack was played on a chip that a sequence protects.
    ChipProtected,
    /// A chip was to be put on a square that holds one.
    SquareTaken,
    /// An ordinary card was played on a square that bears another card.
    CardMismatch,
    /// The hand has no card at the place chosen for replacement.
    ReplacementOutOfBounds,
    /// The card chosen for replacement is not dead.
    ReplacementNotDead,
}

/// How a game ended.
#[derive(Clone, Copy, Debug, PartialEq, Eq, Structural)]
pub struct GameResult {
    pub winner: Team,
    /// Number of turns taken, the winning one included.
    pub turns: usize,
}

/// Whether a hand size is laid down for a number of players.
pub open spec fn supported_players(n: int) -> bool {
    n == 2 || n == 3 || n == 4 || n == 6 || n == 8 || n == 9 || n == 10 || n == 12
}

/// The hand size for a number of players; zero where none is laid down.
pub open spec fn hand_size_of(n: int) -> int {
    if n == 2 {
        7
    } else if n == 3 || n == 4 {
        6
    } else if n == 6 {
        5
    } else if n == 8 || n == 9 {
        4
    } else if n == 10 || n == 12 {
        3
    } else {
        0
    }
}

pub open spec fn supported_teams(t: int) -> bool {
    t == 2 || t == 3
}

/// Number of sequences that wins a game: two with two teams, one with three.
pub open spec fn winning_sequences_of(t: int) -> int {
    if t == 2 {
        2
    } else {
        1
    }
}

/// The team of a player: players take the teams in turn.
pub open spec fn team_of(num_teams: int, player: int) -> Team {
    Team::at(player % num_teams)
}

/// What rule, if any, forbids a team to play a card on a square.
pub open spec fn placement_error(board: BoardView, team: Team, card: Card, square: Square) -> Option<
    MoveError,
> {
    if !square.playable() {
        Some(MoveError::SquareNotPlayable)
    } else if card.one_eyed_jack() {
        if board.chip_at(square) is None || board.chip_at(square) == Some(team) {
            Some(MoveError::NoOpposingChip)
        } else if board.protected(square) {
            Some(MoveError::ChipProtected)
        } else {
            None
        }
    } else if board.chip_at(square) is Some {
        Some(MoveError::SquareTaken)
    } else if !card.two_eyed_jack() && board.card_at(square) != Some(card) {
        Some(MoveError::CardMismatch)
    } else {
        None
    }
}

/// The board after a team has played a card on a square within the rules.
pub open spec fn board_after_move(board: BoardView, team: Team, card: Card, square: Square) -> BoardView {
    if card.one_eyed_jack() {
        board.after_remove(square)
    } else {
        board.after_add(square, team)
    }
}

/// The hands as values.
pub open spec fn hands_of(hands: Seq<Vec<Card>>) -> Seq<Seq<Card>> {
    hands.map_values(|hand: Vec<Card>| hand@)
}

/// The cards of all hands together, each as often as it is held.
pub open spec fn cards_held(hands: Seq<Seq<Card>>) -> Multiset<Card>
    decreases hands.len(),
{
    if hands.len() == 0 {
        Multiset::empty()
    } else {
        cards_held(hands.drop_last()).add(hands.last().to_multiset())
    }
}

/// The state of a game as a value.
pub struct GameView {
    pub num_players: nat,
    pub num_teams: nat,
    pub turn_count: nat,
    pub up_index: nat,
    pub hands: Seq<Seq<Card>>,
    pub board: BoardView,
    pub deck: DeckView,
}

impl GameView {
    /// The team of the player whose turn it is.
    pub open spec fn active_team(self) -> Team {
        team_of(self.num_teams as int, self.up_index as int)
    }

    /// The hand of the player whose turn it is.
    pub open spec fn hand(self) -> Seq<Card> {
        self.hands[self.up_index as int]
    }

    pub open spec fn has_won(self, team: Team) -> bool {
        self.board.sequence_count(team) >= winning_sequences_of(self.num_teams as int)
    }

    /// No team has the sequences it needs to win.
    pub open spec fn undecided(self) -> bool {
        forall|team: Team| !self.has_won(team)
    }

    /// What rule, if any, forbids the active player to play the card at
    /// `index` of the hand on `square`.
    pub open spec fn move_error(self, index: int, square: Square) -> Option<MoveError> {
        if index >= self.hand().len() {
            Some(MoveError::IndexOutOfBounds)
        } else {
            placement_error(self.board, self.active_team(), self.hand()[index], square)
        }
    }

    /// What rule, if any, forbids the active player to trade in the card at
    /// `index` of the hand.
    pub open spec fn replacement_error(self, index: int) -> Option<MoveError> {
        if index >= self.hand().len() {
            Some(MoveError::ReplacementOutOfBounds)
        } else if !self.board.is_dead(self.hand()[index]) {
            Some(MoveError::ReplacementNotDead)
        } else {
            None
        }
    }

    pub open spec fn wf(self) -> bool {
        &&& supported_players(self.num_players as int)
        &&& supported_teams(self.num_teams as int)
        &&& self.num_players % self.num_teams == 0
        &&& self.up_index < self.num_players
        &&& self.hands.len() == self.num_players
        &&& forall|i: int|
            0 <= i < self.hands.len() ==> (#[trigger] self.hands[i]).len() <= hand_size_of(
                self.num_players as int,
            )
        &&& self.board.wf()
    }

    /// The place of the player who is up once the turn has been passed on
    /// so many times, from player to player in a circle.
    pub open spec fn up_after(self, turns: int) -> int {
        (self.up_index + turns) % (self.num_players as int)
    }

    /// How many cards each player holds.
    pub open spec fn hand_sizes(self) -> Seq<nat> {
        self.hands.map_values(|hand: Seq<Card>| hand.len())
    }
}

pub struct Game {
    players: Vec<Box<dyn Player>>,
    // given because six or twelve players may form two teams or three
    num_teams: usize,
    turn_count: usize,
    up_index: usize,
    player_hands: Vec<Vec<Card>>,
    board: Board,
    deck: Deck,
}

impl View for Game {
    type V = GameView;

    closed spec fn view(&self) -> GameView {
        GameView {
            num_players: self.players@.len(),
            num_teams: self.num_teams as nat,
            turn_count: self.turn_count as nat,
            up_index: self.up_index as nat,
            hands: hands_of(self.player_hands@),
            board: self.board@,
            deck: self.deck@,
        }
    }
}

/// Checks the numbers that a game is set up with, and gives the hand size.
pub fn check_setup(num_players: usize, num_teams: usize) -> (checked: Result<usize, ConfigError>)
    ensures
        checked == if !supported_players(num_players as int) {
            Err::<usize, ConfigError>(ConfigError::UnsupportedPlayerCount)
        } else if !supported_teams(num_teams as int) || num_players % num_teams != 0 {
            Err(ConfigError::UnsupportedTeamCount)
        } else {
            Ok(hand_size_of(num_players as int) as usize)
        },
{
    let supported = num_players == 2 || num_players == 3 || num_players == 4 || num_players == 6
        || num_players == 8 || num_players == 9 || num_players == 10 || num_players == 12;
    if !supported {
        return Err(ConfigError::UnsupportedPlayerCount);
    }
    if !(num_teams == 2 || num_teams == 3) || num_players % num_teams != 0 {
        return Err(ConfigError::UnsupportedTeamCount);
    }
    Ok(Game::hand_size(num_players))
}

impl Game {
    /// The game's state is consistent: the numbers of players and teams are
    /// supported, there is a hand for every player, and the board is consistent.
    pub closed spec fn wf(&self) -> bool {
        &&& self@.wf()
        &&& self.board.wf()
        &&& self.player_hands@.len() == self.players@.len()
    }

    /// The size of each player's hand for a number of players.
    pub fn hand_size(num_players: usize) -> (size: usize)
        requires
            supported_players(num_players as int),
        ensures
            size == hand_size_of(num_players as int),
    {
        if num_players == 2 {
            7
        } else if num_players <= 4 {
            6
        } else if num_players == 6 {
            5
        } else if num_players <= 9 {
            4
        } else {
            3
        }
    }

    /// The team that the player at a place belongs to.
    pub fn player_team(num_teams: usize, player_index: usize) -> (team: Team)
        requires
            1 <= num_teams <= 3,
        ensures
            team == team_of(num_teams as int, player_index as int),
    {
        let team_index = player_index % num_teams;
        if team_index == 0 {
            Team::One
        } else if team_index == 1 {
            Team::Two
        } else {
            Team::Three
        }
    }

    /// Number of sequences that a team needs to win.
    pub fn winning_sequences(num_teams: usize) -> (needed: usize)
        requires
            supported_teams(num_teams as int),
        ensures
            needed == winning_sequences_of(num_teams as int),
    {
        if num_teams == 2 {
            2
        } else {
            1
        }
    }

    /// A new game with a freshly shuffled deck. The players sit in the given
    /// order, and the first of them begins.
    pub fn new(players: Vec<Box<dyn Player>>, num_teams: usize) -> (made: Result<Game, ConfigError>)
        ensures
            made is Ok <==> check_setup_ok(players@.len() as int, num_teams as int),
            made matches Err(e) ==> e == setup_error(players@.len() as int, num_teams as int),
            made matches Ok(game) ==> game.wf() && starts(game@, players@.len(), num_teams as nat),
            made matches Ok(game) ==> game@.deck.size() == DECK_SIZE - players@.len()
                * hand_size_of(players@.len() as int),
            made matches Ok(game) ==> game@.deck.discard_pile.len() == 0 && cards_held(
                game@.hands,
            ).add(game@.deck.draw_pile.to_multiset()) == fresh_cards().to_multiset(),
    {
        let deck = Deck::new();
        proof {
            lemma_no_discards(deck@);
        }
        let made = Game::with_deck(players, num_teams, deck);
        proof {
            if made is Ok {
                lemma_hands_fit(players@.len() as int);
                lemma_no_discards(made->Ok_0@.deck);
            }
        }
        made
    }

    /// A new game with the given deck. Hands are dealt player by player from
    /// the top of the deck.
    pub fn with_deck(players: Vec<Box<dyn Player>>, num_teams: usize, deck: Deck) -> (made: Result<
        Game,
        ConfigError,
    >)
        ensures
            made is Ok <==> check_setup_ok(players@.len() as int, num_teams as int)
                && players@.len() * hand_size_of(players@.len() as int) <= deck@.size(),
            made matches Err(e) ==> e == if check_setup_ok(
                players@.len() as int,
                num_teams as int,
            ) {
                ConfigError::NotEnoughCards
            } else {
                setup_error(players@.len() as int, num_teams as int)
            },
            made matches Ok(game) ==> game.wf() && starts(game@, players@.len(), num_teams as nat),
            made matches Ok(game) ==> game@.deck.size() == deck@.size() - players@.len()
                * hand_size_of(players@.len() as int),
            made matches Ok(game) ==> dealt_from_top(
                deck@.draw_pile,
                game@.hands,
                game@.deck,
                deck@,
                hand_size_of(players@.len() as int),
            ),
            made matches Ok(game) ==> cards_held(game@.hands).add(game@.deck.cards())
                == deck@.cards(),
    {
        let num_players = players.len();
        let hand_size = match check_setup(num_players, num_teams) {
            Ok(size) => size,
            Err(e) => {
                return Err(e);
            },
        };
        let mut deck = deck;
        let ghost given = deck@;
        let ghost pile = deck@.draw_pile;
        let in_deck = deck.draw_pile_size() as u128 + deck.discard_pile().len() as u128;
        proof {
            lemma_hands_fit(num_players as int);
        }
        if in_deck < (num_players * hand_size) as u128 {
            return Err(ConfigError::NotEnoughCards);
        }
        let mut player_hands: Vec<Vec<Card>> = Vec::new();
        proof {
            assert(hands_of(player_hands@) =~= Seq::<Seq<Card>>::empty());
            assert(cards_held(hands_of(player_hands@)).add(deck@.cards()) =~= given.cards());
        }
        assert(pile.take(pile.len() as int) =~= pile);
        for p in 0..num_players
            invariant
                supported_players(num_players as int),
                hand_size == hand_size_of(num_players as int),
                player_hands@.len() == p,
                forall|i: int| 0 <= i < p ==> (#[trigger] player_hands@[i])@.len() == hand_size,
                deck@.size() == in_deck - p * hand_size,
                in_deck >= num_players * hand_size,
                cards_held(hands_of(player_hands@)).add(deck@.cards()) == given.cards(),
                pile.len() >= num_players * hand_size ==> deck@.draw_pile == pile.take(
                    pile.len() - p * hand_size,
                ) && deck@.discard_pile == given.discard_pile,
                pile.len() >= num_players * hand_size ==> forall|i: int, j: int|
                    0 <= i < p && 0 <= j < hand_size ==> (#[trigger] player_hands@[i]@[j])
                        == pile[pile.len() - 1 - (i * hand_size + j)],
        {
            let mut hand: Vec<Card> = Vec::new();
            proof {
                broadcast use vstd::seq_lib::group_to_multiset_ensures;

                assert(hand@.to_multiset() =~= Multiset::<Card>::empty());
                assert(cards_held(hands_of(player_hands@)).add(hand@.to_multiset()).add(
                    deck@.cards(),
                ) =~= cards_held(hands_of(player_hands@)).add(deck@.cards()));
            }
            for c in 0..hand_size
                invariant
                    p < num_players,
                    supported_players(num_players as int),
                    hand_size == hand_size_of(num_players as int),
                    hand@.len() == c,
                    deck@.size() == in_deck - p * hand_size - c,
                    in_deck >= num_players * hand_size,
                    cards_held(hands_of(player_hands@)).add(hand@.to_multiset()).add(
                        deck@.cards(),
                    ) == given.cards(),
                    pile.len() >= num_players * hand_size ==> deck@.draw_pile == pile.take(
                        pile.len() - p * hand_size - c,
                    ) && deck@.discard_pile == given.discard_pile,
                    pile.len() >= num_players * hand_size ==> forall|j: int|
                        0 <= j < c ==> (#[trigger] hand@[j]) == pile[pile.len() - 1 - (p
                            * hand_size + j)],
            {
                assert(p * hand_size + c < num_players * hand_size) by (nonlinear_arith)
                    requires
                        p < num_players,
                        c < hand_size,
                ;
                let ghost before = deck@;
                let ghost held = hand@;
                let card = deck.draw();
                hand.push(card);
                proof {
                    broadcast use vstd::seq_lib::group_to_multiset_ensures;

                    lemma_draw_keeps_cards(before, card, deck@);
                    assert(cards_held(hands_of(player_hands@)).add(hand@.to_multiset()).add(
                        deck@.cards(),
                    ) =~= cards_held(hands_of(player_hands@)).add(held.to_multiset()).add(
                        before.cards(),
                    ));
                }
            }
            proof {
                assert((p + 1) * hand_size == p * hand_size + hand_size) by (nonlinear_arith);
            }
            let ghost dealt = hands_of(player_hands@);
            let ghost held = hand@;
            player_hands.push(hand);
            proof {
                assert(hands_of(player_hands@).drop_last() =~= dealt);
                assert(hands_of(player_hands@).last() == held);
            }
        }
        let game = Game {
            players,
            num_teams,
            turn_count: 0,
            up_index: 0,
            player_hands,
            board: Board::standard_board(),
            deck,
        };
        proof {
            game.board.lemma_wf_view();
        }
        Ok(game)
    }

    /// Takes one turn for the player who is up: offers the trade of a dead
    /// card, skips the turn if the hand holds nothing to play, and else lets
    /// the player choose a move, checks it, applies it, and looks for a
    /// winner. Without a winner the player draws a card and the next player is
    /// up. An answer that breaks the rules ends the turn with an error and
    /// leaves the move undone. What a turn may lead to, whatever the player
    /// answers, is laid down in `turn_taken`.
    pub fn run_turn(&mut self) -> (outcome: Result<Option<GameResult>, MoveError>)
        requires
            old(self).wf(),
            old(self)@.undecided(),
            old(self)@.turn_count < usize::MAX,
        ensures
            final(self).wf(),
            final(self)@.turn_count == old(self)@.turn_count + 1,
            final(self)@.num_players == old(self)@.num_players,
            final(self)@.num_teams == old(self)@.num_teams,
            outcome is Ok && outcome->Ok_0 is Some <==> !final(self)@.undecided(),
            outcome matches Ok(Some(result)) ==> result.winner == old(self)@.active_team()
                && final(self)@.has_won(result.winner) && result.turns == final(self)@.turn_count,
            outcome matches Ok(None) ==> final(self)@.up_index == (old(self)@.up_index + 1) % old(
                self,
            )@.num_players,
            outcome matches Ok(None) ==> final(self)@.hand_sizes() == old(self)@.hand_sizes(),
            outcome is Err ==> final(self)@.up_index == old(self)@.up_index,
            outcome matches Ok(Some(result)) ==> final(self)@.up_index == old(self)@.up_index,
            outcome is Err ==> final(self)@.board == old(self)@.board,
            turn_taken(old(self)@, outcome, final(self)@),
            !holds_dead_card(old(self)@.board, old(self)@.hand()) && !holds_playable_card(
                old(self)@.board,
                old(self)@.hand(),
                old(self)@.active_team(),
            ) ==> outcome == Ok::<Option<GameResult>, MoveError>(None) && final(self)@ == (GameView {
                turn_count: old(self)@.turn_count + 1,
                up_index: (old(self)@.up_index + 1) % old(self)@.num_players,
                ..old(self)@
            }),
    {
        self.turn_count += 1;
        proof {
            assert forall|team: Team| !#[trigger] self@.has_won(team) by {
                assert(!old(self)@.has_won(team));
            }
        }
        let ghost started = self@;
        assert(started == counted(old(self)@));
        let has_playable_card = match self.replace_dead_card() {
            Ok(found) => found,
            Err(e) => {
                return Err(e);
            },
        };
        let ghost traded = self@;
        proof {
            assert(offered(started, traded));
            assert forall|team: Team| !#[trigger] traded.has_won(team) by {
                assert(!started.has_won(team));
            }
        }
        if !has_playable_card {
            self.advance();
            proof {
                assert forall|team: Team| !#[trigger] self@.has_won(team) by {
                    assert(!traded.has_won(team));
                }
            }
            return Ok(None);
        }
        let (card, square) = match self.play_card() {
            Ok(choice) => choice,
            Err(e) => {
                return Err(e);
            },
        };
        let ghost taken = self@;
        proof {
            assert(plays(traded, taken, card, square));
            assert forall|team: Team| !#[trigger] taken.has_won(team) by {
                assert(!traded.has_won(team));
            }
        }
        let winner = self.place_chip(card, square);
        let ghost moved = self@;
        proof {
            assert(moved == placed(taken, card, square));
            assert(winner is Some <==> wins(taken, card, square));
            assert forall|other: Team|
                other != taken.active_team() || winner is None implies !#[trigger] moved.has_won(
                other,
            ) by {
                lemma_move_decides(taken, card, square, moved, other);
            }
        }
        if let Some(team) = winner {
            let outcome = Ok(Some(GameResult { winner: team, turns: self.turn_count }));
            proof {
                assert(moves(taken, card, square, outcome, moved));
                assert(played(traded, outcome, moved));
            }
            return outcome;
        }
        let drawn = self.deck.draw();
        self.player_hands[self.up_index].push(drawn);
        proof {
            assert(self@.hands =~= taken.hands.update(
                taken.up_index as int,
                taken.hand().push(drawn),
            ));
            assert forall|team: Team| !#[trigger] self@.has_won(team) by {
                assert(!moved.has_won(team));
            }
        }
        let ghost drew = self@;
        self.advance();
        proof {
            assert forall|team: Team| !#[trigger] self@.has_won(team) by {
                assert(!drew.has_won(team));
            }
            let outcome = Ok::<Option<GameResult>, MoveError>(None);
            assert(draws_and_passes(moved, drawn, self@));
            assert(moves(taken, card, square, outcome, self@));
            assert(played(traded, outcome, self@));
        }
        Ok(None)
    }

    /// Takes turns until a team has won, a player breaks the rules, or the
    /// turn counter can count no further, in which case there is no result.
    /// After every turn that neither ends the game nor breaks the rules the
    /// next player is up, so that the players take their turns in a circle;
    /// the turn that ends the run otherwise leaves its player up. The run is
    /// a chain of turns, as `ran` lays down.
    pub fn run(&mut self) -> (outcome: Result<Option<GameResult>, MoveError>)
        requires
            old(self).wf(),
            old(self)@.undecided(),
        ensures
            final(self).wf(),
            final(self)@.num_players == old(self)@.num_players,
            final(self)@.num_teams == old(self)@.num_teams,
            final(self)@.turn_count >= old(self)@.turn_count,
            old(self)@.turn_count == usize::MAX ==> outcome == Ok::<Option<GameResult>, MoveError>(
                None,
            ) && final(self)@ == old(self)@,
            outcome is Ok && outcome->Ok_0 is Some <==> !final(self)@.undecided(),
            outcome matches Ok(Some(result)) ==> result.winner == final(self)@.active_team()
                && final(self)@.has_won(result.winner) && result.turns == final(self)@.turn_count,
            outcome matches Ok(None) ==> final(self)@.turn_count == usize::MAX,
            outcome matches Ok(None) ==> final(self)@.up_index == old(self)@.up_after(
                final(self)@.turn_count - old(self)@.turn_count,
            ),
            !(outcome matches Ok(None)) ==> final(self)@.turn_count > old(self)@.turn_count,
            !(outcome matches Ok(None)) ==> final(self)@.up_index == old(self)@.up_after(
                final(self)@.turn_count - old(self)@.turn_count - 1,
            ),
            ran(
                old(self)@,
                (final(self)@.turn_count - old(self)@.turn_count) as nat,
                outcome,
                final(self)@,
            ),
    {
        proof {
            lemma_small_mod(self@.up_index, self@.num_players);
        }
        while self.turn_count < usize::MAX
            invariant
                self.wf(),
                self@.undecided(),
                self@.num_players == old(self)@.num_players,
                self@.num_teams == old(self)@.num_teams,
                self@.turn_count >= old(self)@.turn_count,
                old(self)@.turn_count == usize::MAX ==> self@ == old(self)@,
                self@.up_index == old(self)@.up_after(self@.turn_count - old(self)@.turn_count),
                turns_passed(
                    old(self)@,
                    (self@.turn_count - old(self)@.turn_count) as nat,
                    self@,
                ),
            decreases usize::MAX - self.turn_count,
        {
            let ghost before = self@;
            let ghost taken = (before.turn_count - old(self)@.turn_count) as nat;
            match self.run_turn() {
                Ok(Some(result)) => {
                    assert(turns_passed(old(self)@, taken, before) && turn_taken(
                        before,
                        Ok::<Option<GameResult>, MoveError>(Some(result)),
                        self@,
                    ));
                    return Ok(Some(result));
                },
                Ok(None) => {
                    proof {
                        assert(turns_passed(old(self)@, ((taken + 1) - 1) as nat, before)
                            && turn_taken(
                            before,
                            Ok::<Option<GameResult>, MoveError>(None),
                            self@,
                        ) && self@.undecided());
                        assert(turns_passed(old(self)@, taken + 1, self@));
                        lemma_add_mod_noop(
                            old(self)@.up_index + before.turn_count - old(self)@.turn_count,
                            1,
                            before.num_players as int,
                        );
                        lemma_small_mod(1, before.num_players);
                    }
                },
                Err(e) => {
                    assert(turns_passed(old(self)@, taken, before) && turn_taken(
                        before,
                        Err::<Option<GameResult>, MoveError>(e),
                        self@,
                    ));
                    return Err(e);
                },
            }
        }
        proof {
            lemma_turns_passed_ran(
                old(self)@,
                (self@.turn_count - old(self)@.turn_count) as nat,
                self@,
            );
        }
        Ok(None)
    }

    /// Offers the player who is up the trade of a dead card, if the hand
    /// holds one, and carries the trade out. Returns whether the hand then
    /// holds a card that can be played.
    pub fn replace_dead_card(&mut self) -> (outcome: Result<bool, MoveError>)
        requires
            old(self).wf(),
        ensures
            final(self).wf(),
            final(self)@.board == old(self)@.board,
            final(self)@.hand_sizes() == old(self)@.hand_sizes(),
            final(self)@ == (GameView {
                hands: final(self)@.hands,
                deck: final(self)@.deck,
                ..old(self)@
            }),
            outcome is Err ==> final(self)@ == old(self)@,
            outcome matches Ok(found) ==> found == holds_playable_card(
                final(self)@.board,
                final(self)@.hand(),
                final(self)@.active_team(),
            ),
            !holds_dead_card(old(self)@.board, old(self)@.hand()) ==> outcome is Ok && final(self)@
                == old(self)@,
            outcome is Ok ==> final(self)@ == old(self)@ || exists|index: int|
                #[trigger] trades(old(self)@, final(self)@, index),
    {
        let has_dead_card = first_dead_card(
            &self.board,
            self.player_hands[self.up_index].as_slice(),
        ).is_some();
        if has_dead_card {
            let choice = self.players[self.up_index].replace_dead_card(
                &self.board,
                self.player_hands[self.up_index].as_slice(),
            );
            if let Some(index) = choice {
                match self.swap_dead_card(index) {
                    Ok(()) => {
                    },
                    Err(e) => {
                        return Err(e);
                    },
                }
            }
        }
        let team = Game::player_team(self.num_teams, self.up_index);
        Ok(has_playable_card(&self.board, self.player_hands[self.up_index].as_slice(), &team))
    }

    /// Trades the card at `index` of the active hand for a new one: the
    /// card, which must be dead, goes to the discard pile, and a card drawn
    /// from the deck joins the hand at its end.
    pub fn swap_dead_card(&mut self, index: usize) -> (outcome: Result<(), MoveError>)
        requires
            old(self).wf(),
        ensures
            final(self).wf(),
            outcome is Ok <==> old(self)@.replacement_error(index as int) is None,
            outcome matches Err(e) ==> old(self)@.replacement_error(index as int) == Some(e),
            outcome is Err ==> final(self)@ == old(self)@,
            outcome is Ok ==> trades(old(self)@, final(self)@, index as int),
    {
        if index >= self.player_hands[self.up_index].len() {
            return Err(MoveError::ReplacementOutOfBounds);
        }
        if !self.board.is_dead(&self.player_hands[self.up_index][index]) {
            return Err(MoveError::ReplacementNotDead);
        }
        let replaced = self.player_hands[self.up_index].remove(index);
        self.deck.discard(replaced);
        let drawn = self.deck.draw();
        self.player_hands[self.up_index].push(drawn);
        proof {
            let before = old(self)@;
            assert(self@.hands =~= before.hands.update(
                before.up_index as int,
                before.hand().remove(index as int).push(drawn),
            ));
            assert(self@.hand().drop_last() =~= before.hand().remove(index as int));
        }
        Ok(())
    }

    /// Asks the player who is up for a move and checks it against the rules.
    /// A move within the rules costs the player the chosen card, which goes
    /// to the discard pile; the card and the chosen square are returned.
    pub fn play_card(&mut self) -> (outcome: Result<(Card, Square), MoveError>)
        requires
            old(self).wf(),
            holds_playable_card(old(self)@.board, old(self)@.hand(), old(self)@.active_team()),
        ensures
            final(self).wf(),
            outcome is Err ==> final(self)@ == old(self)@,
            outcome matches Ok(choice) ==> plays(old(self)@, final(self)@, choice.0, choice.1),
    {
        let team = Game::player_team(self.num_teams, self.up_index);
        let (index, square) = self.players[self.up_index].play(
            &team,
            self.player_hands[self.up_index].as_slice(),
            &self.board,
            &self.deck,
        );
        match self.take_card(index, square) {
            Ok(card) => {
                Ok((card, square))
            },
            Err(e) => Err(e),
        }
    }

    /// Checks the move that a player has chosen against the rules and, if it
    /// stands, takes the chosen card from the active hand and puts it on the
    /// discard pile. A move against the rules changes nothing.
    pub fn take_card(&mut self, index: u8, square: Square) -> (outcome: Result<Card, MoveError>)
        requires
            old(self).wf(),
        ensures
            final(self).wf(),
            outcome is Ok <==> old(self)@.move_error(index as int, square) is None,
            outcome matches Err(e) ==> old(self)@.move_error(index as int, square) == Some(e),
            outcome is Err ==> final(self)@ == old(self)@,
            outcome matches Ok(card) ==> takes(old(self)@, final(self)@, index as int, card, square),
    {
        let at = index as usize;
        if at >= self.player_hands[self.up_index].len() {
            return Err(MoveError::IndexOutOfBounds);
        }
        let team = Game::player_team(self.num_teams, self.up_index);
        let card = self.player_hands[self.up_index][at];
        match check_placement(&self.board, &team, &card, &square) {
            Ok(()) => {},
            Err(e) => {
                return Err(e);
            },
        }
        let taken = self.player_hands[self.up_index].remove(at);
        self.deck.discard(taken);
        proof {
            let before = old(self)@;
            assert(self@.hands =~= before.hands.update(
                before.up_index as int,
                before.hand().remove(index as int),
            ));
        }
        Ok(card)
    }

    /// Carries out a move that stands: a one-eyed jack takes the chip off
    /// the square, any other card puts a chip of the active team on it.
    /// Returns the active team if the chip completed a sequence and the team
    /// now owns as many as it needs to win.
    pub fn place_chip(&mut self, card: Card, square: Square) -> (winner: Option<Team>)
        requires
            old(self).wf(),
            placement_error(old(self)@.board, old(self)@.active_team(), card, square) is None,
        ensures
            final(self).wf(),
            final(self)@ == (GameView {
                board: board_after_move(old(self)@.board, old(self)@.active_team(), card, square),
                ..old(self)@
            }),
            winner == if !card.one_eyed_jack() && old(self)@.board.with_chip(
                square,
                old(self)@.active_team(),
            ).completes_any(square, old(self)@.active_team()) && final(self)@.has_won(
                old(self)@.active_team(),
            ) {
                Some(old(self)@.active_team())
            } else {
                None
            },
    {
        let team = Game::player_team(self.num_teams, self.up_index);
        let mut winner = None;
        if card.is_one_eyed_jack() {
            self.board.remove_chip(&square);
        } else {
            if let Some(sequences) = self.board.add_chip(&square, team) {
                if sequences >= Game::winning_sequences(self.num_teams) {
                    winner = Some(team);
                }
            }
        }
        proof {
            self.board.lemma_wf_view();
        }
        winner
    }

    /// Hands the turn to the next player.
    fn advance(&mut self)
        requires
            old(self).wf(),
        ensures
            final(self).wf(),
            final(self)@ == (GameView {
                up_index: (old(self)@.up_index + 1) % old(self)@.num_players,
                ..old(self)@
            }),
    {
        self.up_index = (self.up_index + 1) % self.players.len();
    }

    pub fn num_players(&self) -> (n: usize)
        ensures
            n == self@.num_players,
    {
        self.players.len()
    }

    pub fn num_teams(&self) -> (n: usize)
        ensures
            n == self@.num_teams,
    {
        self.num_teams
    }

    /// Number of turns taken so far.
    pub fn turn_count(&self) -> (n: usize)
        ensures
            n == self@.turn_count,
    {
        self.turn_count
    }

    /// The place of the player whose turn it is.
    pub fn up_index(&self) -> (i: usize)
        ensures
            i == self@.up_index,
    {
        self.up_index
    }

    pub fn board(&self) -> (board: &Board)
        ensures
            board@ == self@.board,
            self.wf() ==> board.wf(),
    {
        &self.board
    }

    pub fn deck(&self) -> (deck: &Deck)
        ensures
            deck@ == self@.deck,
    {
        &self.deck
    }

    /// The cards that a player holds.
    pub fn hand(&self, player: usize) -> (hand: &[Card])
        requires
            self.wf(),
            player < self@.num_players,
        ensures
            hand@ == self@.hands[player as int],
    {
        self.player_hands[player].as_slice()
    }
}

/// Checks a move against the rules of the board.
pub fn check_placement(board: &Board, team: &Team, card: &Card, square: &Square) -> (checked:
    Result<(), MoveError>)
    requires
        board.wf(),
    ensures
        checked is Ok <==> placement_error(board@, *team, *card, *square) is None,
        checked matches Err(e) ==> placement_error(board@, *team, *card, *square) == Some(e),
{
    if !square.is_playable() {
        return Err(MoveError::SquareNotPlayable);
    }
    let chip = board.chip_at(square);
    if card.is_one_eyed_jack() {
        match chip {
            None => Err(MoveError::NoOpposingChip),
            Some(owner) => {
                if owner == *team {
                    Err(MoveError::NoOpposingChip)
                } else if board.in_sequence(square) {
                    Err(MoveError::ChipProtected)
                } else {
                    Ok(())
                }
            },
        }
    } else if chip.is_some() {
        Err(MoveError::SquareTaken)
    } else if !card.is_two_eyed_jack() && board.card_at(square) != Some(*card) {
        Err(MoveError::CardMismatch)
    } else {
        Ok(())
    }
}

/// The card has a move within the rules.
pub open spec fn has_move(board: BoardView, team: Team, card: Card) -> bool {
    exists|s: Square| #[trigger] placement_error(board, team, card, s) is None
}

/// Some card of the hand has a move within the rules.
pub open spec fn has_legal_move(board: BoardView, team: Team, hand: Seq<Card>) -> bool {
    exists|i: int| 0 <= i < hand.len() && has_move(board, team, #[trigger] hand[i])
}

/// The squares on which a team may play a card, read row by row.
pub fn legal_squares(board: &Board, team: &Team, card: &Card) -> (squares: Vec<Square>)
    requires
        board.wf(),
    ensures
        row_major(squares@),
        forall|s: Square|
            #[trigger] squares@.contains(s) <==> placement_error(board@, *team, *card, s) is None,
{
    let playable = Square::playable_squares();
    let mut squares: Vec<Square> = Vec::new();
    let mut i: usize = 0;
    while i < playable.len()
        invariant
            board.wf(),
            i <= playable@.len(),
            row_major(playable@),
            forall|s: Square| #[trigger] playable@.contains(s) <==> s.playable(),
            row_major(squares@),
            forall|s: Square|
                #[trigger] squares@.contains(s) <==> placement_error(board@, *team, *card, s)
                    is None && exists|j: int| 0 <= j < i && playable@[j] == s,
        decreases playable@.len() - i,
    {
        let square = playable[i];
        let ghost before = squares@;
        let legal = check_placement(board, team, card, &square).is_ok();
        if legal {
            squares.push(square);
        }
        proof {
            assert forall|s: Square| #[trigger]
                squares@.contains(s) <==> placement_error(board@, *team, *card, s) is None
                    && exists|j: int| 0 <= j < i + 1 && playable@[j] == s by {
                if legal {
                    lemma_push_contains(before, square, s);
                }
            }
            if legal {
                assert forall|k: int| 0 <= k < before.len() implies before[k].flat()
                    < square.flat() by {
                    assert(before.contains(before[k]));
                }
            }
        }
        i += 1;
    }
    proof {
        assert forall|s: Square| #[trigger]
            squares@.contains(s) <==> placement_error(board@, *team, *card, s) is None by {
            if placement_error(board@, *team, *card, s) is None {
                assert(playable@.contains(s));
            }
        }
    }
    squares
}

/// The trade of the dead card at `index` of the active hand leads from
/// `before` to `after`: the hand holds a card there and the card is dead, it
/// has gone to the discard pile, a card drawn from the deck has joined the
/// hand at its end, and nothing else has changed.
pub open spec fn trades(before: GameView, after: GameView, index: int) -> bool {
    &&& 0 <= index
    &&& before.replacement_error(index) is None
    &&& after == (GameView { hands: after.hands, deck: after.deck, ..before })
    &&& after.hands == before.hands.update(before.up_index as int, after.hand())
    &&& after.hand().len() == before.hand().len()
    &&& after.hand().drop_last() == before.hand().remove(index)
    &&& before.deck.discarded(before.hand()[index]).draws(after.hand().last(), after.deck)
}

/// Taking the card at `index` of the active hand for a move on `square`
/// leads from `before` to `after`: the move stands, the card has left the
/// hand for the discard pile, and nothing else has changed.
pub open spec fn takes(before: GameView, after: GameView, index: int, card: Card, square: Square) -> bool {
    &&& 0 <= index < before.hand().len()
    &&& card == before.hand()[index]
    &&& placement_error(before.board, before.active_team(), card, square) is None
    &&& after == (GameView {
        hands: before.hands.update(before.up_index as int, before.hand().remove(index)),
        deck: before.deck.discarded(card),
        ..before
    })
}

/// Some card of the active hand was taken for a move on `square`.
pub open spec fn plays(before: GameView, after: GameView, card: Card, square: Square) -> bool {
    exists|index: int| takes(before, after, index, card, square)
}

/// The state with one more turn counted.
pub open spec fn counted(before: GameView) -> GameView {
    GameView { turn_count: before.turn_count + 1, ..before }
}

/// The offer of a trade leads from `before` to `traded`: nothing changed,
/// or one dead card of the active hand was traded for a new one.
pub open spec fn offered(before: GameView, traded: GameView) -> bool {
    traded == before || exists|index: int| #[trigger] trades(before, traded, index)
}

/// The move wins the game: it puts a chip down that completes a run, and
/// the team then owns as many sequences as it needs.
pub open spec fn wins(taken: GameView, card: Card, square: Square) -> bool {
    &&& !card.one_eyed_jack()
    &&& taken.board.with_chip(square, taken.active_team()).completes_any(
        square,
        taken.active_team(),
    )
    &&& board_after_move(taken.board, taken.active_team(), card, square).sequence_count(
        taken.active_team(),
    ) >= winning_sequences_of(taken.num_teams as int)
}

/// The state once the chip of a move is on the board, or off it.
pub open spec fn placed(taken: GameView, card: Card, square: Square) -> GameView {
    GameView { board: board_after_move(taken.board, taken.active_team(), card, square), ..taken }
}

/// The end of a turn without a winner leads from `moved` to `after`: the
/// active player has drawn a card, and the next player is up.
pub open spec fn draws_and_passes(moved: GameView, drawn: Card, after: GameView) -> bool {
    &&& moved.deck.draws(drawn, after.deck)
    &&& after == (GameView {
        hands: moved.hands.update(moved.up_index as int, moved.hand().push(drawn)),
        deck: after.deck,
        up_index: moved.up_after(1) as nat,
        ..moved
    })
}

/// A move made with `card` on `square`, the card taken already, ends the
/// turn in `after` with `outcome`: the chip is placed or removed; if that
/// wins the game, the team is reported with the number of the turn and
/// nothing else happens; if not, a card is drawn and the turn passes on.
pub open spec fn moves(
    taken: GameView,
    card: Card,
    square: Square,
    outcome: Result<Option<GameResult>, MoveError>,
    after: GameView,
) -> bool {
    if wins(taken, card, square) {
        &&& outcome matches Ok(Some(result))
        &&& result.winner == taken.active_team()
        &&& result.turns == taken.turn_count
        &&& after == placed(taken, card, square)
    } else {
        &&& outcome == Ok::<Option<GameResult>, MoveError>(None)
        &&& exists|drawn: Card| #[trigger]
            draws_and_passes(placed(taken, card, square), drawn, after)
    }
}

/// The active player made a move within the rules, which ends the turn in
/// `after` with `outcome`.
pub open spec fn played(
    traded: GameView,
    outcome: Result<Option<GameResult>, MoveError>,
    after: GameView,
) -> bool {
    exists|card: Card, square: Square, taken: GameView| #[trigger]
        plays(traded, taken, card, square) && moves(taken, card, square, outcome, after)
}

/// One turn leads from `before` to `after` with `outcome`. The turn is
/// counted and a trade of a dead card is offered. A turn that ends well then
/// either finds nothing to play in the hand, and passes on with nothing
/// else changed, or is one move within the rules. A turn that ends with an
/// error has changed no more than the counter and, at most, the one trade.
pub open spec fn turn_taken(
    before: GameView,
    outcome: Result<Option<GameResult>, MoveError>,
    after: GameView,
) -> bool {
    if outcome is Err {
        offered(counted(before), after)
    } else {
        exists|traded: GameView| #[trigger]
            offered(counted(before), traded) && if holds_playable_card(
                traded.board,
                traded.hand(),
                traded.active_team(),
            ) {
                played(traded, outcome, after)
            } else {
                outcome == Ok::<Option<GameResult>, MoveError>(None) && after == (GameView {
                    up_index: traded.up_after(1) as nat,
                    ..traded
                })
            }
    }
}

/// So many turns in a row lead from `before` to `after`, each without a
/// winner and without an error, and each leaving the game undecided.
pub open spec fn turns_passed(before: GameView, turns: nat, after: GameView) -> bool
    decreases turns,
{
    if turns == 0 {
        after == before
    } else {
        exists|mid: GameView|
            turns_passed(before, (turns - 1) as nat, mid) && #[trigger] turn_taken(
                mid,
                Ok::<Option<GameResult>, MoveError>(None),
                after,
            ) && after.undecided()
    }
}

/// A run of so many turns leads from `before` to `after` with `outcome`:
/// all turns but the last pass without a winner and without an error, and
/// the last ends with `outcome`. A run of no turn changes nothing.
pub open spec fn ran(
    before: GameView,
    turns: nat,
    outcome: Result<Option<GameResult>, MoveError>,
    after: GameView,
) -> bool {
    if turns == 0 {
        outcome == Ok::<Option<GameResult>, MoveError>(None) && after == before
    } else {
        exists|mid: GameView|
            turns_passed(before, (turns - 1) as nat, mid) && #[trigger] turn_taken(
                mid,
                outcome,
                after,
            )
    }
}

/// Turns that all passed without a winner and without an error make a run
/// that ends without a result.
pub proof fn lemma_turns_passed_ran(before: GameView, turns: nat, after: GameView)
    requires
        turns_passed(before, turns, after),
    ensures
        ran(before, turns, Ok::<Option<GameResult>, MoveError>(None), after),
{
    if turns > 0 {
        let mid = choose|mid: GameView|
            turns_passed(before, (turns - 1) as nat, mid) && #[trigger] turn_taken(
                mid,
                Ok::<Option<GameResult>, MoveError>(None),
                after,
            ) && after.undecided();
        assert(turns_passed(before, (turns - 1) as nat, mid) && turn_taken(
            mid,
            Ok::<Option<GameResult>, MoveError>(None),
            after,
        ));
    }
}

/// A move within the rules decides the game for the team that made it or
/// for nobody: no other team gains a sequence, and the team itself gains
/// one only where its chip completes a run.
pub proof fn lemma_move_decides(
    before: GameView,
    card: Card,
    square: Square,
    after: GameView,
    other: Team,
)
    requires
        before.undecided(),
        after == (GameView {
            board: board_after_move(before.board, before.active_team(), card, square),
            ..before
        }),
    ensures
        other != before.active_team() ==> !after.has_won(other),
        card.one_eyed_jack() || !before.board.with_chip(
            square,
            before.active_team(),
        ).completes_any(square, before.active_team()) ==> !after.has_won(other),
{
    assert(!before.has_won(other));
    if !card.one_eyed_jack() {
        lemma_add_counts(before.board, square, before.active_team(), other);
    }
}

/// The hands of a game hold 36 cards at most.
pub proof fn lemma_hands_fit(num_players: int)
    requires
        supported_players(num_players),
    ensures
        num_players * hand_size_of(num_players) <= 36,
{
}

/// A deck with an empty discard pile holds the cards of its draw pile.
pub proof fn lemma_no_discards(deck: DeckView)
    requires
        deck.discard_pile.len() == 0,
    ensures
        deck.cards() == deck.draw_pile.to_multiset(),
{
    broadcast use vstd::seq_lib::group_to_multiset_ensures;

    assert(deck.discard_pile.to_multiset() =~= Multiset::<Card>::empty());
    assert(deck.cards() =~= deck.draw_pile.to_multiset());
}

/// The numbers of players and teams allow a game.
pub open spec fn check_setup_ok(num_players: int, num_teams: int) -> bool {
    supported_players(num_players) && supported_teams(num_teams) && num_players % num_teams == 0
}

/// What is wrong with the numbers of players and teams, where something is.
pub open spec fn setup_error(num_players: int, num_teams: int) -> ConfigError {
    if !supported_players(num_players) {
        ConfigError::UnsupportedPlayerCount
    } else {
        ConfigError::UnsupportedTeamCount
    }
}

/// A game at its start: the first player is up, no turn has been taken,
/// every player holds a full hand, and the standard board is empty.
pub open spec fn starts(game: GameView, num_players: nat, num_teams: nat) -> bool {
    &&& game.num_players == num_players
    &&& game.num_teams == num_teams
    &&& game.turn_count == 0
    &&& game.up_index == 0
    &&& game.hands.len() == num_players
    &&& forall|i: int|
        0 <= i < num_players ==> (#[trigger] game.hands[i]).len() == hand_size_of(
            num_players as int,
        )
    &&& forall|s: Square| game.board.card_at(s) == standard_card(s)
    &&& game.board.chips == Map::<Square, Team>::empty()
    &&& game.board.sequences.len() == 0
}

/// When the draw pile alone holds enough cards, the hands are dealt from its
/// top, one player after the other, and the rest of the deck stays as it is.
pub open spec fn dealt_from_top(
    pile: Seq<Card>,
    hands: Seq<Seq<Card>>,
    left: DeckView,
    given: DeckView,
    hand_size: int,
) -> bool {
    pile.len() >= hands.len() * hand_size ==> {
        &&& forall|i: int, j: int|
            0 <= i < hands.len() && 0 <= j < hand_size ==> (#[trigger] hands[i][j])
                == pile[pile.len() - 1 - (i * hand_size + j)]
        &&& left.draw_pile == pile.take(pile.len() - hands.len() * hand_size)
        &&& left.discard_pile == given.discard_pile
    }
}

} // verus!
