use std::cell::{Cell, RefCell};

use reversi::board::{Board, Point, Stone};
use reversi::error::{Error, PlayerError};
use reversi::game::{decide_turn, winner_of, Game, GameContext, Player, Turn, WeekBot};
use reversi::text::{board_text, format_board};

/// Plays the moves it was given, in order, and counts what it was told.
struct Scripted {
    moves: RefCell<Vec<Result<Point, PlayerError>>>,
    asked: Cell<usize>,
    wins: Cell<usize>,
    losses: Cell<usize>,
}

impl Scripted {
    fn new(moves: Vec<Result<Point, PlayerError>>) -> Self {
        Scripted {
            moves: RefCell::new(moves),
            asked: Cell::new(0),
            wins: Cell::new(0),
            losses: Cell::new(0),
        }
    }
}

impl Player for Scripted {
    fn make_move(&self, _ctx: &GameContext) -> Result<Point, PlayerError> {
        self.asked.set(self.asked.get() + 1);
        let mut m = self.moves.borrow_mut();
        if m.is_empty() {
            Err(PlayerError::Uncontinuable)
        } else {
            m.remove(0)
        }
    }
    fn win(&self, _ctx: &GameContext) {
        self.wins.set(self.wins.get() + 1);
    }
    fn lose(&self, _ctx: &GameContext) {
        self.losses.set(self.losses.get() + 1);
    }
}

/// The bot, counting what it was told.
struct CountingBot {
    wins: Cell<usize>,
    losses: Cell<usize>,
}

impl CountingBot {
    fn new() -> Self {
        CountingBot { wins: Cell::new(0), losses: Cell::new(0) }
    }
}

impl Player for CountingBot {
    fn make_move(&self, ctx: &GameContext) -> Result<Point, PlayerError> {
        WeekBot::choose_move(ctx)
    }
    fn win(&self, _ctx: &GameContext) {
        self.wins.set(self.wins.get() + 1);
    }
    fn lose(&self, _ctx: &GameContext) {
        self.losses.set(self.losses.get() + 1);
    }
}

#[test]
fn new_game_starts_at_round_zero() {
    let g = Game::new(WeekBot, WeekBot);
    let ctx = g.get_context();
    assert_eq!(ctx.round, 0);
    assert!(ctx.error.is_none());
    assert!(!ctx.is_done);
    assert_eq!(ctx.board.count_stones(), (2, 2));
}

#[test]
fn opening_move_turns_one_stone() {
    let black = Scripted::new(vec![Ok(Point(2, 4))]);
    let white = Scripted::new(vec![]);
    let mut g = Game::new(black, white);
    let ctx = g.make_move();
    assert_eq!(ctx.round, 1);
    assert!(ctx.error.is_none());
    assert!(!ctx.is_done);
    assert_eq!(ctx.board.get(&Point(3, 4)), Some(Stone::Black));
    assert_eq!(ctx.board.get(&Point(2, 4)), Some(Stone::Black));
    assert_eq!(ctx.board.count_stones(), (4, 1));
}

#[test]
fn move_without_chain_is_refused() {
    // (2,3) closes nothing for Black: (3,3) already holds Black.
    let black = Scripted::new(vec![Ok(Point(2, 3))]);
    let mut g = Game::new(black, WeekBot);
    let ctx = g.make_move();
    assert_eq!(ctx.round, 0);
    assert_eq!(ctx.error, Some(Error::NoChainOccurred));
    assert_eq!(ctx.board.count_stones(), (2, 2));
}

#[test]
fn occupied_cell_is_refused_and_the_same_player_asked_again() {
    let black = Scripted::new(vec![Ok(Point(3, 3)), Ok(Point(2, 4))]);
    let white = Scripted::new(vec![]);
    let mut g = Game::new(black, white);
    let ctx = g.make_move();
    assert_eq!(ctx.round, 0);
    assert_eq!(ctx.error, Some(Error::StoneAlreadyExists));
    assert!(!ctx.is_done);
    let ctx = g.make_move();
    assert_eq!(ctx.round, 1);
    assert!(ctx.error.is_none());
}

#[test]
fn player_errors_are_recorded() {
    let black = Scripted::new(vec![
        Err(PlayerError::UserInputParseFailure),
        Ok(Point(9, 9)),
        Err(PlayerError::Uncontinuable),
    ]);
    let mut g = Game::new(black, WeekBot);
    let ctx = g.make_move();
    assert_eq!(ctx.error, Some(Error::PlayerError(PlayerError::UserInputParseFailure)));
    assert_eq!(ctx.round, 0);
    assert!(!ctx.is_done);
    let ctx = g.make_move();
    assert_eq!(ctx.error, Some(Error::OutOfBoard));
    let ctx = g.make_move();
    assert_eq!(ctx.error, Some(Error::Uncontinuable));
    assert!(ctx.is_done);
    assert!(g.next().is_none());
}

#[test]
fn bot_takes_the_longest_chain_first_found() {
    let ctx = GameContext::new();
    // All four opening moves turn one stone; the first in scan order wins.
    assert_eq!(WeekBot::choose_move(&ctx), Ok(Point(2, 4)));
    let mut after = ctx;
    after.round = 1;
    assert_eq!(WeekBot::choose_move(&after), Ok(Point(2, 3)));
}

#[test]
fn bot_gives_up_after_an_error() {
    let mut ctx = GameContext::new();
    ctx.error = Some(Error::NoChainOccurred);
    assert_eq!(WeekBot::choose_move(&ctx), Err(PlayerError::Uncontinuable));
}

#[test]
fn bot_game_ends_within_sixty_moves() {
    let black = CountingBot::new();
    let white = CountingBot::new();
    let mut g = Game::new(black, white);
    let mut accepted = 0;
    let mut steps = 0;
    while let Some(ctx) = g.next() {
        steps += 1;
        assert!(steps <= 200);
        if ctx.error.is_none() {
            accepted += 1;
        }
    }
    let ctx = g.get_context();
    assert!(ctx.is_done);
    assert!(accepted <= 60);
    let (b, w) = ctx.board.count_stones();
    assert!(b + w <= 64);
    assert_eq!(b + w, 4 + accepted);
}

#[test]
fn finished_game_tells_each_side_once() {
    let mut g = Game::new(CountingBot::new(), CountingBot::new());
    let mut last = GameContext::new();
    while let Some(ctx) = g.next() {
        last = ctx;
    }
    assert!(last.is_done);
    // The last round left neither side a move.
    assert!(last.board.scan_cells_placeable(Stone::Black).is_empty());
    assert!(last.board.scan_cells_placeable(Stone::White).is_empty());
    assert!(last.error.is_none());
    assert!(g.next().is_none());
}

#[test]
fn notifications_follow_the_stone_count() {
    struct Pair<'a>(&'a CountingBot);
    impl<'a> Player for Pair<'a> {
        fn make_move(&self, ctx: &GameContext) -> Result<Point, PlayerError> {
            self.0.make_move(ctx)
        }
        fn win(&self, ctx: &GameContext) {
            self.0.win(ctx)
        }
        fn lose(&self, ctx: &GameContext) {
            self.0.lose(ctx)
        }
    }
    let black = CountingBot::new();
    let white = CountingBot::new();
    let mut g = Game::new(Pair(&black), Pair(&white));
    while g.next().is_some() {}
    let (b, w) = g.get_context().board.count_stones();
    assert_eq!(black.wins.get() + black.losses.get(), 1);
    assert_eq!(white.wins.get() + white.losses.get(), 1);
    if b > w {
        assert_eq!(black.wins.get(), 1);
        assert_eq!(white.losses.get(), 1);
    } else {
        assert_eq!(white.wins.get(), 1);
        assert_eq!(black.losses.get(), 1);
    }
}

#[test]
fn game_over_when_no_side_can_move() {
    // A nine-move game after which White has no stone left.
    let black = Scripted::new(vec![
        Ok(Point(3, 5)),
        Ok(Point(3, 2)),
        Ok(Point(1, 4)),
        Ok(Point(3, 6)),
        Ok(Point(5, 4)),
    ]);
    let white = Scripted::new(vec![
        Ok(Point(2, 3)),
        Ok(Point(2, 5)),
        Ok(Point(4, 5)),
        Ok(Point(2, 4)),
    ]);
    let mut g = Game::new(black, white);
    for round in 0..8 {
        let ctx = g.make_move();
        assert_eq!(ctx.round, round + 1);
        assert!(ctx.error.is_none());
        assert!(!ctx.is_done);
    }
    let ctx = g.make_move();
    assert!(ctx.is_done);
    assert!(ctx.error.is_none());
    assert_eq!(ctx.round, 9);
    assert_eq!(ctx.board.count_stones(), (13, 0));
    assert!(g.next().is_none());
}

#[test]
fn game_over_tells_one_winner_and_one_loser() {
    let black = Scripted::new(vec![
        Ok(Point(3, 5)),
        Ok(Point(3, 2)),
        Ok(Point(1, 4)),
        Ok(Point(3, 6)),
        Ok(Point(5, 4)),
    ]);
    let white = Scripted::new(vec![
        Ok(Point(2, 3)),
        Ok(Point(2, 5)),
        Ok(Point(4, 5)),
        Ok(Point(2, 4)),
    ]);
    struct Shared<'a>(&'a Scripted);
    impl<'a> Player for Shared<'a> {
        fn make_move(&self, ctx: &GameContext) -> Result<Point, PlayerError> {
            self.0.make_move(ctx)
        }
        fn win(&self, ctx: &GameContext) {
            self.0.win(ctx)
        }
        fn lose(&self, ctx: &GameContext) {
            self.0.lose(ctx)
        }
    }
    let mut g = Game::new(Shared(&black), Shared(&white));
    while g.next().is_some() {}
    assert_eq!(black.asked.get(), 5);
    assert_eq!(white.asked.get(), 4);
    assert_eq!((black.wins.get(), black.losses.get()), (1, 0));
    assert_eq!((white.wins.get(), white.losses.get()), (0, 1));
}

#[test]
fn turn_decision_at_the_start() {
    let b = Board::default();
    assert_eq!(decide_turn(&b, Stone::Black), Turn::Opponent);
    assert_eq!(decide_turn(&b, Stone::White), Turn::Opponent);
}

#[test]
fn board_text_for_a_person() {
    let ctx = GameContext::new();
    let text = format_board(&ctx);
    let lines: Vec<&str> = text.split('\n').collect();
    assert_eq!(lines.len(), 9);
    assert_eq!(lines[0], "  1 2 3 4 5 6 7 8");
    assert_eq!(lines[1], "1 + + + + + + + +");
    assert_eq!(lines[3], "3 + + + + @ + + +");
    assert_eq!(lines[4], "4 + + + ● ○ @ + +");
    assert_eq!(lines[5], "5 + + @ ○ ● + + +");
    assert_eq!(Stone::Black.glyph(), '●');
}

#[test]
fn winner_by_stone_count_with_ties_to_white() {
    let mut b = Board::default();
    assert_eq!(winner_of(&b), Stone::White);
    b.put(Point(2, 4), Stone::Black).unwrap();
    assert_eq!(winner_of(&b), Stone::Black);
}

#[test]
fn plain_board_text() {
    let text = board_text(&Board::default());
    let lines: Vec<&str> = text.split('\n').collect();
    assert_eq!(lines.len(), 9);
    assert_eq!(lines[0], "  0 1 2 3 4 5 6 7");
    assert_eq!(lines[4], "3 + + + ● ○ + + +");
    assert_eq!(lines[5], "4 + + + ○ ● + + +");
    assert_eq!(lines[8], "7 + + + + + + + +");
}

#[test]
fn bot_as_a_player_plays_what_it_chooses() {
    let ctx = GameContext::new();
    assert_eq!(WeekBot.make_move(&ctx), Ok(Point(2, 4)));
    let mut refused = ctx;
    refused.error = Some(Error::OutOfBoard);
    assert_eq!(WeekBot.make_move(&refused), Err(PlayerError::Uncontinuable));
}

#[test]
fn bot_gives_up_without_a_legal_move() {
    let black = Scripted::new(vec![
        Ok(Point(3, 5)),
        Ok(Point(3, 2)),
        Ok(Point(1, 4)),
        Ok(Point(3, 6)),
        Ok(Point(5, 4)),
    ]);
    let white = Scripted::new(vec![
        Ok(Point(2, 3)),
        Ok(Point(2, 5)),
        Ok(Point(4, 5)),
        Ok(Point(2, 4)),
    ]);
    let mut g = Game::new(black, white);
    while g.next().is_some() {}
    let ctx = *g.get_context();
    assert_eq!(WeekBot::choose_move(&ctx), Err(PlayerError::Uncontinuable));
    let mut white_turn = ctx;
    white_turn.round = 1;
    assert_eq!(WeekBot.make_move(&white_turn), Err(PlayerError::Uncontinuable));
}

#[test]
fn error_messages() {
    assert_eq!(Error::OutOfBoard.message(), "error occurred!");
    assert_eq!(Error::PlayerError(PlayerError::UserInputParseFailure).message(), "error occurred!");
    assert_eq!(PlayerError::Uncontinuable.message(), "error occurred!");
}
