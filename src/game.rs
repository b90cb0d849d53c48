use vstd::prelude::*;

use crate::board::{
    after_place, color_of_round, count_of, in_board, initial_cells, is_legal, legal_moves,
    legal_upto, lemma_full_board, lemma_initial_position, lemma_legal_accepted, lemma_legal_upto,
    lemma_opening_move, lemma_place_fills_one,
    lemma_scan_stop, opponent, place_result, scan, scan_point, stone_at, Board, Point, Stone,
};
use crate::error::{Error, PlayerError};

verus! {

/// Who moves after a successful placement.
#[derive(Clone, Copy, Debug, PartialEq, Eq, Structural)]
pub enum Turn {
    /// The opponent has a legal move and takes the turn.
    Opponent,
    /// The opponent must pass; the mover moves again.
    Again,
    /// Neither side can move: the game is over.
    GameOver,
}

/// The opponent moves next when it can; else the mover, when it can; else
/// the game is over.
pub open spec fn next_turn(cells: Seq<Option<Stone>>, mover: Stone) -> Turn {
    if legal_moves(cells, opponent(mover)).len() > 0 {
        Turn::Opponent
    } else if legal_moves(cells, mover).len() > 0 {
        Turn::Again
    } else {
        Turn::GameOver
    }
}

/// The winner of a finished game: the side with more stones. A tie goes to
/// White, the side that moved second.
pub open spec fn winner(cells: Seq<Option<Stone>>) -> Stone {
    if count_of(cells, Some(Stone::Black)) > count_of(cells, Some(Stone::White)) {
        Stone::Black
    } else {
        Stone::White
    }
}

/// The side with more stones on `board`; White on a tie.
pub fn winner_of(board: &Board) -> (r: Stone)
    ensures
        r == winner(board@),
{
    let (black, white) = board.count_stones();
    if black > white {
        Stone::Black
    } else {
        Stone::White
    }
}

/// The state of a game between two rounds.
#[derive(Clone, Copy)]
pub struct GameContext {
    pub round: usize,
    pub board: Board,
    pub error: Option<Error>,
    pub is_done: bool,
}

/// How one round changes the state, given what the player on turn proposed.
pub open spec fn stepped(old: GameContext, m: Result<Point, PlayerError>, new: GameContext) -> bool {
    match m {
        Err(PlayerError::Uncontinuable) => {
            &&& new.error == Some(Error::Uncontinuable)
            &&& new.is_done
            &&& new.round == old.round
            &&& new.board@ == old.board@
        },
        Err(e) => {
            &&& new.error == Some(Error::PlayerError(e))
            &&& new.is_done == old.is_done
            &&& new.round == old.round
            &&& new.board@ == old.board@
        },
        Ok(p) => {
            let c = color_of_round(old.round as int);
            match place_result(old.board@, p, c) {
                Err(e) => {
                    &&& new.error == Some(e)
                    &&& new.is_done == old.is_done
                    &&& new.round == old.round
                    &&& new.board@ == old.board@
                },
                Ok(_) => {
                    let cells = after_place(old.board@, p, c);
                    &&& new.board@ == cells
                    &&& new.error is None
                    &&& match next_turn(cells, c) {
                        Turn::Opponent => new.round == old.round + 1 && new.is_done == old.is_done,
                        Turn::Again => new.round == old.round + 2 && new.is_done == old.is_done,
                        Turn::GameOver => new.round == old.round + 1 && new.is_done,
                    }
                },
            }
        },
    }
}

/// Decides who moves after `mover` has placed a stone.
pub fn decide_turn(board: &Board, mover: Stone) -> (r: Turn)
    ensures
        r == next_turn(board@, mover),
{
    if board.scan_cells_placeable(mover.opponent()).len() > 0 {
        Turn::Opponent
    } else if board.scan_cells_placeable(mover).len() > 0 {
        Turn::Again
    } else {
        Turn::GameOver
    }
}

impl GameContext {
    /// Round 0 on the starting position, no error, not done.
    pub fn new() -> (r: GameContext)
        ensures
            r.round == 0,
            r.board@ == initial_cells(),
            r.error is None,
            !r.is_done,
    {
        GameContext { round: 0, board: Board::default(), error: None, is_done: false }
    }

    /// Plays one round with the move that the player on turn proposed.
    /// Returns the winner when this round ended the game because neither
    /// side can move.
    pub fn apply_move(&mut self, movement: Result<Point, PlayerError>) -> (r: Option<Stone>)
        requires
            old(self).round <= usize::MAX - 2,
        ensures
            stepped(*old(self), movement, *final(self)),
            r == if final(self).is_done && !old(self).is_done && final(self).error is None {
                Some(winner(final(self).board@))
            } else {
                None
            },
    {
        match movement {
            Err(PlayerError::Uncontinuable) => {
                self.error = Some(Error::Uncontinuable);
                self.is_done = true;
                None
            },
            Err(e) => {
                self.error = Some(Error::PlayerError(e));
                None
            },
            Ok(point) => {
                let mover = Stone::from_round(self.round);
                match self.board.put(point, mover) {
                    Err(e) => {
                        self.error = Some(e);
                        None
                    },
                    Ok(()) => {
                        self.error = None;
                        match decide_turn(&self.board, mover) {
                            Turn::Opponent => {
                                self.round = self.round + 1;
                                None
                            },
                            Turn::Again => {
                                self.round = self.round + 2;
                                None
                            },
                            Turn::GameOver => {
                                self.round = self.round + 1;
                                let was_done = self.is_done;
                                self.is_done = true;
                                if was_done {
                                    None
                                } else {
                                    Some(winner_of(&self.board))
                                }
                            },
                        }
                    },
                }
            },
        }
    }
}

/// While the game is not over, the side on turn has a legal move.
pub open spec fn can_move(ctx: GameContext) -> bool {
    !ctx.is_done ==> legal_moves(ctx.board@, color_of_round(ctx.round as int)).len() > 0
}

/// A round keeps the side on turn able to move: a refused proposal changes
/// neither board nor turn, and an accepted one hands the turn to a side that
/// can move, or ends the game.
pub proof fn lemma_round_keeps_move(old: GameContext, m: Result<Point, PlayerError>, new: GameContext)
    requires
        can_move(old),
        stepped(old, m, new),
    ensures
        can_move(new),
{
    if let Ok(p) = m {
        let c = color_of_round(old.round as int);
        if place_result(old.board@, p, c) is Ok {
            let cells = after_place(old.board@, p, c);
            match next_turn(cells, c) {
                Turn::Opponent => {
                    assert(color_of_round(old.round + 1) == opponent(c));
                },
                Turn::Again => {
                    assert(color_of_round(old.round + 2) == c);
                },
                Turn::GameOver => {},
            }
        }
    }
}

/// A round in which the player on turn proposed a move that was accepted.
#[verifier::opaque]
pub open spec fn accepted_round(old: GameContext, new: GameContext) -> bool {
    !old.is_done && exists|p: Point|
        place_result(old.board@, p, color_of_round(old.round as int)) is Ok && #[trigger] stepped(
            old,
            Ok(p),
            new,
        )
}

proof fn lemma_accepted_round(old: GameContext, new: GameContext)
    requires
        accepted_round(old, new),
    ensures
        count_of(new.board@, None) + 1 == count_of(old.board@, None),
        count_of(new.board@, None) == 0 ==> new.is_done,
{
    reveal(accepted_round);
    let p = choose|p: Point|
        place_result(old.board@, p, color_of_round(old.round as int)) is Ok && #[trigger] stepped(old, Ok(p), new);
    let c = color_of_round(old.round as int);
    old.board.lemma_cells_len();
    new.board.lemma_cells_len();
    lemma_place_fills_one(old.board@, p, c);
    if count_of(new.board@, None) == 0 {
        lemma_full_board(new.board@, c);
        lemma_full_board(new.board@, opponent(c));
    }
}

/// A game ends within sixty accepted moves: from the starting position, a
/// run of states in which every round accepts the proposed move has at most
/// sixty rounds, and after the sixtieth the game is over.
pub proof fn lemma_game_ends(states: Seq<GameContext>)
    requires
        states.len() > 0,
        states[0].board@ == initial_cells(),
        forall|i: int| 0 <= i < states.len() - 1 ==> accepted_round(#[trigger] states[i], states[i + 1]),
    ensures
        states.len() <= 61,
        states.len() == 61 ==> states[60].is_done,
{
    lemma_initial_position();
    lemma_run_counts(states, states.len() - 1);
    if states.len() > 61 {
        lemma_run_counts(states, 60);
        assert(count_of(states[60].board@, None) == 0);
        assert(accepted_round(states[60], states[61]));
        lemma_accepted_round(states[60], states[61]);
        assert(false);
    }
    if states.len() == 61 {
        assert(count_of(states[60].board@, None) == 0);
        assert(accepted_round(states[59], states[60]));
        lemma_accepted_round(states[59], states[60]);
    }
}

proof fn lemma_run_counts(states: Seq<GameContext>, n: int)
    requires
        0 <= n < states.len(),
        count_of(states[0].board@, None) == 60,
        forall|i: int| 0 <= i < states.len() - 1 ==> accepted_round(#[trigger] states[i], states[i + 1]),
    ensures
        count_of(states[n].board@, None) + n == 60,
    decreases n,
{
    if n > 0 {
        lemma_run_counts(states, n - 1);
        assert(accepted_round(states[n - 1], states[n]));
        lemma_accepted_round(states[n - 1], states[n]);
    }
}

/// A move that is legal for the side on turn whenever that side has one.
pub open spec fn proposes_legal(ctx: GameContext, p: Point) -> bool {
    let c = color_of_round(ctx.round as int);
    legal_moves(ctx.board@, c).len() > 0 ==> is_legal(ctx.board@, p, c)
}

proof fn lemma_legal_run(states: Seq<GameContext>, moves: Seq<Point>, n: int)
    requires
        0 <= n < states.len(),
        states.len() == moves.len() + 1,
        can_move(states[0]),
        forall|i: int|
            0 <= i < moves.len() ==> stepped(#[trigger] states[i], Ok(moves[i]), states[i + 1]),
    ensures
        can_move(states[n]),
    decreases n,
{
    if n > 0 {
        lemma_legal_run(states, moves, n - 1);
        assert(stepped(states[n - 1], Ok(moves[n - 1]), states[n]));
        lemma_round_keeps_move(states[n - 1], Ok(moves[n - 1]), states[n]);
    }
}

/// From the start, players that propose a legal move whenever the side on
/// turn has one finish the game within sixty rounds: a run of such rounds
/// has at most sixty, and after the sixtieth the game is over.
pub proof fn lemma_legal_players_finish(states: Seq<GameContext>, moves: Seq<Point>)
    requires
        states.len() == moves.len() + 1,
        states[0].round == 0,
        states[0].board@ == initial_cells(),
        forall|i: int|
            0 <= i < moves.len() ==> !(#[trigger] states[i]).is_done && proposes_legal(states[i], moves[i])
                && stepped(states[i], Ok(moves[i]), states[i + 1]),
    ensures
        states.len() <= 61,
        states.len() == 61 ==> states[60].is_done,
{
    lemma_opening_move();
    assert(color_of_round(0) == Stone::Black);
    assert forall|i: int| 0 <= i < states.len() - 1 implies accepted_round(#[trigger] states[i], states[i + 1]) by {
        assert(stepped(states[i], Ok(moves[i]), states[i + 1]));
        lemma_legal_run(states, moves, i);
        let c = color_of_round(states[i].round as int);
        lemma_legal_accepted(states[i].board@, moves[i], c);
        reveal(accepted_round);
        assert(place_result(states[i].board@, moves[i], c) is Ok && stepped(states[i], Ok(moves[i]), states[i + 1]));
    }
    lemma_game_ends(states);
}

/// A side of the game: proposes moves and hears how the game ended.
pub trait Player {
    /// The move to play in the state `ctx`; `ctx.error` tells why the last
    /// proposal, if any, was refused.
    fn make_move(&self, ctx: &GameContext) -> Result<Point, PlayerError>;

    /// Called once when this side has won.
    fn win(&self, ctx: &GameContext);

    /// Called once when this side has lost.
    fn lose(&self, ctx: &GameContext);
}

/// A game between a black and a white player.
pub struct Game<B: Player, W: Player> {
    black_player: B,
    white_player: W,
    context: GameContext,
}

impl<B: Player, W: Player> Game<B, W> {
    /// The current state of the game.
    pub closed spec fn state(&self) -> GameContext {
        self.context
    }

    /// Every round fills one of the sixty empty cells and advances the round
    /// by at most two, so the round stays bounded.
    pub closed spec fn wf(&self) -> bool {
        &&& self.context.round + 2 * count_of(self.context.board@, None) <= 120
        &&& can_move(self.context)
    }

    pub fn new(black_player: B, white_player: W) -> (r: Self)
        ensures
            r.wf(),
            can_move(r.state()),
            r.state().round == 0,
            r.state().board@ == initial_cells(),
            r.state().error is None,
            !r.state().is_done,
    {
        proof {
            lemma_initial_position();
            lemma_opening_move();
        }
        Game { black_player, white_player, context: GameContext::new() }
    }

    pub fn get_context(&self) -> (r: &GameContext)
        ensures
            *r == self.state(),
    {
        &self.context
    }

    /// Plays one round: asks the player on turn for a move and applies it.
    /// When the round ends the game because neither side can move, the
    /// winner and the loser are told. Returns the new state.
    pub fn make_move(&mut self) -> (r: GameContext)
        requires
            old(self).wf(),
        ensures
            final(self).wf(),
            can_move(final(self).state()),
            r == final(self).state(),
            exists|m: Result<Point, PlayerError>| stepped(old(self).state(), m, final(self).state()),
    {
        let movement = if self.context.round % 2 == 0 {
            self.black_player.make_move(&self.context)
        } else {
            self.white_player.make_move(&self.context)
        };
        let ghost before = self.context;
        proof {
            before.board.lemma_cells_len();
        }
        let outcome = self.context.apply_move(movement);
        proof {
            if let Ok(p) = movement {
                let c = color_of_round(before.round as int);
                if place_result(before.board@, p, c) is Ok {
                    lemma_place_fills_one(before.board@, p, c);
                }
            }
            assert(stepped(before, movement, self.context));
            lemma_round_keeps_move(before, movement, self.context);
        }
        match outcome {
            Some(Stone::Black) => {
                self.black_player.win(&self.context);
                self.white_player.lose(&self.context);
            },
            Some(Stone::White) => {
                self.black_player.lose(&self.context);
                self.white_player.win(&self.context);
            },
            None => {},
        }
        self.context
    }

    /// The state after the next round, or `None` once the game is over.
    pub fn next(&mut self) -> (r: Option<GameContext>)
        requires
            old(self).wf(),
        ensures
            final(self).wf(),
            can_move(final(self).state()),
            old(self).state().is_done ==> r is None && final(self).state() == old(self).state(),
            !old(self).state().is_done ==> r == Some(final(self).state()) && exists|
                m: Result<Point, PlayerError>,
            | stepped(old(self).state(), m, final(self).state()),
    {
        if self.context.is_done {
            None
        } else {
            Some(self.make_move())
        }
    }
}

/// How many stones a stone of color `c` at `p` would turn.
pub open spec fn flip_count(cells: Seq<Option<Stone>>, p: Point, c: Stone) -> nat {
    scan(cells, p, c, false).len()
}

/// Among the first `n` points in scan order, the first empty one that turns
/// the most stones, if any turns at least one.
pub open spec fn best_upto(cells: Seq<Option<Stone>>, c: Stone, n: int) -> Option<Point>
    decreases n,
{
    if n <= 0 {
        None
    } else {
        let prev = best_upto(cells, c, n - 1);
        let q = scan_point(n - 1);
        if stone_at(cells, q) is None && flip_count(cells, q, c) > 0 && (prev is None
            || flip_count(cells, q, c) > flip_count(cells, prev->0, c)) {
            Some(q)
        } else {
            prev
        }
    }
}

proof fn lemma_best_upto(cells: Seq<Option<Stone>>, c: Stone, n: int)
    requires
        0 <= n <= 64,
    ensures
        best_upto(cells, c, n) is None <==> legal_upto(cells, c, n).len() == 0,
        best_upto(cells, c, n) is Some ==> {
            let p = best_upto(cells, c, n)->0;
            &&& is_legal(cells, p, c)
            &&& forall|k: int|
                0 <= k < n && is_legal(cells, #[trigger] scan_point(k), c) ==> flip_count(cells, scan_point(k), c)
                    <= flip_count(cells, p, c)
            &&& exists|j: int|
                0 <= j < n && #[trigger] scan_point(j) == p && forall|k: int|
                    0 <= k < j && is_legal(cells, #[trigger] scan_point(k), c) ==> flip_count(
                        cells,
                        scan_point(k),
                        c,
                    ) < flip_count(cells, p, c)
        },
    decreases n,
{
    if n > 0 {
        lemma_best_upto(cells, c, n - 1);
        lemma_legal_upto(cells, c, n - 1);
        let q = scan_point(n - 1);
        assert(in_board(q));
        lemma_scan_stop(cells, q, c);
        let prev = best_upto(cells, c, n - 1);
        if best_upto(cells, c, n) is Some && prev != best_upto(cells, c, n) {
            let p = q;
            assert forall|k: int| 0 <= k < n - 1 && is_legal(cells, #[trigger] scan_point(k), c) implies flip_count(
                cells,
                scan_point(k),
                c,
            ) < flip_count(cells, p, c) by {
                lemma_scan_stop(cells, scan_point(k), c);
            }
            assert(scan_point(n - 1) == p);
        }
        if prev is Some {
            let p = prev->0;
            let j = choose|j: int|
                0 <= j < n - 1 && #[trigger] scan_point(j) == p && forall|k: int|
                    0 <= k < j && is_legal(cells, #[trigger] scan_point(k), c) ==> flip_count(
                        cells,
                        scan_point(k),
                        c,
                    ) < flip_count(cells, p, c);
            assert(scan_point(j) == p);
        }
    }
}

/// The bot gives up exactly when the side on turn has no legal move; else it
/// plays a legal move that turns at least as many stones as any other legal
/// move, and more than every legal move before it in scan order.
pub proof fn lemma_bot_choice(cells: Seq<Option<Stone>>, c: Stone)
    ensures
        best_upto(cells, c, 64) is None <==> legal_moves(cells, c).len() == 0,
        best_upto(cells, c, 64) is Some ==> {
            let p = best_upto(cells, c, 64)->0;
            &&& is_legal(cells, p, c)
            &&& forall|q: Point| is_legal(cells, q, c) ==> #[trigger] flip_count(cells, q, c) <= flip_count(cells, p, c)
            &&& forall|q: Point|
                is_legal(cells, q, c) && (q.0 < p.0 || q.0 == p.0 && q.1 < p.1) ==> #[trigger] flip_count(
                    cells,
                    q,
                    c,
                ) < flip_count(cells, p, c)
        },
{
    lemma_best_upto(cells, c, 64);
    if best_upto(cells, c, 64) is Some {
        let p = best_upto(cells, c, 64)->0;
        let j = choose|j: int|
            0 <= j < 64 && #[trigger] scan_point(j) == p && forall|k: int|
                0 <= k < j && is_legal(cells, #[trigger] scan_point(k), c) ==> flip_count(cells, scan_point(k), c)
                    < flip_count(cells, p, c);
        assert forall|q: Point| is_legal(cells, q, c) implies #[trigger] flip_count(cells, q, c) <= flip_count(cells, p, c) by {
            assert(scan_point(q.0 * 8 + q.1) == q);
        }
        assert forall|q: Point|
            is_legal(cells, q, c) && (q.0 < p.0 || q.0 == p.0 && q.1 < p.1) implies #[trigger] flip_count(
            cells,
            q,
            c,
        ) < flip_count(cells, p, c) by {
            assert(scan_point(q.0 * 8 + q.1) == q);
            assert(q.0 * 8 + q.1 < j);
        }
    }
}

/// A bot that plays the move turning the most stones, without lookahead.
pub struct WeekBot;

impl WeekBot {
    /// The move the bot plays in `ctx`: the first empty cell in scan order
    /// whose chain is longest. It gives up when its last move was refused or
    /// when it has no legal move.
    pub fn choose_move(ctx: &GameContext) -> (r: Result<Point, PlayerError>)
        ensures
            ctx.error is Some ==> r == Err::<Point, PlayerError>(PlayerError::Uncontinuable),
            ctx.error is None ==> r == match best_upto(ctx.board@, color_of_round(ctx.round as int), 64) {
                Some(p) => Ok(p),
                None => Err(PlayerError::Uncontinuable),
            },
    {
        if ctx.error.is_some() {
            return Err(PlayerError::Uncontinuable);
        }
        let stone = Stone::from_round(ctx.round);
        let mut best: Option<Point> = None;
        let mut best_len: usize = 0;
        let mut k: usize = 0;
        while k < 64
            invariant
                k <= 64,
                stone == color_of_round(ctx.round as int),
                best == best_upto(ctx.board@, stone, k as int),
                best is Some ==> best_len == flip_count(ctx.board@, best->0, stone),
            decreases 64 - k,
        {
            let p = Point(k / 8, k % 8);
            assert(p == scan_point(k as int));
            if ctx.board.get(&p).is_none() {
                let chain = ctx.board.scan_stones_turning(p, stone, false);
                if chain.len() > 0 && (best.is_none() || chain.len() > best_len) {
                    best = Some(p);
                    best_len = chain.len();
                }
            }
            k += 1;
        }
        match best {
            Some(p) => Ok(p),
            None => Err(PlayerError::Uncontinuable),
        }
    }
}

impl Player for WeekBot {
    fn make_move(&self, ctx: &GameContext) -> (r: Result<Point, PlayerError>)
        ensures
            ctx.error is Some ==> r == Err::<Point, PlayerError>(PlayerError::Uncontinuable),
            ctx.error is None ==> r == match best_upto(ctx.board@, color_of_round(ctx.round as int), 64) {
                Some(p) => Ok(p),
                None => Err(PlayerError::Uncontinuable),
            },
    {
        WeekBot::choose_move(ctx)
    }

    fn win(&self, ctx: &GameContext) {
    }

    fn lose(&self, ctx: &GameContext) {
    }
}

} // verus!
