//! A game as a list of moves from the initial position: replaying it, the end of the
//! game, and reviewing one of red's moves against the engine.
use vstd::prelude::*;
use crate::coach::{describe_spec, reason_spec, describe_candidate, reason_of};
use crate::engine::{analyze, cand_ok, first_best, has_legal, move_value, Candidate, MATE};
use crate::fen::start_cell;
use crate::notation::notation_spec;
use crate::text::{dec_nat, push_dec};
use crate::xiangqi::{Board, Move};

verus! {

/// The initial position.
pub open spec fn start_board_spec(b: Board) -> bool {
    b.cells@ == Seq::new(90, |s: int| start_cell(s)) && b.red_turn
}

/// The initial position as a value.
pub open spec fn start_board() -> Board {
    choose|b: Board| start_board_spec(b)
}

pub proof fn lemma_start_board(b: Board)
    requires
        start_board_spec(b),
    ensures
        start_board() == b,
{
    broadcast use vstd::array::group_array_axioms;

    let c = start_board();
    assert(start_board_spec(c));
    assert(c.cells =~= b.cells);
}

/// The position after the first `n` moves, each legal where it is played; `None` as
/// soon as one is not.
pub open spec fn played(start: Board, moves: Seq<Move>, n: int) -> Option<Board>
    decreases n,
{
    if n <= 0 {
        Some(start)
    } else {
        match played(start, moves, n - 1) {
            Some(b) => if b.legal_spec(moves[n - 1]) {
                Some(b.make_spec(moves[n - 1]))
            } else {
                None
            },
            None => None,
        }
    }
}

/// A history entry: the move, its notation, and the piece it captured.
pub type HistEntry = (Move, String, i8);

/// `hist` records the first `n` moves as played from `start`.
pub open spec fn hist_ok(start: Board, moves: Seq<Move>, hist: Seq<HistEntry>, n: int) -> bool {
    &&& hist.len() == n
    &&& forall|i: int| 0 <= i < n ==> {
        let b = played(start, moves, i)->Some_0;
        &&& (#[trigger] hist[i]).0 == moves[i]
        &&& hist[i].1@ == notation_spec(b, moves[i])
        &&& hist[i].2 == b.cell(moves[i].to as int)
    }
}

/// Index of the first move that is not legal where it is played (or the length).
pub open spec fn first_illegal(start: Board, moves: Seq<Move>, n: int) -> int
    decreases n,
{
    if n <= 0 {
        0
    } else if played(start, moves, n - 1) is Some && played(start, moves, n) is None {
        n - 1
    } else {
        first_illegal(start, moves, n - 1)
    }
}

/// "非法走法：12→21".
pub open spec fn illegal_text(m: Move) -> Seq<char> {
    "非法走法："@ + dec_nat(m.from as nat) + "→"@ + dec_nat(m.to as nat)
}

pub proof fn lemma_played_wf(start: Board, moves: Seq<Move>, n: int)
    requires
        start.wf(),
    ensures
        played(start, moves, n) matches Some(b) ==> b.wf(),
    decreases n,
{
    if n > 0 {
        lemma_played_wf(start, moves, n - 1);
        if let Some(b) = played(start, moves, n - 1) {
            if b.legal_spec(moves[n - 1]) {
                crate::movegen::lemma_make_wf(b, moves[n - 1]);
            }
        }
    }
}

pub proof fn lemma_played_none_stays(start: Board, moves: Seq<Move>, i: int, n: int)
    requires
        0 <= i <= n,
        played(start, moves, i) is None,
    ensures
        played(start, moves, n) is None,
    decreases n - i,
{
    if i < n {
        lemma_played_none_stays(start, moves, i, n - 1);
    }
}

/// Whether `mv` occurs in `moves`.
fn contains_move(moves: &Vec<Move>, mv: Move) -> (res: bool)
    ensures
        res == moves@.contains(mv),
{
    let mut i: usize = 0;
    while i < moves.len()
        invariant
            0 <= i <= moves@.len(),
            forall|k: int| 0 <= k < i ==> moves@[k] != mv,
        decreases moves@.len() - i,
    {
        if moves[i] == mv {
            return true;
        }
        i = i + 1;
    }
    false
}

/// Whether `mv` is legal on `b`.
pub fn is_legal(b: &Board, mv: Move) -> (res: bool)
    requires
        b.wf(),
    ensures
        res == b.legal_spec(mv),
{
    let all = b.legal_moves();
    let r = contains_move(&all, mv);
    proof {
        if r {
            let k = choose|k: int| 0 <= k < all@.len() && all@[k] == mv;
            assert(b.legal_spec(all@[k]));
        }
    }
    r
}

/// What replaying `moves` gives: the final position and the history when every move
/// is legal where it is played, or the message naming the first move that is not.
pub open spec fn replay_post(moves: Seq<Move>, res: Result<(Board, Vec<HistEntry>), String>) -> bool {
    let start = start_board();
    let n = moves.len() as int;
    match res {
        Ok((b, hist)) => played(start, moves, n) == Some(b) && hist_ok(start, moves, hist@, n),
        Err(e) => played(start, moves, n) is None && e@ == illegal_text(moves[first_illegal(start, moves, n)]),
    }
}

/// Replays a move list from the initial position, recording each move's notation and
/// capture; fails with "非法走法：from→to" at the first move that is not legal.
pub fn replay(moves: &[Move]) -> (res: Result<(Board, Vec<HistEntry>), String>)
    ensures
        replay_post(moves@, res),
{
    let start = Board::start();
    let ghost sb = start;
    let mut b = start;
    let mut hist: Vec<HistEntry> = Vec::new();
    let mut i: usize = 0;
    proof {
        lemma_start_board(start);
    }
    while i < moves.len()
        invariant
            0 <= i <= moves@.len(),
            sb == start_board(),
            sb.wf(),
            played(sb, moves@, i as int) == Some(b),
            b.wf(),
            hist_ok(sb, moves@, hist@, i as int),
            forall|k: int| 0 < k <= i ==> played(sb, moves@, k) is Some,
        decreases moves@.len() - i,
    {
        let mv = moves[i];
        if !is_legal(&b, mv) {
            let mut e = String::from_str("非法走法：");
            push_dec(&mut e, mv.from as u64);
            e.append("→");
            push_dec(&mut e, mv.to as u64);
            proof {
                lemma_played_none_stays(sb, moves@, i + 1, moves@.len() as int);
                lemma_first_illegal(sb, moves@, i as int, moves@.len() as int);
                assert(e@ =~= illegal_text(mv));
            }
            return Err(e);
        }
        let notation = b.move_notation(mv);
        let ghost before = b;
        let captured = b.make(mv);
        proof {
            crate::movegen::lemma_make_wf(before, mv);
        }
        let ghost h0 = hist@;
        hist.push((mv, notation, captured));
        proof {
            assert forall|k: int| 0 <= k < i + 1 implies {
                let bb = played(sb, moves@, k)->Some_0;
                &&& (#[trigger] hist@[k]).0 == moves@[k]
                &&& hist@[k].1@ == notation_spec(bb, moves@[k])
                &&& hist@[k].2 == bb.cell(moves@[k].to as int)
            } by {
                if k < i {
                    assert(hist@[k] == h0[k]);
                }
            }
        }
        i = i + 1;
    }
    Ok((b, hist))
}

/// Before index `i` every move was legal and move `i` is not: it is the first illegal one.
proof fn lemma_first_illegal(start: Board, moves: Seq<Move>, i: int, n: int)
    requires
        0 <= i < n,
        played(start, moves, i) is Some,
        played(start, moves, i + 1) is None,
        forall|k: int| 0 < k <= i ==> played(start, moves, k) is Some,
    ensures
        first_illegal(start, moves, n) == i,
    decreases n,
{
    if n > i + 1 {
        lemma_played_none_stays(start, moves, i + 1, n - 1);
        lemma_first_illegal(start, moves, i, n - 1);
    }
}


// ---------------------------------------------------------------------------
// End of the game
// ---------------------------------------------------------------------------

pub open spec fn side_text(red: bool) -> Seq<char> {
    if red {
        "红方"@
    } else {
        "黑方"@
    }
}

/// When the side to move has no legal move, the game is over: "绝杀" (checkmate) if it
/// is in check, "困毙" (stalemate, also a loss) otherwise; the other side wins.
pub open spec fn game_over_spec(b: Board) -> Option<Seq<char>> {
    if has_legal(b) {
        None
    } else {
        Some((if b.in_check_spec(b.red_turn) {
            "绝杀"@
        } else {
            "困毙"@
        }) + "！"@ + side_text(!b.red_turn) + "获胜（"@ + side_text(b.red_turn) + "无棋可走）"@)
    }
}

/// The end-of-game message, if the side to move has no legal move.
pub fn game_over_text(b: &Board) -> (res: Option<String>)
    requires
        b.wf(),
    ensures
        match game_over_spec(*b) {
            None => res is None,
            Some(t) => res matches Some(s) && s@ == t,
        },
{
    let moves = b.legal_moves();
    if moves.len() == 0 {
        proof {
            if has_legal(*b) {
                let m = choose|m: Move| #[trigger] b.legal_spec(m);
                assert(moves@.contains(m));
            }
        }
        let red = b.red_turn;
        let mut s = String::from_str(if b.in_check(red) {
            "绝杀"
        } else {
            "困毙"
        });
        s.append("！");
        s.append(if red {
            "黑方"
        } else {
            "红方"
        });
        s.append("获胜（");
        s.append(if red {
            "红方"
        } else {
            "黑方"
        });
        s.append("无棋可走）");
        assert(s@ =~= game_over_spec(*b)->Some_0);
        Some(s)
    } else {
        proof {
            assert(b.legal_spec(moves@[0]));
        }
        None
    }
}

// ---------------------------------------------------------------------------
// A game in progress
// ---------------------------------------------------------------------------

/// The moves of a history.
pub open spec fn moves_of(hist: Seq<HistEntry>) -> Seq<Move> {
    Seq::new(hist.len(), |i: int| hist[i].0)
}

/// A game: the position, the moves played from the initial position, and the result
/// once it is over.
#[derive(Clone)]
pub struct GameState {
    pub board: Board,
    pub history: Vec<HistEntry>,
    pub game_over: Option<String>,
}

impl GameState {
    /// The position is the initial one with the recorded moves played, each legal.
    pub open spec fn consistent(self) -> bool {
        let moves = moves_of(self.history@);
        let n = self.history@.len() as int;
        &&& self.board.wf()
        &&& played(start_board(), moves, n) == Some(self.board)
        &&& hist_ok(start_board(), moves, self.history@, n)
    }

    /// A new game from the initial position.
    pub fn new() -> (g: GameState)
        ensures
            g.consistent(),
            start_board_spec(g.board),
            g.history@.len() == 0,
            g.game_over is None,
    {
        let board = Board::start();
        proof {
            lemma_start_board(board);
        }
        GameState { board, history: Vec::new(), game_over: None }
    }

    /// Marks the game as over when the side to move has no legal move.
    pub fn check_game_over(&mut self)
        requires
            old(self).board.wf(),
        ensures
            final(self).board == old(self).board,
            final(self).history == old(self).history,
            match game_over_spec(old(self).board) {
                None => final(self).game_over == old(self).game_over,
                Some(t) => final(self).game_over matches Some(s) && s@ == t,
            },
    {
        if let Some(t) = game_over_text(&self.board) {
            self.game_over = Some(t);
        }
    }

    /// Records `mv` (notation, capture) and plays it.
    fn record(&mut self, mv: Move)
        requires
            old(self).consistent(),
            old(self).board.legal_spec(mv),
        ensures
            final(self).consistent(),
            final(self).board == old(self).board.make_spec(mv),
            final(self).history@ == old(self).history@.push((mv, final(self).history@.last().1, old(self).board.cell(mv.to as int))),
            final(self).history@.last().1@ == notation_spec(old(self).board, mv),
            moves_of(final(self).history@) == moves_of(old(self).history@).push(mv),
            match game_over_spec(final(self).board) {
                None => final(self).game_over == old(self).game_over,
                Some(t) => final(self).game_over matches Some(s) && s@ == t,
            },
    {
        let ghost g0 = *self;
        let notation = self.board.move_notation(mv);
        let captured = self.board.make(mv);
        proof {
            crate::movegen::lemma_make_wf(g0.board, mv);
        }
        self.history.push((mv, notation, captured));
        proof {
            let m0 = moves_of(g0.history@);
            let m1 = moves_of(self.history@);
            let n = g0.history@.len() as int;
            assert forall|i: int| 0 <= i < n implies m0[i] == m1[i] by {
                assert(self.history@[i] == g0.history@[i]);
            }
            lemma_played_prefix(start_board(), m0, m1, n);
            assert forall|k: int| 0 <= k <= n implies played(start_board(), m1, k) == played(start_board(), m0, k) by {
                lemma_played_prefix(start_board(), m0, m1, k);
            }
            assert forall|i: int| 0 <= i < n + 1 implies {
                let b = played(start_board(), m1, i)->Some_0;
                &&& (#[trigger] self.history@[i]).0 == m1[i]
                &&& self.history@[i].1@ == notation_spec(b, m1[i])
                &&& self.history@[i].2 == b.cell(m1[i].to as int)
            } by {
                if i < n {
                    assert(self.history@[i] == g0.history@[i]);
                    assert(m1[i] == m0[i]);
                }
            }
        }
        proof {
            assert(moves_of(self.history@) =~= moves_of(g0.history@).push(mv));
        }
        self.check_game_over();
    }

    /// Plays the student's move: refused with "对局已结束，请开始新对局" once the game is
    /// over, with "非法走法" when the move is not legal.
    pub fn apply_move(&mut self, mv: Move) -> (res: Result<(), String>)
        requires
            old(self).consistent(),
        ensures
            final(self).consistent(),
            old(self).game_over is Some ==> (res matches Err(e) && e@ == "对局已结束，请开始新对局"@ && *final(self) == *old(self)),
            old(self).game_over is None && !old(self).board.legal_spec(mv) ==> (res matches Err(e) && e@ == "非法走法"@ && *final(self) == *old(self)),
            old(self).game_over is None && old(self).board.legal_spec(mv) ==> {
                &&& res is Ok
                &&& final(self).board == old(self).board.make_spec(mv)
                &&& moves_of(final(self).history@) == moves_of(old(self).history@).push(mv)
                &&& (game_over_spec(final(self).board) is None ==> final(self).game_over is None)
                &&& (game_over_spec(final(self).board) matches Some(t) ==> final(self).game_over matches Some(s) && s@ == t)
            },
    {
        if self.game_over.is_some() {
            return Err(String::from_str("对局已结束，请开始新对局"));
        }
        if !is_legal(&self.board, mv) {
            return Err(String::from_str("非法走法"));
        }
        self.record(mv);
        Ok(())
    }

    /// The engine plays its best move at `depth` (among equally good moves, the first in
    /// search order): refused with "对局已结束" once the game is over, and with "无棋可走"
    /// when there is no legal move. Only a search is bounded in depth, as for `analyze`.
    pub fn engine_reply(&mut self, depth: i32) -> (res: Result<Move, String>)
        requires
            old(self).consistent(),
            old(self).game_over is None && has_legal(old(self).board) ==> i32::MIN < depth <= MATE,
        ensures
            final(self).consistent(),
            old(self).game_over is Some ==> (res matches Err(e) && e@ == "对局已结束"@ && *final(self) == *old(self)),
            old(self).game_over is None && !has_legal(old(self).board) ==> (res matches Err(e) && e@ == "无棋可走"@ && *final(self) == *old(self)),
            old(self).game_over is None && has_legal(old(self).board) ==> (res matches Ok(mv) && {
                &&& old(self).board.legal_spec(mv)
                &&& forall|m: Move| #[trigger] old(self).board.legal_spec(m) ==> move_value(old(self).board, m, depth as int) <= move_value(old(self).board, mv, depth as int)
                &&& first_best(old(self).board, depth as int, mv)
                &&& final(self).board == old(self).board.make_spec(mv)
                &&& moves_of(final(self).history@) == moves_of(old(self).history@).push(mv)
            }),
    {
        if self.game_over.is_some() {
            return Err(String::from_str("对局已结束"));
        }
        let analysis = analyze(&self.board, depth);
        let best = match &analysis.best {
            Some(c) => c.mv,
            None => {
                return Err(String::from_str("无棋可走"));
            },
        };
        proof {
            reveal(cand_ok);
            assert(cand_ok(self.board, analysis.candidates@[0]));
        }
        self.record(best);
        Ok(best)
    }

    /// Takes back the last two moves (student and engine), or the only one; the game is
    /// then no longer over.
    pub fn undo(&mut self)
        requires
            old(self).consistent(),
        ensures
            final(self).consistent(),
            ({
                let n = old(self).history@.len();
                let k = if n >= 2 {
                    2
                } else {
                    n
                };
                &&& moves_of(final(self).history@) == moves_of(old(self).history@).take(n - k)
                &&& (k > 0 ==> final(self).game_over is None)
                &&& (k == 0 ==> *final(self) == *old(self))
            }),
    {
        let n = self.history.len();
        if n == 0 {
            return;
        }
        let k: usize = if n >= 2 {
            2
        } else {
            n
        };
        let moves = prefix_moves(&self.history, n - k);
        proof {
            let m0 = moves_of(self.history@);
            lemma_played_prefix(start_board(), moves@, m0, (n - k) as int);
            lemma_played_some_before(start_board(), m0, (n - k) as int, n as int);
        }
        let (b, hist) = rebuild(&moves);
        self.board = b;
        self.history = hist;
        self.game_over = None;
    }

    /// Starts a new game.
    pub fn reset(&mut self)
        ensures
            final(self).consistent(),
            start_board_spec(final(self).board),
            final(self).history@.len() == 0,
            final(self).game_over is None,
    {
        *self = GameState::new();
    }
}

/// The first `m` moves of a history.
fn prefix_moves(hist: &Vec<HistEntry>, m: usize) -> (moves: Vec<Move>)
    requires
        m <= hist@.len(),
    ensures
        moves@ == moves_of(hist@).take(m as int),
{
    let mut moves: Vec<Move> = Vec::new();
    let mut i: usize = 0;
    while i < m
        invariant
            0 <= i <= m,
            m <= hist@.len(),
            moves@ == moves_of(hist@).take(i as int),
        decreases m - i,
    {
        moves.push(hist[i].0);
        i = i + 1;
        assert(moves@ =~= moves_of(hist@).take(i as int));
    }
    moves
}

/// Replays moves known to be legal where they are played.
fn rebuild(moves: &Vec<Move>) -> (res: (Board, Vec<HistEntry>))
    requires
        played(start_board(), moves@, moves@.len() as int) is Some,
    ensures
        res.0.wf(),
        played(start_board(), moves@, moves@.len() as int) == Some(res.0),
        hist_ok(start_board(), moves@, res.1@, moves@.len() as int),
        moves_of(res.1@) == moves@,
{
    let s0 = Board::start();
    proof {
        lemma_start_board(s0);
    }
    let res = replay(moves.as_slice());
    match res {
        Ok((b, hist)) => {
            proof {
                lemma_played_wf(start_board(), moves@, moves@.len() as int);
                assert(moves_of(hist@) =~= moves@);
            }
            (b, hist)
        },
        Err(_) => {
            proof {
                assert(false);
            }
            (Board::start(), Vec::new())
        },
    }
}

// ---------------------------------------------------------------------------
// Reviewing a move
// ---------------------------------------------------------------------------

/// The review of one of red's moves.
#[derive(Debug)]
pub struct Review {
    pub turn: usize,
    pub notation: String,
    /// Points lost against the engine's best move (never negative).
    pub loss: i32,
    /// Description of the engine's best move.
    pub best: String,
    pub best_reason: String,
    /// The engine's score of the move actually played.
    pub score: i32,
    pub gives_check: bool,
}

/// `c` describes the engine's best move of `b` at `depth` (the first one in search order
/// among equally good moves), scored with its exact value.
pub open spec fn best_candidate(b: Board, depth: int, c: Candidate) -> bool {
    &&& cand_ok(b, c)
    &&& c.score == move_value(b, c.mv, depth)
    &&& forall|m: Move| #[trigger] b.legal_spec(m) ==> move_value(b, m, depth) <= c.score
    &&& first_best(b, depth, c.mv)
}

/// What reviewing `actual` on `b` gives: the exact search value of the move played, the
/// engine's best move with its description and reason, and the points lost against it
/// (the best move's value minus the played move's, never negative).
pub open spec fn review_post(b: Board, actual: Move, turn: usize, depth: int, res: Result<Review, String>) -> bool {
    &&& !has_legal(b) ==> (res matches Err(e) && e@ == "该局面无棋可走，无需复盘"@)
    &&& has_legal(b) && !b.legal_spec(actual) ==> (res matches Err(e) && e@ == "该着法不在候选中"@)
    &&& b.legal_spec(actual) ==> (res matches Ok(r) && {
        &&& r.turn == turn
        &&& r.notation@ == notation_spec(b, actual)
        &&& r.gives_check == crate::engine::gives_check_spec(b, actual)
        &&& r.score == move_value(b, actual, depth)
        &&& exists|c: Candidate| #[trigger] best_candidate(b, depth, c)
            && r.score <= c.score
            && r.loss == c.score - r.score
            && r.best@ == describe_spec(c)
            && r.best_reason@ == reason_spec(b, c)
    })
}

/// Compares `actual` with the engine's best move on `b`.
fn review_at(b: &Board, actual_mv: Move, turn: usize, depth: i32) -> (res: Result<Review, String>)
    requires
        b.wf(),
        has_legal(*b) ==> i32::MIN < depth <= MATE,
    ensures
        review_post(*b, actual_mv, turn, depth as int, res),
{
    let analysis = analyze(b, depth);
    let best = match &analysis.best {
        Some(c) => c.copied(),
        None => {
            return Err(String::from_str("该局面无棋可走，无需复盘"));
        },
    };
    let mut k: usize = 0;
    while k < analysis.candidates.len() && analysis.candidates[k].mv != actual_mv
        invariant
            0 <= k <= analysis.candidates@.len(),
            forall|j: int| 0 <= j < k ==> (#[trigger] analysis.candidates@[j]).mv != actual_mv,
        decreases analysis.candidates@.len() - k,
    {
        k = k + 1;
    }
    if k == analysis.candidates.len() {
        proof {
            if b.legal_spec(actual_mv) {
                let i = choose|i: int| 0 <= i < analysis.candidates@.len() && #[trigger] analysis.candidates@[i].mv == actual_mv;
            }
        }
        return Err(String::from_str("该着法不在候选中"));
    }
    let actual = analysis.candidates[k].copied();
    proof {
        reveal(cand_ok);
        assert(cand_ok(*b, analysis.candidates@[k as int]));
        assert(cand_ok(*b, analysis.candidates@[0]));
        assert(actual.score <= best.score);
        assert(b.legal_spec(best.mv));
        crate::engine::lemma_nm_bound(b.make_spec(actual_mv), depth - 1, 1);
        crate::engine::lemma_nm_bound(b.make_spec(best.mv), depth - 1, 1);
        assert(actual.score == move_value(*b, actual_mv, depth as int));
        assert(best.score == move_value(*b, best.mv, depth as int));
    }
    let diff = best.score as i64 - actual.score as i64;
    let loss: i32 = if diff > 0 {
        diff as i32
    } else {
        0
    };
    let best_text = describe_candidate(&best);
    let best_reason = reason_of(b, &best);
    let r = Review {
        turn,
        notation: actual.notation,
        loss,
        best: best_text,
        best_reason,
        score: actual.score,
        gives_check: actual.gives_check,
    };
    proof {
        assert(best_candidate(*b, depth as int, best));
    }
    Ok(r)
}

/// Reviews red's move number `turn` (counting from 0; it is entry `2 * turn` of the move
/// list): analyses the position before it and compares the move played with the best.
/// Fails with "超出着法范围" when there is no such move and with the replay error when an
/// earlier move is illegal; otherwise as `review_post` says. Only a search is bounded in
/// depth, as for `analyze`.
pub fn review_turn(moves: &[Move], turn: usize, depth: i32) -> (res: Result<Review, String>)
    requires
        turn * 2 <= usize::MAX,
        (turn * 2 < moves@.len() && (played(start_board(), moves@, turn * 2) matches Some(before) && has_legal(before)))
            ==> i32::MIN < depth <= MATE,
    ensures
        ({
            let idx = turn * 2;
            let prefix = moves@.take(idx as int);
            let before = played(start_board(), moves@, idx as int);
            &&& idx >= moves@.len() ==> (res matches Err(e) && e@ == "超出着法范围"@)
            &&& idx < moves@.len() && before is None ==> (res matches Err(e) && e@ == illegal_text(prefix[first_illegal(start_board(), prefix, idx as int)]))
            &&& idx < moves@.len() && before is Some ==> review_post(before->Some_0, moves@[idx as int], turn, depth as int, res)
        }),
{
    let idx = turn * 2;
    if idx >= moves.len() {
        return Err(String::from_str("超出着法范围"));
    }
    let prefix = vstd::slice::slice_subrange(moves, 0, idx);
    proof {
        assert(prefix@ =~= moves@.take(idx as int));
        lemma_played_prefix(start_board(), prefix@, moves@, idx as int);
    }
    let (board, _) = match replay(prefix) {
        Ok(x) => x,
        Err(e) => {
            return Err(e);
        },
    };
    let s0 = Board::start();
    proof {
        lemma_start_board(s0);
        lemma_played_wf(start_board(), moves@, idx as int);
    }
    review_at(&board, moves[idx], turn, depth)
}

/// `played` on the first `n` moves depends only on those moves.
pub proof fn lemma_played_prefix(start: Board, a: Seq<Move>, b: Seq<Move>, n: int)
    requires
        0 <= n <= a.len(),
        n <= b.len(),
        forall|i: int| 0 <= i < n ==> a[i] == b[i],
    ensures
        played(start, a, n) == played(start, b, n),
    decreases n,
{
    if n > 0 {
        lemma_played_prefix(start, a, b, n - 1);
    }
}

/// If the first `n` moves play out, so do the first `i` for `i <= n`.
pub proof fn lemma_played_some_before(start: Board, moves: Seq<Move>, i: int, n: int)
    requires
        0 <= i <= n,
        played(start, moves, n) is Some,
    ensures
        played(start, moves, i) is Some,
    decreases n - i,
{
    if i < n {
        if played(start, moves, i) is None {
            lemma_played_none_stays(start, moves, i, n);
        }
    }
}


// ---------------------------------------------------------------------------
// Laws
// ---------------------------------------------------------------------------

/// The game is over exactly when the side to move has no legal move. The message then
/// opens with "绝杀" (checkmate) when that side is in check and with "困毙" (stalemate)
/// when it is not, and names the other side as the winner.
pub proof fn law_game_over_message(b: Board)
    ensures
        game_over_spec(b) is Some <==> !has_legal(b),
        game_over_spec(b) matches Some(t) ==> {
            &&& t.len() >= 5
            &&& (t.take(2) == "绝杀"@ <==> b.in_check_spec(b.red_turn))
            &&& (t.take(2) == "困毙"@ <==> !b.in_check_spec(b.red_turn))
            &&& t.subrange(3, 5) == (if b.red_turn {
                "黑方"@
            } else {
                "红方"@
            })
        },
{
    reveal_strlit("绝杀");
    reveal_strlit("困毙");
    reveal_strlit("！");
    reveal_strlit("红方");
    reveal_strlit("黑方");
    reveal_strlit("获胜（");
    reveal_strlit("无棋可走）");
    if let Some(t) = game_over_spec(b) {
        let head = if b.in_check_spec(b.red_turn) {
            "绝杀"@
        } else {
            "困毙"@
        };
        let rest = "！"@ + side_text(!b.red_turn) + "获胜（"@ + side_text(b.red_turn) + "无棋可走）"@;
        assert(t == head + rest);
        assert(t.take(2) =~= head);
        assert(t.subrange(3, 5) =~= side_text(!b.red_turn));
        assert("绝杀"@[0] != "困毙"@[0]);
    }
}

/// A game's position depends only on its moves: two consistent games with the same
/// move list stand on the same board.
pub proof fn law_board_follows_moves(g1: GameState, g2: GameState)
    requires
        g1.consistent(),
        g2.consistent(),
        moves_of(g1.history@) == moves_of(g2.history@),
    ensures
        g1.board == g2.board,
{
    assert(moves_of(g1.history@).len() == g1.history@.len());
    assert(moves_of(g2.history@).len() == g2.history@.len());
}

/// Taking back the student's move and the engine's reply gives back the position
/// (and the move list) from before the two moves.
pub proof fn law_undo_restores(before: GameState, after_pair: GameState, undone: GameState, a: Move, r: Move)
    requires
        before.consistent(),
        after_pair.consistent(),
        undone.consistent(),
        moves_of(after_pair.history@) == moves_of(before.history@).push(a).push(r),
        moves_of(undone.history@) == moves_of(after_pair.history@).take(after_pair.history@.len() - 2),
    ensures
        undone.board == before.board,
        moves_of(undone.history@) == moves_of(before.history@),
{
    let m0 = moves_of(before.history@);
    let m2 = moves_of(after_pair.history@);
    assert(m2.len() == after_pair.history@.len());
    assert(m2.take(after_pair.history@.len() - 2) =~= m0);
    law_board_follows_moves(undone, before);
}

/// Replaying the move list of a game gives back its position and its moves.
pub proof fn law_replay_restores_game(g: GameState, res: Result<(Board, Vec<HistEntry>), String>)
    requires
        g.consistent(),
        replay_post(moves_of(g.history@), res),
    ensures
        res matches Ok((b, hist)) && b == g.board && moves_of(hist@) == moves_of(g.history@),
{
    let moves = moves_of(g.history@);
    assert(moves.len() == g.history@.len());
    match res {
        Ok((b, hist)) => {
            assert(moves_of(hist@) =~= moves);
        },
        Err(_) => {},
    }
}

/// A reviewed move loses nothing exactly when no legal move is worth more than it; the
/// loss is otherwise what the best move is worth more.
pub proof fn law_best_move_loses_nothing(b: Board, actual: Move, turn: usize, depth: int, res: Result<Review, String>)
    requires
        review_post(b, actual, turn, depth, res),
        b.legal_spec(actual),
    ensures
        res matches Ok(r) && (r.loss == 0 <==> forall|m: Move| #[trigger] b.legal_spec(m) ==> move_value(b, m, depth) <= move_value(b, actual, depth)),
{
    if let Ok(r) = res {
        let c = choose|c: Candidate| #[trigger] best_candidate(b, depth, c)
            && r.score <= c.score
            && r.loss == c.score - r.score
            && r.best@ == describe_spec(c)
            && r.best_reason@ == reason_spec(b, c);
        reveal(cand_ok);
        assert(b.legal_spec(c.mv));
        if r.loss != 0 {
            assert(move_value(b, c.mv, depth) > move_value(b, actual, depth));
        }
    }
}

} // verus!
