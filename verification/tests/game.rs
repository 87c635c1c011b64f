use xqcore::game::{game_over_text, is_legal, replay, review_turn, GameState};
use xqcore::xiangqi::{Board, Move};

fn board(fen: &str) -> Board {
    Board::from_fen(fen).expect("valid FEN")
}

fn mv(from: usize, to: usize) -> Move {
    Move { from, to }
}

#[test]
fn replay_of_no_moves_is_the_start() {
    let (b, hist) = replay(&[]).expect("replays");
    assert_eq!(b.cells, Board::start().cells);
    assert!(b.red_turn);
    assert!(hist.is_empty());
}

#[test]
fn replay_records_notation_and_captures() {
    let moves = [mv(70, 67), mv(19, 22), mv(67, 31)];
    let (b, hist) = replay(&moves).expect("replays");
    assert_eq!(hist.len(), 3);
    assert_eq!(hist[0], (mv(70, 67), "炮二平五".to_string(), 0));
    assert_eq!(hist[1], (mv(19, 22), "砲2平5".to_string(), 0));
    assert_eq!(hist[2], (mv(67, 31), "炮五进四".to_string(), -7));
    let mut expected = Board::start();
    for m in moves {
        expected.make(m);
    }
    assert_eq!(b.cells, expected.cells);
    assert!(!b.red_turn);
}

#[test]
fn replay_names_the_first_illegal_move() {
    assert_eq!(replay(&[mv(0, 0)]).unwrap_err(), "非法走法：0→0");
    assert_eq!(replay(&[mv(70, 67), mv(70, 67)]).unwrap_err(), "非法走法：70→67");
    assert_eq!(replay(&[mv(70, 67), mv(19, 22), mv(89, 0), mv(1, 1)]).unwrap_err(), "非法走法：89→0");
}

#[test]
fn legality_checks() {
    let b = Board::start();
    assert!(is_legal(&b, mv(70, 67)));
    assert!(!is_legal(&b, mv(19, 22)));
    assert!(!is_legal(&b, mv(85, 85)));
    assert!(!is_legal(&b, mv(81, 54)));
    assert!(is_legal(&b, mv(81, 63)));
}

#[test]
fn checkmate_ends_the_game() {
    assert_eq!(
        game_over_text(&board("4k3R/R8/9/9/9/9/9/9/9/3K5 b")),
        Some("绝杀！红方获胜（黑方无棋可走）".to_string())
    );
}

#[test]
fn stalemate_ends_the_game() {
    assert_eq!(
        game_over_text(&board("4k4/R8/9/9/9/3R1R3/9/9/9/3K5 b")),
        Some("困毙！红方获胜（黑方无棋可走）".to_string())
    );
    assert_eq!(
        game_over_text(&board("3k5/9/9/9/9/9/9/9/r8/4K4 w")),
        None
    );
    assert_eq!(
        game_over_text(&board("3k5/9/9/9/9/5r3/9/9/r8/4K4 w")),
        Some("困毙！黑方获胜（红方无棋可走）".to_string())
    );
}

#[test]
fn the_initial_position_is_not_over() {
    assert_eq!(game_over_text(&Board::start()), None);
}

#[test]
fn a_new_game() {
    let g = GameState::new();
    assert_eq!(g.board.cells, Board::start().cells);
    assert!(g.board.red_turn);
    assert!(g.history.is_empty());
    assert!(g.game_over.is_none());
}

#[test]
fn playing_and_taking_back() {
    let mut g = GameState::new();
    assert_eq!(g.apply_move(mv(70, 67)), Ok(()));
    assert_eq!(g.history.len(), 1);
    assert_eq!(g.history[0].1, "炮二平五");
    assert!(!g.board.red_turn);
    let reply = g.engine_reply(1).expect("a reply");
    assert!(reply.from < 90 && reply.to < 90);
    assert_eq!(g.history.len(), 2);
    assert_eq!(g.history[1].0, reply);
    assert!(g.board.red_turn);
    g.undo();
    assert!(g.history.is_empty());
    assert_eq!(g.board.cells, Board::start().cells);
    assert!(g.board.red_turn);
    g.undo();
    assert!(g.history.is_empty());
}

#[test]
fn undo_of_a_single_move() {
    let mut g = GameState::new();
    g.apply_move(mv(70, 67)).unwrap();
    g.undo();
    assert!(g.history.is_empty());
    assert_eq!(g.board.cells, Board::start().cells);
    assert!(g.board.red_turn);
}

#[test]
fn undo_keeps_earlier_moves() {
    let mut g = GameState::new();
    g.apply_move(mv(70, 67)).unwrap();
    g.apply_move(mv(19, 22)).unwrap();
    g.apply_move(mv(88, 69)).unwrap();
    g.apply_move(mv(1, 20)).unwrap();
    g.undo();
    assert_eq!(g.history.len(), 2);
    let (b, _) = replay(&[mv(70, 67), mv(19, 22)]).unwrap();
    assert_eq!(g.board.cells, b.cells);
    assert!(g.board.red_turn);
}

#[test]
fn illegal_moves_are_refused() {
    let mut g = GameState::new();
    assert_eq!(g.apply_move(mv(19, 22)), Err("非法走法".to_string()));
    assert!(g.history.is_empty());
    assert_eq!(g.board.cells, Board::start().cells);
}

#[test]
fn a_finished_game_refuses_moves() {
    let mut g = GameState::new();
    g.game_over = Some("绝杀！黑方获胜（红方无棋可走）".to_string());
    assert_eq!(g.apply_move(mv(70, 67)), Err("对局已结束，请开始新对局".to_string()));
    assert_eq!(g.engine_reply(1), Err("对局已结束".to_string()));
    assert!(g.history.is_empty());
    g.reset();
    assert!(g.game_over.is_none());
    assert_eq!(g.apply_move(mv(70, 67)), Ok(()));
}

#[test]
fn mate_marks_the_game_over() {
    let mut g = GameState::new();
    g.board = board("4k4/R8/9/9/9/9/9/9/9/3K4R w");
    g.apply_move(mv(89, 8)).unwrap();
    assert_eq!(g.game_over, Some("绝杀！红方获胜（黑方无棋可走）".to_string()));
    assert_eq!(g.engine_reply(2), Err("对局已结束".to_string()));
}

#[test]
fn no_reply_without_legal_moves() {
    let mut g = GameState::new();
    g.board = board("4k3R/R8/9/9/9/9/9/9/9/3K5 b");
    assert_eq!(g.engine_reply(1), Err("无棋可走".to_string()));
}

#[test]
fn reset_starts_over() {
    let mut g = GameState::new();
    g.apply_move(mv(70, 67)).unwrap();
    g.reset();
    assert!(g.history.is_empty());
    assert_eq!(g.board.cells, Board::start().cells);
    assert!(g.game_over.is_none());
}

#[test]
fn review_out_of_range() {
    assert_eq!(review_turn(&[], 0, 1).unwrap_err(), "超出着法范围");
    assert_eq!(review_turn(&[mv(70, 67), mv(19, 22)], 1, 1).unwrap_err(), "超出着法范围");
}

#[test]
fn review_of_an_illegal_move() {
    assert_eq!(review_turn(&[mv(0, 0)], 0, 1).unwrap_err(), "该着法不在候选中");
    assert_eq!(review_turn(&[mv(0, 0), mv(19, 22), mv(70, 67)], 1, 1).unwrap_err(), "非法走法：0→0");
}

#[test]
fn review_of_the_engine_choice_loses_nothing() {
    let best = xqcore::engine::analyze(&Board::start(), 1).best.unwrap();
    let r = review_turn(&[best.mv], 0, 1).expect("a review");
    assert_eq!(r.loss, 0);
    assert_eq!(r.score, best.score);
    assert_eq!(r.notation, best.notation);
}

#[test]
fn review_of_an_opening_move() {
    let r = review_turn(&[mv(70, 67), mv(19, 22)], 0, 1).expect("a review");
    assert_eq!(r.turn, 0);
    assert_eq!(r.notation, "炮二平五");
    assert!(r.loss >= 0);
    assert!(!r.gives_check);
    let a = xqcore::engine::analyze(&Board::start(), 1);
    let best = a.best.unwrap();
    assert_eq!(r.best, xqcore::coach::describe_candidate(&best));
    assert_eq!(r.best_reason, xqcore::coach::reason_of(&Board::start(), &best));
    assert_eq!(r.loss, (best.score - r.score).max(0));
}

#[test]
fn review_of_the_second_red_move() {
    let moves = [mv(70, 67), mv(19, 22), mv(88, 69)];
    let r = review_turn(&moves, 1, 1).expect("a review");
    assert_eq!(r.turn, 1);
    assert_eq!(r.notation, "马二进三");
    assert!(r.loss >= 0);
}

#[test]
fn review_reports_the_exact_loss() {
    let a = xqcore::engine::analyze(&Board::start(), 1);
    let best = a.best.clone().unwrap();
    for c in a.candidates.iter().take(10) {
        let r = review_turn(&[c.mv], 0, 1).expect("a review");
        assert_eq!(r.score, c.score);
        assert_eq!(r.loss, best.score - c.score);
        assert!(r.loss >= 0);
    }
}
