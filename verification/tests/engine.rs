use xqcore::engine::{analyze, analyze_piece, default_depth, eval, piece_value, MATE};
use xqcore::xiangqi::{Board, Move};

fn board(fen: &str) -> Board {
    Board::from_fen(fen).expect("valid FEN")
}

/// The same position seen from the other side: turned half a turn, colours swapped.
fn mirror(b: &Board) -> Board {
    let mut m = *b;
    for s in 0..90 {
        m.cells[s] = -b.cells[89 - s];
    }
    m.red_turn = !b.red_turn;
    m
}

#[test]
fn piece_values_by_kind() {
    assert_eq!(piece_value(1), 100000);
    assert_eq!(piece_value(-1), 100000);
    assert_eq!(piece_value(5), 600);
    assert_eq!(piece_value(-5), 600);
    assert_eq!(piece_value(4), 270);
    assert_eq!(piece_value(-4), 270);
    assert_eq!(piece_value(6), 300);
    assert_eq!(piece_value(2), 120);
    assert_eq!(piece_value(-3), 120);
    assert_eq!(piece_value(7), 60);
    assert_eq!(piece_value(-7), 60);
    assert_eq!(piece_value(0), 0);
}

#[test]
fn initial_position_is_level() {
    assert_eq!(eval(&Board::start()), 0);
}

#[test]
fn a_missing_black_chariot_is_worth_600() {
    let b = board("rnbakabn1/9/1c5c1/p1p1p1p1p/9/9/P1P1P1P1P/1C5C1/9/RNBAKABNR w");
    assert_eq!(eval(&b), 600);
}

#[test]
fn pawn_values_grow_across_the_river() {
    assert_eq!(eval(&board("4k4/9/9/9/9/9/P8/9/9/3K5 w")), 78);
    assert_eq!(eval(&board("4k4/9/9/9/4P4/9/9/9/9/3K5 w")), 128);
    assert_eq!(eval(&board("4k4/9/9/9/9/4p4/9/9/9/3K5 w")), -128);
}

#[test]
fn placement_bonuses() {
    assert_eq!(eval(&board("4k4/9/9/9/9/4R4/9/9/9/3K5 w")), 606);
    assert_eq!(eval(&board("4k4/9/9/9/9/R8/9/9/9/3K5 w")), 600);
    assert_eq!(eval(&board("4k4/9/9/9/9/N8/9/9/9/3K5 w")), 262);
    assert_eq!(eval(&board("4k4/9/9/9/9/4N4/9/9/9/3K5 w")), 280);
    assert_eq!(eval(&board("4k4/9/9/9/9/1N7/9/9/9/3K5 w")), 270);
    assert_eq!(eval(&board("4k4/9/9/9/9/4C4/9/9/9/3K5 w")), 310);
    assert_eq!(eval(&board("4k4/9/9/9/9/9/9/9/4A4/3K5 w")), 120);
    assert_eq!(eval(&board("4k4/9/9/9/9/9/9/9/9/2BK5 w")), 120);
}

#[test]
fn evaluation_treats_both_colours_alike() {
    let mut b = Board::start();
    b.make(Move { from: 70, to: 67 });
    assert_eq!(eval(&b), 10);
    let m = mirror(&b);
    assert_eq!(eval(&m), -10);
    assert_eq!(eval(&mirror(&m)), 10);
    let odd = board("4k4/9/9/9/4P4/9/9/2n6/9/3K1R3 w");
    assert_eq!(eval(&mirror(&odd)), -eval(&odd));
    assert_eq!(eval(&odd), 128 - 270 + 600);
}

#[test]
fn analysis_takes_the_hanging_chariot() {
    let b = board("4k4/9/9/9/9/r8/9/9/9/R2K5 w");
    let a = analyze(&b, 1);
    let best = a.best.clone().expect("a best move");
    assert_eq!(best.mv, Move { from: 81, to: 45 });
    assert_eq!(best.score, 600);
    assert_eq!(best.captured, -5);
    assert!(!best.gives_check);
    assert_eq!(best.notation, "车九进四");
    assert_eq!(a.candidates.len(), b.legal_moves().len());
    assert_eq!(a.candidates[0].mv, best.mv);
    for w in a.candidates.windows(2) {
        assert!(w[0].score >= w[1].score);
    }
}

#[test]
fn analysis_lists_every_legal_move_once() {
    let b = Board::start();
    let a = analyze(&b, 1);
    let legal = b.legal_moves();
    assert_eq!(a.candidates.len(), 44);
    for m in &legal {
        assert_eq!(a.candidates.iter().filter(|c| c.mv == *m).count(), 1);
    }
    let best = a.best.expect("a best move");
    assert_eq!(best.mv, a.candidates[0].mv);
    for c in &a.candidates {
        assert!(c.score <= best.score);
        assert_eq!(c.captured, b.cells[c.mv.to]);
        assert_eq!(c.notation, b.move_notation(c.mv));
        assert_eq!(c.gives_check, b.gives_check(c.mv));
    }
}

#[test]
fn analysis_of_a_mated_side_is_empty() {
    let b = board("4k3R/R8/9/9/9/9/9/9/9/3K5 b");
    let a = analyze(&b, 2);
    assert!(a.best.is_none());
    assert!(a.candidates.is_empty());
}

#[test]
fn analysis_sees_mate_in_one() {
    // The chariot on the second row shuts the king in; the other one mates along the top row.
    let b = board("4k4/R8/9/9/9/9/9/9/9/3K4R w");
    let a = analyze(&b, 2);
    let best = a.best.expect("a best move");
    assert_eq!(best.score, MATE - 1);
    let mut after = b;
    after.make(best.mv);
    assert!(after.legal_moves().is_empty());
}

#[test]
fn piece_analysis_scores_each_target_exactly() {
    let b = board("4k4/9/9/9/9/r8/9/9/9/R2K5 w");
    let a = analyze_piece(&b, 81, 1);
    let targets = b.legal_targets(81);
    assert_eq!(a.candidates.len(), targets.len());
    let best = a.best.expect("a best move");
    assert_eq!(best.mv, Move { from: 81, to: 45 });
    assert_eq!(best.score, 600);
    for c in &a.candidates {
        assert_eq!(c.mv.from, 81);
        assert!(c.score <= 600);
    }
    let sideways = a.candidates.iter().find(|c| c.mv.to == 82).expect("a sideways move");
    assert_eq!(sideways.score, 0);
}

#[test]
fn piece_analysis_of_an_empty_square_is_empty() {
    let b = Board::start();
    let a = analyze_piece(&b, 40, 1);
    assert!(a.best.is_none());
    assert!(a.candidates.is_empty());
}

#[test]
fn search_depth_by_build() {
    assert_eq!(default_depth(true), 3);
    assert_eq!(default_depth(false), 4);
}

#[test]
fn every_candidate_score_is_exact() {
    let mut b = Board::start();
    b.make(Move { from: 70, to: 67 });
    b.make(Move { from: 19, to: 22 });
    let a = analyze(&b, 2);
    for c in &a.candidates {
        let per_piece = analyze_piece(&b, c.mv.from, 2);
        let same = per_piece.candidates.iter().find(|d| d.mv == c.mv).expect("the same move");
        assert_eq!(c.score, same.score);
    }
}

#[test]
fn evaluation_ignores_left_and_right() {
    let b = board("4k4/9/9/9/4P4/9/9/2n6/9/3K1R3 w");
    let mut m = b;
    for r in 0..10 {
        for c in 0..9 {
            m.cells[r * 9 + c] = b.cells[r * 9 + 8 - c];
        }
    }
    assert_eq!(eval(&m), eval(&b));
    assert_eq!(eval(&m), 458);
}

#[test]
fn evaluation_upside_down_with_colours_swapped() {
    let b = board("4k4/9/9/9/4P4/9/9/2n6/9/3K1R3 w");
    let mut m = b;
    for r in 0..10 {
        for c in 0..9 {
            m.cells[r * 9 + c] = -b.cells[(9 - r) * 9 + c];
        }
    }
    m.red_turn = !b.red_turn;
    assert_eq!(eval(&m), -eval(&b));
}

#[test]
fn analysis_lists_each_legal_move_once() {
    for fen in [
        "rnbakabnr/9/1c5c1/p1p1p1p1p/9/9/P1P1P1P1P/1C5C1/9/RNBAKABNR w",
        "3akab2/9/4b4/p3p3p/2n6/6R2/P3c3P/4B4/4A4/2BAK4 b",
    ] {
        let b = board(fen);
        let a = analyze(&b, 1);
        let mut listed: Vec<(usize, usize)> = a.candidates.iter().map(|c| (c.mv.from, c.mv.to)).collect();
        let mut legal: Vec<(usize, usize)> = b.legal_moves().iter().map(|m| (m.from, m.to)).collect();
        listed.sort();
        legal.sort();
        assert_eq!(listed, legal);
    }
}

#[test]
fn piece_analysis_agrees_with_the_position_analysis() {
    let b = Board::start();
    let a = analyze(&b, 1);
    for from in [64usize, 70, 81, 82, 54, 85] {
        let p = analyze_piece(&b, from, 1);
        let mut listed: Vec<usize> = p.candidates.iter().map(|c| c.mv.to).collect();
        let mut targets = b.legal_targets(from);
        listed.sort();
        targets.sort();
        assert_eq!(listed, targets);
        for c in &p.candidates {
            let same = a.candidates.iter().find(|d| d.mv == c.mv).expect("listed in the position analysis");
            assert_eq!(same.score, c.score);
        }
        if let Some(pb) = &p.best {
            assert!(pb.score <= a.best.as_ref().expect("a best move").score);
        }
    }
}
