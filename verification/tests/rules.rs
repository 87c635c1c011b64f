use xqcore::fen::start_cell_value;
use xqcore::xiangqi::{col, on_board, row, sq, sq_name, Board, Move, piece_char, START_FEN};

fn board(fen: &str) -> Board {
    Board::from_fen(fen).expect("valid FEN")
}

#[test]
fn start_parses_to_the_initial_position() {
    let parsed = board(START_FEN);
    let start = Board::start();
    assert_eq!(parsed.cells, start.cells);
    assert_eq!(parsed.red_turn, start.red_turn);
    assert!(start.red_turn);
    assert_eq!(start.cells[0], -5);
    assert_eq!(start.cells[4], -1);
    assert_eq!(start.cells[85], 1);
    assert_eq!(start.cells[70], 6);
    for s in 0..90 {
        assert_eq!(start.cells[s], start_cell_value(s));
    }
}

#[test]
fn to_fen_writes_the_start_text() {
    assert_eq!(Board::start().to_fen(), START_FEN);
}

#[test]
fn fen_round_trip_after_a_move() {
    let mut b = Board::start();
    b.make(Move { from: 70, to: 67 });
    let text = b.to_fen();
    assert_eq!(text, "rnbakabnr/9/1c5c1/p1p1p1p1p/9/9/P1P1P1P1P/1C2C4/9/RNBAKABNR b");
    let back = board(&text);
    assert_eq!(back.cells, b.cells);
    assert_eq!(back.red_turn, b.red_turn);
}

#[test]
fn from_fen_rejects_bad_text() {
    assert!(Board::from_fen("").is_none());
    assert!(Board::from_fen("   ").is_none());
    assert!(Board::from_fen("10").is_none());
    assert!(Board::from_fen("99").is_none());
    assert!(Board::from_fen("8").is_none());
    assert!(Board::from_fen("rnbakabnrr").is_none());
    assert!(Board::from_fen("x8").is_none());
    assert!(Board::from_fen("9/9/9/9/9/9/9/9/9/9/9").is_none());
}

#[test]
fn from_fen_defaults() {
    let b = board("9");
    assert!(b.red_turn);
    assert!(b.cells.iter().all(|&p| p == 0));
    let b = board("4k4 b");
    assert!(!b.red_turn);
    assert_eq!(b.cells[4], -1);
    let b = board("4K4\tx");
    assert!(b.red_turn);
    assert_eq!(b.cells[4], 1);
}

#[test]
fn coordinates() {
    assert_eq!(row(31), 3);
    assert_eq!(col(31), 4);
    assert_eq!(sq(3, 4), 31);
    assert!(on_board(9, 8));
    assert!(!on_board(10, 0));
    assert!(!on_board(0, -1));
    assert_eq!(sq_name(31), "r3c4");
}

#[test]
fn at_and_sentinel() {
    let b = Board::start();
    assert_eq!(b.at(0, 0), -5);
    assert_eq!(b.at(-1, 0), i8::MAX);
    assert_eq!(b.at(0, 9), i8::MAX);
}

#[test]
fn initial_position_has_44_legal_moves() {
    let b = Board::start();
    assert_eq!(b.legal_moves().len(), 44);
}

#[test]
fn cannon_targets_in_the_initial_position() {
    let b = Board::start();
    let t = b.legal_targets(70);
    assert_eq!(t, vec![79, 61, 52, 43, 34, 7, 71, 69, 68, 67, 66, 65]);
    assert!(b.legal_targets(1).is_empty());
    assert!(b.legal_targets(40).is_empty());
}

#[test]
fn make_returns_the_capture_and_passes_the_turn() {
    let mut b = Board::start();
    let cap = b.make(Move { from: 70, to: 7 });
    assert_eq!(cap, -4);
    assert_eq!(b.cells[7], 6);
    assert_eq!(b.cells[70], 0);
    assert!(!b.red_turn);
}

#[test]
fn attacks_follow_piece_rules() {
    let b = Board::start();
    assert!(b.attacks(70, 7));
    assert!(b.attacks(70, 16));
    assert!(!b.attacks(70, 25));
    assert!(b.attacks(82, 65));
    assert!(!b.attacks(82, 73));
    assert!(b.is_attacked(7, true));
    assert!(!b.in_check(true));
    assert!(!b.in_check(false));
    assert_eq!(b.king_sq(true), Some(85));
    assert_eq!(b.king_sq(false), Some(4));
}

#[test]
fn facing_kings_attack_each_other() {
    let b = board("4k4/9/9/9/9/9/9/9/9/4K4 w");
    assert!(b.attacks(85, 4));
    assert!(b.in_check(false));
    assert!(b.legal_moves().contains(&Move { from: 85, to: 4 }));
    assert!(!b.attacks(85, 40));
    assert!(!b.attacks(85, 85));
}

#[test]
fn a_king_reaches_up_its_file_only_the_enemy_king() {
    let b = board("3k5/9/9/9/9/9/9/9/9/4K4 w");
    assert!(!b.attacks(85, 67));
    assert!(b.attacks(85, 76));
    assert!(!b.attacks(85, 4));
    let own = board("4k4/9/9/9/9/9/9/9/9/4K4 w");
    let mut two = own;
    two.cells[4] = 1;
    assert!(!two.attacks(85, 4));
}

#[test]
fn a_king_without_escape_is_mated() {
    let b = board("4k3R/R8/9/9/9/9/9/9/9/3K5 b");
    assert!(b.in_check(false));
    assert!(b.legal_moves().is_empty());
}

#[test]
fn gives_check_after_the_move() {
    let b = board("4k4/9/9/9/9/9/9/9/R8/3K5 w");
    assert!(b.gives_check(Move { from: 72, to: 0 }));
    assert!(!b.gives_check(Move { from: 72, to: 73 }));
}

#[test]
fn notation_examples() {
    let b = Board::start();
    assert_eq!(b.move_notation(Move { from: 70, to: 67 }), "炮二平五");
    assert_eq!(b.move_notation(Move { from: 82, to: 65 }), "马八进七");
    assert_eq!(b.move_notation(Move { from: 58, to: 49 }), "兵五进一");
    assert_eq!(b.move_notation(Move { from: 81, to: 72 }), "车九进一");
    assert_eq!(b.move_notation(Move { from: 1, to: 20 }), "马2进3");
    assert_eq!(b.move_notation(Move { from: 40, to: 41 }), "");
}

#[test]
fn notation_front_and_back() {
    let b = board("4k4/9/9/9/9/4R4/9/4R4/9/3K5 w");
    assert_eq!(b.move_notation(Move { from: 49, to: 40 }), "前车进一");
    assert_eq!(b.move_notation(Move { from: 67, to: 66 }), "后车平六");
}

#[test]
fn piece_names() {
    assert_eq!(piece_char(1), "帅");
    assert_eq!(piece_char(-6), "砲");
    assert_eq!(piece_char(-7), "卒");
    assert_eq!(piece_char(9), "？");
}

#[test]
fn legal_moves_keep_the_king_safe_and_pass_the_turn() {
    let mut b = Board::start();
    b.make(Move { from: 70, to: 67 });
    b.make(Move { from: 19, to: 22 });
    b.make(Move { from: 67, to: 31 });
    // Black is in check from the cannon; every answer must end it.
    assert!(b.in_check(false));
    let moves = b.legal_moves();
    assert!(!moves.is_empty());
    for m in &moves {
        assert!(b.cells[m.from] < 0);
        assert!(b.cells[m.to] >= 0);
        let mut after = b;
        after.make(*m);
        assert!(!after.in_check(false));
        assert!(after.red_turn);
    }
    for w in moves.windows(2) {
        assert!(w[0].from <= w[1].from);
    }
}

#[test]
fn targets_agree_with_legal_moves() {
    let mut b = Board::start();
    b.make(Move { from: 64, to: 28 });
    b.make(Move { from: 1, to: 20 });
    let moves = b.legal_moves();
    for from in 0..90 {
        let mut targets = b.legal_targets(from);
        targets.sort();
        let mut from_moves: Vec<usize> = moves.iter().filter(|m| m.from == from).map(|m| m.to).collect();
        from_moves.sort();
        assert_eq!(targets, from_moves);
    }
}

#[test]
fn no_move_is_listed_twice() {
    let mut b = Board::start();
    b.make(Move { from: 70, to: 67 });
    let moves = b.legal_moves();
    for (i, m) in moves.iter().enumerate() {
        assert!(!moves[i + 1..].contains(m));
    }
    let targets = b.legal_targets(0);
    for (i, t) in targets.iter().enumerate() {
        assert!(!targets[i + 1..].contains(t));
    }
}

#[test]
fn kings_face_to_face_on_neighbouring_squares() {
    // Outside play: the king may step onto the other king, or capture it along the file.
    let b = Board::from_fen("9/9/9/9/9/9/9/4k4/4K4/9 w").unwrap();
    let capture = Move { from: 76, to: 67 };
    assert_eq!(b.legal_moves().iter().filter(|m| **m == capture).count(), 2);
    assert_eq!(b.legal_targets(76).iter().filter(|t| **t == 67).count(), 2);
}

#[test]
fn generation_order_of_horses_and_elephants() {
    let b = Board::start();
    assert_eq!(b.legal_targets(82), vec![65, 63]);
    assert_eq!(b.legal_targets(83), vec![67, 63]);
    assert_eq!(b.legal_targets(54), vec![45]);
    let moves = b.legal_moves();
    assert_eq!(moves[0], Move { from: 54, to: 45 });
    assert_eq!(&moves[moves.len() - 2..], &[Move { from: 89, to: 80 }, Move { from: 89, to: 71 }]);
}

#[test]
fn targets_come_in_the_order_of_the_legal_moves() {
    let positions = [
        START_FEN,
        "r1bakabr1/9/1cn4cn/p1p1p1p1p/9/9/P1P1P1P1P/1CN4CN/9/R1BAKABR1 w",
        "3akab2/9/4b4/p3p3p/2n6/6R2/P3c3P/4B4/4A4/2BAK4 b",
    ];
    for fen in positions {
        let b = board(fen);
        let moves = b.legal_moves();
        for from in 0..90 {
            let from_moves: Vec<usize> = moves.iter().filter(|m| m.from == from).map(|m| m.to).collect();
            assert_eq!(b.legal_targets(from), from_moves, "square {} of {}", from, fen);
        }
    }
}

#[test]
fn canonical_texts_read_back_to_themselves() {
    let texts = [
        START_FEN,
        "4k4/9/9/9/9/9/9/9/9/4K4 b",
        "r1bakabr1/9/1cn4cn/p1p1p1p1p/9/9/P1P1P1P1P/1CN4CN/9/R1BAKABR1 w",
        "3akab2/9/4b4/p3p3p/2n6/6R2/P3c3P/4B4/4A4/2BAK4 b",
        "R3k4/R8/9/9/9/9/9/9/9/3K5 b",
    ];
    for s in texts {
        assert_eq!(board(s).to_fen(), s);
    }
}

#[test]
fn notation_of_a_black_move_past_the_board_edge() {
    let b = board("r3k4/9/9/9/9/9/9/9/9/4K4 b");
    assert_eq!(b.move_notation(Move { from: 0, to: 99 }), "车1进11");
    assert_eq!(b.move_notation(Move { from: 0, to: 9 }), "车1进1");
}
