use xqcore::coach::{
    build_piece_prompt, build_position_prompt, describe_candidate, fallback_piece, fallback_position, join,
    chosen_text, make_piece_ctx, make_position_ctx, own_piece_texts, piece_texts, position_texts, reason_of, PieceCtx, PositionCtx, SYSTEM_PROMPT,
};
use xqcore::settings::reply_text;
use xqcore::engine::{analyze, analyze_piece, Candidate};
use xqcore::xiangqi::{Board, Move};

fn board(fen: &str) -> Board {
    Board::from_fen(fen).expect("valid FEN")
}

fn cand(from: usize, to: usize, score: i32, captured: i8, gives_check: bool, notation: &str) -> Candidate {
    Candidate { mv: Move { from, to }, score, captured, gives_check, notation: notation.to_string() }
}

fn position_ctx(last: Option<&str>, score: i32, alternatives: Vec<(Candidate, i32)>) -> PositionCtx {
    PositionCtx {
        fen: "F".to_string(),
        red_to_move: true,
        last_notation: last.map(|s| s.to_string()),
        last_intent_hint: "这步在调动子力，意图还需观察。".to_string(),
        best: cand(70, 67, score, 0, false, "炮二平五"),
        best_reason: "抢占中路，控制要道".to_string(),
        alternatives,
        score,
    }
}

fn piece_ctx(alternatives: Vec<(Candidate, i32)>) -> PieceCtx {
    PieceCtx {
        fen: "F".to_string(),
        piece: 6,
        from_sq: 70,
        best: cand(70, 67, 30, 0, false, "炮二平五"),
        best_reason: "抢占中路，控制要道".to_string(),
        alternatives,
    }
}

#[test]
fn system_prompt_sets_the_rules() {
    assert!(SYSTEM_PROMPT.starts_with("你是一位耐心的中国象棋教练"));
    assert!(SYSTEM_PROMPT.contains("绝不能推翻引擎结论"));
}

#[test]
fn join_with_separator() {
    let items = vec!["a".to_string(), "bc".to_string(), "d".to_string()];
    assert_eq!(join(&items, "、"), "a、bc、d");
    assert_eq!(join(&Vec::new(), "、"), "");
    assert_eq!(join(&vec!["x".to_string()], "；"), "x");
}

#[test]
fn candidate_descriptions() {
    assert_eq!(describe_candidate(&cand(70, 67, 0, 0, false, "炮二平五")), "炮二平五");
    assert_eq!(describe_candidate(&cand(81, 45, 0, -5, false, "车九进四")), "车九进四（吃掉车）");
    assert_eq!(describe_candidate(&cand(81, 45, 0, 0, true, "车九进四")), "车九进四（叫将）");
    assert_eq!(describe_candidate(&cand(81, 45, 0, -4, true, "车九进四")), "车九进四（吃掉马、叫将）");
    assert_eq!(describe_candidate(&cand(9, 45, 0, 6, false, "车1进4")), "车1进4（吃掉炮）");
}

#[test]
fn reasons_for_captures_and_checks() {
    let b = board("4k4/9/9/9/9/r8/9/9/9/R2K5 w");
    assert_eq!(reason_of(&b, &cand(81, 45, 600, -5, false, "车九进四")), "吃掉对方的车");
    assert_eq!(reason_of(&b, &cand(81, 45, 600, -5, true, "车九进四")), "吃掉对方的车，叫将，抢占先手");
    assert_eq!(reason_of(&b, &cand(81, 82, 0, 0, true, "车九平八")), "叫将，抢占先手");
}

#[test]
fn reasons_for_quiet_moves() {
    let b = Board::start();
    assert_eq!(reason_of(&b, &cand(70, 67, 0, 0, false, "炮二平五")), "抢占中路，控制要道");
    assert_eq!(reason_of(&b, &cand(88, 69, 0, 0, false, "马二进三")), "出动大子，加快出子速度");
    assert_eq!(reason_of(&b, &cand(85, 76, 0, 0, false, "帅五进一")), "调整子力位置，巩固阵型");
    assert_eq!(reason_of(&b, &cand(84, 76, 0, 0, false, "仕六进五")), "抢占中路，控制要道");
    let pawn = board("4k4/9/9/9/9/2P6/9/9/9/3K5 w");
    assert_eq!(reason_of(&pawn, &cand(47, 38, 0, 0, false, "兵七进一")), "子力过河，投入进攻");
    let chariot = board("4k4/9/9/9/9/9/9/9/9/R2K5 w");
    assert_eq!(
        reason_of(&chariot, &cand(81, 36, 0, 0, false, "车九进五")),
        "出动大子，加快出子速度，子力过河，投入进攻"
    );
    let black = board("r3k4/9/9/9/9/9/9/9/9/3K5 b");
    assert_eq!(reason_of(&black, &cand(0, 45, 0, 0, false, "车1进5")), "出动大子，加快出子速度，子力过河，投入进攻");
}

#[test]
fn position_prompt_with_last_move() {
    let ctx = position_ctx(Some("马8进7"), 15, vec![(cand(88, 69, -15, 0, false, "马二进三"), 30)]);
    assert_eq!(
        build_position_prompt(&ctx),
        "当前局面 FEN：F\n轮到红方走棋（学员执红）。\n对方刚走了 马8进7。这步在调动子力，意图还需观察。\n引擎分析结论：最佳走法是 炮二平五，局面评分约 15 分，棋理标签：抢占中路，控制要道。\n其他候选走法及亏损：马二进三 亏约 30 分。\n请给学员讲清楚：1) 对方上一步的意图；2) 为什么 炮二平五 是当前最佳；3) 哪些走法是坑、坑在哪。"
    );
}

#[test]
fn position_prompt_at_the_start_without_alternatives() {
    let mut ctx = position_ctx(None, -5, vec![]);
    ctx.red_to_move = false;
    assert_eq!(
        build_position_prompt(&ctx),
        "当前局面 FEN：F\n轮到黑方走棋（学员执红）。\n这是对局开始。\n引擎分析结论：最佳走法是 炮二平五，局面评分约 -5 分，棋理标签：抢占中路，控制要道。\n其他候选走法及亏损：无明显大亏走法。\n请给学员讲清楚：1) 对方上一步的意图；2) 为什么 炮二平五 是当前最佳；3) 哪些走法是坑、坑在哪。"
    );
}

#[test]
fn position_prompt_lists_four_alternatives() {
    let alts = (0..5).map(|i| (cand(0, i, 0, 0, false, &format!("着{}", i)), i as i32 * 10)).collect();
    let text = build_position_prompt(&position_ctx(None, 0, alts));
    assert!(text.contains("其他候选走法及亏损：着0 亏约 0 分；着1 亏约 10 分；着2 亏约 20 分；着3 亏约 30 分。\n"));
    assert!(!text.contains("着4"));
}

#[test]
fn piece_prompt_texts() {
    let ctx = piece_ctx(vec![
        (cand(70, 71, 0, 0, false, "炮二平一"), 30),
        (cand(70, 69, 0, 0, false, "炮二平三"), 20),
        (cand(70, 68, 0, 0, false, "炮二平四"), 10),
        (cand(70, 61, 0, 0, false, "炮二进一"), 5),
    ]);
    assert_eq!(
        build_piece_prompt(&ctx),
        "当前局面 FEN：F\n学员选中了自己的炮（位置：第8行第8列），犹豫要不要走它。\n引擎分析结论：这枚炮的最佳走法是 炮二平五，棋理标签：抢占中路，控制要道。其他走法及亏损：炮二平一 亏约 30 分；炮二平三 亏约 20 分；炮二平四 亏约 10 分。\n请给学员讲清楚：这枚炮现在该怎么走、为什么这么走、其他走法分别有什么问题。"
    );
    let lone = piece_ctx(vec![]);
    assert!(build_piece_prompt(&lone).contains("其他走法及亏损：其余走法差别不大。\n"));
}

#[test]
fn fallback_position_at_the_start() {
    let ctx = position_ctx(
        None,
        0,
        vec![
            (cand(88, 69, 0, 0, false, "马二进三"), 100),
            (cand(60, 51, 0, 0, false, "兵九进一"), 50),
            (cand(62, 53, 0, 0, false, "兵七进一"), 90),
            (cand(64, 55, 0, 0, false, "兵五进一"), 120),
        ],
    );
    assert_eq!(
        fallback_position(&ctx),
        "对局刚开始，轮到你走棋。\n当前局面双方大体均势（引擎评分 0 分）。\n建议走 炮二平五：抢占中路，控制要道（评分约 0 分）。\n注意避开：「马二进三」会亏约 100 分，「兵七进一」会亏约 90 分。\n\n（这是引擎基础提示。在设置里填入 AI 服务 Key，即可获得完整的大白话棋理讲解。）"
    );
}

#[test]
fn fallback_position_score_words() {
    let words = [
        (250, "你明显占优"),
        (200, "你明显占优"),
        (199, "你稍占优"),
        (60, "你稍占优"),
        (59, "双方大体均势"),
        (-59, "双方大体均势"),
        (-60, "你稍处下风"),
        (-199, "你稍处下风"),
        (-200, "你明显被动"),
    ];
    for (score, word) in words {
        let text = fallback_position(&position_ctx(Some("炮8平5"), score, vec![]));
        let expected = format!(
            "对方刚走了 炮8平5。这步在调动子力，意图还需观察。\n当前局面{}（引擎评分 {} 分）。\n建议走 炮二平五：抢占中路，控制要道（评分约 {} 分）。\n\n（这是引擎基础提示。在设置里填入 AI 服务 Key，即可获得完整的大白话棋理讲解。）",
            word, score, score
        );
        assert_eq!(text, expected);
    }
}

#[test]
fn fallback_piece_with_traps() {
    let ctx = piece_ctx(vec![
        (cand(70, 71, 0, 0, false, "炮二平一"), 100),
        (cand(70, 69, 0, 0, false, "炮二平三"), 79),
        (cand(70, 68, 0, 0, false, "炮二平四"), 80),
        (cand(70, 61, 0, 0, false, "炮二进一"), 90),
        (cand(70, 52, 0, 0, false, "炮二进二"), 95),
    ]);
    assert_eq!(
        fallback_piece(&ctx),
        "这枚炮当前的最佳走法是 炮二平五：抢占中路，控制要道（评分约 30 分）。\n要注意的差走法：「炮二平一」会亏约 100 分；「炮二平四」会亏约 80 分；「炮二进一」会亏约 90 分。\n\n（这是引擎基础提示。配置 AI 服务后，这里会有完整棋理讲解。）"
    );
}

#[test]
fn fallback_piece_without_traps() {
    let calm = piece_ctx(vec![(cand(70, 71, 0, 0, false, "炮二平一"), 10), (cand(70, 69, 0, 0, false, "炮二平三"), 20)]);
    assert_eq!(
        fallback_piece(&calm),
        "这枚炮当前的最佳走法是 炮二平五：抢占中路，控制要道（评分约 30 分）。\n这枚棋的其他走法差别不大，可以放心走最佳走法。\n\n（这是引擎基础提示。配置 AI 服务后，这里会有完整棋理讲解。）"
    );
    let single = piece_ctx(vec![(cand(70, 71, 0, 0, false, "炮二平一"), 10)]);
    assert_eq!(
        fallback_piece(&single),
        "这枚炮当前的最佳走法是 炮二平五：抢占中路，控制要道（评分约 30 分）。\n\n（这是引擎基础提示。配置 AI 服务后，这里会有完整棋理讲解。）"
    );
}

#[test]
fn position_context_from_an_analysis() {
    let b = board("4k4/9/9/9/9/r8/9/9/9/R2K5 w");
    let a = analyze(&b, 1);
    let ctx = make_position_ctx(&b, &a, None, &b).expect("a context");
    assert_eq!(ctx.fen, b.to_fen());
    assert!(ctx.red_to_move);
    assert_eq!(ctx.last_notation, None);
    assert_eq!(ctx.last_intent_hint, "");
    assert_eq!(ctx.best.mv, Move { from: 81, to: 45 });
    assert_eq!(ctx.best_reason, "吃掉对方的车");
    assert_eq!(ctx.score, 600);
    assert_eq!(ctx.alternatives.len(), a.candidates.len() - 1);
    for (i, (c, loss)) in ctx.alternatives.iter().enumerate() {
        assert_eq!(c.mv, a.candidates[i + 1].mv);
        assert_eq!(*loss, 600 - a.candidates[i + 1].score);
    }
}

#[test]
fn intent_hints_of_the_last_move() {
    let b = board("4k4/9/9/9/9/r8/9/9/9/R2K5 w");
    let a = analyze(&b, 1);
    let quiet = make_position_ctx(&b, &a, Some((Move { from: 9, to: 18 }, "车1进1".to_string(), 0)), &b).unwrap();
    assert_eq!(quiet.last_notation, Some("车1进1".to_string()));
    assert_eq!(quiet.last_intent_hint, "这步在调动子力，意图还需观察。");
    let centre = make_position_ctx(&b, &a, Some((Move { from: 3, to: 4 }, "将4平5".to_string(), 0)), &b).unwrap();
    assert_eq!(centre.last_intent_hint, "这步占据中路。");
    let checked = board("4k4/9/9/9/9/9/9/9/9/r2K5 w");
    let all = make_position_ctx(&b, &a, Some((Move { from: 85, to: 49 }, "车5进4".to_string(), 5)), &checked).unwrap();
    assert!(checked.in_check(true));
    assert_eq!(all.last_intent_hint, "这步这步吃掉了你的车，占据中路，正在将军。");
}

#[test]
fn no_context_without_a_best_move() {
    let mated = board("4k3R/R8/9/9/9/9/9/9/9/3K5 b");
    let a = analyze(&mated, 1);
    assert!(make_position_ctx(&mated, &a, None, &mated).is_none());
    assert!(make_piece_ctx(&mated, 4, &a).is_none());
}

#[test]
fn piece_context_from_an_analysis() {
    let b = board("4k4/9/9/9/9/r8/9/9/9/R2K5 w");
    let a = analyze_piece(&b, 81, 1);
    let ctx = make_piece_ctx(&b, 81, &a).expect("a context");
    assert_eq!(ctx.fen, "4k4/9/9/9/9/r8/9/9/9/R2K5 w");
    assert_eq!(ctx.piece, 5);
    assert_eq!(ctx.from_sq, 81);
    assert_eq!(ctx.best.notation, "车九进四");
    assert_eq!(ctx.best_reason, "吃掉对方的车");
    assert_eq!(ctx.alternatives.len(), a.candidates.len() - 1);
}

#[test]
fn own_piece_texts_refusals() {
    let b = Board::start();
    assert_eq!(own_piece_texts(&b, 40, 1).unwrap_err(), "这里没有棋子");
    assert_eq!(own_piece_texts(&b, 95, 1).unwrap_err(), "这里没有棋子");
    assert_eq!(own_piece_texts(&b, 0, 1).unwrap_err(), "现在不能走对方的棋子");
    let boxed = board("4k4/9/9/9/9/9/9/9/3APA3/3AKA3 w");
    assert_eq!(own_piece_texts(&boxed, 85, 1).unwrap_err(), "这枚棋子当前没有合法走法");
}

#[test]
fn own_piece_texts_for_a_movable_piece() {
    let b = board("4k4/9/9/9/9/r8/9/9/9/R2K5 w");
    let (prompt, fallback) = own_piece_texts(&b, 81, 1).expect("texts");
    assert!(prompt.starts_with("当前局面 FEN：4k4/9/9/9/9/r8/9/9/9/R2K5 w\n学员选中了自己的车（位置：第10行第1列），犹豫要不要走它。\n引擎分析结论：这枚车的最佳走法是 车九进四（吃掉车），棋理标签：吃掉对方的车。"));
    assert!(fallback.starts_with("这枚车当前的最佳走法是 车九进四：吃掉对方的车（评分约 600 分）。\n"));
    let (own, p2, f2) = piece_texts(&b, 81, 1).expect("texts");
    assert!(own);
    assert_eq!((p2, f2), (prompt, fallback));
}

#[test]
fn piece_texts_explain_an_opponent_piece() {
    let b = board("4k4/9/9/9/9/r8/9/9/9/R2K5 w");
    let (own, prompt, fallback) = piece_texts(&b, 45, 1).expect("texts");
    assert!(!own);
    assert!(prompt.starts_with("当前局面 FEN：4k4/9/9/9/9/r8/9/9/9/R2K5 w\n学员点了对方的车（位置：第6行第1列），想知道它有什么威胁。\n引擎分析结论：假如轮到对方走，这枚车的最佳走法是 车1进4（吃掉车、叫将），棋理标签：吃掉对方的车，叫将，抢占先手。"));
    assert!(prompt.ends_with("。\n请给学员讲清楚：这枚车现在威胁什么、学员该怎么应对。"));
    assert_eq!(
        fallback,
        "对方这枚车的最佳走法是 车1进4：吃掉对方的车，叫将，抢占先手（对方评分约 600 分）。\n走棋前先想好怎么应对它的威胁。\n\n（这是引擎基础提示。配置 AI 服务后，这里会有完整棋理讲解。）"
    );
    let start = Board::start();
    let (own, prompt, _) = piece_texts(&start, 0, 1).expect("texts");
    assert!(!own);
    assert!(prompt.contains("学员点了对方的车（位置：第1行第1列）"));
}

#[test]
fn piece_texts_refusals() {
    let b = Board::start();
    assert_eq!(piece_texts(&b, 40, 1).unwrap_err(), "这里没有棋子");
    assert_eq!(piece_texts(&b, 95, 1).unwrap_err(), "这里没有棋子");
    let boxed = board("3aka3/4a4/9/9/9/9/9/9/9/3K5 w");
    assert_eq!(piece_texts(&boxed, 4, 1).unwrap_err(), "这枚棋子当前没有合法走法");
}

#[test]
fn position_texts_for_a_position() {
    let mated = board("4k3R/R8/9/9/9/9/9/9/9/3K5 b");
    assert_eq!(position_texts(&mated, None, 1).unwrap_err(), "当前无棋可走");
    let b = board("4k4/9/9/9/9/r8/9/9/9/R2K5 w");
    let (prompt, fallback) = position_texts(&b, None, 1).expect("texts");
    assert!(prompt.contains("\n这是对局开始。\n引擎分析结论：最佳走法是 车九进四（吃掉车），局面评分约 600 分，棋理标签：吃掉对方的车。\n"));
    assert!(fallback.starts_with("对局刚开始，轮到你走棋。\n当前局面你明显占优（引擎评分 600 分）。\n建议走 车九进四：吃掉对方的车（评分约 600 分）。\n"));
    let (_, after_move) = position_texts(&b, Some((Move { from: 13, to: 45 }, "车5退4".to_string(), 0)), 1).unwrap();
    assert!(after_move.starts_with("对方刚走了 车5退4。这步在调动子力，意图还需观察。\n"));
}

#[test]
fn model_replies() {
    assert_eq!(reply_text(Some("  好的，我来讲。\n")), Ok("好的，我来讲。".to_string()));
    assert_eq!(reply_text(Some(" \n ")), Err("AI 返回内容为空".to_string()));
    assert_eq!(reply_text(Some("")), Err("AI 返回内容为空".to_string()));
    assert_eq!(reply_text(None), Err("AI 返回内容为空".to_string()));
}

#[test]
fn refusals_that_need_no_search_take_any_depth() {
    let b = Board::start();
    assert_eq!(piece_texts(&b, 40, i32::MAX), Err("这里没有棋子".to_string()));
    assert_eq!(piece_texts(&b, 95, i32::MIN), Err("这里没有棋子".to_string()));
    assert_eq!(own_piece_texts(&b, 0, i32::MAX), Err("现在不能走对方的棋子".to_string()));
    let mated = board("R3k4/R8/9/9/9/9/9/9/9/3K5 b");
    assert_eq!(piece_texts(&mated, 4, i32::MAX), Err("这枚棋子当前没有合法走法".to_string()));
    assert_eq!(position_texts(&mated, None, i32::MAX), Err("当前无棋可走".to_string()));
}

#[test]
fn the_model_answer_wins_over_the_template() {
    assert_eq!(chosen_text(Ok("走炮".to_string()), "模板".to_string()), ("走炮".to_string(), "ai"));
    assert_eq!(chosen_text(Err("网络错误".to_string()), "模板".to_string()), ("模板".to_string(), "fallback"));
}
