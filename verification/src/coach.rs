//! Coaching text: the prompts handed to a language model and the template advice
//! used when no model is configured. The engine decides; this layer only explains.
use vstd::prelude::*;
use crate::engine::{
    analysis_ok, analyze, analyze_piece, best_is_first, cand_ok, first_best, has_legal, move_value, piece_analysis_ok, piece_can_move, ranked, search_order, sorted_desc,
    Analysis, Candidate, MATE,
};
use crate::notation::{piece_char, piece_char_spec};
use crate::text::{dec_int, dec_nat, push_dec, push_int};
use crate::fen::fen_text;
use crate::movegen::{kings_adjacent, target_moves};
use crate::xiangqi::{Board, Move, kind, kind_of, R, H, C, P};

verus! {

pub const SYSTEM_PROMPT: &'static str = "你是一位耐心的中国象棋教练，用大白话给业余爱好者讲棋。规则：内置引擎已经算出确定性结论，你只负责解释，绝不能推翻引擎结论，也不能另行推荐其他走法。讲解 120~220 字，口语化，分点讲清楚：对方这步棋想干什么、你为什么该走引擎推荐的那步、有哪些看着正常其实是臭棋的走法要避开。评分单位是分（一个兵约 60 分），正数对走棋方有利。着法用中文记谱法（如炮二平五）。";

// ---------------------------------------------------------------------------
// Joining
// ---------------------------------------------------------------------------

/// The texts joined with `sep` between consecutive ones.
pub open spec fn join_spec(items: Seq<Seq<char>>, sep: Seq<char>) -> Seq<char>
    decreases items.len(),
{
    if items.len() == 0 {
        seq![]
    } else if items.len() == 1 {
        items[0]
    } else {
        join_spec(items.drop_last(), sep) + sep + items.last()
    }
}

/// Views of a list of strings.
pub open spec fn views(v: Seq<String>) -> Seq<Seq<char>> {
    Seq::new(v.len(), |i: int| v[i]@)
}

/// Joins strings with a separator.
pub fn join(items: &Vec<String>, sep: &str) -> (s: String)
    ensures
        s@ == join_spec(views(items@), sep@),
{
    let mut s = String::new();
    let mut i: usize = 0;
    while i < items.len()
        invariant
            0 <= i <= items@.len(),
            s@ == join_spec(views(items@).take(i as int), sep@),
        decreases items@.len() - i,
    {
        if i > 0 {
            s.append(sep);
        }
        s.append(items[i].as_str());
        proof {
            let t = views(items@).take(i + 1);
            assert(t.drop_last() =~= views(items@).take(i as int));
            if i == 0 {
                assert(s@ =~= join_spec(t, sep@));
            } else {
                assert(s@ =~= join_spec(t, sep@));
            }
        }
        i = i + 1;
    }
    assert(views(items@).take(items@.len() as int) =~= views(items@));
    s
}

// ---------------------------------------------------------------------------
// Candidates
// ---------------------------------------------------------------------------

/// "炮二平五（吃掉马、叫将）": the notation with what the move captures and whether it
/// checks, in brackets, or the bare notation when it does neither.
pub open spec fn describe_spec(c: Candidate) -> Seq<char> {
    if c.captured == 0 && !c.gives_check {
        c.notation@
    } else {
        c.notation@ + "（"@ + (if c.captured != 0 && c.gives_check {
            "吃掉"@ + piece_char_spec(c.captured) + "、"@ + "叫将"@
        } else if c.captured != 0 {
            "吃掉"@ + piece_char_spec(c.captured)
        } else {
            "叫将"@
        }) + "）"@
    }
}

/// Short description of a candidate move.
pub fn describe_candidate(c: &Candidate) -> (s: String)
    ensures
        s@ == describe_spec(*c),
{
    if c.captured == 0 && !c.gives_check {
        return c.notation.clone();
    }
    let mut s = c.notation.clone();
    s.append("（");
    if c.captured != 0 {
        s.append("吃掉");
        s.append(piece_char(c.captured));
        if c.gives_check {
            s.append("、");
            s.append("叫将");
        }
    } else {
        s.append("叫将");
    }
    s.append("）");
    assert(s@ =~= describe_spec(*c));
    s
}

// ---------------------------------------------------------------------------
// Contexts
// ---------------------------------------------------------------------------

/// What a position explanation is built from.
pub struct PositionCtx {
    pub fen: String,
    pub red_to_move: bool,
    pub last_notation: Option<String>,
    pub last_intent_hint: String,
    pub best: Candidate,
    pub best_reason: String,
    /// Other moves with how many points each loses against the best.
    pub alternatives: Vec<(Candidate, i32)>,
    pub score: i32,
}

/// What a single-piece explanation is built from.
pub struct PieceCtx {
    pub fen: String,
    pub piece: i8,
    pub from_sq: usize,
    pub best: Candidate,
    pub best_reason: String,
    pub alternatives: Vec<(Candidate, i32)>,
}

/// "马八进七（吃掉车） 亏约 120 分".
pub open spec fn alt_line(a: (Candidate, i32)) -> Seq<char> {
    describe_spec(a.0) + " 亏约 "@ + dec_int(a.1 as int) + " 分"@
}

/// The lines for the first `n` alternatives.
pub open spec fn alt_lines(alts: Seq<(Candidate, i32)>, n: int) -> Seq<Seq<char>> {
    Seq::new(if alts.len() < n {
        alts.len() as int
    } else {
        n
    } as nat, |i: int| alt_line(alts[i]))
}

/// "「马八进七」会亏约 120 分".
pub open spec fn trap_line(a: (Candidate, i32)) -> Seq<char> {
    "「"@ + a.0.notation@ + "」会亏约 "@ + dec_int(a.1 as int) + " 分"@
}

/// Trap lines for the alternatives among the first `i` that lose at least 80 points.
pub open spec fn trap_items(alts: Seq<(Candidate, i32)>, i: int) -> Seq<Seq<char>>
    decreases i,
{
    if i <= 0 {
        seq![]
    } else {
        let prev = trap_items(alts, i - 1);
        if alts[i - 1].1 >= 80 {
            prev.push(trap_line(alts[i - 1]))
        } else {
            prev
        }
    }
}

/// The first `k` trap lines.
pub open spec fn traps(alts: Seq<(Candidate, i32)>, k: int) -> Seq<Seq<char>> {
    let t = trap_items(alts, alts.len() as int);
    if t.len() > k {
        t.take(k)
    } else {
        t
    }
}

fn alt_text(alts: &Vec<(Candidate, i32)>, n: usize) -> (s: String)
    ensures
        s@ == join_spec(alt_lines(alts@, n as int), "；"@),
{
    let mut lines: Vec<String> = Vec::new();
    let mut i: usize = 0;
    while i < alts.len() && i < n
        invariant
            0 <= i <= alts@.len(),
            i <= n,
            views(lines@) == alt_lines(alts@, i as int),
        decreases alts@.len() - i,
    {
        let mut line = describe_candidate(&alts[i].0);
        line.append(" 亏约 ");
        push_int(&mut line, alts[i].1 as i64);
        line.append(" 分");
        let ghost l0 = lines@;
        lines.push(line);
        proof {
            assert(views(l0.push(line)) =~= views(l0).push(line@));
            assert(alt_lines(alts@, i + 1) =~= alt_lines(alts@, i as int).push(alt_line(alts@[i as int])));
        }
        i = i + 1;
    }
    proof {
        assert(alt_lines(alts@, i as int) =~= alt_lines(alts@, n as int));
    }
    join(&lines, "；")
}

fn trap_lines(alts: &Vec<(Candidate, i32)>, k: usize) -> (lines: Vec<String>)
    ensures
        views(lines@) == traps(alts@, k as int),
{
    let mut lines: Vec<String> = Vec::new();
    let mut i: usize = 0;
    while i < alts.len()
        invariant
            0 <= i <= alts@.len(),
            views(lines@) == (if trap_items(alts@, i as int).len() > k {
                trap_items(alts@, i as int).take(k as int)
            } else {
                trap_items(alts@, i as int)
            }),
        decreases alts@.len() - i,
    {
        let ghost l0 = lines@;
        if alts[i].1 >= 80 && lines.len() < k {
            let mut line = String::new();
            line.append("「");
            line.append(alts[i].0.notation.as_str());
            line.append("」会亏约 ");
            push_int(&mut line, alts[i].1 as i64);
            line.append(" 分");
            lines.push(line);
            proof {
                assert(views(l0.push(line)) =~= views(l0).push(line@));
                assert(line@ =~= trap_line(alts@[i as int]));
            }
        }
        proof {
            let t0 = trap_items(alts@, i as int);
            let t1 = trap_items(alts@, i + 1);
            if alts@[i as int].1 >= 80 {
                assert(t1 == t0.push(trap_line(alts@[i as int])));
                if t0.len() >= k {
                    assert(t1.take(k as int) =~= t0.take(k as int));
                    if t0.len() == k {
                        assert(t0.take(k as int) =~= t0);
                    }
                } else {
                    assert(views(lines@) =~= t1);
                }
            }
        }
        i = i + 1;
    }
    lines
}

// ---------------------------------------------------------------------------
// Prompts
// ---------------------------------------------------------------------------

pub open spec fn side_name(red: bool) -> Seq<char> {
    if red {
        "红方"@
    } else {
        "黑方"@
    }
}

/// The prompt asking for an explanation of the position.
pub open spec fn position_prompt_spec(ctx: PositionCtx) -> Seq<char> {
    let alts = join_spec(alt_lines(ctx.alternatives@, 4), "；"@);
    "当前局面 FEN："@ + ctx.fen@ + "\n轮到"@ + side_name(ctx.red_to_move) + "走棋（学员执红）。\n"@
        + (match ctx.last_notation {
        Some(n) => "对方刚走了 "@ + n@ + "。"@ + ctx.last_intent_hint@ + "\n"@,
        None => "这是对局开始。\n"@,
    }) + "引擎分析结论：最佳走法是 "@ + describe_spec(ctx.best) + "，局面评分约 "@ + dec_int(ctx.score as int)
        + " 分，棋理标签："@ + ctx.best_reason@ + "。\n其他候选走法及亏损："@ + (if alts.len() == 0 {
        "无明显大亏走法"@
    } else {
        alts
    }) + "。\n请给学员讲清楚：1) 对方上一步的意图；2) 为什么 "@ + ctx.best.notation@
        + " 是当前最佳；3) 哪些走法是坑、坑在哪。"@
}

/// Builds the prompt that asks a language model to explain the position.
pub fn build_position_prompt(ctx: &PositionCtx) -> (s: String)
    ensures
        s@ == position_prompt_spec(*ctx),
{
    let alts = alt_text(&ctx.alternatives, 4);
    let mut s = String::new();
    s.append("当前局面 FEN：");
    s.append(ctx.fen.as_str());
    s.append("\n轮到");
    s.append(if ctx.red_to_move {
        "红方"
    } else {
        "黑方"
    });
    s.append("走棋（学员执红）。\n");
    match &ctx.last_notation {
        Some(n) => {
            s.append("对方刚走了 ");
            s.append(n.as_str());
            s.append("。");
            s.append(ctx.last_intent_hint.as_str());
            s.append("\n");
        },
        None => {
            s.append("这是对局开始。\n");
        },
    }
    s.append("引擎分析结论：最佳走法是 ");
    let d = describe_candidate(&ctx.best);
    s.append(d.as_str());
    s.append("，局面评分约 ");
    push_int(&mut s, ctx.score as i64);
    s.append(" 分，棋理标签：");
    s.append(ctx.best_reason.as_str());
    s.append("。\n其他候选走法及亏损：");
    if alts.as_str().is_empty() {
        s.append("无明显大亏走法");
    } else {
        s.append(alts.as_str());
    }
    s.append("。\n请给学员讲清楚：1) 对方上一步的意图；2) 为什么 ");
    s.append(ctx.best.notation.as_str());
    s.append(" 是当前最佳；3) 哪些走法是坑、坑在哪。");
    assert(s@ =~= position_prompt_spec(*ctx));
    s
}

/// The prompt asking how the selected piece should move.
pub open spec fn piece_prompt_spec(ctx: PieceCtx) -> Seq<char> {
    let alts = join_spec(alt_lines(ctx.alternatives@, 3), "；"@);
    let pc = piece_char_spec(ctx.piece);
    "当前局面 FEN："@ + ctx.fen@ + "\n学员选中了自己的"@ + pc + "（位置：第"@ + dec_nat((ctx.from_sq / 9 + 1) as nat)
        + "行第"@ + dec_nat((ctx.from_sq % 9 + 1) as nat) + "列），犹豫要不要走它。\n引擎分析结论：这枚"@ + pc
        + "的最佳走法是 "@ + describe_spec(ctx.best) + "，棋理标签："@ + ctx.best_reason@ + "。其他走法及亏损："@
        + (if alts.len() == 0 {
        "其余走法差别不大"@
    } else {
        alts
    }) + "。\n请给学员讲清楚：这枚"@ + pc + "现在该怎么走、为什么这么走、其他走法分别有什么问题。"@
}

/// Builds the prompt that asks a language model how the selected piece should move.
pub fn build_piece_prompt(ctx: &PieceCtx) -> (s: String)
    ensures
        s@ == piece_prompt_spec(*ctx),
{
    let alts = alt_text(&ctx.alternatives, 3);
    let pc = piece_char(ctx.piece);
    let mut s = String::new();
    s.append("当前局面 FEN：");
    s.append(ctx.fen.as_str());
    s.append("\n学员选中了自己的");
    s.append(pc);
    s.append("（位置：第");
    push_dec(&mut s, (ctx.from_sq / 9 + 1) as u64);
    s.append("行第");
    push_dec(&mut s, (ctx.from_sq % 9 + 1) as u64);
    s.append("列），犹豫要不要走它。\n引擎分析结论：这枚");
    s.append(pc);
    s.append("的最佳走法是 ");
    let d = describe_candidate(&ctx.best);
    s.append(d.as_str());
    s.append("，棋理标签：");
    s.append(ctx.best_reason.as_str());
    s.append("。其他走法及亏损：");
    if alts.as_str().is_empty() {
        s.append("其余走法差别不大");
    } else {
        s.append(alts.as_str());
    }
    s.append("。\n请给学员讲清楚：这枚");
    s.append(pc);
    s.append("现在该怎么走、为什么这么走、其他走法分别有什么问题。");
    assert(s@ =~= piece_prompt_spec(*ctx));
    s
}

// ---------------------------------------------------------------------------
// Reasons and template advice
// ---------------------------------------------------------------------------

/// The short reasons given for a move (template advice): what it captures, whether it
/// checks, or else whether it develops a major piece, crosses the river or takes the
/// centre file, or else a generic "repositioning" reason.
pub open spec fn reason_items(b: Board, c: Candidate) -> Seq<Seq<char>> {
    let r0: Seq<Seq<char>> = if c.captured != 0 {
        seq!["吃掉对方的"@ + piece_char_spec(c.captured)]
    } else {
        seq![]
    };
    let r1 = if c.gives_check {
        r0.push("叫将，抢占先手"@)
    } else {
        r0
    };
    if r1.len() > 0 {
        r1
    } else {
        let p = b.cell(c.mv.from as int);
        let red = p > 0;
        let k = kind(p);
        let fr = c.mv.from / 9;
        let tr = c.mv.to / 9;
        let fc = c.mv.from % 9;
        let tc = c.mv.to % 9;
        let back_rank = if red {
            fr >= 8
        } else {
            fr <= 1
        };
        let q0: Seq<Seq<char>> = if back_rank && (k == R || k == H || k == C) {
            seq!["出动大子，加快出子速度"@]
        } else {
            seq![]
        };
        let q1 = if (k == P || k == H || k == R || k == C) && (if red {
            tr <= 4 && fr > 4
        } else {
            tr >= 5 && fr < 5
        }) {
            q0.push("子力过河，投入进攻"@)
        } else {
            q0
        };
        let q2 = if tc == 4 && fc != 4 {
            q1.push("抢占中路，控制要道"@)
        } else {
            q1
        };
        if q2.len() > 0 {
            q2
        } else {
            seq!["调整子力位置，巩固阵型"@]
        }
    }
}

pub open spec fn reason_spec(b: Board, c: Candidate) -> Seq<char> {
    join_spec(reason_items(b, c), "，"@)
}

fn push_text(v: &mut Vec<String>, t: &str)
    ensures
        views(final(v)@) == views(old(v)@).push(t@),
{
    let s = String::from_str(t);
    let ghost v0 = v@;
    v.push(s);
    assert(views(v@) =~= views(v0).push(t@));
}

/// A one-sentence reason for a move, inferred from its features (template advice).
pub fn reason_of(b_before: &Board, c: &Candidate) -> (s: String)
    requires
        b_before.wf(),
        c.mv.from < 90,
    ensures
        s@ == reason_spec(*b_before, *c),
{
    let mut reasons: Vec<String> = Vec::new();
    assert(views(reasons@) =~= seq![]);
    if c.captured != 0 {
        let mut t = String::from_str("吃掉对方的");
        t.append(piece_char(c.captured));
        let ghost v0 = reasons@;
        reasons.push(t);
        assert(views(reasons@) =~= views(v0).push(t@));
    }
    if c.gives_check {
        push_text(&mut reasons, "叫将，抢占先手");
    }
    let fr = c.mv.from / 9;
    let tr = c.mv.to / 9;
    let fc = c.mv.from % 9;
    let tc = c.mv.to % 9;
    let p = b_before.cells[c.mv.from];
    if reasons.len() == 0 {
        let red = p > 0;
        let k = kind_of(p);
        let back_rank = if red {
            fr >= 8
        } else {
            fr <= 1
        };
        if back_rank && (k == R || k == H || k == C) {
            push_text(&mut reasons, "出动大子，加快出子速度");
        }
        if (k == P || k == H || k == R || k == C) && (if red {
            tr <= 4 && fr > 4
        } else {
            tr >= 5 && fr < 5
        }) {
            push_text(&mut reasons, "子力过河，投入进攻");
        }
        if tc == 4 && fc != 4 {
            push_text(&mut reasons, "抢占中路，控制要道");
        }
        if reasons.len() == 0 {
            push_text(&mut reasons, "调整子力位置，巩固阵型");
        }
    }
    assert(views(reasons@) =~= reason_items(*b_before, *c));
    join(&reasons, "，")
}

/// How the score reads to the student.
pub open spec fn score_text(score: int) -> Seq<char> {
    if score >= 200 {
        "你明显占优"@
    } else if score >= 60 {
        "你稍占优"@
    } else if score > -60 {
        "双方大体均势"@
    } else if score > -200 {
        "你稍处下风"@
    } else {
        "你明显被动"@
    }
}

/// Template position advice, used when no language model is available.
pub open spec fn fallback_position_spec(ctx: PositionCtx) -> Seq<char> {
    let t = traps(ctx.alternatives@, 2);
    (match ctx.last_notation {
        Some(n) => "对方刚走了 "@ + n@ + "。"@ + ctx.last_intent_hint@ + "\n"@,
        None => "对局刚开始，轮到你走棋。\n"@,
    }) + "当前局面"@ + score_text(ctx.score as int) + "（引擎评分 "@ + dec_int(ctx.score as int) + " 分）。\n"@
        + "建议走 "@ + ctx.best.notation@ + "："@ + ctx.best_reason@ + "（评分约 "@ + dec_int(ctx.score as int)
        + " 分）。\n"@ + (if t.len() > 0 {
        "注意避开："@ + join_spec(t, "，"@) + "。\n"@
    } else {
        seq![]
    }) + "\n（这是引擎基础提示。在设置里填入 AI 服务 Key，即可获得完整的大白话棋理讲解。）"@
}

/// Template advice about the position.
pub fn fallback_position(ctx: &PositionCtx) -> (s: String)
    ensures
        s@ == fallback_position_spec(*ctx),
{
    let mut out = String::new();
    match &ctx.last_notation {
        Some(n) => {
            out.append("对方刚走了 ");
            out.append(n.as_str());
            out.append("。");
            out.append(ctx.last_intent_hint.as_str());
            out.append("\n");
        },
        None => {
            out.append("对局刚开始，轮到你走棋。\n");
        },
    }
    let text = if ctx.score >= 200 {
        "你明显占优"
    } else if ctx.score >= 60 {
        "你稍占优"
    } else if ctx.score > -60 {
        "双方大体均势"
    } else if ctx.score > -200 {
        "你稍处下风"
    } else {
        "你明显被动"
    };
    out.append("当前局面");
    out.append(text);
    out.append("（引擎评分 ");
    push_int(&mut out, ctx.score as i64);
    out.append(" 分）。\n");
    out.append("建议走 ");
    out.append(ctx.best.notation.as_str());
    out.append("：");
    out.append(ctx.best_reason.as_str());
    out.append("（评分约 ");
    push_int(&mut out, ctx.score as i64);
    out.append(" 分）。\n");
    let lines = trap_lines(&ctx.alternatives, 2);
    if lines.len() > 0 {
        out.append("注意避开：");
        let j = join(&lines, "，");
        out.append(j.as_str());
        out.append("。\n");
    }
    out.append("\n（这是引擎基础提示。在设置里填入 AI 服务 Key，即可获得完整的大白话棋理讲解。）");
    assert(out@ =~= fallback_position_spec(*ctx));
    out
}

/// Template advice about the selected piece.
pub open spec fn fallback_piece_spec(ctx: PieceCtx) -> Seq<char> {
    let t = traps(ctx.alternatives@, 3);
    "这枚"@ + piece_char_spec(ctx.piece) + "当前的最佳走法是 "@ + ctx.best.notation@ + "："@ + ctx.best_reason@
        + "（评分约 "@ + dec_int(ctx.best.score as int) + " 分）。\n"@ + (if t.len() > 0 {
        "要注意的差走法："@ + join_spec(t, "；"@) + "。\n"@
    } else if ctx.alternatives@.len() > 1 {
        "这枚棋的其他走法差别不大，可以放心走最佳走法。\n"@
    } else {
        seq![]
    }) + "\n（这是引擎基础提示。配置 AI 服务后，这里会有完整棋理讲解。）"@
}

/// Template advice about one piece.
pub fn fallback_piece(ctx: &PieceCtx) -> (s: String)
    ensures
        s@ == fallback_piece_spec(*ctx),
{
    let mut out = String::new();
    out.append("这枚");
    out.append(piece_char(ctx.piece));
    out.append("当前的最佳走法是 ");
    out.append(ctx.best.notation.as_str());
    out.append("：");
    out.append(ctx.best_reason.as_str());
    out.append("（评分约 ");
    push_int(&mut out, ctx.best.score as i64);
    out.append(" 分）。\n");
    let lines = trap_lines(&ctx.alternatives, 3);
    if lines.len() > 0 {
        out.append("要注意的差走法：");
        let j = join(&lines, "；");
        out.append(j.as_str());
        out.append("。\n");
    } else if ctx.alternatives.len() > 1 {
        out.append("这枚棋的其他走法差别不大，可以放心走最佳走法。\n");
    }
    out.append("\n（这是引擎基础提示。配置 AI 服务后，这里会有完整棋理讲解。）");
    assert(out@ =~= fallback_piece_spec(*ctx));
    out
}

/// The prompt about one of the opponent's pieces: what it would do if its side were to
/// move, and how the student should answer it.
pub open spec fn opponent_piece_prompt_spec(ctx: PieceCtx) -> Seq<char> {
    let alts = join_spec(alt_lines(ctx.alternatives@, 3), "；"@);
    let pc = piece_char_spec(ctx.piece);
    "当前局面 FEN："@ + ctx.fen@ + "\n学员点了对方的"@ + pc + "（位置：第"@ + dec_nat((ctx.from_sq / 9 + 1) as nat)
        + "行第"@ + dec_nat((ctx.from_sq % 9 + 1) as nat) + "列），想知道它有什么威胁。\n引擎分析结论：假如轮到对方走，这枚"@
        + pc + "的最佳走法是 "@ + describe_spec(ctx.best) + "，棋理标签："@ + ctx.best_reason@ + "。它的其他走法及亏损："@
        + (if alts.len() == 0 {
        "其余走法差别不大"@
    } else {
        alts
    }) + "。\n请给学员讲清楚：这枚"@ + pc + "现在威胁什么、学员该怎么应对。"@
}

pub fn build_opponent_piece_prompt(ctx: &PieceCtx) -> (s: String)
    ensures
        s@ == opponent_piece_prompt_spec(*ctx),
{
    let alts = alt_text(&ctx.alternatives, 3);
    let pc = piece_char(ctx.piece);
    let mut s = String::new();
    s.append("当前局面 FEN：");
    s.append(ctx.fen.as_str());
    s.append("\n学员点了对方的");
    s.append(pc);
    s.append("（位置：第");
    push_dec(&mut s, (ctx.from_sq / 9 + 1) as u64);
    s.append("行第");
    push_dec(&mut s, (ctx.from_sq % 9 + 1) as u64);
    s.append("列），想知道它有什么威胁。\n引擎分析结论：假如轮到对方走，这枚");
    s.append(pc);
    s.append("的最佳走法是 ");
    let d = describe_candidate(&ctx.best);
    s.append(d.as_str());
    s.append("，棋理标签：");
    s.append(ctx.best_reason.as_str());
    s.append("。它的其他走法及亏损：");
    if alts.as_str().is_empty() {
        s.append("其余走法差别不大");
    } else {
        s.append(alts.as_str());
    }
    s.append("。\n请给学员讲清楚：这枚");
    s.append(pc);
    s.append("现在威胁什么、学员该怎么应对。");
    assert(s@ =~= opponent_piece_prompt_spec(*ctx));
    s
}

/// The template advice about one of the opponent's pieces.
pub open spec fn fallback_opponent_piece_spec(ctx: PieceCtx) -> Seq<char> {
    "对方这枚"@ + piece_char_spec(ctx.piece) + "的最佳走法是 "@ + ctx.best.notation@ + "："@ + ctx.best_reason@
        + "（对方评分约 "@ + dec_int(ctx.best.score as int) + " 分）。\n走棋前先想好怎么应对它的威胁。\n"@
        + "\n（这是引擎基础提示。配置 AI 服务后，这里会有完整棋理讲解。）"@
}

pub fn fallback_opponent_piece(ctx: &PieceCtx) -> (s: String)
    ensures
        s@ == fallback_opponent_piece_spec(*ctx),
{
    let mut out = String::new();
    out.append("对方这枚");
    out.append(piece_char(ctx.piece));
    out.append("的最佳走法是 ");
    out.append(ctx.best.notation.as_str());
    out.append("：");
    out.append(ctx.best_reason.as_str());
    out.append("（对方评分约 ");
    push_int(&mut out, ctx.best.score as i64);
    out.append(" 分）。\n走棋前先想好怎么应对它的威胁。\n");
    out.append("\n（这是引擎基础提示。配置 AI 服务后，这里会有完整棋理讲解。）");
    assert(out@ =~= fallback_opponent_piece_spec(*ctx));
    out
}

// ---------------------------------------------------------------------------
// Building contexts
// ---------------------------------------------------------------------------

/// The other candidates with their loss against `best_score`.
pub open spec fn alternatives_spec(cands: Seq<Candidate>, best_score: int) -> Seq<(Candidate, i32)> {
    Seq::new(if cands.len() > 0 {
        (cands.len() - 1) as nat
    } else {
        0
    }, |i: int| (cands[i + 1], (best_score - cands[i + 1].score) as i32))
}

/// Losses against the best score fit an `i32`.
pub open spec fn losses_fit(a: Analysis) -> bool {
    a.best matches Some(best) ==> forall|i: int| 0 <= i < a.candidates@.len() ==> i32::MIN <= best.score
        - #[trigger] a.candidates@[i].score <= i32::MAX
}

fn alternatives_of(cands: &Vec<Candidate>, best_score: i32) -> (alts: Vec<(Candidate, i32)>)
    requires
        forall|i: int| 0 <= i < cands@.len() ==> i32::MIN <= best_score - #[trigger] cands@[i].score <= i32::MAX,
    ensures
        alts@ == alternatives_spec(cands@, best_score as int),
{
    let mut alts: Vec<(Candidate, i32)> = Vec::new();
    let mut i: usize = 1;
    while i < cands.len()
        invariant
            1 <= i,
            i <= cands@.len() || (cands@.len() == 0 && i == 1),
            forall|i: int| 0 <= i < cands@.len() ==> i32::MIN <= best_score - #[trigger] cands@[i].score <= i32::MAX,
            alts@.len() == i - 1,
            forall|k: int| 0 <= k < i - 1 ==> #[trigger] alts@[k] == (cands@[k + 1], (best_score - cands@[k + 1].score) as i32),
        decreases cands@.len() - i,
    {
        let c = cands[i].copied();
        let loss = best_score - c.score;
        alts.push((c, loss));
        i = i + 1;
    }
    proof {
        let sp = alternatives_spec(cands@, best_score as int);
        assert(alts@.len() == sp.len());
        assert forall|k: int| 0 <= k < sp.len() implies alts@[k] == sp[k] by {
            assert(alts@[k] == (cands@[k + 1], (best_score - cands@[k + 1].score) as i32));
        }
        assert(alts@ =~= sp);
    }
    alts
}

/// The hint about the opponent's last move: what it captured, whether it took the centre
/// file, whether the side to move is in check.
pub open spec fn intent_hint_spec(last: Option<(Move, String, i8)>, depth_board: Board) -> Seq<char> {
    match last {
        Some((mv, _, captured)) => {
            let h0: Seq<Seq<char>> = if captured != 0 {
                seq!["这步吃掉了你的"@ + piece_char_spec(captured)]
            } else {
                seq![]
            };
            let h1 = if mv.to % 9 == 4 {
                h0.push("占据中路"@)
            } else {
                h0
            };
            let h2 = if depth_board.in_check_spec(depth_board.red_turn) {
                h1.push("正在将军"@)
            } else {
                h1
            };
            if h2.len() == 0 {
                "这步在调动子力，意图还需观察。"@
            } else {
                "这步"@ + join_spec(h2, "，"@) + "。"@
            }
        },
        None => seq![],
    }
}

fn intent_hint(last: &Option<(Move, String, i8)>, depth_board: &Board) -> (s: String)
    requires
        depth_board.wf(),
    ensures
        s@ == intent_hint_spec(*last, *depth_board),
{
    match last {
        Some((mv, _, captured)) => {
            let mut hints: Vec<String> = Vec::new();
            assert(views(hints@) =~= seq![]);
            if *captured != 0 {
                let mut t = String::from_str("这步吃掉了你的");
                t.append(piece_char(*captured));
                let ghost v0 = hints@;
                hints.push(t);
                assert(views(hints@) =~= views(v0).push(t@));
            }
            if mv.to % 9 == 4 {
                push_text(&mut hints, "占据中路");
            }
            if depth_board.in_check(depth_board.red_turn) {
                push_text(&mut hints, "正在将军");
            }
            if hints.len() == 0 {
                String::from_str("这步在调动子力，意图还需观察。")
            } else {
                let mut s = String::from_str("这步");
                let j = join(&hints, "，");
                s.append(j.as_str());
                s.append("。");
                s
            }
        },
        None => String::new(),
    }
}

/// Builds the position context from an analysis of `b` and the last move played
/// (its move, notation and captured piece); `None` when the analysis has no best move.
pub fn make_position_ctx(
    b: &Board,
    analysis: &Analysis,
    last: Option<(Move, String, i8)>,
    depth_board: &Board,
) -> (res: Option<PositionCtx>)
    requires
        b.wf(),
        depth_board.wf(),
        analysis.best matches Some(best) ==> best.mv.from < 90,
        losses_fit(*analysis),
    ensures
        res is None <==> analysis.best is None,
        res matches Some(ctx) ==> {
            let best = analysis.best->Some_0;
            &&& ctx.fen@ == fen_text(*b)
            &&& ctx.red_to_move == b.red_turn
            &&& ctx.last_notation == (match last {
                Some(l) => Some(l.1),
                None => None,
            })
            &&& ctx.last_intent_hint@ == intent_hint_spec(last, *depth_board)
            &&& ctx.best == best
            &&& ctx.best_reason@ == reason_spec(*b, best)
            &&& ctx.alternatives@ == alternatives_spec(analysis.candidates@, best.score as int)
            &&& ctx.score == best.score
        },
{
    let best = match &analysis.best {
        Some(c) => c.copied(),
        None => {
            return None;
        },
    };
    let best_score = best.score;
    let alternatives = alternatives_of(&analysis.candidates, best_score);
    let last_intent_hint = intent_hint(&last, depth_board);
    let best_reason = reason_of(b, &best);
    let last_notation = match last {
        Some((_, n, _)) => Some(n),
        None => None,
    };
    Some(PositionCtx {
        fen: b.to_fen(),
        red_to_move: b.red_turn,
        last_notation,
        last_intent_hint,
        best_reason,
        best,
        alternatives,
        score: best_score,
    })
}

/// Builds the single-piece context for the piece on `from`; `None` when the analysis
/// has no best move.
pub fn make_piece_ctx(b: &Board, from: usize, analysis: &Analysis) -> (res: Option<PieceCtx>)
    requires
        b.wf(),
        from < 90,
        analysis.best matches Some(best) ==> best.mv.from < 90,
        losses_fit(*analysis),
    ensures
        res is None <==> analysis.best is None,
        res matches Some(ctx) ==> {
            let best = analysis.best->Some_0;
            &&& ctx.fen@ == fen_text(*b)
            &&& ctx.piece == b.cell(from as int)
            &&& ctx.from_sq == from
            &&& ctx.best == best
            &&& ctx.best_reason@ == reason_spec(*b, best)
            &&& ctx.alternatives@ == alternatives_spec(analysis.candidates@, best.score as int)
        },
{
    let best = match &analysis.best {
        Some(c) => c.copied(),
        None => {
            return None;
        },
    };
    let best_score = best.score;
    let alternatives = alternatives_of(&analysis.candidates, best_score);
    let best_reason = reason_of(b, &best);
    Some(PieceCtx {
        fen: b.to_fen(),
        piece: b.cells[from],
        from_sq: from,
        best_reason,
        best,
        alternatives,
    })
}


// ---------------------------------------------------------------------------
// Explaining a position or a piece
// ---------------------------------------------------------------------------

/// `ctx` is the position context that `make_position_ctx` builds from `a`.
pub open spec fn position_ctx_of(ctx: PositionCtx, b: Board, a: Analysis, last: Option<(Move, String, i8)>, depth_board: Board) -> bool {
    &&& a.best == Some(ctx.best)
    &&& ctx.fen@ == fen_text(b)
    &&& ctx.red_to_move == b.red_turn
    &&& ctx.last_notation == (match last {
        Some(l) => Some(l.1),
        None => None,
    })
    &&& ctx.last_intent_hint@ == intent_hint_spec(last, depth_board)
    &&& ctx.best_reason@ == reason_spec(b, ctx.best)
    &&& ctx.alternatives@ == alternatives_spec(a.candidates@, ctx.best.score as int)
    &&& ctx.score == ctx.best.score
}

/// `ctx` is the single-piece context that `make_piece_ctx` builds from `a`.
pub open spec fn piece_ctx_of(ctx: PieceCtx, b: Board, from: usize, a: Analysis) -> bool {
    &&& a.best == Some(ctx.best)
    &&& ctx.fen@ == fen_text(b)
    &&& ctx.piece == b.cell(from as int)
    &&& ctx.from_sq == from
    &&& ctx.best_reason@ == reason_spec(b, ctx.best)
    &&& ctx.alternatives@ == alternatives_spec(a.candidates@, ctx.best.score as int)
}

/// Candidate scores of an analysis lie between the values of a lost and a won game, so
/// every loss against the best fits an `i32`.
proof fn lemma_losses_fit(b: Board, depth: int, a: Analysis)
    requires
        a.candidates@.len() > 0 ==> depth <= MATE,
        a.best matches Some(best) ==> a.candidates@.len() > 0 && best == a.candidates@[0],
        sorted_desc(a.candidates@),
        forall|i: int| 0 <= i < a.candidates@.len() ==> cand_ok(b, #[trigger] a.candidates@[i]),
        forall|i: int| 0 <= i < a.candidates@.len() ==> (#[trigger] a.candidates@[i]).score >= move_value(b, a.candidates@[i].mv, depth),
        a.candidates@.len() > 0 ==> a.candidates@[0].score == move_value(b, a.candidates@[0].mv, depth),
    ensures
        losses_fit(a),
        a.best matches Some(best) ==> best.mv.from < 90,
{
    if a.candidates@.len() > 0 {
        let top = a.candidates@[0];
        crate::engine::lemma_nm_bound(b.make_spec(top.mv), depth - 1, 1);
        assert forall|i: int| 0 <= i < a.candidates@.len() implies i32::MIN <= top.score - #[trigger] a.candidates@[i].score <= i32::MAX by {
            let c = a.candidates@[i];
            crate::engine::lemma_nm_bound(b.make_spec(c.mv), depth - 1, 1);
            if i > 0 {
                assert(top.score >= c.score);
            }
        }
        reveal(cand_ok);
        assert(cand_ok(b, top));
    }
}

/// The prompt for the language model and the text used when no model answers, for
/// explaining position `b` after the last move `last` with the engine's analysis at
/// `depth`; "当前无棋可走" when the side to move has no legal move. Where there is a move
/// to search, the depth is bounded as for `analyze`.
pub fn position_texts(b: &Board, last: Option<(Move, String, i8)>, depth: i32) -> (res: Result<(String, String), String>)
    requires
        b.wf(),
        has_legal(*b) ==> i32::MIN < depth <= MATE,
    ensures
        !has_legal(*b) ==> (res matches Err(e) && e@ == "当前无棋可走"@),
        has_legal(*b) ==> (res matches Ok((prompt, fallback)) && exists|a: Analysis, ctx: PositionCtx|
            #![trigger position_ctx_of(ctx, *b, a, last, *b)]
            analysis_ok(*b, depth as int, a) && position_ctx_of(ctx, *b, a, last, *b)
                && prompt@ == position_prompt_spec(ctx) && fallback@ == fallback_position_spec(ctx)),
{
    let analysis = analyze(b, depth);
    proof {
        lemma_losses_fit(*b, depth as int, analysis);
    }
    let ghost l = last;
    match make_position_ctx(b, &analysis, last, b) {
        None => Err(String::from_str("当前无棋可走")),
        Some(ctx) => {
            let prompt = build_position_prompt(&ctx);
            let fallback = fallback_position(&ctx);
            proof {
                assert(analysis_ok(*b, depth as int, analysis));
                assert(position_ctx_of(ctx, *b, analysis, l, *b));
            }
            Ok((prompt, fallback))
        },
    }
}

/// `b` with the other side to move.
pub open spec fn turned(b: Board) -> Board {
    Board { cells: b.cells, red_turn: !b.red_turn }
}

/// The position in which the piece on `square` is analysed: as it stands when the
/// piece's side is to move, otherwise with the turn passed to that side.
pub open spec fn side_board(b: Board, square: usize) -> Board {
    if (b.cell(square as int) > 0) == b.red_turn {
        b
    } else {
        turned(b)
    }
}

/// Explaining the piece on `square`: whether it belongs to the side to move, the prompt
/// for the language model and the fallback text. A piece of the side to move is
/// explained by its best move; a piece of the other side by the best move it would have
/// if its side were to move (its threat). Refused with "这里没有棋子" when the square is
/// off the board or empty, and with "这枚棋子当前没有合法走法" when the piece cannot move.
/// Only a piece that can move is searched, and only then is the depth bounded as for
/// `analyze`.
pub fn piece_texts(b: &Board, square: usize, depth: i32) -> (res: Result<(bool, String, String), String>)
    requires
        b.wf(),
        (square < 90 && b.cell(square as int) != 0 && piece_can_move(side_board(*b, square), square)) ==> i32::MIN < depth <= MATE,
    ensures
        (square >= 90 || b.cell(square as int) == 0) ==> (res matches Err(e) && e@ == "这里没有棋子"@),
        (square < 90 && b.cell(square as int) != 0 && !piece_can_move(side_board(*b, square), square))
            ==> (res matches Err(e) && e@ == "这枚棋子当前没有合法走法"@),
        (square < 90 && b.cell(square as int) != 0 && piece_can_move(side_board(*b, square), square)) ==> (res matches Ok((own, prompt, fallback))
            && own == ((b.cell(square as int) > 0) == b.red_turn)
            && exists|a: Analysis, ctx: PieceCtx|
            #![trigger piece_ctx_of(ctx, *b, square, a)]
            piece_analysis_ok(side_board(*b, square), square, depth as int, a) && piece_ctx_of(ctx, *b, square, a)
                && prompt@ == (if own {
                piece_prompt_spec(ctx)
            } else {
                opponent_piece_prompt_spec(ctx)
            }) && fallback@ == (if own {
                fallback_piece_spec(ctx)
            } else {
                fallback_opponent_piece_spec(ctx)
            })),
{
    if square >= 90 || b.cells[square] == 0 {
        return Err(String::from_str("这里没有棋子"));
    }
    let own = (b.cells[square] > 0) == b.red_turn;
    let mut ab = *b;
    if !own {
        ab.red_turn = !ab.red_turn;
    }
    proof {
        assert(ab == side_board(*b, square));
    }
    let analysis = analyze_piece(&ab, square, depth);
    proof {
        reveal(cand_ok);
    }
    if analysis.candidates.len() == 0 {
        proof {
            if piece_can_move(ab, square) {
                let to = choose|to: usize| #[trigger] ab.legal_spec(Move { from: square, to });
                assert(ab.legal_spec(Move { from: square, to }));
            }
        }
        return Err(String::from_str("这枚棋子当前没有合法走法"));
    }
    proof {
        let c0 = analysis.candidates@[0];
        assert(ab.legal_spec(Move { from: square, to: c0.mv.to }));
        lemma_losses_fit(ab, depth as int, analysis);
    }
    match make_piece_ctx(b, square, &analysis) {
        None => Err(String::from_str("分析失败")),
        Some(ctx) => {
            let (prompt, fallback) = if own {
                (build_piece_prompt(&ctx), fallback_piece(&ctx))
            } else {
                (build_opponent_piece_prompt(&ctx), fallback_opponent_piece(&ctx))
            };
            proof {
                assert(piece_analysis_ok(ab, square, depth as int, analysis));
                assert(piece_ctx_of(ctx, *b, square, analysis));
            }
            Ok((own, prompt, fallback))
        },
    }
}

/// The prompt and the fallback text for explaining the student's own piece on `square`:
/// as `piece_texts`, but a piece of the side not to move is refused with
/// "现在不能走对方的棋子".
pub fn own_piece_texts(b: &Board, square: usize, depth: i32) -> (res: Result<(String, String), String>)
    requires
        b.wf(),
        (square < 90 && b.cell(square as int) != 0 && (b.cell(square as int) > 0) == b.red_turn && piece_can_move(*b, square))
            ==> i32::MIN < depth <= MATE,
    ensures
        (square >= 90 || b.cell(square as int) == 0) ==> (res matches Err(e) && e@ == "这里没有棋子"@),
        (square < 90 && b.cell(square as int) != 0 && (b.cell(square as int) > 0) != b.red_turn) ==> (res matches Err(e) && e@ == "现在不能走对方的棋子"@),
        (square < 90 && b.cell(square as int) != 0 && (b.cell(square as int) > 0) == b.red_turn && !piece_can_move(*b, square)) ==> (res matches Err(e) && e@ == "这枚棋子当前没有合法走法"@),
        (square < 90 && b.cell(square as int) != 0 && (b.cell(square as int) > 0) == b.red_turn && piece_can_move(*b, square)) ==> (res matches Ok((prompt, fallback)) && exists|a: Analysis, ctx: PieceCtx|
            #![trigger piece_ctx_of(ctx, *b, square, a)]
            piece_analysis_ok(*b, square, depth as int, a) && piece_ctx_of(ctx, *b, square, a)
                && prompt@ == piece_prompt_spec(ctx) && fallback@ == fallback_piece_spec(ctx)),
{
    if square >= 90 || b.cells[square] == 0 {
        return Err(String::from_str("这里没有棋子"));
    }
    if (b.cells[square] > 0) != b.red_turn {
        return Err(String::from_str("现在不能走对方的棋子"));
    }
    match piece_texts(b, square, depth) {
        Ok((_, prompt, fallback)) => Ok((prompt, fallback)),
        Err(e) => Err(e),
    }
}

/// The text shown for an explanation and where it came from: the model's answer when it
/// gave one ("ai"), otherwise the template advice ("fallback").
pub fn chosen_text(answer: Result<String, String>, fallback: String) -> (res: (String, &'static str))
    ensures
        match answer {
            Ok(t) => res.0@ == t@ && res.1@ == "ai"@,
            Err(_) => res.0@ == fallback@ && res.1@ == "fallback"@,
        },
{
    match answer {
        Ok(t) => (t, "ai"),
        Err(_) => (fallback, "fallback"),
    }
}

} // verus!
