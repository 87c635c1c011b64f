//! Built-in engine: material and placement evaluation, alpha-beta search with a
//! capture-only quiescence search. Scores are in points (a pawn is about 60),
//! positive meaning good for the side to move.
use vstd::prelude::*;
use crate::sort::{sort_by_key_stable, sorted_by_key};
use crate::notation::notation_spec;
use crate::movegen::{kings_adjacent, legal_order, target_moves};
use crate::xiangqi::{Board, Move, kind, kind_of, abs_int, K, A, E, H, R, C, P};

verus! {

pub const MATE: i32 = 1_000_000;
pub const INF: i32 = 2_000_000;

/// Largest magnitude a static evaluation can reach (90 cells, each worth at most 700).
pub open spec fn eval_bound() -> int {
    63000
}

pub open spec fn piece_value_spec(t: i8) -> int {
    let k = kind(t);
    if k == K {
        100000
    } else if k == R {
        600
    } else if k == H {
        270
    } else if k == C {
        300
    } else if k == A {
        120
    } else if k == E {
        120
    } else if k == P {
        60
    } else {
        0
    }
}

/// Nominal material value of a piece code (by kind).
pub fn piece_value(t: i8) -> (v: i32)
    requires
        t != i8::MIN,
    ensures
        v == piece_value_spec(t),
{
    let k = kind_of(t);
    if k == K {
        100000
    } else if k == R {
        600
    } else if k == H {
        270
    } else if k == C {
        300
    } else if k == A {
        120
    } else if k == E {
        120
    } else if k == P {
        60
    } else {
        0
    }
}

/// Placement-aware value of piece `p` standing on square `s` (unsigned; kings count 0).
pub open spec fn placed_value(p: i8, s: int) -> int {
    let r = s / 9;
    let c = s % 9;
    let k = kind(p);
    if k == R {
        600 + if c == 4 {
            6int
        } else {
            0
        }
    } else if k == H {
        270 + (if 3 <= c <= 5 {
            10int
        } else {
            0
        }) - (if c == 0 || c == 8 {
            8int
        } else {
            0
        })
    } else if k == C {
        300 + if c == 4 {
            10int
        } else {
            0
        }
    } else if k == A || k == E {
        120
    } else if k == P {
        let adv = if p > 0 {
            9 - r
        } else {
            r
        };
        let crossed = if p > 0 {
            r <= 4
        } else {
            r >= 5
        };
        60 + adv * 6 + (if crossed {
            30int
        } else {
            0
        }) + (4 - abs_int(c - 4)) * 2
    } else {
        0
    }
}

/// Contribution of square `s` to the evaluation from red's point of view.
pub open spec fn cell_score(p: i8, s: int) -> int {
    if p == 0 {
        0
    } else if p > 0 {
        placed_value(p, s)
    } else {
        -placed_value(p, s)
    }
}

/// Sum of the contributions of the first `n` squares.
pub open spec fn eval_upto(b: Board, n: int) -> int
    decreases n,
{
    if n <= 0 {
        0
    } else {
        eval_upto(b, n - 1) + cell_score(b.cell(n - 1), n - 1)
    }
}

/// Static evaluation from red's point of view.
pub open spec fn eval_spec(b: Board) -> int {
    eval_upto(b, 90)
}

/// Static evaluation from the point of view of the side to move.
pub open spec fn stand_pat(b: Board) -> int {
    if b.red_turn {
        eval_spec(b)
    } else {
        -eval_spec(b)
    }
}

pub proof fn lemma_placed_bound(p: i8, s: int)
    requires
        0 <= s < 90,
    ensures
        0 <= placed_value(p, s) <= 700,
{
    crate::xiangqi::lemma_rowcol(s);
}

pub proof fn lemma_eval_upto_bound(b: Board, n: int)
    requires
        0 <= n <= 90,
    ensures
        -700 * n <= eval_upto(b, n) <= 700 * n,
    decreases n,
{
    if n > 0 {
        lemma_eval_upto_bound(b, n - 1);
        lemma_placed_bound(b.cell(n - 1), n - 1);
    }
}

pub proof fn lemma_eval_bound(b: Board)
    ensures
        -eval_bound() <= eval_spec(b) <= eval_bound(),
        -eval_bound() <= stand_pat(b) <= eval_bound(),
{
    lemma_eval_upto_bound(b, 90);
}

/// `m` is `b` seen from the other side: the board turned half a turn, the colours of
/// all pieces swapped, and the other side to move.
pub open spec fn mirrored(b: Board, m: Board) -> bool {
    &&& forall|s: int| 0 <= s < 90 ==> #[trigger] m.cell(s) == -b.cell(89 - s)
    &&& m.red_turn == !b.red_turn
}

proof fn lemma_cell_score_mirror(p: i8, s: int)
    requires
        0 <= s < 90,
        p != i8::MIN,
    ensures
        cell_score((-p) as i8, 89 - s) == -cell_score(p, s),
{
    crate::xiangqi::lemma_rowcol(s);
    crate::xiangqi::lemma_rowcol(89 - s);
    let r = s / 9;
    let c = s % 9;
    assert((89 - s) / 9 == 9 - r && (89 - s) % 9 == 8 - c) by (nonlinear_arith)
        requires
            s == r * 9 + c,
            0 <= c < 9,
            0 <= r < 10,
    ;
}

/// Sums over the mirrored board run backwards over the given one.
proof fn lemma_eval_upto_mirror(b: Board, m: Board, n: int)
    requires
        b.wf(),
        mirrored(b, m),
        0 <= n <= 90,
    ensures
        eval_upto(m, n) == -(eval_upto(b, 90) - eval_upto(b, 90 - n)),
    decreases n,
{
    if n > 0 {
        lemma_eval_upto_mirror(b, m, n - 1);
        let s = 90 - n;
        assert(m.cell(n - 1) == -b.cell(s));
        assert(b.cell(s) != i8::MIN);
        lemma_cell_score_mirror(b.cell(s), s);
        assert(eval_upto(b, 91 - n) == eval_upto(b, 90 - n) + cell_score(b.cell(s), s));
    }
}

/// The evaluation treats both sides alike: seen from the other side, the same position
/// scores the opposite for red, and the same for the side to move.
pub proof fn law_eval_colour_symmetry(b: Board, m: Board)
    requires
        b.wf(),
        mirrored(b, m),
    ensures
        eval_spec(m) == -eval_spec(b),
        stand_pat(m) == stand_pat(b),
{
    lemma_eval_upto_mirror(b, m, 90);
}

/// Sum of the contributions of the first `k` cells of row `r`.
pub open spec fn row_sum(b: Board, r: int, k: int) -> int
    decreases k,
{
    if k <= 0 {
        0
    } else {
        row_sum(b, r, k - 1) + cell_score(b.cell(r * 9 + k - 1), r * 9 + k - 1)
    }
}

/// Sum of the row sums of the first `n` rows.
pub open spec fn rows_total(b: Board, n: int) -> int
    decreases n,
{
    if n <= 0 {
        0
    } else {
        rows_total(b, n - 1) + row_sum(b, n - 1, 9)
    }
}

proof fn lemma_eval_upto_row(b: Board, r: int, k: int)
    requires
        0 <= r,
        0 <= k <= 9,
    ensures
        eval_upto(b, r * 9 + k) == eval_upto(b, r * 9) + row_sum(b, r, k),
    decreases k,
{
    if k > 0 {
        lemma_eval_upto_row(b, r, k - 1);
    }
}

/// The evaluation is the sum of the row sums.
proof fn lemma_eval_rows(b: Board, n: int)
    requires
        0 <= n <= 10,
    ensures
        eval_upto(b, n * 9) == rows_total(b, n),
    decreases n,
{
    if n > 0 {
        lemma_eval_rows(b, n - 1);
        lemma_eval_upto_row(b, n - 1, 9);
    }
}

/// `m` is `b` seen in a mirror: every row reversed left to right, same side to move.
pub open spec fn mirrored_files(b: Board, m: Board) -> bool {
    &&& forall|r: int, c: int| 0 <= r < 10 && 0 <= c < 9 ==> #[trigger] m.cell(r * 9 + c) == b.cell(r * 9 + 8 - c)
    &&& m.red_turn == b.red_turn
}

/// `m` is `b` turned upside down with the colours of all pieces swapped: row `r` of `m`
/// is row `9 - r` of `b`, and the other side is to move.
pub open spec fn flipped_ranks(b: Board, m: Board) -> bool {
    &&& forall|r: int, c: int| 0 <= r < 10 && 0 <= c < 9 ==> #[trigger] m.cell(r * 9 + c) == -b.cell((9 - r) * 9 + c)
    &&& m.red_turn == !b.red_turn
}

proof fn lemma_cell_score_files(p: i8, r: int, c: int)
    requires
        0 <= r < 10,
        0 <= c < 9,
    ensures
        cell_score(p, r * 9 + 8 - c) == cell_score(p, r * 9 + c),
{
    crate::xiangqi::lemma_sq(r, c);
    crate::xiangqi::lemma_sq(r, 8 - c);
}

proof fn lemma_cell_score_ranks(p: i8, r: int, c: int)
    requires
        0 <= r < 10,
        0 <= c < 9,
        p != i8::MIN,
    ensures
        cell_score((-p) as i8, r * 9 + c) == -cell_score(p, (9 - r) * 9 + c),
{
    crate::xiangqi::lemma_sq(r, c);
    crate::xiangqi::lemma_sq(9 - r, c);
}

/// A reversed row sums from the other end.
proof fn lemma_row_sum_files(b: Board, m: Board, r: int, k: int)
    requires
        mirrored_files(b, m),
        0 <= r < 10,
        0 <= k <= 9,
    ensures
        row_sum(m, r, k) == row_sum(b, r, 9) - row_sum(b, r, 9 - k),
    decreases k,
{
    if k > 0 {
        lemma_row_sum_files(b, m, r, k - 1);
        let c = k - 1;
        assert(m.cell(r * 9 + c) == b.cell(r * 9 + 8 - c));
        lemma_cell_score_files(b.cell(r * 9 + 8 - c), r, c);
        assert(r * 9 + 8 - c == r * 9 + (9 - k));
        assert(row_sum(b, r, 10 - k) == row_sum(b, r, 9 - k) + cell_score(b.cell(r * 9 + 9 - k), r * 9 + 9 - k));
    }
}

proof fn lemma_row_sum_ranks(b: Board, m: Board, r: int, k: int)
    requires
        b.wf(),
        flipped_ranks(b, m),
        0 <= r < 10,
        0 <= k <= 9,
    ensures
        row_sum(m, r, k) == -row_sum(b, 9 - r, k),
    decreases k,
{
    if k > 0 {
        lemma_row_sum_ranks(b, m, r, k - 1);
        let c = k - 1;
        assert(m.cell(r * 9 + c) == -b.cell((9 - r) * 9 + c));
        crate::xiangqi::lemma_sq(9 - r, c);
        assert(b.cell((9 - r) * 9 + c) != i8::MIN);
        lemma_cell_score_ranks(b.cell((9 - r) * 9 + c), r, c);
    }
}

proof fn lemma_rows_total_files(b: Board, m: Board, n: int)
    requires
        mirrored_files(b, m),
        0 <= n <= 10,
    ensures
        rows_total(m, n) == rows_total(b, n),
    decreases n,
{
    if n > 0 {
        lemma_rows_total_files(b, m, n - 1);
        lemma_row_sum_files(b, m, n - 1, 9);
    }
}

proof fn lemma_rows_total_ranks(b: Board, m: Board, n: int)
    requires
        b.wf(),
        flipped_ranks(b, m),
        0 <= n <= 10,
    ensures
        rows_total(m, n) == -(rows_total(b, 10) - rows_total(b, 10 - n)),
    decreases n,
{
    if n > 0 {
        lemma_rows_total_ranks(b, m, n - 1);
        lemma_row_sum_ranks(b, m, n - 1, 9);
        assert(rows_total(b, 11 - n) == rows_total(b, 10 - n) + row_sum(b, 10 - n, 9));
    }
}

/// The evaluation does not tell left from right: the mirrored position scores the same.
pub proof fn law_eval_mirror_files(b: Board, m: Board)
    requires
        mirrored_files(b, m),
    ensures
        eval_spec(m) == eval_spec(b),
        stand_pat(m) == stand_pat(b),
{
    lemma_eval_rows(b, 10);
    lemma_eval_rows(m, 10);
    lemma_rows_total_files(b, m, 10);
}

/// Turning the board upside down and swapping the colours negates the evaluation for red
/// and keeps it for the side to move.
pub proof fn law_eval_flip_ranks(b: Board, m: Board)
    requires
        b.wf(),
        flipped_ranks(b, m),
    ensures
        eval_spec(m) == -eval_spec(b),
        stand_pat(m) == stand_pat(b),
{
    lemma_eval_rows(b, 10);
    lemma_eval_rows(m, 10);
    lemma_rows_total_ranks(b, m, 10);
}

/// Static evaluation of the position from red's point of view.
pub fn eval(b: &Board) -> (score: i32)
    requires
        b.wf(),
    ensures
        score == eval_spec(*b),
{
    let mut score: i32 = 0;
    let mut s: usize = 0;
    while s < 90
        invariant
            0 <= s <= 90,
            b.wf(),
            score == eval_upto(*b, s as int),
            -700 * s <= score <= 700 * s,
        decreases 90 - s,
    {
        let p = b.cells[s];
        proof {
            lemma_placed_bound(p, s as int);
            crate::xiangqi::lemma_rowcol(s as int);
        }
        if p != 0 {
            let r = (s / 9) as i32;
            let c = (s % 9) as i32;
            let k = kind_of(p);
            let v: i32 = if k == R {
                600 + if c == 4 {
                    6
                } else {
                    0
                }
            } else if k == H {
                let mut v: i32 = 270;
                if 3 <= c && c <= 5 {
                    v += 10;
                }
                if c == 0 || c == 8 {
                    v -= 8;
                }
                v
            } else if k == C {
                300 + if c == 4 {
                    10
                } else {
                    0
                }
            } else if k == A || k == E {
                120
            } else if k == P {
                let (adv, crossed) = if p > 0 {
                    (9 - r, r <= 4)
                } else {
                    (r, r >= 5)
                };
                let mut v: i32 = 60 + adv * 6;
                if crossed {
                    v += 30;
                }
                let dc = if c >= 4 {
                    c - 4
                } else {
                    4 - c
                };
                v + (4 - dc) * 2
            } else {
                0
            };
            assert(v == placed_value(p, s as int));
            score += if p > 0 {
                v
            } else {
                -v
            };
        }
        s = s + 1;
    }
    score
}

// ---------------------------------------------------------------------------
// Search values
// ---------------------------------------------------------------------------

pub open spec fn max_int(a: int, b: int) -> int {
    if a >= b {
        a
    } else {
        b
    }
}

/// `x` clamped into `[lo, hi]`.
pub open spec fn clamp(x: int, lo: int, hi: int) -> int {
    if x <= lo {
        lo
    } else if x >= hi {
        hi
    } else {
        x
    }
}

/// The move with index `j` in the enumeration of all (from, to) pairs.
pub open spec fn move_of(j: int) -> Move {
    Move { from: (j / 90) as usize, to: (j % 90) as usize }
}

pub open spec fn index_of(m: Move) -> int {
    m.from * 90 + m.to
}

pub proof fn lemma_move_index(m: Move)
    requires
        m.from < 90,
        m.to < 90,
    ensures
        0 <= index_of(m) < 8100,
        move_of(index_of(m)) == m,
{
    let f = m.from as int;
    let t = m.to as int;
    assert((f * 90 + t) / 90 == f && (f * 90 + t) % 90 == t && 0 <= f * 90 + t < 8100) by (nonlinear_arith)
        requires
            0 <= f < 90,
            0 <= t < 90,
    ;
}

/// A legal move that captures a piece.
pub open spec fn is_capture(b: Board, m: Move) -> bool {
    b.legal_spec(m) && b.cell(m.to as int) != 0
}

/// Value of the quiescence search at depth `q`: the stand-pat score, or the best
/// capture if it is better, looking at most 8 captures deep.
pub open spec fn qval(b: Board, q: int) -> int
    decreases 9 - q, 8101int,
{
    if q >= 8 {
        stand_pat(b)
    } else {
        max_int(stand_pat(b), qbest(b, q, 8100))
    }
}

/// Best value over the captures among the first `k` enumerated moves (`-INF` if none).
pub open spec fn qbest(b: Board, q: int, k: int) -> int
    decreases 9 - q, k,
{
    if k <= 0 || q >= 8 {
        -INF as int
    } else {
        let m = move_of(k - 1);
        let rest = qbest(b, q, k - 1);
        if is_capture(b, m) {
            max_int(rest, -qval(b.make_spec(m), q + 1))
        } else {
            rest
        }
    }
}

pub proof fn lemma_qval_bound(b: Board, q: int)
    ensures
        -eval_bound() <= qval(b, q) <= eval_bound(),
    decreases 9 - q, 8101int,
{
    lemma_eval_bound(b);
    if q < 8 {
        lemma_qbest_bound(b, q, 8100);
    }
}

pub proof fn lemma_qbest_bound(b: Board, q: int, k: int)
    requires
        q < 8,
    ensures
        qbest(b, q, k) == -INF || -eval_bound() <= qbest(b, q, k) <= eval_bound(),
    decreases 9 - q, k,
{
    if k > 0 {
        lemma_qbest_bound(b, q, k - 1);
        let m = move_of(k - 1);
        if is_capture(b, m) {
            lemma_qval_bound(b.make_spec(m), q + 1);
        }
    }
}

/// `qbest` is the maximum over the enumerated captures.
pub proof fn lemma_qbest_char(b: Board, q: int, k: int)
    requires
        q < 8,
        0 <= k,
    ensures
        forall|j: int| 0 <= j < k && #[trigger] is_capture(b, move_of(j)) ==> qbest(b, q, k) >= -qval(b.make_spec(move_of(j)), q + 1),
        qbest(b, q, k) == -INF || exists|j: int| 0 <= j < k && #[trigger] is_capture(b, move_of(j)) && qbest(b, q, k) == -qval(b.make_spec(move_of(j)), q + 1),
    decreases k,
{
    if k > 0 {
        lemma_qbest_char(b, q, k - 1);
    }
}

// ---------------------------------------------------------------------------
// Move ordering
// ---------------------------------------------------------------------------

/// Ordering key (smaller first): every capture before every quiet move; among
/// captures the most valuable victim first, then the cheapest attacker (MVV-LVA).
pub open spec fn order_key(b: Board, m: Move) -> int {
    let victim = b.cell(m.to as int);
    if victim != 0 {
        -(1_000_000_000 + piece_value_spec(victim) * 1_000_000 - piece_value_spec(b.cell(m.from as int)))
    } else {
        0
    }
}

fn move_key(b: &Board, mv: Move) -> (k: i64)
    requires
        b.wf(),
        mv.from < 90,
        mv.to < 90,
    ensures
        k == order_key(*b, mv),
{
    let victim = b.cells[mv.to];
    if victim != 0 {
        -(1_000_000_000i64 + piece_value(victim) as i64 * 1_000_000 - piece_value(b.cells[mv.from]) as i64)
    } else {
        0
    }
}

/// `after` is `before` reordered, entry `i` being entry `p[i]` of `before`, with moves of
/// equal ordering keys in the order they had.
pub open spec fn stable_reorder(b: Board, before: Seq<Move>, after: Seq<Move>, p: Seq<int>) -> bool {
    &&& p.len() == after.len() == before.len()
    &&& forall|i: int| 0 <= i < p.len() ==> 0 <= #[trigger] p[i] < before.len() && after[i] == before[p[i]]
    &&& forall|i: int, j: int| 0 <= i < j < p.len() ==> #[trigger] p[i] != #[trigger] p[j]
    &&& forall|i: int, j: int| 0 <= i < j < p.len() && order_key(b, #[trigger] after[i]) == order_key(b, #[trigger] after[j]) ==> p[i] < p[j]
}

/// Reorders `moves` by `order_key` (stably), keeping the same moves.
fn order_moves(b: &Board, moves: &mut Vec<Move>)
    requires
        b.wf(),
        forall|i: int| 0 <= i < old(moves)@.len() ==> (#[trigger] old(moves)@[i]).from < 90 && old(moves)@[i].to < 90,
    ensures
        final(moves)@.len() == old(moves)@.len(),
        forall|m: Move| #[trigger] final(moves)@.contains(m) <==> old(moves)@.contains(m),
        forall|i: int, j: int| 0 <= i < j < final(moves)@.len() ==> order_key(*b, #[trigger] final(moves)@[i]) <= order_key(*b, #[trigger] final(moves)@[j]),
        exists|p: Seq<int>| stable_reorder(*b, old(moves)@, final(moves)@, p),
        forall|i: int, j: int| 0 <= i < j < final(moves)@.len() && b.cell((#[trigger] final(moves)@[j]).to as int) != 0
            ==> b.cell((#[trigger] final(moves)@[i]).to as int) != 0,
{
    broadcast use vstd::seq_lib::group_to_multiset_ensures;

    let ghost orig = moves@;
    let mut keyed: Vec<(i128, Move)> = Vec::new();
    let mut i: usize = 0;
    while i < moves.len()
        invariant
            0 <= i <= moves@.len(),
            moves@ == orig,
            b.wf(),
            forall|k: int| 0 <= k < orig.len() ==> (#[trigger] orig[k]).from < 90 && orig[k].to < 90,
            keyed@.len() == i,
            forall|k: int| 0 <= k < i ==> #[trigger] keyed@[k] == (order_key(*b, orig[k]) as i128, orig[k]),
            forall|k: int| 0 <= k < i ==> order_key(*b, #[trigger] orig[k]) == keyed@[k].0,
        decreases moves@.len() - i,
    {
        let mv = moves[i];
        let k = move_key(b, mv);
        keyed.push((k as i128, mv));
        i = i + 1;
    }
    let sorted = sort_by_key_stable(keyed);
    let ghost ks = keyed@;
    let mut out: Vec<Move> = Vec::new();
    let mut j: usize = 0;
    while j < sorted.len()
        invariant
            0 <= j <= sorted@.len(),
            sorted_by_key(sorted@),
            out@.len() == j,
            forall|k: int| 0 <= k < j ==> #[trigger] out@[k] == sorted@[k].1,
        decreases sorted@.len() - j,
    {
        out.push(sorted[j].1);
        j = j + 1;
    }
    proof {
        assert forall|p: (i128, Move)| #[trigger] sorted@.contains(p) <==> ks.contains(p) by {
            vstd::seq_lib::to_multiset_contains(sorted@, p);
            vstd::seq_lib::to_multiset_contains(ks, p);
        }
        assert forall|m: Move| #[trigger] out@.contains(m) <==> orig.contains(m) by {
            if out@.contains(m) {
                let k = choose|k: int| 0 <= k < out@.len() && out@[k] == m;
                assert(sorted@.contains(sorted@[k]));
                assert(ks.contains(sorted@[k]));
                let k2 = choose|k2: int| 0 <= k2 < ks.len() && ks[k2] == sorted@[k];
                assert(orig[k2] == m);
            }
            if orig.contains(m) {
                let k = choose|k: int| 0 <= k < orig.len() && orig[k] == m;
                assert(ks.contains(ks[k]));
                assert(sorted@.contains(ks[k]));
                let k2 = choose|k2: int| 0 <= k2 < sorted@.len() && sorted@[k2] == ks[k];
                assert(out@[k2] == m);
            }
        }
        assert forall|p: (i128, Move)| sorted@.contains(p) implies p.0 == order_key(*b, p.1) by {
            let k2 = choose|k2: int| 0 <= k2 < ks.len() && ks[k2] == p;
        }
        assert forall|x: int, y: int| 0 <= x < y < out@.len() implies order_key(*b, #[trigger] out@[x]) <= order_key(*b, #[trigger] out@[y]) by {
            assert(sorted@.contains(sorted@[x]));
            assert(sorted@.contains(sorted@[y]));
            assert(sorted@[x].0 <= sorted@[y].0);
        }
        assert forall|x: int, y: int| 0 <= x < y < out@.len() && b.cell((#[trigger] out@[y]).to as int) != 0
            implies b.cell((#[trigger] out@[x]).to as int) != 0 by {
            assert(order_key(*b, out@[x]) <= order_key(*b, out@[y]));
        }
        let p = choose|p: Seq<int>| crate::sort::stable_rearrangement(ks, sorted@, p);
        assert forall|x: int| 0 <= x < p.len() implies 0 <= #[trigger] p[x] < orig.len() && out@[x] == orig[p[x]] by {
            assert(sorted@[x] == ks[p[x]]);
        }
        assert forall|x: int, y: int| 0 <= x < y < p.len() && order_key(*b, #[trigger] out@[x]) == order_key(*b, #[trigger] out@[y]) implies p[x] < p[y] by {
            assert(sorted@[x] == ks[p[x]]);
            assert(sorted@[y] == ks[p[y]]);
            assert(sorted@[x].0 == sorted@[y].0);
        }
        assert(stable_reorder(*b, orig, out@, p));
    }
    *moves = out;
}

// ---------------------------------------------------------------------------
// Quiescence search
// ---------------------------------------------------------------------------

/// The legal captures of the side to move.
fn capture_moves(b: &Board) -> (res: Vec<Move>)
    requires
        b.wf(),
    ensures
        forall|i: int| 0 <= i < res@.len() ==> (#[trigger] res@[i]).from < 90 && res@[i].to < 90 && is_capture(*b, res@[i]),
        forall|m: Move| #[trigger] is_capture(*b, m) ==> res@.contains(m),
{
    let all = b.legal_moves();
    let mut res: Vec<Move> = Vec::new();
    let mut i: usize = 0;
    while i < all.len()
        invariant
            0 <= i <= all@.len(),
            b.wf(),
            forall|k: int| 0 <= k < all@.len() ==> (#[trigger] all@[k]).from < 90 && all@[k].to < 90 && b.legal_spec(all@[k]),
            forall|k: int| 0 <= k < res@.len() ==> (#[trigger] res@[k]).from < 90 && res@[k].to < 90 && is_capture(*b, res@[k]),
            forall|k: int| 0 <= k < i && #[trigger] is_capture(*b, all@[k]) ==> res@.contains(all@[k]),
        decreases all@.len() - i,
    {
        let mv = all[i];
        if b.cells[mv.to] != 0 {
            let ghost r0 = res@;
            res.push(mv);
            proof {
                assert(res@[r0.len() as int] == mv);
                assert forall|k: int| 0 <= k < i + 1 && #[trigger] is_capture(*b, all@[k]) implies res@.contains(all@[k]) by {
                    if k < i {
                        let x = choose|x: int| 0 <= x < r0.len() && r0[x] == all@[k];
                        assert(res@[x] == r0[x]);
                    }
                }
            }
        }
        i = i + 1;
    }
    proof {
        assert forall|m: Move| #[trigger] is_capture(*b, m) implies res@.contains(m) by {
            assert(all@.contains(m));
            let k = choose|k: int| 0 <= k < all@.len() && all@[k] == m;
            assert(is_capture(*b, all@[k]));
        }
    }
    res
}

/// The list `l` holds exactly the captures of `b` (possibly repeated), and `seen` is
/// the best child value over it: then `seen` is the enumerated maximum.
proof fn lemma_seen_is_qbest(b: Board, q: int, l: Seq<Move>, seen: int)
    requires
        q < 8,
        forall|i: int| 0 <= i < l.len() ==> (#[trigger] l[i]).from < 90 && l[i].to < 90 && is_capture(b, l[i]),
        forall|m: Move| #[trigger] is_capture(b, m) ==> l.contains(m),
        forall|i: int| 0 <= i < l.len() ==> -qval(b.make_spec(#[trigger] l[i]), q + 1) <= seen,
        seen == -INF || exists|i: int| 0 <= i < l.len() && seen == -qval(b.make_spec(#[trigger] l[i]), q + 1),
    ensures
        seen == qbest(b, q, 8100),
{
    lemma_qbest_char(b, q, 8100);
    lemma_qbest_bound(b, q, 8100);
    if seen != -INF {
        let i = choose|i: int| 0 <= i < l.len() && seen == -qval(b.make_spec(#[trigger] l[i]), q + 1);
        lemma_move_index(l[i]);
        assert(is_capture(b, move_of(index_of(l[i]))));
        lemma_qval_bound(b.make_spec(l[i]), q + 1);
    }
    if qbest(b, q, 8100) != -INF {
        let j = choose|j: int| 0 <= j < 8100 && #[trigger] is_capture(b, move_of(j)) && qbest(b, q, 8100) == -qval(b.make_spec(move_of(j)), q + 1);
        assert(l.contains(move_of(j)));
        let i = choose|i: int| 0 <= i < l.len() && l[i] == move_of(j);
        assert(-qval(b.make_spec(l[i]), q + 1) <= seen);
    } else {
        if seen != -INF {
            let i = choose|i: int| 0 <= i < l.len() && seen == -qval(b.make_spec(#[trigger] l[i]), q + 1);
            lemma_qval_bound(b.make_spec(l[i]), q + 1);
        }
    }
}

/// Quiescence search: only captures are extended, so that a pending capture is not
/// overlooked at the search horizon. The result is the quiescence value clamped into
/// the window.
fn quiesce(b: &Board, alpha: i32, beta: i32, qply: i32) -> (res: i32)
    requires
        b.wf(),
        alpha < beta,
    ensures
        res == clamp(qval(*b, qply as int), alpha as int, beta as int),
    decreases 8 - qply,
{
    proof {
        lemma_eval_bound(*b);
        lemma_qval_bound(*b, qply as int);
    }
    let e = eval(b);
    let stand = if b.red_turn {
        e
    } else {
        -e
    };
    if stand >= beta {
        return beta;
    }
    let mut a = alpha;
    let ghost alpha0 = alpha;
    if stand > a {
        a = stand;
    }
    if qply >= 8 {
        return a;
    }
    let mut moves = capture_moves(b);
    let ghost m0 = moves@;
    order_moves(b, &mut moves);
    proof {
        assert forall|k: int| 0 <= k < moves@.len() implies (#[trigger] moves@[k]).from < 90 && moves@[k].to < 90 && is_capture(*b, moves@[k]) by {
            assert(moves@.contains(moves@[k]));
            assert(m0.contains(moves@[k]));
        }
    }
    let ghost q = qply as int;
    let ghost mut seen: int = -INF as int;
    let mut i: usize = 0;
    while i < moves.len()
        invariant
            b.wf(),
            qply < 8,
            q == qply,
            alpha0 < beta,
            i32::MIN < a,
            stand == stand_pat(*b),
            stand < beta,
            0 <= i <= moves@.len(),
            forall|k: int| 0 <= k < moves@.len() ==> (#[trigger] moves@[k]).from < 90 && moves@[k].to < 90 && is_capture(*b, moves@[k]),
            forall|m: Move| #[trigger] is_capture(*b, m) ==> moves@.contains(m),
            forall|k: int| 0 <= k < i ==> -qval(b.make_spec(#[trigger] moves@[k]), q + 1) <= seen,
            seen == -INF || exists|k: int| 0 <= k < i && seen == -qval(b.make_spec(#[trigger] moves@[k]), q + 1),
            seen < beta,
            alpha0 == alpha,
            a == max_int(max_int(alpha0 as int, stand as int), seen),
        decreases moves@.len() - i,
    {
        let mv = moves[i];
        let mut nb = *b;
        nb.make(mv);
        proof {
            crate::movegen::lemma_make_wf(*b, mv);
            lemma_qval_bound(nb, q + 1);
        }
        let s = -quiesce(&nb, -beta, -a, qply + 1);
        let ghost v = -qval(nb, q + 1);
        if s >= beta {
            proof {
                lemma_move_index(mv);
                lemma_qbest_char(*b, q, 8100);
                assert(is_capture(*b, move_of(index_of(mv))));
                assert(v >= beta);
                assert(qbest(*b, q, 8100) >= v);
                assert(qval(*b, q) >= beta);
            }
            return beta;
        }
        if s > a {
            a = s;
        }
        proof {
            seen = max_int(seen, v);
        }
        i = i + 1;
    }
    proof {
        lemma_seen_is_qbest(*b, q, moves@, seen);
    }
    a
}

// ---------------------------------------------------------------------------
// Alpha-beta search
// ---------------------------------------------------------------------------

/// The side to move has a legal move.
pub open spec fn has_legal(b: Board) -> bool {
    exists|m: Move| #[trigger] b.legal_spec(m)
}

/// Some legal move starts on `from`.
pub open spec fn piece_can_move(b: Board, from: usize) -> bool {
    exists|to: usize| #[trigger] b.legal_spec(Move { from, to })
}

/// Search value of `b` at `depth` (quiescence at the horizon); a side without a legal
/// move is lost, sooner losses scoring lower (`-MATE + ply`).
pub open spec fn nmval(b: Board, depth: int, ply: int) -> int
    decreases depth, 8101int,
{
    if depth <= 0 {
        qval(b, 0)
    } else if !has_legal(b) {
        -MATE + ply
    } else {
        nmbest(b, depth, ply, 8100)
    }
}

/// Best child value over the legal moves among the first `k` enumerated moves.
pub open spec fn nmbest(b: Board, depth: int, ply: int, k: int) -> int
    decreases depth, k,
{
    if k <= 0 || depth <= 0 {
        -INF as int
    } else {
        let m = move_of(k - 1);
        let rest = nmbest(b, depth, ply, k - 1);
        if b.legal_spec(m) {
            max_int(rest, -nmval(b.make_spec(m), depth - 1, ply + 1))
        } else {
            rest
        }
    }
}

/// The value of a move at the root of a search of the given depth.
pub open spec fn move_value(b: Board, m: Move, depth: int) -> int {
    -nmval(b.make_spec(m), depth - 1, 1)
}

/// What an alpha-beta search with window (alpha, beta) guarantees of its result `r`
/// against the true value `v`: a fail-low result bounds `v` from above, a fail-high
/// result from below, and a result inside the window is exact.
pub open spec fn ab_ok(r: int, v: int, alpha: int, beta: int) -> bool {
    &&& r <= alpha ==> v <= r
    &&& r >= beta ==> v >= r
    &&& alpha < r < beta ==> r == v
}

pub proof fn lemma_nmbest_char(b: Board, depth: int, ply: int, k: int)
    requires
        depth > 0,
        0 <= k,
    ensures
        forall|j: int| 0 <= j < k && #[trigger] b.legal_spec(move_of(j)) ==> nmbest(b, depth, ply, k) >= -nmval(b.make_spec(move_of(j)), depth - 1, ply + 1),
        nmbest(b, depth, ply, k) == -INF || exists|j: int| 0 <= j < k && #[trigger] b.legal_spec(move_of(j)) && nmbest(b, depth, ply, k) == -nmval(b.make_spec(move_of(j)), depth - 1, ply + 1),
    decreases k,
{
    if k > 0 {
        lemma_nmbest_char(b, depth, ply, k - 1);
    }
}

pub proof fn lemma_nm_bound(b: Board, depth: int, ply: int)
    requires
        0 <= ply,
        depth <= 0 || ply + depth <= MATE,
    ensures
        -MATE <= nmval(b, depth, ply) <= MATE,
    decreases depth, 8101int,
{
    if depth <= 0 {
        lemma_qval_bound(b, 0);
    } else if has_legal(b) {
        lemma_nmbest_bound(b, depth, ply, 8100);
        let m = choose|m: Move| #[trigger] b.legal_spec(m);
        lemma_move_index(m);
        lemma_nmbest_char(b, depth, ply, 8100);
        assert(b.legal_spec(move_of(index_of(m))));
        lemma_nm_bound(b.make_spec(m), depth - 1, ply + 1);
    }
}

pub proof fn lemma_nmbest_bound(b: Board, depth: int, ply: int, k: int)
    requires
        depth > 0,
        0 <= ply,
        ply + depth <= MATE,
    ensures
        nmbest(b, depth, ply, k) == -INF || -MATE <= nmbest(b, depth, ply, k) <= MATE,
    decreases depth, k,
{
    if k > 0 {
        lemma_nmbest_bound(b, depth, ply, k - 1);
        let m = move_of(k - 1);
        if b.legal_spec(m) {
            lemma_nm_bound(b.make_spec(m), depth - 1, ply + 1);
        }
    }
}

/// Alpha-beta search of `b` to `depth`, `ply` moves below the root, within a window of
/// the score range. Where the search goes below this node, the plies it counts and the
/// mate scores `-MATE + ply` they give fit an `i32`.
fn negamax(b: &Board, depth: i32, alpha: i32, beta: i32, ply: i32) -> (res: i32)
    requires
        b.wf(),
        -INF <= alpha < beta <= INF,
        depth > 0 ==> i32::MIN + MATE < ply && ply + depth <= i32::MAX,
    ensures
        ab_ok(res as int, nmval(*b, depth as int, ply as int), alpha as int, beta as int),
        i32::MIN < res,
    decreases depth,
{
    if depth <= 0 {
        return quiesce(b, alpha, beta, 0);
    }
    let mut moves = b.legal_moves();
    if moves.len() == 0 {
        proof {
            if has_legal(*b) {
                let m = choose|m: Move| #[trigger] b.legal_spec(m);
                assert(moves@.contains(m));
            }
        }
        return -MATE + ply;
    }
    let ghost m0 = moves@;
    order_moves(b, &mut moves);
    proof {
        assert forall|k: int| 0 <= k < moves@.len() implies (#[trigger] moves@[k]).from < 90 && moves@[k].to < 90 && b.legal_spec(moves@[k]) by {
            assert(moves@.contains(moves@[k]));
            assert(m0.contains(moves@[k]));
        }
        assert(has_legal(*b)) by {
            assert(b.legal_spec(moves@[0]));
        }
        lemma_nmbest_char(*b, depth as int, ply as int, 8100);
    }
    let ghost d = depth as int;
    let ghost pl = ply as int;
    let ghost v = nmval(*b, d, pl);
    let mut best: i32 = -INF;
    let mut a = alpha;
    let mut i: usize = 0;
    while i < moves.len()
        invariant
            b.wf(),
            d == depth,
            pl == ply,
            depth > 0,
            i32::MIN + MATE < ply,
            ply + depth <= i32::MAX,
            -INF <= alpha < beta <= INF,
            has_legal(*b),
            v == nmval(*b, d, pl),
            v == nmbest(*b, d, pl, 8100),
            forall|j: int| 0 <= j < 8100 && #[trigger] b.legal_spec(move_of(j)) ==> v >= -nmval(b.make_spec(move_of(j)), d - 1, pl + 1),
            0 <= i <= moves@.len(),
            forall|k: int| 0 <= k < moves@.len() ==> (#[trigger] moves@[k]).from < 90 && moves@[k].to < 90 && b.legal_spec(moves@[k]),
            forall|m: Move| #[trigger] b.legal_spec(m) ==> moves@.contains(m),
            -INF <= best < beta,
            i32::MIN < best,
            a == max_int(alpha as int, best as int),
            forall|k: int| 0 <= k < i ==> -nmval(b.make_spec(#[trigger] moves@[k]), d - 1, pl + 1) <= best,
            best > alpha ==> exists|k: int| 0 <= k < i && -nmval(b.make_spec(#[trigger] moves@[k]), d - 1, pl + 1) == best,
        decreases moves@.len() - i,
    {
        let mv = moves[i];
        let mut nb = *b;
        nb.make(mv);
        proof {
            crate::movegen::lemma_make_wf(*b, mv);
            lemma_move_index(mv);
            assert(b.legal_spec(move_of(index_of(mv))));
        }
        let s = -negamax(&nb, depth - 1, -beta, -a, ply + 1);
        if s > best {
            best = s;
        }
        if s > a {
            a = s;
        }
        if a >= beta {
            return best;
        }
        i = i + 1;
    }
    proof {
        if v != -INF {
            let j = choose|j: int| 0 <= j < 8100 && #[trigger] b.legal_spec(move_of(j)) && v == -nmval(b.make_spec(move_of(j)), d - 1, pl + 1);
            assert(moves@.contains(move_of(j)));
            let k = choose|k: int| 0 <= k < moves@.len() && moves@[k] == move_of(j);
            assert(-nmval(b.make_spec(moves@[k]), d - 1, pl + 1) <= best);
        }
        if best > alpha {
            let k = choose|k: int| 0 <= k < i && -nmval(b.make_spec(#[trigger] moves@[k]), d - 1, pl + 1) == best;
            lemma_move_index(moves@[k]);
            assert(b.legal_spec(move_of(index_of(moves@[k]))));
        }
    }
    best
}

// ---------------------------------------------------------------------------
// Analysis
// ---------------------------------------------------------------------------

/// One analysed candidate move.
#[derive(Clone, Debug)]
pub struct Candidate {
    pub mv: Move,
    /// Score from the mover's point of view.
    pub score: i32,
    /// The piece this move captures (0 if none).
    pub captured: i8,
    pub gives_check: bool,
    pub notation: String,
}

/// Result of an analysis: the best candidate and all candidates, best first.
pub struct Analysis {
    pub best: Option<Candidate>,
    pub candidates: Vec<Candidate>,
}

impl Candidate {
    /// An exact copy.
    pub fn copied(&self) -> (c: Candidate)
        ensures
            c == *self,
    {
        Candidate {
            mv: self.mv,
            score: self.score,
            captured: self.captured,
            gives_check: self.gives_check,
            notation: self.notation.clone(),
        }
    }
}

/// After playing `m`, the side that moved gives check.
pub open spec fn gives_check_spec(b: Board, m: Move) -> bool {
    b.make_spec(m).in_check_spec(b.make_spec(m).red_turn)
}

/// A candidate describes a legal move of `b` faithfully (all fields but the score).
#[verifier::opaque]
pub open spec fn cand_ok(b: Board, c: Candidate) -> bool {
    &&& c.mv.from < 90
    &&& c.mv.to < 90
    &&& b.legal_spec(c.mv)
    &&& c.captured == b.cell(c.mv.to as int)
    &&& c.gives_check == gives_check_spec(b, c.mv)
    &&& c.notation@ == notation_spec(b, c.mv)
}

/// Candidates are sorted by score, best first.
pub open spec fn sorted_desc(s: Seq<Candidate>) -> bool {
    forall|i: int, j: int| 0 <= i < j < s.len() ==> #[trigger] s[i].score >= #[trigger] s[j].score
}

/// The best field is the first candidate, if any.
pub open spec fn best_is_first(a: Analysis) -> bool {
    if a.candidates@.len() > 0 {
        a.best == Some(a.candidates@[0])
    } else {
        a.best is None
    }
}

fn describe_move(b: &Board, mv: Move, score: i32) -> (c: Candidate)
    requires
        b.wf(),
        b.legal_spec(mv),
        mv.from < 90,
        mv.to < 90,
    ensures
        cand_ok(*b, c),
        c.mv == mv,
        c.score == score,
{
    let captured = b.cells[mv.to];
    let gives_check = b.gives_check(mv);
    let notation = b.move_notation(mv);
    let c = Candidate { mv, score, captured, gives_check, notation };
    proof {
        reveal(cand_ok);
    }
    c
}

pub open spec fn two64() -> int {
    18446744073709551616
}

/// Entry `k` of the scored list: the candidate for `moves[k]`, scored with its move's
/// exact search value.
pub open spec fn entry_ok(b: Board, moves: Seq<Move>, pre: Seq<Candidate>, d: int, k: int) -> bool {
    let c = pre[k];
    &&& c.mv == moves[k]
    &&& cand_ok(b, c)
    &&& -INF < c.score < INF
    &&& c.score == move_value(b, c.mv, d)
}

pub open spec fn scored_ok(b: Board, moves: Seq<Move>, pre: Seq<Candidate>, d: int) -> bool {
    &&& pre.len() == moves.len()
    &&& forall|k: int| 0 <= k < pre.len() ==> #[trigger] entry_ok(b, moves, pre, d, k)
}

/// Scores each move with a full search window, so that every score is exact.
fn score_moves(b: &Board, moves: &Vec<Move>, depth: i32) -> (pre: Vec<Candidate>)
    requires
        b.wf(),
        moves@.len() > 0 ==> i32::MIN < depth <= MATE,
        forall|k: int| 0 <= k < moves@.len() ==> (#[trigger] moves@[k]).from < 90 && moves@[k].to < 90 && b.legal_spec(moves@[k]),
    ensures
        scored_ok(*b, moves@, pre@, depth as int),
{
    let ghost d = depth as int;
    let mut pre: Vec<Candidate> = Vec::new();
    let mut i: usize = 0;
    while i < moves.len()
        invariant
            b.wf(),
            d == depth,
            moves@.len() > 0 ==> i32::MIN < depth <= MATE,
            0 <= i <= moves@.len(),
            forall|k: int| 0 <= k < moves@.len() ==> (#[trigger] moves@[k]).from < 90 && moves@[k].to < 90 && b.legal_spec(moves@[k]),
            pre@.len() == i,
            forall|k: int| 0 <= k < i ==> #[trigger] entry_ok(*b, moves@, pre@, d, k),
        decreases moves@.len() - i,
    {
        let mv = moves[i];
        let mut nb = *b;
        nb.make(mv);
        proof {
            crate::movegen::lemma_make_wf(*b, mv);
            lemma_nm_bound(nb, d - 1, 1);
        }
        let r = negamax(&nb, depth - 1, -INF, INF, 1);
        let c = describe_move(b, mv, -r);
        let ghost k0 = pre@;
        pre.push(c);
        proof {
            assert forall|k: int| 0 <= k < i + 1 implies #[trigger] entry_ok(*b, moves@, pre@, d, k) by {
                if k < i {
                    assert(pre@[k] == k0[k]);
                    assert(entry_ok(*b, moves@, k0, d, k));
                }
            }
        }
        i = i + 1;
    }
    pre
}

/// Position `k` occurs in `order`.
pub open spec fn listed(order: Seq<usize>, k: int) -> bool {
    exists|x: int| 0 <= x < order.len() && #[trigger] order[x] == k
}

/// Sort key of entry `k` with score `s`: higher scores first, then earlier entries.
pub open spec fn rank_key(s: int, k: int) -> int {
    -s * two64() + k
}

/// Ranks the scored list: returns positions into `pre`, best score first, and among
/// equal scores the earlier entry first.
fn rank(pre: &Vec<Candidate>) -> (order: Vec<usize>)
    requires
        forall|k: int| 0 <= k < pre@.len() ==> -INF < (#[trigger] pre@[k]).score < INF,
    ensures
        order@.len() == pre@.len(),
        forall|x: int| 0 <= x < order@.len() ==> #[trigger] order@[x] < pre@.len(),
        forall|k: int| 0 <= k < pre@.len() ==> #[trigger] listed(order@, k),
        forall|x: int, y: int| 0 <= x < y < order@.len() ==> rank_key(pre@[order@[x] as int].score as int, order@[x] as int)
            <= rank_key(pre@[order@[y] as int].score as int, order@[y] as int),
        order@.no_duplicates(),
{
    broadcast use vstd::seq_lib::group_to_multiset_ensures;

    let mut keyed: Vec<(i128, usize)> = Vec::new();
    let mut i: usize = 0;
    while i < pre.len()
        invariant
            0 <= i <= pre@.len(),
            forall|k: int| 0 <= k < pre@.len() ==> -INF < (#[trigger] pre@[k]).score < INF,
            keyed@.len() == i,
            forall|k: int| 0 <= k < i ==> #[trigger] keyed@[k] == (rank_key(pre@[k].score as int, k) as i128, k as usize),
        decreases pre@.len() - i,
    {
        keyed.push((-(pre[i].score as i128) * 18446744073709551616i128 + i as i128, i));
        i = i + 1;
    }
    let ghost ks = keyed@;
    let sorted = sort_by_key_stable(keyed);
    let ghost ss = sorted@;
    let mut order: Vec<usize> = Vec::new();
    let mut j: usize = 0;
    while j < sorted.len()
        invariant
            0 <= j <= sorted@.len(),
            order@.len() == j,
            forall|x: int| 0 <= x < j ==> #[trigger] order@[x] == sorted@[x].1,
        decreases sorted@.len() - j,
    {
        order.push(sorted[j].1);
        j = j + 1;
    }
    proof {
        assert forall|x: int| 0 <= x < ss.len() implies ks.contains(#[trigger] ss[x]) by {
            vstd::seq_lib::to_multiset_contains(ss, ss[x]);
            vstd::seq_lib::to_multiset_contains(ks, ss[x]);
            assert(ss.contains(ss[x]));
        }
        assert forall|x: int| 0 <= x < order@.len() implies #[trigger] order@[x] < pre@.len()
            && ss[x].0 == rank_key(pre@[order@[x] as int].score as int, order@[x] as int) by {
            assert(ks.contains(ss[x]));
            let k = choose|k: int| 0 <= k < ks.len() && ks[k] == ss[x];
        }
        assert forall|k: int| 0 <= k < pre@.len() implies #[trigger] listed(order@, k) by {
            vstd::seq_lib::to_multiset_contains(ss, ks[k]);
            vstd::seq_lib::to_multiset_contains(ks, ks[k]);
            assert(ks.contains(ks[k]));
            let x = choose|x: int| 0 <= x < ss.len() && ss[x] == ks[k];
            assert(order@[x] == k);
        }
        assert forall|x: int, y: int| 0 <= x < y < order@.len() implies rank_key(pre@[order@[x] as int].score as int, order@[x] as int)
            <= rank_key(pre@[order@[y] as int].score as int, order@[y] as int) by {
            assert(ss[x].0 <= ss[y].0);
        }
        let p = choose|p: Seq<int>| crate::sort::stable_rearrangement(ks, ss, p);
        assert forall|x: int, y: int| 0 <= x < order@.len() && 0 <= y < order@.len() && x != y implies order@[x] != order@[y] by {
            assert(ss[x] == ks[p[x]]);
            assert(ss[y] == ks[p[y]]);
            if x < y {
                assert(p[x] != p[y]);
            } else {
                assert(p[y] != p[x]);
            }
        }
    }
    order
}

/// Positions are distinct in the ranked order.
proof fn lemma_rank_distinct(pre: Seq<Candidate>, order: Seq<usize>, x: int, y: int)
    requires
        forall|x: int| 0 <= x < order.len() ==> #[trigger] order[x] < pre.len(),
        forall|x: int, y: int| 0 <= x < y < order.len() ==> rank_key(pre[order[x] as int].score as int, order[x] as int)
            <= rank_key(pre[order[y] as int].score as int, order[y] as int),
        0 <= x < y < order.len(),
    ensures
        pre[order[x] as int].score >= pre[order[y] as int].score,
        pre[order[x] as int].score == pre[order[y] as int].score ==> order[x] <= order[y],
{
    let kx = order[x] as int;
    let ky = order[y] as int;
    let sx = pre[kx].score as int;
    let sy = pre[ky].score as int;
    assert(sx >= sy && (sx == sy ==> kx <= ky)) by (nonlinear_arith)
        requires
            -sx * two64() + kx <= -sy * two64() + ky,
            0 <= kx < two64(),
            0 <= ky < two64(),
    ;
}

/// Copies the candidates in ranked order.
fn gather(pre: &Vec<Candidate>, order: &Vec<usize>) -> (res: Vec<Candidate>)
    requires
        forall|x: int| 0 <= x < order@.len() ==> #[trigger] order@[x] < pre@.len(),
    ensures
        res@.len() == order@.len(),
        forall|x: int| 0 <= x < res@.len() ==> #[trigger] res@[x] == pre@[order@[x] as int],
{
    let mut res: Vec<Candidate> = Vec::new();
    let mut x: usize = 0;
    while x < order.len()
        invariant
            0 <= x <= order@.len(),
            forall|x: int| 0 <= x < order@.len() ==> #[trigger] order@[x] < pre@.len(),
            res@.len() == x,
            forall|z: int| 0 <= z < x ==> #[trigger] res@[z] == pre@[order@[z] as int],
        decreases order@.len() - x,
    {
        res.push(pre[order[x]].copied());
        x = x + 1;
    }
    res
}

/// `s` is the order in which the legal moves of `b` are searched: the listed order of
/// the legal moves, sorted stably by `order_key` (captures first, MVV-LVA).
pub open spec fn search_order(b: Board, s: Seq<Move>) -> bool {
    &&& exists|p: Seq<int>| stable_reorder(b, legal_order(b), s, p)
    &&& forall|i: int, j: int| 0 <= i < j < s.len() ==> order_key(b, #[trigger] s[i]) <= order_key(b, #[trigger] s[j])
}

/// `m` is the first move in search order that reaches the best value: every move
/// searched before it is worth less.
pub open spec fn first_best(b: Board, depth: int, m: Move) -> bool {
    exists|s: Seq<Move>, k: int| #![trigger search_order(b, s), s[k]]
        search_order(b, s) && 0 <= k < s.len() && s[k] == m
            && forall|j: int| 0 <= j < k ==> move_value(b, #[trigger] s[j], depth) < move_value(b, m, depth)
}

/// Some entry of `pos` is `k`.
pub open spec fn hit(pos: Seq<int>, k: int) -> bool {
    exists|x: int| 0 <= x < pos.len() && pos[x] == k
}

/// The candidates are the searched moves `s` ranked by score, best first, and among
/// equal scores in search order: candidate `x` is `s[pos[x]]`.
pub open spec fn ranked(cands: Seq<Candidate>, s: Seq<Move>, pos: Seq<int>) -> bool {
    &&& pos.len() == cands.len() == s.len()
    &&& forall|x: int| 0 <= x < pos.len() ==> 0 <= #[trigger] pos[x] < s.len() && cands[x].mv == s[pos[x]]
    &&& forall|k: int| 0 <= k < s.len() ==> #[trigger] hit(pos, k)
    &&& forall|x: int, y: int| 0 <= x < y < pos.len() ==> #[trigger] cands[x].score > #[trigger] cands[y].score
        || (cands[x].score == cands[y].score && pos[x] < pos[y])
}

/// The moves of the candidates, in order.
pub open spec fn cand_moves(cs: Seq<Candidate>) -> Seq<Move> {
    cs.map_values(|c: Candidate| c.mv)
}

/// `t` is `s` rearranged: entry `x` of `t` is entry `q[x]` of `s`, and no entry of `s`
/// is taken twice.
pub open spec fn rearranged(s: Seq<Move>, t: Seq<Move>, q: Seq<int>) -> bool {
    &&& q.len() == t.len() == s.len()
    &&& forall|x: int| 0 <= x < q.len() ==> 0 <= #[trigger] q[x] < s.len() && t[x] == s[q[x]]
    &&& forall|x: int, y: int| 0 <= x < y < q.len() ==> #[trigger] q[x] != #[trigger] q[y]
}

/// `t` holds the entries of `s`, each as often, in some order.
pub open spec fn is_permutation(s: Seq<Move>, t: Seq<Move>) -> bool {
    exists|q: Seq<int>| #[trigger] rearranged(s, t, q)
}

/// `a` is an analysis of `b` at `depth` as `analyze` delivers it.
pub open spec fn analysis_ok(b: Board, depth: int, a: Analysis) -> bool {
    &&& forall|i: int| 0 <= i < a.candidates@.len() ==> cand_ok(b, #[trigger] a.candidates@[i])
    &&& forall|m: Move| #[trigger] b.legal_spec(m) ==> exists|i: int| 0 <= i < a.candidates@.len() && #[trigger] a.candidates@[i].mv == m
    &&& a.candidates@.len() > 0 <==> has_legal(b)
    &&& sorted_desc(a.candidates@)
    &&& best_is_first(a)
    &&& forall|i: int| 0 <= i < a.candidates@.len() ==> (#[trigger] a.candidates@[i]).score == move_value(b, a.candidates@[i].mv, depth)
    &&& a.candidates@.len() > 0 ==> forall|m: Move| #[trigger] b.legal_spec(m) ==> move_value(b, m, depth) <= a.candidates@[0].score
    &&& exists|s: Seq<Move>, pos: Seq<int>| #![trigger search_order(b, s), ranked(a.candidates@, s, pos)]
        search_order(b, s) && ranked(a.candidates@, s, pos)
    &&& a.candidates@.len() > 0 ==> first_best(b, depth, a.candidates@[0].mv)
    &&& !kings_adjacent(b) ==> forall|i: int, j: int| 0 <= i < j < a.candidates@.len() ==> #[trigger] a.candidates@[i].mv != #[trigger] a.candidates@[j].mv
    &&& is_permutation(legal_order(b), cand_moves(a.candidates@))
}

/// `a` is an analysis of the moves of the piece on `from` as `analyze_piece` delivers it.
pub open spec fn piece_analysis_ok(b: Board, from: usize, depth: int, a: Analysis) -> bool {
    &&& forall|i: int| 0 <= i < a.candidates@.len() ==> cand_ok(b, #[trigger] a.candidates@[i])
        && a.candidates@[i].mv.from == from
        && a.candidates@[i].score == move_value(b, a.candidates@[i].mv, depth)
    &&& forall|to: usize| #[trigger] b.legal_spec(Move { from, to }) ==> exists|i: int| 0 <= i < a.candidates@.len() && #[trigger] a.candidates@[i].mv == (Move { from, to })
    &&& sorted_desc(a.candidates@)
    &&& best_is_first(a)
    &&& exists|pos: Seq<int>| #[trigger] ranked(a.candidates@, target_moves(b, from), pos)
    &&& is_permutation(target_moves(b, from), cand_moves(a.candidates@))
    &&& !kings_adjacent(b) ==> forall|i: int, j: int| 0 <= i < j < a.candidates@.len() ==> #[trigger] a.candidates@[i].mv != #[trigger] a.candidates@[j].mv
}

/// Analyses every legal move at the given depth with a full search window and returns
/// them best first; every score is the exact search value of its move, so the best
/// score minus a move's score is what that move loses. Where there is a move to search,
/// the depth is at most `MATE`: mate scores count plies against `MATE`, and no deeper
/// search would finish.
#[verifier::rlimit(40)]
pub fn analyze(b: &Board, depth: i32) -> (res: Analysis)
    requires
        b.wf(),
        has_legal(*b) ==> i32::MIN < depth <= MATE,
    ensures
        forall|i: int| 0 <= i < res.candidates@.len() ==> cand_ok(*b, #[trigger] res.candidates@[i]),
        forall|m: Move| #[trigger] b.legal_spec(m) ==> exists|i: int| 0 <= i < res.candidates@.len() && #[trigger] res.candidates@[i].mv == m,
        res.candidates@.len() > 0 <==> has_legal(*b),
        sorted_desc(res.candidates@),
        best_is_first(res),
        forall|i: int| 0 <= i < res.candidates@.len() ==> (#[trigger] res.candidates@[i]).score == move_value(*b, res.candidates@[i].mv, depth as int),
        res.candidates@.len() > 0 ==> forall|m: Move| #[trigger] b.legal_spec(m) ==> move_value(*b, m, depth as int) <= res.candidates@[0].score,
        !kings_adjacent(*b) ==> forall|i: int, j: int| 0 <= i < j < res.candidates@.len() ==> #[trigger] res.candidates@[i].mv != #[trigger] res.candidates@[j].mv,
        exists|s: Seq<Move>, pos: Seq<int>| #![trigger search_order(*b, s), ranked(res.candidates@, s, pos)]
            search_order(*b, s) && ranked(res.candidates@, s, pos),
        res.candidates@.len() > 0 ==> first_best(*b, depth as int, res.candidates@[0].mv),
        is_permutation(legal_order(*b), cand_moves(res.candidates@)),
        analysis_ok(*b, depth as int, res),
{
    let mut moves = b.legal_moves();
    let ghost m0 = moves@;
    order_moves(b, &mut moves);
    proof {
        if !kings_adjacent(*b) {
            let p = choose|p: Seq<int>| stable_reorder(*b, m0, moves@, p);
            assert forall|x: int, y: int| 0 <= x < moves@.len() && 0 <= y < moves@.len() && x != y implies moves@[x] != moves@[y] by {
                assert(moves@[x] == m0[p[x]]);
                assert(moves@[y] == m0[p[y]]);
                if x < y {
                    assert(p[x] != p[y]);
                } else {
                    assert(p[y] != p[x]);
                }
            }
        }
        assert forall|k: int| 0 <= k < moves@.len() implies (#[trigger] moves@[k]).from < 90 && moves@[k].to < 90 && b.legal_spec(moves@[k]) by {
            assert(moves@.contains(moves@[k]));
            assert(m0.contains(moves@[k]));
        }
        if moves@.len() > 0 {
            assert(b.legal_spec(moves@[0]));
        }
    }
    let ghost d = depth as int;
    let pre = score_moves(b, &moves, depth);
    proof {
        assert forall|k: int| 0 <= k < pre@.len() implies -INF < (#[trigger] pre@[k]).score < INF by {
            assert(entry_ok(*b, moves@, pre@, d, k));
        }
    }
    let order = rank(&pre);
    let candidates = gather(&pre, &order);
    proof {
        let ps = pre@;
        let os = order@;
        assert forall|x: int| 0 <= x < candidates@.len() implies cand_ok(*b, #[trigger] candidates@[x])
            && candidates@[x].score == move_value(*b, candidates@[x].mv, d) by {
            assert(entry_ok(*b, moves@, ps, d, os[x] as int));
        }
        assert forall|m: Move| #[trigger] b.legal_spec(m) implies exists|x: int| 0 <= x < candidates@.len() && #[trigger] candidates@[x].mv == m by {
            assert(moves@.contains(m));
            let k = choose|k: int| 0 <= k < moves@.len() && moves@[k] == m;
            assert(entry_ok(*b, moves@, ps, d, k));
            assert(listed(os, k));
            let x = choose|x: int| 0 <= x < os.len() && #[trigger] os[x] == k;
            assert(candidates@[x].mv == m);
        }
        assert forall|x: int, y: int| 0 <= x < y < candidates@.len() implies #[trigger] candidates@[x].score >= #[trigger] candidates@[y].score by {
            lemma_rank_distinct(ps, os, x, y);
        }
        if candidates@.len() > 0 {
            let k0 = os[0] as int;
            assert(entry_ok(*b, moves@, ps, d, k0));
            assert forall|k: int| 0 <= k < ps.len() implies ps[k].score < ps[k0].score || (ps[k].score == ps[k0].score && k >= k0) by {
                assert(listed(os, k));
                let x = choose|x: int| 0 <= x < os.len() && #[trigger] os[x] == k;
                if x > 0 {
                    lemma_rank_distinct(ps, os, 0, x);
                }
            }
            assert forall|m: Move| #[trigger] b.legal_spec(m) implies move_value(*b, m, d) <= candidates@[0].score by {
                assert(moves@.contains(m));
                let k = choose|k: int| 0 <= k < moves@.len() && moves@[k] == m;
                assert(entry_ok(*b, moves@, ps, d, k));
                assert(ps[k].score < ps[k0].score || (ps[k].score == ps[k0].score && k >= k0));
            }
            reveal(cand_ok);
            assert(b.legal_spec(candidates@[0].mv));
        } else {
            if has_legal(*b) {
                let m = choose|m: Move| #[trigger] b.legal_spec(m);
                let x = choose|x: int| 0 <= x < candidates@.len() && #[trigger] candidates@[x].mv == m;
            }
        }
    }
    let best = if candidates.len() > 0 {
        Some(candidates[0].copied())
    } else {
        None
    };
    let ghost cs = candidates@;
    proof {
        assert(search_order(*b, moves@));
        let pos = order@.map_values(|u: usize| u as int);
        assert forall|x: int| 0 <= x < pos.len() implies 0 <= #[trigger] pos[x] < moves@.len() && cs[x].mv == moves@[pos[x]] by {
            assert(entry_ok(*b, moves@, pre@, d, order@[x] as int));
        }
        assert forall|k: int| 0 <= k < moves@.len() implies #[trigger] hit(pos, k) by {
            assert(listed(order@, k));
            let x = choose|x: int| 0 <= x < order@.len() && #[trigger] order@[x] == k;
            assert(pos[x] == k);
        }
        assert forall|x: int, y: int| 0 <= x < y < pos.len() implies #[trigger] cs[x].score > #[trigger] cs[y].score
            || (cs[x].score == cs[y].score && pos[x] < pos[y]) by {
            lemma_rank_distinct(pre@, order@, x, y);
            assert(order@[x] != order@[y]);
        }
        assert(ranked(cs, moves@, pos));
        let p = choose|p: Seq<int>| stable_reorder(*b, m0, moves@, p);
        let q = pos.map_values(|v: int| p[v]);
        let mvs = cand_moves(cs);
        assert forall|x: int| 0 <= x < q.len() implies 0 <= #[trigger] q[x] < m0.len() && mvs[x] == m0[q[x]] by {
            assert(mvs[x] == cs[x].mv);
        }
        assert forall|x: int, y: int| 0 <= x < y < q.len() implies #[trigger] q[x] != #[trigger] q[y] by {
            assert(order@[x] != order@[y]);
            if pos[x] < pos[y] {
                assert(p[pos[x]] != p[pos[y]]);
            } else {
                assert(p[pos[y]] != p[pos[x]]);
            }
        }
        assert(rearranged(m0, mvs, q));
        if cs.len() > 0 {
            let k = pos[0];
            assert forall|j: int| 0 <= j < k implies move_value(*b, #[trigger] moves@[j], d) < move_value(*b, cs[0].mv, d) by {
                assert(hit(pos, j));
                let x = choose|x: int| 0 <= x < pos.len() && pos[x] == j;
                assert(x != 0);
                assert(cs[0].score > cs[x].score || (cs[0].score == cs[x].score && pos[0] < pos[x]));
                assert(entry_ok(*b, moves@, pre@, d, order@[x] as int));
                assert(entry_ok(*b, moves@, pre@, d, order@[0] as int));
            }
            assert(moves@[k] == cs[0].mv);
            assert(first_best(*b, d, cs[0].mv));
        }
    }
    proof {
        if !kings_adjacent(*b) {
            assert forall|x: int, y: int| 0 <= x < y < cs.len() implies #[trigger] cs[x].mv != #[trigger] cs[y].mv by {
                let kx = order@[x] as int;
                let ky = order@[y] as int;
                assert(entry_ok(*b, moves@, pre@, d, kx));
                assert(entry_ok(*b, moves@, pre@, d, ky));
                assert(order@[x] != order@[y]);
            }
        }
    }
    let res = Analysis { best, candidates };
    proof {
        assert(res.candidates@ == cs);
        assert forall|m: Move| #[trigger] b.legal_spec(m) implies exists|i: int| 0 <= i < res.candidates@.len() && #[trigger] res.candidates@[i].mv == m by {
            let x = choose|x: int| 0 <= x < cs.len() && #[trigger] cs[x].mv == m;
            assert(res.candidates@[x].mv == m);
        }
    }
    res
}

/// Analyses every legal move of the piece on `from` with a full window, best first;
/// every score is the exact search value of its move. Where the piece can move, the
/// depth is bounded as for `analyze`.
pub fn analyze_piece(b: &Board, from: usize, depth: i32) -> (res: Analysis)
    requires
        b.wf(),
        from < 90,
        piece_can_move(*b, from) ==> i32::MIN < depth <= MATE,
    ensures
        forall|i: int| 0 <= i < res.candidates@.len() ==> cand_ok(*b, #[trigger] res.candidates@[i])
            && res.candidates@[i].mv.from == from
            && res.candidates@[i].score == move_value(*b, res.candidates@[i].mv, depth as int),
        forall|to: usize| #[trigger] b.legal_spec(Move { from, to }) ==> exists|i: int| 0 <= i < res.candidates@.len() && #[trigger] res.candidates@[i].mv == (Move { from, to }),
        sorted_desc(res.candidates@),
        best_is_first(res),
        !kings_adjacent(*b) ==> forall|i: int, j: int| 0 <= i < j < res.candidates@.len() ==> #[trigger] res.candidates@[i].mv != #[trigger] res.candidates@[j].mv,
        exists|pos: Seq<int>| #[trigger] ranked(res.candidates@, target_moves(*b, from), pos),
        is_permutation(target_moves(*b, from), cand_moves(res.candidates@)),
        piece_analysis_ok(*b, from, depth as int, res),
{
    let targets = b.legal_targets(from);
    proof {
        if targets@.len() > 0 {
            assert(b.legal_spec(Move { from, to: targets@[0] }));
        }
    }
    let ghost d = depth as int;
    let mut pre: Vec<Candidate> = Vec::new();
    let mut i: usize = 0;
    while i < targets.len()
        invariant
            b.wf(),
            from < 90,
            d == depth,
            targets@.len() > 0 ==> i32::MIN < depth <= MATE,
            0 <= i <= targets@.len(),
            forall|k: int| 0 <= k < targets@.len() ==> #[trigger] targets@[k] < 90 && b.legal_spec(Move { from, to: targets@[k] }),
            pre@.len() == i,
            forall|k: int| 0 <= k < i ==> cand_ok(*b, #[trigger] pre@[k]) && pre@[k].mv == (Move { from, to: targets@[k] })
                && -INF < pre@[k].score < INF && pre@[k].score == move_value(*b, pre@[k].mv, d),
        decreases targets@.len() - i,
    {
        let to = targets[i];
        let mv = Move { from, to };
        let mut nb = *b;
        nb.make(mv);
        proof {
            crate::movegen::lemma_make_wf(*b, mv);
            lemma_nm_bound(nb, d - 1, 1);
        }
        let r = negamax(&nb, depth - 1, -INF, INF, 1);
        let c = describe_move(b, mv, -r);
        pre.push(c);
        i = i + 1;
    }
    let order = rank(&pre);
    let candidates = gather(&pre, &order);
    let ghost ps = pre@;
    let ghost os = order@;
    let ghost cs = candidates@;
    proof {
        assert forall|x: int, y: int| 0 <= x < y < cs.len() implies #[trigger] cs[x].score >= #[trigger] cs[y].score by {
            lemma_rank_distinct(ps, os, x, y);
        }
        let tm = target_moves(*b, from);
        let pos = os.map_values(|u: usize| u as int);
        assert forall|x: int| 0 <= x < pos.len() implies 0 <= #[trigger] pos[x] < tm.len() && cs[x].mv == tm[pos[x]] by {}
        assert forall|k: int| 0 <= k < tm.len() implies #[trigger] hit(pos, k) by {
            assert(listed(os, k));
            let x = choose|x: int| 0 <= x < os.len() && #[trigger] os[x] == k;
            assert(pos[x] == k);
        }
        assert forall|x: int, y: int| 0 <= x < y < pos.len() implies #[trigger] cs[x].score > #[trigger] cs[y].score
            || (cs[x].score == cs[y].score && pos[x] < pos[y]) by {
            lemma_rank_distinct(ps, os, x, y);
            assert(os[x] != os[y]);
        }
        assert(ranked(cs, tm, pos));
        let mvs = cand_moves(cs);
        assert forall|x: int| 0 <= x < pos.len() implies 0 <= #[trigger] pos[x] < tm.len() && mvs[x] == tm[pos[x]] by {
            assert(mvs[x] == cs[x].mv);
        }
        assert forall|x: int, y: int| 0 <= x < y < pos.len() implies #[trigger] pos[x] != #[trigger] pos[y] by {
            assert(os[x] != os[y]);
        }
        assert(rearranged(tm, mvs, pos));
        if !kings_adjacent(*b) {
            assert forall|x: int, y: int| 0 <= x < y < cs.len() implies #[trigger] cs[x].mv != #[trigger] cs[y].mv by {
                let kx = os[x] as int;
                let ky = os[y] as int;
                assert(os[x] != os[y]);
                assert(targets@[kx] != targets@[ky]);
            }
        }
    }
    let best = if candidates.len() > 0 {
        Some(candidates[0].copied())
    } else {
        None
    };
    let res = Analysis { best, candidates };
    proof {
        assert(res.candidates@ == cs);
        assert forall|to: usize| #[trigger] b.legal_spec(Move { from, to }) implies exists|i: int| 0 <= i < res.candidates@.len() && #[trigger] res.candidates@[i].mv == Move { from, to } by {
            assert(targets@.contains(to));
            let k = choose|k: int| 0 <= k < targets@.len() && targets@[k] == to;
            assert(listed(os, k));
            let x = choose|x: int| 0 <= x < os.len() && #[trigger] os[x] == k;
            assert(res.candidates@[x].mv == Move { from, to });
        }
    }
    res
}

/// The analysis of one piece agrees with the analysis of the whole position at the same
/// depth: every move of the piece is listed there with the same score, and the piece's
/// best score is at most the best score of the position.
pub proof fn law_piece_analysis_agrees(b: Board, from: usize, depth: int, a: Analysis, pa: Analysis)
    requires
        analysis_ok(b, depth, a),
        piece_analysis_ok(b, from, depth, pa),
    ensures
        forall|i: int| 0 <= i < pa.candidates@.len() ==> exists|j: int| 0 <= j < a.candidates@.len()
            && #[trigger] a.candidates@[j].mv == #[trigger] pa.candidates@[i].mv && a.candidates@[j].score == pa.candidates@[i].score,
        pa.best matches Some(pb) ==> (a.best matches Some(ab) && pb.score <= ab.score),
{
    reveal(cand_ok);
    assert forall|i: int| 0 <= i < pa.candidates@.len() implies exists|j: int| 0 <= j < a.candidates@.len()
        && #[trigger] a.candidates@[j].mv == #[trigger] pa.candidates@[i].mv && a.candidates@[j].score == pa.candidates@[i].score by {
        let c = pa.candidates@[i];
        assert(cand_ok(b, c));
        assert(b.legal_spec(c.mv));
        let j = choose|j: int| 0 <= j < a.candidates@.len() && #[trigger] a.candidates@[j].mv == c.mv;
        assert(a.candidates@[j].score == move_value(b, c.mv, depth));
    }
    if pa.candidates@.len() > 0 {
        let c = pa.candidates@[0];
        assert(cand_ok(b, c));
        assert(b.legal_spec(c.mv));
        assert(has_legal(b));
    }
}

/// At the search horizon a position is worth at least its stand-pat score, and at least
/// what each legal capture leaves the opponent, negated: the capture-only search looks at
/// every capture while fewer than 8 captures have been made.
pub proof fn law_horizon_sees_captures(b: Board, q: int, m: Move)
    requires
        q < 8,
        b.legal_spec(m),
        b.cell(m.to as int) != 0,
    ensures
        qval(b, q) >= stand_pat(b),
        qval(b, q) >= -qval(b.make_spec(m), q + 1),
{
    lemma_move_index(m);
    lemma_qbest_char(b, q, 8100);
    assert(is_capture(b, move_of(index_of(m))));
}

/// The horizon value is the stand-pat score or the value of some legal capture: it never
/// exceeds what the side to move can actually get.
pub proof fn law_horizon_value_attained(b: Board, q: int)
    ensures
        qval(b, q) == stand_pat(b) || (q < 8 && exists|m: Move| #[trigger] b.legal_spec(m) && b.cell(m.to as int) != 0
            && qval(b, q) == -qval(b.make_spec(m), q + 1)),
{
    if q < 8 {
        lemma_qbest_char(b, q, 8100);
        lemma_eval_bound(b);
        if qval(b, q) != stand_pat(b) {
            let j = choose|j: int| 0 <= j < 8100 && #[trigger] is_capture(b, move_of(j)) && qbest(b, q, 8100) == -qval(b.make_spec(move_of(j)), q + 1);
            assert(b.legal_spec(move_of(j)));
        }
    }
}

/// With no capture available, the horizon value is the stand-pat score.
pub proof fn law_quiet_horizon(b: Board, q: int)
    requires
        forall|m: Move| #[trigger] b.legal_spec(m) ==> b.cell(m.to as int) == 0,
    ensures
        qval(b, q) == stand_pat(b),
{
    law_horizon_value_attained(b, q);
}

/// The search value of a position: at the horizon (depth 0 or less) its capture-only
/// value; with no legal move a loss, `-MATE + ply` (sooner losses score lower);
/// otherwise at least what each legal move leaves the opponent one ply deeper, negated,
/// and equal to that for some legal move.
pub proof fn law_search_value(b: Board, depth: int, ply: int)
    requires
        0 <= ply,
        depth <= 0 || ply + depth <= MATE,
    ensures
        depth <= 0 ==> nmval(b, depth, ply) == qval(b, 0),
        depth > 0 && !has_legal(b) ==> nmval(b, depth, ply) == -MATE + ply,
        depth > 0 ==> forall|m: Move| #[trigger] b.legal_spec(m) ==> nmval(b, depth, ply) >= -nmval(b.make_spec(m), depth - 1, ply + 1),
        depth > 0 && has_legal(b) ==> exists|m: Move| #[trigger] b.legal_spec(m) && nmval(b, depth, ply) == -nmval(b.make_spec(m), depth - 1, ply + 1),
{
    if depth > 0 {
        lemma_nmbest_char(b, depth, ply, 8100);
        assert forall|m: Move| #[trigger] b.legal_spec(m) implies nmval(b, depth, ply) >= -nmval(b.make_spec(m), depth - 1, ply + 1) by {
            lemma_move_index(m);
            assert(b.legal_spec(move_of(index_of(m))));
        }
        if has_legal(b) {
            let m = choose|m: Move| #[trigger] b.legal_spec(m);
            lemma_move_index(m);
            assert(b.legal_spec(move_of(index_of(m))));
            lemma_nm_bound(b.make_spec(m), depth - 1, ply + 1);
            let j = choose|j: int| 0 <= j < 8100 && #[trigger] b.legal_spec(move_of(j)) && nmbest(b, depth, ply, 8100) == -nmval(b.make_spec(move_of(j)), depth - 1, ply + 1);
            assert(b.legal_spec(move_of(j)));
        }
    }
}

/// Search depth suited to the build: shallower for unoptimised (debug) builds.
pub fn default_depth(debug_build: bool) -> (d: i32)
    ensures
        d == (if debug_build {
            3i32
        } else {
            4i32
        }),
{
    if debug_build {
        3
    } else {
        4
    }
}

} // verus!
