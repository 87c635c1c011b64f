//! Pseudo-legal move generation, one piece kind at a time.
use vstd::prelude::*;
use crate::xiangqi::{kind_of, in_palace, crosses_river, abs32, signum32, sgn, Board, Move, extends, has_move, lemma_sq, lemma_rowcol, on_board, on_board_spec, abs_int, kind, in_palace_spec, crosses_river_spec, forward, K, A, E, H, R, C, P};

verus! {

/// What a generator guarantees: it appends to `old_s`, every appended move starts at
/// `from` and lands on a square satisfying `pred`, and every such square is appended.
pub open spec fn gen_post(from: int, old_s: Seq<Move>, new_s: Seq<Move>, pred: spec_fn(int) -> bool) -> bool {
    &&& extends(old_s, new_s)
    &&& forall|i: int|
        old_s.len() <= i < new_s.len() ==> (#[trigger] new_s[i]).from == from && new_s[i].to < 90
            && pred(new_s[i].to as int)
    &&& forall|t: int| 0 <= t < 90 && #[trigger] pred(t) ==> has_move(new_s, old_s.len() as int, from, t)
}

/// The entries of `s` from index `lo` on have pairwise different destinations.
pub open spec fn distinct_to(s: Seq<Move>, lo: int) -> bool {
    forall|i: int, j: int| lo <= i < j < s.len() ==> #[trigger] s[i].to != #[trigger] s[j].to
}

/// The two kings face each other on neighbouring squares of one file. In play this
/// never happens, each king keeping to its own palace.
pub open spec fn kings_adjacent(b: Board) -> bool {
    exists|s: int|
        0 <= s < 81 && kind(#[trigger] b.cell(s)) == K && kind(b.cell(s + 9)) == K && (b.cell(s) > 0) != (b.cell(s + 9) > 0)
}

/// `b` is `a`, or `a` with one move onto `t` appended.
#[verifier::opaque]
pub open spec fn same_or_pushed(a: Seq<Move>, b: Seq<Move>, t: int) -> bool {
    b == a || (b.len() == a.len() + 1 && b.drop_last() == a && b.last().to == t)
}

/// `b` differs from `a` only if `ok` holds.
#[verifier::opaque]
pub open spec fn grown_only_if(a: Seq<Move>, b: Seq<Move>, ok: bool) -> bool {
    b != a ==> ok
}

/// `b` is `a` followed by `t`.
#[verifier::opaque]
pub open spec fn appended_by(a: Seq<Move>, b: Seq<Move>, t: Seq<Move>) -> bool {
    b == a + t
}

/// The move `from -> (tr, tc)` when `cond` holds, the square is on the board and it is
/// empty or holds an enemy of `red`; nothing otherwise.
#[verifier::opaque]
pub open spec fn step_seq(b: Board, from: usize, red: bool, tr: int, tc: int, cond: bool) -> Seq<Move> {
    if cond && on_board_spec(tr, tc) && b.target_ok(red, tr * 9 + tc) {
        seq![Move { from, to: (tr * 9 + tc) as usize }]
    } else {
        seq![]
    }
}

/// The moves an advisor on `from` generates, in order: to the squares diagonally below
/// right, below left, above right, above left, each inside its palace.
pub open spec fn advisor_steps(b: Board, from: usize) -> Seq<Move> {
    let red = b.cell(from as int) > 0;
    let fr = from as int / 9;
    let fc = from as int % 9;
    step_seq(b, from, red, fr + 1, fc + 1, in_palace_spec(fr + 1, fc + 1, red))
        + step_seq(b, from, red, fr + 1, fc - 1, in_palace_spec(fr + 1, fc - 1, red))
        + step_seq(b, from, red, fr - 1, fc + 1, in_palace_spec(fr - 1, fc + 1, red))
        + step_seq(b, from, red, fr - 1, fc - 1, in_palace_spec(fr - 1, fc - 1, red))
}

/// Whether an elephant on (fr, fc) may step by (2 dr, 2 dc): the target is on the board
/// and on its own side of the river, and the eye between is empty.
pub open spec fn elephant_ok(b: Board, fr: int, fc: int, dr: int, dc: int, red: bool) -> bool {
    on_board_spec(fr + 2 * dr, fc + 2 * dc) && !crosses_river_spec(fr + 2 * dr, red) && b.at_spec(fr + dr, fc + dc) == 0
}

/// The moves an elephant on `from` generates, in the same order of directions.
pub open spec fn elephant_steps(b: Board, from: usize) -> Seq<Move> {
    let red = b.cell(from as int) > 0;
    let fr = from as int / 9;
    let fc = from as int % 9;
    step_seq(b, from, red, fr + 2, fc + 2, elephant_ok(b, fr, fc, 1, 1, red))
        + step_seq(b, from, red, fr + 2, fc - 2, elephant_ok(b, fr, fc, 1, -1, red))
        + step_seq(b, from, red, fr - 2, fc + 2, elephant_ok(b, fr, fc, -1, 1, red))
        + step_seq(b, from, red, fr - 2, fc - 2, elephant_ok(b, fr, fc, -1, -1, red))
}

/// The moves a horse on `from` generates, in order: two rows down (right, left), two
/// rows up (right, left), two columns right (down, up), two columns left (down, up),
/// each with its leg square empty.
pub open spec fn horse_steps(b: Board, from: usize) -> Seq<Move> {
    let red = b.cell(from as int) > 0;
    let fr = from as int / 9;
    let fc = from as int % 9;
    step_seq(b, from, red, fr + 2, fc + 1, b.at_spec(fr + 1, fc) == 0)
        + step_seq(b, from, red, fr + 2, fc - 1, b.at_spec(fr + 1, fc) == 0)
        + step_seq(b, from, red, fr - 2, fc + 1, b.at_spec(fr - 1, fc) == 0)
        + step_seq(b, from, red, fr - 2, fc - 1, b.at_spec(fr - 1, fc) == 0)
        + step_seq(b, from, red, fr + 1, fc + 2, b.at_spec(fr, fc + 1) == 0)
        + step_seq(b, from, red, fr - 1, fc + 2, b.at_spec(fr, fc + 1) == 0)
        + step_seq(b, from, red, fr + 1, fc - 2, b.at_spec(fr, fc - 1) == 0)
        + step_seq(b, from, red, fr - 1, fc - 2, b.at_spec(fr, fc - 1) == 0)
}

/// The moves a pawn on `from` generates, in order: forward, then once across the river
/// left and right.
pub open spec fn pawn_steps(b: Board, from: usize) -> Seq<Move> {
    let red = b.cell(from as int) > 0;
    let fr = from as int / 9;
    let fc = from as int % 9;
    step_seq(b, from, red, fr + forward(red), fc, true)
        + step_seq(b, from, red, fr, fc - 1, crosses_river_spec(fr, red))
        + step_seq(b, from, red, fr, fc + 1, crosses_river_spec(fr, red))
}

/// Whether a king on `from` takes the enemy king on row `t` of its file across an empty
/// stretch of the file.
pub open spec fn king_faces(b: Board, from: usize, t: int) -> bool {
    let red = b.cell(from as int) > 0;
    let fr = from as int / 9;
    let fc = from as int % 9;
    t != fr && kind(b.cell(t * 9 + fc)) == K && (b.cell(t * 9 + fc) > 0) != red && b.count_between(fr, fc, t, fc) == 0
}

/// The captures of the facing king that a king on `from` generates, rows `0..n` of its
/// file in order.
pub open spec fn king_file_steps(b: Board, from: usize, n: int) -> Seq<Move>
    decreases n,
{
    if n <= 0 {
        seq![]
    } else {
        king_file_steps(b, from, n - 1) + step_seq(b, from, b.cell(from as int) > 0, n - 1, from as int % 9, king_faces(b, from, n - 1))
    }
}

/// The moves a king on `from` generates, in order: one step down, up, right, left inside
/// its palace, then the capture of the facing king.
pub open spec fn king_steps(b: Board, from: usize) -> Seq<Move> {
    let red = b.cell(from as int) > 0;
    let fr = from as int / 9;
    let fc = from as int % 9;
    step_seq(b, from, red, fr + 1, fc, in_palace_spec(fr + 1, fc, red))
        + step_seq(b, from, red, fr - 1, fc, in_palace_spec(fr - 1, fc, red))
        + step_seq(b, from, red, fr, fc + 1, in_palace_spec(fr, fc + 1, red))
        + step_seq(b, from, red, fr, fc - 1, in_palace_spec(fr, fc - 1, red))
        + king_file_steps(b, from, 10)
}

/// The moves a chariot (or, with `cannon`, a cannon) on `from` generates walking from
/// (r, c) on in direction (dr, dc), at most `n` more squares: onto each empty square and
/// the first piece (a chariot); past a first piece onto the next one (a cannon).
pub open spec fn ray_steps(b: Board, from: usize, r: int, c: int, dr: int, dc: int, cannon: bool, jumped: bool, n: int) -> Seq<Move>
    decreases n,
{
    let red = b.cell(from as int) > 0;
    if n <= 0 || !on_board_spec(r, c) {
        seq![]
    } else if !cannon {
        if b.at_spec(r, c) == 0 {
            step_seq(b, from, red, r, c, true) + ray_steps(b, from, r + dr, c + dc, dr, dc, cannon, false, n - 1)
        } else {
            step_seq(b, from, red, r, c, true)
        }
    } else if !jumped {
        if b.at_spec(r, c) == 0 {
            step_seq(b, from, red, r, c, true) + ray_steps(b, from, r + dr, c + dc, dr, dc, cannon, false, n - 1)
        } else {
            ray_steps(b, from, r + dr, c + dc, dr, dc, cannon, true, n - 1)
        }
    } else if b.at_spec(r, c) != 0 {
        step_seq(b, from, red, r, c, true)
    } else {
        ray_steps(b, from, r + dr, c + dc, dr, dc, cannon, true, n - 1)
    }
}

/// The moves along one direction from `from`.
pub open spec fn direction_steps(b: Board, from: usize, dr: int, dc: int, cannon: bool) -> Seq<Move> {
    ray_steps(b, from, from as int / 9 + dr, from as int % 9 + dc, dr, dc, cannon, false, 10)
}

/// The moves a chariot or cannon on `from` generates: down, up, right, left.
pub open spec fn line_steps(b: Board, from: usize, cannon: bool) -> Seq<Move> {
    direction_steps(b, from, 1, 0, cannon) + direction_steps(b, from, -1, 0, cannon)
        + direction_steps(b, from, 0, 1, cannon) + direction_steps(b, from, 0, -1, cannon)
}

/// The moves the piece on `from` generates by its own rule, in generation order; none
/// for an empty square or a piece of the side not to move.
pub open spec fn piece_steps(b: Board, from: usize) -> Seq<Move> {
    let p = b.cell(from as int);
    if p == 0 || (p > 0) != b.red_turn {
        seq![]
    } else if kind(p) == K {
        king_steps(b, from)
    } else if kind(p) == A {
        advisor_steps(b, from)
    } else if kind(p) == E {
        elephant_steps(b, from)
    } else if kind(p) == H {
        horse_steps(b, from)
    } else if kind(p) == R {
        line_steps(b, from, false)
    } else if kind(p) == C {
        line_steps(b, from, true)
    } else if kind(p) == P {
        pawn_steps(b, from)
    } else {
        seq![]
    }
}

/// The generated moves of the pieces on squares `0..n`, square by square.
pub open spec fn all_steps(b: Board, n: int) -> Seq<Move>
    decreases n,
{
    if n <= 0 {
        seq![]
    } else {
        all_steps(b, n - 1) + piece_steps(b, (n - 1) as usize)
    }
}

/// The legal moves in the order they are listed: the generated moves of each square in
/// turn, those that leave the mover's king safe.
pub open spec fn legal_order(b: Board) -> Seq<Move> {
    all_steps(b, 90).filter(|m: Move| b.legal_spec(m))
}

/// The legal moves from `from` in the order their destinations are listed.
pub open spec fn target_moves(b: Board, from: usize) -> Seq<Move> {
    target_order(b, from).map_values(|t: usize| Move { from, to: t })
}

/// The legal destinations from `from` in the order they are listed.
pub open spec fn target_order(b: Board, from: usize) -> Seq<usize> {
    piece_steps(b, from).filter(|m: Move| b.legal_spec(m)).map_values(|m: Move| m.to)
}

/// Each state is the one before it, possibly with a move onto the next square of `ts`
/// appended; the squares of `ts` are pairwise different.
pub open spec fn push_chain(states: Seq<Seq<Move>>, ts: Seq<int>) -> bool {
    &&& states.len() == ts.len() + 1
    &&& forall|k: int| 0 <= k < ts.len() ==> #[trigger] same_or_pushed(states[k], states[k + 1], ts[k])
    &&& forall|i: int, j: int| 0 <= i < j < ts.len() ==> #[trigger] ts[i] != #[trigger] ts[j]
}

/// Along a push chain the appended moves land on pairwise different squares, each one
/// of the squares offered so far.
proof fn lemma_push_chain(states: Seq<Seq<Move>>, ts: Seq<int>, lo: int, n: int)
    requires
        push_chain(states, ts),
        states[0].len() == lo,
        0 <= n <= ts.len(),
    ensures
        distinct_to(states[n], lo),
        lo <= states[n].len(),
        forall|i: int| lo <= i < states[n].len() ==> exists|k: int| 0 <= k < n && ts[k] == #[trigger] states[n][i].to,
    decreases n,
{
    if n > 0 {
        lemma_push_chain(states, ts, lo, n - 1);
        let k = n - 1;
        let a = states[k];
        let b = states[k + 1];
        assert(same_or_pushed(a, b, ts[k]));
        reveal(same_or_pushed);
        if b != a {
            assert forall|i: int| 0 <= i < a.len() implies b[i] == a[i] by {
                assert(b.drop_last()[i] == b[i]);
            }
            assert forall|i: int| lo <= i < b.len() implies exists|k: int| 0 <= k < n && ts[k] == #[trigger] b[i].to by {
                if i < a.len() {
                    assert(b[i] == a[i]);
                    let k = choose|k: int| 0 <= k < n - 1 && ts[k] == #[trigger] a[i].to;
                    assert(ts[k] == b[i].to);
                } else {
                    assert(ts[n - 1] == b[i].to);
                }
            }
            assert forall|i: int, j: int| lo <= i < j < b.len() implies #[trigger] b[i].to != #[trigger] b[j].to by {
                assert(b[i] == a[i]);
                if j < a.len() {
                    assert(b[j] == a[j]);
                } else {
                    let k = choose|k: int| 0 <= k < n - 1 && ts[k] == #[trigger] a[i].to;
                    assert(ts[k] != ts[n - 1]);
                }
            }
        }
    }
}

/// Appending onto a square not among the destinations from `lo` on keeps them distinct.
proof fn lemma_push_new(a: Seq<Move>, b: Seq<Move>, lo: int, t: int)
    requires
        same_or_pushed(a, b, t),
        0 <= lo <= a.len(),
        distinct_to(a, lo),
        forall|i: int| lo <= i < a.len() ==> #[trigger] a[i].to != t,
    ensures
        distinct_to(b, lo),
        a.len() <= b.len() <= a.len() + 1,
        forall|i: int| 0 <= i < a.len() ==> b[i] == a[i],
        b.len() == a.len() + 1 ==> b[a.len() as int].to == t,
{
    reveal(same_or_pushed);
    if b != a {
        assert forall|i: int| 0 <= i < a.len() implies b[i] == a[i] by {
            assert(b.drop_last()[i] == b[i]);
        }
        assert forall|i: int, j: int| lo <= i < j < b.len() implies #[trigger] b[i].to != #[trigger] b[j].to by {
            assert(b[i] == a[i]);
            if j < a.len() {
                assert(b[j] == a[j]);
            }
        }
    }
}

/// Square `t` lies from `from` in direction (dr, dc) (along a row or a file).
pub open spec fn ray_dir(from: int, t: int, dr: int, dc: int) -> bool {
    sgn(t / 9 - from / 9) == dr && sgn(t % 9 - from % 9) == dc
}

/// Rows plus columns between `from` and `t`.
pub open spec fn ray_dist(from: int, t: int) -> int {
    abs_int(t / 9 - from / 9) + abs_int(t % 9 - from % 9)
}

pub proof fn lemma_has_move_pushed(s: Seq<Move>, lo: int, m: Move)
    requires
        lo <= s.len(),
    ensures
        has_move(s.push(m), lo, m.from as int, m.to as int),
{
    assert(s.push(m)[s.len() as int] == m);
}

pub proof fn lemma_extends_push(a: Seq<Move>, b: Seq<Move>, m: Move)
    requires
        extends(a, b),
    ensures
        extends(a, b.push(m)),
{
    assert(b.push(m).subrange(0, a.len() as int) =~= b.subrange(0, a.len() as int));
}

pub proof fn lemma_extends_trans(a: Seq<Move>, b: Seq<Move>, c: Seq<Move>)
    requires
        extends(a, b),
        extends(b, c),
    ensures
        extends(a, c),
{
    assert(c.subrange(0, a.len() as int) =~= c.subrange(0, b.len() as int).subrange(0, a.len() as int));
}

pub proof fn lemma_has_move_extends(a: Seq<Move>, b: Seq<Move>, lo: int, from: int, t: int)
    requires
        0 <= lo,
        extends(a, b),
        has_move(a, lo, from, t),
    ensures
        has_move(b, lo, from, t),
{
    let i = choose|i: int| lo <= i < a.len() && #[trigger] a[i].from == from && a[i].to == t;
    assert(lo <= i < a.len());
    assert(b.subrange(0, a.len() as int)[i] == a[i]);
    assert(b[i] == a[i]);
}

impl Board {
    /// Appends `from -> (tr, tc)` when `cond` holds, the square is on the board and it is
    /// empty or holds an enemy of `red`.
    fn push_if(&self, from: usize, red: bool, tr: i32, tc: i32, cond: bool, out: &mut Vec<Move>)
        ensures
            ({
                let ok = cond && on_board_spec(tr as int, tc as int) && self.target_ok(
                    red,
                    tr * 9 + tc,
                );
                &&& ok ==> final(out)@ == old(out)@.push(
                    Move { from, to: (tr * 9 + tc) as usize },
                )
                &&& !ok ==> final(out)@ == old(out)@
                &&& ok ==> (tr * 9 + tc) / 9 == tr && (tr * 9 + tc) % 9 == tc && 0 <= tr * 9 + tc
                    < 90
            }),
    {
        if cond && on_board(tr, tc) {
            proof {
                lemma_sq(tr as int, tc as int);
            }
            let tp = self.cells[(tr * 9 + tc) as usize];
            if tp == 0 || (tp > 0) != red {
                out.push(Move { from, to: (tr * 9 + tc) as usize });
            }
        }
    }
}

impl Board {
    /// Target squares that the piece on `from` may move to by its own rule.
    pub open spec fn rule_pred(self, from: int) -> spec_fn(int) -> bool {
        |t: int| 0 <= t < 90 && self.target_ok(self.cell(from) > 0, t) && self.piece_rule(from, t)
    }
}

/// The appended part of `s` (from index `lo`) holds only moves from `from` onto squares in `pred`.
pub open spec fn gen_sound(from: int, lo: int, s: Seq<Move>, pred: spec_fn(int) -> bool) -> bool {
    forall|i: int| lo <= i < s.len() ==> (#[trigger] s[i]).from == from && s[i].to < 90 && pred(s[i].to as int)
}

impl Board {
    /// `push_if` together with the bookkeeping that the generators need.
    fn push_step(
        &self,
        from: usize,
        red: bool,
        tr: i32,
        tc: i32,
        cond: bool,
        out: &mut Vec<Move>,
        Ghost(lo): Ghost<int>,
        Ghost(pred): Ghost<spec_fn(int) -> bool>,
    )
        requires
            0 <= lo <= old(out)@.len(),
            gen_sound(from as int, lo, old(out)@, pred),
            forall|t: int|
                t == tr * 9 + tc && t / 9 == tr && t % 9 == tc && cond && on_board_spec(tr as int, tc as int)
                    && self.target_ok(red, t) ==> #[trigger] pred(t),
        ensures
            extends(old(out)@, final(out)@),
            gen_sound(from as int, lo, final(out)@, pred),
            forall|t: int| #[trigger] has_move(old(out)@, lo, from as int, t) ==> has_move(final(out)@, lo, from as int, t),
            cond && on_board_spec(tr as int, tc as int) && self.target_ok(red, tr * 9 + tc)
                ==> has_move(final(out)@, lo, from as int, tr * 9 + tc),
            same_or_pushed(old(out)@, final(out)@, tr * 9 + tc),
            grown_only_if(old(out)@, final(out)@, cond && on_board_spec(tr as int, tc as int) && self.target_ok(red, tr * 9 + tc)),
            appended_by(old(out)@, final(out)@, step_seq(*self, from, red, tr as int, tc as int, cond)),
    {
        let ghost a = out@;
        self.push_if(from, red, tr, tc, cond, out);
        proof {
            reveal(step_seq);
            reveal(appended_by);
            assert(out@ =~= a + step_seq(*self, from, red, tr as int, tc as int, cond));
            reveal(same_or_pushed);
            reveal(grown_only_if);
            let ok = cond && on_board_spec(tr as int, tc as int) && self.target_ok(red, tr * 9 + tc);
            let b = out@;
            let m = Move { from, to: (tr * 9 + tc) as usize };
            assert(a.subrange(0, a.len() as int) =~= a);
            if ok {
                lemma_extends_push(a, a, m);
                lemma_has_move_pushed(a, lo, m);
                assert forall|i: int| lo <= i < b.len() implies (#[trigger] b[i]).from == from && b[i].to < 90 && pred(b[i].to as int) by {
                    if i < a.len() {
                        assert(b[i] == a[i]);
                    }
                }
            }
            assert forall|t: int| #[trigger] has_move(a, lo, from as int, t) implies has_move(b, lo, from as int, t) by {
                lemma_has_move_extends(a, b, lo, from as int, t);
            }
        }
    }

    fn gen_advisor(&self, from: usize, out: &mut Vec<Move>)
        requires
            from < 90,
            self.wf(),
            kind(self.cell(from as int)) == A,
        ensures
            gen_post(from as int, old(out)@, final(out)@, self.rule_pred(from as int)),
            distinct_to(final(out)@, old(out)@.len() as int),
            final(out)@ == old(out)@ + advisor_steps(*self, from),
    {
        let red = self.cells[from] > 0;
        proof {
            lemma_rowcol(from as int);
        }
        let fr = (from / 9) as i32;
        let fc = (from % 9) as i32;
        let ghost pred = self.rule_pred(from as int);
        let ghost s0 = out@;
        let ghost lo = s0.len() as int;
        assert(s0.subrange(0, lo) =~= s0);
        self.push_step(from, red, fr + 1, fc + 1, in_palace(fr + 1, fc + 1, red), out, Ghost(lo), Ghost(pred));
        let ghost s1 = out@;
        self.push_step(from, red, fr + 1, fc - 1, in_palace(fr + 1, fc - 1, red), out, Ghost(lo), Ghost(pred));
        let ghost s2 = out@;
        self.push_step(from, red, fr - 1, fc + 1, in_palace(fr - 1, fc + 1, red), out, Ghost(lo), Ghost(pred));
        let ghost s3 = out@;
        self.push_step(from, red, fr - 1, fc - 1, in_palace(fr - 1, fc - 1, red), out, Ghost(lo), Ghost(pred));
        proof {
            assert(out@ == s0 + advisor_steps(*self, from)) by {
                reveal(appended_by);
                assert(out@ =~= s0 + advisor_steps(*self, from));
            }
        }
        proof {
            assert(distinct_to(out@, lo)) by {
                let states = seq![s0, s1, s2, s3, out@];
                let ts = seq![(fr + 1) * 9 + (fc + 1), (fr + 1) * 9 + (fc - 1), (fr - 1) * 9 + (fc + 1), (fr - 1) * 9 + (fc - 1)];
                assert(same_or_pushed(states[0], states[1], ts[0]));
                assert(same_or_pushed(states[1], states[2], ts[1]));
                assert(same_or_pushed(states[2], states[3], ts[2]));
                assert(same_or_pushed(states[3], states[4], ts[3]));
                lemma_push_chain(states, ts, lo, 4);
            }
        }
        proof {
            lemma_extends_trans(s0, s1, s2);
            lemma_extends_trans(s0, s2, s3);
            lemma_extends_trans(s0, s3, out@);
            assert forall|t: int| 0 <= t < 90 && #[trigger] pred(t) implies has_move(out@, lo, from as int, t) by {
                lemma_rowcol(t);
            }
        }
    }
}

impl Board {
    #[verifier::rlimit(60)]
    fn gen_elephant(&self, from: usize, out: &mut Vec<Move>)
        requires
            from < 90,
            self.wf(),
            kind(self.cell(from as int)) == E,
        ensures
            gen_post(from as int, old(out)@, final(out)@, self.rule_pred(from as int)),
            distinct_to(final(out)@, old(out)@.len() as int),
            final(out)@ == old(out)@ + elephant_steps(*self, from),
    {
        let red = self.cells[from] > 0;
        proof {
            lemma_rowcol(from as int);
        }
        let fr = (from / 9) as i32;
        let fc = (from % 9) as i32;
        let ghost pred = self.rule_pred(from as int);
        let ghost s0 = out@;
        let ghost lo = s0.len() as int;
        assert(s0.subrange(0, lo) =~= s0);
        let c1 = on_board(fr + 2, fc + 2) && !crosses_river(fr + 2, red) && self.at(fr + 1, fc + 1) == 0;
        self.push_step(from, red, fr + 2, fc + 2, c1, out, Ghost(lo), Ghost(pred));
        let ghost s1 = out@;
        let c2 = on_board(fr + 2, fc - 2) && !crosses_river(fr + 2, red) && self.at(fr + 1, fc - 1) == 0;
        self.push_step(from, red, fr + 2, fc - 2, c2, out, Ghost(lo), Ghost(pred));
        let ghost s2 = out@;
        let c3 = on_board(fr - 2, fc + 2) && !crosses_river(fr - 2, red) && self.at(fr - 1, fc + 1) == 0;
        self.push_step(from, red, fr - 2, fc + 2, c3, out, Ghost(lo), Ghost(pred));
        let ghost s3 = out@;
        let c4 = on_board(fr - 2, fc - 2) && !crosses_river(fr - 2, red) && self.at(fr - 1, fc - 1) == 0;
        self.push_step(from, red, fr - 2, fc - 2, c4, out, Ghost(lo), Ghost(pred));
        proof {
            assert(out@ == s0 + elephant_steps(*self, from)) by {
                reveal(appended_by);
                assert(out@ =~= s0 + elephant_steps(*self, from));
            }
        }
        proof {
            assert(distinct_to(out@, lo)) by {
                let states = seq![s0, s1, s2, s3, out@];
                let ts = seq![(fr + 2) * 9 + (fc + 2), (fr + 2) * 9 + (fc - 2), (fr - 2) * 9 + (fc + 2), (fr - 2) * 9 + (fc - 2)];
                assert(same_or_pushed(states[0], states[1], ts[0]));
                assert(same_or_pushed(states[1], states[2], ts[1]));
                assert(same_or_pushed(states[2], states[3], ts[2]));
                assert(same_or_pushed(states[3], states[4], ts[3]));
                lemma_push_chain(states, ts, lo, 4);
            }
        }
        proof {
            lemma_extends_trans(s0, s1, s2);
            lemma_extends_trans(s0, s2, s3);
            lemma_extends_trans(s0, s3, out@);
            assert forall|t: int| 0 <= t < 90 && #[trigger] pred(t) implies has_move(out@, lo, from as int, t) by {
                lemma_rowcol(t);
            }
        }
    }

    #[verifier::rlimit(60)]
    fn gen_horse(&self, from: usize, out: &mut Vec<Move>)
        requires
            from < 90,
            self.wf(),
            kind(self.cell(from as int)) == H,
        ensures
            gen_post(from as int, old(out)@, final(out)@, self.rule_pred(from as int)),
            distinct_to(final(out)@, old(out)@.len() as int),
            final(out)@ == old(out)@ + horse_steps(*self, from),
    {
        let red = self.cells[from] > 0;
        proof {
            lemma_rowcol(from as int);
        }
        let fr = (from / 9) as i32;
        let fc = (from % 9) as i32;
        let ghost pred = self.rule_pred(from as int);
        let ghost s0 = out@;
        let ghost lo = s0.len() as int;
        assert(s0.subrange(0, lo) =~= s0);
        let c = self.at(fr + 1, fc) == 0;
        self.push_step(from, red, fr + 2, fc + 1, c, out, Ghost(lo), Ghost(pred));
        let ghost s1 = out@;
        self.push_step(from, red, fr + 2, fc - 1, c, out, Ghost(lo), Ghost(pred));
        let ghost s2 = out@;
        let c = self.at(fr - 1, fc) == 0;
        self.push_step(from, red, fr - 2, fc + 1, c, out, Ghost(lo), Ghost(pred));
        let ghost s3 = out@;
        self.push_step(from, red, fr - 2, fc - 1, c, out, Ghost(lo), Ghost(pred));
        let ghost s4 = out@;
        let c = self.at(fr, fc + 1) == 0;
        self.push_step(from, red, fr + 1, fc + 2, c, out, Ghost(lo), Ghost(pred));
        let ghost s5 = out@;
        self.push_step(from, red, fr - 1, fc + 2, c, out, Ghost(lo), Ghost(pred));
        let ghost s6 = out@;
        let c = self.at(fr, fc - 1) == 0;
        self.push_step(from, red, fr + 1, fc - 2, c, out, Ghost(lo), Ghost(pred));
        let ghost s7 = out@;
        self.push_step(from, red, fr - 1, fc - 2, c, out, Ghost(lo), Ghost(pred));
        proof {
            assert(out@ == s0 + horse_steps(*self, from)) by {
                reveal(appended_by);
                assert(out@ =~= s0 + horse_steps(*self, from));
            }
        }
        proof {
            assert(distinct_to(out@, lo)) by {
                let states = seq![s0, s1, s2, s3, s4, s5, s6, s7, out@];
                let ts = seq![(fr + 2) * 9 + (fc + 1), (fr + 2) * 9 + (fc - 1), (fr - 2) * 9 + (fc + 1), (fr - 2) * 9 + (fc - 1), (fr + 1) * 9 + (fc + 2), (fr - 1) * 9 + (fc + 2), (fr + 1) * 9 + (fc - 2), (fr - 1) * 9 + (fc - 2)];
                assert(same_or_pushed(states[0], states[1], ts[0]));
                assert(same_or_pushed(states[1], states[2], ts[1]));
                assert(same_or_pushed(states[2], states[3], ts[2]));
                assert(same_or_pushed(states[3], states[4], ts[3]));
                assert(same_or_pushed(states[4], states[5], ts[4]));
                assert(same_or_pushed(states[5], states[6], ts[5]));
                assert(same_or_pushed(states[6], states[7], ts[6]));
                assert(same_or_pushed(states[7], states[8], ts[7]));
                lemma_push_chain(states, ts, lo, 8);
            }
        }
        proof {
            lemma_extends_trans(s0, s1, s2);
            lemma_extends_trans(s0, s2, s3);
            lemma_extends_trans(s0, s3, s4);
            lemma_extends_trans(s0, s4, s5);
            lemma_extends_trans(s0, s5, s6);
            lemma_extends_trans(s0, s6, s7);
            lemma_extends_trans(s0, s7, out@);
            assert forall|t: int| 0 <= t < 90 && #[trigger] pred(t) implies has_move(out@, lo, from as int, t) by {
                lemma_rowcol(t);
            }
        }
    }

    fn gen_pawn(&self, from: usize, out: &mut Vec<Move>)
        requires
            from < 90,
            self.wf(),
            kind(self.cell(from as int)) == P,
        ensures
            gen_post(from as int, old(out)@, final(out)@, self.rule_pred(from as int)),
            distinct_to(final(out)@, old(out)@.len() as int),
            final(out)@ == old(out)@ + pawn_steps(*self, from),
    {
        let red = self.cells[from] > 0;
        proof {
            lemma_rowcol(from as int);
        }
        let fr = (from / 9) as i32;
        let fc = (from % 9) as i32;
        let ghost pred = self.rule_pred(from as int);
        let ghost s0 = out@;
        let ghost lo = s0.len() as int;
        assert(s0.subrange(0, lo) =~= s0);
        let fwd: i32 = if red {
            -1
        } else {
            1
        };
        self.push_step(from, red, fr + fwd, fc, true, out, Ghost(lo), Ghost(pred));
        let ghost s1 = out@;
        let crossed = if red {
            fr <= 4
        } else {
            fr >= 5
        };
        self.push_step(from, red, fr, fc - 1, crossed, out, Ghost(lo), Ghost(pred));
        let ghost s2 = out@;
        self.push_step(from, red, fr, fc + 1, crossed, out, Ghost(lo), Ghost(pred));
        proof {
            assert(out@ == s0 + pawn_steps(*self, from)) by {
                reveal(appended_by);
                assert(out@ =~= s0 + pawn_steps(*self, from));
            }
        }
        proof {
            assert(distinct_to(out@, lo)) by {
                let states = seq![s0, s1, s2, out@];
                let ts = seq![(fr + fwd) * 9 + fc, fr * 9 + (fc - 1), fr * 9 + (fc + 1)];
                assert(same_or_pushed(states[0], states[1], ts[0]));
                assert(same_or_pushed(states[1], states[2], ts[1]));
                assert(same_or_pushed(states[2], states[3], ts[2]));
                lemma_push_chain(states, ts, lo, 3);
            }
        }
        proof {
            lemma_extends_trans(s0, s1, s2);
            lemma_extends_trans(s0, s2, out@);
            assert forall|t: int| 0 <= t < 90 && #[trigger] pred(t) implies has_move(out@, lo, from as int, t) by {
                lemma_rowcol(t);
            }
        }
    }
}

/// Further along a line, at least as many cells lie in between (plus the cell passed).
pub proof fn lemma_between_mono(b: Board, fr: int, fc: int, dr: int, dc: int, r: int, c: int, r2: int, c2: int)
    requires
        (dr == 0 || dc == 0),
        (dr != 0 || dc != 0),
        sgn(r - fr) == dr,
        sgn(c - fc) == dc,
        sgn(r2 - fr) == dr,
        sgn(c2 - fc) == dc,
        abs_int(r - fr) + abs_int(c - fc) < abs_int(r2 - fr) + abs_int(c2 - fc),
    ensures
        b.count_between(fr, fc, r2, c2) >= b.count_between(fr, fc, r, c) + (if b.at_spec(r, c) != 0 {
            1int
        } else {
            0int
        }),
    decreases abs_int(r2 - fr) + abs_int(c2 - fc) - (abs_int(r - fr) + abs_int(c - fc)),
{
    crate::xiangqi::lemma_between_step(b, fr, fc, r2 - dr, c2 - dc, dr, dc);
    if abs_int(r - fr) + abs_int(c - fc) + 1 == abs_int(r2 - fr) + abs_int(c2 - fc) {
        assert(r2 - dr == r && c2 - dc == c);
    } else {
        lemma_between_mono(b, fr, fc, dr, dc, r, c, r2 - dr, c2 - dc);
    }
}

impl Board {
    /// A square reached along direction (dr, dc) by a chariot or cannon move.
    pub open spec fn ray_ok(self, from: int, t: int, dr: int, dc: int, cannon: bool) -> bool {
        &&& sgn(t / 9 - from / 9) == dr
        &&& sgn(t % 9 - from % 9) == dc
        &&& self.target_ok(self.cell(from) > 0, t)
        &&& self.line_ok(from, t, cannon)
    }

    #[verifier::rlimit(60)]
    fn gen_ray(
        &self,
        from: usize,
        cannon: bool,
        dr: i32,
        dc: i32,
        out: &mut Vec<Move>,
        Ghost(lo): Ghost<int>,
        Ghost(pred): Ghost<spec_fn(int) -> bool>,
    )
        requires
            from < 90,
            self.wf(),
            self.cell(from as int) != 0,
            (dr == 0 || dc == 0),
            (dr != 0 || dc != 0),
            -1 <= dr <= 1,
            -1 <= dc <= 1,
            0 <= lo <= old(out)@.len(),
            gen_sound(from as int, lo, old(out)@, pred),
            forall|t: int| 0 <= t < 90 && self.ray_ok(from as int, t, dr as int, dc as int, cannon) ==> #[trigger] pred(t),
            distinct_to(old(out)@, lo),
            forall|i: int| lo <= i < old(out)@.len() ==> !ray_dir(from as int, #[trigger] old(out)@[i].to as int, dr as int, dc as int),
        ensures
            extends(old(out)@, final(out)@),
            gen_sound(from as int, lo, final(out)@, pred),
            forall|t: int| #[trigger] has_move(old(out)@, lo, from as int, t) ==> has_move(final(out)@, lo, from as int, t),
            forall|t: int| 0 <= t < 90 && #[trigger] self.ray_ok(from as int, t, dr as int, dc as int, cannon)
                ==> has_move(final(out)@, lo, from as int, t),
            distinct_to(final(out)@, lo),
            forall|i: int| old(out)@.len() <= i < final(out)@.len() ==> ray_dir(from as int, #[trigger] final(out)@[i].to as int, dr as int, dc as int),
            final(out)@ == old(out)@ + direction_steps(*self, from, dr as int, dc as int, cannon),
    {
        let red = self.cells[from] > 0;
        proof {
            lemma_rowcol(from as int);
        }
        let fr = (from / 9) as i32;
        let fc = (from % 9) as i32;
        let ghost s0 = out@;
        assert(s0.subrange(0, s0.len() as int) =~= s0);
        let mut r = fr + dr;
        let mut c = fc + dc;
        let mut jumped = false;
        let mut stop = false;
        let ghost full = direction_steps(*self, from, dr as int, dc as int, cannon);
        while !stop && on_board(r, c)
            invariant
                full == direction_steps(*self, from, dr as int, dc as int, cannon),
                stop ==> out@ == s0 + full,
                !stop ==> out@ + ray_steps(*self, from, r as int, c as int, dr as int, dc as int, cannon, jumped,
                    11 - (abs_int(r - fr) + abs_int(c - fc))) == s0 + full,
                from < 90,
                self.wf(),
                fr == from / 9,
                fc == from % 9,
                0 <= fr < 10,
                0 <= fc < 9,
                red == (self.cell(from as int) > 0),
                (dr == 0 || dc == 0),
                (dr != 0 || dc != 0),
                -1 <= dr <= 1,
                -1 <= dc <= 1,
                sgn(r - fr) == dr,
                sgn(c - fc) == dc,
                1 <= abs_int(r - fr) + abs_int(c - fc) <= 20,
                -20 <= r <= 20,
                -20 <= c <= 20,
                !cannon ==> !jumped,
                stop && cannon ==> jumped,
                self.count_between(fr as int, fc as int, r as int, c as int) == (if jumped {
                    1int
                } else {
                    0int
                }),
                stop ==> on_board_spec(r as int, c as int) && self.at_spec(r as int, c as int) != 0,
                0 <= lo <= s0.len(),
                extends(s0, out@),
                gen_sound(from as int, lo, out@, pred),
                forall|t: int| #[trigger] has_move(s0, lo, from as int, t) ==> has_move(out@, lo, from as int, t),
                forall|t: int| 0 <= t < 90 && self.ray_ok(from as int, t, dr as int, dc as int, cannon)
                    ==> #[trigger] pred(t),
                forall|t: int|
                    0 <= t < 90 && #[trigger] self.ray_ok(from as int, t, dr as int, dc as int, cannon) && (
                    abs_int(t / 9 - fr) + abs_int(t % 9 - fc) < abs_int(r - fr) + abs_int(c - fc) || (
                    stop && abs_int(t / 9 - fr) + abs_int(t % 9 - fc) == abs_int(r - fr) + abs_int(
                        c - fc,
                    ))) ==> has_move(out@, lo, from as int, t),
                distinct_to(out@, lo),
                forall|i: int| lo <= i < s0.len() ==> !ray_dir(from as int, #[trigger] out@[i].to as int, dr as int, dc as int),
                forall|i: int| s0.len() <= i < out@.len() ==> ray_dir(from as int, #[trigger] out@[i].to as int, dr as int, dc as int)
                    && (ray_dist(from as int, out@[i].to as int) < abs_int(r - fr) + abs_int(c - fc) || (stop
                    && ray_dist(from as int, out@[i].to as int) == abs_int(r - fr) + abs_int(c - fc))),
            decreases 40 - (abs_int(r - fr) + abs_int(c - fc)) + (if stop {
                0int
            } else {
                1int
            }),
        {
            let tp = self.at(r, c);
            let ghost a = out@;
            proof {
                lemma_sq(r as int, c as int);
            }
            if !cannon {
                if tp == 0 {
                    self.push_step(from, red, r, c, true, out, Ghost(lo), Ghost(pred));
                } else {
                    self.push_step(from, red, r, c, true, out, Ghost(lo), Ghost(pred));
                    stop = true;
                }
            } else {
                if !jumped {
                    if tp == 0 {
                        self.push_step(from, red, r, c, true, out, Ghost(lo), Ghost(pred));
                    } else {
                        jumped = true;
                    }
                } else if tp != 0 {
                    self.push_step(from, red, r, c, true, out, Ghost(lo), Ghost(pred));
                    stop = true;
                }
            }
            proof {
                let n = 11 - (abs_int(r - fr) + abs_int(c - fc));
                assert(n >= 2);
                let rest = ray_steps(*self, from, r + dr, c + dc, dr as int, dc as int, cannon, jumped, n - 1);
                assert(stop ==> out@ == s0 + full) by {
                    reveal(appended_by);
                    if stop {
                        assert(out@ =~= s0 + full);
                    }
                }
                assert(!stop ==> out@ + rest == s0 + full) by {
                    reveal(appended_by);
                    if !stop {
                        assert(out@ + rest =~= s0 + full);
                    }
                }
            }
            proof {
                let t = r * 9 + c;
                reveal(same_or_pushed);
                assert forall|i: int| lo <= i < a.len() implies #[trigger] a[i].to != t by {
                    if i < s0.len() {
                        assert(!ray_dir(from as int, a[i].to as int, dr as int, dc as int));
                    }
                }
                lemma_push_new(a, out@, lo, t);
                assert forall|i: int| lo <= i < s0.len() implies !ray_dir(from as int, #[trigger] out@[i].to as int, dr as int, dc as int) by {
                    assert(out@[i] == a[i]);
                }
                lemma_extends_trans(s0, a, out@);
                assert(a.subrange(0, a.len() as int) =~= a);
                crate::xiangqi::lemma_between_step(*self, fr as int, fc as int, r as int, c as int, dr as int, dc as int);
                assert forall|t: int| 0 <= t < 90 && #[trigger] has_move(a, lo, from as int, t) implies has_move(out@, lo, from as int, t) by {
                    lemma_has_move_extends(a, out@, lo, from as int, t);
                }
            }
            if !stop {
                r = r + dr;
                c = c + dc;
            }
        }
        proof {
            assert forall|t: int| 0 <= t < 90 && #[trigger] self.ray_ok(from as int, t, dr as int, dc as int, cannon)
                implies has_move(out@, lo, from as int, t) by {
                lemma_rowcol(t);
                let tr = t / 9;
                let tc = t % 9;
                if stop {
                    if abs_int(tr - fr) + abs_int(tc - fc) > abs_int(r - fr) + abs_int(c - fc) {
                        lemma_between_mono(*self, fr as int, fc as int, dr as int, dc as int, r as int, c as int, tr, tc);
                        assert(false);
                    }
                } else {
                    assert(!on_board_spec(r as int, c as int));
                    assert(0 <= tr < 10 && 0 <= tc < 9);
                    assert(abs_int(tr - fr) + abs_int(tc - fc) < abs_int(r - fr) + abs_int(c - fc));
                }
            }
        }
    }
}

impl Board {
    fn gen_line(&self, from: usize, cannon: bool, out: &mut Vec<Move>)
        requires
            from < 90,
            self.wf(),
            kind(self.cell(from as int)) == (if cannon {
                C
            } else {
                R
            }),
        ensures
            gen_post(from as int, old(out)@, final(out)@, self.rule_pred(from as int)),
            distinct_to(final(out)@, old(out)@.len() as int),
            final(out)@ == old(out)@ + line_steps(*self, from, cannon),
    {
        proof {
            lemma_rowcol(from as int);
        }
        let ghost pred = self.rule_pred(from as int);
        let ghost s0 = out@;
        let ghost lo = s0.len() as int;
        let ghost f = from as int;
        assert(s0.subrange(0, lo) =~= s0);
        self.gen_ray(from, cannon, 1, 0, out, Ghost(lo), Ghost(pred));
        let ghost s1 = out@;
        self.gen_ray(from, cannon, -1, 0, out, Ghost(lo), Ghost(pred));
        let ghost s2 = out@;
        proof {
            assert forall|i: int| lo <= i < s2.len() implies sgn(#[trigger] s2[i].to as int / 9 - f / 9) != 0 by {
                if i < s1.len() {
                    assert(s2.subrange(0, s1.len() as int)[i] == s2[i]);
                    assert(ray_dir(f, s1[i].to as int, 1, 0));
                } else {
                    assert(ray_dir(f, s2[i].to as int, -1, 0));
                }
            }
        }
        self.gen_ray(from, cannon, 0, 1, out, Ghost(lo), Ghost(pred));
        let ghost s3 = out@;
        proof {
            assert forall|i: int| lo <= i < s3.len() implies !ray_dir(f, #[trigger] s3[i].to as int, 0, -1) by {
                if i < s2.len() {
                    assert(s3.subrange(0, s2.len() as int)[i] == s3[i]);
                    assert(sgn(s2[i].to as int / 9 - f / 9) != 0);
                } else {
                    assert(ray_dir(f, s3[i].to as int, 0, 1));
                }
            }
        }
        self.gen_ray(from, cannon, 0, -1, out, Ghost(lo), Ghost(pred));
        proof {
            assert(out@ =~= s0 + line_steps(*self, from, cannon));
            lemma_extends_trans(s0, s1, s2);
            lemma_extends_trans(s0, s2, s3);
            lemma_extends_trans(s0, s3, out@);
            assert forall|t: int| 0 <= t < 90 && #[trigger] pred(t) implies has_move(out@, lo, from as int, t) by {
                lemma_rowcol(t);
                let dr = sgn(t / 9 - from / 9);
                let dc = sgn(t % 9 - from % 9);
                assert(self.ray_ok(from as int, t, dr, dc, cannon));
            }
        }
    }

    #[verifier::rlimit(60)]
    fn gen_king(&self, from: usize, out: &mut Vec<Move>)
        requires
            from < 90,
            self.wf(),
            kind(self.cell(from as int)) == K,
        ensures
            gen_post(from as int, old(out)@, final(out)@, self.rule_pred(from as int)),
            !kings_adjacent(*self) ==> distinct_to(final(out)@, old(out)@.len() as int),
            final(out)@ == old(out)@ + king_steps(*self, from),
    {
        let red = self.cells[from] > 0;
        proof {
            lemma_rowcol(from as int);
        }
        let fr = (from / 9) as i32;
        let fc = (from % 9) as i32;
        let ghost pred = self.rule_pred(from as int);
        let ghost s0 = out@;
        let ghost lo = s0.len() as int;
        assert(s0.subrange(0, lo) =~= s0);
        self.push_step(from, red, fr + 1, fc, in_palace(fr + 1, fc, red), out, Ghost(lo), Ghost(pred));
        let ghost s1 = out@;
        self.push_step(from, red, fr - 1, fc, in_palace(fr - 1, fc, red), out, Ghost(lo), Ghost(pred));
        let ghost s2 = out@;
        self.push_step(from, red, fr, fc + 1, in_palace(fr, fc + 1, red), out, Ghost(lo), Ghost(pred));
        let ghost s3 = out@;
        self.push_step(from, red, fr, fc - 1, in_palace(fr, fc - 1, red), out, Ghost(lo), Ghost(pred));
        let ghost s4 = out@;
        let ghost gr = fr as int;
        let ghost gc = fc as int;
        let ghost four = step_seq(*self, from, red, gr + 1, gc, in_palace_spec(gr + 1, gc, red))
            + step_seq(*self, from, red, gr - 1, gc, in_palace_spec(gr - 1, gc, red))
            + step_seq(*self, from, red, gr, gc + 1, in_palace_spec(gr, gc + 1, red))
            + step_seq(*self, from, red, gr, gc - 1, in_palace_spec(gr, gc - 1, red));
        assert(s4 == s0 + four) by {
            reveal(appended_by);
            assert(s4 =~= s0 + four);
        }
        let ghost ts = seq![(fr + 1) * 9 + fc, (fr - 1) * 9 + fc, fr * 9 + (fc + 1), fr * 9 + (fc - 1)];
        proof {
            let states = seq![s0, s1, s2, s3, s4];
            assert(same_or_pushed(states[0], states[1], ts[0]));
            assert(same_or_pushed(states[1], states[2], ts[1]));
            assert(same_or_pushed(states[2], states[3], ts[2]));
            assert(same_or_pushed(states[3], states[4], ts[3]));
            lemma_push_chain(states, ts, lo, 4);
            assert forall|i: int| lo <= i < s4.len() implies #[trigger] s4[i].to == (fr + 1) * 9 + fc || s4[i].to == (fr - 1) * 9 + fc
                || s4[i].to == fr * 9 + (fc + 1) || s4[i].to == fr * 9 + (fc - 1) by {
                let k = choose|k: int| 0 <= k < 4 && ts[k] == #[trigger] s4[i].to;
            }
        }
        proof {
            lemma_extends_trans(s0, s1, s2);
            lemma_extends_trans(s0, s2, s3);
            lemma_extends_trans(s0, s3, s4);
            assert forall|t: int|
                0 <= t < 90 && #[trigger] pred(t) && abs_int(t / 9 - fr) + abs_int(t % 9 - fc) == 1
                    && in_palace_spec(t / 9, t % 9, red) implies has_move(s4, lo, from as int, t) by {
                lemma_rowcol(t);
            }
        }
        let mut tr: i32 = 0;
        while tr < 10
            invariant
                from < 90,
                self.wf(),
                fr == from / 9,
                fc == from % 9,
                0 <= fr < 10,
                0 <= fc < 9,
                red == (self.cell(from as int) > 0),
                kind(self.cell(from as int)) == K,
                0 <= tr <= 10,
                0 <= lo <= s4.len(),
                extends(s0, s4),
                extends(s4, out@),
                gen_sound(from as int, lo, out@, pred),
                pred == self.rule_pred(from as int),
                forall|t: int| #[trigger] has_move(s4, lo, from as int, t) ==> has_move(out@, lo, from as int, t),
                forall|t: int|
                    0 <= t < 90 && #[trigger] pred(t) && t % 9 == fc && t / 9 < tr && t / 9 != fr
                        && kind(self.cell(t)) == K && self.count_between(fr as int, fc as int, t / 9, fc as int) == 0
                        ==> has_move(out@, lo, from as int, t),
                !kings_adjacent(*self) ==> distinct_to(out@, lo),
                lo <= s4.len(),
                from == fr * 9 + fc,
                forall|i: int| lo <= i < s4.len() ==> #[trigger] s4[i].to == (fr + 1) * 9 + fc || s4[i].to == (fr - 1) * 9 + fc
                    || s4[i].to == fr * 9 + (fc + 1) || s4[i].to == fr * 9 + (fc - 1),
                forall|i: int| s4.len() <= i < out@.len() ==> (#[trigger] out@[i].to as int) % 9 == fc
                    && out@[i].to as int / 9 < tr && (!kings_adjacent(*self) ==> abs_int(out@[i].to as int / 9 - fr) >= 2),
                out@ == s4 + king_file_steps(*self, from, tr as int),
                red == (self.cell(from as int) > 0),
            decreases 10 - tr,
        {
            let ghost a = out@;
            let v = self.at(tr, fc);
            proof {
                lemma_sq(tr as int, fc as int);
            }
            let cond = tr != fr && kind_of(v) == K && (v > 0) != red && self.clear_between(fr, fc, tr, fc) == 0;
            self.push_step(from, red, tr, fc, cond, out, Ghost(lo), Ghost(pred));
            proof {
                let t = tr * 9 + fc;
                reveal(same_or_pushed);
                reveal(grown_only_if);
                if out@ != a {
                    assert(out@.drop_last() == a);
                    assert forall|i: int| 0 <= i < a.len() implies out@[i] == a[i] by {
                        assert(out@.drop_last()[i] == out@[i]);
                    }
                    if !kings_adjacent(*self) {
                        if tr == fr + 1 {
                            assert(kind(self.cell(from as int)) == K && kind(self.cell(from as int + 9)) == K);
                        }
                        if tr == fr - 1 {
                            assert(kind(self.cell(t)) == K && kind(self.cell(t + 9)) == K);
                        }
                        assert forall|i: int| lo <= i < a.len() implies #[trigger] a[i].to != t by {
                            if i < s4.len() {
                                assert(a.subrange(0, s4.len() as int)[i] == a[i]);
                                assert(s4[i].to == (fr + 1) * 9 + fc || s4[i].to == (fr - 1) * 9 + fc
                                    || s4[i].to == fr * 9 + (fc + 1) || s4[i].to == fr * 9 + (fc - 1));
                            }
                        }
                        lemma_push_new(a, out@, lo, t);
                    }
                    assert forall|i: int| s4.len() <= i < out@.len() implies (#[trigger] out@[i].to as int) % 9 == fc
                        && out@[i].to as int / 9 < tr + 1 && (!kings_adjacent(*self) ==> abs_int(out@[i].to as int / 9 - fr) >= 2) by {
                        if i < a.len() {
                            assert(out@[i] == a[i]);
                        } else {
                            assert(out@[i].to == t);
                            if !kings_adjacent(*self) {
                                if tr == fr + 1 {
                                    assert(kind(self.cell(from as int)) == K && kind(self.cell(from as int + 9)) == K);
                                }
                                if tr == fr - 1 {
                                    assert(kind(self.cell(t)) == K && kind(self.cell(t + 9)) == K);
                                }
                            }
                        }
                    }
                }
            }
            proof {
                lemma_extends_trans(s4, a, out@);
                assert forall|t: int| #[trigger] has_move(s4, lo, from as int, t) implies has_move(out@, lo, from as int, t) by {
                    lemma_has_move_extends(a, out@, lo, from as int, t);
                }
                assert forall|t: int|
                    0 <= t < 90 && #[trigger] pred(t) && t % 9 == fc && t / 9 < tr + 1 && t / 9 != fr
                        && kind(self.cell(t)) == K && self.count_between(fr as int, fc as int, t / 9, fc as int) == 0
                        implies has_move(out@, lo, from as int, t) by {
                    lemma_rowcol(t);
                    if t / 9 < tr {
                        lemma_has_move_extends(a, out@, lo, from as int, t);
                    }
                }
            }
            proof {
                assert(out@ == s4 + king_file_steps(*self, from, tr + 1)) by {
                    reveal(appended_by);
                    assert(out@ =~= s4 + king_file_steps(*self, from, tr + 1));
                }
            }
            tr = tr + 1;
        }
        proof {
            if !kings_adjacent(*self) {
                assert(distinct_to(out@, lo));
            }
            assert(out@ =~= s0 + king_steps(*self, from));
            lemma_extends_trans(s0, s4, out@);
            assert forall|t: int| 0 <= t < 90 && #[trigger] pred(t) implies has_move(out@, lo, from as int, t) by {
                lemma_rowcol(t);
            }
        }
    }

    /// Appends the pseudo-legal moves of the piece on `from`.
    pub(crate) fn pseudo_moves_from(&self, from: usize, out: &mut Vec<Move>)
        requires
            from < 90,
            self.wf(),
        ensures
            gen_post(from as int, old(out)@, final(out)@, |t: int| self.pseudo_spec(from as int, t)),
            !kings_adjacent(*self) ==> distinct_to(final(out)@, old(out)@.len() as int),
            final(out)@ == old(out)@ + piece_steps(*self, from),
    {
        let ghost s0 = out@;
        assert(s0.subrange(0, s0.len() as int) =~= s0);
        let p = self.cells[from];
        if p == 0 {
            return;
        }
        let red = p > 0;
        if red != self.red_turn {
            return;
        }
        let t = kind_of(p);
        if t == K {
            self.gen_king(from, out);
        } else if t == A {
            self.gen_advisor(from, out);
        } else if t == E {
            self.gen_elephant(from, out);
        } else if t == H {
            self.gen_horse(from, out);
        } else if t == R {
            self.gen_line(from, false, out);
        } else if t == C {
            self.gen_line(from, true, out);
        } else if t == P {
            self.gen_pawn(from, out);
        }
        proof {
            let pred = self.rule_pred(from as int);
            assert(pred =~= |t: int| self.pseudo_spec(from as int, t));
        }
    }
}

/// Playing a move keeps every cell a valid piece code.
pub proof fn lemma_make_wf(b: Board, m: Move)
    requires
        b.wf(),
        m.from < 90,
        m.to < 90,
    ensures
        b.make_spec(m).wf(),
        b.make_spec(m).cells@ == b.cells@.update(m.to as int, b.cells@[m.from as int]).update(m.from as int, 0i8),
{
    broadcast use vstd::array::group_array_axioms;
    let a1 = vstd::array::spec_array_update(b.cells, m.to as int, b.cells@[m.from as int]);
    assert(a1@ == b.cells@.update(m.to as int, b.cells@[m.from as int]));
}

/// A legal move moves a piece of the side to move onto an empty square or an enemy
/// piece, never leaves the mover's own king attacked, and passes the turn.
pub proof fn law_legal_move(b: Board, m: Move)
    requires
        b.wf(),
        b.legal_spec(m),
    ensures
        b.cell(m.from as int) != 0 && (b.cell(m.from as int) > 0) == b.red_turn,
        b.cell(m.to as int) == 0 || (b.cell(m.to as int) > 0) != b.red_turn,
        !b.make_spec(m).in_check_spec(b.red_turn),
        b.make_spec(m).red_turn == !b.red_turn,
        b.make_spec(m).wf(),
{
    lemma_make_wf(b, m);
}

impl Board {
    /// All legal moves of the side to move: square by square from 0 up, each piece's moves
    /// in the order it generates them (`legal_order`).
    pub fn legal_moves(&self) -> (res: Vec<Move>)
        requires
            self.wf(),
        ensures
            forall|i: int| 0 <= i < res@.len() ==> (#[trigger] res@[i]).from < 90 && res@[i].to < 90 && self.legal_spec(res@[i]),
            forall|m: Move| #[trigger] self.legal_spec(m) ==> res@.contains(m),
            forall|i: int, j: int| 0 <= i < j < res@.len() ==> (#[trigger] res@[i]).from <= (#[trigger] res@[j]).from,
            !kings_adjacent(*self) ==> res@.no_duplicates(),
            res@ == legal_order(*self),
    {
        let mut pseudo: Vec<Move> = Vec::with_capacity(64);
        let mut f: usize = 0;
        while f < 90
            invariant
                0 <= f <= 90,
                self.wf(),
                forall|i: int| 0 <= i < pseudo@.len() ==> (#[trigger] pseudo@[i]).from < f && pseudo@[i].to < 90
                    && self.pseudo_spec(pseudo@[i].from as int, pseudo@[i].to as int),
                forall|g: int, t: int| 0 <= g < f && #[trigger] self.pseudo_spec(g, t) ==> has_move(pseudo@, 0, g, t),
                forall|i: int, j: int| 0 <= i < j < pseudo@.len() ==> (#[trigger] pseudo@[i]).from <= (#[trigger] pseudo@[j]).from,
                !kings_adjacent(*self) ==> pseudo@.no_duplicates(),
                pseudo@ == all_steps(*self, f as int),
            decreases 90 - f,
        {
            let ghost a = pseudo@;
            let p = self.cells[f];
            if p != 0 && (p > 0) == self.red_turn {
                self.pseudo_moves_from(f, &mut pseudo);
            }
            proof {
                assert(pseudo@ =~= all_steps(*self, f + 1));
                assert(a.subrange(0, a.len() as int) =~= a);
                assert forall|g: int, t: int| 0 <= g < f + 1 && #[trigger] self.pseudo_spec(g, t) implies has_move(pseudo@, 0, g, t) by {
                    if g < f {
                        lemma_has_move_extends(a, pseudo@, 0, g, t);
                    } else {
                        assert((|t: int| self.pseudo_spec(f as int, t))(t));
                        let i = choose|i: int| a.len() <= i < pseudo@.len() && #[trigger] pseudo@[i].from == g && pseudo@[i].to == t;
                    }
                }
                assert forall|i: int| 0 <= i < pseudo@.len() implies (#[trigger] pseudo@[i]).from < f + 1 && pseudo@[i].to < 90
                    && self.pseudo_spec(pseudo@[i].from as int, pseudo@[i].to as int) by {
                    if i < a.len() {
                        assert(pseudo@.subrange(0, a.len() as int)[i] == pseudo@[i]);
                    } else {
                        assert((|t: int| self.pseudo_spec(f as int, t))(pseudo@[i].to as int));
                    }
                }
                if !kings_adjacent(*self) {
                    assert forall|i: int, j: int| 0 <= i < pseudo@.len() && 0 <= j < pseudo@.len() && i != j implies pseudo@[i] != pseudo@[j] by {
                        if i < a.len() && j < a.len() {
                            assert(pseudo@.subrange(0, a.len() as int)[i] == pseudo@[i]);
                            assert(pseudo@.subrange(0, a.len() as int)[j] == pseudo@[j]);
                        } else if i < a.len() {
                            assert(pseudo@.subrange(0, a.len() as int)[i] == pseudo@[i]);
                        } else if j < a.len() {
                            assert(pseudo@.subrange(0, a.len() as int)[j] == pseudo@[j]);
                        } else if i < j {
                            assert(pseudo@[i].to != pseudo@[j].to);
                        } else {
                            assert(pseudo@[j].to != pseudo@[i].to);
                        }
                    }
                }
                assert forall|i: int, j: int| 0 <= i < j < pseudo@.len() implies (#[trigger] pseudo@[i]).from <= (#[trigger] pseudo@[j]).from by {
                    if j < a.len() {
                        assert(pseudo@.subrange(0, a.len() as int)[i] == pseudo@[i]);
                        assert(pseudo@.subrange(0, a.len() as int)[j] == pseudo@[j]);
                    } else if i < a.len() {
                        assert(pseudo@.subrange(0, a.len() as int)[i] == pseudo@[i]);
                    }
                }
            }
            f = f + 1;
        }
        let red = self.red_turn;
        let mut res: Vec<Move> = Vec::new();
        let mut i: usize = 0;
        while i < pseudo.len()
            invariant
                0 <= i <= pseudo@.len(),
                self.wf(),
                red == self.red_turn,
                forall|j: int| 0 <= j < pseudo@.len() ==> (#[trigger] pseudo@[j]).from < 90 && pseudo@[j].to < 90
                    && self.pseudo_spec(pseudo@[j].from as int, pseudo@[j].to as int),
                forall|j: int| 0 <= j < res@.len() ==> (#[trigger] res@[j]).from < 90 && res@[j].to < 90 && self.legal_spec(res@[j]),
                forall|j: int| 0 <= j < i && self.legal_spec(#[trigger] pseudo@[j]) ==> res@.contains(pseudo@[j]),
                forall|i: int, j: int| 0 <= i < j < pseudo@.len() ==> (#[trigger] pseudo@[i]).from <= (#[trigger] pseudo@[j]).from,
                forall|k: int, j: int| 0 <= k < res@.len() && i <= j < pseudo@.len() ==> (#[trigger] res@[k]).from <= (#[trigger] pseudo@[j]).from,
                forall|k: int, j: int| 0 <= k < j < res@.len() ==> (#[trigger] res@[k]).from <= (#[trigger] res@[j]).from,
                !kings_adjacent(*self) ==> pseudo@.no_duplicates(),
                !kings_adjacent(*self) ==> res@.no_duplicates(),
                forall|k: int| 0 <= k < res@.len() ==> exists|j: int| 0 <= j < i && #[trigger] res@[k] == pseudo@[j],
                pseudo@ == all_steps(*self, 90),
                res@ == pseudo@.take(i as int).filter(|m: Move| self.legal_spec(m)),
            decreases pseudo@.len() - i,
        {
            let mv = pseudo[i];
            proof {
                reveal(Seq::filter);
                assert(pseudo@.take(i + 1).drop_last() =~= pseudo@.take(i as int));
                assert(pseudo@.take(i + 1).last() == mv);
            }
            let mut b = *self;
            b.make(mv);
            proof {
                lemma_make_wf(*self, mv);
            }
            if !b.in_check(red) {
                let ghost r0 = res@;
                res.push(mv);
                proof {
                    assert(res@[r0.len() as int] == mv);
                    assert forall|k: int| 0 <= k < res@.len() implies exists|j: int| 0 <= j < i + 1 && #[trigger] res@[k] == pseudo@[j] by {
                        if k < r0.len() {
                            assert(res@[k] == r0[k]);
                            let j = choose|j: int| 0 <= j < i && #[trigger] r0[k] == pseudo@[j];
                        } else {
                            assert(res@[k] == pseudo@[i as int]);
                        }
                    }
                    if !kings_adjacent(*self) {
                        assert forall|x: int, y: int| 0 <= x < res@.len() && 0 <= y < res@.len() && x != y implies res@[x] != res@[y] by {
                            if x < r0.len() && y < r0.len() {
                                assert(res@[x] == r0[x] && res@[y] == r0[y]);
                            } else if x < r0.len() {
                                assert(res@[x] == r0[x]);
                                let j = choose|j: int| 0 <= j < i && #[trigger] r0[x] == pseudo@[j];
                            } else if y < r0.len() {
                                assert(res@[y] == r0[y]);
                                let j = choose|j: int| 0 <= j < i && #[trigger] r0[y] == pseudo@[j];
                            }
                        }
                    }
                    assert forall|j: int| 0 <= j < i + 1 && self.legal_spec(#[trigger] pseudo@[j]) implies res@.contains(pseudo@[j]) by {
                        if j < i {
                            let k = choose|k: int| 0 <= k < r0.len() && r0[k] == pseudo@[j];
                            assert(res@[k] == r0[k]);
                        }
                    }
                }
            }
            i = i + 1;
        }
        proof {
            assert forall|m: Move| #[trigger] self.legal_spec(m) implies res@.contains(m) by {
                let j = choose|j: int| 0 <= j < pseudo@.len() && #[trigger] pseudo@[j].from == m.from as int && pseudo@[j].to == m.to as int;
                assert(pseudo@[j] == m);
            }
            assert(pseudo@.take(pseudo@.len() as int) =~= pseudo@);
        }
        res
    }
}

impl Board {
    /// Legal destination squares of the piece on `from`, in the order the piece generates
    /// them (`target_order`).
    pub fn legal_targets(&self, from: usize) -> (res: Vec<usize>)
        requires
            from < 90,
            self.wf(),
        ensures
            forall|i: int| 0 <= i < res@.len() ==> #[trigger] res@[i] < 90 && self.legal_spec(Move { from, to: res@[i] }),
            forall|to: usize| #[trigger] self.legal_spec(Move { from, to }) ==> res@.contains(to),
            !kings_adjacent(*self) ==> res@.no_duplicates(),
            res@ == target_order(*self, from),
    {
        let p = self.cells[from];
        if p == 0 || (p > 0) != self.red_turn {
            proof {
                reveal(Seq::filter);
                assert(target_order(*self, from) =~= Seq::<usize>::empty());
            }
            return Vec::new();
        }
        let mut pseudo: Vec<Move> = Vec::new();
        self.pseudo_moves_from(from, &mut pseudo);
        assert(pseudo@ =~= piece_steps(*self, from));
        let red = self.red_turn;
        let mut res: Vec<usize> = Vec::new();
        let mut i: usize = 0;
        while i < pseudo.len()
            invariant
                0 <= i <= pseudo@.len(),
                from < 90,
                self.wf(),
                red == self.red_turn,
                gen_post(from as int, Seq::empty(), pseudo@, |t: int| self.pseudo_spec(from as int, t)),
                forall|j: int| 0 <= j < res@.len() ==> #[trigger] res@[j] < 90 && self.legal_spec(Move { from, to: res@[j] }),
                forall|j: int| 0 <= j < i && self.legal_spec(#[trigger] pseudo@[j]) ==> res@.contains(pseudo@[j].to),
                !kings_adjacent(*self) ==> distinct_to(pseudo@, 0),
                !kings_adjacent(*self) ==> res@.no_duplicates(),
                forall|k: int| 0 <= k < res@.len() ==> exists|j: int| 0 <= j < i && #[trigger] res@[k] == pseudo@[j].to,
                pseudo@ == piece_steps(*self, from),
                res@ == pseudo@.take(i as int).filter(|m: Move| self.legal_spec(m)).map_values(|m: Move| m.to),
            decreases pseudo@.len() - i,
        {
            let mv = pseudo[i];
            proof {
                reveal(Seq::filter);
                assert(pseudo@.take(i + 1).drop_last() =~= pseudo@.take(i as int));
                assert(pseudo@.take(i + 1).last() == mv);
            }
            assert(mv.from == from && mv.to < 90);
            let mut b = *self;
            b.make(mv);
            proof {
                lemma_make_wf(*self, mv);
            }
            if !b.in_check(red) {
                let ghost r0 = res@;
                res.push(mv.to);
                proof {
                    assert(res@[r0.len() as int] == mv.to);
                    assert forall|k: int| 0 <= k < res@.len() implies exists|j: int| 0 <= j < i + 1 && #[trigger] res@[k] == pseudo@[j].to by {
                        if k < r0.len() {
                            assert(res@[k] == r0[k]);
                            let j = choose|j: int| 0 <= j < i && #[trigger] r0[k] == pseudo@[j].to;
                        } else {
                            assert(res@[k] == pseudo@[i as int].to);
                        }
                    }
                    if !kings_adjacent(*self) {
                        assert forall|x: int, y: int| 0 <= x < res@.len() && 0 <= y < res@.len() && x != y implies res@[x] != res@[y] by {
                            if x < r0.len() && y < r0.len() {
                                assert(res@[x] == r0[x] && res@[y] == r0[y]);
                            } else if x < r0.len() {
                                assert(res@[x] == r0[x]);
                                let j = choose|j: int| 0 <= j < i && #[trigger] r0[x] == pseudo@[j].to;
                            } else if y < r0.len() {
                                assert(res@[y] == r0[y]);
                                let j = choose|j: int| 0 <= j < i && #[trigger] r0[y] == pseudo@[j].to;
                            }
                        }
                    }
                    assert forall|j: int| 0 <= j < i + 1 && self.legal_spec(#[trigger] pseudo@[j]) implies res@.contains(pseudo@[j].to) by {
                        if j < i {
                            let k = choose|k: int| 0 <= k < r0.len() && r0[k] == pseudo@[j].to;
                            assert(res@[k] == r0[k]);
                        }
                    }
                }
            }
            i = i + 1;
        }
        proof {
            assert forall|to: usize| #[trigger] self.legal_spec(Move { from, to }) implies res@.contains(to) by {
                assert((|t: int| self.pseudo_spec(from as int, t))(to as int));
                let j = choose|j: int| 0 <= j < pseudo@.len() && #[trigger] pseudo@[j].from == from as int && pseudo@[j].to == to as int;
                assert(pseudo@[j] == Move { from, to });
            }
        }
        assert(pseudo@.take(pseudo@.len() as int) =~= pseudo@);
        res
    }

    /// After playing `mv`, whether the side that moved gives check.
    pub fn gives_check(&self, mv: Move) -> (res: bool)
        requires
            mv.from < 90,
            mv.to < 90,
            self.wf(),
        ensures
            res == self.make_spec(mv).in_check_spec(self.make_spec(mv).red_turn),
    {
        let mut b = *self;
        b.make(mv);
        proof {
            lemma_make_wf(*self, mv);
        }
        b.in_check(b.red_turn)
    }
}


/// The targets listed for a square are exactly the destinations of the legal moves
/// that start there.
pub proof fn law_targets_match_moves(b: Board, from: usize, targets: Seq<usize>, moves: Seq<Move>)
    requires
        b.wf(),
        from < 90,
        forall|i: int| 0 <= i < targets.len() ==> #[trigger] targets[i] < 90 && b.legal_spec(Move { from, to: targets[i] }),
        forall|to: usize| #[trigger] b.legal_spec(Move { from, to }) ==> targets.contains(to),
        forall|i: int| 0 <= i < moves.len() ==> (#[trigger] moves[i]).from < 90 && moves[i].to < 90 && b.legal_spec(moves[i]),
        forall|m: Move| #[trigger] b.legal_spec(m) ==> moves.contains(m),
    ensures
        forall|to: usize| targets.contains(to) <==> moves.contains(Move { from, to }),
{
    assert forall|to: usize| targets.contains(to) <==> moves.contains(Move { from, to }) by {
        if targets.contains(to) {
            let i = choose|i: int| 0 <= i < targets.len() && targets[i] == to;
            assert(b.legal_spec(Move { from, to: targets[i] }));
        }
        if moves.contains(Move { from, to }) {
            let i = choose|i: int| 0 <= i < moves.len() && moves[i] == Move { from, to };
            assert(b.legal_spec(moves[i]));
        }
    }
}


/// Every entry of `s` starts on `g`.
pub open spec fn all_from(s: Seq<Move>, g: int) -> bool {
    forall|i: int| 0 <= i < s.len() ==> (#[trigger] s[i]).from == g
}

proof fn lemma_all_from_add(a: Seq<Move>, c: Seq<Move>, g: int)
    requires
        all_from(a, g),
        all_from(c, g),
    ensures
        all_from(a + c, g),
{
    assert forall|i: int| 0 <= i < (a + c).len() implies (#[trigger] (a + c)[i]).from == g by {
        if i < a.len() {
            assert((a + c)[i] == a[i]);
        } else {
            assert((a + c)[i] == c[i - a.len()]);
        }
    }
}

proof fn lemma_step_from(b: Board, from: usize, red: bool, tr: int, tc: int, cond: bool)
    ensures
        all_from(step_seq(b, from, red, tr, tc, cond), from as int),
{
    reveal(step_seq);
}

proof fn lemma_ray_from(b: Board, from: usize, r: int, c: int, dr: int, dc: int, cannon: bool, jumped: bool, n: int)
    ensures
        all_from(ray_steps(b, from, r, c, dr, dc, cannon, jumped, n), from as int),
    decreases n,
{
    let red = b.cell(from as int) > 0;
    lemma_step_from(b, from, red, r, c, true);
    if n > 0 && on_board_spec(r, c) {
        lemma_ray_from(b, from, r + dr, c + dc, dr, dc, cannon, false, n - 1);
        lemma_ray_from(b, from, r + dr, c + dc, dr, dc, cannon, true, n - 1);
        lemma_all_from_add(step_seq(b, from, red, r, c, true), ray_steps(b, from, r + dr, c + dc, dr, dc, cannon, false, n - 1), from as int);
    }
}

proof fn lemma_king_file_from(b: Board, from: usize, n: int)
    ensures
        all_from(king_file_steps(b, from, n), from as int),
    decreases n,
{
    if n > 0 {
        lemma_king_file_from(b, from, n - 1);
        let st = step_seq(b, from, b.cell(from as int) > 0, n - 1, from as int % 9, king_faces(b, from, n - 1));
        lemma_step_from(b, from, b.cell(from as int) > 0, n - 1, from as int % 9, king_faces(b, from, n - 1));
        lemma_all_from_add(king_file_steps(b, from, n - 1), st, from as int);
    }
}

/// Every move a piece generates starts on its own square.
proof fn lemma_piece_steps_from(b: Board, from: usize)
    ensures
        all_from(piece_steps(b, from), from as int),
{
    let g = from as int;
    assert forall|a: Seq<Move>, c: Seq<Move>| all_from(a, g) && all_from(c, g) implies #[trigger] all_from(a + c, g) by {
        lemma_all_from_add(a, c, g);
    }
    assert forall|red: bool, tr: int, tc: int, cond: bool| #[trigger] all_from(step_seq(b, from, red, tr, tc, cond), g) by {
        lemma_step_from(b, from, red, tr, tc, cond);
    }
    let fr = g / 9;
    let fc = g % 9;
    assert forall|dr: int, dc: int, cannon: bool| #[trigger] all_from(direction_steps(b, from, dr, dc, cannon), g) by {
        lemma_ray_from(b, from, fr + dr, fc + dc, dr, dc, cannon, false, 10);
    }
    lemma_king_file_from(b, from, 10);
    let red = b.cell(g) > 0;
    let p = b.cell(g);
    if p == 0 || (p > 0) != b.red_turn {
        assert(all_from(seq![], g));
    } else if kind(p) == K {
        assert(all_from(step_seq(b, from, red, fr + 1, fc, in_palace_spec(fr + 1, fc, red)), g));
        assert(all_from(step_seq(b, from, red, fr - 1, fc, in_palace_spec(fr - 1, fc, red)), g));
        assert(all_from(step_seq(b, from, red, fr, fc + 1, in_palace_spec(fr, fc + 1, red)), g));
        assert(all_from(step_seq(b, from, red, fr, fc - 1, in_palace_spec(fr, fc - 1, red)), g));
        assert(all_from(king_steps(b, from), g));
    } else if kind(p) == A {
        assert(all_from(advisor_steps(b, from), g));
    } else if kind(p) == E {
        assert(all_from(elephant_steps(b, from), g));
    } else if kind(p) == H {
        assert(all_from(horse_steps(b, from), g));
    } else if kind(p) == R {
        assert(all_from(line_steps(b, from, false), g));
    } else if kind(p) == C {
        assert(all_from(line_steps(b, from, true), g));
    } else if kind(p) == P {
        assert(all_from(pawn_steps(b, from), g));
    } else {
        assert(all_from(seq![], g));
    }
}

/// Keeping the legal moves of `s`, then those from `from`: all of them when every entry
/// of `s` starts on `from`, none when every entry starts elsewhere.
proof fn lemma_filter_from(b: Board, s: Seq<Move>, g: int, from: usize)
    requires
        all_from(s, g),
    ensures
        s.filter(|m: Move| b.legal_spec(m)).filter(|m: Move| m.from == from) == (if g == from {
            s.filter(|m: Move| b.legal_spec(m))
        } else {
            Seq::<Move>::empty()
        }),
    decreases s.len(),
{
    reveal(Seq::filter);
    if s.len() > 0 {
        let t = s.drop_last();
        assert(all_from(t, g));
        lemma_filter_from(b, t, g, from);
        assert(s.last() == s[s.len() - 1]);
        let lt = t.filter(|m: Move| b.legal_spec(m));
        if b.legal_spec(s.last()) {
            lt.lemma_filter_push(s.last(), |m: Move| m.from == from);
        }
    }
}

/// The generated moves of squares `0..n` that are legal and start on `from`: those of
/// `from` alone.
proof fn lemma_all_steps_from(b: Board, n: int, from: usize)
    requires
        0 <= n <= 90,
    ensures
        all_steps(b, n).filter(|m: Move| b.legal_spec(m)).filter(|m: Move| m.from == from) == (if from < n {
            piece_steps(b, from).filter(|m: Move| b.legal_spec(m))
        } else {
            Seq::<Move>::empty()
        }),
    decreases n,
{
    reveal(Seq::filter);
    if n > 0 {
        lemma_all_steps_from(b, n - 1, from);
        let a = all_steps(b, n - 1);
        let ps = piece_steps(b, (n - 1) as usize);
        lemma_piece_steps_from(b, (n - 1) as usize);
        lemma_filter_from(b, ps, n - 1, from);
        Seq::filter_distributes_over_add(a, ps, |m: Move| b.legal_spec(m));
        Seq::filter_distributes_over_add(a.filter(|m: Move| b.legal_spec(m)), ps.filter(|m: Move| b.legal_spec(m)), |m: Move| m.from == from);
        if from < n - 1 {
            assert(piece_steps(b, from).filter(|m: Move| b.legal_spec(m)) + Seq::<Move>::empty() =~= piece_steps(b, from).filter(|m: Move| b.legal_spec(m)));
        } else if from == n - 1 {
            assert(Seq::<Move>::empty() + ps.filter(|m: Move| b.legal_spec(m)) =~= ps.filter(|m: Move| b.legal_spec(m)));
        } else {
            assert(Seq::<Move>::empty() + Seq::<Move>::empty() =~= Seq::<Move>::empty());
        }
    }
}

/// The destinations listed for a square come in the order in which the legal moves
/// from it are listed: they are the legal moves, kept where they start on `from`, taken
/// by their destinations.
pub proof fn law_targets_follow_moves(b: Board, from: usize)
    requires
        from < 90,
    ensures
        target_order(b, from) == legal_order(b).filter(|m: Move| m.from == from).map_values(|m: Move| m.to),
{
    lemma_all_steps_from(b, 90, from);
}

/// An elephant never crosses the river: each of its legal moves goes two rows and two
/// columns, over an empty eye, to a square on its own side.
pub proof fn law_elephant_stays_home(b: Board, m: Move)
    requires
        b.legal_spec(m),
        kind(b.cell(m.from as int)) == E,
    ensures
        !crosses_river_spec(m.to as int / 9, b.cell(m.from as int) > 0),
        abs_int(m.to as int / 9 - m.from as int / 9) == 2,
        abs_int(m.to as int % 9 - m.from as int % 9) == 2,
        b.cell(((m.from as int / 9 + m.to as int / 9) / 2) * 9 + (m.from as int % 9 + m.to as int % 9) / 2) == 0,
{
    let fr = m.from as int / 9;
    let fc = m.from as int % 9;
    let tr = m.to as int / 9;
    let tc = m.to as int % 9;
    crate::xiangqi::lemma_rowcol(m.from as int);
    crate::xiangqi::lemma_rowcol(m.to as int);
    assert(fr + (tr - fr) / 2 == (fr + tr) / 2);
    assert(fc + (tc - fc) / 2 == (fc + tc) / 2);
}

/// A horse attacks only along an L whose leg, the square next to the horse on the long
/// side of the L, is empty: a blocked leg stops the attack.
pub proof fn law_horse_needs_its_leg(b: Board, from: int, to: int)
    requires
        0 <= from < 90,
        0 <= to < 90,
        kind(b.cell(from)) == H,
        b.attacks_spec(from, to),
    ensures
        ({
            let dr = to / 9 - from / 9;
            let dc = to % 9 - from % 9;
            let leg = if abs_int(dr) == 2 {
                from + 9 * (dr / 2)
            } else {
                from + dc / 2
            };
            &&& (abs_int(dr) == 2 && abs_int(dc) == 1) || (abs_int(dr) == 1 && abs_int(dc) == 2)
            &&& 0 <= leg < 90
            &&& b.cell(leg) == 0
        }),
{
    crate::xiangqi::lemma_rowcol(from);
    crate::xiangqi::lemma_rowcol(to);
}

/// Move generation and check detection use the same movement rules: a piece other than
/// a king attacks an occupied square exactly when its rule lets it move there.
pub proof fn law_attacks_follow_the_rules(b: Board, from: int, to: int)
    requires
        0 <= from < 90,
        0 <= to < 90,
        b.cell(from) != 0,
        kind(b.cell(from)) != K,
        b.cell(to) != 0,
    ensures
        b.attacks_spec(from, to) <==> b.piece_rule(from, to),
{
}

/// Every legal move is a move of a piece of the side to move, onto an empty square or an
/// enemy piece, along the way its kind moves: an advisor one step diagonally inside its
/// palace; an elephant as `law_elephant_stays_home` says; a horse along an L with an
/// empty leg; a chariot along a line with nothing in between; a cannon along a line over
/// nothing onto an empty square or over exactly one piece onto a capture; a pawn one step
/// forward, or one step sideways once across the river; a king one step inside its
/// palace, or along its file onto the enemy king with nothing in between.
pub proof fn law_legal_moves_follow_the_rules(b: Board, m: Move)
    requires
        b.legal_spec(m),
    ensures
        ({
            let p = b.cell(m.from as int);
            let q = b.cell(m.to as int);
            let red = p > 0;
            let fr = m.from as int / 9;
            let fc = m.from as int % 9;
            let tr = m.to as int / 9;
            let tc = m.to as int % 9;
            let dr = tr - fr;
            let dc = tc - fc;
            let palace = 3 <= tc <= 5 && (if red { 7 <= tr <= 9 } else { 0 <= tr <= 2 });
            let between = b.count_between(fr, fc, tr, tc);
            &&& m.from < 90 && m.to < 90
            &&& p != 0 && red == b.red_turn
            &&& q == 0 || (q > 0) != red
            &&& kind(p) == A ==> abs_int(dr) == 1 && abs_int(dc) == 1 && palace
            &&& kind(p) == H ==> (abs_int(dr) == 2 && abs_int(dc) == 1 && b.cell(m.from as int + 9 * (dr / 2)) == 0)
                || (abs_int(dr) == 1 && abs_int(dc) == 2 && b.cell(m.from as int + dc / 2) == 0)
            &&& kind(p) == R ==> (dr == 0) != (dc == 0) && between == 0
            &&& kind(p) == C ==> (dr == 0) != (dc == 0) && between == (if q != 0 { 1int } else { 0int })
            &&& kind(p) == P ==> (dc == 0 && dr == (if red { -1int } else { 1int }))
                || (dr == 0 && abs_int(dc) == 1 && (if red { fr <= 4 } else { fr >= 5 }))
            &&& kind(p) == K ==> (abs_int(dr) + abs_int(dc) == 1 && palace)
                || (dc == 0 && dr != 0 && kind(q) == K && (q > 0) != red && between == 0)
            &&& kind(p) != K && kind(p) != A && kind(p) != E && kind(p) != H && kind(p) != R && kind(p) != C ==> kind(p) == P
        }),
{
    crate::xiangqi::lemma_rowcol(m.from as int);
    crate::xiangqi::lemma_rowcol(m.to as int);
}

/// The king search finds square `k` when it holds the code and no square before it does.
proof fn lemma_first_from(b: Board, v: i8, i: int, k: int)
    requires
        0 <= i <= k < 90,
        b.cell(k) == v,
        forall|s: int| i <= s < k ==> #[trigger] b.cell(s) != v,
    ensures
        b.first_from(v, i) == Some(k),
    decreases k - i,
{
    if i < k {
        lemma_first_from(b, v, i + 1, k);
    }
}

/// Without the code on the board from `i` on, the king search finds nothing.
proof fn lemma_first_from_none(b: Board, v: i8, i: int)
    requires
        0 <= i <= 90,
        forall|s: int| i <= s < 90 ==> #[trigger] b.cell(s) != v,
    ensures
        b.first_from(v, i) is None,
    decreases 90 - i,
{
    if i < 90 {
        lemma_first_from_none(b, v, i + 1);
    }
}

/// A side is in check exactly when an enemy piece could move onto its king by its
/// movement rule (the same rule that move generation uses); a side without a king counts
/// as in check.
pub proof fn law_check_is_an_attack_on_the_king(b: Board, red: bool)
    ensures
        (forall|s: int| 0 <= s < 90 ==> #[trigger] b.cell(s) != (if red { 1i8 } else { -1i8 })) ==> b.in_check_spec(red),
        forall|k: int| 0 <= k < 90 && #[trigger] b.cell(k) == (if red { 1i8 } else { -1i8 })
            && (forall|s: int| 0 <= s < 90 && s != k ==> #[trigger] b.cell(s) != (if red { 1i8 } else { -1i8 }))
            ==> (b.in_check_spec(red) <==> exists|f: int| 0 <= f < 90 && b.cell(f) != 0 && (b.cell(f) > 0) != red
                && #[trigger] b.piece_rule(f, k)),
{
    let v: i8 = if red { 1i8 } else { -1i8 };
    if forall|s: int| 0 <= s < 90 ==> #[trigger] b.cell(s) != v {
        lemma_first_from_none(b, v, 0);
    }
    assert forall|k: int| 0 <= k < 90 && #[trigger] b.cell(k) == v
        && (forall|s: int| 0 <= s < 90 && s != k ==> #[trigger] b.cell(s) != v)
        implies (b.in_check_spec(red) <==> exists|f: int| 0 <= f < 90 && b.cell(f) != 0 && (b.cell(f) > 0) != red
            && #[trigger] b.piece_rule(f, k)) by {
        lemma_first_from(b, v, 0, k);
        assert(b.king_sq_spec(red) == Some(k));
        if b.in_check_spec(red) {
            let f = choose|f: int| 0 <= f < 90 && b.cell(f) != 0 && (b.cell(f) > 0) == !red && #[trigger] b.attacks_spec(f, k);
            assert(b.piece_rule(f, k));
        }
        if exists|f: int| 0 <= f < 90 && b.cell(f) != 0 && (b.cell(f) > 0) != red && #[trigger] b.piece_rule(f, k) {
            let f = choose|f: int| 0 <= f < 90 && b.cell(f) != 0 && (b.cell(f) > 0) != red && #[trigger] b.piece_rule(f, k);
            assert(b.attacks_spec(f, k));
        }
    }
}

/// Move `m` goes the way the piece on its square moves, as the rules of xiangqi describe
/// it, written square by square: a king one step inside its palace or along its file
/// onto a king with nothing in between; an advisor one step diagonally inside its
/// palace; an elephant two steps diagonally over an empty eye, staying on its side of
/// the river; a horse along an L with an empty leg; a chariot along a line with nothing
/// in between; a cannon along a line, over nothing onto an empty square or over exactly
/// one piece onto a piece; a pawn one step forward, or sideways once across the river.
pub open spec fn moves_by_its_kind(b: Board, m: Move) -> bool {
    let p = b.cell(m.from as int);
    let q = b.cell(m.to as int);
    let red = p > 0;
    let fr = m.from as int / 9;
    let fc = m.from as int % 9;
    let tr = m.to as int / 9;
    let tc = m.to as int % 9;
    let dr = tr - fr;
    let dc = tc - fc;
    let palace = 3 <= tc <= 5 && (if red { 7 <= tr <= 9 } else { 0 <= tr <= 2 });
    let between = b.count_between(fr, fc, tr, tc);
    if kind(p) == K {
        (abs_int(dr) + abs_int(dc) == 1 && palace) || (dc == 0 && dr != 0 && kind(q) == K && between == 0)
    } else if kind(p) == A {
        abs_int(dr) == 1 && abs_int(dc) == 1 && palace
    } else if kind(p) == E {
        abs_int(dr) == 2 && abs_int(dc) == 2 && b.cell(m.from as int + 9 * (dr / 2) + dc / 2) == 0
            && (if red { tr >= 5 } else { tr <= 4 })
    } else if kind(p) == H {
        (abs_int(dr) == 2 && abs_int(dc) == 1 && b.cell(m.from as int + 9 * (dr / 2)) == 0)
            || (abs_int(dr) == 1 && abs_int(dc) == 2 && b.cell(m.from as int + dc / 2) == 0)
    } else if kind(p) == R {
        (dr == 0) != (dc == 0) && between == 0
    } else if kind(p) == C {
        (dr == 0) != (dc == 0) && between == (if q != 0 { 1int } else { 0int })
    } else if kind(p) == P {
        (dc == 0 && dr == (if red { -1int } else { 1int })) || (dr == 0 && abs_int(dc) == 1 && (if red { fr <= 4 } else { fr >= 5 }))
    } else {
        false
    }
}

/// The legal moves are exactly the moves of a piece of the side to move, onto an empty
/// square or an enemy piece, the way its kind moves, that leave the mover's king out of
/// check.
pub proof fn law_legal_moves_exactly(b: Board, m: Move)
    ensures
        b.legal_spec(m) <==> {
            &&& m.from < 90 && m.to < 90
            &&& b.cell(m.from as int) != 0 && (b.cell(m.from as int) > 0) == b.red_turn
            &&& b.cell(m.to as int) == 0 || (b.cell(m.to as int) > 0) != b.red_turn
            &&& moves_by_its_kind(b, m)
            &&& !b.make_spec(m).in_check_spec(b.red_turn)
        },
{
    if m.from < 90 && m.to < 90 {
        crate::xiangqi::lemma_rowcol(m.from as int);
        crate::xiangqi::lemma_rowcol(m.to as int);
    }
}

} // verus!
