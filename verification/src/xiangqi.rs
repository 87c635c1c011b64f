//! Chinese chess rules: board representation, move generation, check detection.
//!
//! The board is a 90-cell array: row 0 is black's back rank (top of the picture),
//! row 9 is red's back rank. Piece codes: positive for red, negative for black;
//! absolute value 1 king, 2 advisor, 3 elephant, 4 horse, 5 chariot, 6 cannon, 7 pawn.
use vstd::prelude::*;
use vstd::array::spec_array_update;
pub use crate::notation::piece_char;

verus! {

pub const K: i8 = 1;
pub const A: i8 = 2;
pub const E: i8 = 3;
pub const H: i8 = 4;
pub const R: i8 = 5;
pub const C: i8 = 6;
pub const P: i8 = 7;

pub const START_FEN: &'static str = "rnbakabnr/9/1c5c1/p1p1p1p1p/9/9/P1P1P1P1P/1C5C1/9/RNBAKABNR w";

/// A move from one square index to another.
#[derive(Clone, Copy, Debug, PartialEq, Eq, Structural)]
pub struct Move {
    pub from: usize,
    pub to: usize,
}

/// A position: the 90 cells and the side to move.
#[derive(Clone, Copy, Debug)]
pub struct Board {
    pub cells: [i8; 90],
    pub red_turn: bool,
}

// ---------------------------------------------------------------------------
// Mathematical model
// ---------------------------------------------------------------------------

pub open spec fn abs_int(x: int) -> int {
    if x < 0 {
        -x
    } else {
        x
    }
}

pub open spec fn sgn(x: int) -> int {
    if x > 0 {
        1
    } else if x < 0 {
        -1
    } else {
        0
    }
}

/// Absolute value of a piece code, i.e. its kind.
pub open spec fn kind(p: i8) -> int {
    abs_int(p as int)
}

pub open spec fn on_board_spec(r: int, c: int) -> bool {
    0 <= r < 10 && 0 <= c < 9
}

pub open spec fn in_palace_spec(r: int, c: int, red: bool) -> bool {
    3 <= c <= 5 && if red {
        7 <= r <= 9
    } else {
        0 <= r <= 2
    }
}

pub open spec fn crosses_river_spec(r: int, red: bool) -> bool {
    if red {
        r <= 4
    } else {
        r >= 5
    }
}

/// Pawn's forward direction in rows.
pub open spec fn forward(red: bool) -> int {
    if red {
        -1
    } else {
        1
    }
}

impl Board {
    /// No cell holds `i8::MIN`, whose absolute value does not fit an `i8`.
    pub open spec fn wf(self) -> bool {
        forall|i: int| 0 <= i < 90 ==> #[trigger] self.cells@[i] != i8::MIN
    }

    pub open spec fn cell(self, s: int) -> i8 {
        self.cells@[s]
    }

    /// The cell at (r, c), or `i8::MAX` as a sentinel off the board.
    pub open spec fn at_spec(self, r: int, c: int) -> i8 {
        if on_board_spec(r, c) {
            self.cells@[r * 9 + c]
        } else {
            i8::MAX
        }
    }

    /// Number of occupied cells among the `n` cells just before (r, c),
    /// walking backwards by (dr, dc).
    pub open spec fn cnt_back(self, r: int, c: int, dr: int, dc: int, n: nat) -> int
        decreases n,
    {
        if n == 0 {
            0
        } else {
            (if self.at_spec(r - dr, c - dc) != 0 {
                1int
            } else {
                0int
            }) + self.cnt_back(r - dr, c - dc, dr, dc, (n - 1) as nat)
        }
    }

    /// Number of occupied cells strictly between (fr, fc) and (tr, tc) on a line.
    pub open spec fn count_between(self, fr: int, fc: int, tr: int, tc: int) -> int {
        let d = abs_int(tr - fr) + abs_int(tc - fc);
        if d <= 1 {
            0
        } else {
            self.cnt_back(tr, tc, sgn(tr - fr), sgn(tc - fc), (d - 1) as nat)
        }
    }

    /// Whether the piece on `from` attacks `to` by its movement rule (ignoring whether
    /// the mover's own king would be left in check). A king reaches one step inside its
    /// palace, or the enemy king facing it on an open file.
    pub open spec fn attacks_spec(self, from: int, to: int) -> bool {
        let p = self.cell(from);
        let red = p > 0;
        let fr = from / 9;
        let fc = from % 9;
        let tr = to / 9;
        let tc = to % 9;
        let dr = tr - fr;
        let dc = tc - fc;
        if p == 0 {
            false
        } else if kind(p) == K {
            (abs_int(dr) + abs_int(dc) == 1 && in_palace_spec(tr, tc, red)) || (dc == 0 && dr != 0
                && kind(self.cell(to)) == K && (self.cell(to) > 0) != red
                && self.count_between(fr, fc, tr, tc) == 0)
        } else if kind(p) == A {
            abs_int(dr) == 1 && abs_int(dc) == 1 && in_palace_spec(tr, tc, red)
        } else if kind(p) == E {
            abs_int(dr) == 2 && abs_int(dc) == 2 && self.at_spec(fr + dr / 2, fc + dc / 2) == 0
                && !crosses_river_spec(tr, red)
        } else if kind(p) == H {
            (abs_int(dr) == 2 && abs_int(dc) == 1 && self.at_spec(fr + dr / 2, fc) == 0) || (
            abs_int(dr) == 1 && abs_int(dc) == 2 && self.at_spec(fr, fc + dc / 2) == 0)
        } else if kind(p) == R {
            (dr == 0 || dc == 0) && (dr != 0 || dc != 0) && self.count_between(fr, fc, tr, tc)
                == 0
        } else if kind(p) == C {
            (dr == 0 || dc == 0) && (dr != 0 || dc != 0) && self.count_between(fr, fc, tr, tc)
                == 1
        } else if kind(p) == P {
            (dr == forward(red) && dc == 0) || (crosses_river_spec(fr, red) && dr == 0 && abs_int(
                dc,
            ) == 1)
        } else {
            false
        }
    }

    /// Some piece of the given side attacks `target`.
    pub open spec fn attacked_spec(self, target: int, by_red: bool) -> bool {
        exists|f: int|
            0 <= f < 90 && self.cell(f) != 0 && (self.cell(f) > 0) == by_red
                && #[trigger] self.attacks_spec(f, target)
    }

    /// The first square at or after `i` holding `v`.
    pub open spec fn first_from(self, v: i8, i: int) -> Option<int>
        decreases 90 - i,
    {
        if i >= 90 || i < 0 {
            None
        } else if self.cell(i) == v {
            Some(i)
        } else {
            self.first_from(v, i + 1)
        }
    }

    /// The square of the given side's king (the first one, scanning from square 0).
    pub open spec fn king_sq_spec(self, red: bool) -> Option<int> {
        self.first_from(if red {
            1i8
        } else {
            -1i8
        }, 0)
    }

    /// The given side is in check; a side without a king counts as in check.
    pub open spec fn in_check_spec(self, red: bool) -> bool {
        match self.king_sq_spec(red) {
            Some(k) => self.attacked_spec(k, !red),
            None => true,
        }
    }

    /// The board after playing `m`, with the turn passed.
    pub open spec fn make_spec(self, m: Move) -> Board {
        Board {
            cells: spec_array_update(
                spec_array_update(self.cells, m.to as int, self.cells@[m.from as int]),
                m.from as int,
                0i8,
            ),
            red_turn: !self.red_turn,
        }
    }
}

impl Board {
    /// The target square is empty or holds an enemy piece of the side `red`.
    pub open spec fn target_ok(self, red: bool, to: int) -> bool {
        self.cell(to) == 0 || (self.cell(to) > 0) != red
    }

    /// A chariot (`cannon == false`) or cannon move along a line from `from` to `to`.
    pub open spec fn line_ok(self, from: int, to: int, cannon: bool) -> bool {
        let fr = from / 9;
        let fc = from % 9;
        let tr = to / 9;
        let tc = to % 9;
        (tr == fr || tc == fc) && (tr != fr || tc != fc) && if cannon && self.cell(to) != 0 {
            self.count_between(fr, fc, tr, tc) == 1
        } else {
            self.count_between(fr, fc, tr, tc) == 0
        }
    }

    /// The movement rule of the piece on `from`, as used by move generation.
    pub open spec fn piece_rule(self, from: int, to: int) -> bool {
        let p = self.cell(from);
        let red = p > 0;
        let fr = from / 9;
        let fc = from % 9;
        let tr = to / 9;
        let tc = to % 9;
        let dr = tr - fr;
        let dc = tc - fc;
        if kind(p) == K {
            (abs_int(dr) + abs_int(dc) == 1 && in_palace_spec(tr, tc, red)) || (dc == 0 && dr != 0
                && kind(self.cell(to)) == K && self.count_between(fr, fc, tr, tc) == 0)
        } else if kind(p) == A {
            abs_int(dr) == 1 && abs_int(dc) == 1 && in_palace_spec(tr, tc, red)
        } else if kind(p) == E {
            abs_int(dr) == 2 && abs_int(dc) == 2 && !crosses_river_spec(tr, red) && self.at_spec(
                fr + dr / 2,
                fc + dc / 2,
            ) == 0
        } else if kind(p) == H {
            (abs_int(dr) == 2 && abs_int(dc) == 1 && self.at_spec(fr + dr / 2, fc) == 0) || (
            abs_int(dr) == 1 && abs_int(dc) == 2 && self.at_spec(fr, fc + dc / 2) == 0)
        } else if kind(p) == R {
            self.line_ok(from, to, false)
        } else if kind(p) == C {
            self.line_ok(from, to, true)
        } else if kind(p) == P {
            (dr == forward(red) && dc == 0) || (crosses_river_spec(fr, red) && dr == 0 && abs_int(
                dc,
            ) == 1)
        } else {
            false
        }
    }

    /// A pseudo-legal move: a piece of the side to move, following its movement
    /// rule, onto an empty square or an enemy piece.
    pub open spec fn pseudo_spec(self, from: int, to: int) -> bool {
        &&& 0 <= from < 90
        &&& 0 <= to < 90
        &&& self.cell(from) != 0
        &&& (self.cell(from) > 0) == self.red_turn
        &&& self.target_ok(self.cell(from) > 0, to)
        &&& self.piece_rule(from, to)
    }

    /// A legal move: pseudo-legal and not leaving the mover's king in check.
    pub open spec fn legal_spec(self, m: Move) -> bool {
        &&& self.pseudo_spec(m.from as int, m.to as int)
        &&& !self.make_spec(m).in_check_spec(self.red_turn)
    }
}

/// `new_s` keeps `old_s` as a prefix.
pub open spec fn extends(old_s: Seq<Move>, new_s: Seq<Move>) -> bool {
    old_s.len() <= new_s.len() && new_s.subrange(0, old_s.len() as int) =~= old_s
}

/// Some entry at index `lo` or later is the move `from -> to`.
pub open spec fn has_move(s: Seq<Move>, lo: int, from: int, to: int) -> bool {
    exists|i: int| lo <= i < s.len() && #[trigger] s[i].from == from && s[i].to == to
}

// ---------------------------------------------------------------------------
// Lemmas
// ---------------------------------------------------------------------------

pub proof fn lemma_sq(r: int, c: int)
    requires
        0 <= r,
        0 <= c < 9,
    ensures
        (r * 9 + c) / 9 == r,
        (r * 9 + c) % 9 == c,
{
    assert((r * 9 + c) / 9 == r && (r * 9 + c) % 9 == c) by (nonlinear_arith)
        requires
            0 <= r,
            0 <= c < 9,
    ;
}

pub proof fn lemma_rowcol(s: int)
    requires
        0 <= s,
    ensures
        s == (s / 9) * 9 + s % 9,
        0 <= s % 9 < 9,
        0 <= s / 9,
        s < 90 ==> s / 9 < 10,
{
    assert(s == (s / 9) * 9 + s % 9 && 0 <= s % 9 < 9 && 0 <= s / 9 && (s < 90 ==> s / 9 < 10))
        by (nonlinear_arith)
        requires
            0 <= s,
    ;
}

// ---------------------------------------------------------------------------
// Executable code
// ---------------------------------------------------------------------------

#[verifier::inline]
pub open spec fn row_spec(s: int) -> int {
    s / 9
}

#[verifier::inline]
pub open spec fn col_spec(s: int) -> int {
    s % 9
}

/// Row of a square.
pub fn row(sq: usize) -> (r: usize)
    ensures
        r == sq / 9,
{
    sq / 9
}

/// Column of a square.
pub fn col(sq: usize) -> (c: usize)
    ensures
        c == sq % 9,
{
    sq % 9
}

/// Square index of (r, c).
pub fn sq(r: usize, c: usize) -> (s: usize)
    requires
        r * 9 + c <= usize::MAX,
    ensures
        s == r * 9 + c,
{
    r * 9 + c
}

/// (r, c) lies on the board.
pub fn on_board(r: i32, c: i32) -> (b: bool)
    ensures
        b == on_board_spec(r as int, c as int),
{
    0 <= r && r < 10 && 0 <= c && c < 9
}

pub(crate) fn in_palace(r: i32, c: i32, red: bool) -> (b: bool)
    ensures
        b == in_palace_spec(r as int, c as int, red),
{
    if !(3 <= c && c <= 5) {
        return false;
    }
    if red {
        7 <= r && r <= 9
    } else {
        0 <= r && r <= 2
    }
}

pub(crate) fn crosses_river(r: i32, red: bool) -> (b: bool)
    ensures
        b == crosses_river_spec(r as int, red),
{
    if red {
        r <= 4
    } else {
        r >= 5
    }
}

pub(crate) fn abs32(x: i32) -> (a: i32)
    requires
        x > i32::MIN,
    ensures
        a == abs_int(x as int),
{
    if x < 0 {
        -x
    } else {
        x
    }
}

pub(crate) fn signum32(x: i32) -> (s: i32)
    ensures
        s == sgn(x as int),
{
    if x > 0 {
        1
    } else if x < 0 {
        -1
    } else {
        0
    }
}

/// Kind of a piece code (its absolute value).
pub fn kind_of(p: i8) -> (k: i8)
    requires
        p != i8::MIN,
    ensures
        k == kind(p),
{
    if p < 0 {
        -p
    } else {
        p
    }
}

impl Board {
    /// The cell at (r, c), or `i8::MAX` off the board.
    pub fn at(&self, r: i32, c: i32) -> (v: i8)
        ensures
            v == self.at_spec(r as int, c as int),
    {
        if on_board(r, c) {
            self.cells[(r * 9 + c) as usize]
        } else {
            i8::MAX
        }
    }

    /// Number of occupied cells strictly between two squares on a line.
    pub(crate) fn clear_between(&self, fr: i32, fc: i32, tr: i32, tc: i32) -> (n: i32)
        requires
            on_board_spec(fr as int, fc as int),
            on_board_spec(tr as int, tc as int),
            fr == tr || fc == tc,
        ensures
            n == self.count_between(fr as int, fc as int, tr as int, tc as int),
            0 <= n <= 9,
    {
        let step_r = signum32(tr - fr);
        let step_c = signum32(tc - fc);
        if fr == tr && fc == tc {
            return 0;
        }
        let ghost total = abs_int(tr - fr) + abs_int(tc - fc);
        let mut r = fr + step_r;
        let mut c = fc + step_c;
        let mut n: i32 = 0;
        while r != tr || c != tc
            invariant
                on_board_spec(fr as int, fc as int),
                on_board_spec(tr as int, tc as int),
                fr == tr || fc == tc,
                step_r == sgn(tr - fr),
                step_c == sgn(tc - fc),
                total == abs_int(tr - fr) + abs_int(tc - fc),
                sgn(r - fr) == step_r,
                sgn(c - fc) == step_c,
                1 <= abs_int(r - fr) + abs_int(c - fc) <= total,
                step_r >= 0 ==> r <= tr,
                step_r <= 0 ==> r >= tr,
                step_c >= 0 ==> c <= tc,
                step_c <= 0 ==> c >= tc,
                0 <= n < abs_int(r - fr) + abs_int(c - fc),
                n == self.count_between(fr as int, fc as int, r as int, c as int),
            decreases total - (abs_int(r - fr) + abs_int(c - fc)),
        {
            let v = self.at(r, c);
            if v != 0 {
                n = n + 1;
            }
            proof {
                lemma_between_step(*self, fr as int, fc as int, r as int, c as int, step_r as int,
                    step_c as int);
            }
            r = r + step_r;
            c = c + step_c;
        }
        n
    }
}

impl Board {
    /// Whether the piece on `from` can reach `to` by its movement rule
    /// (regardless of whether its own king would be left in check).
    pub fn attacks(&self, from: usize, to: usize) -> (res: bool)
        requires
            from < 90,
            to < 90,
            self.wf(),
        ensures
            res == self.attacks_spec(from as int, to as int),
    {
        let p = self.cells[from];
        if p == 0 {
            return false;
        }
        let red = p > 0;
        proof {
            lemma_rowcol(from as int);
            lemma_rowcol(to as int);
        }
        let fr = (from / 9) as i32;
        let fc = (from % 9) as i32;
        let tr = (to / 9) as i32;
        let tc = (to % 9) as i32;
        let dr = tr - fr;
        let dc = tc - fc;
        let adr = abs32(dr);
        let adc = abs32(dc);
        let t = kind_of(p);
        if t == K {
            if adr + adc == 1 && in_palace(tr, tc, red) {
                return true;
            }
            let q = self.cells[to];
            if dc == 0 && dr != 0 && kind_of(q) == K && (q > 0) != red {
                return self.clear_between(fr, fc, tr, tc) == 0;
            }
            false
        } else if t == A {
            adr == 1 && adc == 1 && in_palace(tr, tc, red)
        } else if t == E {
            adr == 2 && adc == 2 && self.at(fr + dr / 2, fc + dc / 2) == 0 && !crosses_river(
                tr,
                red,
            )
        } else if t == H {
            if adr == 2 && adc == 1 {
                self.at(fr + dr / 2, fc) == 0
            } else if adr == 1 && adc == 2 {
                self.at(fr, fc + dc / 2) == 0
            } else {
                false
            }
        } else if t == R {
            (dr == 0 || dc == 0) && (dr != 0 || dc != 0) && self.clear_between(fr, fc, tr, tc) == 0
        } else if t == C {
            if dr != 0 && dc != 0 || (dr == 0 && dc == 0) {
                return false;
            }
            self.clear_between(fr, fc, tr, tc) == 1
        } else if t == P {
            let fwd: i32 = if red {
                -1
            } else {
                1
            };
            if dr == fwd && dc == 0 {
                return true;
            }
            let crossed = if red {
                fr <= 4
            } else {
                fr >= 5
            };
            crossed && dr == 0 && adc == 1
        } else {
            false
        }
    }

    /// Whether square `target` is attacked by the red (`by_red`) or black side.
    pub fn is_attacked(&self, target: usize, by_red: bool) -> (res: bool)
        requires
            target < 90,
            self.wf(),
        ensures
            res == self.attacked_spec(target as int, by_red),
    {
        let mut f: usize = 0;
        while f < 90
            invariant
                f <= 90,
                target < 90,
                self.wf(),
                forall|g: int|
                    0 <= g < f ==> !(self.cell(g) != 0 && (self.cell(g) > 0) == by_red
                        && #[trigger] self.attacks_spec(g, target as int)),
            decreases 90 - f,
        {
            let p = self.cells[f];
            if p != 0 && (p > 0) == by_red && self.attacks(f, target) {
                return true;
            }
            f = f + 1;
        }
        false
    }

    /// Square of the given side's king, if it has one.
    pub fn king_sq(&self, red: bool) -> (res: Option<usize>)
        ensures
            match res {
                Some(k) => self.king_sq_spec(red) == Some(k as int),
                None => self.king_sq_spec(red) is None,
            },
            res matches Some(k) ==> k < 90,
    {
        let target: i8 = if red {
            K
        } else {
            -K
        };
        let mut i: usize = 0;
        while i < 90
            invariant
                i <= 90,
                target == (if red {
                    1i8
                } else {
                    -1i8
                }),
                self.first_from(target, 0) == self.first_from(target, i as int),
            decreases 90 - i,
        {
            if self.cells[i] == target {
                return Some(i);
            }
            i = i + 1;
        }
        None
    }

    /// Whether the given side is currently in check.
    pub fn in_check(&self, red: bool) -> (res: bool)
        requires
            self.wf(),
        ensures
            res == self.in_check_spec(red),
    {
        match self.king_sq(red) {
            Some(k) => self.is_attacked(k, !red),
            None => true,
        }
    }

    /// Plays `mv` in place (without any legality check) and returns the captured piece.
    pub fn make(&mut self, mv: Move) -> (cap: i8)
        requires
            mv.from < 90,
            mv.to < 90,
        ensures
            cap == old(self).cell(mv.to as int),
            *final(self) == old(self).make_spec(mv),
    {
        let cap = self.cells[mv.to];
        self.cells[mv.to] = self.cells[mv.from];
        self.cells[mv.from] = 0;
        self.red_turn = !self.red_turn;
        cap
    }
}

/// Walking one step further along a line adds the cell just left behind.
pub proof fn lemma_between_step(b: Board, fr: int, fc: int, r: int, c: int, dr: int, dc: int)
    requires
        (dr == 0 || dc == 0),
        (dr != 0 || dc != 0),
        sgn(r - fr) == dr,
        sgn(c - fc) == dc,
    ensures
        b.count_between(fr, fc, r + dr, c + dc) == b.count_between(fr, fc, r, c) + (if b.at_spec(
            r,
            c,
        ) != 0 {
            1int
        } else {
            0int
        }),
{
    let k = abs_int(r - fr) + abs_int(c - fc);
    assert(b.cnt_back(r + dr, c + dc, dr, dc, k as nat) == (if b.at_spec(r, c) != 0 {
        1int
    } else {
        0int
    }) + b.cnt_back(r, c, dr, dc, (k - 1) as nat));
    if k == 1 {
        assert(b.cnt_back(r, c, dr, dc, 0) == 0);
    }
}

/// Debug name of a square, such as "r3c4".
pub fn sq_name(s: usize) -> (name: String)
    ensures
        name@ == seq!['r'] + crate::text::dec_nat((s / 9) as nat) + seq!['c'] + crate::text::dec_nat((s % 9) as nat),
{
    let mut name = String::new();
    crate::text::push_char(&mut name, 'r');
    crate::text::push_dec(&mut name, (s / 9) as u64);
    crate::text::push_char(&mut name, 'c');
    crate::text::push_dec(&mut name, (s % 9) as u64);
    assert(name@ =~= seq!['r'] + crate::text::dec_nat((s / 9) as nat) + seq!['c'] + crate::text::dec_nat((s % 9) as nat));
    name
}

} // verus!
