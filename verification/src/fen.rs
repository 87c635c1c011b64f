//! FEN text of a position: rows from black's side (row 0) to red's, pieces as
//! letters (KABNRCP, upper case red, lower case black), runs of empty cells as
//! digits, rows separated by '/', then the side to move ("w" red, "b" black).
use vstd::prelude::*;
use crate::text::{white_space, is_white_space, str_chars, dec_nat, push_char, push_dec};
use crate::xiangqi::{Board, kind, kind_of, K, A, E, H, R, C, P};

verus! {

// ---------------------------------------------------------------------------
// Parsing
// ---------------------------------------------------------------------------

/// First index at or after `i` that is not white space (or the length).
pub open spec fn skip_ws(s: Seq<char>, i: int) -> int
    decreases s.len() - i,
{
    if i >= s.len() || i < 0 {
        s.len() as int
    } else if white_space(s[i]) {
        skip_ws(s, i + 1)
    } else {
        i
    }
}

/// First index at or after `i` that is white space (or the length).
pub open spec fn skip_token(s: Seq<char>, i: int) -> int
    decreases s.len() - i,
{
    if i >= s.len() || i < 0 {
        s.len() as int
    } else if !white_space(s[i]) {
        skip_token(s, i + 1)
    } else {
        i
    }
}

/// Signed piece code of a FEN letter (upper case red, lower case black), 0 if none.
pub open spec fn fen_piece(ch: char) -> i8 {
    if ch == 'K' {
        1
    } else if ch == 'A' {
        2
    } else if ch == 'B' {
        3
    } else if ch == 'N' {
        4
    } else if ch == 'R' {
        5
    } else if ch == 'C' {
        6
    } else if ch == 'P' {
        7
    } else if ch == 'k' {
        -1i8
    } else if ch == 'a' {
        -2i8
    } else if ch == 'b' {
        -3i8
    } else if ch == 'n' {
        -4i8
    } else if ch == 'r' {
        -5i8
    } else if ch == 'c' {
        -6i8
    } else if ch == 'p' {
        -7i8
    } else {
        0
    }
}

pub open spec fn is_digit(ch: char) -> bool {
    '0' <= ch <= '9'
}

/// Parser state over the placement field: row, column, cells, and whether it failed.
pub type FenState = (int, int, Seq<i8>, bool);

/// One character of the placement field. A row must fill exactly 9 columns; there are
/// at most 10 rows; a digit skips that many empty cells; a letter places a piece.
pub open spec fn fen_step(st: FenState, ch: char) -> FenState {
    let (r, c, cells, failed) = st;
    if failed {
        st
    } else if ch == '/' {
        if c != 9 || r + 1 >= 10 {
            (r, c, cells, true)
        } else {
            (r + 1, 0, cells, false)
        }
    } else if is_digit(ch) {
        let d = ch as int - '0' as int;
        if c + d > 9 {
            (r, c, cells, true)
        } else {
            (r, c + d, cells, false)
        }
    } else if c >= 9 || fen_piece(ch) == 0 {
        (r, c, cells, true)
    } else {
        (r, c + 1, cells.update(r * 9 + c, fen_piece(ch)), false)
    }
}

/// State after the first `n` characters of `s`, starting from `st`.
pub open spec fn fold_from(st: FenState, s: Seq<char>, n: int) -> FenState
    decreases n,
{
    if n <= 0 {
        st
    } else {
        fen_step(fold_from(st, s, n - 1), s[n - 1])
    }
}

/// State after the first `n` characters of the placement field `s`: from the top row,
/// first column, all cells empty.
pub open spec fn fen_fold(s: Seq<char>, n: int) -> FenState {
    fold_from((0, 0, Seq::new(90, |i: int| 0i8), false), s, n)
}

/// The position that a FEN text describes, as cells and red-to-move, if it is valid.
/// Fields are separated by white space; the side field defaults to red and only "b"
/// means black; rows not given are empty.
pub open spec fn fen_parse(s: Seq<char>) -> Option<(Seq<i8>, bool)> {
    let a1 = skip_ws(s, 0);
    let e1 = skip_token(s, a1);
    let a2 = skip_ws(s, e1);
    let e2 = skip_token(s, a2);
    let placement = s.subrange(a1, e1);
    let st = fen_fold(placement, placement.len() as int);
    if a1 >= s.len() || st.3 || st.1 != 9 {
        None
    } else {
        Some((st.2, s.subrange(a2, e2) != seq!['b']))
    }
}

fn fen_piece_of(ch: char) -> (p: i8)
    ensures
        p == fen_piece(ch),
{
    if ch == 'K' {
        K
    } else if ch == 'A' {
        A
    } else if ch == 'B' {
        E
    } else if ch == 'N' {
        H
    } else if ch == 'R' {
        R
    } else if ch == 'C' {
        C
    } else if ch == 'P' {
        P
    } else if ch == 'k' {
        -K
    } else if ch == 'a' {
        -A
    } else if ch == 'b' {
        -E
    } else if ch == 'n' {
        -H
    } else if ch == 'r' {
        -R
    } else if ch == 'c' {
        -C
    } else if ch == 'p' {
        -P
    } else {
        0
    }
}

proof fn lemma_fold_failed_stays(s: Seq<char>, i: int, n: int)
    requires
        0 <= i <= n,
        fen_fold(s, i).3,
    ensures
        fen_fold(s, n).3,
    decreases n - i,
{
    if i < n {
        lemma_fold_failed_stays(s, i, n - 1);
    }
}

impl Board {
    /// Parses a FEN text; `None` when it is not a valid position text.
    pub fn from_fen(fen: &str) -> (res: Option<Board>)
        ensures
            match fen_parse(fen@) {
                None => res is None,
                Some((cells, red)) => res matches Some(b) && b.cells@ == cells && b.red_turn == red,
            },
    {
        let s = str_chars(fen);
        let n = s.len();
        let mut i: usize = 0;
        while i < n && is_white_space(s[i])
            invariant
                0 <= i <= n,
                n == s@.len(),
                skip_ws(s@, 0) == skip_ws(s@, i as int),
            decreases n - i,
        {
            i = i + 1;
        }
        if i == n {
            return None;
        }
        let a1 = i;
        while i < n && !is_white_space(s[i])
            invariant
                a1 <= i <= n,
                n == s@.len(),
                skip_token(s@, a1 as int) == skip_token(s@, i as int),
            decreases n - i,
        {
            i = i + 1;
        }
        let e1 = i;
        while i < n && is_white_space(s[i])
            invariant
                e1 <= i <= n,
                n == s@.len(),
                skip_ws(s@, e1 as int) == skip_ws(s@, i as int),
            decreases n - i,
        {
            i = i + 1;
        }
        let a2 = i;
        while i < n && !is_white_space(s[i])
            invariant
                a2 <= i <= n,
                n == s@.len(),
                skip_token(s@, a2 as int) == skip_token(s@, i as int),
            decreases n - i,
        {
            i = i + 1;
        }
        let e2 = i;
        let red_turn = !(e2 - a2 == 1 && s[a2] == 'b');
        proof {
            if e2 - a2 == 1 {
                if s@[a2 as int] == 'b' {
                    assert(s@.subrange(a2 as int, e2 as int) =~= seq!['b']);
                } else {
                    assert(s@.subrange(a2 as int, e2 as int)[0] != seq!['b'][0]);
                }
            } else {
                assert(s@.subrange(a2 as int, e2 as int).len() != 1);
            }
        }
        let ghost placement = s@.subrange(a1 as int, e1 as int);
        let mut cells = [0i8; 90];
        assert(cells@ =~= Seq::new(90, |i: int| 0i8));
        let mut r: usize = 0;
        let mut c: usize = 0;
        let mut j: usize = a1;
        while j < e1
            invariant
                a1 <= j <= e1 <= n,
                n == s@.len(),
                s@ == fen@,
                a1 == skip_ws(s@, 0),
                a1 < n,
                e1 == skip_token(s@, a1 as int),
                a2 == skip_ws(s@, e1 as int),
                e2 == skip_token(s@, a2 as int),
                red_turn == (s@.subrange(a2 as int, e2 as int) != seq!['b']),
                placement == s@.subrange(a1 as int, e1 as int),
                fen_fold(placement, (j - a1) as int) == (r as int, c as int, cells@, false),
                r < 10,
                c <= 9,
            decreases e1 - j,
        {
            let ch = s[j];
            proof {
                assert(placement[(j - a1) as int] == ch);
                assert(fen_fold(placement, (j - a1 + 1) as int) == fen_step(fen_fold(placement, (j - a1) as int), ch));
            }
            if ch == '/' {
                if c != 9 || r + 1 >= 10 {
                    proof {
                        lemma_fold_failed_stays(placement, (j - a1 + 1) as int, placement.len() as int);
                    }
                    return None;
                }
                r = r + 1;
                c = 0;
            } else if '0' <= ch && ch <= '9' {
                let d = (ch as u32 - '0' as u32) as usize;
                if c + d > 9 {
                    proof {
                        lemma_fold_failed_stays(placement, (j - a1 + 1) as int, placement.len() as int);
                    }
                    return None;
                }
                c = c + d;
            } else {
                let p = fen_piece_of(ch);
                if c >= 9 || p == 0 {
                    proof {
                        lemma_fold_failed_stays(placement, (j - a1 + 1) as int, placement.len() as int);
                    }
                    return None;
                }
                cells[r * 9 + c] = p;
                c = c + 1;
            }
            j = j + 1;
        }
        assert(placement.len() == e1 - a1);
        if c != 9 {
            return None;
        }
        Some(Board { cells, red_turn })
    }
}

// ---------------------------------------------------------------------------
// Writing
// ---------------------------------------------------------------------------

/// FEN letter of a piece code (kinds other than 1..6 are written as pawns).
pub open spec fn fen_letter(p: i8) -> char {
    let k = kind(p);
    if p > 0 {
        if k == 1 {
            'K'
        } else if k == 2 {
            'A'
        } else if k == 3 {
            'B'
        } else if k == 4 {
            'N'
        } else if k == 5 {
            'R'
        } else if k == 6 {
            'C'
        } else {
            'P'
        }
    } else {
        if k == 1 {
            'k'
        } else if k == 2 {
            'a'
        } else if k == 3 {
            'b'
        } else if k == 4 {
            'n'
        } else if k == 5 {
            'r'
        } else if k == 6 {
            'c'
        } else {
            'p'
        }
    }
}

/// Digits for a run of `empty` cells (nothing for no run).
pub open spec fn run_text(empty: int) -> Seq<char> {
    if empty > 0 {
        dec_nat(empty as nat)
    } else {
        seq![]
    }
}

/// Text of row `r` from column `c` on, with `empty` empty cells pending before it.
pub open spec fn row_fen(b: Board, r: int, c: int, empty: int) -> Seq<char>
    decreases 9 - c,
{
    if c >= 9 {
        run_text(empty)
    } else {
        let p = b.cell(r * 9 + c);
        if p == 0 {
            row_fen(b, r, c + 1, empty + 1)
        } else {
            run_text(empty).push(fen_letter(p)) + row_fen(b, r, c + 1, 0)
        }
    }
}

/// Rows `r..10`, separated by '/'.
pub open spec fn rows_fen(b: Board, r: int) -> Seq<char>
    decreases 10 - r,
{
    if r >= 9 {
        row_fen(b, 9, 0, 0)
    } else {
        row_fen(b, r, 0, 0) + seq!['/'] + rows_fen(b, r + 1)
    }
}

/// The FEN text of a position.
pub open spec fn fen_text(b: Board) -> Seq<char> {
    rows_fen(b, 0) + if b.red_turn {
        seq![' ', 'w']
    } else {
        seq![' ', 'b']
    }
}

fn fen_letter_of(p: i8) -> (ch: char)
    requires
        p != i8::MIN,
    ensures
        ch == fen_letter(p),
{
    let k = kind_of(p);
    let up = if k == K {
        'K'
    } else if k == A {
        'A'
    } else if k == E {
        'B'
    } else if k == H {
        'N'
    } else if k == R {
        'R'
    } else if k == C {
        'C'
    } else {
        'P'
    };
    if p > 0 {
        up
    } else if up == 'K' {
        'k'
    } else if up == 'A' {
        'a'
    } else if up == 'B' {
        'b'
    } else if up == 'N' {
        'n'
    } else if up == 'R' {
        'r'
    } else if up == 'C' {
        'c'
    } else {
        'p'
    }
}

impl Board {
    fn push_row_fen(&self, s: &mut String, r: usize)
        requires
            r < 10,
            self.wf(),
        ensures
            final(s)@ == old(s)@ + row_fen(*self, r as int, 0, 0),
    {
        let mut empty: u64 = 0;
        let mut c: usize = 0;
        while c < 9
            invariant
                r < 10,
                self.wf(),
                0 <= c <= 9,
                empty <= c,
                s@ + row_fen(*self, r as int, c as int, empty as int) == old(s)@ + row_fen(*self, r as int, 0, 0),
            decreases 9 - c,
        {
            let p = self.cells[r * 9 + c];
            if p == 0 {
                empty = empty + 1;
            } else {
                if empty > 0 {
                    push_dec(s, empty);
                    empty = 0;
                }
                push_char(s, fen_letter_of(p));
            }
            c = c + 1;
        }
        if empty > 0 {
            push_dec(s, empty);
        }
        assert(s@ =~= old(s)@ + row_fen(*self, r as int, 0, 0));
    }
}

impl Board {
    /// The FEN text of this position.
    pub fn to_fen(&self) -> (s: String)
        requires
            self.wf(),
        ensures
            s@ == fen_text(*self),
    {
        let mut s = String::new();
        let mut r: usize = 0;
        while r < 10
            invariant
                0 <= r <= 10,
                self.wf(),
                r < 10 ==> s@ + rows_fen(*self, r as int) == rows_fen(*self, 0),
                r == 10 ==> s@ == rows_fen(*self, 0),
            decreases 10 - r,
        {
            let ghost before = s@;
            self.push_row_fen(&mut s, r);
            if r < 9 {
                push_char(&mut s, '/');
                assert(before + rows_fen(*self, r as int) =~= s@ + rows_fen(*self, r + 1));
            } else {
                assert(before + rows_fen(*self, r as int) =~= s@);
            }
            r = r + 1;
        }
        s.append(if self.red_turn {
            " w"
        } else {
            " b"
        });
        proof {
            reveal_strlit(" w");
            reveal_strlit(" b");
        }
        assert(s@ =~= fen_text(*self));
        s
    }
}

// ---------------------------------------------------------------------------
// The initial position
// ---------------------------------------------------------------------------

/// Back-rank piece kind of column `c`: R N B A K A B N R.
pub open spec fn back_rank_kind(c: int) -> i8 {
    if c == 0 || c == 8 {
        5
    } else if c == 1 || c == 7 {
        4
    } else if c == 2 || c == 6 {
        3
    } else if c == 3 || c == 5 {
        2
    } else {
        1
    }
}

/// Cell `s` of the initial position (the one `START_FEN` describes).
pub open spec fn start_cell(s: int) -> i8 {
    let r = s / 9;
    let c = s % 9;
    if r == 9 {
        back_rank_kind(c)
    } else if r == 0 {
        (-back_rank_kind(c)) as i8
    } else if r == 7 && (c == 1 || c == 7) {
        6
    } else if r == 2 && (c == 1 || c == 7) {
        -6i8
    } else if r == 6 && c % 2 == 0 {
        7
    } else if r == 3 && c % 2 == 0 {
        -7i8
    } else {
        0
    }
}

pub fn start_cell_value(s: usize) -> (p: i8)
    requires
        s < 90,
    ensures
        p == start_cell(s as int),
{
    let r = s / 9;
    let c = s % 9;
    let back: i8 = if c == 0 || c == 8 {
        R
    } else if c == 1 || c == 7 {
        H
    } else if c == 2 || c == 6 {
        E
    } else if c == 3 || c == 5 {
        A
    } else {
        K
    };
    if r == 9 {
        back
    } else if r == 0 {
        -back
    } else if r == 7 && (c == 1 || c == 7) {
        C
    } else if r == 2 && (c == 1 || c == 7) {
        -C
    } else if r == 6 && c % 2 == 0 {
        P
    } else if r == 3 && c % 2 == 0 {
        -P
    } else {
        0
    }
}

impl Board {
    /// The initial position, red to move: the position that `START_FEN` describes.
    pub fn start() -> (b: Board)
        ensures
            b.cells@ == Seq::new(90, |s: int| start_cell(s)),
            b.red_turn,
            b.wf(),
            fen_parse(crate::xiangqi::START_FEN@) == Some((b.cells@, b.red_turn)),
    {
        let mut cells = [0i8; 90];
        let mut s: usize = 0;
        while s < 90
            invariant
                0 <= s <= 90,
                cells@.len() == 90,
                forall|i: int| 0 <= i < s ==> #[trigger] cells@[i] == start_cell(i),
            decreases 90 - s,
        {
            cells[s] = start_cell_value(s);
            s = s + 1;
        }
        let b = Board { cells, red_turn: true };
        assert(b.cells@ =~= Seq::new(90, |s: int| start_cell(s)));
        proof {
            law_start_fen(b);
        }
        b
    }
}


// ---------------------------------------------------------------------------
// Reading back what was written
// ---------------------------------------------------------------------------

/// Every cell holds a piece code of at most kind 7 (or is empty).
pub open spec fn codes_valid(b: Board) -> bool {
    forall|i: int| 0 <= i < 90 ==> -7 <= #[trigger] b.cell(i) <= 7
}

/// Folding depends only on the characters folded.
proof fn lemma_fold_prefix(st: FenState, s1: Seq<char>, s2: Seq<char>, n: int)
    requires
        0 <= n <= s1.len(),
        n <= s2.len(),
        forall|i: int| 0 <= i < n ==> s1[i] == s2[i],
    ensures
        fold_from(st, s1, n) == fold_from(st, s2, n),
    decreases n,
{
    if n > 0 {
        lemma_fold_prefix(st, s1, s2, n - 1);
    }
}

/// Folding a concatenation folds the second part from where the first ended.
proof fn lemma_fold_concat(st: FenState, a: Seq<char>, b: Seq<char>, k: int)
    requires
        0 <= k <= b.len(),
    ensures
        fold_from(st, a + b, a.len() + k) == fold_from(fold_from(st, a, a.len() as int), b, k),
    decreases k,
{
    if k == 0 {
        lemma_fold_prefix(st, a + b, a, a.len() as int);
    } else {
        lemma_fold_concat(st, a, b, k - 1);
        assert((a + b)[a.len() + k - 1] == b[k - 1]);
    }
}

/// Folding a whole sequence.
proof fn lemma_fold_concat_all(st: FenState, a: Seq<char>, b: Seq<char>)
    ensures
        fold_from(st, a + b, (a + b).len() as int) == fold_from(fold_from(st, a, a.len() as int), b, b.len() as int),
{
    lemma_fold_concat(st, a, b, b.len() as int);
}

/// The cells after writing the pieces of row `r` from column `c` on over `cells`.
pub open spec fn row_written(b: Board, r: int, c: int, cells: Seq<i8>) -> Seq<i8> {
    Seq::new(cells.len(), |i: int| if r * 9 + c <= i < r * 9 + 9 && b.cell(i) != 0 {
        b.cell(i)
    } else {
        cells[i]
    })
}

/// A digit for a run of 1 to 9 empty cells moves the column on by the run.
proof fn lemma_fold_run(b: Board, r: int, c: int, empty: int, cells: Seq<i8>)
    requires
        0 <= empty <= c <= 9,
    ensures
        fold_from((r, c - empty, cells, false), run_text(empty), run_text(empty).len() as int) == (r, c, cells, false),
{
    if empty > 0 {
        let t = run_text(empty);
        assert(t == seq![digit_char_of(empty)]);
        reveal_with_fuel(fold_from, 2);
    }
}

/// The digit written for a run of `n` (1 to 9) empty cells.
spec fn digit_char_of(n: int) -> char {
    crate::text::digit_char(n)
}

/// Reading back the text of row `r` from column `c`, with `empty` empty cells pending,
/// writes the row's pieces from column `c` on and ends at the row's end.
proof fn lemma_fold_row(b: Board, r: int, c: int, empty: int, cells: Seq<i8>)
    requires
        codes_valid(b),
        0 <= r < 10,
        0 <= empty <= c <= 9,
        cells.len() == 90,
    ensures
        fold_from((r, c - empty, cells, false), row_fen(b, r, c, empty), row_fen(b, r, c, empty).len() as int)
            == (r, 9int, row_written(b, r, c, cells), false),
    decreases 9 - c,
{
    if c >= 9 {
        lemma_fold_run(b, r, 9, empty, cells);
        assert(row_written(b, r, 9, cells) =~= cells);
    } else {
        let p = b.cell(r * 9 + c);
        assert(-7 <= p <= 7);
        if p == 0 {
            lemma_fold_row(b, r, c + 1, empty + 1, cells);
            assert(row_written(b, r, c + 1, cells) =~= row_written(b, r, c, cells));
        } else {
            let run = run_text(empty);
            let head = run.push(fen_letter(p));
            let rest = row_fen(b, r, c + 1, 0);
            let cells2 = cells.update(r * 9 + c, p);
            assert(head =~= run + seq![fen_letter(p)]);
            lemma_fold_run(b, r, c, empty, cells);
            lemma_fold_concat_all((r, c - empty, cells, false), run, seq![fen_letter(p)]);
            assert(fen_piece(fen_letter(p)) == p);
            reveal_with_fuel(fold_from, 2);
            assert(fold_from((r, c - empty, cells, false), head, head.len() as int) == (r, c + 1, cells2, false));
            lemma_fold_concat_all((r, c - empty, cells, false), head, rest);
            lemma_fold_row(b, r, c + 1, 0, cells2);
            assert(row_written(b, r, c + 1, cells2) =~= row_written(b, r, c, cells));
        }
    }
}

/// The cells after writing the pieces of rows `r..10` over `cells`.
pub open spec fn rows_written(b: Board, r: int, cells: Seq<i8>) -> Seq<i8> {
    Seq::new(cells.len(), |i: int| if r * 9 <= i < 90 && b.cell(i) != 0 {
        b.cell(i)
    } else {
        cells[i]
    })
}

/// Reading back the text of rows `r..10` writes their pieces and ends on the last row.
proof fn lemma_fold_rows(b: Board, r: int, cells: Seq<i8>)
    requires
        codes_valid(b),
        0 <= r <= 9,
        cells.len() == 90,
    ensures
        fold_from((r, 0int, cells, false), rows_fen(b, r), rows_fen(b, r).len() as int)
            == (9int, 9int, rows_written(b, r, cells), false),
    decreases 10 - r,
{
    lemma_fold_row(b, r, 0, 0, cells);
    let c1 = row_written(b, r, 0, cells);
    if r == 9 {
        assert(c1 =~= rows_written(b, r, cells));
    } else {
        let row = row_fen(b, r, 0, 0);
        let head = row + seq!['/'];
        lemma_fold_concat_all((r, 0, cells, false), row, seq!['/']);
        reveal_with_fuel(fold_from, 2);
        assert(fold_from((r, 0, cells, false), head, head.len() as int) == (r + 1, 0int, c1, false));
        lemma_fold_concat_all((r, 0, cells, false), head, rows_fen(b, r + 1));
        lemma_fold_rows(b, r + 1, c1);
        assert(rows_written(b, r + 1, c1) =~= rows_written(b, r, cells));
    }
}

/// Characters that the placement text is made of.
spec fn placement_char(ch: char) -> bool {
    ch == '/' || ('0' <= ch <= '9') || fen_piece(ch) != 0
}

proof fn lemma_placement_char_not_space(ch: char)
    requires
        placement_char(ch),
    ensures
        !white_space(ch),
{
}

/// The text of a row is made of digits and piece letters, and is not empty when some
/// column remains or a run is pending.
proof fn lemma_row_chars(b: Board, r: int, c: int, empty: int)
    requires
        codes_valid(b),
        0 <= r < 10,
        0 <= empty <= c <= 9,
    ensures
        forall|i: int| 0 <= i < row_fen(b, r, c, empty).len() ==> placement_char(#[trigger] row_fen(b, r, c, empty)[i]),
        (c < 9 || empty > 0) ==> row_fen(b, r, c, empty).len() > 0,
    decreases 9 - c,
{
    if c < 9 {
        let p = b.cell(r * 9 + c);
        assert(-7 <= p <= 7);
        if p == 0 {
            lemma_row_chars(b, r, c + 1, empty + 1);
        } else {
            lemma_row_chars(b, r, c + 1, 0);
            assert(fen_piece(fen_letter(p)) == p);
            let t = run_text(empty).push(fen_letter(p)) + row_fen(b, r, c + 1, 0);
            assert forall|i: int| 0 <= i < t.len() implies placement_char(#[trigger] t[i]) by {
                if i < run_text(empty).len() as int {
                    if empty > 0 {
                        assert(run_text(empty) == seq![digit_char_of(empty)]);
                    }
                } else if i > run_text(empty).len() as int {
                    assert(t[i] == row_fen(b, r, c + 1, 0)[i - run_text(empty).len() - 1]);
                }
            }
        }
    } else if empty > 0 {
        assert(run_text(empty) == seq![digit_char_of(empty)]);
    }
}

/// The text of rows `r..10` is made of placement characters and is not empty.
proof fn lemma_rows_chars(b: Board, r: int)
    requires
        codes_valid(b),
        0 <= r <= 9,
    ensures
        forall|i: int| 0 <= i < rows_fen(b, r).len() ==> placement_char(#[trigger] rows_fen(b, r)[i]),
        rows_fen(b, r).len() > 0,
    decreases 10 - r,
{
    lemma_row_chars(b, r, 0, 0);
    if r < 9 {
        lemma_rows_chars(b, r + 1);
        let row = row_fen(b, r, 0, 0);
        let t = row + seq!['/'] + rows_fen(b, r + 1);
        assert forall|i: int| 0 <= i < t.len() implies placement_char(#[trigger] t[i]) by {
            if i < row.len() {
                assert(t[i] == row[i]);
            } else if i > row.len() {
                assert(t[i] == rows_fen(b, r + 1)[i - row.len() - 1]);
            }
        }
    }
}

/// `skip_token` runs to the first white space.
proof fn lemma_skip_token_to(s: Seq<char>, i: int, j: int)
    requires
        0 <= i <= j <= s.len(),
        forall|k: int| i <= k < j ==> !white_space(#[trigger] s[k]),
        j == s.len() || white_space(s[j]),
    ensures
        skip_token(s, i) == j,
    decreases j - i,
{
    if i < j {
        lemma_skip_token_to(s, i + 1, j);
    }
}

/// Reading back the FEN text of a position gives the same cells and side to move.
pub proof fn law_fen_round_trip(b: Board)
    requires
        codes_valid(b),
    ensures
        fen_parse(fen_text(b)) == Some((b.cells@, b.red_turn)),
{
    let rows = rows_fen(b, 0);
    let side = if b.red_turn {
        seq![' ', 'w']
    } else {
        seq![' ', 'b']
    };
    let t = fen_text(b);
    let l = rows.len() as int;
    lemma_rows_chars(b, 0);
    assert(t == rows + side);
    assert(t.len() == l + 2);
    assert(t[0] == rows[0]);
    lemma_placement_char_not_space(rows[0]);
    assert(skip_ws(t, 0) == 0);
    assert forall|k: int| 0 <= k < l implies !white_space(#[trigger] t[k]) by {
        assert(t[k] == rows[k]);
        lemma_placement_char_not_space(rows[k]);
    }
    assert(t[l] == ' ');
    lemma_skip_token_to(t, 0, l);
    assert(!white_space(t[l + 1]));
    assert(skip_ws(t, l + 1) == l + 1);
    assert(skip_ws(t, l) == l + 1);
    lemma_skip_token_to(t, l + 1, l + 2);
    let placement = t.subrange(0, l);
    assert(placement =~= rows);
    lemma_fold_rows(b, 0, Seq::new(90, |i: int| 0i8));
    assert(rows_written(b, 0, Seq::new(90, |i: int| 0i8)) =~= b.cells@);
    let side_field = t.subrange(l + 1, l + 2);
    if b.red_turn {
        assert(side_field =~= seq!['w']);
        assert(side_field[0] != seq!['b'][0]);
    } else {
        assert(side_field =~= seq!['b']);
    }
}


/// The text of row `r` of `b` when its cells are those of the initial position.
proof fn lemma_start_row(b: Board, r: int)
    requires
        0 <= r < 10,
        forall|s: int| 0 <= s < 90 ==> #[trigger] b.cell(s) == start_cell(s),
    ensures
        row_fen(b, r, 0, 0) == (if r == 0 {
            "rnbakabnr"@
        } else if r == 9 {
            "RNBAKABNR"@
        } else if r == 2 {
            "1c5c1"@
        } else if r == 7 {
            "1C5C1"@
        } else if r == 3 {
            "p1p1p1p1p"@
        } else if r == 6 {
            "P1P1P1P1P"@
        } else {
            "9"@
        }),
{
    reveal_strlit("rnbakabnr");
    reveal_strlit("RNBAKABNR");
    reveal_strlit("1c5c1");
    reveal_strlit("1C5C1");
    reveal_strlit("p1p1p1p1p");
    reveal_strlit("P1P1P1P1P");
    reveal_strlit("9");
    let base = r * 9;
    assert forall|c: int| 0 <= c < 9 implies #[trigger] b.cell(base + c) == start_cell(base + c) && (base + c) / 9 == r && (base + c) % 9 == c by {
        crate::xiangqi::lemma_sq(r, c);
    }
    assert(row_fen(b, r, 9, 0) == Seq::<char>::empty());
    reveal_with_fuel(row_fen, 10);
    assert(dec_nat(1) == seq!['1']);
    assert(dec_nat(5) == seq!['5']);
    assert(dec_nat(9) == seq!['9']);
    let t = row_fen(b, r, 0, 0);
    if r == 0 {
        assert(t =~= "rnbakabnr"@);
    } else if r == 9 {
        assert(t =~= "RNBAKABNR"@);
    } else if r == 2 {
        assert(t =~= "1c5c1"@);
    } else if r == 7 {
        assert(t =~= "1C5C1"@);
    } else if r == 3 {
        assert(t =~= "p1p1p1p1p"@);
    } else if r == 6 {
        assert(t =~= "P1P1P1P1P"@);
    } else {
        assert(t =~= "9"@);
    }
}

/// A text written for some position reads back to a position that writes the same text
/// again: writing what was read gives back the text.
pub proof fn law_fen_text_reads_back(s: Seq<char>, b: Board)
    requires
        codes_valid(b),
        s == fen_text(b),
    ensures
        fen_parse(s) matches Some((cells, red)) && forall|b2: Board| #![trigger fen_text(b2)]
            b2.cells@ == cells && b2.red_turn == red ==> fen_text(b2) == s,
{
    law_fen_round_trip(b);
    assert forall|b2: Board| #![trigger fen_text(b2)] b2.cells@ == b.cells@ && b2.red_turn == b.red_turn implies fen_text(b2) == s by {
        broadcast use vstd::array::group_array_axioms;

        assert(b2.cells =~= b.cells);
        assert(b2 == b);
    }
}

/// `START_FEN` is the text of the initial position: writing the initial position gives
/// it, and reading it gives the initial position with red to move.
pub proof fn law_start_fen(b: Board)
    requires
        b.cells@ == Seq::new(90, |s: int| start_cell(s)),
        b.red_turn,
    ensures
        fen_text(b) == crate::xiangqi::START_FEN@,
        fen_parse(crate::xiangqi::START_FEN@) == Some((b.cells@, true)),
{
    reveal_strlit("rnbakabnr/9/1c5c1/p1p1p1p1p/9/9/P1P1P1P1P/1C5C1/9/RNBAKABNR w");
    reveal_strlit("rnbakabnr");
    reveal_strlit("RNBAKABNR");
    reveal_strlit("1c5c1");
    reveal_strlit("1C5C1");
    reveal_strlit("p1p1p1p1p");
    reveal_strlit("P1P1P1P1P");
    reveal_strlit("9");
    assert forall|s: int| 0 <= s < 90 implies #[trigger] b.cell(s) == start_cell(s) by {}
    lemma_start_row(b, 0);
    lemma_start_row(b, 1);
    lemma_start_row(b, 2);
    lemma_start_row(b, 3);
    lemma_start_row(b, 4);
    lemma_start_row(b, 5);
    lemma_start_row(b, 6);
    lemma_start_row(b, 7);
    lemma_start_row(b, 8);
    lemma_start_row(b, 9);
    reveal_with_fuel(rows_fen, 11);
    assert(fen_text(b) =~= crate::xiangqi::START_FEN@);
    assert forall|i: int| 0 <= i < 90 implies -7 <= #[trigger] b.cell(i) <= 7 by {
        crate::xiangqi::lemma_rowcol(i);
    }
    law_fen_round_trip(b);
}


// ---------------------------------------------------------------------------
// Canonical texts
// ---------------------------------------------------------------------------

/// A character of a canonical row: a piece letter or a digit from 1 to 9.
pub open spec fn row_char(ch: char) -> bool {
    fen_piece(ch) != 0 || ('1' <= ch <= '9')
}

/// Value of a digit character.
pub open spec fn digit_value(ch: char) -> int {
    ch as int - '0' as int
}

/// The columns a row text covers: a digit its value, a letter one.
pub open spec fn row_width(t: Seq<char>) -> int
    decreases t.len(),
{
    if t.len() == 0 {
        0
    } else {
        (if is_digit(t[0]) {
            digit_value(t[0])
        } else {
            1
        }) + row_width(t.drop_first())
    }
}

/// The cells a row text describes, left to right.
pub open spec fn row_cells(t: Seq<char>) -> Seq<i8>
    decreases t.len(),
{
    if t.len() == 0 {
        seq![]
    } else if is_digit(t[0]) {
        Seq::new(digit_value(t[0]) as nat, |i: int| 0i8) + row_cells(t.drop_first())
    } else {
        seq![fen_piece(t[0])] + row_cells(t.drop_first())
    }
}

/// A row as the writer puts it: piece letters and digits 1 to 9, never two digits in a
/// row, covering exactly 9 columns.
pub open spec fn canonical_row(t: Seq<char>) -> bool {
    &&& forall|i: int| 0 <= i < t.len() ==> row_char(#[trigger] t[i])
    &&& forall|i: int| 0 <= i < t.len() - 1 ==> !(is_digit(#[trigger] t[i]) && is_digit(t[i + 1]))
    &&& row_width(t) == 9
}

/// Rows `r..10` of `rows`, separated by '/'.
pub open spec fn joined(rows: Seq<Seq<char>>, r: int) -> Seq<char>
    decreases 10 - r,
{
    if r >= 9 {
        rows[9]
    } else {
        rows[r] + seq!['/'] + joined(rows, r + 1)
    }
}

/// `s` is made of the ten canonical `rows` joined by '/', a space and the side to move.
pub open spec fn canonical_parts(s: Seq<char>, rows: Seq<Seq<char>>, side: char) -> bool {
    &&& rows.len() == 10
    &&& forall|r: int| 0 <= r < 10 ==> canonical_row(#[trigger] rows[r])
    &&& side == 'w' || side == 'b'
    &&& s == joined(rows, 0) + seq![' ', side]
}

/// A FEN text in the form the writer produces.
pub open spec fn canonical_fen(s: Seq<char>) -> bool {
    exists|rows: Seq<Seq<char>>, side: char| #[trigger] canonical_parts(s, rows, side)
}

/// A row text of row characters describes as many cells as it covers columns, each a
/// piece code or empty.
proof fn lemma_row_cells(t: Seq<char>)
    requires
        forall|i: int| 0 <= i < t.len() ==> row_char(#[trigger] t[i]),
    ensures
        row_cells(t).len() == row_width(t),
        row_width(t) >= 0,
        forall|j: int| 0 <= j < row_cells(t).len() ==> -7 <= #[trigger] row_cells(t)[j] <= 7,
    decreases t.len(),
{
    if t.len() > 0 {
        let u = t.drop_first();
        assert forall|i: int| 0 <= i < u.len() implies row_char(#[trigger] u[i]) by {
            assert(u[i] == t[i + 1]);
        }
        lemma_row_cells(u);
        assert(row_char(t[0]));
    }
}

/// Over empty cells the writer only counts: `k` empty cells from column `c` on join the
/// pending run.
proof fn lemma_row_fen_empty(b: Board, r: int, c: int, e: int, k: int)
    requires
        0 <= k,
        c + k <= 9,
        forall|j: int| 0 <= j < k ==> #[trigger] b.cell(r * 9 + c + j) == 0,
    ensures
        row_fen(b, r, c, e) == row_fen(b, r, c + k, e + k),
    decreases k,
{
    if k > 0 {
        assert(b.cell(r * 9 + c + 0) == 0);
        assert forall|j: int| 0 <= j < k - 1 implies #[trigger] b.cell(r * 9 + (c + 1) + j) == 0 by {
            assert(b.cell(r * 9 + c + (j + 1)) == 0);
        }
        lemma_row_fen_empty(b, r, c + 1, e + 1, k - 1);
    }
}

/// A letter of a canonical row is written back as itself.
proof fn lemma_letter_back(ch: char)
    requires
        fen_piece(ch) != 0,
    ensures
        fen_letter(fen_piece(ch)) == ch,
{
}

/// The writer gives back a canonical row text from column `c` on when the row's cells
/// from there are the ones the text describes.
proof fn lemma_row_text(b: Board, r: int, c: int, t: Seq<char>)
    requires
        0 <= c,
        c + row_width(t) == 9,
        forall|i: int| 0 <= i < t.len() ==> row_char(#[trigger] t[i]),
        forall|i: int| 0 <= i < t.len() - 1 ==> !(is_digit(#[trigger] t[i]) && is_digit(t[i + 1])),
        forall|j: int| 0 <= j < row_width(t) ==> #[trigger] b.cell(r * 9 + c + j) == row_cells(t)[j],
    ensures
        row_fen(b, r, c, 0) == t,
    decreases t.len(),
{
    lemma_row_cells(t);
    if t.len() == 0 {
        assert(row_fen(b, r, c, 0) =~= t);
    } else {
        let u = t.drop_first();
        assert forall|i: int| 0 <= i < u.len() implies row_char(#[trigger] u[i]) by {
            assert(u[i] == t[i + 1]);
        }
        assert forall|i: int| 0 <= i < u.len() - 1 implies !(is_digit(#[trigger] u[i]) && is_digit(u[i + 1])) by {
            assert(u[i] == t[i + 1]);
            assert(u[i + 1] == t[i + 2]);
        }
        lemma_row_cells(u);
        assert(row_char(t[0]));
        if is_digit(t[0]) {
            let d = digit_value(t[0]);
            assert(1 <= d <= 9);
            assert forall|j: int| 0 <= j < d implies #[trigger] b.cell(r * 9 + c + j) == 0 by {
                assert(row_cells(t)[j] == 0i8);
            }
            lemma_row_fen_empty(b, r, c, 0, d);
            assert(run_text(d) == seq![digit_char_of(d)]);
            assert(digit_char_of(d) == t[0]);
            if u.len() == 0 {
                assert(c + d == 9);
                assert(row_fen(b, r, c + d, d) == run_text(d));
                assert(t =~= seq![t[0]]);
            } else {
                assert(!is_digit(t[1]));
                assert(u[0] == t[1]);
                assert(row_char(u[0]));
                let p = fen_piece(t[1]);
                lemma_letter_back(t[1]);
                let w = u.drop_first();
                assert forall|i: int| 0 <= i < w.len() implies row_char(#[trigger] w[i]) by {
                    assert(w[i] == u[i + 1]);
                }
                assert forall|i: int| 0 <= i < w.len() - 1 implies !(is_digit(#[trigger] w[i]) && is_digit(w[i + 1])) by {
                    assert(w[i] == u[i + 1]);
                    assert(w[i + 1] == u[i + 2]);
                }
                lemma_row_cells(w);
                assert(row_cells(t)[d] == p);
                assert(b.cell(r * 9 + c + d) == p);
                assert(r * 9 + (c + d) == r * 9 + c + d);
                assert forall|j: int| 0 <= j < row_width(w) implies #[trigger] b.cell(r * 9 + (c + d + 1) + j) == row_cells(w)[j] by {
                    assert(row_cells(t)[d + 1 + j] == row_cells(w)[j]);
                    assert(b.cell(r * 9 + c + (d + 1 + j)) == row_cells(t)[d + 1 + j]);
                }
                lemma_row_text(b, r, c + d + 1, w);
                assert(row_fen(b, r, c + d, d) == run_text(d).push(fen_letter(p)) + row_fen(b, r, c + d + 1, 0));
                assert(t =~= seq![t[0]].push(t[1]) + w);
            }
        } else {
            let p = fen_piece(t[0]);
            lemma_letter_back(t[0]);
            assert(row_cells(t)[0] == p);
            assert(b.cell(r * 9 + c + 0) == p);
            assert forall|j: int| 0 <= j < row_width(u) implies #[trigger] b.cell(r * 9 + (c + 1) + j) == row_cells(u)[j] by {
                assert(row_cells(t)[1 + j] == row_cells(u)[j]);
                assert(b.cell(r * 9 + c + (1 + j)) == row_cells(t)[1 + j]);
            }
            lemma_row_text(b, r, c + 1, u);
            assert(row_fen(b, r, c, 0) == run_text(0).push(fen_letter(p)) + row_fen(b, r, c + 1, 0));
            assert(t =~= seq![t[0]] + u);
        }
    }
}

/// Rows `r..10` are written back as they were joined.
proof fn lemma_rows_text(b: Board, rows: Seq<Seq<char>>, r: int)
    requires
        0 <= r <= 9,
        rows.len() == 10,
        forall|q: int| r <= q < 10 ==> row_fen(b, q, 0, 0) == #[trigger] rows[q],
    ensures
        rows_fen(b, r) == joined(rows, r),
    decreases 10 - r,
{
    assert(row_fen(b, r, 0, 0) == rows[r]);
    if r < 9 {
        lemma_rows_text(b, rows, r + 1);
    }
}

/// An array with the given 90 cells.
spec fn array_from(cells: Seq<i8>, n: int) -> [i8; 90]
    decreases n,
{
    if n <= 0 {
        vstd::array::spec_array_fill_for_copy_type::<i8, 90>(0i8)
    } else {
        vstd::array::spec_array_update(array_from(cells, n - 1), n - 1, cells[n - 1])
    }
}

proof fn lemma_array_from(cells: Seq<i8>, n: int)
    requires
        0 <= n <= 90,
    ensures
        array_from(cells, n)@.len() == 90,
        forall|i: int| 0 <= i < n ==> #[trigger] array_from(cells, n)@[i] == cells[i],
    decreases n,
{
    broadcast use vstd::array::group_array_axioms;

    if n > 0 {
        lemma_array_from(cells, n - 1);
        vstd::array::axiom_spec_array_update(array_from(cells, n - 1), n - 1, cells[n - 1]);
    }
}

/// Every text in the form the writer produces reads back to a position that the writer
/// puts back into the same text.
pub proof fn law_canonical_fen_reads_back(s: Seq<char>)
    requires
        canonical_fen(s),
    ensures
        fen_parse(s) matches Some((cells, red)) && forall|b2: Board| #![trigger fen_text(b2)]
            b2.cells@ == cells && b2.red_turn == red ==> fen_text(b2) == s,
{
    let (rows, side) = choose|rows: Seq<Seq<char>>, side: char| #[trigger] canonical_parts(s, rows, side);
    let cells = Seq::new(90, |i: int| row_cells(rows[i / 9])[i % 9]);
    lemma_array_from(cells, 90);
    let arr = array_from(cells, 90);
    let b = Board { cells: arr, red_turn: side == 'w' };
    assert forall|q: int| 0 <= q < 10 implies row_fen(b, q, 0, 0) == #[trigger] rows[q] by {
        let t = rows[q];
        assert(canonical_row(t));
        lemma_row_cells(t);
        assert forall|j: int| 0 <= j < row_width(t) implies #[trigger] b.cell(q * 9 + 0 + j) == row_cells(t)[j] by {
            crate::xiangqi::lemma_sq(q, j);
            assert(b.cell(q * 9 + j) == arr@[q * 9 + j]);
        }
        lemma_row_text(b, q, 0, t);
    }
    lemma_rows_text(b, rows, 0);
    assert forall|i: int| 0 <= i < 90 implies -7 <= #[trigger] b.cell(i) <= 7 by {
        crate::xiangqi::lemma_rowcol(i);
        let q = i / 9;
        assert(canonical_row(rows[q]));
        lemma_row_cells(rows[q]);
        assert(b.cell(i) == arr@[i]);
    }
    assert(fen_text(b) =~= s);
    law_fen_text_reads_back(s, b);
}

} // verus!
