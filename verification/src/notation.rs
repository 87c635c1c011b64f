//! Chinese move notation ("炮二平五", "马8进7") and piece names.
use vstd::prelude::*;
use crate::text::{dec_nat, push_dec};
use crate::xiangqi::{Board, Move, kind, kind_of, abs_int, K, A, E, H, R, C, P};

verus! {

/// Name of a piece code (red: 帅仕相马车炮兵; black: 将士象马车砲卒).
pub open spec fn piece_char_spec(p: i8) -> Seq<char> {
    if p == 1 {
        "帅"@
    } else if p == 2 {
        "仕"@
    } else if p == 3 {
        "相"@
    } else if p == 4 {
        "马"@
    } else if p == 5 {
        "车"@
    } else if p == 6 {
        "炮"@
    } else if p == 7 {
        "兵"@
    } else if p == -1 {
        "将"@
    } else if p == -2 {
        "士"@
    } else if p == -3 {
        "象"@
    } else if p == -4 {
        "马"@
    } else if p == -5 {
        "车"@
    } else if p == -6 {
        "砲"@
    } else if p == -7 {
        "卒"@
    } else {
        "？"@
    }
}

/// Chinese name of a piece code.
pub fn piece_char(p: i8) -> (s: &'static str)
    ensures
        s@ == piece_char_spec(p),
{
    if p == K {
        "帅"
    } else if p == A {
        "仕"
    } else if p == E {
        "相"
    } else if p == H {
        "马"
    } else if p == R {
        "车"
    } else if p == C {
        "炮"
    } else if p == P {
        "兵"
    } else if p == -1 {
        "将"
    } else if p == -2 {
        "士"
    } else if p == -3 {
        "象"
    } else if p == -4 {
        "马"
    } else if p == -5 {
        "车"
    } else if p == -6 {
        "砲"
    } else if p == -7 {
        "卒"
    } else {
        "？"
    }
}

/// Chinese numeral 1..9 (empty for other values).
pub open spec fn cn_digit(n: int) -> Seq<char> {
    if n == 1 {
        "一"@
    } else if n == 2 {
        "二"@
    } else if n == 3 {
        "三"@
    } else if n == 4 {
        "四"@
    } else if n == 5 {
        "五"@
    } else if n == 6 {
        "六"@
    } else if n == 7 {
        "七"@
    } else if n == 8 {
        "八"@
    } else if n == 9 {
        "九"@
    } else {
        ""@
    }
}

fn cn_num(n: usize) -> (s: &'static str)
    ensures
        s@ == cn_digit(n as int),
{
    if n == 1 {
        "一"
    } else if n == 2 {
        "二"
    } else if n == 3 {
        "三"
    } else if n == 4 {
        "四"
    } else if n == 5 {
        "五"
    } else if n == 6 {
        "六"
    } else if n == 7 {
        "七"
    } else if n == 8 {
        "八"
    } else if n == 9 {
        "九"
    } else {
        ""
    }
}

/// Numbers are written in Chinese numerals for red and in Arabic digits for black.
pub open spec fn num_text(red: bool, n: int) -> Seq<char> {
    if red {
        cn_digit(n)
    } else {
        dec_nat(n as nat)
    }
}

/// File number of column `c`: red counts 一..九 from its right (column 8 is 一),
/// black counts 1..9 from its right as seen from red (column 0 is 1).
pub open spec fn file_no(red: bool, c: int) -> int {
    if red {
        9 - c
    } else {
        c + 1
    }
}

/// Squares of column `c` among rows `0..n` that hold the piece code `p`, top to bottom.
pub open spec fn file_squares(b: Board, c: int, p: i8, n: int) -> Seq<usize>
    decreases n,
{
    if n <= 0 {
        seq![]
    } else {
        let prev = file_squares(b, c, p, n - 1);
        let s = (n - 1) * 9 + c;
        if b.cell(s) == p {
            prev.push(s as usize)
        } else {
            prev
        }
    }
}

/// The notation of move `m` on `b` (empty when `m.from` is empty): piece and file
/// (or 前/后 when two such pieces share the file), then 平/进/退, then the target
/// file for sideways and diagonal movers or the number of rows otherwise.
pub open spec fn notation_spec(b: Board, m: Move) -> Seq<char> {
    let p = b.cell(m.from as int);
    let red = p > 0;
    let name = piece_char_spec(p);
    let fr = m.from / 9;
    let fc = m.from % 9;
    let tr = m.to / 9;
    let tc = m.to % 9;
    let same = file_squares(b, fc as int, p, 10);
    let prefix = if same.len() > 1 {
        let other = same[if same[0] == m.from {
            1int
        } else {
            0int
        }];
        let front = if red {
            fr < other / 9
        } else {
            fr > other / 9
        };
        (if front {
            "前"@
        } else {
            "后"@
        }) + name
    } else {
        name + num_text(red, file_no(red, fc as int))
    };
    let dir = if tr == fr {
        "平"@
    } else if (if red {
        tr < fr
    } else {
        tr > fr
    }) {
        "进"@
    } else {
        "退"@
    };
    if p == 0 {
        seq![]
    } else if kind(p) == H || kind(p) == A || kind(p) == E {
        prefix + dir + num_text(red, file_no(red, tc as int))
    } else if tr == fr {
        prefix + "平"@ + num_text(red, file_no(red, tc as int))
    } else {
        prefix + dir + num_text(red, abs_int(tr - fr))
    }
}

/// The move is written with the number of rows it covers: a piece other than a horse,
/// an advisor or an elephant that changes row.
pub open spec fn counts_rows(b: Board, m: Move) -> bool {
    let p = b.cell(m.from as int);
    &&& p != 0
    &&& kind(p) != H && kind(p) != A && kind(p) != E
    &&& m.to / 9 != m.from / 9
}

/// A red piece that moves straight along its file by ten rows or more: red numerals stop
/// at 九, so such a move has no notation.
pub open spec fn numeral_missing(b: Board, m: Move) -> bool {
    &&& counts_rows(b, m)
    &&& b.cell(m.from as int) > 0
    &&& abs_int(m.to / 9 - m.from / 9) >= 10
}

fn push_num(s: &mut String, red: bool, n: usize)
    ensures
        final(s)@ == old(s)@ + num_text(red, n as int),
{
    if red {
        s.append(cn_num(n));
    } else {
        push_dec(s, n as u64);
    }
}

impl Board {
    /// Chinese notation of `mv`, such as 炮二平五 or 马8进7. The target square may lie off
    /// the board; where the rows covered are counted, its row fits an `i32`, and the move
    /// is not one that `numeral_missing` leaves without a numeral.
    pub fn move_notation(&self, mv: Move) -> (s: String)
        requires
            mv.from < 90,
            counts_rows(*self, mv) ==> mv.to / 9 <= i32::MAX,
            !numeral_missing(*self, mv),
            self.wf(),
        ensures
            s@ == notation_spec(*self, mv),
    {
        let p = self.cells[mv.from];
        if p == 0 {
            return String::new();
        }
        let red = p > 0;
        let name = piece_char(p);
        let fr = mv.from / 9;
        let fc = mv.from % 9;
        let tr = mv.to / 9;
        let tc = mv.to % 9;
        let mut same_file: Vec<usize> = Vec::new();
        let mut r: usize = 0;
        while r < 10
            invariant
                0 <= r <= 10,
                fc < 9,
                same_file@ == file_squares(*self, fc as int, p, r as int),
            decreases 10 - r,
        {
            if self.cells[r * 9 + fc] == p {
                same_file.push(r * 9 + fc);
            }
            r = r + 1;
        }
        let mut out = String::new();
        if same_file.len() > 1 {
            let other = same_file[if same_file[0] == mv.from {
                1
            } else {
                0
            }];
            let front = if red {
                fr < other / 9
            } else {
                fr > other / 9
            };
            out.append(if front {
                "前"
            } else {
                "后"
            });
            out.append(name);
        } else {
            out.append(name);
            push_num(&mut out, red, if red {
                9 - fc
            } else {
                fc + 1
            });
        }
        let dir = if tr == fr {
            "平"
        } else {
            let forward = if red {
                tr < fr
            } else {
                tr > fr
            };
            if forward {
                "进"
            } else {
                "退"
            }
        };
        let k = kind_of(p);
        if k == H || k == A || k == E {
            out.append(dir);
            push_num(&mut out, red, if red {
                9 - tc
            } else {
                tc + 1
            });
        } else {
            if tr == fr {
                out.append("平");
                push_num(&mut out, red, if red {
                    9 - tc
                } else {
                    tc + 1
                });
            } else {
                out.append(dir);
                push_num(&mut out, red, if tr >= fr {
                    tr - fr
                } else {
                    fr - tr
                });
            }
        }
        assert(out@ =~= notation_spec(*self, mv));
        out
    }
}

/// Every piece name is one character.
proof fn lemma_piece_char_len(p: i8)
    ensures
        piece_char_spec(p).len() == 1,
{
    reveal_strlit("帅");
    reveal_strlit("仕");
    reveal_strlit("相");
    reveal_strlit("马");
    reveal_strlit("车");
    reveal_strlit("炮");
    reveal_strlit("兵");
    reveal_strlit("将");
    reveal_strlit("士");
    reveal_strlit("象");
    reveal_strlit("砲");
    reveal_strlit("卒");
    reveal_strlit("？");
}

/// The number of a file is one character.
proof fn lemma_file_text_len(red: bool, c: int)
    requires
        0 <= c < 9,
    ensures
        num_text(red, file_no(red, c)).len() == 1,
{
    reveal_strlit("一");
    reveal_strlit("二");
    reveal_strlit("三");
    reveal_strlit("四");
    reveal_strlit("五");
    reveal_strlit("六");
    reveal_strlit("七");
    reveal_strlit("八");
    reveal_strlit("九");
}

/// The direction word, the third character of a move's notation, follows the direction
/// of travel: 平 along the row, 进 toward the enemy side (for red to a smaller row, for
/// black to a larger one), 退 back toward its own side.
pub proof fn law_notation_direction(b: Board, m: Move)
    requires
        m.from < 90,
        b.cell(m.from as int) != 0,
    ensures
        notation_spec(b, m).len() >= 3,
        notation_spec(b, m)[2] == (if m.to / 9 == m.from / 9 {
            '平'
        } else if (if b.cell(m.from as int) > 0 {
            m.to / 9 < m.from / 9
        } else {
            m.to / 9 > m.from / 9
        }) {
            '进'
        } else {
            '退'
        }),
{
    reveal_strlit("前");
    reveal_strlit("后");
    reveal_strlit("平");
    reveal_strlit("进");
    reveal_strlit("退");
    let p = b.cell(m.from as int);
    let red = p > 0;
    lemma_piece_char_len(p);
    lemma_file_text_len(red, (m.from % 9) as int);
    lemma_file_text_len(red, (m.to % 9) as int);
    let name = piece_char_spec(p);
    let fr = m.from / 9;
    let fc = m.from % 9;
    let tr = m.to / 9;
    let tc = m.to % 9;
    let same = file_squares(b, fc as int, p, 10);
    let prefix = if same.len() > 1 {
        let other = same[if same[0] == m.from {
            1int
        } else {
            0int
        }];
        let front = if red {
            fr < other / 9
        } else {
            fr > other / 9
        };
        (if front {
            "前"@
        } else {
            "后"@
        }) + name
    } else {
        name + num_text(red, file_no(red, fc as int))
    };
    assert(prefix.len() == 2);
    let dir = if tr == fr {
        "平"@
    } else if (if red {
        tr < fr
    } else {
        tr > fr
    }) {
        "进"@
    } else {
        "退"@
    };
    let t = notation_spec(b, m);
    if kind(p) == H || kind(p) == A || kind(p) == E {
        assert(t == prefix + dir + num_text(red, file_no(red, tc as int)));
        assert(t[2] == dir[0]);
    } else if tr == fr {
        assert(t == prefix + "平"@ + num_text(red, file_no(red, tc as int)));
        assert(t[2] == "平"@[0]);
    } else {
        assert(t == prefix + dir + num_text(red, abs_int(tr - fr)));
        assert(t[2] == dir[0]);
    }
}

/// The character for file or distance number `n` (1 to 9): Chinese numerals for red,
/// Arabic digits for black.
pub open spec fn number_char(red: bool, n: int) -> char {
    if red {
        "一二三四五六七八九"@[n - 1]
    } else {
        "123456789"@[n - 1]
    }
}

/// Squares of column `c` among rows `0..n` holding `p`, when row `r0` is the only row
/// of that column that holds it.
proof fn lemma_file_squares_one(b: Board, c: int, p: i8, n: int, r0: int)
    requires
        0 <= c < 9,
        0 <= r0 < 10,
        0 <= n <= 10,
        b.cell(r0 * 9 + c) == p,
        forall|r: int| 0 <= r < 10 && r != r0 ==> #[trigger] b.cell(r * 9 + c) != p,
    ensures
        file_squares(b, c, p, n) == (if r0 < n {
            seq![(r0 * 9 + c) as usize]
        } else {
            Seq::<usize>::empty()
        }),
    decreases n,
{
    if n > 0 {
        lemma_file_squares_one(b, c, p, n - 1, r0);
    }
}

/// Squares of column `c` among rows `0..n` holding `p`, when rows `r1 < r2` are the
/// only rows of that column that hold it.
proof fn lemma_file_squares_two(b: Board, c: int, p: i8, n: int, r1: int, r2: int)
    requires
        0 <= c < 9,
        0 <= r1 < r2 < 10,
        0 <= n <= 10,
        b.cell(r1 * 9 + c) == p,
        b.cell(r2 * 9 + c) == p,
        forall|r: int| 0 <= r < 10 && r != r1 && r != r2 ==> #[trigger] b.cell(r * 9 + c) != p,
    ensures
        file_squares(b, c, p, n) == (if r2 < n {
            seq![(r1 * 9 + c) as usize, (r2 * 9 + c) as usize]
        } else if r1 < n {
            seq![(r1 * 9 + c) as usize]
        } else {
            Seq::<usize>::empty()
        }),
    decreases n,
{
    if n > 0 {
        lemma_file_squares_two(b, c, p, n - 1, r1, r2);
        if n - 1 == r2 {
            assert(seq![(r1 * 9 + c) as usize].push((r2 * 9 + c) as usize) =~= seq![(r1 * 9 + c) as usize, (r2 * 9 + c) as usize]);
        }
    }
}

/// How a move of a piece on the board is written, past the piece's name: a piece alone
/// of its kind on its file is named with its file number; of two such pieces on a file,
/// the one nearer the enemy is 前 (front) and the other 后 (back). The last character
/// is, for a move along a row or a diagonal mover (horse, advisor, elephant), the number
/// of the target file; otherwise the number of rows travelled. Files count from the
/// mover's right: red 一 to 九 from column 8 to column 0, black 1 to 9 from column 0 to
/// column 8.
pub proof fn law_notation_numbers(b: Board, m: Move)
    requires
        m.from < 90,
        m.to < 90,
        b.cell(m.from as int) != 0,
    ensures
        ({
            let p = b.cell(m.from as int);
            let red = p > 0;
            let fr = m.from as int / 9;
            let fc = m.from as int % 9;
            let tr = m.to as int / 9;
            let tc = m.to as int % 9;
            let t = notation_spec(b, m);
            let file = |c: int| if red { 9 - c } else { c + 1 };
            let others = |r: int| 0 <= r < 10 && r != fr && b.cell(r * 9 + fc) == p;
            &&& t.len() == 4
            &&& (forall|r: int| !#[trigger] others(r)) ==> t[1] == number_char(red, file(fc))
            &&& (forall|r2: int| #[trigger] others(r2) ==> forall|r3: int| #[trigger] others(r3) ==> r2 == r3)
                ==> forall|r2: int| #[trigger] others(r2) ==> t[0] == (if (if red { fr < r2 } else { fr > r2 }) {
                '前'
            } else {
                '后'
            })
            &&& t[3] == (if tr == fr || kind(p) == H || kind(p) == A || kind(p) == E {
                number_char(red, file(tc))
            } else {
                number_char(red, abs_int(tr - fr))
            })
        }),
{
    reveal_strlit("前");
    reveal_strlit("后");
    reveal_strlit("平");
    reveal_strlit("进");
    reveal_strlit("退");
    reveal_strlit("一二三四五六七八九");
    reveal_strlit("123456789");
    reveal_strlit("一");
    reveal_strlit("二");
    reveal_strlit("三");
    reveal_strlit("四");
    reveal_strlit("五");
    reveal_strlit("六");
    reveal_strlit("七");
    reveal_strlit("八");
    reveal_strlit("九");
    let p = b.cell(m.from as int);
    let red = p > 0;
    let fr = m.from as int / 9;
    let fc = m.from as int % 9;
    let tr = m.to as int / 9;
    let tc = m.to as int % 9;
    crate::xiangqi::lemma_rowcol(m.from as int);
    crate::xiangqi::lemma_rowcol(m.to as int);
    lemma_piece_char_len(p);
    law_notation_direction(b, m);
    let file = |c: int| if red { 9 - c } else { c + 1 };
    let others = |r: int| 0 <= r < 10 && r != fr && b.cell(r * 9 + fc) == p;
    let t = notation_spec(b, m);
    let name = piece_char_spec(p);
    let same = file_squares(b, fc, p, 10);
    assert forall|n: int| 1 <= n <= 9 implies #[trigger] num_text(red, n).len() == 1 && num_text(red, n)[0] == number_char(red, n) by {
        if !red {
            assert(dec_nat(n as nat) == seq![crate::text::digit_char(n)]);
        }
    }
    let last_n = if tr == fr || kind(p) == H || kind(p) == A || kind(p) == E {
        file(tc)
    } else {
        abs_int(tr - fr)
    };
    assert(1 <= last_n <= 9);
    let prefix = if same.len() > 1 {
        let other = same[if same[0] == m.from {
            1int
        } else {
            0int
        }];
        let front = if red {
            fr < other / 9
        } else {
            fr > other / 9
        };
        (if front {
            "前"@
        } else {
            "后"@
        }) + name
    } else {
        name + num_text(red, file(fc))
    };
    assert(t == prefix + t.subrange(2, 3) + num_text(red, last_n));
    assert(t.len() == 4);
    assert(t[3] == num_text(red, last_n)[0]);
    if forall|r: int| !#[trigger] others(r) {
        assert forall|r: int| 0 <= r < 10 && r != fr implies #[trigger] b.cell(r * 9 + fc) != p by {
            assert(!others(r));
        }
        lemma_file_squares_one(b, fc, p, 10, fr);
        assert(t[1] == num_text(red, file(fc))[0]);
    }
    if (forall|r2: int| #[trigger] others(r2) ==> forall|r3: int| #[trigger] others(r3) ==> r2 == r3) {
        assert forall|r2: int| #[trigger] others(r2) implies t[0] == (if (if red { fr < r2 } else { fr > r2 }) {
            '前'
        } else {
            '后'
        }) by {
            assert forall|r: int| 0 <= r < 10 && r != fr && r != r2 implies #[trigger] b.cell(r * 9 + fc) != p by {
                if others(r) {
                    assert(r2 == r);
                }
            }
            crate::xiangqi::lemma_sq(r2, fc);
            if fr < r2 {
                lemma_file_squares_two(b, fc, p, 10, fr, r2);
                assert(same[0] == m.from);
            } else {
                lemma_file_squares_two(b, fc, p, 10, r2, fr);
                assert(same[1] == m.from);
            }
        }
    }
}

} // verus!
