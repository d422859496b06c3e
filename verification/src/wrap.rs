//! Wrapping and padding of cell text.
//!
//! A table cell stores its text in already-wrapped form: lines of a fixed
//! width separated by single line breaks, with the trailing part of the last
//! line filled up with spaces. This module defines that shape, the operation
//! that wraps a raw string into it, and the operation that pads the cells of
//! a row to a common number of lines.

use vstd::arithmetic::div_mod::{
    lemma_div_nonincreasing, lemma_div_pos_is_pos, lemma_fundamental_div_mod,
    lemma_fundamental_div_mod_converse, lemma_mod_division_less_than_divisor,
};
use vstd::prelude::*;

verus! {

/// The character at offset `j` of the wrapped form of `s` at width `w`:
/// every `(w+1)`-th position carries a line break, and the remaining
/// positions carry the characters of `s` in order, then spaces.
pub open spec fn grid_char(w: int, s: Seq<char>, j: int) -> char
    recommends
        w >= 1,
        j >= 0,
{
    if j % (w + 1) == w {
        '\n'
    } else {
        let idx = (j / (w + 1)) * w + j % (w + 1);
        if 0 <= idx < s.len() {
            s[idx]
        } else {
            ' '
        }
    }
}

/// The wrapped form of `s` at width `w`, stretched to `h` lines: `h` lines
/// of exactly `w` characters joined by single line breaks, holding the
/// characters of `s` in order followed by trailing spaces.
pub open spec fn grid_content(w: int, h: int, s: Seq<char>) -> Seq<char>
    recommends
        w >= 1,
        h >= 1,
{
    Seq::new((h * (w + 1) - 1) as nat, |j: int| grid_char(w, s, j))
}

/// How many lines wrapping `n` characters at width `w` takes: `n / w`
/// rounded up, and a single blank line for an empty string.
pub open spec fn wrap_height(w: int, n: int) -> int
    recommends
        w >= 1,
        n >= 0,
{
    if n == 0 {
        1
    } else {
        (n - 1) / w + 1
    }
}

/// `c` has the shape of a wrapped cell body: `h` lines of exactly `w`
/// characters each, separated by single line breaks.
pub open spec fn is_grid(w: int, h: int, c: Seq<char>) -> bool {
    &&& c.len() == h * (w + 1) - 1
    &&& forall|j: int| 0 <= j < c.len() ==> ((c[j] == '\n') <==> (j % (w + 1) == w))
}

/// The characters that padding a `w`-wide cell by `k` extra blank lines
/// appends: `k` repetitions of a line break followed by `w` spaces.
pub open spec fn pad_suffix(w: int, k: int) -> Seq<char>
    recommends
        w >= 1,
        k >= 0,
{
    Seq::new((k * (w + 1)) as nat, |j: int| if j % (w + 1) == 0 { '\n' } else { ' ' })
}

/// A run of `n` spaces.
pub open spec fn space_seq(n: int) -> Seq<char> {
    Seq::new(n as nat, |i: int| ' ')
}

/// `s` contains no line break.
pub open spec fn no_newline(s: Seq<char>) -> bool {
    forall|i: int| 0 <= i < s.len() ==> s[i] != '\n'
}

/// The greatest entry of `s`, or 0 when `s` is empty.
pub open spec fn seq_max(s: Seq<int>) -> int
    decreases s.len(),
{
    if s.len() == 0 {
        0
    } else if s.last() > seq_max(s.drop_last()) {
        s.last()
    } else {
        seq_max(s.drop_last())
    }
}

/// The heights of the cells of a row.
pub open spec fn heights_of(cells: Seq<WrappedCell>) -> Seq<int> {
    cells.map_values(|c: WrappedCell| c.height as int)
}

/// The common height the cells of a row are padded to: the greatest height
/// among them, or 0 for an empty row.
pub open spec fn row_height(cells: Seq<WrappedCell>) -> int {
    seq_max(heights_of(cells))
}

pub proof fn lemma_seq_max_ge(s: Seq<int>, i: int)
    requires
        0 <= i < s.len(),
    ensures
        s[i] <= seq_max(s),
    decreases s.len(),
{
    if i == s.len() - 1 {
    } else {
        lemma_seq_max_ge(s.drop_last(), i);
    }
}

/// The greatest entry of a row extended at the front is the greater of
/// the new entry and the row's previous greatest entry.
pub proof fn lemma_seq_max_cons(a: int, s: Seq<int>)
    requires
        a >= 0,
    ensures
        seq_max(seq![a] + s) == (if a > seq_max(s) {
            a
        } else {
            seq_max(s)
        }),
    decreases s.len(),
{
    if s.len() == 0 {
        assert((seq![a] + s) =~= seq![a]);
        assert(seq![a].drop_last() =~= Seq::<int>::empty());
        assert(seq_max(Seq::<int>::empty()) == 0);
        assert(seq![a].last() == a);
    } else {
        lemma_seq_max_cons(a, s.drop_last());
        let m = seq_max(s.drop_last());
        assert((seq![a] + s).drop_last() =~= seq![a] + s.drop_last());
        assert((seq![a] + s).last() == s.last());
        assert(seq_max(seq![a] + s) == (if s.last() > seq_max(seq![a] + s.drop_last()) {
            s.last()
        } else {
            seq_max(seq![a] + s.drop_last())
        }));
        assert(seq_max(s) == (if s.last() > m {
            s.last()
        } else {
            m
        }));
    }
}

pub proof fn lemma_seq_max_le(s: Seq<int>, b: int)
    requires
        b >= 0,
        forall|i: int| 0 <= i < s.len() ==> #[trigger] s[i] <= b,
    ensures
        seq_max(s) <= b,
    decreases s.len(),
{
    if s.len() == 0 {
    } else {
        lemma_seq_max_le(s.drop_last(), b);
    }
}

/// Wrapping always yields at least one line, and its lines have room for
/// every character of the source string.
pub proof fn lemma_wrap_height(w: int, n: int)
    requires
        w >= 1,
        n >= 0,
    ensures
        wrap_height(w, n) >= 1,
        n <= wrap_height(w, n) * w,
{
    if n == 0 {
    } else {
        let q = (n - 1) / w;
        let r = (n - 1) % w;
        lemma_fundamental_div_mod(n - 1, w);
        lemma_mod_division_less_than_divisor(n - 1, w);
        lemma_div_pos_is_pos(n - 1, w);
        assert(n - 1 == w * q + r);
        assert(n <= (q + 1) * w) by (nonlinear_arith)
            requires
                n - 1 == w * q + r,
                r < w,
        ;
    }
}

/// The wrapped form of a break-free string has the wrapped cell shape.
pub proof fn lemma_grid_content_is_grid(w: int, h: int, s: Seq<char>)
    requires
        w >= 1,
        h >= 1,
        no_newline(s),
    ensures
        is_grid(w, h, grid_content(w, h, s)),
{
    let c = grid_content(w, h, s);
    assert(h * (w + 1) - 1 >= w) by (nonlinear_arith)
        requires
            w >= 1,
            h >= 1,
    ;
    assert(c.len() == h * (w + 1) - 1);
    assert forall|j: int| 0 <= j < c.len() implies ((c[j] == '\n') <==> (j % (w + 1) == w)) by {
        assert(c[j] == grid_char(w, s, j));
        if j % (w + 1) != w {
            let idx = (j / (w + 1)) * w + j % (w + 1);
            if 0 <= idx < s.len() {
                assert(s[idx] != '\n');
            }
        }
    }
}

/// Appending `hh - h` blank lines to a well-shaped `h`-line cell body
/// yields a well-shaped `hh`-line cell body.
pub proof fn lemma_is_grid_pad(w: int, h: int, hh: int, c: Seq<char>)
    requires
        w >= 1,
        1 <= h <= hh,
        is_grid(w, h, c),
    ensures
        is_grid(w, hh, c + pad_suffix(w, hh - h)),
{
    let p = pad_suffix(w, hh - h);
    let cc = c + p;
    assert((hh - h) * (w + 1) >= 0) by (nonlinear_arith)
        requires
            w >= 1,
            h <= hh,
    ;
    assert(cc.len() == hh * (w + 1) - 1) by (nonlinear_arith)
        requires
            cc.len() == h * (w + 1) - 1 + (hh - h) * (w + 1),
    ;
    assert forall|j: int| 0 <= j < cc.len() implies ((cc[j] == '\n') <==> (j % (w + 1) == w)) by {
        if j < c.len() {
            assert(cc[j] == c[j]);
        } else {
            let m = j - (h * (w + 1) - 1);
            assert(cc[j] == p[m]);
            let q = m / (w + 1);
            let r = m % (w + 1);
            lemma_fundamental_div_mod(m, w + 1);
            lemma_mod_division_less_than_divisor(m, w + 1);
            lemma_div_pos_is_pos(m, w + 1);
            assert(m == (w + 1) * q + r);
            if r == 0 {
                assert(j == (h + q - 1) * (w + 1) + w) by (nonlinear_arith)
                    requires
                        m == (w + 1) * q + r,
                        r == 0,
                        j == m + h * (w + 1) - 1,
                ;
                lemma_fundamental_div_mod_converse(j, w + 1, h + q - 1, w);
            } else {
                assert(j == (h + q) * (w + 1) + (r - 1)) by (nonlinear_arith)
                    requires
                        m == (w + 1) * q + r,
                        j == m + h * (w + 1) - 1,
                ;
                lemma_fundamental_div_mod_converse(j, w + 1, h + q, r - 1);
            }
        }
    }
}

/// For a string that fits in `h` lines, stretching its wrapped form from
/// `h` to `hh` lines is the same as appending `hh - h` blank lines.
pub proof fn lemma_grid_pad(w: int, h: int, hh: int, s: Seq<char>)
    requires
        w >= 1,
        1 <= h <= hh,
        s.len() <= h * w,
    ensures
        grid_content(w, h, s) + pad_suffix(w, hh - h) == grid_content(w, hh, s),
{
    let a = grid_content(w, h, s) + pad_suffix(w, hh - h);
    let b = grid_content(w, hh, s);
    assert(h * (w + 1) - 1 >= w && hh * (w + 1) - 1 >= w && (hh - h) * (w + 1) >= 0)
        by (nonlinear_arith)
        requires
            w >= 1,
            1 <= h <= hh,
    ;
    assert(a.len() == b.len()) by (nonlinear_arith)
        requires
            a.len() == h * (w + 1) - 1 + (hh - h) * (w + 1),
            b.len() == hh * (w + 1) - 1,
    ;
    assert forall|j: int| 0 <= j < a.len() implies a[j] == b[j] by {
        assert(b[j] == grid_char(w, s, j));
        if j < h * (w + 1) - 1 {
            assert(a[j] == grid_char(w, s, j));
        } else {
            let m = j - (h * (w + 1) - 1);
            assert(a[j] == pad_suffix(w, hh - h)[m]);
            let q = m / (w + 1);
            let r = m % (w + 1);
            lemma_fundamental_div_mod(m, w + 1);
            lemma_mod_division_less_than_divisor(m, w + 1);
            lemma_div_pos_is_pos(m, w + 1);
            assert(m == (w + 1) * q + r);
            if r == 0 {
                assert(j == (h + q - 1) * (w + 1) + w) by (nonlinear_arith)
                    requires
                        m == (w + 1) * q + r,
                        r == 0,
                        j == m + h * (w + 1) - 1,
                ;
                lemma_fundamental_div_mod_converse(j, w + 1, h + q - 1, w);
            } else {
                assert(j == (h + q) * (w + 1) + (r - 1)) by (nonlinear_arith)
                    requires
                        m == (w + 1) * q + r,
                        j == m + h * (w + 1) - 1,
                ;
                lemma_fundamental_div_mod_converse(j, w + 1, h + q, r - 1);
                assert((h + q) * w + (r - 1) >= h * w) by (nonlinear_arith)
                    requires
                        w >= 1,
                        q >= 0,
                        r >= 1,
                ;
                assert(b[j] == ' ');
            }
        }
    }
    assert(a =~= b);
}

/// Law: wrapping a break-free string at a positive width yields exactly
/// `wrap_height(w, s.len())` lines, each exactly `w` characters long and
/// free of line breaks, joined by single line breaks.
pub proof fn lemma_wrap_round_trip(w: int, s: Seq<char>)
    requires
        w >= 1,
        no_newline(s),
    ensures
        ({
            let h = wrap_height(w, s.len() as int);
            let c = grid_content(w, h, s);
            &&& h >= 1
            &&& c.len() == h * (w + 1) - 1
            &&& forall|k: int|
                0 <= k < h ==> (#[trigger] c.subrange(k * (w + 1), k * (w + 1) + w)).len() == w
            &&& forall|k: int|
                0 <= k < h ==> no_newline(#[trigger] c.subrange(k * (w + 1), k * (w + 1) + w))
            &&& forall|k: int| 1 <= k < h ==> #[trigger] c[k * (w + 1) - 1] == '\n'
        }),
{
    let h = wrap_height(w, s.len() as int);
    let c = grid_content(w, h, s);
    lemma_wrap_height(w, s.len() as int);
    lemma_grid_content_is_grid(w, h, s);
    assert forall|k: int| 0 <= k < h implies (#[trigger] c.subrange(
        k * (w + 1),
        k * (w + 1) + w,
    )).len() == w && no_newline(c.subrange(k * (w + 1), k * (w + 1) + w)) by {
        assert(k * (w + 1) >= 0 && k * (w + 1) + w <= h * (w + 1) - 1) by (nonlinear_arith)
            requires
                0 <= k,
                k + 1 <= h,
                w >= 1,
        ;
        let line = c.subrange(k * (w + 1), k * (w + 1) + w);
        assert(line.len() == w);
        assert forall|t: int| 0 <= t < line.len() implies line[t] != '\n' by {
            let j = k * (w + 1) + t;
            assert(line[t] == c[j]);
            lemma_fundamental_div_mod_converse(j, w + 1, k, t);
        }
    }
    assert forall|k: int| 1 <= k < h implies #[trigger] c[k * (w + 1) - 1] == '\n' by {
        let j = k * (w + 1) - 1;
        assert(j == (k - 1) * (w + 1) + w) by (nonlinear_arith)
            requires
                j == k * (w + 1) - 1,
        ;
        lemma_fundamental_div_mod_converse(j, w + 1, k - 1, w);
        assert(0 <= j < c.len()) by (nonlinear_arith)
            requires
                1 <= k < h,
                w >= 1,
                j == k * (w + 1) - 1,
                c.len() == h * (w + 1) - 1,
        ;
    }
}

/// Relies on `String::push`: appends the given character to the end of the
/// string.
pub assume_specification[ String::push ](s: &mut String, c: char)
    ensures
        final(s)@ == old(s)@.push(c),
;

/// One formatted cell of a table: `content` holds the text already wrapped
/// into `height` lines of `width` characters joined by single line breaks.
#[derive(Debug)]
pub struct WrappedCell {
    /// How many characters each line of the cell holds.
    pub width: usize,
    /// How many lines the wrapped content occupies.
    pub height: usize,
    /// The wrapped, line-broken, space-padded text.
    pub content: String,
}

impl WrappedCell {
    /// The cell's stated width and height match the shape of its content.
    pub open spec fn wf(&self) -> bool {
        &&& self.width >= 1
        &&& self.height >= 1
        &&& is_grid(self.width as int, self.height as int, self.content@)
    }

    /// Break a string into lines of exactly `w` characters, padding the last
    /// line with trailing spaces; an empty string yields one fully padded
    /// blank line. Fails exactly when the requested width is zero.
    pub fn wrap_str(w: usize, s: String) -> (r: Result<WrappedCell, &'static str>)
        ensures
            r is Ok <==> w >= 1,
            r is Err ==> r->Err_0@ == "The width you gave was invalid."@,
            r matches Ok(c) ==> {
                &&& c.width == w
                &&& c.height as int == wrap_height(w as int, s@.len() as int)
                &&& c.content@ == grid_content(w as int, c.height as int, s@)
            },
            r matches Ok(c) ==> (no_newline(s@) ==> c.wf()),
    {
        if w == 0 {
            return Err("The width you gave was invalid.");
        }
        let n: usize = s.as_str().unicode_len();
        let h: usize = if n == 0 {
            1
        } else {
            proof {
                lemma_div_nonincreasing(n as int - 1, w as int);
            }
            (n - 1) / w + 1
        };
        let mut content = String::new();
        let mut idx: usize = 0;
        let mut k: usize = 0;
        while k < h
            invariant
                1 <= w,
                n == s@.len(),
                h as int == wrap_height(w as int, n as int),
                1 <= h,
                k <= h,
                content@.len() == (if k == 0 {
                    0int
                } else {
                    k as int * (w as int + 1) - 1
                }),
                forall|j: int| 0 <= j < content@.len() ==> content@[j] == grid_char(w as int, s@, j),
                idx as int == (if k as int * (w as int) <= n as int {
                    k as int * (w as int)
                } else {
                    n as int
                }),
            decreases h - k,
        {
            let ghost ww = w as int;
            let ghost kk = k as int;
            if k != 0 {
                let ghost jsep = content@.len() as int;
                content.push('\n');
                proof {
                    assert(jsep == (kk - 1) * (ww + 1) + ww) by (nonlinear_arith)
                        requires
                            jsep == kk * (ww + 1) - 1,
                    ;
                    lemma_fundamental_div_mod_converse(jsep, ww + 1, kk - 1, ww);
                    assert(content@[jsep] == grid_char(ww, s@, jsep));
                }
            }
            let mut col: usize = 0;
            while col < w
                invariant
                    1 <= w,
                    n == s@.len(),
                    k < h,
                    col <= w,
                    content@.len() == k as int * (w as int + 1) + col as int,
                    forall|j: int|
                        0 <= j < content@.len() ==> content@[j] == grid_char(w as int, s@, j),
                    idx as int == (if k as int * (w as int) + col as int <= n as int {
                        k as int * (w as int) + col as int
                    } else {
                        n as int
                    }),
                decreases w - col,
            {
                let ghost iww = w as int;
                let ghost ikk = k as int;
                let ghost jj = content@.len() as int;
                let ghost cc = col as int;
                proof {
                    lemma_fundamental_div_mod_converse(jj, iww + 1, ikk, cc);
                }
                if idx < n {
                    let ch = s.as_str().get_char(idx);
                    content.push(ch);
                    proof {
                        assert(content@[jj] == grid_char(iww, s@, jj));
                    }
                    idx = idx + 1;
                } else {
                    content.push(' ');
                    proof {
                        assert(ikk * iww + cc >= n as int);
                        assert(content@[jj] == grid_char(iww, s@, jj));
                    }
                }
                col = col + 1;
            }
            proof {
                assert(kk * (ww + 1) + ww == (kk + 1) * (ww + 1) - 1) by (nonlinear_arith);
                assert(kk * ww + ww == (kk + 1) * ww) by (nonlinear_arith);
            }
            k = k + 1;
        }
        proof {
            assert(h as int * (w as int + 1) - 1 >= 0) by (nonlinear_arith)
                requires
                    h >= 1,
                    w >= 1,
            ;
            assert(content@ =~= grid_content(w as int, h as int, s@));
            if no_newline(s@) {
                lemma_grid_content_is_grid(w as int, h as int, s@);
            }
        }
        Ok(WrappedCell { width: w, height: h, content })
    }

    /// Pad every cell of a row with trailing blank lines so that all cells
    /// share the height of the tallest cell of the row. Widths and existing
    /// content are kept; only full lines of spaces are appended.
    pub fn pad_row(row: Vec<WrappedCell>) -> (r: Vec<WrappedCell>)
        ensures
            r@.len() == row@.len(),
            forall|i: int|
                0 <= i < row@.len() ==> {
                    &&& (#[trigger] r@[i]).width == row@[i].width
                    &&& r@[i].height as int == row_height(row@)
                    &&& r@[i].content@ == row@[i].content@ + pad_suffix(
                        row@[i].width as int,
                        row_height(row@) - row@[i].height as int,
                    )
                },
            (forall|i: int| 0 <= i < row@.len() ==> (#[trigger] row@[i]).wf()) ==> forall|i: int|
                0 <= i < r@.len() ==> (#[trigger] r@[i]).wf(),
    {
        let mut max_height: usize = 0;
        let mut i: usize = 0;
        while i < row.len()
            invariant
                i <= row@.len(),
                max_height as int == row_height(row@.subrange(0, i as int)),
            decreases row@.len() - i,
        {
            proof {
                assert(row@.subrange(0, i as int + 1).drop_last() =~= row@.subrange(0, i as int));
                assert(heights_of(row@.subrange(0, i as int + 1)).drop_last() =~= heights_of(
                    row@.subrange(0, i as int),
                ));
            }
            if row[i].height > max_height {
                max_height = row[i].height;
            }
            i = i + 1;
        }
        proof {
            assert(row@.subrange(0, row@.len() as int) =~= row@);
        }
        let mut formatted: Vec<WrappedCell> = Vec::new();
        let mut i: usize = 0;
        while i < row.len()
            invariant
                i <= row@.len(),
                max_height as int == row_height(row@),
                formatted@.len() == i as int,
                forall|t: int|
                    0 <= t < i as int ==> {
                        &&& (#[trigger] formatted@[t]).width == row@[t].width
                        &&& formatted@[t].height as int == row_height(row@)
                        &&& formatted@[t].content@ == row@[t].content@ + pad_suffix(
                            row@[t].width as int,
                            row_height(row@) - row@[t].height as int,
                        )
                    },
            decreases row@.len() - i,
        {
            let width = row[i].width;
            let hi = row[i].height;
            proof {
                lemma_seq_max_ge(heights_of(row@), i as int);
                assert(heights_of(row@)[i as int] == hi as int);
            }
            let mut content = row[i].content.clone();
            proof {
                assert(row@[i as int].content@ + pad_suffix(width as int, 0) =~= row@[i as
                    int].content@);
            }
            let diff = max_height - hi;
            let mut t: usize = 0;
            while t < diff
                invariant
                    t <= diff,
                    i < row@.len(),
                    width == row@[i as int].width,
                    hi == row@[i as int].height,
                    diff as int == row_height(row@) - hi as int,
                    content@ == row@[i as int].content@ + pad_suffix(width as int, t as int),
                decreases diff - t,
            {
                let ghost base = row@[i as int].content@;
                let ghost ww = width as int;
                let ghost tt = t as int;
                content.push('\n');
                let mut c2: usize = 0;
                while c2 < width
                    invariant
                        c2 <= width,
                        content@ == base + pad_suffix(ww, tt) + seq!['\n'] + space_seq(c2 as int),
                    decreases width - c2,
                {
                    proof {
                        assert((base + pad_suffix(ww, tt) + seq!['\n'] + space_seq(c2 as int)).push(
                            ' ',
                        ) =~= base + pad_suffix(ww, tt) + seq!['\n'] + space_seq(c2 as int + 1));
                    }
                    content.push(' ');
                    c2 = c2 + 1;
                }
                proof {
                    assert(tt * (ww + 1) >= 0) by (nonlinear_arith)
                        requires
                            tt >= 0,
                            ww >= 0,
                    ;
                    assert((tt + 1) * (ww + 1) == tt * (ww + 1) + (ww + 1)) by (nonlinear_arith);
                    assert forall|p: int| 0 <= p < (tt + 1) * (ww + 1) implies (pad_suffix(ww, tt)
                        + seq!['\n'] + space_seq(ww))[p] == pad_suffix(ww, tt + 1)[p] by {
                        if p < tt * (ww + 1) {
                        } else if p == tt * (ww + 1) {
                            lemma_fundamental_div_mod_converse(p, ww + 1, tt, 0);
                        } else {
                            let cpos = p - tt * (ww + 1);
                            lemma_fundamental_div_mod_converse(p, ww + 1, tt, cpos);
                        }
                    }
                    assert(pad_suffix(ww, tt) + seq!['\n'] + space_seq(ww) =~= pad_suffix(
                        ww,
                        tt + 1,
                    ));
                    assert(base + pad_suffix(ww, tt) + seq!['\n'] + space_seq(ww) =~= base + (
                    pad_suffix(ww, tt) + seq!['\n'] + space_seq(ww)));
                }
                t = t + 1;
            }
            formatted.push(WrappedCell { width, height: max_height, content });
            i = i + 1;
        }
        proof {
            if forall|i: int| 0 <= i < row@.len() ==> (#[trigger] row@[i]).wf() {
                assert forall|i: int| 0 <= i < formatted@.len() implies (#[trigger] formatted@[i]).wf() by {
                    assert(row@[i].wf());
                    lemma_seq_max_ge(heights_of(row@), i);
                    assert(heights_of(row@)[i] == row@[i].height as int);
                    lemma_is_grid_pad(
                        row@[i].width as int,
                        row@[i].height as int,
                        row_height(row@),
                        row@[i].content@,
                    );
                }
            }
        }
        formatted
    }
}

} // verus!
