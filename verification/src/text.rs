//! Decimal text for the tree's diagnostic rendering: digit sequences for
//! integers, written without any formatting machinery so that the produced
//! characters are pinned down exactly.

use vstd::prelude::*;
use vstd::seq_lib::lemma_concat_associative;
use vstd::string::StrSliceExecFns;
use vstd::string::StringExecFns;

use crate::tree::SegmentTree;

verus! {

/// The decimal digit character for `d` in `0 ..= 9`.
pub open spec fn digit_char(d: int) -> char {
    if d == 0 {
        '0'
    } else if d == 1 {
        '1'
    } else if d == 2 {
        '2'
    } else if d == 3 {
        '3'
    } else if d == 4 {
        '4'
    } else if d == 5 {
        '5'
    } else if d == 6 {
        '6'
    } else if d == 7 {
        '7'
    } else if d == 8 {
        '8'
    } else {
        '9'
    }
}

/// The decimal digits of `m`, most significant first.
pub open spec fn dec_digits(m: nat) -> Seq<char>
    decreases m,
{
    if m < 10 {
        seq![digit_char(m as int)]
    } else {
        dec_digits(m / 10).push(digit_char((m % 10) as int))
    }
}

/// The decimal rendering of `v`: a minus sign followed by the digits of its
/// magnitude for negative `v`, the digits alone otherwise.
pub open spec fn dec_str(v: int) -> Seq<char> {
    if v < 0 {
        seq!['-'] + dec_digits((-v) as nat)
    } else {
        dec_digits(v as nat)
    }
}

/// `k` space characters.
pub open spec fn spaces(k: nat) -> Seq<char>
    decreases k,
{
    if k == 0 {
        Seq::empty()
    } else {
        spaces((k - 1) as nat).push(' ')
    }
}

/// `t` left-aligned in a field of width `w`: `t` followed by as many spaces
/// as needed to reach length `w` (none when `t` is already that long).
pub open spec fn pad_right(t: Seq<char>, w: nat) -> Seq<char> {
    if t.len() < w {
        t + spaces((w - t.len()) as nat)
    } else {
        t
    }
}

/// The string slice holding the single decimal digit `d`.
fn digit_str(d: u32) -> (s: &'static str)
    requires
        d < 10,
    ensures
        s@ == seq![digit_char(d as int)],
{
    proof {
        reveal_strlit("0");
        reveal_strlit("1");
        reveal_strlit("2");
        reveal_strlit("3");
        reveal_strlit("4");
        reveal_strlit("5");
        reveal_strlit("6");
        reveal_strlit("7");
        reveal_strlit("8");
        reveal_strlit("9");
    }
    if d == 0 {
        "0"
    } else if d == 1 {
        "1"
    } else if d == 2 {
        "2"
    } else if d == 3 {
        "3"
    } else if d == 4 {
        "4"
    } else if d == 5 {
        "5"
    } else if d == 6 {
        "6"
    } else if d == 7 {
        "7"
    } else if d == 8 {
        "8"
    } else {
        "9"
    }
}

/// The decimal digits of `m` as a string, most significant first.
fn dec_u32(m: u32) -> (s: String)
    ensures
        s@ == dec_digits(m as nat),
    decreases m,
{
    if m < 10 {
        let mut s = String::new();
        s.append(digit_str(m));
        s
    } else {
        let mut s = dec_u32(m / 10);
        s.append(digit_str(m % 10));
        s
    }
}

/// The decimal rendering of `v`.
pub fn i32_to_string(v: i32) -> (s: String)
    ensures
        s@ == dec_str(v as int),
{
    if v < 0 {
        let m: u32 = (-(v as i64)) as u32;
        assert(m as int == -(v as int));
        let mut s = String::new();
        proof {
            reveal_strlit("-");
        }
        s.append("-");
        let digits = dec_u32(m);
        s.append(digits.as_str());
        assert(s@ == dec_str(v as int));
        s
    } else {
        dec_u32(v as u32)
    }
}

/// One rendered cell: left padding, the value left-aligned in a field of
/// width two, right padding.
pub open spec fn cell_text(v: int, left: nat, right: nat) -> Seq<char> {
    spaces(left) + pad_right(dec_str(v), 2) + spaces(right)
}

/// The cells `i ..= last` of one rendered tree level.
pub open spec fn row_text(b: Seq<int>, i: int, last: int, left: nat, right: nat) -> Seq<char>
    decreases last - i + 1,
{
    if i > last {
        Seq::empty()
    } else {
        cell_text(b[i], left, right) + row_text(b, i + 1, last, left, right)
    }
}

/// The per-cell slack of a level of `count` cells in a tree of capacity
/// `n`: what is left of the cell's share of the full row width after the
/// two value columns, split around the value to center the level.
pub open spec fn level_slack(n: nat, count: nat) -> int {
    5 * (n as int) / (count as int) - 2
}

/// The rendered levels from the one whose leftmost cell is `first` down to
/// the leaf level, each level on its own newline-terminated line.
pub open spec fn levels_text(b: Seq<int>, n: nat, first: int) -> Seq<char>
    decreases 2 * n - first,
{
    if first < 1 || 2 * first - 1 >= 2 * n {
        Seq::empty()
    } else {
        let slack = level_slack(n, first as nat);
        let left = (slack / 2) as nat;
        let right = (slack - slack / 2) as nat;
        row_text(b, first, 2 * first - 1, left, right) + seq!['\n'] + levels_text(b, n, 2 * first)
    }
}

/// The whole diagnostic rendering of a tree buffer: one line per level,
/// from the root down to the leaf row.
pub open spec fn render_text(b: Seq<int>, n: nat) -> Seq<char> {
    levels_text(b, n, 1)
}

/// Appends `k` spaces to `out`.
fn append_spaces(out: &mut String, k: usize)
    ensures
        final(out)@ == old(out)@ + spaces(k as nat),
{
    proof {
        reveal_strlit(" ");
        assert(old(out)@ + spaces(0) =~= old(out)@);
    }
    let mut i: usize = 0;
    while i < k
        invariant
            i <= k,
            out@ == old(out)@ + spaces(i as nat),
        decreases k - i,
    {
        out.append(" ");
        i = i + 1;
        proof {
            reveal_strlit(" ");
            assert(out@ =~= old(out)@ + spaces(i as nat));
        }
    }
}

/// Appends `v` to `out`, left-aligned in a field of width two.
fn append_cell_value(out: &mut String, v: i32)
    ensures
        final(out)@ == old(out)@ + pad_right(dec_str(v as int), 2),
{
    let t = i32_to_string(v);
    let tlen = t.as_str().unicode_len();
    out.append(t.as_str());
    if tlen < 2 {
        append_spaces(out, 2 - tlen);
        assert(out@ =~= old(out)@ + pad_right(dec_str(v as int), 2));
    } else {
        assert(out@ =~= old(out)@ + pad_right(dec_str(v as int), 2));
    }
}

/// Appending one rendered cell to `oc` extends a partial row by one cell:
/// the row over `[i, last]` is the cell at `i` followed by the row over
/// `[i + 1, last]`.
proof fn lemma_row_unfold_step(b: Seq<int>, i: int, last: int, left: nat, right: nat, oc: Seq<char>)
    requires
        i <= last,
    ensures
        oc + spaces(left) + pad_right(dec_str(b[i]), 2) + spaces(right) + row_text(
            b,
            i + 1,
            last,
            left,
            right,
        ) == oc + row_text(b, i, last, left, right),
{
    let sl = spaces(left);
    let pd = pad_right(dec_str(b[i]), 2);
    let sr = spaces(right);
    let tail = row_text(b, i + 1, last, left, right);
    lemma_concat_associative(oc, sl, pd);
    lemma_concat_associative(oc, sl + pd, sr);
    assert(oc + sl + pd + sr == oc + cell_text(b[i], left, right));
    lemma_concat_associative(oc, cell_text(b[i], left, right), tail);
    assert(cell_text(b[i], left, right) + tail == row_text(b, i, last, left, right));
}

/// The buffer values from cell `i` on, each followed by one space.
pub open spec fn values_line(b: Seq<int>, i: int) -> Seq<char>
    decreases b.len() - i,
{
    if i < 0 || i >= b.len() {
        Seq::empty()
    } else {
        dec_str(b[i]) + seq![' '] + values_line(b, i + 1)
    }
}

/// A level whose leftmost cell is below the buffer's end has at least three
/// columns of slack per cell: its cell count divides the leaf row's width.
proof fn lemma_level_slack_bound(n: nat, count: nat)
    requires
        1 <= count <= n,
    ensures
        level_slack(n, count) >= 3,
{
    vstd::arithmetic::div_mod::lemma_div_is_ordered_by_denominator(
        5 * n as int,
        count as int,
        n as int,
    );
    vstd::arithmetic::div_mod::lemma_div_by_multiple(5, n as int);
}

/// One unfolding of `levels_text`: the level at `first`, a newline, then
/// the levels below it.
proof fn lemma_levels_unfold(b: Seq<int>, n: nat, first: int, left: nat, right: nat)
    requires
        1 <= first,
        2 * first - 1 < 2 * n,
        left as int == level_slack(n, first as nat) / 2,
        right as int == level_slack(n, first as nat) - level_slack(n, first as nat) / 2,
    ensures
        levels_text(b, n, first) == row_text(b, first, 2 * first - 1, left, right) + seq!['\n']
            + levels_text(b, n, 2 * first),
{
}

/// Prepending `oc` to an unfolded level keeps the concatenation grouped the
/// way the rendering loop builds it.
proof fn lemma_level_regroup(oc: Seq<char>, row: Seq<char>, rest: Seq<char>)
    ensures
        oc + row + seq!['\n'] + rest == oc + (row + seq!['\n'] + rest),
{
    lemma_concat_associative(oc, row, seq!['\n']);
    lemma_concat_associative(oc, row + seq!['\n'], rest);
}

impl SegmentTree {
    /// Renders the buffer as text: one line per tree level, each cell's
    /// value left-aligned in two columns inside its share of the row, so
    /// narrower levels sit centered over the leaf row. Purely diagnostic;
    /// the tree is not changed.
    #[verifier::rlimit(100)]
    pub fn render(&self) -> (out: String)
        requires
            self.wf(),
            5 * self.capacity() <= usize::MAX,
        ensures
            out@ == render_text(self.buffer(), self.capacity()),
    {
        let ghost b = self.buffer();
        let ghost cap = self.capacity();
        let n = self.capacity_value();
        let total = self.cell_count();
        let mut out = String::new();
        let mut first: usize = 1;
        let mut last: usize = 1;
        proof {
            assert(out@ + levels_text(b, cap, 1) =~= levels_text(b, cap, 1));
        }
        while last < total
            invariant
                b == self.buffer(),
                b.len() == 2 * cap,
                5 * cap <= usize::MAX,
                n as nat == cap,
                total as nat == 2 * cap,
                cap >= 1,
                1 <= first,
                last == 2 * first - 1,
                out@ + levels_text(b, cap, first as int) == render_text(b, cap),
            decreases 2 * cap - first,
        {
            let count = last - first + 1;
            proof {
                assert(count == first);
                assert(first <= n);
                lemma_level_slack_bound(cap, first as nat);
            }
            let slack = (n * 5) / count - 2;
            let left = slack / 2;
            let right = slack - left;
            let ghost row = row_text(b, first as int, last as int, left as nat, right as nat);
            let ghost rest = levels_text(b, cap, 2 * first as int);
            let mut i = first;
            proof {
                assert(slack as int == level_slack(cap, first as nat));
                lemma_levels_unfold(b, cap, first as int, left as nat, right as nat);
                lemma_level_regroup(out@, row, rest);
                assert(out@ + row + seq!['\n'] + rest == render_text(b, cap));
            }
            while i <= last
                invariant
                    b == self.buffer(),
                    b.len() == 2 * cap,
                    2 * cap <= usize::MAX,
                    first <= i,
                    i <= last + 1,
                    last < 2 * cap,
                    out@ + row_text(b, i as int, last as int, left as nat, right as nat)
                        + seq!['\n'] + rest == render_text(b, cap),
                decreases last + 1 - i,
            {
                let ghost out_cell = out@;
                append_spaces(&mut out, left);
                let v = self.cell(i);
                append_cell_value(&mut out, v);
                append_spaces(&mut out, right);
                proof {
                    lemma_row_unfold_step(
                        b,
                        i as int,
                        last as int,
                        left as nat,
                        right as nat,
                        out_cell,
                    );
                }
                i = i + 1;
            }
            proof {
                reveal_strlit("\n");
                assert(row_text(b, i as int, last as int, left as nat, right as nat)
                    =~= Seq::<char>::empty());
                assert(out@ + row_text(b, i as int, last as int, left as nat, right as nat)
                    =~= out@);
                assert(out@ + seq!['\n'] + rest == render_text(b, cap));
            }
            out.append("\n");
            proof {
                assert("\n"@ =~= seq!['\n']);
                assert(out@ + rest == render_text(b, cap));
            }
            first = first * 2;
            last = last * 2 + 1;
        }
        proof {
            assert(levels_text(b, cap, first as int) =~= Seq::<char>::empty());
            assert(out@ + levels_text(b, cap, first as int) =~= out@);
            assert(out@ == render_text(b, cap));
        }
        out
    }

    /// The whole buffer on one line: every cell's value followed by one
    /// space, in cell order, the unused cell 0 included. The computing half
    /// of a diagnostic dump; the caller decides where the text goes.
    pub fn buffer_line(&self) -> (out: String)
        ensures
            out@ == values_line(self.buffer(), 0),
    {
        let ghost b = self.buffer();
        let total = self.cell_count();
        let mut out = String::new();
        let mut i: usize = 0;
        proof {
            assert(out@ + values_line(b, 0) =~= values_line(b, 0));
        }
        while i < total
            invariant
                b == self.buffer(),
                total as nat == b.len(),
                i <= total,
                out@ + values_line(b, i as int) == values_line(b, 0),
            decreases total - i,
        {
            let ghost oc = out@;
            let v = self.cell(i);
            let t = i32_to_string(v);
            out.append(t.as_str());
            proof {
                reveal_strlit(" ");
            }
            out.append(" ");
            proof {
                reveal_strlit(" ");
                assert(" "@ =~= seq![' ']);
                lemma_concat_associative(oc, dec_str(b[i as int]), seq![' ']);
                assert(out@ == oc + (dec_str(b[i as int]) + seq![' ']));
                lemma_concat_associative(
                    oc,
                    dec_str(b[i as int]) + seq![' '],
                    values_line(b, i + 1),
                );
                assert(dec_str(b[i as int]) + seq![' '] + values_line(b, i + 1) == values_line(
                    b,
                    i as int,
                ));
            }
            i = i + 1;
        }
        proof {
            assert(values_line(b, total as int) =~= Seq::<char>::empty());
            assert(out@ + values_line(b, total as int) =~= out@);
        }
        out
    }
}

} // verus!
