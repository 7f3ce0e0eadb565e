//! Tables of cells, and wrapping a long table into side-by-side blocks.

use crate::width::{cell_width, display_width};
use vstd::prelude::*;

verus! {

/// The text of every cell of `t`, row by row.
pub open spec fn table_view(t: Seq<Vec<String>>) -> Seq<Seq<Seq<char>>> {
    t.map_values(|r: Vec<String>| row_view(r@))
}

/// The text of every cell of one row.
pub open spec fn row_view(r: Seq<String>) -> Seq<Seq<char>> {
    r.map_values(|s: String| s@)
}

/// Every row of `t` has as many cells as the first one.
pub open spec fn is_rectangular(t: Seq<Seq<Seq<char>>>) -> bool {
    forall|r: int| 0 <= r < t.len() ==> #[trigger] t[r].len() == t[0].len()
}

/// `s` written `n` times, one copy after another.
pub open spec fn repeat_seq<A>(s: Seq<A>, n: nat) -> Seq<A>
    decreases n,
{
    if n == 0 {
        Seq::empty()
    } else {
        repeat_seq(s, (n - 1) as nat) + s
    }
}

/// The number of blocks of `threshold` rows that `data_len` rows fill:
/// the least count whose blocks hold them all.
pub open spec fn is_block_count(blocks: nat, data_len: nat, threshold: nat) -> bool {
    &&& blocks * threshold >= data_len
    &&& (blocks == 0 || (blocks - 1) * threshold < data_len)
}

/// The ceiling of `data_len / threshold`.
pub open spec fn block_count(data_len: nat, threshold: nat) -> nat {
    if data_len % threshold == 0 {
        data_len / threshold
    } else {
        data_len / threshold + 1
    }
}

/// One count alone meets `is_block_count`: it is the ceiling of
/// `data_len / threshold`.
pub proof fn lemma_block_count_unique(b: nat, data_len: nat, threshold: nat)
    requires
        threshold >= 1,
        is_block_count(b, data_len, threshold),
    ensures
        b == block_count(data_len, threshold),
{
    let q = data_len / threshold;
    let m = data_len % threshold;
    assert(data_len == q * threshold + m && m < threshold) by (nonlinear_arith)
        requires q == data_len / threshold, m == data_len % threshold, threshold >= 1;
    if b < block_count(data_len, threshold) {
        assert(b * threshold <= q * threshold) by (nonlinear_arith)
            requires b <= q, threshold >= 1;
        if m == 0 {
            assert(b * threshold < q * threshold) by (nonlinear_arith)
                requires b < q, threshold >= 1;
        }
    } else if b > block_count(data_len, threshold) {
        let c = block_count(data_len, threshold);
        assert(c * threshold >= data_len) by (nonlinear_arith)
            requires
                data_len == q * threshold + m,
                m < threshold,
                c == if m == 0 { q } else { q + 1 };
        assert((b - 1) * threshold >= c * threshold) by (nonlinear_arith)
            requires b - 1 >= c, threshold >= 1;
    }
}

/// The whole wrapped table of `t`: the header once per block, then
/// `threshold` data rows.
pub open spec fn wrapped_table(t: Seq<Seq<Seq<char>>>, threshold: nat) -> Seq<Seq<Seq<char>>> {
    let blocks = block_count((t.len() - 1) as nat, threshold);
    seq![repeat_seq(t[0], blocks)] + Seq::new(threshold, |l: int| wrapped_row(t, threshold, l as nat, blocks))
}

/// What block `i` contributes to data row `l` of the wrapped table: the
/// data row `threshold * i + l` of `t` (the header is row 0 of `t`), or a
/// row of empty cells where `t` has no such data row.
pub open spec fn block_slot(t: Seq<Seq<Seq<char>>>, threshold: nat, l: nat, i: nat) -> Seq<Seq<char>> {
    let k = (threshold * i + l) as int;
    if k + 1 < t.len() {
        t[k + 1]
    } else {
        Seq::new(t[0].len(), |c: int| Seq::<char>::empty())
    }
}

/// Data row `l` of the wrapped table, made of its first `blocks` blocks.
pub open spec fn wrapped_row(t: Seq<Seq<Seq<char>>>, threshold: nat, l: nat, blocks: nat) -> Seq<Seq<char>>
    decreases blocks,
{
    if blocks == 0 {
        Seq::empty()
    } else {
        wrapped_row(t, threshold, l, (blocks - 1) as nat) + block_slot(t, threshold, l, (blocks - 1) as nat)
    }
}

pub proof fn lemma_repeat_seq_len<A>(s: Seq<A>, n: nat)
    ensures
        repeat_seq(s, n).len() == n * s.len(),
    decreases n,
{
    if n > 0 {
        let m = (n - 1) as nat;
        lemma_repeat_seq_len(s, m);
        assert(repeat_seq(s, n) == repeat_seq(s, m) + s);
        assert(n * s.len() == m * s.len() + s.len()) by (nonlinear_arith)
            requires m == n - 1;
    } else {
        assert(n * s.len() == 0) by (nonlinear_arith)
            requires n == 0;
    }
}

proof fn lemma_wrapped_row_len(t: Seq<Seq<Seq<char>>>, threshold: nat, l: nat, blocks: nat)
    requires
        t.len() > 0,
        is_rectangular(t),
    ensures
        wrapped_row(t, threshold, l, blocks).len() == blocks * t[0].len(),
    decreases blocks,
{
    if blocks > 0 {
        let m = (blocks - 1) as nat;
        lemma_wrapped_row_len(t, threshold, l, m);
        let k = (threshold * m + l) as int;
        if k + 1 < t.len() {
            assert(t[k + 1].len() == t[0].len());
        }
        assert(block_slot(t, threshold, l, m).len() == t[0].len());
        assert(wrapped_row(t, threshold, l, blocks) == wrapped_row(t, threshold, l, m) + block_slot(t, threshold, l, m));
        assert(blocks * t[0].len() == m * t[0].len() + t[0].len()) by (nonlinear_arith)
            requires m == blocks - 1;
    } else {
        assert(blocks * t[0].len() == 0) by (nonlinear_arith)
            requires blocks == 0;
    }
}

/// Wraps the data rows of `cells` into blocks of `line_to_wrap` rows set side
/// by side. Returns the number of blocks and the wrapped table: its header is
/// the header once per block, and its data row `l` holds, block after block,
/// data row `line_to_wrap * i + l`, or empty cells past the last data row.
pub fn transform(cells: &Vec<Vec<String>>, line_to_wrap: usize) -> (r: (usize, Vec<Vec<String>>))
    requires
        cells.len() >= 1,
        line_to_wrap >= 1,
        is_rectangular(table_view(cells@)),
    ensures
        is_block_count(r.0 as nat, (cells.len() - 1) as nat, line_to_wrap as nat),
        r.0 == block_count((cells.len() - 1) as nat, line_to_wrap as nat),
        table_view(r.1@) == wrapped_table(table_view(cells@), line_to_wrap as nat),
        r.1.len() == line_to_wrap + 1,
        row_view(r.1[0]@) == repeat_seq(row_view(cells[0]@), r.0 as nat),
        forall|l: int|
            0 <= l < line_to_wrap ==> row_view(#[trigger] r.1[l + 1]@) == wrapped_row(
                table_view(cells@),
                line_to_wrap as nat,
                l as nat,
                r.0 as nat,
            ),
        forall|k: int| 0 <= k < r.1.len() ==> #[trigger] r.1[k].len() == cells[0].len() * r.0,
{
    let ghost t = table_view(cells@);
    let head = &cells[0];
    let orig_len = cells.len();
    let data_len = orig_len - 1;
    let cols = head.len();

    let blocks: usize = if data_len % line_to_wrap == 0 {
        data_len / line_to_wrap
    } else {
        data_len / line_to_wrap + 1
    };
    proof {
        let q = data_len / line_to_wrap;
        let m = data_len % line_to_wrap;
        assert(data_len == q * line_to_wrap + m) by (nonlinear_arith)
            requires q == data_len / line_to_wrap, m == data_len % line_to_wrap, line_to_wrap >= 1;
        assert((q + 1) * line_to_wrap == q * line_to_wrap + line_to_wrap) by (nonlinear_arith);
        assert(q > 0 ==> (q - 1) * line_to_wrap == q * line_to_wrap - line_to_wrap) by (nonlinear_arith);
        assert(m < line_to_wrap);
        assert(is_block_count(blocks as nat, data_len as nat, line_to_wrap as nat));
    }

    let mut result: Vec<Vec<String>> = Vec::new();
    let mut header: Vec<String> = Vec::new();
    let mut i: usize = 0;
    while i < blocks
        invariant
            t == table_view(cells@),
            cells.len() >= 1,
            head == cells[0],
            cols == head.len(),
            i <= blocks,
            row_view(header@) == repeat_seq(row_view(head@), i as nat),
        decreases blocks - i,
    {
        let mut c: usize = 0;
        while c < cols
            invariant
                t == table_view(cells@),
                cells.len() >= 1,
                head == cells[0],
                cols == head.len(),
                i < blocks,
                c <= cols,
                row_view(header@) == repeat_seq(row_view(head@), i as nat) + row_view(head@).subrange(0, c as int),
            decreases cols - c,
        {
            let cell = head[c].clone();
            proof {
                assert(row_view(head@).subrange(0, c + 1) =~= row_view(head@).subrange(0, c as int).push(cell@));
                assert(row_view(header@.push(cell)) =~= row_view(header@).push(cell@));
            }
            header.push(cell);
            c = c + 1;
        }
        proof {
            assert(row_view(head@).subrange(0, cols as int) =~= row_view(head@));
        }
        i = i + 1;
    }
    result.push(header);

    let mut l: usize = 0;
    while l < line_to_wrap
        invariant
            t == table_view(cells@),
            t.len() == orig_len,
            is_rectangular(t),
            orig_len >= 1,
            data_len == orig_len - 1,
            cols == t[0].len(),
            is_block_count(blocks as nat, data_len as nat, line_to_wrap as nat),
            l <= line_to_wrap,
            result.len() == l + 1,
            row_view(result[0]@) == repeat_seq(row_view(cells[0]@), blocks as nat),
            forall|k: int|
                0 <= k < l ==> row_view(#[trigger] result[k + 1]@) == wrapped_row(
                    t,
                    line_to_wrap as nat,
                    k as nat,
                    blocks as nat,
                ),
        decreases line_to_wrap - l,
    {
        let mut to_push: Vec<String> = Vec::new();
        let mut i: usize = 0;
        while i < blocks
            invariant
                t == table_view(cells@),
                t.len() == orig_len,
                is_rectangular(t),
                orig_len >= 1,
                data_len == orig_len - 1,
                cols == t[0].len(),
                is_block_count(blocks as nat, data_len as nat, line_to_wrap as nat),
                l < line_to_wrap,
                i <= blocks,
                row_view(to_push@) == wrapped_row(t, line_to_wrap as nat, l as nat, i as nat),
            decreases blocks - i,
        {
            let ghost slot = block_slot(t, line_to_wrap as nat, l as nat, i as nat);
            proof {
                assert((i as nat) * (line_to_wrap as nat) < data_len) by (nonlinear_arith)
                    requires
                        i < blocks,
                        blocks == 0 || (blocks - 1) * line_to_wrap < data_len,
                        line_to_wrap >= 1;
                assert(line_to_wrap * i == i * line_to_wrap) by (nonlinear_arith);
            }
            let base = line_to_wrap * i;
            let in_range = l < data_len - base;
            proof {
                if in_range {
                    assert(t[base + l + 1].len() == cols);
                }
                assert(slot.len() == cols);
            }
            let mut c: usize = 0;
            while c < cols
                invariant
                    t == table_view(cells@),
                    t.len() == orig_len,
                    cols == t[0].len(),
                    data_len == orig_len - 1,
                    base + l < data_len + line_to_wrap,
                    base < data_len,
                    in_range == (base + l < data_len),
                    slot == block_slot(t, line_to_wrap as nat, l as nat, i as nat),
                    base == line_to_wrap * i,
                    slot.len() == cols,
                    c <= cols,
                    row_view(to_push@) == wrapped_row(t, line_to_wrap as nat, l as nat, i as nat)
                        + slot.subrange(0, c as int),
                decreases cols - c,
            {
                let cell = if in_range {
                    let orig = base + l + 1;
                    proof {
                        assert(t[orig as int] == row_view(cells[orig as int]@));
                        assert(t[orig as int].len() == cols);
                    }
                    cells[orig][c].clone()
                } else {
                    String::new()
                };
                proof {
                    assert(slot.subrange(0, c + 1) =~= slot.subrange(0, c as int).push(cell@));
                    assert(row_view(to_push@.push(cell)) =~= row_view(to_push@).push(cell@));
                }
                to_push.push(cell);
                c = c + 1;
            }
            proof {
                assert(slot.subrange(0, cols as int) =~= slot);
            }
            i = i + 1;
        }
        proof {
            assert(row_view(result@.push(to_push)[l + 1]@) == row_view(to_push@));
        }
        result.push(to_push);
        l = l + 1;
    }
    proof {
        lemma_repeat_seq_len(row_view(cells[0]@), blocks as nat);
        assert forall|k: int| 0 <= k < result.len() implies #[trigger] result[k].len() == cells[0].len() * blocks by {
            assert(row_view(result[k]@).len() == result[k].len());
            if k > 0 {
                lemma_wrapped_row_len(t, line_to_wrap as nat, (k - 1) as nat, blocks as nat);
                assert(result[(k - 1) + 1] == result[k]);
            }
            assert(blocks * cols == cols * blocks) by (nonlinear_arith);
        }
        lemma_block_count_unique(blocks as nat, data_len as nat, line_to_wrap as nat);
        let w = wrapped_table(t, line_to_wrap as nat);
        assert(t[0] == row_view(cells[0]@));
        assert forall|k: int| 0 <= k < result.len() implies #[trigger] table_view(result@)[k] == w[k] by {
            if k > 0 {
                assert(result[(k - 1) + 1] == result[k]);
            }
        }
        assert(table_view(result@) =~= w);
    }
    (blocks, result)
}

/// The widest display width in column `c` among the first `k` rows of `t`
/// (zero when `k` is zero).
pub open spec fn column_width(t: Seq<Seq<Seq<char>>>, c: int, k: nat) -> nat
    decreases k,
{
    if k == 0 {
        0
    } else {
        let prev = column_width(t, c, (k - 1) as nat);
        let w = display_width(t[k - 1][c]);
        if prev >= w {
            prev
        } else {
            w
        }
    }
}

/// The display width of each column of `cells`: the widest cell of that
/// column, over the header and every data row.
pub fn maxcols(cells: &Vec<Vec<String>>) -> (r: Vec<usize>)
    requires
        cells.len() >= 1,
        is_rectangular(table_view(cells@)),
    ensures
        r.len() == cells[0].len(),
        forall|c: int|
            0 <= c < r.len() ==> #[trigger] r[c] as nat == column_width(
                table_view(cells@),
                c,
                cells.len() as nat,
            ),
{
    let ghost t = table_view(cells@);
    let cols = cells[0].len();
    let mut res: Vec<usize> = Vec::new();
    while res.len() < cols
        invariant
            res.len() <= cols,
            forall|c: int| 0 <= c < res.len() ==> #[trigger] res[c] == 0,
        decreases cols - res.len(),
    {
        res.push(0);
    }
    let mut k: usize = 0;
    while k < cells.len()
        invariant
            t == table_view(cells@),
            is_rectangular(t),
            cells.len() >= 1,
            cols == cells[0].len(),
            res.len() == cols,
            k <= cells.len(),
            forall|c: int| 0 <= c < cols ==> #[trigger] res[c] as nat == column_width(t, c, k as nat),
        decreases cells.len() - k,
    {
        let row = &cells[k];
        proof {
            assert(t[k as int] == row_view(row@));
            assert(t[k as int].len() == t[0].len());
        }
        let mut i: usize = 0;
        while i < row.len()
            invariant
                t == table_view(cells@),
                row == cells[k as int],
                t[k as int] == row_view(row@),
                row.len() == cols,
                res.len() == cols,
                k < cells.len(),
                i <= row.len(),
                forall|c: int| 0 <= c < i ==> #[trigger] res[c] as nat == column_width(t, c, (k + 1) as nat),
                forall|c: int| i <= c < cols ==> #[trigger] res[c] as nat == column_width(t, c, k as nat),
            decreases row.len() - i,
        {
            let w = cell_width(&row[i]);
            let prev = res[i];
            let m = if prev >= w { prev } else { w };
            proof {
                assert(row_view(row@)[i as int] == row[i as int]@);
            }
            res.set(i, m);
            i = i + 1;
        }
        k = k + 1;
    }
    res
}

/// Each cell's display width is at most its column's width, and the column's
/// width is the display width of one of its cells, or zero when the table
/// has no rows.
pub proof fn lemma_column_width_is_max(t: Seq<Seq<Seq<char>>>, c: int, k: nat)
    requires
        k <= t.len(),
        is_rectangular(t),
        0 <= c < t[0].len(),
    ensures
        forall|r: int| 0 <= r < k ==> display_width(#[trigger] t[r][c]) <= column_width(t, c, k),
        k == 0 ==> column_width(t, c, k) == 0,
        k > 0 ==> exists|r: int| 0 <= r < k && display_width(#[trigger] t[r][c]) == column_width(t, c, k),
    decreases k,
{
    if k > 0 {
        lemma_column_width_is_max(t, c, (k - 1) as nat);
        if k > 1 {
            let r0 = choose|r: int| 0 <= r < k - 1 && display_width(#[trigger] t[r][c]) == column_width(t, c, (k - 1) as nat);
            if column_width(t, c, (k - 1) as nat) >= display_width(t[k - 1][c]) {
                assert(display_width(t[r0][c]) == column_width(t, c, k));
            } else {
                assert(display_width(t[k - 1][c]) == column_width(t, c, k));
            }
        } else {
            assert(display_width(t[0][c]) == column_width(t, c, k));
        }
    }
}

/// Some cell of column `c` of `t` has display width `w`.
pub open spec fn is_width_of_some_cell(t: Seq<Seq<Seq<char>>>, c: int, w: nat) -> bool {
    exists|r: int| 0 <= r < t.len() && display_width(#[trigger] t[r][c]) == w
}

/// The widths that `maxcols` gives bound every cell of their column, and each
/// is met by a cell of the header or of a data row.
pub proof fn lemma_maxcols_bounds_every_cell(cells: Seq<Vec<String>>, widths: Seq<usize>)
    requires
        cells.len() >= 1,
        is_rectangular(table_view(cells)),
        widths.len() == cells[0].len(),
        forall|c: int|
            0 <= c < widths.len() ==> #[trigger] widths[c] as nat == column_width(
                table_view(cells),
                c,
                cells.len() as nat,
            ),
    ensures
        forall|r: int, c: int|
            0 <= r < cells.len() && 0 <= c < widths.len() ==> display_width(#[trigger] cells[r][c]@)
                <= widths[c],
        forall|c: int|
            0 <= c < widths.len() ==> is_width_of_some_cell(table_view(cells), c, #[trigger] widths[c] as nat),
{
    let t = table_view(cells);
    assert forall|r: int, c: int|
        0 <= r < cells.len() && 0 <= c < widths.len() implies display_width(#[trigger] cells[r][c]@)
        <= widths[c] by {
        lemma_column_width_is_max(t, c, cells.len() as nat);
        assert(t[r] == row_view(cells[r]@));
        assert(t[r].len() == t[0].len() && t[0] == row_view(cells[0]@));
        assert(t[r][c] == cells[r][c]@);
    }
    assert forall|c: int|
        0 <= c < widths.len() implies is_width_of_some_cell(t, c, #[trigger] widths[c] as nat) by {
        assert(t[0] == row_view(cells[0]@));
        assert(widths[c] as nat == column_width(t, c, cells.len() as nat));
        lemma_column_width_is_max(t, c, cells.len() as nat);
    }
}

/// The column widths written once per block: `maxwidth` repeated `blocks`
/// times.
pub fn transform_maxcols(maxwidth: Vec<usize>, blocks: usize) -> (r: Vec<usize>)
    ensures
        r@ == repeat_seq(maxwidth@, blocks as nat),
{
    let mut res: Vec<usize> = Vec::new();
    let mut i: usize = 0;
    while i < blocks
        invariant
            i <= blocks,
            res@ == repeat_seq(maxwidth@, i as nat),
        decreases blocks - i,
    {
        let mut c: usize = 0;
        while c < maxwidth.len()
            invariant
                i < blocks,
                c <= maxwidth.len(),
                res@ == repeat_seq(maxwidth@, i as nat) + maxwidth@.subrange(0, c as int),
            decreases maxwidth.len() - c,
        {
            proof {
                assert(maxwidth@.subrange(0, c + 1) =~= maxwidth@.subrange(0, c as int).push(maxwidth[c as int]));
            }
            res.push(maxwidth[c]);
            c = c + 1;
        }
        proof {
            assert(maxwidth@.subrange(0, maxwidth.len() as int) =~= maxwidth@);
        }
        i = i + 1;
    }
    res
}

/// Every width of a tiling is one of the widths tiled, so a bound on all of
/// them holds of the tiling too.
pub proof fn lemma_repeat_seq_bounded(s: Seq<usize>, n: nat, bound: usize)
    requires
        forall|i: int| 0 <= i < s.len() ==> #[trigger] s[i] < bound,
    ensures
        forall|j: int| 0 <= j < repeat_seq(s, n).len() ==> #[trigger] repeat_seq(s, n)[j] < bound,
    decreases n,
{
    if n > 0 {
        lemma_repeat_seq_bounded(s, (n - 1) as nat, bound);
        let prev = repeat_seq(s, (n - 1) as nat);
        assert forall|j: int| 0 <= j < repeat_seq(s, n).len() implies #[trigger] repeat_seq(s, n)[j] < bound by {
            if j >= prev.len() {
                assert(repeat_seq(s, n)[j] == s[j - prev.len()]);
            } else {
                assert(repeat_seq(s, n)[j] == prev[j]);
            }
        }
    }
}

/// Tiling widths for a single block leaves them as they are.
pub proof fn lemma_tile_once(widths: Seq<usize>)
    ensures
        repeat_seq(widths, 1) == widths,
{
    assert(repeat_seq(widths, 0) + widths =~= widths);
}

} // verus!
