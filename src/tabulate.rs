//! From a parsed table and a wrap threshold to the rendered text.

use crate::render::{draw, join, table_lines};
use crate::table::{
    block_count, column_width, is_rectangular, lemma_repeat_seq_bounded, lemma_repeat_seq_len,
    maxcols, repeat_seq, row_view, table_view, transform, transform_maxcols, wrapped_table,
};
use vstd::prelude::*;

verus! {

/// Why a table cannot be rendered.
#[derive(Clone, Copy, Debug, PartialEq, Eq, Structural)]
pub enum TableError {
    /// The threshold of rows per block is zero.
    ZeroThreshold,
    /// A row has another number of cells than the header.
    Ragged,
    /// A column is as wide as the largest `usize`, so its field cannot be sized.
    TooWide,
}

/// The width of each column of `t`: its widest cell.
pub open spec fn column_widths(t: Seq<Seq<Seq<char>>>) -> Seq<usize> {
    Seq::new(t[0].len(), |c: int| column_width(t, c, t.len()) as usize)
}

/// Some column of `t` is too wide for its field to be sized.
pub open spec fn has_oversized_column(t: Seq<Seq<Seq<char>>>) -> bool {
    exists|c: int| 0 <= c < t[0].len() && #[trigger] column_width(t, c, t.len()) >= usize::MAX
}

/// The text of `t` wrapped into blocks of `threshold` rows. With no data
/// rows there is no block, and the header is rendered alone.
pub open spec fn rendered(t: Seq<Seq<Seq<char>>>, threshold: nat) -> Seq<char> {
    let blocks = block_count((t.len() - 1) as nat, threshold);
    if blocks == 0 {
        join(table_lines(seq![t[0]], column_widths(t)), '\n')
    } else {
        join(table_lines(wrapped_table(t, threshold), repeat_seq(column_widths(t), blocks)), '\n')
    }
}

/// Whether every row of `cells` has as many cells as the first one.
pub fn check_rectangular(cells: &Vec<Vec<String>>) -> (r: bool)
    ensures
        r == is_rectangular(table_view(cells@)),
{
    let ghost t = table_view(cells@);
    if cells.len() == 0 {
        return true;
    }
    let cols = cells[0].len();
    let mut k: usize = 0;
    while k < cells.len()
        invariant
            t == table_view(cells@),
            cells.len() >= 1,
            cols == t[0].len(),
            k <= cells.len(),
            forall|r: int| 0 <= r < k ==> #[trigger] t[r].len() == cols,
        decreases cells.len() - k,
    {
        proof {
            assert(t[k as int] == row_view(cells[k as int]@));
        }
        if cells[k].len() != cols {
            return false;
        }
        k = k + 1;
    }
    true
}

fn copy_row(row: &Vec<String>) -> (r: Vec<String>)
    ensures
        row_view(r@) == row_view(row@),
{
    let mut out: Vec<String> = Vec::new();
    let mut c: usize = 0;
    while c < row.len()
        invariant
            c <= row.len(),
            row_view(out@) == row_view(row@).take(c as int),
        decreases row.len() - c,
    {
        let cell = row[c].clone();
        proof {
            assert(row_view(out@.push(cell)) =~= row_view(out@).push(cell@));
            assert(row_view(row@).take(c + 1) =~= row_view(row@).take(c as int).push(row[c as int]@));
        }
        out.push(cell);
        c = c + 1;
    }
    proof {
        assert(row_view(row@).take(row.len() as int) =~= row_view(row@));
    }
    out
}

/// Renders `cells` (header first) wrapped into blocks of `line_to_wrap`
/// rows. An empty table renders as nothing (`Ok(None)`).
pub fn wrap_and_draw(cells: &Vec<Vec<String>>, line_to_wrap: usize) -> (r: Result<Option<String>, TableError>)
    ensures
        line_to_wrap == 0 ==> r == Err::<Option<String>, TableError>(TableError::ZeroThreshold),
        line_to_wrap > 0 && cells.len() == 0 ==> r == Ok::<Option<String>, TableError>(None),
        line_to_wrap > 0 && cells.len() > 0 && !is_rectangular(table_view(cells@)) ==> r == Err::<
            Option<String>,
            TableError,
        >(TableError::Ragged),
        line_to_wrap > 0 && cells.len() > 0 && is_rectangular(table_view(cells@))
            && has_oversized_column(table_view(cells@)) ==> r == Err::<Option<String>, TableError>(
            TableError::TooWide,
        ),
        line_to_wrap > 0 && cells.len() > 0 && is_rectangular(table_view(cells@))
            && !has_oversized_column(table_view(cells@)) ==> (r matches Ok(Some(s)) && s@ == rendered(
            table_view(cells@),
            line_to_wrap as nat,
        )),
{
    let ghost t = table_view(cells@);
    if line_to_wrap == 0 {
        return Err(TableError::ZeroThreshold);
    }
    if cells.len() == 0 {
        return Ok(None);
    }
    if !check_rectangular(cells) {
        return Err(TableError::Ragged);
    }
    let widths = maxcols(cells);
    proof {
        assert(t[0] == row_view(cells[0]@));
    }
    let mut c: usize = 0;
    while c < widths.len()
        invariant
            line_to_wrap > 0,
            cells.len() > 0,
            t == table_view(cells@),
            is_rectangular(t),
            widths.len() == t[0].len(),
            t.len() == cells.len(),
            forall|i: int| 0 <= i < widths.len() ==> #[trigger] widths[i] as nat == column_width(t, i, cells.len() as nat),
            c <= widths.len(),
            forall|i: int| 0 <= i < c ==> #[trigger] widths[i] < usize::MAX,
        decreases widths.len() - c,
    {
        if widths[c] == usize::MAX {
            proof {
                assert(column_width(t, c as int, t.len()) >= usize::MAX);
            }
            return Err(TableError::TooWide);
        }
        c = c + 1;
    }
    proof {
        assert forall|i: int| 0 <= i < t[0].len() implies #[trigger] column_width(t, i, t.len()) < usize::MAX by {
            assert(widths[i] < usize::MAX);
        }
        assert(widths@ =~= column_widths(t));
    }
    let (blocks, table) = transform(cells, line_to_wrap);
    if blocks == 0 {
        let header = copy_row(&cells[0]);
        let mut single: Vec<Vec<String>> = Vec::new();
        single.push(header);
        proof {
            assert(table_view(single@) =~= seq![t[0]]);
        }
        let out = draw(single, &widths);
        Ok(Some(out))
    } else {
        let ghost w = widths@;
        let tiled = transform_maxcols(widths, blocks);
        proof {
            lemma_repeat_seq_len(w, blocks as nat);
            lemma_repeat_seq_bounded(w, blocks as nat, usize::MAX);
            assert(cells[0].len() * blocks == blocks * w.len()) by (nonlinear_arith)
                requires cells[0].len() == w.len();
        }
        let out = draw(table, &tiled);
        Ok(Some(out))
    }
}

} // verus!
