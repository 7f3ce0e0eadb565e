//! Rendering a table as fixed-width, pipe-delimited text lines.

use crate::table::{row_view, table_view};
use vstd::prelude::*;

verus! {

/// `parts` written one after another with `sep` between each two.
pub open spec fn join(parts: Seq<Seq<char>>, sep: char) -> Seq<char>
    decreases parts.len(),
{
    if parts.len() == 0 {
        Seq::empty()
    } else if parts.len() == 1 {
        parts[0]
    } else {
        join(parts.drop_last(), sep).push(sep) + parts.last()
    }
}

/// `parts` joined by `|`, with a `|` before the first and after the last.
pub open spec fn framed(parts: Seq<Seq<char>>) -> Seq<char> {
    seq!['|'] + join(parts, '|') + seq!['|']
}

/// `n` copies of `c`.
pub open spec fn repeat_char(c: char, n: nat) -> Seq<char> {
    Seq::new(n, |i: int| c)
}

/// A cell right-aligned in a field of `w` characters, with one space on
/// each side. A cell longer than `w` characters is kept whole.
pub open spec fn padded_cell(cell: Seq<char>, w: nat) -> Seq<char> {
    let pad: nat = if w > cell.len() { (w - cell.len()) as nat } else { 0 };
    seq![' '] + repeat_char(' ', pad) + cell + seq![' ']
}

/// The line of one row: each cell padded to its column's width, framed by `|`.
pub open spec fn row_line(row: Seq<Seq<char>>, widths: Seq<usize>) -> Seq<char> {
    framed(Seq::new(row.len(), |i: int| padded_cell(row[i], widths[i] as nat)))
}

/// One segment of the separator line: `w + 2 * padding - 1` copies of
/// `delim`, then `:`.
pub open spec fn rule_segment(w: nat, padding: nat, delim: char) -> Seq<char> {
    repeat_char(delim, (w + 2 * padding - 1) as nat).push(':')
}

/// The separator line under the header: one segment per column, framed by `|`.
pub open spec fn rule_line(widths: Seq<usize>, padding: nat, delim: char) -> Seq<char> {
    framed(Seq::new(widths.len(), |i: int| rule_segment(widths[i] as nat, padding, delim)))
}

/// The lines of a rendered table: the header's line, the separator line,
/// then the line of each further row.
pub open spec fn table_lines(rows: Seq<Seq<Seq<char>>>, widths: Seq<usize>) -> Seq<Seq<char>> {
    if rows.len() == 0 {
        Seq::empty()
    } else {
        seq![row_line(rows[0], widths), rule_line(widths, 1, '-')] + Seq::new(
            (rows.len() - 1) as nat,
            |i: int| row_line(rows[i + 1], widths),
        )
    }
}

/// Relies on `String::push`: appends one character to the end of the string.
#[verifier::external_body]
pub(crate) fn push_char(s: &mut String, c: char)
    ensures
        final(s)@ == old(s)@.push(c),
{
    s.push(c);
}

proof fn lemma_join_step(parts: Seq<Seq<char>>, sep: char, i: int)
    requires
        0 <= i < parts.len(),
    ensures
        join(parts.take(i + 1), sep) == if i == 0 {
            parts[0]
        } else {
            join(parts.take(i), sep).push(sep) + parts[i]
        },
{
    assert(parts.take(i + 1).drop_last() =~= parts.take(i));
    assert(parts.take(i + 1).last() == parts[i]);
    if i == 0 {
        assert(parts.take(1)[0] == parts[0]);
    }
}

/// Appends `parts` to `out`, with `sep` between each two.
fn push_joined(out: &mut String, parts: &Vec<String>, sep: char)
    ensures
        final(out)@ == old(out)@ + join(row_view(parts@), sep),
{
    let ghost start = out@;
    let ghost p = row_view(parts@);
    let mut i: usize = 0;
    while i < parts.len()
        invariant
            p == row_view(parts@),
            i <= parts.len(),
            out@ == start + join(p.take(i as int), sep),
        decreases parts.len() - i,
    {
        proof {
            lemma_join_step(p, sep, i as int);
        }
        if i > 0 {
            push_char(out, sep);
        }
        out.append(parts[i].as_str());
        proof {
            assert(p[i as int] == parts[i as int]@);
            if i > 0 {
                assert(start + join(p.take(i + 1), sep) =~= start + join(p.take(i as int), sep).push(sep) + p[i as int]);
            } else {
                assert(join(p.take(0), sep) == Seq::<char>::empty());
                assert(start + join(p.take(1), sep) =~= start + Seq::<char>::empty() + p[0]);
            }
        }
        i = i + 1;
    }
    proof {
        assert(p.take(parts.len() as int) =~= p);
    }
}

/// A cell right-aligned in a field of `w` characters, with one space on
/// each side.
pub fn draw_cell(cell: String, w: usize) -> (r: String)
    ensures
        r@ == padded_cell(cell@, w as nat),
{
    let n = cell.as_str().unicode_len();
    let mut out = String::new();
    push_char(&mut out, ' ');
    if w > n {
        let mut k: usize = 0;
        while k < w - n
            invariant
                w > n,
                k <= w - n,
                out@ == seq![' '] + repeat_char(' ', k as nat),
            decreases w - n - k,
        {
            push_char(&mut out, ' ');
            proof {
                assert(seq![' '] + repeat_char(' ', (k + 1) as nat) =~= (seq![' '] + repeat_char(' ', k as nat)).push(' '));
            }
            k = k + 1;
        }
    } else {
        assert(seq![' '] + repeat_char(' ', 0) =~= seq![' ']);
    }
    out.append(cell.as_str());
    push_char(&mut out, ' ');
    proof {
        let pad: nat = if w > cell@.len() { (w - cell@.len()) as nat } else { 0 };
        assert(out@ =~= seq![' '] + repeat_char(' ', pad) + cell@ + seq![' ']);
    }
    out
}

/// The cells of a row joined by `|`, with a `|` at each end.
pub fn concat_cells_in_row(cells_in_row: Vec<String>) -> (r: String)
    ensures
        r@ == framed(row_view(cells_in_row@)),
{
    let mut out = String::new();
    push_char(&mut out, '|');
    push_joined(&mut out, &cells_in_row, '|');
    push_char(&mut out, '|');
    proof {
        assert(out@ =~= seq!['|'] + join(row_view(cells_in_row@), '|') + seq!['|']);
    }
    out
}

/// The line of one row: each cell right-aligned to its column's width,
/// framed and separated by `|`.
pub fn draw_row(row: Vec<String>, transformed_maxcol: &Vec<usize>) -> (r: String)
    requires
        row.len() == transformed_maxcol.len(),
    ensures
        r@ == row_line(row_view(row@), transformed_maxcol@),
{
    let ghost orig = row@;
    let n = row.len();
    let mut rest = row;
    let mut result: Vec<String> = Vec::new();
    let mut i: usize = 0;
    while i < n
        invariant
            n == orig.len(),
            n == transformed_maxcol.len(),
            i <= n,
            rest@ == orig.skip(i as int),
            row_view(result@) == Seq::new(
                i as nat,
                |j: int| padded_cell(orig[j]@, transformed_maxcol[j] as nat),
            ),
        decreases n - i,
    {
        let cell = rest.remove(0);
        proof {
            assert(cell == orig[i as int]);
            assert(orig.skip(i as int).remove(0) =~= orig.skip(i + 1));
        }
        let drawn = draw_cell(cell, transformed_maxcol[i]);
        proof {
            assert(row_view(result@.push(drawn)) =~= row_view(result@).push(drawn@));
            assert(row_view(result@.push(drawn)) =~= Seq::new(
                (i + 1) as nat,
                |j: int| padded_cell(orig[j]@, transformed_maxcol[j] as nat),
            ));
        }
        result.push(drawn);
        i = i + 1;
    }
    proof {
        assert(row_view(result@) =~= Seq::new(
            row_view(orig).len(),
            |j: int| padded_cell(row_view(orig)[j], transformed_maxcol@[j] as nat),
        ));
    }
    concat_cells_in_row(result)
}

/// The separator line: for each width `w`, `w + 2 * padding - 1` copies of
/// `delim` and a `:`, framed and separated by `|`.
pub fn hline(width: &Vec<usize>, padding: usize, delim: char) -> (r: String)
    requires
        forall|i: int|
            0 <= i < width.len() ==> 1 <= #[trigger] width[i] + 2 * padding <= usize::MAX + 1,
    ensures
        r@ == rule_line(width@, padding as nat, delim),
{
    let mut segments: Vec<String> = Vec::new();
    let mut i: usize = 0;
    while i < width.len()
        invariant
            forall|i: int|
                0 <= i < width.len() ==> 1 <= #[trigger] width[i] + 2 * padding <= usize::MAX + 1,
            i <= width.len(),
            row_view(segments@) == Seq::new(
                i as nat,
                |j: int| rule_segment(width[j] as nat, padding as nat, delim),
            ),
        decreases width.len() - i,
    {
        let w = width[i];
        assert(1 <= width[i as int] + 2 * padding <= usize::MAX + 1);
        let count = if padding == 0 {
            w - 1
        } else {
            w + (padding - 1) + padding
        };
        let mut seg = String::new();
        let mut k: usize = 0;
        while k < count
            invariant
                k <= count,
                seg@ == repeat_char(delim, k as nat),
            decreases count - k,
        {
            push_char(&mut seg, delim);
            proof {
                assert(repeat_char(delim, (k + 1) as nat) =~= repeat_char(delim, k as nat).push(delim));
            }
            k = k + 1;
        }
        push_char(&mut seg, ':');
        proof {
            assert(seg@ == rule_segment(w as nat, padding as nat, delim));
            assert(row_view(segments@.push(seg)) =~= row_view(segments@).push(seg@));
            assert(row_view(segments@.push(seg)) =~= Seq::new(
                (i + 1) as nat,
                |j: int| rule_segment(width[j] as nat, padding as nat, delim),
            ));
        }
        segments.push(seg);
        i = i + 1;
    }
    let mut out = String::new();
    push_char(&mut out, '|');
    push_joined(&mut out, &segments, '|');
    push_char(&mut out, '|');
    proof {
        assert(row_view(segments@) =~= Seq::new(
            width@.len(),
            |j: int| rule_segment(width@[j] as nat, padding as nat, delim),
        ));
        assert(out@ =~= framed(row_view(segments@)));
    }
    out
}

/// The rendered table: the line of the header, the separator line, then
/// the line of each further row, joined by newlines.
pub fn draw(table: Vec<Vec<String>>, transformed_maxcol: &Vec<usize>) -> (r: String)
    requires
        forall|k: int| 0 <= k < table.len() ==> #[trigger] table[k].len() == transformed_maxcol.len(),
        forall|i: int| 0 <= i < transformed_maxcol.len() ==> #[trigger] transformed_maxcol[i] < usize::MAX,
    ensures
        r@ == join(table_lines(table_view(table@), transformed_maxcol@), '\n'),
{
    let ghost rows = table_view(table@);
    let ghost orig = table@;
    let n = table.len();
    let mut rest = table;
    let mut result_row: Vec<String> = Vec::new();
    let mut k: usize = 0;
    while k < n
        invariant
            n == orig.len(),
            rows == table_view(orig),
            forall|k: int| 0 <= k < orig.len() ==> #[trigger] orig[k].len() == transformed_maxcol.len(),
            forall|i: int| 0 <= i < transformed_maxcol.len() ==> #[trigger] transformed_maxcol[i] < usize::MAX,
            k <= n,
            rest@ == orig.skip(k as int),
            row_view(result_row@) == table_lines(rows.take(k as int), transformed_maxcol@),
        decreases n - k,
    {
        let row = rest.remove(0);
        proof {
            assert(row == orig[k as int]);
            assert(orig.skip(k as int).remove(0) =~= orig.skip(k + 1));
            assert(rows[k as int] == row_view(row@));
        }
        let line = draw_row(row, transformed_maxcol);
        proof {
            assert(rows.take(k + 1).len() == k + 1);
            if k == 0 {
                assert(row_view(result_row@.push(line)) =~= seq![row_line(rows[0], transformed_maxcol@)]);
            } else {
                assert(table_lines(rows.take(k + 1), transformed_maxcol@) =~= table_lines(
                    rows.take(k as int),
                    transformed_maxcol@,
                ).push(row_line(rows[k as int], transformed_maxcol@)));
                assert(row_view(result_row@.push(line)) =~= row_view(result_row@).push(line@));
            }
        }
        result_row.push(line);
        if k == 0 {
            assert forall|i: int|
                0 <= i < transformed_maxcol.len() implies 1 <= #[trigger] transformed_maxcol[i] + 2 * 1usize
                <= usize::MAX + 1 by {
                assert(transformed_maxcol[i] < usize::MAX);
            }
            let sep = hline(transformed_maxcol, 1, '-');
            proof {
                assert(table_lines(rows.take(1), transformed_maxcol@) =~= seq![
                    row_line(rows[0], transformed_maxcol@),
                    rule_line(transformed_maxcol@, 1, '-'),
                ]);
                assert(row_view(result_row@.push(sep)) =~= row_view(result_row@).push(sep@));
            }
            result_row.push(sep);
        }
        k = k + 1;
    }
    proof {
        assert(rows.take(n as int) =~= rows);
    }
    let mut out = String::new();
    push_joined(&mut out, &result_row, '\n');
    proof {
        assert(out@ =~= join(row_view(result_row@), '\n'));
    }
    out
}

} // verus!
