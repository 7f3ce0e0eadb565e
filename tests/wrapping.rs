use tablewrap::line::split_line;
use tablewrap::render::{concat_cells_in_row, draw, draw_cell, draw_row, hline};
use tablewrap::table::{maxcols, transform, transform_maxcols};
use tablewrap::tabulate::{check_rectangular, wrap_and_draw, TableError};

fn table(rows: &[&[&str]]) -> Vec<Vec<String>> {
    rows.iter()
        .map(|r| r.iter().map(|c| c.to_string()).collect())
        .collect()
}

fn numbered(data_len: usize) -> Vec<Vec<String>> {
    let mut t = vec![vec!["h1".to_string(), "h2".to_string()]];
    for i in 0..data_len {
        t.push(vec![format!("a{}", i), format!("b{}", i)]);
    }
    t
}

#[test]
fn block_count_is_ceiling() {
    let cases = [(5, 2, 3), (4, 2, 2), (0, 3, 0), (1, 1, 1), (7, 3, 3), (3, 10, 1)];
    for (data_len, threshold, expected) in cases {
        let (blocks, _) = transform(&numbered(data_len), threshold);
        assert_eq!(blocks, expected, "data_len={} threshold={}", data_len, threshold);
    }
}

#[test]
fn wrapped_rows_are_rectangular() {
    let (blocks, wrapped) = transform(&numbered(5), 2);
    assert_eq!(blocks, 3);
    assert_eq!(wrapped.len(), 3);
    for row in &wrapped {
        assert_eq!(row.len(), 2 * 3);
    }
}

#[test]
fn last_block_is_padded_with_empty_cells() {
    let (blocks, wrapped) = transform(&numbered(5), 2);
    assert_eq!(blocks, 3);
    // local row 1, block 2: data row 5 does not exist
    assert_eq!(wrapped[2][4], "");
    assert_eq!(wrapped[2][5], "");
    // local row 0, block 2 is data row 4
    assert_eq!(wrapped[1][4], "a4");
    assert_eq!(wrapped[1][5], "b4");
    assert_eq!(wrapped[1], vec!["a0", "b0", "a2", "b2", "a4", "b4"]);
    assert_eq!(wrapped[2], vec!["a1", "b1", "a3", "b3", "", ""]);
}

#[test]
fn header_is_repeated_once_per_block() {
    let (blocks, wrapped) = transform(&numbered(5), 2);
    assert_eq!(blocks, 3);
    assert_eq!(wrapped[0], vec!["h1", "h2", "h1", "h2", "h1", "h2"]);
}

#[test]
fn header_only_table_has_no_block() {
    let (blocks, wrapped) = transform(&table(&[&["x", "y"]]), 3);
    assert_eq!(blocks, 0);
    assert_eq!(wrapped.len(), 4);
    for row in &wrapped {
        assert!(row.is_empty());
    }
}

#[test]
fn column_width_is_the_widest_cell() {
    let t = table(&[&["a", "bb"], &["1", "22"], &["333", "4"]]);
    assert_eq!(maxcols(&t), vec![3, 2]);
}

#[test]
fn column_width_counts_wide_characters_twice() {
    let t = table(&[&["漢字", "x"], &["abc", "ー"]]);
    assert_eq!(maxcols(&t), vec![4, 2]);
}

#[test]
fn column_width_of_empty_cells_is_zero() {
    let t = table(&[&["", ""], &["", "z"]]);
    assert_eq!(maxcols(&t), vec![0, 1]);
}

#[test]
fn tiling_once_keeps_widths() {
    assert_eq!(transform_maxcols(vec![3, 1, 4], 1), vec![3, 1, 4]);
}

#[test]
fn tiling_repeats_widths() {
    assert_eq!(transform_maxcols(vec![3, 2], 3), vec![3, 2, 3, 2, 3, 2]);
    assert_eq!(transform_maxcols(vec![3, 2], 0), Vec::<usize>::new());
}

#[test]
fn cell_is_right_aligned() {
    assert_eq!(draw_cell("1".to_string(), 3), "   1 ");
    assert_eq!(draw_cell("abcd".to_string(), 2), " abcd ");
    assert_eq!(draw_cell(String::new(), 0), "  ");
    assert_eq!(draw_cell("漢".to_string(), 3), "   漢 ");
}

#[test]
fn cells_are_framed_by_pipes() {
    assert_eq!(concat_cells_in_row(vec![" a ".to_string(), " b ".to_string()]), "| a | b |");
    assert_eq!(concat_cells_in_row(vec![]), "||");
}

#[test]
fn row_is_padded_to_widths() {
    let row = vec!["1".to_string(), "22".to_string()];
    assert_eq!(draw_row(row, &vec![3, 2]), "|   1 | 22 |");
}

#[test]
fn separator_line_segments() {
    assert_eq!(hline(&vec![3, 2], 1, '-'), "|----:|---:|");
    assert_eq!(hline(&vec![0], 1, '='), "|=:|");
    assert_eq!(hline(&vec![1], 2, '-'), "|----:|");
    assert_eq!(hline(&vec![], 1, '-'), "||");
}

#[test]
fn separator_follows_header_only() {
    let t = table(&[&["h"], &["1"], &["2"]]);
    assert_eq!(draw(t, &vec![1]), "| h |\n|--:|\n| 1 |\n| 2 |");
}

#[test]
fn empty_table_draws_nothing() {
    assert_eq!(draw(vec![], &vec![2]), "");
}

#[test]
fn end_to_end_example() {
    let t = table(&[&["a", "bb"], &["1", "22"], &["333", "4"]]);
    let (blocks, wrapped) = transform(&t, 1);
    assert_eq!(blocks, 2);
    assert_eq!(wrapped, vec![vec!["a", "bb", "a", "bb"], vec!["1", "22", "333", "4"]]);
    let widths = transform_maxcols(maxcols(&t), blocks);
    assert_eq!(widths, vec![3, 2, 3, 2]);
    let expected = "|   a | bb |   a | bb |\n|----:|---:|----:|---:|\n|   1 | 22 | 333 |  4 |";
    assert_eq!(draw(wrapped, &widths), expected);
    assert_eq!(wrap_and_draw(&t, 1), Ok(Some(expected.to_string())));
}

#[test]
fn zero_row_table_renders_nothing() {
    assert_eq!(wrap_and_draw(&vec![], 2), Ok(None));
}

#[test]
fn header_only_table_renders_header() {
    let t = table(&[&["a", "bb"]]);
    assert_eq!(wrap_and_draw(&t, 2), Ok(Some("| a | bb |\n|--:|---:|".to_string())));
}

#[test]
fn wrapping_pads_the_last_block() {
    let t = table(&[&["k", "v"], &["1", "x"], &["2", "y"], &["3", "z"]]);
    let expected = "| k | v | k | v |\n|--:|--:|--:|--:|\n| 1 | x | 3 | z |\n| 2 | y |   |   |";
    assert_eq!(wrap_and_draw(&t, 2), Ok(Some(expected.to_string())));
}

#[test]
fn ragged_table_is_rejected() {
    let t = table(&[&["a", "b"], &["1"]]);
    assert!(!check_rectangular(&t));
    assert_eq!(wrap_and_draw(&t, 1), Err(TableError::Ragged));
}

#[test]
fn rectangular_tables_are_accepted() {
    assert!(check_rectangular(&table(&[&["a", "b"], &["1", "2"]])));
    assert!(check_rectangular(&vec![]));
}

#[test]
fn zero_threshold_is_rejected() {
    let t = table(&[&["a"], &["1"]]);
    assert_eq!(wrap_and_draw(&t, 0), Err(TableError::ZeroThreshold));
}

#[test]
fn line_is_split_on_commas() {
    assert_eq!(split_line("a,bb,c"), vec!["a", "bb", "c"]);
    assert_eq!(split_line(""), vec![""]);
    assert_eq!(split_line(",x,"), vec!["", "x", ""]);
    assert_eq!(split_line("漢,字"), vec!["漢", "字"]);
}
