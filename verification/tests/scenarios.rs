use table_beave_rs::chars::{is_box_drawing_char, is_whitespace};
use table_beave_rs::{markdown_to_html, parse_ascii_table};

#[test]
fn whitespace_class_matches_std() {
    for code in 0u32..=0x10ffff {
        if let Some(c) = char::from_u32(code) {
            assert_eq!(is_whitespace(c), c.is_whitespace(), "U+{:04X}", code);
        }
    }
}

#[test]
fn box_drawing_block_bounds() {
    assert!(!is_box_drawing_char('\u{24ff}'));
    assert!(is_box_drawing_char('\u{2500}'));
    assert!(is_box_drawing_char('\u{257f}'));
    assert!(!is_box_drawing_char('\u{2580}'));
}

#[test]
fn empty_input_warns_no_rows() {
    let parsed = parse_ascii_table("", true);
    assert_eq!(parsed.markdown, "");
    assert_eq!(parsed.row_count, 0);
    assert_eq!(parsed.column_count, 0);
    assert_eq!(parsed.warnings, vec!["No ASCII table rows were found.".to_string()]);
}

#[test]
fn prose_only_is_kept_and_warns_no_rows() {
    let parsed = parse_ascii_table("# Title\n\nJust some text.\n", false);
    assert_eq!(parsed.markdown, "# Title\n\nJust some text.");
    assert_eq!(parsed.warnings, vec!["No ASCII table rows were found.".to_string()]);
}

#[test]
fn borders_only_warns_blank_table() {
    let input = "+---+---+\n|   |   |\n+---+---+\n";
    let parsed = parse_ascii_table(input, true);
    assert_eq!(parsed.markdown, "");
    assert_eq!(parsed.row_count, 0);
    assert_eq!(parsed.column_count, 0);
    assert_eq!(
        parsed.warnings,
        vec!["The table only contained borders or empty cells.".to_string()]
    );
}

#[test]
fn single_row_with_header_warns_header_only() {
    let input = "+---+---+\n| A | 1 |\n+---+---+\n";
    let parsed = parse_ascii_table(input, true);
    assert_eq!(parsed.markdown, "| A | 1 |\n| --- | --- |");
    assert_eq!(parsed.row_count, 0);
    assert_eq!(parsed.column_count, 2);
    assert_eq!(parsed.warnings, vec!["Only a header row was found.".to_string()]);
}

#[test]
fn without_separators_each_line_is_a_row() {
    let input = "| a | b |\n|   | d |\n| e | f |";
    let parsed = parse_ascii_table(input, true);
    assert_eq!(parsed.markdown, "| a | b |\n| --- | --- |\n|  | d |\n| e | f |");
    assert_eq!(parsed.row_count, 2);
    assert!(parsed.warnings.is_empty());
}

#[test]
fn ragged_rows_are_padded() {
    let input = "+---+\n| a |\n+---+---+\n| b | c |\n+---+---+";
    let parsed = parse_ascii_table(input, true);
    assert_eq!(parsed.markdown, "| a |  |\n| --- | --- |\n| b | c |");
    assert_eq!(parsed.column_count, 2);
    assert_eq!(parsed.row_count, 1);
}

#[test]
fn unicode_pipe_delimiter_escapes_ascii_pipes() {
    let input = "┌───┬───┐\n│ a | b │ c │\n└───┴───┘";
    let parsed = parse_ascii_table(input, false);
    assert_eq!(parsed.markdown, "| Column 1 | Column 2 |\n| --- | --- |\n| a \\| b | c |");
}

#[test]
fn heavy_and_double_bars_delimit_cells() {
    let heavy = "┏━━━┳━━━┓\n┃ x ┃ y ┃\n┣━━━╋━━━┫\n┃ 1 ┃ 2 ┃\n┗━━━┻━━━┛";
    let parsed = parse_ascii_table(heavy, true);
    assert_eq!(parsed.markdown, "| x | y |\n| --- | --- |\n| 1 | 2 |");

    let double = "╔═══╦═══╗\n║ x ║ y ║\n╠═══╬═══╣\n║ 1 ║ 2 ║\n╚═══╩═══╝";
    let parsed = parse_ascii_table(double, true);
    assert_eq!(parsed.markdown, "| x | y |\n| --- | --- |\n| 1 | 2 |");
}

#[test]
fn equals_rule_with_corners_separates_rows() {
    let input = "+===+===+\n| h | i |\n+===+===+\n| 1 | 2 |\n| 3 | 4 |\n+===+===+";
    let parsed = parse_ascii_table(input, true);
    assert_eq!(parsed.markdown, "| h | i |\n| --- | --- |\n| 1 | 2 |\n| 3 | 4 |");
}

#[test]
fn dash_line_without_corner_is_not_a_separator() {
    // Without a corner the dash line is not a table line: it is kept as text
    // and splits the content lines into two tables.
    let input = "| a | b |\n---------\n|   | c |";
    let parsed = parse_ascii_table(input, true);
    assert_eq!(
        parsed.markdown,
        "| a | b |\n| --- | --- |\n---------\n|  | c |\n| --- | --- |"
    );
    assert_eq!(parsed.row_count, 0);
    assert_eq!(
        parsed.warnings,
        vec!["Only a header row was found.".to_string(), "Only a header row was found.".to_string()]
    );
}

#[test]
fn crlf_line_endings() {
    let input = "+---+---+\r\n| A | B |\r\n+---+---+\r\n| 1 | 2 |\r\n+---+---+\r\n";
    let parsed = parse_ascii_table(input, true);
    assert_eq!(parsed.markdown, "| A | B |\n| --- | --- |\n| 1 | 2 |");
}

#[test]
fn repeated_outer_delimiters_are_stripped() {
    let input = "|| a | b ||";
    let parsed = parse_ascii_table(input, false);
    assert_eq!(parsed.markdown, "| Column 1 | Column 2 |\n| --- | --- |\n| a | b |");
}

#[test]
fn non_breaking_spaces_are_trimmed() {
    let input = "|\u{a0}a\u{a0}|\u{3000}b\t|";
    let parsed = parse_ascii_table(input, false);
    assert_eq!(parsed.markdown, "| Column 1 | Column 2 |\n| --- | --- |\n| a | b |");
}

#[test]
fn generated_header_counts_past_nine() {
    let input = "| 1 | 2 | 3 | 4 | 5 | 6 | 7 | 8 | 9 | 10 | 11 |";
    let parsed = parse_ascii_table(input, false);
    let header = (1..=11).map(|i| format!("Column {i}")).collect::<Vec<_>>().join(" | ");
    let dashes = vec!["---"; 11].join(" | ");
    assert_eq!(
        parsed.markdown,
        format!("| {header} |\n| {dashes} |\n| 1 | 2 | 3 | 4 | 5 | 6 | 7 | 8 | 9 | 10 | 11 |")
    );
    assert_eq!(parsed.column_count, 11);
}

#[test]
fn multiline_cells_skip_blank_fragments() {
    let input = "+---+-----+\n| a | one |\n|   |     |\n| b | two |\n+---+-----+";
    // `| b | two |` has a non-blank first cell, so it opens a row of its own.
    let parsed = parse_ascii_table(input, false);
    assert_eq!(
        parsed.markdown,
        "| Column 1 | Column 2 |\n| --- | --- |\n| a | one |\n| b | two |"
    );
    let input = "+---+-----+\n| a | one |\n|   |     |\n|   | two |\n+---+-----+";
    let parsed = parse_ascii_table(input, false);
    assert_eq!(parsed.markdown, "| Column 1 | Column 2 |\n| --- | --- |\n| a | one<br>two |");
}

#[test]
fn lines_outside_the_table_are_kept() {
    let input = "Some intro\n+---+\n| x |\n+---+\n| y |\n+---+\nthe end | not a row";
    let parsed = parse_ascii_table(input, true);
    assert_eq!(parsed.markdown, "Some intro\n| x |\n| --- |\n| y |\nthe end | not a row");
}

#[test]
fn single_delimiter_is_not_a_content_line() {
    let parsed = parse_ascii_table("|", true);
    assert_eq!(parsed.markdown, "|");
    assert_eq!(parsed.warnings, vec!["No ASCII table rows were found.".to_string()]);
}

#[test]
fn keeps_headings_and_prose_between_tables() {
    let input = "# T1\n+---+\n| a |\n+---+\n| b |\n+---+\nprose\n+---+\n| c |\n+---+\n| d |\n+---+";
    let parsed = parse_ascii_table(input, true);
    assert_eq!(parsed.markdown, "# T1\n| a |\n| --- |\n| b |\nprose\n| c |\n| --- |\n| d |");
    assert_eq!(parsed.row_count, 2);
    assert_eq!(parsed.column_count, 1);
    assert!(parsed.warnings.is_empty());
}

#[test]
fn converts_the_sample_document_table_by_table() {
    let input = "# Unicode box table\n\n┌────────────┬───────────────┐\n│ Animal     │ Role          │\n├────────────┼───────────────┤\n│ Box beaver │ Parser mascot │\n│ Data otter │ Sidekick      │\n└────────────┴───────────────┘\n\n# ASCII table\n\n+------------+---------------+\n| Animal     | Role          |\n+------------+---------------+\n| Box beaver | Parser mascot |\n| Data otter | Sidekick      |\n+------------+---------------+";
    let parsed = parse_ascii_table(input, true);
    let table = "| Animal | Role |\n| --- | --- |\n| Box beaver | Parser mascot |\n| Data otter | Sidekick |";
    assert_eq!(
        parsed.markdown,
        format!("# Unicode box table\n\n{table}\n\n# ASCII table\n\n{table}")
    );
    assert_eq!(parsed.row_count, 4);
    assert_eq!(parsed.column_count, 2);
    assert!(parsed.warnings.is_empty());
}

#[test]
fn blank_lines_are_tidied() {
    let input = "\n  \n# A\n\n\n\t\ntext\n\n+---+\n| x |\n+---+\n\n\n";
    let parsed = parse_ascii_table(input, false);
    assert_eq!(parsed.markdown, "# A\n\ntext\n\n| Column 1 |\n| --- |\n| x |");
}

#[test]
fn widest_table_gives_the_column_count() {
    let input = "| a |\n\n| b | c | d |";
    let parsed = parse_ascii_table(input, false);
    assert_eq!(
        parsed.markdown,
        "| Column 1 |\n| --- |\n| a |\n\n| Column 1 | Column 2 | Column 3 |\n| --- | --- | --- |\n| b | c | d |"
    );
    assert_eq!(parsed.column_count, 3);
    assert_eq!(parsed.row_count, 2);
}

#[test]
fn copy_text_only_for_a_table() {
    let parsed = parse_ascii_table("| a |", true);
    assert_eq!(parsed.copy_text(), Some("| a |\n| --- |".to_string()));
    let parsed = parse_ascii_table("", true);
    assert_eq!(parsed.copy_text(), None);
}

#[test]
fn preview_renders_a_table() {
    let parsed = parse_ascii_table("+---+---+\n| a | b |\n+---+---+\n| 1 | 2 |\n+---+---+", true);
    let html = markdown_to_html(&parsed.markdown);
    assert!(html.contains("<table>"));
    assert!(html.contains("<th>a</th>"));
    assert!(html.contains("<td>2</td>"));
    assert_eq!(markdown_to_html(""), "");
}

#[test]
fn rule_only_document_gives_nothing() {
    let parsed = parse_ascii_table("+-", true);
    assert_eq!(parsed.markdown, "");
    assert_eq!(parsed.column_count, 0);
    assert_eq!(parsed.warnings, vec!["No ASCII table rows were found.".to_string()]);
}

#[test]
fn empty_table_between_prose_contributes_nothing() {
    let parsed = parse_ascii_table("a\n\n+---+\n|   |\n+---+\n\nb", true);
    assert_eq!(parsed.markdown, "a\n\nb");
    assert_eq!(
        parsed.warnings,
        vec!["The table only contained borders or empty cells.".to_string()]
    );
}
