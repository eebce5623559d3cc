use table_beave_rs::cells::escape_markdown_cell;
use table_beave_rs::{parse_ascii_table, parse_table_block};

const TABLES: [&str; 5] = [
    "+---+---+\n| A | B |\n+---+---+\n| 1 | 2 |\n| 3 | 4 |\n+---+---+",
    "┌───┬───┐\n│ a | b │ c │\n├───┼───┤\n│ d │   │\n│   │ e │\n└───┴───┘",
    "| x |\n| y | z |",
    "+---+\n| solo |\n+---+",
    "",
];

#[test]
fn markdown_has_one_line_per_row() {
    for input in TABLES {
        for header in [true, false] {
            let parsed = parse_ascii_table(input, header);
            if parsed.column_count > 0 {
                assert_eq!(parsed.markdown.matches('\n').count(), parsed.row_count + 1);
                for line in parsed.markdown.lines() {
                    assert_eq!(line.matches(" | ").count() + 1, parsed.column_count);
                }
            } else {
                assert!(parsed.markdown.is_empty());
                assert_eq!(parsed.warnings.len(), 1);
            }
        }
    }
}

#[test]
fn header_choice_keeps_columns_and_adds_a_row() {
    for input in TABLES {
        let with_header = parse_ascii_table(input, true);
        let generated = parse_ascii_table(input, false);
        assert_eq!(with_header.column_count, generated.column_count);
        if generated.column_count > 0 {
            assert_eq!(generated.row_count, with_header.row_count + 1);
            assert!(generated.warnings.is_empty());
        }
    }
}

#[test]
fn escaped_cells_hold_no_bare_pipe() {
    let parsed = parse_ascii_table("│ a | b ||c │ d │", false);
    let body = parsed.markdown.lines().nth(2).unwrap();
    let inner = &body[2..body.len() - 2];
    let cells: Vec<&str> = inner.split(" | ").collect();
    assert_eq!(cells, vec!["a \\| b \\|\\|c", "d"]);
}

#[test]
fn warning_exactly_when_markdown_empty_or_body_empty() {
    for input in TABLES {
        for header in [true, false] {
            let parsed = parse_ascii_table(input, header);
            let expect_warning = parsed.markdown.is_empty() || parsed.row_count == 0;
            assert_eq!(!parsed.warnings.is_empty(), expect_warning);
        }
    }
}

#[test]
fn escaping_round_trips() {
    for cell in ["", "a", "|", "a | b", "||x|", "\\|", "表|"] {
        let chars: Vec<char> = cell.chars().collect();
        let escaped: String = escape_markdown_cell(&chars).into_iter().collect();
        assert_eq!(escaped.replace("\\|", "|"), cell);
        assert_eq!(escaped.chars().count(), cell.chars().count() + cell.matches('|').count());
        assert_eq!(escaped.matches('|').count(), cell.matches('|').count());
    }
}

#[test]
fn header_choice_moves_first_row_into_body() {
    for input in TABLES {
        let a = parse_ascii_table(input, true);
        let b = parse_ascii_table(input, false);
        if a.column_count == 0 {
            assert_eq!(a, b);
            continue;
        }
        let la: Vec<&str> = a.markdown.split('\n').collect();
        let lb: Vec<&str> = b.markdown.split('\n').collect();
        let header = (1..=a.column_count).map(|i| format!("Column {i}")).collect::<Vec<_>>().join(" | ");
        assert_eq!(lb[0], format!("| {header} |"));
        assert_eq!(lb[1], la[1]);
        assert_eq!(lb[2..].to_vec(), [&la[..1], &la[2..]].concat());
    }
}

#[test]
fn lone_table_document_converts_as_the_table() {
    let table = "+---+---+\n| A | B |\n+---+---+\n| 1 | 2 |\n+---+---+";
    let block: Vec<Vec<char>> = table.lines().map(|l| l.chars().collect()).collect();
    for header in [true, false] {
        let document = parse_ascii_table(&format!("\n  \n{table}\n\n"), header);
        assert_eq!(document, parse_table_block(&block, header));
    }
}
