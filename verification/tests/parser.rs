use table_beave_rs::parse_ascii_table;

#[test]
fn converts_basic_ascii_table() {
    let input = r#"
+------+-------+
| Name | Value |
+------+-------+
| A    | 1     |
| B    | 2     |
+------+-------+
"#;

    let parsed = parse_ascii_table(input, true);

    assert_eq!(
        parsed.markdown,
        "| Name | Value |\n| --- | --- |\n| A | 1 |\n| B | 2 |"
    );
    assert_eq!(parsed.row_count, 2);
    assert_eq!(parsed.column_count, 2);
}

#[test]
fn joins_multiline_cells_with_breaks() {
    let input = r#"
+------+---------+
| Name | Notes   |
+------+---------+
| A    | one     |
|      | two     |
+------+---------+
"#;

    let parsed = parse_ascii_table(input, true);

    assert_eq!(
        parsed.markdown,
        "| Name | Notes |\n| --- | --- |\n| A | one<br>two |"
    );
}

#[test]
fn can_generate_header_when_missing() {
    let input = r#"
+---+---+
| A | 1 |
+---+---+
"#;

    let parsed = parse_ascii_table(input, false);

    assert_eq!(
        parsed.markdown,
        "| Column 1 | Column 2 |\n| --- | --- |\n| A | 1 |"
    );
}

#[test]
fn escapes_pipe_characters_inside_cells() {
    let input = r#"
+------+--------+
| Name | Regex  |
+------+--------+
| A    | x | y  |
+------+--------+
"#;

    let parsed = parse_ascii_table(input, true);

    assert_eq!(
        parsed.markdown,
        "| Name | Regex |  |\n| --- | --- | --- |\n| A | x | y |"
    );
}

#[test]
fn converts_unicode_box_drawing_table() {
    let input = r#"
  ┌──────────────┬─────────────────────┐
  │ 행성         │ 분류                │
  ├──────────────┼─────────────────────┤
  │ ① 수성       │ 암석형              │
  ├──────────────┼─────────────────────┤
  │ ② 금성       │ 암석형              │
  ├──────────────┼─────────────────────┤
  │ ③ 지구       │ 암석형 · 생명체     │
  ├──────────────┼─────────────────────┤
  │ ④ 화성       │ 암석형              │
  ├──────────────┼─────────────────────┤
  │ ⑤ 목성       │ 가스형              │
  ├──────────────┼─────────────────────┤
  │ ⑥ 토성       │ 가스형 (고리)       │
  ├──────────────┼─────────────────────┤
  │ ⑦ 천왕성     │ 얼음형              │
  └──────────────┴─────────────────────┘
"#;

    let parsed = parse_ascii_table(input, true);

    assert_eq!(
        parsed.markdown,
        "| 행성 | 분류 |\n| --- | --- |\n| ① 수성 | 암석형 |\n| ② 금성 | 암석형 |\n| ③ 지구 | 암석형 · 생명체 |\n| ④ 화성 | 암석형 |\n| ⑤ 목성 | 가스형 |\n| ⑥ 토성 | 가스형 (고리) |\n| ⑦ 천왕성 | 얼음형 |"
    );
    assert_eq!(parsed.row_count, 7);
    assert_eq!(parsed.column_count, 2);
}
