# table-beave-rs

Converts the Unicode and ASCII box tables (`+---+`, `┌───┐`, ...) of a
document into Markdown pipe tables, table by table, keeping headings and prose
as they are and tidying blank lines. The conversion is a verified library in
`src/`: every function states what it computes over character sequences, and
`laws.rs`, `layout.rs` and `document.rs` prove what holds of every conversion
(prose kept in order, tidying drops only blank lines, one output line per table
row, every row as wide as its table, pipes in cells escaped, cells trimmed, no
content line lost or reordered by grouping). `app/` holds the Leptos web front
end that calls the library on every keystroke.
