//! Converts Unicode and ASCII box tables into Markdown pipe tables.
//!
//! The input is read line by line: separator lines (`+---+`, `├───┤`, ...)
//! split the content lines (`| a | b |`, `│ a │ b │`, ...) into logical rows,
//! the fragments of a cell that spans several lines are joined with `<br>`,
//! and the rows are rendered as a GitHub-style pipe table.
//!
//! Modules, from the characters up:
//! - `chars`: the character classes the parser tests;
//! - `text`: trimming, splitting, joining and lines of character sequences;
//! - `classify`: separator lines, content lines and their delimiters;
//! - `groups`: grouping content lines into logical rows;
//! - `cells`: one row of cells from a group of lines, and cell escaping;
//! - `render`: the Markdown text of a table;
//! - `parser`: the conversion of one table and its result;
//! - `document`: the conversion of a whole document, table by table;
//! - `preview`: the HTML preview of a Markdown table;
//! - `laws`, `layout`: what holds of every conversion.

pub mod cells;
pub mod chars;
pub mod classify;
pub mod document;
pub mod groups;
pub mod laws;
pub mod layout;
pub mod parser;
pub mod preview;
pub mod render;
pub mod text;

pub use document::parse_ascii_table;
pub use parser::{parse_table_block, ParsedTable};
pub use preview::markdown_to_html;
