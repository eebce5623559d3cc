use vstd::prelude::*;

use crate::cells::{collapse_group, lemma_max_len_bound, max_len, max_width, spec_collapse_group};
use crate::groups::{
    collect_row_groups, lemma_nested_view2_push, nested_view2, spec_collect_row_groups, Groups, Lines,
};
use crate::render::{render_markdown_table, spec_render_table};
use crate::text::{
    chars_of, copy_chars, lemma_nested_view_push, nested_view, push_all, push_decimal, spec_decimal,
    spec_trim, string_from_chars, trim,
};

verus! {

/// The outcome of a conversion.
#[derive(Clone, Debug, PartialEq, Eq)]
pub struct ParsedTable {
    /// The Markdown pipe table; empty when no row was found.
    pub markdown: String,
    /// The number of body rows, the header row not counted.
    pub row_count: usize,
    /// The number of columns of every row.
    pub column_count: usize,
    /// Why the table is empty or has no body, if it is or has none.
    pub warnings: Vec<String>,
}

impl ParsedTable {
    /// The Markdown to put on the clipboard: `None` when there is nothing to
    /// copy, that is when the Markdown is empty.
    pub fn copy_text(&self) -> (res: Option<String>)
        ensures
            self.markdown@.len() == 0 ==> res is None,
            self.markdown@.len() > 0 ==> (res matches Some(text) && text@ == self.markdown@),
    {
        let chars = chars_of(self.markdown.as_str());
        if chars.len() == 0 {
            None
        } else {
            Some(self.markdown.clone())
        }
    }
}

/// The mathematical content of a `ParsedTable`.
pub struct TableModel {
    /// The characters of the Markdown table.
    pub markdown: Seq<char>,
    /// The number of body rows.
    pub row_count: nat,
    /// The number of columns.
    pub column_count: nat,
    /// The characters of each warning, in order.
    pub warnings: Seq<Seq<char>>,
}

impl View for ParsedTable {
    type V = TableModel;

    open spec fn view(&self) -> TableModel {
        TableModel {
            markdown: self.markdown@,
            row_count: self.row_count as nat,
            column_count: self.column_count as nat,
            warnings: self.warnings@.map_values(|w: String| w@),
        }
    }
}

/// Given when no content line is found.
pub open spec fn no_rows_warning() -> Seq<char> {
    "No ASCII table rows were found."@
}

/// Given when every row found is blank.
pub open spec fn blank_rows_warning() -> Seq<char> {
    "The table only contained borders or empty cells."@
}

/// Given when the only row found became the header.
pub open spec fn header_only_warning() -> Seq<char> {
    "Only a header row was found."@
}

/// Whether some cell of `row` holds more than white space.
pub open spec fn row_has_content(row: Lines) -> bool {
    exists|i: int| 0 <= i < row.len() && #[trigger] spec_trim(row[i]).len() > 0
}

/// The rows of `rows` that are not blank, in order.
pub open spec fn content_rows(rows: Groups) -> Groups
    decreases rows.len(),
{
    if rows.len() == 0 {
        Seq::empty()
    } else {
        let init = content_rows(rows.drop_last());
        if row_has_content(rows.last()) {
            init.push(rows.last())
        } else {
            init
        }
    }
}

/// `row` resized to `width` cells, missing cells empty.
pub open spec fn pad_row(row: Lines, width: nat) -> Lines {
    Seq::new(width, |i: int| if i < row.len() { row[i] } else { Seq::empty() })
}

/// `Column k`.
pub open spec fn column_label(k: nat) -> Seq<char> {
    "Column "@ + spec_decimal(k)
}

/// `Column 1`, ..., `Column width`.
pub open spec fn generated_header(width: nat) -> Lines {
    Seq::new(width, |i: int| column_label((i + 1) as nat))
}

/// The rows of the table before a header is chosen: the collapsed row groups
/// that are not blank, each padded to the width of the widest.
pub open spec fn table_rows(block: Lines) -> Groups {
    let rows = content_rows(spec_collect_row_groups(block).map_values(|g: Lines| spec_collapse_group(g)));
    rows.map_values(|r: Lines| pad_row(r, max_len(rows)))
}

/// What `parse_table_block` gives for the lines of one table.
pub open spec fn spec_parse_table_block(block: Lines, first_row_is_header: bool) -> TableModel {
    let groups = spec_collect_row_groups(block);
    let rows = content_rows(groups.map_values(|g: Lines| spec_collapse_group(g)));
    if groups.len() == 0 {
        TableModel {
            markdown: Seq::empty(),
            row_count: 0,
            column_count: 0,
            warnings: seq![no_rows_warning()],
        }
    } else if rows.len() == 0 {
        TableModel {
            markdown: Seq::empty(),
            row_count: 0,
            column_count: 0,
            warnings: seq![blank_rows_warning()],
        }
    } else {
        let width = max_len(rows);
        let padded = table_rows(block);
        let header = if first_row_is_header {
            padded[0]
        } else {
            generated_header(width)
        };
        let body = if first_row_is_header {
            padded.drop_first()
        } else {
            padded
        };
        TableModel {
            markdown: spec_render_table(header, body),
            row_count: body.len(),
            column_count: width,
            warnings: if body.len() == 0 {
                seq![header_only_warning()]
            } else {
                Seq::empty()
            },
        }
    }
}

/// A fresh copy of `lines`.
fn copy_lines(lines: &Vec<Vec<char>>) -> (res: Vec<Vec<char>>)
    ensures
        nested_view(res@) == nested_view(lines@),
{
    let mut out: Vec<Vec<char>> = Vec::new();
    let mut k: usize = 0;
    while k < lines.len()
        invariant
            k <= lines@.len(),
            nested_view(out@) == nested_view(lines@).take(k as int),
        decreases lines@.len() - k,
    {
        let line = copy_chars(lines[k].as_slice());
        proof {
            lemma_nested_view_push(out@, line);
        }
        out.push(line);
        k = k + 1;
        assert(nested_view(out@) =~= nested_view(lines@).take(k as int));
    }
    assert(nested_view(lines@).take(lines@.len() as int) =~= nested_view(lines@));
    out
}

/// Whether some cell of `row` holds more than white space.
fn has_content_cell(row: &Vec<Vec<char>>) -> (res: bool)
    ensures
        res == row_has_content(nested_view(row@)),
{
    let ghost rv = nested_view(row@);
    let mut i: usize = 0;
    while i < row.len()
        invariant
            i <= row@.len(),
            rv == nested_view(row@),
            forall|j: int| 0 <= j < i ==> !(#[trigger] spec_trim(rv[j]).len() > 0),
        decreases row@.len() - i,
    {
        let t = trim(row[i].as_slice());
        if t.len() > 0 {
            assert(spec_trim(rv[i as int]).len() > 0);
            return true;
        }
        i = i + 1;
    }
    false
}

/// `Column 1`, ..., `Column width`.
fn make_header(width: usize) -> (res: Vec<Vec<char>>)
    ensures
        nested_view(res@) == generated_header(width as nat),
{
    let prefix = chars_of("Column ");
    let mut out: Vec<Vec<char>> = Vec::new();
    let mut k: usize = 0;
    while k < width
        invariant
            k <= width,
            prefix@ == "Column "@,
            nested_view(out@) == generated_header(width as nat).take(k as int),
        decreases width - k,
    {
        let mut label: Vec<char> = Vec::new();
        push_all(&mut label, prefix.as_slice());
        push_decimal(&mut label, k + 1);
        assert(label@ =~= column_label((k + 1) as nat));
        proof {
            lemma_nested_view_push(out@, label);
        }
        out.push(label);
        k = k + 1;
        assert(nested_view(out@) =~= generated_header(width as nat).take(k as int));
    }
    assert(generated_header(width as nat).take(width as int) =~= generated_header(width as nat));
    out
}

/// Converts the lines of one Unicode or ASCII box table into a Markdown pipe
/// table.
///
/// Separator lines split the content lines into logical rows (without any
/// separator, each content line is a row); the fragments of a multi-line cell
/// are joined with `<br>`, pipes inside cells are escaped as `\|`, blank rows
/// are dropped and every row is padded to the widest. The header is the first
/// row, or `Column 1`, `Column 2`, ... when `first_row_is_header` is false.
pub fn parse_table_block(block: &Vec<Vec<char>>, first_row_is_header: bool) -> (res: ParsedTable)
    ensures
        res@ == spec_parse_table_block(nested_view(block@), first_row_is_header),
{
    let groups = collect_row_groups(block);
    let mut warnings: Vec<String> = Vec::new();
    let ghost gv = nested_view2(groups@);
    if groups.len() == 0 {
        let mut w: Vec<String> = Vec::new();
        w.push("No ASCII table rows were found.".to_string());
        assert(w@.map_values(|s: String| s@) =~= seq![no_rows_warning()]);
        return ParsedTable { markdown: String::new(), row_count: 0, column_count: 0, warnings: w };
    }
    let ghost collapsed = gv.map_values(|g: Lines| spec_collapse_group(g));
    let ghost rows_spec = content_rows(collapsed);
    let mut rows: Vec<Vec<Vec<char>>> = Vec::new();
    let mut i: usize = 0;
    assert(collapsed.take(0) =~= Seq::<Lines>::empty());
    assert(nested_view2(rows@) =~= Seq::<Lines>::empty());
    while i < groups.len()
        invariant
            i <= groups@.len(),
            gv == nested_view2(groups@),
            collapsed == gv.map_values(|g: Lines| spec_collapse_group(g)),
            nested_view2(rows@) == content_rows(collapsed.take(i as int)),
        decreases groups@.len() - i,
    {
        assert(collapsed.take(i + 1).drop_last() =~= collapsed.take(i as int));
        assert(gv[i as int] == nested_view(groups@[i as int]@));
        let row = collapse_group(&groups[i]);
        if has_content_cell(&row) {
            proof {
                lemma_nested_view2_push(rows@, row);
            }
            rows.push(row);
        }
        i = i + 1;
    }
    assert(collapsed.take(groups@.len() as int) =~= collapsed);
    if rows.len() == 0 {
        let mut w: Vec<String> = Vec::new();
        w.push("The table only contained borders or empty cells.".to_string());
        assert(w@.map_values(|s: String| s@) =~= seq![blank_rows_warning()]);
        return ParsedTable { markdown: String::new(), row_count: 0, column_count: 0, warnings: w };
    }
    let column_count = max_width(&rows);
    let ghost padded_spec = table_rows(nested_view(block@));
    let mut padded: Vec<Vec<Vec<char>>> = Vec::new();
    let mut i: usize = 0;
    assert(padded_spec.take(0) =~= Seq::<Lines>::empty());
    assert(nested_view2(padded@) =~= Seq::<Lines>::empty());
    while i < rows.len()
        invariant
            i <= rows@.len(),
            rows_spec == nested_view2(rows@),
            column_count == max_len(rows_spec),
            padded_spec == rows_spec.map_values(|r: Lines| pad_row(r, max_len(rows_spec))),
            nested_view2(padded@) == padded_spec.take(i as int),
        decreases rows@.len() - i,
    {
        let ghost rv = rows_spec[i as int];
        proof {
            lemma_max_len_bound(rows_spec, i as int);
        }
        let mut row = copy_lines(&rows[i]);
        assert(nested_view(row@) =~= pad_row(rv, row@.len()));
        while row.len() < column_count
            invariant
                rv.len() <= row@.len() <= column_count,
                nested_view(row@) == pad_row(rv, row@.len()),
            decreases column_count - row@.len(),
        {
            let empty: Vec<char> = Vec::new();
            proof {
                lemma_nested_view_push(row@, empty);
            }
            row.push(empty);
            assert(nested_view(row@) =~= pad_row(rv, row@.len()));
        }
        proof {
            lemma_nested_view2_push(padded@, row);
        }
        padded.push(row);
        i = i + 1;
        assert(nested_view2(padded@) =~= padded_spec.take(i as int));
    }
    assert(padded_spec.take(rows@.len() as int) =~= padded_spec);
    let header: Vec<Vec<char>>;
    if first_row_is_header {
        let ghost before = padded@;
        header = padded.remove(0);
        assert(nested_view2(padded@) =~= nested_view2(before).drop_first());
    } else {
        header = make_header(column_count);
    }
    let body = padded;
    let row_count = body.len();
    let markdown_chars = render_markdown_table(&header, &body);
    let markdown = string_from_chars(markdown_chars.as_slice());
    if row_count == 0 {
        warnings.push("Only a header row was found.".to_string());
    }
    let res = ParsedTable { markdown, row_count, column_count, warnings };
    assert(res@.warnings =~= spec_parse_table_block(nested_view(block@), first_row_is_header).warnings);
    res
}

} // verus!
