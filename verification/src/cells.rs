use vstd::prelude::*;

use crate::classify::{cell_fields, detect_cell_delimiter, spec_detect_cell_delimiter};
use crate::groups::{lemma_nested_view2_push, nested_view2, Groups, Lines};
use crate::text::{
    join, lemma_nested_view_push, nested_view, spec_join, spec_trim, split, trim, trim_matches,
};

verus! {

/// `str::replace('|', "\\|")`: every pipe preceded by a backslash.
pub open spec fn spec_escape(cell: Seq<char>) -> Seq<char>
    decreases cell.len(),
{
    if cell.len() == 0 {
        Seq::empty()
    } else {
        spec_escape(cell.drop_last()) + if cell.last() == '|' {
            seq!['\\', '|']
        } else {
            seq![cell.last()]
        }
    }
}

/// The separator between the fragments of a multi-line cell.
pub open spec fn br() -> Seq<char> {
    seq!['<', 'b', 'r', '>']
}

/// The largest length among `s`, or 0 when `s` is empty.
pub open spec fn max_len<T>(s: Seq<Seq<T>>) -> nat
    decreases s.len(),
{
    if s.len() == 0 {
        0
    } else {
        let m = max_len(s.drop_last());
        if s.last().len() > m {
            s.last().len()
        } else {
            m
        }
    }
}

/// No sequence of `s` is longer than `max_len(s)`.
pub proof fn lemma_max_len_bound<T>(s: Seq<Seq<T>>, i: int)
    requires
        0 <= i < s.len(),
    ensures
        s[i].len() <= max_len(s),
    decreases s.len(),
{
    if i < s.len() - 1 {
        lemma_max_len_bound(s.drop_last(), i);
        assert(s.drop_last()[i] == s[i]);
    }
}

/// The trimmed cells of one content line, split at its own delimiter (`|` when
/// it has none).
pub open spec fn line_cells(line: Seq<char>) -> Lines {
    let d = match spec_detect_cell_delimiter(line) {
        Some(d) => d,
        None => '|',
    };
    cell_fields(line, d).map_values(|c: Seq<char>| spec_trim(c))
}

/// The escaped, non-blank fragments of column `column` over the lines of a group.
pub open spec fn column_fragments(cells: Groups, column: int) -> Lines
    decreases cells.len(),
{
    if cells.len() == 0 {
        Seq::empty()
    } else {
        let init = column_fragments(cells.drop_last(), column);
        let row = cells.last();
        if 0 <= column < row.len() && spec_trim(row[column]).len() > 0 {
            init.push(spec_escape(spec_trim(row[column])))
        } else {
            init
        }
    }
}

/// One logical row from a group of content lines: as many cells as the widest
/// line, each the non-blank fragments of its column joined with `<br>`.
pub open spec fn spec_collapse_group(lines: Lines) -> Lines {
    let cells = lines.map_values(|l: Seq<char>| line_cells(l));
    Seq::new(max_len(cells), |c: int| spec_join(column_fragments(cells, c), br()))
}

/// Escapes every `|` of `cell` as `\|`.
pub fn escape_markdown_cell(cell: &[char]) -> (res: Vec<char>)
    ensures
        res@ == spec_escape(cell@),
{
    let mut out: Vec<char> = Vec::new();
    let mut i: usize = 0;
    while i < cell.len()
        invariant
            i <= cell@.len(),
            out@ == spec_escape(cell@.take(i as int)),
        decreases cell@.len() - i,
    {
        assert(cell@.take(i + 1).drop_last() =~= cell@.take(i as int));
        let ch = cell[i];
        if ch == '|' {
            out.push('\\');
            out.push('|');
        } else {
            out.push(ch);
        }
        i = i + 1;
        assert(out@ =~= spec_escape(cell@.take(i as int)));
    }
    assert(cell@.take(cell@.len() as int) =~= cell@);
    out
}

/// The trimmed cells of a content line (see `line_cells`).
fn parse_line_cells(line: &[char]) -> (res: Vec<Vec<char>>)
    ensures
        nested_view(res@) == line_cells(line@),
{
    let delimiter = match detect_cell_delimiter(line) {
        Some(d) => d,
        None => '|',
    };
    let inner = trim_matches(line, delimiter);
    let fields = split(inner.as_slice(), delimiter);
    let ghost fv = nested_view(fields@);
    let mut out: Vec<Vec<char>> = Vec::new();
    let mut i: usize = 0;
    while i < fields.len()
        invariant
            i <= fields@.len(),
            fv == nested_view(fields@),
            fv == cell_fields(line@, delimiter),
            nested_view(out@) == fv.take(i as int).map_values(|c: Seq<char>| spec_trim(c)),
        decreases fields@.len() - i,
    {
        let cell = trim(fields[i].as_slice());
        proof {
            lemma_nested_view_push(out@, cell);
        }
        out.push(cell);
        i = i + 1;
        assert(nested_view(out@) =~= fv.take(i as int).map_values(|c: Seq<char>| spec_trim(c)));
    }
    assert(fv.take(fields@.len() as int) =~= fv);
    out
}

/// The length of the longest vector in `rows`.
pub fn max_width(rows: &Vec<Vec<Vec<char>>>) -> (res: usize)
    ensures
        res == max_len(nested_view2(rows@)),
{
    let ghost rv = nested_view2(rows@);
    let mut m: usize = 0;
    let mut i: usize = 0;
    assert(rv.take(0) =~= Seq::<Lines>::empty());
    while i < rows.len()
        invariant
            i <= rows@.len(),
            rv == nested_view2(rows@),
            m == max_len(rv.take(i as int)),
        decreases rows@.len() - i,
    {
        assert(rv.take(i + 1).drop_last() =~= rv.take(i as int));
        assert(rv[i as int].len() == rows@[i as int]@.len());
        if rows[i].len() > m {
            m = rows[i].len();
        }
        i = i + 1;
    }
    assert(rv.take(rows@.len() as int) =~= rv);
    m
}

/// The fragments of column `column` (see `column_fragments`).
fn collect_column(cells: &Vec<Vec<Vec<char>>>, column: usize) -> (res: Vec<Vec<char>>)
    ensures
        nested_view(res@) == column_fragments(nested_view2(cells@), column as int),
{
    let ghost cv = nested_view2(cells@);
    let mut out: Vec<Vec<char>> = Vec::new();
    let mut k: usize = 0;
    assert(cv.take(0) =~= Seq::<Lines>::empty());
    assert(nested_view(out@) =~= Seq::<Seq<char>>::empty());
    while k < cells.len()
        invariant
            k <= cells@.len(),
            cv == nested_view2(cells@),
            nested_view(out@) == column_fragments(cv.take(k as int), column as int),
        decreases cells@.len() - k,
    {
        assert(cv.take(k + 1).drop_last() =~= cv.take(k as int));
        let row = &cells[k];
        assert(cv[k as int] == nested_view(row@));
        if column < row.len() {
            let piece = trim(row[column].as_slice());
            if piece.len() > 0 {
                let escaped = escape_markdown_cell(piece.as_slice());
                proof {
                    lemma_nested_view_push(out@, escaped);
                }
                out.push(escaped);
            }
        }
        k = k + 1;
    }
    assert(cv.take(cells@.len() as int) =~= cv);
    out
}

/// One logical row from a group of content lines (see `spec_collapse_group`).
pub fn collapse_group(lines: &Vec<Vec<char>>) -> (res: Vec<Vec<char>>)
    ensures
        nested_view(res@) == spec_collapse_group(nested_view(lines@)),
{
    let ghost lv = nested_view(lines@);
    let ghost target = lv.map_values(|l: Seq<char>| line_cells(l));
    let mut cells: Vec<Vec<Vec<char>>> = Vec::new();
    let mut i: usize = 0;
    while i < lines.len()
        invariant
            i <= lines@.len(),
            lv == nested_view(lines@),
            target == lv.map_values(|l: Seq<char>| line_cells(l)),
            nested_view2(cells@) == target.take(i as int),
        decreases lines@.len() - i,
    {
        let parsed = parse_line_cells(lines[i].as_slice());
        proof {
            lemma_nested_view2_push(cells@, parsed);
        }
        cells.push(parsed);
        i = i + 1;
        assert(nested_view2(cells@) =~= target.take(i as int));
    }
    assert(target.take(lines@.len() as int) =~= target);
    let column_count = max_width(&cells);
    let mut sep: Vec<char> = Vec::new();
    sep.push('<');
    sep.push('b');
    sep.push('r');
    sep.push('>');
    assert(sep@ =~= br());
    let ghost expected = spec_collapse_group(lv);
    let mut out: Vec<Vec<char>> = Vec::new();
    let mut column: usize = 0;
    while column < column_count
        invariant
            column <= column_count,
            column_count == max_len(target),
            nested_view2(cells@) == target,
            sep@ == br(),
            expected == spec_collapse_group(lv),
            target == lv.map_values(|l: Seq<char>| line_cells(l)),
            nested_view(out@) == expected.take(column as int),
        decreases column_count - column,
    {
        let fragments = collect_column(&cells, column);
        let joined = join(&fragments, sep.as_slice());
        proof {
            lemma_nested_view_push(out@, joined);
        }
        out.push(joined);
        column = column + 1;
        assert(nested_view(out@) =~= expected.take(column as int));
    }
    assert(expected.take(column_count as int) =~= expected);
    out
}

} // verus!
