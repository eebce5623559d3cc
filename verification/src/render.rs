use vstd::prelude::*;

use crate::groups::{nested_view2, Groups, Lines};
use crate::text::{join, lemma_nested_view_push, nested_view, push_all, spec_join};

verus! {

/// `" | "`, the separator between cells of a row.
pub open spec fn cell_sep() -> Seq<char> {
    seq![' ', '|', ' ']
}

/// `| a | b |`: the cells joined with `" | "` between `"| "` and `" |"`.
pub open spec fn spec_render_row(cells: Lines) -> Seq<char> {
    seq!['|', ' '] + spec_join(cells, cell_sep()) + seq![' ', '|']
}

/// `n` cells of `---`.
pub open spec fn separator_cells(n: nat) -> Lines {
    Seq::new(n, |i: int| seq!['-', '-', '-'])
}

/// The rendered lines of a table: the header row, the `---` separator row with
/// one cell per header cell, then one row per body row.
pub open spec fn table_lines(header: Lines, body: Groups) -> Lines {
    seq![spec_render_row(header), spec_render_row(separator_cells(header.len()))]
        + body.map_values(|r: Lines| spec_render_row(r))
}

/// A GitHub-style pipe table: the lines of `table_lines` joined with `\n`.
pub open spec fn spec_render_table(header: Lines, body: Groups) -> Seq<char> {
    spec_join(table_lines(header, body), seq!['\n'])
}

/// Renders one row as `| a | b |`.
pub fn render_markdown_row(cells: &Vec<Vec<char>>) -> (res: Vec<char>)
    ensures
        res@ == spec_render_row(nested_view(cells@)),
{
    let mut sep: Vec<char> = Vec::new();
    sep.push(' ');
    sep.push('|');
    sep.push(' ');
    assert(sep@ =~= cell_sep());
    let inner = join(cells, sep.as_slice());
    let mut out: Vec<char> = Vec::new();
    out.push('|');
    out.push(' ');
    push_all(&mut out, inner.as_slice());
    out.push(' ');
    out.push('|');
    assert(out@ =~= spec_render_row(nested_view(cells@)));
    out
}

/// Renders the header row, the `---` separator row and the body rows, joined
/// with line breaks.
pub fn render_markdown_table(header: &Vec<Vec<char>>, body: &Vec<Vec<Vec<char>>>) -> (res: Vec<
    char,
>)
    ensures
        res@ == spec_render_table(nested_view(header@), nested_view2(body@)),
{
    let ghost hv = nested_view(header@);
    let ghost bv = nested_view2(body@);
    let ghost expected = table_lines(hv, bv);
    let mut lines: Vec<Vec<char>> = Vec::new();
    let first = render_markdown_row(header);
    proof {
        lemma_nested_view_push(lines@, first);
    }
    lines.push(first);
    let mut dashes: Vec<Vec<char>> = Vec::new();
    let mut k: usize = 0;
    while k < header.len()
        invariant
            k <= header@.len(),
            nested_view(dashes@) == separator_cells(k as nat),
        decreases header@.len() - k,
    {
        let mut cell: Vec<char> = Vec::new();
        cell.push('-');
        cell.push('-');
        cell.push('-');
        assert(cell@ =~= seq!['-', '-', '-']);
        proof {
            lemma_nested_view_push(dashes@, cell);
        }
        dashes.push(cell);
        k = k + 1;
        assert(nested_view(dashes@) =~= separator_cells(k as nat));
    }
    let second = render_markdown_row(&dashes);
    proof {
        lemma_nested_view_push(lines@, second);
    }
    lines.push(second);
    assert(nested_view(lines@) =~= expected.take(2));
    let mut i: usize = 0;
    while i < body.len()
        invariant
            i <= body@.len(),
            bv == nested_view2(body@),
            expected == table_lines(hv, bv),
            nested_view(lines@) == expected.take(i + 2),
        decreases body@.len() - i,
    {
        let row = render_markdown_row(&body[i]);
        assert(bv[i as int] == nested_view(body@[i as int]@));
        proof {
            lemma_nested_view_push(lines@, row);
        }
        lines.push(row);
        i = i + 1;
        assert(nested_view(lines@) =~= expected.take(i + 2));
    }
    assert(expected.take(body@.len() + 2int) =~= expected);
    let mut nl: Vec<char> = Vec::new();
    nl.push('\n');
    assert(nl@ =~= seq!['\n']);
    join(&lines, nl.as_slice())
}

} // verus!
