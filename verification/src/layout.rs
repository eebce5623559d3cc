use vstd::prelude::*;

use crate::cells::{
    br, column_fragments, line_cells, max_len, spec_collapse_group, spec_escape,
};
use crate::classify::cell_fields;
use crate::groups::{
    cell_lines, close_group, group_scan, one_line_rows, spec_collect_row_groups,
    spec_push_cell_line, trimmed_lines, Groups, Lines,
};
use crate::parser::{
    column_label, content_rows, generated_header, pad_row, spec_parse_table_block, table_rows,
};
use crate::render::{cell_sep, separator_cells, spec_render_row, table_lines};
use crate::text::{
    count_of, lemma_split_on_len, spec_decimal, spec_join, split_on,
    strip, strip_end, strip_start,
};

verus! {

/// `s` holds no `c`.
pub open spec fn lacks(s: Seq<char>, c: char) -> bool {
    forall|i: int| 0 <= i < s.len() ==> s[i] != c
}

/// No line of `lines` holds `c`.
pub open spec fn all_lack(lines: Lines, c: char) -> bool {
    forall|i: int| 0 <= i < lines.len() ==> lacks(#[trigger] lines[i], c)
}

/// No line of any group of `groups` holds `c`.
pub open spec fn groups_lack(groups: Groups, c: char) -> bool {
    forall|i: int| 0 <= i < groups.len() ==> all_lack(#[trigger] groups[i], c)
}

proof fn lemma_split_on_lacks(s: Seq<char>, d: char, c: char)
    ensures
        all_lack(split_on(s, d), d),
        lacks(s, c) ==> all_lack(split_on(s, d), c),
    decreases s.len(),
{
    if s.len() > 0 {
        lemma_split_on_lacks(s.drop_last(), d, c);
        lemma_split_on_len(s.drop_last(), d);
        let init = split_on(s.drop_last(), d);
        if s.last() != d {
            let last = init.last().push(s.last());
            assert(lacks(init.last(), d));
            assert(lacks(last, d));
            if lacks(s, c) {
                assert(lacks(s.drop_last(), c));
                assert(s.last() == s[s.len() - 1]);
                assert(lacks(last, c));
            }
        } else {
            if lacks(s, c) {
                assert(lacks(s.drop_last(), c));
            }
        }
    }
}

proof fn lemma_strip_lacks(s: Seq<char>, p: spec_fn(char) -> bool, c: char)
    requires
        lacks(s, c),
    ensures
        lacks(strip_start(s, p), c),
        lacks(strip_end(s, p), c),
        lacks(strip(s, p), c),
    decreases s.len(),
{
    if s.len() > 0 {
        lemma_strip_lacks(s.drop_first(), p, c);
        lemma_strip_lacks(s.drop_last(), p, c);
        let t = strip_start(s, p);
        assert(lacks(t, c));
        lemma_strip_end_lacks(t, p, c);
    }
}

proof fn lemma_strip_end_lacks(s: Seq<char>, p: spec_fn(char) -> bool, c: char)
    requires
        lacks(s, c),
    ensures
        lacks(strip_end(s, p), c),
    decreases s.len(),
{
    if s.len() > 0 {
        lemma_strip_end_lacks(s.drop_last(), p, c);
    }
}

proof fn lemma_trimmed_lines_lack_newline(block: Lines)
    requires
        all_lack(block, '\n'),
    ensures
        all_lack(trimmed_lines(block), '\n'),
{
    assert forall|i: int| 0 <= i < trimmed_lines(block).len() implies lacks(
        #[trigger] trimmed_lines(block)[i],
        '\n',
    ) by {
        assert(lacks(block[i], '\n'));
        lemma_strip_lacks(block[i], crate::text::ws_pred(), '\n');
    }
}

proof fn lemma_cell_lines_lack(lines: Lines, c: char)
    requires
        all_lack(lines, c),
    ensures
        all_lack(cell_lines(lines), c),
    decreases lines.len(),
{
    if lines.len() > 0 {
        lemma_cell_lines_lack(lines.drop_last(), c);
        assert(lacks(lines.last(), c));
    }
}

proof fn lemma_group_scan_lacks(lines: Lines, c: char)
    requires
        all_lack(lines, c),
    ensures
        ({
            let (groups, current, saw) = group_scan(lines);
            groups_lack(groups, c) && all_lack(current, c)
        }),
    decreases lines.len(),
{
    if lines.len() > 0 {
        lemma_group_scan_lacks(lines.drop_last(), c);
        let (groups, current, saw) = group_scan(lines.drop_last());
        let l = lines.last();
        assert(lacks(l, c));
        let (g, cur) = spec_push_cell_line(groups, current, l);
        assert(groups_lack(close_group(groups, current), c));
        assert(groups_lack(g, c));
        assert(all_lack(cur, c));
    }
}

proof fn lemma_row_groups_lack_newline(block: Lines)
    requires
        all_lack(block, '\n'),
    ensures
        groups_lack(spec_collect_row_groups(block), '\n'),
{
    let lines = trimmed_lines(block);
    lemma_trimmed_lines_lack_newline(block);
    lemma_group_scan_lacks(lines, '\n');
    lemma_cell_lines_lack(lines, '\n');
    let cl = cell_lines(lines);
    assert forall|i: int| 0 <= i < one_line_rows(cl).len() implies all_lack(
        #[trigger] one_line_rows(cl)[i],
        '\n',
    ) by {
        assert(lacks(cl[i], '\n'));
    }
}

proof fn lemma_escape_lacks_newline(s: Seq<char>)
    requires
        lacks(s, '\n'),
    ensures
        lacks(spec_escape(s), '\n'),
    decreases s.len(),
{
    if s.len() > 0 {
        lemma_escape_lacks_newline(s.drop_last());
        assert(s.last() == s[s.len() - 1]);
    }
}

proof fn lemma_join_lacks(parts: Lines, sep: Seq<char>, c: char)
    requires
        all_lack(parts, c),
        lacks(sep, c),
    ensures
        lacks(spec_join(parts, sep), c),
    decreases parts.len(),
{
    if parts.len() > 1 {
        lemma_join_lacks(parts.drop_last(), sep, c);
        assert(lacks(parts.last(), c));
    } else if parts.len() == 1 {
        assert(lacks(parts[0], c));
    }
}

proof fn lemma_column_fragments_lack(cells: Groups, column: int)
    requires
        groups_lack(cells, '\n'),
    ensures
        all_lack(column_fragments(cells, column), '\n'),
    decreases cells.len(),
{
    if cells.len() > 0 {
        lemma_column_fragments_lack(cells.drop_last(), column);
        let row = cells.last();
        assert(all_lack(row, '\n'));
        if 0 <= column < row.len() && crate::text::spec_trim(row[column]).len() > 0 {
            assert(lacks(row[column], '\n'));
            lemma_strip_lacks(row[column], crate::text::ws_pred(), '\n');
            lemma_escape_lacks_newline(crate::text::spec_trim(row[column]));
        }
    }
}

proof fn lemma_collapse_lacks_newline(lines: Lines)
    requires
        all_lack(lines, '\n'),
    ensures
        all_lack(spec_collapse_group(lines), '\n'),
{
    let cells = lines.map_values(|l: Seq<char>| line_cells(l));
    assert forall|k: int| 0 <= k < cells.len() implies all_lack(#[trigger] cells[k], '\n') by {
        let l = lines[k];
        assert(lacks(l, '\n'));
        let d = match crate::classify::spec_detect_cell_delimiter(l) {
            Some(d) => d,
            None => '|',
        };
        lemma_strip_lacks(l, crate::text::eq_pred(d), '\n');
        lemma_split_on_lacks(crate::text::spec_trim_matches(l, d), d, '\n');
        let fields = cell_fields(l, d);
        assert forall|j: int| 0 <= j < cells[k].len() implies lacks(#[trigger] cells[k][j], '\n') by {
            assert(lacks(fields[j], '\n'));
            lemma_strip_lacks(fields[j], crate::text::ws_pred(), '\n');
        }
    }
    assert forall|c: int| 0 <= c < spec_collapse_group(lines).len() implies lacks(
        #[trigger] spec_collapse_group(lines)[c],
        '\n',
    ) by {
        lemma_column_fragments_lack(cells, c);
        lemma_join_lacks(column_fragments(cells, c), br(), '\n');
    }
}

proof fn lemma_content_rows_lack(rows: Groups)
    requires
        groups_lack(rows, '\n'),
    ensures
        groups_lack(content_rows(rows), '\n'),
    decreases rows.len(),
{
    if rows.len() > 0 {
        lemma_content_rows_lack(rows.drop_last());
        assert(all_lack(rows.last(), '\n'));
    }
}

proof fn lemma_table_rows_lack_newline(block: Lines)
    requires
        all_lack(block, '\n'),
    ensures
        groups_lack(table_rows(block), '\n'),
{
    let groups = spec_collect_row_groups(block);
    lemma_row_groups_lack_newline(block);
    let collapsed = groups.map_values(|g: Lines| spec_collapse_group(g));
    assert forall|i: int| 0 <= i < collapsed.len() implies all_lack(#[trigger] collapsed[i], '\n') by {
        assert(all_lack(groups[i], '\n'));
        lemma_collapse_lacks_newline(groups[i]);
    }
    lemma_content_rows_lack(collapsed);
    let rows = content_rows(collapsed);
    assert forall|i: int| 0 <= i < table_rows(block).len() implies all_lack(
        #[trigger] table_rows(block)[i],
        '\n',
    ) by {
        assert(all_lack(rows[i], '\n'));
        assert(table_rows(block)[i] == pad_row(rows[i], max_len(rows)));
    }
}

proof fn lemma_decimal_lacks_newline(n: nat)
    ensures
        lacks(spec_decimal(n), '\n'),
    decreases n,
{
    if n >= 10 {
        lemma_decimal_lacks_newline(n / 10);
    }
}

proof fn lemma_header_lacks_newline(width: nat)
    ensures
        all_lack(generated_header(width), '\n'),
{
    reveal_strlit("Column ");
    assert forall|i: int| 0 <= i < width implies lacks(#[trigger] generated_header(width)[i], '\n') by {
        lemma_decimal_lacks_newline((i + 1) as nat);
        let label = column_label((i + 1) as nat);
        assert forall|j: int| 0 <= j < label.len() implies label[j] != '\n' by {
            if j >= 7 {
                assert(label[j] == spec_decimal((i + 1) as nat)[j - 7]);
            }
        }
    }
}

proof fn lemma_row_lacks_newline(cells: Lines)
    requires
        all_lack(cells, '\n'),
    ensures
        lacks(spec_render_row(cells), '\n'),
{
    lemma_join_lacks(cells, cell_sep(), '\n');
}

pub proof fn lemma_count_concat(a: Seq<char>, b: Seq<char>, c: char)
    ensures
        count_of(a + b, c) == count_of(a, c) + count_of(b, c),
    decreases b.len(),
{
    if b.len() == 0 {
        assert(a + b =~= a);
    } else {
        lemma_count_concat(a, b.drop_last(), c);
        assert((a + b).drop_last() =~= a + b.drop_last());
    }
}

proof fn lemma_count_lacking(s: Seq<char>, c: char)
    requires
        lacks(s, c),
    ensures
        count_of(s, c) == 0,
    decreases s.len(),
{
    if s.len() > 0 {
        lemma_count_lacking(s.drop_last(), c);
    }
}

proof fn lemma_join_newline_count(lines: Lines)
    requires
        lines.len() > 0,
        all_lack(lines, '\n'),
    ensures
        count_of(spec_join(lines, seq!['\n']), '\n') == lines.len() - 1,
    decreases lines.len(),
{
    lemma_count_lacking(lines.last(), '\n');
    if lines.len() > 1 {
        lemma_join_newline_count(lines.drop_last());
        let j = spec_join(lines.drop_last(), seq!['\n']);
        lemma_count_concat(j, seq!['\n'], '\n');
        lemma_count_concat(j + seq!['\n'], lines.last(), '\n');
        assert(count_of(seq!['\n'], '\n') == 1) by {
            assert(seq!['\n'].drop_last() =~= Seq::<char>::empty());
            assert(count_of(Seq::<char>::empty(), '\n') == 0);
        }
    }
}

/// A converted table has one line per row: the header line, the `---` line
/// and one line per body row, so its Markdown holds `row_count + 1` line breaks.
pub proof fn lemma_markdown_line_per_row(block: Lines, first_row_is_header: bool)
    requires
        all_lack(block, '\n'),
    ensures
        ({
            let m = spec_parse_table_block(block, first_row_is_header);
            m.column_count > 0 ==> count_of(m.markdown, '\n') == m.row_count + 1
        }),
{
    let m = spec_parse_table_block(block, first_row_is_header);
    let groups = spec_collect_row_groups(block);
    let rows = content_rows(groups.map_values(|g: Lines| spec_collapse_group(g)));
    if groups.len() > 0 && rows.len() > 0 {
        let padded = table_rows(block);
        lemma_table_rows_lack_newline(block);
        let header = if first_row_is_header {
            padded[0]
        } else {
            generated_header(max_len(rows))
        };
        let body = if first_row_is_header {
            padded.drop_first()
        } else {
            padded
        };
        crate::laws::lemma_result_shape(block, first_row_is_header);
        if first_row_is_header {
            assert(all_lack(padded[0], '\n'));
        } else {
            lemma_header_lacks_newline(max_len(rows));
        }
        let tl = table_lines(header, body);
        assert forall|i: int| 0 <= i < tl.len() implies lacks(#[trigger] tl[i], '\n') by {
            if i == 0 {
                lemma_row_lacks_newline(header);
            } else if i == 1 {
                let sc = separator_cells(header.len());
                assert forall|k: int| 0 <= k < sc.len() implies lacks(#[trigger] sc[k], '\n') by {}
                lemma_row_lacks_newline(sc);
            } else {
                assert(all_lack(body[i - 2], '\n'));
                lemma_row_lacks_newline(body[i - 2]);
            }
        }
        lemma_join_newline_count(tl);
    }
}


// ---------------------------------------------------------------------------
// Cells: escaped pipes, no surrounding white space
// ---------------------------------------------------------------------------
/// Every `|` of `s` directly follows a backslash.
pub open spec fn pipes_escaped(s: Seq<char>) -> bool {
    forall|i: int| 0 <= i < s.len() && #[trigger] s[i] == '|' ==> i > 0 && s[i - 1] == '\\'
}

proof fn lemma_pipes_escaped_concat(a: Seq<char>, b: Seq<char>)
    requires
        pipes_escaped(a),
        pipes_escaped(b),
    ensures
        pipes_escaped(a + b),
{
    assert forall|i: int| 0 <= i < (a + b).len() && #[trigger] (a + b)[i] == '|' implies i > 0 && (a
        + b)[i - 1] == '\\' by {
        if i >= a.len() {
            assert(b[i - a.len()] == '|');
            assert(i - a.len() > 0);
        }
    }
}

proof fn lemma_lacks_pipe_escaped(s: Seq<char>)
    requires
        lacks(s, '|'),
    ensures
        pipes_escaped(s),
{
}

proof fn lemma_join_pipes_escaped(parts: Lines, sep: Seq<char>)
    requires
        forall|i: int| 0 <= i < parts.len() ==> pipes_escaped(#[trigger] parts[i]),
        pipes_escaped(sep),
    ensures
        pipes_escaped(spec_join(parts, sep)),
    decreases parts.len(),
{
    if parts.len() > 1 {
        lemma_join_pipes_escaped(parts.drop_last(), sep);
        let j = spec_join(parts.drop_last(), sep);
        lemma_pipes_escaped_concat(j, sep);
        assert(pipes_escaped(parts[parts.len() - 1]));
        lemma_pipes_escaped_concat(j + sep, parts.last());
    } else if parts.len() == 1 {
        assert(pipes_escaped(parts[0]));
    }
}

/// The first character of `strip_end(s, p)` is that of `s`: it is a prefix.
proof fn lemma_strip_end_prefix(s: Seq<char>, p: spec_fn(char) -> bool)
    ensures
        strip_end(s, p).len() <= s.len(),
        forall|i: int| 0 <= i < strip_end(s, p).len() ==> #[trigger] strip_end(s, p)[i] == s[i],
    decreases s.len(),
{
    if s.len() > 0 {
        lemma_strip_end_prefix(s.drop_last(), p);
    }
}

proof fn lemma_strip_start_front(s: Seq<char>, p: spec_fn(char) -> bool)
    ensures
        strip_start(s, p).len() > 0 ==> !p(strip_start(s, p)[0]),
    decreases s.len(),
{
    if s.len() > 0 {
        lemma_strip_start_front(s.drop_first(), p);
    }
}

proof fn lemma_strip_end_back(s: Seq<char>, p: spec_fn(char) -> bool)
    ensures
        strip_end(s, p).len() > 0 ==> !p(strip_end(s, p).last()),
    decreases s.len(),
{
    if s.len() > 0 {
        lemma_strip_end_back(s.drop_last(), p);
    }
}

/// What `strip` leaves starts and ends with characters it does not strip.
pub proof fn lemma_strip_ends(s: Seq<char>, p: spec_fn(char) -> bool)
    ensures
        strip(s, p).len() > 0 ==> !p(strip(s, p)[0]) && !p(strip(s, p).last()),
{
    let t = strip_start(s, p);
    lemma_strip_start_front(s, p);
    lemma_strip_end_prefix(t, p);
    lemma_strip_end_back(t, p);
    if strip(s, p).len() > 0 {
        assert(strip(s, p)[0] == t[0]);
    }
}

/// `strip` leaves alone a sequence whose ends it does not strip.
pub proof fn lemma_strip_unchanged(s: Seq<char>, p: spec_fn(char) -> bool)
    requires
        s.len() > 0 ==> !p(s[0]) && !p(s.last()),
    ensures
        strip(s, p) == s,
{
}

proof fn lemma_escape_ends(s: Seq<char>)
    requires
        s.len() > 0,
    ensures
        spec_escape(s).len() > 0,
        spec_escape(s)[0] == (if s[0] == '|' {
            '\\'
        } else {
            s[0]
        }),
        spec_escape(s).last() == s.last(),
    decreases s.len(),
{
    if s.len() > 1 {
        lemma_escape_ends(s.drop_last());
        assert(s.drop_last()[0] == s[0]);
    } else {
        assert(spec_escape(s.drop_last()) =~= Seq::<char>::empty());
    }
}

proof fn lemma_join_ends(parts: Lines, sep: Seq<char>)
    requires
        parts.len() > 0,
        forall|i: int| 0 <= i < parts.len() ==> (#[trigger] parts[i]).len() > 0,
    ensures
        spec_join(parts, sep).len() > 0,
        spec_join(parts, sep)[0] == parts[0][0],
        spec_join(parts, sep).last() == parts.last().last(),
    decreases parts.len(),
{
    assert(parts[parts.len() - 1].len() > 0);
    if parts.len() > 1 {
        lemma_join_ends(parts.drop_last(), sep);
        assert(parts.drop_last()[0] == parts[0]);
    }
}

/// A cell that some column fragments form.
proof fn lemma_fragments_cell(cells: Groups, column: int)
    ensures
        ({
            let cell = spec_join(column_fragments(cells, column), br());
            pipes_escaped(cell) && crate::text::spec_trim(cell) == cell
        }),
{
    let frags = column_fragments(cells, column);
    lemma_column_fragments_shape(cells, column);
    lemma_join_pipes_escaped(frags, br());
    let cell = spec_join(frags, br());
    if frags.len() > 0 {
        lemma_join_ends(frags, br());
        assert(!crate::chars::spec_is_whitespace(frags[0][0]));
        assert(!crate::chars::spec_is_whitespace(frags[frags.len() - 1].last()));
    }
    lemma_strip_unchanged(cell, crate::text::ws_pred());
}

/// Every column fragment is non-empty, starts and ends with a non-blank
/// character and has its pipes escaped.
proof fn lemma_column_fragments_shape(cells: Groups, column: int)
    ensures
        forall|i: int|
            0 <= i < column_fragments(cells, column).len() ==> {
                let f = #[trigger] column_fragments(cells, column)[i];
                &&& f.len() > 0
                &&& !crate::chars::spec_is_whitespace(f[0])
                &&& !crate::chars::spec_is_whitespace(f.last())
                &&& pipes_escaped(f)
            },
    decreases cells.len(),
{
    if cells.len() > 0 {
        lemma_column_fragments_shape(cells.drop_last(), column);
        let row = cells.last();
        let init = column_fragments(cells.drop_last(), column);
        if 0 <= column < row.len() && crate::text::spec_trim(row[column]).len() > 0 {
            let t = crate::text::spec_trim(row[column]);
            lemma_strip_ends(row[column], crate::text::ws_pred());
            assert(!crate::chars::spec_is_whitespace(t[0]));
            assert(!crate::chars::spec_is_whitespace(t.last()));
            lemma_escape_ends(t);
            crate::laws::lemma_escaped_pipes(t);
            let f = spec_escape(t);
            assert(pipes_escaped(f));
            assert(!crate::chars::spec_is_whitespace(f[0]));
            assert forall|i: int| 0 <= i < column_fragments(cells, column).len() implies ({
                let g = #[trigger] column_fragments(cells, column)[i];
                &&& g.len() > 0
                &&& !crate::chars::spec_is_whitespace(g[0])
                &&& !crate::chars::spec_is_whitespace(g.last())
                &&& pipes_escaped(g)
            }) by {
                if i < init.len() {
                    assert(column_fragments(cells, column)[i] == init[i]);
                }
            }
        } else {
            assert(column_fragments(cells, column) == init);
        }
    }
}

proof fn lemma_collapse_cells(lines: Lines)
    ensures
        forall|c: int|
            0 <= c < spec_collapse_group(lines).len() ==> pipes_escaped(
                #[trigger] spec_collapse_group(lines)[c],
            ) && crate::text::spec_trim(spec_collapse_group(lines)[c])
                == spec_collapse_group(lines)[c],
{
    let cells = lines.map_values(|l: Seq<char>| line_cells(l));
    assert forall|c: int| 0 <= c < spec_collapse_group(lines).len() implies pipes_escaped(
        #[trigger] spec_collapse_group(lines)[c],
    ) && crate::text::spec_trim(spec_collapse_group(lines)[c]) == spec_collapse_group(lines)[c] by {
        lemma_fragments_cell(cells, c);
    }
}

/// Whether every cell of `row` has its pipes escaped and no surrounding white
/// space.
pub open spec fn clean_cells(row: Lines) -> bool {
    forall|j: int|
        0 <= j < row.len() ==> pipes_escaped(#[trigger] row[j]) && crate::text::spec_trim(row[j])
            == row[j]
}

proof fn lemma_content_rows_clean(rows: Groups)
    requires
        forall|i: int| 0 <= i < rows.len() ==> clean_cells(#[trigger] rows[i]),
    ensures
        forall|i: int| 0 <= i < content_rows(rows).len() ==> clean_cells(#[trigger] content_rows(rows)[i]),
    decreases rows.len(),
{
    if rows.len() > 0 {
        lemma_content_rows_clean(rows.drop_last());
        let init = content_rows(rows.drop_last());
        assert(clean_cells(rows[rows.len() - 1]));
        assert forall|i: int| 0 <= i < content_rows(rows).len() implies clean_cells(
            #[trigger] content_rows(rows)[i],
        ) by {
            if i < init.len() {
                assert(content_rows(rows)[i] == init[i]);
            }
        }
    }
}

/// No cell of the table can break its columns or carry white space at either
/// end: in every cell of every row (the header included) each `|` is escaped
/// as `\|`, and trimming the cell leaves it unchanged.
pub proof fn lemma_cells_escaped_and_trimmed(block: Lines)
    ensures
        forall|i: int| 0 <= i < table_rows(block).len() ==> clean_cells(#[trigger] table_rows(block)[i]),
        forall|w: nat| #[trigger] clean_cells(generated_header(w)),
{
    let groups = spec_collect_row_groups(block);
    let collapsed = groups.map_values(|g: Lines| spec_collapse_group(g));
    assert forall|i: int| 0 <= i < collapsed.len() implies clean_cells(#[trigger] collapsed[i]) by {
        lemma_collapse_cells(groups[i]);
    }
    lemma_content_rows_clean(collapsed);
    let rows = content_rows(collapsed);
    assert forall|i: int| 0 <= i < table_rows(block).len() implies clean_cells(
        #[trigger] table_rows(block)[i],
    ) by {
        assert(clean_cells(rows[i]));
        let r = table_rows(block)[i];
        assert(r == pad_row(rows[i], max_len(rows)));
        assert forall|j: int| 0 <= j < r.len() implies pipes_escaped(#[trigger] r[j])
            && crate::text::spec_trim(r[j]) == r[j] by {
            if j >= rows[i].len() {
                lemma_strip_unchanged(r[j], crate::text::ws_pred());
            }
        }
    }
    assert forall|w: nat| #[trigger] clean_cells(generated_header(w)) by {
        lemma_header_cells_clean(w);
    }
}

proof fn lemma_decimal_shape(n: nat)
    ensures
        lacks(spec_decimal(n), '|'),
        spec_decimal(n).len() > 0,
        !crate::chars::spec_is_whitespace(spec_decimal(n).last()),
    decreases n,
{
    if n >= 10 {
        lemma_decimal_shape(n / 10);
    }
}

proof fn lemma_header_cells_clean(width: nat)
    ensures
        clean_cells(generated_header(width)),
{
    reveal_strlit("Column ");
    let h = generated_header(width);
    assert forall|j: int| 0 <= j < h.len() implies pipes_escaped(#[trigger] h[j])
        && crate::text::spec_trim(h[j]) == h[j] by {
        let k = (j + 1) as nat;
        lemma_decimal_shape(k);
        let label = column_label(k);
        assert forall|m: int| 0 <= m < label.len() implies label[m] != '|' by {
            if m >= 7 {
                assert(label[m] == spec_decimal(k)[m - 7]);
            }
        }
        lemma_lacks_pipe_escaped(label);
        assert(label[0] == 'C');
        assert(label.last() == spec_decimal(k).last());
        lemma_strip_unchanged(label, crate::text::ws_pred());
    }
}


proof fn lemma_strip_end_keeps_front(s: Seq<char>, p: spec_fn(char) -> bool)
    requires
        s.len() > 0,
        !p(s[0]),
    ensures
        strip_end(s, p).len() > 0,
    decreases s.len(),
{
    if s.len() > 1 && p(s.last()) {
        assert(s.drop_last()[0] == s[0]);
        lemma_strip_end_keeps_front(s.drop_last(), p);
    }
}

/// A converted table that is not empty starts with `|`, so it is not blank.
pub proof fn lemma_table_markdown_not_blank(block: Lines, first_row_is_header: bool)
    ensures
        ({
            let md = spec_parse_table_block(block, first_row_is_header).markdown;
            md.len() > 0 ==> md[0] == '|' && crate::text::spec_trim(md).len() > 0
        }),
{
    let md = spec_parse_table_block(block, first_row_is_header).markdown;
    let groups = spec_collect_row_groups(block);
    let rows = content_rows(groups.map_values(|g: Lines| spec_collapse_group(g)));
    if groups.len() > 0 && rows.len() > 0 {
        let padded = table_rows(block);
        let header = if first_row_is_header {
            padded[0]
        } else {
            generated_header(max_len(rows))
        };
        let body = if first_row_is_header {
            padded.drop_first()
        } else {
            padded
        };
        let tl = table_lines(header, body);
        assert forall|i: int| 0 <= i < tl.len() implies (#[trigger] tl[i]).len() > 0 && tl[i][0]
            == '|' by {
            if i >= 2 {
                assert(tl[i] == spec_render_row(body[i - 2]));
            }
        }
        lemma_join_ends(tl, seq!['\n']);
        assert(md[0] == '|');
        assert(strip_start(md, crate::text::ws_pred()) == md);
        lemma_strip_end_keeps_front(md, crate::text::ws_pred());
    }
}

} // verus!
