use vstd::prelude::*;

use crate::cells::{lemma_max_len_bound, max_len, spec_escape};
use crate::groups::{
    cell_lines, close_group, concat_all, group_scan, has_separator, lemma_concat_all_close,
    lemma_group_scan, one_line_rows, spec_collect_row_groups,
    trimmed_lines, Groups, Lines,
};
use crate::parser::{
    content_rows, generated_header, pad_row, row_has_content, spec_parse_table_block,
    table_rows,
};
use crate::render::{separator_cells, spec_render_row, table_lines};
use crate::text::spec_join;

verus! {

/// Escaping leaves no bare pipe: every `|` of an escaped cell directly follows
/// a backslash.
pub proof fn lemma_escaped_pipes(cell: Seq<char>)
    ensures
        forall|i: int|
            0 <= i < spec_escape(cell).len() && #[trigger] spec_escape(cell)[i] == '|' ==> i > 0
                && spec_escape(cell)[i - 1] == '\\',
    decreases cell.len(),
{
    if cell.len() > 0 {
        lemma_escaped_pipes(cell.drop_last());
        let e0 = spec_escape(cell.drop_last());
        assert forall|i: int|
            0 <= i < spec_escape(cell).len() && #[trigger] spec_escape(cell)[i] == '|' implies i > 0
                && spec_escape(cell)[i - 1] == '\\' by {
            if i < e0.len() {
                assert(spec_escape(cell)[i] == e0[i]);
                assert(spec_escape(cell)[i - 1] == e0[i - 1]);
            }
        }
    }
}

pub proof fn lemma_concat_one_line_rows(lines: Lines)
    ensures
        concat_all(one_line_rows(lines)) == lines,
    decreases lines.len(),
{
    if lines.len() > 0 {
        lemma_concat_one_line_rows(lines.drop_last());
        assert(one_line_rows(lines).drop_last() =~= one_line_rows(lines.drop_last()));
        assert(lines.drop_last() + seq![lines.last()] =~= lines);
    } else {
        assert(one_line_rows(lines) =~= Seq::<Lines>::empty());
    }
}

/// Grouping loses, adds and reorders no content line, and makes no empty row:
/// the row groups, read one after the other, are the content lines of the block.
pub proof fn lemma_row_groups_partition_content_lines(block: Lines)
    ensures
        concat_all(spec_collect_row_groups(block)) == cell_lines(trimmed_lines(block)),
        forall|i: int|
            0 <= i < spec_collect_row_groups(block).len() ==> #[trigger] spec_collect_row_groups(
                block,
            )[i].len() > 0,
{
    let lines = trimmed_lines(block);
    lemma_group_scan(lines);
    let (groups, current, saw) = group_scan(lines);
    if saw {
        lemma_concat_all_close(groups, current);
        assert forall|i: int| 0 <= i < close_group(groups, current).len() implies #[trigger] close_group(
            groups,
            current,
        )[i].len() > 0 by {
            if i < groups.len() {
                assert(groups[i].len() > 0);
            }
        }
    } else {
        lemma_concat_one_line_rows(cell_lines(lines));
    }
}

/// Without any separator line, each content line is a row of its own.
pub proof fn lemma_no_separator_one_row_per_line(block: Lines)
    requires
        !has_separator(trimmed_lines(block)),
    ensures
        spec_collect_row_groups(block) == one_line_rows(cell_lines(trimmed_lines(block))),
{
    lemma_group_scan(trimmed_lines(block));
}

proof fn lemma_content_rows(rows: Groups)
    ensures
        forall|i: int| 0 <= i < content_rows(rows).len() ==> row_has_content(
            #[trigger] content_rows(rows)[i],
        ),
        content_rows(rows).len() <= rows.len(),
    decreases rows.len(),
{
    if rows.len() > 0 {
        lemma_content_rows(rows.drop_last());
    }
}

proof fn lemma_join_len(parts: Lines, sep: Seq<char>)
    requires
        parts.len() > 0,
    ensures
        spec_join(parts, sep).len() >= parts.last().len(),
{
}

/// The table's rows when there are any: blank rows are gone, every row has
/// exactly `column_count` cells, and `column_count` is at least one.
proof fn lemma_table_rows_shape(block: Lines)
    ensures
        ({
            let rows = content_rows(
                spec_collect_row_groups(block).map_values(|g: Lines| crate::cells::spec_collapse_group(g)),
            );
            &&& table_rows(block).len() == rows.len()
            &&& rows.len() > 0 ==> max_len(rows) >= 1
            &&& forall|i: int|
                0 <= i < rows.len() ==> (#[trigger] table_rows(block)[i]).len() == max_len(rows)
                    && row_has_content(table_rows(block)[i])
        }),
{
    let rows = content_rows(
        spec_collect_row_groups(block).map_values(|g: Lines| crate::cells::spec_collapse_group(g)),
    );
    lemma_content_rows(spec_collect_row_groups(block).map_values(|g: Lines| crate::cells::spec_collapse_group(g)));
    if rows.len() > 0 {
        assert(row_has_content(rows[0]));
        lemma_max_len_bound(rows, 0);
    }
    assert forall|i: int| 0 <= i < rows.len() implies (#[trigger] table_rows(block)[i]).len()
        == max_len(rows) && row_has_content(table_rows(block)[i]) by {
        let r = rows[i];
        assert(row_has_content(r));
        lemma_max_len_bound(rows, i);
        let j = choose|j: int| 0 <= j < r.len() && #[trigger] crate::text::spec_trim(r[j]).len() > 0;
        let p = table_rows(block)[i];
        assert(p == pad_row(r, max_len(rows)));
        assert(p[j] == r[j]);
    }
}

/// The shape of every converted table block: its Markdown is empty exactly when no column was
/// found, and then one warning says why; otherwise every row of the table has
/// `column_count` cells, none is blank, the body holds all rows but the one
/// taken as header, and a warning is given exactly when the body is empty.
pub proof fn lemma_result_shape(block: Lines, first_row_is_header: bool)
    ensures
        ({
            let m = spec_parse_table_block(block, first_row_is_header);
            let rows = table_rows(block);
            &&& m.markdown.len() == 0 <==> m.column_count == 0
            &&& m.column_count == 0 ==> m.row_count == 0 && m.warnings.len() == 1
            &&& m.column_count > 0 ==> m.row_count + (if first_row_is_header {
                1int
            } else {
                0int
            }) == rows.len()
            &&& m.column_count > 0 ==> (m.warnings.len() > 0 <==> m.row_count == 0)
            &&& m.column_count > 0 ==> m.warnings.len() <= 1
            &&& m.column_count > 0 ==> forall|i: int|
                0 <= i < rows.len() ==> (#[trigger] rows[i]).len() == m.column_count
                    && row_has_content(rows[i])
        }),
{
    lemma_table_rows_shape(block);
    let m = spec_parse_table_block(block, first_row_is_header);
    let groups = spec_collect_row_groups(block);
    let rows = content_rows(groups.map_values(|g: Lines| crate::cells::spec_collapse_group(g)));
    if groups.len() > 0 && rows.len() > 0 {
        let padded = table_rows(block);
        let header = if first_row_is_header {
            padded[0]
        } else {
            crate::parser::generated_header(max_len(rows))
        };
        let body = if first_row_is_header {
            padded.drop_first()
        } else {
            padded
        };
        let tl = table_lines(header, body);
        assert(tl.last() == tl[tl.len() - 1]);
        assert(tl.len() >= 2);
        lemma_join_len(tl, seq!['\n']);
        if body.len() > 0 {
            assert(tl.last() == spec_render_row(body.last()));
        } else {
            assert(tl.last() == tl[1]);
        }
    }
}

/// Choosing the first row as header or a generated one changes the column
/// count of no block; with a generated header every row is a body row, so the
/// body never ends up empty.
pub proof fn lemma_header_choice(block: Lines)
    ensures
        ({
            let with_header = spec_parse_table_block(block, true);
            let generated = spec_parse_table_block(block, false);
            &&& with_header.column_count == generated.column_count
            &&& generated.column_count > 0 ==> generated.row_count == with_header.row_count + 1
            &&& generated.column_count > 0 ==> generated.warnings.len() == 0
        }),
{
    lemma_result_shape(block, true);
    lemma_result_shape(block, false);
}


proof fn lemma_groups_len(groups: Groups)
    requires
        forall|i: int| 0 <= i < groups.len() ==> (#[trigger] groups[i]).len() > 0,
    ensures
        groups.len() <= concat_all(groups).len(),
    decreases groups.len(),
{
    if groups.len() > 0 {
        lemma_groups_len(groups.drop_last());
        assert(groups[groups.len() - 1].len() > 0);
    }
}

proof fn lemma_cell_lines_len(lines: Lines)
    ensures
        cell_lines(lines).len() <= lines.len(),
    decreases lines.len(),
{
    if lines.len() > 0 {
        lemma_cell_lines_len(lines.drop_last());
    }
}

/// A table has no more body rows than lines.
pub proof fn lemma_block_rows_bound(block: Lines, first_row_is_header: bool)
    ensures
        spec_parse_table_block(block, first_row_is_header).row_count <= block.len(),
{
    let groups = spec_collect_row_groups(block);
    lemma_row_groups_partition_content_lines(block);
    lemma_groups_len(groups);
    lemma_cell_lines_len(trimmed_lines(block));
    lemma_content_rows(groups.map_values(|g: Lines| crate::cells::spec_collapse_group(g)));
    lemma_table_rows_shape(block);
}


/// `str::replace("\\|", "|")`: every backslash directly before a pipe removed.
/// (Two such pairs cannot overlap, so reading from either end gives the same.)
pub open spec fn spec_unescape(s: Seq<char>) -> Seq<char>
    decreases s.len(),
{
    if s.len() == 0 {
        Seq::empty()
    } else if s.len() >= 2 && s.last() == '|' && s[s.len() - 2] == '\\' {
        spec_unescape(s.take(s.len() - 2)).push('|')
    } else {
        spec_unescape(s.drop_last()).push(s.last())
    }
}

/// Escaping loses nothing: removing the backslash before each pipe gives the
/// cell back; the escaped cell is longer by one character per pipe and holds
/// as many pipes as the cell.
pub proof fn lemma_escape_round_trip(cell: Seq<char>)
    ensures
        spec_unescape(spec_escape(cell)) == cell,
        spec_escape(cell).len() == cell.len() + crate::text::count_of(cell, '|'),
        crate::text::count_of(spec_escape(cell), '|') == crate::text::count_of(cell, '|'),
    decreases cell.len(),
{
    if cell.len() > 0 {
        let init = cell.drop_last();
        lemma_escape_round_trip(init);
        let e0 = spec_escape(init);
        let e = spec_escape(cell);
        let tail = if cell.last() == '|' {
            seq!['\\', '|']
        } else {
            seq![cell.last()]
        };
        assert(e == e0 + tail);
        crate::layout::lemma_count_concat(e0, tail, '|');
        if cell.last() == '|' {
            assert(e.take(e.len() - 2) =~= e0);
            assert(tail.drop_last() =~= seq!['\\']);
            assert(seq!['\\'].drop_last() =~= Seq::<char>::empty());
            assert(crate::text::count_of(Seq::<char>::empty(), '|') == 0);
            assert(crate::text::count_of(seq!['\\'], '|') == 0);
        } else {
            assert(e.drop_last() =~= e0);
            assert(tail.drop_last() =~= Seq::<char>::empty());
            assert(crate::text::count_of(Seq::<char>::empty(), '|') == 0);
        }
        assert(init.push(cell.last()) =~= cell);
    }
}


/// How the two header choices render the same table: with a generated header
/// the first line is `| Column 1 | ... |`, the `---` line is the same, and the
/// first row moves down to open the body; the rest is unchanged. A block that
/// yields no table gives the same result either way.
pub proof fn lemma_header_choice_lines(block: Lines)
    ensures
        ({
            let a = spec_parse_table_block(block, true);
            let b = spec_parse_table_block(block, false);
            let rows = table_rows(block);
            let w = a.column_count;
            let lines_a = table_lines(rows[0], rows.drop_first());
            let lines_b = table_lines(generated_header(w), rows);
            &&& w == 0 ==> b == a
            &&& w > 0 ==> {
                &&& a.markdown == spec_join(lines_a, seq!['\n'])
                &&& b.markdown == spec_join(lines_b, seq!['\n'])
                &&& lines_b[0] == spec_render_row(generated_header(w))
                &&& lines_b[1] == lines_a[1]
                &&& lines_b.skip(2) == seq![lines_a[0]] + lines_a.skip(2)
            }
        }),
{
    lemma_table_rows_shape(block);
    lemma_result_shape(block, true);
    let a = spec_parse_table_block(block, true);
    let rows = table_rows(block);
    let w = a.column_count;
    if w > 0 {
        let lines_a = table_lines(rows[0], rows.drop_first());
        let lines_b = table_lines(generated_header(w), rows);
        assert(rows[0].len() == w);
        assert(generated_header(w).len() == w);
        assert(lines_b[1] == spec_render_row(separator_cells(w)));
        assert(lines_a[1] == spec_render_row(separator_cells(rows[0].len())));
        assert(lines_b.skip(2) =~= seq![lines_a[0]] + lines_a.skip(2));
    }
}


/// The separator lines, spelled out character by character: apart from white
/// space, only `+`, `-`, `=`, `:` and box-drawing characters (`U+2500` to
/// `U+257F`); at least one stroke (`-`, `=`, or one of `─ ━ ═ ╌ ╍ ┄ ┅ ┈ ┉`);
/// and at least one `+` or box-drawing character.
pub proof fn lemma_separator_lines(line: Seq<char>)
    ensures
        crate::classify::spec_is_horizontal_rule(line) <==> {
            &&& forall|i: int|
                0 <= i < line.len() && !crate::chars::spec_is_whitespace(#[trigger] line[i]) ==> {
                    ||| line[i] == '+'
                    ||| line[i] == '-'
                    ||| line[i] == '='
                    ||| line[i] == ':'
                    ||| 0x2500 <= (line[i] as u32) <= 0x257f
                }
            &&& exists|i: int|
                0 <= i < line.len() && {
                    ||| #[trigger] line[i] == '-'
                    ||| line[i] == '='
                    ||| line[i] == '─'
                    ||| line[i] == '━'
                    ||| line[i] == '═'
                    ||| line[i] == '╌'
                    ||| line[i] == '╍'
                    ||| line[i] == '┄'
                    ||| line[i] == '┅'
                    ||| line[i] == '┈'
                    ||| line[i] == '┉'
                }
            &&& exists|i: int|
                0 <= i < line.len() && (#[trigger] line[i] == '+' || 0x2500 <= (line[i] as u32)
                    <= 0x257f)
        },
{
    let strokes = exists|i: int|
        0 <= i < line.len() && {
            ||| #[trigger] line[i] == '-'
            ||| line[i] == '='
            ||| line[i] == '─'
            ||| line[i] == '━'
            ||| line[i] == '═'
            ||| line[i] == '╌'
            ||| line[i] == '╍'
            ||| line[i] == '┄'
            ||| line[i] == '┅'
            ||| line[i] == '┈'
            ||| line[i] == '┉'
        };
    let joints = exists|i: int|
        0 <= i < line.len() && (#[trigger] line[i] == '+' || 0x2500 <= (line[i] as u32) <= 0x257f);
    let stroke_spec = exists|i: int| 0 <= i < line.len() && #[trigger] crate::classify::is_rule_stroke(line[i]);
    let joint_spec = exists|i: int| 0 <= i < line.len() && #[trigger] crate::classify::is_rule_joint(line[i]);
    if stroke_spec {
        let i = choose|i: int| 0 <= i < line.len() && #[trigger] crate::classify::is_rule_stroke(line[i]);
        assert(line[i] == line[i]);
    }
    if strokes {
        let i = choose|i: int|
            0 <= i < line.len() && {
                ||| #[trigger] line[i] == '-'
                ||| line[i] == '='
                ||| line[i] == '─'
                ||| line[i] == '━'
                ||| line[i] == '═'
                ||| line[i] == '╌'
                ||| line[i] == '╍'
                ||| line[i] == '┄'
                ||| line[i] == '┅'
                ||| line[i] == '┈'
                ||| line[i] == '┉'
            };
        assert(crate::classify::is_rule_stroke(line[i]));
    }
    if joint_spec {
        let i = choose|i: int| 0 <= i < line.len() && #[trigger] crate::classify::is_rule_joint(line[i]);
        assert(line[i] == line[i]);
    }
    if joints {
        let i = choose|i: int|
            0 <= i < line.len() && (#[trigger] line[i] == '+' || 0x2500 <= (line[i] as u32) <= 0x257f);
        assert(crate::classify::is_rule_joint(line[i]));
    }
}


proof fn lemma_count_front(s: Seq<char>, d: char)
    requires
        s.len() > 0,
        s[0] == d,
    ensures
        crate::text::count_of(s, d) >= 1,
    decreases s.len(),
{
    if s.len() == 1 {
        assert(s.drop_last() =~= Seq::<char>::empty());
    } else {
        assert(s.drop_last()[0] == s[0]);
        lemma_count_front(s.drop_last(), d);
    }
}

/// The content lines, spelled out: a line is delimited by `|`, `│`, `┃` or `║`
/// exactly when it is at least two characters long and starts and ends with
/// that bar; the bars are tried in that order.
pub proof fn lemma_content_lines(line: Seq<char>)
    ensures
        ({
            let bars = seq!['|', '│', '┃', '║'];
            let delimits = |d: char| line.len() >= 2 && line[0] == d && line.last() == d;
            &&& crate::classify::spec_detect_cell_delimiter(line) matches Some(d) ==> {
                &&& delimits(d)
                &&& exists|i: int| 0 <= i < 4 && bars[i] == d && forall|j: int|
                    0 <= j < i ==> !delimits(#[trigger] bars[j])
            }
            &&& crate::classify::spec_detect_cell_delimiter(line) is None ==> forall|i: int|
                0 <= i < 4 ==> !delimits(#[trigger] bars[i])
        }),
{
    let bars = seq!['|', '│', '┃', '║'];
    assert(bars[0] == '|' && bars[1] == '│' && bars[2] == '┃' && bars[3] == '║');
    if line.len() >= 2 {
        lemma_count_front(line.drop_last(), line[0]);
        assert(line.drop_last()[0] == line[0]);
    }
    if line.len() == 1 {
        assert(line.drop_last() =~= Seq::<char>::empty());
        assert(crate::text::count_of(Seq::<char>::empty(), line[0]) == 0);
    }
    match crate::classify::spec_detect_cell_delimiter(line) {
        Some(d) => {
            if d == '|' {
                assert(bars[0] == d);
            } else if d == '│' {
                assert(bars[1] == d);
            } else if d == '┃' {
                assert(bars[2] == d);
            } else {
                assert(bars[3] == d);
            }
        },
        None => {},
    }
}

} // verus!
