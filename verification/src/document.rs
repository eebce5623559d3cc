use vstd::prelude::*;

use crate::classify::{is_cell_line, is_horizontal_rule, spec_is_cell_line, spec_is_horizontal_rule};
use crate::groups::Lines;
use crate::parser::{no_rows_warning, parse_table_block, spec_parse_table_block, ParsedTable};
use crate::text::{
    chars_of, copy_chars, join, lemma_nested_view_push, nested_view, spec_join, spec_lines,
    spec_trim, split_lines, string_from_chars, trim,
};

verus! {

// ---------------------------------------------------------------------------
// Segments: table blocks and lines kept as they are
// ---------------------------------------------------------------------------
/// One piece of a document: a line kept as it is, or the lines of one table.
pub enum Segment {
    /// A heading, prose or blank line.
    Text(Vec<char>),
    /// A run of consecutive table lines.
    Table(Vec<Vec<char>>),
}

/// The mathematical content of a `Segment`.
pub enum SegmentModel {
    Text(Seq<char>),
    Table(Lines),
}

impl View for Segment {
    type V = SegmentModel;

    open spec fn view(&self) -> SegmentModel {
        match self {
            Segment::Text(line) => SegmentModel::Text(line@),
            Segment::Table(block) => SegmentModel::Table(nested_view(block@)),
        }
    }
}

/// The segments held by a vector of segments.
pub open spec fn segments_view(v: Seq<Segment>) -> Seq<SegmentModel> {
    v.map_values(|s: Segment| s@)
}

/// A line that belongs to a table: once trimmed, a separator line or a content
/// line.
pub open spec fn spec_is_table_line(line: Seq<char>) -> bool {
    spec_is_horizontal_rule(spec_trim(line)) || spec_is_cell_line(spec_trim(line))
}

/// The lines of a table segment; none for a text segment.
pub open spec fn block_of(seg: SegmentModel) -> Lines {
    match seg {
        SegmentModel::Table(block) => block,
        SegmentModel::Text(_) => Seq::empty(),
    }
}

/// The document cut into segments: each run of consecutive table lines is one
/// table segment, every other line a text segment of its own, in order.
pub open spec fn spec_split_segments(lines: Lines) -> Seq<SegmentModel>
    decreases lines.len(),
{
    if lines.len() == 0 {
        Seq::empty()
    } else {
        let segs = spec_split_segments(lines.drop_last());
        let l = lines.last();
        if spec_is_table_line(l) {
            if segs.len() > 0 && segs.last() is Table {
                segs.update(segs.len() - 1, SegmentModel::Table(block_of(segs.last()).push(l)))
            } else {
                segs.push(SegmentModel::Table(seq![l]))
            }
        } else {
            segs.push(SegmentModel::Text(l))
        }
    }
}

/// `segs` with the open table block added, if it holds any line.
pub open spec fn with_open_block(segs: Seq<SegmentModel>, block: Lines) -> Seq<SegmentModel> {
    if block.len() > 0 {
        segs.push(SegmentModel::Table(block))
    } else {
        segs
    }
}

/// Whether `line` belongs to a table (see `spec_is_table_line`).
pub fn is_table_line(line: &[char]) -> (res: bool)
    ensures
        res == spec_is_table_line(line@),
{
    let trimmed = trim(line);
    is_horizontal_rule(trimmed.as_slice()) || is_cell_line(trimmed.as_slice())
}

/// Cuts the lines of a document into table blocks and text lines (see
/// `spec_split_segments`).
pub fn split_segments(lines: &Vec<Vec<char>>) -> (res: Vec<Segment>)
    ensures
        segments_view(res@) == spec_split_segments(nested_view(lines@)),
{
    let ghost lv = nested_view(lines@);
    let mut out: Vec<Segment> = Vec::new();
    let mut block: Vec<Vec<char>> = Vec::new();
    let mut i: usize = 0;
    assert(lv.take(0) =~= Seq::<Seq<char>>::empty());
    assert(segments_view(out@) =~= Seq::<SegmentModel>::empty());
    while i < lines.len()
        invariant
            i <= lines@.len(),
            lv == nested_view(lines@),
            with_open_block(segments_view(out@), nested_view(block@)) == spec_split_segments(
                lv.take(i as int),
            ),
            block@.len() == 0 ==> segments_view(out@).len() == 0 || !(segments_view(
                out@,
            ).last() is Table),
        decreases lines@.len() - i,
    {
        assert(lv.take(i + 1).drop_last() =~= lv.take(i as int));
        assert(lv.take(i + 1).last() == lines@[i as int]@);
        let ghost before = segments_view(out@);
        let ghost block_before = nested_view(block@);
        let line = copy_chars(lines[i].as_slice());
        if is_table_line(line.as_slice()) {
            proof {
                lemma_nested_view_push(block@, line);
            }
            block.push(line);
            proof {
                if block_before.len() > 0 {
                    assert(with_open_block(before, block_before).last() == SegmentModel::Table(
                        block_before,
                    ));
                    assert(with_open_block(before, nested_view(block@)) =~= with_open_block(
                        before,
                        block_before,
                    ).update(before.len() as int, SegmentModel::Table(block_before.push(line@))));
                } else {
                    assert(nested_view(block@) =~= seq![line@]);
                }
            }
        } else {
            if block.len() > 0 {
                let mut taken: Vec<Vec<char>> = Vec::new();
                std::mem::swap(&mut taken, &mut block);
                out.push(Segment::Table(taken));
                assert(segments_view(out@) =~= before.push(SegmentModel::Table(block_before)));
            }
            let ghost mid = segments_view(out@);
            out.push(Segment::Text(line));
            assert(segments_view(out@) =~= mid.push(SegmentModel::Text(line@)));
            assert(nested_view(block@) =~= Seq::<Seq<char>>::empty());
        }
        i = i + 1;
    }
    assert(lv.take(lines@.len() as int) =~= lv);
    if block.len() > 0 {
        let ghost before = segments_view(out@);
        out.push(Segment::Table(block));
        assert(segments_view(out@) =~= before.push(SegmentModel::Table(nested_view(block@))));
    }
    out
}

// ---------------------------------------------------------------------------
// Tidying blank lines
// ---------------------------------------------------------------------------
/// A line with nothing but white space.
pub open spec fn is_blank(line: Seq<char>) -> bool {
    spec_trim(line).len() == 0
}

/// `lines` without leading blank lines and with each run of blank lines cut
/// down to its first line.
pub open spec fn collapse_blanks(lines: Lines) -> Lines
    decreases lines.len(),
{
    if lines.len() == 0 {
        Seq::empty()
    } else {
        let init = collapse_blanks(lines.drop_last());
        let l = lines.last();
        if is_blank(l) && (init.len() == 0 || is_blank(init.last())) {
            init
        } else {
            init.push(l)
        }
    }
}

/// `lines` with no blank line at either end and no two blank lines in a row.
pub open spec fn spec_tidy(lines: Lines) -> Lines {
    let c = collapse_blanks(lines);
    if c.len() > 0 && is_blank(c.last()) {
        c.drop_last()
    } else {
        c
    }
}

/// Strips leading and trailing blank lines and collapses runs of blank lines
/// into one (see `spec_tidy`).
pub fn tidy_blank_lines(lines: &Vec<Vec<char>>) -> (res: Vec<Vec<char>>)
    ensures
        nested_view(res@) == spec_tidy(nested_view(lines@)),
{
    let ghost lv = nested_view(lines@);
    let mut out: Vec<Vec<char>> = Vec::new();
    let mut last_blank = false;
    let mut i: usize = 0;
    assert(lv.take(0) =~= Seq::<Seq<char>>::empty());
    assert(nested_view(out@) =~= Seq::<Seq<char>>::empty());
    while i < lines.len()
        invariant
            i <= lines@.len(),
            lv == nested_view(lines@),
            nested_view(out@) == collapse_blanks(lv.take(i as int)),
            last_blank == (out@.len() > 0 && is_blank(nested_view(out@).last())),
        decreases lines@.len() - i,
    {
        assert(lv.take(i + 1).drop_last() =~= lv.take(i as int));
        assert(lv.take(i + 1).last() == lines@[i as int]@);
        let blank = trim(lines[i].as_slice()).len() == 0;
        if !(blank && (out.len() == 0 || last_blank)) {
            let line = copy_chars(lines[i].as_slice());
            proof {
                lemma_nested_view_push(out@, line);
            }
            out.push(line);
            last_blank = blank;
        }
        i = i + 1;
    }
    assert(lv.take(lines@.len() as int) =~= lv);
    if last_blank {
        let ghost before = nested_view(out@);
        out.pop();
        assert(nested_view(out@) =~= before.drop_last());
    }
    out
}

// ---------------------------------------------------------------------------
// The whole document
// ---------------------------------------------------------------------------
/// Whether a segment reaches the output: a text line always, a table block
/// only when it yields a table.
pub open spec fn contributes(seg: SegmentModel, first_row_is_header: bool) -> bool {
    match seg {
        SegmentModel::Text(_) => true,
        SegmentModel::Table(block) => spec_parse_table_block(
            block,
            first_row_is_header,
        ).markdown.len() > 0,
    }
}

/// The segments that reach the output, in order.
pub open spec fn kept_segments(segs: Seq<SegmentModel>, first_row_is_header: bool) -> Seq<
    SegmentModel,
>
    decreases segs.len(),
{
    if segs.len() == 0 {
        Seq::empty()
    } else {
        let init = kept_segments(segs.drop_last(), first_row_is_header);
        if contributes(segs.last(), first_row_is_header) {
            init.push(segs.last())
        } else {
            init
        }
    }
}

/// What a segment becomes: a text line stays as it is; a table block becomes
/// its Markdown table.
pub open spec fn segment_output(seg: SegmentModel, first_row_is_header: bool) -> Seq<char> {
    match seg {
        SegmentModel::Text(line) => line,
        SegmentModel::Table(block) => spec_parse_table_block(block, first_row_is_header).markdown,
    }
}

/// The total of the body rows of the table segments.
pub open spec fn rows_total(segs: Seq<SegmentModel>, first_row_is_header: bool) -> nat
    decreases segs.len(),
{
    if segs.len() == 0 {
        0
    } else {
        rows_total(segs.drop_last(), first_row_is_header) + match segs.last() {
            SegmentModel::Table(block) => spec_parse_table_block(
                block,
                first_row_is_header,
            ).row_count,
            SegmentModel::Text(_) => 0,
        }
    }
}

/// The largest column count of the table segments, 0 when there is none.
pub open spec fn width_max(segs: Seq<SegmentModel>, first_row_is_header: bool) -> nat
    decreases segs.len(),
{
    if segs.len() == 0 {
        0
    } else {
        let m = width_max(segs.drop_last(), first_row_is_header);
        match segs.last() {
            SegmentModel::Table(block) => {
                let w = spec_parse_table_block(block, first_row_is_header).column_count;
                if w > m {
                    w
                } else {
                    m
                }
            },
            SegmentModel::Text(_) => m,
        }
    }
}

/// The warnings of the table segments, in order.
pub open spec fn warnings_all(segs: Seq<SegmentModel>, first_row_is_header: bool) -> Seq<
    Seq<char>,
>
    decreases segs.len(),
{
    if segs.len() == 0 {
        Seq::empty()
    } else {
        warnings_all(segs.drop_last(), first_row_is_header) + match segs.last() {
            SegmentModel::Table(block) => spec_parse_table_block(
                block,
                first_row_is_header,
            ).warnings,
            SegmentModel::Text(_) => Seq::empty(),
        }
    }
}

/// Whether some segment is a table block.
pub open spec fn has_table(segs: Seq<SegmentModel>) -> bool {
    exists|k: int| 0 <= k < segs.len() && #[trigger] segs[k] is Table
}

/// The segments of `input`.
pub open spec fn document_segments(input: Seq<char>) -> Seq<SegmentModel> {
    spec_split_segments(spec_lines(input))
}

/// What the segments of `input` become, before blank lines are tidied; a table
/// block that yields no table contributes nothing.
pub open spec fn document_items(input: Seq<char>, first_row_is_header: bool) -> Lines {
    kept_segments(document_segments(input), first_row_is_header).map_values(
        |s: SegmentModel| segment_output(s, first_row_is_header),
    )
}

/// What `parse_ascii_table` gives for `input`: each table block converted on
/// its own, every other line kept as it is, blank lines tidied, the pieces
/// joined with line breaks; the body rows of all tables counted, the widest
/// table's column count, and the tables' warnings, or the no-rows warning when
/// there is no table.
pub open spec fn spec_parse_ascii_table(input: Seq<char>, first_row_is_header: bool) -> crate::parser::TableModel {
    let segs = document_segments(input);
    crate::parser::TableModel {
        markdown: spec_join(spec_tidy(document_items(input, first_row_is_header)), seq!['\n']),
        row_count: rows_total(segs, first_row_is_header),
        column_count: width_max(segs, first_row_is_header),
        warnings: if has_table(segs) {
            warnings_all(segs, first_row_is_header)
        } else {
            seq![no_rows_warning()]
        },
    }
}

/// How many lines the segments hold.
pub open spec fn line_count(segs: Seq<SegmentModel>) -> nat
    decreases segs.len(),
{
    if segs.len() == 0 {
        0
    } else {
        line_count(segs.drop_last()) + match segs.last() {
            SegmentModel::Table(block) => block.len(),
            SegmentModel::Text(_) => 1,
        }
    }
}

/// Cutting a document into segments keeps the number of lines.
pub proof fn lemma_segments_line_count(lines: Lines)
    ensures
        line_count(spec_split_segments(lines)) == lines.len(),
    decreases lines.len(),
{
    if lines.len() > 0 {
        lemma_segments_line_count(lines.drop_last());
        let segs = spec_split_segments(lines.drop_last());
        if spec_is_table_line(lines.last()) && segs.len() > 0 && segs.last() is Table {
            let new = segs.update(segs.len() - 1, SegmentModel::Table(block_of(segs.last()).push(lines.last())));
            assert(new.drop_last() =~= segs.drop_last());
        } else {
            let l = lines.last();
            let new = spec_split_segments(lines);
            assert(new.drop_last() =~= segs);
        }
    }
}

proof fn lemma_line_count_prefix(segs: Seq<SegmentModel>, k: int)
    requires
        0 <= k <= segs.len(),
    ensures
        line_count(segs.take(k)) <= line_count(segs),
    decreases segs.len(),
{
    if k < segs.len() {
        lemma_line_count_prefix(segs.drop_last(), k);
        assert(segs.drop_last().take(k) =~= segs.take(k));
    } else {
        assert(segs.take(k) =~= segs);
    }
}

/// Converts every Unicode or ASCII box table of a document into a Markdown pipe
/// table.
///
/// The document is cut into table blocks (runs of consecutive table lines) and
/// other lines (headings, prose, blank lines). Each block is converted on its
/// own by `parse_table_block` (a block that yields no table contributes
/// nothing); the other lines are kept as they are; then
/// leading and trailing blank lines are stripped and runs of blank lines
/// collapsed into one.
pub fn parse_ascii_table(input: &str, first_row_is_header: bool) -> (res: ParsedTable)
    ensures
        res@ == spec_parse_ascii_table(input@, first_row_is_header),
{
    let ghost h = first_row_is_header;
    let chars = chars_of(input);
    let lines = split_lines(chars.as_slice());
    let segments = split_segments(&lines);
    let ghost sv = segments_view(segments@);
    proof {
        lemma_segments_line_count(nested_view(lines@));
    }
    let mut items: Vec<Vec<char>> = Vec::new();
    let mut row_count: usize = 0;
    let mut column_count: usize = 0;
    let mut warnings: Vec<String> = Vec::new();
    let mut found_table = false;
    let line_total = lines.len();
    let mut k: usize = 0;
    assert(sv.take(0) =~= Seq::<SegmentModel>::empty());
    assert(nested_view(items@) =~= Seq::<Seq<char>>::empty());
    assert(warnings@.map_values(|w: String| w@) =~= Seq::<Seq<char>>::empty());
    while k < segments.len()
        invariant
            k <= segments@.len(),
            h == first_row_is_header,
            sv == segments_view(segments@),
            sv == spec_split_segments(nested_view(lines@)),
            line_count(sv) == lines@.len(),
            line_total == lines@.len(),
            nested_view(items@) == kept_segments(sv.take(k as int), h).map_values(
                |s: SegmentModel| segment_output(s, h),
            ),
            row_count == rows_total(sv.take(k as int), h),
            row_count <= line_count(sv.take(k as int)),
            column_count == width_max(sv.take(k as int), h),
            warnings@.map_values(|w: String| w@) == warnings_all(sv.take(k as int), h),
            found_table == has_table(sv.take(k as int)),
        decreases segments@.len() - k,
    {
        let ghost pre = sv.take(k as int);
        assert(sv.take(k + 1).drop_last() =~= pre);
        assert(sv.take(k + 1).last() == sv[k as int]);
        proof {
            lemma_line_count_prefix(sv, k + 1);
        }
        let ghost items_before = nested_view(items@);
        let ghost warnings_before = warnings@;
        match &segments[k] {
            Segment::Text(line) => {
                let item = copy_chars(line.as_slice());
                proof {
                    lemma_nested_view_push(items@, item);
                }
                items.push(item);
            },
            Segment::Table(block) => {
                let table = parse_table_block(block, first_row_is_header);
                proof {
                    crate::laws::lemma_block_rows_bound(nested_view(block@), first_row_is_header);
                }
                assert(sv[k as int] == SegmentModel::Table(nested_view(block@)));
                assert(line_count(sv.take(k + 1)) == line_count(pre) + block@.len());
                row_count = row_count + table.row_count;
                if table.column_count > column_count {
                    column_count = table.column_count;
                }
                let markdown = chars_of(table.markdown.as_str());
                if markdown.len() > 0 {
                    proof {
                        lemma_nested_view_push(items@, markdown);
                    }
                    items.push(markdown);
                }
                let mut more = table.warnings;
                let ghost more_view = more@;
                warnings.append(&mut more);
                assert(warnings@.map_values(|w: String| w@) =~= warnings_before.map_values(
                    |w: String| w@,
                ) + more_view.map_values(|w: String| w@));
                if !found_table {
                    assert(sv.take(k + 1)[k as int] is Table);
                }
                found_table = true;
            },
        }
        proof {
            if has_table(sv.take(k + 1)) && !(sv[k as int] is Table) {
                let j = choose|j: int| 0 <= j < k + 1 && #[trigger] sv.take(k + 1)[j] is Table;
                assert(pre[j] is Table);
            }
            if has_table(pre) {
                let j = choose|j: int| 0 <= j < k && #[trigger] pre[j] is Table;
                assert(sv.take(k + 1)[j] is Table);
            }
        }
        k = k + 1;
        assert(nested_view(items@) =~= kept_segments(sv.take(k as int), h).map_values(
            |s: SegmentModel| segment_output(s, h),
        ));
    }
    assert(sv.take(segments@.len() as int) =~= sv);
    if !found_table {
        let mut only: Vec<String> = Vec::new();
        only.push("No ASCII table rows were found.".to_string());
        warnings = only;
        assert(warnings@.map_values(|w: String| w@) =~= seq![no_rows_warning()]);
    }
    let tidied = tidy_blank_lines(&items);
    let mut nl: Vec<char> = Vec::new();
    nl.push('\n');
    assert(nl@ =~= seq!['\n']);
    let markdown = join(&tidied, nl.as_slice());
    ParsedTable { markdown: string_from_chars(markdown.as_slice()), row_count, column_count, warnings }
}


// ---------------------------------------------------------------------------
// What every conversion keeps
// ---------------------------------------------------------------------------
/// The lines that are not blank, in order.
pub open spec fn nonblank(lines: Lines) -> Lines
    decreases lines.len(),
{
    if lines.len() == 0 {
        Seq::empty()
    } else if is_blank(lines.last()) {
        nonblank(lines.drop_last())
    } else {
        nonblank(lines.drop_last()).push(lines.last())
    }
}

/// The lines that do not belong to a table, in order.
pub open spec fn non_table_lines(lines: Lines) -> Lines
    decreases lines.len(),
{
    if lines.len() == 0 {
        Seq::empty()
    } else if spec_is_table_line(lines.last()) {
        non_table_lines(lines.drop_last())
    } else {
        non_table_lines(lines.drop_last()).push(lines.last())
    }
}

/// The lines of the text segments, in order.
pub open spec fn text_lines(segs: Seq<SegmentModel>) -> Lines
    decreases segs.len(),
{
    if segs.len() == 0 {
        Seq::empty()
    } else {
        match segs.last() {
            SegmentModel::Text(line) => text_lines(segs.drop_last()).push(line),
            SegmentModel::Table(_) => text_lines(segs.drop_last()),
        }
    }
}

/// The lines of all segments, one segment after the other.
pub open spec fn segment_lines(segs: Seq<SegmentModel>) -> Lines
    decreases segs.len(),
{
    if segs.len() == 0 {
        Seq::empty()
    } else {
        segment_lines(segs.drop_last()) + match segs.last() {
            SegmentModel::Text(line) => seq![line],
            SegmentModel::Table(block) => block,
        }
    }
}

/// Cutting a document into segments loses, adds and reorders no line: the
/// segments, read one after the other, are the lines; the text segments are
/// exactly the lines outside tables; every table block is non-empty and made of
/// table lines.
pub proof fn lemma_segments_cover_lines(lines: Lines)
    ensures
        segment_lines(spec_split_segments(lines)) == lines,
        text_lines(spec_split_segments(lines)) == non_table_lines(lines),
        forall|k: int|
            0 <= k < spec_split_segments(lines).len() ==> {
                let seg = #[trigger] spec_split_segments(lines)[k];
                &&& seg is Text ==> !spec_is_table_line(seg->Text_0)
                &&& seg is Table ==> seg->Table_0.len() > 0 && forall|j: int|
                    0 <= j < seg->Table_0.len() ==> spec_is_table_line(#[trigger] seg->Table_0[j])
            },
    decreases lines.len(),
{
    if lines.len() > 0 {
        let init = lines.drop_last();
        lemma_segments_cover_lines(init);
        let segs = spec_split_segments(init);
        let l = lines.last();
        let new = spec_split_segments(lines);
        if spec_is_table_line(l) {
            if segs.len() > 0 && segs.last() is Table {
                let b = block_of(segs.last());
                assert(new.drop_last() =~= segs.drop_last());
                assert(segment_lines(segs) == segment_lines(segs.drop_last()) + b);
                assert(segment_lines(new) =~= segment_lines(segs) + seq![l]);
                assert(init.push(l) =~= lines);
                assert(text_lines(segs) == text_lines(segs.drop_last()));
                assert forall|k: int| 0 <= k < new.len() implies {
                    let seg = #[trigger] new[k];
                    &&& seg is Text ==> !spec_is_table_line(seg->Text_0)
                    &&& seg is Table ==> seg->Table_0.len() > 0 && forall|j: int|
                        0 <= j < seg->Table_0.len() ==> spec_is_table_line(#[trigger] seg->Table_0[j])
                } by {
                    if k < segs.len() - 1 {
                        assert(new[k] == segs[k]);
                    } else {
                        let last = segs[segs.len() - 1];
                        assert forall|j: int| 0 <= j < b.push(l).len() implies spec_is_table_line(
                            #[trigger] b.push(l)[j],
                        ) by {
                            if j < b.len() {
                                assert(last->Table_0[j] == b[j]);
                            }
                        }
                    }
                }
            } else {
                assert(new.drop_last() =~= segs);
                assert(segment_lines(new) =~= segment_lines(segs) + seq![l]);
                assert(init.push(l) =~= lines);
            }
        } else {
            assert(new.drop_last() =~= segs);
            assert(segment_lines(new) =~= segment_lines(segs) + seq![l]);
            assert(init.push(l) =~= lines);
        }
    }
}

proof fn lemma_collapse_blanks(lines: Lines)
    ensures
        nonblank(collapse_blanks(lines)) == nonblank(lines),
        collapse_blanks(lines).len() > 0 ==> !is_blank(collapse_blanks(lines)[0]),
        forall|i: int|
            0 < i < collapse_blanks(lines).len() && is_blank(#[trigger] collapse_blanks(lines)[i])
                ==> !is_blank(collapse_blanks(lines)[i - 1]),
    decreases lines.len(),
{
    if lines.len() > 0 {
        lemma_collapse_blanks(lines.drop_last());
        let init = collapse_blanks(lines.drop_last());
        let l = lines.last();
        if !(is_blank(l) && (init.len() == 0 || is_blank(init.last()))) {
            assert(init.push(l).drop_last() =~= init);
            let c = init.push(l);
            assert forall|i: int| 0 < i < c.len() && is_blank(#[trigger] c[i]) implies !is_blank(
                c[i - 1],
            ) by {
                if i < init.len() {
                    assert(c[i] == init[i]);
                }
            }
        }
    }
}

/// Tidying removes blank lines only, never a line with content, and leaves no
/// blank line at either end and no two blank lines in a row.
pub proof fn lemma_tidy(lines: Lines)
    ensures
        nonblank(spec_tidy(lines)) == nonblank(lines),
        spec_tidy(lines).len() > 0 ==> !is_blank(spec_tidy(lines)[0]) && !is_blank(
            spec_tidy(lines).last(),
        ),
        forall|i: int|
            0 < i < spec_tidy(lines).len() && is_blank(#[trigger] spec_tidy(lines)[i])
                ==> !is_blank(spec_tidy(lines)[i - 1]),
{
    lemma_collapse_blanks(lines);
    let c = collapse_blanks(lines);
    if c.len() > 0 && is_blank(c.last()) {
        assert(nonblank(c) == nonblank(c.drop_last()));
        let t = c.drop_last();
        if t.len() > 0 {
            assert(!is_blank(c[c.len() - 2]) || c.len() - 1 == 0);
            assert(t.last() == c[c.len() - 2]);
            assert(t[0] == c[0]);
        }
        assert forall|i: int| 0 < i < t.len() && is_blank(#[trigger] t[i]) implies !is_blank(t[i - 1]) by {
            assert(t[i] == c[i]);
        }
    }
}

proof fn lemma_kept_segments(segs: Seq<SegmentModel>, h: bool)
    ensures
        text_lines(kept_segments(segs, h)) == text_lines(segs),
        forall|k: int|
            0 <= k < kept_segments(segs, h).len() && (#[trigger] kept_segments(segs, h)[k]) is Text
                ==> kept_segments(segs, h).map_values(|s: SegmentModel| segment_output(s, h))[k]
                == kept_segments(segs, h)[k]->Text_0,
    decreases segs.len(),
{
    if segs.len() > 0 {
        lemma_kept_segments(segs.drop_last(), h);
        let init = kept_segments(segs.drop_last(), h);
        if contributes(segs.last(), h) {
            assert(init.push(segs.last()).drop_last() =~= init);
        }
    }
}

/// Headings and prose are kept: the lines outside tables, in order, are
/// exactly the text segments that reach the output; each is passed on as it
/// is; and tidying drops only blank lines. The Markdown is the tidied pieces
/// joined with line breaks.
pub proof fn lemma_prose_kept(input: Seq<char>, first_row_is_header: bool)
    ensures
        text_lines(kept_segments(document_segments(input), first_row_is_header)) == non_table_lines(
            spec_lines(input),
        ),
        forall|k: int|
            0 <= k < kept_segments(document_segments(input), first_row_is_header).len() && (
            #[trigger] kept_segments(document_segments(input), first_row_is_header)[k]) is Text
                ==> document_items(input, first_row_is_header)[k] == kept_segments(
                document_segments(input),
                first_row_is_header,
            )[k]->Text_0,
        nonblank(spec_tidy(document_items(input, first_row_is_header))) == nonblank(
            document_items(input, first_row_is_header),
        ),
        spec_parse_ascii_table(input, first_row_is_header).markdown == spec_join(
            spec_tidy(document_items(input, first_row_is_header)),
            seq!['\n'],
        ),
{
    lemma_segments_cover_lines(spec_lines(input));
    lemma_kept_segments(document_segments(input), first_row_is_header);
    lemma_tidy(document_items(input, first_row_is_header));
}

proof fn lemma_no_table_segments(lines: Lines)
    requires
        forall|i: int| 0 <= i < lines.len() ==> !spec_is_table_line(#[trigger] lines[i]),
    ensures
        spec_split_segments(lines) == lines.map_values(|l: Seq<char>| SegmentModel::Text(l)),
    decreases lines.len(),
{
    if lines.len() > 0 {
        let init = lines.drop_last();
        assert forall|i: int| 0 <= i < init.len() implies !spec_is_table_line(#[trigger] init[i]) by {
            assert(init[i] == lines[i]);
        }
        lemma_no_table_segments(init);
        assert(!spec_is_table_line(lines[lines.len() - 1]));
        assert(lines.map_values(|l: Seq<char>| SegmentModel::Text(l)) =~= init.map_values(
            |l: Seq<char>| SegmentModel::Text(l),
        ).push(SegmentModel::Text(lines.last())));
    }
}

/// A document without any table line comes out as its own lines, blank lines
/// tidied, with the no-rows warning.
pub proof fn lemma_document_without_table(input: Seq<char>, first_row_is_header: bool)
    requires
        forall|i: int|
            0 <= i < spec_lines(input).len() ==> !spec_is_table_line(#[trigger] spec_lines(input)[i]),
    ensures
        spec_parse_ascii_table(input, first_row_is_header).markdown == spec_join(
            spec_tidy(spec_lines(input)),
            seq!['\n'],
        ),
        spec_parse_ascii_table(input, first_row_is_header).row_count == 0,
        spec_parse_ascii_table(input, first_row_is_header).warnings == seq![no_rows_warning()],
{
    let lines = spec_lines(input);
    lemma_no_table_segments(lines);
    let segs = document_segments(input);
    lemma_kept_all_text(segs, first_row_is_header);
    assert(document_items(input, first_row_is_header) =~= lines);
    assert(!has_table(segs));
    lemma_no_table_rows(segs, first_row_is_header);
}

proof fn lemma_kept_all_text(segs: Seq<SegmentModel>, h: bool)
    requires
        forall|k: int| 0 <= k < segs.len() ==> (#[trigger] segs[k]) is Text,
    ensures
        kept_segments(segs, h) == segs,
    decreases segs.len(),
{
    if segs.len() > 0 {
        assert forall|k: int| 0 <= k < segs.drop_last().len() implies (#[trigger] segs.drop_last()[k]) is Text by {
            assert(segs.drop_last()[k] == segs[k]);
        }
        lemma_kept_all_text(segs.drop_last(), h);
        assert(segs[segs.len() - 1] is Text);
        assert(segs.drop_last().push(segs.last()) =~= segs);
    }
}

proof fn lemma_no_table_rows(segs: Seq<SegmentModel>, h: bool)
    requires
        !has_table(segs),
    ensures
        rows_total(segs, h) == 0,
    decreases segs.len(),
{
    if segs.len() > 0 {
        assert(!(segs[segs.len() - 1] is Table));
        assert(!has_table(segs.drop_last())) by {
            if has_table(segs.drop_last()) {
                let k = choose|k: int| 0 <= k < segs.drop_last().len() && #[trigger] segs.drop_last()[k] is Table;
                assert(segs[k] is Table);
            }
        }
        lemma_no_table_rows(segs.drop_last(), h);
    }
}


proof fn lemma_nonblank_ends(s: Lines)
    requires
        s.len() > 0,
        !is_blank(s[0]),
    ensures
        nonblank(s).len() >= 1,
        nonblank(s)[0] == s[0],
        s.len() >= 2 && !is_blank(s.last()) ==> nonblank(s).len() >= 2,
    decreases s.len(),
{
    if s.len() == 1 {
        assert(s.drop_last() =~= Seq::<Seq<char>>::empty());
    } else {
        assert(s.drop_last()[0] == s[0]);
        lemma_nonblank_ends(s.drop_last());
    }
}

/// Tidying pieces of which at most one has content leaves that piece alone.
proof fn lemma_tidy_at_most_one(items: Lines, x: Seq<char>)
    ensures
        nonblank(items) == Seq::<Seq<char>>::empty() ==> spec_tidy(items) == Seq::<Seq<char>>::empty(),
        nonblank(items) == seq![x] ==> spec_tidy(items) == seq![x],
{
    lemma_tidy(items);
    let t = spec_tidy(items);
    if t.len() > 0 {
        lemma_nonblank_ends(t);
    }
    if nonblank(items) == Seq::<Seq<char>>::empty() {
        assert(t =~= Seq::<Seq<char>>::empty());
    }
    if nonblank(items) == seq![x] {
        if t.len() == 0 {
            assert(nonblank(t) =~= Seq::<Seq<char>>::empty());
        }
        assert(t.len() == 1);
        assert(t =~= seq![x]);
    }
}

/// Whether the segments are one table block, at index `k`, and otherwise
/// blank lines only.
pub open spec fn lone_table(segs: Seq<SegmentModel>, k: int) -> bool {
    &&& 0 <= k < segs.len()
    &&& segs[k] is Table
    &&& forall|j: int|
        0 <= j < segs.len() && j != k ==> (#[trigger] segs[j]) is Text && is_blank(segs[j]->Text_0)
}

proof fn lemma_lone_prefix(segs: Seq<SegmentModel>, h: bool, k: int, n: int)
    requires
        lone_table(segs, k),
        0 <= n <= segs.len(),
    ensures
        ({
            let p = segs.take(n);
            let t = spec_parse_table_block(segs[k]->Table_0, h);
            &&& nonblank(kept_segments(p, h).map_values(|s: SegmentModel| segment_output(s, h)))
                == (if n > k && t.markdown.len() > 0 {
                seq![t.markdown]
            } else {
                Seq::<Seq<char>>::empty()
            })
            &&& rows_total(p, h) == (if n > k {
                t.row_count
            } else {
                0
            })
            &&& width_max(p, h) == (if n > k {
                t.column_count
            } else {
                0
            })
            &&& warnings_all(p, h) == (if n > k {
                t.warnings
            } else {
                Seq::<Seq<char>>::empty()
            })
            &&& has_table(p) == (n > k)
        }),
    decreases n,
{
    let t = spec_parse_table_block(segs[k]->Table_0, h);
    let p = segs.take(n);
    if n == 0 {
        assert(p =~= Seq::<SegmentModel>::empty());
        assert(kept_segments(p, h).map_values(|s: SegmentModel| segment_output(s, h))
            =~= Seq::<Seq<char>>::empty());
    } else {
        lemma_lone_prefix(segs, h, k, n - 1);
        let q = segs.take(n - 1);
        assert(p.drop_last() =~= q);
        assert(p.last() == segs[n - 1]);
        let items_q = kept_segments(q, h).map_values(|s: SegmentModel| segment_output(s, h));
        let items_p = kept_segments(p, h).map_values(|s: SegmentModel| segment_output(s, h));
        if contributes(segs[n - 1], h) {
            assert(items_p =~= items_q.push(segment_output(segs[n - 1], h)));
            assert(items_p.drop_last() =~= items_q);
        } else {
            assert(items_p =~= items_q);
        }
        if n - 1 == k {
            crate::layout::lemma_table_markdown_not_blank(segs[k]->Table_0, h);
            assert(warnings_all(q, h) + t.warnings =~= t.warnings);
            assert(has_table(p)) by {
                assert(p[k] is Table);
            }
            if t.markdown.len() > 0 {
                assert(nonblank(items_q.push(t.markdown)) =~= seq![t.markdown]);
            }
        } else {
            assert(segs[n - 1] is Text);
            assert(warnings_all(q, h) + Seq::<Seq<char>>::empty() =~= warnings_all(q, h));
            assert(has_table(p) == has_table(q)) by {
                if has_table(p) {
                    let j = choose|j: int| 0 <= j < p.len() && #[trigger] p[j] is Table;
                    assert(j != n - 1);
                    assert(q[j] is Table);
                }
                if has_table(q) {
                    let j = choose|j: int| 0 <= j < q.len() && #[trigger] q[j] is Table;
                    assert(p[j] is Table);
                }
            }
            if n - 1 > k {
                assert(has_table(q));
            }
        }
    }
}

/// A document that is one table, apart from blank lines, converts exactly as
/// that table on its own: the same Markdown, counts and warnings.
pub proof fn lemma_lone_table(input: Seq<char>, first_row_is_header: bool, k: int)
    requires
        lone_table(document_segments(input), k),
    ensures
        spec_parse_ascii_table(input, first_row_is_header) == spec_parse_table_block(
            document_segments(input)[k]->Table_0,
            first_row_is_header,
        ),
{
    let segs = document_segments(input);
    let t = spec_parse_table_block(segs[k]->Table_0, first_row_is_header);
    lemma_lone_prefix(segs, first_row_is_header, k, segs.len() as int);
    assert(segs.take(segs.len() as int) =~= segs);
    let items = document_items(input, first_row_is_header);
    lemma_tidy_at_most_one(items, t.markdown);
    if t.markdown.len() == 0 {
        assert(spec_join(Seq::<Seq<char>>::empty(), seq!['\n']) =~= t.markdown);
    }
}


// ---------------------------------------------------------------------------
// Column count, table lines
// ---------------------------------------------------------------------------
proof fn lemma_width_max(segs: Seq<SegmentModel>, h: bool)
    ensures
        forall|k: int|
            0 <= k < segs.len() && (#[trigger] segs[k]) is Table ==> spec_parse_table_block(
                segs[k]->Table_0,
                h,
            ).column_count <= width_max(segs, h),
        width_max(segs, h) > 0 ==> exists|k: int|
            0 <= k < segs.len() && (#[trigger] segs[k]) is Table && spec_parse_table_block(
                segs[k]->Table_0,
                h,
            ).column_count == width_max(segs, h),
        (forall|k: int| 0 <= k < segs.len() ==> (#[trigger] segs[k]) is Text) ==> width_max(segs, h)
            == 0,
        forall|k: int|
            0 <= k < segs.len() && (#[trigger] segs[k]) is Table ==> spec_parse_table_block(
                segs[k]->Table_0,
                h,
            ).row_count <= rows_total(segs, h),
    decreases segs.len(),
{
    if segs.len() > 0 {
        let init = segs.drop_last();
        lemma_width_max(init, h);
        assert forall|k: int| 0 <= k < init.len() implies #[trigger] init[k] == segs[k] by {}
        if width_max(segs, h) > 0 && width_max(segs, h) == width_max(init, h) && width_max(init, h) > 0 {
            let k = choose|k: int|
                0 <= k < init.len() && (#[trigger] init[k]) is Table && spec_parse_table_block(
                    init[k]->Table_0,
                    h,
                ).column_count == width_max(init, h);
            assert(segs[k] == init[k]);
        }
        if (forall|k: int| 0 <= k < segs.len() ==> (#[trigger] segs[k]) is Text) {
            assert forall|k: int| 0 <= k < init.len() implies (#[trigger] init[k]) is Text by {
                assert(segs[k] is Text);
            }
            assert(segs[segs.len() - 1] is Text);
        }
        assert(segs.last() == segs[segs.len() - 1]);
        assert(width_max(init, h) <= width_max(segs, h));
        assert(rows_total(init, h) <= rows_total(segs, h));
        assert forall|k: int|
            0 <= k < segs.len() && (#[trigger] segs[k]) is Table implies spec_parse_table_block(
                segs[k]->Table_0,
                h,
            ).column_count <= width_max(segs, h) && spec_parse_table_block(
                segs[k]->Table_0,
                h,
            ).row_count <= rows_total(segs, h) by {
            if k < init.len() {
                assert(init[k] is Table);
            }
        }
    }
}

/// The column count of a document is that of its widest table: no table block
/// is wider, some table block is exactly as wide when the count is not 0, and
/// it is 0 when the document has no table block. Likewise no table block has
/// more body rows than the document.
pub proof fn lemma_column_count_is_widest(input: Seq<char>, first_row_is_header: bool)
    ensures
        ({
            let segs = document_segments(input);
            let m = spec_parse_ascii_table(input, first_row_is_header);
            &&& forall|k: int|
                0 <= k < segs.len() && (#[trigger] segs[k]) is Table ==> spec_parse_table_block(
                    segs[k]->Table_0,
                    first_row_is_header,
                ).column_count <= m.column_count && spec_parse_table_block(
                    segs[k]->Table_0,
                    first_row_is_header,
                ).row_count <= m.row_count
            &&& m.column_count > 0 ==> exists|k: int|
                0 <= k < segs.len() && (#[trigger] segs[k]) is Table && spec_parse_table_block(
                    segs[k]->Table_0,
                    first_row_is_header,
                ).column_count == m.column_count
            &&& (forall|k: int| 0 <= k < segs.len() ==> (#[trigger] segs[k]) is Text) ==> m.column_count
                == 0 && m.row_count == 0
        }),
{
    let segs = document_segments(input);
    lemma_width_max(segs, first_row_is_header);
    if forall|k: int| 0 <= k < segs.len() ==> (#[trigger] segs[k]) is Text {
        assert(!has_table(segs));
        lemma_no_table_rows(segs, first_row_is_header);
    }
}

/// Whether a line belongs to a table depends only on the line with its
/// surrounding white space removed; a line is a table line exactly when, so
/// trimmed, it is a separator line or a content line.
pub proof fn lemma_table_line_by_trim(line: Seq<char>)
    ensures
        spec_is_table_line(line) == spec_is_table_line(spec_trim(line)),
        spec_is_table_line(line) == (spec_is_horizontal_rule(spec_trim(line)) || spec_is_cell_line(
            spec_trim(line),
        )),
{
    crate::layout::lemma_strip_ends(line, crate::text::ws_pred());
    crate::layout::lemma_strip_unchanged(spec_trim(line), crate::text::ws_pred());
}

/// No content or separator line is passed on as text: every text segment of a
/// document, trimmed, is neither a content line nor a separator line, and every
/// line of a table block is, trimmed, one of them.
pub proof fn lemma_text_segments_are_not_table_lines(input: Seq<char>)
    ensures
        forall|k: int|
            0 <= k < document_segments(input).len() && (#[trigger] document_segments(
                input,
            )[k]) is Text ==> !spec_is_cell_line(spec_trim(document_segments(input)[k]->Text_0))
                && !spec_is_horizontal_rule(spec_trim(document_segments(input)[k]->Text_0)),
        forall|k: int, j: int|
            0 <= k < document_segments(input).len() && (#[trigger] document_segments(
                input,
            )[k]) is Table && 0 <= j < document_segments(input)[k]->Table_0.len() ==> ({
                let l = #[trigger] document_segments(input)[k]->Table_0[j];
                spec_is_cell_line(spec_trim(l)) || spec_is_horizontal_rule(spec_trim(l))
            }),
{
    lemma_segments_cover_lines(spec_lines(input));
}


proof fn lemma_rows_total_prefix(segs: Seq<SegmentModel>, h: bool, n: int)
    requires
        0 <= n <= segs.len(),
    ensures
        rows_total(segs.take(n), h) <= rows_total(segs, h),
    decreases segs.len(),
{
    if n < segs.len() {
        lemma_rows_total_prefix(segs.drop_last(), h, n);
        assert(segs.drop_last().take(n) =~= segs.take(n));
    } else {
        assert(segs.take(n) =~= segs);
    }
}

/// The body rows of different tables add up: for any two table blocks of a
/// document, the document has at least their body rows together.
pub proof fn lemma_rows_add_up(input: Seq<char>, first_row_is_header: bool, k1: int, k2: int)
    requires
        0 <= k1 < k2 < document_segments(input).len(),
        document_segments(input)[k1] is Table,
        document_segments(input)[k2] is Table,
    ensures
        spec_parse_table_block(document_segments(input)[k1]->Table_0, first_row_is_header).row_count
            + spec_parse_table_block(
            document_segments(input)[k2]->Table_0,
            first_row_is_header,
        ).row_count <= spec_parse_ascii_table(input, first_row_is_header).row_count,
{
    let segs = document_segments(input);
    let h = first_row_is_header;
    let p = segs.take(k2);
    let q = segs.take(k2 + 1);
    lemma_width_max(p, h);
    assert(p[k1] == segs[k1]);
    assert(q.drop_last() =~= p);
    assert(q.last() == segs[k2]);
    lemma_rows_total_prefix(segs, h, k2 + 1);
}

} // verus!
