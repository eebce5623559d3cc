use vstd::prelude::*;

use crate::classify::{
    is_cell_line, is_horizontal_rule, spec_is_cell_line, spec_is_horizontal_rule,
    spec_starts_new_row, starts_new_row,
};
use crate::text::{copy_chars, lemma_nested_view_push, nested_view, spec_trim, trim};

verus! {

/// Lines, as character sequences.
pub type Lines = Seq<Seq<char>>;

/// Groups of lines, as character sequences.
pub type Groups = Seq<Seq<Seq<char>>>;

/// The groups of lines held by a vector of line vectors.
pub open spec fn nested_view2(v: Seq<Vec<Vec<char>>>) -> Groups {
    v.map_values(|g: Vec<Vec<char>>| nested_view(g@))
}

pub proof fn lemma_nested_view2_push(v: Seq<Vec<Vec<char>>>, x: Vec<Vec<char>>)
    ensures
        nested_view2(v.push(x)) == nested_view2(v).push(nested_view(x@)),
{
    assert(nested_view2(v.push(x)) =~= nested_view2(v).push(nested_view(x@)));
}

/// `lines`, each trimmed of surrounding white space.
pub open spec fn trimmed_lines(lines: Lines) -> Lines {
    lines.map_values(|l: Seq<char>| spec_trim(l))
}

/// The content lines among `lines`: those that delimit cells and are not
/// separator lines, in order.
pub open spec fn cell_lines(lines: Lines) -> Lines
    decreases lines.len(),
{
    if lines.len() == 0 {
        Seq::empty()
    } else {
        let init = cell_lines(lines.drop_last());
        let l = lines.last();
        if !spec_is_horizontal_rule(l) && spec_is_cell_line(l) {
            init.push(l)
        } else {
            init
        }
    }
}

/// Whether some line of `lines` is a separator line.
pub open spec fn has_separator(lines: Lines) -> bool {
    exists|i: int| 0 <= i < lines.len() && spec_is_horizontal_rule(#[trigger] lines[i])
}

/// The lines of all groups, one group after the other.
pub open spec fn concat_all(groups: Groups) -> Lines
    decreases groups.len(),
{
    if groups.len() == 0 {
        Seq::empty()
    } else {
        concat_all(groups.drop_last()) + groups.last()
    }
}

/// A content line joins the open group, unless the group already has lines and
/// the new line starts a new row; then the open group is closed first.
pub open spec fn spec_push_cell_line(groups: Groups, current: Lines, line: Seq<char>) -> (
    Groups,
    Lines,
) {
    if current.len() > 0 && spec_starts_new_row(line) {
        (groups.push(current), seq![line])
    } else {
        (groups, current.push(line))
    }
}

/// `groups` with `current` added, if it holds any line.
pub open spec fn close_group(groups: Groups, current: Lines) -> Groups {
    if current.len() > 0 {
        groups.push(current)
    } else {
        groups
    }
}

/// The scan of `lines` in order: the closed groups, the open group and whether a
/// separator line was seen. A separator closes the open group; a content line
/// goes through `spec_push_cell_line`; any other line is passed over.
pub open spec fn group_scan(lines: Lines) -> (Groups, Lines, bool)
    decreases lines.len(),
{
    if lines.len() == 0 {
        (Seq::empty(), Seq::empty(), false)
    } else {
        let (groups, current, saw) = group_scan(lines.drop_last());
        let l = lines.last();
        if spec_is_horizontal_rule(l) {
            (close_group(groups, current), Seq::empty(), true)
        } else if spec_is_cell_line(l) {
            let (g, c) = spec_push_cell_line(groups, current, l);
            (g, c, saw)
        } else {
            (groups, current, saw)
        }
    }
}

/// Each line as a group of its own.
pub open spec fn one_line_rows(lines: Lines) -> Groups {
    lines.map_values(|l: Seq<char>| seq![l])
}

/// The logical rows of a table's lines: with separator lines, the groups of
/// the scan; without any, each content line is a row of its own.
pub open spec fn spec_collect_row_groups(block: Lines) -> Groups {
    let lines = trimmed_lines(block);
    let (groups, current, saw) = group_scan(lines);
    if saw {
        close_group(groups, current)
    } else {
        one_line_rows(cell_lines(lines))
    }
}

pub proof fn lemma_concat_all_push(groups: Groups, g: Lines)
    ensures
        concat_all(groups.push(g)) == concat_all(groups) + g,
{
    assert(groups.push(g).drop_last() =~= groups);
}

pub proof fn lemma_concat_all_close(groups: Groups, current: Lines)
    ensures
        concat_all(close_group(groups, current)) == concat_all(groups) + current,
{
    if current.len() > 0 {
        lemma_concat_all_push(groups, current);
    } else {
        assert(concat_all(groups) + current =~= concat_all(groups));
    }
}

/// The scan loses, adds and reorders no content line, keeps no empty group,
/// and has seen a separator exactly when one of the lines is one.
pub proof fn lemma_group_scan(lines: Lines)
    ensures
        ({
            let (groups, current, saw) = group_scan(lines);
            &&& concat_all(groups) + current == cell_lines(lines)
            &&& forall|i: int| 0 <= i < groups.len() ==> #[trigger] groups[i].len() > 0
            &&& saw == has_separator(lines)
        }),
    decreases lines.len(),
{
    if lines.len() == 0 {
        assert(concat_all(Seq::<Lines>::empty()) + Seq::<Seq<char>>::empty() =~= Seq::<
            Seq<char>,
        >::empty());
    } else {
        let init = lines.drop_last();
        lemma_group_scan(init);
        let (groups, current, saw) = group_scan(init);
        let l = lines.last();
        if spec_is_horizontal_rule(l) {
            lemma_concat_all_close(groups, current);
            assert(concat_all(close_group(groups, current)) + Seq::<Seq<char>>::empty()
                =~= concat_all(groups) + current);
            assert(has_separator(lines)) by {
                assert(spec_is_horizontal_rule(lines[lines.len() - 1]));
            }
        } else {
            if spec_is_cell_line(l) {
                if current.len() > 0 && spec_starts_new_row(l) {
                    lemma_concat_all_push(groups, current);
                    assert(concat_all(groups.push(current)) + seq![l] =~= (concat_all(groups)
                        + current).push(l));
                } else {
                    assert(concat_all(groups) + current.push(l) =~= (concat_all(groups)
                        + current).push(l));
                }
            }
            assert(has_separator(lines) == has_separator(init)) by {
                if has_separator(lines) {
                    let i = choose|i: int|
                        0 <= i < lines.len() && spec_is_horizontal_rule(#[trigger] lines[i]);
                    assert(i < init.len());
                    assert(init[i] == lines[i]);
                }
                if has_separator(init) {
                    let i = choose|i: int|
                        0 <= i < init.len() && spec_is_horizontal_rule(#[trigger] init[i]);
                    assert(lines[i] == init[i]);
                }
            }
        }
    }
}

/// Adds a content line to the open group, closing the group first when the
/// line starts a new row (see `spec_push_cell_line`).
pub fn push_cell_line(groups: &mut Vec<Vec<Vec<char>>>, current: &mut Vec<Vec<char>>, line: Vec<char>)
    ensures
        (nested_view2(final(groups)@), nested_view(final(current)@)) == spec_push_cell_line(
            nested_view2(old(groups)@),
            nested_view(old(current)@),
            line@,
        ),
{
    if current.len() > 0 && starts_new_row(line.as_slice()) {
        let mut taken: Vec<Vec<char>> = Vec::new();
        std::mem::swap(&mut taken, current);
        proof {
            lemma_nested_view2_push(groups@, taken);
        }
        groups.push(taken);
    }
    proof {
        lemma_nested_view_push(current@, line);
    }
    let ghost before = nested_view(current@);
    current.push(line);
    assert(before.len() == 0 ==> nested_view(current@) =~= seq![line@]);
}

/// Every line of every group, each as a group of its own.
fn split_into_single_lines(groups: &Vec<Vec<Vec<char>>>) -> (res: Vec<Vec<Vec<char>>>)
    ensures
        nested_view2(res@) == one_line_rows(concat_all(nested_view2(groups@))),
{
    let ghost gv = nested_view2(groups@);
    let mut rows: Vec<Vec<Vec<char>>> = Vec::new();
    let mut i: usize = 0;
    assert(gv.take(0) =~= Seq::<Lines>::empty());
    assert(nested_view2(rows@) =~= one_line_rows(concat_all(gv.take(0))));
    while i < groups.len()
        invariant
            i <= groups@.len(),
            gv == nested_view2(groups@),
            nested_view2(rows@) == one_line_rows(concat_all(gv.take(i as int))),
        decreases groups@.len() - i,
    {
        let group = &groups[i];
        let ghost base = concat_all(gv.take(i as int));
        let mut j: usize = 0;
        assert(gv[i as int] == nested_view(group@));
        assert(base + gv[i as int].take(0) =~= base);
        while j < group.len()
            invariant
                i < groups@.len(),
                j <= group@.len(),
                gv == nested_view2(groups@),
                *group == groups@[i as int],
                gv[i as int] == nested_view(group@),
                base == concat_all(gv.take(i as int)),
                nested_view2(rows@) == one_line_rows(base + gv[i as int].take(j as int)),
            decreases group@.len() - j,
        {
            let line = copy_chars(group[j].as_slice());
            let mut single: Vec<Vec<char>> = Vec::new();
            single.push(line);
            assert(nested_view(single@) =~= seq![group@[j as int]@]);
            proof {
                lemma_nested_view2_push(rows@, single);
            }
            rows.push(single);
            j = j + 1;
            assert(nested_view2(rows@) =~= one_line_rows(base + gv[i as int].take(j as int)));
        }
        assert(gv[i as int].take(j as int) =~= gv[i as int]);
        assert(gv.take(i + 1).drop_last() =~= gv.take(i as int));
        i = i + 1;
    }
    assert(gv.take(groups@.len() as int) =~= gv);
    rows
}

/// The logical rows of a table's lines (see `spec_collect_row_groups`).
pub fn collect_row_groups(lines: &Vec<Vec<char>>) -> (res: Vec<Vec<Vec<char>>>)
    ensures
        nested_view2(res@) == spec_collect_row_groups(nested_view(lines@)),
{
    let ghost tl = trimmed_lines(nested_view(lines@));
    let mut groups: Vec<Vec<Vec<char>>> = Vec::new();
    let mut current: Vec<Vec<char>> = Vec::new();
    let mut saw_separator = false;
    let mut i: usize = 0;
    assert(tl.take(0) =~= Seq::<Seq<char>>::empty());
    assert(nested_view2(groups@) =~= Seq::<Lines>::empty());
    assert(nested_view(current@) =~= Seq::<Seq<char>>::empty());
    while i < lines.len()
        invariant
            i <= lines@.len() == tl.len(),
            tl == trimmed_lines(nested_view(lines@)),
            (nested_view2(groups@), nested_view(current@), saw_separator) == group_scan(
                tl.take(i as int),
            ),
        decreases lines@.len() - i,
    {
        let trimmed = trim(lines[i].as_slice());
        assert(trimmed@ == tl[i as int]);
        assert(tl.take(i + 1).drop_last() =~= tl.take(i as int));
        assert(tl.take(i + 1).last() == tl[i as int]);
        if is_horizontal_rule(trimmed.as_slice()) {
            saw_separator = true;
            if current.len() > 0 {
                let mut taken: Vec<Vec<char>> = Vec::new();
                std::mem::swap(&mut taken, &mut current);
                proof {
                    lemma_nested_view2_push(groups@, taken);
                }
                groups.push(taken);
            }
            assert(nested_view(current@) =~= Seq::<Seq<char>>::empty());
        } else if is_cell_line(trimmed.as_slice()) {
            push_cell_line(&mut groups, &mut current, trimmed);
        }
        i = i + 1;
    }
    assert(tl.take(lines@.len() as int) =~= tl);
    if current.len() > 0 {
        proof {
            lemma_nested_view2_push(groups@, current);
        }
        groups.push(current);
    }
    if saw_separator {
        groups
    } else {
        proof {
            lemma_group_scan(tl);
            let (g, c, s) = group_scan(tl);
            lemma_concat_all_close(g, c);
        }
        split_into_single_lines(&groups)
    }
}

} // verus!
