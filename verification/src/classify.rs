use vstd::prelude::*;

use crate::chars::{
    is_ascii_rule_char, is_box_drawing_char, is_horizontal_box_rule_char, is_whitespace,
    spec_is_ascii_rule_char, spec_is_box_drawing_char, spec_is_horizontal_box_rule_char,
    spec_is_whitespace,
};
use crate::text::{
    count_char, count_of, lemma_split_on_len, spec_trim, spec_trim_matches, split, split_on, trim,
    trim_matches,
};

verus! {

/// A character that draws a horizontal stroke: `-`, `=` or a horizontal
/// box-drawing character.
pub open spec fn is_rule_stroke(c: char) -> bool {
    c == '-' || c == '=' || (spec_is_box_drawing_char(c) && spec_is_horizontal_box_rule_char(c))
}

/// A character that marks a corner or joint: `+` or any box-drawing character.
pub open spec fn is_rule_joint(c: char) -> bool {
    c == '+' || spec_is_box_drawing_char(c)
}

/// A separator line: apart from white space it holds only ASCII rule characters
/// (`+ - = :`) and box-drawing characters, among them at least one horizontal
/// stroke and at least one corner (`+`) or box-drawing character.
pub open spec fn spec_is_horizontal_rule(line: Seq<char>) -> bool {
    &&& forall|i: int|
        0 <= i < line.len() && !spec_is_whitespace(#[trigger] line[i]) ==> spec_is_ascii_rule_char(
            line[i],
        ) || spec_is_box_drawing_char(line[i])
    &&& exists|i: int| 0 <= i < line.len() && #[trigger] is_rule_stroke(line[i])
    &&& exists|i: int| 0 <= i < line.len() && #[trigger] is_rule_joint(line[i])
}

/// `line` starts and ends with `d` and holds at least two copies of it.
pub open spec fn is_delimited_by(line: Seq<char>, d: char) -> bool {
    &&& line.len() > 0
    &&& line[0] == d
    &&& line.last() == d
    &&& count_of(line, d) >= 2
}

/// The first of `|`, `│`, `┃`, `║` that delimits `line`, if any.
pub open spec fn spec_detect_cell_delimiter(line: Seq<char>) -> Option<char> {
    if is_delimited_by(line, '|') {
        Some('|')
    } else if is_delimited_by(line, '│') {
        Some('│')
    } else if is_delimited_by(line, '┃') {
        Some('┃')
    } else if is_delimited_by(line, '║') {
        Some('║')
    } else {
        None
    }
}

/// A content line: one that some vertical bar delimits.
pub open spec fn spec_is_cell_line(line: Seq<char>) -> bool {
    spec_detect_cell_delimiter(line) is Some
}

/// The cells of `line` split at `d`, once the delimiters at both ends are gone.
pub open spec fn cell_fields(line: Seq<char>, d: char) -> Seq<Seq<char>> {
    split_on(spec_trim_matches(line, d), d)
}

/// A content line whose first cell is not blank opens a new logical row.
pub open spec fn spec_starts_new_row(line: Seq<char>) -> bool {
    match spec_detect_cell_delimiter(line) {
        None => false,
        Some(d) => spec_trim(cell_fields(line, d)[0]).len() > 0,
    }
}

/// Whether `line` is a separator line (see `spec_is_horizontal_rule`).
pub fn is_horizontal_rule(line: &[char]) -> (res: bool)
    ensures
        res == spec_is_horizontal_rule(line@),
{
    let mut has_ascii_corner = false;
    let mut has_box_drawing = false;
    let mut has_rule = false;
    let mut i: usize = 0;
    while i < line.len()
        invariant
            i <= line@.len(),
            forall|j: int|
                0 <= j < i && !spec_is_whitespace(#[trigger] line@[j]) ==> spec_is_ascii_rule_char(
                    line@[j],
                ) || spec_is_box_drawing_char(line@[j]),
            has_rule == exists|j: int| 0 <= j < i && #[trigger] is_rule_stroke(line@[j]),
            has_ascii_corner || has_box_drawing <==> exists|j: int|
                0 <= j < i && #[trigger] is_rule_joint(line@[j]),
        decreases line@.len() - i,
    {
        let ch = line[i];
        if !is_whitespace(ch) {
            if is_ascii_rule_char(ch) {
                has_ascii_corner = has_ascii_corner || ch == '+';
                has_rule = has_rule || ch == '-' || ch == '=';
            } else if is_box_drawing_char(ch) {
                has_box_drawing = true;
                has_rule = has_rule || is_horizontal_box_rule_char(ch);
            } else {
                return false;
            }
        }
        proof {
            let c = line@[i as int];
            assert(is_rule_stroke(c) ==> has_rule);
            assert(is_rule_joint(c) ==> has_ascii_corner || has_box_drawing);
            if has_rule && !is_rule_stroke(c) {
                let j = choose|j: int| 0 <= j < i && #[trigger] is_rule_stroke(line@[j]);
                assert(0 <= j < i + 1 && is_rule_stroke(line@[j]));
            }
            if (has_ascii_corner || has_box_drawing) && !is_rule_joint(c) {
                let j = choose|j: int| 0 <= j < i && #[trigger] is_rule_joint(line@[j]);
                assert(0 <= j < i + 1 && is_rule_joint(line@[j]));
            }
        }
        i = i + 1;
    }
    has_rule && (has_ascii_corner || has_box_drawing)
}

/// Whether `line` starts and ends with `d` and holds at least two copies of it.
fn delimited_by(line: &[char], d: char) -> (res: bool)
    ensures
        res == is_delimited_by(line@, d),
{
    line.len() > 0 && line[0] == d && line[line.len() - 1] == d && count_char(line, d) >= 2
}

/// The vertical bar that delimits `line`, trying `|`, `│`, `┃`, `║` in turn.
pub fn detect_cell_delimiter(line: &[char]) -> (res: Option<char>)
    ensures
        res == spec_detect_cell_delimiter(line@),
{
    if delimited_by(line, '|') {
        Some('|')
    } else if delimited_by(line, '│') {
        Some('│')
    } else if delimited_by(line, '┃') {
        Some('┃')
    } else if delimited_by(line, '║') {
        Some('║')
    } else {
        None
    }
}

/// Whether `line` is a content line.
pub fn is_cell_line(line: &[char]) -> (res: bool)
    ensures
        res == spec_is_cell_line(line@),
{
    detect_cell_delimiter(line).is_some()
}

/// Whether `line` opens a new logical row (see `spec_starts_new_row`).
pub fn starts_new_row(line: &[char]) -> (res: bool)
    ensures
        res == spec_starts_new_row(line@),
{
    let delimiter = match detect_cell_delimiter(line) {
        Some(d) => d,
        None => {
            return false;
        },
    };
    let inner = trim_matches(line, delimiter);
    let fields = split(inner.as_slice(), delimiter);
    proof {
        lemma_split_on_len(inner@, delimiter);
    }
    let first = trim(fields[0].as_slice());
    first.len() > 0
}

} // verus!
