use vstd::prelude::*;

verus! {

/// Unicode `White_Space` characters, the set that `char::is_whitespace` tests.
pub open spec fn spec_is_whitespace(c: char) -> bool {
    let n = c as u32;
    ||| 0x09 <= n <= 0x0d
    ||| n == 0x20
    ||| n == 0x85
    ||| n == 0xa0
    ||| n == 0x1680
    ||| 0x2000 <= n <= 0x200a
    ||| n == 0x2028
    ||| n == 0x2029
    ||| n == 0x202f
    ||| n == 0x205f
    ||| n == 0x3000
}

/// Characters that may make up an ASCII rule line: `+ - = :`.
pub open spec fn spec_is_ascii_rule_char(c: char) -> bool {
    c == '+' || c == '-' || c == '=' || c == ':'
}

/// Characters of the Unicode "Box Drawing" block, `U+2500..=U+257F`.
pub open spec fn spec_is_box_drawing_char(c: char) -> bool {
    0x2500 <= (c as u32) <= 0x257f
}

/// Horizontal strokes of the box-drawing block (light, heavy, double, dashed).
pub open spec fn spec_is_horizontal_box_rule_char(c: char) -> bool {
    ||| c == '─'
    ||| c == '━'
    ||| c == '═'
    ||| c == '╌'
    ||| c == '╍'
    ||| c == '┄'
    ||| c == '┅'
    ||| c == '┈'
    ||| c == '┉'
}

/// Whether `ch` is Unicode white space, as `char::is_whitespace` decides.
pub fn is_whitespace(ch: char) -> (res: bool)
    ensures
        res == spec_is_whitespace(ch),
{
    let n = ch as u32;
    (0x09 <= n && n <= 0x0d) || n == 0x20 || n == 0x85 || n == 0xa0 || n == 0x1680 || (0x2000
        <= n && n <= 0x200a) || n == 0x2028 || n == 0x2029 || n == 0x202f || n == 0x205f || n
        == 0x3000
}

/// Whether `ch` is one of the ASCII rule characters `+ - = :`.
pub fn is_ascii_rule_char(ch: char) -> (res: bool)
    ensures
        res == spec_is_ascii_rule_char(ch),
{
    ch == '+' || ch == '-' || ch == '=' || ch == ':'
}

/// Whether `ch` lies in the box-drawing block `U+2500..=U+257F`.
pub fn is_box_drawing_char(ch: char) -> (res: bool)
    ensures
        res == spec_is_box_drawing_char(ch),
{
    let n = ch as u32;
    0x2500 <= n && n <= 0x257f
}

/// Whether `ch` is a horizontal box-drawing stroke.
pub fn is_horizontal_box_rule_char(ch: char) -> (res: bool)
    ensures
        res == spec_is_horizontal_box_rule_char(ch),
{
    ch == '─' || ch == '━' || ch == '═' || ch == '╌' || ch == '╍' || ch == '┄' || ch == '┅' || ch
        == '┈' || ch == '┉'
}

} // verus!
