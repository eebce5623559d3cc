use vstd::prelude::*;

use crate::chars::{is_whitespace, spec_is_whitespace};

verus! {

// ---------------------------------------------------------------------------
// Stripping characters from both ends
// ---------------------------------------------------------------------------
/// The characters that `trim` removes.
pub open spec fn ws_pred() -> spec_fn(char) -> bool {
    |c: char| spec_is_whitespace(c)
}

/// The characters that `trim_matches(d)` removes.
pub open spec fn eq_pred(d: char) -> spec_fn(char) -> bool {
    |c: char| c == d
}

/// White space for `None`, the given character for `Some`.
pub open spec fn opt_pred(d: Option<char>) -> spec_fn(char) -> bool {
    match d {
        Some(x) => eq_pred(x),
        None => ws_pred(),
    }
}

/// `s` without its leading characters that satisfy `p`.
pub open spec fn strip_start(s: Seq<char>, p: spec_fn(char) -> bool) -> Seq<char>
    decreases s.len(),
{
    if s.len() > 0 && p(s[0]) {
        strip_start(s.drop_first(), p)
    } else {
        s
    }
}

/// `s` without its trailing characters that satisfy `p`.
pub open spec fn strip_end(s: Seq<char>, p: spec_fn(char) -> bool) -> Seq<char>
    decreases s.len(),
{
    if s.len() > 0 && p(s.last()) {
        strip_end(s.drop_last(), p)
    } else {
        s
    }
}

/// `s` without the characters that satisfy `p` at either end.
pub open spec fn strip(s: Seq<char>, p: spec_fn(char) -> bool) -> Seq<char> {
    strip_end(strip_start(s, p), p)
}

/// `str::trim`: `s` without leading and trailing white space.
pub open spec fn spec_trim(s: Seq<char>) -> Seq<char> {
    strip(s, ws_pred())
}

/// `str::trim_matches(d)`: `s` without leading and trailing copies of `d`.
pub open spec fn spec_trim_matches(s: Seq<char>, d: char) -> Seq<char> {
    strip(s, eq_pred(d))
}

proof fn lemma_strip_start_skip(s: Seq<char>, p: spec_fn(char) -> bool, k: int)
    requires
        0 <= k <= s.len(),
        forall|i: int| 0 <= i < k ==> p(#[trigger] s[i]),
    ensures
        strip_start(s, p) == strip_start(s.skip(k), p),
    decreases k,
{
    if k == 0 {
        assert(s.skip(0) =~= s);
    } else {
        assert(p(s[0]));
        lemma_strip_start_skip(s.drop_first(), p, k - 1);
        assert(s.drop_first().skip(k - 1) =~= s.skip(k));
    }
}

proof fn lemma_strip_end_take(s: Seq<char>, p: spec_fn(char) -> bool, k: int)
    requires
        0 <= k <= s.len(),
        forall|i: int| k <= i < s.len() ==> p(#[trigger] s[i]),
    ensures
        strip_end(s, p) == strip_end(s.take(k), p),
    decreases s.len() - k,
{
    if k == s.len() {
        assert(s.take(k) =~= s);
    } else {
        assert(p(s.last()));
        lemma_strip_end_take(s.drop_last(), p, k);
        assert(s.drop_last().take(k) =~= s.take(k));
    }
}

/// Whether `c` is stripped: white space for `None`, equal to `d` for `Some(d)`.
fn stripped_char(c: char, d: Option<char>) -> (res: bool)
    ensures
        res == opt_pred(d)(c),
{
    match d {
        Some(x) => c == x,
        None => is_whitespace(c),
    }
}

/// `s` without the stripped characters (see `stripped_char`) at either end.
pub fn strip_with(s: &[char], d: Option<char>) -> (res: Vec<char>)
    ensures
        res@ == strip(s@, opt_pred(d)),
{
    let ghost p = opt_pred(d);
    let len = s.len();
    let mut start: usize = 0;
    while start < len && stripped_char(s[start], d)
        invariant
            start <= len == s@.len(),
            p == opt_pred(d),
            forall|i: int| 0 <= i < start ==> p(#[trigger] s@[i]),
        decreases len - start,
    {
        start = start + 1;
    }
    let ghost rest = s@.skip(start as int);
    proof {
        lemma_strip_start_skip(s@, p, start as int);
        assert(strip_start(rest, p) == rest);
    }
    let mut end: usize = len;
    while end > start && stripped_char(s[end - 1], d)
        invariant
            start <= end <= len == s@.len(),
            rest == s@.skip(start as int),
            p == opt_pred(d),
            forall|i: int| end <= i < len ==> p(#[trigger] s@[i]),
        decreases end - start,
    {
        end = end - 1;
    }
    let mut res: Vec<char> = Vec::new();
    let mut i: usize = start;
    while i < end
        invariant
            start <= i <= end <= len == s@.len(),
            res@ == s@.subrange(start as int, i as int),
        decreases end - i,
    {
        res.push(s[i]);
        i = i + 1;
    }
    proof {
        assert forall|j: int| (end - start) <= j < rest.len() implies p(#[trigger] rest[j]) by {
            assert(rest[j] == s@[start + j]);
        }
        lemma_strip_end_take(rest, p, end - start);
        assert(rest.take(end - start) =~= res@);
        if res@.len() > 0 {
            assert(res@.last() == s@[end - 1]);
        }
    }
    res
}

/// `str::trim` on a character sequence.
pub fn trim(s: &[char]) -> (res: Vec<char>)
    ensures
        res@ == spec_trim(s@),
{
    strip_with(s, None)
}

/// `str::trim_matches(d)` on a character sequence.
pub fn trim_matches(s: &[char], d: char) -> (res: Vec<char>)
    ensures
        res@ == spec_trim_matches(s@, d),
{
    strip_with(s, Some(d))
}


// ---------------------------------------------------------------------------
// Sequences of character sequences
// ---------------------------------------------------------------------------
/// The character sequences held by a vector of character vectors.
pub open spec fn nested_view(v: Seq<Vec<char>>) -> Seq<Seq<char>> {
    v.map_values(|l: Vec<char>| l@)
}

pub proof fn lemma_nested_view_push(v: Seq<Vec<char>>, x: Vec<char>)
    ensures
        nested_view(v.push(x)) == nested_view(v).push(x@),
{
    assert(nested_view(v.push(x)) =~= nested_view(v).push(x@));
}

/// Appends every character of `src` to `out`.
pub fn push_all(out: &mut Vec<char>, src: &[char])
    ensures
        final(out)@ == old(out)@ + src@,
{
    let mut i: usize = 0;
    while i < src.len()
        invariant
            i <= src@.len(),
            out@ == old(out)@ + src@.take(i as int),
        decreases src@.len() - i,
    {
        out.push(src[i]);
        i = i + 1;
        assert(out@ =~= old(out)@ + src@.take(i as int));
    }
    assert(src@.take(src@.len() as int) =~= src@);
}

/// A fresh vector with the characters of `s`.
pub fn copy_chars(s: &[char]) -> (res: Vec<char>)
    ensures
        res@ == s@,
{
    let mut res: Vec<char> = Vec::new();
    push_all(&mut res, s);
    assert(res@ =~= s@);
    res
}

// ---------------------------------------------------------------------------
// Splitting and joining
// ---------------------------------------------------------------------------
/// `str::split(d)`: the pieces of `s` between the occurrences of `d`, empty
/// pieces included; there is always at least one piece.
pub open spec fn split_on(s: Seq<char>, d: char) -> Seq<Seq<char>>
    decreases s.len(),
{
    if s.len() == 0 {
        seq![Seq::empty()]
    } else {
        let init = split_on(s.drop_last(), d);
        if s.last() == d {
            init.push(Seq::empty())
        } else {
            init.update(init.len() - 1, init.last().push(s.last()))
        }
    }
}

pub proof fn lemma_split_on_len(s: Seq<char>, d: char)
    ensures
        split_on(s, d).len() >= 1,
    decreases s.len(),
{
    if s.len() > 0 {
        lemma_split_on_len(s.drop_last(), d);
    }
}

/// The pieces of `s` between the occurrences of `d`.
pub fn split(s: &[char], d: char) -> (res: Vec<Vec<char>>)
    ensures
        nested_view(res@) == split_on(s@, d),
{
    let mut out: Vec<Vec<char>> = Vec::new();
    let mut cur: Vec<char> = Vec::new();
    let mut i: usize = 0;
    assert(nested_view(out@).push(cur@) =~= split_on(s@.take(0), d));
    while i < s.len()
        invariant
            i <= s@.len(),
            nested_view(out@).push(cur@) == split_on(s@.take(i as int), d),
        decreases s@.len() - i,
    {
        let ghost before = nested_view(out@);
        let ghost cur_before = cur@;
        proof {
            assert(s@.take(i + 1).drop_last() =~= s@.take(i as int));
            lemma_split_on_len(s@.take(i as int), d);
        }
        let c = s[i];
        if c == d {
            proof {
                lemma_nested_view_push(out@, cur);
            }
            out.push(cur);
            cur = Vec::new();
            assert(nested_view(out@).push(cur@) =~= before.push(cur_before).push(Seq::empty()));
        } else {
            cur.push(c);
            assert(nested_view(out@).push(cur@) =~= before.push(cur_before).update(
                before.len() as int,
                cur_before.push(c),
            ));
        }
        i = i + 1;
    }
    assert(s@.take(s@.len() as int) =~= s@);
    proof {
        lemma_nested_view_push(out@, cur);
    }
    out.push(cur);
    out
}

/// `parts` joined with `sep` between consecutive parts.
pub open spec fn spec_join(parts: Seq<Seq<char>>, sep: Seq<char>) -> Seq<char>
    decreases parts.len(),
{
    if parts.len() == 0 {
        Seq::empty()
    } else if parts.len() == 1 {
        parts[0]
    } else {
        spec_join(parts.drop_last(), sep) + sep + parts.last()
    }
}

/// `parts.join(sep)`.
pub fn join(parts: &Vec<Vec<char>>, sep: &[char]) -> (res: Vec<char>)
    ensures
        res@ == spec_join(nested_view(parts@), sep@),
{
    let ghost pv = nested_view(parts@);
    let mut out: Vec<char> = Vec::new();
    let mut i: usize = 0;
    assert(pv.take(0) =~= Seq::<Seq<char>>::empty());
    while i < parts.len()
        invariant
            i <= parts@.len(),
            pv == nested_view(parts@),
            out@ == spec_join(pv.take(i as int), sep@),
        decreases parts@.len() - i,
    {
        assert(pv.take(i + 1).drop_last() =~= pv.take(i as int));
        if i > 0 {
            push_all(&mut out, sep);
        }
        push_all(&mut out, parts[i].as_slice());
        i = i + 1;
        assert(pv.take(i as int).last() == parts@[i - 1]@);
        if i == 1 {
            assert(out@ =~= pv.take(1)[0]);
        }
    }
    assert(pv.take(parts@.len() as int) =~= pv);
    out
}

// ---------------------------------------------------------------------------
// Lines
// ---------------------------------------------------------------------------
/// `l` without one trailing carriage return.
pub open spec fn strip_cr(l: Seq<char>) -> Seq<char> {
    if l.len() > 0 && l.last() == '\r' {
        l.drop_last()
    } else {
        l
    }
}

/// `str::lines`: the lines of `s`, each without its terminator (`\n` or `\r\n`);
/// the final line's terminator is optional, and an empty text has no lines.
pub open spec fn spec_lines(s: Seq<char>) -> Seq<Seq<char>> {
    let pieces = split_on(s, '\n');
    let n = if s.len() == 0 || s.last() == '\n' {
        pieces.len() - 1
    } else {
        pieces.len() as int
    };
    Seq::new(
        n as nat,
        |i: int|
            if i + 1 < pieces.len() {
                strip_cr(pieces[i])
            } else {
                pieces[i]
            },
    )
}

/// The lines of `s` (see `spec_lines`).
pub fn split_lines(s: &[char]) -> (res: Vec<Vec<char>>)
    ensures
        nested_view(res@) == spec_lines(s@),
{
    let pieces = split(s, '\n');
    let ghost pv = nested_view(pieces@);
    proof {
        lemma_split_on_len(s@, '\n');
    }
    let n: usize = if s.len() == 0 || s[s.len() - 1] == '\n' {
        pieces.len() - 1
    } else {
        pieces.len()
    };
    let mut out: Vec<Vec<char>> = Vec::new();
    let mut i: usize = 0;
    while i < n
        invariant
            n <= pieces@.len(),
            n == spec_lines(s@).len(),
            i <= n,
            pv == nested_view(pieces@),
            pv == split_on(s@, '\n'),
            nested_view(out@) == spec_lines(s@).take(i as int),
        decreases n - i,
    {
        let piece = &pieces[i];
        let mut line = copy_chars(piece.as_slice());
        if i + 1 < pieces.len() && line.len() > 0 && line[line.len() - 1] == '\r' {
            line.pop();
        }
        proof {
            lemma_nested_view_push(out@, line);
        }
        out.push(line);
        i = i + 1;
        assert(nested_view(out@) =~= spec_lines(s@).take(i as int));
    }
    assert(spec_lines(s@).take(n as int) =~= spec_lines(s@));
    out
}

/// `String::push` (std) appends one character at the end of the string;
/// this is all that is claimed of it.
pub assume_specification[ String::push ](string: &mut String, ch: char)
    ensures
        final(string)@ == old(string)@.push(ch),
;

/// A `String` with the characters of `chars`.
pub fn string_from_chars(chars: &[char]) -> (res: String)
    ensures
        res@ == chars@,
{
    let mut out = String::new();
    let mut i: usize = 0;
    while i < chars.len()
        invariant
            i <= chars@.len(),
            out@ == chars@.take(i as int),
        decreases chars@.len() - i,
    {
        out.push(chars[i]);
        i = i + 1;
        assert(out@ =~= chars@.take(i as int));
    }
    assert(chars@.take(chars@.len() as int) =~= chars@);
    out
}

/// The characters of `s`.
pub fn chars_of(s: &str) -> (res: Vec<char>)
    ensures
        res@ == s@,
{
    let mut out: Vec<char> = Vec::new();
    for c in it: s.chars()
        invariant
            out@ == it.seq().take(it.index() as int),
    {
        out.push(c);
    }
    out
}


// ---------------------------------------------------------------------------
// Counting and numbers
// ---------------------------------------------------------------------------
/// How many times `d` occurs in `s`.
pub open spec fn count_of(s: Seq<char>, d: char) -> nat
    decreases s.len(),
{
    if s.len() == 0 {
        0
    } else {
        count_of(s.drop_last(), d) + if s.last() == d {
            1nat
        } else {
            0nat
        }
    }
}

/// `s.matches(d).count()`.
pub fn count_char(s: &[char], d: char) -> (res: usize)
    ensures
        res == count_of(s@, d),
{
    let mut n: usize = 0;
    let mut i: usize = 0;
    while i < s.len()
        invariant
            i <= s@.len(),
            n == count_of(s@.take(i as int), d),
            n <= i,
        decreases s@.len() - i,
    {
        assert(s@.take(i + 1).drop_last() =~= s@.take(i as int));
        if s[i] == d {
            n = n + 1;
        }
        i = i + 1;
    }
    assert(s@.take(s@.len() as int) =~= s@);
    n
}

/// The decimal digit for `d < 10`.
pub open spec fn digit_char(d: nat) -> char {
    if d == 0 {
        '0'
    } else if d == 1 {
        '1'
    } else if d == 2 {
        '2'
    } else if d == 3 {
        '3'
    } else if d == 4 {
        '4'
    } else if d == 5 {
        '5'
    } else if d == 6 {
        '6'
    } else if d == 7 {
        '7'
    } else if d == 8 {
        '8'
    } else {
        '9'
    }
}

/// The decimal notation of `n`, as `format!("{n}")` writes it.
pub open spec fn spec_decimal(n: nat) -> Seq<char>
    decreases n,
{
    if n < 10 {
        seq![digit_char(n)]
    } else {
        spec_decimal(n / 10).push(digit_char(n % 10))
    }
}

fn digit(d: usize) -> (res: char)
    requires
        d < 10,
    ensures
        res == digit_char(d as nat),
{
    if d == 0 {
        '0'
    } else if d == 1 {
        '1'
    } else if d == 2 {
        '2'
    } else if d == 3 {
        '3'
    } else if d == 4 {
        '4'
    } else if d == 5 {
        '5'
    } else if d == 6 {
        '6'
    } else if d == 7 {
        '7'
    } else if d == 8 {
        '8'
    } else {
        '9'
    }
}

/// Appends the decimal notation of `n` to `out`.
pub fn push_decimal(out: &mut Vec<char>, n: usize)
    ensures
        final(out)@ == old(out)@ + spec_decimal(n as nat),
    decreases n,
{
    if n >= 10 {
        push_decimal(out, n / 10);
    }
    out.push(digit(n % 10));
    assert(out@ =~= old(out)@ + spec_decimal(n as nat));
}

} // verus!
