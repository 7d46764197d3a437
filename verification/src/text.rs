//! Text as the layout sees it: characters, lines and terminal cells.
use vstd::prelude::*;

verus! {

/// The characters of an optional text.
pub open spec fn str_option(text: Option<&str>) -> Option<Seq<char>> {
    match text {
        Some(text) => Some(text@),
        None => None,
    }
}

/// `String::push`: appends one character.
pub assume_specification[ String::push ](text: &mut String, c: char)
    ensures
        final(text)@ == old(text)@.push(c),
;

/// The number of terminal cells that a text takes.
pub uninterp spec fn cell_width(text: Seq<char>) -> usize;

/// `UnicodeWidthStr::width` of unicode-width: the cells of the whole text, which is
/// a function of its characters alone.
#[verifier::external_body]
fn unicode_str_width(text: &str) -> (cells: usize)
    ensures
        cells == cell_width(text@),
{
    unicode_width::UnicodeWidthStr::width(text)
}

/// Terminal cells of `text`.
pub fn display_width(text: &str) -> (cells: usize)
    ensures
        cells == cell_width(text@),
{
    unicode_str_width(text)
}

pub open spec fn clamp_u16(n: int) -> u16 {
    if n > u16::MAX {
        u16::MAX
    } else {
        n as u16
    }
}

/// Terminal cells of `text`, at most `u16::MAX`.
pub fn display_width_u16(text: &str) -> (cells: u16)
    ensures
        cells == clamp_u16(cell_width(text@) as int),
{
    to_u16(display_width(text))
}

/// `n`, at most `u16::MAX`.
pub fn to_u16(n: usize) -> (r: u16)
    ensures
        r == clamp_u16(n as int),
{
    if n > u16::MAX as usize {
        u16::MAX
    } else {
        n as u16
    }
}

pub fn min_usize(a: usize, b: usize) -> (r: usize)
    ensures
        r == spec_min(a, b),
{
    if a < b {
        a
    } else {
        b
    }
}

pub fn max_usize(a: usize, b: usize) -> (r: usize)
    ensures
        r == spec_max(a, b),
{
    if a < b {
        b
    } else {
        a
    }
}

pub open spec fn spec_min(a: usize, b: usize) -> usize {
    if a < b {
        a
    } else {
        b
    }
}

pub open spec fn spec_max(a: usize, b: usize) -> usize {
    if a < b {
        b
    } else {
        a
    }
}

/// UTF-8 bytes of a text.
pub open spec fn text_bytes(text: Seq<char>) -> nat {
    vstd::utf8::encode_utf8(text).len()
}

/// UTF-8 bytes of `text`.
pub fn byte_len(text: &str) -> (len: usize)
    ensures
        len == text_bytes(text@),
{
    text.as_bytes().len()
}

/// The characters of `text`.
pub fn chars_of(text: &str) -> (chars: Vec<char>)
    ensures
        chars@ == text@,
{
    let mut chars: Vec<char> = Vec::new();
    for c in it: text.chars()
        invariant
            it.seq() == text@,
            chars@ == text@.take(it.index() as int),
    {
        chars.push(c);
        proof {
            assert(text@.take(it.index() + 1) =~= text@.take(it.index() as int).push(c));
        }
    }
    proof {
        assert(text@.take(text@.len() as int) =~= text@);
    }
    chars
}

/// The text of `chars[start..end]`.
pub fn text_of(chars: &Vec<char>, start: usize, end: usize) -> (text: String)
    requires
        start <= end <= chars@.len(),
    ensures
        text@ == chars@.subrange(start as int, end as int),
{
    let mut text = String::new();
    let mut i: usize = start;
    while i < end
        invariant
            start <= i <= end <= chars@.len(),
            text@ == chars@.subrange(start as int, i as int),
        decreases end - i,
    {
        text.push(chars[i]);
        i += 1;
        proof {
            assert(chars@.subrange(start as int, i as int) =~= chars@.subrange(
                start as int,
                i - 1,
            ).push(chars@[i - 1]));
        }
    }
    text
}

/// The characters held by each string.
pub open spec fn texts(strings: Seq<String>) -> Seq<Seq<char>> {
    strings.map_values(|s: String| s@)
}

/// A line without the carriage return that its line feed may follow.
pub open spec fn without_cr(line: Seq<char>) -> Seq<char> {
    if line.len() > 0 && line.last() == '\r' {
        line.drop_last()
    } else {
        line
    }
}

/// The lines of `text`: each ends at a line feed, or at the end of a text that does
/// not end in one; a carriage return before a line feed is not part of the line.
pub open spec fn lines_from(text: Seq<char>, start: int, at: int) -> Seq<Seq<char>>
    decreases text.len() - at,
{
    if at >= text.len() {
        if start < text.len() {
            seq![text.subrange(start, text.len() as int)]
        } else {
            Seq::empty()
        }
    } else if text[at] == '\n' {
        seq![without_cr(text.subrange(start, at))] + lines_from(text, at + 1, at + 1)
    } else {
        lines_from(text, start, at + 1)
    }
}

pub open spec fn lines_of(text: Seq<char>) -> Seq<Seq<char>> {
    lines_from(text, 0, 0)
}

/// Splits `text` into its lines.
pub fn split_lines(text: &str) -> (lines: Vec<String>)
    ensures
        texts(lines@) == lines_of(text@),
{
    let chars = chars_of(text);
    let mut lines: Vec<String> = Vec::new();
    let mut start: usize = 0;
    let mut at: usize = 0;
    while at < chars.len()
        invariant
            chars@ == text@,
            start <= at <= chars@.len(),
            texts(lines@) + lines_from(text@, start as int, at as int) == lines_of(text@),
        decreases chars.len() - at,
    {
        if chars[at] == '\n' {
            let end = if at > start && chars[at - 1] == '\r' { at - 1 } else { at };
            let line = text_of(&chars, start, end);
            proof {
                let raw = chars@.subrange(start as int, at as int);
                if at > start && chars@[at - 1] == '\r' {
                    assert(raw.drop_last() =~= line@);
                }
                assert(texts(lines@.push(line)) =~= texts(lines@).push(line@));
                assert(texts(lines@).push(line@) + lines_from(text@, at + 1, at + 1) =~= texts(
                    lines@,
                ) + (seq![line@] + lines_from(text@, at + 1, at + 1)));
            }
            lines.push(line);
            start = at + 1;
        }
        at += 1;
    }
    if start < chars.len() {
        let line = text_of(&chars, start, chars.len());
        proof {
            assert(texts(lines@.push(line)) =~= texts(lines@) + seq![line@]);
        }
        lines.push(line);
    } else {
        proof {
            assert(texts(lines@) + Seq::<Seq<char>>::empty() =~= texts(lines@));
        }
    }
    lines
}

/// `text` with every tab written as four spaces.
pub open spec fn tabs_expanded(text: Seq<char>) -> Seq<char>
    decreases text.len(),
{
    if text.len() == 0 {
        Seq::empty()
    } else if text.last() == '\t' {
        tabs_expanded(text.drop_last()) + seq![' ', ' ', ' ', ' ']
    } else {
        tabs_expanded(text.drop_last()).push(text.last())
    }
}

/// Writes every tab of `line` as four spaces.
pub fn expand_tabs(line: &str) -> (expanded: String)
    ensures
        expanded@ == tabs_expanded(line@),
{
    let chars = chars_of(line);
    let mut expanded = String::new();
    let mut i: usize = 0;
    while i < chars.len()
        invariant
            chars@ == line@,
            i <= chars@.len(),
            expanded@ == tabs_expanded(line@.take(i as int)),
        decreases chars.len() - i,
    {
        proof {
            assert(line@.take(i + 1).drop_last() =~= line@.take(i as int));
        }
        if chars[i] == '\t' {
            expanded.push(' ');
            expanded.push(' ');
            expanded.push(' ');
            expanded.push(' ');
            proof {
                assert(expanded@ =~= tabs_expanded(line@.take(i as int)) + seq![' ', ' ', ' ', ' ']);
            }
        } else {
            expanded.push(chars[i]);
        }
        i += 1;
    }
    proof {
        assert(line@.take(i as int) =~= line@);
    }
    expanded
}

/// The widest of the texts, in cells, at most `u16::MAX`.
pub open spec fn widest(lines: Seq<Seq<char>>) -> u16
    decreases lines.len(),
{
    if lines.len() == 0 {
        0
    } else {
        let rest = widest(lines.drop_last());
        let last = clamp_u16(cell_width(lines.last()) as int);
        if last > rest {
            last
        } else {
            rest
        }
    }
}

/// Cells of the widest line of `text`.
pub fn widest_line(text: &str) -> (cells: u16)
    ensures
        cells == widest(lines_of(text@)),
{
    let lines = split_lines(text);
    let mut cells: u16 = 0;
    let mut i: usize = 0;
    while i < lines.len()
        invariant
            i <= lines@.len(),
            cells == widest(texts(lines@).take(i as int)),
        decreases lines.len() - i,
    {
        let width = display_width_u16(lines[i].as_str());
        if width > cells {
            cells = width;
        }
        proof {
            assert(texts(lines@).take(i + 1).drop_last() =~= texts(lines@).take(i as int));
        }
        i += 1;
    }
    proof {
        assert(texts(lines@).take(i as int) =~= texts(lines@));
    }
    cells
}

} // verus!
