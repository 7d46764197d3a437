//! What the markers of inline markdown do to a text.
use vstd::prelude::*;
use crate::chars::{is_alnum, is_white};
use crate::inline_markers::{
    breaks_from, closes_emphasis, closing_run, code_close, run_end, span_at, span_lies_in_range,
    strike_close, stripped,
};

verus! {

proof fn lemma_code_close_at(chars: Seq<char>, j: int, close: int, end: int)
    requires
        0 <= j <= close < end,
        chars[close] == '`',
        forall|k: int| j <= k < close ==> #[trigger] chars[k] != '`',
    ensures
        code_close(chars, j, end) == Some(close),
    decreases close - j,
{
    if j < close {
        lemma_code_close_at(chars, j + 1, close, end);
    }
}

proof fn lemma_no_code_close(chars: Seq<char>, j: int, end: int)
    requires
        0 <= j,
        forall|k: int| j <= k < end ==> #[trigger] chars[k] != '`',
    ensures
        code_close(chars, j, end) is None,
    decreases end - j,
{
    if j < end {
        lemma_no_code_close(chars, j + 1, end);
    }
}

/// Between a backtick and the next one stands code: of it everything is kept but the two
/// backticks. A backtick without another behind it is kept itself.
pub proof fn code_loses_its_backticks(chars: Seq<char>, i: int, close: int, end: int)
    requires
        0 <= i < end <= chars.len(),
        chars[i] == '`',
        i < close <= end,
        forall|k: int| i < k < close ==> #[trigger] chars[k] != '`',
        close < end ==> chars[close] == '`',
    ensures
        close < end ==> stripped(chars, i, end) == chars.subrange(i + 1, close) + stripped(
            chars,
            close + 1,
            end,
        ),
        close == end ==> stripped(chars, i, end) == seq!['`'] + stripped(chars, i + 1, end),
{
    if close < end {
        lemma_code_close_at(chars, i + 1, close, end);
    } else {
        lemma_no_code_close(chars, i + 1, end);
    }
}

proof fn lemma_strike_close_at(chars: Seq<char>, j: int, close: int, end: int)
    requires
        0 <= j <= close,
        close + 1 < end,
        chars[close] == '~' && chars[close + 1] == '~',
        forall|k: int| j <= k < close ==> !(#[trigger] chars[k] == '~' && chars[k + 1] == '~'),
    ensures
        strike_close(chars, j, end) == Some(close),
    decreases close - j,
{
    if j < close {
        assert(!(chars[j] == '~' && chars[j + 1] == '~'));
        lemma_strike_close_at(chars, j + 1, close, end);
    }
}

/// Text between pairs of tildes loses them, and its own markers as any other text does.
pub proof fn struck_text_loses_its_tildes(chars: Seq<char>, i: int, close: int, end: int)
    requires
        0 <= i,
        i + 2 <= close,
        close + 1 < end <= chars.len(),
        chars[i] == '~' && chars[i + 1] == '~',
        chars[close] == '~' && chars[close + 1] == '~',
        forall|k: int| i + 2 <= k < close ==> !(#[trigger] chars[k] == '~' && chars[k + 1] == '~'),
    ensures
        stripped(chars, i, end) == stripped(chars, i + 2, close) + stripped(chars, close + 2, end),
{
    lemma_strike_close_at(chars, i + 2, close, end);
}

proof fn lemma_run(chars: Seq<char>, i: int, n: int, end: int, marker: char)
    requires
        0 <= i,
        n >= 0,
        i + n <= end,
        forall|k: int| i <= k < i + n ==> #[trigger] chars[k] == marker,
        i + n == end || chars[i + n] != marker,
    ensures
        run_end(chars, i, end, marker) == i + n,
    decreases n,
{
    if n > 0 {
        assert(chars[i] == marker);
        lemma_run(chars, i + 1, n - 1, end, marker);
    }
}

proof fn lemma_closing_at(chars: Seq<char>, j: int, close: int, end: int, marker: char, n: int)
    requires
        0 <= j <= close < end,
        chars[close] == marker,
        closes_emphasis(chars, close, end, marker, n),
        forall|k: int| j <= k < close ==> #[trigger] chars[k] != marker,
    ensures
        closing_run(chars, j, end, marker, n) == Some(close),
    decreases close - j,
{
    if j < close {
        lemma_closing_at(chars, j + 1, close, end, marker, n);
    }
}

/// Text between runs of one to three equal markers loses them: stars anywhere, underscores not
/// inside a word. It begins and ends with something other than white space.
pub proof fn emphasised_text_loses_its_markers(
    chars: Seq<char>,
    i: int,
    n: int,
    close: int,
    end: int,
    marker: char,
)
    requires
        marker == '*' || marker == '_',
        1 <= n <= 3,
        0 <= i,
        i + n < close,
        close + n <= end <= chars.len(),
        forall|k: int| i <= k < i + n ==> #[trigger] chars[k] == marker,
        forall|k: int| i + n <= k < close ==> #[trigger] chars[k] != marker,
        forall|k: int| close <= k < close + n ==> #[trigger] chars[k] == marker,
        close + n == end || chars[close + n] != marker,
        !is_white(chars[i + n]),
        !is_white(chars[close - 1]),
        marker == '_' && i > 0 ==> !is_alnum(chars[i - 1]),
        marker == '_' && close + n < end ==> !is_alnum(chars[close + n]),
    ensures
        stripped(chars, i, end) == stripped(chars, i + n, close) + stripped(chars, close + n, end),
{
    lemma_run(chars, i, n, end, marker);
    lemma_run(chars, close, n, end, marker);
    assert(chars[i] == marker);
    assert(chars[close] == marker);
    lemma_closing_at(chars, i + n, close, end, marker, n);
}

/// Markers that open nothing are kept: before white space, at the end, more than three of
/// them, or underscores inside a word.
pub proof fn markers_that_open_nothing_are_kept(
    chars: Seq<char>,
    i: int,
    n: int,
    end: int,
    marker: char,
)
    requires
        marker == '*' || marker == '_',
        1 <= n,
        0 <= i,
        i + n <= end <= chars.len(),
        forall|k: int| i <= k < i + n ==> #[trigger] chars[k] == marker,
        i + n == end || chars[i + n] != marker,
        n > 3 || i + n == end || is_white(chars[i + n]) || (marker == '_' && i > 0 && is_alnum(
            chars[i - 1],
        )),
    ensures
        stripped(chars, i, end) == chars.subrange(i, i + n) + stripped(chars, i + n, end),
{
    lemma_run(chars, i, n, end, marker);
    assert(chars[i] == marker);
}

/// A character that is no marker is kept where it stands.
pub proof fn other_characters_are_kept(chars: Seq<char>, i: int, end: int)
    requires
        0 <= i < end <= chars.len(),
        chars[i] != '*' && chars[i] != '_' && chars[i] != '`' && chars[i] != '~',
    ensures
        stripped(chars, i, end) == seq![chars[i]] + stripped(chars, i + 1, end),
{
}

/// A text may be broken at each blank outside of spans, and nowhere inside of one.
pub proof fn text_breaks_outside_spans(chars: Seq<char>, i: int, k: int)
    requires
        0 <= i < chars.len(),
    ensures
        span_at(chars, i, chars.len() as int) matches Some(span) ==> (0 <= k < span.after - i
            ==> breaks_from(chars, i).len() > k && !breaks_from(chars, i)[k]) && breaks_from(
            chars,
            i,
        ).skip(span.after - i) == breaks_from(chars, span.after),
        chars[i] != '*' && chars[i] != '_' && chars[i] != '`' && chars[i] != '~' ==> breaks_from(
            chars,
            i,
        ) == seq![chars[i] == ' '] + breaks_from(chars, i + 1),
{
    span_lies_in_range(chars, i, chars.len() as int);
    if let Some(span) = span_at(chars, i, chars.len() as int) {
        assert(breaks_from(chars, i).skip(span.after - i) =~= breaks_from(chars, span.after));
    }
}

} // verus!
