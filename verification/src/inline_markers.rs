//! Markers of inline markdown: where spans of emphasis, code and struck text are, what is
//! left of a text without them, and where it may be broken.
use vstd::prelude::*;
use crate::chars::{is_alnum, is_white};
use crate::text::chars_of;

verus! {

/// The end of the run of `marker` at `i`.
pub open spec fn run_end(chars: Seq<char>, i: int, end: int, marker: char) -> int
    decreases end - i,
{
    if i < end && chars[i] == marker {
        run_end(chars, i + 1, end, marker)
    } else {
        i
    }
}

proof fn lemma_run_end(chars: Seq<char>, i: int, end: int, marker: char)
    ensures
        i <= run_end(chars, i, end, marker),
        i <= end ==> run_end(chars, i, end, marker) <= end,
        i < end && chars[i] == marker ==> i < run_end(chars, i, end, marker),
        forall|k: int| i <= k < run_end(chars, i, end, marker) ==> #[trigger] chars[k] == marker,
    decreases end - i,
{
    if i < end && chars[i] == marker {
        lemma_run_end(chars, i + 1, end, marker);
    }
}

/// The length of the run of `marker` at `i`.
pub fn run_length(chars: &Vec<char>, i: usize, end: usize, marker: char) -> (n: usize)
    requires
        i <= end <= chars@.len(),
    ensures
        n == run_end(chars@, i as int, end as int, marker) - i,
        i + n <= end,
{
    let mut j: usize = i;
    while j < end && chars[j] == marker
        invariant
            i <= j <= end <= chars@.len(),
            run_end(chars@, i as int, end as int, marker) == run_end(
                chars@,
                j as int,
                end as int,
                marker,
            ),
        decreases end - j,
    {
        j += 1;
    }
    j - i
}

/// Whether a run of `count` markers at `i` can open emphasis: something other than white
/// space follows, and an underscore does not stand behind a letter or digit.
pub open spec fn opens_emphasis(
    chars: Seq<char>,
    i: int,
    count: int,
    end: int,
    marker: char,
) -> bool {
    &&& i + count < end
    &&& !is_white(chars[i + count])
    &&& !(marker == '_' && i > 0 && is_alnum(chars[i - 1]))
}

/// Whether a run of `count` markers at `i` can open emphasis.
pub fn can_open_emphasis(chars: &Vec<char>, i: usize, count: usize, end: usize, marker: char) -> (r:
    bool)
    requires
        i + count <= end <= chars@.len(),
    ensures
        r == opens_emphasis(chars@, i as int, count as int, end as int, marker),
{
    let after = i + count;
    if after >= end || chars[after].is_whitespace() {
        return false;
    }
    if marker == '_' && i > 0 && chars[i - 1].is_alphanumeric() {
        return false;
    }
    true
}

/// Whether a run of exactly `count` markers at `j` can close emphasis: it does not stand
/// behind white space, and no letter or digit follows an underscore.
pub open spec fn closes_emphasis(
    chars: Seq<char>,
    j: int,
    end: int,
    marker: char,
    count: int,
) -> bool {
    let after = run_end(chars, j, end, marker);
    &&& after - j == count
    &&& j > 0
    &&& !is_white(chars[j - 1])
    &&& marker == '*' || after >= end || !is_alnum(chars[after])
}

/// The first run from `j` on that closes emphasis.
pub open spec fn closing_run(
    chars: Seq<char>,
    j: int,
    end: int,
    marker: char,
    count: int,
) -> Option<int>
    decreases end - j,
{
    if j >= end {
        None
    } else if chars[j] != marker {
        closing_run(chars, j + 1, end, marker, count)
    } else if closes_emphasis(chars, j, end, marker, count) {
        Some(j)
    } else if j < run_end(chars, j, end, marker) <= end {
        closing_run(chars, run_end(chars, j, end, marker), end, marker, count)
    } else {
        None
    }
}

/// A place, as a mathematical value.
pub open spec fn place(at: Option<usize>) -> Option<int> {
    match at {
        Some(at) => Some(at as int),
        None => None,
    }
}

/// The first run from `start` on that closes emphasis.
pub fn find_closing_run(chars: &Vec<char>, start: usize, end: usize, marker: char, count: usize) -> (
r: Option<usize>)
    requires
        end <= chars@.len(),
    ensures
        place(r) == closing_run(chars@, start as int, end as int, marker, count as int),
        r is Some ==> start <= r->0 && r->0 + count <= end,
{
    let mut j: usize = start;
    while j < end
        invariant
            end <= chars@.len(),
            start <= j,
            closing_run(chars@, start as int, end as int, marker, count as int) == closing_run(
                chars@,
                j as int,
                end as int,
                marker,
                count as int,
            ),
        decreases end - j,
    {
        if chars[j] == marker {
            let run = run_length(chars, j, end, marker);
            proof {
                lemma_run_end(chars@, j as int, end as int, marker);
            }
            if run == count && j > 0 && !chars[j - 1].is_whitespace() {
                let after = j + run;
                if marker == '*' || after >= end || !chars[after].is_alphanumeric() {
                    return Some(j);
                }
            }
            j += run;
        } else {
            j += 1;
        }
    }
    None
}

/// The first backtick from `j` on.
pub open spec fn code_close(chars: Seq<char>, j: int, end: int) -> Option<int>
    decreases end - j,
{
    if j >= end {
        None
    } else if chars[j] == '`' {
        Some(j)
    } else {
        code_close(chars, j + 1, end)
    }
}

/// The first backtick from `start` on.
pub fn find_code_close(chars: &Vec<char>, start: usize, end: usize) -> (r: Option<usize>)
    requires
        end <= chars@.len(),
    ensures
        place(r) == code_close(chars@, start as int, end as int),
        r is Some ==> start <= r->0 < end,
{
    let mut j: usize = start;
    while j < end
        invariant
            end <= chars@.len(),
            start <= j,
            code_close(chars@, start as int, end as int) == code_close(
                chars@,
                j as int,
                end as int,
            ),
        decreases end - j,
    {
        if chars[j] == '`' {
            return Some(j);
        }
        j += 1;
    }
    None
}

/// The first pair of tildes from `j` on.
pub open spec fn strike_close(chars: Seq<char>, j: int, end: int) -> Option<int>
    decreases end - j,
{
    if j + 1 >= end {
        None
    } else if chars[j] == '~' && chars[j + 1] == '~' {
        Some(j)
    } else {
        strike_close(chars, j + 1, end)
    }
}

/// The first pair of tildes from `start` on.
pub fn find_strike_close(chars: &Vec<char>, start: usize, end: usize) -> (r: Option<usize>)
    requires
        start <= end <= chars@.len(),
    ensures
        place(r) == strike_close(chars@, start as int, end as int),
        r is Some ==> start <= r->0 && r->0 + 2 <= end,
{
    let mut j: usize = start;
    while end - j > 1
        invariant
            start <= j <= end <= chars@.len(),
            strike_close(chars@, start as int, end as int) == strike_close(
                chars@,
                j as int,
                end as int,
            ),
        decreases end - j,
    {
        if chars[j] == '~' && chars[j + 1] == '~' {
            return Some(j);
        }
        j += 1;
    }
    None
}

/// A span: its content, and the place behind its closing marker.
#[derive(Clone, Copy, Debug, PartialEq, Eq, Structural)]
pub struct InlineSpan {
    pub content_start: usize,
    pub content_end: usize,
    pub after: usize,
}

/// A span, as mathematical values.
pub struct SpanAt {
    pub content_start: int,
    pub content_end: int,
    pub after: int,
}

/// A span, as mathematical values.
pub open spec fn span_option(span: Option<InlineSpan>) -> Option<SpanAt> {
    match span {
        Some(span) => Some(
            SpanAt {
                content_start: span.content_start as int,
                content_end: span.content_end as int,
                after: span.after as int,
            },
        ),
        None => None,
    }
}

/// The span between markers of `count` characters each.
pub open spec fn span_between(start: int, count: int, close: Option<int>) -> Option<SpanAt> {
    match close {
        Some(close) => Some(
            SpanAt { content_start: start + count, content_end: close, after: close + count },
        ),
        None => None,
    }
}

/// The span that begins at `i`: code, struck text, or emphasis of one to three markers.
pub open spec fn span_at(chars: Seq<char>, i: int, end: int) -> Option<SpanAt> {
    let run = run_end(chars, i, end, chars[i]) - i;
    if i >= end {
        None
    } else if chars[i] == '`' {
        span_between(i, 1, code_close(chars, i + 1, end))
    } else if chars[i] == '~' && i + 1 < end && chars[i + 1] == '~' {
        span_between(i, 2, strike_close(chars, i + 2, end))
    } else if (chars[i] == '*' || chars[i] == '_') && 1 <= run <= 3 && opens_emphasis(
        chars,
        i,
        run,
        end,
        chars[i],
    ) {
        span_between(i, run, closing_run(chars, i + run, end, chars[i], run))
    } else {
        None
    }
}

/// The span that begins at `i`, if one does and ends before `end`.
pub fn skip_inline_span_range(chars: &Vec<char>, i: usize, end: usize) -> (r: Option<InlineSpan>)
    requires
        end <= chars@.len(),
    ensures
        span_option(r) == span_at(chars@, i as int, end as int),
        r is Some ==> i < r->0.content_start <= r->0.content_end < r->0.after <= end,
{
    if i >= end {
        return None;
    }
    if chars[i] == '`' {
        if let Some(close) = find_code_close(chars, i + 1, end) {
            return Some(
                InlineSpan { content_start: i + 1, content_end: close, after: close + 1 },
            );
        }
    }
    if end - i > 1 && chars[i] == '~' && chars[i + 1] == '~' {
        if let Some(close) = find_strike_close(chars, i + 2, end) {
            return Some(
                InlineSpan { content_start: i + 2, content_end: close, after: close + 2 },
            );
        }
    }
    if chars[i] == '*' || chars[i] == '_' {
        let marker = chars[i];
        let run = run_length(chars, i, end, marker);
        if 1 <= run && run <= 3 && can_open_emphasis(chars, i, run, end, marker) {
            if let Some(close) = find_closing_run(chars, i + run, end, marker, run) {
                return Some(
                    InlineSpan { content_start: i + run, content_end: close, after: close + run },
                );
            }
        }
    }
    None
}

/// A span that is found lies in the range, and its markers are not empty.
pub proof fn span_lies_in_range(chars: Seq<char>, i: int, end: int)
    requires
        0 <= i,
    ensures
        span_at(chars, i, end) is Some ==> ({
            let span = span_at(chars, i, end)->0;
            i < span.content_start <= span.content_end < span.after <= end
        }),
{
    if i < end {
        lemma_run_end(chars, i, end, chars[i]);
        if chars[i] == '`' {
            lemma_code_close(chars, i + 1, end);
        } else if chars[i] == '~' {
            lemma_strike_close(chars, i + 2, end);
        } else {
            let run = run_end(chars, i, end, chars[i]) - i;
            lemma_closing_run(chars, i + run, end, chars[i], run);
        }
    }
}

proof fn lemma_code_close(chars: Seq<char>, j: int, end: int)
    ensures
        code_close(chars, j, end) is Some ==> j <= code_close(chars, j, end)->0 < end,
    decreases end - j,
{
    if j < end && chars[j] != '`' {
        lemma_code_close(chars, j + 1, end);
    }
}

proof fn lemma_strike_close(chars: Seq<char>, j: int, end: int)
    ensures
        strike_close(chars, j, end) is Some ==> j <= strike_close(chars, j, end)->0 < end - 1,
    decreases end - j,
{
    if j + 1 < end {
        lemma_strike_close(chars, j + 1, end);
    }
}

proof fn lemma_closing_run(chars: Seq<char>, j: int, end: int, marker: char, count: int)
    ensures
        closing_run(chars, j, end, marker, count) is Some ==> j <= closing_run(
            chars,
            j,
            end,
            marker,
            count,
        )->0 && closing_run(chars, j, end, marker, count)->0 + count <= end,
    decreases end - j,
{
    if j < end {
        lemma_run_end(chars, j, end, marker);
        if chars[j] != marker {
            lemma_closing_run(chars, j + 1, end, marker, count);
        } else if !closes_emphasis(chars, j, end, marker, count) {
            lemma_closing_run(chars, run_end(chars, j, end, marker), end, marker, count);
        }
    }
}

/// What is left of `chars[i..end]` without markers: the content of spans, again without
/// markers where it is not code, and all that is in no span. A run of emphasis markers that
/// opens no span is kept whole.
pub open spec fn stripped(chars: Seq<char>, i: int, end: int) -> Seq<char>
    decreases end - i,
{
    if i >= end {
        Seq::empty()
    } else {
        let span = span_at(chars, i, end);
        let run = run_end(chars, i, end, chars[i]);
        if span is Some && i < span->0.content_start <= span->0.content_end < span->0.after
            <= end {
            let content = if chars[i] == '`' {
                chars.subrange(span->0.content_start, span->0.content_end)
            } else {
                stripped(chars, span->0.content_start, span->0.content_end)
            };
            content + stripped(chars, span->0.after, end)
        } else if (chars[i] == '*' || chars[i] == '_') && i < run <= end {
            chars.subrange(i, run) + stripped(chars, run, end)
        } else {
            seq![chars[i]] + stripped(chars, i + 1, end)
        }
    }
}

/// A text without the markers of inline markdown.
pub fn strip_markdown_markers(text: &str) -> (r: String)
    ensures
        r@ == stripped(text@, 0, text@.len() as int),
{
    let chars = chars_of(text);
    strip_range(&chars, 0, chars.len())
}

fn push_range(out: &mut String, chars: &Vec<char>, start: usize, end: usize)
    requires
        start <= end <= chars@.len(),
    ensures
        final(out)@ == old(out)@ + chars@.subrange(start as int, end as int),
{
    let ghost before = out@;
    let mut k: usize = start;
    proof {
        assert(before + chars@.subrange(start as int, start as int) =~= before);
    }
    while k < end
        invariant
            start <= k <= end <= chars@.len(),
            out@ == before + chars@.subrange(start as int, k as int),
        decreases end - k,
    {
        out.push(chars[k]);
        k += 1;
        proof {
            assert(out@ =~= before + chars@.subrange(start as int, k as int));
        }
    }
}

/// What is left of `chars[start..end]` without markers.
pub fn strip_range(chars: &Vec<char>, start: usize, end: usize) -> (out: String)
    requires
        start <= end <= chars@.len(),
    ensures
        out@ == stripped(chars@, start as int, end as int),
    decreases end - start,
{
    let ghost all = stripped(chars@, start as int, end as int);
    let mut out = String::new();
    let mut i: usize = start;
    proof {
        assert(out@ + all =~= all);
    }
    while i < end
        invariant
            start <= i <= end <= chars@.len(),
            all == stripped(chars@, start as int, end as int),
            all == out@ + stripped(chars@, i as int, end as int),
        decreases end - i,
    {
        let ghost before = out@;
        let ghost at = i as int;
        if let Some(span) = skip_inline_span_range(chars, i, end) {
            if chars[i] == '`' {
                push_range(&mut out, chars, span.content_start, span.content_end);
            } else {
                let content = strip_range(chars, span.content_start, span.content_end);
                out.append(content.as_str());
            }
            proof {
                assert(out@ + stripped(chars@, span.after as int, end as int) =~= before
                    + stripped(chars@, at, end as int));
            }
            i = span.after;
        } else if chars[i] == '*' || chars[i] == '_' {
            let run = run_length(chars, i, end, chars[i]);
            proof {
                lemma_run_end(chars@, at, end as int, chars@[at]);
            }
            push_range(&mut out, chars, i, i + run);
            i += run;
            proof {
                assert(out@ + stripped(chars@, i as int, end as int) =~= before + stripped(
                    chars@,
                    at,
                    end as int,
                ));
            }
        } else {
            out.push(chars[i]);
            i += 1;
            proof {
                assert(out@ + stripped(chars@, i as int, end as int) =~= before + stripped(
                    chars@,
                    at,
                    end as int,
                ));
            }
        }
    }
    proof {
        assert(out@ + stripped(chars@, i as int, end as int) =~= out@);
    }
    out
}

/// Where a text may be broken: at spaces that are in no span. A run of emphasis markers that
/// opens no span is passed whole.
pub open spec fn breaks_from(chars: Seq<char>, i: int) -> Seq<bool>
    decreases chars.len() - i,
{
    if i >= chars.len() {
        Seq::empty()
    } else {
        let span = span_at(chars, i, chars.len() as int);
        let run = run_end(chars, i, chars.len() as int, chars[i]);
        if span is Some && i < span->0.after <= chars.len() {
            Seq::new((span->0.after - i) as nat, |k: int| false) + breaks_from(
                chars,
                span->0.after,
            )
        } else if (chars[i] == '*' || chars[i] == '_') && i < run <= chars.len() {
            Seq::new((run - i) as nat, |k: int| false) + breaks_from(chars, run)
        } else {
            seq![chars[i] == ' '] + breaks_from(chars, i + 1)
        }
    }
}

/// For every character of a text, whether it may be broken there.
pub fn breakable_positions(text: &str) -> (breakable: Vec<bool>)
    ensures
        breakable@ == breaks_from(text@, 0),
        breakable@.len() == text@.len(),
{
    let chars = chars_of(text);
    let len = chars.len();
    let mut breakable: Vec<bool> = Vec::new();
    let mut i: usize = 0;
    let ghost all = breaks_from(text@, 0);
    proof {
        assert(breakable@ + all =~= all);
    }
    while i < len
        invariant
            i <= len == chars@.len(),
            chars@ == text@,
            all == breaks_from(text@, 0),
            breakable@.len() == i,
            all == breakable@ + breaks_from(text@, i as int),
        decreases len - i,
    {
        let ghost before = breakable@;
        let ghost at = i as int;
        let span = skip_inline_span_range(&chars, i, len);
        proof {
            lemma_run_end(text@, at, len as int, text@[at]);
        }
        let unbroken_end = match span {
            Some(span) => span.after,
            None => if chars[i] == '*' || chars[i] == '_' {
                i + run_length(&chars, i, len, chars[i])
            } else {
                i
            },
        };
        if i == unbroken_end {
            breakable.push(chars[i] == ' ');
            i += 1;
        } else {
            while i < unbroken_end
                invariant
                    at <= i <= unbroken_end,
                    breakable@ == before + Seq::new((i - at) as nat, |k: int| false),
                    before.len() == at,
                decreases unbroken_end - i,
            {
                breakable.push(false);
                i += 1;
                proof {
                    assert(breakable@ =~= before + Seq::new((i - at) as nat, |k: int| false));
                }
            }
        }
        proof {
            assert(breakable@ + breaks_from(text@, i as int) =~= before + breaks_from(text@, at));
        }
    }
    proof {
        assert(breakable@ + breaks_from(text@, i as int) =~= breakable@);
    }
    breakable
}

/// A text never grows by losing its markers.
pub proof fn stripping_never_lengthens(chars: Seq<char>, i: int, end: int)
    requires
        0 <= i,
        end <= chars.len(),
    ensures
        stripped(chars, i, end).len() <= if i < end {
            end - i
        } else {
            0
        },
    decreases end - i,
{
    if i < end {
        let span = span_at(chars, i, end);
        let run = run_end(chars, i, end, chars[i]);
        span_lies_in_range(chars, i, end);
        if span is Some {
            stripping_never_lengthens(chars, span->0.content_start, span->0.content_end);
            stripping_never_lengthens(chars, span->0.after, end);
        } else if (chars[i] == '*' || chars[i] == '_') && i < run <= end {
            stripping_never_lengthens(chars, run, end);
        } else {
            stripping_never_lengthens(chars, i + 1, end);
        }
    }
}

/// A character that can be part of a marker.
pub open spec fn is_marker(c: char) -> bool {
    c == '*' || c == '_' || c == '`' || c == '~'
}

/// A text without any marker is left as it is.
pub proof fn unmarked_text_is_kept(chars: Seq<char>, i: int, end: int)
    requires
        0 <= i <= end <= chars.len(),
        forall|k: int| i <= k < end ==> !is_marker(#[trigger] chars[k]),
    ensures
        stripped(chars, i, end) == chars.subrange(i, end),
    decreases end - i,
{
    if i < end {
        assert(!is_marker(chars[i]));
        unmarked_text_is_kept(chars, i + 1, end);
    }
    assert(stripped(chars, i, end) =~= chars.subrange(i, end));
}

/// A text is only broken at spaces.
pub proof fn breaks_are_at_spaces(chars: Seq<char>, i: int, k: int)
    requires
        0 <= i,
        0 <= k < breaks_from(chars, i).len(),
        breaks_from(chars, i)[k],
    ensures
        i + k < chars.len(),
        chars[i + k] == ' ',
    decreases chars.len() - i,
{
    if i < chars.len() {
        let span = span_at(chars, i, chars.len() as int);
        let run = run_end(chars, i, chars.len() as int, chars[i]);
        if span is Some && i < span->0.after <= chars.len() {
            breaks_are_at_spaces(chars, span->0.after, k - (span->0.after - i));
        } else if (chars[i] == '*' || chars[i] == '_') && i < run <= chars.len() {
            breaks_are_at_spaces(chars, run, k - (run - i));
        } else if k > 0 {
            breaks_are_at_spaces(chars, i + 1, k - 1);
        }
    }
}

} // verus!
