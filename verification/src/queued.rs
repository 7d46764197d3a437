//! Messages that wait to be sent, before they are drawn.
use vstd::prelude::*;
use crate::chars::is_white;
use crate::markdown_spans::{split_white, trimmed};
use crate::prompt_bar::{QueuedLine, QueuedMessage};
use crate::text::{chars_of, text_of};

verus! {

/// Columns that queued messages are wrapped at: what the indent and the blank behind it leave,
/// and at least one.
pub open spec fn queued_columns(usable: usize) -> usize {
    if usable > 2 {
        (usable - 2) as usize
    } else {
        1
    }
}

/// Columns that queued messages are wrapped at in `usable` columns.
pub fn queued_text_width(usable: usize) -> (columns: usize)
    ensures
        columns == queued_columns(usable),
{
    let left = usable.saturating_sub(2);
    if left > 1 {
        left
    } else {
        1
    }
}

/// `text` without the white space at its end.
pub open spec fn end_trimmed(text: Seq<char>) -> Seq<char>
    decreases text.len(),
{
    if text.len() > 0 && is_white(text.last()) {
        end_trimmed(text.drop_last())
    } else {
        text
    }
}

/// `text` without the white space around it.
pub open spec fn bare(text: Seq<char>) -> Seq<char> {
    end_trimmed(trimmed(text))
}

/// `text` without the white space around it.
pub(crate) fn bare_text(text: &str) -> (r: String)
    ensures
        r@ == bare(text@),
{
    let tail = split_white(text).1;
    let chars = chars_of(tail.as_str());
    let mut n: usize = chars.len();
    proof {
        assert(chars@.take(n as int) =~= tail@);
    }
    while n > 0 && chars[n - 1].is_whitespace()
        invariant
            n <= chars@.len(),
            end_trimmed(chars@.take(n as int)) == bare(text@),
        decreases n,
    {
        proof {
            assert(chars@.take(n as int).drop_last() =~= chars@.take(n - 1));
        }
        n -= 1;
    }
    let r = text_of(&chars, 0, n);
    proof {
        assert(r@ =~= chars@.take(n as int));
    }
    r
}

/// `shown` is a line as `wrap` breaks it at so many columns. A line of nothing is not broken.
pub open spec fn is_queued_line<W: Fn(&str, usize) -> Vec<String>>(
    wrap: W,
    line: Seq<char>,
    columns: usize,
    shown: QueuedLine,
) -> bool {
    if line.len() == 0 {
        shown.empty && shown.chunks@.len() == 0
    } else {
        !shown.empty && exists|s: &str| #[trigger]
            call_ensures(wrap, (s, columns), shown.chunks) && s@ == line
    }
}

/// `shown` are the lines of a message that `geometry` gives for so many columns, beside the
/// cells of its block.
pub open spec fn are_queued_lines<
    G: Fn(&str, usize) -> (Vec<String>, usize),
    W: Fn(&str, usize) -> Vec<String>,
>(
    geometry: G,
    wrap: W,
    text: Seq<char>,
    columns: usize,
    block_width: usize,
    shown: Seq<QueuedLine>,
) -> bool {
    exists|s: &str, lines: Vec<String>|
        {
            &&& #[trigger] call_ensures(geometry, (s, columns), (lines, block_width))
            &&& s@ == text
            &&& lines@.len() == shown.len()
            &&& forall|i: int|
                0 <= i < shown.len() ==> is_queued_line(
                    wrap,
                    lines@[i]@,
                    columns,
                    #[trigger] shown[i],
                )
        }
}

/// `message` is a text to be drawn in `usable` columns. Whether it is a command is asked of the
/// text without the white space around it; it is laid out as it is.
pub open spec fn is_queued<
    C: Fn(&str) -> bool,
    G: Fn(&str, usize) -> (Vec<String>, usize),
    W: Fn(&str, usize) -> Vec<String>,
>(
    command: C,
    geometry: G,
    wrap: W,
    text: Seq<char>,
    usable: usize,
    message: QueuedMessage,
) -> bool {
    &&& exists|s: &str| #[trigger]
        call_ensures(command, (s,), message.is_command) && s@ == bare(text)
    &&& are_queued_lines(
        geometry,
        wrap,
        text,
        queued_columns(usable),
        message.block_width,
        message.lines@,
    )
}

fn queue_message<
    C: Fn(&str) -> bool,
    G: Fn(&str, usize) -> (Vec<String>, usize),
    W: Fn(&str, usize) -> Vec<String>,
>(text: &str, usable: usize, command: &C, geometry: &G, wrap: &W) -> (message: QueuedMessage)
    requires
        forall|s: &str| #[trigger] call_requires(*command, (s,)),
        forall|s: &str, n: usize| #[trigger] call_requires(*geometry, (s, n)),
        forall|s: &str, n: usize| #[trigger] call_requires(*wrap, (s, n)),
    ensures
        is_queued(*command, *geometry, *wrap, text@, usable, message),
{
    let asked = bare_text(text);
    let asked = asked.as_str();
    let is_command = command(asked);
    let columns = queued_text_width(usable);
    let (lines, block_width) = geometry(text, columns);
    let mut shown: Vec<QueuedLine> = Vec::new();
    let mut i: usize = 0;
    while i < lines.len()
        invariant
            i <= lines@.len(),
            shown@.len() == i,
            forall|s: &str, n: usize| #[trigger] call_requires(*wrap, (s, n)),
            forall|k: int|
                0 <= k < i ==> is_queued_line(*wrap, lines@[k]@, columns, #[trigger] shown@[k]),
        decreases lines@.len() - i,
    {
        let line = lines[i].as_str();
        if chars_of(line).len() == 0 {
            shown.push(QueuedLine { empty: true, chunks: Vec::new() });
        } else {
            let chunks = wrap(line, columns);
            let shown_line = QueuedLine { empty: false, chunks };
            proof {
                assert(call_ensures(*wrap, (line, columns), shown_line.chunks));
            }
            shown.push(shown_line);
        }
        i += 1;
    }
    let message = QueuedMessage { is_command, block_width, lines: shown };
    proof {
        assert(call_ensures(*command, (asked,), message.is_command));
        assert(call_ensures(*geometry, (text, columns), (lines, message.block_width)));
        assert(are_queued_lines(
            *geometry,
            *wrap,
            text@,
            columns,
            message.block_width,
            message.lines@,
        ));
    }
    message
}

/// Messages to be drawn in `usable` columns: `command` tells commands, `geometry` gives the
/// lines of a message and the cells of its block, and `wrap` breaks a line.
pub fn queue_messages<
    C: Fn(&str) -> bool,
    G: Fn(&str, usize) -> (Vec<String>, usize),
    W: Fn(&str, usize) -> Vec<String>,
>(texts: &Vec<String>, usable: usize, command: &C, geometry: &G, wrap: &W) -> (queued: Vec<
    QueuedMessage,
>)
    requires
        forall|s: &str| #[trigger] call_requires(*command, (s,)),
        forall|s: &str, n: usize| #[trigger] call_requires(*geometry, (s, n)),
        forall|s: &str, n: usize| #[trigger] call_requires(*wrap, (s, n)),
    ensures
        queued@.len() == texts@.len(),
        forall|i: int|
            0 <= i < queued@.len() ==> is_queued(
                *command,
                *geometry,
                *wrap,
                texts@[i]@,
                usable,
                #[trigger] queued@[i],
            ),
{
    let mut queued: Vec<QueuedMessage> = Vec::new();
    let mut i: usize = 0;
    while i < texts.len()
        invariant
            i <= texts@.len(),
            queued@.len() == i,
            forall|s: &str| #[trigger] call_requires(*command, (s,)),
            forall|s: &str, n: usize| #[trigger] call_requires(*geometry, (s, n)),
            forall|s: &str, n: usize| #[trigger] call_requires(*wrap, (s, n)),
            forall|k: int|
                0 <= k < i ==> is_queued(
                    *command,
                    *geometry,
                    *wrap,
                    texts@[k]@,
                    usable,
                    #[trigger] queued@[k],
                ),
        decreases texts@.len() - i,
    {
        let message = queue_message(texts[i].as_str(), usable, command, geometry, wrap);
        queued.push(message);
        i += 1;
    }
    queued
}

} // verus!
