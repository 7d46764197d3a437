//! The prompt as it was typed, laid out: what is displayed of its text, wrapped into rows, and
//! where the cursor and the selection are there.
use vstd::prelude::*;
use crate::prompt_input::{fits_columns, is_one_line, one_line, InputState, VisualLine};
use crate::prompt_spans::{
    build_char_kinds, display_kinds, displayed, parts, spans_to_string, Span, SpanPart, SpanSources,
};
use crate::prompt_style::{Selection, SpanKind};
use crate::queued::{bare, bare_text};
use crate::text::chars_of;

verus! {

/// The prompt as it was typed.
#[derive(Clone, Copy, Debug)]
pub struct TypedPrompt<'a> {
    pub text: &'a str,
    /// Characters before the cursor.
    pub cursor_char: usize,
    /// The bytes of the text that are selected.
    pub selection: Option<Selection>,
    /// Where the cursor is, and where it was when the prompt was last drawn.
    pub cursor_place: usize,
    pub drawn_cursor_place: Option<usize>,
    pub scroll_top: u16,
    pub pending_recenter: bool,
}

/// The rows that a display is wrapped into, with the row of the cursor and the characters before
/// the cursor in that row.
#[derive(Debug)]
pub struct WrappedInput {
    pub lines: Vec<VisualLine>,
    pub cursor_line: usize,
    pub cursor_char_in_line: usize,
}

/// What the text of a prompt is laid out with.
pub struct InputLayout<'a, P, M, W, O, C> {
    /// The characters of a text before one of its bytes.
    pub char_pos: &'a P,
    /// The place on the display of a place in the text.
    pub map_cursor: &'a M,
    /// Wraps a display, with the kinds of its characters and a cursor, to so many cells.
    pub wrap_and_locate_cursor: &'a W,
    /// The characters of a display before each of its rows.
    pub line_offsets: &'a O,
    /// Whether a text without white space around it is a command.
    pub is_command: &'a C,
}

/// `place` is where the display has character `at` of a text.
pub open spec fn is_mapped<M: Fn(usize, &str, &Vec<Span>) -> usize>(
    map: M,
    at: usize,
    text: Seq<char>,
    spans: Seq<SpanPart>,
    place: usize,
) -> bool {
    exists|s: &str, given: Vec<Span>| #[trigger]
        call_ensures(map, (at, s, &given), place) && s@ == text && parts(given@) == spans
}

/// `place` is where the display has byte `byte` of a text.
pub open spec fn byte_is_mapped<
    P: Fn(&str, usize) -> usize,
    M: Fn(usize, &str, &Vec<Span>) -> usize,
>(count: P, map: M, byte: usize, text: Seq<char>, spans: Seq<SpanPart>, place: usize) -> bool {
    exists|s: &str, at: usize| #[trigger]
        call_ensures(count, (s, byte), at) && s@ == text && is_mapped(map, at, text, spans, place)
}

/// `wrapped` is a display wrapped to so many cells.
pub open spec fn is_wrapped<W: Fn(&str, &Vec<SpanKind>, usize, usize) -> WrappedInput>(
    wrap: W,
    spans: Seq<SpanPart>,
    cursor: usize,
    usable: usize,
    wrapped: WrappedInput,
) -> bool {
    exists|s: &str, kinds: Vec<SpanKind>| #[trigger]
        call_ensures(wrap, (s, &kinds, cursor, usable), wrapped) && s@ == displayed(spans) && kinds@
            == display_kinds(spans)
}

/// `offsets` are the characters of a display before each of these rows.
pub open spec fn are_offsets<O: Fn(&str, &Vec<VisualLine>) -> Vec<usize>>(
    count: O,
    spans: Seq<SpanPart>,
    lines: Vec<VisualLine>,
    offsets: Vec<usize>,
) -> bool {
    exists|s: &str, given: Vec<VisualLine>| #[trigger]
        call_ensures(count, (s, &given), offsets) && s@ == displayed(spans) && given == lines
}

/// `command` says whether a text, without the white space around it, is a command.
pub open spec fn tells_command<C: Fn(&str) -> bool>(
    is_command: C,
    text: Seq<char>,
    command: bool,
) -> bool {
    exists|s: &str| #[trigger] call_ensures(is_command, (s,), command) && s@ == bare(text)
}

/// The rows and the cursor of `state` are those of `wrapped`.
pub open spec fn has_rows(state: InputState, wrapped: WrappedInput) -> bool {
    &&& state.lines == wrapped.lines
    &&& state.cursor_line == wrapped.cursor_line
    &&& state.cursor_char_in_line == wrapped.cursor_char_in_line
}

impl<
    'a,
    P: Fn(&str, usize) -> usize,
    M: Fn(usize, &str, &Vec<Span>) -> usize,
    W: Fn(&str, &Vec<SpanKind>, usize, usize) -> WrappedInput,
    O: Fn(&str, &Vec<VisualLine>) -> Vec<usize>,
    C: Fn(&str) -> bool,
> InputLayout<'a, P, M, W, O, C> {
    /// Every question may be asked.
    pub open spec fn answers(&self) -> bool {
        &&& forall|s: &str, byte: usize| #[trigger] call_requires(*self.char_pos, (s, byte))
        &&& forall|at: usize, s: &str, spans: &Vec<Span>| #[trigger]
            call_requires(*self.map_cursor, (at, s, spans))
        &&& forall|s: &str, kinds: &Vec<SpanKind>, cursor: usize, usable: usize| #[trigger]
            call_requires(*self.wrap_and_locate_cursor, (s, kinds, cursor, usable))
        &&& forall|s: &str, lines: &Vec<VisualLine>| #[trigger]
            call_requires(*self.line_offsets, (s, lines))
        &&& forall|s: &str| #[trigger] call_requires(*self.is_command, (s,))
    }

    /// `state` is `prompt`, displayed as `spans` in `usable` cells. Whether it is a command is
    /// asked of a text of one line, without the white space around it; the cursor has moved where
    /// it is not where it was drawn.
    pub open spec fn is_laid_out(
        &self,
        prompt: TypedPrompt<'_>,
        spans: Seq<SpanPart>,
        usable: usize,
        state: InputState,
    ) -> bool {
        let text = prompt.text@;
        &&& state.text@ == text
        &&& if is_one_line(text) {
            tells_command(*self.is_command, text, state.looks_like_command)
        } else {
            !state.looks_like_command
        }
        &&& exists|cursor: usize, wrapped: WrappedInput| #[trigger]
            is_wrapped(*self.wrap_and_locate_cursor, spans, cursor, usable, wrapped) && is_mapped(
                *self.map_cursor,
                prompt.cursor_char,
                text,
                spans,
                cursor,
            ) && has_rows(state, wrapped)
        &&& are_offsets(*self.line_offsets, spans, state.lines, state.line_offsets)
        &&& match prompt.selection {
            Some(selected) => {
                &&& state.selection matches Some(shown)
                &&& byte_is_mapped(
                    *self.char_pos,
                    *self.map_cursor,
                    selected.start,
                    text,
                    spans,
                    shown.start,
                )
                &&& byte_is_mapped(
                    *self.char_pos,
                    *self.map_cursor,
                    selected.end,
                    text,
                    spans,
                    shown.end,
                )
            },
            None => state.selection is None,
        }
        &&& state.scroll_top == prompt.scroll_top
        &&& state.pending_recenter == prompt.pending_recenter
        &&& state.cursor_moved == (prompt.drawn_cursor_place != Some(prompt.cursor_place))
    }

    /// The place on the display of a byte of the text.
    fn map_byte(&self, byte: usize, text: &str, spans: &Vec<Span>) -> (place: usize)
        requires
            self.answers(),
        ensures
            byte_is_mapped(
                *self.char_pos,
                *self.map_cursor,
                byte,
                text@,
                parts(spans@),
                place,
            ),
    {
        let at = (self.char_pos)(text, byte);
        let place = (self.map_cursor)(at, text, spans);
        proof {
            assert(is_mapped(*self.map_cursor, at, text@, parts(spans@), place));
        }
        place
    }

    /// Lays out a prompt in `usable` cells.
    pub fn lay_out<
        F: Fn(&Vec<char>, usize) -> Option<usize>,
        G: Fn(&Vec<char>, usize) -> Option<usize>,
    >(&self, prompt: &TypedPrompt<'_>, sources: &SpanSources<'a, F, G>, usable: usize) -> (state:
        InputState)
        requires
            self.answers(),
            sources.wf(),
        ensures
            self.is_laid_out(*prompt, sources.parts_of(prompt.text@), usable, state),
    {
        let spans = sources.build_display_spans(prompt.text);
        let display = spans_to_string(&spans);
        let kinds = build_char_kinds(&spans);
        let ghost all = sources.parts_of(prompt.text@);
        let cursor = (self.map_cursor)(prompt.cursor_char, prompt.text, &spans);
        let selection = match prompt.selection {
            Some(selected) => Some(
                Selection {
                    start: self.map_byte(selected.start, prompt.text, &spans),
                    end: self.map_byte(selected.end, prompt.text, &spans),
                },
            ),
            None => None,
        };
        let wrapped = (self.wrap_and_locate_cursor)(display.as_str(), &kinds, cursor, usable);
        let ghost given = wrapped;
        let line_offsets = (self.line_offsets)(display.as_str(), &wrapped.lines);
        proof {
            assert(are_offsets(*self.line_offsets, all, wrapped.lines, line_offsets));
        }
        let chars = chars_of(prompt.text);
        let looks_like_command = if one_line(&chars) {
            let bare = bare_text(prompt.text);
            let command = (self.is_command)(bare.as_str());
            proof {
                assert(tells_command(*self.is_command, prompt.text@, command));
            }
            command
        } else {
            false
        };
        let cursor_moved = match prompt.drawn_cursor_place {
            Some(place) => place != prompt.cursor_place,
            None => true,
        };
        let state = InputState {
            text: String::from_str(prompt.text),
            looks_like_command,
            lines: wrapped.lines,
            line_offsets,
            cursor_line: wrapped.cursor_line,
            cursor_char_in_line: wrapped.cursor_char_in_line,
            selection,
            scroll_top: prompt.scroll_top,
            pending_recenter: prompt.pending_recenter,
            cursor_moved,
        };
        proof {
            assert(is_wrapped(*self.wrap_and_locate_cursor, all, cursor, usable, given));
            assert(is_mapped(*self.map_cursor, prompt.cursor_char, prompt.text@, all, cursor));
            assert(has_rows(state, given));
        }
        state
    }
}

/// Whether a prompt's rows and its cursor can be counted in columns.
pub fn columns_fit(state: &InputState) -> (r: bool)
    ensures
        r == fits_columns(*state),
{
    if state.line_offsets.len() != state.lines.len() {
        return false;
    }
    let mut i: usize = 0;
    while i < state.lines.len()
        invariant
            i <= state.lines@.len(),
            state.line_offsets@.len() == state.lines@.len(),
            forall|k: int|
                0 <= k < i ==> (#[trigger] state.lines@[k]).text@.len() + 2 <= u16::MAX,
            forall|k: int|
                0 <= k < i ==> #[trigger] state.line_offsets@[k] + state.lines@[k].text@.len()
                    <= usize::MAX,
        decreases state.lines@.len() - i,
    {
        let len = chars_of(state.lines[i].text.as_str()).len();
        if len > 65533 || state.line_offsets[i] > usize::MAX - len {
            proof {
                let line = state.lines@[i as int];
                assert(line.text@.len() + 2 > u16::MAX || state.line_offsets@[i as int]
                    + line.text@.len() > usize::MAX);
            }
            return false;
        }
        i += 1;
    }
    state.cursor_char_in_line < 65535 && state.cursor_line < usize::MAX
}

} // verus!
