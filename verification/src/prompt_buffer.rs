//! What the prompt's buffer shows and what is copied from it.
use vstd::prelude::*;
use crate::prompt_input::{is_shell, shell};
use crate::prompt_parser::{
    build_coord_maps, is_display_map, is_source_map, row_parts, row_texts, shown_placeholder,
    source_widths, widths_cover_display, DisplayRow, ProjectionMaps, PromptDisplayRows, RowPart,
};
use crate::prompt_spans::{
    displayed, label_at, parts_from, plain_part, safe_text, SpanPart, SpanScan, SpanSources,
    ATTACHMENT_MARKER,
};
use crate::prompt_style::SpanKind;
use crate::spans::text_option;
use crate::text::{chars_of, str_option, text_of, texts};
use crate::utf8::{char_at_byte, char_index, is_boundary, lemma_bytes_of_take};

verus! {

/// What a place of the prompt stands out as.
#[derive(Clone, Copy, Debug, PartialEq, Eq, Structural)]
pub enum HighlightGroup {
    GhostText,
    Accent,
    ExecPrefix,
}

/// Cells `start .. end` of a row that stand out.
#[derive(Clone, Copy, Debug, PartialEq, Eq, Structural)]
pub struct GroupHighlight {
    pub row: usize,
    pub start: u16,
    pub end: u16,
    pub group: HighlightGroup,
    pub selectable: bool,
}

/// What the prompt's buffer shows. Where it shows a placeholder, the cursor stays where it
/// was asked to be.
#[derive(Debug)]
pub struct ParsedPrompt {
    pub lines: Vec<String>,
    pub highlights: Vec<GroupHighlight>,
    pub preserve_cursor: bool,
    pub maps: ProjectionMaps,
}

/// Cells of a character, as `f` says.
pub open spec fn cells_of<F: Fn(char) -> u16>(f: F, c: char) -> u16 {
    choose|cells: u16| call_ensures(f, (c,), cells)
}

/// `f` can be asked of any character and always says the same.
pub open spec fn pure_widths<F: Fn(char) -> u16>(f: F) -> bool {
    &&& forall|c: char| #[trigger] call_requires(f, (c,))
    &&& forall|c: char, a: u16, b: u16|
        #[trigger] call_ensures(f, (c,), a) && #[trigger] call_ensures(f, (c,), b) ==> a == b
}

/// `f` says that a text of these characters has so many cells.
pub open spec fn measures_to<F: Fn(&str) -> usize>(f: F, text: Seq<char>, cells: usize) -> bool {
    exists|s: &str| #[trigger] call_ensures(f, (s,), cells) && s@ == text
}

/// Cells of a text, as `f` says.
pub open spec fn text_cells<F: Fn(&str) -> usize>(f: F, text: Seq<char>) -> usize {
    choose|cells: usize| #[trigger] measures_to(f, text, cells)
}

/// `f` can be asked of any text, and its answer depends on the characters alone.
pub open spec fn pure_ruler<F: Fn(&str) -> usize>(f: F) -> bool {
    &&& forall|s: &str| #[trigger] call_requires(f, (s,))
    &&& forall|text: Seq<char>, a: usize, b: usize|
        #[trigger] measures_to(f, text, a) && #[trigger] measures_to(f, text, b) ==> a == b
}

/// Cells before character `n` of a row.
pub open spec fn column<W: Fn(char) -> u16>(f: W, text: Seq<char>, n: int) -> u16
    decreases n,
{
    if n <= 0 {
        0
    } else {
        column(f, text, n - 1).saturating_add(cells_of(f, text[n - 1]))
    }
}

/// What stands out: the first `token_end` characters of the text, the `!` of a shell
/// command, and all attachments and references.
pub struct Accents {
    pub token_end: int,
    pub shell: bool,
}

/// How character `i` of row `row` stands out.
pub open spec fn char_highlights<W: Fn(char) -> u16>(
    f: W,
    text: Seq<char>,
    kinds: Seq<SpanKind>,
    row: usize,
    i: int,
    accents: Accents,
) -> Seq<GroupHighlight> {
    let start = column(f, text, i);
    let end = column(f, text, i + 1);
    let accent = GroupHighlight {
        row,
        start,
        end,
        group: HighlightGroup::Accent,
        selectable: true,
    };
    if kinds[i] != SpanKind::Plain {
        if end > start {
            seq![accent]
        } else {
            Seq::empty()
        }
    } else {
        (if row == 0 && i < accents.token_end && end > start {
            seq![accent]
        } else {
            Seq::empty()
        }) + (if accents.shell && row == 0 && i == 0 && text[i] == '!' {
            seq![GroupHighlight { group: HighlightGroup::ExecPrefix, ..accent }]
        } else {
            Seq::empty()
        })
    }
}

/// How the first `n` characters of a row stand out.
pub open spec fn row_highlights<W: Fn(char) -> u16>(
    f: W,
    text: Seq<char>,
    kinds: Seq<SpanKind>,
    row: usize,
    n: int,
    accents: Accents,
) -> Seq<GroupHighlight>
    decreases n,
{
    if n <= 0 {
        Seq::empty()
    } else {
        row_highlights(f, text, kinds, row, n - 1, accents) + char_highlights(
            f,
            text,
            kinds,
            row,
            n - 1,
            accents,
        )
    }
}

/// The characters of a row that have a kind.
pub open spec fn marked_len(row: RowPart) -> int {
    if row.text.len() < row.kinds.len() {
        row.text.len() as int
    } else {
        row.kinds.len() as int
    }
}

/// How the first `n` rows stand out.
pub open spec fn prompt_highlights<W: Fn(char) -> u16>(
    f: W,
    rows: Seq<RowPart>,
    n: int,
    accents: Accents,
) -> Seq<GroupHighlight>
    decreases n,
{
    if n <= 0 {
        Seq::empty()
    } else {
        let row = rows[n - 1];
        prompt_highlights(f, rows, n - 1, accents) + row_highlights(
            f,
            row.text,
            row.kinds,
            (n - 1) as usize,
            marked_len(row),
            accents,
        )
    }
}

/// How a placeholder stands out.
pub open spec fn ghost_highlights(cells: usize) -> Seq<GroupHighlight> {
    let end = if cells < u16::MAX {
        cells as u16
    } else {
        u16::MAX
    };
    if end > 0 {
        seq![
            GroupHighlight {
                row: 0,
                start: 0,
                end,
                group: HighlightGroup::GhostText,
                selectable: false,
            },
        ]
    } else {
        Seq::empty()
    }
}

/// Shows the prompt's text, or a placeholder while it is empty.
#[derive(Debug)]
pub struct PromptBufferParser {
    pub placeholder: Option<String>,
}

impl PromptBufferParser {
    /// A parser without a placeholder.
    pub fn new() -> (parser: Self)
        ensures
            parser.placeholder is None,
    {
        Self::with_placeholder(None)
    }

    /// A parser with a placeholder.
    pub fn with_placeholder(placeholder: Option<String>) -> (parser: Self)
        ensures
            parser.placeholder == placeholder,
    {
        PromptBufferParser { placeholder }
    }

    /// What the buffer shows of a text whose first `command_token_end` characters name a
    /// command.
    pub fn parse<
        'a,
        F: Fn(&Vec<char>, usize) -> Option<usize>,
        G: Fn(&Vec<char>, usize) -> Option<usize>,
        W: Fn(char) -> u16,
        C: Fn(&str) -> usize,
    >(
        &self,
        source: &str,
        sources: &SpanSources<'a, F, G>,
        command_token_end: usize,
        char_width: &W,
        line_cells: &C,
    ) -> (parsed: ParsedPrompt)
        requires
            sources.wf(),
            pure_widths(*char_width),
            pure_ruler(*line_cells),
            source@.len() < usize::MAX,
            displayed(sources.parts_of(source@)).len() < usize::MAX,
        ensures
            exists|rows: PromptDisplayRows|
                {
                    &&& #[trigger] sources.displays(source@, text_option(self.placeholder), rows)
                    &&& texts(parsed.lines@) == row_parts(rows.visual_lines@).map_values(
                        |row: RowPart| row.text,
                    )
                    &&& parsed.maps.row_offsets@ == rows.row_offsets@
                },
            match shown_placeholder(source@, text_option(self.placeholder)) {
                Some(text) => {
                    &&& parsed.preserve_cursor
                    &&& parsed.highlights@ == ghost_highlights(text_cells(*line_cells, text))
                    &&& parsed.maps.source_char_to_display_char@ == seq![0usize]
                    &&& parsed.maps.display_char_to_source_char@ == Seq::new(
                        text.len() + 1,
                        |i: int| 0usize,
                    )
                },
                None => {
                    let spans = sources.parts_of(source@);
                    let rows = crate::prompt_parser::rows_from(
                        displayed(spans),
                        crate::prompt_spans::display_kinds(spans),
                        0,
                        0,
                    );
                    &&& !parsed.preserve_cursor
                    &&& parsed.highlights@ == prompt_highlights(
                        *char_width,
                        rows,
                        rows.len() as int,
                        Accents { token_end: command_token_end as int, shell: is_shell(source@) },
                    )
                    &&& is_source_map(
                        parsed.maps.source_char_to_display_char@,
                        source_widths(spans),
                    )
                    &&& is_display_map(
                        parsed.maps.display_char_to_source_char@,
                        source_widths(spans),
                    )
                },
            },
    {
        let placeholder = match &self.placeholder {
            Some(text) => Some(text.as_str()),
            None => None,
        };
        let rows = sources.build_prompt_display_rows(source, placeholder);
        let lines = row_texts(&rows.visual_lines);
        proof {
            assert(str_option(placeholder) == text_option(self.placeholder));
        }
        let ghost all = row_parts(rows.visual_lines@);
        let mut highlights: Vec<GroupHighlight> = Vec::new();
        if rows.ghost_text {
            let mut display_char_to_source_char: Vec<usize> = Vec::new();
            display_char_to_source_char.push(0);
            if let Some(text) = placeholder {
                let cells = line_cells(text);
                proof {
                    assert(measures_to(*line_cells, text@, cells));
                    assert(cells == text_cells(*line_cells, text@));
                }
                let end: u16 = if cells < u16::MAX as usize {
                    cells as u16
                } else {
                    u16::MAX
                };
                if end > 0 {
                    highlights.push(
                        GroupHighlight {
                            row: 0,
                            start: 0,
                            end,
                            group: HighlightGroup::GhostText,
                            selectable: false,
                        },
                    );
                }
                proof {
                    assert(highlights@ =~= ghost_highlights(cells));
                }
                let n = chars_of(text).len();
                let mut i: usize = 0;
                while i < n
                    invariant
                        i <= n,
                        display_char_to_source_char@ == Seq::new((i + 1) as nat, |k: int| 0usize),
                    decreases n - i,
                {
                    display_char_to_source_char.push(0);
                    i += 1;
                    proof {
                        assert(display_char_to_source_char@ =~= Seq::new(
                            (i + 1) as nat,
                            |k: int| 0usize,
                        ));
                    }
                }
            }
            let mut source_char_to_display_char: Vec<usize> = Vec::new();
            source_char_to_display_char.push(0);
            proof {
                assert(source_char_to_display_char@ =~= seq![0usize]);
            }
            return ParsedPrompt {
                lines,
                highlights,
                preserve_cursor: true,
                maps: ProjectionMaps {
                    source_char_to_display_char,
                    display_char_to_source_char,
                    row_offsets: rows.row_offsets,
                },
            };
        }
        let source_chars = chars_of(source);
        let is_shell_text = shell(&source_chars);
        let ghost accents = Accents {
            token_end: command_token_end as int,
            shell: is_shell(source@),
        };
        let mut li: usize = 0;
        while li < rows.visual_lines.len()
            invariant
                li <= rows.visual_lines@.len(),
                all == row_parts(rows.visual_lines@),
                pure_widths(*char_width),
                accents.token_end == command_token_end,
                accents.shell == is_shell_text,
                highlights@ == prompt_highlights(*char_width, all, li as int, accents),
            decreases rows.visual_lines@.len() - li,
        {
            highlight_row(
                &mut highlights,
                &rows.visual_lines[li],
                li,
                command_token_end,
                is_shell_text,
                char_width,
            );
            li += 1;
        }
        proof {
            let spans = sources.parts_of(source@);
            widths_cover_display(spans);
            source_widths_match_source(sources.scan(), source@, 0, Seq::empty(), 0);
        }
        let (source_char_to_display_char, display_char_to_source_char) = build_coord_maps(
            &rows.spans,
        );
        ParsedPrompt {
            lines,
            highlights,
            preserve_cursor: false,
            maps: ProjectionMaps {
                source_char_to_display_char,
                display_char_to_source_char,
                row_offsets: rows.row_offsets,
            },
        }
    }
}

/// Adds how a row stands out.
fn highlight_row<W: Fn(char) -> u16>(
    highlights: &mut Vec<GroupHighlight>,
    row: &DisplayRow,
    li: usize,
    command_token_end: usize,
    is_shell_text: bool,
    char_width: &W,
)
    requires
        pure_widths(*char_width),
    ensures
        final(highlights)@ == old(highlights)@ + row_highlights(
            *char_width,
            row.text@,
            row.kinds@,
            li,
            marked_len(row@),
            Accents { token_end: command_token_end as int, shell: is_shell_text },
        ),
{
    let ghost accents = Accents { token_end: command_token_end as int, shell: is_shell_text };
    let ghost before = highlights@;
    let chars = chars_of(row.text.as_str());
    let mut col: u16 = 0;
    let mut i: usize = 0;
    proof {
        assert(before + row_highlights(*char_width, row.text@, row.kinds@, li, 0, accents)
            =~= before);
    }
    while i < chars.len() && i < row.kinds.len()
        invariant
            i <= chars@.len(),
            i <= row.kinds@.len(),
            chars@ == row.text@,
            pure_widths(*char_width),
            accents.token_end == command_token_end,
            accents.shell == is_shell_text,
            col == column(*char_width, row.text@, i as int),
            highlights@ == before + row_highlights(
                *char_width,
                row.text@,
                row.kinds@,
                li,
                i as int,
                accents,
            ),
        decreases chars@.len() - i,
    {
        let c = chars[i];
        let cells = char_width(c);
        proof {
            assert(cells == cells_of(*char_width, c));
        }
        let next = col.saturating_add(cells);
        let ghost now = highlights@;
        let accent = GroupHighlight {
            row: li,
            start: col,
            end: next,
            group: HighlightGroup::Accent,
            selectable: true,
        };
        if row.kinds[i] != SpanKind::Plain {
            if next > col {
                highlights.push(accent);
            }
        } else {
            if li == 0 && i < command_token_end && next > col {
                highlights.push(accent);
            }
            if is_shell_text && li == 0 && i == 0 && c == '!' {
                highlights.push(
                    GroupHighlight {
                        row: li,
                        start: col,
                        end: next,
                        group: HighlightGroup::ExecPrefix,
                        selectable: true,
                    },
                );
            }
        }
        proof {
            let added = char_highlights(
                *char_width,
                row.text@,
                row.kinds@,
                li,
                i as int,
                accents,
            );
            assert(column(*char_width, row.text@, i + 1) == next);
            assert(highlights@ =~= now + added);
            assert(highlights@ =~= before + row_highlights(
                *char_width,
                row.text@,
                row.kinds@,
                li,
                i + 1,
                accents,
            ));
        }
        col = next;
        i += 1;
    }
}

proof fn lemma_widths_of_concat(a: Seq<SpanPart>, b: Seq<SpanPart>)
    ensures
        source_widths(a + b).len() == source_widths(a).len() + source_widths(b).len(),
    decreases b.len(),
{
    if b.len() == 0 {
        assert(a + b =~= a);
    } else {
        lemma_widths_of_concat(a, b.drop_last());
        assert((a + b).drop_last() =~= a + b.drop_last());
    }
}

proof fn lemma_widths_of_one(part: SpanPart)
    ensures
        source_widths(seq![part]).len() == crate::prompt_parser::part_widths(part).len(),
{
    assert(seq![part].drop_last() =~= Seq::<SpanPart>::empty());
    assert(source_widths(seq![part].drop_last()) =~= Seq::<nat>::empty());
}

/// Every character of the source has its place in the display, and nothing else has.
pub proof fn source_widths_match_source(
    scan: SpanScan,
    chars: Seq<char>,
    i: int,
    plain: Seq<char>,
    attachments: int,
)
    requires
        0 <= i <= chars.len(),
    ensures
        source_widths(parts_from(scan, chars, i, plain, attachments)).len() == plain.len()
            + chars.len() - i,
    decreases chars.len() - i,
{
    let head = plain_part(plain);
    if plain.len() > 0 {
        lemma_widths_of_one(SpanPart::Plain(plain));
    } else {
        assert(source_widths(head) =~= Seq::<nat>::empty());
    }
    if i < chars.len() {
        let at_ref = (scan.at_ref)(chars, i);
        let at_token = (scan.at_token)(chars, i);
        let none = Seq::<char>::empty();
        if chars[i] == ATTACHMENT_MARKER {
            let part = SpanPart::Attachment(label_at(scan.labels, attachments));
            let rest = parts_from(scan, chars, i + 1, none, attachments + 1);
            source_widths_match_source(scan, chars, i + 1, none, attachments + 1);
            lemma_widths_of_one(part);
            lemma_widths_of_concat(head, seq![part]);
            lemma_widths_of_concat(head + seq![part], rest);
        } else if at_ref is Some && i < at_ref->0 <= chars.len() {
            let part = SpanPart::AtRef(safe_text(chars.subrange(i, at_ref->0 as int)));
            let rest = parts_from(scan, chars, at_ref->0 as int, none, attachments);
            source_widths_match_source(scan, chars, at_ref->0 as int, none, attachments);
            lemma_widths_of_one(part);
            lemma_widths_of_concat(head, seq![part]);
            lemma_widths_of_concat(head + seq![part], rest);
        } else if at_token is Some && i < at_token->0 <= chars.len() {
            let part = SpanPart::Plain(safe_text(chars.subrange(i, at_token->0 as int)));
            let rest = parts_from(scan, chars, at_token->0 as int, none, attachments);
            source_widths_match_source(scan, chars, at_token->0 as int, none, attachments);
            lemma_widths_of_one(part);
            lemma_widths_of_concat(head, seq![part]);
            lemma_widths_of_concat(head + seq![part], rest);
        } else if scan.tabs && chars[i] == '\t' {
            let rest = parts_from(scan, chars, i + 1, none, attachments);
            source_widths_match_source(scan, chars, i + 1, none, attachments);
            lemma_widths_of_one(SpanPart::Tab);
            lemma_widths_of_concat(head, seq![SpanPart::Tab]);
            lemma_widths_of_concat(head + seq![SpanPart::Tab], rest);
        } else {
            source_widths_match_source(
                scan,
                chars,
                i + 1,
                plain.push(crate::prompt_spans::safe_char(chars[i])),
                attachments,
            );
        }
    }
}

/// What is copied: for the editor itself, and for other programs.
#[derive(Debug)]
pub struct CopyOutput {
    pub kill_ring: String,
    pub clipboard: String,
}

/// Copies parts of the prompt, whose attachments have these labels.
#[derive(Debug)]
pub struct PromptCopier {
    pub labels: Vec<String>,
}

/// Attachments in a text.
pub open spec fn markers(text: Seq<char>) -> int
    decreases text.len(),
{
    if text.len() == 0 {
        0
    } else if text.last() == ATTACHMENT_MARKER {
        markers(text.drop_last()) + 1
    } else {
        markers(text.drop_last())
    }
}

/// A text with every attachment written as its label, where `before` others came before.
pub open spec fn labelled(text: Seq<char>, labels: Seq<Seq<char>>, before: int) -> Seq<char>
    decreases text.len(),
{
    if text.len() == 0 {
        Seq::empty()
    } else if text.last() == ATTACHMENT_MARKER {
        labelled(text.drop_last(), labels, before) + label_at(
            labels,
            before + markers(text.drop_last()),
        )
    } else {
        labelled(text.drop_last(), labels, before).push(text.last())
    }
}

proof fn lemma_markers(text: Seq<char>)
    ensures
        0 <= markers(text) <= text.len(),
    decreases text.len(),
{
    if text.len() > 0 {
        lemma_markers(text.drop_last());
    }
}

proof fn lemma_unmarked(text: Seq<char>, labels: Seq<Seq<char>>, before: int)
    requires
        markers(text) == 0,
    ensures
        labelled(text, labels, before) == text,
    decreases text.len(),
{
    if text.len() > 0 {
        lemma_markers(text.drop_last());
        lemma_unmarked(text.drop_last(), labels, before);
        assert(text.drop_last().push(text.last()) =~= text);
    }
}

impl PromptCopier {
    /// A copier for attachments of these labels.
    pub fn new(labels: Vec<String>) -> (copier: Self)
        ensures
            copier.labels == labels,
    {
        PromptCopier { labels }
    }

    /// Copies the bytes `start .. end` of a text. The editor gets them as they are, others
    /// get the labels of attachments.
    pub fn copy(&self, src: &str, start: usize, end: usize) -> (out: CopyOutput)
        requires
            start <= end,
            is_boundary(src@, start),
            is_boundary(src@, end),
        ensures
            ({
                let a = char_at_byte(src@, start);
                let b = char_at_byte(src@, end);
                let raw = src@.subrange(a, b);
                &&& out.kill_ring@ == raw
                &&& out.clipboard@ == labelled(raw, texts(self.labels@), markers(src@.take(a)))
            }),
    {
        let chars = chars_of(src);
        let a = char_index(&chars, start);
        let b = char_index(&chars, end);
        let ghost labels = texts(self.labels@);
        proof {
            if b < a {
                lemma_bytes_of_take(src@, b as int, a as int);
            }
        }
        let ghost raw = src@.subrange(a as int, b as int);
        let mut attachment: usize = 0;
        let mut i: usize = 0;
        proof {
            assert(src@.take(0) =~= Seq::<char>::empty());
        }
        while i < a
            invariant
                i <= a <= chars@.len(),
                chars@ == src@,
                attachment <= i,
                attachment == markers(src@.take(i as int)),
            decreases a - i,
        {
            proof {
                assert(src@.take(i + 1).drop_last() =~= src@.take(i as int));
            }
            if chars[i] == ATTACHMENT_MARKER {
                attachment += 1;
            }
            i += 1;
        }
        let ghost before = attachment as int;
        let mut clipboard = String::new();
        let mut k: usize = a;
        proof {
            assert(raw.take(0) =~= Seq::<char>::empty());
            assert(clipboard@ =~= labelled(raw.take(0), labels, before));
            assert(markers(raw.take(0)) == 0);
        }
        while k < b
            invariant
                a <= k <= b <= chars@.len(),
                chars@ == src@,
                raw == src@.subrange(a as int, b as int),
                labels == texts(self.labels@),
                attachment == before + markers(raw.take(k - a)),
                attachment <= k,
                clipboard@ == labelled(raw.take(k - a), labels, before),
            decreases b - k,
        {
            proof {
                assert(raw.take(k + 1 - a).drop_last() =~= raw.take(k - a));
                assert(raw.take(k + 1 - a).last() == src@[k as int]);
            }
            if chars[k] == ATTACHMENT_MARKER {
                if attachment < self.labels.len() {
                    clipboard.append(self.labels[attachment].as_str());
                } else {
                    clipboard.append("[?]");
                    proof {
                        reveal_strlit("[?]");
                        assert("[?]"@ =~= seq!['[', '?', ']']);
                    }
                }
                attachment += 1;
            } else {
                clipboard.push(chars[k]);
            }
            k += 1;
        }
        let kill_ring = text_of(&chars, a, b);
        proof {
            assert(raw.take(b - a) =~= raw);
        }
        CopyOutput { kill_ring, clipboard }
    }
}

/// Text without attachments is copied as it stands.
pub proof fn plain_text_is_copied_as_it_is(raw: Seq<char>, labels: Seq<Seq<char>>, before: int)
    requires
        !raw.contains(ATTACHMENT_MARKER),
    ensures
        labelled(raw, labels, before) == raw,
{
    lemma_no_markers(raw);
    lemma_unmarked(raw, labels, before);
}

proof fn lemma_no_markers(text: Seq<char>)
    requires
        !text.contains(ATTACHMENT_MARKER),
    ensures
        markers(text) == 0,
    decreases text.len(),
{
    if text.len() > 0 {
        assert(text[text.len() - 1] != ATTACHMENT_MARKER);
        assert forall|i: int| 0 <= i < text.drop_last().len() implies text.drop_last()[i]
            != ATTACHMENT_MARKER by {
            assert(text[i] != ATTACHMENT_MARKER);
        }
        lemma_no_markers(text.drop_last());
    }
}

/// What a namespace of marks holds at one place: text that is shown but not there, or
/// something else.
#[derive(Debug)]
pub enum ExtmarkPayload {
    VirtText(String),
    Other,
}

/// Puts a placeholder into its namespace, in place of all that was there. One that says
/// nothing is none.
pub fn set_placeholder_extmark(marks: &mut Vec<ExtmarkPayload>, text: Option<String>)
    ensures
        final(marks)@ == match text {
            Some(text) if text@.len() > 0 => seq![ExtmarkPayload::VirtText(text)],
            _ => Seq::empty(),
        },
{
    *marks = Vec::new();
    if let Some(text) = text {
        if !text.as_str().is_empty() {
            marks.push(ExtmarkPayload::VirtText(text));
        }
    }
    proof {
        assert(marks@ =~= match text {
            Some(text) if text@.len() > 0 => seq![ExtmarkPayload::VirtText(text)],
            _ => Seq::empty(),
        });
    }
}

/// The first text among some marks from `i` on.
pub open spec fn first_virt_text(marks: Seq<ExtmarkPayload>, i: int) -> Option<Seq<char>>
    decreases marks.len() - i,
{
    if i >= marks.len() {
        None
    } else {
        match marks[i] {
            ExtmarkPayload::VirtText(text) => Some(text@),
            ExtmarkPayload::Other => first_virt_text(marks, i + 1),
        }
    }
}

/// The placeholder in its namespace.
pub fn placeholder_text(marks: &Vec<ExtmarkPayload>) -> (text: Option<String>)
    ensures
        text_option(text) == first_virt_text(marks@, 0),
{
    let mut i: usize = 0;
    while i < marks.len()
        invariant
            i <= marks@.len(),
            first_virt_text(marks@, 0) == first_virt_text(marks@, i as int),
        decreases marks@.len() - i,
    {
        if let ExtmarkPayload::VirtText(text) = &marks[i] {
            return Some(text.clone());
        }
        i += 1;
    }
    None
}

} // verus!
