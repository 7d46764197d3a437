//! The prompt's text as it is displayed: attachments by their labels, references to files,
//! and control codes made visible.
use vstd::prelude::*;
use crate::chars::is_control_code;
use crate::prompt_style::SpanKind;
use crate::text::chars_of;

verus! {

/// The character that stands for an attachment.
pub const ATTACHMENT_MARKER: char = '\u{FFFC}';

/// Cells that a tab is displayed as.
pub const TAB_CELLS: usize = 4;

/// A part of the displayed text. A tab and an attachment are one character of the source
/// each.
#[derive(Debug)]
pub enum Span {
    Plain(String),
    Tab,
    Attachment(String),
    AtRef(String),
}

/// A part of the displayed text, as mathematical values.
pub enum SpanPart {
    Plain(Seq<char>),
    Tab,
    Attachment(Seq<char>),
    AtRef(Seq<char>),
}

impl View for Span {
    type V = SpanPart;

    open spec fn view(&self) -> SpanPart {
        match self {
            Span::Plain(text) => SpanPart::Plain(text@),
            Span::Tab => SpanPart::Tab,
            Span::Attachment(text) => SpanPart::Attachment(text@),
            Span::AtRef(text) => SpanPart::AtRef(text@),
        }
    }
}

/// Some parts.
pub open spec fn parts(spans: Seq<Span>) -> Seq<SpanPart> {
    spans.map_values(|span: Span| span@)
}

/// A character as it is displayed: control codes but for the line feed are replaced.
pub open spec fn safe_char(c: char) -> char {
    if c != '\n' && is_control_code(c) {
        '\u{FFFD}'
    } else {
        c
    }
}

/// A character as it is displayed: control codes but for the line feed are replaced.
pub fn display_safe_plain_char(c: char) -> (r: char)
    ensures
        r == safe_char(c),
{
    if c != '\n' && c.is_control() {
        '\u{FFFD}'
    } else {
        c
    }
}

/// A text as it is displayed.
pub open spec fn safe_text(text: Seq<char>) -> Seq<char> {
    text.map_values(|c: char| safe_char(c))
}

/// A text as it is displayed.
pub fn display_safe_plain_text(text: &str) -> (r: String)
    ensures
        r@ == safe_text(text@),
{
    let chars = chars_of(text);
    let r = safe_range(&chars, 0, chars.len());
    proof {
        assert(chars@.subrange(0, chars@.len() as int) =~= text@);
    }
    r
}

fn safe_range(chars: &Vec<char>, start: usize, end: usize) -> (r: String)
    requires
        start <= end <= chars@.len(),
    ensures
        r@ == safe_text(chars@.subrange(start as int, end as int)),
{
    let mut r = String::new();
    let mut i: usize = start;
    proof {
        assert(r@ =~= safe_text(chars@.subrange(start as int, start as int)));
    }
    while i < end
        invariant
            start <= i <= end <= chars@.len(),
            r@ == safe_text(chars@.subrange(start as int, i as int)),
        decreases end - i,
    {
        r.push(display_safe_plain_char(chars[i]));
        i += 1;
        proof {
            assert(r@ =~= safe_text(chars@.subrange(start as int, i as int)));
        }
    }
    r
}

/// `f` gives `r` on some vector of these characters.
pub open spec fn ends_to<F: Fn(&Vec<char>, usize) -> Option<usize>>(
    f: F,
    chars: Seq<char>,
    i: usize,
    r: Option<usize>,
) -> bool {
    exists|v: Vec<char>| #[trigger] call_ensures(f, (&v, i), r) && v@ == chars
}

/// Where `f` says that the token at `i` ends.
pub open spec fn token_end<F: Fn(&Vec<char>, usize) -> Option<usize>>(
    f: F,
    chars: Seq<char>,
    i: int,
) -> Option<usize> {
    let at = i as usize;
    choose|r: Option<usize>| #[trigger] ends_to(f, chars, at, r)
}

/// `f` can be asked of any place, gives the same for the same characters, and a token that
/// it finds is not empty and within the text.
pub open spec fn pure_scanner<F: Fn(&Vec<char>, usize) -> Option<usize>>(f: F) -> bool {
    &&& forall|v: &Vec<char>, i: usize| #[trigger] call_requires(f, (v, i))
    &&& forall|chars: Seq<char>, i: usize, a: Option<usize>, b: Option<usize>|
        #[trigger] ends_to(f, chars, i, a) && #[trigger] ends_to(f, chars, i, b) ==> a == b
    &&& forall|chars: Seq<char>, i: usize, r: Option<usize>| #[trigger]
        ends_to(f, chars, i, r) && r is Some && i < chars.len() ==> i < r->0 <= chars.len()
}

/// What a text is displayed with: the labels of its attachments, which of its tokens are
/// references and which are tokens only, and whether tabs are displayed as spaces.
pub struct SpanScan {
    pub labels: Seq<Seq<char>>,
    pub at_ref: spec_fn(Seq<char>, int) -> Option<usize>,
    pub at_token: spec_fn(Seq<char>, int) -> Option<usize>,
    pub tabs: bool,
}

/// The label of the attachment at place `n`.
pub open spec fn label_at(labels: Seq<Seq<char>>, n: int) -> Seq<char> {
    if 0 <= n < labels.len() {
        labels[n]
    } else {
        seq!['[', '?', ']']
    }
}

/// Plain text as a part, if there is any.
pub open spec fn plain_part(plain: Seq<char>) -> Seq<SpanPart> {
    if plain.len() > 0 {
        seq![SpanPart::Plain(plain)]
    } else {
        Seq::empty()
    }
}

/// The parts of a text from `i` on, where `plain` was read before and `attachments` were
/// passed.
pub open spec fn parts_from(
    scan: SpanScan,
    chars: Seq<char>,
    i: int,
    plain: Seq<char>,
    attachments: int,
) -> Seq<SpanPart>
    decreases chars.len() - i,
{
    if i >= chars.len() {
        plain_part(plain)
    } else {
        let at_ref = (scan.at_ref)(chars, i);
        let at_token = (scan.at_token)(chars, i);
        if chars[i] == ATTACHMENT_MARKER {
            plain_part(plain) + seq![SpanPart::Attachment(label_at(scan.labels, attachments))]
                + parts_from(scan, chars, i + 1, Seq::empty(), attachments + 1)
        } else if at_ref is Some && i < at_ref->0 <= chars.len() {
            plain_part(plain) + seq![
                SpanPart::AtRef(safe_text(chars.subrange(i, at_ref->0 as int))),
            ] + parts_from(scan, chars, at_ref->0 as int, Seq::empty(), attachments)
        } else if at_token is Some && i < at_token->0 <= chars.len() {
            plain_part(plain) + seq![
                SpanPart::Plain(safe_text(chars.subrange(i, at_token->0 as int))),
            ] + parts_from(scan, chars, at_token->0 as int, Seq::empty(), attachments)
        } else if scan.tabs && chars[i] == '\t' {
            plain_part(plain) + seq![SpanPart::Tab] + parts_from(
                scan,
                chars,
                i + 1,
                Seq::empty(),
                attachments,
            )
        } else {
            parts_from(scan, chars, i + 1, plain.push(safe_char(chars[i])), attachments)
        }
    }
}

/// What a text is displayed with.
pub struct SpanSources<'a, F, G> {
    /// The label of each attachment, in the order of their markers.
    pub labels: &'a Vec<String>,
    /// Where the reference at a place ends, if one is there.
    pub at_ref: &'a F,
    /// Where the token at a place ends, if one is there.
    pub at_token: &'a G,
    /// Whether tabs are displayed as spaces.
    pub tabs: bool,
}

impl<
    'a,
    F: Fn(&Vec<char>, usize) -> Option<usize>,
    G: Fn(&Vec<char>, usize) -> Option<usize>,
> SpanSources<'a, F, G> {
    pub open spec fn scan(&self) -> SpanScan {
        let at_ref = *self.at_ref;
        let at_token = *self.at_token;
        SpanScan {
            labels: crate::text::texts(self.labels@),
            at_ref: |chars: Seq<char>, i: int| token_end(at_ref, chars, i),
            at_token: |chars: Seq<char>, i: int| token_end(at_token, chars, i),
            tabs: self.tabs,
        }
    }

    pub open spec fn wf(&self) -> bool {
        pure_scanner(*self.at_ref) && pure_scanner(*self.at_token)
    }

    /// The parts of a text.
    pub open spec fn parts_of(&self, text: Seq<char>) -> Seq<SpanPart> {
        parts_from(self.scan(), text, 0, Seq::empty(), 0)
    }

    /// The parts of a text.
    pub fn build_display_spans(&self, buf: &str) -> (spans: Vec<Span>)
        requires
            self.wf(),
        ensures
            parts(spans@) == self.parts_of(buf@),
    {
        let chars = chars_of(buf);
        let ghost scan = self.scan();
        let ghost all = self.parts_of(buf@);
        let mut spans: Vec<Span> = Vec::new();
        let mut plain = String::new();
        let mut plain_len: usize = 0;
        let mut attachments: usize = 0;
        let mut i: usize = 0;
        proof {
            assert(plain@ =~= Seq::<char>::empty());
            assert(parts(spans@) + all =~= all);
        }
        while i < chars.len()
            invariant
                i <= chars@.len(),
                chars@ == buf@,
                self.wf(),
                scan == self.scan(),
                plain_len == plain@.len(),
                plain_len <= i,
                attachments <= i,
                parts(spans@) + parts_from(scan, buf@, i as int, plain@, attachments as int)
                    == all,
            decreases chars@.len() - i,
        {
            let ghost before = parts(spans@);
            let ghost plain_before = plain@;
            let mut part: Option<Span> = None;
            let mut next: usize = i + 1;
            if chars[i] == ATTACHMENT_MARKER {
                let label = if attachments < self.labels.len() {
                    self.labels[attachments].clone()
                } else {
                    String::from_str("[?]")
                };
                proof {
                    reveal_strlit("[?]");
                    assert("[?]"@ =~= seq!['[', '?', ']']);
                }
                part = Some(Span::Attachment(label));
            } else {
                let found = (self.at_ref)(&chars, i);
                proof {
                    assert(ends_to(*self.at_ref, chars@, i, found));
                    assert(found == token_end(*self.at_ref, chars@, i as int));
                }
                if let Some(end) = found {
                    part = Some(Span::AtRef(safe_range(&chars, i, end)));
                    next = end;
                } else {
                    let found = (self.at_token)(&chars, i);
                    proof {
                        assert(ends_to(*self.at_token, chars@, i, found));
                        assert(found == token_end(*self.at_token, chars@, i as int));
                    }
                    if let Some(end) = found {
                        part = Some(Span::Plain(safe_range(&chars, i, end)));
                        next = end;
                    } else if self.tabs && chars[i] == '\t' {
                        part = Some(Span::Tab);
                    }
                }
            }
            match part {
                Some(span) => {
                    let ghost part_view = span@;
                    if plain_len > 0 {
                        let ghost now = spans@;
                        spans.push(Span::Plain(plain));
                        proof {
                            assert(parts(spans@) =~= parts(now) + plain_part(plain_before));
                        }
                        plain = String::new();
                        plain_len = 0;
                    }
                    proof {
                        assert(parts(spans@) =~= before + plain_part(plain_before));
                        assert(plain@ =~= Seq::<char>::empty());
                    }
                    let ghost now = spans@;
                    if chars[i] == ATTACHMENT_MARKER {
                        attachments += 1;
                    }
                    spans.push(span);
                    proof {
                        assert(parts(spans@) =~= parts(now) + seq![part_view]);
                        let rest = parts_from(
                            scan,
                            buf@,
                            next as int,
                            Seq::empty(),
                            attachments as int,
                        );
                        assert(before + (plain_part(plain_before) + seq![part_view] + rest) =~= parts(
                            spans@,
                        ) + rest);
                    }
                },
                None => {
                    plain.push(display_safe_plain_char(chars[i]));
                    plain_len += 1;
                },
            }
            i = next;
        }
        let ghost before = spans@;
        let ghost plain_before = plain@;
        if plain_len > 0 {
            spans.push(Span::Plain(plain));
        }
        proof {
            assert(parts(spans@) =~= parts(before) + plain_part(plain_before));
        }
        spans
    }
}

/// What a part is displayed as.
pub open spec fn part_text(part: SpanPart) -> Seq<char> {
    match part {
        SpanPart::Plain(text) => text,
        SpanPart::Tab => seq![' ', ' ', ' ', ' '],
        SpanPart::Attachment(text) => text,
        SpanPart::AtRef(text) => text,
    }
}

/// What some parts are displayed as.
pub open spec fn displayed(spans: Seq<SpanPart>) -> Seq<char>
    decreases spans.len(),
{
    if spans.len() == 0 {
        Seq::empty()
    } else {
        displayed(spans.drop_last()) + part_text(spans.last())
    }
}

/// What some parts are displayed as.
pub fn spans_to_string(spans: &Vec<Span>) -> (text: String)
    ensures
        text@ == displayed(parts(spans@)),
{
    let ghost all = parts(spans@);
    let mut text = String::new();
    let mut i: usize = 0;
    proof {
        assert(text@ =~= displayed(all.take(0)));
    }
    while i < spans.len()
        invariant
            i <= spans@.len(),
            all == parts(spans@),
            text@ == displayed(all.take(i as int)),
        decreases spans@.len() - i,
    {
        proof {
            assert(all.take(i + 1).drop_last() =~= all.take(i as int));
        }
        match &spans[i] {
            Span::Plain(t) => text.append(t.as_str()),
            Span::Attachment(t) => text.append(t.as_str()),
            Span::AtRef(t) => text.append(t.as_str()),
            Span::Tab => {
                text.append("    ");
                proof {
                    reveal_strlit("    ");
                    assert("    "@ =~= seq![' ', ' ', ' ', ' ']);
                }
            },
        }
        i += 1;
    }
    proof {
        assert(all.take(i as int) =~= all);
    }
    text
}

/// The kind of a part's characters.
pub open spec fn part_kind(part: SpanPart) -> SpanKind {
    match part {
        SpanPart::Plain(_) => SpanKind::Plain,
        SpanPart::Tab => SpanKind::Plain,
        SpanPart::Attachment(_) => SpanKind::Attachment,
        SpanPart::AtRef(_) => SpanKind::AtRef,
    }
}

/// The kind of each displayed character.
pub open spec fn display_kinds(spans: Seq<SpanPart>) -> Seq<SpanKind>
    decreases spans.len(),
{
    if spans.len() == 0 {
        Seq::empty()
    } else {
        let last = spans.last();
        display_kinds(spans.drop_last()) + Seq::new(
            part_text(last).len(),
            |i: int| part_kind(last),
        )
    }
}

fn push_kinds(kinds: &mut Vec<SpanKind>, kind: SpanKind, n: usize)
    ensures
        final(kinds)@ == old(kinds)@ + Seq::new(n as nat, |i: int| kind),
{
    let ghost before = kinds@;
    let mut i: usize = 0;
    proof {
        assert(before + Seq::new(0, |i: int| kind) =~= before);
    }
    while i < n
        invariant
            i <= n,
            kinds@ == before + Seq::new(i as nat, |i: int| kind),
        decreases n - i,
    {
        kinds.push(kind);
        i += 1;
        proof {
            assert(kinds@ =~= before + Seq::new(i as nat, |i: int| kind));
        }
    }
}

/// The kind of each displayed character.
pub fn build_char_kinds(spans: &Vec<Span>) -> (kinds: Vec<SpanKind>)
    ensures
        kinds@ == display_kinds(parts(spans@)),
{
    let ghost all = parts(spans@);
    let mut kinds: Vec<SpanKind> = Vec::new();
    let mut i: usize = 0;
    proof {
        assert(kinds@ =~= display_kinds(all.take(0)));
    }
    while i < spans.len()
        invariant
            i <= spans@.len(),
            all == parts(spans@),
            kinds@ == display_kinds(all.take(i as int)),
        decreases spans@.len() - i,
    {
        proof {
            assert(all.take(i + 1).drop_last() =~= all.take(i as int));
        }
        match &spans[i] {
            Span::Plain(t) => push_kinds(&mut kinds, SpanKind::Plain, chars_of(t.as_str()).len()),
            Span::Tab => push_kinds(&mut kinds, SpanKind::Plain, TAB_CELLS),
            Span::Attachment(t) => push_kinds(
                &mut kinds,
                SpanKind::Attachment,
                chars_of(t.as_str()).len(),
            ),
            Span::AtRef(t) => push_kinds(&mut kinds, SpanKind::AtRef, chars_of(t.as_str()).len()),
        }
        proof {
            let part = all[i as int];
            assert(Seq::new(part_text(part).len(), |i: int| part_kind(part)) =~= Seq::new(
                part_text(part).len() as usize as nat,
                |i: int| part_kind(part),
            ));
            assert(kinds@ =~= display_kinds(all.take(i + 1)));
        }
        i += 1;
    }
    proof {
        assert(all.take(i as int) =~= all);
    }
    kinds
}

/// Every displayed character has a kind.
pub proof fn kinds_cover_display(spans: Seq<SpanPart>)
    ensures
        display_kinds(spans).len() == displayed(spans).len(),
    decreases spans.len(),
{
    if spans.len() > 0 {
        kinds_cover_display(spans.drop_last());
    }
}

/// No control code but line feeds is in a text.
pub open spec fn has_no_control_codes(text: Seq<char>) -> bool {
    forall|j: int|
        0 <= j < text.len() ==> #[trigger] text[j] == '\n' || !is_control_code(text[j])
}

/// Nothing but line feeds is left of the control codes of a text, whatever its tokens are.
/// The labels of attachments are displayed as they are.
pub proof fn display_has_no_control_codes(
    scan: SpanScan,
    chars: Seq<char>,
    i: int,
    plain: Seq<char>,
    attachments: int,
    k: int,
)
    requires
        0 <= i <= chars.len(),
        has_no_control_codes(plain),
        0 <= k < parts_from(scan, chars, i, plain, attachments).len(),
        !(parts_from(scan, chars, i, plain, attachments)[k] is Attachment),
    ensures
        has_no_control_codes(part_text(parts_from(scan, chars, i, plain, attachments)[k])),
    decreases chars.len() - i,
{
    let head = plain_part(plain);
    let all = parts_from(scan, chars, i, plain, attachments);
    if i < chars.len() {
        let at_ref = (scan.at_ref)(chars, i);
        let at_token = (scan.at_token)(chars, i);
        let none = Seq::<char>::empty();
        if chars[i] == ATTACHMENT_MARKER {
            let part = SpanPart::Attachment(label_at(scan.labels, attachments));
            let rest = parts_from(scan, chars, i + 1, none, attachments + 1);
            lemma_split_parts(all, head, part, rest, k);
            if k > head.len() {
                display_has_no_control_codes(
                    scan,
                    chars,
                    i + 1,
                    none,
                    attachments + 1,
                    k - head.len() - 1,
                );
            }
        } else if at_ref is Some && i < at_ref->0 <= chars.len() {
            let token = chars.subrange(i, at_ref->0 as int);
            let rest = parts_from(scan, chars, at_ref->0 as int, none, attachments);
            lemma_safe_text(token);
            lemma_split_parts(all, head, SpanPart::AtRef(safe_text(token)), rest, k);
            if k > head.len() {
                display_has_no_control_codes(
                    scan,
                    chars,
                    at_ref->0 as int,
                    none,
                    attachments,
                    k - head.len() - 1,
                );
            }
        } else if at_token is Some && i < at_token->0 <= chars.len() {
            let token = chars.subrange(i, at_token->0 as int);
            let rest = parts_from(scan, chars, at_token->0 as int, none, attachments);
            lemma_safe_text(token);
            lemma_split_parts(all, head, SpanPart::Plain(safe_text(token)), rest, k);
            if k > head.len() {
                display_has_no_control_codes(
                    scan,
                    chars,
                    at_token->0 as int,
                    none,
                    attachments,
                    k - head.len() - 1,
                );
            }
        } else if scan.tabs && chars[i] == '\t' {
            let rest = parts_from(scan, chars, i + 1, none, attachments);
            lemma_split_parts(all, head, SpanPart::Tab, rest, k);
            assert(has_no_control_codes(part_text(SpanPart::Tab)));
            if k > head.len() {
                display_has_no_control_codes(
                    scan,
                    chars,
                    i + 1,
                    none,
                    attachments,
                    k - head.len() - 1,
                );
            }
        } else {
            assert(has_no_control_codes(plain.push(safe_char(chars[i]))));
            display_has_no_control_codes(
                scan,
                chars,
                i + 1,
                plain.push(safe_char(chars[i])),
                attachments,
                k,
            );
        }
    }
}

proof fn lemma_safe_text(text: Seq<char>)
    ensures
        has_no_control_codes(safe_text(text)),
{
    assert forall|j: int| 0 <= j < safe_text(text).len() implies #[trigger] safe_text(text)[j]
        == '\n' || !is_control_code(safe_text(text)[j]) by {
        assert(safe_text(text)[j] == safe_char(text[j]));
    }
}

proof fn lemma_split_parts(
    all: Seq<SpanPart>,
    head: Seq<SpanPart>,
    part: SpanPart,
    rest: Seq<SpanPart>,
    k: int,
)
    requires
        all == head + seq![part] + rest,
        0 <= k < all.len(),
    ensures
        k < head.len() ==> all[k] == head[k],
        k == head.len() ==> all[k] == part,
        k > head.len() ==> all[k] == rest[k - head.len() - 1],
{
}

} // verus!
