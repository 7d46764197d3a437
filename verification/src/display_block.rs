//! Blocks of the transcript, compiled for display, and the model that keeps them.
//!
//! What the transcript only compares is held as text or as a number: the arguments of a
//! tool call as JSON text, parsed code and the bodies of tool calls as numbers, with equal
//! numbers for equal values.
use vstd::prelude::*;
use crate::keys::LayoutKey;
use crate::text::texts;
use crate::view_state::{view_rows, ViewState};

verus! {

/// Version of the renderer that blocks are compiled for.
pub const BLOCK_RENDERER_VERSION: u64 = 3;

/// What a compiled block was made from.
#[derive(Clone, Copy, Debug, PartialEq, Eq, Structural)]
pub struct DisplayCacheKey {
    pub content_hash: u64,
    pub sidecar_hash: u64,
    pub renderer_version: u64,
}

impl DisplayCacheKey {
    /// The key of a block compiled by this version of the renderer.
    pub open spec fn of(content_hash: u64, sidecar_hash: u64) -> Self {
        DisplayCacheKey {
            content_hash,
            sidecar_hash,
            renderer_version: BLOCK_RENDERER_VERSION,
        }
    }

    /// The key of a block compiled by this version of the renderer.
    pub fn new(content_hash: u64, sidecar_hash: u64) -> (key: Self)
        ensures
            key == DisplayCacheKey::of(content_hash, sidecar_hash),
    {
        DisplayCacheKey {
            content_hash,
            sidecar_hash,
            renderer_version: BLOCK_RENDERER_VERSION,
        }
    }

    /// The key of a block that is laid out for `key`.
    pub fn from_layout_key(key: LayoutKey) -> (r: Self)
        ensures
            r == DisplayCacheKey::of(key.content_hash, key.sidecar_hash),
    {
        DisplayCacheKey::new(key.content_hash, key.sidecar_hash)
    }
}

/// The state of a tool call: its body, if it has one, and all the rest.
#[derive(Clone, Copy, Debug, PartialEq, Eq, Structural)]
pub struct ToolState {
    pub details: u64,
    pub body: Option<u64>,
}

/// A block of the transcript.
#[derive(Debug)]
#[allow(inconsistent_fields)]
pub enum Block {
    User { text: String, image_labels: Vec<String> },
    Mode { text: String, icon: String, hl_group: String },
    ProcessStatus { text: String },
    Thinking { content: String },
    Text { content: String },
    CodeLine { content: String, lang: String },
    ToolCall { call_id: String, name: String, summary: String, args: String },
    Exec { command: String, output: String },
    Compacted { summary: String },
}

/// A block, as mathematical values.
#[allow(inconsistent_fields)]
pub enum BlockContent {
    User { text: Seq<char>, image_labels: Seq<Seq<char>> },
    Mode { text: Seq<char>, icon: Seq<char>, hl_group: Seq<char> },
    ProcessStatus { text: Seq<char> },
    Thinking { content: Seq<char> },
    Text { content: Seq<char> },
    CodeLine { content: Seq<char>, lang: Seq<char> },
    ToolCall { call_id: Seq<char>, name: Seq<char>, summary: Seq<char>, args: Seq<char> },
    Exec { command: Seq<char>, output: Seq<char> },
    Compacted { summary: Seq<char> },
}

impl View for Block {
    type V = BlockContent;

    open spec fn view(&self) -> BlockContent {
        match self {
            Block::User { text, image_labels } => BlockContent::User {
                text: text@,
                image_labels: texts(image_labels@),
            },
            Block::Mode { text, icon, hl_group } => BlockContent::Mode {
                text: text@,
                icon: icon@,
                hl_group: hl_group@,
            },
            Block::ProcessStatus { text } => BlockContent::ProcessStatus { text: text@ },
            Block::Thinking { content } => BlockContent::Thinking { content: content@ },
            Block::Text { content } => BlockContent::Text { content: content@ },
            Block::CodeLine { content, lang } => BlockContent::CodeLine {
                content: content@,
                lang: lang@,
            },
            Block::ToolCall { call_id, name, summary, args } => BlockContent::ToolCall {
                call_id: call_id@,
                name: name@,
                summary: summary@,
                args: args@,
            },
            Block::Exec { command, output } => BlockContent::Exec {
                command: command@,
                output: output@,
            },
            Block::Compacted { summary } => BlockContent::Compacted { summary: summary@ },
        }
    }
}

/// A block, compiled for display.
#[derive(Debug)]
#[allow(inconsistent_fields)]
pub enum DisplayBlock {
    User { text: String, image_labels: Vec<String> },
    Mode { text: String, icon: String, hl_group: String },
    ProcessStatus { text: String },
    Thinking { content: String },
    Text { content: String },
    CodeLine { content: String, lang: String, code: u64 },
    ToolCall { call_id: String, name: String, summary: String, args: String, state: ToolState },
    Exec { command: String, output: String },
    Compacted { summary: String },
}

/// A compiled block, as mathematical values: the block, its code where it has some, and the
/// state of its tool call where it is one.
pub struct DisplayContent {
    pub content: BlockContent,
    pub code: Option<u64>,
    pub state: Option<ToolState>,
}

impl View for DisplayBlock {
    type V = DisplayContent;

    open spec fn view(&self) -> DisplayContent {
        match self {
            DisplayBlock::User { text, image_labels } => DisplayContent {
                content: BlockContent::User { text: text@, image_labels: texts(image_labels@) },
                code: None,
                state: None,
            },
            DisplayBlock::Mode { text, icon, hl_group } => DisplayContent {
                content: BlockContent::Mode { text: text@, icon: icon@, hl_group: hl_group@ },
                code: None,
                state: None,
            },
            DisplayBlock::ProcessStatus { text } => DisplayContent {
                content: BlockContent::ProcessStatus { text: text@ },
                code: None,
                state: None,
            },
            DisplayBlock::Thinking { content } => DisplayContent {
                content: BlockContent::Thinking { content: content@ },
                code: None,
                state: None,
            },
            DisplayBlock::Text { content } => DisplayContent {
                content: BlockContent::Text { content: content@ },
                code: None,
                state: None,
            },
            DisplayBlock::CodeLine { content, lang, code } => DisplayContent {
                content: BlockContent::CodeLine { content: content@, lang: lang@ },
                code: Some(*code),
                state: None,
            },
            DisplayBlock::ToolCall { call_id, name, summary, args, state } => DisplayContent {
                content: BlockContent::ToolCall {
                    call_id: call_id@,
                    name: name@,
                    summary: summary@,
                    args: args@,
                },
                code: None,
                state: Some(*state),
            },
            DisplayBlock::Exec { command, output } => DisplayContent {
                content: BlockContent::Exec { command: command@, output: output@ },
                code: None,
                state: None,
            },
            DisplayBlock::Compacted { summary } => DisplayContent {
                content: BlockContent::Compacted { summary: summary@ },
                code: None,
                state: None,
            },
        }
    }
}

/// `parse` makes `code` of a text of these characters, in this language.
pub open spec fn parses_to<P: Fn(&str, &str) -> u64>(
    parse: P,
    content: Seq<char>,
    lang: Seq<char>,
    code: u64,
) -> bool {
    exists|text: &str, name: &str| #[trigger]
        call_ensures(parse, (text, name), code) && text@ == content && name@ == lang
}

/// What `parse` makes of a text, in this language.
pub open spec fn parsed<P: Fn(&str, &str) -> u64>(
    parse: P,
    content: Seq<char>,
    lang: Seq<char>,
) -> u64 {
    choose|code: u64| #[trigger] parses_to(parse, content, lang, code)
}

/// `parse` takes any text and always makes the same of it.
pub open spec fn pure_parser<P: Fn(&str, &str) -> u64>(parse: P) -> bool {
    &&& forall|text: &str, name: &str| #[trigger] call_requires(parse, (text, name))
    &&& forall|content: Seq<char>, lang: Seq<char>, a: u64, b: u64|
        #[trigger] parses_to(parse, content, lang, a) && #[trigger] parses_to(
            parse,
            content,
            lang,
            b,
        ) ==> a == b
}

/// The code of a block, where it has some.
pub open spec fn code_of<P: Fn(&str, &str) -> u64>(parse: P, block: BlockContent) -> Option<u64> {
    match block {
        BlockContent::CodeLine { content, lang } => Some(parsed(parse, content, lang)),
        _ => None,
    }
}

/// A block, compiled with the state of its tool call.
pub open spec fn compiled<P: Fn(&str, &str) -> u64>(
    parse: P,
    block: BlockContent,
    state: Option<ToolState>,
) -> DisplayContent {
    DisplayContent {
        content: block,
        code: code_of(parse, block),
        state: if block is ToolCall {
            state
        } else {
            None
        },
    }
}

fn copy_texts(strings: &Vec<String>) -> (r: Vec<String>)
    ensures
        texts(r@) == texts(strings@),
{
    let mut r: Vec<String> = Vec::new();
    let mut i: usize = 0;
    while i < strings.len()
        invariant
            i <= strings@.len(),
            texts(r@) == texts(strings@).take(i as int),
        decreases strings@.len() - i,
    {
        let ghost before = r@;
        let copy = strings[i].clone();
        r.push(copy);
        i += 1;
        proof {
            assert(copy@ == texts(strings@)[i - 1]);
            assert(texts(r@) =~= texts(before).push(copy@));
            assert(texts(r@) =~= texts(strings@).take(i as int));
        }
    }
    proof {
        assert(texts(strings@).take(i as int) =~= texts(strings@));
    }
    r
}

fn same_texts(a: &Vec<String>, b: &Vec<String>) -> (r: bool)
    ensures
        r == (texts(a@) == texts(b@)),
{
    if a.len() != b.len() {
        proof {
            assert(texts(a@).len() != texts(b@).len());
        }
        return false;
    }
    let mut i: usize = 0;
    while i < a.len()
        invariant
            i <= a@.len(),
            a@.len() == b@.len(),
            forall|k: int| 0 <= k < i ==> texts(a@)[k] == texts(b@)[k],
        decreases a@.len() - i,
    {
        if a[i] != b[i] {
            proof {
                assert(texts(a@)[i as int] != texts(b@)[i as int]);
            }
            return false;
        }
        i += 1;
    }
    proof {
        assert(texts(a@) =~= texts(b@));
    }
    true
}

/// A copy of a block.
pub fn copy_block(block: &Block) -> (r: Block)
    ensures
        r@ == block@,
{
    match block {
        Block::User { text, image_labels } => Block::User {
            text: text.clone(),
            image_labels: copy_texts(image_labels),
        },
        Block::Mode { text, icon, hl_group } => Block::Mode {
            text: text.clone(),
            icon: icon.clone(),
            hl_group: hl_group.clone(),
        },
        Block::ProcessStatus { text } => Block::ProcessStatus { text: text.clone() },
        Block::Thinking { content } => Block::Thinking { content: content.clone() },
        Block::Text { content } => Block::Text { content: content.clone() },
        Block::CodeLine { content, lang } => Block::CodeLine {
            content: content.clone(),
            lang: lang.clone(),
        },
        Block::ToolCall { call_id, name, summary, args } => Block::ToolCall {
            call_id: call_id.clone(),
            name: name.clone(),
            summary: summary.clone(),
            args: args.clone(),
        },
        Block::Exec { command, output } => Block::Exec {
            command: command.clone(),
            output: output.clone(),
        },
        Block::Compacted { summary } => Block::Compacted { summary: summary.clone() },
    }
}

/// A copy of a compiled block.
pub fn copy_display_block(block: &DisplayBlock) -> (r: DisplayBlock)
    ensures
        r@ == block@,
{
    match block {
        DisplayBlock::User { text, image_labels } => DisplayBlock::User {
            text: text.clone(),
            image_labels: copy_texts(image_labels),
        },
        DisplayBlock::Mode { text, icon, hl_group } => DisplayBlock::Mode {
            text: text.clone(),
            icon: icon.clone(),
            hl_group: hl_group.clone(),
        },
        DisplayBlock::ProcessStatus { text } => DisplayBlock::ProcessStatus {
            text: text.clone(),
        },
        DisplayBlock::Thinking { content } => DisplayBlock::Thinking { content: content.clone() },
        DisplayBlock::Text { content } => DisplayBlock::Text { content: content.clone() },
        DisplayBlock::CodeLine { content, lang, code } => DisplayBlock::CodeLine {
            content: content.clone(),
            lang: lang.clone(),
            code: *code,
        },
        DisplayBlock::ToolCall { call_id, name, summary, args, state } => DisplayBlock::ToolCall {
            call_id: call_id.clone(),
            name: name.clone(),
            summary: summary.clone(),
            args: args.clone(),
            state: *state,
        },
        DisplayBlock::Exec { command, output } => DisplayBlock::Exec {
            command: command.clone(),
            output: output.clone(),
        },
        DisplayBlock::Compacted { summary } => DisplayBlock::Compacted {
            summary: summary.clone(),
        },
    }
}

/// Compiles a block for display. A tool call needs its state.
pub fn compile_block<P: Fn(&str, &str) -> u64>(
    block: &Block,
    state: Option<ToolState>,
    parse: &P,
) -> (r: DisplayBlock)
    requires
        pure_parser(*parse),
        block is ToolCall ==> state is Some,
    ensures
        r@ == compiled(*parse, block@, state),
{
    match block {
        Block::User { text, image_labels } => DisplayBlock::User {
            text: text.clone(),
            image_labels: copy_texts(image_labels),
        },
        Block::Mode { text, icon, hl_group } => DisplayBlock::Mode {
            text: text.clone(),
            icon: icon.clone(),
            hl_group: hl_group.clone(),
        },
        Block::ProcessStatus { text } => DisplayBlock::ProcessStatus { text: text.clone() },
        Block::Thinking { content } => DisplayBlock::Thinking { content: content.clone() },
        Block::Text { content } => DisplayBlock::Text { content: content.clone() },
        Block::CodeLine { content, lang } => {
            let code = parse(content.as_str(), lang.as_str());
            proof {
                assert(parses_to(*parse, content@, lang@, code));
            }
            DisplayBlock::CodeLine { content: content.clone(), lang: lang.clone(), code }
        },
        Block::ToolCall { call_id, name, summary, args } => DisplayBlock::ToolCall {
            call_id: call_id.clone(),
            name: name.clone(),
            summary: summary.clone(),
            args: args.clone(),
            state: state.unwrap(),
        },
        Block::Exec { command, output } => DisplayBlock::Exec {
            command: command.clone(),
            output: output.clone(),
        },
        Block::Compacted { summary } => DisplayBlock::Compacted { summary: summary.clone() },
    }
}

/// A compiled block is one of `block`: the same content, and code that is made of it.
pub open spec fn matches_content<P: Fn(&str, &str) -> u64>(
    parse: P,
    display: DisplayContent,
    block: BlockContent,
) -> bool {
    display.content == block && display.code == code_of(parse, block)
}

impl DisplayBlock {
    /// Whether this is a compiled form of `block`, in whatever state a tool call is.
    pub fn matches_block<P: Fn(&str, &str) -> u64>(&self, block: &Block, parse: &P) -> (r: bool)
        requires
            pure_parser(*parse),
        ensures
            r == matches_content(*parse, self@, block@),
    {
        match (self, block) {
            (
                DisplayBlock::User { text, image_labels },
                Block::User { text: block_text, image_labels: block_image_labels },
            ) => *text == *block_text && same_texts(image_labels, block_image_labels),
            (
                DisplayBlock::Mode { text, icon, hl_group },
                Block::Mode { text: block_text, icon: block_icon, hl_group: block_hl_group },
            ) => *text == *block_text && *icon == *block_icon && *hl_group == *block_hl_group,
            (DisplayBlock::ProcessStatus { text }, Block::ProcessStatus { text: block_text }) => {
                *text == *block_text
            },
            (DisplayBlock::Thinking { content }, Block::Thinking { content: block_content }) => {
                *content == *block_content
            },
            (DisplayBlock::Text { content }, Block::Text { content: block_content }) => {
                *content == *block_content
            },
            (
                DisplayBlock::CodeLine { content, lang, code },
                Block::CodeLine { content: block_content, lang: block_lang },
            ) => {
                if *content == *block_content && *lang == *block_lang {
                    let expected = parse(content.as_str(), lang.as_str());
                    proof {
                        assert(parses_to(*parse, content@, lang@, expected));
                    }
                    *code == expected
                } else {
                    false
                }
            },
            (
                DisplayBlock::ToolCall { call_id, name, summary, args, .. },
                Block::ToolCall {
                    call_id: block_call_id,
                    name: block_name,
                    summary: block_summary,
                    args: block_args,
                },
            ) => *call_id == *block_call_id && *name == *block_name && *summary == *block_summary
                && *args == *block_args,
            (
                DisplayBlock::Exec { command, output },
                Block::Exec { command: block_command, output: block_output },
            ) => *command == *block_command && *output == *block_output,
            (DisplayBlock::Compacted { summary }, Block::Compacted { summary: block_summary }) => {
                *summary == *block_summary
            },
            _ => false,
        }
    }
}

/// What is compiled from a block matches it.
pub proof fn compiled_block_matches<P: Fn(&str, &str) -> u64>(
    parse: P,
    block: BlockContent,
    state: Option<ToolState>,
)
    ensures
        matches_content(parse, compiled(parse, block, state), block),
{
}

/// What a block is measured for.
#[derive(Clone, Copy, Debug, PartialEq, Eq, Structural)]
pub struct MeasureCtx {
    pub width: u16,
    pub show_thinking: bool,
    pub view_state: ViewState,
}

/// `rows` can say that a block of this content has so many rows.
pub open spec fn has_rows<R: Fn(&DisplayBlock, usize, bool) -> u64>(
    rows: R,
    block: DisplayBlock,
    ctx: MeasureCtx,
    n: u64,
) -> bool {
    match block {
        DisplayBlock::Mode { .. } => n == 1,
        _ => call_ensures(rows, (&block, ctx.width as usize, ctx.show_thinking), n),
    }
}

/// The rows that a block is shown as: those that it has when all of it is shown, as many as
/// its view lets through. A change of mode has one.
pub fn measure_block<R: Fn(&DisplayBlock, usize, bool) -> u64>(
    block: &DisplayBlock,
    ctx: MeasureCtx,
    rows: &R,
) -> (height: u64)
    requires
        call_requires(*rows, (block, ctx.width as usize, ctx.show_thinking)),
    ensures
        exists|n: u64| #[trigger]
            has_rows(*rows, *block, ctx, n) && height == view_rows(ctx.view_state, n as int).len(),
{
    let expanded_rows: u64 = match block {
        DisplayBlock::Mode { .. } => 1,
        _ => rows(block, ctx.width as usize, ctx.show_thinking),
    };
    proof {
        assert(has_rows(*rows, *block, ctx, expanded_rows));
    }
    ctx.view_state.measured_height(expanded_rows)
}

} // verus!
