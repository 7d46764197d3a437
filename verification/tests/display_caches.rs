use smelt_content::block_buffers::{tasks_per_worker, RenderTask, RenderedBlockCache};
use smelt_content::display_block::{
    compile_block, measure_block, Block, DisplayBlock, DisplayCacheKey, MeasureCtx, ToolState,
};
use smelt_content::display_cache::{decode, encode_with_payloads, DecodeError};
use smelt_content::display_model::{
    BlockHistory, BlockRequest, DisplayCacheEntry, DisplayModel, ToolEntry,
};
use smelt_content::keys::{transcript_renderer_cache_key, LayoutKey};
use smelt_content::temp_rows::{
    apply_temp_decoration, emit_buffer_row_clipped, overlay_style, DecorationOp, LineDecoration,
    RowHighlight, StyleOverlay,
};
use smelt_content::prompt_style::{plain_cell_style, CellStyle};
use smelt_content::view_state::ViewState;
use std::collections::HashMap;

const BUILD: &[u8] = b"1.0.0";

/// A row index as it is stored: its width and the height of its one node.
fn row_index() -> Vec<u8> {
    bincode::serialize(&vec![(80u16, 3u64)]).unwrap()
}

fn row_indexes(bytes: &[u8]) -> Vec<(u16, u64)> {
    bincode::deserialize(bytes).unwrap_or_default()
}

fn display_layout() -> Vec<u8> {
    bincode::serialize(&vec![(7u64, 1u64, String::from("styled"))]).unwrap()
}

fn display_layouts(bytes: &[u8]) -> Vec<(u64, u64, String)> {
    bincode::deserialize(bytes).unwrap_or_default()
}

#[test]
fn cache_round_trips_row_index_entries() {
    let encoded = encode_with_payloads(BUILD, &row_index(), &display_layout()).unwrap();
    let decoded = decode(&encoded, BUILD).unwrap();
    let rows = row_indexes(&decoded.row_indexes);
    assert_eq!(rows.len(), 1);
    assert_eq!(rows[0].1, 3);
    let layouts = display_layouts(&decoded.display_layouts);
    assert_eq!(layouts.len(), 1);
    assert_eq!(layouts[0].1, 1);
}

#[test]
fn cache_round_trips_styled_lines_layouts() {
    let encoded = encode_with_payloads(BUILD, &[], &display_layout()).unwrap();
    let decoded = decode(&encoded, BUILD).unwrap();
    assert_eq!(display_layouts(&decoded.display_layouts).len(), 1);
    assert_eq!(display_layouts(&decoded.display_layouts)[0].2, "styled");
}

#[test]
fn split_payload_keeps_row_indexes_when_display_layouts_are_corrupt() {
    let encoded =
        encode_with_payloads(BUILD, &row_index(), b"not display layout bincode").unwrap();
    let decoded = decode(&encoded, BUILD).unwrap();
    let rows = row_indexes(&decoded.row_indexes);
    assert_eq!(rows.len(), 1);
    assert_eq!(rows[0].1, 3);
    assert!(display_layouts(&decoded.display_layouts).is_empty());
}

#[test]
fn corrupt_cache_is_a_miss() {
    let mut encoded = encode_with_payloads(BUILD, &row_index(), &display_layout()).unwrap();
    encoded[0] = b'X';
    assert!(matches!(decode(&encoded, BUILD), Err(DecodeError::BadMagic)));
    assert!(matches!(decode(&encoded[..8], BUILD), Err(DecodeError::HeaderTooShort)));
}

#[test]
fn every_part_of_the_header_is_held_to() {
    let encoded = encode_with_payloads(BUILD, &row_index(), &display_layout()).unwrap();
    let broken = |at: usize| {
        let mut bytes = encoded.clone();
        bytes[at] ^= 1;
        decode(&bytes, BUILD).err()
    };
    assert_eq!(broken(8), Some(DecodeError::BadFormatVersion));
    assert_eq!(broken(12), Some(DecodeError::BadRendererVersion));
    assert_eq!(broken(38), Some(DecodeError::BadBuildVersion));
    let mut long_build = encoded.clone();
    long_build[20] = 0xff;
    long_build[21] = 0xff;
    assert_eq!(decode(&long_build, BUILD).err(), Some(DecodeError::BadBuildLength));
    let mut long_payload = encoded.clone();
    long_payload[24] = 0xff;
    assert_eq!(decode(&long_payload, BUILD).err(), Some(DecodeError::BadPayloadLength));
    let mut trailing = encoded.clone();
    trailing.push(0);
    assert_eq!(decode(&trailing, BUILD).err(), Some(DecodeError::TrailingBytes));
    assert_eq!(decode(&encoded, b"1.0.1").err(), Some(DecodeError::BadBuildVersion));
    assert!(encode_with_payloads(&vec![0; 65536], &[], &[]).is_none());
}

fn parse_code(content: &str, lang: &str) -> u64 {
    (content.len() * 31 + lang.len()) as u64
}

fn hash_state(state: ToolState) -> u64 {
    state.details * 2 + state.body.map_or(0, |body| body + 1)
}

/// The hashes of a block: of what it says, and of its tool call.
fn hashes(history: &BlockHistory, id: u64) -> (u64, u64) {
    match history.blocks.get(&id) {
        Some(Block::ToolCall { call_id, summary, .. }) => (
            summary.len() as u64,
            history.tool_state(call_id).map_or(0, hash_state),
        ),
        Some(Block::User { text, .. }) => (text.len() as u64 + 100, 0),
        Some(Block::CodeLine { content, .. }) => (content.len() as u64 + 200, 0),
        _ => (0, 0),
    }
}

fn base_key(history: &BlockHistory, id: u64) -> LayoutKey {
    let (content_hash, sidecar_hash) = hashes(history, id);
    LayoutKey {
        view_state: ViewState::Expanded,
        width: 80,
        show_thinking: false,
        content_hash,
        sidecar_hash,
    }
}

fn ensure_many(model: &mut DisplayModel, history: &BlockHistory, id: u64) -> usize {
    let requests = vec![BlockRequest { id, key: base_key(history, id) }];
    model.ensure_many(history, &requests, &parse_code)
}

fn history_of(block: Block, tool_states: Vec<ToolEntry>) -> BlockHistory {
    BlockHistory { blocks: HashMap::from([(0, block)]), tool_states }
}

#[test]
fn hydrated_cache_entries_avoid_recompile() {
    let mut history = history_of(
        Block::CodeLine { content: "fn main() {}".into(), lang: "rust".into() },
        Vec::new(),
    );
    let mut model = DisplayModel::new();
    assert_eq!(ensure_many(&mut model, &history, 0), 1);
    let entries = model.cache_entries(&vec![0]);

    let mut hydrated = DisplayModel::new();
    assert_eq!(
        hydrated.hydrate_many(&mut history, entries, &parse_code, &hash_state, &hashes),
        1
    );
    assert_eq!(ensure_many(&mut hydrated, &history, 0), 0);
    assert!(hydrated.get(0, base_key(&history, 0)).is_some());
    hydrated.retain_order(&vec![5]);
    assert_eq!(hydrated.len(), 0);
}

#[test]
fn hydrated_cache_rejects_mismatched_display_variant() {
    let mut history = history_of(
        Block::User { text: "hello".into(), image_labels: vec![] },
        Vec::new(),
    );
    let content_hash = hashes(&history, 0).0;
    let entries = vec![DisplayCacheEntry {
        id: 0,
        key: DisplayCacheKey::new(content_hash, 0),
        block: DisplayBlock::Text { content: "hello".into() },
    }];

    let mut hydrated = DisplayModel::new();
    assert_eq!(
        hydrated.hydrate_many(&mut history, entries, &parse_code, &hash_state, &hashes),
        0
    );
    assert_eq!(ensure_many(&mut hydrated, &history, 0), 1);
}

#[test]
fn hydrated_tool_entry_installs_cached_body() {
    let block = || Block::ToolCall {
        call_id: "call-1".into(),
        name: "write_file".into(),
        summary: "write file".into(),
        args: "{}".into(),
    };
    let tool = |body: Option<u64>| {
        vec![ToolEntry { call_id: "call-1".into(), state: ToolState { details: 1, body } }]
    };
    let warm = history_of(block(), tool(Some(9)));
    let mut model = DisplayModel::new();
    assert_eq!(ensure_many(&mut model, &warm, 0), 1);
    let entries = model.cache_entries(&vec![0]);

    let mut cold = history_of(block(), tool(None));
    let mut hydrated = DisplayModel::new();
    assert_eq!(
        hydrated.hydrate_many(&mut cold, entries, &parse_code, &hash_state, &hashes),
        1
    );
    assert!(cold.tool_state(&"call-1".to_string()).unwrap().body.is_some());
    assert_eq!(ensure_many(&mut hydrated, &cold, 0), 0);
}

#[test]
fn blocks_that_are_gone_are_forgotten() {
    let history = history_of(
        Block::User { text: "hello".into(), image_labels: vec![] },
        Vec::new(),
    );
    let mut model = DisplayModel::new();
    assert_eq!(ensure_many(&mut model, &history, 0), 1);
    let empty = BlockHistory { blocks: HashMap::new(), tool_states: Vec::new() };
    assert_eq!(ensure_many(&mut model, &empty, 0), 0);
    assert_eq!(model.len(), 0);
}

#[test]
fn measured_blocks_follow_their_view() {
    let rows = |_: &DisplayBlock, width: usize, _: bool| width as u64;
    let block = compile_block(
        &Block::Text { content: "text".into() },
        None,
        &parse_code,
    );
    let ctx = |view_state| MeasureCtx { width: 36, show_thinking: false, view_state };
    assert_eq!(measure_block(&block, ctx(ViewState::Expanded), &rows), 36);
    assert_eq!(measure_block(&block, ctx(ViewState::TrimmedHead { keep: 5 }), &rows), 6);
    let mode = DisplayBlock::Mode {
        text: "plan".into(),
        icon: "◈ ".into(),
        hl_group: "SmeltAccent".into(),
    };
    assert_eq!(measure_block(&mode, ctx(ViewState::Expanded), &rows), 1);
}

#[test]
fn compiled_blocks_match_the_block_they_come_from() {
    let block = Block::CodeLine { content: "fn main() {}".into(), lang: "rust".into() };
    let compiled = compile_block(&block, None, &parse_code);
    assert!(compiled.matches_block(&block, &parse_code));
    let other = Block::CodeLine { content: "fn main() {}".into(), lang: "c".into() };
    assert!(!compiled.matches_block(&other, &parse_code));
}

fn layout_key(content_hash: u64) -> LayoutKey {
    LayoutKey {
        view_state: ViewState::Expanded,
        width: 80,
        show_thinking: false,
        content_hash,
        sidecar_hash: 0,
    }
}

#[test]
fn rendered_blocks_are_kept_until_their_key_changes() {
    let render = |task: RenderTask| task.buf_id;
    let mut cache = RenderedBlockCache::new();
    let ids = vec![1, 2];
    assert_eq!(cache.ensure_many(&ids, &vec![layout_key(1), layout_key(2)], &render), 2);
    assert_eq!(cache.get(1, layout_key(1)), Some(&1));
    assert_eq!(cache.get(2, layout_key(2)), Some(&2));
    assert_eq!(cache.get(1, layout_key(5)), None);
    assert_eq!(cache.ensure_many(&ids, &vec![layout_key(1), layout_key(5)], &render), 1);
    assert_eq!(cache.get(2, layout_key(5)), Some(&3));
    cache.clear();
    assert_eq!(cache.len(), 0);
    assert_eq!(cache.next_buf_id, 4);
}

#[test]
fn ensuring_blocks_again_renders_none() {
    let render = |task: RenderTask| task.buf_id;
    let mut cache = RenderedBlockCache::new();
    let ids = vec![3, 1, 4];
    let keys = vec![layout_key(1), layout_key(2), layout_key(3)];
    assert_eq!(cache.ensure_many(&ids, &keys, &render), 3);
    assert_eq!(cache.ensure_many(&ids, &keys, &render), 0);
    assert_eq!(cache.len(), 3);
    assert_eq!(cache.get(4, layout_key(3)), Some(&3));
}

#[test]
fn stored_histories_are_taken_in_whole() {
    let blocks = || {
        HashMap::from([
            (0, Block::User { text: "hello".into(), image_labels: vec![] }),
            (1, Block::CodeLine { content: "x".into(), lang: "rs".into() }),
            (
                2,
                Block::ToolCall {
                    call_id: "call".into(),
                    name: "read".into(),
                    summary: "read a file".into(),
                    args: "{}".into(),
                },
            ),
        ])
    };
    let tool = |body: Option<u64>| {
        vec![ToolEntry { call_id: "call".into(), state: ToolState { details: 3, body } }]
    };
    let full = BlockHistory { blocks: blocks(), tool_states: tool(Some(5)) };
    let mut model = DisplayModel::new();
    for id in 0..3 {
        assert_eq!(ensure_many(&mut model, &full, id), 1);
    }
    let jobs = model.collect_compile_jobs(
        &full,
        &vec![
            BlockRequest { id: 0, key: base_key(&full, 0) },
            BlockRequest { id: 1, key: layout_key(7) },
        ],
    );
    assert_eq!(jobs.iter().map(|job| job.id).collect::<Vec<u64>>(), vec![1]);
    let entries = model.cache_entries(&vec![0, 1, 2]);
    let mut bare = BlockHistory { blocks: blocks(), tool_states: tool(None) };
    let mut hydrated = DisplayModel::new();
    assert_eq!(
        hydrated.hydrate_many(&mut bare, entries, &parse_code, &hash_state, &hashes),
        3
    );
    for id in 0..3 {
        assert_eq!(ensure_many(&mut hydrated, &bare, id), 0);
    }
}

#[test]
fn the_oldest_rendered_blocks_give_way() {
    let render = |task: RenderTask| task.id;
    let mut cache = RenderedBlockCache::new();
    let first: Vec<u64> = (0..512).collect();
    let keys = vec![layout_key(0); 512];
    assert_eq!(cache.ensure_many(&first, &keys, &render), 512);
    assert_eq!(cache.ensure_many(&vec![0], &vec![layout_key(0)], &render), 0);
    assert_eq!(cache.ensure_many(&vec![1000], &vec![layout_key(0)], &render), 1);
    assert_eq!(cache.len(), 512);
    assert!(cache.get(0, layout_key(0)).is_some());
    assert!(cache.get(1, layout_key(0)).is_none());
    assert!(cache.get(1000, layout_key(0)).is_some());
}

#[test]
fn tasks_are_shared_among_workers() {
    assert_eq!(tasks_per_worker(10, 4), 3);
    assert_eq!(tasks_per_worker(10, 0), 10);
    assert_eq!(tasks_per_worker(80, 64), 10);
}

#[test]
fn renderer_keys_mix_what_they_depend_on() {
    assert_eq!(transcript_renderer_cache_key(Some(1), Some(0), Some(0)), Some(1));
    assert_eq!(transcript_renderer_cache_key(Some(0), Some(1), Some(0)), Some(1 << 17));
    assert_eq!(transcript_renderer_cache_key(None, Some(1), Some(0)), Some(1));
    assert_eq!(transcript_renderer_cache_key(None, None, None), None);
}

fn decoration() -> LineDecoration {
    LineDecoration {
        source_text: None,
        external_source_text: None,
        source_line: None,
        soft_wrapped: false,
        copy_continuation: false,
        cell_selectable: false,
        block_selectable: false,
        fill_bg: None,
    }
}

#[test]
fn temp_decoration_preserves_both_copy_sources() {
    let source = LineDecoration {
        source_text: Some("line source".into()),
        external_source_text: Some("external source".into()),
        ..decoration()
    };
    let ops = apply_temp_decoration(&source, false);
    assert!(ops
        .iter()
        .any(|op| matches!(op, DecorationOp::SourceText(text) if text == "line source")));
    assert!(ops.iter().any(
        |op| matches!(op, DecorationOp::ExternalSourceText(text) if text == "external source")
    ));
    assert_eq!(ops.len(), 2);
    assert!(apply_temp_decoration(&decoration(), true).is_empty());
}

/// The characters of a text from cell `start` to cell `end`.
fn slice_cells(text: &str, start: usize, end: usize) -> String {
    let mut at = 0;
    let mut out = String::new();
    for c in text.chars() {
        let cells = unicode_width::UnicodeWidthStr::width(c.to_string().as_str());
        if at >= start && at + cells <= end {
            out.push(c);
        }
        at += cells;
    }
    out
}

fn bold(_: u64) -> CellStyle {
    CellStyle { bold: true, ..plain_cell_style() }
}

#[test]
fn placed_rows_with_wide_chars_use_display_columns() {
    let highlights = vec![RowHighlight { col_start: 2, col_end: 4, hl: 1, meta: 0 }];
    let (runs, cells) =
        emit_buffer_row_clipped("界界x", &highlights, 80, None, &slice_cells, &bold);
    let texts: Vec<&str> = runs.iter().map(|run| run.text.as_str()).collect();
    assert_eq!(texts, vec!["界", "界", "x"]);
    assert_eq!(cells, 5);
    assert!(runs[0].style.is_none());
    assert!(runs[1].style.unwrap().bold);
}

#[test]
fn placed_rows_stop_before_a_char_that_does_not_fit() {
    let (runs, cells) = emit_buffer_row_clipped("a界b", &Vec::new(), 2, None, &slice_cells, &bold);
    assert_eq!(runs[0].text, "a");
    assert_eq!(cells, 1);
    let overlay = StyleOverlay { dim: true, italic: false };
    let (runs, _) =
        emit_buffer_row_clipped("ab", &Vec::new(), 2, Some(overlay), &slice_cells, &bold);
    assert!(runs[0].style.unwrap().dim);
    assert!(overlay_style(Some(bold(0)), overlay).bold);
}
