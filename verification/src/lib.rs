//! Layout, measurement and rendering plans of transcript content.
use vstd::prelude::*;

pub mod bar_laws;
pub mod block_buffers;
pub mod block_rows;
pub mod budget;
pub mod cached_layout;
pub mod cap_laws;
pub mod cap_rows;
pub mod chars;
pub mod chrome;
pub mod code_block;
pub mod code_laws;
pub mod collector_laws;
pub mod compile;
pub mod compile_jobs;
pub mod compile_laws;
pub mod content_draw;
pub mod detail_laws;
pub mod display_block;
pub mod display_cache;
pub mod display_laws;
pub mod display_model;
pub mod drawn_text;
pub mod edge_laws;
pub mod edges;
pub mod estimate;
pub mod flow_laws;
pub mod form_laws;
pub mod hbox_scratch;
pub mod highlight;
pub mod highlight_laws;
pub mod host;
pub mod hydration_laws;
pub mod ink;
pub mod inline_markers;
pub mod ir;
pub mod ir_copy;
pub mod keys;
pub mod layout_cache;
pub mod layout_cache_laws;
pub mod layout_cache_use;
pub mod layout_ensure;
pub mod leaf_draw;
pub mod leaf_edges;
pub mod leaf_laws;
pub mod leaf_measure;
pub mod leaf_render;
pub mod leaf_rows;
pub mod leaf_text;
pub mod line_ops;
pub mod listing_laws;
pub mod markdown_digest;
pub mod markdown_flow;
pub mod markdown_laws;
pub mod markdown_retained;
pub mod markdown_spans;
pub mod markdown_text_laws;
pub mod marker_laws;
pub mod measure;
pub mod named_rows;
pub mod numbers;
pub mod own_host;
pub mod own_laws;
pub mod paint;
pub mod paint_laws;
pub mod parse_cache;
pub mod place_laws;
pub mod plan;
pub mod prefixed_runs;
pub mod prompt_bar;
pub mod prompt_buffer;
pub mod prompt_input;
pub mod prompt_laws;
pub mod prompt_parser;
pub mod prompt_spans;
pub mod prompt_state;
pub mod prompt_style;
pub mod prompt_wrap;
pub mod queued;
pub mod refresh_laws;
pub mod render;
pub mod render_laws;
pub mod retained;
pub mod row_prefix;
pub mod rows;
pub mod run_laws;
pub mod screen;
pub mod screen_laws;
pub mod shown_laws;
pub mod size_laws;
pub mod source_listing;
pub mod spans;
pub mod spot_laws;
pub mod styled_runs;
pub mod styled_text;
pub mod syntax_cache;
pub mod temp_laws;
pub mod temp_rows;
pub mod text;
pub mod text_laws;
pub mod utf8;
pub mod view_laws;
pub mod view_state;
pub mod width_laws;
pub mod widths;
pub mod window_laws;
pub mod work_laws;
pub mod wrapped_output;

verus! {

} // verus!
