# smelt-content

The content layer of a terminal chat client as a verified library: what is shown of a
transcript and of the prompt, in how many rows, and what is kept between redraws.

- `src/` is the library. Its functions say in `requires` and `ensures` what they return and
  change, and Verus proves it. The few functions around calls into other crates are believed;
  their comments say what is believed of the call.
- `tests/` runs the library on concrete values.
- `app/` surrounds it: files, the terminal, threads, floating-point numbers, and the surfaces
  that the library's drawing steps are carried out on.

## Where things are

| Subject | Modules |
| --- | --- |
| Layouts and their rows | `ir`, `ir_copy`, `host`, `own_host`, `measure`, `plan`, `render`, `block_rows`, `edges`, `rows`, `cap_rows`, `budget`, `widths`, `chrome` |
| Laws of layouts | `render_laws`, `cap_laws`, `spot_laws`, `refresh_laws`, `window_laws`, `leaf_laws`, `named_rows`, `own_laws` |
| Laws of caches | `layout_cache_laws`, `shown_laws`, `highlight_laws`, `hydration_laws` |
| Leaves of layouts | `leaf_text`, `leaf_rows`, `leaf_edges`, `leaf_measure`, `leaf_draw`, `leaf_render`, `content_draw`, `styled_runs`, `styled_text`, `row_prefix`, `prefixed_runs`, `line_ops`, `temp_rows`, `hbox_scratch` |
| Markdown | `markdown_spans`, `markdown_digest`, `markdown_flow`, `markdown_retained`, `markdown_laws`, `inline_markers`, `parse_cache` |
| Code | `highlight`, `code_block`, `source_listing`, `spans`, `syntax_cache`, `paint` |
| Compiling and caching | `compile`, `compile_jobs`, `layout_cache`, `layout_cache_use`, `layout_ensure`, `cached_layout`, `retained`, `keys`, `display_block`, `display_model`, `display_cache`, `block_buffers`, `view_state`, `wrapped_output`, `estimate` |
| The prompt | `prompt_spans`, `prompt_parser`, `prompt_buffer`, `prompt_wrap`, `prompt_style`, `prompt_bar`, `queued`, `prompt_state`, `prompt_input`, `screen` |
| Texts and numbers | `text`, `utf8`, `chars`, `numbers` |

Parsers, wrapping by graphemes and stores of texts are not part of it. Where a function needs
one of these it takes it as a closure, and its contract speaks of what the closure can answer.

What rests on the machine is left open: how many spare places a vector has, and with it when
exactly a full cache drops an entry, and the hash that a text is looked up by. Functions that
take such a number as an argument are exact in it.
