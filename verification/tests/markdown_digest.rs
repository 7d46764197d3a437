use smelt_content::line_ops::LineOp;
use smelt_content::markdown_digest::{
    render_markdown_line, table_copy_text, FlowSources, MarkdownPlace, RowCopy,
};
use smelt_content::markdown_flow::{
    FlowNode, FlowRow, FlowState, MarkdownTextKind, RowClip,
};
use smelt_content::markdown_retained::ByteRange;
use smelt_content::markdown_spans::{
    ColumnAlignment, InlineStyle, MarkdownLine, MarkdownNode, MarkdownSpan,
};
use std::cell::RefCell;

const SOURCE: &str = "# Title\n\nsome words\n- item\n```rs\nfn f()\n\n```\n| a |\n---\n";

fn place(width: usize) -> MarkdownPlace<'static> {
    MarkdownPlace { width, indent: " ", dim: false, inner_w: None }
}

fn range(text: &str) -> ByteRange {
    let start = SOURCE.find(text).unwrap();
    ByteRange { start, end: start + text.len() }
}

fn slice(start: usize, end: usize) -> String {
    SOURCE[start..end].to_string()
}

fn list_item(line: &str) -> bool {
    line.starts_with("- ")
}

fn split(line: &str) -> (String, String) {
    (line[..2].to_string(), line[2..].to_string())
}

fn span(text: &str) -> MarkdownSpan {
    let style = InlineStyle { bold: false, italic: false, dim: false, heading: false, other: 0 };
    MarkdownSpan { text: text.to_string(), style, meta: 0 }
}

fn spans(text: &str) -> Vec<MarkdownSpan> {
    vec![span(text)]
}

/// One row for every so many characters of the spans.
fn wrap(spans: &Vec<MarkdownSpan>, columns: usize) -> Vec<Vec<MarkdownSpan>> {
    let text: String = spans.iter().map(|span| span.text.as_str()).collect();
    let chars: Vec<char> = text.chars().collect();
    chars
        .chunks(columns.max(1))
        .map(|row| vec![span(&row.iter().collect::<String>())])
        .collect()
}

fn code_rows(lines: &Vec<String>, lang: &str, width: usize) -> usize {
    assert_eq!((lang, width), ("rs", 9));
    lines.len()
}

fn table_rows(rows: &Vec<Vec<String>>, alignments: &Vec<ColumnAlignment>, width: usize) -> u16 {
    assert_eq!((alignments.len(), width), (1, 9));
    rows.len() as u16 + 1
}

fn line(text: &str, body: &str) -> MarkdownLine {
    MarkdownLine { source: range(text), spans: spans(body) }
}

fn nodes() -> Vec<MarkdownNode> {
    vec![
        MarkdownNode::Text {
            range: range("# Title"),
            lines: vec![line("# Title", "Title")],
            kind: MarkdownTextKind::Heading,
        },
        MarkdownNode::Text {
            range: range("- item"),
            lines: vec![line("- item", "item")],
            kind: MarkdownTextKind::List,
        },
        MarkdownNode::Source { range: range("\nsome words\n") },
        MarkdownNode::Code {
            range: range("```rs\nfn f()\n\n```"),
            body: vec![range("fn f()\n"), ByteRange { start: 0, end: 0 }],
            lang: "rs".to_string(),
        },
        MarkdownNode::Table {
            range: range("| a |"),
            alignments: vec![ColumnAlignment::Left],
            rows: vec![vec![" ".to_string()], vec!["a".to_string()]],
        },
        MarkdownNode::Rule { range: range("---") },
    ]
}

fn flows(nodes: &Vec<MarkdownNode>, place: &MarkdownPlace<'_>) -> Vec<FlowNode> {
    sources().flow_nodes(nodes, place)
}

type Answer<'a> = FlowSources<
    'a,
    fn(usize, usize) -> String,
    fn(&str) -> bool,
    fn(&str) -> (String, String),
    fn(&str) -> Vec<MarkdownSpan>,
    fn(&Vec<MarkdownSpan>, usize) -> Vec<Vec<MarkdownSpan>>,
    fn(&Vec<String>, &str, usize) -> usize,
    fn(&Vec<Vec<String>>, &Vec<ColumnAlignment>, usize) -> u16,
>;

fn sources() -> Answer<'static> {
    FlowSources {
        slice: &(slice as fn(usize, usize) -> String),
        list_item: &(list_item as fn(&str) -> bool),
        split: &(split as fn(&str) -> (String, String)),
        parse: &(spans as fn(&str) -> Vec<MarkdownSpan>),
        wrap: &(wrap as fn(&Vec<MarkdownSpan>, usize) -> Vec<Vec<MarkdownSpan>>),
        code_rows: &(code_rows as fn(&Vec<String>, &str, usize) -> usize),
        table_rows: &(table_rows
            as fn(&Vec<Vec<String>>, &Vec<ColumnAlignment>, usize) -> u16),
    }
}

#[test]
fn lines_take_what_the_indent_leaves() {
    assert_eq!(place(9).max_cols(), 7);
    assert_eq!(place(1).max_cols(), 0);
    let boxed = MarkdownPlace { inner_w: Some(5), ..place(9) };
    assert_eq!(boxed.max_cols(), 5);
    let wide = MarkdownPlace { indent: "界", ..place(9) };
    assert_eq!(wide.max_cols(), 6);
}

#[test]
fn nodes_take_rows_by_their_kind() {
    let flows = flows(&nodes(), &place(9));
    assert_eq!(flows.len(), 6);
    match &flows[0] {
        FlowNode::Text { kind: MarkdownTextKind::Heading, lines } => {
            assert_eq!(lines.len(), 1);
            assert!(!lines[0].blank && !lines[0].list_item);
            assert_eq!(lines[0].rows, vec![true]);
        }
        other => panic!("{other:?}"),
    }
    match &flows[1] {
        FlowNode::Text { kind: MarkdownTextKind::List, lines } => {
            assert!(lines[0].list_item);
            assert_eq!(lines[0].rows, vec![true]);
        }
        other => panic!("{other:?}"),
    }
    match &flows[2] {
        FlowNode::Text { kind: MarkdownTextKind::Paragraph, lines } => {
            assert_eq!(lines.len(), 2);
            assert!(lines[0].blank && lines[0].rows.is_empty());
            assert!(!lines[1].blank);
            assert_eq!(lines[1].rows, vec![true, true]);
        }
        other => panic!("{other:?}"),
    }
    assert!(matches!(flows[3], FlowNode::Code { rows: 1, visible: true }));
    assert!(matches!(flows[4], FlowNode::Table { rows: 3, visible: true }));
    assert!(matches!(flows[5], FlowNode::Rule));
}

#[test]
fn items_are_wrapped_with_what_makes_them_items() {
    let given = RefCell::new(Vec::new());
    let wrap = |spans: &Vec<MarkdownSpan>, columns: usize| {
        given.borrow_mut().push((
            spans.iter().map(|span| span.text.as_str()).collect::<String>(),
            columns,
        ));
        vec![vec![span(" ")]]
    };
    let sources = FlowSources {
        slice: &slice,
        list_item: &list_item,
        split: &split,
        parse: &spans,
        wrap: &wrap,
        code_rows: &code_rows,
        table_rows: &table_rows,
    };
    let flows = sources.flow_nodes(&nodes(), &place(9));
    assert_eq!(
        *given.borrow(),
        vec![
            ("Title".to_string(), 7),
            ("- item".to_string(), 7),
            ("some words".to_string(), 7)
        ]
    );
    assert!(matches!(&flows[1], FlowNode::Text { lines, .. } if lines[0].rows == vec![false]));
}

#[test]
fn blocks_are_measured_and_drawn_alike() {
    let sources = sources();
    let nodes = nodes();
    let rows = sources.render_markdown_block(&nodes, &place(9), None).unwrap();
    assert_eq!(sources.measure_markdown_block(&nodes, &place(9)), rows.len());
    assert_eq!(
        rows[0],
        FlowRow::Line { doc: 0, node: 0, line: 0, segment: 0, visible: true }
    );
    assert!(rows.contains(&FlowRow::Table { doc: 0, node: 4, row: 2, visible: true }));
    assert_eq!(rows.last(), Some(&FlowRow::Rule { doc: 0, node: 5 }));
    for start in 0..rows.len() {
        let clip = RowClip { start, end: start + 2 };
        let some = sources.render_markdown_block(&nodes, &place(9), Some(clip)).unwrap();
        assert_eq!(some, rows[start..(start + 2).min(rows.len())]);
    }
}

#[test]
fn uncountable_blocks_are_not_drawn() {
    let endless = |_: &Vec<String>, _: &str, _: usize| usize::MAX;
    let sources = FlowSources {
        slice: &slice,
        list_item: &list_item,
        split: &split,
        parse: &spans,
        wrap: &wrap,
        code_rows: &endless,
        table_rows: &table_rows,
    };
    let nodes = nodes();
    assert_eq!(sources.measure_markdown_block(&nodes, &place(9)), usize::MAX);
    assert!(sources.render_markdown_block(&nodes, &place(9), None).is_none());
}

#[test]
fn tables_are_copied_without_their_last_line_end() {
    assert_eq!(table_copy_text("| a |\n| b |\r\n\n"), "| a |\n| b |");
    assert_eq!(table_copy_text("| a | \n"), "| a | ");
    assert_eq!(table_copy_text("\r\n"), "");
}

fn told(ops: &[LineOp]) -> Vec<String> {
    ops.iter().map(|op| format!("{op:?}")).collect()
}

#[test]
fn lines_are_drawn_row_by_row() {
    let mut state = FlowState::new();
    let ops = render_markdown_line(3, &vec![7, 2], false, "  ", None, &mut state);
    assert_eq!(
        told(&ops),
        told(&[
            LineOp::MarkWrapped,
            LineOp::Row { continuation: false },
            LineOp::Print("  ".to_string()),
            LineOp::InlineRow { line: 3, row: 0 },
            LineOp::Newline,
            LineOp::Row { continuation: true },
            LineOp::Print("  ".to_string()),
            LineOp::InlineRow { line: 3, row: 1 },
            LineOp::Newline,
        ])
    );
    assert_eq!(state.rows, 2);

    let ops = render_markdown_line(4, &vec![5], true, "  ", None, &mut state);
    assert_eq!(
        told(&ops),
        told(&[
            LineOp::Row { continuation: false },
            LineOp::BoxLeft,
            LineOp::InlineRow { line: 4, row: 0 },
            LineOp::BoxRight { cells: 5 },
            LineOp::Newline,
        ])
    );
    assert_eq!(state.rows, 3);
}

#[test]
fn lines_stop_at_the_end_of_the_range() {
    let mut state = FlowState { rows: 10, ..FlowState::new() };
    let clip = RowClip { start: 11, end: 12 };
    let ops = render_markdown_line(0, &vec![4, 4, 4], false, "", Some(clip), &mut state);
    let shown: Vec<&LineOp> =
        ops.iter().filter(|op| matches!(op, LineOp::InlineRow { .. })).collect();
    assert_eq!(shown.len(), 1);
    assert!(matches!(shown[0], LineOp::InlineRow { line: 0, row: 1 }));
    assert_eq!(state.rows, 12);
}

#[test]
fn rendered_table_attaches_raw_source_to_first_row() {
    let md = "| col | val |\n| --- | --- |\n| a   | 1   |\n";
    let nodes = vec![MarkdownNode::Table {
        range: ByteRange { start: 0, end: md.len() },
        alignments: vec![ColumnAlignment::Left, ColumnAlignment::Left],
        rows: vec![
            vec!["col".to_string(), "val".to_string()],
            vec!["a".to_string(), "1".to_string()],
        ],
    }];
    let slice = |start: usize, end: usize| md[start..end].to_string();
    let drawn_rows = |rows: &Vec<Vec<String>>, _: &Vec<ColumnAlignment>, _: usize| {
        rows.len() as u16 + 3
    };
    let answers = sources();
    let table = FlowSources {
        slice: &slice,
        list_item: answers.list_item,
        split: answers.split,
        parse: answers.parse,
        wrap: answers.wrap,
        code_rows: answers.code_rows,
        table_rows: &drawn_rows,
    };
    let lines = table.render_markdown_block(&nodes, &place(80), None).unwrap();
    assert!(lines.len() >= 2);
    let source = "| col | val |\n| --- | --- |\n| a   | 1   |";
    let mut first = true;
    for line in lines {
        match table.row_copy(&nodes, line) {
            RowCopy::Group(text) => {
                assert!(first);
                assert_eq!(text, source);
            }
            RowCopy::Continuation => assert!(!first),
            RowCopy::Own => panic!("a table row shows its own text"),
        }
        first = false;
    }
    let clip = Some(RowClip { start: 1, end: 3 });
    let clipped = table.render_markdown_block(&nodes, &place(80), clip).unwrap();
    assert_eq!(clipped.len(), 2);
    assert!(clipped.iter().all(|row| matches!(table.row_copy(&nodes, *row), RowCopy::Continuation)));
}

#[test]
fn only_tables_are_copied_as_their_source() {
    let rows = sources().render_markdown_block(&nodes(), &place(9), None).unwrap();
    for row in rows {
        let copy = sources().row_copy(&nodes(), row);
        match row {
            FlowRow::Table { row: 0, .. } => {
                assert!(matches!(copy, RowCopy::Group(text) if text == "| a |"));
            }
            FlowRow::Table { .. } => assert!(matches!(copy, RowCopy::Continuation)),
            _ => assert!(matches!(copy, RowCopy::Own)),
        }
    }
}
