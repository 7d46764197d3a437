use smelt_content::code_block::{
    code_extension, print_shell_regions, render_code_block, render_code_line, spaces_text,
    BashHighlighter, CodeBlockStyle,
};
use smelt_content::highlight::{
    split_regions_into_rows, warm_up_syntect, BoxContext, Region, Rgb, SyntaxSets, SyntaxThemeName,
};
use smelt_content::source_listing::{
    print_syntax_file, print_syntax_file_ext, render_listing_row,
};
use smelt_content::spans::{
    plain_style, ColorRole, ColorValue, DisplayBlock, DisplayLine, NamedColor, SpanCollector,
    SpanMeta, SpanStyle,
};

fn text(line: &DisplayLine) -> String {
    line.spans.iter().map(|span| span.text.as_str()).collect()
}

fn rows(block: &DisplayBlock) -> Vec<String> {
    block.lines.iter().map(text).collect()
}

fn warm() -> SyntaxSets {
    let mut sets = SyntaxSets::new();
    warm_up_syntect(&mut sets);
    sets
}

fn region(color: u8, text: &str) -> Region {
    Region {
        color: Rgb { r: color, g: 0, b: 0 },
        text: String::from(text),
    }
}

fn owned(lines: &[&str]) -> Vec<String> {
    lines.iter().map(|line| String::from(*line)).collect()
}

fn code<'a>(lang: &'a str, width: usize) -> CodeBlockStyle<'a> {
    CodeBlockStyle {
        lang,
        width,
        dim: false,
        frame: None,
        fence: false,
    }
}

#[test]
fn highlighter_is_there_once_the_sets_are_loaded() {
    let mut sets = SyntaxSets::new();
    assert!(sets.highlighter("rs", None).is_none());
    assert!(BashHighlighter::new(&sets).is_none());
    warm_up_syntect(&mut sets);
    assert!(sets.highlighter("rs", None).is_some());
    assert!(BashHighlighter::new(&sets).is_some());
}

#[test]
fn theme_follows_the_setting() {
    let mut sets = warm();
    assert_eq!(sets.theme_name(), SyntaxThemeName::MonokaiExtended);
    let dark = sets.highlighter("rs", None).unwrap().next_line("fn f() {}")[0].color;
    sets.set_syntax_theme_light(true);
    assert_eq!(sets.theme_name(), SyntaxThemeName::MonokaiExtendedLight);
    let mut lines = sets.highlighter("rs", None).unwrap();
    let regions = lines.next_line("let x = y;");
    let text: String = regions.iter().map(|r| r.text.as_str()).collect();
    assert_eq!(text, "let x = y;\n");
    sets.set_syntax_theme_light(false);
    let again = sets.highlighter("rs", None).unwrap().next_line("fn f() {}")[0].color;
    assert_eq!(again, dark);
}

#[test]
fn highlighted_runs_make_up_the_line() {
    let sets = warm();
    let mut lines = sets.highlighter("rs", None).unwrap();
    let regions = lines.next_line("fn main() { let s = \"x\"; }");
    assert!(regions.len() > 3);
    let text: String = regions.iter().map(|r| r.text.as_str()).collect();
    assert_eq!(text, "fn main() { let s = \"x\"; }\n");
    assert!(regions.iter().any(|r| r.color != regions[0].color));
}

#[test]
fn language_is_found_by_extension_then_by_name() {
    let sets = warm();
    let by_extension = sets.highlighter("rs", None).unwrap().next_line("fn main() {}");
    let by_name = sets.highlighter("no-such", Some("Rust")).unwrap().next_line("fn main() {}");
    let plain = sets.highlighter("no-such", None).unwrap().next_line("fn main() {}");
    let unknown = sets.highlighter("no-such", Some("no-such")).unwrap().next_line("fn main() {}");
    assert_eq!(by_name.len(), by_extension.len());
    assert!(by_extension.len() > 1);
    assert_eq!(plain.len(), 1);
    assert_eq!(unknown.len(), 1);
}

#[test]
fn lines_seen_before_colour_those_that_follow() {
    let sets = warm();
    let mut seen = sets.highlighter("rs", None).unwrap();
    seen.next_line("/* opens");
    let inside = seen.next_line("fn f() {}");
    let fresh = sets.highlighter("rs", None).unwrap().next_line("fn f() {}");
    assert!(inside.len() < fresh.len());
    assert_ne!(inside[0].color, fresh[0].color);
}

#[test]
fn advancing_colours_as_printing_does() {
    let sets = warm();
    let mut advanced = BashHighlighter::new(&sets).unwrap();
    advanced.advance("echo 'open");
    let mut a = SpanCollector::new(80);
    advanced.print_line(&mut a, "still' x");
    a.newline();

    let mut printed = BashHighlighter::new(&sets).unwrap();
    let mut b = SpanCollector::new(80);
    printed.print_line(&mut b, "echo 'open");
    b.newline();
    printed.print_line(&mut b, "still' x");
    b.newline();

    let mut fresh = BashHighlighter::new(&sets).unwrap();
    let mut c = SpanCollector::new(80);
    fresh.print_line(&mut c, "still' x");
    c.newline();

    let a = a.finish();
    let b = b.finish();
    let c = c.finish();
    let styles = |line: &DisplayLine| -> Vec<(String, SpanStyle)> {
        line.spans.iter().map(|s| (s.text.clone(), s.style)).collect()
    };
    assert_eq!(text(&a.lines[0]), "still' x");
    assert_eq!(styles(&a.lines[0]), styles(&b.lines[1]));
    assert_ne!(styles(&a.lines[0]), styles(&c.lines[0]));
}

#[test]
fn shell_runs_are_printed_without_line_ends() {
    let mut out = SpanCollector::new(80);
    print_shell_regions(&mut out, &vec![region(1, "ls"), region(2, " -l\r\n"), region(3, "\n")]);
    out.newline();
    let block = out.finish();
    assert_eq!(rows(&block), vec!["ls -l"]);
    assert_eq!(block.lines[0].spans.len(), 2);
    assert_eq!(block.lines[0].spans[1].style.fg, Some(ColorValue::Rgb(2, 0, 0)));
}

#[test]
fn splitting_breaks_runs_at_the_width() {
    let mut out = SpanCollector::new(80);
    let split = split_regions_into_rows(&mut out, &vec![region(1, "abc"), region(2, "defg\n")], 4);
    let texts: Vec<Vec<&str>> =
        split.iter().map(|row| row.iter().map(|r| r.text.as_str()).collect()).collect();
    assert_eq!(texts, vec![vec!["abc", "d"], vec!["efg"]]);
    assert_eq!(split[1][0].color.r, 2);
    assert!(out.block.was_wrapped);
}

#[test]
fn code_line_wraps_inside_its_frame() {
    let frame = BoxContext {
        left: String::from("│ "),
        right: String::from(" │"),
        color: ColorValue::Named(NamedColor::DarkGrey),
        inner_w: 6,
    };
    let mut out = SpanCollector::new(10);
    let n = render_code_line(
        &mut out,
        &vec![region(1, "let abc\n")],
        "let abc",
        4,
        false,
        Some(&frame),
        6,
    );
    assert_eq!(n, 2);
    let block = out.finish();
    assert_eq!(rows(&block), vec!["│ let    │", "│ abc    │"]);
    assert_eq!(block.lines[0].source_text.as_deref(), Some("let abc"));
    assert!(!block.lines[0].soft_wrapped);
    assert!(block.lines[1].soft_wrapped);
    assert!(block.was_wrapped);
    assert_eq!(
        block.lines[0].spans[1].style.bg,
        Some(ColorValue::Role(ColorRole::CodeBlockBg))
    );
}

#[test]
fn languages_have_extensions() {
    for (lang, extension) in [
        ("", "txt"),
        ("javascript", "js"),
        ("typescript", "ts"),
        ("python", "py"),
        ("ruby", "rb"),
        ("rust", "rs"),
        ("bash", "sh"),
        ("zsh", "sh"),
        ("shell", "sh"),
        ("yml", "yaml"),
        ("go", "go"),
    ] {
        assert_eq!(code_extension(lang), extension);
    }
}

#[test]
fn code_block_keeps_lines_fences_and_tabs() {
    let sets = warm();
    let mut out = SpanCollector::new(20);
    let style = CodeBlockStyle {
        fence: true,
        ..code("rust", 20)
    };
    let n = render_code_block(&mut out, &owned(&["fn f() {", "\tg();", "}"]), style, &sets);
    assert_eq!(n, 3);
    let block = out.finish();
    let texts: Vec<String> = rows(&block).iter().map(|r| String::from(r.trim_end())).collect();
    assert_eq!(texts, vec!["fn f() {", "    g();", "}"]);
    assert_eq!(block.lines[0].source_text.as_deref(), Some("```rust\nfn f() {"));
    assert_eq!(block.lines[1].source_text.as_deref(), Some("\tg();"));
    assert_eq!(block.lines[2].source_text.as_deref(), Some("}\n```"));
    assert!(block.lines[0].spans.len() > 2);
}

#[test]
fn tabs_are_copied_as_they_were_written() {
    let sets = warm();
    let mut out = SpanCollector::new(20);
    let style = CodeBlockStyle { fence: true, ..code("rs", 20) };
    assert_eq!(render_code_block(&mut out, &owned(&["\tx"]), style, &sets), 1);
    let block = out.finish();
    assert_eq!(block.lines[0].source_text.as_deref(), Some("```rs\n\tx\n```"));
    assert_eq!(rows(&block)[0].trim_end(), "    x");
}

#[test]
fn wide_characters_take_their_cells() {
    let texts = |width: usize| -> Vec<String> {
        let mut out = SpanCollector::new(80);
        split_regions_into_rows(&mut out, &vec![region(1, "界界")], width)
            .iter()
            .map(|row| row.iter().map(|r| r.text.as_str()).collect())
            .collect()
    };
    assert_eq!(texts(2), vec!["界", "界"]);
    assert_eq!(texts(3), vec!["界", "界"]);
    assert_eq!(texts(4), vec!["界界"]);
    assert_eq!(texts(1), vec!["界", "界"]);

    let mut out = SpanCollector::new(10);
    let n = render_code_line(&mut out, &vec![region(1, "界界")], "界界", 2, false, None, 2);
    assert_eq!(n, 2);
    let widths: Vec<usize> = rows(&out.finish())
        .iter()
        .map(|row| unicode_width::UnicodeWidthStr::width(row.as_str()))
        .collect();
    assert!(widths.iter().all(|width| *width == widths[0]));
}

#[test]
fn splitting_keeps_the_text() {
    let mut out = SpanCollector::new(80);
    let runs = vec![region(1, "aé"), region(2, "界x"), region(3, "yz\n")];
    for width in 1..8 {
        let split = split_regions_into_rows(&mut out, &runs, width);
        let text: String =
            split.iter().flatten().map(|r| r.text.as_str()).collect();
        assert_eq!(text, "aé界xyz");
        for row in &split {
            let text: String = row.iter().map(|r| r.text.as_str()).collect();
            let cells = unicode_width::UnicodeWidthStr::width(text.as_str());
            assert!(cells <= width || text.chars().count() == 1);
        }
    }
}

#[test]
fn dim_code_block_ends_in_plain_style() {
    let sets = warm();
    let mut out = SpanCollector::new(20);
    let style = CodeBlockStyle { dim: true, ..code("", 20) };
    assert_eq!(render_code_block(&mut out, &owned(&["x"]), style, &sets), 1);
    assert_eq!(out.snapshot_style(), plain_style());
}

#[test]
fn listing_row_has_its_number_or_a_blank() {
    let mut out = SpanCollector::new(40);
    render_listing_row(&mut out, &vec![region(1, "a")], Some(7), 2);
    render_listing_row(&mut out, &vec![region(1, "b")], None, 2);
    let block = out.finish();
    assert_eq!(rows(&block), vec!["    7   a", "        b"]);
    assert!(!block.lines[0].spans[0].meta.selectable);
}

#[test]
fn listing_shows_the_rows_asked_for() {
    let sets = warm();
    let content = "one\ntwo\nthree\nfour\n";
    let mut out = SpanCollector::new(40);
    assert_eq!(print_syntax_file(&mut out, content, "notes.txt", 1, 2, 40, &sets), 2);
    assert_eq!(rows(&out.finish()), vec!["   2   two", "   3   three"]);
    let mut out = SpanCollector::new(40);
    assert_eq!(print_syntax_file(&mut out, content, "notes.txt", 0, 0, 40, &sets), 4);
    let mut out = SpanCollector::new(40);
    assert_eq!(print_syntax_file(&mut out, content, "notes.txt", 9, 0, 40, &sets), 0);
    assert!(out.finish().lines.is_empty());
}

#[test]
fn file_is_coloured_by_the_extension_of_its_name() {
    let sets = warm();
    let spans = |path: &str, given: Option<&str>| -> usize {
        let mut out = SpanCollector::new(60);
        print_syntax_file_ext(&mut out, "fn main() {}\n", path, given, 0, 0, 60, &sets);
        out.finish().lines[0].spans.len()
    };
    let coloured = spans("src/main.rs", None);
    let plain = spans("src/main", None);
    assert!(coloured > plain);
    assert_eq!(spans(".rs", None), plain);
    assert_eq!(spans("a.rs/b", None), plain);
    assert_eq!(spans("dir.d/x.y.rs", None), coloured);
    assert_eq!(spans("src/main", Some("rs")), coloured);
    assert_eq!(spans("src/main.rs", Some("txt")), plain);
}

#[test]
fn styles_come_back_when_popped() {
    let mut out = SpanCollector::new(20);
    out.set_bold();
    let before = out.snapshot_style();
    out.push_fg(ColorValue::Ansi(3));
    out.push_dim();
    out.push_italic();
    out.push_crossedout();
    assert!(out.snapshot_style().crossedout && out.snapshot_style().bold);
    out.pop_style();
    out.pop_style();
    out.pop_style();
    out.pop_style();
    assert_eq!(out.snapshot_style(), before);
    out.reset_style();
    assert_eq!(out.snapshot_style(), plain_style());
}

#[test]
fn equal_runs_are_joined_and_widths_counted() {
    let mut out = SpanCollector::new(20);
    out.print("ab");
    out.print("");
    out.print("漢");
    out.print_with_meta("x", SpanMeta { selectable: true, copy_as: Some(String::from("y")) });
    out.newline();
    let block = out.finish();
    assert_eq!(block.lines[0].spans.len(), 2);
    assert_eq!(block.lines[0].spans[0].text, "ab漢");
    assert_eq!(block.max_line_width, 5);
    assert_eq!(block.layout_width, 20);
}

#[test]
fn spaces_are_as_many_as_asked() {
    assert_eq!(spaces_text(0), "");
    assert_eq!(spaces_text(3), "   ");
}
