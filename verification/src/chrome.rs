//! What stands around the text of a block: styles, rules, markers and padding.
use vstd::prelude::*;
use crate::cap_rows::CapDirection;
use crate::ir::StyleSpec;
use crate::leaf_edges::{cap_marker_text, marker_text};
use crate::line_ops::{add_op, add_op_if, op_if, steps, LineOp, LineStep};
use crate::paint::Color;

verus! {

/// The group that a style names, if it does.
pub open spec fn hl_steps(hl_group: Option<String>) -> Seq<LineStep> {
    match hl_group {
        Some(name) => seq![LineStep::SetHl(name@)],
        None => Seq::empty(),
    }
}

/// A foreground, if there is one.
pub open spec fn fg_steps(fg: Option<Color>) -> Seq<LineStep> {
    match fg {
        Some(color) => seq![LineStep::SetFg(color)],
        None => Seq::empty(),
    }
}

/// A background, if there is one.
pub open spec fn bg_steps(bg: Option<Color>) -> Seq<LineStep> {
    match bg {
        Some(color) => seq![LineStep::SetBg(color)],
        None => Seq::empty(),
    }
}

/// A style laid over the one in force. Its colours are those that the theme has for their
/// names.
pub open spec fn style_steps(spec: StyleSpec, fg: Option<Color>, bg: Option<Color>) -> Seq<
    LineStep,
> {
    hl_steps(spec.hl_group) + fg_steps(fg) + bg_steps(bg) + op_if(spec.dim, LineStep::SetDim)
        + op_if(spec.bold, LineStep::SetBold) + op_if(spec.italic, LineStep::SetItalic)
}

/// Lays a style over the one in force; `theme` gives the foreground and the background of a
/// name, where it has them.
pub fn apply_style_spec<T: Fn(&str) -> (Option<Color>, Option<Color>)>(
    spec: &StyleSpec,
    theme: &T,
) -> (ops: Vec<LineOp>)
    requires
        forall|name: &str| #[trigger] call_requires(*theme, (name,)),
    ensures
        exists|fg: Option<Color>, bg: Option<Color>|
            {
                &&& steps(ops@) == #[trigger] style_steps(*spec, fg, bg)
                &&& match spec.fg {
                    Some(name) => exists|s: &str, colors: (Option<Color>, Option<Color>)| #[trigger]
                        call_ensures(*theme, (s,), colors) && s@ == name@ && colors.0 == fg,
                    None => fg is None,
                }
                &&& match spec.bg {
                    Some(name) => exists|s: &str, colors: (Option<Color>, Option<Color>)| #[trigger]
                        call_ensures(*theme, (s,), colors) && s@ == name@ && colors.1 == bg,
                    None => bg is None,
                }
            },
{
    let mut ops: Vec<LineOp> = Vec::new();
    let fg: Option<Color> = match &spec.fg {
        Some(name) => theme(name.as_str()).0,
        None => None,
    };
    let bg: Option<Color> = match &spec.bg {
        Some(name) => theme(name.as_str()).1,
        None => None,
    };
    if let Some(name) = &spec.hl_group {
        add_op(&mut ops, LineOp::SetHl(name.clone()));
    }
    proof {
        assert(steps(ops@) =~= hl_steps(spec.hl_group));
    }
    let ghost a = steps(ops@);
    if let Some(color) = fg {
        add_op(&mut ops, LineOp::SetFg(color));
    }
    proof {
        assert(steps(ops@) =~= a + fg_steps(fg));
    }
    let ghost b = steps(ops@);
    if let Some(color) = bg {
        add_op(&mut ops, LineOp::SetBg(color));
    }
    proof {
        assert(steps(ops@) =~= b + bg_steps(bg));
    }
    add_op_if(&mut ops, spec.dim, LineOp::SetDim);
    add_op_if(&mut ops, spec.bold, LineOp::SetBold);
    add_op_if(&mut ops, spec.italic, LineOp::SetItalic);
    proof {
        assert(steps(ops@) == style_steps(*spec, fg, bg));
    }
    ops
}

/// A rule of three cells, which is copied as the dashes that it was written with, in a box
/// or behind its indent.
pub open spec fn rule_steps(boxed: bool, indent: Seq<char>) -> Seq<LineStep> {
    op_if(boxed, LineStep::BoxLeft) + op_if(!boxed && indent.len() > 0, LineStep::Print(indent))
        + seq![
        LineStep::PushDim,
        LineStep::PrintCopyAs { text: "───"@, copy: "---"@ },
        LineStep::PopStyle,
    ] + op_if(boxed, LineStep::BoxRight { cells: 3 }) + seq![LineStep::Newline]
}

/// Draws a rule.
pub fn render_horizontal_rule(boxed: bool, indent: &str) -> (ops: Vec<LineOp>)
    ensures
        steps(ops@) == rule_steps(boxed, indent@),
{
    let mut ops: Vec<LineOp> = Vec::new();
    proof {
        assert(steps(ops@) =~= Seq::<LineStep>::empty());
    }
    add_op_if(&mut ops, boxed, LineOp::BoxLeft);
    proof {
        assert(steps(ops@) =~= op_if(boxed, LineStep::BoxLeft));
    }
    add_op_if(&mut ops, !boxed && !indent.is_empty(), LineOp::Print(String::from_str(indent)));
    let ghost a = steps(ops@);
    add_op(&mut ops, LineOp::PushDim);
    add_op(
        &mut ops,
        LineOp::PrintCopyAs { text: String::from_str("───"), copy: String::from_str("---") },
    );
    add_op(&mut ops, LineOp::PopStyle);
    proof {
        assert(steps(ops@) =~= a + seq![
            LineStep::PushDim,
            LineStep::PrintCopyAs { text: "───"@, copy: "---"@ },
            LineStep::PopStyle,
        ]);
    }
    add_op_if(&mut ops, boxed, LineOp::BoxRight { cells: 3 });
    add_op(&mut ops, LineOp::Newline);
    ops
}

/// The row that stands for rows that are not shown.
pub open spec fn ellipsis_steps(text: Seq<char>) -> Seq<LineStep> {
    seq![
        LineStep::PushDim,
        LineStep::PushHl("Comment"@),
        LineStep::Print(text),
        LineStep::PopStyle,
        LineStep::PopStyle,
        LineStep::Newline,
    ]
}

/// Draws the row that stands for rows that are not shown.
pub fn render_view_ellipsis(text: &str) -> (ops: Vec<LineOp>)
    ensures
        steps(ops@) == ellipsis_steps(text@),
{
    let mut ops: Vec<LineOp> = Vec::new();
    add_op(&mut ops, LineOp::PushDim);
    add_op(&mut ops, LineOp::PushHl(String::from_str("Comment")));
    add_op(&mut ops, LineOp::Print(String::from_str(text)));
    add_op(&mut ops, LineOp::PopStyle);
    add_op(&mut ops, LineOp::PopStyle);
    add_op(&mut ops, LineOp::Newline);
    proof {
        assert(steps(ops@) =~= ellipsis_steps(text@));
    }
    ops
}

/// A cap's marker, as far as it fits in `max_cols` further cells.
pub open spec fn clipped_marker_steps(text: Seq<char>, max_cols: u16) -> Seq<LineStep> {
    seq![
        LineStep::PushDim,
        LineStep::PrintFitting { text, cells: max_cols },
        LineStep::PopStyle,
        LineStep::Newline,
    ]
}

/// Draws a cap's marker, as far as it fits in `max_cols` further cells.
pub fn render_cap_marker_text(
    skipped: usize,
    kept: usize,
    total: Option<u64>,
    direction: CapDirection,
    max_cols: u16,
) -> (ops: Vec<LineOp>)
    ensures
        steps(ops@) == clipped_marker_steps(
            marker_text(skipped as nat, kept as nat, total, direction),
            max_cols,
        ),
{
    let text = cap_marker_text(skipped, kept, total, direction);
    let ghost content = text@;
    let mut ops: Vec<LineOp> = Vec::new();
    add_op(&mut ops, LineOp::PushDim);
    add_op(&mut ops, LineOp::PrintFitting { text, cells: max_cols });
    add_op(&mut ops, LineOp::PopStyle);
    add_op(&mut ops, LineOp::Newline);
    proof {
        assert(steps(ops@) =~= clipped_marker_steps(content, max_cols));
    }
    ops
}

/// Cells of the longest text of blanks that is at hand.
pub const HBOX_PADDING_CELLS: u16 = 64;

/// The texts of blanks that make up so many cells: as many of the longest as fit, then the
/// rest.
pub open spec fn padding_texts(cells: u16) -> Seq<u16>
    decreases cells,
{
    if cells == 0 {
        Seq::empty()
    } else if cells <= HBOX_PADDING_CELLS {
        seq![cells]
    } else {
        seq![HBOX_PADDING_CELLS] + padding_texts((cells - HBOX_PADDING_CELLS) as u16)
    }
}

/// The lengths of the texts of blanks that make up so many cells.
pub fn print_hbox_padding(cells: u16) -> (texts: Vec<u16>)
    ensures
        texts@ == padding_texts(cells),
{
    let mut texts: Vec<u16> = Vec::new();
    let mut left: u16 = cells;
    proof {
        assert(texts@ + padding_texts(left) =~= padding_texts(cells));
    }
    while left > 0
        invariant
            texts@ + padding_texts(left) == padding_texts(cells),
        decreases left,
    {
        let chunk: u16 = if left <= HBOX_PADDING_CELLS {
            left
        } else {
            HBOX_PADDING_CELLS
        };
        let ghost before = texts@;
        texts.push(chunk);
        proof {
            assert(padding_texts(left) =~= seq![chunk] + padding_texts((left - chunk) as u16));
            assert(texts@ + padding_texts((left - chunk) as u16) =~= before + padding_texts(left));
        }
        left = left - chunk;
    }
    proof {
        assert(texts@ + Seq::<u16>::empty() =~= texts@);
    }
    texts
}

/// How many cells some texts take.
pub open spec fn cells_of(texts: Seq<u16>) -> int
    decreases texts.len(),
{
    if texts.len() == 0 {
        0
    } else {
        texts[0] + cells_of(texts.skip(1))
    }
}

/// Padding takes the cells that are asked for, no more and no fewer.
pub proof fn padding_takes_its_cells(cells: u16)
    ensures
        cells_of(padding_texts(cells)) == cells,
    decreases cells,
{
    if cells > HBOX_PADDING_CELLS {
        let rest = (cells - HBOX_PADDING_CELLS) as u16;
        padding_takes_its_cells(rest);
        assert(padding_texts(cells).skip(1) =~= padding_texts(rest));
    } else if cells > 0 {
        assert(padding_texts(cells).skip(1) =~= Seq::<u16>::empty());
        assert(cells_of(Seq::<u16>::empty()) == 0);
    }
}

} // verus!
