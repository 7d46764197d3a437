//! What layout and paint are told, and the colours of a theme.
use vstd::prelude::*;
use crate::spans::{ColorRole, ColorValue, NamedColor};
use crate::view_state::ViewState;

verus! {

/// What a layout depends on besides its block.
#[derive(Clone, Copy, Debug, PartialEq, Eq, Structural)]
pub struct LayoutContext {
    pub width: u16,
    pub show_thinking: bool,
    pub view_state: ViewState,
}

/// A colour that a terminal can show.
#[derive(Clone, Copy, Debug, PartialEq, Eq, Structural)]
#[allow(inconsistent_fields)]
pub enum Color {
    Rgb { r: u8, g: u8, b: u8 },
    AnsiValue(u8),
    Named(NamedColor),
}

/// The colours for what text can be for.
#[derive(Clone, Copy, Debug, PartialEq, Eq, Structural)]
pub struct ThemeColors {
    pub accent: Color,
    pub slug: Color,
    pub user_bg: Color,
    pub code_block_bg: Color,
    pub bar: Color,
    pub tool_pending: Color,
    pub reason_off: Color,
    pub muted: Color,
}

/// What painting depends on besides what is painted.
#[derive(Clone, Copy, Debug)]
pub struct PaintContext<'a> {
    pub theme: &'a ThemeColors,
    pub term_width: u16,
}

impl ThemeColors {
    /// The colour of a role.
    pub open spec fn of_role(self, role: ColorRole) -> Color {
        match role {
            ColorRole::Accent => self.accent,
            ColorRole::Slug => self.slug,
            ColorRole::UserBg => self.user_bg,
            ColorRole::CodeBlockBg => self.code_block_bg,
            ColorRole::Bar => self.bar,
            ColorRole::ToolPending => self.tool_pending,
            ColorRole::ReasonOff => self.reason_off,
            ColorRole::Muted => self.muted,
        }
    }
}

/// The colour that a value stands for under a theme.
pub open spec fn resolved(c: ColorValue, theme: ThemeColors) -> Color {
    match c {
        ColorValue::Rgb(r, g, b) => Color::Rgb { r, g, b },
        ColorValue::Ansi(v) => Color::AnsiValue(v),
        ColorValue::Named(n) => Color::Named(n),
        ColorValue::Role(role) => theme.of_role(role),
    }
}

/// The colour that a value stands for under a theme.
pub fn resolve(c: ColorValue, theme: &ThemeColors) -> (color: Color)
    ensures
        color == resolved(c, *theme),
{
    match c {
        ColorValue::Rgb(r, g, b) => Color::Rgb { r, g, b },
        ColorValue::Ansi(v) => Color::AnsiValue(v),
        ColorValue::Named(n) => Color::Named(n),
        ColorValue::Role(role) => match role {
            ColorRole::Accent => theme.accent,
            ColorRole::Slug => theme.slug,
            ColorRole::UserBg => theme.user_bg,
            ColorRole::CodeBlockBg => theme.code_block_bg,
            ColorRole::Bar => theme.bar,
            ColorRole::ToolPending => theme.tool_pending,
            ColorRole::ReasonOff => theme.reason_off,
            ColorRole::Muted => theme.muted,
        },
    }
}

/// Only what is written by its role changes with the theme.
pub proof fn theme_changes_roles_only(c: ColorValue, a: ThemeColors, b: ThemeColors)
    requires
        !(c is Role),
    ensures
        resolved(c, a) == resolved(c, b),
{
}

} // verus!
