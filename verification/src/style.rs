//! Styling attributes carried by every rendered text fragment.

use vstd::prelude::*;

verus! {

/// A foreground color for a rendered cell.
#[derive(Clone, Copy, Debug, PartialEq, Eq, Structural)]
pub enum Color {
    /// The terminal's default foreground color.
    Reset,
    /// The named light-yellow color, used to set headings apart.
    LightYellow,
    /// A 24-bit color, as produced by the syntax highlighter.
    Rgb(u8, u8, u8),
}

/// The attributes of a run of text: font modifiers and a foreground color.
#[derive(Clone, Copy, Debug, PartialEq, Eq, Structural)]
pub struct Style {
    pub bold: bool,
    pub italic: bool,
    pub underlined: bool,
    pub crossed_out: bool,
    pub fg: Color,
}

impl Style {
    /// The spec-level unstyled value: no modifiers, default color.
    pub open spec fn plain_spec() -> Style {
        Style { bold: false, italic: false, underlined: false, crossed_out: false, fg: Color::Reset }
    }

    /// An unstyled run: no modifiers, default color.
    pub fn plain() -> (r: Style)
        ensures
            r == Style::plain_spec(),
    {
        Style { bold: false, italic: false, underlined: false, crossed_out: false, fg: Color::Reset }
    }

    /// The spec-level result of forcing the foreground to a given color while
    /// keeping the font modifiers.
    pub open spec fn with_fg_spec(self, fg: Color) -> Style {
        Style { fg, ..self }
    }

    /// Force the foreground to `fg`, keeping the font modifiers.
    pub fn with_fg(&self, fg: Color) -> (r: Style)
        ensures
            r == self.with_fg_spec(fg),
    {
        Style { fg, ..*self }
    }
}

impl Default for Style {
    fn default() -> (r: Style)
        ensures
            r == Style::plain_spec(),
    {
        Style::plain()
    }
}

} // verus!
