//! Text styles: bold, underline, and foreground/background colour numbers.
//!
//! A colour is a palette index; `-1` stands for the terminal's default
//! colour, as the capability database convention has it.

use vstd::prelude::*;

verus! {

/// A cell style. "Mutating" operations return an updated copy.
#[derive(Clone, Copy, Debug, PartialEq, Eq, Structural)]
pub struct Style {
    pub is_bold: bool,
    pub is_underline: bool,
    pub fg_color: i32,
    pub bg_color: i32,
}

/// The default style: no attributes, default colours.
pub open spec fn normal_style() -> Style {
    Style { is_bold: false, is_underline: false, fg_color: -1i32, bg_color: -1i32 }
}

/// Construct the default style.
#[allow(non_snake_case)]
pub fn Style() -> (s: Style)
    ensures
        s == normal_style(),
{
    Style { is_bold: false, is_underline: false, fg_color: -1, bg_color: -1 }
}

impl Style {
    /// A copy of this style with bold switched on.
    pub fn bold(&self) -> (s: Style)
        ensures
            s == (Style { is_bold: true, ..*self }),
    {
        Style { is_bold: true, ..*self }
    }

    /// A copy of this style with underline switched on.
    pub fn underline(&self) -> (s: Style)
        ensures
            s == (Style { is_underline: true, ..*self }),
    {
        Style { is_underline: true, ..*self }
    }

    /// A copy of this style with the given foreground colour.
    pub fn fg(&self, color: i32) -> (s: Style)
        ensures
            s == (Style { fg_color: color, ..*self }),
    {
        Style { fg_color: color, ..*self }
    }

    /// A copy of this style with the given background colour.
    pub fn bg(&self, color: i32) -> (s: Style)
        ensures
            s == (Style { bg_color: color, ..*self }),
    {
        Style { bg_color: color, ..*self }
    }
}

} // verus!
