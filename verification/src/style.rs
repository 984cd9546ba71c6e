//! Styles and screen cells: the colors and boldness a cell can carry, and
//! the character-plus-style unit the buffer stores.

use vstd::prelude::*;

verus! {

/// A terminal color, as far as the dashboard uses them. `Reset` is the
/// terminal's default.
#[derive(Clone, Copy, PartialEq, Eq, Structural, Debug)]
pub enum Color {
    Reset,
    Black,
    White,
    Green,
    Yellow,
    Magenta,
}

/// Foreground, background and boldness of one cell or text run.
#[derive(Clone, Copy, PartialEq, Eq, Structural, Debug)]
pub struct Style {
    pub fg: Color,
    pub bg: Color,
    pub bold: bool,
}

/// The style text carries where no markup applies.
pub open spec fn plain_style() -> Style {
    Style { fg: Color::Reset, bg: Color::Reset, bold: false }
}

impl Style {
    /// The default style: terminal colors, not bold.
    pub fn plain() -> (s: Style)
        ensures
            s == plain_style(),
    {
        Style { fg: Color::Reset, bg: Color::Reset, bold: false }
    }
}

/// One screen cell: a character and the style it is drawn with.
#[derive(Clone, Copy, PartialEq, Eq, Structural, Debug)]
pub struct Cell {
    pub ch: char,
    pub style: Style,
}

/// An empty cell: a space in the default style.
pub open spec fn blank_cell() -> Cell {
    Cell { ch: ' ', style: plain_style() }
}

impl Cell {
    /// An empty cell: a space in the default style.
    pub fn blank() -> (c: Cell)
        ensures
            c == blank_cell(),
    {
        Cell { ch: ' ', style: Style::plain() }
    }
}

/// One character of parsed paragraph text with the style its markup gave it.
#[verifier::ext_equal]
#[derive(Clone, Copy, PartialEq, Eq, Structural, Debug)]
pub struct SChar {
    pub ch: char,
    pub style: Style,
}

/// A character carrying the default style.
pub open spec fn lit(c: char) -> SChar {
    SChar { ch: c, style: plain_style() }
}

/// A whole run of characters in the default style.
pub open spec fn lits(s: Seq<char>) -> Seq<SChar> {
    Seq::new(s.len(), |i: int| lit(s[i]))
}

/// A character carrying a given style.
pub open spec fn mk_schar(c: char, st: Style) -> SChar {
    SChar { ch: c, style: st }
}

/// A whole run of characters in one style.
pub open spec fn styled_run(s: Seq<char>, st: Style) -> Seq<SChar> {
    Seq::new(s.len(), |i: int| mk_schar(s[i], st))
}

} // verus!
