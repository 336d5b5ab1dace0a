//! Winamp-classic theme: green-on-black, dark-blue selection bars, amber accents.

use vstd::prelude::*;

verus! {

/// A color of the terminal.
#[derive(Debug, Clone, Copy, PartialEq, Eq, Structural)]
pub enum Color {
    Black,
    White,
    Rgb(u8, u8, u8),
}

/// How a piece of text is drawn. A color that is not set is the terminal's own.
#[derive(Debug, Clone, Copy, PartialEq, Eq, Structural)]
pub struct TextStyle {
    pub fg: Option<Color>,
    pub bg: Option<Color>,
    pub bold: bool,
}

/// Playlist green — primary text.
#[verifier::allow_in_spec]
pub fn green() -> Color
    returns
        Color::Rgb(0x00, 0xFF, 0x00),
{
    Color::Rgb(0x00, 0xFF, 0x00)
}

/// Dim green — borders and secondary text.
#[verifier::allow_in_spec]
pub fn dim_green() -> Color
    returns
        Color::Rgb(0x00, 0xB4, 0x00),
{
    Color::Rgb(0x00, 0xB4, 0x00)
}

/// Playlist selection background (classic dark blue).
#[verifier::allow_in_spec]
pub fn selection_bg() -> Color
    returns
        Color::Rgb(0x00, 0x00, 0xC6),
{
    Color::Rgb(0x00, 0x00, 0xC6)
}

/// Amber — accents and status values.
#[verifier::allow_in_spec]
pub fn amber() -> Color
    returns
        Color::Rgb(0xFF, 0xB0, 0x00),
{
    Color::Rgb(0xFF, 0xB0, 0x00)
}

/// Red — errors and destructive state.
#[verifier::allow_in_spec]
pub fn red() -> Color
    returns
        Color::Rgb(0xFF, 0x30, 0x30),
{
    Color::Rgb(0xFF, 0x30, 0x30)
}

/// Text of one color.
pub open spec fn colored(color: Color) -> TextStyle {
    TextStyle { fg: Some(color), bg: None, bold: false }
}

/// Text of one color.
pub fn foreground(color: Color) -> (style: TextStyle)
    ensures
        style == colored(color),
{
    TextStyle { fg: Some(color), bg: None, bold: false }
}

/// Default body text.
pub fn text() -> (style: TextStyle)
    ensures
        style == colored(green()),
{
    foreground(green())
}

/// Secondary text.
pub fn dim() -> (style: TextStyle)
    ensures
        style == colored(dim_green()),
{
    foreground(dim_green())
}

/// Titles and emphasized labels.
pub fn title() -> (style: TextStyle)
    ensures
        style == (TextStyle { fg: Some(green()), bg: None, bold: true }),
{
    TextStyle { fg: Some(green()), bg: None, bold: true }
}

/// Unfocused block borders.
pub fn border() -> (style: TextStyle)
    ensures
        style == colored(dim_green()),
{
    foreground(dim_green())
}

/// Focused block borders.
pub fn border_focused() -> (style: TextStyle)
    ensures
        style == colored(green()),
{
    foreground(green())
}

/// Selected row (playlist highlight).
pub fn selected() -> (style: TextStyle)
    ensures
        style == (TextStyle { fg: Some(Color::White), bg: Some(selection_bg()), bold: true }),
{
    TextStyle { fg: Some(Color::White), bg: Some(selection_bg()), bold: true }
}

/// Inverted LED look — badges, footer bar, focused input fields.
pub fn badge() -> (style: TextStyle)
    ensures
        style == (TextStyle { fg: Some(Color::Black), bg: Some(green()), bold: true }),
{
    TextStyle { fg: Some(Color::Black), bg: Some(green()), bold: true }
}

/// Warnings.
pub fn warning() -> (style: TextStyle)
    ensures
        style == colored(amber()),
{
    foreground(amber())
}

/// Errors.
pub fn error() -> (style: TextStyle)
    ensures
        style == colored(red()),
{
    foreground(red())
}

/// Amber accent values.
pub fn accent() -> (style: TextStyle)
    ensures
        style == colored(amber()),
{
    foreground(amber())
}

} // verus!
