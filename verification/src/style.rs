//! Terminal styles for text.

use crate::text::decimal;
use ansiterm::{Color, Style};
use vstd::prelude::*;

verus! {

/// A foreground color.
#[derive(Debug, Clone, Copy, PartialEq, Eq, Structural)]
pub enum TextColor {
    /// The terminal's own color, left as it is.
    Plain,
    Red,
    Green,
    Yellow,
    Blue,
    Purple,
    Cyan,
    White,
    /// An entry of the 256 color palette.
    Fixed(u8),
}

/// How a piece of text is shown: its color and whether it is bold.
#[derive(Debug, Clone, Copy, PartialEq, Eq, Structural)]
pub struct TextStyle {
    pub color: TextColor,
    pub bold: bool,
}

/// The terminal code of a foreground color.
pub open spec fn color_code(c: TextColor) -> Seq<char> {
    match c {
        TextColor::Plain => Seq::empty(),
        TextColor::Red => "31"@,
        TextColor::Green => "32"@,
        TextColor::Yellow => "33"@,
        TextColor::Blue => "34"@,
        TextColor::Purple => "35"@,
        TextColor::Cyan => "36"@,
        TextColor::White => "37"@,
        TextColor::Fixed(n) => "38;5;"@ + decimal(n as nat),
    }
}

/// A text between the code that switches its style on and the one that resets
/// it; a text without a style has neither.
pub open spec fn painted(style: TextStyle, s: Seq<char>) -> Seq<char> {
    let code = color_code(style.color);
    if style.bold && style.color != TextColor::Plain {
        "\x1b[1;"@ + code + "m"@ + s + "\x1b[0m"@
    } else if style.bold {
        "\x1b[1m"@ + s + "\x1b[0m"@
    } else if style.color != TextColor::Plain {
        "\x1b["@ + code + "m"@ + s + "\x1b[0m"@
    } else {
        s
    }
}

/// Shows a text in a style, by `ansiterm`'s `Style::paint` and its `Display`:
/// the codes of what is set, bold first, between `ESC [` and `m`, then the text
/// and the reset code, or the text alone when nothing is set.
#[verifier::external_body]
pub(crate) fn paint(style: TextStyle, text: &str) -> (r: String)
    ensures
        r@ == painted(style, text@),
{
    let foreground = match style.color {
        TextColor::Plain => None,
        TextColor::Red => Some(Color::Red),
        TextColor::Green => Some(Color::Green),
        TextColor::Yellow => Some(Color::Yellow),
        TextColor::Blue => Some(Color::Blue),
        TextColor::Purple => Some(Color::Purple),
        TextColor::Cyan => Some(Color::Cyan),
        TextColor::White => Some(Color::White),
        TextColor::Fixed(n) => Some(Color::Fixed(n)),
    };
    let style = Style { foreground, is_bold: style.bold, ..Style::new() };
    style.paint(text).to_string()
}

/// Bold text in the terminal's own color.
pub open spec fn bold_style() -> TextStyle {
    TextStyle { color: TextColor::Plain, bold: true }
}

/// Text in an entry of the palette.
pub open spec fn fixed_style(n: u8) -> TextStyle {
    TextStyle { color: TextColor::Fixed(n), bold: false }
}

/// Shows a text in bold.
pub fn paint_bold(text: &str) -> (r: String)
    ensures
        r@ == painted(bold_style(), text@),
{
    paint(TextStyle { color: TextColor::Plain, bold: true }, text)
}

/// Shows a text in an entry of the palette.
pub fn paint_fixed(n: u8, text: &str) -> (r: String)
    ensures
        r@ == painted(fixed_style(n), text@),
{
    paint(TextStyle { color: TextColor::Fixed(n), bold: false }, text)
}

/// A styled text stands whole before the code that resets its style, and a text
/// without a style stands alone.
pub proof fn law_a_styled_text_stands_whole(style: TextStyle, s: Seq<char>)
    ensures
        style.color == TextColor::Plain && !style.bold ==> painted(style, s) == s,
        style.color != TextColor::Plain || style.bold ==> exists|p: Seq<char>|
            painted(style, s) == #[trigger] (p + s) + "\x1b[0m"@,
{
    let code = color_code(style.color);
    if style.bold && style.color != TextColor::Plain {
        assert(painted(style, s) == ("\x1b[1;"@ + code + "m"@ + s) + "\x1b[0m"@);
    } else if style.bold {
        assert(painted(style, s) == ("\x1b[1m"@ + s) + "\x1b[0m"@);
    } else if style.color != TextColor::Plain {
        assert(painted(style, s) == ("\x1b["@ + code + "m"@ + s) + "\x1b[0m"@);
    }
}

} // verus!
