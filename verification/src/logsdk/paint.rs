//! Terminal colours for log output.
use vstd::prelude::*;

verus! {

/// A terminal foreground colour.
#[derive(PartialEq, Eq, Structural, Clone, Copy, Debug)]
pub enum Color {
    Black,
    Red,
    Green,
    Yellow,
    Blue,
    Purple,
    Cyan,
    White,
}

/// The last digit of the colour's foreground code (`30` to `37`).
pub open spec fn color_digit(c: Color) -> char {
    match c {
        Color::Black => '0',
        Color::Red => '1',
        Color::Green => '2',
        Color::Yellow => '3',
        Color::Blue => '4',
        Color::Purple => '5',
        Color::Cyan => '6',
        Color::White => '7',
    }
}

/// `s` painted in `c`: the escape sequence that sets the foreground colour,
/// the text, and the sequence that resets all styles.
pub open spec fn painted(c: Color, s: Seq<char>) -> Seq<char> {
    seq!['\u{1b}', '[', '3', color_digit(c), 'm'] + s + seq!['\u{1b}', '[', '0', 'm']
}

/// Paints `s` in `c` with `ansi_term`: `Colour::paint` gives the text with
/// the colour as its style, which displays as the escape code `ESC [ 3x m`
/// (`x` the colour's number), the text, and the reset code `ESC [ 0 m`.
#[verifier::external_body]
pub(crate) fn paint(c: Color, s: &str) -> (r: String)
    ensures
        r@ == painted(c, s@),
{
    let colour = match c {
        Color::Black => ansi_term::Colour::Black,
        Color::Red => ansi_term::Colour::Red,
        Color::Green => ansi_term::Colour::Green,
        Color::Yellow => ansi_term::Colour::Yellow,
        Color::Blue => ansi_term::Colour::Blue,
        Color::Purple => ansi_term::Colour::Purple,
        Color::Cyan => ansi_term::Colour::Cyan,
        Color::White => ansi_term::Colour::White,
    };
    colour.paint(s).to_string()
}

} // verus!
