//! The colours of the terminal in which verdicts are shown.

use owo_colors::{AnsiColors, DynColor};
use vstd::prelude::*;

verus! {

/// The colours that verdicts are shown in.
#[derive(Clone, Copy, Debug, PartialEq, Eq, Structural)]
pub enum Paint {
    Black,
    Green,
    Yellow,
    White,
    BrightBlack,
    BrightWhite,
}

/// The number by which a terminal knows a colour as a foreground, in
/// decimal digits. As a background the colour has that number plus 10.
pub open spec fn foreground_digits(paint: Paint) -> Seq<char> {
    match paint {
        Paint::Black => seq!['3', '0'],
        Paint::Green => seq!['3', '2'],
        Paint::Yellow => seq!['3', '3'],
        Paint::White => seq!['3', '7'],
        Paint::BrightBlack => seq!['9', '0'],
        Paint::BrightWhite => seq!['9', '7'],
    }
}

pub open spec fn background_digits(paint: Paint) -> Seq<char> {
    match paint {
        Paint::Black => seq!['4', '0'],
        Paint::Green => seq!['4', '2'],
        Paint::Yellow => seq!['4', '3'],
        Paint::White => seq!['4', '7'],
        Paint::BrightBlack => seq!['1', '0', '0'],
        Paint::BrightWhite => seq!['1', '0', '7'],
    }
}

/// The escape sequence that hands a number to the terminal: the escape
/// character, `[`, the digits, and `m`.
pub open spec fn escape(digits: Seq<char>) -> Seq<char> {
    seq!['\x1b', '['] + digits + seq!['m']
}

/// What sets the colour of the text that follows.
pub open spec fn foreground(paint: Paint) -> Seq<char> {
    escape(foreground_digits(paint))
}

/// What sets the colour behind the text that follows.
pub open spec fn background(paint: Paint) -> Seq<char> {
    escape(background_digits(paint))
}

/// `DynColor::fmt_ansi_fg`, as `AnsiColors` has it, writes the escape
/// sequence that sets the foreground to the colour: the escape character,
/// `[`, the colour's foreground number and `m`.
#[verifier::external_body]
pub(crate) fn ansi_foreground(paint: Paint) -> (s: String)
    ensures
        s@ == foreground(paint),
{
    let color = match paint {
        Paint::Black => AnsiColors::Black,
        Paint::Green => AnsiColors::Green,
        Paint::Yellow => AnsiColors::Yellow,
        Paint::White => AnsiColors::White,
        Paint::BrightBlack => AnsiColors::BrightBlack,
        Paint::BrightWhite => AnsiColors::BrightWhite,
    };
    format!("{}", std::fmt::from_fn(|f| color.fmt_ansi_fg(f)))
}

/// `DynColor::fmt_ansi_bg`, as `AnsiColors` has it, writes the escape
/// sequence that sets the background to the colour: the escape character,
/// `[`, the colour's background number and `m`.
#[verifier::external_body]
pub(crate) fn ansi_background(paint: Paint) -> (s: String)
    ensures
        s@ == background(paint),
{
    let color = match paint {
        Paint::Black => AnsiColors::Black,
        Paint::Green => AnsiColors::Green,
        Paint::Yellow => AnsiColors::Yellow,
        Paint::White => AnsiColors::White,
        Paint::BrightBlack => AnsiColors::BrightBlack,
        Paint::BrightWhite => AnsiColors::BrightWhite,
    };
    format!("{}", std::fmt::from_fn(|f| color.fmt_ansi_bg(f)))
}

} // verus!
