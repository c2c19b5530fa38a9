//! Checking that the terminal is large enough to play.

use vstd::prelude::*;
use crate::game::TermKey;
use crate::numbers::{decimal, decimal_u64};

verus! {

/// The least terminal height (rows) that is recommended.
pub const RECOMMENDED_HEIGHT: u16 = 30;

/// The least terminal width (columns) that is recommended.
pub const RECOMMENDED_WIDTH: u16 = 80;

/// Whether a terminal of this size is smaller than recommended.
pub fn terminal_too_small(width: u16, height: u16) -> (small: bool)
    ensures
        small == (height < RECOMMENDED_HEIGHT || width < RECOMMENDED_WIDTH),
{
    height < RECOMMENDED_HEIGHT || width < RECOMMENDED_WIDTH
}

/// What the player answered to the warning about the terminal size.
#[derive(Clone, Copy, PartialEq, Eq, Structural, Debug)]
pub enum CheckAnswer {
    /// leave (^C)
    Exit,
    /// play anyway (^D)
    Ignore,
    /// measure the terminal again (Enter)
    CheckAgain,
    /// keep waiting for one of the keys above
    Wait,
}

/// The answer that a key gives to the warning.
pub fn check_key(key: TermKey) -> (answer: CheckAnswer)
    ensures
        answer == (if key == TermKey::Ctrl('c') {
            CheckAnswer::Exit
        } else if key == TermKey::Ctrl('d') {
            CheckAnswer::Ignore
        } else if key == TermKey::Char('\n') {
            CheckAnswer::CheckAgain
        } else {
            CheckAnswer::Wait
        }),
{
    match key {
        TermKey::Ctrl(c) => {
            if c == 'c' {
                CheckAnswer::Exit
            } else if c == 'd' {
                CheckAnswer::Ignore
            } else {
                CheckAnswer::Wait
            }
        },
        TermKey::Char(c) => {
            if c == '\n' {
                CheckAnswer::CheckAgain
            } else {
                CheckAnswer::Wait
            }
        },
        _ => CheckAnswer::Wait,
    }
}

/// The warning shown when the terminal is too small.
pub open spec fn size_warning(width: nat, height: nat) -> Seq<char> {
    "Terminal width and height too small!\nwidth: "@ + decimal(width) + "\nheight: "@ + decimal(height)
        + "\n\nIt is strongly recommended to play this with a height of at least: "@ + decimal(
        RECOMMENDED_HEIGHT as nat,
    ) + " and a width of at least: "@ + decimal(RECOMMENDED_WIDTH as nat)
        + "\nConsider making your terminal fullscreen!\n\nCheck again <ENTER>, Ignore check: ^D, Exit: ^C"@
}

/// The warning for a terminal of this size.
pub fn size_warning_text(width: u16, height: u16) -> (text: String)
    ensures
        text@ == size_warning(width as nat, height as nat),
{
    let mut text = String::from_str("Terminal width and height too small!\nwidth: ");
    text.append(decimal_u64(width as u64).as_str());
    text.append("\nheight: ");
    text.append(decimal_u64(height as u64).as_str());
    text.append("\n\nIt is strongly recommended to play this with a height of at least: ");
    text.append(decimal_u64(RECOMMENDED_HEIGHT as u64).as_str());
    text.append(" and a width of at least: ");
    text.append(decimal_u64(RECOMMENDED_WIDTH as u64).as_str());
    text.append("\nConsider making your terminal fullscreen!\n\nCheck again <ENTER>, Ignore check: ^D, Exit: ^C");
    text
}

} // verus!
