//! The escape sequences that style text on a terminal.

use vstd::prelude::*;
use vstd::string::StringExecFns;

verus! {

/// Starts bold text.
pub open spec fn bold_sequence() -> Seq<char> {
    "\x1B[1m"@
}

/// Ends every style.
pub open spec fn reset_sequence() -> Seq<char> {
    "\x1B[m"@
}

/// Ends underlined text.
pub open spec fn no_underline_sequence() -> Seq<char> {
    "\x1B[24m"@
}

/// Clears the whole screen.
pub open spec fn clear_sequence() -> Seq<char> {
    "\x1B[2J"@
}

/// Starts a black background.
pub open spec fn black_sequence() -> Seq<char> {
    "\x1B[48;5;0m"@
}

/// Ends a coloured background.
pub open spec fn plain_sequence() -> Seq<char> {
    "\x1B[49m"@
}

/// The character of a decimal digit.
pub open spec fn digit(d: nat) -> char {
    ('0' as nat + d) as char
}

/// A number in decimal digits, without leading zeros.
pub open spec fn decimal(n: nat) -> Seq<char>
    decreases n,
{
    if n < 10 {
        seq![digit(n)]
    } else {
        decimal(n / 10).push(digit(n % 10))
    }
}

/// Moves the cursor to a column and a row, both counted from one.
pub open spec fn goto_sequence(column: u16, row: u16) -> Seq<char> {
    "\x1B["@ + decimal(row as nat) + ";"@ + decimal(column as nat) + "H"@
}

/// `termion::style::Bold`, formatted: the sequence `ESC [ 1 m`.
#[verifier::external_body]
pub(crate) fn bold() -> (s: String)
    ensures
        s@ == bold_sequence(),
{
    format!("{}", termion::style::Bold)
}

/// `termion::style::Reset`, formatted: the sequence `ESC [ m`.
#[verifier::external_body]
pub(crate) fn reset() -> (s: String)
    ensures
        s@ == reset_sequence(),
{
    format!("{}", termion::style::Reset)
}

/// `termion::style::NoUnderline`, formatted: the sequence `ESC [ 2 4 m`.
#[verifier::external_body]
pub(crate) fn no_underline() -> (s: String)
    ensures
        s@ == no_underline_sequence(),
{
    format!("{}", termion::style::NoUnderline)
}

/// `termion::clear::All`, formatted: the sequence `ESC [ 2 J`.
#[verifier::external_body]
pub(crate) fn clear_all() -> (s: String)
    ensures
        s@ == clear_sequence(),
{
    format!("{}", termion::clear::All)
}

/// `termion::color::Bg` of `termion::color::Black`, formatted: the
/// sequence `ESC [ 4 8 ; 5 ; 0 m`.
#[verifier::external_body]
pub(crate) fn background_black() -> (s: String)
    ensures
        s@ == black_sequence(),
{
    format!("{}", termion::color::Bg(termion::color::Black))
}

/// `termion::color::Bg` of `termion::color::Reset`, formatted: the
/// sequence `ESC [ 4 9 m`.
#[verifier::external_body]
pub(crate) fn background_reset() -> (s: String)
    ensures
        s@ == plain_sequence(),
{
    format!("{}", termion::color::Bg(termion::color::Reset))
}

/// `termion::cursor::Goto`, formatted: `ESC [`, the row, `;`, the column
/// and `H`, both numbers in decimal. Formatting the position (0, 0) fails
/// an assertion of the crate, so it is left out.
#[verifier::external_body]
pub(crate) fn goto(column: u16, row: u16) -> (s: String)
    requires
        column != 0 || row != 0,
    ensures
        s@ == goto_sequence(column, row),
{
    format!("{}", termion::cursor::Goto(column, row))
}

/// Appends `piece` to `text`.
pub(crate) fn put(text: &mut String, piece: &String)
    ensures
        final(text)@ == old(text)@ + piece@,
{
    text.append(piece.as_str());
}

} // verus!
