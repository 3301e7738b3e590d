//! The escape sequences that colour a stretch of terminal text.
use vstd::prelude::*;

verus! {

/// The sequence that selects the foreground colour with the given two-digit code.
pub open spec fn color_code(high: char, low: char) -> Seq<char> {
    seq!['\u{1b}', '[', high, low, 'm']
}

/// Selects yellow.
pub open spec fn yellow() -> Seq<char> {
    color_code('3', '3')
}

/// Selects bright red.
pub open spec fn bright_red() -> Seq<char> {
    color_code('9', '1')
}

/// Selects bright yellow.
pub open spec fn bright_yellow() -> Seq<char> {
    color_code('9', '3')
}

/// Selects bright white.
pub open spec fn bright_white() -> Seq<char> {
    color_code('9', '7')
}

/// Selects the terminal's default colour.
pub open spec fn default_color() -> Seq<char> {
    color_code('3', '9')
}

/// The constant `inline_colorization::color_yellow`: an escape, `[33m`.
#[verifier::external_body]
pub(crate) fn color_yellow() -> (res: &'static str)
    ensures
        res@ == yellow(),
{
    inline_colorization::color_yellow
}

/// The constant `inline_colorization::color_bright_red`: an escape, `[91m`.
#[verifier::external_body]
pub(crate) fn color_bright_red() -> (res: &'static str)
    ensures
        res@ == bright_red(),
{
    inline_colorization::color_bright_red
}

/// The constant `inline_colorization::color_bright_yellow`: an escape, `[93m`.
#[verifier::external_body]
pub(crate) fn color_bright_yellow() -> (res: &'static str)
    ensures
        res@ == bright_yellow(),
{
    inline_colorization::color_bright_yellow
}

/// The constant `inline_colorization::color_bright_white`: an escape, `[97m`.
#[verifier::external_body]
pub(crate) fn color_bright_white() -> (res: &'static str)
    ensures
        res@ == bright_white(),
{
    inline_colorization::color_bright_white
}

/// The constant `inline_colorization::color_reset`: an escape, `[39m`.
#[verifier::external_body]
pub(crate) fn color_reset() -> (res: &'static str)
    ensures
        res@ == default_color(),
{
    inline_colorization::color_reset
}

} // verus!
