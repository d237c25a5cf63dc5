use vstd::prelude::*;
use colored::Colorize;

verus! {

/// `"\x1B[<code>m" + s + "\x1B[0m"`: `s` coloured with a foreground colour code.
pub open spec fn ansi_wrapped(code: Seq<char>, s: Seq<char>) -> Seq<char> {
    seq!['\u{1b}', '['] + code + seq!['m'] + s + seq!['\u{1b}', '[', '0', 'm']
}

/// Whether the text holds an escape character.
pub open spec fn has_escape(s: Seq<char>) -> bool {
    s.contains('\u{1b}')
}

/// `Colorize::bright_black` of `colored`, shown with `to_string`.
/// Trusted: `colored` writes the text unchanged when colouring is off (by its
/// global switch or the environment) and otherwise between the escape
/// sequence of foreground code 90 and the reset sequence; which of the two it
/// does is not stated. For a text without an escape character its reset
/// sequences are not rewritten.
#[verifier::external_body]
pub(crate) fn paint_bright_black(s: &str) -> (res: String)
    ensures
        !has_escape(s@) ==> (res@ == s@ || res@ == ansi_wrapped(seq!['9', '0'], s@)),
{
    s.bright_black().to_string()
}

/// `Colorize::yellow` of `colored`, shown with `to_string`.
/// Trusted: as `paint_bright_black`, with foreground code 33.
#[verifier::external_body]
pub(crate) fn paint_yellow(s: &str) -> (res: String)
    ensures
        !has_escape(s@) ==> (res@ == s@ || res@ == ansi_wrapped(seq!['3', '3'], s@)),
{
    s.yellow().to_string()
}

/// `Colorize::blue` of `colored`, shown with `to_string`.
/// Trusted: as `paint_bright_black`, with foreground code 34.
#[verifier::external_body]
pub(crate) fn paint_blue(s: &str) -> (res: String)
    ensures
        !has_escape(s@) ==> (res@ == s@ || res@ == ansi_wrapped(seq!['3', '4'], s@)),
{
    s.blue().to_string()
}

} // verus!
