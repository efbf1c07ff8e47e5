//! Terminal styling through owo-colors.
use owo_colors::OwoColorize;
use vstd::prelude::*;
use crate::usage::Severity;

verus! {

/// `s` in red, as owo-colors displays it.
pub open spec fn red_text(s: Seq<char>) -> Seq<char> {
    "\x1b[31m"@ + s + "\x1b[39m"@
}

/// `s` in yellow, as owo-colors displays it.
pub open spec fn yellow_text(s: Seq<char>) -> Seq<char> {
    "\x1b[33m"@ + s + "\x1b[39m"@
}

/// `s` in green, as owo-colors displays it.
pub open spec fn green_text(s: Seq<char>) -> Seq<char> {
    "\x1b[32m"@ + s + "\x1b[39m"@
}

/// `s` underlined, as owo-colors displays it.
pub open spec fn underlined_text(s: Seq<char>) -> Seq<char> {
    "\x1b[4m"@ + s + "\x1b[0m"@
}

/// `s` in the color of a severity band: green, yellow or red.
pub open spec fn severity_text(sev: Severity, s: Seq<char>) -> Seq<char> {
    match sev {
        Severity::Low => green_text(s),
        Severity::Elevated => yellow_text(s),
        Severity::Critical => red_text(s),
    }
}

/// `OwoColorize::red` turned into a `String`: owo-colors writes the ANSI
/// foreground code 31, the text, and the foreground reset code 39.
#[verifier::external_body]
fn red(s: &str) -> (r: String)
    ensures
        r@ == red_text(s@),
{
    s.red().to_string()
}

/// `OwoColorize::yellow` turned into a `String`: owo-colors writes the ANSI
/// foreground code 33, the text, and the foreground reset code 39.
#[verifier::external_body]
fn yellow(s: &str) -> (r: String)
    ensures
        r@ == yellow_text(s@),
{
    s.yellow().to_string()
}

/// `OwoColorize::green` turned into a `String`: owo-colors writes the ANSI
/// foreground code 32, the text, and the foreground reset code 39.
#[verifier::external_body]
fn green(s: &str) -> (r: String)
    ensures
        r@ == green_text(s@),
{
    s.green().to_string()
}

/// `OwoColorize::underline` turned into a `String`: owo-colors writes the
/// ANSI underline code 4, the text, and the reset code 0.
#[verifier::external_body]
pub fn underline(s: &str) -> (r: String)
    ensures
        r@ == underlined_text(s@),
{
    s.underline().to_string()
}

/// `s` in the color of the severity band `sev`.
pub fn paint(sev: Severity, s: &str) -> (r: String)
    ensures
        r@ == severity_text(sev, s@),
{
    match sev {
        Severity::Low => green(s),
        Severity::Elevated => yellow(s),
        Severity::Critical => red(s),
    }
}

} // verus!
