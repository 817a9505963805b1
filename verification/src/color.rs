//! Minimal truecolor ANSI styling.
//!
//! 24-bit foreground colors render directly. Bold and dim reset with `22m`
//! (normal intensity) rather than `0m`, so they compose with surrounding
//! color without clearing it.

use vstd::prelude::*;
use crate::log::Severity;
use crate::text::{decimal, push_decimal, push_str};

verus! {

/// `text` wrapped in a 24-bit foreground color.
pub open spec fn spec_fg(text: Seq<char>, rgb: (u8, u8, u8)) -> Seq<char> {
    "\x1b[38;2;"@ + decimal(rgb.0 as nat) + ";"@ + decimal(rgb.1 as nat) + ";"@ + decimal(
        rgb.2 as nat,
    ) + "m"@ + text + "\x1b[39m"@
}

/// Wrap `text` in a 24-bit foreground color.
pub fn fg(text: &str, rgb: (u8, u8, u8)) -> (s: String)
    ensures
        s@ == spec_fg(text@, rgb),
{
    let (r, g, b) = rgb;
    let mut s = "\x1b[38;2;".to_owned();
    push_decimal(&mut s, r as u64);
    push_str(&mut s, ";");
    push_decimal(&mut s, g as u64);
    push_str(&mut s, ";");
    push_decimal(&mut s, b as u64);
    push_str(&mut s, "m");
    push_str(&mut s, text);
    push_str(&mut s, "\x1b[39m");
    s
}

/// Render `text` in bold.
pub fn bold(text: &str) -> (s: String)
    ensures
        s@ == "\x1b[1m"@ + text@ + "\x1b[22m"@,
{
    let mut s = "\x1b[1m".to_owned();
    push_str(&mut s, text);
    push_str(&mut s, "\x1b[22m");
    s
}

/// Render `text` dimmed.
pub fn dim(text: &str) -> (s: String)
    ensures
        s@ == "\x1b[2m"@ + text@ + "\x1b[22m"@,
{
    let mut s = "\x1b[2m".to_owned();
    push_str(&mut s, text);
    push_str(&mut s, "\x1b[22m");
    s
}

/// The symbol and color a log severity is shown with.
pub open spec fn spec_severity_style(severity: Severity) -> (Seq<char>, (u8, u8, u8)) {
    match severity {
        Severity::Trace => ("·"@, (120, 120, 120)),
        Severity::Debug => ("·"@, (130, 150, 170)),
        Severity::Info => ("ⓘ"@, (125, 170, 250)),
        Severity::Warn => ("▲"@, (251, 191, 36)),
        Severity::Error => ("✖"@, (251, 113, 133)),
        Severity::Fatal => ("✖"@, (255, 90, 90)),
    }
}

/// A symbol and color for a log severity.
pub fn severity_style(severity: Severity) -> (r: (&'static str, (u8, u8, u8)))
    ensures
        (r.0@, r.1) == spec_severity_style(severity),
{
    match severity {
        Severity::Trace => ("·", (120, 120, 120)),
        Severity::Debug => ("·", (130, 150, 170)),
        Severity::Info => ("ⓘ", (125, 170, 250)),
        Severity::Warn => ("▲", (251, 191, 36)),
        Severity::Error => ("✖", (251, 113, 133)),
        Severity::Fatal => ("✖", (255, 90, 90)),
    }
}

} // verus!
