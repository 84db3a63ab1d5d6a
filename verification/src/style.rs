//! Terminal styling of text, through `owo_colors`.
use owo_colors::OwoColorize;
use vstd::prelude::*;

verus! {

/// The ANSI escape sequence `ESC [ code m`.
pub open spec fn sgr(code: Seq<char>) -> Seq<char> {
    seq!['\x1b', '['] + code + seq!['m']
}

/// `s` made bold: `ESC[1m`, `s`, `ESC[0m`.
pub open spec fn bold_text(s: Seq<char>) -> Seq<char> {
    sgr(seq!['1']) + s + sgr(seq!['0'])
}

/// `s` made dim: `ESC[2m`, `s`, `ESC[0m`.
pub open spec fn dimmed_text(s: Seq<char>) -> Seq<char> {
    sgr(seq!['2']) + s + sgr(seq!['0'])
}

/// `s` in green: `ESC[32m`, `s`, `ESC[39m`.
pub open spec fn green_text(s: Seq<char>) -> Seq<char> {
    sgr(seq!['3', '2']) + s + sgr(seq!['3', '9'])
}

/// `OwoColorize::bold`, displayed. Its `Display` impl writes `ESC[1m`, the
/// text, and `ESC[0m`.
#[verifier::external_body]
pub(crate) fn bold(s: &str) -> (r: String)
    ensures
        r@ == bold_text(s@),
{
    format!("{}", s.bold())
}

/// `OwoColorize::dimmed`, displayed. Its `Display` impl writes `ESC[2m`, the
/// text, and `ESC[0m`.
#[verifier::external_body]
pub(crate) fn dimmed(s: &str) -> (r: String)
    ensures
        r@ == dimmed_text(s@),
{
    format!("{}", s.dimmed())
}

/// `OwoColorize::green`, displayed. Its `Display` impl writes the green
/// foreground code `ESC[32m`, the text, and the default foreground code
/// `ESC[39m`.
#[verifier::external_body]
pub(crate) fn green(s: &str) -> (r: String)
    ensures
        r@ == green_text(s@),
{
    format!("{}", s.green())
}

} // verus!
