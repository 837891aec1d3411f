//! Terminal colours for the text reports, by way of `yansi`. Whether a
//! painted piece carries escape sequences depends on yansi's global switch,
//! so what is known of each piece is that it is either the plain text or the
//! text between the colour's sequence and the reset sequence.

use vstd::prelude::*;
use yansi::Paint;

verus! {

/// The styles the reports use.
#[derive(Debug, Clone, Copy, PartialEq, Eq, Structural)]
pub enum Tint {
    Yellow,
    Red,
    Green,
    Cyan,
    Bold,
}

/// The escape sequence that starts a style.
pub open spec fn tint_prefix(t: Tint) -> Seq<char> {
    match t {
        Tint::Yellow => "\x1b[33m"@,
        Tint::Red => "\x1b[31m"@,
        Tint::Green => "\x1b[32m"@,
        Tint::Cyan => "\x1b[36m"@,
        Tint::Bold => "\x1b[1m"@,
    }
}

/// `out` is `s` painted with `t`: plain, or wrapped in the style's sequence
/// and the reset sequence.
pub open spec fn tinted(out: Seq<char>, t: Tint, s: Seq<char>) -> bool {
    out == s || out == tint_prefix(t) + s + "\x1b[0m"@
}

/// Wraps yansi's `Paint::yellow` rendered with `to_string`: the text, or the
/// text after `ESC[33m` and before `ESC[0m` when painting is enabled.
#[verifier::external_body]
fn yellow(s: &str) -> (r: String)
    ensures
        tinted(r@, Tint::Yellow, s@),
{
    s.yellow().to_string()
}

/// Wraps yansi's `Paint::red` rendered with `to_string`: the text, or the
/// text after `ESC[31m` and before `ESC[0m` when painting is enabled.
#[verifier::external_body]
fn red(s: &str) -> (r: String)
    ensures
        tinted(r@, Tint::Red, s@),
{
    s.red().to_string()
}

/// Wraps yansi's `Paint::green` rendered with `to_string`: the text, or the
/// text after `ESC[32m` and before `ESC[0m` when painting is enabled.
#[verifier::external_body]
fn green(s: &str) -> (r: String)
    ensures
        tinted(r@, Tint::Green, s@),
{
    s.green().to_string()
}

/// Wraps yansi's `Paint::cyan` rendered with `to_string`: the text, or the
/// text after `ESC[36m` and before `ESC[0m` when painting is enabled.
#[verifier::external_body]
fn cyan(s: &str) -> (r: String)
    ensures
        tinted(r@, Tint::Cyan, s@),
{
    s.cyan().to_string()
}

/// Wraps yansi's `Paint::bold` rendered with `to_string`: the text, or the
/// text after `ESC[1m` and before `ESC[0m` when painting is enabled.
#[verifier::external_body]
fn bold(s: &str) -> (r: String)
    ensures
        tinted(r@, Tint::Bold, s@),
{
    s.bold().to_string()
}

/// `s` painted with `t`.
pub fn paint(t: Tint, s: &str) -> (r: String)
    ensures
        tinted(r@, t, s@),
{
    match t {
        Tint::Yellow => yellow(s),
        Tint::Red => red(s),
        Tint::Green => green(s),
        Tint::Cyan => cyan(s),
        Tint::Bold => bold(s),
    }
}

/// `out` holds the elements of `names`, each painted with `t`.
pub open spec fn all_tinted(out: Seq<Seq<char>>, t: Tint, names: Seq<Seq<char>>) -> bool {
    out.len() == names.len() && forall|i: int| 0 <= i < names.len() ==> tinted(#[trigger] out[i], t, names[i])
}

} // verus!
