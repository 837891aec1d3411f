//! Static analysis of JavaScript and TypeScript projects: unused exports,
//! giant functions, duplicated blocks, risky patterns, unused and missing
//! dependencies, and a health score that weighs them all.

use vstd::prelude::*;

pub mod text;
pub mod syntax;
pub mod parser;
pub mod config;
pub mod sort;
pub mod giant_funcs;
pub mod risks;
pub mod unused;
pub mod duplicates;
pub mod health;
pub mod paths;
pub mod graph;
pub mod paint;
pub mod unused_deps;
pub mod report;
pub mod manifest;

verus! {

/// What a command prints, the exit status it asks for, and the score that
/// a `--fail-on` threshold is held against.
pub struct CommandResult {
    pub output: String,
    pub exit_code: i32,
    pub score: usize,
}

/// The result of a command that lists findings: status 1 and score 0 when
/// there are any, status 0 and score 100 when there are none.
pub fn findings_outcome(output: String, any: bool) -> (r: CommandResult)
    ensures
        r.output@ == output@,
        r.exit_code == (if any {
            1i32
        } else {
            0i32
        }),
        r.score == (if any {
            0usize
        } else {
            100usize
        }),
{
    CommandResult {
        output,
        exit_code: if any {
            1
        } else {
            0
        },
        score: if any {
            0
        } else {
            100
        },
    }
}

} // verus!
