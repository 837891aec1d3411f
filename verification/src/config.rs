//! Analysis settings: severity thresholds, health-score weights, ignored
//! path fragments and declared entry points. Reading `.delve.json` is the
//! application's part; every setting has a default.

use vstd::prelude::*;

verus! {

/// A non-negative rational number `numerator / denominator`, the form in
/// which the near-duplicate similarity threshold is held.
#[derive(Clone, Copy, Debug)]
pub struct Ratio {
    pub numerator: u64,
    pub denominator: u64,
}

/// Thresholds above which a function is a warning or critical.
#[derive(Clone, Copy, Debug)]
pub struct Thresholds {
    pub warning_lines: usize,
    pub critical_lines: usize,
    pub warning_complexity: usize,
    pub critical_complexity: usize,
    pub jaccard_threshold: Ratio,
}

/// Points each kind of finding takes off the health score.
#[derive(Clone, Debug)]
pub struct Weights {
    pub unused_file: usize,
    pub giant_critical: usize,
    pub giant_warning: usize,
    pub duplicate: usize,
    pub any_type: usize,
    pub console_log: usize,
    pub circular_dep: usize,
}

/// The whole configuration.
#[derive(Clone, Debug)]
pub struct DelveConfig {
    pub thresholds: Thresholds,
    pub weights: Weights,
    pub ignore: Vec<String>,
    pub entry_points: Vec<String>,
}

pub fn default_warning_lines() -> (n: usize)
    ensures
        n == 40,
{
    40
}

pub fn default_critical_lines() -> (n: usize)
    ensures
        n == 80,
{
    80
}

pub fn default_warning_complexity() -> (n: usize)
    ensures
        n == 10,
{
    10
}

pub fn default_critical_complexity() -> (n: usize)
    ensures
        n == 20,
{
    20
}

/// Seven tenths.
pub fn default_jaccard_threshold() -> (r: Ratio)
    ensures
        r.numerator == 7 && r.denominator == 10,
{
    Ratio { numerator: 7, denominator: 10 }
}

pub fn default_unused_file() -> (n: usize)
    ensures
        n == 15,
{
    15
}

pub fn default_giant_critical() -> (n: usize)
    ensures
        n == 5,
{
    5
}

pub fn default_giant_warning() -> (n: usize)
    ensures
        n == 2,
{
    2
}

pub fn default_duplicate() -> (n: usize)
    ensures
        n == 3,
{
    3
}

pub fn default_any_type() -> (n: usize)
    ensures
        n == 1,
{
    1
}

pub fn default_console_log() -> (n: usize)
    ensures
        n == 1,
{
    1
}

pub fn default_circular_dep() -> (n: usize)
    ensures
        n == 5,
{
    5
}

/// The default thresholds: warning above 40 lines or complexity 10,
/// critical above 80 lines or complexity 20, similarity 7/10.
pub open spec fn default_thresholds() -> Thresholds {
    Thresholds {
        warning_lines: 40,
        critical_lines: 80,
        warning_complexity: 10,
        critical_complexity: 20,
        jaccard_threshold: Ratio { numerator: 7, denominator: 10 },
    }
}

/// The default weights.
pub open spec fn default_weights() -> Weights {
    Weights {
        unused_file: 15,
        giant_critical: 5,
        giant_warning: 2,
        duplicate: 3,
        any_type: 1,
        console_log: 1,
        circular_dep: 5,
    }
}

impl Default for Thresholds {
    fn default() -> (t: Self)
        ensures
            t == default_thresholds(),
    {
        Thresholds {
            warning_lines: default_warning_lines(),
            critical_lines: default_critical_lines(),
            warning_complexity: default_warning_complexity(),
            critical_complexity: default_critical_complexity(),
            jaccard_threshold: default_jaccard_threshold(),
        }
    }
}

impl Default for Weights {
    fn default() -> (w: Self)
        ensures
            w == default_weights(),
    {
        Weights {
            unused_file: default_unused_file(),
            giant_critical: default_giant_critical(),
            giant_warning: default_giant_warning(),
            duplicate: default_duplicate(),
            any_type: default_any_type(),
            console_log: default_console_log(),
            circular_dep: default_circular_dep(),
        }
    }
}

impl Default for DelveConfig {
    fn default() -> (c: Self)
        ensures
            c.thresholds == default_thresholds(),
            c.weights == default_weights(),
            c.ignore@.len() == 0,
            c.entry_points@.len() == 0,
    {
        DelveConfig {
            thresholds: Thresholds::default(),
            weights: Weights::default(),
            ignore: Vec::new(),
            entry_points: Vec::new(),
        }
    }
}

} // verus!
