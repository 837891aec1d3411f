//! The health score: one number from 0 to 100 that weighs every finding,
//! its label, and the list of things to fix.

use vstd::prelude::*;
use vstd::string::StringExecFns;

use crate::config::Weights;
use crate::duplicates::DuplicateCluster;
use crate::giant_funcs::{count_severity, metrics_view, severity_count, FunctionMetrics, Severity};
use crate::risks::{count_kind, kind_count, risks_view, RiskItem, RiskKind};
use crate::text::{append_decimal, decimal, to_string};
use crate::unused::UnusedItem;

verus! {

/// The score, its label and the counts it was computed from.
pub struct HealthReport {
    pub score: usize,
    pub label: &'static str,
    pub unused_count: usize,
    pub giant_critical: usize,
    pub giant_warning: usize,
    pub duplicate_count: usize,
    pub any_type_count: usize,
    pub console_log_count: usize,
    pub debugger_count: usize,
    pub deep_nesting_count: usize,
    pub long_params_count: usize,
}

/// What the findings take off a perfect score: the unused-file weight once
/// if anything is unused, and each weight times its count for critical and
/// warning giant functions, duplicate blocks, `any` types, and
/// `console.log` calls and `debugger` statements (these two share the
/// `console_log` weight).
pub open spec fn health_penalty(
    unused: int,
    critical: int,
    warning: int,
    duplicates: int,
    any_types: int,
    console_logs: int,
    debuggers: int,
    w: Weights,
) -> int {
    (if unused > 0 {
        w.unused_file as int
    } else {
        0
    }) + critical * w.giant_critical + warning * w.giant_warning + duplicates * w.duplicate
        + any_types * w.any_type + console_logs * w.console_log + debuggers * w.console_log
}

/// A hundred less the penalty, never below zero.
pub open spec fn health_score(
    unused: int,
    critical: int,
    warning: int,
    duplicates: int,
    any_types: int,
    console_logs: int,
    debuggers: int,
    w: Weights,
) -> int {
    let p = health_penalty(
        unused,
        critical,
        warning,
        duplicates,
        any_types,
        console_logs,
        debuggers,
        w,
    );
    if p >= 100 {
        0
    } else {
        100 - p
    }
}

/// The label of a score: healthy from 70, needing work from 40.
pub open spec fn health_label(score: int) -> Seq<char> {
    if score >= 70 {
        "healthy"@
    } else if score >= 40 {
        "needs work"@
    } else {
        "vibe disaster"@
    }
}

/// The label of a score.
pub fn label_for(score: usize) -> (label: &'static str)
    ensures
        label@ == health_label(score as int),
{
    if score >= 70 {
        "healthy"
    } else if score >= 40 {
        "needs work"
    } else {
        "vibe disaster"
    }
}

/// Computes the health report of a set of findings.
pub fn calculate(
    unused_items: &[UnusedItem],
    giant_metrics: &[FunctionMetrics],
    risk_items: &[RiskItem],
    dup_clusters: &[DuplicateCluster],
    weights: &Weights,
) -> (r: HealthReport)
    requires
        health_penalty(
            unused_items@.len() as int,
            severity_count(metrics_view(giant_metrics@), Severity::Critical) as int,
            severity_count(metrics_view(giant_metrics@), Severity::Warning) as int,
            dup_clusters@.len() as int,
            kind_count(risks_view(risk_items@), RiskKind::AnyType) as int,
            kind_count(risks_view(risk_items@), RiskKind::ConsoleLog) as int,
            kind_count(risks_view(risk_items@), RiskKind::Debugger) as int,
            *weights,
        ) <= isize::MAX,
    ensures
        r.unused_count == unused_items@.len(),
        r.giant_critical == severity_count(metrics_view(giant_metrics@), Severity::Critical),
        r.giant_warning == severity_count(metrics_view(giant_metrics@), Severity::Warning),
        r.duplicate_count == dup_clusters@.len(),
        r.any_type_count == kind_count(risks_view(risk_items@), RiskKind::AnyType),
        r.console_log_count == kind_count(risks_view(risk_items@), RiskKind::ConsoleLog),
        r.debugger_count == kind_count(risks_view(risk_items@), RiskKind::Debugger),
        r.deep_nesting_count == kind_count(risks_view(risk_items@), RiskKind::DeepNesting),
        r.long_params_count == kind_count(risks_view(risk_items@), RiskKind::LongParams),
        r.score == health_score(
            r.unused_count as int,
            r.giant_critical as int,
            r.giant_warning as int,
            r.duplicate_count as int,
            r.any_type_count as int,
            r.console_log_count as int,
            r.debugger_count as int,
            *weights,
        ),
        r.score <= 100,
        r.label@ == health_label(r.score as int),
{
    let unused_count = unused_items.len();
    let giant_critical = count_severity(giant_metrics, Severity::Critical);
    let giant_warning = count_severity(giant_metrics, Severity::Warning);
    let duplicate_count = dup_clusters.len();
    let any_type_count = count_kind(risk_items, RiskKind::AnyType);
    let console_log_count = count_kind(risk_items, RiskKind::ConsoleLog);
    let debugger_count = count_kind(risk_items, RiskKind::Debugger);
    let deep_nesting_count = count_kind(risk_items, RiskKind::DeepNesting);
    let long_params_count = count_kind(risk_items, RiskKind::LongParams);
    let ghost p = health_penalty(
        unused_count as int,
        giant_critical as int,
        giant_warning as int,
        duplicate_count as int,
        any_type_count as int,
        console_log_count as int,
        debugger_count as int,
        *weights,
    );
    proof {
        assert(0 <= giant_critical * weights.giant_critical) by (nonlinear_arith);
        assert(0 <= giant_warning * weights.giant_warning) by (nonlinear_arith);
        assert(0 <= duplicate_count * weights.duplicate) by (nonlinear_arith);
        assert(0 <= any_type_count * weights.any_type) by (nonlinear_arith);
        assert(0 <= console_log_count * weights.console_log) by (nonlinear_arith);
        assert(0 <= debugger_count * weights.console_log) by (nonlinear_arith);
    }
    let mut penalty: usize = if unused_count > 0 {
        weights.unused_file
    } else {
        0
    };
    penalty = penalty + giant_critical * weights.giant_critical;
    penalty = penalty + giant_warning * weights.giant_warning;
    penalty = penalty + duplicate_count * weights.duplicate;
    penalty = penalty + any_type_count * weights.any_type;
    penalty = penalty + console_log_count * weights.console_log;
    penalty = penalty + debugger_count * weights.console_log;
    assert(penalty == p);
    let score: usize = if penalty >= 100 {
        0
    } else {
        100 - penalty
    };
    HealthReport {
        score,
        label: label_for(score),
        unused_count,
        giant_critical,
        giant_warning,
        duplicate_count,
        any_type_count,
        console_log_count,
        debugger_count,
        deep_nesting_count,
        long_params_count,
    }
}

/// A report with nothing to count scores a full hundred and is healthy.
pub proof fn law_clean_scores_full(w: Weights)
    ensures
        health_score(0, 0, 0, 0, 0, 0, 0, w) == 100,
        health_label(health_score(0, 0, 0, 0, 0, 0, 0, w)) == "healthy"@,
{
}

/// More findings of any kind never raise the score.
pub proof fn law_score_monotone(
    u1: int,
    c1: int,
    g1: int,
    d1: int,
    a1: int,
    l1: int,
    b1: int,
    u2: int,
    c2: int,
    g2: int,
    d2: int,
    a2: int,
    l2: int,
    b2: int,
    w: Weights,
)
    requires
        0 <= u1 <= u2,
        0 <= c1 <= c2,
        0 <= g1 <= g2,
        0 <= d1 <= d2,
        0 <= a1 <= a2,
        0 <= l1 <= l2,
        0 <= b1 <= b2,
    ensures
        health_score(u2, c2, g2, d2, a2, l2, b2, w) <= health_score(u1, c1, g1, d1, a1, l1, b1, w),
        0 <= health_score(u2, c2, g2, d2, a2, l2, b2, w) <= 100,
{
    assert(c1 * w.giant_critical <= c2 * w.giant_critical) by (nonlinear_arith)
        requires
            0 <= c1 <= c2,
            0 <= w.giant_critical,
    ;
    assert(g1 * w.giant_warning <= g2 * w.giant_warning) by (nonlinear_arith)
        requires
            0 <= g1 <= g2,
            0 <= w.giant_warning,
    ;
    assert(d1 * w.duplicate <= d2 * w.duplicate) by (nonlinear_arith)
        requires
            0 <= d1 <= d2,
            0 <= w.duplicate,
    ;
    assert(a1 * w.any_type <= a2 * w.any_type) by (nonlinear_arith)
        requires
            0 <= a1 <= a2,
            0 <= w.any_type,
    ;
    assert(l1 * w.console_log <= l2 * w.console_log) by (nonlinear_arith)
        requires
            0 <= l1 <= l2,
            0 <= w.console_log,
    ;
    assert(0 <= c1 * w.giant_critical) by (nonlinear_arith)
        requires
            0 <= c1,
            0 <= w.giant_critical,
    ;
    assert(0 <= g1 * w.giant_warning) by (nonlinear_arith)
        requires
            0 <= g1,
            0 <= w.giant_warning,
    ;
    assert(0 <= d1 * w.duplicate) by (nonlinear_arith)
        requires
            0 <= d1,
            0 <= w.duplicate,
    ;
    assert(0 <= a1 * w.any_type) by (nonlinear_arith)
        requires
            0 <= a1,
            0 <= w.any_type,
    ;
    assert(0 <= l1 * w.console_log) by (nonlinear_arith)
        requires
            0 <= l1,
            0 <= w.console_log,
    ;
    assert(b1 * w.console_log <= b2 * w.console_log) by (nonlinear_arith)
        requires
            0 <= b1 <= b2,
            0 <= w.console_log,
    ;
    assert(0 <= b1 * w.console_log) by (nonlinear_arith)
        requires
            0 <= b1,
            0 <= w.console_log,
    ;
}

/// The score is a hundred less the penalty, floored at zero, so it always
/// lies between 0 and 100; with no findings the penalty is zero.
pub proof fn law_score_formula(
    unused: int,
    critical: int,
    warning: int,
    duplicates: int,
    any_types: int,
    console_logs: int,
    debuggers: int,
    w: Weights,
)
    requires
        0 <= unused,
        0 <= critical,
        0 <= warning,
        0 <= duplicates,
        0 <= any_types,
        0 <= console_logs,
        0 <= debuggers,
    ensures
        ({
            let p = health_penalty(
                unused,
                critical,
                warning,
                duplicates,
                any_types,
                console_logs,
                debuggers,
                w,
            );
            &&& 0 <= p
            &&& p < 100 ==> health_score(
                unused,
                critical,
                warning,
                duplicates,
                any_types,
                console_logs,
                debuggers,
                w,
            ) == 100 - p
            &&& p >= 100 ==> health_score(
                unused,
                critical,
                warning,
                duplicates,
                any_types,
                console_logs,
                debuggers,
                w,
            ) == 0
        }),
        0 <= health_score(unused, critical, warning, duplicates, any_types, console_logs, debuggers, w)
            <= 100,
        health_penalty(0, 0, 0, 0, 0, 0, 0, w) == 0,
{
    assert(0 <= critical * w.giant_critical) by (nonlinear_arith)
        requires
            0 <= critical,
            0 <= w.giant_critical,
    ;
    assert(0 <= warning * w.giant_warning) by (nonlinear_arith)
        requires
            0 <= warning,
            0 <= w.giant_warning,
    ;
    assert(0 <= duplicates * w.duplicate) by (nonlinear_arith)
        requires
            0 <= duplicates,
            0 <= w.duplicate,
    ;
    assert(0 <= any_types * w.any_type) by (nonlinear_arith)
        requires
            0 <= any_types,
            0 <= w.any_type,
    ;
    assert(0 <= console_logs * w.console_log) by (nonlinear_arith)
        requires
            0 <= console_logs,
            0 <= w.console_log,
    ;
    assert(0 <= debuggers * w.console_log) by (nonlinear_arith)
        requires
            0 <= debuggers,
            0 <= w.console_log,
    ;
}

/// How many kinds of finding a report has something to do about: unused
/// exports, giant functions (critical and warning together), duplicate
/// blocks, `any` types, `console.log` calls, `debugger` statements, deep
/// nesting and long parameter lists.
pub open spec fn open_kinds(r: HealthReport) -> int {
    (if r.unused_count > 0 { 1int } else { 0int }) + (if r.giant_critical + r.giant_warning > 0 {
        1int
    } else {
        0int
    }) + (if r.duplicate_count > 0 { 1int } else { 0int }) + (if r.any_type_count > 0 {
        1int
    } else {
        0int
    }) + (if r.console_log_count > 0 { 1int } else { 0int }) + (if r.debugger_count > 0 {
        1int
    } else {
        0int
    }) + (if r.deep_nesting_count > 0 { 1int } else { 0int }) + (if r.long_params_count > 0 {
        1int
    } else {
        0int
    })
}

/// The todo list holds one item per kind of finding that has something to
/// do, and a single all-clear item when none has; the first item is about
/// unused exports whenever there are any.
pub proof fn law_todo_count(r: HealthReport)
    ensures
        todo_items(r).len() == if open_kinds(r) == 0 {
            1
        } else {
            open_kinds(r)
        },
        r.unused_count > 0 ==> todo_items(r)[0] == "Remove "@ + decimal(r.unused_count as nat)
            + " unused export(s) — use `delve deadcode` to list them"@,
        open_kinds(r) == 0 ==> todo_items(r) == seq!["Nothing to fix! Your codebase looks healthy."@],
{
}

/// The todo items of a report, in a fixed order; a single all-clear item
/// when there is nothing to do.
pub open spec fn todo_items(r: HealthReport) -> Seq<Seq<char>> {
    let items = (if r.unused_count > 0 {
        seq![
            "Remove "@ + decimal(r.unused_count as nat)
                + " unused export(s) — use `delve deadcode` to list them"@,
        ]
    } else {
        Seq::empty()
    }) + (if r.giant_critical + r.giant_warning > 0 {
        seq![
            "Split "@ + decimal((r.giant_critical + r.giant_warning) as nat)
                + " giant function(s) — use `delve split` to see details"@,
        ]
    } else {
        Seq::empty()
    }) + (if r.duplicate_count > 0 {
        seq![
            "Refactor "@ + decimal(r.duplicate_count as nat)
                + " duplicate block(s) — use `delve dup` to see locations"@,
        ]
    } else {
        Seq::empty()
    }) + (if r.any_type_count > 0 {
        seq!["Replace "@ + decimal(r.any_type_count as nat) + " `any` type(s) with proper types"@]
    } else {
        Seq::empty()
    }) + (if r.console_log_count > 0 {
        seq![
            "Remove "@ + decimal(r.console_log_count as nat)
                + " console.log statement(s) from production code"@,
        ]
    } else {
        Seq::empty()
    }) + (if r.debugger_count > 0 {
        seq!["Remove "@ + decimal(r.debugger_count as nat) + " debugger statement(s)"@]
    } else {
        Seq::empty()
    }) + (if r.deep_nesting_count > 0 {
        seq!["Reduce nesting depth in "@ + decimal(r.deep_nesting_count as nat) + " location(s)"@]
    } else {
        Seq::empty()
    }) + (if r.long_params_count > 0 {
        seq![
            "Reduce parameter count in "@ + decimal(r.long_params_count as nat) + " function(s)"@,
        ]
    } else {
        Seq::empty()
    });
    if items.len() == 0 {
        seq!["Nothing to fix! Your codebase looks healthy."@]
    } else {
        items
    }
}

pub open spec fn strings_of(v: Seq<String>) -> Seq<Seq<char>> {
    v.map_values(|s: String| s@)
}

fn counted(prefix: &str, n: usize, suffix: &str) -> (s: String)
    ensures
        s@ == prefix@ + decimal(n as nat) + suffix@,
{
    let mut s = to_string(prefix);
    append_decimal(&mut s, n);
    s.append(suffix);
    s
}

fn push_if(
    todos: &mut Vec<String>,
    cond: bool,
    prefix: &str,
    n: usize,
    suffix: &str,
)
    ensures
        strings_of(final(todos)@) == strings_of(old(todos)@) + if cond {
            seq![prefix@ + decimal(n as nat) + suffix@]
        } else {
            Seq::empty()
        },
{
    let ghost v0 = strings_of(todos@);
    if cond {
        todos.push(counted(prefix, n, suffix));
    }
    assert(strings_of(todos@) =~= v0 + if cond {
        seq![prefix@ + decimal(n as nat) + suffix@]
    } else {
        Seq::empty()
    });
}

impl HealthReport {
    /// The things to fix, one line each, in a fixed order; a single
    /// all-clear line when there are none.
    pub fn to_todo_list(&self) -> (todos: Vec<String>)
        requires
            self.giant_critical + self.giant_warning <= usize::MAX,
        ensures
            strings_of(todos@) == todo_items(*self),
            todos@.len() >= 1,
    {
        let mut todos: Vec<String> = Vec::new();
        push_if(
            &mut todos,
            self.unused_count > 0,
            "Remove ",
            self.unused_count,
            " unused export(s) — use `delve deadcode` to list them",
        );
        let giants = self.giant_critical + self.giant_warning;
        push_if(
            &mut todos,
            giants > 0,
            "Split ",
            giants,
            " giant function(s) — use `delve split` to see details",
        );
        push_if(
            &mut todos,
            self.duplicate_count > 0,
            "Refactor ",
            self.duplicate_count,
            " duplicate block(s) — use `delve dup` to see locations",
        );
        push_if(
            &mut todos,
            self.any_type_count > 0,
            "Replace ",
            self.any_type_count,
            " `any` type(s) with proper types",
        );
        push_if(
            &mut todos,
            self.console_log_count > 0,
            "Remove ",
            self.console_log_count,
            " console.log statement(s) from production code",
        );
        push_if(
            &mut todos,
            self.debugger_count > 0,
            "Remove ",
            self.debugger_count,
            " debugger statement(s)",
        );
        push_if(
            &mut todos,
            self.deep_nesting_count > 0,
            "Reduce nesting depth in ",
            self.deep_nesting_count,
            " location(s)",
        );
        push_if(
            &mut todos,
            self.long_params_count > 0,
            "Reduce parameter count in ",
            self.long_params_count,
            " function(s)",
        );
        if todos.len() == 0 {
            todos.push(to_string("Nothing to fix! Your codebase looks healthy."));
            assert(strings_of(todos@) =~= seq!["Nothing to fix! Your codebase looks healthy."@]);
        }
        todos
    }
}

/// Each item on a line of its own behind a bullet.
pub open spec fn bullet_lines(items: Seq<Seq<char>>) -> Seq<char>
    decreases items.len(),
{
    if items.len() == 0 {
        Seq::empty()
    } else {
        bullet_lines(items.drop_last()) + "    • "@ + items.last() + "\n"@
    }
}

/// The text of a health report: score and label, then the todo list.
pub open spec fn health_text(r: HealthReport) -> Seq<char> {
    "HEALTH SCORE: "@ + decimal(r.score as nat) + "/100 — \""@ + r.label@ + "\"\n  Todo:\n"@ + bullet_lines(
        todo_items(r),
    )
}

/// Renders a health report as text: the score out of a hundred with its
/// label, then each todo item behind a bullet.
pub fn format_health_report(report: &HealthReport) -> (out: String)
    requires
        report.giant_critical + report.giant_warning <= usize::MAX,
    ensures
        out@ == health_text(*report),
{
    let mut out = to_string("HEALTH SCORE: ");
    append_decimal(&mut out, report.score);
    out.append("/100 — \"");
    out.append(report.label);
    out.append("\"\n  Todo:\n");
    let ghost head = out@;
    let todos = report.to_todo_list();
    let mut i: usize = 0;
    while i < todos.len()
        invariant
            i <= todos@.len(),
            out@ == head + bullet_lines(strings_of(todos@).take(i as int)),
        decreases todos.len() - i,
    {
        out.append("    • ");
        out.append(todos[i].as_str());
        out.append("\n");
        proof {
            let t = strings_of(todos@).take(i + 1);
            assert(t.drop_last() =~= strings_of(todos@).take(i as int));
            assert(t.last() == todos@[i as int]@);
        }
        i += 1;
    }
    assert(strings_of(todos@).take(i as int) =~= strings_of(todos@));
    out
}

/// The health report of a set of findings (see `calculate`), or `None` where
/// the penalty does not fit an `isize`.
pub fn calculate_checked(
    unused_items: &[UnusedItem],
    giant_metrics: &[FunctionMetrics],
    risk_items: &[RiskItem],
    dup_clusters: &[DuplicateCluster],
    weights: &Weights,
) -> (r: Option<HealthReport>)
    ensures
        r is Some <==> health_penalty(
            unused_items@.len() as int,
            severity_count(metrics_view(giant_metrics@), Severity::Critical) as int,
            severity_count(metrics_view(giant_metrics@), Severity::Warning) as int,
            dup_clusters@.len() as int,
            kind_count(risks_view(risk_items@), RiskKind::AnyType) as int,
            kind_count(risks_view(risk_items@), RiskKind::ConsoleLog) as int,
            kind_count(risks_view(risk_items@), RiskKind::Debugger) as int,
            *weights,
        ) <= isize::MAX,
        r matches Some(h) ==> {
            &&& h.unused_count == unused_items@.len()
            &&& h.giant_critical == severity_count(metrics_view(giant_metrics@), Severity::Critical)
            &&& h.giant_warning == severity_count(metrics_view(giant_metrics@), Severity::Warning)
            &&& h.duplicate_count == dup_clusters@.len()
            &&& h.any_type_count == kind_count(risks_view(risk_items@), RiskKind::AnyType)
            &&& h.console_log_count == kind_count(risks_view(risk_items@), RiskKind::ConsoleLog)
            &&& h.debugger_count == kind_count(risks_view(risk_items@), RiskKind::Debugger)
            &&& h.deep_nesting_count == kind_count(risks_view(risk_items@), RiskKind::DeepNesting)
            &&& h.long_params_count == kind_count(risks_view(risk_items@), RiskKind::LongParams)
            &&& h.score == health_score(
                h.unused_count as int,
                h.giant_critical as int,
                h.giant_warning as int,
                h.duplicate_count as int,
                h.any_type_count as int,
                h.console_log_count as int,
                h.debugger_count as int,
                *weights,
            )
            &&& h.label@ == health_label(h.score as int)
        },
{
    let ghost p = health_penalty(
        unused_items@.len() as int,
        severity_count(metrics_view(giant_metrics@), Severity::Critical) as int,
        severity_count(metrics_view(giant_metrics@), Severity::Warning) as int,
        dup_clusters@.len() as int,
        kind_count(risks_view(risk_items@), RiskKind::AnyType) as int,
        kind_count(risks_view(risk_items@), RiskKind::ConsoleLog) as int,
        kind_count(risks_view(risk_items@), RiskKind::Debugger) as int,
        *weights,
    );
    let critical = count_severity(giant_metrics, Severity::Critical);
    let warning = count_severity(giant_metrics, Severity::Warning);
    let any_types = count_kind(risk_items, RiskKind::AnyType);
    let logs = count_kind(risk_items, RiskKind::ConsoleLog);
    let debuggers = count_kind(risk_items, RiskKind::Debugger);
    let base: usize = if unused_items.len() > 0 {
        weights.unused_file
    } else {
        0
    };
    let t1 = add_term(Some(base), critical, weights.giant_critical);
    let t2 = add_term(t1, warning, weights.giant_warning);
    let t3 = add_term(t2, dup_clusters.len(), weights.duplicate);
    let t4 = add_term(t3, any_types, weights.any_type);
    let t5 = add_term(t4, logs, weights.console_log);
    let t6 = add_term(t5, debuggers, weights.console_log);
    proof {
        assert(0 <= critical * weights.giant_critical) by (nonlinear_arith);
        assert(0 <= warning * weights.giant_warning) by (nonlinear_arith);
        assert(0 <= dup_clusters@.len() * weights.duplicate) by (nonlinear_arith);
        assert(0 <= any_types * weights.any_type) by (nonlinear_arith);
        assert(0 <= logs * weights.console_log) by (nonlinear_arith);
        assert(0 <= debuggers * weights.console_log) by (nonlinear_arith);
    }
    match t6 {
        Some(total) => {
            assert(total == p);
            if total > isize::MAX as usize {
                None
            } else {
                Some(calculate(unused_items, giant_metrics, risk_items, dup_clusters, weights))
            }
        },
        None => {
            assert(p > usize::MAX);
            None
        },
    }
}

/// `acc + n * w`, or `None` where `acc` is `None` or the sum overflows.
fn add_term(acc: Option<usize>, n: usize, w: usize) -> (r: Option<usize>)
    ensures
        match r {
            Some(x) => acc matches Some(a) && x == a + n * w,
            None => acc is None || acc->0 + n * w > usize::MAX,
        },
{
    match acc {
        Some(a) => match n.checked_mul(w) {
            Some(m) => a.checked_add(m),
            None => {
                assert(0 <= a);
                None
            },
        },
        None => None,
    }
}

} // verus!
