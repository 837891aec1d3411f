//! The full audit: the SARIF records of its findings, GitHub annotations,
//! its text report and the exit status that its score asks for.

use vstd::prelude::*;
use vstd::string::StringExecFns;

use crate::duplicates::{clusters_view, dup_report_of, ClusterView, DuplicateCluster};
use crate::giant_funcs::{metrics_report, metrics_view, FunctionMetrics, FunctionMetricsView, Severity};
use crate::health::{health_label, strings_of, todo_items, HealthReport};
use crate::paint::{paint, tinted, Tint};
use crate::parser::strings_view;
use crate::risks::{risks_report, risks_view, RiskItem, RiskItemView, RiskKind};
use crate::text::{append_decimal, chars_of, decimal, decimal_string, str_eq, string_from_chars, to_string};
use crate::unused::{format_unused_report, unused_report, unused_view, UnusedItem, UnusedItemView};
use crate::CommandResult;

verus! {

/// The exit status of an audit: 0 from a score of 70, 1 from 40, else 2.
pub open spec fn audit_exit(score: int) -> i32 {
    if score >= 70 {
        0
    } else if score >= 40 {
        1
    } else {
        2
    }
}

/// The exit status for an audit score.
pub fn audit_exit_code(score: usize) -> (code: i32)
    ensures
        code == audit_exit(score as int),
{
    if score >= 70 {
        0
    } else if score >= 40 {
        1
    } else {
        2
    }
}

/// The result of an audit with the given text and score.
pub fn audit_outcome(output: String, score: usize) -> (r: CommandResult)
    ensures
        r.output@ == output@,
        r.score == score,
        r.exit_code == audit_exit(score as int),
{
    CommandResult { output, exit_code: audit_exit_code(score), score }
}

/// An audit exits cleanly exactly when its score is labelled healthy, with
/// status 1 exactly when it needs work, and 2 for the rest.
pub proof fn law_exit_follows_label(score: int)
    ensures
        (audit_exit(score) == 0) <==> (health_label(score) == "healthy"@),
        (audit_exit(score) == 1) <==> (health_label(score) == "needs work"@),
        (audit_exit(score) == 2) <==> (health_label(score) == "vibe disaster"@),
{
    reveal_strlit("healthy");
    reveal_strlit("needs work");
    reveal_strlit("vibe disaster");
    assert("healthy"@.len() != "needs work"@.len());
    assert("healthy"@.len() != "vibe disaster"@.len());
    assert("needs work"@.len() != "vibe disaster"@.len());
}

/// One result of a SARIF log: the rule, its level, the message and where
/// the finding is.
pub struct SarifResult {
    pub rule_id: &'static str,
    pub level: &'static str,
    pub message: String,
    pub uri: String,
    pub start_line: usize,
}

pub struct SarifView {
    pub rule_id: Seq<char>,
    pub level: Seq<char>,
    pub message: Seq<char>,
    pub uri: Seq<char>,
    pub start_line: int,
}

impl View for SarifResult {
    type V = SarifView;

    open spec fn view(&self) -> SarifView {
        SarifView {
            rule_id: self.rule_id@,
            level: self.level@,
            message: self.message@,
            uri: self.uri@,
            start_line: self.start_line as int,
        }
    }
}

pub open spec fn sarif_view(v: Seq<SarifResult>) -> Seq<SarifView> {
    v.map_values(|r: SarifResult| r@)
}

/// The record of an unused export; its location is the canonical path
/// where there is one, else the path as found.
pub open spec fn unused_record(u: UnusedItemView, canonical: Option<String>) -> SarifView {
    SarifView {
        rule_id: "delve/unused-export"@,
        level: "warning"@,
        message: u.symbol + " is exported "@ + u.kind + ", never imported"@,
        uri: match canonical {
            Some(c) => c@,
            None => u.file_path,
        },
        start_line: u.line,
    }
}

/// The record of a giant function: an error when critical.
pub open spec fn giant_record(m: FunctionMetricsView) -> SarifView {
    SarifView {
        rule_id: "delve/giant-function"@,
        level: match m.severity {
            Severity::Critical => "error"@,
            Severity::Warning => "warning"@,
        },
        message: m.name + " ("@ + decimal(m.logical_lines as nat) + " lines, complexity "@ + decimal(
            m.complexity as nat,
        ) + ")"@,
        uri: "file://"@ + m.file_path,
        start_line: m.start_line,
    }
}

/// The record of a duplicate cluster, at its first location.
pub open spec fn dup_record(c: ClusterView) -> SarifView {
    SarifView {
        rule_id: "delve/duplicate-block"@,
        level: "warning"@,
        message: "Duplicate block ("@ + decimal(c.token_count as nat) + " tokens) found in "@ + decimal(
            c.locations.len(),
        ) + " locations"@,
        uri: "file://"@ + c.locations[0].file_path,
        start_line: c.locations[0].start_line,
    }
}

/// The rule of each kind of risky pattern.
pub open spec fn risk_rule(k: RiskKind) -> Seq<char> {
    match k {
        RiskKind::AnyType => "delve/any-type"@,
        RiskKind::ConsoleLog => "delve/console-log"@,
        RiskKind::Debugger => "delve/debugger"@,
        RiskKind::DeepNesting => "delve/deep-nesting"@,
        RiskKind::LongParams => "delve/long-params"@,
    }
}

/// The record of a risky pattern: an error for `debugger`, else a warning.
pub open spec fn risk_record(r: RiskItemView) -> SarifView {
    SarifView {
        rule_id: risk_rule(r.kind),
        level: if r.kind == RiskKind::Debugger {
            "error"@
        } else {
            "warning"@
        },
        message: r.detail,
        uri: "file://"@ + r.file_path,
        start_line: r.line,
    }
}

pub open spec fn unused_records(us: Seq<UnusedItemView>, canonical: Seq<Option<String>>) -> Seq<SarifView> {
    Seq::new(us.len(), |i: int| unused_record(us[i], canonical[i]))
}

/// The records of the clusters that have a location.
pub open spec fn dup_records(cs: Seq<ClusterView>) -> Seq<SarifView>
    decreases cs.len(),
{
    if cs.len() == 0 {
        Seq::empty()
    } else {
        dup_records(cs.drop_last()) + if cs.last().locations.len() > 0 {
            seq![dup_record(cs.last())]
        } else {
            Seq::empty()
        }
    }
}

/// The SARIF records of an audit: unused exports, giant functions,
/// duplicate clusters and risky patterns, in that order.
pub open spec fn audit_records(
    us: Seq<UnusedItemView>,
    canonical: Seq<Option<String>>,
    ms: Seq<FunctionMetricsView>,
    cs: Seq<ClusterView>,
    rs: Seq<RiskItemView>,
) -> Seq<SarifView> {
    unused_records(us, canonical) + ms.map_values(|m: FunctionMetricsView| giant_record(m)) + dup_records(cs)
        + rs.map_values(|r: RiskItemView| risk_record(r))
}

fn unused_result(u: &UnusedItem, canonical: &Option<String>) -> (r: SarifResult)
    ensures
        r@ == unused_record(u@, *canonical),
{
    let mut message = to_string(u.symbol.as_str());
    message.append(" is exported ");
    message.append(u.kind.as_str());
    message.append(", never imported");
    let uri = match canonical {
        Some(c) => to_string(c.as_str()),
        None => to_string(u.file_path.as_str()),
    };
    SarifResult { rule_id: "delve/unused-export", level: "warning", message, uri, start_line: u.line }
}

fn file_uri(path: &str) -> (r: String)
    ensures
        r@ == "file://"@ + path@,
{
    let mut uri = to_string("file://");
    uri.append(path);
    uri
}

fn giant_result(m: &FunctionMetrics) -> (r: SarifResult)
    ensures
        r@ == giant_record(m@),
{
    let mut message = to_string(m.name.as_str());
    message.append(" (");
    append_decimal(&mut message, m.logical_lines);
    message.append(" lines, complexity ");
    append_decimal(&mut message, m.complexity);
    message.append(")");
    let level = match m.severity {
        Severity::Critical => "error",
        Severity::Warning => "warning",
    };
    SarifResult { rule_id: "delve/giant-function", level, message, uri: file_uri(m.file_path.as_str()), start_line: m.start_line }
}

fn dup_result(c: &DuplicateCluster) -> (r: SarifResult)
    requires
        c.locations@.len() > 0,
    ensures
        r@ == dup_record(c@),
{
    let mut message = to_string("Duplicate block (");
    append_decimal(&mut message, c.token_count);
    message.append(" tokens) found in ");
    append_decimal(&mut message, c.locations.len());
    message.append(" locations");
    let loc = &c.locations[0];
    SarifResult {
        rule_id: "delve/duplicate-block",
        level: "warning",
        message,
        uri: file_uri(loc.file_path.as_str()),
        start_line: loc.start_line,
    }
}

fn risk_result(r: &RiskItem) -> (out: SarifResult)
    ensures
        out@ == risk_record(r@),
{
    let (rule_id, level): (&'static str, &'static str) = match r.kind {
        RiskKind::AnyType => ("delve/any-type", "warning"),
        RiskKind::ConsoleLog => ("delve/console-log", "warning"),
        RiskKind::Debugger => ("delve/debugger", "error"),
        RiskKind::DeepNesting => ("delve/deep-nesting", "warning"),
        RiskKind::LongParams => ("delve/long-params", "warning"),
    };
    SarifResult { rule_id, level, message: to_string(r.detail.as_str()), uri: file_uri(r.file_path.as_str()), start_line: r.line }
}

/// The SARIF records of an audit's findings: one per unused export (at its
/// canonical path `canonical[i]` where that could be had), one per giant
/// function, one per duplicate cluster that has a location (at its first),
/// and one per risky pattern, in that order.
pub fn sarif_results(
    unused: &[UnusedItem],
    canonical: &[Option<String>],
    giant: &[FunctionMetrics],
    dups: &[DuplicateCluster],
    risks: &[RiskItem],
) -> (out: Vec<SarifResult>)
    requires
        canonical@.len() == unused@.len(),
    ensures
        sarif_view(out@) == audit_records(
            unused_view(unused@),
            canonical@,
            metrics_view(giant@),
            clusters_view(dups@),
            risks_view(risks@),
        ),
{
    let mut out: Vec<SarifResult> = Vec::new();
    let mut i: usize = 0;
    while i < unused.len()
        invariant
            i <= unused@.len(),
            canonical@.len() == unused@.len(),
            sarif_view(out@) == unused_records(unused_view(unused@).take(i as int), canonical@),
        decreases unused.len() - i,
    {
        let ghost before = sarif_view(out@);
        out.push(unused_result(&unused[i], &canonical[i]));
        assert(sarif_view(out@) =~= before.push(unused_record(unused@[i as int]@, canonical@[i as int])));
        assert(unused_records(unused_view(unused@).take(i + 1), canonical@) =~= unused_records(
            unused_view(unused@).take(i as int),
            canonical@,
        ).push(unused_record(unused@[i as int]@, canonical@[i as int])));
        i += 1;
    }
    assert(unused_view(unused@).take(i as int) =~= unused_view(unused@));
    let ghost s1 = sarif_view(out@);
    let mut k: usize = 0;
    while k < giant.len()
        invariant
            k <= giant@.len(),
            sarif_view(out@) == s1 + metrics_view(giant@).take(k as int).map_values(|m: FunctionMetricsView| giant_record(m)),
        decreases giant.len() - k,
    {
        let ghost before = sarif_view(out@);
        out.push(giant_result(&giant[k]));
        assert(sarif_view(out@) =~= before.push(giant_record(giant@[k as int]@)));
        assert(metrics_view(giant@).take(k + 1).map_values(|m: FunctionMetricsView| giant_record(m)) =~= metrics_view(
            giant@,
        ).take(k as int).map_values(|m: FunctionMetricsView| giant_record(m)).push(giant_record(giant@[k as int]@)));
        k += 1;
    }
    assert(metrics_view(giant@).take(k as int) =~= metrics_view(giant@));
    let ghost s2 = sarif_view(out@);
    let mut c: usize = 0;
    while c < dups.len()
        invariant
            c <= dups@.len(),
            sarif_view(out@) == s2 + dup_records(clusters_view(dups@).take(c as int)),
        decreases dups.len() - c,
    {
        let ghost before = sarif_view(out@);
        assert(clusters_view(dups@).take(c + 1).drop_last() =~= clusters_view(dups@).take(c as int));
        assert(clusters_view(dups@).take(c + 1).last() == dups@[c as int]@);
        if dups[c].locations.len() > 0 {
            out.push(dup_result(&dups[c]));
            assert(sarif_view(out@) =~= before.push(dup_record(dups@[c as int]@)));
        }
        c += 1;
    }
    assert(clusters_view(dups@).take(c as int) =~= clusters_view(dups@));
    let ghost s3 = sarif_view(out@);
    let mut r: usize = 0;
    while r < risks.len()
        invariant
            r <= risks@.len(),
            sarif_view(out@) == s3 + risks_view(risks@).take(r as int).map_values(|x: RiskItemView| risk_record(x)),
        decreases risks.len() - r,
    {
        let ghost before = sarif_view(out@);
        out.push(risk_result(&risks[r]));
        assert(sarif_view(out@) =~= before.push(risk_record(risks@[r as int]@)));
        assert(risks_view(risks@).take(r + 1).map_values(|x: RiskItemView| risk_record(x)) =~= risks_view(risks@).take(
            r as int,
        ).map_values(|x: RiskItemView| risk_record(x)).push(risk_record(risks@[r as int]@)));
        r += 1;
    }
    assert(risks_view(risks@).take(r as int) =~= risks_view(risks@));
    out
}

/// The path with each backslash turned into a slash.
pub open spec fn forward_slashes(s: Seq<char>) -> Seq<char> {
    s.map_values(|c: char| if c == '\\' {
        '/'
    } else {
        c
    })
}

/// The GitHub Actions warning for one unused export.
pub open spec fn annotation_line(prefix: Seq<char>, u: UnusedItemView) -> Seq<char> {
    "::warning file="@ + forward_slashes(u.file_path) + ",line="@ + decimal(u.line as nat) + ",title="@ + prefix
        + "::"@ + u.symbol + " is "@ + u.kind + " and never imported\n"@
}

pub open spec fn annotation_lines(prefix: Seq<char>, us: Seq<UnusedItemView>) -> Seq<char>
    decreases us.len(),
{
    if us.len() == 0 {
        Seq::empty()
    } else {
        annotation_lines(prefix, us.drop_last()) + annotation_line(prefix, us.last())
    }
}

fn with_forward_slashes(path: &str) -> (r: String)
    ensures
        r@ == forward_slashes(path@),
{
    let cs = chars_of(path);
    let mut out: Vec<char> = Vec::new();
    let mut i: usize = 0;
    while i < cs.len()
        invariant
            i <= cs@.len(),
            cs@ == path@,
            out@ == forward_slashes(cs@.take(i as int)),
        decreases cs.len() - i,
    {
        let c = cs[i];
        if c == '\\' {
            out.push('/');
        } else {
            out.push(c);
        }
        assert(out@ =~= forward_slashes(cs@.take(i + 1)));
        i += 1;
    }
    assert(cs@.take(i as int) =~= cs@);
    string_from_chars(out.as_slice())
}

/// Appends, when `annotations` is set, a GitHub Actions warning titled
/// `prefix` for each unused export.
pub fn maybe_add_annotations(output: &mut String, annotations: bool, prefix: &str, items: &[UnusedItem])
    ensures
        final(output)@ == old(output)@ + if annotations {
            annotation_lines(prefix@, unused_view(items@))
        } else {
            Seq::empty()
        },
{
    if !annotations {
        assert(output@ =~= output@ + Seq::<char>::empty());
        return;
    }
    let ghost start = output@;
    let mut i: usize = 0;
    while i < items.len()
        invariant
            i <= items@.len(),
            output@ == start + annotation_lines(prefix@, unused_view(items@.take(i as int))),
        decreases items.len() - i,
    {
        let item = &items[i];
        let file = with_forward_slashes(item.file_path.as_str());
        output.append("::warning file=");
        output.append(file.as_str());
        output.append(",line=");
        append_decimal(output, item.line);
        output.append(",title=");
        output.append(prefix);
        output.append("::");
        output.append(item.symbol.as_str());
        output.append(" is ");
        output.append(item.kind.as_str());
        output.append(" and never imported\n");
        proof {
            let t = unused_view(items@.take(i + 1));
            assert(t.drop_last() =~= unused_view(items@.take(i as int)));
            assert(t.last() == items@[i as int]@);
        }
        i += 1;
    }
    assert(items@.take(i as int) =~= items@);
}

/// The parts joined by `sep`.
pub open spec fn joined(parts: Seq<Seq<char>>, sep: Seq<char>) -> Seq<char>
    decreases parts.len(),
{
    if parts.len() == 0 {
        Seq::empty()
    } else if parts.len() == 1 {
        parts[0]
    } else {
        joined(parts.drop_last(), sep) + sep + parts.last()
    }
}

/// The line of an import cycle: its painted mark, its files joined by
/// arrows, and back to its first file, painted.
pub open spec fn cycle_line(cycle: Seq<Seq<char>>, mark: (Seq<char>, Seq<char>)) -> Seq<char> {
    "  "@ + mark.0 + " "@ + joined(cycle, " → "@) + " → "@ + mark.1 + "\n"@
}

pub open spec fn cycle_lines(cycles: Seq<Seq<Seq<char>>>, marks: Seq<(Seq<char>, Seq<char>)>) -> Seq<char>
    decreases cycles.len(),
{
    if cycles.len() == 0 {
        Seq::empty()
    } else {
        cycle_lines(cycles.drop_last(), marks) + cycle_line(cycles.last(), marks[cycles.len() - 1])
    }
}

pub open spec fn cycles_view(v: Seq<Vec<String>>) -> Seq<Seq<Seq<char>>> {
    v.map_values(|c: Vec<String>| strings_view(c@))
}

/// Each todo item on a line of its own behind an arrow.
pub open spec fn arrow_lines(items: Seq<Seq<char>>) -> Seq<char>
    decreases items.len(),
{
    if items.len() == 0 {
        Seq::empty()
    } else {
        arrow_lines(items.drop_last()) + "  → "@ + items.last() + "\n"@
    }
}

/// One section of the audit: its report and a blank line, or, when there
/// is nothing to report, its heading and an all-clear line.
pub open spec fn section(empty: bool, head: Seq<char>, clear: Seq<char>, body: Seq<char>) -> Seq<char> {
    if empty {
        head + "\n  "@ + clear + "\n\n"@
    } else {
        body + "\n"@
    }
}

/// The painted pieces of an audit report.
pub struct AuditInk {
    pub title: Seq<char>,
    pub unused_head: Seq<char>,
    pub giant_head: Seq<char>,
    pub dup_head: Seq<char>,
    pub risk_head: Seq<char>,
    pub cycle_head: Seq<char>,
    pub dup_report: Seq<char>,
    pub cycle_marks: Seq<(Seq<char>, Seq<char>)>,
    pub score: Seq<char>,
    pub label: Seq<char>,
}

/// The colour of a health label: green when healthy, yellow when it needs
/// work, red otherwise.
pub open spec fn label_tint(label: Seq<char>) -> Tint {
    if label == "healthy"@ {
        Tint::Green
    } else if label == "needs work"@ {
        Tint::Yellow
    } else {
        Tint::Red
    }
}

/// The pieces are those painted: the bold title, the yellow headings, the
/// duplicates report, a red mark and a red first file for each cycle, the
/// bold score and the coloured label.
pub open spec fn ink_fits(
    ink: AuditInk,
    root: Seq<char>,
    cs: Seq<ClusterView>,
    cycles: Seq<Seq<Seq<char>>>,
    health: HealthReport,
) -> bool {
    &&& tinted(ink.title, Tint::Bold, "Delve Audit — "@ + root)
    &&& tinted(ink.unused_head, Tint::Yellow, "UNUSED CODE"@)
    &&& tinted(ink.giant_head, Tint::Yellow, "GIANT FUNCTIONS"@)
    &&& tinted(ink.dup_head, Tint::Yellow, "DUPLICATE BLOCKS"@)
    &&& tinted(ink.risk_head, Tint::Yellow, "RISKY PATTERNS"@)
    &&& tinted(ink.cycle_head, Tint::Yellow, "CIRCULAR DEPENDENCIES"@)
    &&& (cs.len() > 0 ==> dup_report_of(ink.dup_report, cs))
    &&& ink.cycle_marks.len() == cycles.len()
    &&& forall|i: int|
        0 <= i < cycles.len() ==> tinted((#[trigger] ink.cycle_marks[i]).0, Tint::Red, "CYCLE"@) && tinted(
            ink.cycle_marks[i].1,
            Tint::Red,
            cycles[i][0],
        )
    &&& tinted(ink.score, Tint::Bold, decimal(health.score as nat))
    &&& tinted(ink.label, label_tint(health.label@), health.label@)
}

/// The text of an audit: a title, then the unused exports (with GitHub
/// annotations when asked for), giant functions, duplicate blocks, risky
/// patterns and import cycles, each a section, then the health score and
/// the todo list.
pub open spec fn audit_text(
    ink: AuditInk,
    us: Seq<UnusedItemView>,
    annotations: bool,
    ms: Seq<FunctionMetricsView>,
    cs: Seq<ClusterView>,
    rs: Seq<RiskItemView>,
    cycles: Seq<Seq<Seq<char>>>,
    health: HealthReport,
) -> Seq<char> {
    ink.title + "\n\n"@ + section(
        us.len() == 0,
        ink.unused_head,
        "No unused exports found."@,
        unused_report(us) + if annotations {
            annotation_lines("delve-unused"@, us)
        } else {
            Seq::empty()
        },
    ) + section(ms.len() == 0, ink.giant_head, "No giant functions found."@, metrics_report(ms)) + section(
        cs.len() == 0,
        ink.dup_head,
        "No duplicate blocks found."@,
        ink.dup_report,
    ) + section(rs.len() == 0, ink.risk_head, "No risky patterns found."@, risks_report(rs)) + section(
        cycles.len() == 0,
        ink.cycle_head,
        "No circular dependencies found."@,
        ink.cycle_head + "\n"@ + cycle_lines(cycles, ink.cycle_marks),
    ) + "HEALTH SCORE: "@ + ink.score + "/100 — \""@ + ink.label + "\"\n"@ + arrow_lines(todo_items(health))
}

fn append_section(out: &mut String, empty: bool, head: &str, clear: &str, body: &str)
    ensures
        final(out)@ == old(out)@ + section(empty, head@, clear@, body@),
{
    if empty {
        out.append(head);
        out.append("\n  ");
        out.append(clear);
        out.append("\n\n");
    } else {
        out.append(body);
        out.append("\n");
    }
}

fn append_joined(out: &mut String, parts: &Vec<String>, sep: &str)
    ensures
        final(out)@ == old(out)@ + joined(strings_view(parts@), sep@),
{
    let ghost start = out@;
    let ghost ps = strings_view(parts@);
    let mut i: usize = 0;
    while i < parts.len()
        invariant
            i <= parts@.len(),
            ps == strings_view(parts@),
            out@ == start + joined(ps.take(i as int), sep@),
        decreases parts.len() - i,
    {
        if i > 0 {
            out.append(sep);
        }
        out.append(parts[i].as_str());
        proof {
            let t = ps.take(i + 1);
            assert(t.drop_last() =~= ps.take(i as int));
            assert(t.last() == parts@[i as int]@);
            if i == 0 {
                assert(ps.take(0) =~= Seq::<Seq<char>>::empty());
                assert(t[0] == t.last());
            }
        }
        i += 1;
    }
    assert(ps.take(i as int) =~= ps);
}

/// Appends a line per cycle and gives back the painted marks.
fn append_cycles(out: &mut String, cycles: &[Vec<String>]) -> (marks: Ghost<Seq<(Seq<char>, Seq<char>)>>)
    requires
        forall|i: int| 0 <= i < cycles@.len() ==> (#[trigger] cycles@[i])@.len() > 0,
    ensures
        marks@.len() == cycles@.len(),
        forall|i: int|
            0 <= i < cycles@.len() ==> tinted((#[trigger] marks@[i]).0, Tint::Red, "CYCLE"@) && tinted(
                marks@[i].1,
                Tint::Red,
                cycles_view(cycles@)[i][0],
            ),
        final(out)@ == old(out)@ + cycle_lines(cycles_view(cycles@), marks@),
{
    let ghost start = out@;
    let ghost cv = cycles_view(cycles@);
    let ghost mut ms: Seq<(Seq<char>, Seq<char>)> = Seq::empty();
    let mut i: usize = 0;
    while i < cycles.len()
        invariant
            i <= cycles@.len(),
            cv == cycles_view(cycles@),
            forall|k: int| 0 <= k < cycles@.len() ==> (#[trigger] cycles@[k])@.len() > 0,
            ms.len() == i,
            forall|k: int|
                0 <= k < i ==> tinted((#[trigger] ms[k]).0, Tint::Red, "CYCLE"@) && tinted(ms[k].1, Tint::Red, cv[k][0]),
            out@ == start + cycle_lines(cv.take(i as int), ms),
        decreases cycles.len() - i,
    {
        let cycle = &cycles[i];
        let mark = paint(Tint::Red, "CYCLE");
        out.append("  ");
        out.append(mark.as_str());
        out.append(" ");
        append_joined(out, cycle, " → ");
        out.append(" → ");
        let first = paint(Tint::Red, cycle[0].as_str());
        out.append(first.as_str());
        out.append("\n");
        proof {
            let old_ms = ms;
            ms = ms.push((mark@, first@));
            let t = cv.take(i + 1);
            assert(t.drop_last() =~= cv.take(i as int));
            assert(t.last() == strings_view(cycle@));
            assert(strings_view(cycle@)[0] == cycle@[0]@);
            assert forall|k: int| 0 <= k < t.drop_last().len() implies ms[k] == old_ms[k] by {}
            lemma_cycle_lines_prefix(cv.take(i as int), old_ms, ms);
        }
        i += 1;
    }
    assert(cv.take(i as int) =~= cv);
    Ghost(ms)
}

proof fn lemma_cycle_lines_prefix(
    cycles: Seq<Seq<Seq<char>>>,
    a: Seq<(Seq<char>, Seq<char>)>,
    b: Seq<(Seq<char>, Seq<char>)>,
)
    requires
        cycles.len() <= a.len(),
        cycles.len() <= b.len(),
        forall|k: int| 0 <= k < cycles.len() ==> a[k] == b[k],
    ensures
        cycle_lines(cycles, a) == cycle_lines(cycles, b),
    decreases cycles.len(),
{
    if cycles.len() > 0 {
        lemma_cycle_lines_prefix(cycles.drop_last(), a, b);
    }
}

fn tint_of_label(label: &str) -> (t: Tint)
    ensures
        t == label_tint(label@),
{
    if str_eq(label, "healthy") {
        Tint::Green
    } else if str_eq(label, "needs work") {
        Tint::Yellow
    } else {
        Tint::Red
    }
}

/// Renders the full audit as text: a bold title naming `root`, then the
/// unused exports (with GitHub annotations when `annotations` is set),
/// giant functions, duplicate blocks, risky patterns and import cycles,
/// each under a yellow heading with an all-clear line when empty, then the
/// health score and its coloured label with the todo list.
pub fn format_audit_text(
    root: &str,
    unused: &[UnusedItem],
    annotations: bool,
    giant: &[FunctionMetrics],
    dups: &[DuplicateCluster],
    risks: &[RiskItem],
    cycles: &[Vec<String>],
    health: &HealthReport,
) -> (out: String)
    requires
        forall|i: int| 0 <= i < cycles@.len() ==> (#[trigger] cycles@[i])@.len() > 0,
        health.giant_critical + health.giant_warning <= usize::MAX,
    ensures
        exists|ink: AuditInk|
            #[trigger] ink_fits(ink, root@, clusters_view(dups@), cycles_view(cycles@), *health) && out@ == audit_text(
                ink,
                unused_view(unused@),
                annotations,
                metrics_view(giant@),
                clusters_view(dups@),
                risks_view(risks@),
                cycles_view(cycles@),
                *health,
            ),
{
    let mut heading = to_string("Delve Audit — ");
    heading.append(root);
    let title = paint(Tint::Bold, heading.as_str());
    let unused_head = paint(Tint::Yellow, "UNUSED CODE");
    let giant_head = paint(Tint::Yellow, "GIANT FUNCTIONS");
    let dup_head = paint(Tint::Yellow, "DUPLICATE BLOCKS");
    let risk_head = paint(Tint::Yellow, "RISKY PATTERNS");
    let cycle_head = paint(Tint::Yellow, "CIRCULAR DEPENDENCIES");
    let mut out = to_string(title.as_str());
    out.append("\n\n");
    let mut unused_body = format_unused_report(unused);
    maybe_add_annotations(&mut unused_body, annotations, "delve-unused", unused);
    append_section(&mut out, unused.len() == 0, unused_head.as_str(), "No unused exports found.", unused_body.as_str());
    let giant_body = crate::giant_funcs::format_report(giant);
    append_section(&mut out, giant.len() == 0, giant_head.as_str(), "No giant functions found.", giant_body.as_str());
    let dup_body = crate::duplicates::format_report(dups);
    append_section(&mut out, dups.len() == 0, dup_head.as_str(), "No duplicate blocks found.", dup_body.as_str());
    let risk_body = crate::risks::format_report(risks);
    append_section(&mut out, risks.len() == 0, risk_head.as_str(), "No risky patterns found.", risk_body.as_str());
    let mut cycle_body = to_string(cycle_head.as_str());
    cycle_body.append("\n");
    let marks = append_cycles(&mut cycle_body, cycles);
    append_section(
        &mut out,
        cycles.len() == 0,
        cycle_head.as_str(),
        "No circular dependencies found.",
        cycle_body.as_str(),
    );
    let score = decimal_string(health.score);
    let score_ink = paint(Tint::Bold, score.as_str());
    let label_ink = paint(tint_of_label(health.label), health.label);
    out.append("HEALTH SCORE: ");
    out.append(score_ink.as_str());
    out.append("/100 — \"");
    out.append(label_ink.as_str());
    out.append("\"\n");
    let ghost before_todos = out@;
    let todos = health.to_todo_list();
    let mut i: usize = 0;
    while i < todos.len()
        invariant
            i <= todos@.len(),
            out@ == before_todos + arrow_lines(strings_of(todos@).take(i as int)),
        decreases todos.len() - i,
    {
        out.append("  → ");
        out.append(todos[i].as_str());
        out.append("\n");
        proof {
            let t = strings_of(todos@).take(i + 1);
            assert(t.drop_last() =~= strings_of(todos@).take(i as int));
            assert(t.last() == todos@[i as int]@);
        }
        i += 1;
    }
    assert(strings_of(todos@).take(i as int) =~= strings_of(todos@));
    let ghost ink = AuditInk {
        title: title@,
        unused_head: unused_head@,
        giant_head: giant_head@,
        dup_head: dup_head@,
        risk_head: risk_head@,
        cycle_head: cycle_head@,
        dup_report: dup_body@,
        cycle_marks: marks@,
        score: score_ink@,
        label: label_ink@,
    };
    assert(ink_fits(ink, root@, clusters_view(dups@), cycles_view(cycles@), *health));
    assert(out@ =~= audit_text(
        ink,
        unused_view(unused@),
        annotations,
        metrics_view(giant@),
        clusters_view(dups@),
        risks_view(risks@),
        cycles_view(cycles@),
        *health,
    ));
    out
}

} // verus!
