//! Risky patterns found line by line in source files: `any` types, leftover
//! `console.log` and `debugger` statements, deep brace nesting and long
//! parameter lists.

use vstd::prelude::*;
use vstd::string::StringExecFns;

use crate::parser::SourceFile;
use crate::sort::{
    lemma_location_le_total, lemma_location_le_transitive, lemma_stable_sort_map, lemma_stable_sort_sorted,
    located_le, location_le, sort_by_location, stable_sort, Located,
};
use crate::text::{
    append_decimal, chars_of, contains, contains_str_in, decimal, ends_with, equals_str_in, find,
    find_str_in, lemma_find, lemma_lines_from, line_end, lines_scan, split_lines, starts_with,
    starts_with_str_in, str_contains, str_ends_with, to_string, trim, trim_bounds,
};

verus! {

/// The kinds of risky pattern.
#[derive(Debug, Clone, Copy, PartialEq, Eq, Structural)]
pub enum RiskKind {
    AnyType,
    ConsoleLog,
    Debugger,
    DeepNesting,
    LongParams,
}

/// One risky pattern, at a line of a file.
#[derive(Debug, Clone)]
pub struct RiskItem {
    pub kind: RiskKind,
    pub file_path: String,
    pub line: usize,
    pub detail: String,
}

pub struct RiskItemView {
    pub kind: RiskKind,
    pub file_path: Seq<char>,
    pub line: int,
    pub detail: Seq<char>,
}

impl View for RiskItem {
    type V = RiskItemView;

    open spec fn view(&self) -> RiskItemView {
        RiskItemView {
            kind: self.kind,
            file_path: self.file_path@,
            line: self.line as int,
            detail: self.detail@,
        }
    }
}

impl Located for RiskItem {
    open spec fn loc_path(&self) -> Seq<char> {
        self.file_path@
    }

    open spec fn loc_line(&self) -> int {
        self.line as int
    }

    fn location(&self) -> (r: (&str, usize)) {
        (self.file_path.as_str(), self.line)
    }
}

pub open spec fn risks_view(items: Seq<RiskItem>) -> Seq<RiskItemView> {
    items.map_values(|r: RiskItem| r@)
}

/// Findings ordered by file path, then line.
pub open spec fn risk_le() -> spec_fn(RiskItemView, RiskItemView) -> bool {
    |a: RiskItemView, b: RiskItemView| location_le(a.file_path, a.line, b.file_path, b.line)
}

pub open spec fn risk(kind: RiskKind, path: Seq<char>, line: int, detail: Seq<char>) -> RiskItemView {
    RiskItemView { kind, file_path: path, line, detail }
}

/// A trimmed line that the line checks pass over as a comment.
pub open spec fn comment_line(t: Seq<char>) -> bool {
    starts_with(t, "//"@) || starts_with(t, "/*"@) || starts_with(t, "*"@)
}

/// A trimmed line up to its first `//`.
pub open spec fn code_part(t: Seq<char>) -> Seq<char> {
    match find(t, "//"@) {
        Some(p) => t.take(p),
        None => t,
    }
}

/// The code of a trimmed line annotates or casts to `any`.
pub open spec fn any_type_line(t: Seq<char>) -> bool {
    contains(code_part(t), ": any"@) || contains(code_part(t), "as any"@)
}

/// The code of a trimmed line calls `console.log`.
pub open spec fn console_log_line(t: Seq<char>) -> bool {
    contains(code_part(t), "console.log("@) || contains(code_part(t), "console.log ("@)
}

/// A `debugger` statement line of a file that is not a test file:
/// `debugger;` or a bare `debugger`.
pub open spec fn debugger_line(t: Seq<char>, is_test: bool) -> bool {
    !is_test && (t == "debugger;"@ || t == "debugger"@)
}

/// The findings of one trimmed line `t`, numbered `ln`.
pub open spec fn line_risks(path: Seq<char>, t: Seq<char>, ln: int, is_ts: bool, is_test: bool) -> Seq<
    RiskItemView,
> {
    if comment_line(t) {
        Seq::empty()
    } else {
        (if is_ts && any_type_line(t) {
            seq![risk(RiskKind::AnyType, path, ln, "any type used"@)]
        } else {
            Seq::empty()
        }) + (if !is_test && console_log_line(t) {
            seq![risk(RiskKind::ConsoleLog, path, ln, "console.log left in production"@)]
        } else {
            Seq::empty()
        }) + (if debugger_line(t, is_test) {
            seq![risk(RiskKind::Debugger, path, ln, "debugger statement"@)]
        } else {
            Seq::empty()
        })
    }
}

/// The line findings of `lines`, the first numbered `ln`.
pub open spec fn lines_risks(
    path: Seq<char>,
    lines: Seq<Seq<char>>,
    ln: int,
    is_ts: bool,
    is_test: bool,
) -> Seq<RiskItemView>
    decreases lines.len(),
{
    if lines.len() == 0 {
        Seq::empty()
    } else {
        line_risks(path, trim(lines[0]), ln, is_ts, is_test) + lines_risks(
            path,
            lines.drop_first(),
            ln + 1,
            is_ts,
            is_test,
        )
    }
}

/// Brace depth, the deepest depth reached, and the line where it was first
/// reached.
pub struct Nesting {
    pub depth: nat,
    pub max_depth: nat,
    pub max_line: int,
}

pub open spec fn brace_step(st: Nesting, c: char, ln: int) -> Nesting {
    if c == '{' {
        let d = st.depth + 1;
        if d > st.max_depth {
            Nesting { depth: d, max_depth: d, max_line: ln }
        } else {
            Nesting { depth: d, max_depth: st.max_depth, max_line: st.max_line }
        }
    } else if c == '}' {
        Nesting {
            depth: if st.depth == 0 {
                0
            } else {
                (st.depth - 1) as nat
            },
            max_depth: st.max_depth,
            max_line: st.max_line,
        }
    } else {
        st
    }
}

/// The nesting after the braces of `t` from position `k`, on line `ln`.
pub open spec fn braces_from(t: Seq<char>, k: int, st: Nesting, ln: int) -> Nesting
    decreases t.len() - k,
{
    if 0 <= k < t.len() {
        braces_from(t, k + 1, brace_step(st, t[k], ln), ln)
    } else {
        st
    }
}

/// The nesting after `lines`, the first numbered `ln`; comment lines are
/// passed over.
pub open spec fn nesting_from(lines: Seq<Seq<char>>, ln: int, st: Nesting) -> Nesting
    decreases lines.len(),
{
    if lines.len() == 0 {
        st
    } else {
        let t = trim(lines[0]);
        let st1 = if comment_line(t) {
            st
        } else {
            braces_from(t, 0, st, ln)
        };
        nesting_from(lines.drop_first(), ln + 1, st1)
    }
}

/// The deep-nesting finding of a file: one, where braces nest deeper than
/// four, at the line where the deepest level is first reached.
pub open spec fn nesting_risks(path: Seq<char>, source: Seq<char>) -> Seq<RiskItemView> {
    let st = nesting_from(split_lines(source), 1, Nesting { depth: 0, max_depth: 0, max_line: 0 });
    if st.max_depth > 4 {
        seq![
            risk(
                RiskKind::DeepNesting,
                path,
                st.max_line,
                "nesting depth "@ + decimal(st.max_depth) + " (limit: 4)"@,
            ),
        ]
    } else {
        Seq::empty()
    }
}

/// The text between the first `(` of `t` and the first `)` after it.
pub open spec fn param_list(t: Seq<char>) -> Option<Seq<char>> {
    match find(t, "("@) {
        Some(s) => match find(t.skip(s), ")"@) {
            Some(e) => Some(t.subrange(s + 1, s + e)),
            None => None,
        },
        None => None,
    }
}

/// How many times `c` occurs in `p`.
pub open spec fn count_char(p: Seq<char>, c: char) -> nat
    decreases p.len(),
{
    if p.len() == 0 {
        0
    } else {
        count_char(p.drop_last(), c) + if p.last() == c {
            1nat
        } else {
            0nat
        }
    }
}

/// The parameters of a non-empty parameter list: its comma-separated parts.
pub open spec fn param_count(p: Seq<char>) -> nat {
    count_char(p, ',') + 1
}

/// A trimmed line that opens a function declaration or expression.
pub open spec fn declares_function(t: Seq<char>) -> bool {
    starts_with(t, "function "@) || contains(t, "= function("@) || contains(t, "= ("@)
}

/// Whether a function is open, how many parameters it was seen with, and
/// the line it starts on.
pub struct ParamScan {
    pub in_function: bool,
    pub count: nat,
    pub fn_line: int,
}

/// The scan state after trimmed line `t`, numbered `ln`, before a report.
/// An arrow function met outside an open function is taken as a function
/// of its own when it has more than five parameters.
pub open spec fn params_step(t: Seq<char>, ln: int, st: ParamScan) -> ParamScan {
    let st1 = if declares_function(t) {
        ParamScan {
            in_function: true,
            count: match param_list(t) {
                Some(p) => if p.len() > 0 {
                    param_count(p)
                } else {
                    0
                },
                None => 0,
            },
            fn_line: ln,
        }
    } else {
        st
    };
    if contains(t, "=>"@) && !st1.in_function {
        match param_list(t) {
            Some(p) => if p.len() > 0 {
                ParamScan { in_function: param_count(p) > 5, count: param_count(p), fn_line: ln }
            } else {
                st1
            },
            None => st1,
        }
    } else {
        st1
    }
}

/// The long-parameter findings of `lines`, the first numbered `ln`: each
/// open function seen with more than five parameters is reported once.
pub open spec fn params_from(path: Seq<char>, lines: Seq<Seq<char>>, ln: int, st: ParamScan) -> Seq<
    RiskItemView,
>
    decreases lines.len(),
{
    if lines.len() == 0 {
        Seq::empty()
    } else {
        let st1 = params_step(trim(lines[0]), ln, st);
        if st1.in_function && st1.count > 5 {
            seq![
                risk(
                    RiskKind::LongParams,
                    path,
                    st1.fn_line,
                    decimal(st1.count) + " parameters (limit: 5)"@,
                ),
            ] + params_from(
                path,
                lines.drop_first(),
                ln + 1,
                ParamScan { in_function: false, count: st1.count, fn_line: st1.fn_line },
            )
        } else {
            params_from(path, lines.drop_first(), ln + 1, st1)
        }
    }
}

pub open spec fn long_param_risks(path: Seq<char>, source: Seq<char>) -> Seq<RiskItemView> {
    params_from(path, split_lines(source), 1, ParamScan { in_function: false, count: 0, fn_line: 0 })
}

/// Test files: their paths hold `__tests__`, `.test.` or `.spec.`.
pub open spec fn is_test_path(p: Seq<char>) -> bool {
    contains(p, "__tests__"@) || contains(p, ".test."@) || contains(p, ".spec."@)
}

/// TypeScript files: their paths end in `.ts` or `.tsx`.
pub open spec fn is_typescript_path(p: Seq<char>) -> bool {
    ends_with(p, ".ts"@) || ends_with(p, ".tsx"@)
}

/// The findings of one file, in the order they are found: the line checks,
/// then deep nesting, then long parameter lists.
pub open spec fn file_risks(path: Seq<char>, source: Seq<char>) -> Seq<RiskItemView> {
    lines_risks(path, split_lines(source), 1, is_typescript_path(path), is_test_path(path))
        + nesting_risks(path, source) + long_param_risks(path, source)
}

/// The findings of `files`, file after file.
pub open spec fn files_risks(files: Seq<SourceFile>) -> Seq<RiskItemView>
    decreases files.len(),
{
    if files.len() == 0 {
        Seq::empty()
    } else {
        files_risks(files.drop_last()) + file_risks(files.last().path@, files.last().source@)
    }
}

fn make_risk(kind: RiskKind, path: &str, line: usize, detail: String) -> (r: RiskItem)
    ensures
        r@ == risk(kind, path@, line as int, detail@),
{
    RiskItem { kind, file_path: to_string(path), line, detail }
}

/// The end of the code part of the trimmed line `s[a..b]`.
fn code_end(s: &Vec<char>, a: usize, b: usize) -> (e: usize)
    requires
        a <= b <= s.len(),
    ensures
        a <= e <= b,
        s@.subrange(a as int, e as int) == code_part(s@.subrange(a as int, b as int)),
{
    match find_str_in(s, a, b, "//") {
        Some(p) => {
            assert(s@.subrange(a as int, b as int).take(p as int) =~= s@.subrange(
                a as int,
                a + p,
            ));
            a + p
        },
        None => b,
    }
}

/// Whether a trimmed line uses an `any` type outside a trailing comment.
pub fn detect_any_type(_source: &str, _line: &str, trimmed: &str) -> (b: bool)
    ensures
        b == any_type_line(trimmed@),
{
    let s = chars_of(trimmed);
    assert(s@.subrange(0, s@.len() as int) =~= s@);
    let e = code_end(&s, 0, s.len());
    contains_str_in(&s, 0, e, ": any") || contains_str_in(&s, 0, e, "as any")
}

/// Whether a trimmed line calls `console.log` outside a trailing comment.
pub fn detect_console_log(trimmed: &str) -> (b: bool)
    ensures
        b == console_log_line(trimmed@),
{
    let s = chars_of(trimmed);
    assert(s@.subrange(0, s@.len() as int) =~= s@);
    let e = code_end(&s, 0, s.len());
    contains_str_in(&s, 0, e, "console.log(") || contains_str_in(&s, 0, e, "console.log (")
}

/// The line findings of the trimmed line `s[a..b]`, appended to `out`.
fn check_line(
    s: &Vec<char>,
    a: usize,
    b: usize,
    path: &str,
    ln: usize,
    is_ts: bool,
    is_test: bool,
    out: &mut Vec<RiskItem>,
)
    requires
        a <= b <= s.len(),
    ensures
        risks_view(final(out)@) == risks_view(old(out)@) + line_risks(
            path@,
            s@.subrange(a as int, b as int),
            ln as int,
            is_ts,
            is_test,
        ),
{
    let ghost t = s@.subrange(a as int, b as int);
    let ghost v0 = risks_view(out@);
    if starts_with_str_in(s, a, b, "//") || starts_with_str_in(s, a, b, "/*")
        || starts_with_str_in(s, a, b, "*") {
        assert(risks_view(out@) =~= v0 + line_risks(path@, t, ln as int, is_ts, is_test));
        return;
    }
    let e = code_end(s, a, b);
    let ghost any_part = if is_ts && any_type_line(t) {
        seq![risk(RiskKind::AnyType, path@, ln as int, "any type used"@)]
    } else {
        Seq::<RiskItemView>::empty()
    };
    let ghost log_part = if !is_test && console_log_line(t) {
        seq![risk(RiskKind::ConsoleLog, path@, ln as int, "console.log left in production"@)]
    } else {
        Seq::<RiskItemView>::empty()
    };
    if is_ts && (contains_str_in(s, a, e, ": any") || contains_str_in(s, a, e, "as any")) {
        out.push(make_risk(RiskKind::AnyType, path, ln, to_string("any type used")));
    }
    assert(risks_view(out@) =~= v0 + any_part);
    if !is_test && (contains_str_in(s, a, e, "console.log(") || contains_str_in(
        s,
        a,
        e,
        "console.log (",
    )) {
        out.push(
            make_risk(RiskKind::ConsoleLog, path, ln, to_string("console.log left in production")),
        );
    }
    assert(risks_view(out@) =~= v0 + any_part + log_part);
    if !is_test && (equals_str_in(s, a, b, "debugger;") || equals_str_in(s, a, b, "debugger")) {
        out.push(make_risk(RiskKind::Debugger, path, ln, to_string("debugger statement")));
    }
    assert(risks_view(out@) =~= v0 + line_risks(path@, t, ln as int, is_ts, is_test));
}

/// Appends the deep-nesting finding of `source`, if any, to `risks`.
pub fn detect_deep_nesting(source: &str, file_path: &str, risks: &mut Vec<RiskItem>)
    requires
        source@.len() < usize::MAX,
    ensures
        risks_view(final(risks)@) == risks_view(old(risks)@) + nesting_risks(file_path@, source@),
{
    let s = chars_of(source);
    let n = s.len();
    let ghost init = Nesting { depth: 0, max_depth: 0, max_line: 0 };
    let ghost goal = nesting_from(split_lines(s@), 1, init);
    let mut depth: usize = 0;
    let mut max_depth: usize = 0;
    let mut max_line: usize = 0;
    let mut pos: usize = 0;
    let mut ln: usize = 1;
    loop
        invariant_except_break
            pos <= n,
            1 <= ln <= pos + 1,
            depth <= pos,
            max_depth <= pos,
            max_line < ln,
            nesting_from(
                lines_scan(s@, pos as int, pos as int),
                ln as int,
                (Nesting { depth: depth as nat, max_depth: max_depth as nat, max_line: max_line as int }),
            ) == goal,
        invariant
            n == s.len(),
            n < usize::MAX,
            s@ == source@,
            goal == nesting_from(split_lines(s@), 1, init),
        ensures
            goal == (Nesting {
                depth: depth as nat,
                max_depth: max_depth as nat,
                max_line: max_line as int,
            }),
        decreases n - pos,
    {
        let k = line_end(&s, pos);
        proof {
            lemma_lines_from(s@, pos as int, k as int);
        }
        let ghost ls = lines_scan(s@, pos as int, pos as int);
        let (a, b) = trim_bounds(&s, pos, k);
        let ghost t = s@.subrange(a as int, b as int);
        assert(t == trim(ls[0]));
        let ghost st0 = Nesting {
            depth: depth as nat,
            max_depth: max_depth as nat,
            max_line: max_line as int,
        };
        if !(starts_with_str_in(&s, a, b, "//") || starts_with_str_in(&s, a, b, "/*")
            || starts_with_str_in(&s, a, b, "*")) {
            let mut j = a;
            while j < b
                invariant
                    a <= j <= b <= k <= n,
                    n == s.len(),
                    pos <= a,
                    t == s@.subrange(a as int, b as int),
                    depth <= j,
                    max_depth <= j,
                    max_line <= ln,
                    braces_from(
                        t,
                        j - a,
                        Nesting {
                            depth: depth as nat,
                            max_depth: max_depth as nat,
                            max_line: max_line as int,
                        },
                        ln as int,
                    ) == braces_from(t, 0, st0, ln as int),
                decreases b - j,
            {
                let c = s[j];
                if c == '{' {
                    depth += 1;
                    if depth > max_depth {
                        max_depth = depth;
                        max_line = ln;
                    }
                } else if c == '}' {
                    depth = if depth == 0 {
                        0
                    } else {
                        depth - 1
                    };
                }
                j += 1;
            }
        }
        proof {
            let st1 = Nesting {
                depth: depth as nat,
                max_depth: max_depth as nat,
                max_line: max_line as int,
            };
            assert(st1 == if comment_line(t) {
                st0
            } else {
                braces_from(t, 0, st0, ln as int)
            });
            assert(nesting_from(ls, ln as int, st0) == nesting_from(ls.drop_first(), ln + 1, st1));
        }
        if k == n {
            proof {
                assert(ls.drop_first().len() == 0);
            }
            break;
        }
        assert(ls.drop_first() =~= lines_scan(s@, k + 1, k + 1));
        pos = k + 1;
        ln += 1;
    }
    if max_depth > 4 {
        let mut detail = to_string("nesting depth ");
        append_decimal(&mut detail, max_depth);
        detail.append(" (limit: 4)");
        risks.push(make_risk(RiskKind::DeepNesting, file_path, max_line, detail));
    }
}

/// The bounds of the parameter list of the trimmed line `s[a..b]`.
fn params_in(s: &Vec<char>, a: usize, b: usize) -> (r: Option<(usize, usize)>)
    requires
        a <= b <= s.len(),
    ensures
        match r {
            Some((p0, p1)) => a < p0 <= p1 <= b && param_list(s@.subrange(a as int, b as int))
                == Some(s@.subrange(p0 as int, p1 as int)),
            None => param_list(s@.subrange(a as int, b as int)) is None,
        },
{
    let ghost t = s@.subrange(a as int, b as int);
    proof {
        reveal_strlit("(");
        reveal_strlit(")");
    }
    match find_str_in(s, a, b, "(") {
        Some(st) => {
            proof {
                lemma_find(t, "("@);
            }
            let ghost rest = s@.subrange(a + st, b as int);
            assert(t.skip(st as int) == rest) by {
                assert(t.skip(st as int) =~= rest);
            }
            assert(t[st as int] == '(') by {
                reveal_strlit("(");
                assert(t.subrange(st as int, st as int + 1) == "("@);
                assert("("@ =~= seq!['(']);
                assert(t.subrange(st as int, st as int + 1)[0] == t[st as int]);
            }
            match find_str_in(s, a + st, b, ")") {
                Some(e) => {
                    proof {
                        lemma_find(rest, ")"@);
                    }
                    assert(e > 0) by {
                        if e == 0 {
                            reveal_strlit(")");
                            assert(rest.subrange(0, 1) == ")"@);
                            assert(")"@ =~= seq![')']);
                            assert(rest.subrange(0, 1)[0] == rest[0]);
                            assert(rest[0] == ')');
                        }
                    }
                    assert(t.subrange(st + 1, st + e) == s@.subrange(a + st + 1, a + st + e)) by {
                        assert(t.subrange(st + 1, st + e) =~= s@.subrange(a + st + 1, a + st + e));
                    }
                    Some((a + st + 1, a + st + e))
                },
                None => None,
            }
        },
        None => None,
    }
}

/// How many commas stand in `s[p0..p1]`.
fn count_commas(s: &Vec<char>, p0: usize, p1: usize) -> (c: usize)
    requires
        p0 <= p1 <= s.len(),
    ensures
        c == count_char(s@.subrange(p0 as int, p1 as int), ','),
        c <= p1 - p0,
{
    let mut c: usize = 0;
    let mut j = p0;
    while j < p1
        invariant
            p0 <= j <= p1 <= s.len(),
            c <= j - p0,
            c == count_char(s@.subrange(p0 as int, j as int), ','),
        decreases p1 - j,
    {
        assert(s@.subrange(p0 as int, j + 1).drop_last() =~= s@.subrange(p0 as int, j as int));
        if s[j] == ',' {
            c += 1;
        }
        j += 1;
    }
    c
}

/// The parameter scan after the trimmed line `s[a..b]`, numbered `ln`.
fn params_line(
    s: &Vec<char>,
    a: usize,
    b: usize,
    ln: usize,
    in_function: bool,
    param_count: usize,
    fn_line: usize,
) -> (r: (bool, usize, usize))
    requires
        a <= b <= s.len(),
        s.len() < usize::MAX,
        param_count <= s.len(),
        fn_line <= ln,
    ensures
        (ParamScan { in_function: r.0, count: r.1 as nat, fn_line: r.2 as int }) == params_step(
            s@.subrange(a as int, b as int),
            ln as int,
            (ParamScan { in_function, count: param_count as nat, fn_line: fn_line as int }),
        ),
        r.1 <= s.len(),
        r.2 <= ln,
{
    let mut in_function = in_function;
    let mut param_count = param_count;
    let mut fn_line = fn_line;
    if starts_with_str_in(s, a, b, "function ") || contains_str_in(s, a, b, "= function(")
        || contains_str_in(s, a, b, "= (") {
        in_function = true;
        param_count = 0;
        fn_line = ln;
        match params_in(s, a, b) {
            Some((p0, p1)) => {
                if p1 > p0 {
                    param_count = count_commas(s, p0, p1) + 1;
                }
            },
            None => {},
        }
    }
    if contains_str_in(s, a, b, "=>") && !in_function {
        match params_in(s, a, b) {
            Some((p0, p1)) => {
                if p1 > p0 {
                    param_count = count_commas(s, p0, p1) + 1;
                    fn_line = ln;
                    in_function = param_count > 5;
                }
            },
            None => {},
        }
    }
    (in_function, param_count, fn_line)
}

/// Appends the long-parameter findings of `source` to `risks`.
pub fn detect_long_params(source: &str, file_path: &str, risks: &mut Vec<RiskItem>)
    requires
        source@.len() < usize::MAX,
    ensures
        risks_view(final(risks)@) == risks_view(old(risks)@) + long_param_risks(
            file_path@,
            source@,
        ),
{
    let s = chars_of(source);
    let n = s.len();
    let ghost goal = risks_view(risks@) + long_param_risks(file_path@, source@);
    let mut in_function = false;
    let mut param_count: usize = 0;
    let mut fn_line: usize = 0;
    let mut pos: usize = 0;
    let mut ln: usize = 1;
    loop
        invariant_except_break
            pos <= n,
            1 <= ln <= pos + 1,
            param_count <= n,
            fn_line <= ln,
            risks_view(risks@) + params_from(
                file_path@,
                lines_scan(s@, pos as int, pos as int),
                ln as int,
                (ParamScan {
                    in_function: in_function,
                    count: param_count as nat,
                    fn_line: fn_line as int,
                }),
            ) == goal,
        invariant
            n == s.len(),
            n < usize::MAX,
            s@ == source@,
        ensures
            risks_view(risks@) == goal,
        decreases n - pos,
    {
        let k = line_end(&s, pos);
        proof {
            lemma_lines_from(s@, pos as int, k as int);
        }
        let ghost ls = lines_scan(s@, pos as int, pos as int);
        let (a, b) = trim_bounds(&s, pos, k);
        let ghost t = s@.subrange(a as int, b as int);
        assert(t == trim(ls[0]));
        let ghost st0 = ParamScan {
            in_function: in_function,
            count: param_count as nat,
            fn_line: fn_line as int,
        };
        let ghost before = risks_view(risks@);
        let (f1, c1, l1) = params_line(&s, a, b, ln, in_function, param_count, fn_line);
        in_function = f1;
        param_count = c1;
        fn_line = l1;
        let ghost st1 = ParamScan {
            in_function: in_function,
            count: param_count as nat,
            fn_line: fn_line as int,
        };
        if in_function && param_count > 5 {
            let mut detail = String::new();
            append_decimal(&mut detail, param_count);
            detail.append(" parameters (limit: 5)");
            risks.push(make_risk(RiskKind::LongParams, file_path, fn_line, detail));
            in_function = false;
            assert(risks_view(risks@) =~= before + seq![
                risk(
                    RiskKind::LongParams,
                    file_path@,
                    st1.fn_line,
                    decimal(st1.count) + " parameters (limit: 5)"@,
                ),
            ]);
        }
        let ghost st2 = ParamScan {
            in_function: in_function,
            count: param_count as nat,
            fn_line: fn_line as int,
        };
        assert(risks_view(risks@) + params_from(file_path@, ls.drop_first(), ln + 1, st2)
            =~= before + params_from(file_path@, ls, ln as int, st0));
        if k == n {
            assert(ls.drop_first().len() == 0);
            assert(risks_view(risks@) =~= goal);
            break;
        }
        assert(ls.drop_first() =~= lines_scan(s@, k + 1, k + 1));
        pos = k + 1;
        ln += 1;
    }
}

/// Appends the line findings of `source` to `out`.
fn detect_line_risks(
    source: &str,
    file_path: &str,
    is_ts: bool,
    is_test: bool,
    out: &mut Vec<RiskItem>,
)
    requires
        source@.len() < usize::MAX,
    ensures
        risks_view(final(out)@) == risks_view(old(out)@) + lines_risks(
            file_path@,
            split_lines(source@),
            1,
            is_ts,
            is_test,
        ),
{
    let s = chars_of(source);
    let n = s.len();
    let ghost goal = risks_view(out@) + lines_risks(file_path@, split_lines(s@), 1, is_ts, is_test);
    let mut pos: usize = 0;
    let mut ln: usize = 1;
    loop
        invariant_except_break
            pos <= n,
            1 <= ln <= pos + 1,
            risks_view(out@) + lines_risks(
                file_path@,
                lines_scan(s@, pos as int, pos as int),
                ln as int,
                is_ts,
                is_test,
            ) == goal,
        invariant
            n == s.len(),
            n < usize::MAX,
            s@ == source@,
        ensures
            risks_view(out@) == goal,
        decreases n - pos,
    {
        let k = line_end(&s, pos);
        proof {
            lemma_lines_from(s@, pos as int, k as int);
        }
        let ghost ls = lines_scan(s@, pos as int, pos as int);
        let (a, b) = trim_bounds(&s, pos, k);
        assert(s@.subrange(a as int, b as int) == trim(ls[0]));
        let ghost before = risks_view(out@);
        check_line(&s, a, b, file_path, ln, is_ts, is_test, out);
        if k == n {
            assert(ls.drop_first().len() == 0);
            assert(risks_view(out@) =~= goal);
            break;
        }
        assert(ls.drop_first() =~= lines_scan(s@, k + 1, k + 1));
        assert(risks_view(out@) + lines_risks(
            file_path@,
            ls.drop_first(),
            ln + 1,
            is_ts,
            is_test,
        ) =~= before + lines_risks(file_path@, ls, ln as int, is_ts, is_test));
        pos = k + 1;
        ln += 1;
    }
}

/// Appends the findings of one file to `out`.
fn detect_file_risks(file: &SourceFile, out: &mut Vec<RiskItem>)
    requires
        file.source@.len() < usize::MAX,
    ensures
        risks_view(final(out)@) == risks_view(old(out)@) + file_risks(file.path@, file.source@),
{
    let path = file.path.as_str();
    let source = file.source.as_str();
    let is_test = str_contains(path, "__tests__") || str_contains(path, ".test.") || str_contains(
        path,
        ".spec.",
    );
    let is_ts = str_ends_with(path, ".ts") || str_ends_with(path, ".tsx");
    let ghost v0 = risks_view(out@);
    let ghost l = lines_risks(file.path@, split_lines(file.source@), 1, is_ts, is_test);
    let ghost nr = nesting_risks(file.path@, file.source@);
    let ghost pr = long_param_risks(file.path@, file.source@);
    detect_line_risks(source, path, is_ts, is_test, out);
    detect_deep_nesting(source, path, out);
    detect_long_params(source, path, out);
    assert(risks_view(out@) == v0 + l + nr + pr);
    assert(file_risks(file.path@, file.source@) == l + nr + pr);
    assert(v0 + l + nr + pr =~= v0 + (l + nr + pr));
}

/// The risky patterns of `files`, ordered by file path and then line; the
/// findings of one line keep the order in which they are found.
pub fn detect_risks(files: &[SourceFile]) -> (out: Vec<RiskItem>)
    requires
        forall|i: int| 0 <= i < files@.len() ==> (#[trigger] files@[i]).source@.len() < usize::MAX,
    ensures
        risks_view(out@) == stable_sort(files_risks(files@), risk_le()),
{
    let mut all: Vec<RiskItem> = Vec::new();
    let mut i: usize = 0;
    while i < files.len()
        invariant
            i <= files@.len(),
            forall|j: int| 0 <= j < files@.len() ==> (#[trigger] files@[j]).source@.len()
                < usize::MAX,
            risks_view(all@) == files_risks(files@.take(i as int)),
        decreases files.len() - i,
    {
        detect_file_risks(&files[i], &mut all);
        assert(files@.take(i + 1).drop_last() =~= files@.take(i as int));
        i += 1;
    }
    assert(files@.take(i as int) =~= files@);
    let ghost whole = all@;
    let out = sort_by_location(all);
    proof {
        let f = |r: RiskItem| r@;
        assert forall|a: RiskItem, b: RiskItem| #[trigger] located_le::<RiskItem>()(a, b)
            == risk_le()(f(a), f(b)) by {}
        lemma_stable_sort_map(whole, located_le::<RiskItem>(), f, risk_le());
        assert(risks_view(whole) == whole.map_values(f));
        assert(risks_view(out@) == out@.map_values(f));
    }
    out
}

/// The risky patterns of the given files (see `detect_risks`).
pub fn run_risks(files: &[SourceFile]) -> (out: Vec<RiskItem>)
    requires
        forall|i: int| 0 <= i < files@.len() ==> (#[trigger] files@[i]).source@.len() < usize::MAX,
    ensures
        risks_view(out@) == stable_sort(files_risks(files@), risk_le()),
{
    detect_risks(files)
}

/// The name a report gives each kind of finding.
pub open spec fn kind_label(k: RiskKind) -> Seq<char> {
    match k {
        RiskKind::AnyType => "any type"@,
        RiskKind::ConsoleLog => "console.log"@,
        RiskKind::Debugger => "debugger"@,
        RiskKind::DeepNesting => "deep nesting"@,
        RiskKind::LongParams => "too many parameters"@,
    }
}

fn label_of(k: RiskKind) -> (r: &'static str)
    ensures
        r@ == kind_label(k),
{
    match k {
        RiskKind::AnyType => "any type",
        RiskKind::ConsoleLog => "console.log",
        RiskKind::Debugger => "debugger",
        RiskKind::DeepNesting => "deep nesting",
        RiskKind::LongParams => "too many parameters",
    }
}

/// The report line of one finding: `  path:line   label (detail)`.
pub open spec fn risk_line(r: RiskItemView) -> Seq<char> {
    "  "@ + r.file_path + ":"@ + decimal(r.line as nat) + "   "@ + kind_label(r.kind) + " ("@
        + r.detail + ")\n"@
}

pub open spec fn risk_lines(rs: Seq<RiskItemView>) -> Seq<char>
    decreases rs.len(),
{
    if rs.len() == 0 {
        Seq::empty()
    } else {
        risk_lines(rs.drop_last()) + risk_line(rs.last())
    }
}

/// The text report of a list of findings.
pub open spec fn risks_report(rs: Seq<RiskItemView>) -> Seq<char> {
    if rs.len() == 0 {
        "  No risky patterns found.\n"@
    } else {
        "RISKY PATTERNS\n"@ + risk_lines(rs)
    }
}

/// Renders findings as a text report, one line each.
#[verifier::rlimit(40)]
pub fn format_report(risks: &[RiskItem]) -> (out: String)
    ensures
        out@ == risks_report(risks_view(risks@)),
{
    if risks.len() == 0 {
        return to_string("  No risky patterns found.\n");
    }
    let mut out = to_string("RISKY PATTERNS\n");
    let ghost head = out@;
    let mut i: usize = 0;
    while i < risks.len()
        invariant
            i <= risks@.len(),
            out@ == head + risk_lines(risks_view(risks@.take(i as int))),
        decreases risks.len() - i,
    {
        let r = &risks[i];
        out.append("  ");
        out.append(r.file_path.as_str());
        out.append(":");
        append_decimal(&mut out, r.line);
        out.append("   ");
        out.append(label_of(r.kind));
        out.append(" (");
        out.append(r.detail.as_str());
        out.append(")\n");
        proof {
            let t = risks_view(risks@.take(i + 1));
            assert(t.drop_last() =~= risks_view(risks@.take(i as int)));
            assert(t.last() == risks@[i as int]@);
        }
        i += 1;
    }
    assert(risks@.take(i as int) =~= risks@);
    out
}

/// How many findings are of kind `k`.
pub open spec fn kind_count(rs: Seq<RiskItemView>, k: RiskKind) -> nat
    decreases rs.len(),
{
    if rs.len() == 0 {
        0
    } else {
        kind_count(rs.drop_last(), k) + if rs.last().kind == k {
            1nat
        } else {
            0nat
        }
    }
}

/// Counts the findings of kind `k`.
pub fn count_kind(risks: &[RiskItem], k: RiskKind) -> (n: usize)
    ensures
        n == kind_count(risks_view(risks@), k),
        n <= risks@.len(),
{
    let mut n: usize = 0;
    let mut i: usize = 0;
    while i < risks.len()
        invariant
            i <= risks@.len(),
            n <= i,
            n == kind_count(risks_view(risks@.take(i as int)), k),
        decreases risks.len() - i,
    {
        proof {
            let t = risks_view(risks@.take(i + 1));
            assert(t.drop_last() =~= risks_view(risks@.take(i as int)));
            assert(t.last() == risks@[i as int]@);
        }
        if risks[i].kind == k {
            n += 1;
        }
        i += 1;
    }
    assert(risks@.take(i as int) =~= risks@);
    n
}

/// The kinds found line by line.
pub open spec fn line_kind(k: RiskKind) -> bool {
    k is AnyType || k is ConsoleLog || k is Debugger
}

/// Finding `r` belongs to file `f` and obeys the file-kind filters: `any`
/// types only in TypeScript files, `console.log` and `debugger` only
/// outside test files, and every finding on a line of the file.
pub open spec fn finding_of_file(f: SourceFile, r: RiskItemView) -> bool {
    &&& r.file_path == f.path@
    &&& (r.kind is AnyType ==> is_typescript_path(f.path@))
    &&& ((r.kind is ConsoleLog || r.kind is Debugger) ==> !is_test_path(f.path@))
    &&& 1 <= r.line <= split_lines(f.source@).len()
}

proof fn lemma_braces_from(t: Seq<char>, k: int, st: Nesting, ln: int)
    ensures
        braces_from(t, k, st, ln).max_depth >= st.max_depth,
        (braces_from(t, k, st, ln).max_depth == st.max_depth && braces_from(t, k, st, ln).max_line
            == st.max_line) || (braces_from(t, k, st, ln).max_depth > st.max_depth && braces_from(
            t,
            k,
            st,
            ln,
        ).max_line == ln),
    decreases t.len() - k,
{
    if 0 <= k < t.len() {
        lemma_braces_from(t, k + 1, brace_step(st, t[k], ln), ln);
    }
}

proof fn lemma_nesting_lines(lines: Seq<Seq<char>>, ln: int, st: Nesting)
    ensures
        nesting_from(lines, ln, st).max_depth >= st.max_depth,
        (nesting_from(lines, ln, st).max_depth == st.max_depth && nesting_from(lines, ln, st).max_line
            == st.max_line) || (nesting_from(lines, ln, st).max_depth > st.max_depth && ln
            <= nesting_from(lines, ln, st).max_line < ln + lines.len()),
    decreases lines.len(),
{
    if lines.len() > 0 {
        let t = trim(lines[0]);
        let st1 = if comment_line(t) {
            st
        } else {
            braces_from(t, 0, st, ln)
        };
        lemma_braces_from(t, 0, st, ln);
        lemma_nesting_lines(lines.drop_first(), ln + 1, st1);
    }
}

proof fn lemma_params_lines(path: Seq<char>, lines: Seq<Seq<char>>, ln: int, st: ParamScan, base: int)
    requires
        base <= ln,
        st.in_function ==> base <= st.fn_line < ln,
    ensures
        forall|k: int|
            0 <= k < params_from(path, lines, ln, st).len() ==> base <= (#[trigger] params_from(
                path,
                lines,
                ln,
                st,
            )[k]).line < ln + lines.len(),
    decreases lines.len(),
{
    if lines.len() > 0 {
        let st1 = params_step(trim(lines[0]), ln, st);
        assert(st1.in_function ==> base <= st1.fn_line <= ln);
        if st1.in_function && st1.count > 5 {
            let st2 = ParamScan { in_function: false, count: st1.count, fn_line: st1.fn_line };
            lemma_params_lines(path, lines.drop_first(), ln + 1, st2, base);
            let t = params_from(path, lines.drop_first(), ln + 1, st2);
            let all = params_from(path, lines, ln, st);
            assert forall|k: int| 0 <= k < all.len() implies base <= (#[trigger] all[k]).line < ln + lines.len() by {
                if k > 0 {
                    assert(all[k] == t[k - 1]);
                }
            }
        } else {
            lemma_params_lines(path, lines.drop_first(), ln + 1, st1, base);
        }
    }
}

proof fn lemma_lines_risks_fit(path: Seq<char>, lines: Seq<Seq<char>>, ln: int, is_ts: bool, is_test: bool)
    ensures
        forall|k: int|
            0 <= k < lines_risks(path, lines, ln, is_ts, is_test).len() ==> {
                let r = #[trigger] lines_risks(path, lines, ln, is_ts, is_test)[k];
                &&& r.file_path == path
                &&& line_kind(r.kind)
                &&& (r.kind is AnyType ==> is_ts)
                &&& ((r.kind is ConsoleLog || r.kind is Debugger) ==> !is_test)
                &&& ln <= r.line < ln + lines.len()
            },
    decreases lines.len(),
{
    if lines.len() > 0 {
        lemma_lines_risks_fit(path, lines.drop_first(), ln + 1, is_ts, is_test);
        let h = line_risks(path, trim(lines[0]), ln, is_ts, is_test);
        let t = lines_risks(path, lines.drop_first(), ln + 1, is_ts, is_test);
        let all = lines_risks(path, lines, ln, is_ts, is_test);
        assert(all == h + t);
        assert forall|k: int| 0 <= k < all.len() implies {
            let r = #[trigger] all[k];
            &&& r.file_path == path
            &&& line_kind(r.kind)
            &&& (r.kind is AnyType ==> is_ts)
            &&& ((r.kind is ConsoleLog || r.kind is Debugger) ==> !is_test)
            &&& ln <= r.line < ln + lines.len()
        } by {
            if k < h.len() {
                assert(all[k] == h[k]);
            } else {
                assert(all[k] == t[k - h.len()]);
            }
        }
    }
}

proof fn lemma_params_fit(path: Seq<char>, lines: Seq<Seq<char>>, ln: int, st: ParamScan)
    ensures
        forall|k: int|
            0 <= k < params_from(path, lines, ln, st).len() ==> (#[trigger] params_from(path, lines, ln, st)[k]).kind
                is LongParams && params_from(path, lines, ln, st)[k].file_path == path,
    decreases lines.len(),
{
    if lines.len() > 0 {
        let st1 = params_step(trim(lines[0]), ln, st);
        if st1.in_function && st1.count > 5 {
            let st2 = ParamScan { in_function: false, count: st1.count, fn_line: st1.fn_line };
            lemma_params_fit(path, lines.drop_first(), ln + 1, st2);
            let t = params_from(path, lines.drop_first(), ln + 1, st2);
            let all = params_from(path, lines, ln, st);
            assert forall|k: int| 0 <= k < all.len() implies (#[trigger] all[k]).kind is LongParams
                && all[k].file_path == path by {
                if k > 0 {
                    assert(all[k] == t[k - 1]);
                }
            }
        } else {
            lemma_params_fit(path, lines.drop_first(), ln + 1, st1);
        }
    }
}

proof fn lemma_file_risks_fit(f: SourceFile)
    ensures
        forall|k: int|
            0 <= k < file_risks(f.path@, f.source@).len() ==> finding_of_file(f, #[trigger] file_risks(f.path@, f.source@)[k]),
{
    let path = f.path@;
    let lines = split_lines(f.source@);
    let l = lines_risks(path, lines, 1, is_typescript_path(path), is_test_path(path));
    let nr = nesting_risks(path, f.source@);
    let pr = long_param_risks(path, f.source@);
    lemma_lines_risks_fit(path, lines, 1, is_typescript_path(path), is_test_path(path));
    lemma_params_fit(path, lines, 1, ParamScan { in_function: false, count: 0, fn_line: 0 });
    lemma_params_lines(path, lines, 1, ParamScan { in_function: false, count: 0, fn_line: 0 }, 1);
    lemma_nesting_lines(lines, 1, Nesting { depth: 0, max_depth: 0, max_line: 0 });
    let all = file_risks(path, f.source@);
    assert(all == l + nr + pr);
    assert forall|k: int| 0 <= k < all.len() implies finding_of_file(f, #[trigger] all[k]) by {
        if k < l.len() {
            assert(all[k] == l[k]);
        } else if k < l.len() + nr.len() {
            assert(all[k] == nr[k - l.len()]);
        } else {
            assert(all[k] == pr[k - l.len() - nr.len()]);
        }
    }
}

proof fn lemma_files_risks_fit(files: Seq<SourceFile>)
    ensures
        forall|k: int|
            #![trigger files_risks(files)[k]]
            0 <= k < files_risks(files).len() ==> exists|i: int|
                0 <= i < files.len() && finding_of_file(#[trigger] files[i], files_risks(files)[k]),
    decreases files.len(),
{
    if files.len() > 0 {
        let d = files.drop_last();
        lemma_files_risks_fit(d);
        lemma_file_risks_fit(files.last());
        let a = files_risks(d);
        let b = file_risks(files.last().path@, files.last().source@);
        let all = files_risks(files);
        assert(all == a + b);
        assert forall|k: int| #![trigger all[k]] 0 <= k < all.len() implies exists|i: int|
            0 <= i < files.len() && finding_of_file(#[trigger] files[i], all[k]) by {
            if k < a.len() {
                assert(all[k] == a[k]);
                let i = choose|i: int| 0 <= i < d.len() && finding_of_file(#[trigger] d[i], a[k]);
                assert(files[i] == d[i]);
            } else {
                assert(all[k] == b[k - a.len()]);
                assert(finding_of_file(files[files.len() - 1], all[k]));
            }
        }
    }
}

/// The findings come out ordered by path and then line, each belongs to one
/// of the files, and the file-kind filters hold: `any` types only in
/// TypeScript files, `console.log` and `debugger` only outside test files,
/// and each finding on a line of its file.
pub proof fn law_risks_sorted_and_filtered(files: Seq<SourceFile>)
    ensures
        forall|i: int, j: int|
            0 <= i < j < stable_sort(files_risks(files), risk_le()).len() ==> location_le(
                (#[trigger] stable_sort(files_risks(files), risk_le())[i]).file_path,
                stable_sort(files_risks(files), risk_le())[i].line,
                (#[trigger] stable_sort(files_risks(files), risk_le())[j]).file_path,
                stable_sort(files_risks(files), risk_le())[j].line,
            ),
        forall|k: int|
            #![trigger stable_sort(files_risks(files), risk_le())[k]]
            0 <= k < stable_sort(files_risks(files), risk_le()).len() ==> exists|i: int|
                0 <= i < files.len() && finding_of_file(
                    #[trigger] files[i],
                    stable_sort(files_risks(files), risk_le())[k],
                ),
{
    let u = files_risks(files);
    assert forall|a: RiskItemView, b: RiskItemView| #[trigger] risk_le()(a, b) || risk_le()(b, a) by {
        lemma_location_le_total(a.file_path, a.line, b.file_path, b.line);
    }
    assert forall|a: RiskItemView, b: RiskItemView, c: RiskItemView|
        #[trigger] risk_le()(a, b) && #[trigger] risk_le()(b, c) implies risk_le()(a, c) by {
        lemma_location_le_transitive(a.file_path, a.line, b.file_path, b.line, c.file_path, c.line);
    }
    lemma_stable_sort_sorted(u, risk_le());
    lemma_files_risks_fit(files);
    let srt = stable_sort(u, risk_le());
    assert forall|k: int| #![trigger srt[k]] 0 <= k < srt.len() implies exists|i: int|
        0 <= i < files.len() && finding_of_file(#[trigger] files[i], srt[k]) by {
        assert(u.contains(srt[k]));
        let m = choose|m: int| 0 <= m < u.len() && u[m] == srt[k];
        assert(exists|i: int| 0 <= i < files.len() && finding_of_file(#[trigger] files[i], u[m]));
    }
}

/// How many more `{` than `}` a text holds.
pub open spec fn brace_balance(t: Seq<char>) -> int {
    count_char(t, '{') as int - count_char(t, '}') as int
}

/// Starting at depth `d`, no prefix of `t` closes more braces than are
/// open.
pub open spec fn never_below(d: int, t: Seq<char>) -> bool {
    forall|i: int| 0 <= i <= t.len() ==> d + #[trigger] brace_balance(t.take(i)) >= 0
}

/// The text that nesting is measured over: the trimmed lines that are not
/// comment lines, one after the other.
pub open spec fn code_text(lines: Seq<Seq<char>>) -> Seq<char>
    decreases lines.len(),
{
    if lines.len() == 0 {
        Seq::empty()
    } else {
        (if comment_line(trim(lines[0])) {
            Seq::<char>::empty()
        } else {
            trim(lines[0])
        }) + code_text(lines.drop_first())
    }
}

proof fn lemma_count_concat(a: Seq<char>, b: Seq<char>, c: char)
    ensures
        count_char(a + b, c) == count_char(a, c) + count_char(b, c),
    decreases b.len(),
{
    if b.len() == 0 {
        assert(a + b =~= a);
    } else {
        lemma_count_concat(a, b.drop_last(), c);
        assert((a + b).drop_last() =~= a + b.drop_last());
        assert((a + b).last() == b.last());
    }
}

proof fn lemma_balance_concat(a: Seq<char>, b: Seq<char>)
    ensures
        brace_balance(a + b) == brace_balance(a) + brace_balance(b),
{
    lemma_count_concat(a, b, '{');
    lemma_count_concat(a, b, '}');
}

proof fn lemma_balance_one(c: char)
    ensures
        brace_balance(seq![c]) == if c == '{' {
            1int
        } else if c == '}' {
            -1int
        } else {
            0int
        },
{
    assert(seq![c].drop_last() =~= Seq::<char>::empty());
    assert(seq![c].last() == c);
    assert(count_char(Seq::<char>::empty(), '{') == 0);
    assert(count_char(Seq::<char>::empty(), '}') == 0);
    assert(count_char(seq![c], '{') == count_char(seq![c].drop_last(), '{') + if c == '{' { 1nat } else { 0nat });
    assert(count_char(seq![c], '}') == count_char(seq![c].drop_last(), '}') + if c == '}' { 1nat } else { 0nat });
}

proof fn lemma_balance_empty()
    ensures
        brace_balance(Seq::<char>::empty()) == 0,
{
}

/// Reading braces from position `k` of `t` with no close below zero: the
/// depth moves by the balance, and the deepest level is the deepest that a
/// prefix of the rest reaches (or what was reached before).
proof fn lemma_braces_depth(t: Seq<char>, k: int, st: Nesting, ln: int)
    requires
        0 <= k <= t.len(),
        st.max_depth >= st.depth,
        never_below(st.depth as int, t.subrange(k, t.len() as int)),
    ensures
        ({
            let u = t.subrange(k, t.len() as int);
            let r = braces_from(t, k, st, ln);
            &&& r.depth == st.depth + brace_balance(u)
            &&& r.max_depth >= st.max_depth
            &&& r.max_depth >= r.depth
            &&& forall|i: int| 0 <= i <= u.len() ==> st.depth + #[trigger] brace_balance(u.take(i)) <= r.max_depth
            &&& (r.max_depth == st.max_depth || exists|i: int|
                0 <= i <= u.len() && st.depth + #[trigger] brace_balance(u.take(i)) == r.max_depth)
        }),
    decreases t.len() - k,
{
    let u = t.subrange(k, t.len() as int);
    let r = braces_from(t, k, st, ln);
    if k == t.len() {
        assert(u.take(0) =~= Seq::<char>::empty());
        lemma_balance_empty();
        assert(u =~= Seq::<char>::empty());
        assert forall|i: int| 0 <= i <= u.len() implies st.depth + #[trigger] brace_balance(u.take(i)) <= r.max_depth by {
            assert(u.take(i) =~= Seq::<char>::empty());
        }
    } else {
        let c = t[k];
        let st1 = brace_step(st, c, ln);
        let u1 = t.subrange(k + 1, t.len() as int);
        assert(u =~= seq![c] + u1);
        lemma_balance_one(c);
        assert(u.take(1) =~= seq![c]);
        assert(st.depth + brace_balance(u.take(1)) >= 0);
        assert(st1.depth == st.depth + brace_balance(seq![c]));
        assert forall|i: int| 0 <= i <= u1.len() implies st1.depth + #[trigger] brace_balance(u1.take(i)) >= 0 by {
            assert(u.take(i + 1) =~= seq![c] + u1.take(i));
            lemma_balance_concat(seq![c], u1.take(i));
            assert(st.depth + brace_balance(u.take(i + 1)) >= 0);
        }
        lemma_braces_depth(t, k + 1, st1, ln);
        lemma_balance_concat(seq![c], u1);
        assert(r == braces_from(t, k + 1, st1, ln));
        assert forall|i: int| 0 <= i <= u.len() implies st.depth + #[trigger] brace_balance(u.take(i)) <= r.max_depth by {
            if i == 0 {
                assert(u.take(0) =~= Seq::<char>::empty());
            } else {
                assert(u.take(i) =~= seq![c] + u1.take(i - 1));
                lemma_balance_concat(seq![c], u1.take(i - 1));
                assert(st1.depth + brace_balance(u1.take(i - 1)) <= r.max_depth);
            }
        }
        if r.max_depth != st.max_depth {
            if r.max_depth == st1.max_depth {
                assert(c == '{');
                assert(st.depth + brace_balance(u.take(1)) == r.max_depth);
            } else {
                let i = choose|i: int| 0 <= i <= u1.len() && st1.depth + #[trigger] brace_balance(u1.take(i)) == r.max_depth;
                assert(u.take(i + 1) =~= seq![c] + u1.take(i));
                lemma_balance_concat(seq![c], u1.take(i));
                assert(st.depth + brace_balance(u.take(i + 1)) == r.max_depth);
            }
        }
    }
}

/// The same over lines: comment lines are passed over, and the others are
/// read one after the other.
proof fn lemma_nesting_depth(lines: Seq<Seq<char>>, ln: int, st: Nesting)
    requires
        st.max_depth >= st.depth,
        never_below(st.depth as int, code_text(lines)),
    ensures
        ({
            let u = code_text(lines);
            let r = nesting_from(lines, ln, st);
            &&& r.depth == st.depth + brace_balance(u)
            &&& r.max_depth >= st.max_depth
            &&& r.max_depth >= r.depth
            &&& forall|i: int| 0 <= i <= u.len() ==> st.depth + #[trigger] brace_balance(u.take(i)) <= r.max_depth
            &&& (r.max_depth == st.max_depth || exists|i: int|
                0 <= i <= u.len() && st.depth + #[trigger] brace_balance(u.take(i)) == r.max_depth)
        }),
    decreases lines.len(),
{
    let u = code_text(lines);
    let r = nesting_from(lines, ln, st);
    if lines.len() == 0 {
        lemma_balance_empty();
        assert forall|i: int| 0 <= i <= u.len() implies st.depth + #[trigger] brace_balance(u.take(i)) <= r.max_depth by {
            assert(u.take(i) =~= Seq::<char>::empty());
        }
    } else {
        let t = trim(lines[0]);
        let p = if comment_line(t) {
            Seq::<char>::empty()
        } else {
            t
        };
        let rest = lines.drop_first();
        let u1 = code_text(rest);
        assert(u == p + u1);
        let st1 = if comment_line(t) {
            st
        } else {
            braces_from(t, 0, st, ln)
        };
        assert(r == nesting_from(rest, ln + 1, st1));
        assert forall|i: int| 0 <= i <= p.len() implies st.depth + #[trigger] brace_balance(p.take(i)) >= 0 by {
            assert(u.take(i) =~= p.take(i));
        }
        if comment_line(t) {
            assert(u =~= u1);
            lemma_balance_empty();
            lemma_nesting_depth(rest, ln + 1, st1);
        } else {
            assert(t.subrange(0, t.len() as int) =~= t);
            lemma_braces_depth(t, 0, st, ln);
            assert forall|i: int| 0 <= i <= u1.len() implies st1.depth + #[trigger] brace_balance(u1.take(i)) >= 0 by {
                assert(u.take(p.len() + i) =~= p + u1.take(i));
                lemma_balance_concat(p, u1.take(i));
                assert(st.depth + brace_balance(u.take(p.len() + i)) >= 0);
            }
            lemma_nesting_depth(rest, ln + 1, st1);
            lemma_balance_concat(p, u1);
            assert forall|i: int| 0 <= i <= u.len() implies st.depth + #[trigger] brace_balance(u.take(i)) <= r.max_depth by {
                if i <= p.len() {
                    assert(u.take(i) =~= p.take(i));
                } else {
                    assert(u.take(i) =~= p + u1.take(i - p.len()));
                    lemma_balance_concat(p, u1.take(i - p.len()));
                    assert(st1.depth + brace_balance(u1.take(i - p.len())) <= r.max_depth);
                }
            }
            if r.max_depth != st.max_depth {
                if r.max_depth == st1.max_depth {
                    let i = choose|i: int| 0 <= i <= p.len() && st.depth + #[trigger] brace_balance(p.take(i)) == r.max_depth;
                    assert(u.take(i) =~= p.take(i));
                    assert(st.depth + brace_balance(u.take(i)) == r.max_depth);
                } else {
                    let i = choose|i: int| 0 <= i <= u1.len() && st1.depth + #[trigger] brace_balance(u1.take(i)) == r.max_depth;
                    assert(u.take(p.len() + i) =~= p + u1.take(i));
                    lemma_balance_concat(p, u1.take(i));
                    assert(st.depth + brace_balance(u.take(p.len() + i)) == r.max_depth);
                }
            }
        }
    }
}

/// Nesting is the brace depth: a `}` closes what a `{` opened. Where no
/// prefix of a file's code (its non-comment lines, trimmed) closes more
/// braces than it has opened, the deepest level measured is the largest
/// excess of `{` over `}` in a prefix of that code, and the file has a deep
/// nesting finding exactly when some prefix opens more than four braces
/// that it does not close.
pub proof fn law_nesting_is_brace_depth(path: Seq<char>, source: Seq<char>)
    ensures
        ({
            let u = code_text(split_lines(source));
            let st = nesting_from(split_lines(source), 1, Nesting { depth: 0, max_depth: 0, max_line: 0 });
            never_below(0, u) ==> {
                &&& forall|i: int| 0 <= i <= u.len() ==> #[trigger] brace_balance(u.take(i)) <= st.max_depth
                &&& (st.max_depth == 0 || exists|i: int| 0 <= i <= u.len() && #[trigger] brace_balance(u.take(i)) == st.max_depth)
                &&& (nesting_risks(path, source).len() > 0 <==> exists|i: int|
                    0 <= i <= u.len() && #[trigger] brace_balance(u.take(i)) > 4)
            }
        }),
{
    let lines = split_lines(source);
    let u = code_text(lines);
    let init = Nesting { depth: 0, max_depth: 0, max_line: 0 };
    let st = nesting_from(lines, 1, init);
    if never_below(0, u) {
        assert(never_below(init.depth as int, u));
        lemma_nesting_depth(lines, 1, init);
        if exists|i: int| 0 <= i <= u.len() && #[trigger] brace_balance(u.take(i)) > 4 {
            let i = choose|i: int| 0 <= i <= u.len() && #[trigger] brace_balance(u.take(i)) > 4;
            assert(brace_balance(u.take(i)) <= st.max_depth);
        }
        if st.max_depth > 4 {
            let i = choose|i: int| 0 <= i <= u.len() && 0 + #[trigger] brace_balance(u.take(i)) == st.max_depth;
            assert(brace_balance(u.take(i)) > 4);
        }
    }
}

proof fn lemma_line_in_lines(path: Seq<char>, lines: Seq<Seq<char>>, ln: int, is_ts: bool, is_test: bool, j: int, x: RiskItemView)
    requires
        0 <= j < lines.len(),
        line_risks(path, trim(lines[j]), ln + j, is_ts, is_test).contains(x),
    ensures
        lines_risks(path, lines, ln, is_ts, is_test).contains(x),
    decreases j,
{
    let h = line_risks(path, trim(lines[0]), ln, is_ts, is_test);
    let t = lines_risks(path, lines.drop_first(), ln + 1, is_ts, is_test);
    let all = lines_risks(path, lines, ln, is_ts, is_test);
    assert(all == h + t);
    if j == 0 {
        let i = choose|i: int| 0 <= i < h.len() && h[i] == x;
        assert(all[i] == x);
    } else {
        assert(lines.drop_first()[j - 1] == lines[j]);
        lemma_line_in_lines(path, lines.drop_first(), ln + 1, is_ts, is_test, j - 1, x);
        let i = choose|i: int| 0 <= i < t.len() && t[i] == x;
        assert(all[h.len() + i] == x);
    }
}

/// The line checks, line by line: a line that is not a comment is reported
/// for an `any` type when its code (before any `//`) holds `: any` or
/// `as any` in a TypeScript file, for `console.log` when its code holds
/// `console.log(` or `console.log (` outside a test file, and for a
/// `debugger` statement when it reads `debugger;` or `debugger` outside a
/// test file; a comment line is reported for nothing.
pub proof fn law_line_findings(path: Seq<char>, lines: Seq<Seq<char>>, ln: int, is_ts: bool, is_test: bool, j: int)
    requires
        0 <= j < lines.len(),
    ensures
        ({
            let t = trim(lines[j]);
            let found = lines_risks(path, lines, ln, is_ts, is_test);
            &&& (!comment_line(t) && is_ts && (contains(code_part(t), ": any"@) || contains(code_part(t), "as any"@)))
                ==> found.contains(risk(RiskKind::AnyType, path, ln + j, "any type used"@))
            &&& (!comment_line(t) && !is_test && (contains(code_part(t), "console.log("@) || contains(
                code_part(t),
                "console.log ("@,
            ))) ==> found.contains(risk(RiskKind::ConsoleLog, path, ln + j, "console.log left in production"@))
            &&& (!comment_line(t) && !is_test && (t == "debugger;"@ || t == "debugger"@)) ==> found.contains(
                risk(RiskKind::Debugger, path, ln + j, "debugger statement"@),
            )
            &&& comment_line(t) ==> line_risks(path, t, ln + j, is_ts, is_test).len() == 0
        }),
{
    let t = trim(lines[j]);
    let h = line_risks(path, t, ln + j, is_ts, is_test);
    if !comment_line(t) {
        let a = if is_ts && any_type_line(t) {
            seq![risk(RiskKind::AnyType, path, ln + j, "any type used"@)]
        } else {
            Seq::empty()
        };
        let b = if !is_test && console_log_line(t) {
            seq![risk(RiskKind::ConsoleLog, path, ln + j, "console.log left in production"@)]
        } else {
            Seq::empty()
        };
        let c = if debugger_line(t, is_test) {
            seq![risk(RiskKind::Debugger, path, ln + j, "debugger statement"@)]
        } else {
            Seq::empty()
        };
        assert(h == a + b + c);
        if a.len() > 0 {
            assert(h[0] == a[0]);
            lemma_line_in_lines(path, lines, ln, is_ts, is_test, j, a[0]);
        }
        if b.len() > 0 {
            assert(h[a.len() as int] == b[0]);
            lemma_line_in_lines(path, lines, ln, is_ts, is_test, j, b[0]);
        }
        if c.len() > 0 {
            assert(h[(a.len() + b.len()) as int] == c[0]);
            lemma_line_in_lines(path, lines, ln, is_ts, is_test, j, c[0]);
        }
    }
}

/// A line that declares a function (`function ...`, `= function(`,
/// `= (`) whose first parenthesised list holds more than five
/// comma-separated parameters is reported at that line with its count; so
/// is an arrow function (`=>`) with such a list met outside an open
/// function.
pub proof fn law_long_params_reported(path: Seq<char>, lines: Seq<Seq<char>>, ln: int, st: ParamScan, p: Seq<char>)
    requires
        lines.len() > 0,
        param_list(trim(lines[0])) == Some(p),
        p.len() > 0,
        count_char(p, ',') >= 5,
    ensures
        (starts_with(trim(lines[0]), "function "@) || contains(trim(lines[0]), "= function("@) || contains(
            trim(lines[0]),
            "= ("@,
        )) ==> params_from(path, lines, ln, st).len() > 0 && params_from(path, lines, ln, st)[0] == risk(
            RiskKind::LongParams,
            path,
            ln,
            decimal(count_char(p, ',') + 1) + " parameters (limit: 5)"@,
        ),
        (!st.in_function && contains(trim(lines[0]), "=>"@)) ==> params_from(path, lines, ln, st).len() > 0
            && params_from(path, lines, ln, st)[0] == risk(
            RiskKind::LongParams,
            path,
            ln,
            decimal(count_char(p, ',') + 1) + " parameters (limit: 5)"@,
        ),
{
}

} // verus!
