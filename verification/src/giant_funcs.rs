//! Giant-function metrics: logical line counts, cyclomatic complexity and the
//! severity a function earns against the configured thresholds.

use vstd::prelude::*;
use vstd::string::StringExecFns;
use vstd::string::StringSliceAdditionalSpecFns;

use crate::config::Thresholds;
use crate::parser::{FileSymbols, FunctionInfoView};
use crate::sort::{lemma_stable_sort_map, located_le, location_le, sort_by_location, stable_sort, Located};

use crate::text::{
    append_decimal, chars_in_range, chars_range_ok, decimal, to_string,
    byte_range_chars, byte_range_ok, byte_slice, chars_of, contains, contains_in, equals_in,
    lemma_lines_from, line_end, lines_scan, matches_at, occurs_at, split_lines, starts_with,
    starts_with_in, trim, trim_bounds,
};

verus! {

/// How many logical lines remain in `lines`, reading them in order, when
/// `in_block` tells whether a `/* ... */` comment is open at the first one.
/// Blank lines, comment lines and lines holding only `{` or `}` do not count.
pub open spec fn logical_count(lines: Seq<Seq<char>>, in_block: bool) -> nat
    decreases lines.len(),
{
    if lines.len() == 0 {
        0
    } else {
        let t = trim(lines[0]);
        let rest = lines.drop_first();
        if t.len() == 0 {
            logical_count(rest, in_block)
        } else if in_block {
            logical_count(rest, !contains(t, seq!['*', '/']))
        } else if starts_with(t, seq!['/', '*']) {
            logical_count(rest, !contains(t, seq!['*', '/']))
        } else if starts_with(t, seq!['/', '/']) || t == seq!['{'] || t == seq!['}'] {
            logical_count(rest, false)
        } else {
            1 + logical_count(rest, false)
        }
    }
}

/// The logical lines of a function body: at least one.
pub open spec fn logical_lines(body: Seq<char>) -> nat {
    let n = logical_count(split_lines(body), false);
    if n == 0 {
        1
    } else {
        n
    }
}

/// A trimmed line that is code: not blank, not opening a comment, and not a
/// lone brace.
pub open spec fn code_line(t: Seq<char>) -> bool {
    t.len() > 0 && !starts_with(t, seq!['/', '*']) && !starts_with(t, seq!['/', '/']) && t != seq!['{']
        && t != seq!['}']
}

proof fn lemma_logical_count_bounded(lines: Seq<Seq<char>>, in_block: bool)
    ensures
        logical_count(lines, in_block) <= lines.len(),
    decreases lines.len(),
{
    if lines.len() > 0 {
        lemma_logical_count_bounded(lines.drop_first(), true);
        lemma_logical_count_bounded(lines.drop_first(), false);
    }
}

/// A body has at least one logical line and no more logical lines than
/// lines; outside a comment, a code line counts one and any other line
/// counts nothing.
pub proof fn law_logical_lines(body: Seq<char>, l: Seq<char>, rest: Seq<Seq<char>>)
    ensures
        1 <= logical_lines(body),
        logical_lines(body) <= if split_lines(body).len() == 0 {
            1
        } else {
            split_lines(body).len()
        },
        code_line(trim(l)) ==> logical_count(seq![l] + rest, false) == 1 + logical_count(rest, false),
        (trim(l).len() == 0 || trim(l) == seq!['{'] || trim(l) == seq!['}'] || starts_with(
            trim(l),
            seq!['/', '/'],
        )) ==> logical_count(seq![l] + rest, false) == logical_count(rest, false),
{
    lemma_logical_count_bounded(split_lines(body), false);
    assert((seq![l] + rest)[0] == l);
    assert((seq![l] + rest).drop_first() =~= rest);
}

/// Counts the logical lines of `source[start_byte..end_byte]`: lines that are
/// not blank, not inside or starting a comment, and not a lone brace; never
/// less than one.
pub fn count_logical_lines(source: &str, start_byte: usize, end_byte: usize) -> (count: usize)
    requires
        byte_range_ok(source, start_byte as int, end_byte as int),
    ensures
        count == logical_lines(byte_range_chars(source, start_byte as int, end_byte as int)),
        count >= 1,
{
    let body = byte_slice(source, start_byte, end_byte);
    let chars = chars_of(body);
    let n = chars.len();
    let ghost all = split_lines(chars@);
    let mut pos: usize = 0;
    let mut count: usize = 0;
    let mut in_block = false;
    let open_brace: &[char] = &['{'];
    let close_brace: &[char] = &['}'];
    assert(open_brace@ =~= seq!['{']);
    assert(close_brace@ =~= seq!['}']);
    loop
        invariant
            chars@ == byte_range_chars(source, start_byte as int, end_byte as int),
            open_brace@ == seq!['{'],
            close_brace@ == seq!['}'],
            n == chars.len(),
            all == split_lines(chars@),
            pos <= n,
            count <= pos,
            count + logical_count(lines_scan(chars@, pos as int, pos as int), in_block)
                == logical_count(all, false),
        decreases n - pos,
    {
        let k = line_end(&chars, pos);
        proof {
            lemma_lines_from(chars@, pos as int, k as int);
        }
        let ghost line = chars@.subrange(pos as int, k as int);
        let ghost rest = if k < n {
            lines_scan(chars@, k + 1, k + 1)
        } else {
            Seq::<Seq<char>>::empty()
        };
        proof {
            let ls = lines_scan(chars@, pos as int, pos as int);
            assert(ls[0] == line);
            assert(ls.drop_first() =~= rest);
        }
        let (a, b) = trim_bounds(&chars, pos, k);
        let ghost t = chars@.subrange(a as int, b as int);
        let ghost old_in = in_block;
        let ghost ls = lines_scan(chars@, pos as int, pos as int);
        proof {
            assert(t == trim(ls[0]));
            assert(ls.len() > 0);
            assert(ls.drop_first() == rest);
        }
        if a == b {
            assert(logical_count(ls, old_in) == logical_count(rest, in_block));
        } else if in_block {
            in_block = !contains_in(&chars, a, b, &['*', '/']);
            assert(logical_count(ls, old_in) == logical_count(rest, in_block));
        } else if starts_with_in(&chars, a, b, &['/', '*']) {
            in_block = !contains_in(&chars, a, b, &['*', '/']);
            assert(logical_count(ls, old_in) == logical_count(rest, in_block));
        } else if starts_with_in(&chars, a, b, &['/', '/']) || equals_in(&chars, a, b, open_brace)
            || equals_in(&chars, a, b, close_brace) {
            in_block = false;
            assert(logical_count(ls, old_in) == logical_count(rest, in_block));
        } else {
            count += 1;
            in_block = false;
            assert(logical_count(ls, old_in) == 1 + logical_count(rest, in_block));
        }
        if k == n {
            proof {
                assert(rest.len() == 0);
                assert(logical_count(rest, in_block) == 0);
                assert(count == logical_count(all, false));
                assert(chars@ == byte_range_chars(source, start_byte as int, end_byte as int));
            }
            if count == 0 {
                return 1;
            }
            return count;
        }
        pos = k + 1;
    }
}

/// Where a scan of source text stands: in code, in a `/* */` comment, in a
/// `//` comment, or inside a string opened by `quote`.
pub enum ScanMode {
    Code,
    BlockComment,
    LineComment,
    Quoted { quote: char },
}

/// Whether `c` can stand in an identifier.
pub open spec fn ident_char(c: char) -> bool {
    ('a' <= c <= 'z') || ('A' <= c <= 'Z') || ('0' <= c <= '9') || c == '_' || c == '$'
}

fn is_ident_char(c: char) -> (b: bool)
    ensures
        b == ident_char(c),
{
    ('a' <= c && c <= 'z') || ('A' <= c && c <= 'Z') || ('0' <= c && c <= '9') || c == '_' || c
        == '$'
}

/// Whether a word can begin at `i`: at the start, or after a character that
/// cannot stand in an identifier.
pub open spec fn word_start(s: Seq<char>, i: int) -> bool {
    i == 0 || (0 < i <= s.len() && !ident_char(s[i - 1]))
}

/// Whether a control-flow keyword begins at `i`, at the start of a word:
/// `if`, `for`, `while` and `catch` followed by a space or `(`, `do`
/// followed by a space or `{`, `case` followed by a space.
pub open spec fn keyword_at(s: Seq<char>, i: int) -> bool {
    word_start(s, i) && {
    ||| occurs_at(s, i, seq!['i', 'f', ' ']) || occurs_at(s, i, seq!['i', 'f', '('])
    ||| occurs_at(s, i, seq!['f', 'o', 'r', ' ']) || occurs_at(s, i, seq!['f', 'o', 'r', '('])
    ||| occurs_at(s, i, seq!['w', 'h', 'i', 'l', 'e', ' ']) || occurs_at(
        s,
        i,
        seq!['w', 'h', 'i', 'l', 'e', '('],
    )
    ||| occurs_at(s, i, seq!['d', 'o', ' ']) || occurs_at(s, i, seq!['d', 'o', '{'])
    ||| occurs_at(s, i, seq!['c', 'a', 's', 'e', ' '])
    ||| occurs_at(s, i, seq!['c', 'a', 't', 'c', 'h', ' ']) || occurs_at(
        s,
        i,
        seq!['c', 'a', 't', 'c', 'h', '('],
    )
    }
}

/// Whether a decision point begins at `i` in code: a control-flow keyword
/// at the start of a word (see `keyword_at`), a `?` that is not followed
/// by `?` or `:` (a ternary, an optional chain `?.`, or the last `?` of a
/// nullish `??`), `&&` or `||`.
pub open spec fn decision_at(s: Seq<char>, i: int) -> bool {
    ||| keyword_at(s, i)
    ||| (0 <= i && i + 1 < s.len() && s[i] == '?' && s[i + 1] != '?' && s[i + 1] != ':')
    ||| occurs_at(s, i, seq!['&', '&'])
    ||| occurs_at(s, i, seq!['|', '|'])
}

/// The position and mode after the character at `i` is consumed.
pub open spec fn scan_step(s: Seq<char>, i: int, mode: ScanMode) -> (int, ScanMode) {
    let c = s[i];
    let next_is = |d: char| i + 1 < s.len() && s[i + 1] == d;
    match mode {
        ScanMode::BlockComment => if c == '*' && next_is('/') {
            (i + 2, ScanMode::Code)
        } else {
            (i + 1, ScanMode::BlockComment)
        },
        ScanMode::LineComment => if c == '\n' {
            (i + 1, ScanMode::Code)
        } else {
            (i + 1, ScanMode::LineComment)
        },
        ScanMode::Quoted { quote } => if c == '\\' {
            (i + 2, mode)
        } else if c == quote {
            (i + 1, ScanMode::Code)
        } else {
            (i + 1, mode)
        },
        ScanMode::Code => if c == '/' && next_is('*') {
            (i + 2, ScanMode::BlockComment)
        } else if c == '/' && next_is('/') {
            (i + 2, ScanMode::LineComment)
        } else if c == '"' || c == '\'' || c == '`' {
            (i + 1, ScanMode::Quoted { quote: c })
        } else {
            (i + 1, ScanMode::Code)
        },
    }
}

/// The number of decision points met in code from position `i` on.
pub open spec fn decisions_from(s: Seq<char>, i: int, mode: ScanMode) -> nat
    decreases s.len() - i,
{
    if i < 0 || i >= s.len() {
        0
    } else {
        let st = scan_step(s, i, mode);
        let here: nat = if mode is Code && decision_at(s, i) {
            1
        } else {
            0
        };
        let j = if st.0 > s.len() {
            s.len() as int
        } else {
            st.0
        };
        if j <= i {
            0
        } else {
            here + decisions_from(s, j, st.1)
        }
    }
}

/// Cyclomatic complexity of a body: one plus its decision points.
pub open spec fn complexity_of(body: Seq<char>) -> nat {
    1 + decisions_from(body, 0, ScanMode::Code)
}

fn decision_here(s: &Vec<char>, i: usize) -> (b: bool)
    requires
        i < s.len(),
    ensures
        b == decision_at(s@, i as int),
        b ==> i + 1 < s.len(),
{
    let ternary = i + 1 < s.len() && s[i] == '?' && s[i + 1] != '?' && s[i + 1] != ':';
    let at_word = i == 0 || !is_ident_char(s[i - 1]);
    at_word && (matches_at(s, i, &['i', 'f', ' ']) || matches_at(s, i, &['i', 'f', '('])
        || matches_at(s, i, &['f', 'o', 'r', ' ']) || matches_at(s, i, &['f', 'o', 'r', '('])
        || matches_at(s, i, &['w', 'h', 'i', 'l', 'e', ' ']) || matches_at(
        s,
        i,
        &['w', 'h', 'i', 'l', 'e', '('],
    ) || matches_at(s, i, &['d', 'o', ' ']) || matches_at(s, i, &['d', 'o', '{'])
        || matches_at(s, i, &['c', 'a', 's', 'e', ' ']) || matches_at(
        s,
        i,
        &['c', 'a', 't', 'c', 'h', ' '],
    ) || matches_at(s, i, &['c', 'a', 't', 'c', 'h', '('])) || ternary || matches_at(
        s,
        i,
        &['&', '&'],
    ) || matches_at(s, i, &['|', '|'])
}

/// Cyclomatic complexity of `source[start_byte..end_byte]`: one, plus one for
/// each decision point that stands in code (outside comments and strings).
pub fn compute_complexity(source: &str, start_byte: usize, end_byte: usize) -> (c: usize)
    requires
        byte_range_ok(source, start_byte as int, end_byte as int),
    ensures
        c == complexity_of(byte_range_chars(source, start_byte as int, end_byte as int)),
        c >= 1,
{
    let body = byte_slice(source, start_byte, end_byte);
    let s = chars_of(body);
    let n = s.len();
    let mut i: usize = 0;
    let mut total: usize = 0;
    let mut mode = ScanMode::Code;
    while i < n
        invariant
            n == s.len(),
            i <= n + 1,
            total <= i,
            total == 0 || total < n,
            total + decisions_from(s@, i as int, mode) == decisions_from(s@, 0, ScanMode::Code),
        decreases n + 1 - i,
    {
        let c = s[i];
        let next = if i + 1 < n {
            Some(s[i + 1])
        } else {
            None
        };
        if let ScanMode::Code = mode {
            if decision_here(&s, i) {
                total += 1;
            }
        }
        match mode {
            ScanMode::BlockComment => {
                if c == '*' && next == Some('/') {
                    mode = ScanMode::Code;
                    i += 2;
                } else {
                    i += 1;
                }
            },
            ScanMode::LineComment => {
                if c == '\n' {
                    mode = ScanMode::Code;
                }
                i += 1;
            },
            ScanMode::Quoted { quote } => {
                if c == '\\' {
                    if i + 1 < n {
                        i += 2;
                    } else {
                        i += 1;
                    }
                } else {
                    if c == quote {
                        mode = ScanMode::Code;
                    }
                    i += 1;
                }
            },
            ScanMode::Code => {
                if c == '/' && next == Some('*') {
                    mode = ScanMode::BlockComment;
                    i += 2;
                } else if c == '/' && next == Some('/') {
                    mode = ScanMode::LineComment;
                    i += 2;
                } else if c == '"' || c == '\'' || c == '`' {
                    mode = ScanMode::Quoted { quote: c };
                    i += 1;
                } else {
                    i += 1;
                }
            },
        }
    }
    1 + total
}

/// How far a function is over its thresholds.
#[derive(Debug, Clone, Copy, PartialEq, Eq, Structural)]
pub enum Severity {
    Warning,
    Critical,
}

/// A function over at least one of the warning thresholds.
#[derive(Debug, Clone)]
pub struct FunctionMetrics {
    pub file_path: String,
    pub name: String,
    pub start_line: usize,
    pub end_line: usize,
    pub logical_lines: usize,
    pub complexity: usize,
    pub severity: Severity,
}

pub struct FunctionMetricsView {
    pub file_path: Seq<char>,
    pub name: Seq<char>,
    pub start_line: int,
    pub end_line: int,
    pub logical_lines: int,
    pub complexity: int,
    pub severity: Severity,
}

impl View for FunctionMetrics {
    type V = FunctionMetricsView;

    open spec fn view(&self) -> FunctionMetricsView {
        FunctionMetricsView {
            file_path: self.file_path@,
            name: self.name@,
            start_line: self.start_line as int,
            end_line: self.end_line as int,
            logical_lines: self.logical_lines as int,
            complexity: self.complexity as int,
            severity: self.severity,
        }
    }
}

impl Located for FunctionMetrics {
    open spec fn loc_path(&self) -> Seq<char> {
        self.file_path@
    }

    open spec fn loc_line(&self) -> int {
        self.start_line as int
    }

    fn location(&self) -> (r: (&str, usize)) {
        (self.file_path.as_str(), self.start_line)
    }
}

pub open spec fn metrics_view(ms: Seq<FunctionMetrics>) -> Seq<FunctionMetricsView> {
    ms.map_values(|m: FunctionMetrics| m@)
}

/// Metrics ordered by file path, then start line.
pub open spec fn metric_le() -> spec_fn(FunctionMetricsView, FunctionMetricsView) -> bool {
    |a: FunctionMetricsView, b: FunctionMetricsView|
        location_le(a.file_path, a.start_line, b.file_path, b.start_line)
}

/// The severity of a function with `lines` logical lines and the given
/// complexity: critical above either critical threshold, else a warning
/// above either warning threshold, else none.
pub open spec fn severity_of(lines: int, complexity: int, th: Thresholds) -> Option<Severity> {
    if lines > th.critical_lines || complexity > th.critical_complexity {
        Some(Severity::Critical)
    } else if lines > th.warning_lines || complexity > th.warning_complexity {
        Some(Severity::Warning)
    } else {
        None
    }
}

/// The metrics reported for function `f` of file `path` whose text is `src`:
/// one entry where it earns a severity, none otherwise.
pub open spec fn function_metrics(
    path: Seq<char>,
    f: FunctionInfoView,
    src: Seq<char>,
    th: Thresholds,
) -> Seq<FunctionMetricsView> {
    let body = chars_in_range(src, f.start_byte as int, f.end_byte as int);
    let ll = logical_lines(body) as int;
    let cx = complexity_of(body) as int;
    match severity_of(ll, cx, th) {
        Some(sev) => seq![
            FunctionMetricsView {
                file_path: path,
                name: match f.name {
                    Some(n) => n,
                    None => "<anonymous>"@,
                },
                start_line: f.start_line as int,
                end_line: f.end_line as int,
                logical_lines: ll,
                complexity: cx,
                severity: sev,
            },
        ],
        None => Seq::empty(),
    }
}

pub open spec fn functions_metrics(
    path: Seq<char>,
    fs: Seq<FunctionInfoView>,
    src: Seq<char>,
    th: Thresholds,
) -> Seq<FunctionMetricsView>
    decreases fs.len(),
{
    if fs.len() == 0 {
        Seq::empty()
    } else {
        functions_metrics(path, fs.drop_last(), src, th) + function_metrics(path, fs.last(), src, th)
    }
}

/// The text of file `i`, where it could be read.
pub open spec fn source_of(sources: Seq<Option<String>>, i: int) -> Option<Seq<char>> {
    if 0 <= i < sources.len() {
        match sources[i] {
            Some(s) => Some(s@),
            None => None,
        }
    } else {
        None
    }
}

/// The metrics of every function of every readable file, file after file.
pub open spec fn files_metrics(
    files: Seq<FileSymbols>,
    sources: Seq<Option<String>>,
    th: Thresholds,
) -> Seq<FunctionMetricsView>
    decreases files.len(),
{
    if files.len() == 0 {
        Seq::empty()
    } else {
        files_metrics(files.drop_last(), sources, th) + match source_of(
            sources,
            files.len() - 1,
        ) {
            Some(src) => functions_metrics(files.last()@.file_path, files.last()@.functions, src, th),
            None => Seq::empty(),
        }
    }
}

/// Every function of a readable file spans whole characters of its text.
pub open spec fn sources_fit(files: Seq<FileSymbols>, sources: Seq<Option<String>>) -> bool {
    forall|i: int, j: int|
        0 <= i < files.len() && 0 <= j < files[i].functions@.len() ==> match source_of(sources, i) {
            Some(src) => chars_range_ok(
                src,
                (#[trigger] files[i].functions@[j]).start_byte as int,
                files[i].functions@[j].end_byte as int,
            ),
            None => true,
        }
}

/// The metrics of the functions of one file, appended to `out`.
fn file_function_metrics(
    fs: &FileSymbols,
    src: &str,
    th: &Thresholds,
    out: &mut Vec<FunctionMetrics>,
)
    requires
        forall|j: int|
            0 <= j < fs.functions@.len() ==> chars_range_ok(
                src@,
                (#[trigger] fs.functions@[j]).start_byte as int,
                fs.functions@[j].end_byte as int,
            ),
    ensures
        metrics_view(final(out)@) == metrics_view(old(out)@) + functions_metrics(
            fs@.file_path,
            fs@.functions,
            src@,
            *th,
        ),
{
    let ghost v0 = metrics_view(out@);
    let mut j: usize = 0;
    while j < fs.functions.len()
        invariant
            j <= fs.functions@.len(),
            forall|k: int|
                0 <= k < fs.functions@.len() ==> chars_range_ok(
                    src@,
                    (#[trigger] fs.functions@[k]).start_byte as int,
                    fs.functions@[k].end_byte as int,
                ),
            metrics_view(out@) == v0 + functions_metrics(
                fs@.file_path,
                fs@.functions.take(j as int),
                src@,
                *th,
            ),
        decreases fs.functions.len() - j,
    {
        let f = &fs.functions[j];
        let ll = count_logical_lines(src, f.start_byte, f.end_byte);
        let cx = compute_complexity(src, f.start_byte, f.end_byte);
        let ghost before = metrics_view(out@);
        let sev = if ll > th.critical_lines || cx > th.critical_complexity {
            Some(Severity::Critical)
        } else if ll > th.warning_lines || cx > th.warning_complexity {
            Some(Severity::Warning)
        } else {
            None
        };
        if let Some(severity) = sev {
            let name = match &f.name {
                Some(n) => n.clone(),
                None => to_string("<anonymous>"),
            };
            out.push(
                FunctionMetrics {
                    file_path: fs.file_path.clone(),
                    name,
                    start_line: f.start_line,
                    end_line: f.end_line,
                    logical_lines: ll,
                    complexity: cx,
                    severity,
                },
            );
        }
        proof {
            let t = fs@.functions.take(j + 1);
            assert(t.drop_last() =~= fs@.functions.take(j as int));
            assert(t.last() == fs.functions@[j as int]@);
            assert(metrics_view(out@) =~= before + function_metrics(
                fs@.file_path,
                fs.functions@[j as int]@,
                src@,
                *th,
            ));
        }
        j += 1;
    }
    assert(fs@.functions.take(j as int) =~= fs@.functions);
}

/// The functions of `symbols` over a warning threshold, ordered by file path
/// and then start line. `sources[i]` is the text of `symbols[i]`'s file, or
/// `None` where it could not be read (its functions are then passed over).
pub fn analyze_functions(
    symbols: &[FileSymbols],
    sources: &[Option<String>],
    thresholds: &Thresholds,
) -> (out: Vec<FunctionMetrics>)
    requires
        sources_fit(symbols@, sources@),
    ensures
        metrics_view(out@) == stable_sort(files_metrics(symbols@, sources@, *thresholds), metric_le()),
{
    let mut all: Vec<FunctionMetrics> = Vec::new();
    let mut i: usize = 0;
    while i < symbols.len()
        invariant
            i <= symbols@.len(),
            sources_fit(symbols@, sources@),
            metrics_view(all@) == files_metrics(symbols@.take(i as int), sources@, *thresholds),
        decreases symbols.len() - i,
    {
        assert(symbols@.take(i + 1).drop_last() =~= symbols@.take(i as int));
        assert(symbols@.take(i + 1).last() == symbols@[i as int]);
        if i < sources.len() {
            match &sources[i] {
                Some(src) => {
                    assert forall|j: int|
                        0 <= j < symbols[i as int].functions@.len() implies chars_range_ok(
                        src@,
                        (#[trigger] symbols[i as int].functions@[j]).start_byte as int,
                        symbols[i as int].functions@[j].end_byte as int,
                    ) by {
                        assert(source_of(sources@, i as int) == Some(src@));
                    }
                    file_function_metrics(&symbols[i], src.as_str(), thresholds, &mut all);
                },
                None => {},
            }
        }
        i += 1;
    }
    assert(symbols@.take(i as int) =~= symbols@);
    let ghost whole = all@;
    let out = sort_by_location(all);
    proof {
        let f = |m: FunctionMetrics| m@;
        assert forall|a: FunctionMetrics, b: FunctionMetrics| #[trigger] located_le::<
            FunctionMetrics,
        >()(a, b) == metric_le()(f(a), f(b)) by {}
        lemma_stable_sort_map(whole, located_le::<FunctionMetrics>(), f, metric_le());
        assert(metrics_view(whole) == whole.map_values(f));
        assert(metrics_view(out@) == out@.map_values(f));
    }
    out
}

/// The report line of one function:
/// `  [LABEL] path:line   name (N lines, complexity C)`.
pub open spec fn metric_line(m: FunctionMetricsView) -> Seq<char> {
    "  ["@ + match m.severity {
        Severity::Critical => "CRITICAL"@,
        Severity::Warning => "warning"@,
    } + "] "@ + m.file_path + ":"@ + decimal(m.start_line as nat) + "   "@ + m.name + " ("@
        + decimal(m.logical_lines as nat) + " lines, complexity "@ + decimal(m.complexity as nat)
        + ")\n"@
}

pub open spec fn metric_lines(ms: Seq<FunctionMetricsView>) -> Seq<char>
    decreases ms.len(),
{
    if ms.len() == 0 {
        Seq::empty()
    } else {
        metric_lines(ms.drop_last()) + metric_line(ms.last())
    }
}

/// The text report of a list of giant functions.
pub open spec fn metrics_report(ms: Seq<FunctionMetricsView>) -> Seq<char> {
    if ms.len() == 0 {
        "  No giant functions found.\n"@
    } else {
        "GIANT FUNCTIONS (split me)\n"@ + metric_lines(ms)
    }
}

fn render_metric(m: &FunctionMetrics) -> (out: String)
    ensures
        out@ == metric_line(m@),
{
    let mut out = to_string("  [");
    match m.severity {
        Severity::Critical => out.append("CRITICAL"),
        Severity::Warning => out.append("warning"),
    }
    out.append("] ");
    out.append(m.file_path.as_str());
    out.append(":");
    append_decimal(&mut out, m.start_line);
    out.append("   ");
    out.append(m.name.as_str());
    out.append(" (");
    append_decimal(&mut out, m.logical_lines);
    out.append(" lines, complexity ");
    append_decimal(&mut out, m.complexity);
    out.append(")\n");
    out
}

/// Renders giant functions as a text report, one line each.
pub fn format_report(metrics: &[FunctionMetrics]) -> (out: String)
    ensures
        out@ == metrics_report(metrics_view(metrics@)),
{
    if metrics.len() == 0 {
        return to_string("  No giant functions found.\n");
    }
    let mut out = to_string("GIANT FUNCTIONS (split me)\n");
    let ghost head = out@;
    let mut i: usize = 0;
    while i < metrics.len()
        invariant
            i <= metrics@.len(),
            out@ == head + metric_lines(metrics_view(metrics@.take(i as int))),
        decreases metrics.len() - i,
    {
        let line = render_metric(&metrics[i]);
        out.append(line.as_str());
        proof {
            let t = metrics_view(metrics@.take(i + 1));
            assert(t.drop_last() =~= metrics_view(metrics@.take(i as int)));
            assert(t.last() == metrics@[i as int]@);
        }
        i += 1;
    }
    assert(metrics@.take(i as int) =~= metrics@);
    out
}

/// How many metrics carry severity `sev`.
pub open spec fn severity_count(ms: Seq<FunctionMetricsView>, sev: Severity) -> nat
    decreases ms.len(),
{
    if ms.len() == 0 {
        0
    } else {
        severity_count(ms.drop_last(), sev) + if ms.last().severity == sev {
            1nat
        } else {
            0nat
        }
    }
}

/// Counts the metrics of severity `sev`.
pub fn count_severity(metrics: &[FunctionMetrics], sev: Severity) -> (n: usize)
    ensures
        n == severity_count(metrics_view(metrics@), sev),
        n <= metrics@.len(),
{
    let mut n: usize = 0;
    let mut i: usize = 0;
    while i < metrics.len()
        invariant
            i <= metrics@.len(),
            n <= i,
            n == severity_count(metrics_view(metrics@.take(i as int)), sev),
        decreases metrics.len() - i,
    {
        proof {
            let t = metrics_view(metrics@.take(i + 1));
            assert(t.drop_last() =~= metrics_view(metrics@.take(i as int)));
            assert(t.last() == metrics@[i as int]@);
        }
        if metrics[i].severity == sev {
            n += 1;
        }
        i += 1;
    }
    assert(metrics@.take(i as int) =~= metrics@);
    n
}

/// A function is reported exactly when its logical lines or its
/// complexity exceed a warning threshold, and it is reported critical
/// exactly when either exceeds a critical threshold (whatever the other
/// measure is); otherwise it is reported as a warning. The report carries
/// the function's name (or `<anonymous>`), its lines and its measures.
pub proof fn law_function_severity(path: Seq<char>, f: FunctionInfoView, src: Seq<char>, th: Thresholds)
    ensures
        ({
            let body = chars_in_range(src, f.start_byte as int, f.end_byte as int);
            let ll = logical_lines(body) as int;
            let cx = complexity_of(body) as int;
            let ms = function_metrics(path, f, src, th);
            &&& ms.len() <= 1
            &&& (ms.len() == 1 <==> (ll > th.warning_lines || cx > th.warning_complexity || ll
                > th.critical_lines || cx > th.critical_complexity))
            &&& (ll > th.critical_lines || cx > th.critical_complexity) ==> ms.len() == 1
                && ms[0].severity == Severity::Critical
            &&& (ms.len() == 1 && !(ll > th.critical_lines || cx > th.critical_complexity)) ==> ms[0].severity
                == Severity::Warning
            &&& ms.len() == 1 ==> {
                &&& ms[0].logical_lines == ll
                &&& ms[0].complexity == cx
                &&& ms[0].file_path == path
                &&& ms[0].start_line == f.start_line as int
                &&& ms[0].end_line == f.end_line as int
                &&& ms[0].name == (match f.name {
                    Some(n) => n,
                    None => "<anonymous>"@,
                })
            }
        }),
{
}

/// Every function of a file that earns a severity is among the file's
/// reported metrics, and the file reports no more entries than it has
/// functions.
pub proof fn law_functions_reported(path: Seq<char>, fs: Seq<FunctionInfoView>, src: Seq<char>, th: Thresholds)
    ensures
        functions_metrics(path, fs, src, th).len() <= fs.len(),
        forall|j: int|
            0 <= j < fs.len() && (#[trigger] function_metrics(path, fs[j], src, th)).len() == 1
                ==> functions_metrics(path, fs, src, th).contains(function_metrics(path, fs[j], src, th)[0]),
    decreases fs.len(),
{
    if fs.len() > 0 {
        let d = fs.drop_last();
        law_functions_reported(path, d, src, th);
        law_function_severity(path, fs.last(), src, th);
        let a = functions_metrics(path, d, src, th);
        let b = function_metrics(path, fs.last(), src, th);
        let all = functions_metrics(path, fs, src, th);
        assert(all == a + b);
        assert forall|j: int|
            0 <= j < fs.len() && (#[trigger] function_metrics(path, fs[j], src, th)).len() == 1
                implies all.contains(function_metrics(path, fs[j], src, th)[0]) by {
            if j < d.len() {
                assert(d[j] == fs[j]);
                let m = function_metrics(path, fs[j], src, th)[0];
                assert(a.contains(m));
                let i = choose|i: int| 0 <= i < a.len() && a[i] == m;
                assert(all[i] == m);
            } else {
                assert(fs[j] == fs.last());
                assert(all[a.len() as int] == b[0]);
            }
        }
    }
}

/// How many positions from `i` on start a decision point.
pub open spec fn decisions_at_from(s: Seq<char>, i: int) -> nat
    decreases s.len() - i,
{
    if i < 0 || i >= s.len() {
        0
    } else {
        (if decision_at(s, i) {
            1nat
        } else {
            0nat
        }) + decisions_at_from(s, i + 1)
    }
}

/// No character of `s` opens a string or a comment.
pub open spec fn plain_code(s: Seq<char>) -> bool {
    forall|k: int| 0 <= k < s.len() ==> #[trigger] s[k] != '"' && s[k] != '\'' && s[k] != '`' && s[k] != '/'
}

proof fn lemma_plain_decisions(s: Seq<char>, i: int)
    requires
        plain_code(s),
        0 <= i,
    ensures
        decisions_from(s, i, ScanMode::Code) == decisions_at_from(s, i),
    decreases s.len() - i,
{
    if i < s.len() {
        assert(s[i] != '"' && s[i] != '\'' && s[i] != '`' && s[i] != '/');
        lemma_plain_decisions(s, i + 1);
    }
}

/// In code with no strings or comments, complexity is one plus the number
/// of positions where a decision point starts; and the control-flow
/// keywords `if`, `for`, `while`, `catch` (followed by a space or `(`),
/// `do` (followed by a space or `{`) and `case` (followed by a space) are
/// decision points at the start of a word, as are `&&`, `||` and a `?`
/// not followed by `?` or `:`.
pub proof fn law_decision_points(s: Seq<char>, i: int)
    ensures
        plain_code(s) ==> complexity_of(s) == 1 + decisions_at_from(s, 0),
        (0 <= i && (i == 0 || (0 < i <= s.len() && !ident_char(s[i - 1])))) ==> {
            &&& (i + 3 <= s.len() && s[i] == 'i' && s[i + 1] == 'f' && (s[i + 2] == ' ' || s[i + 2] == '('))
                ==> decision_at(s, i)
            &&& (i + 4 <= s.len() && s[i] == 'f' && s[i + 1] == 'o' && s[i + 2] == 'r' && (s[i + 3] == ' '
                || s[i + 3] == '(')) ==> decision_at(s, i)
            &&& (i + 6 <= s.len() && s[i] == 'w' && s[i + 1] == 'h' && s[i + 2] == 'i' && s[i + 3] == 'l'
                && s[i + 4] == 'e' && (s[i + 5] == ' ' || s[i + 5] == '(')) ==> decision_at(s, i)
            &&& (i + 6 <= s.len() && s[i] == 'c' && s[i + 1] == 'a' && s[i + 2] == 't' && s[i + 3] == 'c'
                && s[i + 4] == 'h' && (s[i + 5] == ' ' || s[i + 5] == '(')) ==> decision_at(s, i)
            &&& (i + 3 <= s.len() && s[i] == 'd' && s[i + 1] == 'o' && (s[i + 2] == ' ' || s[i + 2] == '{'))
                ==> decision_at(s, i)
            &&& (i + 5 <= s.len() && s[i] == 'c' && s[i + 1] == 'a' && s[i + 2] == 's' && s[i + 3] == 'e'
                && s[i + 4] == ' ') ==> decision_at(s, i)
        },
        (0 <= i && i + 2 <= s.len() && ((s[i] == '&' && s[i + 1] == '&') || (s[i] == '|' && s[i + 1] == '|')))
            ==> decision_at(s, i),
        (0 <= i && i + 2 <= s.len() && s[i] == '?' && s[i + 1] != '?' && s[i + 1] != ':') ==> decision_at(s, i),
        (0 < i <= s.len() && ident_char(s[i - 1])) ==> (decision_at(s, i) ==> (s[i] == '&' || s[i] == '|' || s[i] == '?')),
{
    if plain_code(s) {
        lemma_plain_decisions(s, 0);
    }
    if 0 <= i && (i == 0 || (0 < i <= s.len() && !ident_char(s[i - 1]))) {
        if i + 3 <= s.len() && s[i] == 'i' && s[i + 1] == 'f' && (s[i + 2] == ' ' || s[i + 2] == '(') {
            if s[i + 2] == ' ' {
                assert(s.subrange(i, i + 3) =~= seq!['i', 'f', ' ']);
            } else {
                assert(s.subrange(i, i + 3) =~= seq!['i', 'f', '(']);
            }
        }
        if i + 4 <= s.len() && s[i] == 'f' && s[i + 1] == 'o' && s[i + 2] == 'r' && (s[i + 3] == ' ' || s[i + 3] == '(') {
            if s[i + 3] == ' ' {
                assert(s.subrange(i, i + 4) =~= seq!['f', 'o', 'r', ' ']);
            } else {
                assert(s.subrange(i, i + 4) =~= seq!['f', 'o', 'r', '(']);
            }
        }
        if i + 6 <= s.len() && s[i] == 'w' && s[i + 1] == 'h' && s[i + 2] == 'i' && s[i + 3] == 'l' && s[i + 4] == 'e'
            && (s[i + 5] == ' ' || s[i + 5] == '(') {
            if s[i + 5] == ' ' {
                assert(s.subrange(i, i + 6) =~= seq!['w', 'h', 'i', 'l', 'e', ' ']);
            } else {
                assert(s.subrange(i, i + 6) =~= seq!['w', 'h', 'i', 'l', 'e', '(']);
            }
        }
        if i + 6 <= s.len() && s[i] == 'c' && s[i + 1] == 'a' && s[i + 2] == 't' && s[i + 3] == 'c' && s[i + 4] == 'h'
            && (s[i + 5] == ' ' || s[i + 5] == '(') {
            if s[i + 5] == ' ' {
                assert(s.subrange(i, i + 6) =~= seq!['c', 'a', 't', 'c', 'h', ' ']);
            } else {
                assert(s.subrange(i, i + 6) =~= seq!['c', 'a', 't', 'c', 'h', '(']);
            }
        }
        if i + 3 <= s.len() && s[i] == 'd' && s[i + 1] == 'o' && (s[i + 2] == ' ' || s[i + 2] == '{') {
            if s[i + 2] == ' ' {
                assert(s.subrange(i, i + 3) =~= seq!['d', 'o', ' ']);
            } else {
                assert(s.subrange(i, i + 3) =~= seq!['d', 'o', '{']);
            }
        }
        if i + 5 <= s.len() && s[i] == 'c' && s[i + 1] == 'a' && s[i + 2] == 's' && s[i + 3] == 'e' && s[i + 4] == ' ' {
            assert(s.subrange(i, i + 5) =~= seq!['c', 'a', 's', 'e', ' ']);
        }
    }
    if 0 <= i && i + 2 <= s.len() && s[i] == '&' && s[i + 1] == '&' {
        assert(s.subrange(i, i + 2) =~= seq!['&', '&']);
    }
    if 0 <= i && i + 2 <= s.len() && s[i] == '|' && s[i + 1] == '|' {
        assert(s.subrange(i, i + 2) =~= seq!['|', '|']);
    }
}

} // verus!
