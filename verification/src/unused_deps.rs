//! Dependencies declared in `package.json` that nothing imports, and
//! packages imported that `package.json` does not declare.

use vstd::prelude::*;

use vstd::string::StringExecFns;

use crate::graph::DepGraph;
use crate::{findings_outcome, CommandResult};
use crate::paint::{all_tinted, paint, tinted, Tint};
use crate::parser::{strings_view, FileSymbols};
use crate::sort::{chars_le, lemma_chars_le_total, lemma_permutation_map, located_le, sort_by_location};
use crate::text::{
    chars_of, find, find_str_in, lemma_find, slice_to_vec, starts_with, str_eq, str_starts_with,
    string_from_chars, to_string,
};

verus! {

/// A package that is declared and never imported, or imported and never
/// declared.
#[derive(Debug, Clone)]
pub struct DependencyIssue {
    pub package: String,
    pub issue_type: DepIssueType,
}

/// Which of the two problems a package has.
#[derive(Debug, Clone, Copy, PartialEq, Eq, Structural)]
pub enum DepIssueType {
    Unused,
    Missing,
}

/// The unused and the missing dependencies of a project.
pub struct DependencyReport {
    pub unused: Vec<DependencyIssue>,
    pub missing: Vec<DependencyIssue>,
}

/// Node's built-in modules, which no `package.json` declares.
pub open spec fn is_node_builtin(p: Seq<char>) -> bool {
    p == "fs"@ || p == "path"@ || p == "os"@ || p == "http"@ || p == "https"@ || p == "stream"@
        || p == "util"@ || p == "crypto"@ || p == "child_process"@ || p == "events"@ || p
        == "buffer"@ || p == "url"@ || p == "querystring"@ || p == "assert"@ || p == "net"@ || p
        == "tls"@ || p == "dns"@ || p == "module"@ || p == "process"@ || p == "console"@ || p
        == "timers"@ || p == "string_decoder"@ || p == "readline"@ || p == "cluster"@ || p
        == "zlib"@ || p == "punycode"@ || p == "vm"@ || p == "perf_hooks"@ || p
        == "async_hooks"@ || p == "worker_threads"@ || p == "diagnostics_channel"@
}

fn node_builtin(p: &str) -> (b: bool)
    ensures
        b == is_node_builtin(p@),
{
    str_eq(p, "fs") || str_eq(p, "path") || str_eq(p, "os") || str_eq(p, "http") || str_eq(
        p,
        "https",
    ) || str_eq(p, "stream") || str_eq(p, "util") || str_eq(p, "crypto") || str_eq(
        p,
        "child_process",
    ) || str_eq(p, "events") || str_eq(p, "buffer") || str_eq(p, "url") || str_eq(
        p,
        "querystring",
    ) || str_eq(p, "assert") || str_eq(p, "net") || str_eq(p, "tls") || str_eq(p, "dns")
        || str_eq(p, "module") || str_eq(p, "process") || str_eq(p, "console") || str_eq(
        p,
        "timers",
    ) || str_eq(p, "string_decoder") || str_eq(p, "readline") || str_eq(p, "cluster") || str_eq(
        p,
        "zlib",
    ) || str_eq(p, "punycode") || str_eq(p, "vm") || str_eq(p, "perf_hooks") || str_eq(
        p,
        "async_hooks",
    ) || str_eq(p, "worker_threads") || str_eq(p, "diagnostics_channel")
}

/// The package part of a bare import path: `@scope/name` for a scoped
/// package (none without a `/`), else everything before the first `/`.
pub open spec fn package_part(s: Seq<char>) -> Option<Seq<char>> {
    if starts_with(s, "@"@) {
        match find(s, "/"@) {
            Some(p1) => match find(s.skip(p1 + 1), "/"@) {
                Some(p2) => Some(s.take(p1 + 1 + p2)),
                None => Some(s),
            },
            None => None,
        }
    } else {
        match find(s, "/"@) {
            Some(p) => Some(s.take(p)),
            None => Some(s),
        }
    }
}

/// The package an import path names: none for relative or absolute paths
/// and for Node's built-in modules.
pub open spec fn package_name(s: Seq<char>) -> Option<Seq<char>> {
    if starts_with(s, "."@) || starts_with(s, "/"@) {
        None
    } else {
        match package_part(s) {
            Some(p) => if is_node_builtin(p) {
                None
            } else {
                Some(p)
            },
            None => None,
        }
    }
}

fn prefix_string(s: &Vec<char>, k: usize) -> (r: String)
    requires
        k <= s.len(),
    ensures
        r@ == s@.take(k as int),
{
    let v = slice_to_vec(s, 0, k);
    assert(s@.subrange(0, k as int) =~= s@.take(k as int));
    string_from_chars(v.as_slice())
}

/// The package part of a bare import path (see `package_part`).
pub(crate) fn package_part_of(source: &str) -> (r: Option<String>)
    ensures
        match r {
            Some(p) => package_part(source@) == Some(p@),
            None => package_part(source@) is None,
        },
{
    let s = chars_of(source);
    let n = s.len();
    assert(s@.subrange(0, n as int) =~= s@);
    if str_starts_with(source, "@") {
        match find_str_in(&s, 0, n, "/") {
            Some(p1) => {
                proof {
                    lemma_find(s@, "/"@);
                    reveal_strlit("/");
                }
                let ghost rest = s@.skip(p1 + 1);
                assert(rest =~= s@.subrange(p1 + 1, n as int));
                match find_str_in(&s, p1 + 1, n, "/") {
                    Some(p2) => Some(prefix_string(&s, p1 + 1 + p2)),
                    None => {
                        assert(s@.take(n as int) =~= s@);
                        Some(prefix_string(&s, n))
                    },
                }
            },
            None => None,
        }
    } else {
        match find_str_in(&s, 0, n, "/") {
            Some(p) => Some(prefix_string(&s, p)),
            None => {
                assert(s@.take(n as int) =~= s@);
                Some(prefix_string(&s, n))
            },
        }
    }
}

/// The package that an import path names, if it names one that is not
/// built into Node.
pub fn extract_package_name(source: &str) -> (r: Option<String>)
    ensures
        match r {
            Some(p) => package_name(source@) == Some(p@),
            None => package_name(source@) is None,
        },
{
    if str_starts_with(source, ".") || str_starts_with(source, "/") {
        return None;
    }
    match package_part_of(source) {
        Some(pkg) => {
            if node_builtin(pkg.as_str()) {
                None
            } else {
                Some(pkg)
            }
        },
        None => None,
    }
}

/// The packages that the imports of `files` name.
pub open spec fn used_packages(files: Seq<FileSymbols>) -> Set<Seq<char>> {
    Set::new(
        |p: Seq<char>|
            exists|i: int, j: int|
                0 <= i < files.len() && 0 <= j < files[i].imports@.len() && package_name(
                    (#[trigger] files[i].imports@[j]).source@,
                ) == Some(p),
    )
}

pub open spec fn issue_names(v: Seq<DependencyIssue>) -> Seq<Seq<char>> {
    v.map_values(|d: DependencyIssue| d.package@)
}

/// In increasing order, without repeats.
pub open spec fn strictly_sorted(s: Seq<Seq<char>>) -> bool {
    s.no_duplicates() && forall|i: int, j: int| 0 <= i < j < s.len() ==> chars_le(s[i], s[j])
}

/// `out` lists the set `target`, in increasing order, each issue of kind `t`.
pub open spec fn lists_sorted(out: Seq<DependencyIssue>, target: Set<Seq<char>>, t: DepIssueType) -> bool {
    &&& issue_names(out).to_set() == target
    &&& strictly_sorted(issue_names(out))
    &&& forall|i: int| 0 <= i < out.len() ==> (#[trigger] out[i]).issue_type == t
}

proof fn lemma_push_contains(s: Seq<Seq<char>>, x: Seq<char>)
    ensures
        forall|q: Seq<char>| s.push(x).contains(q) <==> (s.contains(q) || q == x),
{
    assert forall|q: Seq<char>| s.push(x).contains(q) <==> (s.contains(q) || q == x) by {
        if s.contains(q) {
            let k = choose|k: int| 0 <= k < s.len() && s[k] == q;
            assert(s.push(x)[k] == q);
        }
        if q == x {
            assert(s.push(x)[s.len() as int] == q);
        }
        if s.push(x).contains(q) && q != x {
            let k = choose|k: int| 0 <= k < s.len() + 1 && s.push(x)[k] == q;
            assert(s[k] == q);
        }
    }
}

fn holds_name(v: &Vec<String>, p: &str) -> (b: bool)
    ensures
        b == strings_view(v@).contains(p@),
{
    let mut i: usize = 0;
    while i < v.len()
        invariant
            i <= v@.len(),
            forall|j: int| 0 <= j < i ==> v@[j]@ != p@,
        decreases v.len() - i,
    {
        if str_eq(v[i].as_str(), p) {
            assert(strings_view(v@)[i as int] == p@);
            return true;
        }
        i += 1;
    }
    false
}

/// The distinct packages named by the imports of `files`, in the order first
/// seen.
fn collect_used(files: &Vec<FileSymbols>) -> (used: Vec<String>)
    ensures
        strings_view(used@).to_set() == used_packages(files@),
        strings_view(used@).no_duplicates(),
{
    let mut used: Vec<String> = Vec::new();
    let mut i: usize = 0;
    while i < files.len()
        invariant
            i <= files@.len(),
            strings_view(used@).no_duplicates(),
            forall|p: Seq<char>|
                strings_view(used@).contains(p) <==> exists|a: int, b: int|
                    0 <= a < i && 0 <= b < files@[a].imports@.len() && package_name(
                        (#[trigger] files@[a].imports@[b]).source@,
                    ) == Some(p),
        decreases files.len() - i,
    {
        let imports = &files[i].imports;
        let mut j: usize = 0;
        while j < imports.len()
            invariant
                i < files@.len(),
                imports@ == files@[i as int].imports@,
                j <= imports@.len(),
                strings_view(used@).no_duplicates(),
                forall|p: Seq<char>|
                    strings_view(used@).contains(p) <==> exists|a: int, b: int|
                        ((0 <= a < i && 0 <= b < files@[a].imports@.len()) || (a == i && 0 <= b
                            < j)) && package_name((#[trigger] files@[a].imports@[b]).source@)
                            == Some(p),
            decreases imports.len() - j,
        {
            let ghost before = strings_view(used@);
            let pkg = extract_package_name(imports[j].source.as_str());
            let ghost pk: Option<Seq<char>> = match &pkg {
                Some(x) => Some(x@),
                None => None,
            };
            assert(pk == package_name(files@[i as int].imports@[j as int].source@));
            match pkg {
                Some(p) => {
                    if !holds_name(&used, p.as_str()) {
                        used.push(p);
                        assert(strings_view(used@) =~= before.push(pk->0));
                        proof {
                            lemma_push_contains(before, pk->0);
                        }
                    }
                },
                None => {},
            }
            assert(pk is Some ==> strings_view(used@).contains(pk->0));
            assert(forall|q: Seq<char>|
                strings_view(used@).contains(q) ==> before.contains(q) || pk == Some(q));
            assert(forall|q: Seq<char>| before.contains(q) ==> strings_view(used@).contains(q));
            proof {
                assert forall|p: Seq<char>|
                    strings_view(used@).contains(p) <==> exists|a: int, b: int|
                        ((0 <= a < i && 0 <= b < files@[a].imports@.len()) || (a == i && 0 <= b
                            < j + 1)) && package_name((#[trigger] files@[a].imports@[b]).source@)
                            == Some(p) by {
                    if strings_view(used@).contains(p) {
                        if before.contains(p) {
                            let (a, b) = choose|a: int, b: int|
                                ((0 <= a < i && 0 <= b < files@[a].imports@.len()) || (a == i && 0
                                    <= b < j)) && package_name(
                                    (#[trigger] files@[a].imports@[b]).source@,
                                ) == Some(p);
                            assert(package_name(files@[a].imports@[b].source@) == Some(p));
                        } else {
                            assert(package_name(files@[i as int].imports@[j as int].source@)
                                == Some(p));
                        }
                    }
                    if exists|a: int, b: int|
                        ((0 <= a < i && 0 <= b < files@[a].imports@.len()) || (a == i && 0 <= b
                            < j + 1)) && package_name((#[trigger] files@[a].imports@[b]).source@)
                            == Some(p) {
                        let (a, b) = choose|a: int, b: int|
                            ((0 <= a < i && 0 <= b < files@[a].imports@.len()) || (a == i && 0
                                <= b < j + 1)) && package_name(
                                (#[trigger] files@[a].imports@[b]).source@,
                            ) == Some(p);
                        if a == i && b == j {
                            assert(pk == Some(p));
                        } else {
                            assert(package_name(files@[a].imports@[b].source@) == Some(p));
                            assert(before.contains(p));
                        }
                    }
                }
            }
            j += 1;
        }
        i += 1;
    }
    assert(strings_view(used@).to_set() =~= used_packages(files@));
    used
}

/// The distinct names of `names` outside `used` and `other`, in the order
/// first seen.
fn names_outside(names: &[String], used: &Vec<String>, other: &[String]) -> (out: Vec<String>)
    ensures
        strings_view(out@).to_set() == strings_view(names@).to_set().difference(
            strings_view(used@).to_set(),
        ).difference(strings_view(other@).to_set()),
        strings_view(out@).no_duplicates(),
{
    let other_v = slice_vec(other);
    let mut out: Vec<String> = Vec::new();
    let mut i: usize = 0;
    while i < names.len()
        invariant
            i <= names@.len(),
            other_v@ == other@,
            strings_view(out@).no_duplicates(),
            forall|p: Seq<char>|
                strings_view(out@).contains(p) <==> (strings_view(names@.take(i as int)).contains(p)
                    && !strings_view(used@).contains(p) && !strings_view(other@).contains(p)),
        decreases names.len() - i,
    {
        let ghost before = strings_view(out@);
        let nm = names[i].as_str();
        let fresh = !holds_name(used, nm) && !holds_name(&other_v, nm) && !holds_name(&out, nm);
        if fresh {
            out.push(names[i].clone());
            assert(strings_view(out@) =~= before.push(nm@));
            proof {
                lemma_push_contains(before, nm@);
            }
        }
        proof {
            let t = strings_view(names@.take(i + 1));
            assert(t =~= strings_view(names@.take(i as int)).push(nm@));
            assert(forall|q: Seq<char>|
                strings_view(out@).contains(q) ==> before.contains(q) || (fresh && q == nm@));
            assert(forall|q: Seq<char>| before.contains(q) ==> strings_view(out@).contains(q));
            assert forall|p: Seq<char>|
                strings_view(out@).contains(p) <==> (t.contains(p) && !strings_view(
                    used@,
                ).contains(p) && !strings_view(other@).contains(p)) by {
                lemma_push_contains(strings_view(names@.take(i as int)), nm@);
                assert(strings_view(other_v@) == strings_view(other@));
                if p != nm@ {
                    assert(strings_view(out@).contains(p) == before.contains(p));
                    assert(t.contains(p) == strings_view(names@.take(i as int)).contains(p));
                } else if fresh {
                    assert(strings_view(out@).contains(p));
                } else {
                    assert(strings_view(out@).contains(p) == before.contains(p));
                }
            }
        }
        i += 1;
    }
    assert(names@.take(i as int) =~= names@);
    assert(strings_view(out@).to_set() =~= strings_view(names@).to_set().difference(
        strings_view(used@).to_set(),
    ).difference(strings_view(other@).to_set()));
    out
}

fn slice_vec(v: &[String]) -> (out: Vec<String>)
    ensures
        out@ == v@,
{
    let mut out: Vec<String> = Vec::new();
    let mut i: usize = 0;
    while i < v.len()
        invariant
            i <= v@.len(),
            out@ == v@.take(i as int),
        decreases v.len() - i,
    {
        out.push(v[i].clone());
        assert(out@ =~= v@.take(i + 1));
        i += 1;
    }
    assert(v@.take(i as int) =~= v@);
    out
}

/// Sorts distinct names and makes each an issue of kind `t`.
fn sorted_issues(names: Vec<String>, t: DepIssueType) -> (out: Vec<DependencyIssue>)
    requires
        strings_view(names@).no_duplicates(),
    ensures
        lists_sorted(out@, strings_view(names@).to_set(), t),
{
    let ghost before = names@;
    let sorted = sort_by_location(names);
    proof {
        lemma_permutation_map(before, sorted@, |s: String| s@);
        assert(strings_view(before) == before.map_values(|s: String| s@));
        assert(strings_view(sorted@) == sorted@.map_values(|s: String| s@));
    }
    let mut out: Vec<DependencyIssue> = Vec::new();
    let mut i: usize = 0;
    while i < sorted.len()
        invariant
            i <= sorted@.len(),
            issue_names(out@) == strings_view(sorted@.take(i as int)),
            forall|k: int| 0 <= k < out@.len() ==> (#[trigger] out@[k]).issue_type == t,
        decreases sorted.len() - i,
    {
        let ghost old_out = out@;
        out.push(DependencyIssue { package: sorted[i].clone(), issue_type: t });
        assert(issue_names(out@) =~= issue_names(old_out).push(sorted@[i as int]@));
        assert(strings_view(sorted@.take(i + 1)) =~= strings_view(sorted@.take(i as int)).push(
            sorted@[i as int]@,
        ));
        i += 1;
    }
    assert(sorted@.take(i as int) =~= sorted@);
    proof {
        let s = strings_view(sorted@);
        assert forall|a: int, b: int| 0 <= a < b < s.len() implies chars_le(s[a], s[b]) by {
            assert(located_le::<String>()(sorted@[a], sorted@[b]));
            lemma_chars_le_total(s[a], s[a]);
        }
    }
    out
}

/// The names of a list of strings, as a set.
pub open spec fn names_set(v: Seq<String>) -> Set<Seq<char>> {
    strings_view(v).to_set()
}

/// Compares the packages imported by the files of `graph` with those that
/// `package.json` declares under `dependencies` (`declared`) and
/// `devDependencies` (`dev_declared`). With nothing declared there is nothing
/// to report. Otherwise the unused packages are those declared and never
/// imported, the missing ones those imported and declared in neither list;
/// each list is in increasing order without repeats.
pub fn find_unused_dependencies(
    graph: &DepGraph,
    declared: &[String],
    dev_declared: &[String],
) -> (r: DependencyReport)
    ensures
        declared@.len() == 0 && dev_declared@.len() == 0 ==> r.unused@.len() == 0
            && r.missing@.len() == 0,
        !(declared@.len() == 0 && dev_declared@.len() == 0) ==> {
            &&& lists_sorted(
                r.unused@,
                names_set(declared@).difference(used_packages(graph.all_symbols@)),
                DepIssueType::Unused,
            )
            &&& lists_sorted(
                r.missing@,
                used_packages(graph.all_symbols@).difference(names_set(declared@)).difference(
                    names_set(dev_declared@),
                ),
                DepIssueType::Missing,
            )
        },
{
    if declared.len() == 0 && dev_declared.len() == 0 {
        return DependencyReport { unused: Vec::new(), missing: Vec::new() };
    }
    let used = collect_used(&graph.all_symbols);
    let none: Vec<String> = Vec::new();
    let unused_names = names_outside(declared, &used, none.as_slice());
    assert(strings_view(none@).to_set() =~= Set::empty());
    assert(strings_view(unused_names@).to_set() =~= names_set(declared@).difference(
        used_packages(graph.all_symbols@),
    ));
    let declared_v = slice_vec(declared);
    let missing_names = names_outside(used.as_slice(), &declared_v, dev_declared);
    assert(strings_view(missing_names@).to_set() =~= used_packages(graph.all_symbols@).difference(
        names_set(declared@),
    ).difference(names_set(dev_declared@)));
    let unused = sorted_issues(unused_names, DepIssueType::Unused);
    let missing = sorted_issues(missing_names, DepIssueType::Missing);
    DependencyReport { unused, missing }
}

/// The lines `  name<suffix>`, one per name.
pub open spec fn name_lines(names: Seq<Seq<char>>, suffix: Seq<char>) -> Seq<char>
    decreases names.len(),
{
    if names.len() == 0 {
        Seq::empty()
    } else {
        name_lines(names.drop_last(), suffix) + "  "@ + names.last() + suffix
    }
}

/// The dependency report, given its painted headings and painted package
/// names.
pub open spec fn deps_text(
    unused_head: Seq<char>,
    unused_names: Seq<Seq<char>>,
    missing_head: Seq<char>,
    missing_names: Seq<Seq<char>>,
) -> Seq<char> {
    if unused_names.len() == 0 && missing_names.len() == 0 {
        "  No dependency issues found.\n"@
    } else {
        (if unused_names.len() > 0 {
            unused_head + "\n"@ + name_lines(
                unused_names,
                " — in package.json but never imported\n"@,
            ) + "\n"@
        } else {
            Seq::empty()
        }) + (if missing_names.len() > 0 {
            missing_head + "\n"@ + name_lines(missing_names, " — imported but not in package.json\n"@)
                + "\n"@
        } else {
            Seq::empty()
        })
    }
}

/// `out` is the text report of `report`, its headings and package names
/// painted.
pub open spec fn deps_report_of(out: Seq<char>, report: DependencyReport) -> bool {
    exists|uh: Seq<char>, un: Seq<Seq<char>>, mh: Seq<char>, mn: Seq<Seq<char>>|
        tinted(uh, Tint::Yellow, "UNUSED DEPENDENCIES"@) && all_tinted(un, Tint::Yellow, issue_names(report.unused@))
            && tinted(mh, Tint::Red, "MISSING DEPENDENCIES"@) && all_tinted(mn, Tint::Red, issue_names(report.missing@))
            && out == deps_text(uh, un, mh, mn)
}

/// Appends `  name<suffix>` for each issue, its name painted with `t`, and
/// gives back the painted names.
fn append_issue_lines(
    out: &mut String,
    issues: &Vec<DependencyIssue>,
    t: Tint,
    suffix: &str,
) -> (painted: Ghost<Seq<Seq<char>>>)
    ensures
        all_tinted(painted@, t, issue_names(issues@)),
        final(out)@ == old(out)@ + name_lines(painted@, suffix@),
{
    let ghost start = out@;
    let ghost mut ps: Seq<Seq<char>> = Seq::empty();
    let mut i: usize = 0;
    while i < issues.len()
        invariant
            i <= issues@.len(),
            ps.len() == i,
            forall|k: int| 0 <= k < i ==> tinted(#[trigger] ps[k], t, issues@[k].package@),
            out@ == start + name_lines(ps, suffix@),
        decreases issues.len() - i,
    {
        let name = paint(t, issues[i].package.as_str());
        out.append("  ");
        out.append(name.as_str());
        out.append(suffix);
        proof {
            let old_ps = ps;
            ps = ps.push(name@);
            assert(ps.drop_last() =~= old_ps);
        }
        i += 1;
    }
    Ghost(ps)
}

/// Renders the dependency report: a yellow heading and a line per unused
/// package, then a red heading and a line per missing package.
pub fn format_report(report: &DependencyReport) -> (out: String)
    ensures
        deps_report_of(out@, *report),
{
    let uh = paint(Tint::Yellow, "UNUSED DEPENDENCIES");
    let mh = paint(Tint::Red, "MISSING DEPENDENCIES");
    if report.unused.len() == 0 && report.missing.len() == 0 {
        let out = to_string("  No dependency issues found.\n");
        assert(out@ == deps_text(uh@, Seq::empty(), mh@, Seq::empty()));
        return out;
    }
    let mut out = String::new();
    let ghost mut un: Seq<Seq<char>> = Seq::empty();
    let ghost mut mn: Seq<Seq<char>> = Seq::empty();
    if report.unused.len() > 0 {
        out.append(uh.as_str());
        out.append("\n");
        let g = append_issue_lines(
            &mut out,
            &report.unused,
            Tint::Yellow,
            " — in package.json but never imported\n",
        );
        proof {
            un = g@;
        }
        out.append("\n");
    }
    if report.missing.len() > 0 {
        out.append(mh.as_str());
        out.append("\n");
        let g = append_issue_lines(
            &mut out,
            &report.missing,
            Tint::Red,
            " — imported but not in package.json\n",
        );
        proof {
            mn = g@;
        }
        out.append("\n");
    }
    assert(out@ =~= deps_text(uh@, un, mh@, mn));
    out
}

impl DependencyReport {
    /// Whether any package is unused or missing.
    pub fn has_issues(&self) -> (b: bool)
        ensures
            b == (self.unused@.len() > 0 || self.missing@.len() > 0),
    {
        self.unused.len() > 0 || self.missing.len() > 0
    }
}

/// The dependency command on a computed report: its text report, with
/// status 1 and score 0 when there is any issue.
pub fn run_deps(report: &DependencyReport) -> (r: CommandResult)
    ensures
        deps_report_of(r.output@, *report),
        r.exit_code == if report.unused@.len() > 0 || report.missing@.len() > 0 {
            1i32
        } else {
            0i32
        },
        r.score == if report.unused@.len() > 0 || report.missing@.len() > 0 {
            0usize
        } else {
            100usize
        },
{
    let output = format_report(report);
    findings_outcome(output, report.has_issues())
}

/// No package is reported both unused and missing. The unused packages
/// are exactly those declared and never imported, the missing ones exactly
/// those imported and declared in neither list, each named once.
pub proof fn law_unused_and_missing_apart(
    files: Seq<FileSymbols>,
    declared: Seq<String>,
    dev_declared: Seq<String>,
    unused: Seq<DependencyIssue>,
    missing: Seq<DependencyIssue>,
)
    requires
        lists_sorted(unused, names_set(declared).difference(used_packages(files)), DepIssueType::Unused),
        lists_sorted(
            missing,
            used_packages(files).difference(names_set(declared)).difference(names_set(dev_declared)),
            DepIssueType::Missing,
        ),
    ensures
        forall|i: int, j: int|
            0 <= i < unused.len() && 0 <= j < missing.len() ==> (#[trigger] unused[i]).package@ != (#[trigger] missing[j]).package@,
        forall|i: int| 0 <= i < unused.len() ==> !used_packages(files).contains((#[trigger] unused[i]).package@),
        forall|j: int| 0 <= j < missing.len() ==> !names_set(declared).contains((#[trigger] missing[j]).package@),
        forall|i: int| 0 <= i < unused.len() ==> names_set(declared).contains((#[trigger] unused[i]).package@),
        forall|j: int|
            0 <= j < missing.len() ==> used_packages(files).contains((#[trigger] missing[j]).package@)
                && !names_set(dev_declared).contains(missing[j].package@),
        forall|p: Seq<char>|
            names_set(declared).contains(p) && !used_packages(files).contains(p) ==> #[trigger] issue_names(
                unused,
            ).contains(p),
        forall|p: Seq<char>|
            used_packages(files).contains(p) && !names_set(declared).contains(p) && !names_set(
                dev_declared,
            ).contains(p) ==> #[trigger] issue_names(missing).contains(p),
        issue_names(unused).no_duplicates(),
        issue_names(missing).no_duplicates(),
{
    assert forall|i: int| 0 <= i < unused.len() implies names_set(declared).contains((#[trigger] unused[i]).package@) by {
        assert(issue_names(unused)[i] == unused[i].package@);
        assert(issue_names(unused).to_set().contains(unused[i].package@));
    }
    assert forall|j: int|
        0 <= j < missing.len() implies used_packages(files).contains((#[trigger] missing[j]).package@)
            && !names_set(dev_declared).contains(missing[j].package@) by {
        assert(issue_names(missing)[j] == missing[j].package@);
        assert(issue_names(missing).to_set().contains(missing[j].package@));
    }
    assert forall|p: Seq<char>|
        names_set(declared).contains(p) && !used_packages(files).contains(p) implies #[trigger] issue_names(
            unused,
        ).contains(p) by {
        assert(issue_names(unused).to_set().contains(p));
    }
    assert forall|p: Seq<char>|
        used_packages(files).contains(p) && !names_set(declared).contains(p) && !names_set(
            dev_declared,
        ).contains(p) implies #[trigger] issue_names(missing).contains(p) by {
        assert(issue_names(missing).to_set().contains(p));
    }
    assert forall|i: int| 0 <= i < unused.len() implies !used_packages(files).contains((#[trigger] unused[i]).package@) by {
        assert(issue_names(unused)[i] == unused[i].package@);
        assert(issue_names(unused).to_set().contains(unused[i].package@));
    }
    assert forall|j: int| 0 <= j < missing.len() implies !names_set(declared).contains((#[trigger] missing[j]).package@) by {
        assert(issue_names(missing)[j] == missing[j].package@);
        assert(issue_names(missing).to_set().contains(missing[j].package@));
    }
    assert forall|i: int, j: int|
        0 <= i < unused.len() && 0 <= j < missing.len() implies (#[trigger] unused[i]).package@ != (#[trigger] missing[j]).package@ by {
        assert(issue_names(unused)[i] == unused[i].package@);
        assert(issue_names(unused).to_set().contains(unused[i].package@));
        assert(issue_names(missing)[j] == missing[j].package@);
        assert(issue_names(missing).to_set().contains(missing[j].package@));
    }
}

/// An import names a package only when it is bare (not relative, not
/// absolute), and never a Node built-in: an import whose package part is a
/// built-in (`fs/promises`, `path`) names no package. The package named is
/// the import's package part, a prefix of the import path.
pub proof fn law_package_name(s: Seq<char>)
    ensures
        package_name(s) matches Some(p) ==> {
            &&& !is_node_builtin(p)
            &&& package_part(s) == Some(p)
            &&& !starts_with(s, "."@)
            &&& !starts_with(s, "/"@)
        },
        (package_part(s) matches Some(p) && is_node_builtin(p)) ==> package_name(s) is None,
        (starts_with(s, "."@) || starts_with(s, "/"@)) ==> package_name(s) is None,
        (!starts_with(s, "."@) && !starts_with(s, "/"@)) ==> (package_part(s) matches Some(p)
            ==> (!is_node_builtin(p) ==> package_name(s) == Some(p))),
{
}

/// What no package report can hold: a package named by an import is never a
/// Node built-in, so the used packages hold no built-in.
pub proof fn law_no_builtin_used(files: Seq<FileSymbols>, p: Seq<char>)
    requires
        used_packages(files).contains(p),
    ensures
        !is_node_builtin(p),
{
    let (i, j) = choose|i: int, j: int|
        0 <= i < files.len() && 0 <= j < files[i].imports@.len() && package_name(
            (#[trigger] files[i].imports@[j]).source@,
        ) == Some(p);
    law_package_name(files[i].imports@[j].source@);
}

} // verus!
