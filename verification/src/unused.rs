//! Unused exports: exports that no entry point reaches, less those marked
//! `delve:used` on the line above, and their text report.

use vstd::prelude::*;
use vstd::string::StringExecFns;

use crate::graph::{
    entry_pairs, export_le, holds_pair, import_pairs, is_entry, pairs_view, reachable_set, unreached_exports, unreached_in,
    DepGraph,
};
use crate::parser::{Export, ExportKind, ExportView, FileSymbols};
use crate::sort::{
    lemma_location_le_total, lemma_location_le_transitive, lemma_stable_sort_map, lemma_stable_sort_permutes,
    lemma_stable_sort_sorted, located_le,
    location_le, sort_by_location, stable_sort, Located,
};
use crate::text::{
    append_decimal, chars_of, contains, contains_str_in, decimal, lemma_lines_from, line_end,
    lines_scan, split_lines, to_string, trim, trim_bounds,
};

verus! {

/// An export that nothing reachable imports.
#[derive(Debug, Clone)]
pub struct UnusedItem {
    pub file_path: String,
    pub symbol: String,
    pub line: usize,
    pub kind: String,
}

pub struct UnusedItemView {
    pub file_path: Seq<char>,
    pub symbol: Seq<char>,
    pub line: int,
    pub kind: Seq<char>,
}

impl View for UnusedItem {
    type V = UnusedItemView;

    open spec fn view(&self) -> UnusedItemView {
        UnusedItemView {
            file_path: self.file_path@,
            symbol: self.symbol@,
            line: self.line as int,
            kind: self.kind@,
        }
    }
}

impl Located for UnusedItem {
    open spec fn loc_path(&self) -> Seq<char> {
        self.file_path@
    }

    open spec fn loc_line(&self) -> int {
        self.line as int
    }

    fn location(&self) -> (r: (&str, usize)) {
        (self.file_path.as_str(), self.line)
    }
}

pub open spec fn unused_view(items: Seq<UnusedItem>) -> Seq<UnusedItemView> {
    items.map_values(|u: UnusedItem| u@)
}

/// The word a report uses for each kind of export.
pub open spec fn kind_word(kind: ExportKind) -> Seq<char> {
    match kind {
        ExportKind::Function => "function"@,
        ExportKind::Const => "const"@,
        ExportKind::Class => "class"@,
        ExportKind::Interface => "interface"@,
        ExportKind::Type => "type"@,
        ExportKind::Default => "default"@,
        ExportKind::Named => "named"@,
    }
}

/// The word a report uses for an export kind.
pub fn export_kind_string(kind: &ExportKind) -> (s: String)
    ensures
        s@ == kind_word(*kind),
{
    match kind {
        ExportKind::Function => to_string("function"),
        ExportKind::Const => to_string("const"),
        ExportKind::Class => to_string("class"),
        ExportKind::Interface => to_string("interface"),
        ExportKind::Type => to_string("type"),
        ExportKind::Default => to_string("default"),
        ExportKind::Named => to_string("named"),
    }
}

/// The line at index `idx` of `s`, if there is one.
pub open spec fn line_at(s: Seq<char>, idx: int) -> Option<Seq<char>> {
    if 0 <= idx < split_lines(s).len() {
        Some(split_lines(s)[idx])
    } else {
        None
    }
}

/// Whether the export at line `line` (counted from 1) of `source` is
/// marked used: the line above it, at index `line - 2`, holds
/// `/* delve:used */` or `// delve:used` once trimmed. An export on the
/// first line has no line above it and is never marked.
pub open spec fn marked_used(source: Seq<char>, line: int) -> bool {
    line > 1 && match line_at(source, line - 2) {
        Some(l) => contains(trim(l), "/* delve:used */"@) || contains(trim(l), "// delve:used"@),
        None => false,
    }
}

/// Whether the export at line `line` of a file whose text is `source` is
/// marked `delve:used` on the line above it.
pub fn has_delve_used_comment(source: &str, line: usize) -> (b: bool)
    ensures
        b == marked_used(source@, line as int),
{
    if line < 2 {
        return false;
    }
    let idx: usize = line - 2;
    let s = chars_of(source);
    let n = s.len();
    let ghost all = split_lines(s@);
    let mut pos: usize = 0;
    let mut count: usize = 0;
    assert(all.skip(0) =~= all);
    loop
        invariant
            n == s.len(),
            s@ == source@,
            all == split_lines(s@),
            pos <= n,
            line > 1,
            idx == line - 2,
            count <= idx,
            count <= all.len(),
            lines_scan(s@, pos as int, pos as int) == all.skip(count as int),
        decreases n - pos,
    {
        let k = line_end(&s, pos);
        proof {
            lemma_lines_from(s@, pos as int, k as int);
            assert(all.skip(count as int).len() >= 1);
            assert(all.skip(count as int)[0] == s@.subrange(pos as int, k as int));
        }
        if count == idx {
            let (a, b) = trim_bounds(&s, pos, k);
            assert(line_at(s@, idx as int) == Some(s@.subrange(pos as int, k as int)));
            return contains_str_in(&s, a, b, "/* delve:used */") || contains_str_in(
                &s,
                a,
                b,
                "// delve:used",
            );
        }
        if k == n {
            proof {
                assert(all.skip(count as int).len() == 1);
                assert(line_at(s@, idx as int) is None);
            }
            return false;
        }
        assert(all.skip(count + 1) =~= all.skip(count as int).drop_first());
        assert(all.skip(count + 1) =~= lines_scan(s@, k + 1, k + 1));
        pos = k + 1;
        count += 1;
    }
}

/// The report line of one unused export:
/// `  path:line   symbol (exported kind, never imported)`.
pub open spec fn unused_line(u: UnusedItemView) -> Seq<char> {
    "  "@ + u.file_path + ":"@ + decimal(u.line as nat) + "   "@ + u.symbol + " (exported "@
        + u.kind + ", never imported)\n"@
}

pub open spec fn unused_lines(us: Seq<UnusedItemView>) -> Seq<char>
    decreases us.len(),
{
    if us.len() == 0 {
        Seq::empty()
    } else {
        unused_lines(us.drop_last()) + unused_line(us.last())
    }
}

/// The text report of a list of unused exports.
pub open spec fn unused_report(us: Seq<UnusedItemView>) -> Seq<char> {
    if us.len() == 0 {
        "  No unused exports found.\n"@
    } else {
        "UNUSED CODE (safe to delete)\n"@ + unused_lines(us)
    }
}

fn render_unused(u: &UnusedItem) -> (out: String)
    ensures
        out@ == unused_line(u@),
{
    let mut out = to_string("  ");
    out.append(u.file_path.as_str());
    out.append(":");
    append_decimal(&mut out, u.line);
    out.append("   ");
    out.append(u.symbol.as_str());
    out.append(" (exported ");
    out.append(u.kind.as_str());
    out.append(", never imported)\n");
    out
}

/// Renders unused exports as a text report, one line each.
pub fn format_unused_report(items: &[UnusedItem]) -> (out: String)
    ensures
        out@ == unused_report(unused_view(items@)),
{
    if items.len() == 0 {
        return to_string("  No unused exports found.\n");
    }
    let mut out = to_string("UNUSED CODE (safe to delete)\n");
    let ghost head = out@;
    let mut i: usize = 0;
    while i < items.len()
        invariant
            i <= items@.len(),
            out@ == head + unused_lines(unused_view(items@.take(i as int))),
        decreases items.len() - i,
    {
        let line = render_unused(&items[i]);
        out.append(line.as_str());
        proof {
            let t = unused_view(items@.take(i + 1));
            assert(t.drop_last() =~= unused_view(items@.take(i as int)));
            assert(t.last() == items@[i as int]@);
        }
        i += 1;
    }
    assert(items@.take(i as int) =~= items@);
    out
}

/// The unused exports among `exps` of the file at `path` whose text is
/// `src`: those whose `(path, name)` is not in `reach` and that are not
/// marked `delve:used`, in order.
pub open spec fn unused_in(
    path: Seq<char>,
    exps: Seq<Export>,
    reach: Seq<(Seq<char>, Seq<char>)>,
    src: Option<String>,
) -> Seq<UnusedItemView>
    decreases exps.len(),
{
    if exps.len() == 0 {
        Seq::empty()
    } else {
        let rest = unused_in(path, exps.drop_last(), reach, src);
        let e = exps.last();
        if reach.contains((path, e.name@)) || (src matches Some(s) && marked_used(s@, e.start_line as int)) {
            rest
        } else {
            rest.push(UnusedItemView { file_path: path, symbol: e.name@, line: e.start_line as int, kind: kind_word(e.kind) })
        }
    }
}

/// The unused exports of all `files`, file by file; `sources[i]` is the
/// text of file `i`, if it could be read.
pub open spec fn unused_items(
    files: Seq<FileSymbols>,
    reach: Seq<(Seq<char>, Seq<char>)>,
    sources: Seq<Option<String>>,
) -> Seq<UnusedItemView>
    decreases files.len(),
{
    if files.len() == 0 {
        Seq::empty()
    } else {
        unused_items(files.drop_last(), reach, sources) + unused_in(
            files.last().file_path@,
            files.last().exports@,
            reach,
            sources[files.len() - 1],
        )
    }
}

/// The order of unused exports in a report: by path, then line.
pub open spec fn unused_le() -> spec_fn(UnusedItemView, UnusedItemView) -> bool {
    |a: UnusedItemView, b: UnusedItemView| location_le(a.file_path, a.line, b.file_path, b.line)
}

/// The exports of the graph that no entry point reaches and that are not
/// marked `delve:used` on the line above, ordered by path and then line.
/// `sources[i]` is the text of `graph.all_symbols[i]`, `None` where it
/// could not be read (such an export counts as unmarked).
pub fn find_unused(graph: &DepGraph, sources: &[Option<String>]) -> (r: Vec<UnusedItem>)
    requires
        sources@.len() == graph.all_symbols@.len(),
    ensures
        unused_view(r@) == stable_sort(
            unused_items(graph.all_symbols@, pairs_view(graph.reachable_exports@), sources@),
            unused_le(),
        ),
{
    let ghost files = graph.all_symbols@;
    let ghost reach = pairs_view(graph.reachable_exports@);
    let mut all: Vec<UnusedItem> = Vec::new();
    let mut i: usize = 0;
    while i < graph.all_symbols.len()
        invariant
            i <= files.len(),
            files == graph.all_symbols@,
            sources@.len() == files.len(),
            reach == pairs_view(graph.reachable_exports@),
            unused_view(all@) == unused_items(files.take(i as int), reach, sources@),
        decreases files.len() - i,
    {
        let f = &graph.all_symbols[i];
        let src = &sources[i];
        let ghost head = unused_view(all@);
        let mut k: usize = 0;
        while k < f.exports.len()
            invariant
                k <= f.exports@.len(),
                i < files.len(),
                *f == files[i as int],
                *src == sources@[i as int],
                files == graph.all_symbols@,
                reach == pairs_view(graph.reachable_exports@),
                unused_view(all@) == head + unused_in(f.file_path@, f.exports@.take(k as int), reach, *src),
            decreases f.exports.len() - k,
        {
            let ghost before = unused_view(all@);
            let e = &f.exports[k];
            assert(f.exports@.take(k + 1).drop_last() =~= f.exports@.take(k as int));
            assert(f.exports@.take(k + 1).last() == f.exports@[k as int]);
            let reached = holds_pair(&graph.reachable_exports, f.file_path.as_str(), e.name.as_str());
            let marked = match src {
                Some(s) => has_delve_used_comment(s.as_str(), e.start_line),
                None => false,
            };
            if !reached && !marked {
                let item = UnusedItem {
                    file_path: to_string(f.file_path.as_str()),
                    symbol: to_string(e.name.as_str()),
                    line: e.start_line,
                    kind: export_kind_string(&e.kind),
                };
                all.push(item);
                assert(unused_view(all@) =~= before.push(item@));
            }
            k += 1;
        }
        assert(f.exports@.take(k as int) =~= f.exports@);
        assert(files.take(i + 1).drop_last() =~= files.take(i as int));
        assert(files.take(i + 1).last() == files[i as int]);
        assert(files.take(i + 1).len() - 1 == i);
        i += 1;
    }
    assert(files.take(i as int) =~= files);
    let ghost whole = all@;
    let out = sort_by_location(all);
    proof {
        let fv = |u: UnusedItem| u@;
        assert forall|a: UnusedItem, b: UnusedItem| #[trigger] located_le::<UnusedItem>()(a, b) == unused_le()(fv(a), fv(b)) by {}
        lemma_stable_sort_map(whole, located_le::<UnusedItem>(), fv, unused_le());
        assert(unused_view(whole) == whole.map_values(fv));
        assert(unused_view(out@) == out@.map_values(fv));
    }
    out
}

/// An unused item is an export of file `i`, not reached and not marked.
pub open spec fn reported_from(
    files: Seq<FileSymbols>,
    reach: Seq<(Seq<char>, Seq<char>)>,
    sources: Seq<Option<String>>,
    u: UnusedItemView,
) -> bool {
    &&& !reach.contains((u.file_path, u.symbol))
    &&& exists|i: int|
        0 <= i < files.len() && #[trigger] files[i].file_path@ == u.file_path && !(sources[i] matches Some(s)
            && marked_used(s@, u.line))
}

proof fn lemma_unused_in_reported(
    files: Seq<FileSymbols>,
    reach: Seq<(Seq<char>, Seq<char>)>,
    sources: Seq<Option<String>>,
    i: int,
    exps: Seq<Export>,
)
    requires
        0 <= i < files.len(),
    ensures
        forall|k: int|
            0 <= k < unused_in(files[i].file_path@, exps, reach, sources[i]).len() ==> reported_from(
                files,
                reach,
                sources,
                #[trigger] unused_in(files[i].file_path@, exps, reach, sources[i])[k],
            ),
    decreases exps.len(),
{
    if exps.len() > 0 {
        lemma_unused_in_reported(files, reach, sources, i, exps.drop_last());
        let path = files[i].file_path@;
        let prev = unused_in(path, exps.drop_last(), reach, sources[i]);
        let cur = unused_in(path, exps, reach, sources[i]);
        assert forall|k: int| 0 <= k < cur.len() implies reported_from(files, reach, sources, #[trigger] cur[k]) by {
            if k < prev.len() {
                assert(cur[k] == prev[k]);
            } else {
                assert(files[i].file_path@ == cur[k].file_path);
            }
        }
    }
}

proof fn lemma_unused_items_reported(
    files: Seq<FileSymbols>,
    all: Seq<FileSymbols>,
    reach: Seq<(Seq<char>, Seq<char>)>,
    sources: Seq<Option<String>>,
)
    requires
        files.len() <= all.len(),
        forall|i: int| 0 <= i < files.len() ==> files[i] == all[i],
    ensures
        forall|k: int|
            0 <= k < unused_items(files, reach, sources).len() ==> reported_from(
                all,
                reach,
                sources,
                #[trigger] unused_items(files, reach, sources)[k],
            ),
    decreases files.len(),
{
    if files.len() > 0 {
        let n = files.len() - 1;
        lemma_unused_items_reported(files.drop_last(), all, reach, sources);
        lemma_unused_in_reported(all, reach, sources, n, files.last().exports@);
        let prev = unused_items(files.drop_last(), reach, sources);
        let tail = unused_in(files.last().file_path@, files.last().exports@, reach, sources[n]);
        let cur = unused_items(files, reach, sources);
        assert(files.last() == all[n]);
        assert forall|k: int| 0 <= k < cur.len() implies reported_from(all, reach, sources, #[trigger] cur[k]) by {
            if k < prev.len() {
                assert(cur[k] == prev[k]);
            } else {
                assert(cur[k] == tail[k - prev.len()]);
            }
        }
    }
}

/// What `find_unused` reports is each an export of a file of the graph
/// that is not reachable and is not marked `delve:used` on the line above,
/// ordered by path and then line.
pub proof fn law_unused_reports(files: Seq<FileSymbols>, reach: Seq<(Seq<char>, Seq<char>)>, sources: Seq<Option<String>>)
    ensures
        forall|k: int|
            0 <= k < stable_sort(unused_items(files, reach, sources), unused_le()).len() ==> reported_from(
                files,
                reach,
                sources,
                #[trigger] stable_sort(unused_items(files, reach, sources), unused_le())[k],
            ),
        forall|a: int, b: int|
            0 <= a < b < stable_sort(unused_items(files, reach, sources), unused_le()).len() ==> unused_le()(
                stable_sort(unused_items(files, reach, sources), unused_le())[a],
                stable_sort(unused_items(files, reach, sources), unused_le())[b],
            ),
{
    let items = unused_items(files, reach, sources);
    let le = unused_le();
    assert forall|x: UnusedItemView, y: UnusedItemView| #[trigger] le(x, y) || le(y, x) by {
        lemma_location_le_total(x.file_path, x.line, y.file_path, y.line);
    }
    assert forall|x: UnusedItemView, y: UnusedItemView, z: UnusedItemView| #[trigger] le(x, y) && #[trigger] le(y, z) implies le(x, z) by {
        lemma_location_le_transitive(x.file_path, x.line, y.file_path, y.line, z.file_path, z.line);
    }
    lemma_stable_sort_sorted(items, le);
    lemma_unused_items_reported(files, files, reach, sources);
    let sorted = stable_sort(items, le);
    assert forall|k: int| 0 <= k < sorted.len() implies reported_from(files, reach, sources, #[trigger] sorted[k]) by {
        assert(items.contains(sorted[k]));
        let j = choose|j: int| 0 <= j < items.len() && items[j] == sorted[k];
        assert(reported_from(files, reach, sources, items[j]));
    }
}

/// With the reachable exports those of a traversal from the entry points,
/// no export of an entry point is ever reported unused, and no symbol that
/// a reached file imports from a file of the graph either.
pub proof fn law_reachable_never_unused(
    files: Seq<FileSymbols>,
    table: Seq<Vec<Option<String>>>,
    eps: Seq<String>,
    reach: Seq<(Seq<char>, Seq<char>)>,
    sources: Seq<Option<String>>,
)
    requires
        reach.to_set() == reachable_set(files, table, eps),
    ensures
        forall|k: int, s: int, e: int|
            0 <= k < stable_sort(unused_items(files, reach, sources), unused_le()).len() && 0 <= s < files.len()
                && is_entry(files, eps, s) && 0 <= e < files[s].exports@.len() ==> !(#[trigger] stable_sort(
                unused_items(files, reach, sources),
                unused_le(),
            )[k].file_path == files[s].file_path@ && stable_sort(unused_items(files, reach, sources), unused_le())[k].symbol
                == #[trigger] files[s].exports@[e].name@),
        forall|k: int, p: (Seq<char>, Seq<char>)|
            0 <= k < stable_sort(unused_items(files, reach, sources), unused_le()).len() && #[trigger] import_pairs(
                files,
                table,
                eps,
                files.len() as int,
                0,
            ).contains(p) ==> p != (#[trigger] stable_sort(unused_items(files, reach, sources), unused_le())[k].file_path, stable_sort(
                unused_items(files, reach, sources),
                unused_le(),
            )[k].symbol),
{
    law_unused_reports(files, reach, sources);
    let sorted = stable_sort(unused_items(files, reach, sources), unused_le());
    assert forall|k: int, s: int, e: int|
        0 <= k < sorted.len() && 0 <= s < files.len() && is_entry(files, eps, s) && 0 <= e < files[s].exports@.len() implies !(
        #[trigger] sorted[k].file_path == files[s].file_path@ && sorted[k].symbol == #[trigger] files[s].exports@[e].name@) by {
        assert(reported_from(files, reach, sources, sorted[k]));
        if sorted[k].file_path == files[s].file_path@ && sorted[k].symbol == files[s].exports@[e].name@ {
            assert(entry_pairs(files, eps, files.len() as int).contains((files[s].file_path@, files[s].exports@[e].name@)));
            assert(reach.to_set().contains((sorted[k].file_path, sorted[k].symbol)));
        }
    }
    assert forall|k: int, p: (Seq<char>, Seq<char>)|
        0 <= k < sorted.len() && #[trigger] import_pairs(files, table, eps, files.len() as int, 0).contains(p) implies p != (
        #[trigger] sorted[k].file_path, sorted[k].symbol) by {
        assert(reported_from(files, reach, sources, sorted[k]));
        assert(reach.to_set().contains(p));
    }
}

/// An unused item is the report of an unreached export.
pub open spec fn reports_export(u: UnusedItemView, e: (Seq<char>, ExportView)) -> bool {
    u.file_path == e.0 && u.symbol == e.1.name && u.line == e.1.start_line && u.kind == kind_word(e.1.kind)
}

proof fn lemma_unused_in_among(path: Seq<char>, exps: Seq<Export>, reach: Seq<(Seq<char>, Seq<char>)>, src: Option<String>)
    ensures
        all_among(unused_in(path, exps, reach, src), unreached_in(path, exps, reach)),
    decreases exps.len(),
{
    if exps.len() > 0 {
        lemma_unused_in_among(path, exps.drop_last(), reach, src);
        let pu = unused_in(path, exps.drop_last(), reach, src);
        let pr = unreached_in(path, exps.drop_last(), reach);
        let cu = unused_in(path, exps, reach, src);
        let cr = unreached_in(path, exps, reach);
        assert forall|k: int| 0 <= k < cu.len() implies #[trigger] among(cu[k], cr) by {
            if k < pu.len() {
                assert(cu[k] == pu[k]);
                assert(among(pu[k], pr));
                let m = choose|m: int| 0 <= m < pr.len() && #[trigger] reports_export(pu[k], pr[m]);
                assert(cr[m] == pr[m]);
                assert(reports_export(cu[k], cr[m]));
            } else {
                assert(reports_export(cu[k], cr[cr.len() - 1]));
            }
        }
    }
}

/// Every item of `us` reports one of `es`.
pub open spec fn all_among(us: Seq<UnusedItemView>, es: Seq<(Seq<char>, ExportView)>) -> bool {
    forall|k: int| 0 <= k < us.len() ==> #[trigger] among(us[k], es)
}

/// `u` reports one of `es`.
pub open spec fn among(u: UnusedItemView, es: Seq<(Seq<char>, ExportView)>) -> bool {
    exists|m: int| 0 <= m < es.len() && #[trigger] reports_export(u, es[m])
}

proof fn lemma_among_concat(
    pu: Seq<UnusedItemView>,
    pr: Seq<(Seq<char>, ExportView)>,
    tu: Seq<UnusedItemView>,
    tr: Seq<(Seq<char>, ExportView)>,
)
    requires
        all_among(pu, pr),
        all_among(tu, tr),
    ensures
        all_among(pu + tu, pr + tr),
{
    assert forall|k: int| 0 <= k < (pu + tu).len() implies #[trigger] among((pu + tu)[k], pr + tr) by {
        if k < pu.len() {
            assert((pu + tu)[k] == pu[k]);
            assert(among(pu[k], pr));
            let m = choose|m: int| 0 <= m < pr.len() && #[trigger] reports_export(pu[k], pr[m]);
            assert((pr + tr)[m] == pr[m]);
            assert(reports_export((pu + tu)[k], (pr + tr)[m]));
        } else {
            assert((pu + tu)[k] == tu[k - pu.len()]);
            assert(among(tu[k - pu.len()], tr));
            let m = choose|m: int| 0 <= m < tr.len() && #[trigger] reports_export(tu[k - pu.len()], tr[m]);
            assert((pr + tr)[pr.len() + m] == tr[m]);
            assert(reports_export((pu + tu)[k], (pr + tr)[pr.len() + m]));
        }
    }
}

proof fn lemma_unused_items_among(
    files: Seq<FileSymbols>,
    reach: Seq<(Seq<char>, Seq<char>)>,
    sources: Seq<Option<String>>,
)
    ensures
        all_among(unused_items(files, reach, sources), unreached_exports(files, reach)),
    decreases files.len(),
{
    if files.len() > 0 {
        let n = files.len() - 1;
        let f = files.last();
        lemma_unused_items_among(files.drop_last(), reach, sources);
        lemma_unused_in_among(f.file_path@, f.exports@, reach, sources[n]);
        lemma_among_concat(
            unused_items(files.drop_last(), reach, sources),
            unreached_exports(files.drop_last(), reach),
            unused_in(f.file_path@, f.exports@, reach, sources[n]),
            unreached_in(f.file_path@, f.exports@, reach),
        );
    }
}

/// Every export that `find_unused` reports is one that `find_unused_exports`
/// reports of the same graph, at the same line, with its kind in words.
pub proof fn law_unused_among_unreached(
    files: Seq<FileSymbols>,
    reach: Seq<(Seq<char>, Seq<char>)>,
    sources: Seq<Option<String>>,
)
    ensures
        all_among(
            stable_sort(unused_items(files, reach, sources), unused_le()),
            stable_sort(unreached_exports(files, reach), export_le()),
        ),
{
    let items = unused_items(files, reach, sources);
    let exps = unreached_exports(files, reach);
    let ule = unused_le();
    let ele = export_le();
    assert forall|x: UnusedItemView, y: UnusedItemView| #[trigger] ule(x, y) || ule(y, x) by {
        lemma_location_le_total(x.file_path, x.line, y.file_path, y.line);
    }
    assert forall|x: UnusedItemView, y: UnusedItemView, z: UnusedItemView| #[trigger] ule(x, y) && #[trigger] ule(y, z) implies ule(x, z) by {
        lemma_location_le_transitive(x.file_path, x.line, y.file_path, y.line, z.file_path, z.line);
    }
    lemma_stable_sort_sorted(items, ule);
    lemma_stable_sort_permutes(exps, ele);
    lemma_unused_items_among(files, reach, sources);
    let su = stable_sort(items, ule);
    let se = stable_sort(exps, ele);
    assert forall|k: int| 0 <= k < su.len() implies #[trigger] among(su[k], se) by {
        assert(items.contains(su[k]));
        let j = choose|j: int| 0 <= j < items.len() && items[j] == su[k];
        assert(among(items[j], exps));
        let m = choose|m: int| 0 <= m < exps.len() && #[trigger] reports_export(items[j], exps[m]);
        assert(se.contains(exps[m]));
        let m2 = choose|m2: int| 0 <= m2 < se.len() && se[m2] == exps[m];
        assert(reports_export(su[k], se[m2]));
    }
}

/// The report of export `e` of the file at `path`.
pub open spec fn item_of(path: Seq<char>, e: Export) -> UnusedItemView {
    UnusedItemView { file_path: path, symbol: e.name@, line: e.start_line as int, kind: kind_word(e.kind) }
}

proof fn lemma_unused_in_complete(path: Seq<char>, exps: Seq<Export>, reach: Seq<(Seq<char>, Seq<char>)>, src: Option<String>)
    ensures
        forall|e: int|
            0 <= e < exps.len() && !reach.contains((path, exps[e].name@)) && !(src matches Some(s) && marked_used(
                s@,
                exps[e].start_line as int,
            )) ==> unused_in(path, exps, reach, src).contains(item_of(path, #[trigger] exps[e])),
    decreases exps.len(),
{
    if exps.len() > 0 {
        let d = exps.drop_last();
        lemma_unused_in_complete(path, d, reach, src);
        let prev = unused_in(path, d, reach, src);
        let cur = unused_in(path, exps, reach, src);
        assert forall|e: int|
            0 <= e < exps.len() && !reach.contains((path, exps[e].name@)) && !(src matches Some(s) && marked_used(
                s@,
                exps[e].start_line as int,
            )) implies cur.contains(item_of(path, #[trigger] exps[e])) by {
            if e < exps.len() - 1 {
                assert(d[e] == exps[e]);
                assert(prev.contains(item_of(path, d[e])));
                let w = choose|w: int| 0 <= w < prev.len() && prev[w] == item_of(path, d[e]);
                assert(cur[w] == prev[w]);
            } else {
                assert(cur[cur.len() - 1] == item_of(path, exps[e]));
            }
        }
    }
}

proof fn lemma_unused_items_complete(
    files: Seq<FileSymbols>,
    reach: Seq<(Seq<char>, Seq<char>)>,
    sources: Seq<Option<String>>,
)
    ensures
        forall|i: int, e: int|
            0 <= i < files.len() && 0 <= e < files[i].exports@.len() && !reach.contains(
                (files[i].file_path@, files[i].exports@[e].name@),
            ) && !(sources[i] matches Some(s) && marked_used(s@, files[i].exports@[e].start_line as int))
                ==> unused_items(files, reach, sources).contains(
                item_of(files[i].file_path@, #[trigger] files[i].exports@[e]),
            ),
    decreases files.len(),
{
    if files.len() > 0 {
        let n = files.len() - 1;
        let d = files.drop_last();
        lemma_unused_items_complete(d, reach, sources);
        lemma_unused_in_complete(files[n].file_path@, files[n].exports@, reach, sources[n]);
        let prev = unused_items(d, reach, sources);
        let tail = unused_in(files[n].file_path@, files[n].exports@, reach, sources[n]);
        assert(unused_items(files, reach, sources) == prev + tail);
        assert forall|i: int, e: int|
            0 <= i < files.len() && 0 <= e < files[i].exports@.len() && !reach.contains(
                (files[i].file_path@, files[i].exports@[e].name@),
            ) && !(sources[i] matches Some(s) && marked_used(s@, files[i].exports@[e].start_line as int))
                implies unused_items(files, reach, sources).contains(
                item_of(files[i].file_path@, #[trigger] files[i].exports@[e]),
            ) by {
            let x = item_of(files[i].file_path@, files[i].exports@[e]);
            if i < n {
                assert(d[i] == files[i]);
                assert(prev.contains(item_of(d[i].file_path@, d[i].exports@[e])));
                let w = choose|w: int| 0 <= w < prev.len() && prev[w] == x;
                assert((prev + tail)[w] == x);
            } else {
                assert(tail.contains(x));
                let w = choose|w: int| 0 <= w < tail.len() && tail[w] == x;
                assert((prev + tail)[prev.len() + w] == x);
            }
        }
    }
}

/// Every export of the graph that is not reachable and not marked
/// `delve:used` is reported by `find_unused`.
pub proof fn law_unreached_exports_reported(
    files: Seq<FileSymbols>,
    reach: Seq<(Seq<char>, Seq<char>)>,
    sources: Seq<Option<String>>,
)
    ensures
        forall|i: int, e: int|
            0 <= i < files.len() && 0 <= e < files[i].exports@.len() && !reach.contains(
                (files[i].file_path@, files[i].exports@[e].name@),
            ) && !(sources[i] matches Some(s) && marked_used(s@, files[i].exports@[e].start_line as int))
                ==> stable_sort(unused_items(files, reach, sources), unused_le()).contains(
                item_of(files[i].file_path@, #[trigger] files[i].exports@[e]),
            ),
{
    let items = unused_items(files, reach, sources);
    lemma_unused_items_complete(files, reach, sources);
    lemma_stable_sort_permutes(items, unused_le());
    assert forall|i: int, e: int|
        0 <= i < files.len() && 0 <= e < files[i].exports@.len() && !reach.contains(
            (files[i].file_path@, files[i].exports@[e].name@),
        ) && !(sources[i] matches Some(s) && marked_used(s@, files[i].exports@[e].start_line as int))
            implies stable_sort(items, unused_le()).contains(
            item_of(files[i].file_path@, #[trigger] files[i].exports@[e]),
        ) by {
        let x = item_of(files[i].file_path@, files[i].exports@[e]);
        assert(items.contains(x));
        let w = choose|w: int| 0 <= w < items.len() && items[w] == x;
        assert(stable_sort(items, unused_le()).contains(items[w]));
    }
}

} // verus!
