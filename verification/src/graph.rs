//! The import graph of a project: which exports each file imports from
//! which, the entry points, and the exports reachable from them.

use vstd::prelude::*;

use vstd::string::StringExecFns;

use crate::parser::{strings_view, Export, ExportView, FileSymbols};
use crate::unused_deps::{package_part, package_part_of};
use crate::paths::{no_separator, join_of, parent_of, path_join, path_parent, path_stem, path_with_extension, stem_of, with_extension_of};
use crate::sort::{
    lemma_location_le_total, lemma_location_le_transitive, lemma_stable_sort_map, lemma_stable_sort_multiset,
    lemma_stable_sort_sorted, located_le, location_le, sort_by_location, stable_sort, Located,
};
use crate::text::{
    chars_of, contains, slice_to_vec, starts_with, str_contains, str_eq,
    str_starts_with, string_from_chars, to_string,
};

verus! {

/// The files of a project with their symbols, the symbol-level import
/// edges between them, the entry points and the exports reachable from
/// them.
pub struct DepGraph {
    /// The files, each path at most once.
    pub all_symbols: Vec<FileSymbols>,
    /// `((importer, symbol), (exporter, symbol))` for each import of an
    /// export, in the order found.
    pub import_edges: Vec<((String, String), (String, String))>,
    /// `((exporter, symbol), (importer, symbol))`, the same edges reversed.
    pub reverse_imports: Vec<((String, String), (String, String))>,
    /// The entry points found, each at most once.
    pub entry_points: Vec<String>,
    /// `(file, symbol)` for each export reachable from an entry point, each
    /// at most once.
    pub reachable_exports: Vec<(String, String)>,
}

/// The position of the file with path `p` in `files`, the first if several.
pub open spec fn path_index(files: Seq<FileSymbols>, p: Seq<char>) -> Option<int> {
    if exists|i: int| 0 <= i < files.len() && files[i].file_path@ == p {
        Some(choose|i: int| 0 <= i < files.len() && files[i].file_path@ == p)
    } else {
        None
    }
}

/// No two files share a path.
pub open spec fn distinct_paths(files: Seq<FileSymbols>) -> bool {
    forall|i: int, j: int|
        0 <= i < j < files.len() ==> (#[trigger] files[i]).file_path@ != (#[trigger] files[j]).file_path@
}

/// The files keyed by path: a file replaces an earlier one with its path,
/// in that one's place.
pub open spec fn keyed_by_path(files: Seq<FileSymbols>) -> Seq<FileSymbols>
    decreases files.len(),
{
    if files.len() == 0 {
        files
    } else {
        let d = keyed_by_path(files.drop_last());
        let f = files.last();
        if exists|i: int| 0 <= i < d.len() && d[i].file_path@ == f.file_path@ {
            let i = choose|i: int| 0 <= i < d.len() && d[i].file_path@ == f.file_path@;
            d.update(i, f)
        } else {
            d.push(f)
        }
    }
}

/// The position of the file with path `p`, if any.
pub fn find_file(files: &Vec<FileSymbols>, p: &str) -> (r: Option<usize>)
    requires
        distinct_paths(files@),
    ensures
        match r {
            Some(i) => i < files@.len() && files@[i as int].file_path@ == p@,
            None => forall|i: int| 0 <= i < files@.len() ==> files@[i].file_path@ != p@,
        },
{
    let mut i: usize = 0;
    while i < files.len()
        invariant
            i <= files@.len(),
            forall|j: int| 0 <= j < i ==> files@[j].file_path@ != p@,
        decreases files.len() - i,
    {
        if str_eq(files[i].file_path.as_str(), p) {
            return Some(i);
        }
        i += 1;
    }
    None
}

proof fn lemma_keyed_distinct(files: Seq<FileSymbols>)
    ensures
        distinct_paths(keyed_by_path(files)),
    decreases files.len(),
{
    if files.len() > 0 {
        lemma_keyed_distinct(files.drop_last());
        let d = keyed_by_path(files.drop_last());
        let f = files.last();
        if exists|i: int| 0 <= i < d.len() && d[i].file_path@ == f.file_path@ {
            let i = choose|i: int| 0 <= i < d.len() && d[i].file_path@ == f.file_path@;
            let e = d.update(i, f);
            assert forall|a: int, b: int| 0 <= a < b < e.len() implies (#[trigger] e[a]).file_path@
                != (#[trigger] e[b]).file_path@ by {
                assert(d[a].file_path@ != d[b].file_path@);
            }
        }
    }
}

impl DepGraph {
    /// A graph of the given files with no edges, entry points or reachable
    /// exports yet; a file replaces an earlier one with the same path.
    pub fn new(symbols: Vec<FileSymbols>) -> (g: DepGraph)
        ensures
            g.all_symbols@ == keyed_by_path(symbols@),
            distinct_paths(g.all_symbols@),
            g.import_edges@.len() == 0,
            g.reverse_imports@.len() == 0,
            g.entry_points@.len() == 0,
            g.reachable_exports@.len() == 0,
    {
        let mut all: Vec<FileSymbols> = Vec::new();
        let mut rest = symbols;
        let ghost whole = rest@;
        let ghost mut taken: int = 0;
        assert(whole.skip(0) =~= whole);
        while rest.len() > 0
            invariant
                0 <= taken <= whole.len(),
                rest@ == whole.skip(taken),
                all@ == keyed_by_path(whole.take(taken)),
                distinct_paths(all@),
            decreases rest.len(),
        {
            let f = rest.remove(0);
            proof {
                assert(rest@ =~= whole.skip(taken + 1));
                assert(whole.take(taken + 1).drop_last() =~= whole.take(taken));
                assert(whole.take(taken + 1).last() == f);
                lemma_keyed_distinct(whole.take(taken + 1));
            }
            match find_file(&all, f.file_path.as_str()) {
                Some(i) => {
                    proof {
                        let d = all@;
                        let c = choose|c: int| 0 <= c < d.len() && d[c].file_path@ == f.file_path@;
                        assert(c == i as int) by {
                            if c != i as int {
                                if c < i {
                                    assert(d[c].file_path@ != d[i as int].file_path@);
                                } else {
                                    assert(d[i as int].file_path@ != d[c].file_path@);
                                }
                            }
                        }
                    }
                    all.set(i, f);
                },
                None => {
                    all.push(f);
                },
            }
            proof {
                taken = taken + 1;
            }
        }
        assert(whole.take(taken) =~= whole);
        DepGraph {
            all_symbols: all,
            import_edges: Vec::new(),
            reverse_imports: Vec::new(),
            entry_points: Vec::new(),
            reachable_exports: Vec::new(),
        }
    }
}

/// The extensions tried, in order, for an import path.
pub open spec fn extensions() -> Seq<Seq<char>> {
    seq!["ts"@, "tsx"@, "js"@, "jsx"@, "mjs"@, "cjs"@]
}

/// `path` with a dot and `ext` appended to it whole (so `b.config` with
/// `ts` gives `b.config.ts`).
pub open spec fn dotted(path: Seq<char>, ext: Seq<char>) -> Seq<char> {
    path + "."@ + ext
}

fn append_extension(path: &str, ext: &str) -> (r: String)
    ensures
        r@ == dotted(path@, ext@),
{
    let mut r = to_string(path);
    r.append(".");
    r.append(ext);
    r
}

/// The files a relative import may name, in the order tried: the import
/// path under `dir` with each extension appended (`./foo` gives `foo.ts`
/// first); then that path with its own extension replaced by each (so
/// `./foo.js` can name `foo.ts`, or `foo.js` itself); then its `index`
/// file with each extension.
pub open spec fn relative_candidates(dir: Seq<char>, import: Seq<char>) -> Seq<Seq<char>> {
    let base = join_of(dir, import);
    Seq::new(6, |i: int| dotted(base, extensions()[i])) + Seq::new(
        6,
        |i: int| with_extension_of(base, extensions()[i]),
    ) + Seq::new(6, |i: int| dotted(join_of(base, "index"@), extensions()[i]))
}

/// `r` is what probing `cands` in order gives: the canonical path the first
/// existing candidate was reported with (`None` where it could not be made
/// canonical), or `None` when none was reported to exist.
pub open spec fn probed(probe: spec_fn(Seq<char>, Option<Option<String>>) -> bool, cands: Seq<Seq<char>>, r: Option<String>) -> bool {
    exists|k: int| #[trigger] stops_at(probe, cands, r, k)
}

/// Probing `cands` in order stops at position `k` with result `r`.
pub open spec fn stops_at(
    probe: spec_fn(Seq<char>, Option<Option<String>>) -> bool,
    cands: Seq<Seq<char>>,
    r: Option<String>,
    k: int,
) -> bool {
    &&& 0 <= k <= cands.len()
    &&& forall|j: int| 0 <= j < k ==> #[trigger] probe(cands[j], None)
    &&& k < cands.len() ==> probe(cands[k], Some(r))
    &&& k == cands.len() ==> r is None
}

/// What a probe closure can report for a path.
pub open spec fn probe_reports<F: Fn(&str) -> Option<Option<String>>>(f: F) -> spec_fn(
    Seq<char>,
    Option<Option<String>>,
) -> bool {
    |p: Seq<char>, out: Option<Option<String>>| exists|s: &str| s@ == p && call_ensures(f, (s,), out)
}

fn ext_at(i: usize) -> (e: &'static str)
    requires
        i < 6,
    ensures
        e@ == extensions()[i as int],
        no_separator(e@),
{
    if i == 0 {
        proof {
            reveal_strlit("ts");
        }
        "ts"
    } else if i == 1 {
        proof {
            reveal_strlit("tsx");
        }
        "tsx"
    } else if i == 2 {
        proof {
            reveal_strlit("js");
        }
        "js"
    } else if i == 3 {
        proof {
            reveal_strlit("jsx");
        }
        "jsx"
    } else if i == 4 {
        proof {
            reveal_strlit("mjs");
        }
        "mjs"
    } else {
        proof {
            reveal_strlit("cjs");
        }
        "cjs"
    }
}

/// Resolves a relative import against the directory `dir` by asking
/// `probe` about each candidate in turn.
fn resolve_relative<F: Fn(&str) -> Option<Option<String>>>(dir: &str, import_path: &str, probe: &F) -> (r: Option<String>)
    requires
        forall|s: &str| call_requires(*probe, (s,)),
    ensures
        probed(probe_reports(*probe), relative_candidates(dir@, import_path@), r),
{
    let ghost cands = relative_candidates(dir@, import_path@);
    let ghost pr = probe_reports(*probe);
    let base = path_join(dir, import_path);
    let index = path_join(base.as_str(), "index");
    let mut i: usize = 0;
    while i < 18
        invariant
            i <= 18,
            cands == relative_candidates(dir@, import_path@),
            pr == probe_reports(*probe),
            base@ == join_of(dir@, import_path@),
            index@ == join_of(base@, "index"@),
            forall|s: &str| call_requires(*probe, (s,)),
            forall|j: int| 0 <= j < i ==> #[trigger] pr(cands[j], None),
        decreases 18 - i,
    {
        let cand = if i < 6 {
            append_extension(base.as_str(), ext_at(i))
        } else if i < 12 {
            path_with_extension(base.as_str(), ext_at(i - 6))
        } else {
            append_extension(index.as_str(), ext_at(i - 12))
        };
        assert(cand@ == cands[i as int]);
        let out = probe(cand.as_str());
        match out {
            Some(c) => {
                proof {
                    assert(pr(cands[i as int], Some(c)));
                    assert(stops_at(pr, cands, c, i as int));
                }
                return c;
            },
            None => {
                assert(pr(cands[i as int], None));
            },
        }
        i += 1;
    }
    assert(stops_at(pr, cands, None, 18));
    None
}

fn suffix_of(s: &Vec<char>, k: usize) -> (r: String)
    requires
        k <= s.len(),
    ensures
        r@ == s@.skip(k as int),
{
    let v = slice_to_vec(s, k, s.len());
    assert(s@.subrange(k as int, s@.len() as int) =~= s@.skip(k as int));
    string_from_chars(v.as_slice())
}

/// Asking in order about `cands` stops at position `k` with `out`: every
/// candidate before it was reported missing, and `out` is what was
/// reported for it (`Some` of the canonical path, or of `None` where it
/// exists and has none), or `None` when all were missing.
pub open spec fn hits(
    probe: spec_fn(Seq<char>, Option<Option<String>>) -> bool,
    cands: Seq<Seq<char>>,
    out: Option<Option<String>>,
    k: int,
) -> bool {
    &&& 0 <= k <= cands.len()
    &&& forall|j: int| 0 <= j < k ==> #[trigger] probe(cands[j], None)
    &&& k < cands.len() ==> (out matches Some(c) && probe(cands[k], Some(c)))
    &&& k == cands.len() ==> out is None
}

/// The part of a bare import inside its package, when it names one: the
/// path after `pkg/`, or the whole path where it does not start so.
pub open spec fn deep_part(import: Seq<char>, pkg: Seq<char>) -> Option<Seq<char>> {
    if contains(import, "/"@) && pkg != import {
        if starts_with(import, pkg + "/"@) {
            Some(import.skip(pkg.len() + 1int))
        } else {
            Some(import)
        }
    } else {
        None
    }
}

/// The files tried in one package directory `nm`: its `main` file and its
/// `index.js` where its `package.json` was read (`m`), then, for a path
/// inside the package, that path with its extension set to each in turn,
/// and its `index.js`.
pub open spec fn level_candidates(nm: Seq<char>, m: Option<Option<String>>, deep: Option<Seq<char>>) -> Seq<Seq<char>> {
    (match m {
        Some(Some(main)) => seq![join_of(nm, main@), join_of(nm, "index.js"@)],
        Some(None) => seq![join_of(nm, "index.js"@)],
        None => Seq::empty(),
    }) + match deep {
        Some(sub) => Seq::new(6, |i: int| with_extension_of(join_of(nm, sub), extensions()[i])).push(
            join_of(join_of(nm, sub), "index.js"@),
        ),
        None => Seq::empty(),
    }
}

/// The package directory of `pkg` under `dir`.
pub open spec fn package_dir(dir: Seq<char>, pkg: Seq<char>) -> Seq<char> {
    join_of(join_of(dir, "node_modules"@), pkg)
}

/// The `node_modules` search from `dir` up gives `r` within `n` more levels:
/// at each level the `package.json` read gives `m`, the candidates are
/// asked in order, and the first found ends the search; where none is, the
/// search goes on from the parent directory, and ends with `None` at the top.
pub open spec fn search_from(
    probe: spec_fn(Seq<char>, Option<Option<String>>) -> bool,
    main: spec_fn(Seq<char>, Option<Option<String>>) -> bool,
    dir: Seq<char>,
    pkg: Seq<char>,
    deep: Option<Seq<char>>,
    r: Option<String>,
    n: nat,
) -> bool
    decreases n,
{
    exists|m: Option<Option<String>>, out: Option<Option<String>>, k: int|
        #![trigger main(join_of(package_dir(dir, pkg), "package.json"@), m), hits(probe, level_candidates(package_dir(dir, pkg), m, deep), out, k)]
        main(join_of(package_dir(dir, pkg), "package.json"@), m) && hits(
            probe,
            level_candidates(package_dir(dir, pkg), m, deep),
            out,
            k,
        ) && match out {
            Some(c) => r == c,
            None => match parent_of(dir) {
                None => r is None,
                Some(p) => n > 0 && search_from(probe, main, p, pkg, deep, r, (n - 1) as nat),
            },
        }
}

/// Asks `probe` about each candidate in turn until one is found.
fn first_hit<F: Fn(&str) -> Option<Option<String>>>(probe: &F, cands: &Vec<String>) -> (out: Option<Option<String>>)
    requires
        forall|s: &str| call_requires(*probe, (s,)),
    ensures
        exists|k: int| #[trigger] hits(probe_reports(*probe), strings_view(cands@), out, k),
{
    let ghost pr = probe_reports(*probe);
    let ghost cv = strings_view(cands@);
    let mut i: usize = 0;
    while i < cands.len()
        invariant
            i <= cands@.len(),
            pr == probe_reports(*probe),
            cv == strings_view(cands@),
            forall|s: &str| call_requires(*probe, (s,)),
            forall|j: int| 0 <= j < i ==> #[trigger] pr(cv[j], None),
        decreases cands.len() - i,
    {
        let c = cands[i].as_str();
        let out = probe(c);
        assert(cv[i as int] == c@);
        assert(pr(c@, out));
        match out {
            Some(found) => {
                assert(hits(pr, cv, Some(found), i as int));
                return Some(found);
            },
            None => {},
        }
        i += 1;
    }
    assert(hits(pr, cv, None, i as int));
    None
}

/// Tries one package directory: reads its `package.json` for the `main`
/// field, then asks about the level's candidates in order.
fn probe_level<F: Fn(&str) -> Option<Option<String>>, G: Fn(&str) -> Option<Option<String>>>(
    nm: &str,
    deep: &Option<String>,
    probe: &F,
    read_main: &G,
) -> (out: Option<Option<String>>)
    requires
        forall|s: &str| call_requires(*probe, (s,)),
        forall|s: &str| call_requires(*read_main, (s,)),
    ensures
        exists|m: Option<Option<String>>, k: int|
            probe_reports(*read_main)(join_of(nm@, "package.json"@), m) && #[trigger] hits(
                probe_reports(*probe),
                level_candidates(nm@, m, opt_view(*deep)),
                out,
                k,
            ),
{
    let pkg_json = path_join(nm, "package.json");
    let m = read_main(pkg_json.as_str());
    assert(probe_reports(*read_main)(join_of(nm@, "package.json"@), m));
    let mut cands: Vec<String> = Vec::new();
    match &m {
        Some(Some(main)) => {
            let a = path_join(nm, main.as_str());
            let b = path_join(nm, "index.js");
            cands.push(a);
            cands.push(b);
            assert(strings_view(cands@) =~= seq![join_of(nm@, main@), join_of(nm@, "index.js"@)]);
        },
        Some(None) => {
            let b = path_join(nm, "index.js");
            cands.push(b);
            assert(strings_view(cands@) =~= seq![join_of(nm@, "index.js"@)]);
        },
        None => {
            assert(strings_view(cands@) =~= Seq::<Seq<char>>::empty());
        },
    }
    let ghost head = strings_view(cands@);
    match deep {
        Some(sub) => {
            let d = path_join(nm, sub.as_str());
            let mut i: usize = 0;
            assert(strings_view(cands@) =~= head + Seq::new(0, |j: int| with_extension_of(d@, extensions()[j])));
            while i < 6
                invariant
                    i <= 6,
                    d@ == join_of(nm@, sub@),
                    strings_view(cands@) == head + Seq::new(i as nat, |j: int| with_extension_of(d@, extensions()[j])),
                decreases 6 - i,
            {
                let ghost before = strings_view(cands@);
                let c = path_with_extension(d.as_str(), ext_at(i));
                assert(c@ == with_extension_of(d@, extensions()[i as int]));
                cands.push(c);
                assert(strings_view(cands@) =~= before.push(with_extension_of(d@, extensions()[i as int])));
                assert(strings_view(cands@) =~= head + Seq::new((i + 1) as nat, |j: int| with_extension_of(d@, extensions()[j])));
                i += 1;
            }
            let ghost before = strings_view(cands@);
            let last = path_join(d.as_str(), "index.js");
            cands.push(last);
            assert(strings_view(cands@) =~= before.push(join_of(join_of(nm@, sub@), "index.js"@)));
        },
        None => {
            assert(head + Seq::<Seq<char>>::empty() =~= head);
        },
    }
    assert(strings_view(cands@) =~= level_candidates(nm@, m, opt_view(*deep)));
    first_hit(probe, &cands)
}

/// The view of an optional string.
pub open spec fn opt_view(o: Option<String>) -> Option<Seq<char>> {
    match o {
        Some(s) => Some(s@),
        None => None,
    }
}

/// Resolves a bare import through `node_modules` directories, from the
/// importing file's directory up (see `search_from`). `probe` tells whether
/// a path exists and its canonical form; `read_main` reads the `main` field
/// of a `package.json` (`None` where the file cannot be read as JSON).
fn resolve_package_import<F: Fn(&str) -> Option<Option<String>>, G: Fn(&str) -> Option<Option<String>>>(
    current_file: &str,
    import_path: &str,
    probe: &F,
    read_main: &G,
) -> (r: Option<String>)
    requires
        forall|s: &str| call_requires(*probe, (s,)),
        forall|s: &str| call_requires(*read_main, (s,)),
    ensures
        package_search(*probe, *read_main, current_file@, import_path@, r),
{
    let mut dir = match path_parent(current_file) {
        Some(d) => d,
        None => return None,
    };
    let pkg_name = match package_part_of(import_path) {
        Some(p) => p,
        None => return None,
    };
    let deep: Option<String> = if str_contains(import_path, "/") && !str_eq(pkg_name.as_str(), import_path) {
        let mut with_slash = to_string(pkg_name.as_str());
        with_slash.append("/");
        assert(with_slash@ == pkg_name@ + "/"@);
        if str_starts_with(import_path, with_slash.as_str()) {
            let s = chars_of(import_path);
            let p = chars_of(pkg_name.as_str());
            proof {
                reveal_strlit("/");
            }
            let total = s.len();
            assert(p@.len() + 1 == with_slash@.len());
            assert(with_slash@.len() <= total);
            let k = p.len() + 1;
            Some(suffix_of(&s, k))
        } else {
            Some(to_string(import_path))
        }
    } else {
        None
    };
    assert(opt_view(deep) == deep_part(import_path@, pkg_name@));
    let ghost pr = probe_reports(*probe);
    let ghost mr = probe_reports(*read_main);
    let ghost dir0 = dir@;
    let ghost mut lv: nat = 0;
    loop
        invariant
            forall|s: &str| call_requires(*probe, (s,)),
            forall|s: &str| call_requires(*read_main, (s,)),
            pr == probe_reports(*probe),
            mr == probe_reports(*read_main),
            parent_of(current_file@) == Some(dir0),
            package_part(import_path@) == Some(pkg_name@),
            opt_view(deep) == deep_part(import_path@, pkg_name@),
            forall|r: Option<String>, n: nat|
                #[trigger] search_from(pr, mr, dir@, pkg_name@, opt_view(deep), r, n) ==> search_from(
                    pr,
                    mr,
                    dir0,
                    pkg_name@,
                    opt_view(deep),
                    r,
                    n + lv,
                ),
        decreases dir@.len(),
    {
        let base = path_join(dir.as_str(), "node_modules");
        let nm = path_join(base.as_str(), pkg_name.as_str());
        assert(nm@ == package_dir(dir@, pkg_name@));
        let out = probe_level(nm.as_str(), &deep, probe, read_main);
        let ghost (m, k) = choose|m: Option<Option<String>>, k: int|
            mr(join_of(nm@, "package.json"@), m) && #[trigger] hits(pr, level_candidates(nm@, m, opt_view(deep)), out, k);
        match out {
            Some(c) => {
                proof {
                    assert(search_from(pr, mr, dir@, pkg_name@, opt_view(deep), c, 0));
                    assert(search_from(pr, mr, dir0, pkg_name@, opt_view(deep), c, lv));
                    assert(search_from(
                        probe_reports(*probe),
                        probe_reports(*read_main),
                        dir0,
                        pkg_name@,
                        deep_part(import_path@, pkg_name@),
                        c,
                        lv,
                    ));
                    assert(parent_of(current_file@)->0 == dir0);
                    assert(package_part(import_path@)->0 == pkg_name@);
                    assert(search_from(
                        probe_reports(*probe),
                        probe_reports(*read_main),
                        parent_of(current_file@)->0,
                        package_part(import_path@)->0,
                        deep_part(import_path@, package_part(import_path@)->0),
                        c,
                        lv,
                    ));
                }
                return c;
            },
            None => {},
        }
        match path_parent(dir.as_str()) {
            Some(p) => {
                proof {
                    assert forall|r: Option<String>, n: nat|
                        #[trigger] search_from(pr, mr, p@, pkg_name@, opt_view(deep), r, n) implies search_from(
                        pr,
                        mr,
                        dir0,
                        pkg_name@,
                        opt_view(deep),
                        r,
                        n + (lv + 1),
                    ) by {
                        assert(search_from(pr, mr, dir@, pkg_name@, opt_view(deep), r, n + 1));
                    }
                    lv = lv + 1;
                }
                dir = p;
            },
            None => {
                proof {
                    assert(search_from(pr, mr, dir@, pkg_name@, opt_view(deep), None, 0));
                    assert(search_from(pr, mr, dir0, pkg_name@, opt_view(deep), None, lv));
                    assert(search_from(
                        probe_reports(*probe),
                        probe_reports(*read_main),
                        dir0,
                        pkg_name@,
                        deep_part(import_path@, pkg_name@),
                        None,
                        lv,
                    ));
                    assert(parent_of(current_file@)->0 == dir0);
                    assert(package_part(import_path@)->0 == pkg_name@);
                    assert(search_from(
                        probe_reports(*probe),
                        probe_reports(*read_main),
                        parent_of(current_file@)->0,
                        package_part(import_path@)->0,
                        deep_part(import_path@, package_part(import_path@)->0),
                        None,
                        lv,
                    ));
                }
                return None;
            },
        }
    }
}

/// `r` is what searching `node_modules` for the package of `import_path`
/// gives from the directory of `current_file` (see `search_from`); `None`
/// where the file has no directory or the import names no package.
pub open spec fn package_search<F: Fn(&str) -> Option<Option<String>>, G: Fn(&str) -> Option<Option<String>>>(
    probe: F,
    read_main: G,
    current_file: Seq<char>,
    import_path: Seq<char>,
    r: Option<String>,
) -> bool {
    match (parent_of(current_file), package_part(import_path)) {
        (Some(dir), Some(pkg)) => exists|n: nat|
            #[trigger] search_from(
                probe_reports(probe),
                probe_reports(read_main),
                dir,
                pkg,
                deep_part(import_path, pkg),
                r,
                n,
            ),
        _ => r is None,
    }
}

/// Resolves an import path from `current_file`: a relative one (starting
/// with `.`) against the file's directory, trying each extension and then
/// an `index` file (see `relative_candidates`); any other through
/// `node_modules`. `None` where the file has no directory or nothing is
/// found.
pub fn resolve_import<F: Fn(&str) -> Option<Option<String>>, G: Fn(&str) -> Option<Option<String>>>(
    current_file: &str,
    import_path: &str,
    probe: &F,
    read_main: &G,
) -> (r: Option<String>)
    requires
        forall|s: &str| call_requires(*probe, (s,)),
        forall|s: &str| call_requires(*read_main, (s,)),
    ensures
        parent_of(current_file@) is None ==> r is None,
        parent_of(current_file@) matches Some(dir) ==> (starts_with(import_path@, "."@) ==> probed(
            probe_reports(*probe),
            relative_candidates(dir, import_path@),
            r,
        )),
        !starts_with(import_path@, "."@) ==> package_search(*probe, *read_main, current_file@, import_path@, r),
{
    let dir = match path_parent(current_file) {
        Some(d) => d,
        None => return None,
    };
    if str_starts_with(import_path, ".") {
        resolve_relative(dir.as_str(), import_path, probe)
    } else {
        resolve_package_import(current_file, import_path, probe, read_main)
    }
}

/// `r` is a resolution of `import_path` from `current_file` as
/// `resolve_import` gives it.
pub open spec fn resolution_ok<F: Fn(&str) -> Option<Option<String>>, G: Fn(&str) -> Option<Option<String>>>(
    probe: F,
    read_main: G,
    current_file: Seq<char>,
    import_path: Seq<char>,
    r: Option<String>,
) -> bool {
    &&& parent_of(current_file) is None ==> r is None
    &&& parent_of(current_file) matches Some(dir) ==> (starts_with(import_path, "."@) ==> probed(
        probe_reports(probe),
        relative_candidates(dir, import_path),
        r,
    ))
    &&& !starts_with(import_path, "."@) ==> package_search(probe, read_main, current_file, import_path, r)
}

/// Every entry of `table` resolves its import as `resolve_import` does.
pub open spec fn table_resolved<F: Fn(&str) -> Option<Option<String>>, G: Fn(&str) -> Option<Option<String>>>(
    probe: F,
    read_main: G,
    files: Seq<FileSymbols>,
    table: Seq<Vec<Option<String>>>,
) -> bool {
    forall|i: int, j: int|
        0 <= i < files.len() && 0 <= j < files[i].imports@.len() ==> resolution_ok(
            probe,
            read_main,
            files[i].file_path@,
            files[i].imports@[j].source@,
            #[trigger] table[i]@[j],
        )
}

/// `table[i][j]` is where import `j` of file `i` resolves to, if anywhere:
/// one entry per import.
pub open spec fn table_fits(files: Seq<FileSymbols>, table: Seq<Vec<Option<String>>>) -> bool {
    &&& table.len() == files.len()
    &&& forall|i: int| 0 <= i < files.len() ==> (#[trigger] table[i])@.len() == files[i].imports@.len()
}

/// Resolves every import of every file of `graph` (see `resolve_import`).
pub fn resolve_all<F: Fn(&str) -> Option<Option<String>>, G: Fn(&str) -> Option<Option<String>>>(
    graph: &DepGraph,
    probe: &F,
    read_main: &G,
) -> (table: Vec<Vec<Option<String>>>)
    requires
        forall|s: &str| call_requires(*probe, (s,)),
        forall|s: &str| call_requires(*read_main, (s,)),
    ensures
        table_fits(graph.all_symbols@, table@),
        table_resolved(*probe, *read_main, graph.all_symbols@, table@),
{
    let files = &graph.all_symbols;
    let mut table: Vec<Vec<Option<String>>> = Vec::new();
    let mut i: usize = 0;
    while i < files.len()
        invariant
            i <= files@.len(),
            files == &graph.all_symbols,
            forall|s: &str| call_requires(*probe, (s,)),
            forall|s: &str| call_requires(*read_main, (s,)),
            table@.len() == i,
            forall|a: int| 0 <= a < i ==> (#[trigger] table@[a])@.len() == files@[a].imports@.len(),
            forall|a: int, b: int|
                0 <= a < i && 0 <= b < files@[a].imports@.len() ==> resolution_ok(
                    *probe,
                    *read_main,
                    files@[a].file_path@,
                    files@[a].imports@[b].source@,
                    #[trigger] table@[a]@[b],
                ),
        decreases files.len() - i,
    {
        let f = &files[i];
        let mut row: Vec<Option<String>> = Vec::new();
        let mut j: usize = 0;
        while j < f.imports.len()
            invariant
                j <= f.imports@.len(),
                row@.len() == j,
                forall|s: &str| call_requires(*probe, (s,)),
                forall|s: &str| call_requires(*read_main, (s,)),
                forall|b: int|
                    0 <= b < j ==> resolution_ok(*probe, *read_main, f.file_path@, f.imports@[b].source@, #[trigger] row@[b]),
            decreases f.imports.len() - j,
        {
            row.push(resolve_import(f.file_path.as_str(), f.imports[j].source.as_str(), probe, read_main));
            j += 1;
        }
        table.push(row);
        i += 1;
    }
    table
}

/// The position of the file whose path is `p`.
pub open spec fn index_of_path(files: Seq<FileSymbols>, p: Seq<char>) -> Option<int> {
    path_index(files, p)
}

/// Which file import `j` of file `i` resolves to, if one of `files`.
pub open spec fn target_of(files: Seq<FileSymbols>, table: Seq<Vec<Option<String>>>, i: int, j: int) -> Option<int> {
    match table[i]@[j] {
        Some(rp) => index_of_path(files, rp@),
        None => None,
    }
}

/// `f` exports something named `name`.
pub open spec fn exports_name(f: FileSymbols, name: Seq<char>) -> bool {
    exists|k: int| 0 <= k < f.exports@.len() && #[trigger] f.exports@[k].name@ == name
}

/// An edge from `(importer, symbol)` to `(exporter, symbol)`.
pub open spec fn edge(src: Seq<char>, dst: Seq<char>, sym: Seq<char>) -> ((Seq<char>, Seq<char>), (Seq<char>, Seq<char>)) {
    ((src, sym), (dst, sym))
}

/// The edges for the named symbols `syms` that `target` exports.
pub open spec fn symbol_edges(src: Seq<char>, target: FileSymbols, syms: Seq<Seq<char>>) -> Seq<((Seq<char>, Seq<char>), (Seq<char>, Seq<char>))>
    decreases syms.len(),
{
    if syms.len() == 0 {
        Seq::empty()
    } else {
        symbol_edges(src, target, syms.drop_last()) + if exports_name(target, syms.last()) {
            seq![edge(src, target.file_path@, syms.last())]
        } else {
            Seq::empty()
        }
    }
}

/// The edges for every export of `target`.
pub open spec fn namespace_edges(src: Seq<char>, target: FileSymbols, k: int) -> Seq<((Seq<char>, Seq<char>), (Seq<char>, Seq<char>))>
    decreases k,
{
    if k <= 0 {
        Seq::empty()
    } else {
        namespace_edges(src, target, k - 1) + seq![edge(src, target.file_path@, target.exports@[k - 1].name@)]
    }
}

/// The edges import `j` of file `i` adds: one per imported symbol that the
/// target exports, then, for a namespace import, one per export.
pub open spec fn import_edges(files: Seq<FileSymbols>, table: Seq<Vec<Option<String>>>, i: int, j: int) -> Seq<((Seq<char>, Seq<char>), (Seq<char>, Seq<char>))> {
    match target_of(files, table, i, j) {
        Some(t) => {
            let imp = files[i].imports@[j];
            let src = files[i].file_path@;
            symbol_edges(src, files[t], strings_view(imp.symbols@)) + if imp.is_namespace {
                namespace_edges(src, files[t], files[t].exports@.len() as int)
            } else {
                Seq::empty()
            }
        },
        None => Seq::empty(),
    }
}

/// The edges of the first `j` imports of file `i`.
pub open spec fn file_edges(files: Seq<FileSymbols>, table: Seq<Vec<Option<String>>>, i: int, j: int) -> Seq<((Seq<char>, Seq<char>), (Seq<char>, Seq<char>))>
    decreases j,
{
    if j <= 0 {
        Seq::empty()
    } else {
        file_edges(files, table, i, j - 1) + import_edges(files, table, i, j - 1)
    }
}

/// The edges of the first `k` files, file after file.
pub open spec fn edges_upto(files: Seq<FileSymbols>, table: Seq<Vec<Option<String>>>, k: int) -> Seq<((Seq<char>, Seq<char>), (Seq<char>, Seq<char>))>
    decreases k,
{
    if k <= 0 {
        Seq::empty()
    } else {
        edges_upto(files, table, k - 1) + file_edges(files, table, k - 1, files[k - 1].imports@.len() as int)
    }
}

pub open spec fn edges_view(v: Seq<((String, String), (String, String))>) -> Seq<((Seq<char>, Seq<char>), (Seq<char>, Seq<char>))> {
    v.map_values(|e: ((String, String), (String, String))| ((e.0.0@, e.0.1@), (e.1.0@, e.1.1@)))
}

/// An edge turned around.
pub open spec fn reversed(v: Seq<((Seq<char>, Seq<char>), (Seq<char>, Seq<char>))>) -> Seq<((Seq<char>, Seq<char>), (Seq<char>, Seq<char>))> {
    v.map_values(|e: ((Seq<char>, Seq<char>), (Seq<char>, Seq<char>))| (e.1, e.0))
}

fn exports_symbol(f: &FileSymbols, name: &str) -> (b: bool)
    ensures
        b == exports_name(*f, name@),
{
    let mut k: usize = 0;
    while k < f.exports.len()
        invariant
            k <= f.exports@.len(),
            forall|m: int| 0 <= m < k ==> f.exports@[m].name@ != name@,
        decreases f.exports.len() - k,
    {
        if str_eq(f.exports[k].name.as_str(), name) {
            return true;
        }
        k += 1;
    }
    false
}

fn push_edge(
    fwd: &mut Vec<((String, String), (String, String))>,
    rev: &mut Vec<((String, String), (String, String))>,
    src: &str,
    dst: &str,
    sym: &str,
)
    ensures
        edges_view(final(fwd)@) == edges_view(old(fwd)@).push(edge(src@, dst@, sym@)),
        edges_view(final(rev)@) == edges_view(old(rev)@).push((edge(src@, dst@, sym@).1, edge(src@, dst@, sym@).0)),
{
    let ghost f0 = edges_view(fwd@);
    let ghost r0 = edges_view(rev@);
    fwd.push(((to_string(src), to_string(sym)), (to_string(dst), to_string(sym))));
    rev.push(((to_string(dst), to_string(sym)), (to_string(src), to_string(sym))));
    assert(edges_view(fwd@) =~= f0.push(edge(src@, dst@, sym@)));
    assert(edges_view(rev@) =~= r0.push((edge(src@, dst@, sym@).1, edge(src@, dst@, sym@).0)));
}

/// Appends the edges of one import.
fn add_import_edges(
    src: &str,
    target: &FileSymbols,
    symbols: &Vec<String>,
    namespace: bool,
    fwd: &mut Vec<((String, String), (String, String))>,
    rev: &mut Vec<((String, String), (String, String))>,
)
    requires
        edges_view(old(rev)@) == reversed(edges_view(old(fwd)@)),
    ensures
        edges_view(final(fwd)@) == edges_view(old(fwd)@) + symbol_edges(src@, *target, strings_view(symbols@)) + if namespace {
            namespace_edges(src@, *target, target.exports@.len() as int)
        } else {
            Seq::empty()
        },
        edges_view(final(rev)@) == reversed(edges_view(final(fwd)@)),
{
    let ghost f0 = edges_view(fwd@);
    let mut k: usize = 0;
    while k < symbols.len()
        invariant
            k <= symbols@.len(),
            edges_view(fwd@) == f0 + symbol_edges(src@, *target, strings_view(symbols@.take(k as int))),
            edges_view(rev@) == reversed(edges_view(fwd@)),
        decreases symbols.len() - k,
    {
        let sym = symbols[k].as_str();
        assert(strings_view(symbols@.take(k + 1)).drop_last() =~= strings_view(symbols@.take(k as int)));
        if exports_symbol(target, sym) {
            let ghost before = edges_view(fwd@);
            push_edge(fwd, rev, src, target.file_path.as_str(), sym);
            assert(reversed(edges_view(fwd@)) =~= reversed(before).push((edge(src@, target.file_path@, sym@).1, edge(src@, target.file_path@, sym@).0)));
        }
        k += 1;
    }
    assert(symbols@.take(k as int) =~= symbols@);
    let ghost f1 = edges_view(fwd@);
    if namespace {
        let mut m: usize = 0;
        while m < target.exports.len()
            invariant
                m <= target.exports@.len(),
                edges_view(fwd@) == f1 + namespace_edges(src@, *target, m as int),
                edges_view(rev@) == reversed(edges_view(fwd@)),
            decreases target.exports.len() - m,
        {
            let ghost before = edges_view(fwd@);
            push_edge(fwd, rev, src, target.file_path.as_str(), target.exports[m].name.as_str());
            assert(reversed(edges_view(fwd@)) =~= reversed(before).push((edge(src@, target.file_path@, target.exports@[m as int].name@).1, edge(src@, target.file_path@, target.exports@[m as int].name@).0)));
            m += 1;
        }
    } else {
        assert(edges_view(fwd@) =~= f1 + Seq::empty());
    }
}

impl DepGraph {
    /// Adds the symbol-level import edges of every file: for each import
    /// that resolves (by `table`) to a file of the graph, an edge for each
    /// imported symbol that file exports and, for a namespace import, one
    /// for each of its exports; the reverse edges alongside.
    pub fn build(&mut self, table: &Vec<Vec<Option<String>>>)
        requires
            distinct_paths(old(self).all_symbols@),
            table_fits(old(self).all_symbols@, table@),
            edges_view(old(self).reverse_imports@) == reversed(edges_view(old(self).import_edges@)),
        ensures
            final(self).all_symbols@ == old(self).all_symbols@,
            final(self).entry_points@ == old(self).entry_points@,
            final(self).reachable_exports@ == old(self).reachable_exports@,
            edges_view(final(self).import_edges@) == edges_view(old(self).import_edges@) + edges_upto(
                old(self).all_symbols@,
                table@,
                old(self).all_symbols@.len() as int,
            ),
            edges_view(final(self).reverse_imports@) == reversed(edges_view(final(self).import_edges@)),
    {
        let ghost files = self.all_symbols@;
        let ghost e0 = edges_view(self.import_edges@);
        let mut fwd: Vec<((String, String), (String, String))> = Vec::new();
        std::mem::swap(&mut fwd, &mut self.import_edges);
        let mut rev: Vec<((String, String), (String, String))> = Vec::new();
        std::mem::swap(&mut rev, &mut self.reverse_imports);
        let mut i: usize = 0;
        while i < self.all_symbols.len()
            invariant
                i <= files.len(),
                self.all_symbols@ == files,
                distinct_paths(files),
                table_fits(files, table@),
                edges_view(fwd@) == e0 + edges_upto(files, table@, i as int),
                edges_view(rev@) == reversed(edges_view(fwd@)),
            decreases files.len() - i,
        {
            let f = &self.all_symbols[i];
            let row = &table[i];
            let ghost fe0 = edges_view(fwd@);
            let mut j: usize = 0;
            while j < f.imports.len()
                invariant
                    j <= f.imports@.len(),
                    i < files.len(),
                    self.all_symbols@ == files,
                    *f == files[i as int],
                    distinct_paths(files),
                    table_fits(files, table@),
                    row@ == table@[i as int]@,
                    edges_view(fwd@) == fe0 + file_edges(files, table@, i as int, j as int),
                    edges_view(rev@) == reversed(edges_view(fwd@)),
                decreases f.imports.len() - j,
            {
                let ghost before = edges_view(fwd@);
                match &row[j] {
                    Some(rp) => {
                        match find_file(&self.all_symbols, rp.as_str()) {
                            Some(t) => {
                                proof {
                                    let c = path_index(files, rp@);
                                    assert(files[t as int].file_path@ == rp@);
                                    let w = choose|w: int| 0 <= w < files.len() && files[w].file_path@ == rp@;
                                    assert(w == t) by {
                                        if w < t {
                                            assert(files[w].file_path@ != files[t as int].file_path@);
                                        } else if w > t {
                                            assert(files[t as int].file_path@ != files[w].file_path@);
                                        }
                                    }
                                    assert(target_of(files, table@, i as int, j as int) == Some(t as int));
                                }
                                let imp = &f.imports[j];
                                add_import_edges(f.file_path.as_str(), &self.all_symbols[t], &imp.symbols, imp.is_namespace, &mut fwd, &mut rev);
                            },
                            None => {
                                assert(target_of(files, table@, i as int, j as int) is None);
                            },
                        }
                    },
                    None => {},
                }
                assert(edges_view(fwd@) =~= fe0 + file_edges(files, table@, i as int, j + 1));
                j += 1;
            }
            assert(edges_view(fwd@) =~= e0 + edges_upto(files, table@, i + 1));
            i += 1;
        }
        self.import_edges = fwd;
        self.reverse_imports = rev;
    }
}

/// Some import of file `i` resolves to file `t`.
pub open spec fn imports_file(files: Seq<FileSymbols>, table: Seq<Vec<Option<String>>>, i: int, t: int) -> bool {
    exists|j: int| 0 <= j < files[i].imports@.len() && #[trigger] target_of(files, table, i, j) == Some(t)
}

/// File `s` is an entry point.
pub open spec fn is_entry(files: Seq<FileSymbols>, eps: Seq<String>, s: int) -> bool {
    exists|e: int| 0 <= e < eps.len() && #[trigger] eps[e]@ == files[s].file_path@
}

/// A chain of imports from an entry point.
pub open spec fn is_chain(files: Seq<FileSymbols>, table: Seq<Vec<Option<String>>>, eps: Seq<String>, c: Seq<int>) -> bool {
    &&& c.len() >= 1
    &&& forall|k: int| 0 <= k < c.len() ==> 0 <= #[trigger] c[k] < files.len()
    &&& is_entry(files, eps, c[0])
    &&& forall|k: int| 0 <= k < c.len() - 1 ==> #[trigger] imports_file(files, table, c[k], c[k + 1])
}

/// File `t` is reached from an entry point by following imports.
pub open spec fn reached(files: Seq<FileSymbols>, table: Seq<Vec<Option<String>>>, eps: Seq<String>, t: int) -> bool {
    exists|c: Seq<int>| #[trigger] is_chain(files, table, eps, c) && c.last() == t
}

/// `(file, export)` for every export of the entry points among the first
/// `upto` files.
pub open spec fn entry_pairs(files: Seq<FileSymbols>, eps: Seq<String>, upto: int) -> Set<(Seq<char>, Seq<char>)> {
    Set::new(
        |p: (Seq<char>, Seq<char>)|
            exists|s: int, k: int|
                0 <= s < upto && s < files.len() && is_entry(files, eps, s) && 0 <= k < files[s].exports@.len()
                    && p == (files[s].file_path@, #[trigger] files[s].exports@[k].name@),
    )
}

/// `(target, symbol)` for every symbol that a reached file imports from a
/// file of the graph, over the imports before import `b` of file `a` (files
/// in order, then imports in order).
pub open spec fn import_pairs(
    files: Seq<FileSymbols>,
    table: Seq<Vec<Option<String>>>,
    eps: Seq<String>,
    a: int,
    b: int,
) -> Set<(Seq<char>, Seq<char>)> {
    Set::new(
        |p: (Seq<char>, Seq<char>)|
            exists|i: int, j: int, m: int|
                #![trigger target_of(files, table, i, j), files[i].imports@[j].symbols@[m]]
                0 <= i < files.len() && (i < a || (i == a && j < b)) && reached(files, table, eps, i) && 0 <= j
                    < files[i].imports@.len() && target_of(files, table, i, j) is Some && 0 <= m
                    < files[i].imports@[j].symbols@.len() && p == (
                    files[target_of(files, table, i, j)->0].file_path@,
                    files[i].imports@[j].symbols@[m]@,
                ),
    )
}

/// The `(file, symbol)` pairs reachable from the entry points: every
/// export of an entry point, and every symbol that a reached file imports
/// from a file of the graph.
pub open spec fn reachable_set(files: Seq<FileSymbols>, table: Seq<Vec<Option<String>>>, eps: Seq<String>) -> Set<(Seq<char>, Seq<char>)> {
    entry_pairs(files, eps, files.len() as int).union(import_pairs(files, table, eps, files.len() as int, 0))
}

pub open spec fn pairs_view(v: Seq<(String, String)>) -> Seq<(Seq<char>, Seq<char>)> {
    v.map_values(|p: (String, String)| (p.0@, p.1@))
}

pub(crate) fn holds_pair(v: &Vec<(String, String)>, a: &str, b: &str) -> (r: bool)
    ensures
        r == pairs_view(v@).contains((a@, b@)),
{
    let mut i: usize = 0;
    while i < v.len()
        invariant
            i <= v@.len(),
            forall|k: int| 0 <= k < i ==> pairs_view(v@)[k] != (a@, b@),
        decreases v.len() - i,
    {
        if str_eq(v[i].0.as_str(), a) && str_eq(v[i].1.as_str(), b) {
            assert(pairs_view(v@)[i as int] == (a@, b@));
            return true;
        }
        i += 1;
    }
    false
}

fn insert_pair(v: &mut Vec<(String, String)>, a: &str, b: &str)
    requires
        pairs_view(old(v)@).no_duplicates(),
    ensures
        pairs_view(final(v)@).no_duplicates(),
        pairs_view(final(v)@).to_set() == pairs_view(old(v)@).to_set().insert((a@, b@)),
{
    let ghost v0 = pairs_view(v@);
    if !holds_pair(v, a, b) {
        v.push((to_string(a), to_string(b)));
        assert(pairs_view(v@) =~= v0.push((a@, b@)));
        proof {
            v0.lemma_push_to_set_commute((a@, b@));
        }
    } else {
        assert(pairs_view(v@).to_set() =~= v0.to_set().insert((a@, b@)));
    }
}

/// Whether the path is one of the entry points.
fn is_entry_point(eps: &Vec<String>, p: &str) -> (b: bool)
    ensures
        b == exists|e: int| 0 <= e < eps@.len() && #[trigger] eps@[e]@ == p@,
{
    let mut e: usize = 0;
    while e < eps.len()
        invariant
            e <= eps@.len(),
            forall|k: int| 0 <= k < e ==> eps@[k]@ != p@,
        decreases eps.len() - e,
    {
        if str_eq(eps[e].as_str(), p) {
            return true;
        }
        e += 1;
    }
    false
}

fn target_index(files: &Vec<FileSymbols>, table: &Vec<Vec<Option<String>>>, i: usize, j: usize) -> (r: Option<usize>)
    requires
        distinct_paths(files@),
        table_fits(files@, table@),
        i < files@.len(),
        j < files@[i as int].imports@.len(),
    ensures
        match r {
            Some(t) => target_of(files@, table@, i as int, j as int) == Some(t as int) && t < files@.len(),
            None => target_of(files@, table@, i as int, j as int) is None,
        },
{
    match &table[i][j] {
        Some(rp) => {
            let r = find_file(files, rp.as_str());
            proof {
                if let Some(t) = r {
                    let w = choose|w: int| 0 <= w < files@.len() && files@[w].file_path@ == rp@;
                    assert(w == t) by {
                        if w < t {
                            assert(files@[w].file_path@ != files@[t as int].file_path@);
                        } else if w > t {
                            assert(files@[t as int].file_path@ != files@[w].file_path@);
                        }
                    }
                }
            }
            r
        },
        None => None,
    }
}

proof fn lemma_target_in_range(files: Seq<FileSymbols>, table: Seq<Vec<Option<String>>>, i: int, j: int)
    ensures
        target_of(files, table, i, j) matches Some(t) ==> 0 <= t < files.len(),
{
}

proof fn lemma_chain_extend(files: Seq<FileSymbols>, table: Seq<Vec<Option<String>>>, eps: Seq<String>, c: Seq<int>, t: int)
    requires
        is_chain(files, table, eps, c),
        imports_file(files, table, c.last(), t),
    ensures
        is_chain(files, table, eps, c.push(t)),
{
    let d = c.push(t);
    let j = choose|j: int| 0 <= j < files[c.last()].imports@.len() && #[trigger] target_of(files, table, c.last(), j) == Some(t);
    lemma_target_in_range(files, table, c.last(), j);
    assert forall|k: int| 0 <= k < d.len() - 1 implies #[trigger] imports_file(files, table, d[k], d[k + 1]) by {
        if k < c.len() - 1 {
            assert(d[k] == c[k] && d[k + 1] == c[k + 1]);
        } else {
            assert(d[k] == c.last() && d[k + 1] == t);
        }
    }
    assert forall|k: int| 0 <= k < d.len() implies 0 <= #[trigger] d[k] < files.len() by {
        if k < c.len() {
            assert(d[k] == c[k]);
        }
    }
}

proof fn lemma_chain_closed(
    files: Seq<FileSymbols>,
    table: Seq<Vec<Option<String>>>,
    eps: Seq<String>,
    flags: Seq<bool>,
    c: Seq<int>,
)
    requires
        is_chain(files, table, eps, c),
        flags.len() == files.len(),
        forall|s: int| 0 <= s < files.len() && is_entry(files, eps, s) ==> #[trigger] flags[s],
        forall|i: int, t: int| 0 <= i < files.len() && flags[i] && #[trigger] imports_file(files, table, i, t) ==> flags[t],
    ensures
        flags[c.last()],
    decreases c.len(),
{
    if c.len() > 1 {
        let d = c.drop_last();
        assert forall|k: int| 0 <= k < d.len() - 1 implies #[trigger] imports_file(files, table, d[k], d[k + 1]) by {
            assert(imports_file(files, table, c[k], c[k + 1]));
        }
        assert forall|k: int| 0 <= k < d.len() implies 0 <= #[trigger] d[k] < files.len() by {
            assert(c[k] == d[k]);
        }
        lemma_chain_closed(files, table, eps, flags, d);
        assert(imports_file(files, table, c[c.len() - 2], c[c.len() - 2 + 1]));
        assert(0 <= c[c.len() - 2] < files.len());
    }
}

/// How many flags are down.
pub open spec fn count_false(s: Seq<bool>) -> int
    decreases s.len(),
{
    if s.len() == 0 {
        0
    } else {
        count_false(s.drop_last()) + if s.last() {
            0int
        } else {
            1int
        }
    }
}

proof fn lemma_count_false_raise(s: Seq<bool>, i: int)
    requires
        0 <= i < s.len(),
        !s[i],
    ensures
        count_false(s.update(i, true)) == count_false(s) - 1,
        count_false(s) >= 1,
    decreases s.len(),
{
    let u = s.update(i, true);
    lemma_count_false_nonneg(s.drop_last());
    if i == s.len() - 1 {
        assert(u.drop_last() =~= s.drop_last());
    } else {
        assert(u.drop_last() =~= s.drop_last().update(i, true));
        lemma_count_false_raise(s.drop_last(), i);
    }
}

proof fn lemma_count_false_nonneg(s: Seq<bool>)
    ensures
        count_false(s) >= 0,
    decreases s.len(),
{
    if s.len() > 0 {
        lemma_count_false_nonneg(s.drop_last());
    }
}

/// Flags the files reached from the entry points by following imports.
fn reached_files(files: &Vec<FileSymbols>, table: &Vec<Vec<Option<String>>>, eps: &Vec<String>) -> (flags: Vec<bool>)
    requires
        distinct_paths(files@),
        table_fits(files@, table@),
    ensures
        flags@.len() == files@.len(),
        forall|i: int| 0 <= i < files@.len() ==> (#[trigger] flags@[i] <==> reached(files@, table@, eps@, i)),
{
    let n = files.len();
    let mut flags: Vec<bool> = Vec::new();
    let mut i: usize = 0;
    while i < n
        invariant
            i <= n,
            n == files@.len(),
            flags@.len() == i,
            forall|s: int| 0 <= s < i ==> (#[trigger] flags@[s] <==> is_entry(files@, eps@, s)),
        decreases n - i,
    {
        let e = is_entry_point(eps, files[i].file_path.as_str());
        flags.push(e);
        i += 1;
    }
    proof {
        assert forall|s: int| 0 <= s < n && #[trigger] flags@[s] implies reached(files@, table@, eps@, s) by {
            let c = seq![s];
            assert(is_chain(files@, table@, eps@, c));
        }
    }
    loop
        invariant
            n == files@.len(),
            distinct_paths(files@),
            table_fits(files@, table@),
            flags@.len() == n,
            forall|s: int| 0 <= s < n && is_entry(files@, eps@, s) ==> #[trigger] flags@[s],
            forall|s: int| 0 <= s < n && #[trigger] flags@[s] ==> reached(files@, table@, eps@, s),
        ensures
            forall|a: int, t: int| 0 <= a < n && flags@[a] && #[trigger] imports_file(files@, table@, a, t) ==> flags@[t],
        decreases count_false(flags@),
    {
        let ghost start = flags@;
        let mut changed = false;
        let mut a: usize = 0;
        while a < n
            invariant
                a <= n,
                n == files@.len(),
                distinct_paths(files@),
                table_fits(files@, table@),
                flags@.len() == n,
                forall|s: int| 0 <= s < n && is_entry(files@, eps@, s) ==> #[trigger] flags@[s],
                forall|s: int| 0 <= s < n && #[trigger] flags@[s] ==> reached(files@, table@, eps@, s),
                !changed ==> flags@ == start,
                changed ==> count_false(flags@) < count_false(start),
                count_false(flags@) <= count_false(start),
                !changed ==> forall|a2: int, j: int|
                    0 <= a2 < a && flags@[a2] && 0 <= j < files@[a2].imports@.len() && (#[trigger] target_of(files@, table@, a2, j)) is Some
                        ==> flags@[target_of(files@, table@, a2, j)->0],
            decreases n - a,
        {
            if flags[a] {
                let mut j: usize = 0;
                while j < files[a].imports.len()
                    invariant
                        a < n,
                        j <= files@[a as int].imports@.len(),
                        n == files@.len(),
                        distinct_paths(files@),
                        table_fits(files@, table@),
                        flags@.len() == n,
                        flags@[a as int],
                        forall|s: int| 0 <= s < n && is_entry(files@, eps@, s) ==> #[trigger] flags@[s],
                        forall|s: int| 0 <= s < n && #[trigger] flags@[s] ==> reached(files@, table@, eps@, s),
                        !changed ==> flags@ == start,
                        changed ==> count_false(flags@) < count_false(start),
                        count_false(flags@) <= count_false(start),
                        !changed ==> forall|a2: int, j2: int|
                            0 <= a2 < a && flags@[a2] && 0 <= j2 < files@[a2].imports@.len() && (#[trigger] target_of(files@, table@, a2, j2)) is Some
                                ==> flags@[target_of(files@, table@, a2, j2)->0],
                        !changed ==> forall|j2: int|
                            0 <= j2 < j && (#[trigger] target_of(files@, table@, a as int, j2)) is Some
                                ==> flags@[target_of(files@, table@, a as int, j2)->0],
                    decreases files@[a as int].imports@.len() - j,
                {
                    match target_index(files, table, a, j) {
                        Some(t) => {
                            if !flags[t] {
                                proof {
                                    let c = choose|c: Seq<int>| #[trigger] is_chain(files@, table@, eps@, c) && c.last() == a as int;
                                    assert(imports_file(files@, table@, a as int, t as int));
                                    lemma_chain_extend(files@, table@, eps@, c, t as int);
                                    assert(c.push(t as int).last() == t as int);
                                    lemma_count_false_raise(flags@, t as int);
                                }
                                flags.set(t, true);
                                changed = true;
                            }
                        },
                        None => {},
                    }
                    j += 1;
                }
            }
            a += 1;
        }
        proof {
            lemma_count_false_nonneg(flags@);
        }
        if !changed {
            break;
        }
    }
    proof {
        assert forall|i: int| 0 <= i < n implies (#[trigger] flags@[i] <==> reached(files@, table@, eps@, i)) by {
            if reached(files@, table@, eps@, i) {
                let c = choose|c: Seq<int>| #[trigger] is_chain(files@, table@, eps@, c) && c.last() == i;
                assert forall|a: int, t: int| 0 <= a < files@.len() && flags@[a] && #[trigger] imports_file(files@, table@, a, t) implies flags@[t] by {}
                lemma_chain_closed(files@, table@, eps@, flags@, c);
            }
        }
    }
    flags
}

/// `(path, export)` for each export of `f`.
pub open spec fn export_pairs(f: FileSymbols) -> Set<(Seq<char>, Seq<char>)> {
    Set::new(|p: (Seq<char>, Seq<char>)| exists|k: int| 0 <= k < f.exports@.len() && p == (f.file_path@, #[trigger] f.exports@[k].name@))
}

/// `(path, symbol)` for each of `syms`.
pub open spec fn symbol_pairs(path: Seq<char>, syms: Seq<String>) -> Set<(Seq<char>, Seq<char>)> {
    Set::new(|p: (Seq<char>, Seq<char>)| exists|m: int| 0 <= m < syms.len() && p == (path, #[trigger] syms[m]@))
}

fn insert_exports_of(v: &mut Vec<(String, String)>, f: &FileSymbols)
    requires
        pairs_view(old(v)@).no_duplicates(),
    ensures
        pairs_view(final(v)@).no_duplicates(),
        pairs_view(final(v)@).to_set() == pairs_view(old(v)@).to_set().union(export_pairs(*f)),
{
    let ghost s0 = pairs_view(v@).to_set();
    let mut k: usize = 0;
    while k < f.exports.len()
        invariant
            k <= f.exports@.len(),
            pairs_view(v@).no_duplicates(),
            pairs_view(v@).to_set() == s0.union(
                Set::new(|p: (Seq<char>, Seq<char>)| exists|k2: int| 0 <= k2 < k && p == (f.file_path@, #[trigger] f.exports@[k2].name@)),
            ),
        decreases f.exports.len() - k,
    {
        insert_pair(v, f.file_path.as_str(), f.exports[k].name.as_str());
        assert(pairs_view(v@).to_set() =~= s0.union(
            Set::new(|p: (Seq<char>, Seq<char>)| exists|k2: int| 0 <= k2 < k + 1 && p == (f.file_path@, #[trigger] f.exports@[k2].name@)),
        )) by {
            assert(f.exports@[k as int].name@ == f.exports@[k as int].name@);
        }
        k += 1;
    }
    assert(pairs_view(v@).to_set() =~= s0.union(export_pairs(*f)));
}

fn insert_symbols_of(v: &mut Vec<(String, String)>, path: &str, syms: &Vec<String>)
    requires
        pairs_view(old(v)@).no_duplicates(),
    ensures
        pairs_view(final(v)@).no_duplicates(),
        pairs_view(final(v)@).to_set() == pairs_view(old(v)@).to_set().union(symbol_pairs(path@, syms@)),
{
    let ghost s0 = pairs_view(v@).to_set();
    let mut m: usize = 0;
    while m < syms.len()
        invariant
            m <= syms@.len(),
            pairs_view(v@).no_duplicates(),
            pairs_view(v@).to_set() == s0.union(symbol_pairs(path@, syms@.take(m as int))),
        decreases syms.len() - m,
    {
        insert_pair(v, path, syms[m].as_str());
        assert(pairs_view(v@).to_set() =~= s0.union(symbol_pairs(path@, syms@.take(m + 1)))) by {
            assert(syms@.take(m + 1)[m as int] == syms@[m as int]);
            assert forall|p: (Seq<char>, Seq<char>)| symbol_pairs(path@, syms@.take(m as int)).contains(p) implies symbol_pairs(
                path@,
                syms@.take(m + 1),
            ).contains(p) by {
                let w = choose|w: int| 0 <= w < m && p == (path@, #[trigger] syms@.take(m as int)[w]@);
                assert(syms@.take(m + 1)[w] == syms@.take(m as int)[w]);
            }
            assert forall|p: (Seq<char>, Seq<char>)| symbol_pairs(path@, syms@.take(m + 1)).contains(p) && p != (path@, syms@[m as int]@) implies symbol_pairs(
                path@,
                syms@.take(m as int),
            ).contains(p) by {
                let w = choose|w: int| 0 <= w < m + 1 && p == (path@, #[trigger] syms@.take(m + 1)[w]@);
                assert(syms@.take(m + 1)[w] == syms@.take(m as int)[w]);
            }
        }
        m += 1;
    }
    assert(syms@.take(m as int) =~= syms@);
}

impl DepGraph {
    /// Marks as reachable every export of an entry point and every symbol
    /// that a file reached from an entry point (by following resolved
    /// imports, `table` as for `build`) imports from a file of the graph.
    pub fn traverse_from_entry_points(&mut self, table: &Vec<Vec<Option<String>>>)
        requires
            distinct_paths(old(self).all_symbols@),
            table_fits(old(self).all_symbols@, table@),
            pairs_view(old(self).reachable_exports@).no_duplicates(),
        ensures
            final(self).all_symbols@ == old(self).all_symbols@,
            final(self).entry_points@ == old(self).entry_points@,
            final(self).import_edges@ == old(self).import_edges@,
            final(self).reverse_imports@ == old(self).reverse_imports@,
            pairs_view(final(self).reachable_exports@).no_duplicates(),
            pairs_view(final(self).reachable_exports@).to_set() == pairs_view(old(self).reachable_exports@).to_set().union(
                reachable_set(old(self).all_symbols@, table@, old(self).entry_points@),
            ),
    {
        let ghost files = self.all_symbols@;
        let ghost eps = self.entry_points@;
        let ghost s0 = pairs_view(self.reachable_exports@).to_set();
        let n = self.all_symbols.len();
        let flags = reached_files(&self.all_symbols, table, &self.entry_points);
        let mut acc: Vec<(String, String)> = Vec::new();
        std::mem::swap(&mut acc, &mut self.reachable_exports);
        let mut s: usize = 0;
        while s < n
            invariant
                s <= n,
                n == files.len(),
                self.all_symbols@ == files,
                self.entry_points@ == eps,
                pairs_view(acc@).no_duplicates(),
                pairs_view(acc@).to_set() == s0.union(entry_pairs(files, eps, s as int)),
            decreases n - s,
        {
            let f = &self.all_symbols[s];
            let ghost before = pairs_view(acc@).to_set();
            if is_entry_point(&self.entry_points, f.file_path.as_str()) {
                insert_exports_of(&mut acc, f);
                assert(pairs_view(acc@).to_set() =~= s0.union(entry_pairs(files, eps, s + 1))) by {
                    assert forall|p: (Seq<char>, Seq<char>)| export_pairs(*f).contains(p) implies entry_pairs(files, eps, s + 1).contains(p) by {
                        let k = choose|k: int| 0 <= k < f.exports@.len() && p == (f.file_path@, #[trigger] f.exports@[k].name@);
                        assert(files[s as int].exports@[k].name@ == f.exports@[k].name@);
                    }
                    assert forall|p: (Seq<char>, Seq<char>)| entry_pairs(files, eps, s + 1).contains(p) && !entry_pairs(files, eps, s as int).contains(p) implies export_pairs(*f).contains(p) by {
                        let (s2, k) = choose|s2: int, k: int|
                            0 <= s2 < s + 1 && s2 < files.len() && is_entry(files, eps, s2) && 0 <= k < files[s2].exports@.len()
                                && p == (files[s2].file_path@, #[trigger] files[s2].exports@[k].name@);
                        if s2 < s {
                            assert(entry_pairs(files, eps, s as int).contains(p));
                        }
                        assert(f.exports@[k].name@ == files[s2].exports@[k].name@);
                    }
                }
            } else {
                assert(pairs_view(acc@).to_set() =~= s0.union(entry_pairs(files, eps, s + 1))) by {
                    assert forall|p: (Seq<char>, Seq<char>)| entry_pairs(files, eps, s + 1).contains(p) implies entry_pairs(files, eps, s as int).contains(p) by {
                        let (s2, k) = choose|s2: int, k: int|
                            0 <= s2 < s + 1 && s2 < files.len() && is_entry(files, eps, s2) && 0 <= k < files[s2].exports@.len()
                                && p == (files[s2].file_path@, #[trigger] files[s2].exports@[k].name@);
                        assert(s2 != s);
                    }
                }
            }
            s += 1;
        }
        let ghost entries = entry_pairs(files, eps, n as int);
        let mut i: usize = 0;
        assert(import_pairs(files, table@, eps, 0, 0) =~= Set::empty());
        while i < n
            invariant
                i <= n,
                n == files.len(),
                self.all_symbols@ == files,
                self.entry_points@ == eps,
                distinct_paths(files),
                table_fits(files, table@),
                flags@.len() == n,
                forall|a: int| 0 <= a < n ==> (#[trigger] flags@[a] <==> reached(files, table@, eps, a)),
                pairs_view(acc@).no_duplicates(),
                pairs_view(acc@).to_set() == s0.union(entries).union(import_pairs(files, table@, eps, i as int, 0)),
            decreases n - i,
        {
            let f = &self.all_symbols[i];
            if flags[i] {
                let mut j: usize = 0;
                while j < f.imports.len()
                    invariant
                        i < n,
                        j <= f.imports@.len(),
                        n == files.len(),
                        self.all_symbols@ == files,
                        *f == files[i as int],
                        distinct_paths(files),
                        table_fits(files, table@),
                        reached(files, table@, eps, i as int),
                        pairs_view(acc@).no_duplicates(),
                        pairs_view(acc@).to_set() == s0.union(entries).union(import_pairs(files, table@, eps, i as int, j as int)),
                    decreases f.imports.len() - j,
                {
                    match target_index(&self.all_symbols, table, i, j) {
                        Some(t) => {
                            let imp = &f.imports[j];
                            insert_symbols_of(&mut acc, self.all_symbols[t].file_path.as_str(), &imp.symbols);
                            proof {
                                lemma_import_pairs_step(files, table@, eps, i as int, j as int);
                            }
                        },
                        None => {
                            proof {
                                lemma_import_pairs_step(files, table@, eps, i as int, j as int);
                            }
                        },
                    }
                    assert(pairs_view(acc@).to_set() =~= s0.union(entries).union(import_pairs(files, table@, eps, i as int, j + 1)));
                    j += 1;
                }
                proof {
                    lemma_import_pairs_next_file(files, table@, eps, i as int);
                }
            } else {
                proof {
                    lemma_import_pairs_unreached(files, table@, eps, i as int);
                }
            }
            i += 1;
        }
        self.reachable_exports = acc;
        assert(s0.union(entries).union(import_pairs(files, table@, eps, n as int, 0)) =~= s0.union(reachable_set(files, table@, eps)));
    }
}

/// One import further: its pairs are added where it resolves to a file.
proof fn lemma_import_pairs_step(files: Seq<FileSymbols>, table: Seq<Vec<Option<String>>>, eps: Seq<String>, i: int, j: int)
    requires
        0 <= i < files.len(),
        0 <= j < files[i].imports@.len(),
        reached(files, table, eps, i),
    ensures
        import_pairs(files, table, eps, i, j + 1) == import_pairs(files, table, eps, i, j).union(
            match target_of(files, table, i, j) {
                Some(t) => symbol_pairs(files[t].file_path@, files[i].imports@[j].symbols@),
                None => Set::empty(),
            },
        ),
{
    let lhs = import_pairs(files, table, eps, i, j + 1);
    let rhs = import_pairs(files, table, eps, i, j).union(
        match target_of(files, table, i, j) {
            Some(t) => symbol_pairs(files[t].file_path@, files[i].imports@[j].symbols@),
            None => Set::empty(),
        },
    );
    assert forall|p: (Seq<char>, Seq<char>)| lhs.contains(p) implies rhs.contains(p) by {
        let (i2, j2, m) = choose|i2: int, j2: int, m: int|
            #![trigger target_of(files, table, i2, j2), files[i2].imports@[j2].symbols@[m]]
            0 <= i2 < files.len() && (i2 < i || (i2 == i && j2 < j + 1)) && reached(files, table, eps, i2) && 0 <= j2
                < files[i2].imports@.len() && target_of(files, table, i2, j2) is Some && 0 <= m
                < files[i2].imports@[j2].symbols@.len() && p == (
                files[target_of(files, table, i2, j2)->0].file_path@,
                files[i2].imports@[j2].symbols@[m]@,
            );
        if i2 == i && j2 == j {
            let t = target_of(files, table, i, j)->0;
            assert(files[i].imports@[j].symbols@[m]@ == files[i].imports@[j].symbols@[m]@);
            assert(symbol_pairs(files[t].file_path@, files[i].imports@[j].symbols@).contains(p));
        } else {
            assert(import_pairs(files, table, eps, i, j).contains(p));
        }
    }
    assert forall|p: (Seq<char>, Seq<char>)| rhs.contains(p) implies lhs.contains(p) by {
        if import_pairs(files, table, eps, i, j).contains(p) {
            let (i2, j2, m) = choose|i2: int, j2: int, m: int|
                #![trigger target_of(files, table, i2, j2), files[i2].imports@[j2].symbols@[m]]
                0 <= i2 < files.len() && (i2 < i || (i2 == i && j2 < j)) && reached(files, table, eps, i2) && 0 <= j2
                    < files[i2].imports@.len() && target_of(files, table, i2, j2) is Some && 0 <= m
                    < files[i2].imports@[j2].symbols@.len() && p == (
                    files[target_of(files, table, i2, j2)->0].file_path@,
                    files[i2].imports@[j2].symbols@[m]@,
                );
            assert(lhs.contains(p));
        } else {
            let t = target_of(files, table, i, j)->0;
            let m = choose|m: int| 0 <= m < files[i].imports@[j].symbols@.len() && p == (files[t].file_path@, #[trigger] files[i].imports@[j].symbols@[m]@);
            assert(target_of(files, table, i, j) == Some(t));
            assert(lhs.contains(p));
        }
    }
    assert(lhs =~= rhs);
}

/// After the last import of a file, the next file starts where it ended.
proof fn lemma_import_pairs_next_file(files: Seq<FileSymbols>, table: Seq<Vec<Option<String>>>, eps: Seq<String>, i: int)
    requires
        0 <= i < files.len(),
    ensures
        import_pairs(files, table, eps, i + 1, 0) == import_pairs(files, table, eps, i, files[i].imports@.len() as int),
{
    assert(import_pairs(files, table, eps, i + 1, 0) =~= import_pairs(files, table, eps, i, files[i].imports@.len() as int));
}

/// A file not reached adds nothing.
proof fn lemma_import_pairs_unreached(files: Seq<FileSymbols>, table: Seq<Vec<Option<String>>>, eps: Seq<String>, i: int)
    requires
        0 <= i < files.len(),
        !reached(files, table, eps, i),
    ensures
        import_pairs(files, table, eps, i + 1, 0) == import_pairs(files, table, eps, i, 0),
{
    assert(import_pairs(files, table, eps, i + 1, 0) =~= import_pairs(files, table, eps, i, 0));
}

/// The file stems that mark an entry point by name.
pub open spec fn entry_stem(st: Seq<char>) -> bool {
    st == "index"@ || st == "main"@ || st == "cli"@ || st == "app"@
}

/// A source that runs itself when executed directly.
pub open spec fn self_running(src: Seq<char>) -> bool {
    contains(src, "require.main === module"@) || contains(src, "import.meta.url"@)
}

/// File `i` is an entry point: a path that the package manifest names
/// (`listed`), a well-known file name, or a source that runs itself.
pub open spec fn entry_candidate(files: Seq<FileSymbols>, listed: Seq<String>, sources: Seq<Option<String>>, i: int) -> bool {
    let p = files[i].file_path@;
    ||| exists|e: int| 0 <= e < listed.len() && #[trigger] listed[e]@ == p
    ||| (stem_of(p) matches Some(st) && entry_stem(st))
    ||| (sources[i] matches Some(src) && self_running(src@))
}

/// The paths of the entry points among `files`.
pub open spec fn entry_set(files: Seq<FileSymbols>, listed: Seq<String>, sources: Seq<Option<String>>) -> Set<Seq<char>> {
    Set::new(
        |p: Seq<char>|
            exists|i: int| 0 <= i < files.len() && #[trigger] files[i].file_path@ == p && entry_candidate(files, listed, sources, i),
    )
}

fn listed_in(list: &[String], p: &str) -> (b: bool)
    ensures
        b == exists|e: int| 0 <= e < list@.len() && #[trigger] list@[e]@ == p@,
{
    let mut e: usize = 0;
    while e < list.len()
        invariant
            e <= list@.len(),
            forall|k: int| 0 <= k < e ==> list@[k]@ != p@,
        decreases list.len() - e,
    {
        if str_eq(list[e].as_str(), p) {
            return true;
        }
        e += 1;
    }
    false
}

fn is_entry_stem(p: &str) -> (b: bool)
    ensures
        b == (stem_of(p@) matches Some(st) && entry_stem(st)),
{
    match path_stem(p) {
        Some(st) => str_eq(st.as_str(), "index") || str_eq(st.as_str(), "main") || str_eq(st.as_str(), "cli") || str_eq(
            st.as_str(),
            "app",
        ),
        None => false,
    }
}

fn runs_itself(src: &Option<String>) -> (b: bool)
    ensures
        b == (*src matches Some(s) && self_running(s@)),
{
    match src {
        Some(s) => str_contains(s.as_str(), "require.main === module") || str_contains(s.as_str(), "import.meta.url"),
        None => false,
    }
}

impl DepGraph {
    /// Sets the entry points: the files of the graph that the package
    /// manifest names (`listed`, paths as the graph holds them), whose stem
    /// is `index`, `main`, `cli` or `app`, or whose source (`sources[i]` for
    /// file `i`, `None` where it could not be read) holds
    /// `require.main === module` or `import.meta.url`. Each once.
    pub fn detect_entry_points(&mut self, listed: &[String], sources: &[Option<String>])
        requires
            sources@.len() == old(self).all_symbols@.len(),
        ensures
            final(self).all_symbols@ == old(self).all_symbols@,
            final(self).import_edges@ == old(self).import_edges@,
            final(self).reverse_imports@ == old(self).reverse_imports@,
            final(self).reachable_exports@ == old(self).reachable_exports@,
            strings_view(final(self).entry_points@).no_duplicates(),
            strings_view(final(self).entry_points@).to_set() == entry_set(old(self).all_symbols@, listed@, sources@),
    {
        let ghost files = self.all_symbols@;
        let mut eps: Vec<String> = Vec::new();
        let n = self.all_symbols.len();
        let mut i: usize = 0;
        while i < n
            invariant
                i <= n,
                n == files.len(),
                sources@.len() == n,
                self.all_symbols@ == files,
                strings_view(eps@).no_duplicates(),
                strings_view(eps@).to_set() == Set::new(
                    |p: Seq<char>|
                        exists|i2: int|
                            0 <= i2 < i && #[trigger] files[i2].file_path@ == p && entry_candidate(files, listed@, sources@, i2),
                ),
            decreases n - i,
        {
            let path = self.all_symbols[i].file_path.as_str();
            let ghost before = strings_view(eps@);
            let cand = listed_in(listed, path) || is_entry_stem(path) || runs_itself(&sources[i]);
            assert(cand == entry_candidate(files, listed@, sources@, i as int));
            if cand {
                if is_entry_point(&eps, path) {
                    proof {
                        let k = choose|k: int| 0 <= k < eps@.len() && #[trigger] eps@[k]@ == path@;
                        assert(strings_view(eps@)[k] == path@);
                    }
                } else {
                    eps.push(to_string(path));
                    assert(strings_view(eps@) =~= before.push(path@));
                    proof {
                        before.lemma_push_to_set_commute(path@);
                        assert forall|k: int| 0 <= k < before.len() implies before[k] != path@ by {
                            assert(eps@[k]@ == before[k]);
                        }
                    }
                }
            }
            assert(strings_view(eps@).to_set() =~= Set::new(
                |p: Seq<char>|
                    exists|i2: int|
                        0 <= i2 < i + 1 && #[trigger] files[i2].file_path@ == p && entry_candidate(files, listed@, sources@, i2),
            ));
            i += 1;
        }
        assert(strings_view(eps@).to_set() =~= entry_set(files, listed@, sources@));
        self.entry_points = eps;
    }
}

/// The exports among `exps` whose `(path, name)` is not in `reach`, in
/// order, each with `path`.
pub open spec fn unreached_in(path: Seq<char>, exps: Seq<Export>, reach: Seq<(Seq<char>, Seq<char>)>) -> Seq<(Seq<char>, ExportView)>
    decreases exps.len(),
{
    if exps.len() == 0 {
        Seq::empty()
    } else {
        let rest = unreached_in(path, exps.drop_last(), reach);
        if reach.contains((path, exps.last().name@)) {
            rest
        } else {
            rest.push((path, exps.last()@))
        }
    }
}

/// The exports of all `files` that `reach` lacks, file by file.
pub open spec fn unreached_exports(files: Seq<FileSymbols>, reach: Seq<(Seq<char>, Seq<char>)>) -> Seq<(Seq<char>, ExportView)>
    decreases files.len(),
{
    if files.len() == 0 {
        Seq::empty()
    } else {
        unreached_exports(files.drop_last(), reach) + unreached_in(files.last().file_path@, files.last().exports@, reach)
    }
}

/// The order of unused exports: by path, then start line.
pub open spec fn export_le() -> spec_fn((Seq<char>, ExportView), (Seq<char>, ExportView)) -> bool {
    |a: (Seq<char>, ExportView), b: (Seq<char>, ExportView)| location_le(a.0, a.1.start_line as int, b.0, b.1.start_line as int)
}

pub open spec fn found_view<'a>(v: Seq<(String, &'a Export)>) -> Seq<(Seq<char>, ExportView)> {
    v.map_values(|p: (String, &'a Export)| (p.0@, p.1@))
}

impl<'a> Located for (String, &'a Export) {
    open spec fn loc_path(&self) -> Seq<char> {
        self.0@
    }

    open spec fn loc_line(&self) -> int {
        self.1.start_line as int
    }

    fn location(&self) -> (r: (&str, usize)) {
        (self.0.as_str(), self.1.start_line)
    }
}

impl DepGraph {
    /// The exports that are not reachable, each with its file's path,
    /// ordered by path and then start line (exports of one file on the same
    /// line in their order in the file).
    pub fn find_unused_exports(&self) -> (r: Vec<(String, &Export)>)
        ensures
            found_view(r@) == stable_sort(unreached_exports(self.all_symbols@, pairs_view(self.reachable_exports@)), export_le()),
    {
        let ghost files = self.all_symbols@;
        let ghost reach = pairs_view(self.reachable_exports@);
        let mut all: Vec<(String, &Export)> = Vec::new();
        let mut i: usize = 0;
        while i < self.all_symbols.len()
            invariant
                i <= files.len(),
                files == self.all_symbols@,
                reach == pairs_view(self.reachable_exports@),
                found_view(all@) == unreached_exports(files.take(i as int), reach),
            decreases files.len() - i,
        {
            let f = &self.all_symbols[i];
            let ghost head = found_view(all@);
            let mut k: usize = 0;
            while k < f.exports.len()
                invariant
                    k <= f.exports@.len(),
                    i < files.len(),
                    *f == files[i as int],
                    files == self.all_symbols@,
                    reach == pairs_view(self.reachable_exports@),
                    found_view(all@) == head + unreached_in(f.file_path@, f.exports@.take(k as int), reach),
                decreases f.exports.len() - k,
            {
                let ghost before = found_view(all@);
                assert(f.exports@.take(k + 1).drop_last() =~= f.exports@.take(k as int));
                assert(f.exports@.take(k + 1).last() == f.exports@[k as int]);
                if !holds_pair(&self.reachable_exports, f.file_path.as_str(), f.exports[k].name.as_str()) {
                    all.push((to_string(f.file_path.as_str()), &f.exports[k]));
                    assert(found_view(all@) =~= before.push((f.file_path@, f.exports@[k as int]@)));
                }
                k += 1;
            }
            assert(f.exports@.take(k as int) =~= f.exports@);
            assert(files.take(i + 1).drop_last() =~= files.take(i as int));
            assert(files.take(i + 1).last() == files[i as int]);
            i += 1;
        }
        assert(files.take(i as int) =~= files);
        let ghost whole = all@;
        let out = sort_by_location(all);
        proof {
            let fv = |p: (String, &Export)| (p.0@, p.1@);
            assert forall|a: (String, &Export), b: (String, &Export)| #[trigger] located_le::<(String, &Export)>()(a, b) == export_le()(fv(a), fv(b)) by {}
            lemma_stable_sort_map(whole, located_le::<(String, &Export)>(), fv, export_le());
            assert(found_view(whole) == whole.map_values(fv));
            assert(found_view(out@) == out@.map_values(fv));
        }
        out
    }
}

/// `g` is the complete graph of its files: its edges are those of `table`,
/// a resolution of every import; its entry points those of `listed` and of
/// the file texts `sources`; its reachable exports those reached from them.
pub open spec fn graph_complete<F: Fn(&str) -> Option<Option<String>>, G: Fn(&str) -> Option<Option<String>>>(
    g: DepGraph,
    probe: F,
    read_main: G,
    listed: Seq<String>,
    table: Seq<Vec<Option<String>>>,
    sources: Seq<Option<String>>,
) -> bool {
    let files = g.all_symbols@;
    &&& distinct_paths(files)
    &&& table_fits(files, table)
    &&& table_resolved(probe, read_main, files, table)
    &&& sources.len() == files.len()
    &&& edges_view(g.import_edges@) == edges_upto(files, table, files.len() as int)
    &&& edges_view(g.reverse_imports@) == reversed(edges_view(g.import_edges@))
    &&& strings_view(g.entry_points@).no_duplicates()
    &&& strings_view(g.entry_points@).to_set() == entry_set(files, listed, sources)
    &&& pairs_view(g.reachable_exports@).no_duplicates()
    &&& pairs_view(g.reachable_exports@).to_set() == reachable_set(files, table, g.entry_points@)
}

/// The graph of `symbols` with everything worked out: imports resolved
/// through `probe` and `read_main` (see `resolve_import`), edges built,
/// entry points detected from `listed` (the manifest's entry paths, as the
/// graph holds paths) and from each file's text as `read_source` gives it
/// (`None` where it cannot be read), and the exports reachable from them
/// marked.
pub fn build_complete_graph<
    F: Fn(&str) -> Option<Option<String>>,
    G: Fn(&str) -> Option<Option<String>>,
    H: Fn(&str) -> Option<String>,
>(symbols: Vec<FileSymbols>, probe: &F, read_main: &G, listed: &[String], read_source: &H) -> (g: DepGraph)
    requires
        forall|s: &str| call_requires(*probe, (s,)),
        forall|s: &str| call_requires(*read_main, (s,)),
        forall|s: &str| call_requires(*read_source, (s,)),
    ensures
        g.all_symbols@ == keyed_by_path(symbols@),
        exists|table: Seq<Vec<Option<String>>>, sources: Seq<Option<String>>|
            #[trigger] graph_complete(g, *probe, *read_main, listed@, table, sources),
{
    let mut g = DepGraph::new(symbols);
    let table = resolve_all(&g, probe, read_main);
    assert(edges_view(g.reverse_imports@) =~= reversed(edges_view(g.import_edges@)));
    g.build(&table);
    assert(edges_view(g.import_edges@) =~= edges_upto(g.all_symbols@, table@, g.all_symbols@.len() as int));
    let mut sources: Vec<Option<String>> = Vec::new();
    let mut i: usize = 0;
    while i < g.all_symbols.len()
        invariant
            i <= g.all_symbols@.len(),
            sources@.len() == i,
            forall|s: &str| call_requires(*read_source, (s,)),
        decreases g.all_symbols@.len() - i,
    {
        sources.push(read_source(g.all_symbols[i].file_path.as_str()));
        i += 1;
    }
    g.detect_entry_points(listed, sources.as_slice());
    assert(pairs_view(g.reachable_exports@) =~= Seq::empty());
    g.traverse_from_entry_points(&table);
    assert(pairs_view(g.reachable_exports@).to_set() =~= reachable_set(g.all_symbols@, table@, g.entry_points@));
    assert(graph_complete(g, *probe, *read_main, listed@, table@, sources@));
    g
}

/// The directory `k` levels up from `d`, `d` itself at level nought.
pub open spec fn ancestor(d: Seq<char>, k: nat) -> Option<Seq<char>>
    decreases k,
{
    if k == 0 {
        Some(d)
    } else {
        match ancestor(d, (k - 1) as nat) {
            Some(a) => parent_of(a),
            None => None,
        }
    }
}

/// What an existence check can answer for a path.
pub open spec fn answers<E: Fn(&str) -> bool>(f: E) -> spec_fn(Seq<char>, bool) -> bool {
    |p: Seq<char>, b: bool| exists|s: &str| s@ == p && call_ensures(f, (s,), b)
}

/// Searching from `d` upwards stops at level `k` with `r`: every directory
/// below it was said to hold no `package.json`, and `r` is the directory
/// at level `k` said to hold one, or `None` when there is no such level.
pub open spec fn root_at(ans: spec_fn(Seq<char>, bool) -> bool, d: Seq<char>, r: Option<String>, k: nat) -> bool {
    &&& forall|j: nat| j < k ==> (#[trigger] ancestor(d, j) matches Some(a) && ans(join_of(a, "package.json"@), false))
    &&& match r {
        Some(x) => ancestor(d, k) == Some(x@) && ans(join_of(x@, "package.json"@), true),
        None => ancestor(d, k) is None,
    }
}

/// Searching up from the directory of `first` gives `r`.
pub open spec fn root_search(ans: spec_fn(Seq<char>, bool) -> bool, first: Seq<char>, r: Option<String>) -> bool {
    match parent_of(first) {
        None => r is None,
        Some(d) => exists|k: nat| #[trigger] root_at(ans, d, r, k),
    }
}

/// The project root: the nearest directory, from the first file's own
/// directory up, that `has_file` says holds a `package.json`. `None` when
/// there are no files, the first has no directory, or no directory up to
/// the top holds one.
pub fn find_project_root<E: Fn(&str) -> bool>(file_paths: &[String], has_file: &E) -> (r: Option<String>)
    requires
        forall|s: &str| call_requires(*has_file, (s,)),
    ensures
        file_paths@.len() == 0 ==> r is None,
        file_paths@.len() > 0 ==> root_search(answers(*has_file), file_paths@[0]@, r),
{
    if file_paths.len() == 0 {
        return None;
    }
    let mut dir = match path_parent(file_paths[0].as_str()) {
        Some(d) => d,
        None => return None,
    };
    let ghost d0 = dir@;
    let ghost ans = answers(*has_file);
    let ghost mut k: nat = 0;
    loop
        invariant
            forall|s: &str| call_requires(*has_file, (s,)),
            file_paths@.len() > 0,
            parent_of(file_paths@[0]@) == Some(d0),
            ans == answers(*has_file),
            ancestor(d0, k) == Some(dir@),
            forall|j: nat| j < k ==> (#[trigger] ancestor(d0, j) matches Some(a) && ans(join_of(a, "package.json"@), false)),
        decreases dir@.len(),
    {
        let manifest = path_join(dir.as_str(), "package.json");
        let found = has_file(manifest.as_str());
        assert(ans(join_of(dir@, "package.json"@), found));
        if found {
            assert(root_at(answers(*has_file), d0, Some(dir), k));
            assert(parent_of(file_paths@[0]@) == Some(d0));
            proof {
                let first = file_paths@[0]@;
                assert(parent_of(first)->0 == d0);
                assert(exists|k2: nat| #[trigger] root_at(answers(*has_file), parent_of(first)->0, Some(dir), k2));
            }
            assert(root_search(answers(*has_file), file_paths@[0]@, Some(dir)));
            return Some(dir);
        }
        match path_parent(dir.as_str()) {
            Some(p) => {
                proof {
                    assert(ancestor(d0, k + 1) == Some(p@));
                    assert forall|j: nat| j < k + 1 implies (#[trigger] ancestor(d0, j) matches Some(a) && ans(
                        join_of(a, "package.json"@),
                        false,
                    )) by {
                        if j == k {
                            assert(ancestor(d0, j) == Some(dir@));
                        }
                    }
                    k = k + 1;
                }
                dir = p;
            },
            None => {
                proof {
                    assert(ancestor(d0, k + 1) is None);
                    assert forall|j: nat| j < k + 1 implies (#[trigger] ancestor(d0, j) matches Some(a) && ans(
                        join_of(a, "package.json"@),
                        false,
                    )) by {
                        if j == k {
                            assert(ancestor(d0, j) == Some(dir@));
                        }
                    }
                    assert(root_at(answers(*has_file), d0, None, (k + 1) as nat));
                    let first = file_paths@[0]@;
                    assert(parent_of(first)->0 == d0);
                    assert(exists|k2: nat| #[trigger] root_at(answers(*has_file), parent_of(first)->0, None, k2));
                    assert(root_search(answers(*has_file), file_paths@[0]@, None));
                }
                return None;
            },
        }
    }
}

/// Edge `e` links a symbol of a file of the graph to an export of that name
/// of a file of the graph.
pub open spec fn edge_ok(files: Seq<FileSymbols>, e: ((Seq<char>, Seq<char>), (Seq<char>, Seq<char>))) -> bool {
    &&& e.0.1 == e.1.1
    &&& exists|i: int| 0 <= i < files.len() && #[trigger] files[i].file_path@ == e.0.0
    &&& exists|t: int| 0 <= t < files.len() && #[trigger] files[t].file_path@ == e.1.0 && exports_name(files[t], e.1.1)
}

pub open spec fn edges_ok(files: Seq<FileSymbols>, es: Seq<((Seq<char>, Seq<char>), (Seq<char>, Seq<char>))>) -> bool {
    forall|k: int| 0 <= k < es.len() ==> #[trigger] edge_ok(files, es[k])
}

proof fn lemma_edges_ok_concat(
    files: Seq<FileSymbols>,
    a: Seq<((Seq<char>, Seq<char>), (Seq<char>, Seq<char>))>,
    b: Seq<((Seq<char>, Seq<char>), (Seq<char>, Seq<char>))>,
)
    requires
        edges_ok(files, a),
        edges_ok(files, b),
    ensures
        edges_ok(files, a + b),
{
    assert forall|k: int| 0 <= k < (a + b).len() implies #[trigger] edge_ok(files, (a + b)[k]) by {
        if k < a.len() {
            assert((a + b)[k] == a[k]);
        } else {
            assert((a + b)[k] == b[k - a.len()]);
        }
    }
}

proof fn lemma_symbol_edges_ok(files: Seq<FileSymbols>, i: int, t: int, syms: Seq<Seq<char>>)
    requires
        0 <= i < files.len(),
        0 <= t < files.len(),
    ensures
        edges_ok(files, symbol_edges(files[i].file_path@, files[t], syms)),
    decreases syms.len(),
{
    if syms.len() > 0 {
        lemma_symbol_edges_ok(files, i, t, syms.drop_last());
        let tail = if exports_name(files[t], syms.last()) {
            seq![edge(files[i].file_path@, files[t].file_path@, syms.last())]
        } else {
            Seq::empty()
        };
        assert forall|k: int| 0 <= k < tail.len() implies #[trigger] edge_ok(files, tail[k]) by {
            assert(files[i].file_path@ == tail[k].0.0);
            assert(files[t].file_path@ == tail[k].1.0);
        }
        lemma_edges_ok_concat(files, symbol_edges(files[i].file_path@, files[t], syms.drop_last()), tail);
    }
}

proof fn lemma_namespace_edges_ok(files: Seq<FileSymbols>, i: int, t: int, k: int)
    requires
        0 <= i < files.len(),
        0 <= t < files.len(),
        k <= files[t].exports@.len(),
    ensures
        edges_ok(files, namespace_edges(files[i].file_path@, files[t], k)),
    decreases k,
{
    if k > 0 {
        lemma_namespace_edges_ok(files, i, t, k - 1);
        let e = edge(files[i].file_path@, files[t].file_path@, files[t].exports@[k - 1].name@);
        assert(files[i].file_path@ == e.0.0);
        assert(files[t].file_path@ == e.1.0);
        assert(exports_name(files[t], files[t].exports@[k - 1].name@));
        assert(edge_ok(files, e));
        lemma_edges_ok_concat(files, namespace_edges(files[i].file_path@, files[t], k - 1), seq![e]);
    }
}

proof fn lemma_file_edges_ok(files: Seq<FileSymbols>, table: Seq<Vec<Option<String>>>, i: int, j: int)
    requires
        0 <= i < files.len(),
        j <= files[i].imports@.len(),
    ensures
        edges_ok(files, file_edges(files, table, i, j)),
    decreases j,
{
    if j > 0 {
        lemma_file_edges_ok(files, table, i, j - 1);
        let ie = import_edges(files, table, i, j - 1);
        match target_of(files, table, i, j - 1) {
            Some(t) => {
                lemma_target_in_range(files, table, i, j - 1);
                let imp = files[i].imports@[j - 1];
                lemma_symbol_edges_ok(files, i, t, strings_view(imp.symbols@));
                lemma_namespace_edges_ok(files, i, t, files[t].exports@.len() as int);
                lemma_edges_ok_concat(
                    files,
                    symbol_edges(files[i].file_path@, files[t], strings_view(imp.symbols@)),
                    if imp.is_namespace {
                        namespace_edges(files[i].file_path@, files[t], files[t].exports@.len() as int)
                    } else {
                        Seq::empty()
                    },
                );
            },
            None => {},
        }
        lemma_edges_ok_concat(files, file_edges(files, table, i, j - 1), ie);
    }
}

/// Every import edge that `build` adds for the first `k` files links a
/// symbol of a file of the graph to an export of the same name in a file of
/// the graph.
pub proof fn law_edges_reach_exports(files: Seq<FileSymbols>, table: Seq<Vec<Option<String>>>, k: int)
    requires
        k <= files.len(),
    ensures
        edges_ok(files, edges_upto(files, table, k)),
    decreases k,
{
    if k > 0 {
        law_edges_reach_exports(files, table, k - 1);
        lemma_file_edges_ok(files, table, k - 1, files[k - 1].imports@.len() as int);
        lemma_edges_ok_concat(
            files,
            edges_upto(files, table, k - 1),
            file_edges(files, table, k - 1, files[k - 1].imports@.len() as int),
        );
    }
}

/// The reverse edges mirror the import edges: each reverse edge is the
/// import edge at the same place turned around, and turning them around
/// again gives the import edges back.
pub proof fn law_edges_mirror(es: Seq<((Seq<char>, Seq<char>), (Seq<char>, Seq<char>))>)
    ensures
        reversed(es).len() == es.len(),
        forall|i: int| 0 <= i < es.len() ==> #[trigger] reversed(es)[i] == (es[i].1, es[i].0),
        reversed(reversed(es)) == es,
        forall|a: (Seq<char>, Seq<char>), b: (Seq<char>, Seq<char>)|
            #[trigger] reversed(es).to_multiset().count((b, a)) == es.to_multiset().count((a, b)),
{
    assert(reversed(reversed(es)) =~= es);
    lemma_reversed_counts(es);
}

proof fn lemma_reversed_counts(es: Seq<((Seq<char>, Seq<char>), (Seq<char>, Seq<char>))>)
    ensures
        forall|a: (Seq<char>, Seq<char>), b: (Seq<char>, Seq<char>)|
            #[trigger] reversed(es).to_multiset().count((b, a)) == es.to_multiset().count((a, b)),
    decreases es.len(),
{
    broadcast use vstd::seq_lib::to_multiset_build;

    if es.len() > 0 {
        let d = es.drop_last();
        let x = es.last();
        lemma_reversed_counts(d);
        assert(es =~= d.push(x));
        assert(reversed(es) =~= reversed(d).push((x.1, x.0)));
        assert forall|a: (Seq<char>, Seq<char>), b: (Seq<char>, Seq<char>)|
            #[trigger] reversed(es).to_multiset().count((b, a)) == es.to_multiset().count((a, b)) by {
            assert(reversed(d).push((x.1, x.0)).to_multiset() =~= reversed(d).to_multiset().insert((x.1, x.0)));
            assert(d.push(x).to_multiset() =~= d.to_multiset().insert(x));
            assert(reversed(d).to_multiset().count((b, a)) == d.to_multiset().count((a, b)));
        }
    } else {
        broadcast use vstd::seq_lib::to_multiset_contains;

        assert(reversed(es).len() == 0);
    }
}

/// Every edge that `build` adds for all the files links a symbol of a file
/// of the graph to an export of the same name in a file of the graph, and
/// each such edge occurs among the reverse edges turned around exactly as
/// often as among the import edges.
pub proof fn law_build_edges(files: Seq<FileSymbols>, table: Seq<Vec<Option<String>>>)
    ensures
        edges_ok(files, edges_upto(files, table, files.len() as int)),
        forall|a: (Seq<char>, Seq<char>), b: (Seq<char>, Seq<char>)|
            #[trigger] reversed(edges_upto(files, table, files.len() as int)).to_multiset().count((b, a))
                == edges_upto(files, table, files.len() as int).to_multiset().count((a, b)),
{
    law_edges_reach_exports(files, table, files.len() as int);
    lemma_reversed_counts(edges_upto(files, table, files.len() as int));
}

/// What traversal marks reachable: every export of an entry point, and
/// every symbol that a file reached from an entry point imports from a file
/// of the graph; an entry point is itself reached; and traversal only adds
/// to what was reachable before.
pub proof fn law_reachable_includes(
    files: Seq<FileSymbols>,
    table: Seq<Vec<Option<String>>>,
    eps: Seq<String>,
    before: Set<(Seq<char>, Seq<char>)>,
)
    ensures
        forall|s: int, k: int|
            0 <= s < files.len() && is_entry(files, eps, s) && 0 <= k < files[s].exports@.len() ==> reachable_set(
                files,
                table,
                eps,
            ).contains((files[s].file_path@, #[trigger] files[s].exports@[k].name@)),
        forall|s: int| 0 <= s < files.len() && #[trigger] is_entry(files, eps, s) ==> reached(files, table, eps, s),
        forall|i: int, j: int, m: int|
            0 <= i < files.len() && reached(files, table, eps, i) && 0 <= j < files[i].imports@.len()
                && #[trigger] target_of(files, table, i, j) is Some && 0 <= m < files[i].imports@[j].symbols@.len()
                ==> reachable_set(files, table, eps).contains(
                (
                    files[target_of(files, table, i, j)->0].file_path@,
                    #[trigger] files[i].imports@[j].symbols@[m]@,
                ),
            ),
        before.subset_of(before.union(reachable_set(files, table, eps))),
{
    assert forall|s: int, k: int|
        0 <= s < files.len() && is_entry(files, eps, s) && 0 <= k < files[s].exports@.len() implies reachable_set(
            files,
            table,
            eps,
        ).contains((files[s].file_path@, #[trigger] files[s].exports@[k].name@)) by {
        assert(entry_pairs(files, eps, files.len() as int).contains((files[s].file_path@, files[s].exports@[k].name@)));
    }
    assert forall|s: int| 0 <= s < files.len() && #[trigger] is_entry(files, eps, s) implies reached(files, table, eps, s) by {
        let c = seq![s];
        assert(is_chain(files, table, eps, c));
    }
    assert forall|i: int, j: int, m: int|
        0 <= i < files.len() && reached(files, table, eps, i) && 0 <= j < files[i].imports@.len()
            && #[trigger] target_of(files, table, i, j) is Some && 0 <= m < files[i].imports@[j].symbols@.len()
            implies reachable_set(files, table, eps).contains(
            (
                files[target_of(files, table, i, j)->0].file_path@,
                #[trigger] files[i].imports@[j].symbols@[m]@,
            ),
        ) by {
        assert(import_pairs(files, table, eps, files.len() as int, 0).contains(
            (files[target_of(files, table, i, j)->0].file_path@, files[i].imports@[j].symbols@[m]@),
        ));
    }
}

/// The entry points are files of the graph, and they include every file
/// that the package manifest names, whose stem is `index`, `main`, `cli` or
/// `app`, or whose source runs itself.
pub proof fn law_entry_points(files: Seq<FileSymbols>, listed: Seq<String>, sources: Seq<Option<String>>)
    requires
        sources.len() == files.len(),
    ensures
        forall|p: Seq<char>|
            #[trigger] entry_set(files, listed, sources).contains(p) ==> exists|i: int|
                0 <= i < files.len() && #[trigger] files[i].file_path@ == p,
        forall|i: int|
            0 <= i < files.len() && (stem_of(files[i].file_path@) matches Some(st) && entry_stem(st)) ==> entry_set(
                files,
                listed,
                sources,
            ).contains(#[trigger] files[i].file_path@),
        forall|i: int|
            0 <= i < files.len() && (sources[i] matches Some(src) && self_running(src@)) ==> entry_set(
                files,
                listed,
                sources,
            ).contains(#[trigger] files[i].file_path@),
        forall|i: int, e: int|
            0 <= i < files.len() && 0 <= e < listed.len() && #[trigger] listed[e]@ == #[trigger] files[i].file_path@
                ==> entry_set(files, listed, sources).contains(files[i].file_path@),
{
    assert forall|i: int|
        0 <= i < files.len() && (stem_of(files[i].file_path@) matches Some(st) && entry_stem(st)) implies entry_set(
            files,
            listed,
            sources,
        ).contains(#[trigger] files[i].file_path@) by {
        assert(entry_candidate(files, listed, sources, i));
    }
    assert forall|i: int|
        0 <= i < files.len() && (sources[i] matches Some(src) && self_running(src@)) implies entry_set(
            files,
            listed,
            sources,
        ).contains(#[trigger] files[i].file_path@) by {
        assert(entry_candidate(files, listed, sources, i));
    }
    assert forall|i: int, e: int|
        0 <= i < files.len() && 0 <= e < listed.len() && #[trigger] listed[e]@ == #[trigger] files[i].file_path@
            implies entry_set(files, listed, sources).contains(files[i].file_path@) by {
        assert(entry_candidate(files, listed, sources, i));
    }
}

/// The unused exports come out ordered by path and then line, and they are
/// exactly the exports that are not reachable, each as often as it occurs.
pub proof fn law_unused_exports_sorted(files: Seq<FileSymbols>, reach: Seq<(Seq<char>, Seq<char>)>)
    ensures
        stable_sort(unreached_exports(files, reach), export_le()).to_multiset() == unreached_exports(
            files,
            reach,
        ).to_multiset(),
        forall|i: int, j: int|
            0 <= i < j < stable_sort(unreached_exports(files, reach), export_le()).len() ==> location_le(
                (#[trigger] stable_sort(unreached_exports(files, reach), export_le())[i]).0,
                stable_sort(unreached_exports(files, reach), export_le())[i].1.start_line as int,
                (#[trigger] stable_sort(unreached_exports(files, reach), export_le())[j]).0,
                stable_sort(unreached_exports(files, reach), export_le())[j].1.start_line as int,
            ),
{
    let u = unreached_exports(files, reach);
    lemma_stable_sort_multiset(u, export_le());
    assert forall|a: (Seq<char>, ExportView), b: (Seq<char>, ExportView)|
        #[trigger] export_le()(a, b) || export_le()(b, a) by {
        lemma_location_le_total(a.0, a.1.start_line as int, b.0, b.1.start_line as int);
    }
    assert forall|a: (Seq<char>, ExportView), b: (Seq<char>, ExportView), c: (Seq<char>, ExportView)|
        #[trigger] export_le()(a, b) && #[trigger] export_le()(b, c) implies export_le()(a, c) by {
        lemma_location_le_transitive(
            a.0,
            a.1.start_line as int,
            b.0,
            b.1.start_line as int,
            c.0,
            c.1.start_line as int,
        );
    }
    lemma_stable_sort_sorted(u, export_le());
}

/// When an existence check never answers both ways for one path, the
/// project root found is the nearest: no directory below it was said to
/// hold a `package.json`.
pub proof fn law_root_is_nearest(ans: spec_fn(Seq<char>, bool) -> bool, d: Seq<char>, x: String, k: nat)
    requires
        root_at(ans, d, Some(x), k),
        forall|p: Seq<char>| !(#[trigger] ans(p, true) && ans(p, false)),
    ensures
        ancestor(d, k) == Some(x@),
        ans(join_of(x@, "package.json"@), true),
        forall|j: nat| j < k ==> (#[trigger] ancestor(d, j) matches Some(a) && !ans(join_of(a, "package.json"@), true)),
{
    assert forall|j: nat| j < k implies (#[trigger] ancestor(d, j) matches Some(a) && !ans(join_of(a, "package.json"@), true)) by {
        assert(ancestor(d, j) matches Some(a) && ans(join_of(a, "package.json"@), false));
    }
}

/// `x` is export `k` of `files[i]`, with its file's path, and `reach`
/// lacks it.
pub open spec fn unreached_at(files: Seq<FileSymbols>, reach: Seq<(Seq<char>, Seq<char>)>, x: (Seq<char>, ExportView), i: int, k: int) -> bool {
    &&& 0 <= i < files.len()
    &&& 0 <= k < files[i].exports@.len()
    &&& x == (files[i].file_path@, files[i].exports@[k]@)
    &&& !reach.contains((files[i].file_path@, files[i].exports@[k].name@))
}

proof fn lemma_unreached_in_members(path: Seq<char>, exps: Seq<Export>, reach: Seq<(Seq<char>, Seq<char>)>)
    ensures
        forall|x: (Seq<char>, ExportView)|
            #[trigger] unreached_in(path, exps, reach).contains(x) <==> exists|k: int|
                0 <= k < exps.len() && x == (path, #[trigger] exps[k]@) && !reach.contains((path, exps[k].name@)),
    decreases exps.len(),
{
    if exps.len() > 0 {
        let d = exps.drop_last();
        lemma_unreached_in_members(path, d, reach);
        let rest = unreached_in(path, d, reach);
        let cur = unreached_in(path, exps, reach);
        let n = exps.len() - 1;
        assert forall|x: (Seq<char>, ExportView)|
            #[trigger] cur.contains(x) <==> exists|k: int|
                0 <= k < exps.len() && x == (path, #[trigger] exps[k]@) && !reach.contains((path, exps[k].name@)) by {
            if cur.contains(x) {
                if rest.contains(x) {
                    let k = choose|k: int| 0 <= k < d.len() && x == (path, #[trigger] d[k]@) && !reach.contains((path, d[k].name@));
                    assert(exps[k] == d[k]);
                } else {
                    assert(x == (path, exps[n]@));
                }
            }
            if exists|k: int| 0 <= k < exps.len() && x == (path, #[trigger] exps[k]@) && !reach.contains((path, exps[k].name@)) {
                let k = choose|k: int| 0 <= k < exps.len() && x == (path, #[trigger] exps[k]@) && !reach.contains((path, exps[k].name@));
                if k < n {
                    assert(d[k] == exps[k]);
                    assert(rest.contains(x));
                    let j = choose|j: int| 0 <= j < rest.len() && rest[j] == x;
                    if reach.contains((path, exps.last().name@)) {
                        assert(cur == rest);
                    } else {
                        assert(cur[j] == rest[j]);
                    }
                } else {
                    assert(cur == rest.push((path, exps.last()@)));
                    assert(cur[cur.len() - 1] == x);
                }
            }
        }
    }
}

/// The unreached exports are exactly the exports of the files, each with
/// its file's path, whose `(path, name)` the reachable pairs lack.
pub proof fn law_unreached_exports_members(files: Seq<FileSymbols>, reach: Seq<(Seq<char>, Seq<char>)>)
    ensures
        forall|x: (Seq<char>, ExportView)|
            #[trigger] unreached_exports(files, reach).contains(x) <==> exists|i: int, k: int| #[trigger] unreached_at(files, reach, x, i, k),
    decreases files.len(),
{
    if files.len() > 0 {
        let d = files.drop_last();
        law_unreached_exports_members(d, reach);
        let n = files.len() - 1;
        let last = files[n];
        assert(files.last() == last);
        lemma_unreached_in_members(last.file_path@, last.exports@, reach);
        let a = unreached_exports(d, reach);
        let b = unreached_in(last.file_path@, last.exports@, reach);
        let cur = unreached_exports(files, reach);
        assert(cur == a + b);
        assert forall|x: (Seq<char>, ExportView)|
            #[trigger] cur.contains(x) <==> exists|i: int, k: int| #[trigger] unreached_at(files, reach, x, i, k) by {
            if cur.contains(x) {
                let j = choose|j: int| 0 <= j < cur.len() && cur[j] == x;
                if j < a.len() {
                    assert(a[j] == x);
                    assert(a.contains(x));
                    let (i, k) = choose|i: int, k: int| #[trigger] unreached_at(d, reach, x, i, k);
                    assert(d[i] == files[i]);
                    assert(unreached_at(files, reach, x, i, k));
                } else {
                    assert(b[j - a.len()] == x);
                    assert(b.contains(x));
                    let k = choose|k: int|
                        0 <= k < last.exports@.len() && x == (last.file_path@, #[trigger] last.exports@[k]@)
                            && !reach.contains((last.file_path@, last.exports@[k].name@));
                    assert(unreached_at(files, reach, x, n, k));
                }
            }
            if exists|i: int, k: int| #[trigger] unreached_at(files, reach, x, i, k) {
                let (i, k) = choose|i: int, k: int| #[trigger] unreached_at(files, reach, x, i, k);
                if i < n {
                    assert(d[i] == files[i]);
                    assert(unreached_at(d, reach, x, i, k));
                    assert(a.contains(x));
                    let j = choose|j: int| 0 <= j < a.len() && a[j] == x;
                    assert(cur[j] == x);
                } else {
                    assert(last.exports@[k]@ == files[i].exports@[k]@);
                    assert(b.contains(x));
                    let j = choose|j: int| 0 <= j < b.len() && b[j] == x;
                    assert(cur[a.len() + j] == x);
                }
            }
        }
    }
}

/// Where each path gets a single answer, probing candidates in order has
/// a single outcome: it stops at the first candidate reported to exist,
/// with what was reported for it, or finds nothing when none is.
pub proof fn law_probe_first(
    pr: spec_fn(Seq<char>, Option<Option<String>>) -> bool,
    cands: Seq<Seq<char>>,
    r1: Option<String>,
    k1: int,
    r2: Option<String>,
    k2: int,
)
    requires
        stops_at(pr, cands, r1, k1),
        stops_at(pr, cands, r2, k2),
        forall|p: Seq<char>, o1: Option<Option<String>>, o2: Option<Option<String>>|
            #[trigger] pr(p, o1) && #[trigger] pr(p, o2) ==> o1 == o2,
    ensures
        k1 == k2,
        r1 == r2,
{
    if k1 < k2 {
        assert(pr(cands[k1], None));
        assert(pr(cands[k1], Some(r1)));
    } else if k2 < k1 {
        assert(pr(cands[k2], None));
        assert(pr(cands[k2], Some(r2)));
    } else if k1 < cands.len() {
        assert(pr(cands[k1], Some(r1)));
        assert(pr(cands[k1], Some(r2)));
    }
}

/// Where each path gets a single answer, the search for the project root
/// has a single outcome: the nearest directory said to hold a
/// `package.json`, or none when no directory up to the top is.
pub proof fn law_root_unique(
    ans: spec_fn(Seq<char>, bool) -> bool,
    d: Seq<char>,
    r1: Option<String>,
    k1: nat,
    r2: Option<String>,
    k2: nat,
)
    requires
        root_at(ans, d, r1, k1),
        root_at(ans, d, r2, k2),
        forall|p: Seq<char>| !(#[trigger] ans(p, true) && ans(p, false)),
    ensures
        k1 == k2,
        r1 matches Some(x1) ==> (r2 matches Some(x2) && x1@ == x2@),
        r1 is None ==> r2 is None,
{
    if k1 < k2 {
        assert(ancestor(d, k1) matches Some(a) && ans(join_of(a, "package.json"@), false));
    } else if k2 < k1 {
        assert(ancestor(d, k2) matches Some(a) && ans(join_of(a, "package.json"@), false));
    }
}

/// A file named `index`, `main`, `cli` or `app` (whatever its extension
/// and directory) is always an entry point, as is a file whose source holds
/// `require.main === module` or `import.meta.url`.
pub proof fn law_entry_stems(files: Seq<FileSymbols>, listed: Seq<String>, sources: Seq<Option<String>>, i: int)
    requires
        0 <= i < files.len(),
        sources.len() == files.len(),
    ensures
        stem_of(files[i].file_path@) == Some("index"@) ==> entry_set(files, listed, sources).contains(files[i].file_path@),
        stem_of(files[i].file_path@) == Some("main"@) ==> entry_set(files, listed, sources).contains(files[i].file_path@),
        stem_of(files[i].file_path@) == Some("cli"@) ==> entry_set(files, listed, sources).contains(files[i].file_path@),
        stem_of(files[i].file_path@) == Some("app"@) ==> entry_set(files, listed, sources).contains(files[i].file_path@),
        (sources[i] matches Some(src) && contains(src@, "require.main === module"@)) ==> entry_set(
            files,
            listed,
            sources,
        ).contains(files[i].file_path@),
        (sources[i] matches Some(src) && contains(src@, "import.meta.url"@)) ==> entry_set(
            files,
            listed,
            sources,
        ).contains(files[i].file_path@),
{
    law_entry_points(files, listed, sources);
}

} // verus!
