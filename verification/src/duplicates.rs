//! Duplicate code blocks: exact repeats of token windows across files, and
//! near-duplicates found by MinHash signatures and locality-sensitive
//! hashing over token trigrams.

use std::collections::hash_map::DefaultHasher;
use std::collections::HashMap;
use std::hash::Hasher;
use vstd::prelude::*;
use vstd::std_specs::hash::DefaultHasherAdditionalSpecFns;
use vstd::string::StringExecFns;
use vstd::string::StringSliceAdditionalSpecFns;
use vstd::wrapping::u64_specs::{wrapping_add, wrapping_mul};

use crate::parser::{language_for_file, language_of, strings_view};
use crate::syntax::{
    has_kind, info_ok, kind_is, node_text, syntax_tree, text_of, wf_node, Grammar, SyntaxNode,
};
use crate::config::Ratio;
use crate::{findings_outcome, CommandResult};
use crate::paint::{paint, tinted, Tint};
use crate::sort::{lemma_insert_at_scan, lemma_push_contains, lemma_stable_sort_permutes, lemma_stable_sort_sorted, stable_sort};
use crate::text::{append_decimal, byte_slice, chars_of, decimal, str_eq, string_from_chars, slice_to_vec, to_string, trim, trim_bounds};

verus! {

/// A file in which a duplicated block occurs.
#[derive(Debug, Clone)]
pub struct DupLocation {
    pub file_path: String,
    pub start_line: usize,
    pub end_line: usize,
}

/// A block of tokens found in several places.
#[derive(Debug, Clone)]
pub struct DuplicateCluster {
    pub locations: Vec<DupLocation>,
    pub sample: String,
    pub token_count: usize,
    pub is_near_dup: bool,
}

/// How many tokens a window holds.
pub const WINDOW_SIZE: usize = 25;

/// The length of the token n-grams that near-duplicate detection compares.
pub const NGRAM_N: usize = 3;

/// How many hash functions a MinHash signature has.
pub const MINHASH_K: usize = 80;

/// How many bands a signature is cut into for bucketing.
pub const LSH_BANDS: usize = 16;

/// How many signature values each band holds.
pub const LSH_ROWS: usize = 5;

/// The token a leaf stands for: the placeholder of its kind for
/// identifiers, strings, numbers, booleans and null values, else its
/// trimmed text; none where that is empty. An anonymous node is always read
/// by its trimmed text.
pub open spec fn leaf_tokens(n: SyntaxNode, source: &str) -> Seq<Seq<char>> {
    let t = trim(node_text(n, source));
    let text = if t.len() > 0 {
        seq![t]
    } else {
        Seq::empty()
    };
    if !n.info.named {
        text
    } else if has_kind(n, "identifier"@) {
        seq!["$id"@]
    } else if has_kind(n, "string"@) || has_kind(n, "string_fragment"@) {
        seq!["$str"@]
    } else if has_kind(n, "number"@) {
        seq!["$num"@]
    } else if has_kind(n, "true"@) || has_kind(n, "false"@) {
        seq!["$bool"@]
    } else if has_kind(n, "null"@) || has_kind(n, "undefined"@) {
        seq!["$nil"@]
    } else {
        text
    }
}

/// The normalized tokens of a tree: the leaf tokens of its anonymous nodes
/// and named leaves, left to right.
pub open spec fn node_tokens(n: SyntaxNode, source: &str) -> Seq<Seq<char>>
    decreases n,
{
    if !n.info.named || n.children@.len() == 0 {
        leaf_tokens(n, source)
    } else {
        forest_tokens(n.children@, source)
    }
}

pub open spec fn forest_tokens(ns: Seq<SyntaxNode>, source: &str) -> Seq<Seq<char>>
    decreases ns,
{
    if ns.len() == 0 {
        Seq::empty()
    } else {
        forest_tokens(ns.drop_last(), source) + node_tokens(ns[ns.len() - 1], source)
    }
}

fn trimmed_string(s: &str) -> (r: String)
    ensures
        r@ == trim(s@),
{
    let c = chars_of(s);
    let (a, b) = trim_bounds(&c, 0, c.len());
    assert(c@.subrange(0, c@.len() as int) =~= c@);
    let v = slice_to_vec(&c, a, b);
    string_from_chars(v.as_slice())
}

fn push_text(n: &SyntaxNode, source: &str, tokens: &mut Vec<String>)
    requires
        info_ok(n.info@, source),
    ensures
        strings_view(final(tokens)@) == strings_view(old(tokens)@) + if trim(node_text(*n, source)).len()
            > 0 {
            seq![trim(node_text(*n, source))]
        } else {
            Seq::empty()
        },
{
    let ghost v0 = strings_view(tokens@);
    let t = trimmed_string(text_of(n, source));
    if !t.as_str().is_empty() {
        tokens.push(t);
    }
    assert(strings_view(tokens@) =~= v0 + if trim(node_text(*n, source)).len() > 0 {
        seq![trim(node_text(*n, source))]
    } else {
        Seq::empty()
    });
}

fn push_token(tokens: &mut Vec<String>, t: &str)
    ensures
        strings_view(final(tokens)@) == strings_view(old(tokens)@).push(t@),
{
    tokens.push(to_string(t));
    assert(strings_view(tokens@) =~= strings_view(old(tokens)@).push(t@));
}

/// Appends the normalized tokens of a tree to `tokens`.
pub fn collect_normalized_tokens(node: &SyntaxNode, source: &str, tokens: &mut Vec<String>)
    requires
        wf_node(*node, source),
    ensures
        strings_view(final(tokens)@) == strings_view(old(tokens)@) + node_tokens(*node, source),
    decreases node,
{
    let ghost v0 = strings_view(tokens@);
    if !node.info.named {
        push_text(node, source, tokens);
        return;
    }
    if node.children.len() == 0 {
        if kind_is(node, "identifier") {
            push_token(tokens, "$id");
        } else if kind_is(node, "string") || kind_is(node, "string_fragment") {
            push_token(tokens, "$str");
        } else if kind_is(node, "number") {
            push_token(tokens, "$num");
        } else if kind_is(node, "true") || kind_is(node, "false") {
            push_token(tokens, "$bool");
        } else if kind_is(node, "null") || kind_is(node, "undefined") {
            push_token(tokens, "$nil");
        } else {
            push_text(node, source, tokens);
        }
        assert(strings_view(tokens@) =~= v0 + node_tokens(*node, source));
        return;
    }
    let mut i: usize = 0;
    while i < node.children.len()
        invariant
            i <= node.children@.len(),
            node.info.named,
            node.children@.len() > 0,
            wf_node(*node, source),
            strings_view(tokens@) == v0 + forest_tokens(node.children@.take(i as int), source),
        decreases node.children.len() - i,
    {
        assert(wf_node(node.children@[i as int], source));
        collect_normalized_tokens(&node.children[i], source, tokens);
        proof {
            let t = node.children@.take(i + 1);
            assert(t.drop_last() =~= node.children@.take(i as int));
            assert(t[t.len() - 1] == node.children@[i as int]);
        }
        i += 1;
    }
    assert(node.children@.take(i as int) =~= node.children@);
}

/// The grammar a file is parsed with, by its language tag.
pub open spec fn grammar_for(lang: Seq<char>) -> Grammar {
    if lang == "js"@ {
        Grammar::JavaScript
    } else {
        Grammar::Tsx
    }
}

/// The walk of `source`'s syntax tree under the grammar of `path`'s
/// language is one whole tree.
pub open spec fn parses(path: &str, source: &str) -> bool {
    crate::syntax::parsed_syntax(grammar_for(language_of(path@)), source@) matches Some(ev)
        && crate::syntax::scan_node(ev, 0, source) == Some(ev.len() as int)
}

/// `toks` are the normalized tokens of a syntax tree whose walk is the one
/// the grammar of `path`'s language gives for `source`.
pub open spec fn tokens_of(path: &str, source: &str, toks: Seq<Seq<char>>) -> bool {
    exists|t: SyntaxNode|
        #[trigger] wf_node(t, source) && crate::syntax::parsed_syntax(
            grammar_for(language_of(path@)),
            source@,
        ) == Some(crate::syntax::node_events(t)) && node_tokens(t, source) == toks
}

/// The normalized tokens of `source`, parsed with the grammar of
/// `file_path`'s language; `None` where the parse gives no usable tree.
pub fn tokenize_with_tree_sitter(file_path: &str, source: &str) -> (r: Option<Vec<String>>)
    ensures
        r is Some <==> parses(file_path, source),
        r matches Some(v) ==> tokens_of(file_path, source, strings_view(v@)),
{
    let lang = language_for_file(file_path);
    let grammar = if str_eq(lang, "js") {
        Grammar::JavaScript
    } else {
        Grammar::Tsx
    };
    assert(grammar == grammar_for(language_of(file_path@)));
    match syntax_tree(grammar, source) {
        Some(t) => {
            let mut tokens: Vec<String> = Vec::new();
            collect_normalized_tokens(&t, source, &mut tokens);
            assert(strings_view(tokens@) =~= node_tokens(t, source));
            assert(wf_node(t, source));
            Some(tokens)
        },
        None => None,
    }
}

/// `out` holds, in order, the files of `files` at the increasing positions
/// `sel`, each with tokens of at least a window's length; every other file
/// does not parse or has fewer tokens.
pub open spec fn tokenized_selection(
    files: Seq<(&str, &str)>,
    sel: Seq<int>,
    out: Seq<(String, Vec<String>)>,
) -> bool {
    &&& sel.len() == out.len()
    &&& forall|k: int| 0 <= k < sel.len() ==> 0 <= #[trigger] sel[k] < files.len()
    &&& forall|k: int, l: int| 0 <= k < l < sel.len() ==> sel[k] < sel[l]
    &&& forall|k: int|
        0 <= k < sel.len() ==> {
            &&& (#[trigger] out[k]).0@ == files[sel[k]].0@
            &&& out[k].1@.len() >= WINDOW_SIZE
            &&& tokens_of(files[sel[k]].0, files[sel[k]].1, strings_view(out[k].1@))
        }
    &&& forall|i: int|
        0 <= i < files.len() && !sel.contains(i) ==> (!parses(files[i].0, files[i].1) || exists|
            toks: Seq<Seq<char>>,
        | #[trigger] tokens_of(files[i].0, files[i].1, toks) && toks.len() < WINDOW_SIZE)
}

/// The files, given as `(path, text)`, that tokenize into at least a
/// window's length of tokens, with their tokens, in the given order.
pub fn tokenize_files(files: &[(&str, &str)]) -> (out: Vec<(String, Vec<String>)>)
    ensures
        exists|sel: Seq<int>| tokenized_selection(files@, sel, out@),
{
    let mut out: Vec<(String, Vec<String>)> = Vec::new();
    let ghost mut sel: Seq<int> = Seq::empty();
    let mut i: usize = 0;
    while i < files.len()
        invariant
            i <= files@.len(),
            tokenized_selection(files@.take(i as int), sel, out@),
            forall|k: int| 0 <= k < sel.len() ==> #[trigger] sel[k] < i,
        decreases files.len() - i,
    {
        let (path, source) = files[i];
        let ghost pre = files@.take(i as int);
        let ghost cur = files@.take(i + 1);
        assert(cur[i as int] == (path, source));
        let ghost old_sel = sel;
        let res = tokenize_with_tree_sitter(path, source);
        let ghost rv: Option<Seq<Seq<char>>> = match &res {
            Some(v) => Some(strings_view(v@)),
            None => None,
        };
        let mut taken = false;
        match res {
            Some(tokens) => {
                if tokens.len() >= WINDOW_SIZE {
                    out.push((to_string(path), tokens));
                    taken = true;
                    proof {
                        sel = sel.push(i as int);
                    }
                }
            },
            None => {},
        }
        proof {
            assert forall|k: int| 0 <= k < sel.len() implies 0 <= #[trigger] sel[k] < cur.len() by {}
            assert forall|j: int| 0 <= j < cur.len() && !sel.contains(j) implies (!parses(
                cur[j].0,
                cur[j].1,
            ) || exists|toks: Seq<Seq<char>>|
                #[trigger] tokens_of(cur[j].0, cur[j].1, toks) && toks.len() < WINDOW_SIZE) by {
                if j < i {
                    assert(cur[j] == pre[j]);
                    if old_sel.contains(j) {
                        let k = choose|k: int| 0 <= k < old_sel.len() && old_sel[k] == j;
                        assert(sel[k] == j);
                    }
                } else {
                    assert(j == i);
                    if taken {
                        assert(sel[sel.len() - 1] == i);
                    } else if rv is Some {
                        assert(tokens_of(cur[j].0, cur[j].1, rv->0));
                    }
                }
            }
            assert(tokenized_selection(cur, sel, out@));
        }
        i += 1;
    }
    assert(files@.take(i as int) =~= files@);
    out
}

/// What is written to the hasher for a sequence of tokens: each token's
/// UTF-8 bytes, then the byte `0xff` (which no UTF-8 text holds), so that
/// token boundaries are part of the hashed input.
pub open spec fn token_writes(toks: Seq<Seq<char>>) -> Seq<Seq<u8>>
    decreases toks.len(),
{
    if toks.len() == 0 {
        Seq::empty()
    } else {
        token_writes(toks.drop_last()) + seq![
            vstd::utf8::encode_utf8(toks.last()),
            seq![0xffu8],
        ]
    }
}

/// The hash of a sequence of tokens: std's `DefaultHasher` fed with
/// `token_writes`.
pub open spec fn tokens_hash(toks: Seq<Seq<char>>) -> u64 {
    DefaultHasher::spec_finish(token_writes(toks))
}

/// Hashes the tokens `tokens[lo..hi]`.
fn hash_tokens(tokens: &[String], lo: usize, hi: usize) -> (h: u64)
    requires
        lo <= hi <= tokens@.len(),
    ensures
        h == tokens_hash(strings_view(tokens@).subrange(lo as int, hi as int)),
{
    let mut hasher = DefaultHasher::new();
    let ff: [u8; 1] = [0xff];
    assert(ff@ =~= seq![0xffu8]);
    let mut i = lo;
    while i < hi
        invariant
            lo <= i <= hi <= tokens@.len(),
            ff@ == seq![0xffu8],
            hasher@ == token_writes(strings_view(tokens@).subrange(lo as int, i as int)),
        decreases hi - i,
    {
        let ghost sub = strings_view(tokens@).subrange(lo as int, i + 1);
        assert(sub.drop_last() =~= strings_view(tokens@).subrange(lo as int, i as int));
        assert(sub.last() == tokens@[i as int]@);
        let ghost before = hasher@;
        hasher.write(tokens[i].as_str().as_bytes());
        hasher.write(&ff);
        assert(hasher@ =~= before + seq![vstd::utf8::encode_utf8(sub.last()), seq![0xffu8]]);
        i += 1;
    }
    hasher.finish()
}

/// The hash of a window of tokens.
pub fn hash_window(window: &[String]) -> (h: u64)
    ensures
        h == tokens_hash(strings_view(window@)),
{
    assert(strings_view(window@).subrange(0, window@.len() as int) =~= strings_view(window@));
    hash_tokens(window, 0, window.len())
}

/// The hashes of the token trigrams of `toks`, in order.
pub open spec fn ngrams(toks: Seq<Seq<char>>) -> Seq<u64> {
    if toks.len() < NGRAM_N {
        Seq::empty()
    } else {
        Seq::new(
            (toks.len() - NGRAM_N + 1) as nat,
            |i: int| tokens_hash(toks.subrange(i, i + NGRAM_N)),
        )
    }
}

/// The hashes of the trigrams of `tokens[lo..hi]`.
fn ngram_hashes_in(tokens: &[String], lo: usize, hi: usize) -> (out: Vec<u64>)
    requires
        lo <= hi <= tokens@.len(),
    ensures
        out@ == ngrams(strings_view(tokens@).subrange(lo as int, hi as int)),
{
    let ghost w = strings_view(tokens@).subrange(lo as int, hi as int);
    let mut out: Vec<u64> = Vec::new();
    if hi - lo < NGRAM_N {
        return out;
    }
    let mut i = lo;
    while i <= hi - NGRAM_N
        invariant
            lo <= i,
            i <= hi - NGRAM_N + 1,
            hi <= tokens@.len(),
            hi - lo >= NGRAM_N,
            w == strings_view(tokens@).subrange(lo as int, hi as int),
            out@.len() == i - lo,
            forall|k: int| 0 <= k < i - lo ==> out@[k] == tokens_hash(w.subrange(k, k + NGRAM_N)),
        decreases hi - i,
    {
        let h = hash_tokens(tokens, i, i + NGRAM_N);
        assert(w.subrange(i - lo, i - lo + NGRAM_N) =~= strings_view(tokens@).subrange(
            i as int,
            i + NGRAM_N,
        ));
        out.push(h);
        i += 1;
    }
    assert(out@ =~= ngrams(w));
    out
}

/// The hashes of the token trigrams of `tokens`, in order.
pub fn ngram_hashes(tokens: &[String]) -> (out: Vec<u64>)
    ensures
        out@ == ngrams(strings_view(tokens@)),
{
    assert(strings_view(tokens@).subrange(0, tokens@.len() as int) =~= strings_view(tokens@));
    ngram_hashes_in(tokens, 0, tokens.len())
}

/// A 64-bit mix of `x` under `seed` (add, then three rounds of xor-shift
/// by 33 around two odd multipliers, all modulo 2^64).
pub open spec fn mix(x: u64, seed: u64) -> u64 {
    let h0 = wrapping_add(x, seed);
    let h1 = h0 ^ (h0 >> 33u64);
    let h2 = wrapping_mul(h1, 0xff51afd7ed558ccdu64);
    let h3 = h2 ^ (h2 >> 33u64);
    let h4 = wrapping_mul(h3, 0xc4ceb9fe1a85ec53u64);
    h4 ^ (h4 >> 33u64)
}

/// The hash of `x` under the hash function numbered by `seed`.
pub fn minhash_hash(x: u64, seed: u64) -> (h: u64)
    ensures
        h == mix(x, seed),
{
    let mut h = x.wrapping_add(seed);
    h ^= h >> 33;
    h = h.wrapping_mul(0xff51afd7ed558ccd);
    h ^= h >> 33;
    h = h.wrapping_mul(0xc4ceb9fe1a85ec53);
    h ^= h >> 33;
    h
}

/// The least of the hashes of `s` under `seed`; `u64::MAX` for none.
pub open spec fn min_mix(s: Seq<u64>, seed: u64) -> u64
    decreases s.len(),
{
    if s.len() == 0 {
        u64::MAX
    } else {
        let m = min_mix(s.drop_last(), seed);
        let v = mix(s.last(), seed);
        if v < m {
            v
        } else {
            m
        }
    }
}

/// The seed of hash function `i`.
pub open spec fn seed_of(i: int) -> u64 {
    wrapping_mul(i as u64, 0x9e3779b97f4a7c15u64)
}

/// The MinHash signature of a set of shingles: for each of the
/// `MINHASH_K` hash functions, the least hash of a shingle.
pub open spec fn signature(s: Seq<u64>) -> Seq<u64> {
    Seq::new(MINHASH_K as nat, |i: int| min_mix(s, seed_of(i)))
}

/// The MinHash signature of `shingles`.
pub fn minhash_signature(shingles: &[u64]) -> (sig: Vec<u64>)
    ensures
        sig@ == signature(shingles@),
{
    let mut sig: Vec<u64> = Vec::new();
    let mut i: usize = 0;
    while i < MINHASH_K
        invariant
            i <= MINHASH_K,
            sig@.len() == i,
            forall|k: int| 0 <= k < i ==> sig@[k] == min_mix(shingles@, seed_of(k)),
        decreases MINHASH_K - i,
    {
        let seed = (i as u64).wrapping_mul(0x9e3779b97f4a7c15);
        let mut m: u64 = u64::MAX;
        let mut j: usize = 0;
        while j < shingles.len()
            invariant
                j <= shingles@.len(),
                m == min_mix(shingles@.take(j as int), seed),
            decreases shingles.len() - j,
        {
            assert(shingles@.take(j + 1).drop_last() =~= shingles@.take(j as int));
            let v = minhash_hash(shingles[j], seed);
            if v < m {
                m = v;
            }
            j += 1;
        }
        assert(shingles@.take(j as int) =~= shingles@);
        sig.push(m);
        i += 1;
    }
    assert(sig@ =~= signature(shingles@));
    sig
}

/// Folds a band into one value: `h * 31 + v` for each value, modulo 2^64.
pub open spec fn band_fold(v: Seq<u64>) -> u64
    decreases v.len(),
{
    if v.len() == 0 {
        0
    } else {
        wrapping_add(wrapping_mul(band_fold(v.drop_last()), 31), v.last())
    }
}

/// The bands of a signature: consecutive runs of `LSH_ROWS` values (the
/// last possibly shorter), each folded into one key.
pub open spec fn bands(sig: Seq<u64>) -> Seq<u64> {
    Seq::new(
        ((sig.len() + LSH_ROWS - 1) / LSH_ROWS as int) as nat,
        |b: int|
            band_fold(
                sig.subrange(
                    b * LSH_ROWS,
                    if b * LSH_ROWS + LSH_ROWS <= sig.len() {
                        b * LSH_ROWS + LSH_ROWS
                    } else {
                        sig.len() as int
                    },
                ),
            ),
    )
}

/// The band keys of a signature.
pub fn band_hashes(sig: &[u64]) -> (out: Vec<u64>)
    ensures
        out@ == bands(sig@),
{
    let n = sig.len();
    let mut out: Vec<u64> = Vec::new();
    let mut b: usize = 0;
    let mut start: usize = 0;
    while start < n
        invariant
            start == (if b * LSH_ROWS <= n {
                b * LSH_ROWS
            } else {
                n as int
            }),
            b > 0 ==> (b - 1) * LSH_ROWS < n,
            b <= n,
            n == sig@.len(),
            out@.len() == b,
            forall|k: int|
                0 <= k < b ==> out@[k] == band_fold(
                    sig@.subrange(
                        k * LSH_ROWS,
                        if k * LSH_ROWS + LSH_ROWS <= n {
                            k * LSH_ROWS + LSH_ROWS
                        } else {
                            n as int
                        },
                    ),
                ),
        decreases n - start,
    {
        let end = if n - start >= LSH_ROWS {
            start + LSH_ROWS
        } else {
            n
        };
        let mut h: u64 = 0;
        let mut j = start;
        while j < end
            invariant
                start <= j <= end <= n,
                n == sig@.len(),
                h == band_fold(sig@.subrange(start as int, j as int)),
            decreases end - j,
        {
            assert(sig@.subrange(start as int, j + 1).drop_last() =~= sig@.subrange(
                start as int,
                j as int,
            ));
            h = h.wrapping_mul(31).wrapping_add(sig[j]);
            j += 1;
        }
        out.push(h);
        b += 1;
        start = end;
    }
    assert(out@ =~= bands(sig@));
    out
}

/// The Jaccard similarity of the sets of values of `a` and `b`: the size
/// of their intersection over the size of their union, and zero when both
/// are empty.
pub open spec fn jaccard(a: Seq<u64>, b: Seq<u64>) -> Ratio {
    let i = a.to_set().intersect(b.to_set()).len();
    let u = a.to_set().union(b.to_set()).len();
    if u == 0 {
        Ratio { numerator: 0, denominator: 1 }
    } else {
        Ratio { numerator: i as u64, denominator: u as u64 }
    }
}

fn holds_u64(v: &Vec<u64>, x: u64) -> (b: bool)
    ensures
        b == v@.contains(x),
{
    let mut i: usize = 0;
    while i < v.len()
        invariant
            i <= v@.len(),
            forall|j: int| 0 <= j < i ==> v@[j] != x,
        decreases v.len() - i,
    {
        if v[i] == x {
            return true;
        }
        i += 1;
    }
    false
}

/// The values of `v` without repeats, in the order first seen.
fn distinct_values(v: &[u64]) -> (out: Vec<u64>)
    ensures
        out@.no_duplicates(),
        out@.to_set() == v@.to_set(),
{
    let mut out: Vec<u64> = Vec::new();
    let mut i: usize = 0;
    while i < v.len()
        invariant
            i <= v@.len(),
            out@.no_duplicates(),
            out@.to_set() == v@.take(i as int).to_set(),
        decreases v.len() - i,
    {
        let ghost before = out@;
        let fresh = !holds_u64(&out, v[i]);
        if fresh {
            out.push(v[i]);
        }
        proof {
            let t = v@.take(i + 1);
            assert(t =~= v@.take(i as int).push(v@[i as int]));
            v@.take(i as int).lemma_push_to_set_commute(v@[i as int]);
            if fresh {
                assert(out@ == before.push(v@[i as int]));
                before.lemma_push_to_set_commute(v@[i as int]);
            } else {
                assert(before.contains(v@[i as int]));
                assert(out@.to_set() =~= before.to_set().insert(v@[i as int]));
            }
        }
        i += 1;
    }
    assert(v@.take(i as int) =~= v@);
    out
}

/// The values of `a` that `b` holds (`inside`) or does not hold.
fn values_where(a: &Vec<u64>, b: &Vec<u64>, inside: bool) -> (out: Vec<u64>)
    requires
        a@.no_duplicates(),
    ensures
        out@.no_duplicates(),
        inside ==> out@.to_set() == a@.to_set().intersect(b@.to_set()),
        !inside ==> out@.to_set() == a@.to_set().difference(b@.to_set()),
        forall|k: int| 0 <= k < out@.len() ==> a@.contains(#[trigger] out@[k]),
{
    let mut out: Vec<u64> = Vec::new();
    let mut i: usize = 0;
    while i < a.len()
        invariant
            i <= a@.len(),
            a@.no_duplicates(),
            out@.no_duplicates(),
            forall|k: int| 0 <= k < out@.len() ==> exists|j: int| 0 <= j < i && a@[j] == #[trigger] out@[k],
            forall|x: u64|
                out@.contains(x) <==> (a@.take(i as int).contains(x) && b@.contains(x) == inside),
        decreases a.len() - i,
    {
        let ghost before = out@;
        let x = a[i];
        let pushed = holds_u64(b, x) == inside;
        if pushed {
            proof {
                assert forall|k: int| 0 <= k < before.len() implies before[k] != x by {
                    let j = choose|j: int| 0 <= j < i && a@[j] == before[k];
                }
            }
            out.push(x);
        }
        proof {
            let t = a@.take(i + 1);
            let pre = a@.take(i as int);
            assert(t =~= pre.push(x));
            lemma_push_contains(pre, x);
            lemma_push_contains(before, x);
            assert(!pre.contains(x)) by {
                if pre.contains(x) {
                    let j = choose|j: int| 0 <= j < pre.len() && pre[j] == x;
                    assert(a@[j] == a@[i as int]);
                }
            }
            assert(pushed ==> out@ == before.push(x));
            assert(!pushed ==> out@ == before);
            assert forall|y: u64| out@.contains(y) <==> (t.contains(y) && b@.contains(y) == inside) by {
                assert(before.contains(y) <==> (pre.contains(y) && b@.contains(y) == inside));
                if y == x {
                    assert(!before.contains(x));
                }
            }
            assert forall|k: int| 0 <= k < out@.len() implies exists|j: int| 0 <= j < i + 1 && a@[j] == #[trigger] out@[k] by {
                if k < before.len() {
                    let j = choose|j: int| 0 <= j < i && a@[j] == before[k];
                    assert(a@[j] == out@[k]);
                } else {
                    assert(a@[i as int] == out@[k]);
                }
            }
        }
        i += 1;
    }
    assert(a@.take(i as int) =~= a@);
    assert(inside ==> out@.to_set() =~= a@.to_set().intersect(b@.to_set()));
    assert(!inside ==> out@.to_set() =~= a@.to_set().difference(b@.to_set()));
    out
}

/// The Jaccard similarity of the value sets of `a` and `b`.
pub fn jaccard_similarity(a: &[u64], b: &[u64]) -> (r: Ratio)
    ensures
        r == jaccard(a@, b@),
{
    let da = distinct_values(a);
    let db = distinct_values(b);
    let inter = values_where(&da, &db, true);
    let only_b = values_where(&db, &da, false);
    let mut uni: Vec<u64> = Vec::new();
    let mut k: usize = 0;
    while k < da.len()
        invariant
            k <= da@.len(),
            uni@ == da@.take(k as int),
        decreases da.len() - k,
    {
        uni.push(da[k]);
        assert(uni@ =~= da@.take(k + 1));
        k += 1;
    }
    assert(da@.take(k as int) =~= da@);
    let mut j: usize = 0;
    while j < only_b.len()
        invariant
            j <= only_b@.len(),
            uni@ == da@ + only_b@.take(j as int),
        decreases only_b.len() - j,
    {
        uni.push(only_b[j]);
        assert(uni@ =~= da@ + only_b@.take(j + 1));
        j += 1;
    }
    assert(only_b@.take(j as int) =~= only_b@);
    proof {
        assert forall|x: int, y: int| 0 <= x < da@.len() && 0 <= y < only_b@.len() implies da@[x]
            != only_b@[y] by {
            assert(only_b@.to_set().contains(only_b@[y]));
            assert(da@.to_set().contains(da@[x]));
        }
        vstd::seq_lib::lemma_no_dup_in_concat(da@, only_b@);
        vstd::seq_lib::seq_to_set_distributes_over_add(da@, only_b@);
        assert(uni@.to_set() =~= a@.to_set().union(b@.to_set()));
        uni@.unique_seq_to_set();
        inter@.unique_seq_to_set();
        assert(inter@.to_set() =~= a@.to_set().intersect(b@.to_set()));
    }
    if uni.len() == 0 {
        Ratio { numerator: 0, denominator: 1 }
    } else {
        Ratio { numerator: inter.len() as u64, denominator: uni.len() as u64 }
    }
}

/// Ranges ordered by start, then end.
pub open spec fn range_le() -> spec_fn((usize, usize), (usize, usize)) -> bool {
    |a: (usize, usize), b: (usize, usize)| a.0 < b.0 || (a.0 == b.0 && a.1 <= b.1)
}

/// Sorts ranges by start, then end.
fn sort_ranges(v: Vec<(usize, usize)>) -> (out: Vec<(usize, usize)>)
    ensures
        out@ == stable_sort(v@, range_le()),
{
    let mut rest = v;
    let mut out: Vec<(usize, usize)> = Vec::new();
    let ghost whole = rest@;
    assert(whole.skip(0) =~= whole);
    let ghost mut taken: int = 0;
    while rest.len() > 0
        invariant
            0 <= taken <= whole.len(),
            rest@ == whole.skip(taken),
            out@ == stable_sort(whole.take(taken), range_le()),
        decreases rest.len(),
    {
        let x = rest.remove(0);
        proof {
            assert(rest@ =~= whole.skip(taken + 1));
            assert(whole.take(taken + 1).drop_last() =~= whole.take(taken));
        }
        let mut j = out.len();
        while j > 0 && !(out[j - 1].0 < x.0 || (out[j - 1].0 == x.0 && out[j - 1].1 <= x.1))
            invariant
                j <= out.len(),
                forall|k: int| j <= k < out.len() ==> !range_le()(#[trigger] out@[k], x),
            decreases j,
        {
            j -= 1;
        }
        proof {
            lemma_insert_at_scan(out@, x, range_le(), j as int);
        }
        out.insert(j, x);
        proof {
            taken = taken + 1;
        }
    }
    assert(whole.take(taken) =~= whole);
    out
}

/// Sorted ranges with each range that starts inside the one before joined
/// to it.
pub open spec fn merge_sorted(rs: Seq<(usize, usize)>) -> Seq<(usize, usize)>
    decreases rs.len(),
{
    if rs.len() == 0 {
        Seq::empty()
    } else {
        let m = merge_sorted(rs.drop_last());
        let r = rs.last();
        if m.len() > 0 && r.0 <= m.last().1 {
            m.update(
                m.len() - 1,
                (
                    m.last().0,
                    if r.1 > m.last().1 {
                        r.1
                    } else {
                        m.last().1
                    },
                ),
            )
        } else {
            m.push(r)
        }
    }
}

/// Sorts ranges and joins those that overlap or touch.
pub fn merge_overlapping(ranges: Vec<(usize, usize)>) -> (merged: Vec<(usize, usize)>)
    ensures
        merged@ == merge_sorted(stable_sort(ranges@, range_le())),
{
    let sorted = sort_ranges(ranges);
    let mut merged: Vec<(usize, usize)> = Vec::new();
    let mut i: usize = 0;
    while i < sorted.len()
        invariant
            i <= sorted@.len(),
            merged@ == merge_sorted(sorted@.take(i as int)),
        decreases sorted.len() - i,
    {
        let (start, end) = sorted[i];
        assert(sorted@.take(i + 1).drop_last() =~= sorted@.take(i as int));
        let n = merged.len();
        if n > 0 && start <= merged[n - 1].1 {
            let last = merged[n - 1];
            let new_end = if end > last.1 {
                end
            } else {
                last.1
            };
            merged.set(n - 1, (last.0, new_end));
        } else {
            merged.push((start, end));
        }
        i += 1;
    }
    assert(sorted@.take(i as int) =~= sorted@);
    merged
}

/// The windows of file `fi` with tokens `toks`: `(file, start, hash)` for
/// every run of `WINDOW_SIZE` consecutive tokens, none for a shorter file.
pub open spec fn file_windows(fi: int, toks: Seq<Seq<char>>) -> Seq<(int, int, u64)> {
    if toks.len() < WINDOW_SIZE {
        Seq::empty()
    } else {
        Seq::new(
            (toks.len() - WINDOW_SIZE + 1) as nat,
            |s: int| (fi, s, tokens_hash(toks.subrange(s, s + WINDOW_SIZE))),
        )
    }
}

/// The windows of the first `k` files, file after file.
pub open spec fn windows_upto(files: Seq<(String, Vec<String>)>, k: nat) -> Seq<(int, int, u64)>
    decreases k,
{
    if k == 0 {
        Seq::empty()
    } else {
        windows_upto(files, (k - 1) as nat) + file_windows(
            k - 1,
            strings_view(files[k - 1].1@),
        )
    }
}

/// The windows of all files.
pub open spec fn all_windows(files: Seq<(String, Vec<String>)>) -> Seq<(int, int, u64)> {
    windows_upto(files, files.len())
}

pub open spec fn windows_view(ws: Seq<(usize, usize, u64)>) -> Seq<(int, int, u64)> {
    ws.map_values(|w: (usize, usize, u64)| (w.0 as int, w.1 as int, w.2))
}

/// Appends the windows of one file.
fn push_file_windows(
    files: &[(String, Vec<String>)],
    fi: usize,
    ws: &mut Vec<(usize, usize, u64)>,
)
    requires
        fi < files@.len(),
    ensures
        windows_view(final(ws)@) == windows_view(old(ws)@) + file_windows(
            fi as int,
            strings_view(files@[fi as int].1@),
        ),
        forall|k: int| old(ws)@.len() <= k < final(ws)@.len() ==> (#[trigger] final(ws)@[k]).0 == fi
            && final(ws)@[k].1 + WINDOW_SIZE <= files@[fi as int].1@.len(),
        forall|k: int| 0 <= k < old(ws)@.len() ==> #[trigger] final(ws)@[k] == old(ws)@[k],
{
    let toks = &files[fi].1;
    let ghost tv = strings_view(toks@);
    let ghost v0 = ws@;
    if toks.len() < WINDOW_SIZE {
        assert(windows_view(ws@) =~= windows_view(v0) + file_windows(fi as int, tv));
        return;
    }
    let mut s: usize = 0;
    while s <= toks.len() - WINDOW_SIZE
        invariant
            toks@.len() >= WINDOW_SIZE,
            s <= toks@.len() - WINDOW_SIZE + 1,
            toks@ == files@[fi as int].1@,
            tv == strings_view(toks@),
            ws@.len() == v0.len() + s,
            forall|k: int| 0 <= k < v0.len() ==> #[trigger] ws@[k] == v0[k],
            forall|k: int|
                0 <= k < s ==> (#[trigger] ws@[v0.len() + k]) == (fi, k as usize, tokens_hash(
                    tv.subrange(k, k + WINDOW_SIZE),
                )),
        decreases toks.len() - s,
    {
        let h = hash_tokens(toks.as_slice(), s, s + WINDOW_SIZE);
        ws.push((fi, s, h));
        s += 1;
    }
    assert(windows_view(ws@) =~= windows_view(v0) + file_windows(fi as int, tv)) by {
        assert forall|k: int| 0 <= k < ws@.len() implies #[trigger] windows_view(ws@)[k] == (
        windows_view(v0) + file_windows(fi as int, tv))[k] by {
            if k >= v0.len() {
                let j = k - v0.len();
                assert(ws@[v0.len() + j] == (fi, j as usize, tokens_hash(
                    tv.subrange(j, j + WINDOW_SIZE),
                )));
            }
        }
    }
    assert forall|k: int| v0.len() <= k < ws@.len() implies (#[trigger] ws@[k]).0 == fi && ws@[k].1
        + WINDOW_SIZE <= files@[fi as int].1@.len() by {
        let j = k - v0.len();
        assert(ws@[v0.len() + j].0 == fi);
    }
}

/// All windows of `files`, each with its hash.
fn collect_windows(files: &[(String, Vec<String>)]) -> (ws: Vec<(usize, usize, u64)>)
    ensures
        windows_view(ws@) == all_windows(files@),
        forall|k: int|
            0 <= k < ws@.len() ==> (#[trigger] ws@[k]).0 < files@.len() && ws@[k].1 + WINDOW_SIZE
                <= files@[ws@[k].0 as int].1@.len(),
{
    let mut ws: Vec<(usize, usize, u64)> = Vec::new();
    let mut i: usize = 0;
    while i < files.len()
        invariant
            i <= files@.len(),
            windows_view(ws@) == windows_upto(files@, i as nat),
            forall|k: int|
                0 <= k < ws@.len() ==> (#[trigger] ws@[k]).0 < i && ws@[k].1 + WINDOW_SIZE
                    <= files@[ws@[k].0 as int].1@.len(),
        decreases files.len() - i,
    {
        push_file_windows(files, i, &mut ws);
        i += 1;
    }
    ws
}

/// The hashes of `hs` without repeats, in the order first seen.
pub open spec fn first_seen(hs: Seq<u64>) -> Seq<u64>
    decreases hs.len(),
{
    if hs.len() == 0 {
        Seq::empty()
    } else {
        let f = first_seen(hs.drop_last());
        if f.contains(hs.last()) {
            f
        } else {
            f.push(hs.last())
        }
    }
}

pub open spec fn hashes_of(ws: Seq<(int, int, u64)>) -> Seq<u64> {
    ws.map_values(|w: (int, int, u64)| w.2)
}

/// The `(file, start)` of the windows of `ws` with hash `h`, in order.
pub open spec fn spots_of(ws: Seq<(int, int, u64)>, h: u64) -> Seq<(int, int)>
    decreases ws.len(),
{
    if ws.len() == 0 {
        Seq::empty()
    } else {
        spots_of(ws.drop_last(), h) + if ws.last().2 == h {
            seq![(ws.last().0, ws.last().1)]
        } else {
            Seq::empty()
        }
    }
}

pub open spec fn spots_view(v: Seq<(usize, usize)>) -> Seq<(int, int)> {
    v.map_values(|p: (usize, usize)| (p.0 as int, p.1 as int))
}

/// The windows grouped by hash: the hashes in the order first seen, and for
/// each the places of its windows.
fn group_by_hash(ws: &Vec<(usize, usize, u64)>) -> (r: (Vec<u64>, Vec<Vec<(usize, usize)>>))
    ensures
        r.0@ == first_seen(hashes_of(windows_view(ws@))),
        r.1@.len() == r.0@.len(),
        forall|g: int|
            0 <= g < r.1@.len() ==> spots_view((#[trigger] r.1@[g])@) == spots_of(
                windows_view(ws@),
                r.0@[g],
            ),
        forall|g: int, k: int|
            0 <= g < r.1@.len() && 0 <= k < r.1@[g]@.len() ==> exists|j: int|
                0 <= j < ws@.len() && (#[trigger] r.1@[g]@[k]) == (ws@[j].0, ws@[j].1),
{
    broadcast use vstd::std_specs::hash::group_hash_axioms;

    let mut index: HashMap<u64, usize> = HashMap::new();
    let mut keys: Vec<u64> = Vec::new();
    let mut lists: Vec<Vec<(usize, usize)>> = Vec::new();
    let mut k: usize = 0;
    while k < ws.len()
        invariant
            k <= ws@.len(),
            keys@ == first_seen(hashes_of(windows_view(ws@.take(k as int)))),
            lists@.len() == keys@.len(),
            keys@.no_duplicates(),
            forall|h: u64| #[trigger] index@.contains_key(h) <==> keys@.contains(h),
            forall|g: int| 0 <= g < keys@.len() ==> #[trigger] index@[keys@[g]] == g,
            forall|g: int|
                0 <= g < lists@.len() ==> spots_view((#[trigger] lists@[g])@) == spots_of(
                    windows_view(ws@.take(k as int)),
                    keys@[g],
                ),
            forall|g: int, m: int|
                0 <= g < lists@.len() && 0 <= m < lists@[g]@.len() ==> exists|j: int|
                    0 <= j < ws@.len() && (#[trigger] lists@[g]@[m]) == (ws@[j].0, ws@[j].1),
        decreases ws.len() - k,
    {
        let (f, s, h) = ws[k];
        let ghost pre = windows_view(ws@.take(k as int));
        let ghost cur = windows_view(ws@.take(k + 1));
        assert(cur =~= pre.push((f as int, s as int, h)));
        assert(cur.drop_last() == pre);
        assert(hashes_of(cur).drop_last() =~= hashes_of(pre));
        let ghost old_lists = lists@;
        let ghost old_keys = keys@;
        match index.get(&h) {
            Some(g) => {
                let g = *g;
                proof {
                    assert(old_keys.contains(h));
                    let gi = choose|gi: int| 0 <= gi < old_keys.len() && old_keys[gi] == h;
                    assert(g == gi);
                }
                lists[g].push((f, s));
                proof {
                    assert forall|g2: int|
                        0 <= g2 < lists@.len() implies spots_view((#[trigger] lists@[g2])@)
                        == spots_of(cur, keys@[g2]) by {
                        if g2 == g {
                            assert(spots_view(lists@[g2]@) =~= spots_view(old_lists[g2]@).push(
                                (f as int, s as int),
                            ));
                        } else {
                            assert(lists@[g2] == old_lists[g2]);
                        }
                    }
                    assert forall|g2: int, m: int|
                        0 <= g2 < lists@.len() && 0 <= m < lists@[g2]@.len() implies exists|j: int|
                        0 <= j < ws@.len() && (#[trigger] lists@[g2]@[m]) == (ws@[j].0, ws@[j].1) by {
                        if g2 == g && m == lists@[g2]@.len() - 1 {
                            assert(lists@[g2]@[m] == (ws@[k as int].0, ws@[k as int].1));
                        } else if g2 == g {
                            assert(lists@[g2]@[m] == old_lists[g2]@[m]);
                        } else {
                            assert(lists@[g2] == old_lists[g2]);
                        }
                    }
                }
            },
            None => {
                let g = keys.len();
                index.insert(h, g);
                keys.push(h);
                let mut l: Vec<(usize, usize)> = Vec::new();
                l.push((f, s));
                lists.push(l);
                proof {
                    lemma_push_contains(old_keys, h);
                    assert forall|g2: int|
                        0 <= g2 < lists@.len() implies spots_view((#[trigger] lists@[g2])@)
                        == spots_of(cur, keys@[g2]) by {
                        if g2 == g {
                            assert(spots_of(pre, h) =~= Seq::empty()) by {
                                lemma_first_seen_contains(hashes_of(pre));
                                lemma_spots_absent(pre, h);
                            }
                            assert(spots_view(lists@[g2]@) =~= seq![(f as int, s as int)]);
                        } else {
                            assert(lists@[g2] == old_lists[g2]);
                            assert(keys@[g2] != h);
                        }
                    }
                    assert forall|g2: int, m: int|
                        0 <= g2 < lists@.len() && 0 <= m < lists@[g2]@.len() implies exists|j: int|
                        0 <= j < ws@.len() && (#[trigger] lists@[g2]@[m]) == (ws@[j].0, ws@[j].1) by {
                        if g2 == g {
                            assert(lists@[g2]@[m] == (ws@[k as int].0, ws@[k as int].1));
                        } else {
                            assert(lists@[g2] == old_lists[g2]);
                        }
                    }
                }
            },
        }
        k += 1;
    }
    assert(ws@.take(k as int) =~= ws@);
    (keys, lists)
}

/// The hashes seen are those of the sequence.
proof fn lemma_first_seen_contains(hs: Seq<u64>)
    ensures
        forall|x: u64| first_seen(hs).contains(x) <==> hs.contains(x),
    decreases hs.len(),
{
    if hs.len() > 0 {
        lemma_first_seen_contains(hs.drop_last());
        let f = first_seen(hs.drop_last());
        lemma_push_contains(f, hs.last());
        lemma_push_contains(hs.drop_last(), hs.last());
        assert(hs.drop_last().push(hs.last()) =~= hs);
        assert forall|x: u64| first_seen(hs).contains(x) <==> hs.contains(x) by {
            assert(hs.contains(x) == hs.drop_last().push(hs.last()).contains(x));
            assert(hs.drop_last().contains(x) == f.contains(x));
            if f.contains(hs.last()) {
                assert(first_seen(hs) == f);
            } else {
                assert(first_seen(hs) == f.push(hs.last()));
            }
        }
    }
}

/// A hash that none of `ws` has has no spots.
proof fn lemma_spots_absent(ws: Seq<(int, int, u64)>, h: u64)
    requires
        !hashes_of(ws).contains(h),
    ensures
        spots_of(ws, h) == Seq::<(int, int)>::empty(),
    decreases ws.len(),
{
    if ws.len() > 0 {
        assert(hashes_of(ws.drop_last()) =~= hashes_of(ws).drop_last());
        if hashes_of(ws.drop_last()).contains(h) {
            let j = choose|j: int| 0 <= j < hashes_of(ws.drop_last()).len() && hashes_of(ws.drop_last())[j] == h;
            assert(hashes_of(ws)[j] == h);
        }
        assert(hashes_of(ws)[ws.len() - 1] == ws.last().2);
        lemma_spots_absent(ws.drop_last(), h);
    }
}

/// How many tokens a list of blocks covers.
pub open spec fn blocks_len(bs: Seq<(usize, usize)>) -> int
    decreases bs.len(),
{
    if bs.len() == 0 {
        0
    } else {
        blocks_len(bs.drop_last()) + (bs.last().1 - bs.last().0)
    }
}

/// Merging sorted ranges within `[lo, hi]` gives blocks within `[lo, hi]`,
/// the first starting where the first range does, covering no more tokens
/// than lie between the first start and the last end.
proof fn lemma_merge_props(rs: Seq<(usize, usize)>, lo: int, hi: int)
    requires
        forall|i: int, j: int| 0 <= i < j < rs.len() ==> range_le()(rs[i], rs[j]),
        forall|i: int| 0 <= i < rs.len() ==> lo <= (#[trigger] rs[i]).0 <= rs[i].1 <= hi,
    ensures
        rs.len() > 0 ==> merge_sorted(rs).len() > 0 && merge_sorted(rs)[0].0 == rs[0].0,
        forall|k: int|
            0 <= k < merge_sorted(rs).len() ==> lo <= (#[trigger] merge_sorted(rs)[k]).0
                <= merge_sorted(rs)[k].1 <= hi,
        merge_sorted(rs).len() > 0 ==> blocks_len(merge_sorted(rs)) <= merge_sorted(rs).last().1
            - merge_sorted(rs)[0].0,
    decreases rs.len(),
{
    if rs.len() > 0 {
        let d = rs.drop_last();
        lemma_merge_props(d, lo, hi);
        let m = merge_sorted(d);
        let r = rs.last();
        if m.len() > 0 && r.0 <= m.last().1 {
            let e = if r.1 > m.last().1 {
                r.1
            } else {
                m.last().1
            };
            let n = m.update(m.len() - 1, (m.last().0, e));
            assert(n.drop_last() =~= m.drop_last());
            assert(blocks_len(m) == blocks_len(m.drop_last()) + (m.last().1 - m.last().0));
            assert(blocks_len(n) == blocks_len(n.drop_last()) + (n.last().1 - n.last().0));
            assert(n[0].0 == m[0].0);
            assert(merge_sorted(rs) == n);
        } else {
            let n = m.push(r);
            if m.len() > 0 {
                assert(range_le()(rs[0], rs[rs.len() - 1]));
                assert(n[0] == m[0]);
            }
            assert(n.drop_last() =~= m);
            assert(blocks_len(n) == blocks_len(m) + (r.1 - r.0));
            assert(merge_sorted(rs) == n);
        }
    }
}

/// The windows of a list of places split into runs of the same file: each
/// run is a file and the starts of its windows, in order.
pub open spec fn file_runs(spots: Seq<(int, int)>) -> Seq<(int, Seq<int>)>
    decreases spots.len(),
{
    if spots.len() == 0 {
        Seq::empty()
    } else {
        let r = file_runs(spots.drop_last());
        let p = spots.last();
        if r.len() > 0 && r.last().0 == p.0 {
            r.update(r.len() - 1, (p.0, r.last().1.push(p.1)))
        } else {
            r.push((p.0, seq![p.1]))
        }
    }
}

/// The ranges of the windows of `width` tokens starting at `starts`.
pub open spec fn window_ranges(starts: Seq<int>, width: int) -> Seq<(usize, usize)> {
    starts.map_values(|s: int| (s as usize, (s + width) as usize))
}

/// The blocks of a run: its window ranges merged.
pub open spec fn run_blocks(starts: Seq<int>, width: int) -> Seq<(usize, usize)> {
    merge_sorted(stable_sort(window_ranges(starts, width), range_le()))
}

/// The most tokens that the blocks of any one run cover.
pub open spec fn max_run_tokens(rs: Seq<(int, Seq<int>)>, width: int) -> int
    decreases rs.len(),
{
    if rs.len() == 0 {
        0
    } else {
        let m = max_run_tokens(rs.drop_last(), width);
        let t = blocks_len(run_blocks(rs.last().1, width));
        if t > m {
            t
        } else {
            m
        }
    }
}

/// Tokens joined by single spaces.
pub open spec fn join_tokens(ts: Seq<Seq<char>>) -> Seq<char>
    decreases ts.len(),
{
    if ts.len() == 0 {
        Seq::empty()
    } else if ts.len() == 1 {
        ts[0]
    } else {
        join_tokens(ts.drop_last()) + " "@ + ts.last()
    }
}

pub struct DupLocationView {
    pub file_path: Seq<char>,
    pub start_line: int,
    pub end_line: int,
}

pub struct ClusterView {
    pub locations: Seq<DupLocationView>,
    pub sample: Seq<char>,
    pub token_count: int,
    pub is_near_dup: bool,
}

impl View for DupLocation {
    type V = DupLocationView;

    open spec fn view(&self) -> DupLocationView {
        DupLocationView {
            file_path: self.file_path@,
            start_line: self.start_line as int,
            end_line: self.end_line as int,
        }
    }
}

impl View for DuplicateCluster {
    type V = ClusterView;

    open spec fn view(&self) -> ClusterView {
        ClusterView {
            locations: self.locations@.map_values(|l: DupLocation| l@),
            sample: self.sample@,
            token_count: self.token_count as int,
            is_near_dup: self.is_near_dup,
        }
    }
}

pub open spec fn clusters_view(cs: Seq<DuplicateCluster>) -> Seq<ClusterView> {
    cs.map_values(|c: DuplicateCluster| c@)
}

/// A location naming file `fi` of `files`.
pub open spec fn location_of(files: Seq<(String, Vec<String>)>, fi: int) -> DupLocationView {
    DupLocationView { file_path: files[fi].0@, start_line: 0, end_line: 0 }
}

/// The cluster of the windows of `width` tokens at `spots` (lying in at
/// least two files), before its sample is cut: one location per file, the
/// sample taken from the first block of the first file, and the largest
/// number of tokens any one file's blocks cover.
pub open spec fn span_cluster(files: Seq<(String, Vec<String>)>, spots: Seq<(int, int)>, width: int) -> ClusterView {
    let rs = file_runs(spots);
    let b = run_blocks(rs[0].1, width)[0];
    ClusterView {
        locations: rs.map_values(|r: (int, Seq<int>)| location_of(files, r.0)),
        sample: join_tokens(strings_view(files[rs[0].0].1@).subrange(b.0 as int, b.1 as int)),
        token_count: max_run_tokens(rs, width),
        is_near_dup: false,
    }
}

/// Every place of `spots` is a window of `width` tokens within its file.
pub open spec fn spots_fit(files: Seq<(String, Vec<String>)>, spots: Seq<(usize, usize)>, width: int) -> bool {
    forall|k: int|
        0 <= k < spots.len() ==> (#[trigger] spots[k]).0 < files.len() && spots[k].1 + width
            <= files[spots[k].0 as int].1@.len()
}

/// The longest sample a report shows, in bytes.
pub const SAMPLE_BYTES: usize = 120;

/// A sample can be cut at `SAMPLE_BYTES` bytes: it is no longer, or that
/// byte starts a character.
pub open spec fn sample_fits(s: Seq<char>) -> bool {
    let b = vstd::utf8::encode_utf8(s);
    b.len() <= SAMPLE_BYTES || vstd::utf8::is_char_boundary(b, SAMPLE_BYTES as int)
}

/// A sample cut to its first `SAMPLE_BYTES` bytes and marked with `...`
/// where it is longer.
pub open spec fn cut_sample(s: Seq<char>) -> Seq<char> {
    let b = vstd::utf8::encode_utf8(s);
    if b.len() > SAMPLE_BYTES {
        vstd::utf8::decode_utf8(b.subrange(0, SAMPLE_BYTES as int)) + "..."@
    } else {
        s
    }
}

/// A cluster with its sample cut.
pub open spec fn with_cut_sample(c: ClusterView) -> ClusterView {
    ClusterView { sample: cut_sample(c.sample), ..c }
}

proof fn lemma_blocks_len_prefix(bs: Seq<(usize, usize)>, j: int)
    requires
        0 <= j <= bs.len(),
        forall|k: int| 0 <= k < bs.len() ==> (#[trigger] bs[k]).0 <= bs[k].1,
    ensures
        0 <= blocks_len(bs.take(j)) <= blocks_len(bs),
    decreases bs.len(),
{
    if bs.len() > 0 {
        if j == bs.len() {
            assert(bs.take(j) =~= bs);
            lemma_blocks_len_prefix(bs.drop_last(), j - 1);
            assert(bs.drop_last().take(j - 1) =~= bs.drop_last());
        } else {
            assert(bs.take(j) =~= bs.drop_last().take(j));
            lemma_blocks_len_prefix(bs.drop_last(), j);
        }
    } else {
        assert(bs.take(j) =~= bs);
    }
}

/// Tokens `toks[lo..hi]` joined by single spaces.
fn join_range(toks: &Vec<String>, lo: usize, hi: usize) -> (r: String)
    requires
        lo <= hi <= toks@.len(),
    ensures
        r@ == join_tokens(strings_view(toks@).subrange(lo as int, hi as int)),
{
    let mut r = String::new();
    let mut i = lo;
    while i < hi
        invariant
            lo <= i <= hi <= toks@.len(),
            r@ == join_tokens(strings_view(toks@).subrange(lo as int, i as int)),
        decreases hi - i,
    {
        let ghost sub = strings_view(toks@).subrange(lo as int, i + 1);
        assert(sub.drop_last() =~= strings_view(toks@).subrange(lo as int, i as int));
        if i > lo {
            r.append(" ");
        } else {
            assert(r@ =~= Seq::<char>::empty());
        }
        r.append(toks[i].as_str());
        i += 1;
    }
    r
}

pub open spec fn runs_view(fs: Seq<usize>, ss: Seq<Vec<usize>>) -> Seq<(int, Seq<int>)> {
    Seq::new(
        fs.len(),
        |i: int| (fs[i] as int, ss[i]@.map_values(|x: usize| x as int)),
    )
}

/// Splits places into runs of the same file.
fn split_runs(spots: &Vec<(usize, usize)>) -> (r: (Vec<usize>, Vec<Vec<usize>>))
    ensures
        r.0@.len() == r.1@.len(),
        runs_view(r.0@, r.1@) == file_runs(spots_view(spots@)),
        forall|i: int, k: int|
            0 <= i < r.1@.len() && 0 <= k < r.1@[i]@.len() ==> exists|j: int|
                0 <= j < spots@.len() && spots@[j] == (r.0@[i], #[trigger] r.1@[i]@[k]),
        forall|i: int| 0 <= i < r.1@.len() ==> (#[trigger] r.1@[i])@.len() > 0,
{
    let mut fs: Vec<usize> = Vec::new();
    let mut ss: Vec<Vec<usize>> = Vec::new();
    let mut k: usize = 0;
    while k < spots.len()
        invariant
            k <= spots@.len(),
            fs@.len() == ss@.len(),
            runs_view(fs@, ss@) == file_runs(spots_view(spots@.take(k as int))),
            forall|i: int, m: int|
                0 <= i < ss@.len() && 0 <= m < ss@[i]@.len() ==> exists|j: int|
                    0 <= j < spots@.len() && spots@[j] == (fs@[i], #[trigger] ss@[i]@[m]),
            forall|i: int| 0 <= i < ss@.len() ==> (#[trigger] ss@[i])@.len() > 0,
        decreases spots.len() - k,
    {
        let (f, s) = spots[k];
        let ghost pre = spots_view(spots@.take(k as int));
        let ghost cur = spots_view(spots@.take(k + 1));
        assert(cur =~= pre.push((f as int, s as int)));
        assert(cur.drop_last() =~= pre);
        assert(cur.last() == (f as int, s as int));
        let ghost old_fs = fs@;
        let ghost old_ss = ss@;
        let n = fs.len();
        if n > 0 && fs[n - 1] == f {
            ss[n - 1].push(s);
            proof {
                let expect = runs_view(old_fs, old_ss).update(
                    n - 1,
                    (f as int, runs_view(old_fs, old_ss)[n - 1].1.push(s as int)),
                );
                assert forall|i: int| 0 <= i < expect.len() implies runs_view(fs@, ss@)[i]
                    == expect[i] by {
                    if i == n - 1 {
                        assert(ss@[i]@.map_values(|x: usize| x as int) =~= old_ss[i]@.map_values(
                            |x: usize| x as int,
                        ).push(s as int));
                    } else {
                        assert(ss@[i] == old_ss[i]);
                    }
                }
                assert(runs_view(fs@, ss@) =~= expect);
                assert(file_runs(cur) == expect);
                assert forall|i: int, m: int|
                    0 <= i < ss@.len() && 0 <= m < ss@[i]@.len() implies exists|j: int|
                    0 <= j < spots@.len() && spots@[j] == (fs@[i], #[trigger] ss@[i]@[m]) by {
                    if i == n - 1 && m == ss@[i]@.len() - 1 {
                        assert(spots@[k as int] == (fs@[i], ss@[i]@[m]));
                    } else if i == n - 1 {
                        assert(ss@[i]@[m] == old_ss[i]@[m]);
                    } else {
                        assert(ss@[i] == old_ss[i]);
                    }
                }
            }
        } else {
            fs.push(f);
            let mut v: Vec<usize> = Vec::new();
            v.push(s);
            ss.push(v);
            proof {
                let expect = runs_view(old_fs, old_ss).push((f as int, seq![s as int]));
                assert forall|i: int| 0 <= i < expect.len() implies runs_view(fs@, ss@)[i]
                    == expect[i] by {
                    if i == n {
                        assert(ss@[i]@.map_values(|x: usize| x as int) =~= seq![s as int]);
                    } else {
                        assert(ss@[i] == old_ss[i]);
                    }
                }
                assert(runs_view(fs@, ss@) =~= expect);
                assert(file_runs(cur) == expect);
                assert forall|i: int, m: int|
                    0 <= i < ss@.len() && 0 <= m < ss@[i]@.len() implies exists|j: int|
                    0 <= j < spots@.len() && spots@[j] == (fs@[i], #[trigger] ss@[i]@[m]) by {
                    if i == n {
                        assert(spots@[k as int] == (fs@[i], ss@[i]@[m]));
                    } else {
                        assert(ss@[i] == old_ss[i]);
                    }
                }
            }
        }
        k += 1;
    }
    assert(spots@.take(k as int) =~= spots@);
    (fs, ss)
}

/// The blocks of a run of window starts in a file of `len` tokens, and the
/// tokens they cover.
fn blocks_of(starts: &Vec<usize>, len: usize, width: usize) -> (r: (Vec<(usize, usize)>, usize))
    requires
        forall|k: int| 0 <= k < starts@.len() ==> #[trigger] starts@[k] + width <= len,
        starts@.len() > 0,
    ensures
        r.0@ == run_blocks(starts@.map_values(|x: usize| x as int), width as int),
        r.1 == blocks_len(r.0@),
        r.0@.len() > 0,
        forall|k: int| 0 <= k < r.0@.len() ==> (#[trigger] r.0@[k]).0 <= r.0@[k].1 <= len,
{
    let mut ranges: Vec<(usize, usize)> = Vec::new();
    let mut i: usize = 0;
    let ghost sv = starts@.map_values(|x: usize| x as int);
    while i < starts.len()
        invariant
            i <= starts@.len(),
            sv == starts@.map_values(|x: usize| x as int),
            forall|k: int| 0 <= k < starts@.len() ==> #[trigger] starts@[k] + width <= len,
            ranges@ == window_ranges(sv.take(i as int), width as int),
        decreases starts.len() - i,
    {
        ranges.push((starts[i], starts[i] + width));
        assert(ranges@ =~= window_ranges(sv.take(i + 1), width as int));
        i += 1;
    }
    assert(sv.take(i as int) =~= sv);
    let ghost rv = ranges@;
    let blocks = merge_overlapping(ranges);
    proof {
        lemma_stable_sort_sorted(rv, range_le());
        let srt = stable_sort(rv, range_le());
        assert forall|k: int| 0 <= k < srt.len() implies 0 <= (#[trigger] srt[k]).0 <= srt[k].1
            <= len by {
            assert(rv.contains(srt[k]));
            let j = choose|j: int| 0 <= j < rv.len() && rv[j] == srt[k];
            assert(rv[j] == (starts@[j], (starts@[j] + width) as usize));
        }
        lemma_merge_props(srt, 0, len as int);
    }
    let mut total: usize = 0;
    let mut j: usize = 0;
    while j < blocks.len()
        invariant
            j <= blocks@.len(),
            blocks@.len() > 0,
            forall|k: int| 0 <= k < blocks@.len() ==> (#[trigger] blocks@[k]).0 <= blocks@[k].1 <= len,
            blocks_len(blocks@) <= len,
            total == blocks_len(blocks@.take(j as int)),
        decreases blocks.len() - j,
    {
        proof {
            assert(blocks@.take(j + 1).drop_last() =~= blocks@.take(j as int));
            lemma_blocks_len_prefix(blocks@, j + 1);
        }
        total = total + (blocks[j].1 - blocks[j].0);
        j += 1;
    }
    assert(blocks@.take(j as int) =~= blocks@);
    (blocks, total)
}

/// The cluster of the windows of `width` tokens at `spots`, its sample not
/// yet cut; none where they lie in fewer than two files.
fn cluster_for_group(files: &[(String, Vec<String>)], spots: &Vec<(usize, usize)>, width: usize) -> (r: Option<
    DuplicateCluster,
>)
    requires
        spots_fit(files@, spots@, width as int),
    ensures
        r is Some <==> file_runs(spots_view(spots@)).len() >= 2,
        r matches Some(c) ==> c@ == span_cluster(files@, spots_view(spots@), width as int),
{
    let (fs, ss) = split_runs(spots);
    let ghost rs = file_runs(spots_view(spots@));
    if fs.len() < 2 {
        return None;
    }
    let mut locations: Vec<DupLocation> = Vec::new();
    let mut best: usize = 0;
    let mut sample = String::new();
    let mut i: usize = 0;
    while i < fs.len()
        invariant
            2 <= fs@.len(),
            i <= fs@.len(),
            fs@.len() == ss@.len(),
            rs == runs_view(fs@, ss@),
            forall|a: int, k: int|
                0 <= a < ss@.len() && 0 <= k < ss@[a]@.len() ==> exists|j: int|
                    0 <= j < spots@.len() && spots@[j] == (fs@[a], #[trigger] ss@[a]@[k]),
            forall|a: int| 0 <= a < ss@.len() ==> (#[trigger] ss@[a])@.len() > 0,
            spots_fit(files@, spots@, width as int),
            locations@.map_values(|l: DupLocation| l@) == rs.take(i as int).map_values(
                |r: (int, Seq<int>)| location_of(files@, r.0),
            ),
            best == max_run_tokens(rs.take(i as int), width as int),
            i > 0 ==> sample@ == join_tokens(
                strings_view(files@[rs[0].0].1@).subrange(
                    run_blocks(rs[0].1, width as int)[0].0 as int,
                    run_blocks(rs[0].1, width as int)[0].1 as int,
                ),
            ),
        decreases fs.len() - i,
    {
        let f = fs[i];
        let ghost first = spots@[0];
        proof {
            let k0 = choose|j: int| 0 <= j < spots@.len() && spots@[j] == (fs@[i as int], ss@[i as int]@[0]);
            assert(f < files@.len());
        }
        let toks = &files[f].1;
        assert forall|k: int| 0 <= k < ss@[i as int]@.len() implies #[trigger] ss@[i as int]@[k]
            + width <= toks@.len() by {
            let j = choose|j: int| 0 <= j < spots@.len() && spots@[j] == (fs@[i as int], ss@[i as int]@[k]);
        }
        let (blocks, t) = blocks_of(&ss[i], toks.len(), width);
        assert(rs[i as int].1 == ss@[i as int]@.map_values(|x: usize| x as int));
        if i == 0 {
            let b = blocks[0];
            sample = join_range(toks, b.0, b.1);
        }
        proof {
            assert(rs.take(i + 1).drop_last() =~= rs.take(i as int));
            lemma_blocks_len_prefix(blocks@, blocks@.len() as int);
            assert(blocks@.take(blocks@.len() as int) =~= blocks@);
        }
        if t > best {
            best = t;
        }
        let ghost old_locs = locations@;
        locations.push(DupLocation { file_path: files[f].0.clone(), start_line: 0, end_line: 0 });
        proof {
            assert(rs.take(i + 1) =~= rs.take(i as int).push(rs[i as int]));
            assert(locations@.last()@ == location_of(files@, rs[i as int].0));
            assert(locations@.map_values(|l: DupLocation| l@) =~= old_locs.map_values(
                |l: DupLocation| l@,
            ).push(location_of(files@, rs[i as int].0)));
            assert(locations@.map_values(|l: DupLocation| l@) =~= rs.take(i + 1).map_values(
                |r: (int, Seq<int>)| location_of(files@, r.0),
            ));
        }
        i += 1;
    }
    assert(rs.take(i as int) =~= rs);
    Some(DuplicateCluster { locations, sample, token_count: best, is_near_dup: false })
}

/// A sample cut to `SAMPLE_BYTES` bytes and marked with `...` where longer.
fn cut(sample: String) -> (r: String)
    requires
        sample_fits(sample@),
    ensures
        r@ == cut_sample(sample@),
{
    broadcast use vstd::utf8::encode_utf8_valid_utf8;

    let st = sample.as_str();
    assert(st.spec_bytes() == vstd::utf8::encode_utf8(sample@));
    let n = st.as_bytes().len();
    if n > SAMPLE_BYTES {
        let head = byte_slice(st, 0, SAMPLE_BYTES);
        assert(head@ == vstd::utf8::decode_utf8(
            vstd::utf8::encode_utf8(sample@).subrange(0, SAMPLE_BYTES as int),
        ));
        let mut r = to_string(head);
        r.append("...");
        r
    } else {
        sample
    }
}

/// Places moved `d` tokens further on in their files.
pub open spec fn shifted(spots: Seq<(int, int)>, d: int) -> Seq<(int, int)> {
    spots.map_values(|p: (int, int)| (p.0, p.1 + d))
}

/// Overlapping windows joined into runs, over the hashes `hs` in order. A
/// run is the places of its first hash's windows and how many tokens it
/// reaches past one window. A hash whose windows lie in fewer than two
/// files is passed over; one whose windows are exactly the places of the
/// last run moved one token past its reach extends that run; any other
/// starts a run.
pub open spec fn chains_for(ws: Seq<(int, int, u64)>, hs: Seq<u64>) -> Seq<(Seq<(int, int)>, int)>
    decreases hs.len(),
{
    if hs.len() == 0 {
        Seq::empty()
    } else {
        let c = chains_for(ws, hs.drop_last());
        let sp = spots_of(ws, hs.last());
        if file_runs(sp).len() < 2 {
            c
        } else if c.len() > 0 && sp == shifted(c.last().0, c.last().1 + 1) {
            c.update(c.len() - 1, (c.last().0, c.last().1 + 1))
        } else {
            c.push((sp, 0))
        }
    }
}

/// The cluster of a run: its places, with windows widened by its reach.
pub open spec fn chain_cluster(files: Seq<(String, Vec<String>)>, ch: (Seq<(int, int)>, int)) -> ClusterView {
    span_cluster(files, ch.0, WINDOW_SIZE + ch.1)
}

/// The exact-duplicate clusters, samples uncut: one per run of overlapping
/// windows whose hashes recur in at least two files, in the order the
/// hashes are first seen.
pub open spec fn exact_raw_clusters(files: Seq<(String, Vec<String>)>) -> Seq<ClusterView> {
    let ws = all_windows(files);
    chains_for(ws, first_seen(hashes_of(ws))).map_values(
        |ch: (Seq<(int, int)>, int)| chain_cluster(files, ch),
    )
}

/// Every sample can be cut.
pub open spec fn samples_fit(cs: Seq<ClusterView>) -> bool {
    forall|i: int| 0 <= i < cs.len() ==> sample_fits(#[trigger] cs[i].sample)
}

/// The exact-duplicate clusters with their samples cut.
pub open spec fn exact_clusters(files: Seq<(String, Vec<String>)>) -> Seq<ClusterView> {
    exact_raw_clusters(files).map_values(|c: ClusterView| with_cut_sample(c))
}

/// Whether the places lie in at least two files.
fn spans_two_files(spots: &Vec<(usize, usize)>) -> (b: bool)
    ensures
        b == (file_runs(spots_view(spots@)).len() >= 2),
        b ==> spots@.len() > 0,
{
    let (fs, ss) = split_runs(spots);
    if fs.len() >= 2 {
        proof {
            assert(ss@[0]@.len() > 0);
            let j = choose|j: int| 0 <= j < spots@.len() && spots@[j] == (fs@[0], ss@[0]@[0]);
        }
        true
    } else {
        false
    }
}

/// Whether `b` is `a` moved `d` tokens further on.
fn is_shift(a: &Vec<(usize, usize)>, b: &Vec<(usize, usize)>, d: usize) -> (r: bool)
    ensures
        r == (spots_view(b@) == shifted(spots_view(a@), d as int)),
{
    if a.len() != b.len() {
        assert(spots_view(b@).len() != shifted(spots_view(a@), d as int).len());
        return false;
    }
    let mut k: usize = 0;
    while k < a.len()
        invariant
            k <= a@.len(),
            a@.len() == b@.len(),
            forall|j: int|
                0 <= j < k ==> spots_view(b@)[j] == #[trigger] shifted(spots_view(a@), d as int)[j],
        decreases a.len() - k,
    {
        let (fa, sa) = a[k];
        let (fb, sb) = b[k];
        if fb != fa || sb < d || sb - d != sa {
            assert(spots_view(b@)[k as int] != shifted(spots_view(a@), d as int)[k as int]);
            return false;
        }
        k += 1;
    }
    assert(spots_view(b@) =~= shifted(spots_view(a@), d as int));
    true
}

/// The runs `cs` (a group and a reach each) as places and reach.
pub open spec fn chain_spots(lists: Seq<Vec<(usize, usize)>>, cs: Seq<(usize, usize)>) -> Seq<
    (Seq<(int, int)>, int),
> {
    cs.map_values(|c: (usize, usize)| (spots_view(lists[c.0 as int]@), c.1 as int))
}

fn raw_duplicate_clusters(file_tokens: &[(String, Vec<String>)]) -> (out: Vec<DuplicateCluster>)
    ensures
        clusters_view(out@) == exact_raw_clusters(file_tokens@),
{
    let ws = collect_windows(file_tokens);
    let (keys, lists) = group_by_hash(&ws);
    let ghost wv = windows_view(ws@);
    let mut chains: Vec<(usize, usize)> = Vec::new();
    let mut g: usize = 0;
    while g < keys.len()
        invariant
            g <= keys@.len(),
            wv == windows_view(ws@),
            wv == all_windows(file_tokens@),
            keys@ == first_seen(hashes_of(wv)),
            lists@.len() == keys@.len(),
            forall|h: int|
                0 <= h < lists@.len() ==> spots_view((#[trigger] lists@[h])@) == spots_of(wv, keys@[h]),
            forall|h: int, k: int|
                0 <= h < lists@.len() && 0 <= k < lists@[h]@.len() ==> exists|j: int|
                    0 <= j < ws@.len() && (#[trigger] lists@[h]@[k]) == (ws@[j].0, ws@[j].1),
            forall|k: int|
                0 <= k < ws@.len() ==> (#[trigger] ws@[k]).0 < file_tokens@.len() && ws@[k].1
                    + WINDOW_SIZE <= file_tokens@[ws@[k].0 as int].1@.len(),
            chain_spots(lists@, chains@) == chains_for(wv, keys@.take(g as int)),
            forall|c: int|
                0 <= c < chains@.len() ==> (#[trigger] chains@[c]).0 < g && chains@[c].1 <= g
                    && file_runs(spots_view(lists@[chains@[c].0 as int]@)).len() >= 2
                    && lists@[chains@[c].0 as int]@.len() > 0 && spots_fit(
                    file_tokens@,
                    lists@[chains@[c].0 as int]@,
                    WINDOW_SIZE + chains@[c].1,
                ),
        decreases keys.len() - g,
    {
        let ghost prev = chains@;
        let ghost c0 = chains_for(wv, keys@.take(g as int));
        proof {
            assert(keys@.take(g + 1).drop_last() =~= keys@.take(g as int));
            assert(keys@.take(g + 1).last() == keys@[g as int]);
        }
        assert(spots_fit(file_tokens@, lists@[g as int]@, WINDOW_SIZE as int)) by {
            assert forall|k: int| 0 <= k < lists@[g as int]@.len() implies (#[trigger] lists@[g as int]@[k]).0
                < file_tokens@.len() && lists@[g as int]@[k].1 + WINDOW_SIZE <= file_tokens@[lists@[g as int]@[k].0 as int].1@.len() by {
                let j = choose|j: int| 0 <= j < ws@.len() && lists@[g as int]@[k] == (ws@[j].0, ws@[j].1);
            }
        }
        if spans_two_files(&lists[g]) {
            let n = chains.len();
            if n > 0 && is_shift(&lists[chains[n - 1].0], &lists[g], chains[n - 1].1 + 1) {
                let (gi, e) = chains[n - 1];
                chains.set(n - 1, (gi, e + 1));
                proof {
                    let a = lists@[gi as int]@;
                    let b = lists@[g as int]@;
                    assert(c0.last() == (spots_view(a), e as int));
                    assert forall|k: int| 0 <= k < a.len() implies (#[trigger] a[k]).0 < file_tokens@.len()
                        && a[k].1 + WINDOW_SIZE + (e + 1) <= file_tokens@[a[k].0 as int].1@.len() by {
                        assert(spots_view(b)[k] == shifted(spots_view(a), e + 1)[k]);
                        assert(b[k].0 == a[k].0 && b[k].1 == a[k].1 + e + 1);
                    }
                    assert(chain_spots(lists@, chains@) =~= c0.update(
                        c0.len() - 1,
                        (c0.last().0, c0.last().1 + 1),
                    ));
                    assert forall|c: int| 0 <= c < chains@.len() implies (#[trigger] chains@[c]).0 < g + 1
                        && chains@[c].1 <= g + 1 && file_runs(spots_view(lists@[chains@[c].0 as int]@)).len() >= 2
                        && lists@[chains@[c].0 as int]@.len() > 0 && spots_fit(
                        file_tokens@,
                        lists@[chains@[c].0 as int]@,
                        WINDOW_SIZE + chains@[c].1,
                    ) by {
                        if c < n - 1 {
                            assert(chains@[c] == prev[c]);
                        }
                    }
                }
            } else {
                chains.push((g, 0));
                proof {
                    assert(chain_spots(lists@, chains@) =~= c0.push((spots_view(lists@[g as int]@), 0)));
                    assert forall|c: int| 0 <= c < chains@.len() implies (#[trigger] chains@[c]).0 < g + 1
                        && chains@[c].1 <= g + 1 && file_runs(spots_view(lists@[chains@[c].0 as int]@)).len() >= 2
                        && lists@[chains@[c].0 as int]@.len() > 0 && spots_fit(
                        file_tokens@,
                        lists@[chains@[c].0 as int]@,
                        WINDOW_SIZE + chains@[c].1,
                    ) by {
                        if c < n {
                            assert(chains@[c] == prev[c]);
                        }
                    }
                }
            }
        }
        g += 1;
    }
    assert(keys@.take(g as int) =~= keys@);
    let ghost cs = chains_for(wv, keys@);
    let ghost want = cs.map_values(|ch: (Seq<(int, int)>, int)| chain_cluster(file_tokens@, ch));
    assert(want == exact_raw_clusters(file_tokens@));
    let mut out: Vec<DuplicateCluster> = Vec::new();
    let mut c: usize = 0;
    while c < chains.len()
        invariant
            c <= chains@.len(),
            chain_spots(lists@, chains@) == cs,
            want == cs.map_values(|ch: (Seq<(int, int)>, int)| chain_cluster(file_tokens@, ch)),
            lists@.len() == keys@.len(),
            forall|c: int|
                0 <= c < chains@.len() ==> (#[trigger] chains@[c]).0 < lists@.len()
                    && file_runs(spots_view(lists@[chains@[c].0 as int]@)).len() >= 2
                    && lists@[chains@[c].0 as int]@.len() > 0 && spots_fit(
                    file_tokens@,
                    lists@[chains@[c].0 as int]@,
                    WINDOW_SIZE + chains@[c].1,
                ),
            clusters_view(out@) == want.take(c as int),
        decreases chains.len() - c,
    {
        let (gi, e) = chains[c];
        proof {
            assert(chains@[c as int] == (gi, e));
            let sp = lists@[gi as int]@;
            assert(sp[0].1 + WINDOW_SIZE + e <= file_tokens@[sp[0].0 as int].1@.len());
        }
        let first_file = lists[gi][0].0;
        let first_len = file_tokens[first_file].1.len();
        assert(WINDOW_SIZE + e <= first_len);
        let width = WINDOW_SIZE + e;
        let r = cluster_for_group(file_tokens, &lists[gi], width);
        if let Some(cl) = r {
            let ghost old_out = out@;
            out.push(cl);
            proof {
                assert(cs[c as int] == (spots_view(lists@[gi as int]@), e as int));
                assert(want[c as int] == cl@);
                assert(want.take(c + 1) =~= want.take(c as int).push(cl@));
                assert(clusters_view(out@) =~= clusters_view(old_out).push(cl@));
            }
        }
        c += 1;
    }
    assert(want.take(c as int) =~= want);
    out
}

/// Cuts the samples of clusters.
fn cut_samples(raw: Vec<DuplicateCluster>) -> (out: Vec<DuplicateCluster>)
    requires
        samples_fit(clusters_view(raw@)),
    ensures
        clusters_view(out@) == clusters_view(raw@).map_values(|c: ClusterView| with_cut_sample(c)),
{
    let ghost rv = clusters_view(raw@);
    let mut rest = raw;
    let mut out: Vec<DuplicateCluster> = Vec::new();
    let ghost mut taken: int = 0;
    assert(rv.skip(0) =~= rv);
    while rest.len() > 0
        invariant
            0 <= taken <= rv.len(),
            clusters_view(rest@) == rv.skip(taken),
            samples_fit(rv),
            clusters_view(out@) == rv.take(taken).map_values(|c: ClusterView| with_cut_sample(c)),
        decreases rest.len(),
    {
        let ghost old_rest = rest@;
        let c = rest.remove(0);
        proof {
            assert(clusters_view(old_rest).len() == old_rest.len());
            assert(old_rest.len() > 0);
            assert(clusters_view(old_rest)[0] == c@);
            assert(rv.skip(taken)[0] == rv[taken]);
            assert(c@ == rv[taken]);
            assert(rest@ =~= old_rest.subrange(1, old_rest.len() as int));
            assert forall|k: int| 0 <= k < rest@.len() implies clusters_view(rest@)[k] == rv.skip(
                taken + 1,
            )[k] by {
                assert(rest@[k] == old_rest[k + 1]);
                assert(clusters_view(old_rest)[k + 1] == rv.skip(taken)[k + 1]);
            }
            assert(clusters_view(rest@) =~= rv.skip(taken + 1));
            assert(sample_fits(rv[taken].sample));
        }
        let sample = cut(c.sample);
        let ghost old_out = out@;
        out.push(
            DuplicateCluster {
                locations: c.locations,
                sample,
                token_count: c.token_count,
                is_near_dup: c.is_near_dup,
            },
        );
        proof {
            assert(out@.last()@ == with_cut_sample(rv[taken]));
            assert(clusters_view(out@) =~= clusters_view(old_out).push(with_cut_sample(rv[taken])));
            assert(rv.take(taken + 1) =~= rv.take(taken).push(rv[taken]));
            assert(clusters_view(out@) =~= rv.take(taken + 1).map_values(
                |c: ClusterView| with_cut_sample(c),
            ));
            taken = taken + 1;
        }
    }
    assert(rv.take(taken) =~= rv);
    out
}

/// The exact-duplicate clusters of tokenized files: windows of
/// `WINDOW_SIZE` tokens whose hash recurs in at least two files, with
/// overlapping windows that continue one another joined into one longer
/// run; one cluster per run, in the order the hashes are first seen, with
/// one location per file (in file order), a sample from the first file's
/// first block, and the largest number of tokens one file's merged blocks
/// cover.
pub fn find_duplicates(file_tokens: &[(String, Vec<String>)]) -> (out: Vec<DuplicateCluster>)
    requires
        samples_fit(exact_raw_clusters(file_tokens@)),
    ensures
        clusters_view(out@) == exact_clusters(file_tokens@),
{
    let raw = raw_duplicate_clusters(file_tokens);
    cut_samples(raw)
}

fn all_samples_fit(cs: &Vec<DuplicateCluster>) -> (b: bool)
    ensures
        b == samples_fit(clusters_view(cs@)),
{
    broadcast use vstd::utf8::encode_utf8_valid_utf8;

    let mut i: usize = 0;
    while i < cs.len()
        invariant
            i <= cs@.len(),
            forall|k: int| 0 <= k < i ==> sample_fits(#[trigger] clusters_view(cs@)[k].sample),
        decreases cs.len() - i,
    {
        let s = cs[i].sample.as_str();
        assert(clusters_view(cs@)[i as int].sample == s@);
        let n = s.as_bytes().len();
        if n > SAMPLE_BYTES && !s.is_char_boundary(SAMPLE_BYTES) {
            assert(!sample_fits(clusters_view(cs@)[i as int].sample));
            return false;
        }
        i += 1;
    }
    true
}

/// The exact-duplicate clusters (see `find_duplicates`), or `None` where a
/// sample cannot be cut at `SAMPLE_BYTES` bytes because a character spans
/// that byte.
pub fn find_duplicates_checked(file_tokens: &[(String, Vec<String>)]) -> (r: Option<
    Vec<DuplicateCluster>,
>)
    ensures
        r is Some <==> samples_fit(exact_raw_clusters(file_tokens@)),
        r matches Some(v) ==> clusters_view(v@) == exact_clusters(file_tokens@),
{
    let raw = raw_duplicate_clusters(file_tokens);
    if all_samples_fit(&raw) {
        Some(cut_samples(raw))
    } else {
        None
    }
}

/// The tokens of window `w` of `files`.
pub open spec fn wtoks(files: Seq<(String, Vec<String>)>, w: (int, int, u64)) -> Seq<Seq<char>> {
    strings_view(files[w.0].1@).subrange(w.1, w.1 + WINDOW_SIZE)
}

/// The trigram hashes of a window.
pub open spec fn wtrigrams(files: Seq<(String, Vec<String>)>, w: (int, int, u64)) -> Seq<u64> {
    ngrams(wtoks(files, w))
}

/// The band keys of a window's MinHash signature.
pub open spec fn wbands(files: Seq<(String, Vec<String>)>, w: (int, int, u64)) -> Seq<u64> {
    bands(signature(wtrigrams(files, w)))
}

/// `x` is at least `t` (both with a positive denominator).
pub open spec fn ratio_at_least(x: Ratio, t: Ratio) -> bool {
    x.numerator * t.denominator >= t.numerator * x.denominator
}

/// Windows `a` and `b` (by position among all windows) are near
/// duplicates: distinct, sharing a band key, not overlapping within one
/// file, and with trigram sets at least `thr` similar.
pub open spec fn near_edge(files: Seq<(String, Vec<String>)>, thr: Ratio, a: int, b: int) -> bool {
    let ws = all_windows(files);
    &&& 0 <= a < ws.len()
    &&& 0 <= b < ws.len()
    &&& a != b
    &&& exists|k: int|
        0 <= k < LSH_BANDS && #[trigger] wbands(files, ws[a])[k] == wbands(files, ws[b])[k]
    &&& !(ws[a].0 == ws[b].0 && (if ws[a].1 > ws[b].1 {
        ws[a].1 - ws[b].1
    } else {
        ws[b].1 - ws[a].1
    }) < WINDOW_SIZE)
    &&& ratio_at_least(jaccard(wtrigrams(files, ws[a]), wtrigrams(files, ws[b])), thr)
}

/// A walk along near-duplicate links.
pub open spec fn is_path(files: Seq<(String, Vec<String>)>, thr: Ratio, p: Seq<int>) -> bool {
    &&& p.len() >= 1
    &&& 0 <= p[0] < all_windows(files).len()
    &&& forall|i: int| 0 <= i < p.len() - 1 ==> #[trigger] near_edge(files, thr, p[i], p[i + 1])
}

/// Windows `a` and `b` are linked by a chain of near duplicates.
pub open spec fn connected(files: Seq<(String, Vec<String>)>, thr: Ratio, a: int, b: int) -> bool {
    exists|p: Seq<int>| #[trigger] is_path(files, thr, p) && p[0] == a && p.last() == b
}

/// The least window linked to `a`.
pub open spec fn component_min(files: Seq<(String, Vec<String>)>, thr: Ratio, a: int) -> int {
    choose|m: int|
        connected(files, thr, a, m) && forall|j: int| #[trigger] connected(files, thr, a, j) ==> m <= j
}

/// The windows before position `k` whose least linked window is `m`, in
/// order.
pub open spec fn members_upto(files: Seq<(String, Vec<String>)>, thr: Ratio, m: int, k: nat) -> Seq<
    int,
>
    decreases k,
{
    if k == 0 {
        Seq::empty()
    } else {
        members_upto(files, thr, m, (k - 1) as nat) + if component_min(files, thr, k - 1) == m {
            seq![k - 1]
        } else {
            Seq::empty()
        }
    }
}

/// The near-duplicate cluster of the windows linked to window `m`, their
/// least: a location per window, the sample from window `m`.
pub open spec fn near_cluster_of(files: Seq<(String, Vec<String>)>, thr: Ratio, m: int) -> ClusterView {
    let ws = all_windows(files);
    let mem = members_upto(files, thr, m, ws.len());
    ClusterView {
        locations: mem.map_values(|i: int| location_of(files, ws[i].0)),
        sample: join_tokens(wtoks(files, ws[m])),
        token_count: WINDOW_SIZE as int,
        is_near_dup: true,
    }
}

pub open spec fn near_raw_upto(files: Seq<(String, Vec<String>)>, thr: Ratio, k: nat) -> Seq<
    ClusterView,
>
    decreases k,
{
    if k == 0 {
        Seq::empty()
    } else {
        let m = k - 1;
        near_raw_upto(files, thr, (k - 1) as nat) + if component_min(files, thr, m) == m
            && members_upto(files, thr, m, all_windows(files).len()).len() >= 2 {
            seq![near_cluster_of(files, thr, m)]
        } else {
            Seq::empty()
        }
    }
}

/// The near-duplicate clusters, samples uncut: none at a threshold of one
/// or more; otherwise one per group of at least two windows linked by near
/// duplicates, in the order of each group's first window.
pub open spec fn near_raw_clusters(files: Seq<(String, Vec<String>)>, thr: Ratio) -> Seq<
    ClusterView,
> {
    if thr.numerator >= thr.denominator {
        Seq::empty()
    } else {
        near_raw_upto(files, thr, all_windows(files).len())
    }
}

/// The near-duplicate clusters with their samples cut.
pub open spec fn near_clusters(files: Seq<(String, Vec<String>)>, thr: Ratio) -> Seq<ClusterView> {
    near_raw_clusters(files, thr).map_values(|c: ClusterView| with_cut_sample(c))
}

proof fn lemma_near_edge_symmetric(files: Seq<(String, Vec<String>)>, thr: Ratio, a: int, b: int)
    requires
        near_edge(files, thr, a, b),
    ensures
        near_edge(files, thr, b, a),
{
    let ws = all_windows(files);
    let ta = wtrigrams(files, ws[a]);
    let tb = wtrigrams(files, ws[b]);
    assert(ta.to_set().intersect(tb.to_set()) =~= tb.to_set().intersect(ta.to_set()));
    assert(ta.to_set().union(tb.to_set()) =~= tb.to_set().union(ta.to_set()));
    let k = choose|k: int|
        0 <= k < LSH_BANDS && #[trigger] wbands(files, ws[a])[k] == wbands(files, ws[b])[k];
    assert(wbands(files, ws[b])[k] == wbands(files, ws[a])[k]);
}

proof fn lemma_connected_refl(files: Seq<(String, Vec<String>)>, thr: Ratio, a: int)
    requires
        0 <= a < all_windows(files).len(),
    ensures
        connected(files, thr, a, a),
{
    let p = seq![a];
    assert(is_path(files, thr, p));
}

/// A link in front of a chain makes a longer chain.
proof fn lemma_connected_prepend(files: Seq<(String, Vec<String>)>, thr: Ratio, a: int, b: int, c: int)
    requires
        near_edge(files, thr, a, b),
        connected(files, thr, b, c),
    ensures
        connected(files, thr, a, c),
{
    let p = choose|p: Seq<int>| #[trigger] is_path(files, thr, p) && p[0] == b && p.last() == c;
    let q = seq![a] + p;
    assert forall|i: int| 0 <= i < q.len() - 1 implies #[trigger] near_edge(files, thr, q[i], q[i + 1]) by {
        if i > 0 {
            assert(q[i] == p[i - 1] && q[i + 1] == p[i]);
            assert(near_edge(files, thr, p[i - 1], p[i - 1 + 1]));
        }
    }
    assert(is_path(files, thr, q));
    assert(q.last() == c);
}

/// Labels that agree across every link agree along every chain.
proof fn lemma_labels_constant(
    files: Seq<(String, Vec<String>)>,
    thr: Ratio,
    label: Seq<usize>,
    p: Seq<int>,
)
    requires
        is_path(files, thr, p),
        label.len() == all_windows(files).len(),
        forall|a: int, b: int| #[trigger] near_edge(files, thr, a, b) ==> label[a] == label[b],
    ensures
        label[p[0]] == label[p.last()],
    decreases p.len(),
{
    if p.len() > 1 {
        let q = p.drop_last();
        assert forall|i: int| 0 <= i < q.len() - 1 implies #[trigger] near_edge(files, thr, q[i], q[i + 1]) by {
            assert(near_edge(files, thr, p[i], p[i + 1]));
        }
        lemma_labels_constant(files, thr, label, q);
        assert(near_edge(files, thr, p[p.len() - 2], p[p.len() - 2 + 1]));
    }
}

/// Once labels agree across every link, point each window to one linked to
/// it and none is above its own position, each label is its window's least
/// linked window.
proof fn lemma_label_is_min(
    files: Seq<(String, Vec<String>)>,
    thr: Ratio,
    label: Seq<usize>,
    i: int,
)
    requires
        label.len() == all_windows(files).len(),
        0 <= i < label.len(),
        forall|a: int, b: int| #[trigger] near_edge(files, thr, a, b) ==> label[a] == label[b],
        forall|j: int| 0 <= j < label.len() ==> #[trigger] label[j] <= j,
        forall|j: int| 0 <= j < label.len() ==> connected(files, thr, j, #[trigger] label[j] as int),
    ensures
        component_min(files, thr, i) == label[i],
{
    let m = label[i] as int;
    assert(connected(files, thr, i, m));
    assert forall|j: int| #[trigger] connected(files, thr, i, j) implies m <= j by {
        let p = choose|p: Seq<int>| #[trigger] is_path(files, thr, p) && p[0] == i && p.last() == j;
        lemma_labels_constant(files, thr, label, p);
        if p.len() > 1 {
            assert(near_edge(files, thr, p[p.len() - 2], p[p.len() - 2 + 1]));
        }
        assert(0 <= j < label.len());
        assert(label[j] <= j);
    }
    let c = component_min(files, thr, i);
    assert(connected(files, thr, i, c) && forall|j: int| #[trigger] connected(files, thr, i, j) ==> c <= j);
    assert(c <= m);
    assert(m <= c);
}

/// A window's place, its trigram hashes and its band keys.
struct NearWindow {
    file_idx: usize,
    window_start: usize,
    trigrams: Vec<u64>,
    band_keys: Vec<u64>,
}

/// Every window with its trigrams and band keys, in window order.
fn near_windows(files: &[(String, Vec<String>)]) -> (r: Vec<NearWindow>)
    ensures
        r@.len() == all_windows(files@).len(),
        forall|i: int|
            0 <= i < r@.len() ==> {
                &&& (#[trigger] r@[i]).file_idx == all_windows(files@)[i].0
                &&& r@[i].window_start == all_windows(files@)[i].1
                &&& r@[i].trigrams@ == wtrigrams(files@, all_windows(files@)[i])
                &&& r@[i].band_keys@ == wbands(files@, all_windows(files@)[i])
                &&& r@[i].band_keys@.len() == LSH_BANDS
                &&& r@[i].file_idx < files@.len()
                &&& r@[i].window_start + WINDOW_SIZE <= files@[r@[i].file_idx as int].1@.len()
            },
{
    let ws = collect_windows(files);
    let ghost wv = windows_view(ws@);
    let mut out: Vec<NearWindow> = Vec::new();
    let mut i: usize = 0;
    while i < ws.len()
        invariant
            i <= ws@.len(),
            wv == windows_view(ws@),
            wv == all_windows(files@),
            forall|k: int|
                0 <= k < ws@.len() ==> (#[trigger] ws@[k]).0 < files@.len() && ws@[k].1
                    + WINDOW_SIZE <= files@[ws@[k].0 as int].1@.len(),
            out@.len() == i,
            forall|k: int|
                0 <= k < i ==> {
                    &&& (#[trigger] out@[k]).file_idx == wv[k].0
                    &&& out@[k].window_start == wv[k].1
                    &&& out@[k].trigrams@ == wtrigrams(files@, wv[k])
                    &&& out@[k].band_keys@ == wbands(files@, wv[k])
                    &&& out@[k].band_keys@.len() == LSH_BANDS
                    &&& out@[k].file_idx < files@.len()
                    &&& out@[k].window_start + WINDOW_SIZE <= files@[out@[k].file_idx as int].1@.len()
                },
        decreases ws.len() - i,
    {
        let (f, st, _) = ws[i];
        assert(wv[i as int] == (f as int, st as int, ws@[i as int].2));
        assert(ws@[i as int].1 + WINDOW_SIZE <= files@[ws@[i as int].0 as int].1@.len());
        let toks = &files[f].1;
        let tn = toks.len();
        assert(st + WINDOW_SIZE <= tn);
        let trigrams = ngram_hashes_in(toks.as_slice(), st, st + WINDOW_SIZE);
        let sig = minhash_signature(trigrams.as_slice());
        let band_keys = band_hashes(sig.as_slice());
        assert(band_keys@.len() == LSH_BANDS);
        out.push(NearWindow { file_idx: f, window_start: st, trigrams, band_keys });
        i += 1;
    }
    out
}

/// Window positions grouped by key: for each key seen, where its group is,
/// and each group's windows in order.
fn bucket_by(keys: &Vec<u64>) -> (r: (HashMap<u64, usize>, Vec<Vec<usize>>))
    ensures
        forall|h: u64| #[trigger] r.0@.contains_key(h) ==> r.0@[h] < r.1@.len(),
        forall|j: int| 0 <= j < keys@.len() ==> #[trigger] r.0@.contains_key(keys@[j]),
        forall|h: u64, j: int|
            #![trigger r.0@[h], keys@[j]]
            r.0@.contains_key(h) && 0 <= j < keys@.len() ==> (r.1@[r.0@[h] as int]@.contains(
                j as usize,
            ) <==> keys@[j] == h),
        forall|g: int, k: int|
            0 <= g < r.1@.len() && 0 <= k < r.1@[g]@.len() ==> #[trigger] r.1@[g]@[k]
                < keys@.len(),
{
    broadcast use vstd::std_specs::hash::group_hash_axioms;

    let mut index: HashMap<u64, usize> = HashMap::new();
    let mut lists: Vec<Vec<usize>> = Vec::new();
    let kn = keys.len();
    let mut j: usize = 0;
    while j < kn
        invariant
            kn == keys@.len(),
            j <= keys@.len(),
            forall|h: u64| #[trigger] index@.contains_key(h) ==> index@[h] < lists@.len(),
            forall|m: int| 0 <= m < j ==> #[trigger] index@.contains_key(keys@[m]),
            forall|h: u64| #[trigger]
                index@.contains_key(h) ==> exists|m: int| 0 <= m < j && keys@[m] == h,
            forall|h1: u64, h2: u64|
                index@.contains_key(h1) && index@.contains_key(h2) && h1 != h2 ==> #[trigger] index@[h1]
                    != #[trigger] index@[h2],
            forall|h: u64, m: int|
                #![trigger index@[h], keys@[m]]
                index@.contains_key(h) && 0 <= m < keys@.len() ==> (lists@[index@[h] as int]@.contains(
                    m as usize,
                ) <==> (m < j && keys@[m] == h)),
            forall|g: int, k: int|
                0 <= g < lists@.len() && 0 <= k < lists@[g]@.len() ==> #[trigger] lists@[g]@[k] < j,
        decreases keys.len() - j,
    {
        let h = keys[j];
        let ghost old_lists = lists@;
        let ghost old_index = index@;
        match index.get(&h) {
            Some(g) => {
                let g = *g;
                lists[g].push(j);
                proof {
                    assert forall|h2: u64, m: int|
                        #![trigger index@[h2], keys@[m]]
                        index@.contains_key(h2) && 0 <= m < keys@.len() implies (lists@[index@[h2] as int]@.contains(
                            m as usize,
                        ) <==> (m < j + 1 && keys@[m] == h2)) by {
                        let g2 = index@[h2] as int;
                        if g2 == g {
                            assert(h2 == h);
                            lemma_push_contains(old_lists[g2]@, j);
                            assert(lists@[g2]@ == old_lists[g2]@.push(j));
                        } else {
                            assert(lists@[g2] == old_lists[g2]);
                            if m == j {
                                assert(keys@[m] == h);
                                assert(h2 != h);
                            }
                        }
                    }
                    assert forall|g2: int, k: int|
                        0 <= g2 < lists@.len() && 0 <= k < lists@[g2]@.len() implies #[trigger] lists@[g2]@[k]
                        < j + 1 by {
                        if g2 == g && k == lists@[g2]@.len() - 1 {
                        } else if g2 == g {
                            assert(lists@[g2]@[k] == old_lists[g2]@[k]);
                        } else {
                            assert(lists@[g2] == old_lists[g2]);
                        }
                    }
                }
            },
            None => {
                let g = lists.len();
                let mut l: Vec<usize> = Vec::new();
                l.push(j);
                lists.push(l);
                index.insert(h, g);
                proof {
                    assert(!old_index.contains_key(h));
                    assert(index@ == old_index.insert(h, g));
                    lemma_push_contains(Seq::<usize>::empty(), j);
                    assert(lists@[g as int]@ =~= Seq::<usize>::empty().push(j));
                    assert forall|m: int| 0 <= m < keys@.len() implies (lists@[g as int]@.contains(
                        m as usize,
                    ) <==> (m < j + 1 && keys@[m] == h)) by {
                        assert(m < kn);
                        assert(m as usize == m);
                        let q = Seq::<usize>::empty().push(j);
                        assert(q.len() == 1 && q[0] == j);
                        if q.contains(m as usize) {
                            let i = choose|i: int| 0 <= i < q.len() && q[i] == m as usize;
                            assert(i == 0);
                        }
                        if m as usize == j {
                            assert(q[0] == m as usize);
                        }
                        assert(lists@[g as int]@ == q);
                        assert(keys@[j as int] == h);
                        if m < j && keys@[m] == h {
                            assert(old_index.contains_key(keys@[m]));
                        }
                    }
                    assert forall|h2: u64, m: int|
                        #![trigger index@[h2], keys@[m]]
                        index@.contains_key(h2) && 0 <= m < keys@.len() implies (lists@[index@[h2] as int]@.contains(
                            m as usize,
                        ) <==> (m < j + 1 && keys@[m] == h2)) by {
                        if h2 == h {
                            assert(index@[h2] == g);
                        } else {
                            assert(old_index.contains_key(h2));
                            assert(index@[h2] == old_index[h2]);
                            assert(lists@[index@[h2] as int] == old_lists[index@[h2] as int]);
                            assert(old_lists[old_index[h2] as int]@.contains(m as usize) <==> (m < j
                                && keys@[m] == h2));
                        }
                    }
                    assert forall|g2: int, k: int|
                        0 <= g2 < lists@.len() && 0 <= k < lists@[g2]@.len() implies #[trigger] lists@[g2]@[k]
                        < j + 1 by {
                        if g2 < g {
                            assert(lists@[g2] == old_lists[g2]);
                        }
                    }
                    assert forall|h2: u64| #[trigger]
                        index@.contains_key(h2) implies exists|m: int| 0 <= m < j + 1 && keys@[m] == h2 by {
                        if h2 == h {
                            assert(keys@[j as int] == h2);
                        }
                    }
                }
            },
        }
        j += 1;
    }
    (index, lists)
}

/// Windows `a` and `b` do not overlap within a file and their trigram sets
/// are at least `thr` similar.
pub open spec fn pair_ok(files: Seq<(String, Vec<String>)>, thr: Ratio, a: int, b: int) -> bool {
    let ws = all_windows(files);
    &&& !(ws[a].0 == ws[b].0 && (if ws[a].1 > ws[b].1 {
        ws[a].1 - ws[b].1
    } else {
        ws[b].1 - ws[a].1
    }) < WINDOW_SIZE)
    &&& ratio_at_least(jaccard(wtrigrams(files, ws[a]), wtrigrams(files, ws[b])), thr)
}

/// The near windows agree with the windows of `files`.
spec fn near_windows_of(files: Seq<(String, Vec<String>)>, nw: Seq<NearWindow>) -> bool {
    &&& nw.len() == all_windows(files).len()
    &&& forall|i: int|
        0 <= i < nw.len() ==> {
            &&& (#[trigger] nw[i]).file_idx == all_windows(files)[i].0
            &&& nw[i].window_start == all_windows(files)[i].1
            &&& nw[i].trigrams@ == wtrigrams(files, all_windows(files)[i])
            &&& nw[i].band_keys@ == wbands(files, all_windows(files)[i])
            &&& nw[i].band_keys@.len() == LSH_BANDS
        }
}

fn near_pair(
    files: &[(String, Vec<String>)],
    nw: &Vec<NearWindow>,
    a: usize,
    b: usize,
    thr: &Ratio,
) -> (ok: bool)
    requires
        near_windows_of(files@, nw@),
        a < nw@.len(),
        b < nw@.len(),
    ensures
        ok == pair_ok(files@, *thr, a as int, b as int),
{
    let wa = &nw[a];
    let wb = &nw[b];
    if wa.file_idx == wb.file_idx {
        let gap = if wa.window_start > wb.window_start {
            wa.window_start - wb.window_start
        } else {
            wb.window_start - wa.window_start
        };
        if gap < WINDOW_SIZE {
            return false;
        }
    }
    let sim = jaccard_similarity(wa.trigrams.as_slice(), wb.trigrams.as_slice());
    let x1 = sim.numerator as u128;
    let y1 = thr.denominator as u128;
    let x2 = thr.numerator as u128;
    let y2 = sim.denominator as u128;
    assert(x1 * y1 <= u64::MAX * u64::MAX) by (nonlinear_arith)
        requires
            x1 <= u64::MAX,
            y1 <= u64::MAX,
    ;
    assert(x2 * y2 <= u64::MAX * u64::MAX) by (nonlinear_arith)
        requires
            x2 <= u64::MAX,
            y2 <= u64::MAX,
    ;
    x1 * y1 >= x2 * y2
}

/// The band keys at band `k` of every window.
fn keys_at(nw: &Vec<NearWindow>, k: usize) -> (keys: Vec<u64>)
    requires
        forall|i: int| 0 <= i < nw@.len() ==> (#[trigger] nw@[i]).band_keys@.len() == LSH_BANDS,
        k < LSH_BANDS,
    ensures
        keys@.len() == nw@.len(),
        forall|i: int| 0 <= i < nw@.len() ==> #[trigger] keys@[i] == nw@[i].band_keys@[k as int],
{
    let mut keys: Vec<u64> = Vec::new();
    let mut i: usize = 0;
    while i < nw.len()
        invariant
            i <= nw@.len(),
            k < LSH_BANDS,
            forall|m: int| 0 <= m < nw@.len() ==> (#[trigger] nw@[m]).band_keys@.len() == LSH_BANDS,
            keys@.len() == i,
            forall|m: int| 0 <= m < i ==> #[trigger] keys@[m] == nw@[m].band_keys@[k as int],
        decreases nw.len() - i,
    {
        keys.push(nw[i].band_keys[k]);
        i += 1;
    }
    keys
}

/// Adds the pairs `(a, b)`, `b` in `bucket` and above `a`, whose windows
/// are near duplicates.
fn scan_bucket(
    files: &[(String, Vec<String>)],
    nw: &Vec<NearWindow>,
    thr: &Ratio,
    a: usize,
    bucket: &Vec<usize>,
    ka: u64,
    keys: &Vec<u64>,
    k: usize,
    edges: &mut Vec<(usize, usize)>,
)
    requires
        near_windows_of(files@, nw@),
        k < LSH_BANDS,
        a < nw@.len(),
        keys@.len() == nw@.len(),
        forall|i: int| 0 <= i < nw@.len() ==> #[trigger] keys@[i] == nw@[i].band_keys@[k as int],
        ka == keys@[a as int],
        forall|m: int| 0 <= m < bucket@.len() ==> #[trigger] bucket@[m] < nw@.len(),
        forall|m: int| 0 <= m < bucket@.len() ==> keys@[#[trigger] bucket@[m] as int] == ka,
        forall|e: int|
            0 <= e < old(edges)@.len() ==> (#[trigger] old(edges)@[e]).0 < old(edges)@[e].1
                && near_edge(files@, *thr, old(edges)@[e].0 as int, old(edges)@[e].1 as int),
    ensures
        forall|e: int|
            0 <= e < final(edges)@.len() ==> (#[trigger] final(edges)@[e]).0 < final(edges)@[e].1
                && near_edge(files@, *thr, final(edges)@[e].0 as int, final(edges)@[e].1 as int),
        forall|x: (usize, usize)| old(edges)@.contains(x) ==> #[trigger] final(edges)@.contains(x),
        forall|m: int|
            0 <= m < bucket@.len() && a < #[trigger] bucket@[m] && pair_ok(
                files@,
                *thr,
                a as int,
                bucket@[m] as int,
            ) ==> final(edges)@.contains((a, bucket@[m])),
{
    let ghost ws = all_windows(files@);
    let ghost start = edges@;
    let mut t: usize = 0;
    while t < bucket.len()
        invariant
            t <= bucket@.len(),
            k < LSH_BANDS,
            a < nw@.len(),
            ka == keys@[a as int],
            keys@.len() == nw@.len(),
            near_windows_of(files@, nw@),
            ws == all_windows(files@),
            forall|i: int| 0 <= i < nw@.len() ==> #[trigger] keys@[i] == nw@[i].band_keys@[k as int],
            forall|m: int| 0 <= m < bucket@.len() ==> #[trigger] bucket@[m] < nw@.len(),
            forall|m: int| 0 <= m < bucket@.len() ==> keys@[#[trigger] bucket@[m] as int] == ka,
            forall|e: int|
                0 <= e < edges@.len() ==> (#[trigger] edges@[e]).0 < edges@[e].1 && near_edge(
                    files@,
                    *thr,
                    edges@[e].0 as int,
                    edges@[e].1 as int,
                ),
            forall|x: (usize, usize)| start.contains(x) ==> #[trigger] edges@.contains(x),
            forall|m: int|
                0 <= m < t && a < #[trigger] bucket@[m] && pair_ok(
                    files@,
                    *thr,
                    a as int,
                    bucket@[m] as int,
                ) ==> edges@.contains((a, bucket@[m])),
        decreases bucket.len() - t,
    {
        let ghost e0 = edges@;
        let b = bucket[t];
        let take = b > a && near_pair(files, nw, a, b, thr);
        if take {
            proof {
                assert(nw@[a as int].band_keys@ == wbands(files@, ws[a as int]));
                assert(nw@[b as int].band_keys@ == wbands(files@, ws[b as int]));
                assert(keys@[b as int] == ka);
                assert(wbands(files@, ws[a as int])[k as int] == keys@[a as int]);
                assert(wbands(files@, ws[b as int])[k as int] == keys@[b as int]);
                assert(0 <= a < ws.len());
                assert(0 <= b < ws.len());
                assert(pair_ok(files@, *thr, a as int, b as int));
                assert(exists|k2: int|
                    0 <= k2 < LSH_BANDS && #[trigger] wbands(files@, ws[a as int])[k2] == wbands(
                        files@,
                        ws[b as int],
                    )[k2]);
                assert(near_edge(files@, *thr, a as int, b as int));
            }
            let ghost old_edges = edges@;
            edges.push((a, b));
            proof {
                lemma_push_contains(old_edges, (a, b));
                assert forall|x: (usize, usize)| start.contains(x) implies #[trigger] edges@.contains(x) by {
                    assert(old_edges.contains(x));
                }
            }
        }
        proof {
            assert forall|x: (usize, usize)| e0.contains(x) implies #[trigger] edges@.contains(x) by {
                if take {
                    lemma_push_contains(e0, (a, b));
                }
            }
            assert forall|m: int|
                0 <= m < t + 1 && a < #[trigger] bucket@[m] && pair_ok(
                    files@,
                    *thr,
                    a as int,
                    bucket@[m] as int,
                ) implies edges@.contains((a, bucket@[m])) by {
                if m < t {
                    assert(e0.contains((a, bucket@[m])));
                } else {
                    assert(take);
                    lemma_push_contains(e0, (a, b));
                }
            }
        }
        t += 1;
    }
}

/// The pairs `a < b` of windows that are near duplicates, possibly with
/// repeats, and every such pair among them.
fn near_edges(files: &[(String, Vec<String>)], nw: &Vec<NearWindow>, thr: &Ratio) -> (edges: Vec<
    (usize, usize),
>)
    requires
        near_windows_of(files@, nw@),
    ensures
        forall|e: int|
            0 <= e < edges@.len() ==> (#[trigger] edges@[e]).0 < edges@[e].1 && near_edge(
                files@,
                *thr,
                edges@[e].0 as int,
                edges@[e].1 as int,
            ),
        forall|a: int, b: int|
            0 <= a < b && #[trigger] near_edge(files@, *thr, a, b) ==> edges@.contains(
                (a as usize, b as usize),
            ),
{
    broadcast use vstd::std_specs::hash::group_hash_axioms;

    let n = nw.len();
    let ghost ws = all_windows(files@);
    let mut edges: Vec<(usize, usize)> = Vec::new();
    let mut k: usize = 0;
    while k < LSH_BANDS
        invariant
            k <= LSH_BANDS,
            n == nw@.len(),
            ws == all_windows(files@),
            near_windows_of(files@, nw@),
            forall|e: int|
                0 <= e < edges@.len() ==> (#[trigger] edges@[e]).0 < edges@[e].1 && near_edge(
                    files@,
                    *thr,
                    edges@[e].0 as int,
                    edges@[e].1 as int,
                ),
            forall|a: int, b: int, k2: int|
                0 <= a < b < n && 0 <= k2 < k && #[trigger] wbands(files@, ws[a])[k2] == #[trigger] wbands(
                    files@,
                    ws[b],
                )[k2] && pair_ok(files@, *thr, a, b) ==> edges@.contains((a as usize, b as usize)),
        decreases LSH_BANDS - k,
    {
        let keys = keys_at(nw, k);
        let (index, lists) = bucket_by(&keys);
        let mut a: usize = 0;
        while a < n
            invariant
                k < LSH_BANDS,
                a <= n,
                n == nw@.len(),
                ws == all_windows(files@),
                near_windows_of(files@, nw@),
                keys@.len() == n,
                forall|i: int| 0 <= i < n ==> #[trigger] keys@[i] == nw@[i].band_keys@[k as int],
                forall|h: u64| #[trigger] index@.contains_key(h) ==> index@[h] < lists@.len(),
                forall|j: int| 0 <= j < keys@.len() ==> #[trigger] index@.contains_key(keys@[j]),
                forall|h: u64, j: int|
                    #![trigger index@[h], keys@[j]]
                    index@.contains_key(h) && 0 <= j < keys@.len() ==> (lists@[index@[h] as int]@.contains(
                        j as usize,
                    ) <==> keys@[j] == h),
                forall|g: int, m: int|
                    0 <= g < lists@.len() && 0 <= m < lists@[g]@.len() ==> #[trigger] lists@[g]@[m]
                        < keys@.len(),
                forall|e: int|
                    0 <= e < edges@.len() ==> (#[trigger] edges@[e]).0 < edges@[e].1 && near_edge(
                        files@,
                        *thr,
                        edges@[e].0 as int,
                        edges@[e].1 as int,
                    ),
                forall|a2: int, b: int, k2: int|
                    0 <= a2 < b < n && 0 <= k2 < k && #[trigger] wbands(files@, ws[a2])[k2]
                        == #[trigger] wbands(files@, ws[b])[k2] && pair_ok(files@, *thr, a2, b)
                        ==> edges@.contains((a2 as usize, b as usize)),
                forall|a2: int, b: int|
                    0 <= a2 < a && a2 < b < n && #[trigger] keys@[a2] == #[trigger] keys@[b] && pair_ok(
                        files@,
                        *thr,
                        a2,
                        b,
                    ) ==> edges@.contains((a2 as usize, b as usize)),
            decreases n - a,
        {
            let ka = keys[a];
            let g = match index.get(&ka) {
                Some(g) => *g,
                None => {
                    assert(index@.contains_key(keys@[a as int]));
                    0
                },
            };
            assert(index@.contains_key(ka) && index@[ka] == g);
            let bucket = &lists[g];
            proof {
                assert forall|m: int| 0 <= m < bucket@.len() implies keys@[#[trigger] bucket@[m] as int] == ka by {
                    assert(lists@[g as int]@.contains(bucket@[m]));
                }
            }
            scan_bucket(files, nw, thr, a, bucket, ka, &keys, k, &mut edges);
            proof {
                assert forall|a2: int, b2: int|
                    0 <= a2 < a + 1 && a2 < b2 < n && #[trigger] keys@[a2] == #[trigger] keys@[b2]
                        && pair_ok(files@, *thr, a2, b2) implies edges@.contains(
                    (a2 as usize, b2 as usize),
                ) by {
                    if a2 == a {
                        assert(lists@[index@[ka] as int]@.contains(b2 as usize));
                        let m = choose|m: int| 0 <= m < bucket@.len() && bucket@[m] == b2 as usize;
                        assert(a < bucket@[m]);
                    }
                }
            }
            a += 1;
        }
        proof {
            assert forall|a2: int, b2: int, k2: int|
                0 <= a2 < b2 < n && 0 <= k2 < k + 1 && #[trigger] wbands(files@, ws[a2])[k2]
                    == #[trigger] wbands(files@, ws[b2])[k2] && pair_ok(files@, *thr, a2, b2) implies edges@.contains(
                (a2 as usize, b2 as usize),
            ) by {
                if k2 == k {
                    assert(keys@[a2] == nw@[a2].band_keys@[k as int]);
                    assert(keys@[b2] == nw@[b2].band_keys@[k as int]);
                }
            }
        }
        k += 1;
    }
    proof {
        assert forall|a: int, b: int|
            0 <= a < b && #[trigger] near_edge(files@, *thr, a, b) implies edges@.contains(
            (a as usize, b as usize),
        ) by {
            let k2 = choose|k2: int|
                0 <= k2 < LSH_BANDS && #[trigger] wbands(files@, ws[a])[k2] == wbands(files@, ws[b])[k2];
            assert(wbands(files@, ws[a])[k2] == wbands(files@, ws[b])[k2]);
        }
    }
    edges
}

/// The sum of a sequence of counts.
pub open spec fn seq_sum(s: Seq<usize>) -> int
    decreases s.len(),
{
    if s.len() == 0 {
        0
    } else {
        seq_sum(s.drop_last()) + s.last()
    }
}

proof fn lemma_sum_nonneg(s: Seq<usize>)
    ensures
        seq_sum(s) >= 0,
    decreases s.len(),
{
    if s.len() > 0 {
        lemma_sum_nonneg(s.drop_last());
    }
}

proof fn lemma_sum_update(s: Seq<usize>, i: int, v: usize)
    requires
        0 <= i < s.len(),
    ensures
        seq_sum(s.update(i, v)) == seq_sum(s) - s[i] + v,
    decreases s.len(),
{
    let u = s.update(i, v);
    if i == s.len() - 1 {
        assert(u.drop_last() =~= s.drop_last());
    } else {
        assert(u.drop_last() =~= s.drop_last().update(i, v));
        lemma_sum_update(s.drop_last(), i, v);
    }
}

/// For each window, the least window linked to it by near duplicates.
fn component_labels(
    files: &[(String, Vec<String>)],
    thr: &Ratio,
    n: usize,
    edges: &Vec<(usize, usize)>,
) -> (label: Vec<usize>)
    requires
        n == all_windows(files@).len(),
        forall|e: int|
            0 <= e < edges@.len() ==> (#[trigger] edges@[e]).0 < edges@[e].1 && near_edge(
                files@,
                *thr,
                edges@[e].0 as int,
                edges@[e].1 as int,
            ),
        forall|a: int, b: int|
            0 <= a < b && #[trigger] near_edge(files@, *thr, a, b) ==> edges@.contains(
                (a as usize, b as usize),
            ),
    ensures
        label@.len() == n,
        forall|i: int| 0 <= i < n ==> #[trigger] label@[i] == component_min(files@, *thr, i),
        forall|i: int| 0 <= i < n ==> #[trigger] label@[i] <= i,
        forall|i: int| 0 <= i < n ==> label@[#[trigger] label@[i] as int] == label@[i],
{
    let mut label: Vec<usize> = Vec::new();
    let mut i: usize = 0;
    while i < n
        invariant
            i <= n,
            n == all_windows(files@).len(),
            label@.len() == i,
            forall|j: int| 0 <= j < i ==> #[trigger] label@[j] == j,
            forall|j: int| 0 <= j < i ==> connected(files@, *thr, j, #[trigger] label@[j] as int),
        decreases n - i,
    {
        proof {
            lemma_connected_refl(files@, *thr, i as int);
        }
        label.push(i);
        i += 1;
    }
    loop
        invariant
            n == all_windows(files@).len(),
            label@.len() == n,
            forall|j: int| 0 <= j < n ==> #[trigger] label@[j] <= j,
            forall|j: int| 0 <= j < n ==> connected(files@, *thr, j, #[trigger] label@[j] as int),
            forall|e: int|
                0 <= e < edges@.len() ==> (#[trigger] edges@[e]).0 < edges@[e].1 && near_edge(
                    files@,
                    *thr,
                    edges@[e].0 as int,
                    edges@[e].1 as int,
                ),
        ensures
            forall|e: int|
                0 <= e < edges@.len() ==> label@[(#[trigger] edges@[e]).0 as int] == label@[edges@[e].1 as int],
        decreases seq_sum(label@),
    {
        let ghost before = label@;
        let mut changed = false;
        let mut e: usize = 0;
        while e < edges.len()
            invariant
                e <= edges@.len(),
                n == all_windows(files@).len(),
                label@.len() == n,
                forall|j: int| 0 <= j < n ==> #[trigger] label@[j] <= j,
                forall|j: int| 0 <= j < n ==> connected(files@, *thr, j, #[trigger] label@[j] as int),
                forall|x: int|
                    0 <= x < edges@.len() ==> (#[trigger] edges@[x]).0 < edges@[x].1 && near_edge(
                        files@,
                        *thr,
                        edges@[x].0 as int,
                        edges@[x].1 as int,
                    ),
                !changed ==> label@ == before,
                changed ==> seq_sum(label@) < seq_sum(before),
                seq_sum(label@) <= seq_sum(before),
                !changed ==> forall|x: int|
                    0 <= x < e ==> label@[(#[trigger] edges@[x]).0 as int] == label@[edges@[x].1 as int],
            decreases edges.len() - e,
        {
            let (a, b) = edges[e];
            assert(near_edge(files@, *thr, edges@[e as int].0 as int, edges@[e as int].1 as int));
            let la = label[a];
            let lb = label[b];
            if la < lb {
                proof {
                    lemma_near_edge_symmetric(files@, *thr, a as int, b as int);
                    lemma_connected_prepend(files@, *thr, b as int, a as int, la as int);
                    lemma_sum_update(label@, b as int, la);
                }
                label.set(b, la);
                changed = true;
            } else if lb < la {
                proof {
                    lemma_connected_prepend(files@, *thr, a as int, b as int, lb as int);
                    lemma_sum_update(label@, a as int, lb);
                }
                label.set(a, lb);
                changed = true;
            }
            e += 1;
        }
        proof {
            lemma_sum_nonneg(label@);
        }
        if !changed {
            break;
        }
    }
    proof {
        assert forall|a: int, b: int| #[trigger] near_edge(files@, *thr, a, b) implies label@[a]
            == label@[b] by {
            if a < b {
                assert(edges@.contains((a as usize, b as usize)));
                let x = choose|x: int| 0 <= x < edges@.len() && edges@[x] == (a as usize, b as usize);
                assert(label@[edges@[x].0 as int] == label@[edges@[x].1 as int]);
            } else {
                lemma_near_edge_symmetric(files@, *thr, a, b);
                assert(edges@.contains((b as usize, a as usize)));
                let x = choose|x: int| 0 <= x < edges@.len() && edges@[x] == (b as usize, a as usize);
                assert(label@[edges@[x].0 as int] == label@[edges@[x].1 as int]);
            }
        }
        assert forall|i: int| 0 <= i < n implies #[trigger] label@[i] == component_min(files@, *thr, i) by {
            lemma_label_is_min(files@, *thr, label@, i);
        }
        assert forall|i: int| 0 <= i < n implies label@[#[trigger] label@[i] as int] == label@[i] by {
            let p = choose|p: Seq<int>| #[trigger] is_path(files@, *thr, p) && p[0] == i && p.last() == label@[i] as int;
            lemma_labels_constant(files@, *thr, label@, p);
        }
    }
    label
}

pub open spec fn members_view(v: Seq<usize>) -> Seq<int> {
    v.map_values(|x: usize| x as int)
}

proof fn lemma_members_none(files: Seq<(String, Vec<String>)>, thr: Ratio, m: int, k: nat)
    requires
        forall|j: int| 0 <= j < k ==> #[trigger] component_min(files, thr, j) != m,
    ensures
        members_upto(files, thr, m, k) == Seq::<int>::empty(),
    decreases k,
{
    if k > 0 {
        lemma_members_none(files, thr, m, (k - 1) as nat);
    }
}

/// The near-duplicate cluster of root window `m` whose linked windows are
/// `mem`.
fn near_cluster(
    files: &[(String, Vec<String>)],
    nw: &Vec<NearWindow>,
    m: usize,
    mem: &Vec<usize>,
) -> (c: DuplicateCluster)
    requires
        near_windows_of(files@, nw@),
        forall|i: int| 0 <= i < nw@.len() ==> (#[trigger] nw@[i]).file_idx < files@.len() && nw@[i].window_start + WINDOW_SIZE <= files@[nw@[i].file_idx as int].1@.len(),
        m < nw@.len(),
        forall|k: int| 0 <= k < mem@.len() ==> #[trigger] mem@[k] < nw@.len(),
    ensures
        c@ == (ClusterView {
            locations: members_view(mem@).map_values(
                |i: int| location_of(files@, all_windows(files@)[i].0),
            ),
            sample: join_tokens(wtoks(files@, all_windows(files@)[m as int])),
            token_count: WINDOW_SIZE as int,
            is_near_dup: true,
        }),
{
    let ghost ws = all_windows(files@);
    let mut locations: Vec<DupLocation> = Vec::new();
    let mut k: usize = 0;
    while k < mem.len()
        invariant
            k <= mem@.len(),
            ws == all_windows(files@),
            near_windows_of(files@, nw@),
            forall|i: int| 0 <= i < nw@.len() ==> (#[trigger] nw@[i]).file_idx < files@.len(),
            forall|j: int| 0 <= j < mem@.len() ==> #[trigger] mem@[j] < nw@.len(),
            locations@.map_values(|l: DupLocation| l@) == members_view(mem@.take(k as int)).map_values(
                |i: int| location_of(files@, ws[i].0),
            ),
        decreases mem.len() - k,
    {
        let w = mem[k];
        let f = nw[w].file_idx;
        let ghost old_locs = locations@;
        locations.push(DupLocation { file_path: files[f].0.clone(), start_line: 0, end_line: 0 });
        proof {
            assert(members_view(mem@.take(k + 1)) =~= members_view(mem@.take(k as int)).push(w as int));
            assert(nw@[w as int].file_idx == ws[w as int].0);
            assert(locations@.map_values(|l: DupLocation| l@) =~= old_locs.map_values(
                |l: DupLocation| l@,
            ).push(location_of(files@, ws[w as int].0)));
        }
        k += 1;
    }
    assert(mem@.take(k as int) =~= mem@);
    let f = nw[m].file_idx;
    let st = nw[m].window_start;
    assert(nw@[m as int].file_idx == ws[m as int].0 && nw@[m as int].window_start == ws[m as int].1);
    let tn = files[f].1.len();
    assert(st + WINDOW_SIZE <= tn);
    let sample = join_range(&files[f].1, st, st + WINDOW_SIZE);
    DuplicateCluster { locations, sample, token_count: WINDOW_SIZE, is_near_dup: true }
}

/// The near-duplicate clusters, samples uncut.
fn near_raw_duplicates(file_tokens: &[(String, Vec<String>)], threshold: &Ratio) -> (out: Vec<
    DuplicateCluster,
>)
    ensures
        clusters_view(out@) == near_raw_clusters(file_tokens@, *threshold),
{
    if threshold.numerator >= threshold.denominator {
        return Vec::new();
    }
    let nw = near_windows(file_tokens);
    let n = nw.len();
    let edges = near_edges(file_tokens, &nw, threshold);
    let label = component_labels(file_tokens, threshold, n, &edges);
    let ghost files = file_tokens@;
    let ghost thr = *threshold;
    let mut slot: Vec<usize> = Vec::new();
    let mut members: Vec<Vec<usize>> = Vec::new();
    let mut i: usize = 0;
    while i < n
        invariant
            i <= n,
            n == nw@.len(),
            n == all_windows(files).len(),
            files == file_tokens@,
            thr == *threshold,
            label@.len() == n,
            forall|j: int| 0 <= j < n ==> #[trigger] label@[j] == component_min(files, thr, j),
            forall|j: int| 0 <= j < n ==> #[trigger] label@[j] <= j,
            forall|j: int| 0 <= j < n ==> label@[#[trigger] label@[j] as int] == label@[j],
            slot@.len() == i,
            forall|r: int|
                0 <= r < i && label@[r] == r ==> (#[trigger] slot@[r]) < members@.len()
                    && members_view(members@[slot@[r] as int]@) == members_upto(files, thr, r, i as nat),
            forall|g: int, k: int|
                0 <= g < members@.len() && 0 <= k < members@[g]@.len() ==> #[trigger] members@[g]@[k] < i,
            forall|r1: int, r2: int|
                0 <= r1 < i && 0 <= r2 < i && r1 != r2 && label@[r1] == r1 && label@[r2] == r2
                    ==> #[trigger] slot@[r1] != #[trigger] slot@[r2],
        decreases n - i,
    {
        let ghost old_members = members@;
        let ghost old_slot = slot@;
        if label[i] == i {
            let g = members.len();
            let mut v: Vec<usize> = Vec::new();
            v.push(i);
            members.push(v);
            slot.push(g);
            proof {
                assert forall|j: int| 0 <= j < i implies #[trigger] component_min(files, thr, j) != i by {
                    assert(label@[j] <= j);
                }
                lemma_members_none(files, thr, i as int, i as nat);
                assert forall|r: int|
                    0 <= r < i + 1 && label@[r] == r implies (#[trigger] slot@[r]) < members@.len()
                    && members_view(members@[slot@[r] as int]@) == members_upto(files, thr, r, (i + 1) as nat) by {
                    if r == i {
                        assert(members_view(members@[g as int]@) =~= seq![i as int]);
                    } else {
                        assert(slot@[r] == old_slot[r]);
                        assert(members@[slot@[r] as int] == old_members[old_slot[r] as int]);
                        assert(component_min(files, thr, i as int) == i);
                    }
                }
            }
        } else {
            let r0 = label[i];
            let g = slot[r0];
            members[g].push(i);
            slot.push(0);
            proof {
                assert(label@[r0 as int] == r0);
                assert forall|r: int|
                    0 <= r < i + 1 && label@[r] == r implies (#[trigger] slot@[r]) < members@.len()
                    && members_view(members@[slot@[r] as int]@) == members_upto(files, thr, r, (i + 1) as nat) by {
                    assert(r < i);
                    assert(slot@[r] == old_slot[r]);
                    if r == r0 {
                        assert(members_view(members@[g as int]@) =~= members_view(old_members[g as int]@).push(i as int));
                    } else {
                        assert(old_slot[r] != old_slot[r0 as int]);
                        assert(members@[slot@[r] as int] == old_members[old_slot[r] as int]);
                    }
                }
            }
        }
        proof {
            assert forall|g2: int, k: int|
                0 <= g2 < members@.len() && 0 <= k < members@[g2]@.len() implies #[trigger] members@[g2]@[k] < i + 1 by {
                if g2 < old_members.len() && k < old_members[g2]@.len() {
                    assert(members@[g2]@[k] == old_members[g2]@[k]);
                }
            }
        }
        i += 1;
    }
    let mut out: Vec<DuplicateCluster> = Vec::new();
    let mut m: usize = 0;
    while m < n
        invariant
            m <= n,
            n == nw@.len(),
            n == all_windows(files).len(),
            files == file_tokens@,
            thr == *threshold,
            thr.numerator < thr.denominator,
            near_windows_of(files, nw@),
            forall|j: int| 0 <= j < nw@.len() ==> (#[trigger] nw@[j]).file_idx < files.len() && nw@[j].window_start + WINDOW_SIZE <= files[nw@[j].file_idx as int].1@.len(),
            label@.len() == n,
            forall|j: int| 0 <= j < n ==> #[trigger] label@[j] == component_min(files, thr, j),
            slot@.len() == n,
            forall|r: int|
                0 <= r < n && label@[r] == r ==> (#[trigger] slot@[r]) < members@.len()
                    && members_view(members@[slot@[r] as int]@) == members_upto(files, thr, r, n as nat),
            forall|g: int, k: int|
                0 <= g < members@.len() && 0 <= k < members@[g]@.len() ==> #[trigger] members@[g]@[k] < n,
            clusters_view(out@) == near_raw_upto(files, thr, m as nat),
        decreases n - m,
    {
        if label[m] == m {
            let g = slot[m];
            if members[g].len() >= 2 {
                let c = near_cluster(file_tokens, &nw, m, &members[g]);
                out.push(c);
                proof {
                    assert(c@ == near_cluster_of(files, thr, m as int));
                }
            }
        }
        proof {
            assert(clusters_view(out@) =~= near_raw_upto(files, thr, (m + 1) as nat));
        }
        m += 1;
    }
    out
}

/// The near-duplicate clusters of tokenized files at similarity threshold
/// `threshold`: windows linked by chains of pairs that share a band key,
/// do not overlap within one file and have trigram sets at least
/// `threshold` similar form a cluster when there are at least two, listed
/// by their first window, with one location per window; none at a
/// threshold of one or more.
pub fn find_near_duplicates(file_tokens: &[(String, Vec<String>)], threshold: &Ratio) -> (out: Vec<
    DuplicateCluster,
>)
    requires
        samples_fit(near_raw_clusters(file_tokens@, *threshold)),
    ensures
        clusters_view(out@) == near_clusters(file_tokens@, *threshold),
{
    let raw = near_raw_duplicates(file_tokens, threshold);
    cut_samples(raw)
}

/// The near-duplicate clusters (see `find_near_duplicates`), or `None`
/// where a sample cannot be cut at `SAMPLE_BYTES` bytes.
pub fn find_near_duplicates_checked(file_tokens: &[(String, Vec<String>)], threshold: &Ratio) -> (r:
    Option<Vec<DuplicateCluster>>)
    ensures
        r is Some <==> samples_fit(near_raw_clusters(file_tokens@, *threshold)),
        r matches Some(v) ==> clusters_view(v@) == near_clusters(file_tokens@, *threshold),
{
    let raw = near_raw_duplicates(file_tokens, threshold);
    if all_samples_fit(&raw) {
        Some(cut_samples(raw))
    } else {
        None
    }
}

/// The clusters of a kind (near or exact), in order.
pub open spec fn of_kind(cs: Seq<ClusterView>, near: bool) -> Seq<ClusterView>
    decreases cs.len(),
{
    if cs.len() == 0 {
        Seq::empty()
    } else {
        of_kind(cs.drop_last(), near) + if cs.last().is_near_dup == near {
            seq![cs.last()]
        } else {
            Seq::empty()
        }
    }
}

/// The location lines of a cluster: `  path` each, joined by a line break
/// and four spaces.
pub open spec fn locations_text(ls: Seq<DupLocationView>) -> Seq<char>
    decreases ls.len(),
{
    if ls.len() == 0 {
        Seq::empty()
    } else if ls.len() == 1 {
        "  "@ + ls[0].file_path
    } else {
        locations_text(ls.drop_last()) + "\n    "@ + "  "@ + ls.last().file_path
    }
}

/// The report entry of the cluster numbered `n`.
pub open spec fn cluster_text(n: int, c: ClusterView) -> Seq<char> {
    "  "@ + decimal(n as nat) + ". ("@ + decimal(c.token_count as nat) + " tokens) "@ + c.sample
        + "\n    "@ + locations_text(c.locations) + "\n"@
}

/// The entries of clusters numbered from one.
pub open spec fn clusters_text(cs: Seq<ClusterView>) -> Seq<char>
    decreases cs.len(),
{
    if cs.len() == 0 {
        Seq::empty()
    } else {
        clusters_text(cs.drop_last()) + cluster_text(cs.len() as int, cs.last())
    }
}

/// The duplicate report, given its painted headings.
pub open spec fn dup_report_text(cs: Seq<ClusterView>, exact_head: Seq<char>, near_head: Seq<char>) -> Seq<char> {
    let exact = of_kind(cs, false);
    let near = of_kind(cs, true);
    if exact.len() == 0 && near.len() == 0 {
        "  No duplicate blocks found.\n"@
    } else {
        (if exact.len() > 0 {
            exact_head + "\n"@ + clusters_text(exact)
        } else {
            Seq::empty()
        }) + (if near.len() > 0 {
            near_head + "\n"@ + clusters_text(near)
        } else {
            Seq::empty()
        })
    }
}

/// `out` is the report of clusters `cs`, with its headings painted.
pub open spec fn dup_report_of(out: Seq<char>, cs: Seq<ClusterView>) -> bool {
    exists|eh: Seq<char>, nh: Seq<char>|
        tinted(eh, Tint::Yellow, "DUPLICATE BLOCKS"@) && tinted(nh, Tint::Cyan, "NEAR-DUPLICATE BLOCKS (Jaccard ≥ 0.7)"@)
            && out == dup_report_text(cs, eh, nh)
}

fn render_cluster(n: usize, c: &DuplicateCluster) -> (out: String)
    ensures
        out@ == cluster_text(n as int, c@),
{
    let mut out = to_string("  ");
    append_decimal(&mut out, n);
    out.append(". (");
    append_decimal(&mut out, c.token_count);
    out.append(" tokens) ");
    out.append(c.sample.as_str());
    out.append("\n    ");
    let ghost ls = c@.locations;
    let mut k: usize = 0;
    let ghost start = out@;
    while k < c.locations.len()
        invariant
            k <= c.locations@.len(),
            ls == c@.locations,
            out@ == start + locations_text(ls.take(k as int)),
        decreases c.locations.len() - k,
    {
        assert(ls.take(k + 1).drop_last() =~= ls.take(k as int));
        assert(ls[k as int] == c.locations@[k as int]@);
        if k > 0 {
            out.append("\n    ");
        } else {
            assert(locations_text(ls.take(0)) =~= Seq::<char>::empty());
        }
        out.append("  ");
        out.append(c.locations[k].file_path.as_str());
        k += 1;
    }
    assert(ls.take(k as int) =~= ls);
    out.append("\n");
    out
}

/// Appends the entries of the clusters of one kind, numbered from one.
fn append_kind(out: &mut String, clusters: &[DuplicateCluster], near: bool)
    ensures
        final(out)@ == old(out)@ + clusters_text(of_kind(clusters_view(clusters@), near)),
{
    let ghost start = out@;
    let mut count: usize = 0;
    let mut i: usize = 0;
    while i < clusters.len()
        invariant
            i <= clusters@.len(),
            count == of_kind(clusters_view(clusters@.take(i as int)), near).len(),
            count <= i,
            out@ == start + clusters_text(of_kind(clusters_view(clusters@.take(i as int)), near)),
        decreases clusters.len() - i,
    {
        let ghost pre = clusters_view(clusters@.take(i as int));
        assert(clusters_view(clusters@.take(i + 1)).drop_last() =~= pre);
        assert(clusters_view(clusters@.take(i + 1)).last() == clusters@[i as int]@);
        let ghost k0 = of_kind(pre, near);
        if clusters[i].is_near_dup == near {
            count += 1;
            let entry = render_cluster(count, &clusters[i]);
            out.append(entry.as_str());
            proof {
                let k1 = k0.push(clusters@[i as int]@);
                assert(of_kind(clusters_view(clusters@.take(i + 1)), near) == k1);
                assert(k1.drop_last() =~= k0);
                assert(clusters_text(k1) == clusters_text(k0) + cluster_text(
                    k1.len() as int,
                    clusters@[i as int]@,
                ));
            }
        }
        i += 1;
    }
    assert(clusters@.take(i as int) =~= clusters@);
}

/// Renders duplicate clusters: exact ones under a yellow heading, then near
/// ones under a cyan heading, each list numbered from one.
pub fn format_report(clusters: &[DuplicateCluster]) -> (out: String)
    ensures
        dup_report_of(out@, clusters_view(clusters@)),
{
    let eh = paint(Tint::Yellow, "DUPLICATE BLOCKS");
    let nh = paint(Tint::Cyan, "NEAR-DUPLICATE BLOCKS (Jaccard ≥ 0.7)");
    let ghost cs = clusters_view(clusters@);
    let mut exact_n: usize = 0;
    let mut near_n: usize = 0;
    let mut i: usize = 0;
    while i < clusters.len()
        invariant
            i <= clusters@.len(),
            exact_n == of_kind(clusters_view(clusters@.take(i as int)), false).len(),
            near_n == of_kind(clusters_view(clusters@.take(i as int)), true).len(),
            exact_n + near_n <= i,
        decreases clusters.len() - i,
    {
        assert(clusters_view(clusters@.take(i + 1)).drop_last() =~= clusters_view(
            clusters@.take(i as int),
        ));
        assert(clusters_view(clusters@.take(i + 1)).last() == clusters@[i as int]@);
        if clusters[i].is_near_dup {
            near_n += 1;
        } else {
            exact_n += 1;
        }
        i += 1;
    }
    assert(clusters@.take(i as int) =~= clusters@);
    if exact_n == 0 && near_n == 0 {
        let out = to_string("  No duplicate blocks found.\n");
        assert(out@ == dup_report_text(cs, eh@, nh@));
        return out;
    }
    let mut out = String::new();
    if exact_n > 0 {
        out.append(eh.as_str());
        out.append("\n");
        append_kind(&mut out, clusters, false);
    }
    if near_n > 0 {
        out.append(nh.as_str());
        out.append("\n");
        append_kind(&mut out, clusters, true);
    }
    assert(out@ =~= dup_report_text(cs, eh@, nh@));
    out
}

/// Runs duplicate detection on tokenized files: the exact clusters, then
/// the near ones at `threshold`, rendered as one report, with status 1 and
/// score 0 when any cluster was found. `None` where a sample cannot be cut
/// at `SAMPLE_BYTES` bytes.
pub fn run_dup(file_tokens: &[(String, Vec<String>)], threshold: &Ratio) -> (r: Option<CommandResult>)
    ensures
        r is Some <==> (samples_fit(exact_raw_clusters(file_tokens@)) && samples_fit(
            near_raw_clusters(file_tokens@, *threshold),
        )),
        r matches Some(res) ==> {
            let all = exact_clusters(file_tokens@) + near_clusters(file_tokens@, *threshold);
            &&& dup_report_of(res.output@, all)
            &&& res.exit_code == if all.len() > 0 {
                1i32
            } else {
                0i32
            }
            &&& res.score == if all.len() > 0 {
                0usize
            } else {
                100usize
            }
        },
{
    let exact = match find_duplicates_checked(file_tokens) {
        Some(v) => v,
        None => {
            return None;
        },
    };
    let mut near = match find_near_duplicates_checked(file_tokens, threshold) {
        Some(v) => v,
        None => {
            return None;
        },
    };
    let mut all = exact;
    let ghost a0 = all@;
    let ghost n0 = near@;
    all.append(&mut near);
    assert(clusters_view(all@) =~= clusters_view(a0) + clusters_view(n0));
    let output = format_report(all.as_slice());
    let any = all.len() > 0;
    Some(findings_outcome(output, any))
}

/// Jaccard similarity does not depend on the order of its arguments.
pub proof fn law_jaccard_symmetric(a: Seq<u64>, b: Seq<u64>)
    ensures
        jaccard(a, b) == jaccard(b, a),
{
    assert(a.to_set().intersect(b.to_set()) =~= b.to_set().intersect(a.to_set()));
    assert(a.to_set().union(b.to_set()) =~= b.to_set().union(a.to_set()));
}

/// Jaccard similarity lies between nought and one, and a non-empty
/// sequence is wholly similar to itself (for sequences whose lengths fit a
/// `u64` together).
pub proof fn law_jaccard_bounds(a: Seq<u64>, b: Seq<u64>)
    requires
        a.len() + b.len() <= u64::MAX,
    ensures
        jaccard(a, b).numerator <= jaccard(a, b).denominator,
        jaccard(a, b).denominator > 0,
        a.len() > 0 ==> jaccard(a, a).numerator == jaccard(a, a).denominator,
{
    broadcast use vstd::set::group_set_axioms;
    broadcast use vstd::seq_lib::seq_to_set_is_finite;

    let sa = a.to_set();
    let sb = b.to_set();
    a.lemma_cardinality_of_set();
    b.lemma_cardinality_of_set();
    vstd::set_lib::lemma_len_intersect(sa, sb);
    vstd::set_lib::lemma_len_subset(sa.intersect(sb), sa.union(sb));
    vstd::set_lib::lemma_len_union(sa, sb);
    assert(sa.intersect(sa) =~= sa);
    assert(sa.union(sa) =~= sa);
    if a.len() > 0 {
        assert(sa.contains(a[0]));
        if sa.len() == 0 {
            assert(sa =~= Set::empty());
        }
    }
}

/// Each run starts at the places of one of the hashes, and those lie in
/// at least two files.
proof fn lemma_chains_from_hashes(ws: Seq<(int, int, u64)>, hs: Seq<u64>)
    ensures
        forall|i: int|
            0 <= i < chains_for(ws, hs).len() ==> file_runs((#[trigger] chains_for(ws, hs)[i]).0).len() >= 2
                && exists|j: int| 0 <= j < hs.len() && chains_for(ws, hs)[i].0 == spots_of(ws, hs[j]),
    decreases hs.len(),
{
    if hs.len() > 0 {
        let d = hs.drop_last();
        lemma_chains_from_hashes(ws, d);
        let c = chains_for(ws, d);
        let cur = chains_for(ws, hs);
        let sp = spots_of(ws, hs.last());
        assert forall|i: int| 0 <= i < cur.len() implies file_runs((#[trigger] cur[i]).0).len() >= 2
            && exists|j: int| 0 <= j < hs.len() && cur[i].0 == spots_of(ws, hs[j]) by {
            if i < c.len() {
                assert(cur[i].0 == c[i].0);
                let j = choose|j: int| 0 <= j < d.len() && c[i].0 == spots_of(ws, d[j]);
                assert(d[j] == hs[j]);
            } else {
                assert(cur[i].0 == sp);
                assert(hs[hs.len() - 1] == hs.last());
            }
        }
    }
}

/// Path `p` is the path of one of `files`.
pub open spec fn names_input(files: Seq<(String, Vec<String>)>, p: Seq<char>) -> bool {
    exists|fi: int| 0 <= fi < files.len() && p == (#[trigger] files[fi]).0@
}

/// What a near-duplicate cluster is made of: near, one window long, in at
/// least two places, each naming one of `files`.
pub open spec fn near_shaped(files: Seq<(String, Vec<String>)>, c: ClusterView) -> bool {
    &&& c.is_near_dup
    &&& c.token_count == WINDOW_SIZE
    &&& c.locations.len() >= 2
    &&& forall|l: int| 0 <= l < c.locations.len() ==> names_input(files, (#[trigger] c.locations[l]).file_path)
}

proof fn lemma_members_bounded(files: Seq<(String, Vec<String>)>, thr: Ratio, m: int, k: nat)
    ensures
        members_upto(files, thr, m, k).len() <= k,
        forall|i: int| 0 <= i < members_upto(files, thr, m, k).len() ==> 0 <= #[trigger] members_upto(files, thr, m, k)[i] < k,
    decreases k,
{
    if k > 0 {
        lemma_members_bounded(files, thr, m, (k - 1) as nat);
        let p = members_upto(files, thr, m, (k - 1) as nat);
        let cur = members_upto(files, thr, m, k);
        assert forall|i: int| 0 <= i < cur.len() implies 0 <= #[trigger] cur[i] < k by {
            if i < p.len() {
                assert(cur[i] == p[i]);
            }
        }
    }
}

proof fn lemma_near_clusters_located(files: Seq<(String, Vec<String>)>, thr: Ratio, k: nat)
    requires
        k <= all_windows(files).len(),
    ensures
        forall|i: int| 0 <= i < near_raw_upto(files, thr, k).len() ==> near_shaped(files, #[trigger] near_raw_upto(files, thr, k)[i]),
        all_windows(files).len() < 2 ==> near_raw_upto(files, thr, k).len() == 0,
    decreases k,
{
    if k > 0 {
        lemma_near_clusters_located(files, thr, (k - 1) as nat);
        let m = k - 1;
        let ws = all_windows(files);
        let prev = near_raw_upto(files, thr, (k - 1) as nat);
        let cur = near_raw_upto(files, thr, k);
        lemma_members_bounded(files, thr, m, ws.len());
        if component_min(files, thr, m) == m && members_upto(files, thr, m, ws.len()).len() >= 2 {
            let c = near_cluster_of(files, thr, m);
            let mem = members_upto(files, thr, m, ws.len());
            lemma_windows_ordered(files, files.len());
            assert forall|l: int| 0 <= l < c.locations.len() implies names_input(files, (#[trigger] c.locations[l]).file_path) by {
                assert(c.locations[l] == location_of(files, ws[mem[l]].0));
                assert(0 <= mem[l] < ws.len());
                assert(0 <= ws[mem[l]].0 < files.len());
                assert(files[ws[mem[l]].0].0@ == c.locations[l].file_path);
            }
            assert(near_shaped(files, c));
            assert(cur == prev + seq![c]);
            assert forall|i: int| 0 <= i < cur.len() implies near_shaped(files, #[trigger] cur[i]) by {
                if i < prev.len() {
                    assert(cur[i] == prev[i]);
                } else {
                    assert(cur[i] == c);
                }
            }
        } else {
            assert(cur =~= prev);
        }
    }
}

/// Near-duplicate clusters are marked near, are one window long, lie in at
/// least two places, and name only the given files; with fewer than two
/// windows among all the files there are none.
pub proof fn law_near_clusters_shape(files: Seq<(String, Vec<String>)>, thr: Ratio)
    ensures
        forall|i: int| 0 <= i < near_clusters(files, thr).len() ==> near_shaped(files, #[trigger] near_clusters(files, thr)[i]),
        all_windows(files).len() < 2 ==> near_clusters(files, thr).len() == 0,
{
    lemma_near_clusters_located(files, thr, all_windows(files).len());
    assert forall|i: int| 0 <= i < near_clusters(files, thr).len() implies near_shaped(files, #[trigger] near_clusters(files, thr)[i]) by {
        let r = near_raw_clusters(files, thr)[i];
        assert(near_shaped(files, r));
        assert(near_clusters(files, thr)[i] == with_cut_sample(r));
        assert(near_clusters(files, thr)[i].locations == r.locations);
    }
}

/// Every duplicate cluster, exact or near, is found in at least two places;
/// and at a similarity threshold of one or more there are no near ones.
pub proof fn law_clusters_repeat(files: Seq<(String, Vec<String>)>, thr: Ratio)
    ensures
        forall|i: int| 0 <= i < exact_clusters(files).len() ==> (#[trigger] exact_clusters(files)[i]).locations.len() >= 2,
        forall|i: int| 0 <= i < near_clusters(files, thr).len() ==> (#[trigger] near_clusters(files, thr)[i]).locations.len() >= 2,
        thr.numerator >= thr.denominator ==> near_clusters(files, thr).len() == 0,
{
    let ws = all_windows(files);
    let cs = chains_for(ws, first_seen(hashes_of(ws)));
    lemma_chains_from_hashes(ws, first_seen(hashes_of(ws)));
    lemma_near_clusters_located(files, thr, all_windows(files).len());
    assert forall|i: int| 0 <= i < exact_clusters(files).len() implies (#[trigger] exact_clusters(files)[i]).locations.len() >= 2 by {
        assert(exact_clusters(files)[i].locations == exact_raw_clusters(files)[i].locations);
        assert(exact_raw_clusters(files)[i] == chain_cluster(files, cs[i]));
        assert(file_runs(cs[i].0).len() >= 2);
    }
    assert forall|i: int| 0 <= i < near_clusters(files, thr).len() implies (#[trigger] near_clusters(files, thr)[i]).locations.len() >= 2 by {
        assert(near_clusters(files, thr)[i].locations == near_raw_clusters(files, thr)[i].locations);
        assert(near_shaped(files, near_raw_clusters(files, thr)[i]));
    }
}

proof fn lemma_merge_sorted_apart(rs: Seq<(usize, usize)>)
    ensures
        forall|i: int| 0 <= i < merge_sorted(rs).len() - 1 ==> (#[trigger] merge_sorted(rs)[i]).1 < merge_sorted(rs)[i + 1].0,
    decreases rs.len(),
{
    if rs.len() > 0 {
        lemma_merge_sorted_apart(rs.drop_last());
        let m = merge_sorted(rs.drop_last());
        let cur = merge_sorted(rs);
        assert forall|i: int| 0 <= i < cur.len() - 1 implies (#[trigger] cur[i]).1 < cur[i + 1].0 by {
            if i < m.len() - 1 {
                assert(cur[i] == m[i]);
                if i + 1 < m.len() - 1 {
                    assert(cur[i + 1] == m[i + 1]);
                } else {
                    assert(cur[i + 1].0 == m[i + 1].0);
                }
            }
        }
    }
}

/// Point `x` lies in one of the closed ranges `rs`.
pub open spec fn covered(rs: Seq<(usize, usize)>, x: int) -> bool {
    exists|i: int| 0 <= i < rs.len() && (#[trigger] rs[i]).0 <= x <= rs[i].1
}

/// Merging sorted ranges keeps the points they cover, keeps each range
/// well formed, and leaves nothing only where there was nothing.
proof fn lemma_merge_sorted_union(rs: Seq<(usize, usize)>)
    requires
        forall|i: int, j: int| 0 <= i < j < rs.len() ==> range_le()(rs[i], rs[j]),
        forall|i: int| 0 <= i < rs.len() ==> (#[trigger] rs[i]).0 <= rs[i].1,
    ensures
        merge_sorted(rs).len() == 0 <==> rs.len() == 0,
        merge_sorted(rs).len() > 0 ==> merge_sorted(rs).last().0 <= rs.last().0,
        forall|k: int|
            0 <= k < merge_sorted(rs).len() ==> (#[trigger] merge_sorted(rs)[k]).0 <= merge_sorted(
                rs,
            )[k].1,
        forall|x: int| covered(merge_sorted(rs), x) <==> covered(rs, x),
    decreases rs.len(),
{
    if rs.len() > 0 {
        let d = rs.drop_last();
        lemma_merge_sorted_union(d);
        let m = merge_sorted(d);
        let r = rs.last();
        let cur = merge_sorted(rs);
        let n = rs.len() - 1;
        assert(rs[n] == r);
        if m.len() > 0 && r.0 <= m.last().1 {
            assert(range_le()(rs[n - 1], rs[n]));
            assert(d.last() == rs[n - 1]);
            let ml = m.len() - 1;
            assert(cur[ml].0 == m[ml].0);
            assert forall|k: int| 0 <= k < cur.len() implies (#[trigger] cur[k]).0 <= cur[k].1 by {
                if k < ml {
                    assert(cur[k] == m[k]);
                }
            }
            assert forall|x: int| covered(cur, x) <==> covered(rs, x) by {
                if covered(cur, x) {
                    let k = choose|k: int| 0 <= k < cur.len() && (#[trigger] cur[k]).0 <= x <= cur[k].1;
                    if k < ml {
                        assert(cur[k] == m[k]);
                        assert(covered(merge_sorted(d), x));
                        assert(covered(d, x));
                        let i = choose|i: int| 0 <= i < d.len() && (#[trigger] d[i]).0 <= x <= d[i].1;
                        assert(rs[i] == d[i]);
                    } else if x <= m[ml].1 {
                        assert(m[ml].0 <= x <= m[ml].1);
                        assert(covered(merge_sorted(d), x));
                        assert(covered(d, x));
                        let i = choose|i: int| 0 <= i < d.len() && (#[trigger] d[i]).0 <= x <= d[i].1;
                        assert(rs[i] == d[i]);
                    } else {
                        assert(rs[n].0 <= x <= rs[n].1);
                    }
                }
                if covered(rs, x) {
                    let i = choose|i: int| 0 <= i < rs.len() && (#[trigger] rs[i]).0 <= x <= rs[i].1;
                    if i < n {
                        assert(d[i] == rs[i]);
                        assert(covered(d, x));
                        assert(covered(merge_sorted(d), x));
                        let k = choose|k: int| 0 <= k < m.len() && (#[trigger] m[k]).0 <= x <= m[k].1;
                        if k < ml {
                            assert(cur[k] == m[k]);
                        } else {
                            assert(cur[ml].0 <= x <= cur[ml].1);
                        }
                    } else {
                        assert(cur[ml].0 <= x <= cur[ml].1);
                    }
                }
            }
        } else {
            assert(cur == m.push(r));
            assert forall|k: int| 0 <= k < cur.len() implies (#[trigger] cur[k]).0 <= cur[k].1 by {
                if k < m.len() {
                    assert(cur[k] == m[k]);
                }
            }
            assert forall|x: int| covered(cur, x) <==> covered(rs, x) by {
                if covered(cur, x) {
                    let k = choose|k: int| 0 <= k < cur.len() && (#[trigger] cur[k]).0 <= x <= cur[k].1;
                    if k < m.len() {
                        assert(cur[k] == m[k]);
                        assert(covered(merge_sorted(d), x));
                        assert(covered(d, x));
                        let i = choose|i: int| 0 <= i < d.len() && (#[trigger] d[i]).0 <= x <= d[i].1;
                        assert(rs[i] == d[i]);
                    } else {
                        assert(rs[n].0 <= x <= rs[n].1);
                    }
                }
                if covered(rs, x) {
                    let i = choose|i: int| 0 <= i < rs.len() && (#[trigger] rs[i]).0 <= x <= rs[i].1;
                    if i < n {
                        assert(d[i] == rs[i]);
                        assert(covered(d, x));
                        assert(covered(merge_sorted(d), x));
                        let k = choose|k: int| 0 <= k < m.len() && (#[trigger] m[k]).0 <= x <= m[k].1;
                        assert(cur[k] == m[k]);
                    } else {
                        assert(cur[m.len() as int] == r);
                    }
                }
            }
        }
    }
}

/// Merging ranges (each with its start no later than its end) gives ranges
/// that are well formed, in order and apart (each ends before the next one
/// starts), that cover exactly the points the given ranges cover, and that
/// are none exactly when none were given.
pub proof fn law_merge_overlapping(ranges: Seq<(usize, usize)>)
    requires
        forall|i: int| 0 <= i < ranges.len() ==> (#[trigger] ranges[i]).0 <= ranges[i].1,
    ensures
        merge_sorted(stable_sort(ranges, range_le())).len() == 0 <==> ranges.len() == 0,
        forall|i: int|
            0 <= i < merge_sorted(stable_sort(ranges, range_le())).len() ==> (#[trigger] merge_sorted(
                stable_sort(ranges, range_le()),
            )[i]).0 <= merge_sorted(stable_sort(ranges, range_le()))[i].1,
        forall|i: int|
            0 <= i < merge_sorted(stable_sort(ranges, range_le())).len() - 1 ==> (#[trigger] merge_sorted(
                stable_sort(ranges, range_le()),
            )[i]).1 < merge_sorted(stable_sort(ranges, range_le()))[i + 1].0,
        forall|x: int|
            covered(merge_sorted(stable_sort(ranges, range_le())), x) <==> covered(ranges, x),
{
    let srt = stable_sort(ranges, range_le());
    lemma_stable_sort_sorted(ranges, range_le());
    lemma_stable_sort_permutes(ranges, range_le());
    assert forall|k: int| 0 <= k < srt.len() implies (#[trigger] srt[k]).0 <= srt[k].1 by {
        assert(ranges.contains(srt[k]));
    }
    lemma_merge_sorted_union(srt);
    lemma_merge_sorted_apart(srt);
    assert forall|x: int| covered(srt, x) <==> covered(ranges, x) by {
        if covered(srt, x) {
            let k = choose|k: int| 0 <= k < srt.len() && (#[trigger] srt[k]).0 <= x <= srt[k].1;
            assert(ranges.contains(srt[k]));
            let i = choose|i: int| 0 <= i < ranges.len() && ranges[i] == srt[k];
            assert(ranges[i].0 <= x <= ranges[i].1);
        }
        if covered(ranges, x) {
            let i = choose|i: int| 0 <= i < ranges.len() && (#[trigger] ranges[i]).0 <= x <= ranges[i].1;
            assert(srt.contains(ranges[i]));
            let k = choose|k: int| 0 <= k < srt.len() && srt[k] == ranges[i];
            assert(srt[k].0 <= x <= srt[k].1);
        }
    }
}

/// The windows are in file order, each of one of the first `k` files.
proof fn lemma_windows_ordered(files: Seq<(String, Vec<String>)>, k: nat)
    ensures
        forall|a: int| 0 <= a < windows_upto(files, k).len() ==> 0 <= (#[trigger] windows_upto(files, k)[a]).0 < k,
        forall|a: int, b: int|
            0 <= a < b < windows_upto(files, k).len() ==> (#[trigger] windows_upto(files, k)[a]).0 <= (
            #[trigger] windows_upto(files, k)[b]).0,
    decreases k,
{
    if k > 0 {
        lemma_windows_ordered(files, (k - 1) as nat);
        let p = windows_upto(files, (k - 1) as nat);
        let t = file_windows(k - 1, strings_view(files[k - 1].1@));
        let w = windows_upto(files, k);
        assert(w == p + t);
        assert forall|a: int| 0 <= a < w.len() implies 0 <= (#[trigger] w[a]).0 < k by {
            if a < p.len() {
                assert(w[a] == p[a]);
            } else {
                assert(w[a] == t[a - p.len()]);
            }
        }
        assert forall|a: int, b: int| 0 <= a < b < w.len() implies (#[trigger] w[a]).0 <= (#[trigger] w[b]).0 by {
            if b < p.len() {
                assert(w[a] == p[a] && w[b] == p[b]);
            } else if a < p.len() {
                assert(w[a] == p[a]);
                assert(w[b] == t[b - p.len()]);
            } else {
                assert(w[a] == t[a - p.len()]);
                assert(w[b] == t[b - p.len()]);
            }
        }
    }
}

/// The spots of a hash keep the order and the bounds of the windows.
proof fn lemma_spots_ordered(ws: Seq<(int, int, u64)>, h: u64, n: int)
    requires
        forall|a: int| 0 <= a < ws.len() ==> 0 <= (#[trigger] ws[a]).0 < n,
        forall|a: int, b: int| 0 <= a < b < ws.len() ==> (#[trigger] ws[a]).0 <= (#[trigger] ws[b]).0,
    ensures
        forall|a: int| 0 <= a < spots_of(ws, h).len() ==> 0 <= (#[trigger] spots_of(ws, h)[a]).0 < n,
        forall|a: int| 0 <= a < spots_of(ws, h).len() && ws.len() > 0 ==> (#[trigger] spots_of(ws, h)[a]).0 <= ws.last().0,
        forall|a: int, b: int|
            0 <= a < b < spots_of(ws, h).len() ==> (#[trigger] spots_of(ws, h)[a]).0 <= (#[trigger] spots_of(ws, h)[b]).0,
    decreases ws.len(),
{
    if ws.len() > 0 {
        let d = ws.drop_last();
        assert forall|a: int, b: int| 0 <= a < b < d.len() implies (#[trigger] d[a]).0 <= (#[trigger] d[b]).0 by {
            assert(d[a] == ws[a] && d[b] == ws[b]);
        }
        assert forall|a: int| 0 <= a < d.len() implies 0 <= (#[trigger] d[a]).0 < n by {
            assert(d[a] == ws[a]);
        }
        lemma_spots_ordered(d, h, n);
        let p = spots_of(d, h);
        let sp = spots_of(ws, h);
        if d.len() > 0 {
            assert(d.last() == ws[ws.len() - 2]);
        }
        assert forall|a: int| 0 <= a < p.len() implies (#[trigger] p[a]).0 <= ws.last().0 by {
            if d.len() > 0 {
                assert(ws[ws.len() - 2].0 <= ws[ws.len() - 1].0);
            }
        }
        if ws.last().2 == h {
            let x = (ws.last().0, ws.last().1);
            assert(sp == p.push(x));
            assert(0 <= ws[ws.len() - 1].0 < n);
            assert forall|a: int| 0 <= a < sp.len() implies 0 <= (#[trigger] sp[a]).0 < n by {
                if a < p.len() {
                    assert(sp[a] == p[a]);
                }
            }
            assert forall|a: int| 0 <= a < sp.len() implies (#[trigger] sp[a]).0 <= ws.last().0 by {
                if a < p.len() {
                    assert(sp[a] == p[a]);
                }
            }
            assert forall|a: int, b: int| 0 <= a < b < sp.len() implies (#[trigger] sp[a]).0 <= (#[trigger] sp[b]).0 by {
                if b < p.len() {
                    assert(sp[a] == p[a] && sp[b] == p[b]);
                } else {
                    assert(sp[a] == p[a]);
                }
            }
        } else {
            assert(sp =~= p);
        }
    }
}

/// Runs of spots ordered by file have strictly increasing files within
/// the bounds of the spots.
proof fn lemma_runs_distinct(spots: Seq<(int, int)>, n: int)
    requires
        forall|a: int| 0 <= a < spots.len() ==> 0 <= (#[trigger] spots[a]).0 < n,
        forall|a: int, b: int| 0 <= a < b < spots.len() ==> (#[trigger] spots[a]).0 <= (#[trigger] spots[b]).0,
    ensures
        forall|a: int| 0 <= a < file_runs(spots).len() ==> 0 <= (#[trigger] file_runs(spots)[a]).0 < n,
        forall|a: int, b: int|
            0 <= a < b < file_runs(spots).len() ==> (#[trigger] file_runs(spots)[a]).0 < (#[trigger] file_runs(spots)[b]).0,
        spots.len() > 0 ==> file_runs(spots).len() > 0 && file_runs(spots).last().0 == spots.last().0,
    decreases spots.len(),
{
    if spots.len() > 0 {
        let d = spots.drop_last();
        assert forall|a: int, b: int| 0 <= a < b < d.len() implies (#[trigger] d[a]).0 <= (#[trigger] d[b]).0 by {
            assert(d[a] == spots[a] && d[b] == spots[b]);
        }
        assert forall|a: int| 0 <= a < d.len() implies 0 <= (#[trigger] d[a]).0 < n by {
            assert(d[a] == spots[a]);
        }
        lemma_runs_distinct(d, n);
        let r = file_runs(d);
        let q = spots.last();
        let cur = file_runs(spots);
        assert(0 <= spots[spots.len() - 1].0 < n);
        if r.len() > 0 && r.last().0 == q.0 {
            assert(cur == r.update(r.len() - 1, (q.0, r.last().1.push(q.1))));
            assert forall|a: int| 0 <= a < cur.len() implies 0 <= (#[trigger] cur[a]).0 < n by {
                assert(cur[a].0 == r[a].0);
            }
            assert forall|a: int, b: int| 0 <= a < b < cur.len() implies (#[trigger] cur[a]).0 < (#[trigger] cur[b]).0 by {
                assert(cur[a].0 == r[a].0);
                assert(cur[b].0 == r[b].0);
            }
        } else {
            assert(cur == r.push((q.0, seq![q.1])));
            if r.len() > 0 {
                assert(d.last() == spots[spots.len() - 2]);
                assert(spots[spots.len() - 2].0 <= spots[spots.len() - 1].0);
                assert(r.last().0 < q.0);
            }
            assert forall|a: int| 0 <= a < cur.len() implies 0 <= (#[trigger] cur[a]).0 < n by {
                if a < r.len() {
                    assert(cur[a] == r[a]);
                }
            }
            assert forall|a: int, b: int| 0 <= a < b < cur.len() implies (#[trigger] cur[a]).0 < (#[trigger] cur[b]).0 by {
                if b < r.len() {
                    assert(cur[a] == r[a] && cur[b] == r[b]);
                } else {
                    assert(cur[a] == r[a]);
                    assert(r[a].0 <= r.last().0) by {
                        if a < r.len() - 1 {
                            assert(r[a].0 < r[r.len() - 1].0);
                        }
                    }
                }
            }
        }
    }
}

proof fn lemma_raw_clusters_distinct(files: Seq<(String, Vec<String>)>)
    requires
        forall|i: int, j: int| 0 <= i < j < files.len() ==> (#[trigger] files[i]).0@ != (#[trigger] files[j]).0@,
    ensures
        forall|c: int, a: int, b: int|
            0 <= c < exact_raw_clusters(files).len() && 0 <= a < b < exact_raw_clusters(files)[c].locations.len()
                ==> (#[trigger] exact_raw_clusters(files)[c].locations[a]).file_path != (
            #[trigger] exact_raw_clusters(files)[c].locations[b]).file_path,
{
    let ws = all_windows(files);
    let hs = first_seen(hashes_of(ws));
    let cs = chains_for(ws, hs);
    lemma_chains_from_hashes(ws, hs);
    lemma_windows_ordered(files, files.len());
    assert forall|c: int, a: int, b: int|
        0 <= c < exact_raw_clusters(files).len() && 0 <= a < b < exact_raw_clusters(files)[c].locations.len()
            implies (#[trigger] exact_raw_clusters(files)[c].locations[a]).file_path != (
        #[trigger] exact_raw_clusters(files)[c].locations[b]).file_path by {
        let ch = cs[c];
        assert(file_runs(ch.0).len() >= 2);
        let j = choose|j: int| 0 <= j < hs.len() && ch.0 == spots_of(ws, hs[j]);
        lemma_spots_ordered(ws, hs[j], files.len() as int);
        lemma_runs_distinct(ch.0, files.len() as int);
        let rs = file_runs(ch.0);
        let cl = exact_raw_clusters(files)[c];
        assert(cl == chain_cluster(files, ch));
        assert(cl.locations[a] == location_of(files, rs[a].0));
        assert(cl.locations[b] == location_of(files, rs[b].0));
        assert(rs[a].0 < rs[b].0);
    }
}

/// Path `p` is the path of one of `files` that holds at least a window's
/// worth of tokens.
pub open spec fn names_long_input(files: Seq<(String, Vec<String>)>, p: Seq<char>) -> bool {
    exists|fi: int|
        0 <= fi < files.len() && (#[trigger] files[fi]).1@.len() >= WINDOW_SIZE && p == files[fi].0@
}

proof fn lemma_windows_in_long_files(files: Seq<(String, Vec<String>)>, k: nat)
    requires
        k <= files.len(),
    ensures
        forall|a: int|
            0 <= a < windows_upto(files, k).len() ==> 0 <= (#[trigger] windows_upto(files, k)[a]).0 < k
                && files[windows_upto(files, k)[a].0].1@.len() >= WINDOW_SIZE,
    decreases k,
{
    if k > 0 {
        lemma_windows_in_long_files(files, (k - 1) as nat);
        let p = windows_upto(files, (k - 1) as nat);
        let t = file_windows(k - 1, strings_view(files[k - 1].1@));
        let w = windows_upto(files, k);
        assert(w == p + t);
        assert forall|a: int| 0 <= a < w.len() implies 0 <= (#[trigger] w[a]).0 < k
            && files[w[a].0].1@.len() >= WINDOW_SIZE by {
            if a < p.len() {
                assert(w[a] == p[a]);
            } else {
                assert(w[a] == t[a - p.len()]);
                assert(strings_view(files[k - 1].1@).len() == files[k - 1].1@.len());
            }
        }
    }
}

proof fn lemma_spots_from_windows(ws: Seq<(int, int, u64)>, h: u64)
    ensures
        forall|a: int|
            0 <= a < spots_of(ws, h).len() ==> exists|j: int|
                0 <= j < ws.len() && (#[trigger] spots_of(ws, h)[a]).0 == (#[trigger] ws[j]).0,
    decreases ws.len(),
{
    if ws.len() > 0 {
        let d = ws.drop_last();
        lemma_spots_from_windows(d, h);
        let p = spots_of(d, h);
        let cur = spots_of(ws, h);
        assert forall|a: int| 0 <= a < cur.len() implies exists|j: int|
            0 <= j < ws.len() && (#[trigger] cur[a]).0 == (#[trigger] ws[j]).0 by {
            if a < p.len() {
                assert(cur[a] == p[a]);
                let j = choose|j: int| 0 <= j < d.len() && p[a].0 == (#[trigger] d[j]).0;
                assert(d[j] == ws[j]);
            } else {
                assert(cur[a].0 == ws[ws.len() - 1].0);
            }
        }
    }
}

proof fn lemma_runs_from_spots(spots: Seq<(int, int)>)
    ensures
        forall|a: int|
            0 <= a < file_runs(spots).len() ==> exists|j: int|
                0 <= j < spots.len() && (#[trigger] file_runs(spots)[a]).0 == (#[trigger] spots[j]).0,
    decreases spots.len(),
{
    if spots.len() > 0 {
        let d = spots.drop_last();
        lemma_runs_from_spots(d);
        let r = file_runs(d);
        let cur = file_runs(spots);
        assert forall|a: int| 0 <= a < cur.len() implies exists|j: int|
            0 <= j < spots.len() && (#[trigger] cur[a]).0 == (#[trigger] spots[j]).0 by {
            if a < r.len() {
                assert(cur[a].0 == r[a].0);
                let j = choose|j: int| 0 <= j < d.len() && r[a].0 == (#[trigger] d[j]).0;
                assert(d[j] == spots[j]);
            } else {
                assert(cur[a].0 == spots[spots.len() - 1].0);
            }
        }
    }
}

/// Exact-duplicate clusters are not marked near, lie in at least two
/// places, and name only given files that hold at least a window's worth
/// of tokens: a shorter file is in no cluster.
pub proof fn law_exact_clusters_shape(files: Seq<(String, Vec<String>)>)
    ensures
        forall|i: int|
            0 <= i < exact_clusters(files).len() ==> !(#[trigger] exact_clusters(files)[i]).is_near_dup
                && exact_clusters(files)[i].locations.len() >= 2,
        forall|i: int, l: int|
            0 <= i < exact_clusters(files).len() && 0 <= l < exact_clusters(files)[i].locations.len()
                ==> names_long_input(files, (#[trigger] exact_clusters(files)[i].locations[l]).file_path),
{
    let ws = all_windows(files);
    let hs = first_seen(hashes_of(ws));
    let cs = chains_for(ws, hs);
    lemma_chains_from_hashes(ws, hs);
    lemma_windows_in_long_files(files, files.len());
    assert forall|i: int|
        0 <= i < exact_clusters(files).len() implies !(#[trigger] exact_clusters(files)[i]).is_near_dup
            && exact_clusters(files)[i].locations.len() >= 2 by {
        assert(exact_raw_clusters(files)[i] == chain_cluster(files, cs[i]));
        assert(file_runs(cs[i].0).len() >= 2);
    }
    assert forall|i: int, l: int|
        0 <= i < exact_clusters(files).len() && 0 <= l < exact_clusters(files)[i].locations.len()
            implies names_long_input(files, (#[trigger] exact_clusters(files)[i].locations[l]).file_path) by {
        let ch = cs[i];
        assert(exact_raw_clusters(files)[i] == chain_cluster(files, ch));
        let j = choose|j: int| 0 <= j < hs.len() && ch.0 == spots_of(ws, hs[j]);
        lemma_spots_from_windows(ws, hs[j]);
        lemma_runs_from_spots(ch.0);
        let rs = file_runs(ch.0);
        assert(exact_clusters(files)[i].locations[l] == location_of(files, rs[l].0));
        let a = choose|a: int| 0 <= a < ch.0.len() && rs[l].0 == (#[trigger] ch.0[a]).0;
        assert(ch.0[a] == spots_of(ws, hs[j])[a]);
        let w = choose|w: int| 0 <= w < ws.len() && spots_of(ws, hs[j])[a].0 == (#[trigger] ws[w]).0;
        let fi = ws[w].0;
        assert(0 <= fi < files.len() && files[fi].1@.len() >= WINDOW_SIZE);
        assert(files[fi].0@ == exact_clusters(files)[i].locations[l].file_path);
    }
}

proof fn lemma_encode_concat(a: Seq<char>, b: Seq<char>)
    ensures
        vstd::utf8::encode_utf8(a + b) == vstd::utf8::encode_utf8(a) + vstd::utf8::encode_utf8(b),
    decreases a.len(),
{
    if a.len() > 0 {
        lemma_encode_concat(a.drop_first(), b);
        assert((a + b).drop_first() =~= a.drop_first() + b);
        assert((a + b)[0] == a[0]);
        assert(vstd::utf8::encode_utf8(a) == vstd::utf8::encode_scalar(a[0] as u32) + vstd::utf8::encode_utf8(
            a.drop_first(),
        ));
        assert(vstd::utf8::encode_utf8(a + b) =~= vstd::utf8::encode_utf8(a) + vstd::utf8::encode_utf8(b));
    } else {
        assert(a + b =~= b);
    }
}

/// A sample that can be cut is, once cut, at most `SAMPLE_BYTES` bytes and
/// the three bytes of the `...` mark.
proof fn lemma_cut_sample_short(s: Seq<char>)
    requires
        sample_fits(s),
    ensures
        vstd::utf8::encode_utf8(cut_sample(s)).len() <= SAMPLE_BYTES + 3,
{
    broadcast use vstd::utf8::encode_utf8_valid_utf8;

    let b = vstd::utf8::encode_utf8(s);
    if b.len() > SAMPLE_BYTES {
        let head = b.subrange(0, SAMPLE_BYTES as int);
        vstd::utf8::valid_utf8_split(b, SAMPLE_BYTES as int);
        vstd::utf8::decode_utf8_encode_utf8(head);
        lemma_encode_concat(vstd::utf8::decode_utf8(head), "..."@);
        reveal_strlit("...");
        assert("..."@ =~= seq!['.', '.', '.']);
        assert(vstd::utf8::is_ascii_chars("..."@));
        vstd::utf8::is_ascii_chars_encode_utf8("..."@);
    }
}

/// Given samples that can be cut, every exact-duplicate sample is at most
/// `SAMPLE_BYTES` bytes and the three bytes of the `...` mark.
pub proof fn law_exact_samples_short(files: Seq<(String, Vec<String>)>)
    requires
        samples_fit(exact_raw_clusters(files)),
    ensures
        forall|i: int|
            0 <= i < exact_clusters(files).len() ==> vstd::utf8::encode_utf8(
                (#[trigger] exact_clusters(files)[i]).sample,
            ).len() <= SAMPLE_BYTES + 3,
{
    assert forall|i: int| 0 <= i < exact_clusters(files).len() implies vstd::utf8::encode_utf8(
        (#[trigger] exact_clusters(files)[i]).sample,
    ).len() <= SAMPLE_BYTES + 3 by {
        let r = exact_raw_clusters(files)[i];
        assert(sample_fits(r.sample));
        assert(exact_clusters(files)[i] == with_cut_sample(r));
        lemma_cut_sample_short(r.sample);
    }
}

/// A window of `w` tokens at token `s` of file `f` lies within that file.
pub open spec fn window_fits(files: Seq<(String, Vec<String>)>, f: int, s: int, w: int) -> bool {
    0 <= f < files.len() && 0 <= s && s + w <= files[f].1@.len()
}

proof fn lemma_windows_fit(files: Seq<(String, Vec<String>)>, k: nat)
    requires
        k <= files.len(),
    ensures
        forall|a: int|
            0 <= a < windows_upto(files, k).len() ==> window_fits(
                files,
                (#[trigger] windows_upto(files, k)[a]).0,
                windows_upto(files, k)[a].1,
                WINDOW_SIZE as int,
            ),
    decreases k,
{
    if k > 0 {
        lemma_windows_fit(files, (k - 1) as nat);
        let p = windows_upto(files, (k - 1) as nat);
        let t = file_windows(k - 1, strings_view(files[k - 1].1@));
        let w = windows_upto(files, k);
        assert(w == p + t);
        assert forall|a: int| 0 <= a < w.len() implies window_fits(files, (#[trigger] w[a]).0, w[a].1, WINDOW_SIZE as int) by {
            if a < p.len() {
                assert(w[a] == p[a]);
            } else {
                assert(w[a] == t[a - p.len()]);
                assert(strings_view(files[k - 1].1@).len() == files[k - 1].1@.len());
            }
        }
    }
}

proof fn lemma_spots_are_windows(ws: Seq<(int, int, u64)>, h: u64)
    ensures
        forall|a: int|
            0 <= a < spots_of(ws, h).len() ==> exists|j: int|
                0 <= j < ws.len() && #[trigger] spots_of(ws, h)[a] == (#[trigger] ws[j].0, ws[j].1),
    decreases ws.len(),
{
    if ws.len() > 0 {
        let d = ws.drop_last();
        lemma_spots_are_windows(d, h);
        let p = spots_of(d, h);
        let cur = spots_of(ws, h);
        assert forall|a: int| 0 <= a < cur.len() implies exists|j: int|
            0 <= j < ws.len() && #[trigger] cur[a] == (#[trigger] ws[j].0, ws[j].1) by {
            if a < p.len() {
                assert(cur[a] == p[a]);
                let j = choose|j: int| 0 <= j < d.len() && p[a] == (#[trigger] d[j].0, d[j].1);
                assert(d[j] == ws[j]);
            } else {
                assert(cur[a] == (ws[ws.len() - 1].0, ws[ws.len() - 1].1));
            }
        }
    }
}

/// Each run of the chains reaches no further than its files: its places
/// widened by its reach still lie within their files.
proof fn lemma_chains_fit(files: Seq<(String, Vec<String>)>, hs: Seq<u64>)
    ensures
        forall|i: int|
            0 <= i < chains_for(all_windows(files), hs).len() ==> (#[trigger] chains_for(all_windows(files), hs)[i]).1 >= 0
                && forall|k: int|
                0 <= k < chains_for(all_windows(files), hs)[i].0.len() ==> window_fits(
                    files,
                    (#[trigger] chains_for(all_windows(files), hs)[i].0[k]).0,
                    chains_for(all_windows(files), hs)[i].0[k].1,
                    WINDOW_SIZE + chains_for(all_windows(files), hs)[i].1,
                ),
    decreases hs.len(),
{
    let ws = all_windows(files);
    if hs.len() > 0 {
        let d = hs.drop_last();
        lemma_chains_fit(files, d);
        lemma_windows_fit(files, files.len());
        let c = chains_for(ws, d);
        let cur = chains_for(ws, hs);
        let sp = spots_of(ws, hs.last());
        lemma_spots_are_windows(ws, hs.last());
        assert forall|k: int| 0 <= k < sp.len() implies window_fits(files, (#[trigger] sp[k]).0, sp[k].1, WINDOW_SIZE as int) by {
            let j = choose|j: int| 0 <= j < ws.len() && sp[k] == (#[trigger] ws[j].0, ws[j].1);
            assert(window_fits(files, ws[j].0, ws[j].1, WINDOW_SIZE as int));
        }
        if file_runs(sp).len() < 2 {
        } else if c.len() > 0 && sp == shifted(c.last().0, c.last().1 + 1) {
            let l = c.len() - 1;
            assert(c.last() == c[l]);
            assert forall|i: int| 0 <= i < cur.len() implies (#[trigger] cur[i]).1 >= 0 && forall|k: int|
                0 <= k < cur[i].0.len() ==> window_fits(files, (#[trigger] cur[i].0[k]).0, cur[i].0[k].1, WINDOW_SIZE + cur[i].1) by {
                if i < l {
                    assert(cur[i] == c[i]);
                } else {
                    assert(cur[i] == (c[l].0, c[l].1 + 1));
                    assert forall|k: int| 0 <= k < cur[i].0.len() implies window_fits(files, (#[trigger] cur[i].0[k]).0, cur[i].0[k].1, WINDOW_SIZE + cur[i].1) by {
                        assert(cur[i].0[k] == c[l].0[k]);
                        assert(sp[k] == shifted(c[l].0, c[l].1 + 1)[k]);
                        assert(window_fits(files, sp[k].0, sp[k].1, WINDOW_SIZE as int));
                        assert(window_fits(files, c[l].0[k].0, c[l].0[k].1, WINDOW_SIZE + c[l].1));
                    }
                }
            }
        } else {
            assert(cur == c.push((sp, 0)));
            assert forall|i: int| 0 <= i < cur.len() implies (#[trigger] cur[i]).1 >= 0 && forall|k: int|
                0 <= k < cur[i].0.len() ==> window_fits(files, (#[trigger] cur[i].0[k]).0, cur[i].0[k].1, WINDOW_SIZE + cur[i].1) by {
                if i < c.len() {
                    assert(cur[i] == c[i]);
                } else {
                    assert(cur[i] == (sp, 0int));
                }
            }
        }
    }
}

proof fn lemma_runs_starts(spots: Seq<(int, int)>)
    ensures
        forall|a: int|
            0 <= a < file_runs(spots).len() ==> (#[trigger] file_runs(spots)[a]).1.len() > 0 && forall|m: int|
                0 <= m < file_runs(spots)[a].1.len() ==> exists|j: int|
                    0 <= j < spots.len() && #[trigger] spots[j] == (file_runs(spots)[a].0, #[trigger] file_runs(spots)[a].1[m]),
    decreases spots.len(),
{
    if spots.len() > 0 {
        let d = spots.drop_last();
        lemma_runs_starts(d);
        let r = file_runs(d);
        let q = spots.last();
        let n = spots.len() - 1;
        assert(spots[n] == q);
        let cur = file_runs(spots);
        if r.len() > 0 && r.last().0 == q.0 {
            let l = r.len() - 1;
            assert(cur == r.update(l, (q.0, r[l].1.push(q.1))));
            assert forall|a: int| 0 <= a < cur.len() implies (#[trigger] cur[a]).1.len() > 0 && forall|m: int|
                0 <= m < cur[a].1.len() ==> exists|j: int|
                    0 <= j < spots.len() && #[trigger] spots[j] == (cur[a].0, #[trigger] cur[a].1[m]) by {
                assert forall|m: int| 0 <= m < cur[a].1.len() implies exists|j: int|
                    0 <= j < spots.len() && #[trigger] spots[j] == (cur[a].0, #[trigger] cur[a].1[m]) by {
                    if a == l && m == r[l].1.len() {
                        assert(spots[n] == (cur[a].0, cur[a].1[m]));
                    } else {
                        assert(cur[a].1[m] == r[a].1[m]);
                        let j = choose|j: int| 0 <= j < d.len() && #[trigger] d[j] == (r[a].0, r[a].1[m]);
                        assert(spots[j] == d[j]);
                    }
                }
            }
        } else {
            assert(cur == r.push((q.0, seq![q.1])));
            assert forall|a: int| 0 <= a < cur.len() implies (#[trigger] cur[a]).1.len() > 0 && forall|m: int|
                0 <= m < cur[a].1.len() ==> exists|j: int|
                    0 <= j < spots.len() && #[trigger] spots[j] == (cur[a].0, #[trigger] cur[a].1[m]) by {
                assert forall|m: int| 0 <= m < cur[a].1.len() implies exists|j: int|
                    0 <= j < spots.len() && #[trigger] spots[j] == (cur[a].0, #[trigger] cur[a].1[m]) by {
                    if a == r.len() {
                        assert(spots[n] == (cur[a].0, cur[a].1[m]));
                    } else {
                        assert(cur[a] == r[a]);
                        let j = choose|j: int| 0 <= j < d.len() && #[trigger] d[j] == (r[a].0, r[a].1[m]);
                        assert(spots[j] == d[j]);
                    }
                }
            }
        }
    }
}

proof fn lemma_blocks_len_lower(rs: Seq<(usize, usize)>)
    requires
        rs.len() > 0,
        forall|i: int, j: int| 0 <= i < j < rs.len() ==> range_le()(rs[i], rs[j]),
        forall|i: int| 0 <= i < rs.len() ==> (#[trigger] rs[i]).0 <= rs[i].1,
    ensures
        blocks_len(merge_sorted(rs)) >= rs[0].1 - rs[0].0,
    decreases rs.len(),
{
    let d = rs.drop_last();
    let r = rs.last();
    if d.len() == 0 {
        assert(merge_sorted(d).len() == 0);
        assert(merge_sorted(rs) =~= seq![r]);
        assert(blocks_len(merge_sorted(rs)) == blocks_len(merge_sorted(rs).drop_last()) + (r.1 - r.0));
        assert(merge_sorted(rs).drop_last() =~= Seq::<(usize, usize)>::empty());
    } else {
        lemma_blocks_len_lower(d);
        lemma_merge_sorted_union(d);
        assert(d[0] == rs[0]);
        let m = merge_sorted(d);
        let cur = merge_sorted(rs);
        assert(rs[rs.len() - 1] == r);
        if m.len() > 0 && r.0 <= m.last().1 {
            let l = m.len() - 1;
            assert(m[l].0 <= m[l].1);
            assert(cur.drop_last() =~= m.drop_last());
            assert(blocks_len(m) == blocks_len(m.drop_last()) + (m.last().1 - m.last().0));
            assert(blocks_len(cur) == blocks_len(cur.drop_last()) + (cur.last().1 - cur.last().0));
        } else {
            assert(cur.drop_last() =~= m);
            assert(blocks_len(cur) == blocks_len(m) + (r.1 - r.0));
        }
    }
}

/// The blocks of a run of windows of `w` tokens cover at least `w` tokens.
proof fn lemma_run_tokens(starts: Seq<int>, w: int)
    requires
        starts.len() > 0,
        0 <= w,
        forall|m: int| 0 <= m < starts.len() ==> 0 <= #[trigger] starts[m] && starts[m] + w <= usize::MAX,
    ensures
        blocks_len(run_blocks(starts, w)) >= w,
{
    let wr = window_ranges(starts, w);
    assert forall|k: int| 0 <= k < wr.len() implies (#[trigger] wr[k]).0 <= wr[k].1 && wr[k].1 - wr[k].0 == w by {
        assert(wr[k] == (starts[k] as usize, (starts[k] + w) as usize));
    }
    lemma_stable_sort_sorted(wr, range_le());
    let srt = stable_sort(wr, range_le());
    assert forall|k: int| 0 <= k < srt.len() implies (#[trigger] srt[k]).0 <= srt[k].1 && srt[k].1 - srt[k].0 == w by {
        assert(wr.contains(srt[k]));
        let i = choose|i: int| 0 <= i < wr.len() && wr[i] == srt[k];
        assert(wr[i].0 <= wr[i].1);
    }
    lemma_blocks_len_lower(srt);
    assert(srt[0].1 - srt[0].0 == w);
}

/// Given files that each hold no more tokens than a machine word counts,
/// every exact-duplicate cluster covers at least one window's worth of
/// tokens.
pub proof fn law_exact_clusters_long(files: Seq<(String, Vec<String>)>)
    requires
        forall|f: int| 0 <= f < files.len() ==> (#[trigger] files[f]).1@.len() <= usize::MAX,
    ensures
        forall|i: int| 0 <= i < exact_clusters(files).len() ==> (#[trigger] exact_clusters(files)[i]).token_count >= WINDOW_SIZE,
{
    let ws = all_windows(files);
    let hs = first_seen(hashes_of(ws));
    let cs = chains_for(ws, hs);
    lemma_chains_from_hashes(ws, hs);
    lemma_chains_fit(files, hs);
    assert forall|i: int| 0 <= i < exact_clusters(files).len() implies (#[trigger] exact_clusters(files)[i]).token_count >= WINDOW_SIZE by {
        let ch = cs[i];
        let w = WINDOW_SIZE + ch.1;
        assert(exact_raw_clusters(files)[i] == chain_cluster(files, ch));
        assert(exact_clusters(files)[i].token_count == exact_raw_clusters(files)[i].token_count);
        let rs = file_runs(ch.0);
        assert(rs.len() >= 2);
        lemma_runs_starts(ch.0);
        let st = rs.last().1;
        assert(rs.last() == rs[rs.len() - 1]);
        assert forall|m: int| 0 <= m < st.len() implies 0 <= #[trigger] st[m] && st[m] + w <= usize::MAX by {
            let j = choose|j: int| 0 <= j < ch.0.len() && #[trigger] ch.0[j] == (rs[rs.len() - 1].0, rs[rs.len() - 1].1[m]);
            assert(window_fits(files, ch.0[j].0, ch.0[j].1, w));
            assert(files[ch.0[j].0].1@.len() <= usize::MAX);
        }
        lemma_run_tokens(st, w);
        assert(max_run_tokens(rs, w) >= blocks_len(run_blocks(st, w)));
    }
}

/// Given files with distinct paths, each exact duplicate cluster names
/// every file at most once: one location per file.
pub proof fn law_one_location_per_file(files: Seq<(String, Vec<String>)>)
    requires
        forall|i: int, j: int| 0 <= i < j < files.len() ==> (#[trigger] files[i]).0@ != (#[trigger] files[j]).0@,
    ensures
        forall|c: int, a: int, b: int|
            0 <= c < exact_clusters(files).len() && 0 <= a < b < exact_clusters(files)[c].locations.len() ==> (
            #[trigger] exact_clusters(files)[c].locations[a]).file_path != (
            #[trigger] exact_clusters(files)[c].locations[b]).file_path,
{
    lemma_raw_clusters_distinct(files);
    assert forall|c: int, a: int, b: int|
        0 <= c < exact_clusters(files).len() && 0 <= a < b < exact_clusters(files)[c].locations.len() implies (
        #[trigger] exact_clusters(files)[c].locations[a]).file_path != (
        #[trigger] exact_clusters(files)[c].locations[b]).file_path by {
        assert(exact_clusters(files)[c].locations == exact_raw_clusters(files)[c].locations);
    }
}

} // verus!
