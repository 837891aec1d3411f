//! Ordering of findings by their location (file path, then line), the order
//! in which every report lists them.

use vstd::prelude::*;
use vstd::relations::sorted_by;

use crate::text::{chars_eq, chars_of};

verus! {

/// Lexicographic order on character sequences by code point: the order of
/// std's `Ord for str` (UTF-8 byte order agrees with code point order).
pub open spec fn chars_le(a: Seq<char>, b: Seq<char>) -> bool
    decreases a.len(),
{
    if a.len() == 0 {
        true
    } else if b.len() == 0 {
        false
    } else if a[0] != b[0] {
        a[0] < b[0]
    } else {
        chars_le(a.drop_first(), b.drop_first())
    }
}

pub proof fn lemma_chars_le_total(a: Seq<char>, b: Seq<char>)
    ensures
        chars_le(a, b) || chars_le(b, a),
    decreases a.len(),
{
    if a.len() > 0 && b.len() > 0 && a[0] == b[0] {
        lemma_chars_le_total(a.drop_first(), b.drop_first());
    }
}

pub proof fn lemma_chars_le_antisymmetric(a: Seq<char>, b: Seq<char>)
    requires
        chars_le(a, b),
        chars_le(b, a),
    ensures
        a == b,
    decreases a.len(),
{
    if a.len() == 0 {
        assert(b.len() == 0);
        assert(a =~= b);
    } else {
        assert(a[0] == b[0]);
        lemma_chars_le_antisymmetric(a.drop_first(), b.drop_first());
        assert(a =~= seq![a[0]] + a.drop_first());
        assert(b =~= seq![b[0]] + b.drop_first());
    }
}

pub proof fn lemma_chars_le_transitive(a: Seq<char>, b: Seq<char>, c: Seq<char>)
    requires
        chars_le(a, b),
        chars_le(b, c),
    ensures
        chars_le(a, c),
    decreases a.len(),
{
    if a.len() > 0 && b.len() > 0 && c.len() > 0 && a[0] == b[0] && b[0] == c[0] {
        lemma_chars_le_transitive(a.drop_first(), b.drop_first(), c.drop_first());
    }
}

/// Whether location `(p1, l1)` comes no later than `(p2, l2)`: by path, then
/// by line.
pub open spec fn location_le(p1: Seq<char>, l1: int, p2: Seq<char>, l2: int) -> bool {
    if p1 == p2 {
        l1 <= l2
    } else {
        chars_le(p1, p2)
    }
}

pub proof fn lemma_location_le_total(p1: Seq<char>, l1: int, p2: Seq<char>, l2: int)
    ensures
        location_le(p1, l1, p2, l2) || location_le(p2, l2, p1, l1),
{
    lemma_chars_le_total(p1, p2);
}

pub proof fn lemma_location_le_transitive(
    p1: Seq<char>,
    l1: int,
    p2: Seq<char>,
    l2: int,
    p3: Seq<char>,
    l3: int,
)
    requires
        location_le(p1, l1, p2, l2),
        location_le(p2, l2, p3, l3),
    ensures
        location_le(p1, l1, p3, l3),
{
    if p1 != p2 && p2 != p3 {
        lemma_chars_le_transitive(p1, p2, p3);
        if p1 == p3 {
            lemma_chars_le_antisymmetric(p1, p2);
        }
    }
}

/// `x` inserted into `s` after every trailing element that it does not
/// precede: the insertion step of a stable sort.
pub open spec fn insert_sorted<V>(s: Seq<V>, x: V, le: spec_fn(V, V) -> bool) -> Seq<V>
    decreases s.len(),
{
    if s.len() == 0 || le(s.last(), x) {
        s.push(x)
    } else {
        insert_sorted(s.drop_last(), x, le).push(s.last())
    }
}

/// The stable sort of `s` under `le`: elements that compare equal keep their
/// relative order.
pub open spec fn stable_sort<V>(s: Seq<V>, le: spec_fn(V, V) -> bool) -> Seq<V>
    decreases s.len(),
{
    if s.len() == 0 {
        s
    } else {
        insert_sorted(stable_sort(s.drop_last(), le), s.last(), le)
    }
}

/// Inserting at the place found by scanning back from the end is the
/// insertion step.
pub proof fn lemma_insert_at_scan<V>(s: Seq<V>, x: V, le: spec_fn(V, V) -> bool, j: int)
    requires
        0 <= j <= s.len(),
        j > 0 ==> le(s[j - 1], x),
        forall|k: int| j <= k < s.len() ==> !le(#[trigger] s[k], x),
    ensures
        insert_sorted(s, x, le) == s.insert(j, x),
    decreases s.len(),
{
    if j == s.len() {
        assert(s.insert(j, x) =~= s.push(x));
    } else {
        assert(!le(s[s.len() - 1], x));
        let d = s.drop_last();
        assert forall|k: int| j <= k < d.len() implies !le(#[trigger] d[k], x) by {
            assert(d[k] == s[k]);
        }
        if j > 0 {
            assert(d[j - 1] == s[j - 1]);
        }
        lemma_insert_at_scan(d, x, le, j);
        assert(d.insert(j, x).push(s.last()) =~= s.insert(j, x));
    }
}

/// Inserting into a sorted sequence keeps it sorted and adds exactly `x`.
proof fn lemma_insert_sorted_sorted<V>(s: Seq<V>, x: V, le: spec_fn(V, V) -> bool)
    requires
        forall|a: V, b: V| #[trigger] le(a, b) || le(b, a),
        forall|a: V, b: V, c: V| #[trigger] le(a, b) && #[trigger] le(b, c) ==> le(a, c),
        forall|i: int, j: int| 0 <= i < j < s.len() ==> le(s[i], s[j]),
    ensures
        forall|i: int, j: int|
            0 <= i < j < insert_sorted(s, x, le).len() ==> le(
                insert_sorted(s, x, le)[i],
                insert_sorted(s, x, le)[j],
            ),
        insert_sorted(s, x, le).len() == s.len() + 1,
        forall|i: int|
            0 <= i < insert_sorted(s, x, le).len() ==> (#[trigger] insert_sorted(s, x, le)[i] == x
                || s.contains(insert_sorted(s, x, le)[i])),
    decreases s.len(),
{
    if s.len() == 0 || le(s.last(), x) {
        let r = s.push(x);
        assert forall|i: int| 0 <= i < r.len() implies (#[trigger] r[i] == x || s.contains(r[i])) by {
            if i < s.len() {
                assert(s[i] == r[i]);
            }
        }
    } else {
        let d = s.drop_last();
        lemma_insert_sorted_sorted(d, x, le);
        let m = insert_sorted(d, x, le);
        let r = m.push(s.last());
        assert forall|i: int| 0 <= i < m.len() implies le(#[trigger] m[i], s.last()) by {
            if m[i] == x {
                assert(le(s.last(), x) || le(x, s.last()));
            } else {
                assert(d.contains(m[i]));
                let k = choose|k: int| 0 <= k < d.len() && d[k] == m[i];
                assert(le(s[k], s[s.len() - 1]));
            }
        }
        assert forall|i: int, j: int| 0 <= i < j < r.len() implies le(r[i], r[j]) by {
            if j == r.len() - 1 {
                assert(r[i] == m[i]);
            } else {
                assert(r[i] == m[i] && r[j] == m[j]);
            }
        }
        assert forall|i: int| 0 <= i < r.len() implies (#[trigger] r[i] == x || s.contains(r[i])) by {
            if i < m.len() {
                assert(r[i] == m[i]);
                if m[i] != x {
                    assert(d.contains(m[i]));
                    let k = choose|k: int| 0 <= k < d.len() && d[k] == m[i];
                    assert(s[k] == m[i]);
                }
            } else {
                assert(s[s.len() - 1] == r[i]);
            }
        }
    }
}

/// The insertion step adds `x` to what `s` holds.
proof fn lemma_insert_sorted_multiset<V>(s: Seq<V>, x: V, le: spec_fn(V, V) -> bool)
    ensures
        insert_sorted(s, x, le).to_multiset() =~= s.to_multiset().insert(x),
    decreases s.len(),
{
    broadcast use vstd::seq_lib::to_multiset_build;

    if s.len() == 0 || le(s.last(), x) {
    } else {
        let d = s.drop_last();
        lemma_insert_sorted_multiset(d, x, le);
        assert(s =~= d.push(s.last()));
        assert(d.push(s.last()).to_multiset() =~= d.to_multiset().insert(s.last()));
    }
}

/// A stable sort holds the same elements, each as often, as its input.
pub proof fn lemma_stable_sort_multiset<V>(s: Seq<V>, le: spec_fn(V, V) -> bool)
    ensures
        stable_sort(s, le).to_multiset() =~= s.to_multiset(),
    decreases s.len(),
{
    broadcast use vstd::seq_lib::to_multiset_build;

    if s.len() > 0 {
        let d = s.drop_last();
        lemma_stable_sort_multiset(d, le);
        lemma_insert_sorted_multiset(stable_sort(d, le), s.last(), le);
        assert(s =~= d.push(s.last()));
        assert(d.push(s.last()).to_multiset() =~= d.to_multiset().insert(s.last()));
    }
}

/// A stable sort under a total preorder is sorted, as long as its input,
/// and made of its elements.
pub proof fn lemma_stable_sort_sorted<V>(s: Seq<V>, le: spec_fn(V, V) -> bool)
    requires
        forall|a: V, b: V| #[trigger] le(a, b) || le(b, a),
        forall|a: V, b: V, c: V| #[trigger] le(a, b) && #[trigger] le(b, c) ==> le(a, c),
    ensures
        forall|i: int, j: int|
            0 <= i < j < stable_sort(s, le).len() ==> le(stable_sort(s, le)[i], stable_sort(s, le)[j]),
        stable_sort(s, le).len() == s.len(),
        forall|i: int| 0 <= i < s.len() ==> s.contains(#[trigger] stable_sort(s, le)[i]),
    decreases s.len(),
{
    if s.len() > 0 {
        lemma_stable_sort_sorted(s.drop_last(), le);
        let t = stable_sort(s.drop_last(), le);
        lemma_insert_sorted_sorted(t, s.last(), le);
        let r = insert_sorted(t, s.last(), le);
        assert forall|i: int| 0 <= i < s.len() implies s.contains(#[trigger] r[i]) by {
            if r[i] == s.last() {
                assert(s[s.len() - 1] == r[i]);
            } else {
                assert(t.contains(r[i]));
                let k = choose|k: int| 0 <= k < t.len() && t[k] == r[i];
                assert(s.drop_last().contains(t[k]));
                let m = choose|m: int| 0 <= m < s.drop_last().len() && s.drop_last()[m] == t[k];
                assert(s[m] == r[i]);
            }
        }
    }
}

proof fn lemma_insert_sorted_keeps<V>(s: Seq<V>, x: V, le: spec_fn(V, V) -> bool)
    ensures
        insert_sorted(s, x, le).contains(x),
        forall|i: int| 0 <= i < s.len() ==> insert_sorted(s, x, le).contains(#[trigger] s[i]),
    decreases s.len(),
{
    let r = insert_sorted(s, x, le);
    if s.len() == 0 || le(s.last(), x) {
        assert(r[s.len() as int] == x);
        assert forall|i: int| 0 <= i < s.len() implies r.contains(#[trigger] s[i]) by {
            assert(r[i] == s[i]);
        }
    } else {
        let d = s.drop_last();
        lemma_insert_sorted_keeps(d, x, le);
        let rd = insert_sorted(d, x, le);
        assert(r == rd.push(s.last()));
        let w = choose|w: int| 0 <= w < rd.len() && rd[w] == x;
        assert(r[w] == x);
        assert forall|i: int| 0 <= i < s.len() implies r.contains(#[trigger] s[i]) by {
            if i == s.len() - 1 {
                assert(r[rd.len() as int] == s[i]);
            } else {
                assert(d[i] == s[i]);
                assert(rd.contains(d[i]));
                let v = choose|v: int| 0 <= v < rd.len() && rd[v] == d[i];
                assert(r[v] == s[i]);
            }
        }
    }
}

/// A stable sort keeps every element of its input.
pub proof fn lemma_stable_sort_permutes<V>(s: Seq<V>, le: spec_fn(V, V) -> bool)
    ensures
        forall|i: int| 0 <= i < s.len() ==> stable_sort(s, le).contains(#[trigger] s[i]),
    decreases s.len(),
{
    if s.len() > 0 {
        let d = s.drop_last();
        lemma_stable_sort_permutes(d, le);
        let t = stable_sort(d, le);
        lemma_insert_sorted_keeps(t, s.last(), le);
        let r = stable_sort(s, le);
        assert forall|i: int| 0 <= i < s.len() implies r.contains(#[trigger] s[i]) by {
            if i < s.len() - 1 {
                assert(d[i] == s[i]);
                assert(t.contains(d[i]));
                let v = choose|v: int| 0 <= v < t.len() && t[v] == d[i];
                assert(r.contains(t[v]));
            }
        }
    }
}

/// Sorting commutes with a map that carries one order onto the other.
pub proof fn lemma_stable_sort_map<T, V>(
    s: Seq<T>,
    le_t: spec_fn(T, T) -> bool,
    f: spec_fn(T) -> V,
    le_v: spec_fn(V, V) -> bool,
)
    requires
        forall|a: T, b: T| #[trigger] le_t(a, b) == le_v(f(a), f(b)),
    ensures
        stable_sort(s, le_t).map_values(f) == stable_sort(s.map_values(f), le_v),
    decreases s.len(),
{
    if s.len() > 0 {
        lemma_stable_sort_map(s.drop_last(), le_t, f, le_v);
        assert(s.map_values(f).drop_last() =~= s.drop_last().map_values(f));
        lemma_insert_sorted_map(stable_sort(s.drop_last(), le_t), s.last(), le_t, f, le_v);
    }
}

proof fn lemma_insert_sorted_map<T, V>(
    s: Seq<T>,
    x: T,
    le_t: spec_fn(T, T) -> bool,
    f: spec_fn(T) -> V,
    le_v: spec_fn(V, V) -> bool,
)
    requires
        forall|a: T, b: T| #[trigger] le_t(a, b) == le_v(f(a), f(b)),
    ensures
        insert_sorted(s, x, le_t).map_values(f) == insert_sorted(s.map_values(f), f(x), le_v),
    decreases s.len(),
{
    if s.len() == 0 || le_t(s.last(), x) {
        assert(s.push(x).map_values(f) =~= s.map_values(f).push(f(x)));
    } else {
        lemma_insert_sorted_map(s.drop_last(), x, le_t, f, le_v);
        assert(s.map_values(f).drop_last() =~= s.drop_last().map_values(f));
        assert(insert_sorted(s.drop_last(), x, le_t).push(s.last()).map_values(f)
            =~= insert_sorted(s.drop_last(), x, le_t).map_values(f).push(f(s.last())));
    }
}

/// A finding that has a place in a file.
pub trait Located {
    spec fn loc_path(&self) -> Seq<char>;

    spec fn loc_line(&self) -> int;

    fn location(&self) -> (r: (&str, usize))
        ensures
            r.0@ == self.loc_path(),
            r.1 == self.loc_line(),
    ;
}

/// The order of findings by location.
pub open spec fn located_le<T: Located>() -> spec_fn(T, T) -> bool {
    |a: T, b: T| location_le(a.loc_path(), a.loc_line(), b.loc_path(), b.loc_line())
}

fn chars_le_exec(a: &Vec<char>, b: &Vec<char>) -> (r: bool)
    ensures
        r == chars_le(a@, b@),
{
    let mut i: usize = 0;
    assert(a@.skip(0) =~= a@);
    assert(b@.skip(0) =~= b@);
    while i < a.len() && i < b.len() && a[i] == b[i]
        invariant
            i <= a.len(),
            i <= b.len(),
            chars_le(a@, b@) == chars_le(a@.skip(i as int), b@.skip(i as int)),
        decreases a.len() - i,
    {
        assert(a@.skip(i as int).drop_first() =~= a@.skip(i + 1));
        assert(b@.skip(i as int).drop_first() =~= b@.skip(i + 1));
        i += 1;
    }
    if i == a.len() {
        true
    } else if i == b.len() {
        false
    } else {
        a[i] < b[i]
    }
}

/// Whether `a` sorts no later than `b`.
pub fn location_le_exec<T: Located>(a: &T, b: &T) -> (r: bool)
    ensures
        r == location_le(a.loc_path(), a.loc_line(), b.loc_path(), b.loc_line()),
{
    let (pa, la) = a.location();
    let (pb, lb) = b.location();
    let ca = chars_of(pa);
    let cb = chars_of(pb);
    if chars_eq(&ca, &cb) {
        la <= lb
    } else {
        chars_le_exec(&ca, &cb)
    }
}

/// Sorts findings by location (path, then line), keeping the relative order
/// of findings at the same location.
pub fn sort_by_location<T: Located>(items: Vec<T>) -> (out: Vec<T>)
    ensures
        out@ == stable_sort(items@, located_le::<T>()),
        out@.to_multiset() == items@.to_multiset(),
        sorted_by(out@, located_le::<T>()),
{
    broadcast use vstd::seq_lib::group_to_multiset_ensures;

    let mut rest = items;
    let mut out: Vec<T> = Vec::new();
    let ghost whole = rest@;
    assert(whole.skip(0) =~= whole);
    let ghost mut taken: int = 0;
    while rest.len() > 0
        invariant
            0 <= taken <= whole.len(),
            rest@ == whole.skip(taken),
            out@ == stable_sort(whole.take(taken), located_le::<T>()),
            out@.to_multiset() == whole.take(taken).to_multiset(),
            sorted_by(out@, located_le::<T>()),
        decreases rest.len(),
    {
        let x = rest.remove(0);
        proof {
            assert(rest@ =~= whole.skip(taken + 1));
            assert(whole.take(taken + 1) =~= whole.take(taken).push(x));
        }
        let mut j = out.len();
        while j > 0 && !location_le_exec(&out[j - 1], &x)
            invariant
                j <= out.len(),
                sorted_by(out@, located_le::<T>()),
                out@ == stable_sort(whole.take(taken), located_le::<T>()),
                forall|k: int|
                    j <= k < out.len() ==> !location_le(
                        out@[k].loc_path(),
                        out@[k].loc_line(),
                        x.loc_path(),
                        x.loc_line(),
                    ),
            decreases j,
        {
            j -= 1;
        }
        let ghost before = out@;
        proof {
            assert forall|k: int| 0 <= k < j implies location_le(
                before[k].loc_path(),
                before[k].loc_line(),
                x.loc_path(),
                x.loc_line(),
            ) by {
                if k < j - 1 {
                    assert(located_le::<T>()(before[k], before[j - 1]));
                    lemma_location_le_transitive(
                        before[k].loc_path(),
                        before[k].loc_line(),
                        before[j - 1].loc_path(),
                        before[j - 1].loc_line(),
                        x.loc_path(),
                        x.loc_line(),
                    );
                }
            }
            assert forall|k: int| j <= k < before.len() implies location_le(
                x.loc_path(),
                x.loc_line(),
                before[k].loc_path(),
                before[k].loc_line(),
            ) by {
                lemma_location_le_total(
                    x.loc_path(),
                    x.loc_line(),
                    before[k].loc_path(),
                    before[k].loc_line(),
                );
            }
        }
        out.insert(j, x);
        proof {
            let after = out@;
            lemma_insert_at_scan(before, x, located_le::<T>(), j as int);
            assert(whole.take(taken + 1).drop_last() =~= whole.take(taken));
            assert(after == before.insert(j as int, x));
            vstd::seq_lib::to_multiset_insert(before, j as int, x);
            vstd::seq_lib::to_multiset_build(whole.take(taken), x);
            assert(after.to_multiset() == whole.take(taken + 1).to_multiset());
            assert forall|a: int, b: int| 0 <= a < b < after.len() implies #[trigger] located_le::<
                T,
            >()(after[a], after[b]) by {
                if b < j {
                    assert(after[a] == before[a] && after[b] == before[b]);
                } else if a > j {
                    assert(after[a] == before[a - 1] && after[b] == before[b - 1]);
                } else if a == j {
                    assert(after[b] == before[b - 1]);
                } else if b == j {
                    assert(after[a] == before[a]);
                } else {
                    assert(after[a] == before[a] && after[b] == before[b - 1]);
                }
            }
            taken = taken + 1;
        }
    }
    proof {
        assert(whole.take(taken) =~= whole);
    }
    out
}

/// A permutation keeps the set of mapped values, and keeps them distinct.
pub proof fn lemma_permutation_map<T, V>(a: Seq<T>, b: Seq<T>, f: spec_fn(T) -> V)
    requires
        a.to_multiset() == b.to_multiset(),
        a.map_values(f).no_duplicates(),
    ensures
        b.map_values(f).to_set() == a.map_values(f).to_set(),
        b.map_values(f).no_duplicates(),
        b.len() == a.len(),
{
    assert(a.to_set() =~= b.to_set()) by {
        assert forall|x: T| a.to_set().contains(x) <==> b.to_set().contains(x) by {
            vstd::seq_lib::to_multiset_contains(a, x);
            vstd::seq_lib::to_multiset_contains(b, x);
        }
    }
    a.lemma_to_set_map_commutes(f);
    b.lemma_to_set_map_commutes(f);
    vstd::seq_lib::to_multiset_len(a);
    vstd::seq_lib::to_multiset_len(b);
    a.map_values(f).unique_seq_to_set();
    b.map_values(f).lemma_no_dup_set_cardinality();
}

/// What a pushed sequence contains.
pub proof fn lemma_push_contains<A>(s: Seq<A>, x: A)
    ensures
        forall|q: A| s.push(x).contains(q) <==> (s.contains(q) || q == x),
{
    assert forall|q: A| s.push(x).contains(q) <==> (s.contains(q) || q == x) by {
        if s.contains(q) {
            let k = choose|k: int| 0 <= k < s.len() && s[k] == q;
            assert(s.push(x)[k] == q);
        }
        if q == x {
            assert(s.push(x)[s.len() as int] == q);
        }
        if s.push(x).contains(q) && q != x {
            let k = choose|k: int| 0 <= k < s.len() + 1 && s.push(x)[k] == q;
            assert(s[k] == q);
        }
    }
}

impl Located for String {
    open spec fn loc_path(&self) -> Seq<char> {
        self@
    }

    open spec fn loc_line(&self) -> int {
        0
    }

    fn location(&self) -> (r: (&str, usize)) {
        (self.as_str(), 0)
    }
}

} // verus!
