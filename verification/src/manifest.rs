//! The entry points that a `package.json` names: its `main` and `module`
//! fields, its `bin` field (one path, or one per command) and every path
//! under its `exports` field, however deeply nested.

use vstd::prelude::*;

use crate::parser::strings_view;
use crate::text::{str_eq, to_string};

verus! {

/// A JSON value, as far as a manifest's entry points go: strings and
/// objects; anything else is `Other`.
pub enum JsonValue {
    Str(String),
    Object(Vec<(String, JsonValue)>),
    Other,
}

/// The value of the last of the first `k` entries whose key is `key`.
pub open spec fn entry_value(es: Seq<(String, JsonValue)>, key: Seq<char>, k: int) -> Option<JsonValue>
    decreases k,
{
    if k <= 0 || k > es.len() {
        None
    } else if es[k - 1].0@ == key {
        Some(es[k - 1].1)
    } else {
        entry_value(es, key, k - 1)
    }
}

/// The member `key` of an object (the last one, should the key repeat).
pub open spec fn member(v: JsonValue, key: Seq<char>) -> Option<JsonValue> {
    match v {
        JsonValue::Object(es) => entry_value(es@, key, es@.len() as int),
        _ => None,
    }
}

/// The member `key` when it is a string.
pub open spec fn string_member(v: JsonValue, key: Seq<char>) -> Seq<Seq<char>> {
    match member(v, key) {
        Some(JsonValue::Str(s)) => seq![s@],
        _ => Seq::empty(),
    }
}

/// The string values of the first `k` entries of an object.
pub open spec fn string_values(es: Seq<(String, JsonValue)>, k: int) -> Seq<Seq<char>>
    decreases k,
{
    if k <= 0 || k > es.len() {
        Seq::empty()
    } else {
        string_values(es, k - 1) + match es[k - 1].1 {
            JsonValue::Str(s) => seq![s@],
            _ => Seq::empty(),
        }
    }
}

/// The paths of a `bin` field: the string itself, or each string value of
/// the object.
pub open spec fn bin_paths(v: Option<JsonValue>) -> Seq<Seq<char>> {
    match v {
        Some(JsonValue::Str(s)) => seq![s@],
        Some(JsonValue::Object(es)) => string_values(es@, es@.len() as int),
        _ => Seq::empty(),
    }
}

/// Every string in a value, objects searched depth first in order.
pub open spec fn nested_strings(v: JsonValue) -> Seq<Seq<char>>
    decreases v, 0int,
{
    match v {
        JsonValue::Str(s) => seq![s@],
        JsonValue::Object(es) => nested_in(es@, es@.len() as int),
        JsonValue::Other => Seq::empty(),
    }
}

/// Every string in the values of the first `k` entries.
pub open spec fn nested_in(es: Seq<(String, JsonValue)>, k: int) -> Seq<Seq<char>>
    decreases es, k,
{
    if k <= 0 || k > es.len() {
        Seq::empty()
    } else {
        nested_in(es, k - 1) + nested_strings(es[k - 1].1)
    }
}

/// The entry paths a manifest names, in the order `main`, `module`, `bin`,
/// `exports`.
pub open spec fn manifest_paths(pkg: JsonValue) -> Seq<Seq<char>> {
    string_member(pkg, "main"@) + string_member(pkg, "module"@) + bin_paths(member(pkg, "bin"@)) + match member(
        pkg,
        "exports"@,
    ) {
        Some(v) => nested_strings(v),
        None => Seq::empty(),
    }
}

fn lookup<'a>(es: &'a Vec<(String, JsonValue)>, key: &str) -> (r: Option<&'a JsonValue>)
    ensures
        match r {
            Some(v) => entry_value(es@, key@, es@.len() as int) == Some(*v),
            None => entry_value(es@, key@, es@.len() as int) is None,
        },
{
    let mut k: usize = es.len();
    while k > 0
        invariant
            k <= es@.len(),
            entry_value(es@, key@, es@.len() as int) == entry_value(es@, key@, k as int),
        decreases k,
    {
        if str_eq(es[k - 1].0.as_str(), key) {
            return Some(&es[k - 1].1);
        }
        k -= 1;
    }
    None
}

fn member_of<'a>(v: &'a JsonValue, key: &str) -> (r: Option<&'a JsonValue>)
    ensures
        match r {
            Some(m) => member(*v, key@) == Some(*m),
            None => member(*v, key@) is None,
        },
{
    match v {
        JsonValue::Object(es) => lookup(es, key),
        _ => None,
    }
}

fn push_string_member(v: &JsonValue, key: &str, out: &mut Vec<String>)
    ensures
        strings_view(final(out)@) == strings_view(old(out)@) + string_member(*v, key@),
{
    let ghost before = strings_view(out@);
    match member_of(v, key) {
        Some(JsonValue::Str(s)) => {
            out.push(to_string(s.as_str()));
            assert(strings_view(out@) =~= before + seq![s@]);
        },
        _ => {
            assert(strings_view(out@) =~= before + Seq::<Seq<char>>::empty());
        },
    }
}

fn push_bin_paths(v: Option<&JsonValue>, out: &mut Vec<String>)
    ensures
        strings_view(final(out)@) == strings_view(old(out)@) + bin_paths(
            match v {
                Some(b) => Some(*b),
                None => None,
            },
        ),
{
    let ghost before = strings_view(out@);
    match v {
        Some(JsonValue::Str(s)) => {
            out.push(to_string(s.as_str()));
            assert(strings_view(out@) =~= before + seq![s@]);
        },
        Some(JsonValue::Object(es)) => {
            let mut k: usize = 0;
            while k < es.len()
                invariant
                    k <= es@.len(),
                    strings_view(out@) == before + string_values(es@, k as int),
                decreases es.len() - k,
            {
                let ghost mid = strings_view(out@);
                match &es[k].1 {
                    JsonValue::Str(s) => {
                        out.push(to_string(s.as_str()));
                        assert(strings_view(out@) =~= mid.push(s@));
                    },
                    _ => {},
                }
                assert(strings_view(out@) =~= before + string_values(es@, k + 1));
                k += 1;
            }
        },
        _ => {
            assert(strings_view(out@) =~= before + Seq::<Seq<char>>::empty());
        },
    }
}

fn push_nested(v: &JsonValue, out: &mut Vec<String>)
    ensures
        strings_view(final(out)@) == strings_view(old(out)@) + nested_strings(*v),
    decreases v,
{
    let ghost before = strings_view(out@);
    match v {
        JsonValue::Str(s) => {
            out.push(to_string(s.as_str()));
            assert(strings_view(out@) =~= before + seq![s@]);
        },
        JsonValue::Object(es) => {
            let mut k: usize = 0;
            while k < es.len()
                invariant
                    k <= es@.len(),
                    *v == JsonValue::Object(*es),
                    strings_view(out@) == before + nested_in(es@, k as int),
                decreases es.len() - k,
            {
                proof {
                    assert(decreases_to!(*v => (*v)->Object_0));
                    assert((*v)->Object_0 == *es);
                    assert(decreases_to!(*es => es@));
                    assert(decreases_to!(es@ => es@[k as int]));
                    assert(decreases_to!(es@[k as int] => es@[k as int].1));
                }
                push_nested(&es[k].1, out);
                assert(strings_view(out@) =~= before + nested_in(es@, k + 1));
                k += 1;
            }
        },
        JsonValue::Other => {
            assert(strings_view(out@) =~= before + Seq::<Seq<char>>::empty());
        },
    }
}

/// The entry paths that a manifest names, as written in it: `main`,
/// `module`, the `bin` path or each `bin` command's path, then every string
/// under `exports`, in that order.
pub fn manifest_entry_paths(pkg: &JsonValue) -> (out: Vec<String>)
    ensures
        strings_view(out@) == manifest_paths(*pkg),
{
    let mut out: Vec<String> = Vec::new();
    push_string_member(pkg, "main", &mut out);
    push_string_member(pkg, "module", &mut out);
    push_bin_paths(member_of(pkg, "bin"), &mut out);
    let ghost before = strings_view(out@);
    match member_of(pkg, "exports") {
        Some(e) => push_nested(e, &mut out),
        None => {
            assert(strings_view(out@) =~= before + Seq::<Seq<char>>::empty());
        },
    }
    assert(strings_view(out@) =~= manifest_paths(*pkg));
    out
}

} // verus!
