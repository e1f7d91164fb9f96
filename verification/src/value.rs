//! The context value tree: a closed tagged union mirroring JSON, with objects
//! as ordered key/value pair lists and numbers carried as their canonical
//! decimal text (produced where the context is parsed).

use vstd::prelude::*;
use vstd::string::StrSliceExecFns;

use crate::text::str_eq;

verus! {

/// One value of the hierarchical context.
pub enum JsonValue {
    Null,
    Bool(bool),
    /// A number, held as its canonical textual rendering.
    Num(String),
    Str(String),
    Arr(Vec<JsonValue>),
    Obj(Vec<(String, JsonValue)>),
}

/// The value under the first entry of `es` whose key reads `key`, if any.
pub open spec fn obj_lookup(es: Seq<(String, JsonValue)>, key: Seq<char>) -> Option<JsonValue>
    decreases es.len(),
{
    if es.len() == 0 {
        None
    } else if es[0].0@ == key {
        Some(es[0].1)
    } else {
        obj_lookup(es.skip(1), key)
    }
}

/// Key lookup on a value: only objects hold keys.
pub open spec fn top_lookup(v: JsonValue, key: Seq<char>) -> Option<JsonValue> {
    match v {
        JsonValue::Obj(es) => obj_lookup(es@, key),
        _ => None,
    }
}

/// Walks `path` from `v`, segment by segment; fails the first time a segment
/// is absent or the current value is not an object.
pub open spec fn walk_spec(v: JsonValue, path: Seq<Seq<char>>) -> Option<JsonValue>
    decreases path.len(),
{
    if path.len() == 0 {
        Some(v)
    } else {
        match top_lookup(v, path[0]) {
            Some(w) => walk_spec(w, path.skip(1)),
            None => None,
        }
    }
}

/// The canonical text of a boolean.
pub open spec fn bool_text(b: bool) -> Seq<char> {
    if b {
        seq!['t', 'r', 'u', 'e']
    } else {
        seq!['f', 'a', 'l', 's', 'e']
    }
}

/// How one resolution attempt ends: a substitutable text, a missing or null
/// value, or a leaf whose type cannot be rendered.
pub enum Resolution {
    Text(Seq<char>),
    Missing,
    Unrenderable,
}

/// The terminal rendering of a leaf value: strings, numbers and booleans have
/// a canonical text; null is treated as missing; containers cannot be rendered.
pub open spec fn leaf_resolution(v: JsonValue) -> Resolution {
    match v {
        JsonValue::Str(s) => Resolution::Text(s@),
        JsonValue::Num(t) => Resolution::Text(t@),
        JsonValue::Bool(b) => Resolution::Text(bool_text(b)),
        JsonValue::Null => Resolution::Missing,
        JsonValue::Arr(_) => Resolution::Unrenderable,
        JsonValue::Obj(_) => Resolution::Unrenderable,
    }
}

/// What the path names in the context, rendered as a terminal text when the
/// leaf supports it.
pub open spec fn resolve_path(ctx: JsonValue, path: Seq<Seq<char>>) -> Resolution {
    match walk_spec(ctx, path) {
        Some(v) => leaf_resolution(v),
        None => Resolution::Missing,
    }
}

pub proof fn lemma_obj_lookup_none(es: Seq<(String, JsonValue)>, key: Seq<char>)
    requires
        forall|j: int| 0 <= j < es.len() ==> es[j].0@ != key,
    ensures
        obj_lookup(es, key) is None,
    decreases es.len(),
{
    if es.len() > 0 {
        lemma_obj_lookup_none(es.skip(1), key);
    }
}

pub proof fn lemma_obj_lookup_found(es: Seq<(String, JsonValue)>, key: Seq<char>, i: int)
    requires
        0 <= i < es.len(),
        es[i].0@ == key,
        forall|j: int| 0 <= j < i ==> es[j].0@ != key,
    ensures
        obj_lookup(es, key) == Some(es[i].1),
    decreases i,
{
    if i > 0 {
        assert forall|j: int| 0 <= j < i - 1 implies es.skip(1)[j].0@ != key by {
            assert(es.skip(1)[j] == es[j + 1]);
        }
        lemma_obj_lookup_found(es.skip(1), key, i - 1);
    }
}

/// Looks `key` up in an entry list, returning the value of the first entry
/// whose key reads `key`.
pub fn entries_get<'a>(entries: &'a Vec<(String, JsonValue)>, key: &str) -> (r: Option<
    &'a JsonValue,
>)
    ensures
        match r {
            Some(w) => obj_lookup(entries@, key@) == Some(*w),
            None => obj_lookup(entries@, key@) is None,
        },
{
    let n = entries.len();
    let mut i: usize = 0;
    while i < n
        invariant
            n == entries@.len(),
            0 <= i <= n,
            forall|j: int| 0 <= j < i ==> entries@[j].0@ != key@,
        decreases n - i,
    {
        if str_eq(entries[i].0.as_str(), key) {
            proof {
                lemma_obj_lookup_found(entries@, key@, i as int);
            }
            return Some(&entries[i].1);
        }
        i += 1;
    }
    proof {
        lemma_obj_lookup_none(entries@, key@);
    }
    None
}

/// Looks `key` up in `v`; `None` when `v` is not an object or has no such key.
pub fn get_key<'a>(v: &'a JsonValue, key: &str) -> (r: Option<&'a JsonValue>)
    ensures
        match r {
            Some(w) => top_lookup(*v, key@) == Some(*w),
            None => top_lookup(*v, key@) is None,
        },
{
    match v {
        JsonValue::Obj(entries) => entries_get(entries, key),
        _ => None,
    }
}

/// Walks the dotted path from `v`, starting at segment `from`, returning the
/// value the remaining path names, if any.
pub fn walk<'a>(v: &'a JsonValue, path: &Vec<String>, from: usize) -> (r: Option<&'a JsonValue>)
    requires
        from <= path@.len(),
    ensures
        match r {
            Some(w) => walk_spec(*v, path.deep_view().skip(from as int)) == Some(*w),
            None => walk_spec(*v, path.deep_view().skip(from as int)) is None,
        },
{
    let ghost p = path.deep_view().skip(from as int);
    let mut cur: &'a JsonValue = v;
    let n = path.len();
    let mut k: usize = from;
    proof {
        assert(p.skip(0) =~= p);
    }
    while k < n
        invariant
            n == path@.len(),
            from <= k <= n,
            p == path.deep_view().skip(from as int),
            walk_spec(*v, p) == walk_spec(*cur, p.skip(k - from)),
        decreases n - k,
    {
        proof {
            assert(p[k - from] == path@[k as int]@);
        }
        match get_key(cur, path[k].as_str()) {
            Some(w) => {
                proof {
                    assert(p.skip(k - from).skip(1) =~= p.skip(k + 1 - from));
                }
                cur = w;
            },
            None => {
                return None;
            },
        }
        k += 1;
    }
    proof {
        assert(p.skip(n - from).len() == 0);
    }
    Some(cur)
}

/// The canonical text of a boolean, as a string.
pub fn bool_str(b: bool) -> (r: &'static str)
    ensures
        r@ == bool_text(b),
{
    proof {
        reveal_strlit("true");
        reveal_strlit("false");
        assert("true"@ =~= bool_text(true));
        assert("false"@ =~= bool_text(false));
    }
    if b {
        "true"
    } else {
        "false"
    }
}

} // verus!
