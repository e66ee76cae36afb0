//! Configuration layers as JSON: parsing a configuration file's text,
//! merging the layers (defaults, file, programmatic overrides) and taking the
//! exclude patterns out of the file layer.
use vstd::prelude::*;
use crate::text::{chars_of, string_of};
use crate::ops::clone_string;

verus! {

/// A JSON value. An object keeps its entries in order.
#[derive(Debug)]
pub enum JsonValue {
    Null,
    Bool(bool),
    Number(String),
    Str(String),
    Array(Vec<JsonValue>),
    Object(Vec<(String, JsonValue)>),
}

#[verifier::external_type_specification]
#[verifier::external_body]
pub struct ExJsonValue(serde_json::Value);

/// What `serde_json::from_str` parses from `text` as a `Value`, in the
/// library's model (numbers by their `Display` text, object entries in the
/// map's order); `None` where it fails.
pub uninterp spec fn json_of(text: Seq<char>) -> Option<JsonView>;

/// `serde_json::from_str` into a `Value`, converted variant for variant into
/// a `JsonValue`; `None` where parsing fails. The result is named `json_of`.
#[verifier::external_body]
fn json_from_str(text: &str) -> (r: Option<JsonValue>)
    ensures
        match r {
            Some(v) => json_of(text@) == Some(jview(v)),
            None => json_of(text@) is None,
        },
{
    match serde_json::from_str::<serde_json::Value>(text) {
        Ok(v) => Some(json_tree(&v)),
        Err(_) => None,
    }
}

/// A `serde_json::Value` as a `JsonValue`, variant for variant: a number by
/// its `Display` text, an object's entries in the map's order. It serves
/// `json_from_str`, whose contract names the result.
#[verifier::external_body]
fn json_tree(v: &serde_json::Value) -> JsonValue {
    match v {
        serde_json::Value::Null => JsonValue::Null,
        serde_json::Value::Bool(b) => JsonValue::Bool(*b),
        serde_json::Value::Number(n) => JsonValue::Number(n.to_string()),
        serde_json::Value::String(t) => JsonValue::Str(t.clone()),
        serde_json::Value::Array(a) => JsonValue::Array(a.iter().map(json_tree).collect()),
        serde_json::Value::Object(m) => JsonValue::Object(m.iter().map(|(k, x)| (k.clone(), json_tree(x))).collect()),
    }
}

/// The model of an optional value.
pub open spec fn opt_jview(o: Option<JsonValue>) -> Option<JsonView> {
    match o {
        Some(v) => Some(jview(v)),
        None => None,
    }
}

/// Parse JSON text; `None` when `serde_json` rejects it.
pub fn parse_json(text: &str) -> (r: Option<JsonValue>)
    ensures
        opt_jview(r) == json_of(text@),
{
    json_from_str(text)
}

/// The formatter's section of `package.json` text: `None` where the text is
/// not JSON or has no object under `mdx-formatter`.
pub fn package_config_of_text(text: &str) -> (r: Option<JsonValue>)
    ensures
        opt_jview(r) == (match json_of(text@) {
            Some(pkg) => package_section(pkg),
            None => None,
        }),
{
    match parse_json(text) {
        Some(pkg) => package_config(&pkg),
        None => None,
    }
}

/// The mathematical model of a JSON value.
pub enum JsonView {
    Null,
    Bool(bool),
    Number(Seq<char>),
    Str(Seq<char>),
    Array(Seq<JsonView>),
    Object(Seq<(Seq<char>, JsonView)>),
}

/// The model of a value.
pub open spec fn jview(v: JsonValue) -> JsonView
    decreases v, 1int,
{
    match v {
        JsonValue::Null => JsonView::Null,
        JsonValue::Bool(b) => JsonView::Bool(b),
        JsonValue::Number(t) => JsonView::Number(t@),
        JsonValue::Str(t) => JsonView::Str(t@),
        JsonValue::Array(items) => {
            proof {
                assert(decreases_to!(v => items));
                assert(decreases_to!(items => items@));
            }
            JsonView::Array(items_view(items@))
        },
        JsonValue::Object(m) => {
            proof {
                assert(decreases_to!(v => m));
                assert(decreases_to!(m => m@));
            }
            JsonView::Object(entries_view(m@))
        },
    }
}

/// The models of a sequence of values.
pub open spec fn items_view(s: Seq<JsonValue>) -> Seq<JsonView>
    decreases s, 0int,
{
    if s.len() == 0 {
        Seq::empty()
    } else {
        proof {
            assert(decreases_to!(s => s[s.len() - 1]));
            assert(decreases_to!(s => s.subrange(0, s.len() - 1)));
        }
        items_view(s.subrange(0, s.len() - 1)).push(jview(s[s.len() - 1]))
    }
}

/// The models of a sequence of object entries.
pub open spec fn entries_view(m: Seq<(String, JsonValue)>) -> Seq<(Seq<char>, JsonView)>
    decreases m, 0int,
{
    if m.len() == 0 {
        Seq::empty()
    } else {
        proof {
            assert(decreases_to!(m => m[m.len() - 1]));
            assert(decreases_to!(m[m.len() - 1] => m[m.len() - 1].1));
            assert(decreases_to!(m => m.subrange(0, m.len() - 1)));
        }
        entries_view(m.subrange(0, m.len() - 1)).push((m[m.len() - 1].0@, jview(m[m.len() - 1].1)))
    }
}

/// The index of the first entry with key `k` at or after `i`, if any.
pub open spec fn key_pos_from(m: Seq<(Seq<char>, JsonView)>, k: Seq<char>, i: int) -> Option<int>
    decreases m.len() - i,
{
    if i < 0 || i >= m.len() {
        None
    } else if m[i].0 == k {
        Some(i)
    } else {
        key_pos_from(m, k, i + 1)
    }
}

/// The index of the first entry with key `k`, if any.
pub open spec fn key_pos(m: Seq<(Seq<char>, JsonView)>, k: Seq<char>) -> Option<int> {
    key_pos_from(m, k, 0)
}

/// `target` deep-merged with `source`: two objects merge entry by entry (see
/// `merged_entries`); otherwise `source` wins.
pub open spec fn merged(target: JsonView, source: JsonView) -> JsonView
    decreases source, 2int, 0int,
{
    match source {
        JsonView::Object(sm) => match target {
            JsonView::Object(tm) => JsonView::Object(merged_entries(tm, source, sm.len() as int)),
            _ => source,
        },
        _ => source,
    }
}

/// The entries `tm` with the first `n` entries of the object `source`
/// inserted in turn (see `insert_entry`).
pub open spec fn merged_entries(tm: Seq<(Seq<char>, JsonView)>, source: JsonView, n: int) -> Seq<(Seq<char>, JsonView)>
    decreases source, 1int, n,
{
    match source {
        JsonView::Object(sm) => if n <= 0 || n > sm.len() {
            tm
        } else {
            proof {
                assert(decreases_to!(source => sm));
                assert(decreases_to!(sm => sm[n - 1]));
                assert(decreases_to!(sm[n - 1] => sm[n - 1].1));
            }
            insert_entry(merged_entries(tm, source, n - 1), sm[n - 1].0, sm[n - 1].1)
        },
        _ => tm,
    }
}

/// Insert an entry: where the key is present, its value becomes the merge of
/// the old value with `v` (in place); otherwise the entry is appended.
pub open spec fn insert_entry(m: Seq<(Seq<char>, JsonView)>, k: Seq<char>, v: JsonView) -> Seq<(Seq<char>, JsonView)>
    decreases v, 3int, 0int,
{
    match key_pos(m, k) {
        Some(i) => if 0 <= i < m.len() { m.update(i, (k, merged(m[i].1, v))) } else { m },
        None => m.push((k, v)),
    }
}

// ---------------------------------------------------------------------------
// Facts about the models
// ---------------------------------------------------------------------------

pub proof fn lemma_items_view(s: Seq<JsonValue>)
    ensures
        items_view(s).len() == s.len(),
        forall|i: int| 0 <= i < s.len() ==> #[trigger] items_view(s)[i] == jview(s[i]),
    decreases s.len(),
{
    if s.len() > 0 {
        lemma_items_view(s.subrange(0, s.len() - 1));
    }
}

pub proof fn lemma_entries_view(m: Seq<(String, JsonValue)>)
    ensures
        entries_view(m).len() == m.len(),
        forall|i: int| 0 <= i < m.len() ==> #[trigger] entries_view(m)[i] == (m[i].0@, jview(m[i].1)),
    decreases m.len(),
{
    if m.len() > 0 {
        lemma_entries_view(m.subrange(0, m.len() - 1));
    }
}

/// Two entry sequences with equal models entry by entry have equal models.
pub proof fn lemma_entries_view_ext(a: Seq<(String, JsonValue)>, b: Seq<(Seq<char>, JsonView)>)
    requires
        a.len() == b.len(),
        forall|i: int| 0 <= i < a.len() ==> (a[i].0@, jview(a[i].1)) == #[trigger] b[i],
    ensures
        entries_view(a) == b,
{
    lemma_entries_view(a);
    assert(entries_view(a) =~= b);
}

pub proof fn lemma_items_view_ext(a: Seq<JsonValue>, b: Seq<JsonView>)
    requires
        a.len() == b.len(),
        forall|i: int| 0 <= i < a.len() ==> jview(a[i]) == #[trigger] b[i],
    ensures
        items_view(a) == b,
{
    lemma_items_view(a);
    assert(items_view(a) =~= b);
}

proof fn lemma_key_pos_from(m: Seq<(Seq<char>, JsonView)>, k: Seq<char>, i: int)
    requires
        0 <= i <= m.len(),
    ensures
        match key_pos_from(m, k, i) {
            Some(j) => i <= j < m.len() && m[j].0 == k && forall|x: int| i <= x < j ==> m[x].0 != k,
            None => forall|x: int| i <= x < m.len() ==> m[x].0 != k,
        },
    decreases m.len() - i,
{
    if i < m.len() && m[i].0 != k {
        lemma_key_pos_from(m, k, i + 1);
    }
}

/// `key_pos` finds the first entry with the key.
pub proof fn lemma_key_pos(m: Seq<(Seq<char>, JsonView)>, k: Seq<char>)
    ensures
        match key_pos(m, k) {
            Some(j) => 0 <= j < m.len() && m[j].0 == k && forall|x: int| 0 <= x < j ==> m[x].0 != k,
            None => forall|x: int| 0 <= x < m.len() ==> m[x].0 != k,
        },
{
    lemma_key_pos_from(m, k, 0);
}

// ---------------------------------------------------------------------------
// Executable operations
// ---------------------------------------------------------------------------

/// A copy of a value.
pub fn clone_json(v: &JsonValue) -> (r: JsonValue)
    ensures
        jview(r) == jview(*v),
    decreases v,
{
    match v {
        JsonValue::Null => JsonValue::Null,
        JsonValue::Bool(b) => JsonValue::Bool(*b),
        JsonValue::Number(t) => JsonValue::Number(clone_string(t)),
        JsonValue::Str(t) => JsonValue::Str(clone_string(t)),
        JsonValue::Array(items) => {
            let mut out: Vec<JsonValue> = Vec::new();
            let mut i: usize = 0;
            while i < items.len()
                invariant
                    i <= items.len(),
                    *v == JsonValue::Array(*items),
                    out.len() == i,
                    forall|j: int| 0 <= j < i ==> jview(#[trigger] out@[j]) == jview(items@[j]),
                decreases items.len() - i,
            {
                assert(decreases_to!(*v => v->Array_0));
                assert(decreases_to!(v->Array_0 => v->Array_0@));
                assert(decreases_to!(v->Array_0@ => v->Array_0@[i as int]));
                let x = clone_json(&items[i]);
                out.push(x);
                i += 1;
            }
            proof {
                lemma_items_view(items@);
                lemma_items_view_ext(out@, items_view(items@));
            }
            JsonValue::Array(out)
        },
        JsonValue::Object(m) => {
            let mut out: Vec<(String, JsonValue)> = Vec::new();
            let mut i: usize = 0;
            while i < m.len()
                invariant
                    i <= m.len(),
                    *v == JsonValue::Object(*m),
                    out.len() == i,
                    forall|j: int| 0 <= j < i ==> (#[trigger] out@[j]).0@ == m@[j].0@ && jview(out@[j].1) == jview(m@[j].1),
                decreases m.len() - i,
            {
                assert(decreases_to!(*v => v->Object_0));
                assert(decreases_to!(v->Object_0 => v->Object_0@));
                assert(decreases_to!(v->Object_0@ => v->Object_0@[i as int]));
                assert(decreases_to!(v->Object_0@[i as int] => v->Object_0@[i as int].1));
                let x = clone_json(&m[i].1);
                out.push((clone_string(&m[i].0), x));
                i += 1;
            }
            proof {
                lemma_entries_view(m@);
                lemma_entries_view_ext(out@, entries_view(m@));
            }
            JsonValue::Object(out)
        },
    }
}

/// The index of the first entry with key `k`.
fn find_key(m: &Vec<(String, JsonValue)>, k: &str) -> (r: Option<usize>)
    ensures
        r is Some <==> key_pos(entries_view(m@), k@) is Some,
        r matches Some(j) ==> key_pos(entries_view(m@), k@) == Some(j as int),
{
    proof {
        lemma_entries_view(m@);
        lemma_key_pos(entries_view(m@), k@);
    }
    let kc = chars_of(k);
    let mut i: usize = 0;
    while i < m.len()
        invariant
            i <= m.len(),
            kc@ == k@,
            entries_view(m@).len() == m.len(),
            forall|j: int| 0 <= j < m.len() ==> #[trigger] entries_view(m@)[j] == (m@[j].0@, jview(m@[j].1)),
            forall|j: int| 0 <= j < i ==> m@[j].0@ != k@,
        decreases m.len() - i,
    {
        let c = chars_of(m[i].0.as_str());
        if crate::html_formatter::seq_eq(&c, &kc) {
            proof {
                lemma_key_pos(entries_view(m@), k@);
                let p = key_pos(entries_view(m@), k@);
                if p is Some {
                    assert(p->0 >= i) by {
                        if p->0 < i {
                            assert(entries_view(m@)[p->0].0 == m@[p->0].0@);
                        }
                    }
                    assert(p->0 == i) by {
                        if p->0 > i {
                            assert(entries_view(m@)[i as int].0 == k@);
                        }
                    }
                } else {
                    assert(entries_view(m@)[i as int].0 == k@);
                }
            }
            return Some(i);
        }
        i += 1;
    }
    proof {
        lemma_key_pos(entries_view(m@), k@);
        let p = key_pos(entries_view(m@), k@);
        if p is Some {
            assert(entries_view(m@)[p->0].0 == m@[p->0].0@);
        }
    }
    None
}

/// Deep-merge `source` into `target`: two objects are merged key by key,
/// recursively where both have a key, new keys appended in `source`'s order;
/// arrays and scalars in `source` replace what `target` holds.
pub fn deep_merge_json(target: &JsonValue, source: &JsonValue) -> (r: JsonValue)
    ensures
        jview(r) == merged(jview(*target), jview(*source)),
    decreases source,
{
    match source {
        JsonValue::Object(sm) => match target {
            JsonValue::Object(tm) => {
                let c = clone_json(target);
                let mut m: Vec<(String, JsonValue)> = match c {
                    JsonValue::Object(x) => x,
                    _ => Vec::new(),
                };
                assert(entries_view(m@) == entries_view(tm@));
                proof {
                    lemma_entries_view(sm@);
                }
                let mut i: usize = 0;
                while i < sm.len()
                    invariant
                        i <= sm.len(),
                        *source == JsonValue::Object(*sm),
                        *target == JsonValue::Object(*tm),
                        jview(*source) == JsonView::Object(entries_view(sm@)),
                        entries_view(sm@).len() == sm.len(),
                        forall|j: int| 0 <= j < sm.len() ==> #[trigger] entries_view(sm@)[j] == (sm@[j].0@, jview(sm@[j].1)),
                        entries_view(m@) == merged_entries(entries_view(tm@), jview(*source), i as int),
                    decreases sm.len() - i,
                {
                    let ghost old_m = m@;
                    let ghost src = jview(*source);
                    let ghost sv = entries_view(sm@);
                    proof {
                        lemma_entries_view(old_m);
                        assert(sv[i as int] == (sm@[i as int].0@, jview(sm@[i as int].1)));
                    }
                    let k = &sm[i].0;
                    let v = &sm[i].1;
                    let ks = k.as_str();
                    let fk = find_key(&m, ks);
                    match fk {
                        Some(j) => {
                            proof {
                                lemma_key_pos(entries_view(old_m), k@);
                                let p = key_pos(entries_view(old_m), k@);
                                assert(p == Some(j as int));
                            }
                            assert(decreases_to!(*source => source->Object_0));
                            assert(decreases_to!(source->Object_0 => source->Object_0@));
                            assert(decreases_to!(source->Object_0@ => source->Object_0@[i as int]));
                            assert(decreases_to!(source->Object_0@[i as int] => source->Object_0@[i as int].1));
                            let nv = deep_merge_json(&m[j].1, v);
                            let nk = clone_string(k);
                            m.set(j, (nk, nv));
                            proof {
                                let want = insert_entry(entries_view(old_m), k@, jview(*v));
                                assert(want == entries_view(old_m).update(j as int, (k@, merged(entries_view(old_m)[j as int].1, jview(*v)))));
                                lemma_entries_view_ext(m@, want);
                            }
                        },
                        None => {
                            let nv = clone_json(v);
                            let nk = clone_string(k);
                            m.push((nk, nv));
                            proof {
                                let want = insert_entry(entries_view(old_m), k@, jview(*v));
                                assert(want == entries_view(old_m).push((k@, jview(*v))));
                                lemma_entries_view_ext(m@, want);
                            }
                        },
                    }
                    assert(merged_entries(entries_view(tm@), src, i + 1) == insert_entry(
                        merged_entries(entries_view(tm@), src, i as int), sv[i as int].0, sv[i as int].1));
                    i += 1;
                }
                JsonValue::Object(m)
            },
            _ => clone_json(source),
        },
        _ => clone_json(source),
    }
}

/// Do two values have the same model?
pub fn json_eq(a: &JsonValue, b: &JsonValue) -> (r: bool)
    ensures
        r == (jview(*a) == jview(*b)),
    decreases a,
{
    match a {
        JsonValue::Null => match b {
            JsonValue::Null => true,
            _ => false,
        },
        JsonValue::Bool(x) => match b {
            JsonValue::Bool(y) => *x == *y,
            _ => false,
        },
        JsonValue::Number(x) => match b {
            JsonValue::Number(y) => crate::html_formatter::seq_eq(&chars_of(x.as_str()), &chars_of(y.as_str())),
            _ => false,
        },
        JsonValue::Str(x) => match b {
            JsonValue::Str(y) => crate::html_formatter::seq_eq(&chars_of(x.as_str()), &chars_of(y.as_str())),
            _ => false,
        },
        JsonValue::Array(xs) => match b {
            JsonValue::Array(ys) => {
                proof {
                    lemma_items_view(xs@);
                    lemma_items_view(ys@);
                }
                assert(jview(*a) == JsonView::Array(items_view(xs@)));
                assert(jview(*b) == JsonView::Array(items_view(ys@)));
                if xs.len() != ys.len() {
                    assert(items_view(xs@).len() != items_view(ys@).len());
                    return false;
                }
                let mut i: usize = 0;
                while i < xs.len()
                    invariant
                        i <= xs.len(),
                        xs.len() == ys.len(),
                        *a == JsonValue::Array(*xs),
                        jview(*a) == JsonView::Array(items_view(xs@)),
                        jview(*b) == JsonView::Array(items_view(ys@)),
                        items_view(xs@).len() == xs.len(),
                        items_view(ys@).len() == ys.len(),
                        forall|j: int| 0 <= j < xs.len() ==> #[trigger] items_view(xs@)[j] == jview(xs@[j]),
                        forall|j: int| 0 <= j < ys.len() ==> #[trigger] items_view(ys@)[j] == jview(ys@[j]),
                        forall|j: int| 0 <= j < i ==> jview(#[trigger] xs@[j]) == jview(ys@[j]),
                    decreases xs.len() - i,
                {
                    assert(decreases_to!(*a => a->Array_0));
                    assert(decreases_to!(a->Array_0 => a->Array_0@));
                    assert(decreases_to!(a->Array_0@ => a->Array_0@[i as int]));
                    if !json_eq(&xs[i], &ys[i]) {
                        assert(items_view(xs@)[i as int] != items_view(ys@)[i as int]);
                        return false;
                    }
                    i += 1;
                }
                assert(items_view(xs@) =~= items_view(ys@));
                true
            },
            _ => false,
        },
        JsonValue::Object(xs) => match b {
            JsonValue::Object(ys) => {
                proof {
                    lemma_entries_view(xs@);
                    lemma_entries_view(ys@);
                }
                assert(jview(*a) == JsonView::Object(entries_view(xs@)));
                assert(jview(*b) == JsonView::Object(entries_view(ys@)));
                if xs.len() != ys.len() {
                    assert(entries_view(xs@).len() != entries_view(ys@).len());
                    return false;
                }
                let mut i: usize = 0;
                while i < xs.len()
                    invariant
                        i <= xs.len(),
                        xs.len() == ys.len(),
                        *a == JsonValue::Object(*xs),
                        jview(*a) == JsonView::Object(entries_view(xs@)),
                        jview(*b) == JsonView::Object(entries_view(ys@)),
                        entries_view(xs@).len() == xs.len(),
                        entries_view(ys@).len() == ys.len(),
                        forall|j: int| 0 <= j < xs.len() ==> #[trigger] entries_view(xs@)[j] == (xs@[j].0@, jview(xs@[j].1)),
                        forall|j: int| 0 <= j < ys.len() ==> #[trigger] entries_view(ys@)[j] == (ys@[j].0@, jview(ys@[j].1)),
                        forall|j: int| 0 <= j < i ==> #[trigger] entries_view(xs@)[j] == entries_view(ys@)[j],
                    decreases xs.len() - i,
                {
                    assert(decreases_to!(*a => a->Object_0));
                    assert(decreases_to!(a->Object_0 => a->Object_0@));
                    assert(decreases_to!(a->Object_0@ => a->Object_0@[i as int]));
                    assert(decreases_to!(a->Object_0@[i as int] => a->Object_0@[i as int].1));
                    let same_key = crate::html_formatter::seq_eq(&chars_of(xs[i].0.as_str()), &chars_of(ys[i].0.as_str()));
                    if !same_key || !json_eq(&xs[i].1, &ys[i].1) {
                        assert(entries_view(xs@)[i as int] != entries_view(ys@)[i as int]);
                        return false;
                    }
                    i += 1;
                }
                assert(entries_view(xs@) =~= entries_view(ys@));
                true
            },
            _ => false,
        },
    }
}

// ---------------------------------------------------------------------------
// Keys, exclude patterns, layers
// ---------------------------------------------------------------------------

/// The key of the exclude patterns: `exclude`.
pub open spec fn exclude_key() -> Seq<char> {
    seq!['e', 'x', 'c', 'l', 'u', 'd', 'e']
}

/// The key of the formatter's section in `package.json`: `mdx-formatter`.
pub open spec fn package_key() -> Seq<char> {
    seq!['m', 'd', 'x', '-', 'f', 'o', 'r', 'm', 'a', 't', 't', 'e', 'r']
}

/// The value under key `k` of an object (its first entry with that key).
pub open spec fn get_key(v: JsonView, k: Seq<char>) -> Option<JsonView> {
    match v {
        JsonView::Object(m) => match key_pos(m, k) {
            Some(i) => Some(m[i].1),
            None => None,
        },
        _ => None,
    }
}

/// The value under key `k` of an object.
pub fn lookup<'a>(v: &'a JsonValue, k: &str) -> (r: Option<&'a JsonValue>)
    ensures
        match r {
            Some(x) => get_key(jview(*v), k@) == Some(jview(*x)),
            None => get_key(jview(*v), k@) is None,
        },
{
    match v {
        JsonValue::Object(m) => {
            proof {
                lemma_entries_view(m@);
            }
            match find_key(m, k) {
                Some(j) => {
                    proof {
                        lemma_key_pos(entries_view(m@), k@);
                    }
                    Some(&m[j].1)
                },
                None => None,
            }
        },
        _ => None,
    }
}

/// The strings among `items`, in order.
pub open spec fn strings_of(items: Seq<JsonView>) -> Seq<Seq<char>>
    decreases items.len(),
{
    if items.len() == 0 {
        Seq::empty()
    } else {
        strings_of(items.drop_last()) + match items.last() {
            JsonView::Str(t) => seq![t],
            _ => Seq::empty(),
        }
    }
}

/// The exclude patterns of a configuration: the strings of its `exclude`
/// array (none where it has no such array).
pub open spec fn excludes_of(fc: JsonView) -> Seq<Seq<char>> {
    match get_key(fc, exclude_key()) {
        Some(JsonView::Array(items)) => strings_of(items),
        _ => Seq::empty(),
    }
}

/// The exclude patterns of a configuration file's value.
pub fn exclude_patterns(fc: &JsonValue) -> (r: Vec<String>)
    ensures
        crate::text::sv(r@) == excludes_of(jview(*fc)),
{
    let key = string_of(&vec!['e', 'x', 'c', 'l', 'u', 'd', 'e']);
    assert(key@ =~= exclude_key());
    let mut out: Vec<String> = Vec::new();
    match lookup(fc, key.as_str()) {
        Some(JsonValue::Array(items)) => {
            proof {
                lemma_items_view(items@);
            }
            let mut i: usize = 0;
            while i < items.len()
                invariant
                    i <= items.len(),
                    items_view(items@).len() == items.len(),
                    forall|j: int| 0 <= j < items.len() ==> #[trigger] items_view(items@)[j] == jview(items@[j]),
                    crate::text::sv(out@) == strings_of(items_view(items@).take(i as int)),
                decreases items.len() - i,
            {
                let ghost prev = out@;
                let ghost iv = items_view(items@);
                assert(iv.take(i + 1).drop_last() =~= iv.take(i as int));
                match &items[i] {
                    JsonValue::Str(t) => {
                        out.push(clone_string(t));
                        assert(crate::text::sv(out@) =~= crate::text::sv(prev) + seq![t@]);
                    },
                    _ => {
                        assert(crate::text::sv(out@) =~= crate::text::sv(prev) + Seq::<Seq<char>>::empty());
                    },
                }
                i += 1;
            }
            assert(items_view(items@).take(items.len() as int) =~= items_view(items@));
        },
        _ => {
            assert(crate::text::sv(out@) =~= Seq::<Seq<char>>::empty());
        },
    }
    out
}

/// A value without the first entry under key `k` (objects only).
pub open spec fn without(v: JsonView, k: Seq<char>) -> JsonView {
    match v {
        JsonView::Object(m) => match key_pos(m, k) {
            Some(i) => JsonView::Object(m.remove(i)),
            None => v,
        },
        _ => v,
    }
}

/// A copy of a value without the entry under key `k`.
pub fn remove_key(v: &JsonValue, k: &str) -> (r: JsonValue)
    ensures
        jview(r) == without(jview(*v), k@),
{
    match v {
        JsonValue::Object(m) => {
            proof {
                lemma_entries_view(m@);
                lemma_key_pos(entries_view(m@), k@);
            }
            match find_key(m, k) {
                Some(j) => {
                    let mut out: Vec<(String, JsonValue)> = Vec::new();
                    let mut i: usize = 0;
                    while i < m.len()
                        invariant
                            i <= m.len(),
                            j < m.len(),
                            out.len() == (if i <= j { i as int } else { i - 1 }),
                            forall|x: int| 0 <= x < out.len() ==> (#[trigger] out@[x]).0@ == m@.remove(j as int)[x].0@
                                && jview(out@[x].1) == jview(m@.remove(j as int)[x].1),
                        decreases m.len() - i,
                    {
                        if i != j {
                            let x = clone_json(&m[i].1);
                            out.push((clone_string(&m[i].0), x));
                        }
                        i += 1;
                    }
                    proof {
                        let want = entries_view(m@).remove(j as int);
                        assert forall|x: int| 0 <= x < out.len() implies (#[trigger] out@[x].0@, jview(out@[x].1)) == want[x] by {
                            assert(m@.remove(j as int)[x] == m@[if x < j { x } else { x + 1 }]);
                        }
                        lemma_entries_view_ext(out@, want);
                    }
                    JsonValue::Object(out)
                },
                None => clone_json(v),
            }
        },
        _ => clone_json(v),
    }
}

/// The model of an optional value.
pub open spec fn opt_view(o: Option<&JsonValue>) -> Option<JsonView> {
    match o {
        Some(x) => Some(jview(*x)),
        None => None,
    }
}

/// The merged layers: the defaults, deep-merged with the file layer without
/// its `exclude` key, then with the programmatic overrides.
pub open spec fn layered(defaults: JsonView, file: Option<JsonView>, programmatic: Option<JsonView>) -> JsonView {
    let after_file = match file {
        Some(fc) => merged(defaults, without(fc, exclude_key())),
        None => defaults,
    };
    match programmatic {
        Some(p) => merged(after_file, p),
        None => after_file,
    }
}

/// Merge the configuration layers; also returns the file layer's exclude
/// patterns (none without a file layer).
pub fn merge_layers(defaults: &JsonValue, file: Option<&JsonValue>, programmatic: Option<&JsonValue>) -> (r: (JsonValue, Vec<String>))
    ensures
        jview(r.0) == layered(jview(*defaults), opt_view(file), opt_view(programmatic)),
        crate::text::sv(r.1@) == (match file {
            Some(fc) => excludes_of(jview(*fc)),
            None => Seq::empty(),
        }),
{
    let (after_file, excludes) = match file {
        Some(fc) => {
            let ex = exclude_patterns(fc);
            let key = string_of(&vec!['e', 'x', 'c', 'l', 'u', 'd', 'e']);
            assert(key@ =~= exclude_key());
            let stripped = remove_key(fc, key.as_str());
            (deep_merge_json(defaults, &stripped), ex)
        },
        None => {
            let ex: Vec<String> = Vec::new();
            assert(crate::text::sv(ex@) =~= Seq::<Seq<char>>::empty());
            (clone_json(defaults), ex)
        },
    };
    let fin = match programmatic {
        Some(p) => deep_merge_json(&after_file, p),
        None => after_file,
    };
    (fin, excludes)
}

/// The formatter's section of a `package.json` value: the object under
/// `mdx-formatter`, if there is one.
pub open spec fn package_section(pkg: JsonView) -> Option<JsonView> {
    match get_key(pkg, package_key()) {
        Some(c) => if c is Object { Some(c) } else { None },
        None => None,
    }
}

/// The formatter's section of a `package.json` value.
pub fn package_config(pkg: &JsonValue) -> (r: Option<JsonValue>)
    ensures
        match r {
            Some(c) => package_section(jview(*pkg)) == Some(jview(c)),
            None => package_section(jview(*pkg)) is None,
        },
{
    let key = string_of(&vec!['m', 'd', 'x', '-', 'f', 'o', 'r', 'm', 'a', 't', 't', 'e', 'r']);
    assert(key@ =~= package_key());
    match lookup(pkg, key.as_str()) {
        Some(c) => match c {
            JsonValue::Object(_) => Some(clone_json(c)),
            _ => None,
        },
        None => None,
    }
}

// ---------------------------------------------------------------------------
// Laws of the merge
// ---------------------------------------------------------------------------

proof fn lemma_key_present(m: Seq<(Seq<char>, JsonView)>, k: Seq<char>, p: int)
    requires
        0 <= p < m.len(),
        m[p].0 == k,
    ensures
        key_pos(m, k) is Some,
{
    lemma_key_pos(m, k);
}

proof fn lemma_insert_entry_keys(m: Seq<(Seq<char>, JsonView)>, k: Seq<char>, v: JsonView)
    ensures
        insert_entry(m, k, v).len() >= m.len(),
        forall|i: int| 0 <= i < m.len() ==> (#[trigger] insert_entry(m, k, v)[i]).0 == m[i].0,
        key_pos(insert_entry(m, k, v), k) is Some,
{
    lemma_key_pos(m, k);
    let r = insert_entry(m, k, v);
    match key_pos(m, k) {
        Some(i) => {
            lemma_key_present(r, k, i);
        },
        None => {
            lemma_key_present(r, k, m.len() as int);
        },
    }
}

proof fn lemma_merged_entries_keys(tm: Seq<(Seq<char>, JsonView)>, sm: Seq<(Seq<char>, JsonView)>, n: int)
    requires
        0 <= n <= sm.len(),
    ensures
        merged_entries(tm, JsonView::Object(sm), n).len() >= tm.len(),
        forall|i: int| 0 <= i < tm.len() ==> (#[trigger] merged_entries(tm, JsonView::Object(sm), n)[i]).0 == tm[i].0,
        forall|j: int| 0 <= j < n ==> key_pos(merged_entries(tm, JsonView::Object(sm), n), #[trigger] sm[j].0) is Some,
    decreases n,
{
    let s = JsonView::Object(sm);
    if n > 0 {
        lemma_merged_entries_keys(tm, sm, n - 1);
        let prev = merged_entries(tm, s, n - 1);
        let r = merged_entries(tm, s, n);
        assert(r == insert_entry(prev, sm[n - 1].0, sm[n - 1].1));
        lemma_insert_entry_keys(prev, sm[n - 1].0, sm[n - 1].1);
        assert forall|j: int| 0 <= j < n implies key_pos(r, #[trigger] sm[j].0) is Some by {
            if j < n - 1 {
                lemma_key_pos(prev, sm[j].0);
                let p = key_pos(prev, sm[j].0)->0;
                assert(r[p].0 == prev[p].0);
                lemma_key_present(r, sm[j].0, p);
            }
        }
    }
}

/// The value of the first entry with key `k`, if any.
pub open spec fn entry_value(m: Seq<(Seq<char>, JsonView)>, k: Seq<char>) -> Option<JsonView> {
    match key_pos(m, k) {
        Some(i) => Some(m[i].1),
        None => None,
    }
}

/// What a key holds after a deep merge, given what it holds in the target
/// and in the source.
pub open spec fn combined(t: Option<JsonView>, s: Option<JsonView>) -> Option<JsonView> {
    match t {
        Some(a) => match s {
            Some(b) => Some(merged(a, b)),
            None => Some(a),
        },
        None => s,
    }
}

proof fn lemma_push_entry_value(m: Seq<(Seq<char>, JsonView)>, k: Seq<char>, v: JsonView, q: Seq<char>)
    ensures
        q != k ==> entry_value(m.push((k, v)), q) == entry_value(m, q),
        entry_value(m, k) is None ==> entry_value(m.push((k, v)), k) == Some(v),
{
    let r = m.push((k, v));
    lemma_key_pos(m, q);
    lemma_key_pos(r, q);
    lemma_key_pos(m, k);
    lemma_key_pos(r, k);
    if q != k {
        match key_pos(m, q) {
            Some(j) => {
                assert(r[j].0 == q);
                let p = key_pos(r, q)->0;
                if p < j {
                    assert(r[p] == m[p]);
                }
                assert(key_pos(r, q) == Some(j));
            },
            None => {
                if key_pos(r, q) is Some {
                    let p = key_pos(r, q)->0;
                    if p < m.len() {
                        assert(r[p] == m[p]);
                    }
                }
            },
        }
    }
    if entry_value(m, k) is None {
        assert(r[m.len() as int].0 == k);
        let p = key_pos(r, k)->0;
        if p < m.len() {
            assert(r[p] == m[p]);
        }
    }
}

proof fn lemma_insert_entry_entry_value(m: Seq<(Seq<char>, JsonView)>, k: Seq<char>, v: JsonView, q: Seq<char>)
    ensures
        entry_value(insert_entry(m, k, v), q) == if q == k { combined(entry_value(m, k), Some(v)) } else { entry_value(m, q) },
{
    lemma_key_pos(m, k);
    match key_pos(m, k) {
        Some(i) => {
            let r = m.update(i, (k, merged(m[i].1, v)));
            assert(insert_entry(m, k, v) == r);
            lemma_key_pos(m, q);
            lemma_key_pos(r, q);
            assert forall|x: int| 0 <= x < m.len() implies (#[trigger] r[x]).0 == m[x].0 by {}
            if key_pos(m, q) is Some {
                lemma_key_pos_kept(m, r, q);
            } else if key_pos(r, q) is Some {
                let p = key_pos(r, q)->0;
                assert(r[p].0 == m[p].0);
            }
        },
        None => {
            lemma_push_entry_value(m, k, v, q);
        },
    }
}

proof fn lemma_merged_entries_entry_value(tm: Seq<(Seq<char>, JsonView)>, sm: Seq<(Seq<char>, JsonView)>, n: int, q: Seq<char>)
    requires
        distinct_keys(sm),
        0 <= n <= sm.len(),
    ensures
        entry_value(merged_entries(tm, JsonView::Object(sm), n), q) == combined(entry_value(tm, q), entry_value(sm.take(n), q)),
    decreases n,
{
    if n == 0 {
        lemma_key_pos(sm.take(0), q);
        assert(entry_value(sm.take(0), q) is None);
    } else {
        let (kn, vn) = sm[n - 1];
        lemma_merged_entries_entry_value(tm, sm, n - 1, q);
        let prev = merged_entries(tm, JsonView::Object(sm), n - 1);
        lemma_insert_entry_entry_value(prev, kn, vn, q);
        assert(sm.take(n) == sm.take(n - 1).push((kn, vn)));
        lemma_push_entry_value(sm.take(n - 1), kn, vn, q);
        if q == kn {
            lemma_key_pos(sm.take(n - 1), kn);
            lemma_merged_entries_entry_value(tm, sm, n - 1, kn);
            if key_pos(sm.take(n - 1), kn) is Some {
                let p = key_pos(sm.take(n - 1), kn)->0;
                assert(sm[p].0 == kn);
            }
        }
    }
}

/// What key `q` holds after the first `n` entries of the source `sm` are
/// merged in turn into `t` (what the target holds): each source entry with
/// key `q` deep-merges its value into the value so far.
pub open spec fn merged_at(t: Option<JsonView>, sm: Seq<(Seq<char>, JsonView)>, n: int, q: Seq<char>) -> Option<JsonView>
    decreases n,
{
    if n <= 0 || n > sm.len() {
        t
    } else if sm[n - 1].0 == q {
        combined(merged_at(t, sm, n - 1, q), Some(sm[n - 1].1))
    } else {
        merged_at(t, sm, n - 1, q)
    }
}

proof fn lemma_merged_entries_any(tm: Seq<(Seq<char>, JsonView)>, sm: Seq<(Seq<char>, JsonView)>, n: int, q: Seq<char>)
    requires
        0 <= n <= sm.len(),
    ensures
        entry_value(merged_entries(tm, JsonView::Object(sm), n), q) == merged_at(entry_value(tm, q), sm, n, q),
    decreases n,
{
    if n > 0 {
        let (kn, vn) = sm[n - 1];
        lemma_merged_entries_any(tm, sm, n - 1, q);
        let prev = merged_entries(tm, JsonView::Object(sm), n - 1);
        lemma_insert_entry_entry_value(prev, kn, vn, q);
    }
}

/// The deep merge law for any two values. Two objects merge into an object
/// in which every key holds what the target held for it, with the value of
/// each source entry of that key deep-merged in, in the source's order (so
/// a key of one side only keeps that side's value). Any other pair gives the
/// source: arrays and scalars replace.
pub proof fn lemma_deep_merge_entries(target: JsonView, source: JsonView)
    ensures
        match (target, source) {
            (JsonView::Object(tm), JsonView::Object(sm)) => merged(target, source) is Object && forall|q: Seq<char>|
                #[trigger] get_key(merged(target, source), q) == merged_at(get_key(target, q), sm, sm.len() as int, q),
            _ => merged(target, source) == source,
        },
{
    match (target, source) {
        (JsonView::Object(tm), JsonView::Object(sm)) => {
            assert forall|q: Seq<char>| #[trigger] get_key(merged(target, source), q) == merged_at(get_key(target, q), sm, sm.len() as int, q) by {
                lemma_merged_entries_any(tm, sm, sm.len() as int, q);
            }
        },
        _ => {},
    }
}

/// The deep merge law. Two objects (the source's keys distinct, as in any
/// JSON object) merge into an object holding the keys of either: a key of
/// both holds the deep merge of its two values, a key of one side that
/// side's value. Any other pair gives the source: arrays and scalars replace.
pub proof fn lemma_deep_merge(target: JsonView, source: JsonView)
    requires
        source matches JsonView::Object(sm) ==> distinct_keys(sm),
    ensures
        match (target, source) {
            (JsonView::Object(tm), JsonView::Object(sm)) => merged(target, source) is Object && forall|q: Seq<char>|
                #[trigger] get_key(merged(target, source), q) == combined(get_key(target, q), get_key(source, q)),
            _ => merged(target, source) == source,
        },
{
    match (target, source) {
        (JsonView::Object(tm), JsonView::Object(sm)) => {
            assert forall|q: Seq<char>| #[trigger] get_key(merged(target, source), q) == combined(get_key(target, q), get_key(source, q)) by {
                lemma_merged_entries_entry_value(tm, sm, sm.len() as int, q);
                assert(sm.take(sm.len() as int) =~= sm);
            }
        },
        _ => {},
    }
}

/// Merging an empty object into an object leaves the object unchanged.
pub proof fn lemma_merge_empty_source(target: JsonView)
    requires
        target is Object,
    ensures
        merged(target, JsonView::Object(Seq::empty())) == target,
{
}

/// A source that is not an object (an array or a scalar) replaces the target.
pub proof fn lemma_merge_non_object_source(target: JsonView, source: JsonView)
    requires
        !(source is Object),
    ensures
        merged(target, source) == source,
{
}

/// Merging two objects gives an object that keeps the target's keys first,
/// in their places, and holds every key of the source.
pub proof fn lemma_merge_keeps_keys(tm: Seq<(Seq<char>, JsonView)>, sm: Seq<(Seq<char>, JsonView)>)
    ensures
        merged(JsonView::Object(tm), JsonView::Object(sm)) is Object,
        merged(JsonView::Object(tm), JsonView::Object(sm))->Object_0.len() >= tm.len(),
        forall|i: int| 0 <= i < tm.len() ==> (#[trigger] merged(JsonView::Object(tm), JsonView::Object(sm))->Object_0[i]).0 == tm[i].0,
        forall|j: int| 0 <= j < sm.len() ==> key_pos(merged(JsonView::Object(tm), JsonView::Object(sm))->Object_0, #[trigger] sm[j].0) is Some,
{
    lemma_merged_entries_keys(tm, sm, sm.len() as int);
}

proof fn lemma_key_pos_kept(m: Seq<(Seq<char>, JsonView)>, m2: Seq<(Seq<char>, JsonView)>, k: Seq<char>)
    requires
        m2.len() >= m.len(),
        forall|i: int| 0 <= i < m.len() ==> (#[trigger] m2[i]).0 == m[i].0,
        key_pos(m, k) is Some,
    ensures
        key_pos(m2, k) == key_pos(m, k),
{
    lemma_key_pos(m, k);
    lemma_key_pos(m2, k);
    let p = key_pos(m, k)->0;
    assert(m2[p].0 == k);
    if key_pos(m2, k) is Some {
        let q = key_pos(m2, k)->0;
        if q < p {
            assert(m2[q].0 == m[q].0);
        }
    }
}

proof fn lemma_merged_entries_scalars(tm: Seq<(Seq<char>, JsonView)>, sm: Seq<(Seq<char>, JsonView)>, n: int)
    requires
        0 <= n <= sm.len(),
        forall|a: int, b: int| 0 <= a < b < sm.len() ==> sm[a].0 != sm[b].0,
    ensures
        forall|j: int| 0 <= j < n && !(sm[j].1 is Object) ==> get_key(
            JsonView::Object(merged_entries(tm, JsonView::Object(sm), n)),
            #[trigger] sm[j].0,
        ) == Some(sm[j].1),
    decreases n,
{
    let s = JsonView::Object(sm);
    if n > 0 {
        lemma_merged_entries_scalars(tm, sm, n - 1);
        let prev = merged_entries(tm, s, n - 1);
        let k = sm[n - 1].0;
        let v = sm[n - 1].1;
        let r = merged_entries(tm, s, n);
        assert(r == insert_entry(prev, k, v));
        lemma_insert_entry_keys(prev, k, v);
        lemma_key_pos(prev, k);
        assert forall|j: int| 0 <= j < n && !(sm[j].1 is Object) implies get_key(
            JsonView::Object(r),
            #[trigger] sm[j].0,
        ) == Some(sm[j].1) by {
            if j < n - 1 {
                let kj = sm[j].0;
                assert(kj != k);
                lemma_key_pos(prev, kj);
                lemma_key_pos_kept(prev, r, kj);
                let p = key_pos(prev, kj)->0;
                assert(r[p] == prev[p]);
            } else {
                lemma_key_pos(r, k);
                match key_pos(prev, k) {
                    Some(i) => {
                        lemma_key_pos_kept(prev, r, k);
                        assert(r[i] == (k, merged(prev[i].1, v)));
                    },
                    None => {
                        assert(r[prev.len() as int] == (k, v));
                        let q = key_pos(r, k)->0;
                        if q < prev.len() {
                            assert(r[q].0 == prev[q].0);
                        }
                    },
                }
            }
        }
    }
}

/// Where the source's keys are distinct, a key of the source whose value is
/// not an object takes that value in the merge.
pub proof fn lemma_merge_source_scalars_win(tm: Seq<(Seq<char>, JsonView)>, sm: Seq<(Seq<char>, JsonView)>)
    requires
        forall|a: int, b: int| 0 <= a < b < sm.len() ==> sm[a].0 != sm[b].0,
    ensures
        forall|j: int| 0 <= j < sm.len() && !(sm[j].1 is Object) ==> get_key(
            merged(JsonView::Object(tm), JsonView::Object(sm)),
            #[trigger] sm[j].0,
        ) == Some(sm[j].1),
{
    lemma_merged_entries_scalars(tm, sm, sm.len() as int);
}

/// Some entry has key `k`.
pub open spec fn has_key(m: Seq<(Seq<char>, JsonView)>, k: Seq<char>) -> bool {
    exists|i: int| 0 <= i < m.len() && (#[trigger] m[i]).0 == k
}

/// A value that is not an object, or an object without key `k`.
pub open spec fn lacks_key(v: JsonView, k: Seq<char>) -> bool {
    match v {
        JsonView::Object(m) => !has_key(m, k),
        _ => true,
    }
}

/// No two entries share a key.
pub open spec fn distinct_keys(m: Seq<(Seq<char>, JsonView)>) -> bool {
    forall|a: int, b: int| 0 <= a < b < m.len() ==> m[a].0 != m[b].0
}

proof fn lemma_insert_entry_has_key(m: Seq<(Seq<char>, JsonView)>, k: Seq<char>, v: JsonView, x: Seq<char>)
    requires
        has_key(insert_entry(m, k, v), x),
    ensures
        has_key(m, x) || x == k,
{
    lemma_key_pos(m, k);
    let r = insert_entry(m, k, v);
    let i = choose|i: int| 0 <= i < r.len() && (#[trigger] r[i]).0 == x;
    if x != k {
        match key_pos(m, k) {
            Some(p) => {
                if i == p {
                    assert(r[i].0 == k);
                }
                assert(r[i] == m[i]);
            },
            None => {
                if i == m.len() {
                    assert(r[i].0 == k);
                }
                assert(r[i] == m[i]);
            },
        }
    }
}

proof fn lemma_merged_entries_has_key(tm: Seq<(Seq<char>, JsonView)>, sm: Seq<(Seq<char>, JsonView)>, n: int, x: Seq<char>)
    requires
        0 <= n <= sm.len(),
        has_key(merged_entries(tm, JsonView::Object(sm), n), x),
    ensures
        has_key(tm, x) || has_key(sm, x),
    decreases n,
{
    if n > 0 {
        let prev = merged_entries(tm, JsonView::Object(sm), n - 1);
        assert(merged_entries(tm, JsonView::Object(sm), n) == insert_entry(prev, sm[n - 1].0, sm[n - 1].1));
        lemma_insert_entry_has_key(prev, sm[n - 1].0, sm[n - 1].1, x);
        if has_key(prev, x) {
            lemma_merged_entries_has_key(tm, sm, n - 1, x);
        } else {
            assert(sm[n - 1].0 == x);
        }
    }
}

proof fn lemma_merged_lacks_key(t: JsonView, s: JsonView, k: Seq<char>)
    requires
        lacks_key(t, k),
        lacks_key(s, k),
    ensures
        lacks_key(merged(t, s), k),
{
    match s {
        JsonView::Object(sm) => match t {
            JsonView::Object(tm) => {
                if has_key(merged_entries(tm, s, sm.len() as int), k) {
                    lemma_merged_entries_has_key(tm, sm, sm.len() as int, k);
                }
            },
            _ => {},
        },
        _ => {},
    }
}

proof fn lemma_without_lacks_key(v: JsonView, k: Seq<char>)
    requires
        v matches JsonView::Object(m) ==> distinct_keys(m),
    ensures
        lacks_key(without(v, k), k),
{
    match v {
        JsonView::Object(m) => {
            lemma_key_pos(m, k);
            match key_pos(m, k) {
                Some(i) => {
                    let r = m.remove(i);
                    if has_key(r, k) {
                        let j = choose|j: int| 0 <= j < r.len() && (#[trigger] r[j]).0 == k;
                        if j < i {
                            assert(r[j] == m[j]);
                        } else {
                            assert(r[j] == m[j + 1]);
                        }
                    }
                },
                None => {},
            }
        },
        _ => {},
    }
}

/// The exclude patterns do not reach the settings: when neither the
/// defaults nor the overrides hold an `exclude` key and the file layer's
/// keys are distinct, the merged layers hold no `exclude` key.
pub proof fn lemma_exclude_not_merged(defaults: JsonView, file: Option<JsonView>, programmatic: Option<JsonView>)
    requires
        lacks_key(defaults, exclude_key()),
        file matches Some(f) ==> (f matches JsonView::Object(m) ==> distinct_keys(m)),
        programmatic matches Some(p) ==> lacks_key(p, exclude_key()),
    ensures
        get_key(layered(defaults, file, programmatic), exclude_key()) is None,
{
    let k = exclude_key();
    let after_file = match file {
        Some(fc) => merged(defaults, without(fc, k)),
        None => defaults,
    };
    match file {
        Some(fc) => {
            lemma_without_lacks_key(fc, k);
            lemma_merged_lacks_key(defaults, without(fc, k), k);
        },
        None => {},
    }
    let fin = layered(defaults, file, programmatic);
    match programmatic {
        Some(p) => {
            lemma_merged_lacks_key(after_file, p, k);
        },
        None => {},
    }
    match fin {
        JsonView::Object(m) => {
            lemma_key_pos(m, k);
            if key_pos(m, k) is Some {
                assert(m[key_pos(m, k)->0].0 == k);
            }
        },
        _ => {},
    }
}

} // verus!
