//! A JSON value model and the operations the ingest logic performs on it.
use vstd::prelude::*;
use crate::text::{str_eq, all_white_space, is_blank, string_from, parse_i64, parse_i64_spec};

verus! {

/// An executable JSON value. Numbers are kept as their textual form, so no
/// floating-point value is ever held.
#[derive(Debug, PartialEq)]
pub enum JsonValue {
    Null,
    Bool(bool),
    Number(String),
    String(String),
    Array(Vec<JsonValue>),
    Object(Vec<(String, JsonValue)>),
}

/// The mathematical JSON value that a `JsonValue` stands for.
pub enum Json {
    Null,
    Bool(bool),
    Number(Seq<char>),
    Str(Seq<char>),
    Array(Seq<Json>),
    Object(Seq<(Seq<char>, Json)>),
}

pub open spec fn view_items(s: Seq<JsonValue>) -> Seq<Json>
    decreases s,
{
    if s.len() == 0 {
        Seq::empty()
    } else {
        view_items(s.drop_last()).push(view_value(s.last()))
    }
}

pub open spec fn view_entries(s: Seq<(String, JsonValue)>) -> Seq<(Seq<char>, Json)>
    decreases s,
{
    if s.len() == 0 {
        Seq::empty()
    } else {
        view_entries(s.drop_last()).push((s.last().0@, view_value(s.last().1)))
    }
}

pub open spec fn view_value(v: JsonValue) -> Json
    decreases v,
{
    match v {
        JsonValue::Null => Json::Null,
        JsonValue::Bool(b) => Json::Bool(b),
        JsonValue::Number(n) => Json::Number(n@),
        JsonValue::String(s) => Json::Str(s@),
        JsonValue::Array(items) => Json::Array(view_items(items@)),
        JsonValue::Object(entries) => Json::Object(view_entries(entries@)),
    }
}


impl View for JsonValue {
    type V = Json;

    /// The mathematical value this JSON value stands for.
    open spec fn view(&self) -> Json {
        view_value(*self)
    }
}

pub proof fn lemma_view_items(s: Seq<JsonValue>)
    ensures
        view_items(s).len() == s.len(),
        forall|i: int| 0 <= i < s.len() ==> #[trigger] view_items(s)[i] == view_value(s[i]),
    decreases s.len(),
{
    if s.len() > 0 {
        lemma_view_items(s.drop_last());
    }
}

pub proof fn lemma_view_entries(s: Seq<(String, JsonValue)>)
    ensures
        view_entries(s).len() == s.len(),
        forall|i: int|
            0 <= i < s.len() ==> #[trigger] view_entries(s)[i] == (s[i].0@, view_value(s[i].1)),
    decreases s.len(),
{
    if s.len() > 0 {
        lemma_view_entries(s.drop_last());
    }
}

pub proof fn lemma_view_items_push(s: Seq<JsonValue>, v: JsonValue)
    ensures
        view_items(s.push(v)) == view_items(s).push(view_value(v)),
{
    assert(s.push(v).drop_last() =~= s);
}

pub proof fn lemma_view_entries_push(s: Seq<(String, JsonValue)>, e: (String, JsonValue))
    ensures
        view_entries(s.push(e)) == view_entries(s).push((e.0@, view_value(e.1))),
{
    assert(s.push(e).drop_last() =~= s);
}

/// Position of the first entry named `key`, searching from `i` on.
pub open spec fn key_pos_from(es: Seq<(Seq<char>, Json)>, key: Seq<char>, i: int) -> Option<int>
    decreases es.len() - i,
{
    if i < 0 || i >= es.len() {
        None
    } else if es[i].0 == key {
        Some(i)
    } else {
        key_pos_from(es, key, i + 1)
    }
}

/// Position of the first entry named `key`.
pub open spec fn key_pos(es: Seq<(Seq<char>, Json)>, key: Seq<char>) -> Option<int> {
    key_pos_from(es, key, 0)
}

/// The value of the first entry named `key`, as `Map::get` on a JSON object.
pub open spec fn entries_get(es: Seq<(Seq<char>, Json)>, key: Seq<char>) -> Option<Json> {
    match key_pos(es, key) {
        Some(i) => Some(es[i].1),
        None => None,
    }
}

/// `Map::insert` on a JSON object: the first entry named `key` gets the new value
/// in place, or a new entry is appended.
pub open spec fn entries_insert(es: Seq<(Seq<char>, Json)>, key: Seq<char>, v: Json) -> Seq<(Seq<char>, Json)> {
    match key_pos(es, key) {
        Some(i) => es.update(i, (key, v)),
        None => es.push((key, v)),
    }
}

/// `Map::remove` on a JSON object: the first entry named `key` goes.
pub open spec fn entries_remove(es: Seq<(Seq<char>, Json)>, key: Seq<char>) -> Seq<(Seq<char>, Json)> {
    match key_pos(es, key) {
        Some(i) => es.remove(i),
        None => es,
    }
}

/// `Value::get(key)`: the member named `key` of an object, nothing for any other value.
pub open spec fn json_get(j: Json, key: Seq<char>) -> Option<Json> {
    match j {
        Json::Object(es) => entries_get(es, key),
        _ => None,
    }
}

pub proof fn lemma_key_pos_from(es: Seq<(Seq<char>, Json)>, key: Seq<char>, i: int)
    requires
        0 <= i <= es.len(),
    ensures
        key_pos_from(es, key, i) matches Some(p) ==> i <= p < es.len() && es[p].0 == key
            && forall|j: int| i <= j < p ==> es[j].0 != key,
        key_pos_from(es, key, i) is None ==> forall|j: int| i <= j < es.len() ==> es[j].0 != key,
    decreases es.len() - i,
{
    if i < es.len() {
        lemma_key_pos_from(es, key, i + 1);
    }
}

/// A deep copy of a JSON value.
pub fn clone_value(v: &JsonValue) -> (r: JsonValue)
    ensures
        view_value(r) == view_value(*v),
    decreases v,
{
    match v {
        JsonValue::Null => JsonValue::Null,
        JsonValue::Bool(b) => JsonValue::Bool(*b),
        JsonValue::Number(n) => JsonValue::Number(n.clone()),
        JsonValue::String(s) => JsonValue::String(s.clone()),
        JsonValue::Array(items) => {
            let mut out: Vec<JsonValue> = Vec::new();
            let n = items.len();
            let mut i: usize = 0;
            while i < n
                invariant
                    n == items@.len(),
                    *v == JsonValue::Array(*items),
                    i <= n,
                    view_items(out@) == view_items(items@.take(i as int)),
                decreases n - i,
            {
                proof {
                    vstd::std_specs::vec::axiom_vec_decreases_to_view(*items);
                    vstd::seq::axiom_seq_index_decreases(items@, i as int);
                    assert(decreases_to!(*v => v->Array_0));
                    assert(decreases_to!(*items => items@));
                    assert(decreases_to!(items@ => items@[i as int]));
                    assert(decreases_to!(*v => items@[i as int]));
                }
                let c = clone_value(&items[i]);
                proof {
                    lemma_view_items_push(out@, c);
                    lemma_view_items_push(items@.take(i as int), items@[i as int]);
                    assert(items@.take(i + 1) =~= items@.take(i as int).push(items@[i as int]));
                }
                out.push(c);
                i = i + 1;
            }
            assert(items@.take(n as int) =~= items@);
            JsonValue::Array(out)
        },
        JsonValue::Object(entries) => {
            let mut out: Vec<(String, JsonValue)> = Vec::new();
            let n = entries.len();
            let mut i: usize = 0;
            while i < n
                invariant
                    n == entries@.len(),
                    *v == JsonValue::Object(*entries),
                    i <= n,
                    view_entries(out@) == view_entries(entries@.take(i as int)),
                decreases n - i,
            {
                proof {
                    vstd::std_specs::vec::axiom_vec_decreases_to_view(*entries);
                    vstd::seq::axiom_seq_index_decreases(entries@, i as int);
                    assert(decreases_to!(*v => v->Object_0));
                    assert(decreases_to!(*entries => entries@));
                    assert(decreases_to!(entries@ => entries@[i as int]));
                    assert(decreases_to!(entries@[i as int] => entries@[i as int].1));
                    assert(decreases_to!(*v => entries@[i as int].1));
                }
                let c = clone_value(&entries[i].1);
                let k = entries[i].0.clone();
                proof {
                    lemma_view_entries_push(out@, (k, c));
                    lemma_view_entries_push(entries@.take(i as int), entries@[i as int]);
                    assert(entries@.take(i + 1) =~= entries@.take(i as int).push(entries@[i as int]));
                }
                out.push((k, c));
                i = i + 1;
            }
            assert(entries@.take(n as int) =~= entries@);
            JsonValue::Object(out)
        },
    }
}


/// Position of the first entry named `key` in an object's entries.
pub fn find_key(es: &Vec<(String, JsonValue)>, key: &str) -> (r: Option<usize>)
    ensures
        r matches Some(i) ==> key_pos(view_entries(es@), key@) == Some(i as int) && i < es@.len()
            && es@[i as int].0@ == key@,
        r is None ==> key_pos(view_entries(es@), key@) is None,
{
    let ghost ves = view_entries(es@);
    proof {
        lemma_view_entries(es@);
    }
    let n = es.len();
    let mut i: usize = 0;
    while i < n
        invariant
            n == es@.len(),
            ves == view_entries(es@),
            ves.len() == n,
            forall|j: int| 0 <= j < n ==> #[trigger] ves[j] == (es@[j].0@, view_value(es@[j].1)),
            i <= n,
            key_pos_from(ves, key@, 0) == key_pos_from(ves, key@, i as int),
        decreases n - i,
    {
        if str_eq(es[i].0.as_str(), key) {
            proof {
                lemma_key_pos_from(ves, key@, i as int);
            }
            return Some(i);
        }
        i = i + 1;
    }
    None
}

/// `Value::get(key)`: the member named `key` when `v` is an object.
pub fn get<'a>(v: &'a JsonValue, key: &str) -> (r: Option<&'a JsonValue>)
    ensures
        r matches Some(x) ==> json_get(view_value(*v), key@) == Some(view_value(*x)),
        r is None ==> json_get(view_value(*v), key@) is None,
{
    match v {
        JsonValue::Object(es) => {
            proof {
                lemma_view_entries(es@);
            }
            match find_key(es, key) {
                Some(i) => Some(&es[i].1),
                None => None,
            }
        },
        _ => None,
    }
}

/// `Map::insert` on an object's entries.
pub fn entries_insert_exec(es: &mut Vec<(String, JsonValue)>, key: &str, v: JsonValue)
    ensures
        view_entries(final(es)@) == entries_insert(view_entries(old(es)@), key@, view_value(v)),
{
    proof {
        lemma_view_entries(es@);
    }
    match find_key(es, key) {
        Some(i) => {
            let k = string_from(key);
            es.set(i, (k, v));
            proof {
                lemma_view_entries(es@);
                assert(view_entries(es@) =~= view_entries(old(es)@).update(i as int, (key@, view_value(v))));
            }
        },
        None => {
            let k = string_from(key);
            proof {
                lemma_view_entries_push(es@, (k, v));
            }
            es.push((k, v));
        },
    }
}

/// Null, an empty array and an empty or white-space string all mean "the server
/// said nothing here"; every other value is usable.
pub open spec fn usable(j: Json) -> bool {
    match j {
        Json::Null => false,
        Json::Array(items) => items.len() > 0,
        Json::Str(text) => !all_white_space(text),
        _ => true,
    }
}

/// Whether a participant value carries information.
pub fn is_usable_participant_value(value: &JsonValue) -> (r: bool)
    ensures
        r == usable(view_value(*value)),
{
    match value {
        JsonValue::Null => false,
        JsonValue::Array(items) => {
            proof {
                lemma_view_items(items@);
            }
            items.len() > 0
        },
        JsonValue::String(text) => !is_blank(text.as_str()),
        _ => true,
    }
}


pub proof fn lemma_view_items_take(s: Seq<JsonValue>, i: int)
    requires
        0 <= i < s.len(),
    ensures
        view_items(s.take(i + 1)) == view_items(s.take(i)).push(view_value(s[i])),
{
    assert(s.take(i + 1) =~= s.take(i).push(s[i]));
    lemma_view_items_push(s.take(i), s[i]);
}

pub proof fn lemma_view_entries_take(s: Seq<(String, JsonValue)>, i: int)
    requires
        0 <= i < s.len(),
    ensures
        view_entries(s.take(i + 1)) == view_entries(s.take(i)).push((s[i].0@, view_value(s[i].1))),
{
    assert(s.take(i + 1) =~= s.take(i).push(s[i]));
    lemma_view_entries_push(s.take(i), s[i]);
}

/// `Map::remove` on an object's entries.
pub fn entries_remove_exec(es: &mut Vec<(String, JsonValue)>, key: &str)
    ensures
        view_entries(final(es)@) == entries_remove(view_entries(old(es)@), key@),
{
    proof {
        lemma_view_entries(es@);
    }
    match find_key(es, key) {
        Some(i) => {
            es.remove(i);
            proof {
                lemma_view_entries(es@);
                assert(view_entries(es@) =~= view_entries(old(es)@).remove(i as int));
            }
        },
        None => {},
    }
}

// ---------------------------------------------------------------------------
// Dropping null members

pub open spec fn strip_items(s: Seq<Json>) -> Seq<Json>
    decreases s,
{
    if s.len() == 0 {
        Seq::empty()
    } else {
        strip_items(s.drop_last()).push(strip_nulls(s.last()))
    }
}

pub open spec fn strip_entries(s: Seq<(Seq<char>, Json)>) -> Seq<(Seq<char>, Json)>
    decreases s,
{
    if s.len() == 0 {
        Seq::empty()
    } else {
        let r = strip_entries(s.drop_last());
        if s.last().1 is Null {
            r
        } else {
            r.push((s.last().0, strip_nulls(s.last().1)))
        }
    }
}

/// The value with every object member whose value is null removed, at every depth.
pub open spec fn strip_nulls(j: Json) -> Json
    decreases j,
{
    match j {
        Json::Object(es) => Json::Object(strip_entries(es)),
        Json::Array(items) => Json::Array(strip_items(items)),
        _ => j,
    }
}

/// A copy of `v` with every null object member dropped, at every depth.
pub fn stripped(v: &JsonValue) -> (r: JsonValue)
    ensures
        view_value(r) == strip_nulls(view_value(*v)),
    decreases v,
{
    match v {
        JsonValue::Array(items) => {
            let mut out: Vec<JsonValue> = Vec::new();
            let n = items.len();
            let mut i: usize = 0;
            while i < n
                invariant
                    n == items@.len(),
                    *v == JsonValue::Array(*items),
                    i <= n,
                    view_items(out@) == strip_items(view_items(items@.take(i as int))),
                decreases n - i,
            {
                proof {
                    assert(decreases_to!(*v => v->Array_0));
                    assert(decreases_to!(*items => items@));
                    assert(decreases_to!(items@ => items@[i as int]));
                }
                let c = stripped(&items[i]);
                proof {
                    lemma_view_items_push(out@, c);
                    lemma_view_items_take(items@, i as int);
                    let pre = view_items(items@.take(i as int));
                    assert(pre.push(view_value(items@[i as int])).drop_last() =~= pre);
                }
                out.push(c);
                i = i + 1;
            }
            assert(items@.take(n as int) =~= items@);
            JsonValue::Array(out)
        },
        JsonValue::Object(entries) => {
            let mut out: Vec<(String, JsonValue)> = Vec::new();
            let n = entries.len();
            let mut i: usize = 0;
            while i < n
                invariant
                    n == entries@.len(),
                    *v == JsonValue::Object(*entries),
                    i <= n,
                    view_entries(out@) == strip_entries(view_entries(entries@.take(i as int))),
                decreases n - i,
            {
                proof {
                    assert(decreases_to!(*v => v->Object_0));
                    assert(decreases_to!(*entries => entries@));
                    assert(decreases_to!(entries@ => entries@[i as int]));
                    assert(decreases_to!(entries@[i as int] => entries@[i as int].1));
                    lemma_view_entries_take(entries@, i as int);
                    let pre = view_entries(entries@.take(i as int));
                    let e = (entries@[i as int].0@, view_value(entries@[i as int].1));
                    assert(pre.push(e).drop_last() =~= pre);
                }
                match &entries[i].1 {
                    JsonValue::Null => {},
                    _ => {
                        let c = stripped(&entries[i].1);
                        let k = entries[i].0.clone();
                        proof {
                            lemma_view_entries_push(out@, (k, c));
                        }
                        out.push((k, c));
                    },
                }
                i = i + 1;
            }
            assert(entries@.take(n as int) =~= entries@);
            JsonValue::Object(out)
        },
        _ => clone_value(v),
    }
}

/// Drops every null object member of `value`, at every depth.
pub fn remove_null_fields(value: &mut JsonValue)
    ensures
        view_value(*final(value)) == strip_nulls(view_value(*old(value))),
{
    let r = stripped(value);
    *value = r;
}

// ---------------------------------------------------------------------------
// JSON merge patch (RFC 7396), the semantics of SQLite's `json_patch`

pub open spec fn patch_entries(t: Seq<(Seq<char>, Json)>, p: Seq<(Seq<char>, Json)>) -> Seq<(Seq<char>, Json)>
    decreases p,
{
    if p.len() == 0 {
        t
    } else {
        let t1 = patch_entries(t, p.drop_last());
        let k = p.last().0;
        let v = p.last().1;
        if v is Null {
            entries_remove(t1, k)
        } else {
            let cur = match entries_get(t1, k) {
                Some(x) => x,
                None => Json::Null,
            };
            entries_insert(t1, k, merge_patch(cur, v))
        }
    }
}

/// RFC 7396 `MergePatch(target, patch)`: a non-object patch replaces the target;
/// an object patch is applied member by member to the target's members (to none
/// when the target is not an object), a null member removing the name and any
/// other member being merged recursively into the name's current value.
pub open spec fn merge_patch(target: Json, patch: Json) -> Json
    decreases patch,
{
    match patch {
        Json::Object(p) => {
            let t = match target {
                Json::Object(t) => t,
                _ => Seq::empty(),
            };
            Json::Object(patch_entries(t, p))
        },
        _ => patch,
    }
}

/// `json_patch(target, patch)`: the merge patch of RFC 7396.
pub fn json_patch(target: &JsonValue, patch: &JsonValue) -> (r: JsonValue)
    ensures
        view_value(r) == merge_patch(view_value(*target), view_value(*patch)),
    decreases patch,
{
    match patch {
        JsonValue::Object(p) => {
            let mut t: Vec<(String, JsonValue)> = match target {
                JsonValue::Object(es) => {
                    let c = clone_value(target);
                    match c {
                        JsonValue::Object(ces) => ces,
                        _ => Vec::new(),
                    }
                },
                _ => Vec::new(),
            };
            let ghost t0 = view_entries(t@);
            proof {
                assert(view_entries(Seq::<(String, JsonValue)>::empty()) =~= Seq::empty());
            }
            let n = p.len();
            let mut i: usize = 0;
            while i < n
                invariant
                    n == p@.len(),
                    *patch == JsonValue::Object(*p),
                    i <= n,
                    t0 == match view_value(*target) {
                        Json::Object(te) => te,
                        _ => Seq::empty(),
                    },
                    view_entries(t@) == patch_entries(t0, view_entries(p@.take(i as int))),
                decreases n - i,
            {
                proof {
                    assert(decreases_to!(*patch => patch->Object_0));
                    assert(decreases_to!(*p => p@));
                    assert(decreases_to!(p@ => p@[i as int]));
                    assert(decreases_to!(p@[i as int] => p@[i as int].1));
                    lemma_view_entries_take(p@, i as int);
                    let pre = view_entries(p@.take(i as int));
                    let e = (p@[i as int].0@, view_value(p@[i as int].1));
                    assert(pre.push(e).drop_last() =~= pre);
                }
                let key = p[i].0.as_str();
                match &p[i].1 {
                    JsonValue::Null => {
                        entries_remove_exec(&mut t, key);
                    },
                    _ => {
                        proof {
                            lemma_view_entries(t@);
                        }
                        let cur = match find_key(&t, key) {
                            Some(j) => clone_value(&t[j].1),
                            None => JsonValue::Null,
                        };
                        let merged = json_patch(&cur, &p[i].1);
                        entries_insert_exec(&mut t, key, merged);
                    },
                }
                i = i + 1;
            }
            assert(p@.take(n as int) =~= p@);
            JsonValue::Object(t)
        },
        _ => clone_value(patch),
    }
}


// ---------------------------------------------------------------------------
// Typed member reads

/// `Value::as_str`, widened as the projection reads ids: a string's text or a
/// number's text.
pub open spec fn text_or_number(j: Json) -> Option<Seq<char>> {
    match j {
        Json::Str(s) => Some(s),
        Json::Number(n) => Some(n),
        _ => None,
    }
}

/// The member `key` of `j` read as text, a number counting as its text.
pub open spec fn string_field_of(j: Json, key: Seq<char>) -> Option<Seq<char>> {
    match json_get(j, key) {
        Some(x) => text_or_number(x),
        None => None,
    }
}

/// The member `key` of `j` when it is a string.
pub open spec fn str_field_of(j: Json, key: Seq<char>) -> Option<Seq<char>> {
    match json_get(j, key) {
        Some(Json::Str(s)) => Some(s),
        _ => None,
    }
}

/// The member `key` of `j` read as `i64`: an integer number in range.
pub open spec fn i64_field_of(j: Json, key: Seq<char>) -> Option<i64> {
    match json_get(j, key) {
        Some(Json::Number(n)) => parse_i64_spec(n),
        _ => None,
    }
}

/// The member `key` of `j` when it is a number, as its text.
pub open spec fn number_field_of(j: Json, key: Seq<char>) -> Option<Seq<char>> {
    match json_get(j, key) {
        Some(Json::Number(n)) => Some(n),
        _ => None,
    }
}

pub open spec fn opt_string_view(o: Option<String>) -> Option<Seq<char>> {
    match o {
        Some(s) => Some(s@),
        None => None,
    }
}

/// A string or number member as text.
pub fn json_string_field(raw: &JsonValue, key: &str) -> (r: Option<String>)
    ensures
        opt_string_view(r) == string_field_of(view_value(*raw), key@),
{
    match get(raw, key) {
        Some(JsonValue::String(s)) => Some(s.clone()),
        Some(JsonValue::Number(n)) => Some(n.clone()),
        _ => None,
    }
}

/// A string or number member as text.
pub fn string_field(raw: &JsonValue, key: &str) -> (r: Option<String>)
    ensures
        opt_string_view(r) == string_field_of(view_value(*raw), key@),
{
    json_string_field(raw, key)
}

/// A string member.
pub fn str_field(raw: &JsonValue, key: &str) -> (r: Option<String>)
    ensures
        opt_string_view(r) == str_field_of(view_value(*raw), key@),
{
    match get(raw, key) {
        Some(JsonValue::String(s)) => Some(s.clone()),
        _ => None,
    }
}

/// An integer member that fits in `i64` (`Value::as_i64`).
pub fn i64_field(raw: &JsonValue, key: &str) -> (r: Option<i64>)
    ensures
        r == i64_field_of(view_value(*raw), key@),
{
    match get(raw, key) {
        Some(JsonValue::Number(n)) => parse_i64(n.as_str()),
        _ => None,
    }
}

/// A number member, kept as its text.
pub fn number_field(raw: &JsonValue, key: &str) -> (r: Option<String>)
    ensures
        opt_string_view(r) == number_field_of(view_value(*raw), key@),
{
    match get(raw, key) {
        Some(JsonValue::Number(n)) => Some(n.clone()),
        _ => None,
    }
}


// ---------------------------------------------------------------------------
// Laws of the merge patch

pub proof fn lemma_get_insert(es: Seq<(Seq<char>, Json)>, key: Seq<char>, v: Json, k: Seq<char>)
    ensures
        entries_get(entries_insert(es, key, v), k) == if k == key { Some(v) } else { entries_get(es, k) },
{
    lemma_key_pos_from(es, key, 0);
    lemma_key_pos_from(es, k, 0);
    let es2 = entries_insert(es, key, v);
    lemma_key_pos_from(es2, k, 0);
    // es2 agrees with es on which indices below es.len() hold name k, except
    // that the inserted entry holds `key`.
    match key_pos(es, key) {
        Some(i) => {
            assert(es2.len() == es.len());
            assert(es2[i] == (key, v));
            assert forall|j: int| 0 <= j < es.len() && j != i implies #[trigger] es2[j] == es[j] by {}
            if k == key {
                match key_pos(es2, k) {
                    Some(a) => {
                        if a < i {
                            assert(es2[a] == es[a]);
                        } else if a > i {
                            assert(es2[i].0 == k);
                        }
                    },
                    None => {
                        assert(es2[i].0 == k);
                    },
                }
            } else {
                match (key_pos(es2, k), key_pos(es, k)) {
                    (Some(a), Some(b)) => {
                        assert(a != i);
                        assert(b != i);
                        assert(es2[a] == es[a]);
                        assert(es2[b] == es[b]);
                    },
                    (Some(a), None) => {
                        assert(es2[a] == es[a]);
                    },
                    (None, Some(b)) => {
                        assert(es2[b] == es[b]);
                    },
                    (None, None) => {},
                }
            }
        },
        None => {
            assert(es2 == es.push((key, v)));
            assert forall|j: int| 0 <= j < es.len() implies #[trigger] es2[j] == es[j] by {}
            if k == key {
                match key_pos(es2, k) {
                    Some(a) => {
                        if a < es.len() {
                            assert(es2[a] == es[a]);
                        }
                    },
                    None => {
                        assert(es2[es.len() as int].0 == k);
                    },
                }
            } else {
                match (key_pos(es2, k), key_pos(es, k)) {
                    (Some(a), Some(b)) => {
                        assert(es2[b] == es[b]);
                        if a < es.len() {
                            assert(es2[a] == es[a]);
                        }
                    },
                    (Some(a), None) => {
                        if a < es.len() {
                            assert(es2[a] == es[a]);
                        }
                    },
                    (None, Some(b)) => {
                        assert(es2[b] == es[b]);
                    },
                    (None, None) => {},
                }
            }
        },
    }
}

proof fn lemma_get_remove_other(es: Seq<(Seq<char>, Json)>, key: Seq<char>, k: Seq<char>)
    requires
        k != key,
    ensures
        entries_get(entries_remove(es, key), k) == entries_get(es, k),
{
    lemma_key_pos_from(es, key, 0);
    lemma_key_pos_from(es, k, 0);
    let es2 = entries_remove(es, key);
    lemma_key_pos_from(es2, k, 0);
    match key_pos(es, key) {
        Some(i) => {
            match (key_pos(es2, k), key_pos(es, k)) {
                (Some(a), Some(b)) => {
                    let aa = if a < i { a } else { a + 1 };
                    assert(es2[a] == es[aa]);
                    let bb = if b < i { b } else { b - 1 };
                    assert(es2[bb] == es[b]);
                },
                (Some(a), None) => {
                    let aa = if a < i { a } else { a + 1 };
                    assert(es2[a] == es[aa]);
                },
                (None, Some(b)) => {
                    let bb = if b < i { b } else { b - 1 };
                    assert(es2[bb] == es[b]);
                },
                (None, None) => {},
            }
        },
        None => {},
    }
}

/// A member that the patch does not name keeps its value: the fields that a
/// sparse payload omits survive from the stored payload.
pub proof fn law_patch_keeps_absent_member(t: Seq<(Seq<char>, Json)>, p: Seq<(Seq<char>, Json)>, k: Seq<char>)
    requires
        key_pos(p, k) is None,
    ensures
        entries_get(patch_entries(t, p), k) == entries_get(t, k),
    decreases p.len(),
{
    if p.len() > 0 {
        lemma_key_pos_from(p, k, 0);
        lemma_key_pos_from(p.drop_last(), k, 0);
        assert(p.last().0 != k) by {
            assert(p[p.len() - 1].0 != k);
        }
        law_patch_keeps_absent_member(t, p.drop_last(), k);
        let t1 = patch_entries(t, p.drop_last());
        let v = p.last().1;
        if v is Null {
            lemma_get_remove_other(t1, p.last().0, k);
        } else {
            let cur = match entries_get(t1, p.last().0) {
                Some(x) => x,
                None => Json::Null,
            };
            lemma_get_insert(t1, p.last().0, merge_patch(cur, v), k);
        }
    }
}

/// A member that the patch names once with a value other than null or an
/// object takes that value: the fields that a sparse payload carries win.
pub proof fn law_patch_takes_present_member(t: Seq<(Seq<char>, Json)>, p: Seq<(Seq<char>, Json)>, i: int)
    requires
        0 <= i < p.len(),
        forall|j: int| 0 <= j < p.len() && j != i ==> #[trigger] p[j].0 != p[i].0,
        !(p[i].1 is Null),
        !(p[i].1 is Object),
    ensures
        entries_get(patch_entries(t, p), p[i].0) == Some(p[i].1),
    decreases p.len(),
{
    let k = p[i].0;
    let t1 = patch_entries(t, p.drop_last());
    let kl = p.last().0;
    let v = p.last().1;
    if i == p.len() - 1 {
        let cur = match entries_get(t1, kl) {
            Some(x) => x,
            None => Json::Null,
        };
        lemma_get_insert(t1, kl, merge_patch(cur, v), k);
    } else {
        let q = p.drop_last();
        assert forall|j: int| 0 <= j < q.len() && j != i implies #[trigger] q[j].0 != q[i].0 by {
            assert(q[j] == p[j]);
        }
        law_patch_takes_present_member(t, q, i);
        assert(kl != k) by {
            assert(p[p.len() - 1].0 != p[i].0);
        }
        if v is Null {
            lemma_get_remove_other(t1, kl, k);
        } else {
            let cur = match entries_get(t1, kl) {
                Some(x) => x,
                None => Json::Null,
            };
            lemma_get_insert(t1, kl, merge_patch(cur, v), k);
        }
    }
}


// ---------------------------------------------------------------------------
// Laws of dropping null members

pub open spec fn no_null_items(s: Seq<Json>) -> bool
    decreases s,
{
    if s.len() == 0 {
        true
    } else {
        no_null_items(s.drop_last()) && no_null_members(s.last())
    }
}

pub open spec fn no_null_entries(s: Seq<(Seq<char>, Json)>) -> bool
    decreases s,
{
    if s.len() == 0 {
        true
    } else {
        no_null_entries(s.drop_last()) && !(s.last().1 is Null) && no_null_members(s.last().1)
    }
}

/// No object member anywhere in `j` is null.
pub open spec fn no_null_members(j: Json) -> bool
    decreases j,
{
    match j {
        Json::Object(es) => no_null_entries(es),
        Json::Array(items) => no_null_items(items),
        _ => true,
    }
}

pub proof fn lemma_strip_items(s: Seq<Json>)
    ensures
        no_null_items(strip_items(s)),
        no_null_items(s) ==> strip_items(s) == s,
    decreases s,
{
    if s.len() > 0 {
        lemma_strip_items(s.drop_last());
        lemma_strip_value(s.last());
        let r = strip_items(s.drop_last());
        assert(r.push(strip_nulls(s.last())).drop_last() =~= r);
        if no_null_items(s) {
            assert(s.drop_last().push(s.last()) =~= s);
        }
    }
}

pub proof fn lemma_strip_entries(s: Seq<(Seq<char>, Json)>)
    ensures
        no_null_entries(strip_entries(s)),
        no_null_entries(s) ==> strip_entries(s) == s,
    decreases s,
{
    if s.len() > 0 {
        lemma_strip_entries(s.drop_last());
        assert(decreases_to!(s => s.last()));
        lemma_strip_value(s.last().1);
        let r = strip_entries(s.drop_last());
        let e = (s.last().0, strip_nulls(s.last().1));
        assert(r.push(e).drop_last() =~= r);
        if !(s.last().1 is Null) {
            assert(!(strip_nulls(s.last().1) is Null));
        }
        if no_null_entries(s) {
            assert(s.drop_last().push(s.last()) =~= s);
        }
    }
}

pub proof fn lemma_strip_value(j: Json)
    ensures
        no_null_members(strip_nulls(j)),
        no_null_members(j) ==> strip_nulls(j) == j,
    decreases j,
{
    match j {
        Json::Object(es) => lemma_strip_entries(es),
        Json::Array(items) => lemma_strip_items(items),
        _ => {},
    }
}

/// Dropping null members leaves none at any depth, and leaves a value that
/// has none as it is; so dropping twice is dropping once.
pub proof fn law_strip_nulls(j: Json)
    ensures
        no_null_members(strip_nulls(j)),
        no_null_members(j) ==> strip_nulls(j) == j,
        strip_nulls(strip_nulls(j)) == strip_nulls(j),
{
    lemma_strip_value(j);
    lemma_strip_value(strip_nulls(j));
}

} // verus!
