//! JSON values, and JSON text through `serde_json`.
use serde_json::{Number, Value};
use vstd::prelude::*;

use crate::text::{opt_text, text_eq};

verus! {

/// `serde_json::Value`, carried as a whole.
#[verifier::external_type_specification]
#[verifier::external_body]
pub struct ExValue(serde_json::Value);

/// `serde_json::Number`, carried as a whole.
#[verifier::external_type_specification]
#[verifier::external_body]
pub struct ExNumber(serde_json::Number);

/// A JSON value. Where a key occurs more than once in an object, its last entry counts.
#[derive(Debug, PartialEq)]
pub enum Json {
    Null,
    Bool(bool),
    Number(Number),
    Str(String),
    Array(Vec<Json>),
    Object(Vec<(String, Json)>),
}

/// The model of a JSON value.
pub enum JsonView {
    Null,
    Bool(bool),
    Number(Number),
    Str(Seq<char>),
    Array(Seq<JsonView>),
    Object(Map<Seq<char>, JsonView>),
}

/// The model of a list of values.
pub open spec fn items_model(items: Seq<Json>) -> Seq<JsonView>
    decreases items,
{
    Seq::new(
        items.len(),
        |i: int|
            if 0 <= i < items.len() {
                items[i].model()
            } else {
                JsonView::Null
            },
    )
}

/// The model of a list of entries: each is inserted in turn.
pub open spec fn entries_model(entries: Seq<(String, Json)>) -> Map<Seq<char>, JsonView>
    decreases entries,
{
    if entries.len() == 0 {
        Map::empty()
    } else {
        entries_model(entries.drop_last()).insert(
            entries.last().0@,
            entries[entries.len() - 1].1.model(),
        )
    }
}

impl Json {
    /// The model of this value.
    pub open spec fn model(self) -> JsonView
        decreases self,
    {
        match self {
            Json::Null => JsonView::Null,
            Json::Bool(b) => JsonView::Bool(b),
            Json::Number(n) => JsonView::Number(n),
            Json::Str(t) => JsonView::Str(t@),
            Json::Array(items) => JsonView::Array(items_model(items@)),
            Json::Object(entries) => JsonView::Object(entries_model(entries@)),
        }
    }
}

impl View for Json {
    type V = JsonView;

    open spec fn view(&self) -> JsonView {
        self.model()
    }
}

/// One level of a `serde_json::Value`.
pub enum Node {
    Null,
    Bool(bool),
    Number(Number),
    Str(String),
    Array(Vec<Value>),
    Object(Vec<(String, Value)>),
}

/// What a `serde_json::Value` holds.
pub uninterp spec fn value_model(v: serde_json::Value) -> JsonView;

/// What a list of entries holds once each has been inserted in turn.
pub open spec fn value_entries_model(entries: Seq<(String, Value)>) -> Map<Seq<char>, JsonView>
    decreases entries.len(),
{
    if entries.len() == 0 {
        Map::empty()
    } else {
        value_entries_model(entries.drop_last()).insert(
            entries.last().0@,
            value_model(entries.last().1),
        )
    }
}

/// What one level of a value holds.
pub open spec fn node_model(node: Node) -> JsonView {
    match node {
        Node::Null => JsonView::Null,
        Node::Bool(b) => JsonView::Bool(b),
        Node::Number(n) => JsonView::Number(n),
        Node::Str(t) => JsonView::Str(t@),
        Node::Array(items) => JsonView::Array(items@.map_values(|v: Value| value_model(v))),
        Node::Object(entries) => JsonView::Object(value_entries_model(entries@)),
    }
}

/// Whether no key occurs twice.
pub open spec fn distinct_keys(entries: Seq<(String, Value)>) -> bool {
    forall|i: int, j: int|
        0 <= i < j < entries.len() ==> (#[trigger] entries[i]).0@ != (#[trigger] entries[j]).0@
}

proof fn lemma_entry_is_held(entries: Seq<(String, Value)>, i: int)
    requires
        distinct_keys(entries),
        0 <= i < entries.len(),
    ensures
        value_entries_model(entries).dom().finite(),
        value_entries_model(entries).contains_key(entries[i].0@),
        value_entries_model(entries)[entries[i].0@] == value_model(entries[i].1),
    decreases entries.len(),
{
    let rest = entries.drop_last();
    if i < rest.len() {
        lemma_entry_is_held(rest, i);
        assert(entries[i].0@ != entries[entries.len() - 1].0@);
    } else if rest.len() > 0 {
        lemma_entry_is_held(rest, 0);
    } else {
        assert(value_entries_model(rest) == Map::<Seq<char>, JsonView>::empty());
    }
}

proof fn lemma_replaced_entry(entries: Seq<(String, Value)>, entry: (String, Value), i: int)
    requires
        distinct_keys(entries),
        0 <= i < entries.len(),
        entries[i].0@ == entry.0@,
    ensures
        distinct_keys(entries.update(i, entry)),
        value_entries_model(entries.update(i, entry)) == value_entries_model(entries).insert(
            entry.0@,
            value_model(entry.1),
        ),
    decreases entries.len(),
{
    let last = entries.len() - 1;
    let new = entries.update(i, entry);
    assert forall|a: int, b: int| 0 <= a < b < new.len() implies (#[trigger] new[a]).0@ != (
    #[trigger] new[b]).0@ by {
        assert(entries[a].0@ != entries[b].0@);
    }
    if i < last {
        assert(entries[i].0@ != entries[last].0@);
        assert(distinct_keys(entries.drop_last()));
        lemma_replaced_entry(entries.drop_last(), entry, i);
        assert(new.drop_last() == entries.drop_last().update(i, entry));
        assert(new[last] == entries[last]);
    } else {
        assert(new.drop_last() == entries.drop_last());
    }
    assert(value_entries_model(new) =~= value_entries_model(entries).insert(
        entry.0@,
        value_model(entry.1),
    ));
}

/// Puts an entry into a list in which no key occurs twice, in place of that of the
/// same key.
fn put_entry(entries: &mut Vec<(String, Value)>, key: String, value: Value)
    requires
        distinct_keys(old(entries)@),
    ensures
        distinct_keys(final(entries)@),
        value_entries_model(final(entries)@) == value_entries_model(old(entries)@).insert(
            key@,
            value_model(value),
        ),
{
    let ghost before = entries@;
    let mut i: usize = 0;
    while i < entries.len()
        invariant
            i <= entries@.len(),
            entries@ == before,
            distinct_keys(before),
            forall|j: int| 0 <= j < i ==> (#[trigger] before[j]).0@ != key@,
        ensures
            i <= entries@.len(),
            entries@ == before,
            forall|j: int| 0 <= j < i ==> (#[trigger] before[j]).0@ != key@,
            i < entries@.len() ==> before[i as int].0@ == key@,
        decreases entries@.len() - i,
    {
        if text_eq(entries[i].0.as_str(), key.as_str()) {
            break;
        }
        i += 1;
    }
    let ghost entry = (key, value);
    if i < entries.len() {
        entries.set(i, (key, value));
        proof {
            lemma_replaced_entry(before, entry, i as int);
        }
    } else {
        entries.push((key, value));
        assert(entries@.drop_last() == before);
    }
}

/// Takes a `serde_json::Value` apart by its variants. An object's entries come
/// out by `serde_json::Map::into_iter`, each key once.
#[verifier::external_body]
fn open_value(v: Value) -> (node: Node)
    ensures
        node_model(node) == value_model(v),
        node matches Node::Object(entries) ==> distinct_keys(entries@),
{
    match v {
        Value::Null => Node::Null,
        Value::Bool(b) => Node::Bool(b),
        Value::Number(n) => Node::Number(n),
        Value::String(t) => Node::Str(t),
        Value::Array(items) => Node::Array(items),
        Value::Object(map) => Node::Object(map.into_iter().collect()),
    }
}

/// Puts a `serde_json::Value` together from its variants. An object's entries, each
/// key once, go in by `serde_json::Map::from_iter`.
#[verifier::external_body]
fn seal_value(node: Node) -> (v: Value)
    requires
        node matches Node::Object(entries) ==> distinct_keys(entries@),
    ensures
        value_model(v) == node_model(node),
{
    match node {
        Node::Null => Value::Null,
        Node::Bool(b) => Value::Bool(b),
        Node::Number(n) => Value::Number(n),
        Node::Str(t) => Value::String(t),
        Node::Array(items) => Value::Array(items),
        Node::Object(entries) => Value::Object(entries.into_iter().collect()),
    }
}

/// The value that `serde_json` reads from a text, where the text is JSON.
pub uninterp spec fn parsed_json(text: Seq<char>) -> Option<JsonView>;

/// The compact text that `serde_json` writes for a value.
pub uninterp spec fn json_text(v: JsonView) -> Seq<char>;

/// The number of `serde_json` for an integer.
pub uninterp spec fn json_number(n: i64) -> Number;

/// `serde_json::from_str` for a `Value`: the value of the text, or nothing when
/// the text is not JSON. What the grammar is, is left to the name [`parsed_json`].
#[verifier::external_body]
fn value_from_text(text: &str) -> (v: Option<Value>)
    ensures
        parsed_json(text@) == match v {
            Some(v) => Some(value_model(v)),
            None => None,
        },
{
    serde_json::from_str::<Value>(text).ok()
}

/// The key that `serde_json` keeps for itself: an object that starts with it is read
/// as the value whose text stands there.
pub open spec fn reserved_key() -> Seq<char> {
    "$serde_json::private::RawValue"@
}

/// A key that starts with anything but a dollar sign is not reserved.
pub proof fn lemma_key_is_free(key: Seq<char>)
    requires
        key.len() > 0,
        key[0] != '$',
    ensures
        key != reserved_key(),
{
    reveal_strlit("$serde_json::private::RawValue");
}

/// Whether a value holds no number and no reserved key, and nests at most `depth`
/// levels deep.
pub open spec fn plain(v: JsonView, depth: nat) -> bool
    decreases depth,
{
    match v {
        JsonView::Null | JsonView::Bool(_) | JsonView::Str(_) => true,
        JsonView::Number(_) => false,
        JsonView::Array(items) => depth > 0 && forall|i: int|
            0 <= i < items.len() ==> plain(#[trigger] items[i], (depth - 1) as nat),
        JsonView::Object(map) => depth > 0 && forall|k: Seq<char>| #[trigger]
            map.contains_key(k) ==> k != reserved_key() && plain(map[k], (depth - 1) as nat),
    }
}

/// `Value::to_string`: the compact text of a value. `serde_json` reads the value
/// back from it where the value holds no number (a fraction may change in its
/// last digit), nests less deep than the 127 levels that it reads, and has no
/// object with the key that stands for raw JSON, which is written like any other
/// but, in the first place of an object, is not read as a key.
#[verifier::external_body]
fn value_text(v: &Value) -> (text: String)
    ensures
        text@ == json_text(value_model(*v)),
        plain(value_model(*v), 100) ==> parsed_json(text@) == Some(value_model(*v)),
{
    v.to_string()
}

/// `serde_json::Number::from`: the number of an integer.
#[verifier::external_body]
fn number_from(n: i64) -> (number: Number)
    ensures
        number == json_number(n),
{
    Number::from(n)
}

/// The value of a `serde_json` value.
pub fn from_value(v: Value) -> (json: Json)
    ensures
        json@ == value_model(v),
    decreases value_model(v),
{
    let ghost whole = value_model(v);
    match open_value(v) {
        Node::Null => Json::Null,
        Node::Bool(b) => Json::Bool(b),
        Node::Number(n) => Json::Number(n),
        Node::Str(t) => Json::Str(t),
        Node::Array(items) => {
            let ghost all = items@;
            let mut list: Vec<Json> = Vec::new();
            for item in it: items
                invariant
                    it.seq() == all,
                    whole == value_model(v),
                    whole == JsonView::Array(all.map_values(|v: Value| value_model(v))),
                    list@.len() == it.index(),
                    forall|i: int| 0 <= i < list@.len() ==> (#[trigger] list@[i])@ == value_model(all[i]),
            {
                assert(whole->Array_0[it.index() as int] == value_model(item));
                list.push(from_value(item));
            }
            assert(items_model(list@) =~= all.map_values(|v: Value| value_model(v)));
            Json::Array(list)
        },
        Node::Object(entries) => {
            let ghost all = entries@;
            let mut list: Vec<(String, Json)> = Vec::new();
            for entry in it: entries
                invariant
                    it.seq() == all,
                    distinct_keys(all),
                    whole == value_model(v),
                    whole == JsonView::Object(value_entries_model(all)),
                    list@.len() == it.index(),
                    entries_model(list@) == value_entries_model(all.take(it.index() as int)),
            {
                let ghost k = it.index() as int;
                let ghost before = list@;
                proof {
                    lemma_entry_is_held(all, k);
                    assert(decreases_to!(whole => whole->Object_0));
                    assert(decreases_to!(whole->Object_0 => whole->Object_0[all[k].0@]));
                    assert(all.take(k + 1).drop_last() == all.take(k));
                }
                list.push((entry.0, from_value(entry.1)));
                assert(list@.drop_last() == before);
            }
            assert(all.take(all.len() as int) == all);
            Json::Object(list)
        },
    }
}

/// The `serde_json` value of a value.
pub fn to_value(json: Json) -> (v: Value)
    ensures
        value_model(v) == json@,
    decreases json,
{
    match json {
        Json::Null => seal_value(Node::Null),
        Json::Bool(b) => seal_value(Node::Bool(b)),
        Json::Number(n) => seal_value(Node::Number(n)),
        Json::Str(t) => seal_value(Node::Str(t)),
        Json::Array(items) => {
            let ghost all = items@;
            let mut list: Vec<Value> = Vec::new();
            for item in it: items
                invariant
                    it.seq() == all,
                    json == Json::Array(items),
                    items@ == all,
                    list@.len() == it.index(),
                    forall|i: int|
                        0 <= i < list@.len() ==> value_model(#[trigger] list@[i]) == all[i]@,
            {
                proof {
                    assert(decreases_to!(json => json->Array_0));
                    assert(decreases_to!(json->Array_0 => json->Array_0@));
                    assert(decreases_to!(json->Array_0@ => json->Array_0@[it.index() as int]));
                }
                list.push(to_value(item));
            }
            assert(list@.map_values(|v: Value| value_model(v)) =~= items_model(all));
            seal_value(Node::Array(list))
        },
        Json::Object(entries) => {
            let ghost all = entries@;
            let mut list: Vec<(String, Value)> = Vec::new();
            for entry in it: entries
                invariant
                    it.seq() == all,
                    json == Json::Object(entries),
                    entries@ == all,
                    distinct_keys(list@),
                    value_entries_model(list@) == entries_model(all.take(it.index() as int)),
            {
                let ghost k = it.index() as int;
                proof {
                    assert(decreases_to!(json => json->Object_0));
                    assert(decreases_to!(json->Object_0 => json->Object_0@));
                    assert(decreases_to!(json->Object_0@ => json->Object_0@[k]));
                    assert(decreases_to!(json->Object_0@[k] => json->Object_0@[k].1));
                    assert(all.take(k + 1).drop_last() == all.take(k));
                }
                put_entry(&mut list, entry.0, to_value(entry.1));
            }
            assert(all.take(all.len() as int) == all);
            seal_value(Node::Object(list))
        },
    }
}

/// `serde_json::Number::clone`: the same number.
pub assume_specification[<serde_json::Number as Clone>::clone](n: &serde_json::Number) -> (same:
    serde_json::Number)
    ensures
        same == *n,
;

impl Json {
    /// The same value once more.
    pub fn copy(&self) -> (json: Json)
        ensures
            json@ == self@,
        decreases self,
    {
        match self {
            Json::Null => Json::Null,
            Json::Bool(b) => Json::Bool(*b),
            Json::Number(n) => Json::Number(n.clone()),
            Json::Str(t) => Json::Str(t.clone()),
            Json::Array(items) => {
                let mut list: Vec<Json> = Vec::new();
                let mut i: usize = 0;
                while i < items.len()
                    invariant
                        i <= items@.len(),
                        *self == Json::Array(*items),
                        list@.len() == i,
                        forall|j: int| 0 <= j < i ==> (#[trigger] list@[j])@ == items@[j]@,
                    decreases items@.len() - i,
                {
                    proof {
                        assert(decreases_to!(self => self->Array_0));
                        assert(decreases_to!(self->Array_0 => self->Array_0@));
                        assert(decreases_to!(self->Array_0@ => self->Array_0@[i as int]));
                    }
                    list.push(items[i].copy());
                    i += 1;
                }
                assert(items_model(list@) =~= items_model(items@));
                Json::Array(list)
            },
            Json::Object(entries) => {
                let mut list: Vec<(String, Json)> = Vec::new();
                let mut i: usize = 0;
                while i < entries.len()
                    invariant
                        i <= entries@.len(),
                        *self == Json::Object(*entries),
                        list@.len() == i,
                        entries_model(list@) == entries_model(entries@.take(i as int)),
                    decreases entries@.len() - i,
                {
                    let ghost before = list@;
                    let ghost k = i as int;
                    proof {
                        assert(decreases_to!(self => self->Object_0));
                        assert(decreases_to!(self->Object_0 => self->Object_0@));
                        assert(decreases_to!(self->Object_0@ => self->Object_0@[k]));
                        assert(decreases_to!(self->Object_0@[k] => self->Object_0@[k].1));
                        assert(entries@.take(k + 1).drop_last() == entries@.take(k));
                    }
                    list.push((entries[i].0.clone(), entries[i].1.copy()));
                    assert(list@.drop_last() == before);
                    i += 1;
                }
                assert(entries@.take(entries@.len() as int) == entries@);
                Json::Object(list)
            },
        }
    }
}

/// The model of an optional value.
pub open spec fn opt_json(v: Option<Json>) -> Option<JsonView> {
    match v {
        Some(v) => Some(v@),
        None => None,
    }
}

/// Reads a value from a text; nothing when the text is not JSON.
pub fn read_json(text: &str) -> (json: Option<Json>)
    ensures
        opt_json(json) == parsed_json(text@),
{
    match value_from_text(text) {
        Some(v) => Some(from_value(v)),
        None => None,
    }
}

/// Writes a value as compact text, from which a plain value is read back.
pub fn write_json(json: Json) -> (text: String)
    ensures
        text@ == json_text(json@),
        plain(json@, 100) ==> parsed_json(text@) == Some(json@),
{
    value_text(&to_value(json))
}

/// The number of an integer.
pub fn integer_json(n: i64) -> (json: Json)
    ensures
        json@ == JsonView::Number(json_number(n)),
{
    Json::Number(number_from(n))
}

/// The text value of a borrowed text.
pub fn string_json(t: &str) -> (json: Json)
    ensures
        json@ == JsonView::Str(t@),
{
    Json::Str(t.to_owned())
}

/// The value of an optional text: the text, or null.
pub open spec fn opt_str_json(t: Option<Seq<char>>) -> JsonView {
    match t {
        Some(t) => JsonView::Str(t),
        None => JsonView::Null,
    }
}

/// The text, or null.
pub fn opt_string_json(t: &Option<String>) -> (json: Json)
    ensures
        json@ == opt_str_json(opt_text(*t)),
{
    match t {
        Some(t) => string_json(t.as_str()),
        None => Json::Null,
    }
}

/// What an object holds under a key.
pub open spec fn member(v: JsonView, key: Seq<char>) -> Option<JsonView> {
    match v {
        JsonView::Object(map) if map.contains_key(key) => Some(map[key]),
        _ => None,
    }
}

/// The text that a value is, where it is one.
pub open spec fn as_text(v: JsonView) -> Option<Seq<char>> {
    match v {
        JsonView::Str(t) => Some(t),
        _ => None,
    }
}

/// Whether the entries from `i` on leave the key alone.
spec fn key_free_from(entries: Seq<(String, Json)>, key: Seq<char>, i: int) -> bool {
    forall|j: int| i <= j < entries.len() ==> (#[trigger] entries[j]).0@ != key
}

proof fn lemma_last_entry_counts(entries: Seq<(String, Json)>, key: Seq<char>, i: int)
    requires
        -1 <= i < entries.len(),
        key_free_from(entries, key, i + 1),
        i >= 0 ==> entries[i].0@ == key,
    ensures
        entries_model(entries).contains_key(key) == (i >= 0),
        i >= 0 ==> entries_model(entries)[key] == entries[i].1@,
    decreases entries.len(),
{
    if entries.len() > 0 && i < entries.len() - 1 {
        let last = entries.len() - 1;
        assert(entries[last].0@ != key);
        assert forall|j: int| i + 1 <= j < entries.drop_last().len() implies (
        #[trigger] entries.drop_last()[j]).0@ != key by {
            assert(entries[j].0@ != key);
        }
        lemma_last_entry_counts(entries.drop_last(), key, i);
    }
}

proof fn lemma_update_entry(entries: Seq<(String, Json)>, entry: (String, Json), i: int)
    requires
        0 <= i < entries.len(),
        entries[i].0@ == entry.0@,
        key_free_from(entries, entry.0@, i + 1),
    ensures
        entries_model(entries.update(i, entry)) == entries_model(entries).insert(
            entry.0@,
            entry.1@,
        ),
    decreases entries.len(),
{
    let last = entries.len() - 1;
    let new = entries.update(i, entry);
    if i < last {
        assert(entries[last].0@ != entry.0@);
        assert forall|j: int| i + 1 <= j < entries.drop_last().len() implies (
        #[trigger] entries.drop_last()[j]).0@ != entry.0@ by {
            assert(entries[j].0@ != entry.0@);
        }
        lemma_update_entry(entries.drop_last(), entry, i);
        assert(new.drop_last() == entries.drop_last().update(i, entry));
        assert(new[last] == entries[last]);
        assert(entries_model(new) =~= entries_model(entries).insert(entry.0@, entry.1@));
    } else {
        assert(new.drop_last() == entries.drop_last());
        assert(entries_model(new) =~= entries_model(entries).insert(entry.0@, entry.1@));
    }
}

fn find_key(entries: &Vec<(String, Json)>, key: &str) -> (at: Option<usize>)
    ensures
        match at {
            Some(i) => i < entries@.len() && entries@[i as int].0@ == key@ && key_free_from(
                entries@,
                key@,
                i + 1,
            ),
            None => key_free_from(entries@, key@, 0),
        },
{
    let mut i: usize = entries.len();
    while i > 0
        invariant
            i <= entries@.len(),
            key_free_from(entries@, key@, i as int),
        decreases i,
    {
        i -= 1;
        if text_eq(entries[i].0.as_str(), key) {
            return Some(i);
        }
    }
    None
}

impl Json {
    /// What this object holds under a key; nothing when it is no object.
    pub fn get(&self, key: &str) -> (found: Option<&Json>)
        ensures
            member(self@, key@) == match found {
                Some(v) => Some(v@),
                None => None,
            },
    {
        match self {
            Json::Object(entries) => {
                let at = find_key(entries, key);
                match at {
                    Some(i) => {
                        proof {
                            lemma_last_entry_counts(entries@, key@, i as int);
                        }
                        Some(&entries[i].1)
                    },
                    None => {
                        proof {
                            lemma_last_entry_counts(entries@, key@, -1);
                        }
                        None
                    },
                }
            },
            _ => None,
        }
    }

    /// The text that this value is, where it is one.
    pub fn as_str(&self) -> (text: Option<&str>)
        ensures
            as_text(self@) == crate::text::opt_str(text),
    {
        match self {
            Json::Str(t) => Some(t.as_str()),
            _ => None,
        }
    }

    /// The items of this array; nothing when it is none.
    pub fn as_array(&self) -> (items: Option<&Vec<Json>>)
        ensures
            match items {
                Some(items) => self@ == JsonView::Array(items_model(items@)),
                None => !(self@ is Array),
            },
    {
        match self {
            Json::Array(items) => Some(items),
            _ => None,
        }
    }

    /// Puts a value under a key, in place of what was there. Null becomes an
    /// object first.
    pub fn set(&mut self, key: &str, value: Json)
        requires
            old(self)@ is Object || old(self)@ is Null,
        ensures
            final(self)@ == with_member(old(self)@, key@, value@),
    {
        let mut taken = Json::Null;
        std::mem::swap(&mut taken, self);
        let mut entries = match taken {
            Json::Object(entries) => entries,
            _ => Vec::new(),
        };
        match find_key(&entries, key) {
            Some(i) => {
                let ghost before = entries@;
                let entry = entries.remove(i);
                let ghost new = (entry.0, value);
                proof {
                    lemma_update_entry(before, new, i as int);
                }
                entries.insert(i, (entry.0, value));
                assert(entries@ =~= before.update(i as int, new));
            },
            None => {
                let ghost before = entries@;
                entries.push((key.to_owned(), value));
                assert(entries@.drop_last() == before);
                assert(before.len() == 0 ==> entries_model(before) == Map::<
                    Seq<char>,
                    JsonView,
                >::empty());
            },
        }
        *self = Json::Object(entries);
    }

    /// Takes out what this object holds under a key, which keeps its place as
    /// null; null when there is nothing there.
    fn take(&mut self, key: &str) -> (value: Json)
        ensures
            match member(old(self)@, key@) {
                Some(v) => value@ == v && final(self)@ == with_member(
                    old(self)@,
                    key@,
                    JsonView::Null,
                ),
                None => value@ == JsonView::Null && final(self)@ == old(self)@,
            },
    {
        let mut taken = Json::Null;
        std::mem::swap(&mut taken, self);
        match taken {
            Json::Object(mut entries) => {
                let ghost before = entries@;
                match find_key(&entries, key) {
                    Some(i) => {
                        let entry = entries.remove(i);
                        let ghost new = (entry.0, Json::Null);
                        proof {
                            lemma_last_entry_counts(before, key@, i as int);
                            lemma_update_entry(before, new, i as int);
                        }
                        entries.insert(i, (entry.0, Json::Null));
                        assert(entries@ =~= before.update(i as int, new));
                        *self = Json::Object(entries);
                        entry.1
                    },
                    None => {
                        proof {
                            lemma_last_entry_counts(before, key@, -1);
                        }
                        *self = Json::Object(entries);
                        Json::Null
                    },
                }
            },
            other => {
                *self = other;
                Json::Null
            },
        }
    }

    /// Takes the array out of this object's member, in whose place null stays;
    /// an empty array when the member is missing or is no array.
    pub(crate) fn take_array(&mut self, key: &str) -> (items: Vec<Json>)
        ensures
            items_model(items@) == array_member(old(self)@, key@),
            final(self)@ == old(self)@ || final(self)@ == with_member(
                old(self)@,
                key@,
                JsonView::Null,
            ),
            final(self)@ is Object == old(self)@ is Object,
            final(self)@ is Null == old(self)@ is Null,
    {
        match self.take(key) {
            Json::Array(items) => items,
            _ => {
                let items: Vec<Json> = Vec::new();
                assert(items_model(items@) =~= Seq::<JsonView>::empty());
                items
            },
        }
    }
}

/// A value with one member replaced or added; null counts as an object without members.
pub open spec fn with_member(v: JsonView, key: Seq<char>, value: JsonView) -> JsonView {
    match v {
        JsonView::Object(map) => JsonView::Object(map.insert(key, value)),
        _ => JsonView::Object(Map::empty().insert(key, value)),
    }
}

/// The array under a key; an empty one when the member is missing or is no array.
pub open spec fn array_member(v: JsonView, key: Seq<char>) -> Seq<JsonView> {
    match member(v, key) {
        Some(JsonView::Array(items)) => items,
        _ => Seq::empty(),
    }
}

/// What is put under a key is found there, and what stands under another key stays; the
/// value is an object then.
pub proof fn law_member_is_found_where_it_was_put(
    v: JsonView,
    key: Seq<char>,
    value: JsonView,
    other: Seq<char>,
)
    requires
        v is Object || v is Null,
    ensures
        with_member(v, key, value) is Object,
        member(with_member(v, key, value), key) == Some(value),
        other != key ==> member(with_member(v, key, value), other) == member(v, other),
{
}

/// A list under a key is all that is an array there; anything else counts as no items.
pub proof fn law_array_under_a_key(v: JsonView, key: Seq<char>)
    ensures
        v is Object && v->Object_0.contains_key(key) && v->Object_0[key] is Array
            ==> array_member(v, key) == v->Object_0[key]->Array_0,
        !(v is Object && v->Object_0.contains_key(key) && v->Object_0[key] is Array)
            ==> array_member(v, key).len() == 0,
        v is Object && v->Object_0.contains_key(key) ==> member(v, key) == Some(v->Object_0[key]),
        !(v is Object && v->Object_0.contains_key(key)) ==> member(v, key) is None,
{
}

} // verus!
