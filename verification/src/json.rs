//! JSON documents.

use vstd::prelude::*;
use vstd::string::*;

use crate::decimal;
use crate::decimal::parsed_number;
use crate::order;
use crate::order::put;
use crate::text;
use crate::text::{chars_of, same_text, Class};

verus! {

/// A JSON value as mathematics. A number is the text that it is written as.
pub enum JsonView {
    Null,
    Bool(bool),
    Number(Seq<char>),
    Text(Seq<char>),
    Array(Seq<JsonView>),
    Object(Map<Seq<char>, JsonView>),
}

/// A JSON value.
pub enum Json {
    Null,
    Bool(bool),
    Number(serde_json::Number),
    Text(String),
    Array(Vec<Json>),
    Object(Vec<(String, Json)>),
}

/// The map that a list of entries stands for: of two entries with one key
/// the later one counts.
pub open spec fn entry_map(entries: Seq<(Seq<char>, JsonView)>) -> Map<Seq<char>, JsonView>
    decreases entries.len(),
{
    if entries.len() == 0 {
        Map::empty()
    } else {
        entry_map(entries.drop_last()).insert(entries.last().0, entries.last().1)
    }
}

impl Json {
    /// The value as mathematics.
    pub open spec fn model(self) -> JsonView
        decreases self,
    {
        match self {
            Json::Null => JsonView::Null,
            Json::Bool(b) => JsonView::Bool(b),
            Json::Number(n) => JsonView::Number(number_text(n)),
            Json::Text(s) => JsonView::Text(s@),
            Json::Array(items) => JsonView::Array(Json::models(items@)),
            Json::Object(entries) => JsonView::Object(Json::map_model(entries@)),
        }
    }

    /// The items of an array as mathematics.
    pub open spec fn models(items: Seq<Json>) -> Seq<JsonView>
        decreases items,
    {
        if items.len() == 0 {
            Seq::empty()
        } else {
            Json::models(items.drop_last()).push(items.last().model())
        }
    }

    /// The entries of an object as mathematics.
    pub open spec fn map_model(entries: Seq<(String, Json)>) -> Map<Seq<char>, JsonView>
        decreases entries,
    {
        if entries.len() == 0 {
            Map::empty()
        } else {
            Json::map_model(entries.drop_last()).insert(
                entries.last().0@,
                entries.last().1.model(),
            )
        }
    }
}

impl View for Json {
    type V = JsonView;

    open spec fn view(&self) -> JsonView {
        self.model()
    }
}

/// The keys of a list of entries.
pub open spec fn keys_of(entries: Seq<(String, Json)>) -> Seq<Seq<char>> {
    entries.map_values(|e: (String, Json)| e.0@)
}

/// A list of entries of a JSON object as mathematics.
pub open spec fn entry_views(entries: Seq<(String, Json)>) -> Seq<(Seq<char>, JsonView)> {
    entries.map_values(|e: (String, Json)| (e.0@, e.1.model()))
}

/// The items of an array stand one for one.
pub proof fn lemma_models(items: Seq<Json>)
    ensures
        Json::models(items) == items.map_values(|x: Json| x.model()),
    decreases items.len(),
{
    if items.len() > 0 {
        lemma_models(items.drop_last());
    }
    assert(Json::models(items) =~= items.map_values(|x: Json| x.model()));
}

proof fn lemma_map_model(entries: Seq<(String, Json)>)
    ensures
        Json::map_model(entries) == entry_map(entry_views(entries)),
    decreases entries.len(),
{
    if entries.len() > 0 {
        lemma_map_model(entries.drop_last());
        assert(entry_views(entries.drop_last()) =~= entry_views(entries).drop_last());
    }
}

/// A key has the value of its last entry.
proof fn lemma_entry_map(entries: Seq<(Seq<char>, JsonView)>, i: int)
    requires
        0 <= i < entries.len(),
        forall|j: int| i < j < entries.len() ==> (#[trigger] entries[j]).0 != entries[i].0,
    ensures
        entry_map(entries).contains_key(entries[i].0),
        entry_map(entries)[entries[i].0] == entries[i].1,
    decreases entries.len(),
{
    if i < entries.len() - 1 {
        lemma_entry_map(entries.drop_last(), i);
        assert(entries.last() == entries[entries.len() - 1]);
    }
}

/// The keys of the map are those of the entries.
proof fn lemma_entry_keys(entries: Seq<(Seq<char>, JsonView)>)
    ensures
        entry_map(entries).dom().finite(),
        forall|k: Seq<char>| #[trigger] entry_map(entries).contains_key(k) <==> exists|i: int|
            0 <= i < entries.len() && (#[trigger] entries[i]).0 == k,
    decreases entries.len(),
{
    if entries.len() > 0 {
        let rest = entries.drop_last();
        lemma_entry_keys(rest);
        assert forall|k: Seq<char>| #[trigger] entry_map(entries).contains_key(k) <==> exists|
            i: int,
        |
            0 <= i < entries.len() && (#[trigger] entries[i]).0 == k by {
            if entry_map(entries).contains_key(k) {
                if k == entries.last().0 {
                    assert(entries[entries.len() - 1].0 == k);
                } else {
                    assert(entry_map(rest).contains_key(k));
                    let i = choose|i: int| 0 <= i < rest.len() && (#[trigger] rest[i]).0 == k;
                    assert(entries[i].0 == k);
                }
            }
            if exists|i: int| 0 <= i < entries.len() && (#[trigger] entries[i]).0 == k {
                let i = choose|i: int| 0 <= i < entries.len() && (#[trigger] entries[i]).0 == k;
                if i < rest.len() {
                    assert(rest[i].0 == k);
                    assert(entry_map(rest).contains_key(k));
                }
            }
        }
    }
}

// ---------------------------------------------------------------------------
// The values of the `serde_json` crate.
// ---------------------------------------------------------------------------

#[verifier::external_type_specification]
#[verifier::external_body]
pub struct ExNumber(serde_json::Number);

#[verifier::external_type_specification]
#[verifier::external_body]
pub struct ExValue(serde_json::Value);

/// The text that a number is written as.
pub uninterp spec fn number_text(n: serde_json::Number) -> Seq<char>;

/// What a value holds.
pub uninterp spec fn held(v: serde_json::Value) -> JsonView;

/// What a text parses to, or what the parser says of it.
pub uninterp spec fn parsed(text: Seq<char>) -> Result<JsonView, Seq<char>>;

/// A value written on one line.
pub uninterp spec fn compact_text(j: JsonView) -> Seq<char>;

/// A value written on indented lines.
pub uninterp spec fn pretty_text(j: JsonView) -> Seq<char>;

/// A value with its outermost layer laid open.
pub enum Shape {
    Null,
    Bool(bool),
    Number(serde_json::Number),
    Text(String),
    Array(Vec<serde_json::Value>),
    Object(Vec<(String, serde_json::Value)>),
}

/// The keys of a list of entries.
pub open spec fn shape_keys(entries: Seq<(String, serde_json::Value)>) -> Seq<Seq<char>> {
    entries.map_values(|e: (String, serde_json::Value)| e.0@)
}

/// A list of entries as mathematics.
pub open spec fn shape_entries(entries: Seq<(String, serde_json::Value)>) -> Seq<
    (Seq<char>, JsonView),
> {
    entries.map_values(|e: (String, serde_json::Value)| (e.0@, held(e.1)))
}

/// What an opened value holds.
pub open spec fn shape_view(s: Shape) -> JsonView {
    match s {
        Shape::Null => JsonView::Null,
        Shape::Bool(b) => JsonView::Bool(b),
        Shape::Number(n) => JsonView::Number(number_text(n)),
        Shape::Text(t) => JsonView::Text(t@),
        Shape::Array(items) => JsonView::Array(items@.map_values(|v: serde_json::Value| held(v))),
        Shape::Object(entries) => JsonView::Object(entry_map(shape_entries(entries@))),
    }
}

/// `Number::from(u64)` is written in the decimal digits of the integer.
#[verifier::external_body]
fn number_of(n: u64) -> (r: serde_json::Number)
    ensures
        number_text(r) == decimal::decimal(n as nat),
{
    serde_json::Number::from(n)
}

/// `Number::as_u64` gives the integer of a number that is written in the
/// decimal digits of a `u64`, and nothing for any other number.
#[verifier::external_body]
fn integer_of(n: &serde_json::Number) -> (r: Option<u64>)
    ensures
        match r {
            Some(i) => number_text(*n) == decimal::decimal(i as nat),
            None => forall|i: u64| number_text(*n) != #[trigger] decimal::decimal(i as nat),
        },
{
    n.as_u64()
}

/// `Number::clone` keeps the number.
#[verifier::external_body]
fn copy_number(n: &serde_json::Number) -> (r: serde_json::Number)
    ensures
        number_text(r) == number_text(*n),
{
    n.clone()
}

/// Two numbers are equal when they are written alike, or both are the
/// floating point zero, with either sign.
pub open spec fn equal_numbers(a: Seq<char>, b: Seq<char>) -> bool {
    a == b || ((a == "0.0"@ || a == "-0.0"@) && (b == "0.0"@ || b == "-0.0"@))
}

/// `Number::eq` compares integers with integers and floating point numbers
/// with floating point numbers, by their values.
#[verifier::external_body]
fn numbers_equal(a: &serde_json::Number, b: &serde_json::Number) -> (r: bool)
    ensures
        r == equal_numbers(number_text(*a), number_text(*b)),
{
    a == b
}

/// The variants of `serde_json::Value`, taken apart. A map hands out its
/// entries in the order of their keys.
#[verifier::external_body]
fn open_value(v: serde_json::Value) -> (r: Shape)
    ensures
        shape_view(r) == held(v),
        r matches Shape::Object(entries) ==> order::ascending(shape_keys(entries@)),
{
    match v {
        serde_json::Value::Null => Shape::Null,
        serde_json::Value::Bool(b) => Shape::Bool(b),
        serde_json::Value::Number(n) => Shape::Number(n),
        serde_json::Value::String(s) => Shape::Text(s),
        serde_json::Value::Array(items) => Shape::Array(items),
        serde_json::Value::Object(map) => Shape::Object(map.into_iter().collect()),
    }
}

/// The variants of `serde_json::Value`, put together. A map is collected
/// from entries with distinct keys.
#[verifier::external_body]
fn close_value(s: Shape) -> (r: serde_json::Value)
    requires
        s matches Shape::Object(entries) ==> shape_keys(entries@).no_duplicates(),
    ensures
        held(r) == shape_view(s),
{
    match s {
        Shape::Null => serde_json::Value::Null,
        Shape::Bool(b) => serde_json::Value::Bool(b),
        Shape::Number(n) => serde_json::Value::Number(n),
        Shape::Text(t) => serde_json::Value::String(t),
        Shape::Array(items) => serde_json::Value::Array(items),
        Shape::Object(entries) => serde_json::Value::Object(entries.into_iter().collect()),
    }
}

/// `serde_json::from_str` parses a text, or says what is wrong with it: the
/// outcome depends on the text alone.
#[verifier::external_body]
fn value_from_text(text: &str) -> (r: Result<serde_json::Value, String>)
    ensures
        match r {
            Ok(v) => parsed(text@) == Ok::<JsonView, Seq<char>>(held(v)),
            Err(e) => parsed(text@) == Err::<JsonView, Seq<char>>(e@),
        },
{
    serde_json::from_str(text).map_err(|e: serde_json::Error| e.to_string())
}

/// `Value::to_string` writes a value on one line: `null`, a truth value by
/// its name, a number by its own text.
#[verifier::external_body]
fn value_compact(v: &serde_json::Value) -> (r: String)
    ensures
        r@ == compact_text(held(*v)),
        held(*v) is Null ==> r@ == "null"@,
        held(*v) matches JsonView::Bool(b) ==> r@ == if b { "true"@ } else { "false"@ },
        held(*v) matches JsonView::Number(t) ==> r@ == t,
{
    v.to_string()
}

/// The value holds no numbers but `u64` integers, and its arrays and objects
/// are nested no deeper than the given level.
pub open spec fn simple(j: JsonView, levels: nat) -> bool
    decreases levels,
{
    match j {
        JsonView::Number(t) => exists|i: u64| t == #[trigger] decimal::decimal(i as nat),
        JsonView::Array(items) => levels > 0 && forall|i: int|
            0 <= i < items.len() ==> simple(#[trigger] items[i], (levels - 1) as nat),
        JsonView::Object(map) => levels > 0 && forall|k: Seq<char>|
            map.contains_key(k) ==> simple(#[trigger] map[k], (levels - 1) as nat),
        _ => true,
    }
}

/// An object with one more simple value is as simple.
pub proof fn lemma_simple_insert(
    map: Map<Seq<char>, JsonView>,
    key: Seq<char>,
    value: JsonView,
    levels: nat,
)
    requires
        levels > 0,
        simple(JsonView::Object(map), levels),
        simple(value, (levels - 1) as nat),
    ensures
        simple(JsonView::Object(map.insert(key, value)), levels),
{
    let new = map.insert(key, value);
    let below = (levels - 1) as nat;
    let j = JsonView::Object(map);
    assert(simple(j, levels));
    assert forall|k: Seq<char>| new.contains_key(k) implies simple(#[trigger] new[k], below) by {
        if k != key {
            assert(j->Object_0.contains_key(k));
            assert(simple(j->Object_0[k], below));
        }
    }
}

/// `serde_json::to_string_pretty` writes a value on indented lines. Where
/// the numbers are `u64` integers and the nesting stays below the parser's
/// limit, the parser reads the value back.
#[verifier::external_body]
fn value_pretty(v: &serde_json::Value) -> (r: String)
    ensures
        r@ == pretty_text(held(*v)),
        simple(held(*v), 100) ==> parsed(r@) is Ok && parsed(r@)->Ok_0 == held(*v),
{
    serde_json::to_string_pretty(v).unwrap()
}

// ---------------------------------------------------------------------------
// From texts to documents and back.
// ---------------------------------------------------------------------------

fn read_value(v: serde_json::Value) -> (r: Json)
    ensures
        r@ == held(v),
    decreases held(v),
{
    match open_value(v) {
        Shape::Null => Json::Null,
        Shape::Bool(b) => Json::Bool(b),
        Shape::Number(n) => Json::Number(n),
        Shape::Text(s) => Json::Text(s),
        Shape::Array(items) => {
            let ghost all = items@;
            let mut out: Vec<Json> = Vec::new();
            for item in it: items
                invariant
                    it.seq() == all,
                    held(v) == JsonView::Array(all.map_values(|v: serde_json::Value| held(v))),
                    out@.len() == it.index(),
                    forall|i: int|
                        0 <= i < out@.len() ==> (#[trigger] out@[i]).model() == held(all[i]),
            {
                let ghost k = out@.len() as int;
                assert(item == all[k]);
                assert(held(v)->Array_0[k] == held(item));
                assert(decreases_to!(held(v) => held(v)->Array_0));
                assert(decreases_to!(held(v)->Array_0 => held(v)->Array_0[k]));
                out.push(read_value(item));
            }
            let r = Json::Array(out);
            proof {
                lemma_models(out@);
                assert(r@->Array_0 =~= held(v)->Array_0);
            }
            r
        },
        Shape::Object(entries) => {
            let ghost all = entries@;
            let ghost es = shape_entries(all);
            let mut out: Vec<(String, Json)> = Vec::new();
            proof {
                lemma_entry_keys(es);
            }
            for entry in it: entries
                invariant
                    it.seq() == all,
                    es == shape_entries(all),
                    held(v) == JsonView::Object(entry_map(es)),
                    entry_map(es).dom().finite(),
                    order::ascending(shape_keys(all)),
                    out@.len() == it.index(),
                    forall|i: int| 0 <= i < out@.len() ==> (#[trigger] out@[i]).0@ == all[i].0@,
                    forall|i: int|
                        0 <= i < out@.len() ==> (#[trigger] out@[i]).1.model() == held(all[i].1),
            {
                let ghost k = out@.len() as int;
                assert(entry == all[k]);
                proof {
                    assert forall|j: int| k < j < es.len() implies (#[trigger] es[j]).0
                        != es[k].0 by {
                        let ks = shape_keys(all);
                        assert(order::le(ks[k], ks[j]));
                    }
                    lemma_entry_map(es, k);
                    let map = held(v)->Object_0;
                    assert(map[es[k].0] == held(entry.1));
                    assert(decreases_to!(held(v) => map));
                    assert(decreases_to!(map => map[es[k].0]));
                }
                out.push((entry.0, read_value(entry.1)));
            }
            let r = Json::Object(out);
            proof {
                lemma_map_model(out@);
                assert(entry_views(out@) =~= es);
            }
            r
        },
    }
}

/// The last entry with a key.
fn find_entry(entries: &Vec<(String, Json)>, key: &str) -> (r: Option<usize>)
    ensures
        match r {
            Some(i) => {
                &&& i < entries@.len()
                &&& entries@[i as int].0@ == key@
                &&& entry_map(entry_views(entries@)).contains_key(key@)
                &&& entry_map(entry_views(entries@))[key@] == entries@[i as int].1@
            },
            None => !entry_map(entry_views(entries@)).contains_key(key@),
        },
{
    let ghost es = entry_views(entries@);
    let mut i: usize = entries.len();
    while i > 0
        invariant
            i <= entries@.len(),
            es == entry_views(entries@),
            forall|j: int| i <= j < entries@.len() ==> (#[trigger] es[j]).0 != key@,
        decreases i,
    {
        i -= 1;
        if same_text(entries[i].0.as_str(), key) {
            proof {
                assert(es[i as int].0 == key@);
                lemma_entry_map(es, i as int);
            }
            return Some(i);
        }
        assert(es[i as int].0 != key@);
    }
    proof {
        lemma_entry_keys(es);
    }
    None
}

/// The keys of an object in dictionary order.
fn ordered_keys(entries: &Vec<(String, Json)>) -> (r: Vec<String>)
    ensures
        order::ascending(text::views(r@)),
        text::views(r@).to_set() == entry_map(entry_views(entries@)).dom(),
{
    let ghost es = entry_views(entries@);
    let mut out: Vec<String> = Vec::new();
    let mut i: usize = 0;
    assert(text::views(out@).to_set() =~= entry_map(es.take(0)).dom());
    while i < entries.len()
        invariant
            i <= entries.len(),
            es == entry_views(entries@),
            order::ascending(text::views(out@)),
            text::views(out@).to_set() == entry_map(es.take(i as int)).dom(),
        decreases entries.len() - i,
    {
        put(&mut out, entries[i].0.clone());
        proof {
            assert(es.take(i + 1).drop_last() =~= es.take(i as int));
            assert(es.take(i + 1).last() == es[i as int]);
            assert(entry_map(es.take(i + 1)).dom() =~= entry_map(es.take(i as int)).dom().insert(
                es[i as int].0,
            ));
        }
        i += 1;
    }
    assert(es.take(i as int) =~= es);
    out
}

fn write_value(j: &Json) -> (r: serde_json::Value)
    ensures
        held(r) == j@,
    decreases j,
{
    match j {
        Json::Null => close_value(Shape::Null),
        Json::Bool(b) => close_value(Shape::Bool(*b)),
        Json::Number(n) => close_value(Shape::Number(copy_number(n))),
        Json::Text(s) => close_value(Shape::Text(s.clone())),
        Json::Array(items) => {
            let mut out: Vec<serde_json::Value> = Vec::new();
            let mut i: usize = 0;
            while i < items.len()
                invariant
                    i <= items.len(),
                    out@.len() == i,
                    *j == Json::Array(*items),
                    forall|k: int| 0 <= k < i ==> held(#[trigger] out@[k]) == items@[k].model(),
                decreases items.len() - i,
            {
                assert(decreases_to!(*j => j->Array_0));
                assert(decreases_to!(items@ => items@[i as int]));
                out.push(write_value(&items[i]));
                i += 1;
            }
            let r = Shape::Array(out);
            proof {
                lemma_models(items@);
                assert(shape_view(r)->Array_0 =~= j@->Array_0);
            }
            close_value(r)
        },
        Json::Object(entries) => {
            let keys = ordered_keys(entries);
            let ghost ks = text::views(keys@);
            let ghost map = entry_map(entry_views(entries@));
            let mut out: Vec<(String, serde_json::Value)> = Vec::new();
            let mut i: usize = 0;
            while i < keys.len()
                invariant
                    i <= keys.len(),
                    ks == text::views(keys@),
                    ks.to_set() == map.dom(),
                    map == entry_map(entry_views(entries@)),
                    *j == Json::Object(*entries),
                    out@.len() == i,
                    forall|k: int|
                        0 <= k < i ==> (#[trigger] out@[k]).0@ == ks[k] && held(out@[k].1)
                            == map[ks[k]],
                decreases keys.len() - i,
            {
                let found = find_entry(entries, keys[i].as_str());
                assert(ks.to_set().contains(ks[i as int]));
                if let Some(e) = found {
                    assert(decreases_to!(*j => j->Object_0));
                    assert(decreases_to!(entries@ => entries@[e as int]));
                    assert(decreases_to!(entries@[e as int] => entries@[e as int].1));
                    out.push((keys[i].clone(), write_value(&entries[e].1)));
                }
                i += 1;
            }
            proof {
                assert(shape_keys(out@) =~= ks);
                order::lemma_ascending_count(ks);
                let es = shape_entries(out@);
                lemma_entry_keys(es);
                assert forall|k: Seq<char>| #[trigger] map.contains_key(k) implies entry_map(
                    es,
                ).contains_key(k) && entry_map(es)[k] == map[k] by {
                    assert(ks.to_set().contains(k));
                    let i = choose|i: int| 0 <= i < ks.len() && ks[i] == k;
                    assert(es[i].0 == k);
                    lemma_entry_map(es, i);
                }
                assert forall|k: Seq<char>| #[trigger] entry_map(es).contains_key(
                    k,
                ) implies map.contains_key(k) by {
                    let i = choose|i: int| 0 <= i < es.len() && (#[trigger] es[i]).0 == k;
                    assert(ks[i] == k);
                    assert(ks.to_set().contains(k));
                }
                assert(entry_map(es) =~= map);
                lemma_map_model(entries@);
            }
            close_value(Shape::Object(out))
        },
    }
}

/// The document that a text holds, or what the parser says of it.
pub fn parse_json(text: &str) -> (r: Result<Json, String>)
    ensures
        match r {
            Ok(j) => parsed(text@) == Ok::<JsonView, Seq<char>>(j@),
            Err(e) => parsed(text@) == Err::<JsonView, Seq<char>>(e@),
        },
{
    match value_from_text(text) {
        Ok(v) => Ok(read_value(v)),
        Err(e) => Err(e),
    }
}

/// The document written on one line.
pub fn compact(j: &Json) -> (r: String)
    ensures
        r@ == compact_text(j@),
        j@ is Null ==> r@ == "null"@,
        j@ matches JsonView::Bool(b) ==> r@ == if b { "true"@ } else { "false"@ },
        j@ matches JsonView::Number(t) ==> r@ == t,
{
    value_compact(&write_value(j))
}

/// The document written on indented lines.
pub fn pretty(j: &Json) -> (r: String)
    ensures
        r@ == pretty_text(j@),
        simple(j@, 100) ==> parsed(r@) is Ok && parsed(r@)->Ok_0 == j@,
{
    value_pretty(&write_value(j))
}

// ---------------------------------------------------------------------------
// Looking into documents.
// ---------------------------------------------------------------------------

/// The value under a key, if the document is an object that has the key.
pub open spec fn get(j: JsonView, key: Seq<char>) -> Option<JsonView> {
    match j {
        JsonView::Object(map) => if map.contains_key(key) {
            Some(map[key])
        } else {
            None
        },
        _ => None,
    }
}

/// The value under a key, or null.
pub open spec fn field(j: JsonView, key: Seq<char>) -> JsonView {
    match get(j, key) {
        Some(v) => v,
        None => JsonView::Null,
    }
}

/// The text of a document that is one.
pub open spec fn as_text(j: JsonView) -> Option<Seq<char>> {
    match j {
        JsonView::Text(t) => Some(t),
        _ => None,
    }
}

/// The integer of a document that is written in the decimal digits of a
/// `u64`.
pub open spec fn integer(j: JsonView) -> Option<u64> {
    if exists|n: u64| j == #[trigger] number(n as nat) {
        Some(choose|n: u64| j == #[trigger] number(n as nat))
    } else {
        None
    }
}

/// An integer is the integer of its document.
pub proof fn lemma_integer(n: u64)
    ensures
        integer(number(n as nat)) == Some(n),
{
    let j = number(n as nat);
    assert(j == number(n as nat));
    let m = choose|m: u64| j == #[trigger] number(m as nat);
    decimal::lemma_decimal(n as nat);
    decimal::lemma_decimal(m as nat);
}

/// One step of a path: the position in an array, the key in an object.
pub open spec fn step(j: JsonView, key: Seq<char>) -> JsonView {
    match j {
        JsonView::Array(items) => match decimal::parse_number(key, usize::MAX as nat) {
            Some(i) => if i < items.len() {
                items[i as int]
            } else {
                JsonView::Null
            },
            None => JsonView::Null,
        },
        _ => field(j, key),
    }
}

/// The value at the end of a path, or null.
pub open spec fn at(j: JsonView, path: Seq<Seq<char>>) -> JsonView
    decreases path.len(),
{
    if path.len() == 0 {
        j
    } else {
        at(step(j, path[0]), path.skip(1))
    }
}

/// The value at the end of a path as prose: `?` where there is none.
pub open spec fn text_at(j: JsonView, path: Seq<Seq<char>>) -> Seq<char> {
    match at(j, path) {
        JsonView::Null => "?"@,
        JsonView::Text(t) => t,
        v => compact_text(v),
    }
}

/// The number of items of the array at the end of a path, 0 where there is
/// no array.
pub open spec fn count_at(j: JsonView, path: Seq<Seq<char>>) -> nat {
    match at(j, path) {
        JsonView::Array(items) => items.len(),
        _ => 0,
    }
}

/// A value as prose: a text without quotes, `None` for null.
pub open spec fn prose(j: JsonView) -> Seq<char> {
    match j {
        JsonView::Null => "None"@,
        JsonView::Text(t) => t,
        _ => compact_text(j),
    }
}

/// Two documents are alike: equal, up to the sign of a floating point zero.
pub open spec fn alike(a: JsonView, b: JsonView) -> bool
    decreases a,
{
    match (a, b) {
        (JsonView::Null, JsonView::Null) => true,
        (JsonView::Bool(x), JsonView::Bool(y)) => x == y,
        (JsonView::Number(x), JsonView::Number(y)) => equal_numbers(x, y),
        (JsonView::Text(x), JsonView::Text(y)) => x == y,
        (JsonView::Array(x), JsonView::Array(y)) => x.len() == y.len() && forall|i: int|
            0 <= i < x.len() ==> alike(#[trigger] x[i], y[i]),
        (JsonView::Object(x), JsonView::Object(y)) => x.dom().finite() && x.dom() == y.dom()
            && forall|k: Seq<char>| x.contains_key(k) ==> alike(#[trigger] x[k], y[k]),
        _ => false,
    }
}

/// Counts are alike only where they are the same, texts only where they are
/// the same, and neither is like the other or like nothing.
pub proof fn law_alike_counts_are_equal(m: nat, n: nat, s: Seq<char>, t: Seq<char>)
    ensures
        alike(number(m), number(n)) <==> m == n,
        alike(JsonView::Text(s), JsonView::Text(t)) <==> s == t,
        !alike(JsonView::Text(s), number(n)),
        !alike(number(n), JsonView::Text(s)),
        !alike(JsonView::Null, number(n)),
        !alike(number(n), JsonView::Null),
        !(number(n) is Null),
{
    reveal_strlit("0.0");
    reveal_strlit("-0.0");
    decimal::lemma_decimal(m);
    decimal::lemma_decimal(n);
    let a = decimal::decimal(m);
    let b = decimal::decimal(n);
    assert("0.0"@[1] == '.');
    assert("-0.0"@[0] == '-');
    if a == "0.0"@ {
        assert(Class::Digit.has(a[1]));
    }
    if a == "-0.0"@ {
        assert(Class::Digit.has(a[0]));
    }
}

/// A document is like itself where its objects are finite.
pub proof fn lemma_alike_reflexive(j: Json)
    ensures
        alike(j@, j@),
    decreases j,
{
    match j {
        Json::Array(items) => {
            lemma_models(items@);
            assert forall|i: int| 0 <= i < items@.len() implies alike(
                #[trigger] Json::models(items@)[i],
                Json::models(items@)[i],
            ) by {
                assert(decreases_to!(j => j->Array_0));
                assert(decreases_to!(items@ => items@[i]));
                lemma_alike_reflexive(items@[i]);
            }
        },
        Json::Object(entries) => {
            lemma_map_model(entries@);
            let es = entry_views(entries@);
            let map = Json::map_model(entries@);
            lemma_entry_keys(es);
            assert forall|k: Seq<char>| map.contains_key(k) implies alike(
                #[trigger] map[k],
                map[k],
            ) by {
                let i = last_entry(es, k);
                lemma_last_entry(es, k);
                lemma_entry_map(es, i);
                assert(decreases_to!(j => j->Object_0));
                assert(decreases_to!(entries@ => entries@[i]));
                assert(decreases_to!(entries@[i] => entries@[i].1));
                lemma_alike_reflexive(entries@[i].1);
            }
        },
        _ => {},
    }
}

/// A value of a document is like itself.
pub proof fn lemma_field_alike(j: Json, key: Seq<char>)
    ensures
        get(j@, key) matches Some(v) ==> alike(v, v),
{
    lemma_alike_reflexive(j);
}

/// The keys of an object as a list: every one of them, and nothing else.
proof fn lemma_keys_listed(j: Json)
    requires
        j@ is Object,
    ensures
        j@->Object_0.dom().finite(),
        order::ascending(order::listed(j@->Object_0.dom())),
        order::listed(j@->Object_0.dom()).to_set() == j@->Object_0.dom(),
{
    if let Json::Object(entries) = j {
        lemma_map_model(entries@);
        lemma_map_listed(entry_views(entries@));
    }
}

/// The keys of a map of entries as a list.
pub proof fn lemma_map_listed(entries: Seq<(Seq<char>, JsonView)>)
    ensures
        entry_map(entries).dom().finite(),
        order::ascending(order::listed(entry_map(entries).dom())),
        order::listed(entry_map(entries).dom()).to_set() == entry_map(entries).dom(),
{
    lemma_entry_keys(entries);
    order::lemma_set_listed(entry_map(entries).dom());
}

spec fn last_entry(entries: Seq<(Seq<char>, JsonView)>, key: Seq<char>) -> int
    decreases entries.len(),
{
    if entries.len() == 0 {
        -1
    } else if entries.last().0 == key {
        entries.len() - 1
    } else {
        last_entry(entries.drop_last(), key)
    }
}

proof fn lemma_last_entry(entries: Seq<(Seq<char>, JsonView)>, key: Seq<char>)
    requires
        entry_map(entries).contains_key(key),
    ensures
        0 <= last_entry(entries, key) < entries.len(),
        entries[last_entry(entries, key)].0 == key,
        forall|j: int|
            last_entry(entries, key) < j < entries.len() ==> (#[trigger] entries[j]).0 != key,
    decreases entries.len(),
{
    if entries.last().0 != key {
        let rest = entries.drop_last();
        lemma_last_entry(rest, key);
        assert forall|j: int| last_entry(entries, key) < j < entries.len() implies (
        #[trigger] entries[j]).0 != key by {
            if j < rest.len() {
                assert(rest[j] == entries[j]);
            }
        }
    }
}

/// The keys of an object within an object as a list.
pub proof fn lemma_inner_keys_listed(j: Json, key: Seq<char>)
    requires
        get(j@, key) is Some,
        get(j@, key)->0 is Object,
    ensures
        get(j@, key)->0->Object_0.dom().finite(),
        order::ascending(order::listed(get(j@, key)->0->Object_0.dom())),
        order::listed(get(j@, key)->0->Object_0.dom()).to_set() == get(
            j@,
            key,
        )->0->Object_0.dom(),
{
    if let Json::Object(entries) = j {
        let all = entry_views(entries@);
        lemma_map_model(entries@);
        lemma_last_entry(all, key);
        let i = last_entry(all, key);
        lemma_entry_map(all, i);
        assert(all[i] == (entries@[i].0@, entries@[i].1.model()));
        lemma_keys_listed(entries@[i].1);
    }
}

impl Json {
    /// The value under a key.
    pub fn get(&self, key: &str) -> (r: Option<&Json>)
        ensures
            match r {
                Some(v) => get(self@, key@) == Some(v@),
                None => get(self@, key@) is None,
            },
    {
        match self {
            Json::Object(entries) => {
                proof {
                    lemma_map_model(entries@);
                }
                match find_entry(entries, key) {
                    Some(i) => Some(&entries[i].1),
                    None => None,
                }
            },
            _ => None,
        }
    }

    /// The text of a document that is one.
    pub fn as_text(&self) -> (r: Option<&String>)
        ensures
            match r {
                Some(t) => as_text(self@) == Some(t@),
                None => as_text(self@) is None,
            },
    {
        match self {
            Json::Text(t) => Some(t),
            _ => None,
        }
    }

    /// The items of a document that is an array.
    pub fn as_array(&self) -> (r: Option<&Vec<Json>>)
        ensures
            match r {
                Some(items) => self@ == JsonView::Array(items@.map_values(|x: Json| x@)),
                None => !(self@ is Array),
            },
    {
        match self {
            Json::Array(items) => {
                proof {
                    lemma_models(items@);
                    assert(items@.map_values(|x: Json| x.model()) =~= items@.map_values(
                        |x: Json| x@,
                    ));
                }
                Some(items)
            },
            _ => None,
        }
    }

    /// The integer of a document that is a `u64`.
    pub fn as_u64(&self) -> (r: Option<u64>)
        ensures
            r == integer(self@),
    {
        match self {
            Json::Number(n) => {
                let r = integer_of(n);
                proof {
                    match r {
                        Some(i) => {
                            assert(self@ == number(i as nat));
                            lemma_integer(i);
                        },
                        None => {
                            assert forall|i: u64| self@ != #[trigger] number(i as nat) by {
                                assert(number_text(*n) != decimal::decimal(i as nat));
                            }
                        },
                    }
                }
                r
            },
            _ => None,
        }
    }

    /// The document is null.
    pub fn is_null(&self) -> (r: bool)
        ensures
            r == (self@ is Null),
    {
        matches!(self, Json::Null)
    }

    /// The keys of a document that is an object, in dictionary order.
    pub fn keys(&self) -> (r: Option<Vec<String>>)
        ensures
            match r {
                Some(keys) => self@ is Object && order::ascending(text::views(keys@))
                    && text::views(keys@).to_set() == self@->Object_0.dom() && text::views(keys@)
                    == order::listed(self@->Object_0.dom()),
                None => !(self@ is Object),
            },
    {
        match self {
            Json::Object(entries) => {
                let keys = ordered_keys(entries);
                proof {
                    lemma_map_model(entries@);
                    order::lemma_listed(text::views(keys@));
                }
                Some(keys)
            },
            _ => None,
        }
    }

    /// The entries of a document that is an object, in the dictionary order
    /// of the keys.
    pub fn entries(&self) -> (r: Option<Vec<(String, Json)>>)
        ensures
            match r {
                Some(list) => {
                    &&& self@ is Object
                    &&& self@->Object_0.dom().finite()
                    &&& order::ascending(keys_of(list@))
                    &&& keys_of(list@) == order::listed(self@->Object_0.dom())
                    &&& keys_of(list@).to_set() == self@->Object_0.dom()
                    &&& list@.len() == self@->Object_0.dom().len()
                    &&& forall|i: int|
                        0 <= i < list@.len() ==> (#[trigger] list@[i]).1@
                            == self@->Object_0[list@[i].0@]
                },
                None => !(self@ is Object),
            },
    {
        match self {
            Json::Object(entries) => {
                let keys = ordered_keys(entries);
                let ghost ks = text::views(keys@);
                let ghost map = Json::map_model(entries@);
                proof {
                    lemma_map_model(entries@);
                    lemma_entry_keys(entry_views(entries@));
                    order::lemma_listed(ks);
                    order::lemma_ascending_count(ks);
                }
                let mut out: Vec<(String, Json)> = Vec::new();
                let mut i: usize = 0;
                while i < keys.len()
                    invariant
                        i <= keys.len(),
                        ks == text::views(keys@),
                        map == entry_map(entry_views(entries@)),
                        ks.to_set() == map.dom(),
                        out@.len() == i,
                        forall|k: int|
                            0 <= k < i ==> (#[trigger] out@[k]).0@ == ks[k] && out@[k].1@
                                == map[ks[k]],
                    decreases keys.len() - i,
                {
                    assert(ks.to_set().contains(ks[i as int]));
                    if let Some(e) = find_entry(entries, keys[i].as_str()) {
                        out.push((keys[i].clone(), entries[e].1.copy()));
                    }
                    i += 1;
                }
                assert(keys_of(out@) =~= ks);
                Some(out)
            },
            _ => None,
        }
    }

    /// The document again.
    pub fn copy(&self) -> (r: Json)
        ensures
            r@ == self@,
        decreases self,
    {
        match self {
            Json::Null => Json::Null,
            Json::Bool(b) => Json::Bool(*b),
            Json::Number(n) => Json::Number(copy_number(n)),
            Json::Text(t) => Json::Text(t.clone()),
            Json::Array(items) => {
                let mut out: Vec<Json> = Vec::new();
                let mut i: usize = 0;
                while i < items.len()
                    invariant
                        i <= items.len(),
                        out@.len() == i,
                        *self == Json::Array(*items),
                        forall|k: int| 0 <= k < i ==> (#[trigger] out@[k]).model() == items@[k].model(),
                    decreases items.len() - i,
                {
                    assert(decreases_to!(*self => self->Array_0));
                    assert(decreases_to!(items@ => items@[i as int]));
                    out.push(items[i].copy());
                    i += 1;
                }
                proof {
                    lemma_models(items@);
                    lemma_models(out@);
                    assert(Json::models(out@) =~= Json::models(items@));
                }
                Json::Array(out)
            },
            Json::Object(entries) => {
                let mut out: Vec<(String, Json)> = Vec::new();
                let mut i: usize = 0;
                while i < entries.len()
                    invariant
                        i <= entries.len(),
                        out@.len() == i,
                        *self == Json::Object(*entries),
                        forall|k: int|
                            0 <= k < i ==> (#[trigger] out@[k]).0@ == entries@[k].0@
                                && out@[k].1.model() == entries@[k].1.model(),
                    decreases entries.len() - i,
                {
                    assert(decreases_to!(*self => self->Object_0));
                    assert(decreases_to!(entries@ => entries@[i as int]));
                    assert(decreases_to!(entries@[i as int] => entries@[i as int].1));
                    out.push((entries[i].0.clone(), entries[i].1.copy()));
                    i += 1;
                }
                proof {
                    lemma_map_model(entries@);
                    lemma_map_model(out@);
                    assert(entry_views(out@) =~= entry_views(entries@));
                }
                Json::Object(out)
            },
        }
    }

    /// The two documents are alike.
    pub fn same(&self, other: &Json) -> (r: bool)
        ensures
            r == alike(self@, other@),
        decreases self,
    {
        match (self, other) {
            (Json::Null, Json::Null) => true,
            (Json::Bool(a), Json::Bool(b)) => *a == *b,
            (Json::Number(a), Json::Number(b)) => numbers_equal(a, b),
            (Json::Text(a), Json::Text(b)) => same_text(a.as_str(), b.as_str()),
            (Json::Array(a), Json::Array(b)) => {
                proof {
                    lemma_models(a@);
                    lemma_models(b@);
                }
                if a.len() != b.len() {
                    return false;
                }
                let mut i: usize = 0;
                while i < a.len()
                    invariant
                        i <= a.len(),
                        a.len() == b.len(),
                        *self == Json::Array(*a),
                        *other == Json::Array(*b),
                        Json::models(a@) == a@.map_values(|x: Json| x.model()),
                        Json::models(b@) == b@.map_values(|x: Json| x.model()),
                        forall|k: int|
                            0 <= k < i ==> alike(#[trigger] Json::models(a@)[k], Json::models(b@)[k]),
                    decreases a.len() - i,
                {
                    assert(decreases_to!(*self => self->Array_0));
                    assert(decreases_to!(a@ => a@[i as int]));
                    let equal = a[i].same(&b[i]);
                    assert(equal == alike(Json::models(a@)[i as int], Json::models(b@)[i as int]));
                    if !equal {
                        return false;
                    }
                    i += 1;
                }
                true
            },
            (Json::Object(a), Json::Object(b)) => {
                let ka = ordered_keys(a);
                let kb = ordered_keys(b);
                let ghost ma = Json::map_model(a@);
                let ghost mb = Json::map_model(b@);
                proof {
                    lemma_map_model(a@);
                    lemma_map_model(b@);
                    lemma_entry_keys(entry_views(a@));
                    order::lemma_listed(text::views(ka@));
                    order::lemma_listed(text::views(kb@));
                }
                if !same_texts(&ka, &kb) {
                    return false;
                }
                let ghost keys = text::views(ka@);
                let mut i: usize = 0;
                while i < ka.len()
                    invariant
                        i <= ka.len(),
                        keys == text::views(ka@),
                        *self == Json::Object(*a),
                        *other == Json::Object(*b),
                        ma == Json::map_model(a@),
                        mb == Json::map_model(b@),
                        ma == entry_map(entry_views(a@)),
                        mb == entry_map(entry_views(b@)),
                        keys.to_set() == ma.dom(),
                        ma.dom() == mb.dom(),
                        ma.dom().finite(),
                        forall|k: int| 0 <= k < i ==> alike(ma[#[trigger] keys[k]], mb[keys[k]]),
                    decreases ka.len() - i,
                {
                    assert(keys.to_set().contains(keys[i as int]));
                    if let (Some(x), Some(y)) = (
                        find_entry(a, ka[i].as_str()),
                        find_entry(b, ka[i].as_str()),
                    ) {
                        assert(decreases_to!(*self => self->Object_0));
                        assert(decreases_to!(a@ => a@[x as int]));
                        assert(decreases_to!(a@[x as int] => a@[x as int].1));
                        let equal = a[x].1.same(&b[y].1);
                        assert(equal == alike(ma[keys[i as int]], mb[keys[i as int]]));
                        if !equal {
                            return false;
                        }
                    }
                    i += 1;
                }
                proof {
                    assert forall|k: Seq<char>| ma.contains_key(k) implies alike(
                        #[trigger] ma[k],
                        mb[k],
                    ) by {
                        assert(keys.to_set().contains(k));
                        let i = choose|i: int| 0 <= i < keys.len() && keys[i] == k;
                        assert(alike(ma[keys[i]], mb[keys[i]]));
                    }
                }
                true
            },
            _ => false,
        }
    }
}

/// The two lists hold the same texts.
fn same_texts(a: &Vec<String>, b: &Vec<String>) -> (r: bool)
    ensures
        r == (text::views(a@) == text::views(b@)),
{
    if a.len() != b.len() {
        assert(text::views(a@).len() != text::views(b@).len());
        return false;
    }
    let mut i: usize = 0;
    while i < a.len()
        invariant
            i <= a.len(),
            a.len() == b.len(),
            forall|k: int| 0 <= k < i ==> text::views(a@)[k] == text::views(b@)[k],
        decreases a.len() - i,
    {
        if !same_text(a[i].as_str(), b[i].as_str()) {
            assert(text::views(a@)[i as int] != text::views(b@)[i as int]);
            return false;
        }
        i += 1;
    }
    assert(text::views(a@) =~= text::views(b@));
    true
}

/// The value at the end of a path.
fn walk<'a>(j: &'a Json, path: &[&str]) -> (r: Option<&'a Json>)
    ensures
        match r {
            Some(v) => at(j@, path_view(path@)) == v@,
            None => at(j@, path_view(path@)) is Null,
        },
{
    let ghost p = path_view(path@);
    let mut cur: &Json = j;
    let mut i: usize = 0;
    assert(p.skip(0) =~= p);
    while i < path.len()
        invariant
            i <= path.len(),
            p == path_view(path@),
            at(j@, p) == at(cur@, p.skip(i as int)),
        decreases path.len() - i,
    {
        let key = path[i];
        assert(p.skip(i as int)[0] == key@);
        assert(p.skip(i as int).skip(1) =~= p.skip(i + 1));
        let below: Option<&Json> = match cur.as_array() {
            Some(items) => match parsed_number(
                chars_of(key).as_slice(),
                usize::MAX as u64,
            ) {
                Some(n) => if n < items.len() as u64 {
                    Some(&items[n as usize])
                } else {
                    None
                },
                None => None,
            },
            None => cur.get(key),
        };
        match below {
            Some(v) => {
                cur = v;
            },
            None => {
                proof {
                    lemma_at_null(p.skip(i + 1));
                }
                return None;
            },
        }
        i += 1;
    }
    assert(p.skip(i as int).len() == 0);
    Some(cur)
}

proof fn lemma_at_null(path: Seq<Seq<char>>)
    ensures
        at(JsonView::Null, path) is Null,
    decreases path.len(),
{
    if path.len() > 0 {
        lemma_at_null(path.skip(1));
    }
}

/// A path as mathematics.
pub open spec fn path_view(path: Seq<&str>) -> Seq<Seq<char>> {
    path.map_values(|k: &str| k@)
}

/// The value at the end of a path as prose: `?` where there is none.
pub fn text_of_path(j: &Json, path: &[&str]) -> (r: String)
    ensures
        r@ == text_at(j@, path_view(path@)),
{
    match walk(j, path) {
        None => "?".to_string(),
        Some(v) => match v {
            Json::Null => "?".to_string(),
            Json::Text(t) => t.clone(),
            _ => compact(v),
        },
    }
}

/// The number of items of the array at the end of a path.
pub fn count_of_path(j: &Json, path: &[&str]) -> (r: usize)
    ensures
        r == count_at(j@, path_view(path@)),
{
    match walk(j, path) {
        None => 0,
        Some(v) => match v.as_array() {
            Some(items) => items.len(),
            None => 0,
        },
    }
}

/// A JSON value as prose: a number bare, a text without quotes, an absent
/// value as `None`.
pub fn plain(value: &Json) -> (r: String)
    ensures
        r@ == prose(value@),
{
    match value {
        Json::Text(t) => t.clone(),
        Json::Null => "None".to_string(),
        _ => compact(value),
    }
}

/// The document that a text holds, or null where it holds none.
pub open spec fn parsed_or_null(text: Seq<char>) -> JsonView {
    match parsed(text) {
        Ok(j) => j,
        Err(_) => JsonView::Null,
    }
}

/// The document that a text holds, or null where it holds none.
pub fn parse_or_null(text: &str) -> (r: Json)
    ensures
        r@ == parsed_or_null(text@),
{
    match parse_json(text) {
        Ok(j) => j,
        Err(_) => Json::Null,
    }
}

// ---------------------------------------------------------------------------
// Putting documents together.
// ---------------------------------------------------------------------------

/// The document of an integer.
pub open spec fn number(n: nat) -> JsonView {
    JsonView::Number(decimal::decimal(n))
}

/// The document of an integer.
pub fn number_json(n: u64) -> (r: Json)
    ensures
        r@ == number(n as nat),
{
    Json::Number(number_of(n))
}

/// The document of a text.
pub fn text_json(t: &str) -> (r: Json)
    ensures
        r@ == JsonView::Text(t@),
{
    Json::Text(t.to_string())
}

/// The entries of an object in the making.
pub struct Fields {
    entries: Vec<(String, Json)>,
}

impl View for Fields {
    type V = Map<Seq<char>, JsonView>;

    closed spec fn view(&self) -> Map<Seq<char>, JsonView> {
        Json::map_model(self.entries@)
    }
}

impl Fields {
    /// No entries.
    pub fn new() -> (r: Fields)
        ensures
            r@ == Map::<Seq<char>, JsonView>::empty(),
    {
        Fields { entries: Vec::new() }
    }

    /// One more entry.
    pub fn put(&mut self, key: &str, value: Json)
        ensures
            final(self)@ == old(self)@.insert(key@, value@),
    {
        self.entries.push((key.to_string(), value));
        assert(self.entries@.drop_last() =~= old(self).entries@);
    }

    /// The number of keys.
    pub fn count(&self) -> (r: usize)
        ensures
            r == self@.dom().len(),
            self@.dom().finite(),
    {
        let keys = ordered_keys(&self.entries);
        proof {
            lemma_map_model(self.entries@);
            lemma_entry_keys(entry_views(self.entries@));
            order::lemma_ascending_count(text::views(keys@));
        }
        keys.len()
    }

    /// The object.
    pub fn done(self) -> (r: Json)
        ensures
            r@ == JsonView::Object(self@),
    {
        Json::Object(self.entries)
    }
}

impl Json {
    /// The document with a value under a key: an object gets the entry, null
    /// becomes an object.
    pub fn with(self, key: &str, value: Json) -> (r: Json)
        requires
            self@ is Object || self@ is Null,
        ensures
            r@ == JsonView::Object(
                (if self@ is Object {
                    self@->Object_0
                } else {
                    Map::empty()
                }).insert(key@, value@),
            ),
    {
        let mut fields = match self {
            Json::Object(entries) => Fields { entries },
            _ => Fields { entries: Vec::new() },
        };
        fields.put(key, value);
        fields.done()
    }
}

} // verus!
