//! A JSON value tree held by the library (the data model of `serde_json::Value`),
//! with its mathematical model.
use vstd::prelude::*;
use serde_json::Value as SerdeJson;
use crate::text::decimal;
use crate::number::num_order;
use vstd::string::StringExecFns;

verus! {

/// A JSON number: a non-negative integer, a negative integer, or a decimal
/// literal kept as written.
#[derive(Debug, Clone, PartialEq, Eq)]
pub enum JsonNumber {
    PosInt(u64),
    NegInt(i64),
    Float(String),
}

/// A JSON value. A valid value (`json_wf`) keeps the entries of each object in
/// ascending key order (code point order), each key at most once, as a
/// `serde_json` map holds them; the parser and `json_value_wf` establish it.
#[derive(Debug)]
pub enum JsonValue {
    Null,
    Bool(bool),
    Number(JsonNumber),
    String(String),
    Array(Vec<JsonValue>),
    Object(Vec<(String, JsonValue)>),
}

pub enum NumberModel {
    PosInt(u64),
    NegInt(i64),
    Float(Seq<char>),
}

pub enum JsonModel {
    Null,
    Bool(bool),
    Number(NumberModel),
    String(Seq<char>),
    Array(Seq<JsonModel>),
    Object(Seq<(Seq<char>, JsonModel)>),
}

impl JsonNumber {
    pub open spec fn model(self) -> NumberModel {
        match self {
            JsonNumber::PosInt(n) => NumberModel::PosInt(n),
            JsonNumber::NegInt(n) => NumberModel::NegInt(n),
            JsonNumber::Float(t) => NumberModel::Float(t@),
        }
    }
}

impl JsonValue {
    pub open spec fn model(self) -> JsonModel
        decreases self,
    {
        match self {
            JsonValue::Null => JsonModel::Null,
            JsonValue::Bool(b) => JsonModel::Bool(b),
            JsonValue::Number(n) => JsonModel::Number(n.model()),
            JsonValue::String(s) => JsonModel::String(s@),
            JsonValue::Array(items) => JsonModel::Array(
                Seq::new(
                    items@.len(),
                    |i: int|
                        if 0 <= i < items@.len() {
                            items@[i].model()
                        } else {
                            JsonModel::Null
                        },
                ),
            ),
            JsonValue::Object(entries) => JsonModel::Object(
                Seq::new(
                    entries@.len(),
                    |i: int|
                        if 0 <= i < entries@.len() {
                            (entries@[i].0@, entries@[i].1.model())
                        } else {
                            (Seq::empty(), JsonModel::Null)
                        },
                ),
            ),
        }
    }
}

/// The models of a sequence of values, element by element.
pub open spec fn models(items: Seq<JsonValue>) -> Seq<JsonModel> {
    Seq::new(items.len(), |i: int| items[i].model())
}

/// The models of a sequence of object entries, entry by entry.
pub open spec fn entry_models(entries: Seq<(String, JsonValue)>) -> Seq<(Seq<char>, JsonModel)> {
    Seq::new(entries.len(), |i: int| (entries[i].0@, entries[i].1.model()))
}

pub proof fn lemma_array_model(items: Vec<JsonValue>)
    ensures
        JsonValue::Array(items).model() == JsonModel::Array(models(items@)),
{
    assert(models(items@) =~= match JsonValue::Array(items).model() {
        JsonModel::Array(s) => s,
        _ => Seq::empty(),
    });
}

pub proof fn lemma_object_model(entries: Vec<(String, JsonValue)>)
    ensures
        JsonValue::Object(entries).model() == JsonModel::Object(entry_models(entries@)),
{
    assert(entry_models(entries@) =~= match JsonValue::Object(entries).model() {
        JsonModel::Object(s) => s,
        _ => Seq::empty(),
    });
}

/// Strict code-point lexicographic order on strings (the order in which `str` values compare).
pub open spec fn key_less(a: Seq<char>, b: Seq<char>) -> bool
    decreases a.len(),
{
    if a.len() == 0 {
        b.len() > 0
    } else if b.len() == 0 {
        false
    } else if a[0] != b[0] {
        (a[0] as u32) < (b[0] as u32)
    } else {
        key_less(a.drop_first(), b.drop_first())
    }
}

/// Inserting `(k, v)` into entries kept in ascending key order: an entry with
/// the same key has its value replaced, otherwise the pair goes before the
/// first greater key (the behaviour of `BTreeMap::insert`).
pub open spec fn object_insert<V>(
    entries: Seq<(Seq<char>, V)>,
    k: Seq<char>,
    v: V,
) -> Seq<(Seq<char>, V)>
    decreases entries.len(),
{
    if entries.len() == 0 {
        seq![(k, v)]
    } else if entries[0].0 == k {
        seq![(k, v)] + entries.drop_first()
    } else if key_less(k, entries[0].0) {
        seq![(k, v)] + entries
    } else {
        seq![entries[0]] + object_insert(entries.drop_first(), k, v)
    }
}

/// Looking a key up in entries: the value of the first entry with that key.
pub open spec fn object_get<V>(entries: Seq<(Seq<char>, V)>, k: Seq<char>) -> Option<V>
    decreases entries.len(),
{
    if entries.len() == 0 {
        None
    } else if entries[0].0 == k {
        Some(entries[0].1)
    } else {
        object_get(entries.drop_first(), k)
    }
}

} // verus!

verus! {

/// `key_less` on the characters of two keys.
pub fn chars_less(a: &Vec<char>, b: &Vec<char>) -> (r: bool)
    ensures
        r == key_less(a@, b@),
{
    let mut i: usize = 0;
    assert(a@.skip(0) =~= a@);
    assert(b@.skip(0) =~= b@);
    while i < a.len() && i < b.len() && a[i] == b[i]
        invariant
            i <= a.len(),
            i <= b.len(),
            key_less(a@, b@) == key_less(a@.skip(i as int), b@.skip(i as int)),
        decreases a.len() - i,
    {
        assert(a@.skip(i as int).drop_first() == a@.skip(i + 1));
        assert(b@.skip(i as int).drop_first() == b@.skip(i + 1));
        i = i + 1;
    }
    if i == a.len() {
        i < b.len()
    } else if i == b.len() {
        false
    } else {
        (a[i] as u32) < (b[i] as u32)
    }
}

/// Character-wise equality of two keys.
pub fn chars_equal(a: &Vec<char>, b: &Vec<char>) -> (r: bool)
    ensures
        r == (a@ == b@),
{
    if a.len() != b.len() {
        return false;
    }
    let mut i: usize = 0;
    while i < a.len()
        invariant
            i <= a.len() == b.len(),
            forall|j: int| 0 <= j < i ==> a@[j] == b@[j],
        decreases a.len() - i,
    {
        if a[i] != b[i] {
            return false;
        }
        i = i + 1;
    }
    assert(a@ =~= b@);
    true
}

pub proof fn lemma_object_insert_skip<V>(e: Seq<(Seq<char>, V)>, p: int, k: Seq<char>, v: V)
    requires
        0 <= p < e.len(),
        e[p].0 != k,
        !key_less(k, e[p].0),
    ensures
        object_insert(e.skip(p), k, v) == seq![e[p]] + object_insert(e.skip(p + 1), k, v),
{
    assert(e.skip(p).drop_first() =~= e.skip(p + 1));
}

/// Inserts `(key, value)` into object entries with `object_insert`.
pub fn insert_entry(entries: &mut Vec<(String, JsonValue)>, key: String, value: JsonValue)
    ensures
        entry_models(final(entries)@) == object_insert(entry_models(old(entries)@), key@, value.model()),
{
    let ghost e0 = entry_models(entries@);
    let key_chars = crate::text::chars_of(key.as_str());
    let mut p: usize = 0;
    assert(e0.skip(0) =~= e0);
    assert(e0.take(0) + object_insert(e0.skip(0), key@, value.model()) =~= object_insert(e0, key@, value.model()));
    while p < entries.len()
        invariant
            p <= entries.len(),
            entries@ == old(entries)@,
            e0 == entry_models(entries@),
            key_chars@ == key@,
            object_insert(e0, key@, value.model()) == e0.take(p as int) + object_insert(
                e0.skip(p as int),
                key@,
                value.model(),
            ),
        decreases entries.len() - p,
    {
        let existing = crate::text::chars_of(entries[p].0.as_str());
        if chars_equal(&existing, &key_chars) {
            let ghost rest = e0.skip(p + 1);
            assert(e0.skip(p as int).drop_first() =~= rest);
            entries.set(p, (key, value));
            assert(entry_models(entries@) =~= e0.take(p as int) + object_insert(
                e0.skip(p as int),
                key@,
                value.model(),
            ));
            return;
        }
        if chars_less(&key_chars, &existing) {
            entries.insert(p, (key, value));
            assert(entry_models(entries@) =~= e0.take(p as int) + object_insert(
                e0.skip(p as int),
                key@,
                value.model(),
            ));
            return;
        }
        proof {
            lemma_object_insert_skip(e0, p as int, key@, value.model());
            assert(e0.take(p + 1) =~= e0.take(p as int).push(e0[p as int]));
        }
        p = p + 1;
    }
    let ghost vm = value.model();
    entries.push((key, value));
    assert(entry_models(entries@) =~= e0.take(p as int) + object_insert(e0.skip(p as int), key@, vm));
}

} // verus!

verus! {

/// `format!("{:?}", s)` of a string slice: std's `Debug` rendering of text,
/// quotes and escapes included.
pub uninterp spec fn str_debug(s: Seq<char>) -> Seq<char>;

/// `format!("{:?}", s)`: std's `Debug` rendering of a string slice.
#[verifier::external_body]
pub(crate) fn debug_str(s: &str) -> (r: String)
    ensures
        r@ == str_debug(s@),
{
    format!("{:?}", s)
}

pub open spec fn get_key(m: JsonModel, k: Seq<char>) -> Option<JsonModel> {
    match m {
        JsonModel::Object(e) => object_get(e, k),
        _ => None,
    }
}

pub open spec fn as_str(m: JsonModel) -> Option<Seq<char>> {
    match m {
        JsonModel::String(s) => Some(s),
        _ => None,
    }
}

pub open spec fn as_array(m: JsonModel) -> Option<Seq<JsonModel>> {
    match m {
        JsonModel::Array(a) => Some(a),
        _ => None,
    }
}

pub open spec fn as_bool(m: JsonModel) -> Option<bool> {
    match m {
        JsonModel::Bool(b) => Some(b),
        _ => None,
    }
}

pub open spec fn as_u64(m: JsonModel) -> Option<u64> {
    match m {
        JsonModel::Number(NumberModel::PosInt(n)) => Some(n),
        _ => None,
    }
}

/// `as_i64()` succeeds: an integer within the range of `i64`.
pub open spec fn is_i64(m: JsonModel) -> bool {
    match m {
        JsonModel::Number(NumberModel::PosInt(n)) => n <= i64::MAX,
        JsonModel::Number(NumberModel::NegInt(_)) => true,
        _ => false,
    }
}

/// How a number is shown in messages: integers in decimal, decimal literals
/// as written. The numbers are kept exact here, so this differs from `f64`'s
/// `Display`, which shows `100.0` as `100` and rounds long decimals.
pub open spec fn number_display(n: NumberModel) -> Seq<char> {
    match n {
        NumberModel::PosInt(u) => decimal(u as nat),
        NumberModel::NegInt(i) => if i < 0 {
            seq!['-'] + decimal((-i) as nat)
        } else {
            decimal(i as nat)
        },
        NumberModel::Float(t) => t,
    }
}

/// The `serde_json` value for a value of the library (so that `serde_json`
/// itself renders it). A decimal literal becomes the `serde_json::Number` that
/// `str::parse` reads from its text; one that `serde_json` does not read (RON
/// also allows `1.` and `.5`) becomes `Null`.
#[verifier::external_body]
fn serde_value_of(v: &JsonValue) -> SerdeJson {
    match v {
        JsonValue::Null => SerdeJson::Null,
        JsonValue::Bool(b) => SerdeJson::Bool(*b),
        JsonValue::Number(JsonNumber::PosInt(u)) => SerdeJson::from(*u),
        JsonValue::Number(JsonNumber::NegInt(i)) => SerdeJson::from(*i),
        JsonValue::Number(JsonNumber::Float(t)) => t.parse().map(SerdeJson::Number).unwrap_or(SerdeJson::Null),
        JsonValue::String(s) => SerdeJson::String(s.clone()),
        JsonValue::Array(items) => SerdeJson::Array(items.iter().map(serde_value_of).collect()),
        JsonValue::Object(e) => SerdeJson::Object(e.iter().map(|(k, x)| (k.clone(), serde_value_of(x))).collect()),
    }
}

/// `format!("{:?}", v)` of `serde_json`'s `Debug` for the value `serde_value_of`
/// makes of a value with model `m`: `Null`, `Bool(..)`, `Number(..)`,
/// `String(..)`, `Array [..]`, `Object {..}`.
pub uninterp spec fn value_debug(m: JsonModel) -> Seq<char>;

/// `format!("{:?}", items)` of the list of `serde_json` values that
/// `serde_value_of` makes of values with models `items`.
pub uninterp spec fn list_debug(items: Seq<JsonModel>) -> Seq<char>;

/// `serde_json`'s `Debug` rendering of a value.
#[verifier::external_body]
fn value_debug_text(v: &JsonValue) -> (r: String)
    ensures
        r@ == value_debug(v.model()),
{
    format!("{:?}", serde_value_of(v))
}

/// `serde_json`'s `Debug` rendering of a list of values.
#[verifier::external_body]
fn list_debug_text(items: &Vec<JsonValue>) -> (r: String)
    ensures
        r@ == list_debug(models(items@)),
{
    format!("{:?}", items.iter().map(serde_value_of).collect::<Vec<SerdeJson>>())
}

} // verus!

verus! {

/// Appends `number_display(n)`.
pub fn push_number_display(out: &mut String, n: &JsonNumber)
    ensures
        final(out)@ == old(out)@ + number_display(n.model()),
{
    match n {
        JsonNumber::PosInt(u) => crate::text::push_decimal(out, *u as u128),
        JsonNumber::NegInt(i) => {
            if *i < 0 {
                out.push('-');
                let m: i128 = 0 - (*i as i128);
                crate::text::push_decimal(out, m as u128);
                assert(old(out)@.push('-') + decimal(m as nat) =~= old(out)@ + (seq!['-']
                    + decimal(m as nat)));
            } else {
                crate::text::push_decimal(out, *i as u128);
            }
        },
        JsonNumber::Float(t) => {
            out.append(t.as_str());
        },
    }
}

/// Appends `value_debug(v)`.
pub fn push_value_debug(out: &mut String, v: &JsonValue)
    ensures
        final(out)@ == old(out)@ + value_debug(v.model()),
{
    let d = value_debug_text(v);
    out.append(d.as_str());
}

/// Appends `list_debug` of the values in `items`.
pub fn push_list_debug(out: &mut String, items: &Vec<JsonValue>)
    ensures
        final(out)@ == old(out)@ + list_debug(models(items@)),
{
    let d = list_debug_text(items);
    out.append(d.as_str());
}

} // verus!

verus! {

/// The value stored under `key`, if any.
pub fn object_lookup<'a>(entries: &'a Vec<(String, JsonValue)>, key: &str) -> (r: Option<&'a JsonValue>)
    ensures
        match object_get(entry_models(entries@), key@) {
            Some(m) => r matches Some(x) && x.model() == m,
            None => r is None,
        },
{
    let ghost e = entry_models(entries@);
    let wanted = key.to_owned();
    let mut i: usize = 0;
    assert(e.skip(0) =~= e);
    while i < entries.len()
        invariant
            i <= entries.len(),
            e == entry_models(entries@),
            wanted@ == key@,
            object_get(e, key@) == object_get(e.skip(i as int), key@),
        decreases entries.len() - i,
    {
        assert(e.skip(i as int)[0] == e[i as int]);
        if entries[i].0 == wanted {
            return Some(&entries[i].1);
        }
        assert(e.skip(i as int).drop_first() =~= e.skip(i + 1));
        i = i + 1;
    }
    None
}

/// `value.get(key)`: the member `key` of an object; `None` for other values.
pub fn get<'a>(v: &'a JsonValue, key: &str) -> (r: Option<&'a JsonValue>)
    ensures
        match get_key(v.model(), key@) {
            Some(m) => r matches Some(x) && x.model() == m,
            None => r is None,
        },
{
    match v {
        JsonValue::Object(entries) => {
            proof {
                lemma_object_model(*entries);
            }
            object_lookup(entries, key)
        },
        _ => None,
    }
}

} // verus!

verus! {

/// Equality of two numbers as `serde_json` compares them: integers by value
/// within their kind, decimal literals by the number they denote; an integer
/// never equals a decimal literal.
pub open spec fn same_number(a: NumberModel, b: NumberModel) -> bool {
    match (a, b) {
        (NumberModel::Float(_), NumberModel::Float(_)) => num_order(a, b) == 0,
        _ => a == b,
    }
}

/// Equality of two JSON values as `serde_json::Value` compares them: numbers
/// by `same_number`, arrays element by element, objects key by key.
pub open spec fn same_json(a: JsonModel, b: JsonModel) -> bool
    decreases a,
{
    match a {
        JsonModel::Number(x) => match b {
            JsonModel::Number(y) => same_number(x, y),
            _ => false,
        },
        JsonModel::Array(xs) => match b {
            JsonModel::Array(ys) => xs.len() == ys.len() && forall|i: int|
                0 <= i < xs.len() ==> same_json(#[trigger] xs[i], ys[i]),
            _ => false,
        },
        JsonModel::Object(xs) => match b {
            JsonModel::Object(ys) => xs.len() == ys.len() && forall|i: int|
                0 <= i < xs.len() ==> (#[trigger] xs[i]).0 == ys[i].0 && same_json(xs[i].1, ys[i].1),
            _ => false,
        },
        _ => a == b,
    }
}

/// Equality of two numbers (see `same_number`).
pub fn numbers_equal(a: &JsonNumber, b: &JsonNumber) -> (r: bool)
    ensures
        r == same_number(a.model(), b.model()),
{
    match (a, b) {
        (JsonNumber::PosInt(x), JsonNumber::PosInt(y)) => *x == *y,
        (JsonNumber::NegInt(x), JsonNumber::NegInt(y)) => *x == *y,
        (JsonNumber::Float(_), JsonNumber::Float(_)) => crate::number::compare_numbers(a, b) == 0,
        _ => false,
    }
}

/// Equality of two JSON values (see `same_json`).
pub fn values_equal(a: &JsonValue, b: &JsonValue) -> (r: bool)
    ensures
        r == same_json(a.model(), b.model()),
    decreases a, 1int,
{
    match (a, b) {
        (JsonValue::Null, JsonValue::Null) => true,
        (JsonValue::Bool(x), JsonValue::Bool(y)) => *x == *y,
        (JsonValue::Number(x), JsonValue::Number(y)) => numbers_equal(x, y),
        (JsonValue::String(x), JsonValue::String(y)) => *x == *y,
        (JsonValue::Array(xs), JsonValue::Array(ys)) => {
            proof {
                lemma_array_model(*xs);
                lemma_array_model(*ys);
            }
            arrays_equal(xs, ys)
        },
        (JsonValue::Object(xs), JsonValue::Object(ys)) => {
            proof {
                lemma_object_model(*xs);
                lemma_object_model(*ys);
            }
            entries_equal(xs, ys)
        },
        _ => false,
    }
}

fn arrays_equal(xs: &Vec<JsonValue>, ys: &Vec<JsonValue>) -> (r: bool)
    ensures
        r == same_json(JsonModel::Array(models(xs@)), JsonModel::Array(models(ys@))),
    decreases xs, 0int,
{
    let ghost mx = models(xs@);
    let ghost my = models(ys@);
    if xs.len() != ys.len() {
        return false;
    }
    let mut i: usize = 0;
    while i < xs.len()
        invariant
            i <= xs.len() == ys.len(),
            mx == models(xs@),
            my == models(ys@),
            forall|j: int| 0 <= j < i ==> same_json(#[trigger] mx[j], my[j]),
        decreases xs.len() - i,
    {
        if !values_equal(&xs[i], &ys[i]) {
            assert(!same_json(mx[i as int], my[i as int]));
            return false;
        }
        i = i + 1;
    }
    true
}

fn entries_equal(xs: &Vec<(String, JsonValue)>, ys: &Vec<(String, JsonValue)>) -> (r: bool)
    ensures
        r == same_json(JsonModel::Object(entry_models(xs@)), JsonModel::Object(entry_models(ys@))),
    decreases xs, 0int,
{
    let ghost mx = entry_models(xs@);
    let ghost my = entry_models(ys@);
    if xs.len() != ys.len() {
        return false;
    }
    let mut i: usize = 0;
    while i < xs.len()
        invariant
            i <= xs.len() == ys.len(),
            mx == entry_models(xs@),
            my == entry_models(ys@),
            forall|j: int| 0 <= j < i ==> (#[trigger] mx[j]).0 == my[j].0 && same_json(mx[j].1, my[j].1),
        decreases xs.len() - i,
    {
        if xs[i].0 != ys[i].0 {
            assert(mx[i as int].0 != my[i as int].0);
            return false;
        }
        if !values_equal(&xs[i].1, &ys[i].1) {
            assert(!same_json(mx[i as int].1, my[i as int].1));
            return false;
        }
        i = i + 1;
    }
    true
}

} // verus!

verus! {

impl JsonValue {
    pub fn is_object(&self) -> (r: bool)
        ensures
            r == (self.model() is Object),
    {
        match self {
            JsonValue::Object(_) => true,
            _ => false,
        }
    }

    pub fn is_array(&self) -> (r: bool)
        ensures
            r == (self.model() is Array),
    {
        match self {
            JsonValue::Array(_) => true,
            _ => false,
        }
    }

    pub fn is_string(&self) -> (r: bool)
        ensures
            r == (self.model() is String),
    {
        match self {
            JsonValue::String(_) => true,
            _ => false,
        }
    }

    pub fn is_number(&self) -> (r: bool)
        ensures
            r == (self.model() is Number),
    {
        match self {
            JsonValue::Number(_) => true,
            _ => false,
        }
    }

    pub fn is_bool(&self) -> (r: bool)
        ensures
            r == (self.model() is Bool),
    {
        match self {
            JsonValue::Bool(_) => true,
            _ => false,
        }
    }

    pub fn is_null(&self) -> (r: bool)
        ensures
            r == (self.model() is Null),
    {
        match self {
            JsonValue::Null => true,
            _ => false,
        }
    }
}

/// A valid value: the keys of every object in it strictly ascend.
pub open spec fn json_wf(m: JsonModel) -> bool
    decreases m,
{
    match m {
        JsonModel::Array(items) => forall|i: int| 0 <= i < items.len() ==> json_wf(#[trigger] items[i]),
        JsonModel::Object(e) => crate::config::keys_ascending(e) && forall|i: int| 0 <= i < e.len()
            ==> json_wf(#[trigger] e[i].1),
        _ => true,
    }
}

/// Inserting a valid value among valid values keeps every value valid.
pub proof fn lemma_insert_json_values_wf(e: Seq<(Seq<char>, JsonModel)>, k: Seq<char>, v: JsonModel)
    requires
        forall|i: int| 0 <= i < e.len() ==> json_wf(#[trigger] e[i].1),
        json_wf(v),
    ensures
        forall|j: int| 0 <= j < object_insert(e, k, v).len() ==> json_wf(#[trigger] object_insert(e, k, v)[j].1),
    decreases e.len(),
{
    let r = object_insert(e, k, v);
    if e.len() == 0 {
    } else if e[0].0 == k {
        assert forall|j: int| 0 <= j < r.len() implies json_wf(#[trigger] r[j].1) by {
            if j > 0 {
                assert(r[j] == e[j]);
            }
        }
    } else if key_less(k, e[0].0) {
        assert forall|j: int| 0 <= j < r.len() implies json_wf(#[trigger] r[j].1) by {
            if j > 0 {
                assert(r[j] == e[j - 1]);
            }
        }
    } else {
        let rest = e.drop_first();
        assert forall|i: int| 0 <= i < rest.len() implies json_wf(#[trigger] rest[i].1) by {
            assert(rest[i] == e[i + 1]);
        }
        lemma_insert_json_values_wf(rest, k, v);
        let rr = object_insert(rest, k, v);
        assert forall|j: int| 0 <= j < r.len() implies json_wf(#[trigger] r[j].1) by {
            if j > 0 {
                assert(r[j] == rr[j - 1]);
            }
        }
    }
}

/// Whether a value is valid (see `json_wf`).
pub fn json_value_wf(v: &JsonValue) -> (r: bool)
    ensures
        r == json_wf(v.model()),
    decreases v, 1int,
{
    match v {
        JsonValue::Array(items) => {
            proof {
                lemma_array_model(*items);
            }
            let r = json_items_wf(items);
            proof {
                let m = models(items@);
                let vm = v.model();
                assert(vm is Array && vm->Array_0 == m);
                if r {
                    assert(json_wf(vm));
                } else {
                    let i = choose|i: int| 0 <= i < m.len() && !json_wf(#[trigger] m[i]);
                    if json_wf(vm) {
                        assert(json_wf(vm->Array_0[i]));
                    }
                }
            }
            r
        },
        JsonValue::Object(entries) => {
            proof {
                lemma_object_model(*entries);
            }
            let r = json_entries_wf(entries);
            proof {
                let m = entry_models(entries@);
                let vm = v.model();
                assert(vm is Object && vm->Object_0 == m);
                if r {
                    assert(json_wf(vm));
                } else if crate::config::keys_ascending(m) {
                    let i = choose|i: int| 0 <= i < m.len() && !json_wf(#[trigger] m[i].1);
                    if json_wf(vm) {
                        assert(json_wf(vm->Object_0[i].1));
                    }
                }
            }
            r
        },
        _ => true,
    }
}

fn json_items_wf(items: &Vec<JsonValue>) -> (r: bool)
    ensures
        r == forall|i: int| 0 <= i < items@.len() ==> json_wf(#[trigger] models(items@)[i]),
    decreases items, 0int,
{
    let ghost m = models(items@);
    let mut i: usize = 0;
    while i < items.len()
        invariant
            i <= items.len(),
            m == models(items@),
            forall|j: int| 0 <= j < i ==> json_wf(#[trigger] m[j]),
        decreases items.len() - i,
    {
        if !json_value_wf(&items[i]) {
            assert(!json_wf(m[i as int]));
            return false;
        }
        i = i + 1;
    }
    true
}

fn json_entries_wf(entries: &Vec<(String, JsonValue)>) -> (r: bool)
    ensures
        r == (crate::config::keys_ascending(entry_models(entries@)) && forall|i: int| 0 <= i < entries@.len()
            ==> json_wf(#[trigger] entry_models(entries@)[i].1)),
    decreases entries, 0int,
{
    let ghost m = entry_models(entries@);
    let mut i: usize = 0;
    while i < entries.len()
        invariant
            i <= entries.len(),
            m == entry_models(entries@),
            crate::config::keys_ascending(m.take(i as int)),
            forall|j: int| 0 <= j < i ==> json_wf(#[trigger] m[j].1),
        decreases entries.len() - i,
    {
        if i > 0 {
            let a = crate::text::chars_of(entries[i - 1].0.as_str());
            let b = crate::text::chars_of(entries[i].0.as_str());
            if !chars_less(&a, &b) {
                assert(!key_less(m[i - 1].0, m[i as int].0));
                return false;
            }
            proof {
                let t = m.take(i + 1);
                assert forall|x: int, y: int| 0 <= x < y < t.len() implies key_less(#[trigger] t[x].0, #[trigger] t[y].0) by {
                    if y < i {
                        assert(m.take(i as int)[x] == t[x] && m.take(i as int)[y] == t[y]);
                    } else if x < i - 1 {
                        assert(m.take(i as int)[x] == t[x] && m.take(i as int)[i - 1] == m[i - 1]);
                        crate::config::lemma_key_less_transitive(t[x].0, m[i - 1].0, t[y].0);
                    }
                }
            }
        } else {
            assert(crate::config::keys_ascending(m.take(1)));
        }
        if !json_value_wf(&entries[i].1) {
            assert(!json_wf(m[i as int].1));
            return false;
        }
        i = i + 1;
    }
    assert(m.take(i as int) =~= m);
    true
}

/// A value of `serde_json`, carried through as it is.
#[verifier::external_type_specification]
#[verifier::external_body]
pub struct ExSerdeJsonValue(serde_json::Value);

/// The library's value for a parsed `serde_json` value, node for node: a
/// number as `PosInt` when it is a `u64`, as `NegInt` when an `i64`, else as a
/// decimal literal of its `Display` text; an object's entries in the map's order.
#[verifier::external_body]
fn json_value_of(value: &SerdeJson) -> JsonValue {
    match value {
        SerdeJson::Null => JsonValue::Null,
        SerdeJson::Bool(b) => JsonValue::Bool(*b),
        SerdeJson::Number(n) => JsonValue::Number(match (n.as_u64(), n.as_i64()) {
            (Some(u), _) => JsonNumber::PosInt(u),
            (None, Some(i)) => JsonNumber::NegInt(i),
            (None, None) => JsonNumber::Float(n.to_string()),
        }),
        SerdeJson::String(s) => JsonValue::String(s.clone()),
        SerdeJson::Array(items) => JsonValue::Array(items.iter().map(json_value_of).collect()),
        SerdeJson::Object(m) => JsonValue::Object(m.iter().map(|(k, v)| (k.clone(), json_value_of(v))).collect()),
    }
}

/// `serde_json::from_str::<serde_json::Value>(text)`: the JSON value the text
/// holds (as `json_value_of` renders it), or the text of its error.
pub uninterp spec fn json_reading(text: Seq<char>) -> Result<JsonModel, Seq<char>>;

/// Parses a JSON text with `serde_json`. Its objects are `BTreeMap`s (the
/// `preserve_order` feature is off), so every object comes out valid.
#[verifier::external_body]
pub(crate) fn parse_json_text(text: &str) -> (r: Result<JsonValue, String>)
    ensures
        match json_reading(text@) {
            Ok(m) => r matches Ok(v) && v.model() == m && json_wf(m),
            Err(e) => r matches Err(s) && s@ == e,
        },
{
    match serde_json::from_str::<serde_json::Value>(text) {
        Ok(v) => Ok(json_value_of(&v)),
        Err(e) => Err(e.to_string()),
    }
}

} // verus!
