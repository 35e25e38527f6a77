//! Layered TOML configuration: tables merged from engine defaults, project
//! files and command-line overrides, read and written by dotted paths.
use vstd::prelude::*;
use toml::Value as Toml;
use crate::json::{key_less, object_insert, object_get, chars_less, chars_equal, lemma_object_insert_skip};
use crate::text::{split_char, views, split_from, lemma_split_nonempty, chars_of, string_of, is_digit, digit};
use crate::number::all_digit_chars;
use crate::ron_subset::{digits_value, digits_end, lemma_digits_end, lemma_digits_value_push};

verus! {

/// A TOML value. Floats and date-times are kept as the text they were written as.
#[derive(Debug)]
pub enum TomlValue {
    String(String),
    Integer(i64),
    Float(String),
    Boolean(bool),
    Datetime(String),
    Array(Vec<TomlValue>),
    Table(Vec<(String, TomlValue)>),
}

/// The mathematical model of a [`TomlValue`].
pub enum TomlModel {
    String(Seq<char>),
    Integer(int),
    Float(Seq<char>),
    Boolean(bool),
    Datetime(Seq<char>),
    Array(Seq<TomlModel>),
    Table(Seq<(Seq<char>, TomlModel)>),
}

impl TomlValue {
    pub open spec fn model(self) -> TomlModel
        decreases self,
    {
        match self {
            TomlValue::String(s) => TomlModel::String(s@),
            TomlValue::Integer(n) => TomlModel::Integer(n as int),
            TomlValue::Float(t) => TomlModel::Float(t@),
            TomlValue::Boolean(b) => TomlModel::Boolean(b),
            TomlValue::Datetime(t) => TomlModel::Datetime(t@),
            TomlValue::Array(items) => TomlModel::Array(
                Seq::new(
                    items@.len(),
                    |i: int|
                        if 0 <= i < items@.len() {
                            items@[i].model()
                        } else {
                            TomlModel::Boolean(false)
                        },
                ),
            ),
            TomlValue::Table(entries) => TomlModel::Table(
                Seq::new(
                    entries@.len(),
                    |i: int|
                        if 0 <= i < entries@.len() {
                            (entries@[i].0@, entries@[i].1.model())
                        } else {
                            (Seq::empty(), TomlModel::Boolean(false))
                        },
                ),
            ),
        }
    }
}

/// The models of a sequence of values, element by element.
pub open spec fn toml_models(items: Seq<TomlValue>) -> Seq<TomlModel> {
    Seq::new(items.len(), |i: int| items[i].model())
}

/// The model of a table: its entries, key by key, in the order they are kept.
pub open spec fn table_model(entries: Seq<(String, TomlValue)>) -> Seq<(Seq<char>, TomlModel)> {
    Seq::new(entries.len(), |i: int| (entries[i].0@, entries[i].1.model()))
}

pub proof fn lemma_toml_array_model(items: Vec<TomlValue>)
    ensures
        TomlValue::Array(items).model() == TomlModel::Array(toml_models(items@)),
{
    assert(toml_models(items@) =~= match TomlValue::Array(items).model() {
        TomlModel::Array(s) => s,
        _ => Seq::empty(),
    });
}

pub proof fn lemma_toml_table_model(entries: Vec<(String, TomlValue)>)
    ensures
        TomlValue::Table(entries).model() == TomlModel::Table(table_model(entries@)),
{
    assert(table_model(entries@) =~= match TomlValue::Table(entries).model() {
        TomlModel::Table(s) => s,
        _ => Seq::empty(),
    });
}

/// Keys in strictly ascending order: the order in which a TOML table holds
/// and walks its entries, each key once.
pub open spec fn keys_ascending<V>(e: Seq<(Seq<char>, V)>) -> bool {
    forall|i: int, j: int| 0 <= i < j < e.len() ==> key_less(#[trigger] e[i].0, #[trigger] e[j].0)
}

/// A well-formed table: ascending keys at every level of nesting.
pub open spec fn table_wf(e: Seq<(Seq<char>, TomlModel)>) -> bool
    decreases e,
{
    &&& keys_ascending(e)
    &&& forall|i: int| 0 <= i < e.len() ==> value_wf(#[trigger] e[i].1)
}

/// A well-formed value: every table inside it is well-formed.
pub open spec fn value_wf(v: TomlModel) -> bool
    decreases v,
{
    match v {
        TomlModel::Table(e) => table_wf(e),
        TomlModel::Array(items) => forall|i: int| 0 <= i < items.len() ==> value_wf(#[trigger] items[i]),
        _ => true,
    }
}

/// Reading a dotted path (already split into segments) from a table, the way
/// `get_at_dot_path` walks it: each segment but the last must name a table.
pub open spec fn path_get(t: Seq<(Seq<char>, TomlModel)>, segs: Seq<Seq<char>>) -> Option<TomlModel>
    decreases segs.len(),
{
    if segs.len() == 0 {
        None
    } else {
        match object_get(t, segs[0]) {
            None => None,
            Some(v) => if segs.len() == 1 {
                Some(v)
            } else {
                match v {
                    TomlModel::Table(sub) => path_get(sub, segs.drop_first()),
                    _ => None,
                }
            },
        }
    }
}

/// Writing `v` at a dotted path: the last segment is inserted into the table
/// that the other segments lead to; a segment that names nothing, or names a
/// value that is not a table, gets a fresh table in its place.
pub open spec fn path_set(t: Seq<(Seq<char>, TomlModel)>, segs: Seq<Seq<char>>, v: TomlModel) -> Seq<
    (Seq<char>, TomlModel),
>
    decreases segs.len(),
{
    if segs.len() == 0 {
        t
    } else if segs.len() == 1 {
        object_insert(t, segs[0], v)
    } else {
        let sub = match object_get(t, segs[0]) {
            Some(TomlModel::Table(s)) => s,
            _ => Seq::empty(),
        };
        object_insert(t, segs[0], TomlModel::Table(path_set(sub, segs.drop_first(), v)))
    }
}

/// Merging `overlay` into `base`, entry by entry in the overlay's order: where
/// both sides hold a table the two are merged, otherwise the overlay's value
/// replaces what `base` held.
pub open spec fn table_merge(base: Seq<(Seq<char>, TomlModel)>, overlay: Seq<(Seq<char>, TomlModel)>) -> Seq<
    (Seq<char>, TomlModel),
>
    decreases overlay,
{
    if overlay.len() == 0 {
        base
    } else {
        let k = overlay[0].0;
        let next = match (object_get(base, k), overlay[0].1) {
            (Some(TomlModel::Table(bs)), TomlModel::Table(os)) => object_insert(
                base,
                k,
                TomlModel::Table(table_merge(bs, os)),
            ),
            _ => object_insert(base, k, overlay[0].1),
        };
        proof {
            assert(overlay.drop_first() =~= overlay.subrange(1, overlay.len() as int));
        }
        table_merge(next, overlay.drop_first())
    }
}

} // verus!

verus! {

pub proof fn lemma_key_less_irreflexive(a: Seq<char>)
    ensures
        !key_less(a, a),
    decreases a.len(),
{
    if a.len() > 0 {
        lemma_key_less_irreflexive(a.drop_first());
    }
}

pub proof fn lemma_key_less_transitive(a: Seq<char>, b: Seq<char>, c: Seq<char>)
    requires
        key_less(a, b),
        key_less(b, c),
    ensures
        key_less(a, c),
    decreases a.len(),
{
    if a.len() > 0 && b.len() > 0 && c.len() > 0 && a[0] == b[0] && b[0] == c[0] {
        lemma_key_less_transitive(a.drop_first(), b.drop_first(), c.drop_first());
    }
}

pub proof fn lemma_key_less_total(a: Seq<char>, b: Seq<char>)
    requires
        a != b,
    ensures
        key_less(a, b) || key_less(b, a),
    decreases a.len(),
{
    if a.len() > 0 && b.len() > 0 {
        if a[0] == b[0] {
            if a.drop_first() == b.drop_first() {
                assert(a =~= seq![a[0]] + a.drop_first());
                assert(b =~= seq![b[0]] + b.drop_first());
            }
            lemma_key_less_total(a.drop_first(), b.drop_first());
        } else {
            vstd::utf8::char_u32_cast(a[0], a[0] as u32);
            vstd::utf8::char_u32_cast(b[0], b[0] as u32);
        }
    } else if a.len() == 0 && b.len() == 0 {
        assert(a =~= b);
    }
}

/// Inserting a key above a lower bound into entries above that bound keeps
/// every key above it.
pub proof fn lemma_insert_above<V>(e: Seq<(Seq<char>, V)>, k: Seq<char>, v: V, lo: Seq<char>)
    requires
        key_less(lo, k),
        forall|i: int| 0 <= i < e.len() ==> key_less(lo, #[trigger] e[i].0),
    ensures
        forall|j: int|
            0 <= j < object_insert(e, k, v).len() ==> key_less(lo, #[trigger] object_insert(e, k, v)[j].0),
    decreases e.len(),
{
    if e.len() > 0 && e[0].0 != k && !key_less(k, e[0].0) {
        let rest = e.drop_first();
        lemma_insert_above(rest, k, v, lo);
        let r = object_insert(rest, k, v);
        assert forall|j: int| 0 <= j < object_insert(e, k, v).len() implies key_less(
            lo,
            #[trigger] object_insert(e, k, v)[j].0,
        ) by {
            if j > 0 {
                assert(object_insert(e, k, v)[j] == r[j - 1]);
            }
        }
    } else if e.len() > 0 && e[0].0 == k {
        assert forall|j: int| 0 <= j < object_insert(e, k, v).len() implies key_less(
            lo,
            #[trigger] object_insert(e, k, v)[j].0,
        ) by {
            if j > 0 {
                assert(object_insert(e, k, v)[j] == e[j]);
            }
        }
    } else if e.len() > 0 {
        assert forall|j: int| 0 <= j < object_insert(e, k, v).len() implies key_less(
            lo,
            #[trigger] object_insert(e, k, v)[j].0,
        ) by {
            if j > 0 {
                assert(object_insert(e, k, v)[j] == e[j - 1]);
            }
        }
    }
}

/// Inserting into entries with ascending keys keeps them ascending.
pub proof fn lemma_insert_ascending<V>(e: Seq<(Seq<char>, V)>, k: Seq<char>, v: V)
    requires
        keys_ascending(e),
    ensures
        keys_ascending(object_insert(e, k, v)),
    decreases e.len(),
{
    let r = object_insert(e, k, v);
    if e.len() == 0 {
    } else if e[0].0 == k {
        assert forall|j: int| 0 <= j < r.len() implies #[trigger] r[j].0 == e[j].0 by {
            if j > 0 {
                assert(r[j] == e[j]);
            }
        }
    } else if key_less(k, e[0].0) {
        assert forall|i: int, j: int| 0 <= i < j < r.len() implies key_less(
            #[trigger] r[i].0,
            #[trigger] r[j].0,
        ) by {
            assert(r[j] == e[j - 1]);
            if i == 0 {
                if j > 1 {
                    lemma_key_less_transitive(k, e[0].0, e[j - 1].0);
                }
            } else {
                assert(r[i] == e[i - 1]);
            }
        }
    } else {
        let rest = e.drop_first();
        lemma_insert_ascending(rest, k, v);
        lemma_key_less_total(k, e[0].0);
        lemma_insert_above(rest, k, v, e[0].0);
        let rr = object_insert(rest, k, v);
        assert forall|i: int, j: int| 0 <= i < j < r.len() implies key_less(
            #[trigger] r[i].0,
            #[trigger] r[j].0,
        ) by {
            assert(r[j] == rr[j - 1]);
            if i > 0 {
                assert(r[i] == rr[i - 1]);
            }
        }
    }
}

/// After inserting `(k, v)`, looking `k` up gives `v`.
pub proof fn lemma_get_insert_same<V>(e: Seq<(Seq<char>, V)>, k: Seq<char>, v: V)
    ensures
        object_get(object_insert(e, k, v), k) == Some(v),
    decreases e.len(),
{
    let r = object_insert(e, k, v);
    if e.len() > 0 && e[0].0 != k && !key_less(k, e[0].0) {
        lemma_get_insert_same(e.drop_first(), k, v);
        assert(r.drop_first() =~= object_insert(e.drop_first(), k, v));
    } else {
        assert(r[0] == (k, v));
    }
}

/// Inserting `(k, v)` leaves the lookup of every other key as it was.
pub proof fn lemma_get_insert_other<V>(e: Seq<(Seq<char>, V)>, k: Seq<char>, v: V, other: Seq<char>)
    requires
        other != k,
    ensures
        object_get(object_insert(e, k, v), other) == object_get(e, other),
    decreases e.len(),
{
    let r = object_insert(e, k, v);
    if e.len() == 0 {
        assert(r.drop_first() =~= e);
    } else if e[0].0 == k {
        assert(r.drop_first() =~= e.drop_first());
    } else if key_less(k, e[0].0) {
        assert(r.drop_first() =~= e);
    } else if e[0].0 != other {
        lemma_get_insert_other(e.drop_first(), k, v, other);
        assert(r.drop_first() =~= object_insert(e.drop_first(), k, v));
    }
}

/// A write at a dotted path is read back from that path.
pub proof fn law_path_read_after_write(t: Seq<(Seq<char>, TomlModel)>, segs: Seq<Seq<char>>, v: TomlModel)
    requires
        segs.len() >= 1,
    ensures
        path_get(path_set(t, segs, v), segs) == Some(v),
    decreases segs.len(),
{
    if segs.len() == 1 {
        lemma_get_insert_same(t, segs[0], v);
    } else {
        let sub = match object_get(t, segs[0]) {
            Some(TomlModel::Table(s)) => s,
            _ => Seq::empty(),
        };
        law_path_read_after_write(sub, segs.drop_first(), v);
        lemma_get_insert_same(t, segs[0], TomlModel::Table(path_set(sub, segs.drop_first(), v)));
    }
}

/// A write at a dotted path leaves every path under another top-level key as it was.
pub proof fn law_path_write_keeps_other_keys(
    t: Seq<(Seq<char>, TomlModel)>,
    segs: Seq<Seq<char>>,
    v: TomlModel,
    q: Seq<Seq<char>>,
)
    requires
        segs.len() >= 1,
        q.len() >= 1,
        q[0] != segs[0],
    ensures
        path_get(path_set(t, segs, v), q) == path_get(t, q),
{
    if segs.len() == 1 {
        lemma_get_insert_other(t, segs[0], v, q[0]);
    } else {
        let sub = match object_get(t, segs[0]) {
            Some(TomlModel::Table(s)) => s,
            _ => Seq::empty(),
        };
        lemma_get_insert_other(t, segs[0], TomlModel::Table(path_set(sub, segs.drop_first(), v)), q[0]);
    }
}

} // verus!

verus! {

/// `segs` leads nowhere in `t`: no value sits at `segs` or at any shorter
/// prefix of it, except tables on the way down.
pub open spec fn path_absent(t: Seq<(Seq<char>, TomlModel)>, segs: Seq<Seq<char>>) -> bool
    decreases segs.len(),
{
    &&& segs.len() >= 1
    &&& match object_get(t, segs[0]) {
        None => true,
        Some(TomlModel::Table(sub)) => segs.len() > 1 && path_absent(sub, segs.drop_first()),
        Some(_) => false,
    }
}

proof fn lemma_path_absent_reads_nothing(t: Seq<(Seq<char>, TomlModel)>, segs: Seq<Seq<char>>)
    requires
        path_absent(t, segs),
    ensures
        path_get(t, segs) is None,
    decreases segs.len(),
{
    if let Some(TomlModel::Table(sub)) = object_get(t, segs[0]) {
        lemma_path_absent_reads_nothing(sub, segs.drop_first());
    }
}

proof fn lemma_get_absent<V>(e: Seq<(Seq<char>, V)>, k: Seq<char>)
    requires
        forall|i: int| 0 <= i < e.len() ==> #[trigger] e[i].0 != k,
    ensures
        object_get(e, k) is None,
    decreases e.len(),
{
    if e.len() > 0 {
        assert(e[0].0 != k);
        assert forall|i: int| 0 <= i < e.drop_first().len() implies #[trigger] e.drop_first()[i].0 != k by {
            assert(e.drop_first()[i] == e[i + 1]);
        }
        lemma_get_absent(e.drop_first(), k);
    }
}

/// In a table with ascending keys the first key does not come back later.
proof fn lemma_first_key_once(o: Seq<(Seq<char>, TomlModel)>)
    requires
        o.len() >= 1,
        keys_ascending(o),
    ensures
        object_get(o.drop_first(), o[0].0) is None,
        keys_ascending(o.drop_first()),
{
    assert forall|i: int| 0 <= i < o.drop_first().len() implies #[trigger] o.drop_first()[i].0 != o[0].0 by {
        assert(o.drop_first()[i] == o[i + 1]);
        assert(key_less(o[0].0, o[i + 1].0));
        lemma_key_less_irreflexive(o[0].0);
    }
    lemma_get_absent(o.drop_first(), o[0].0);
    assert forall|i: int, j: int| 0 <= i < j < o.drop_first().len() implies key_less(
        #[trigger] o.drop_first()[i].0,
        #[trigger] o.drop_first()[j].0,
    ) by {
        assert(o.drop_first()[i] == o[i + 1]);
        assert(o.drop_first()[j] == o[j + 1]);
    }
}

proof fn lemma_wf_tail(o: Seq<(Seq<char>, TomlModel)>)
    requires
        o.len() >= 1,
        table_wf(o),
    ensures
        table_wf(o.drop_first()),
        value_wf(o[0].1),
        object_get(o.drop_first(), o[0].0) is None,
{
    lemma_first_key_once(o);
    assert(value_wf(o[0].1));
    assert forall|i: int| 0 <= i < o.drop_first().len() implies value_wf(#[trigger] o.drop_first()[i].1) by {
        assert(o.drop_first()[i] == o[i + 1]);
    }
}

/// Merging an overlay keeps every value of the base that the overlay leaves alone.
pub proof fn law_merge_keeps_base(
    base: Seq<(Seq<char>, TomlModel)>,
    overlay: Seq<(Seq<char>, TomlModel)>,
    segs: Seq<Seq<char>>,
)
    requires
        table_wf(overlay),
        path_absent(overlay, segs),
    ensures
        path_get(table_merge(base, overlay), segs) == path_get(base, segs),
    decreases overlay,
{
    if overlay.len() > 0 {
        let k = overlay[0].0;
        let ov = overlay[0].1;
        let next = match (object_get(base, k), ov) {
            (Some(TomlModel::Table(bs)), TomlModel::Table(os)) => object_insert(
                base,
                k,
                TomlModel::Table(table_merge(bs, os)),
            ),
            _ => object_insert(base, k, ov),
        };
        lemma_wf_tail(overlay);
        assert(overlay.drop_first() =~= overlay.subrange(1, overlay.len() as int));
        if k != segs[0] {
            match (object_get(base, k), ov) {
                (Some(TomlModel::Table(bs)), TomlModel::Table(os)) => {
                    lemma_get_insert_other(base, k, TomlModel::Table(table_merge(bs, os)), segs[0]);
                },
                _ => {
                    lemma_get_insert_other(base, k, ov, segs[0]);
                },
            }
            assert(path_get(next, segs) == path_get(base, segs));
            law_merge_keeps_base(next, overlay.drop_first(), segs);
        } else {
            let sub = match ov {
                TomlModel::Table(s) => s,
                _ => Seq::empty(),
            };
            assert(ov is Table);
            assert(path_absent(sub, segs.drop_first()));
            match (object_get(base, k), ov) {
                (Some(TomlModel::Table(bs)), TomlModel::Table(os)) => {
                    lemma_get_insert_same(base, k, TomlModel::Table(table_merge(bs, os)));
                    law_merge_keeps_base(bs, os, segs.drop_first());
                },
                _ => {
                    lemma_get_insert_same(base, k, ov);
                    lemma_path_absent_reads_nothing(sub, segs.drop_first());
                },
            }
            assert(path_get(next, segs) == path_get(base, segs));
            assert(path_absent(overlay.drop_first(), segs));
            law_merge_keeps_base(next, overlay.drop_first(), segs);
        }
    }
}

/// Merging an overlay: a value that is not a table, read at a path of the
/// overlay, is what the merged table holds there.
pub proof fn law_merge_overlay_wins(
    base: Seq<(Seq<char>, TomlModel)>,
    overlay: Seq<(Seq<char>, TomlModel)>,
    segs: Seq<Seq<char>>,
    x: TomlModel,
)
    requires
        table_wf(overlay),
        path_get(overlay, segs) == Some(x),
        !(x is Table),
    ensures
        path_get(table_merge(base, overlay), segs) == Some(x),
    decreases overlay,
{
    if overlay.len() > 0 {
        let k = overlay[0].0;
        let ov = overlay[0].1;
        let next = match (object_get(base, k), ov) {
            (Some(TomlModel::Table(bs)), TomlModel::Table(os)) => object_insert(
                base,
                k,
                TomlModel::Table(table_merge(bs, os)),
            ),
            _ => object_insert(base, k, ov),
        };
        lemma_wf_tail(overlay);
        assert(overlay.drop_first() =~= overlay.subrange(1, overlay.len() as int));
        if k != segs[0] {
            law_merge_overlay_wins(next, overlay.drop_first(), segs, x);
        } else {
            if segs.len() == 1 {
                assert(ov == x);
                lemma_get_insert_same(base, k, ov);
            } else {
                let sub = match ov {
                    TomlModel::Table(s) => s,
                    _ => Seq::empty(),
                };
                assert(ov is Table);
                match (object_get(base, k), ov) {
                    (Some(TomlModel::Table(bs)), TomlModel::Table(os)) => {
                        lemma_get_insert_same(base, k, TomlModel::Table(table_merge(bs, os)));
                        law_merge_overlay_wins(bs, os, segs.drop_first(), x);
                    },
                    _ => {
                        lemma_get_insert_same(base, k, ov);
                    },
                }
            }
            assert(path_get(next, segs) == Some(x));
            assert(path_absent(overlay.drop_first(), segs));
            law_merge_keeps_base(next, overlay.drop_first(), segs);
        }
    }
}

} // verus!

verus! {

/// A copy of `v`, all the way down.
pub fn clone_value(v: &TomlValue) -> (r: TomlValue)
    ensures
        r.model() == v.model(),
    decreases v, 1int,
{
    match v {
        TomlValue::String(s) => TomlValue::String(s.clone()),
        TomlValue::Integer(n) => TomlValue::Integer(*n),
        TomlValue::Float(t) => TomlValue::Float(t.clone()),
        TomlValue::Boolean(b) => TomlValue::Boolean(*b),
        TomlValue::Datetime(t) => TomlValue::Datetime(t.clone()),
        TomlValue::Array(items) => {
            let out = clone_items(items);
            proof {
                lemma_toml_array_model(*items);
                lemma_toml_array_model(out);
            }
            TomlValue::Array(out)
        },
        TomlValue::Table(entries) => {
            let out = clone_table(entries);
            proof {
                lemma_toml_table_model(*entries);
                lemma_toml_table_model(out);
            }
            TomlValue::Table(out)
        },
    }
}

fn clone_items(items: &Vec<TomlValue>) -> (r: Vec<TomlValue>)
    ensures
        toml_models(r@) == toml_models(items@),
    decreases items, 0int,
{
    let mut out: Vec<TomlValue> = Vec::new();
    let mut i: usize = 0;
    while i < items.len()
        invariant
            i <= items.len(),
            out.len() == i,
            forall|j: int| 0 <= j < i ==> (#[trigger] out@[j]).model() == items@[j].model(),
        decreases items.len() - i,
    {
        let c = clone_value(&items[i]);
        out.push(c);
        i = i + 1;
    }
    assert(toml_models(out@) =~= toml_models(items@));
    out
}

/// Whether a value is well-formed: every table in it has strictly ascending keys.
pub fn toml_value_wf(v: &TomlValue) -> (r: bool)
    ensures
        r == value_wf(v.model()),
    decreases v, 1int,
{
    match v {
        TomlValue::Array(items) => {
            proof {
                lemma_toml_array_model(*items);
            }
            let r = items_wf(items);
            proof {
                let m = toml_models(items@);
                let vm = v.model();
                assert(vm is Array && vm->Array_0 == m);
                if r {
                    assert forall|i: int| 0 <= i < m.len() implies value_wf(#[trigger] m[i]) by {}
                    assert(value_wf(vm));
                } else {
                    let i = choose|i: int| 0 <= i < m.len() && !value_wf(#[trigger] m[i]);
                    if value_wf(vm) {
                        assert(value_wf(vm->Array_0[i]));
                    }
                }
            }
            r
        },
        TomlValue::Table(entries) => {
            proof {
                lemma_toml_table_model(*entries);
            }
            toml_table_wf(entries)
        },
        _ => true,
    }
}

fn items_wf(items: &Vec<TomlValue>) -> (r: bool)
    ensures
        r == forall|i: int| 0 <= i < items@.len() ==> value_wf(#[trigger] toml_models(items@)[i]),
    decreases items, 0int,
{
    let ghost m = toml_models(items@);
    let mut i: usize = 0;
    while i < items.len()
        invariant
            i <= items.len(),
            m == toml_models(items@),
            forall|j: int| 0 <= j < i ==> value_wf(#[trigger] m[j]),
        decreases items.len() - i,
    {
        if !toml_value_wf(&items[i]) {
            assert(!value_wf(m[i as int]));
            return false;
        }
        i = i + 1;
    }
    true
}

/// Whether a table is well-formed: strictly ascending keys, and well-formed values.
pub fn toml_table_wf(entries: &Vec<(String, TomlValue)>) -> (r: bool)
    ensures
        r == table_wf(table_model(entries@)),
    decreases entries, 0int,
{
    let ghost m = table_model(entries@);
    let mut i: usize = 0;
    while i < entries.len()
        invariant
            i <= entries.len(),
            m == table_model(entries@),
            keys_ascending(m.take(i as int)),
            forall|j: int| 0 <= j < i ==> value_wf(#[trigger] m[j].1),
        decreases entries.len() - i,
    {
        if i > 0 {
            let a = chars_of(entries[i - 1].0.as_str());
            let b = chars_of(entries[i].0.as_str());
            if !chars_less(&a, &b) {
                assert(!key_less(m[i - 1].0, m[i as int].0));
                return false;
            }
            proof {
                let t = m.take(i + 1);
                assert forall|x: int, y: int| 0 <= x < y < t.len() implies key_less(#[trigger] t[x].0, #[trigger] t[y].0) by {
                    if y < i {
                        assert(m.take(i as int)[x] == t[x] && m.take(i as int)[y] == t[y]);
                    } else if x < i - 1 {
                        assert(m.take(i as int)[x] == t[x] && m.take(i as int)[i - 1] == m[i - 1]);
                        lemma_key_less_transitive(t[x].0, m[i - 1].0, t[y].0);
                    }
                }
            }
        } else {
            assert(keys_ascending(m.take(1)));
        }
        if !toml_value_wf(&entries[i].1) {
            assert(!value_wf(m[i as int].1));
            return false;
        }
        i = i + 1;
    }
    assert(m.take(i as int) =~= m);
    true
}

/// A copy of a table, all the way down.
pub fn clone_table(entries: &Vec<(String, TomlValue)>) -> (r: Vec<(String, TomlValue)>)
    ensures
        table_model(r@) == table_model(entries@),
    decreases entries, 0int,
{
    let mut out: Vec<(String, TomlValue)> = Vec::new();
    let mut i: usize = 0;
    while i < entries.len()
        invariant
            i <= entries.len(),
            out.len() == i,
            forall|j: int|
                0 <= j < i ==> (#[trigger] out@[j]).0@ == entries@[j].0@ && out@[j].1.model()
                    == entries@[j].1.model(),
        decreases entries.len() - i,
    {
        let k = entries[i].0.clone();
        let c = clone_value(&entries[i].1);
        out.push((k, c));
        i = i + 1;
    }
    assert(table_model(out@) =~= table_model(entries@));
    out
}

/// Inserts `(key, value)` into a table as `object_insert` does: the entry
/// with that key gets the new value, or the pair goes before the first
/// greater key.
pub fn table_insert(entries: &mut Vec<(String, TomlValue)>, key: String, value: TomlValue)
    ensures
        table_model(final(entries)@) == object_insert(table_model(old(entries)@), key@, value.model()),
{
    let ghost e0 = table_model(entries@);
    let ghost vm = value.model();
    let key_chars = chars_of(key.as_str());
    let mut p: usize = 0;
    assert(e0.skip(0) =~= e0);
    assert(e0.take(0) + object_insert(e0.skip(0), key@, vm) =~= object_insert(e0, key@, vm));
    while p < entries.len()
        invariant
            p <= entries.len(),
            entries@ == old(entries)@,
            e0 == table_model(entries@),
            key_chars@ == key@,
            vm == value.model(),
            object_insert(e0, key@, vm) == e0.take(p as int) + object_insert(e0.skip(p as int), key@, vm),
        decreases entries.len() - p,
    {
        let existing = chars_of(entries[p].0.as_str());
        if chars_equal(&existing, &key_chars) {
            assert(e0.skip(p as int).drop_first() =~= e0.skip(p + 1));
            entries.set(p, (key, value));
            assert(table_model(entries@) =~= e0.take(p as int) + object_insert(e0.skip(p as int), key@, vm));
            return;
        }
        if chars_less(&key_chars, &existing) {
            entries.insert(p, (key, value));
            assert(table_model(entries@) =~= e0.take(p as int) + object_insert(e0.skip(p as int), key@, vm));
            return;
        }
        proof {
            lemma_object_insert_skip(e0, p as int, key@, vm);
            assert(e0.take(p + 1) =~= e0.take(p as int).push(e0[p as int]));
        }
        p = p + 1;
    }
    entries.push((key, value));
    assert(table_model(entries@) =~= e0.take(p as int) + object_insert(e0.skip(p as int), key@, vm));
}

/// Position of the first entry whose key is `key`.
fn table_find(entries: &Vec<(String, TomlValue)>, key: &Vec<char>) -> (r: Option<usize>)
    ensures
        match r {
            Some(i) => i < entries.len() && object_get(table_model(entries@), key@) == Some(
                entries@[i as int].1.model(),
            ),
            None => object_get(table_model(entries@), key@) is None,
        },
{
    let ghost e0 = table_model(entries@);
    let mut p: usize = 0;
    assert(e0.skip(0) =~= e0);
    while p < entries.len()
        invariant
            p <= entries.len(),
            e0 == table_model(entries@),
            object_get(e0, key@) == object_get(e0.skip(p as int), key@),
        decreases entries.len() - p,
    {
        let existing = chars_of(entries[p].0.as_str());
        if chars_equal(&existing, key) {
            return Some(p);
        }
        assert(e0.skip(p as int).drop_first() =~= e0.skip(p + 1));
        p = p + 1;
    }
    None
}

/// The value at `segs[i..]` in `table`.
fn get_segments<'a>(table: &'a Vec<(String, TomlValue)>, segs: &Vec<Vec<char>>, i: usize) -> (r: Option<
    &'a TomlValue,
>)
    requires
        i < segs.len(),
    ensures
        match r {
            Some(v) => path_get(table_model(table@), views(segs@).skip(i as int)) == Some(v.model()),
            None => path_get(table_model(table@), views(segs@).skip(i as int)) is None,
        },
    decreases segs.len() - i,
{
    let ghost rest = views(segs@).skip(i as int);
    assert(rest[0] == segs@[i as int]@);
    match table_find(table, &segs[i]) {
        None => None,
        Some(idx) => {
            if i + 1 == segs.len() {
                Some(&table[idx].1)
            } else {
                assert(rest.drop_first() =~= views(segs@).skip(i + 1));
                match &table[idx].1 {
                    TomlValue::Table(sub) => {
                        proof {
                            lemma_toml_table_model(*sub);
                        }
                        get_segments(sub, segs, i + 1)
                    },
                    _ => None,
                }
            }
        },
    }
}

/// Writes `value` at `segs[i..]` in `table`.
fn set_segments(table: &mut Vec<(String, TomlValue)>, segs: &Vec<Vec<char>>, i: usize, value: TomlValue)
    requires
        i < segs.len(),
    ensures
        table_model(final(table)@) == path_set(
            table_model(old(table)@),
            views(segs@).skip(i as int),
            value.model(),
        ),
    decreases segs.len() - i,
{
    let ghost rest = views(segs@).skip(i as int);
    assert(rest[0] == segs@[i as int]@);
    let key = string_of(&segs[i]);
    if i + 1 == segs.len() {
        table_insert(table, key, value);
        return;
    }
    assert(rest.drop_first() =~= views(segs@).skip(i + 1));
    let ghost vm = value.model();
    let mut sub: Vec<(String, TomlValue)> = match table_find(table, &segs[i]) {
        Some(idx) => match &table[idx].1 {
            TomlValue::Table(s) => {
                proof {
                    lemma_toml_table_model(*s);
                }
                clone_table(s)
            },
            _ => Vec::new(),
        },
        None => Vec::new(),
    };
    assert(table_model(sub@) == match object_get(table_model(table@), rest[0]) {
        Some(TomlModel::Table(s)) => s,
        _ => Seq::empty(),
    });
    set_segments(&mut sub, segs, i + 1, value);
    proof {
        lemma_toml_table_model(sub);
    }
    table_insert(table, key, TomlValue::Table(sub));
}

/// The segments of a dotted path: `path.split('.')`.
fn path_segments(path: &str) -> (r: Vec<Vec<char>>)
    ensures
        views(r@) == split_char(path@, '.'),
        r.len() >= 1,
{
    let cs = chars_of(path);
    let r = split_from(&cs, 0, '.');
    assert(cs@.skip(0) =~= cs@);
    proof {
        lemma_split_nonempty(path@, '.');
    }
    r
}

/// The value at a dotted path such as `"app.window_title"`.
pub fn get_at_dot_path<'a>(table: &'a Vec<(String, TomlValue)>, path: &str) -> (r: Option<&'a TomlValue>)
    ensures
        match r {
            Some(v) => path_get(table_model(table@), split_char(path@, '.')) == Some(v.model()),
            None => path_get(table_model(table@), split_char(path@, '.')) is None,
        },
{
    let segs = path_segments(path);
    assert(views(segs@).skip(0) =~= views(segs@));
    get_segments(table, &segs, 0)
}

/// Writes `value` at a dotted path, making the tables on the way as needed.
pub fn set_at_dot_path(table: &mut Vec<(String, TomlValue)>, path: &str, value: TomlValue)
    ensures
        table_model(final(table)@) == path_set(table_model(old(table)@), split_char(path@, '.'), value.model()),
{
    let segs = path_segments(path);
    assert(views(segs@).skip(0) =~= views(segs@));
    set_segments(table, &segs, 0, value);
}

} // verus!

verus! {

fn merge_from(base: &mut Vec<(String, TomlValue)>, overlay: &Vec<(String, TomlValue)>)
    ensures
        table_model(final(base)@) == table_merge(table_model(old(base)@), table_model(overlay@)),
    decreases overlay,
{
    let ghost o = table_model(overlay@);
    let mut i: usize = 0;
    assert(o.skip(0) =~= o);
    while i < overlay.len()
        invariant
            i <= overlay.len(),
            o == table_model(overlay@),
            table_merge(table_model(old(base)@), o) == table_merge(table_model(base@), o.skip(i as int)),
        decreases overlay.len() - i,
    {
        let ghost cur = table_model(base@);
        let ghost rest = o.skip(i as int);
        assert(rest[0] == (overlay@[i as int].0@, overlay@[i as int].1.model()));
        assert(rest.drop_first() =~= o.skip(i + 1));
        let key = overlay[i].0.clone();
        let key_chars = chars_of(key.as_str());
        let mut merged = false;
        if let TomlValue::Table(os) = &overlay[i].1 {
            if let Some(idx) = table_find(base, &key_chars) {
                if let TomlValue::Table(bs) = &base[idx].1 {
                    proof {
                        lemma_toml_table_model(*bs);
                        lemma_toml_table_model(*os);
                    }
                    let mut sub = clone_table(bs);
                    merge_from(&mut sub, os);
                    proof {
                        lemma_toml_table_model(sub);
                    }
                    table_insert(base, key, TomlValue::Table(sub));
                    merged = true;
                }
            }
        }
        if !merged {
            let v = clone_value(&overlay[i].1);
            table_insert(base, overlay[i].0.clone(), v);
        }
        i = i + 1;
    }
}

/// Merges `overlay` into `base` (see `table_merge`).
pub fn merge_tables(base: &mut Vec<(String, TomlValue)>, overlay: Vec<(String, TomlValue)>)
    ensures
        table_model(final(base)@) == table_merge(table_model(old(base)@), table_model(overlay@)),
{
    merge_from(base, &overlay);
}

} // verus!

verus! {

/// The text after an optional leading `+` or `-`.
pub open spec fn unsigned_part(s: Seq<char>) -> Seq<char> {
    if s.len() > 0 && (s[0] == '+' || s[0] == '-') {
        s.drop_first()
    } else {
        s
    }
}

/// `s.parse::<i64>()`: an optional sign, then at least one decimal digit,
/// with a value in `i64`'s range.
pub open spec fn i64_literal(s: Seq<char>) -> Option<int> {
    let digits = unsigned_part(s);
    let magnitude = digits_value(digits);
    let v = if s.len() > 0 && s[0] == '-' {
        -magnitude
    } else {
        magnitude
    };
    if digits.len() > 0 && all_digit_chars(digits) && i64::MIN <= v <= i64::MAX {
        Some(v)
    } else {
        None
    }
}

/// ASCII lower case of one character.
pub open spec fn lower_ascii(c: char) -> char {
    if 'A' <= c <= 'Z' {
        ((c as u32) + 32) as char
    } else {
        c
    }
}

pub open spec fn lower_text(s: Seq<char>) -> Seq<char> {
    s.map_values(|c: char| lower_ascii(c))
}

/// `Digit+ | Digit+ '.' Digit* | Digit* '.' Digit+`, then an optional
/// exponent `[eE] [+-]? Digit+`, covering all of `b`.
pub open spec fn decimal_number(b: Seq<char>) -> bool {
    let i = digits_end(b, 0);
    let has_dot = i < b.len() && b[i] == '.';
    let j = if has_dot {
        digits_end(b, i + 1)
    } else {
        i
    };
    let mantissa_digits = if has_dot {
        i + (j - (i + 1))
    } else {
        i
    };
    let exp_start = if j + 1 < b.len() && (b[j + 1] == '+' || b[j + 1] == '-') {
        j + 2
    } else {
        j + 1
    };
    &&& mantissa_digits >= 1
    &&& (j == b.len() || ((b[j] == 'e' || b[j] == 'E') && exp_start < b.len() && digits_end(b, exp_start)
        == b.len()))
}

/// `s.parse::<f64>()` succeeds: an optional sign, then `inf`, `infinity`,
/// `nan` (in any case) or a decimal number.
pub open spec fn f64_literal(s: Seq<char>) -> bool {
    let b = unsigned_part(s);
    ||| lower_text(b) == "inf"@
    ||| lower_text(b) == "infinity"@
    ||| lower_text(b) == "nan"@
    ||| decimal_number(b)
}

/// What a command-line override reads as before TOML gets a say: an `i64`,
/// else a float (kept as written), else `true` or `false`.
pub open spec fn scalar_override(s: Seq<char>) -> Option<TomlModel> {
    match i64_literal(s) {
        Some(n) => Some(TomlModel::Integer(n)),
        None => if f64_literal(s) {
            Some(TomlModel::Float(s))
        } else if s == "true"@ {
            Some(TomlModel::Boolean(true))
        } else if s == "false"@ {
            Some(TomlModel::Boolean(false))
        } else {
            None
        },
    }
}

fn digits_end_at(s: &Vec<char>, i: usize) -> (r: usize)
    requires
        i <= s.len(),
    ensures
        r as int == digits_end(s@, i as int),
        i <= r <= s.len(),
{
    proof {
        lemma_digits_end(s@, i as int);
    }
    let mut k = i;
    while k < s.len() && digit(s[k])
        invariant
            i <= k <= s.len(),
            digits_end(s@, i as int) == digits_end(s@, k as int),
        decreases s.len() - k,
    {
        k = k + 1;
    }
    k
}

/// `s.parse::<i64>()`.
fn parse_i64(s: &Vec<char>) -> (r: Option<i64>)
    ensures
        match r {
            Some(n) => i64_literal(s@) == Some(n as int),
            None => i64_literal(s@) is None,
        },
{
    let signed = s.len() > 0 && (s[0] == '+' || s[0] == '-');
    let negative = s.len() > 0 && s[0] == '-';
    let start: usize = if signed {
        1
    } else {
        0
    };
    let ghost digits = unsigned_part(s@);
    assert(digits =~= s@.subrange(start as int, s.len() as int));
    if start == s.len() {
        return None;
    }
    let limit: u128 = 0x8000_0000_0000_0000;
    let mut magnitude: u128 = 0;
    let mut k = start;
    assert(s@.subrange(start as int, start as int) =~= Seq::<char>::empty());
    while k < s.len()
        invariant
            start <= k <= s.len(),
            limit == 0x8000_0000_0000_0000,
            digits == s@.subrange(start as int, s.len() as int),
            digits == unsigned_part(s@),
            start == 1 <==> (s.len() > 0 && (s@[0] == '+' || s@[0] == '-')),
            forall|q: int| start <= q < k ==> is_digit(#[trigger] s@[q]),
            magnitude == digits_value(s@.subrange(start as int, k as int)),
            magnitude <= limit,
        decreases s.len() - k,
    {
        let c = s[k];
        if !digit(c) {
            assert(digits[k - start] == c);
            assert(!is_digit(digits[k - start]));
            return None;
        }
        let d = (c as u32 - '0' as u32) as u128;
        proof {
            assert(s@.subrange(start as int, k + 1) =~= s@.subrange(start as int, k as int).push(c));
            lemma_digits_value_push(s@.subrange(start as int, k as int), c);
        }
        let next = magnitude * 10 + d;
        if next > limit {
            proof {
                if all_digit_chars(digits) {
                    lemma_digits_value_grows(digits, (k + 1 - start) as int);
                    assert(digits.take(k + 1 - start) =~= s@.subrange(start as int, k + 1));
                }
            }
            return None;
        }
        magnitude = next;
        k = k + 1;
    }
    assert(s@.subrange(start as int, k as int) =~= digits);
    if negative {
        let v: i128 = 0 - (magnitude as i128);
        Some(v as i64)
    } else if magnitude < limit {
        Some(magnitude as i64)
    } else {
        None
    }
}

/// The value of a run of digits is at least that of any prefix.
proof fn lemma_digits_value_grows(d: Seq<char>, n: int)
    requires
        0 <= n <= d.len(),
        all_digit_chars(d),
    ensures
        digits_value(d) >= digits_value(d.take(n)),
    decreases d.len(),
{
    if n < d.len() {
        lemma_digits_value_grows(d.drop_last(), n);
        assert(d.drop_last().take(n) =~= d.take(n));
        assert(is_digit(d.last()));
        lemma_digits_value_nonneg(d.drop_last());
    } else {
        assert(d.take(n) =~= d);
    }
}

proof fn lemma_digits_value_nonneg(d: Seq<char>)
    requires
        all_digit_chars(d),
    ensures
        digits_value(d) >= 0,
    decreases d.len(),
{
    if d.len() > 0 {
        assert(is_digit(d.last()));
        lemma_digits_value_nonneg(d.drop_last());
    }
}

fn lower_char(c: char) -> (r: char)
    ensures
        r == lower_ascii(c),
{
    if 'A' <= c && c <= 'Z' {
        let code = (c as u32) + 32;
        proof {
            vstd::utf8::char_u32_cast(c, c as u32);
        }
        assert(code as char == ((c as u32) + 32) as char);
        char_of_ascii(code)
    } else {
        c
    }
}

fn char_of_ascii(code: u32) -> (r: char)
    requires
        code < 128,
    ensures
        r == code as char,
{
    code as u8 as char
}

/// Whether `b` lower-cased is `word`.
fn lower_equals(b: &Vec<char>, from: usize, word: &str) -> (r: bool)
    requires
        from <= b.len(),
    ensures
        r == (lower_text(b@.subrange(from as int, b.len() as int)) == word@),
{
    let w = chars_of(word);
    let ghost t = b@.subrange(from as int, b.len() as int);
    if b.len() - from != w.len() {
        assert(lower_text(t).len() != w@.len());
        return false;
    }
    let mut i: usize = 0;
    while i < w.len()
        invariant
            i <= w.len(),
            b.len() - from == w.len(),
            w@ == word@,
            t == b@.subrange(from as int, b.len() as int),
            forall|j: int| 0 <= j < i ==> lower_ascii(t[j]) == w@[j],
        decreases w.len() - i,
    {
        if lower_char(b[from + i]) != w[i] {
            assert(lower_text(t)[i as int] != w@[i as int]);
            return false;
        }
        i = i + 1;
    }
    assert(lower_text(t) =~= w@);
    true
}

/// Whether `s` reads as an `f64` (see `f64_literal`).
fn parse_f64_ok(s: &Vec<char>) -> (r: bool)
    ensures
        r == f64_literal(s@),
{
    let start: usize = if s.len() > 0 && (s[0] == '+' || s[0] == '-') {
        1
    } else {
        0
    };
    let ghost b = unsigned_part(s@);
    assert(b =~= s@.subrange(start as int, s.len() as int));
    if lower_equals(s, start, "inf") || lower_equals(s, start, "infinity") || lower_equals(
        s,
        start,
        "nan",
    ) {
        return true;
    }
    let body = crate::text::slice_chars(s, start, s.len());
    assert(body@ == b);
    let n = body.len();
    let i = digits_end_at(&body, 0);
    let has_dot = i < n && body[i] == '.';
    let j = if has_dot {
        digits_end_at(&body, i + 1)
    } else {
        i
    };
    let mantissa_digits = if has_dot {
        i + (j - (i + 1))
    } else {
        i
    };
    if mantissa_digits < 1 {
        return false;
    }
    if j == n {
        return true;
    }
    if !(body[j] == 'e' || body[j] == 'E') {
        return false;
    }
    let exp_start = if j + 1 < n && (body[j + 1] == '+' || body[j + 1] == '-') {
        j + 2
    } else {
        j + 1
    };
    exp_start < n && digits_end_at(&body, exp_start) == n
}

/// How a command-line override value reads before TOML gets a say (see `scalar_override`).
pub fn override_scalar(value: &str) -> (r: Option<TomlValue>)
    ensures
        match r {
            Some(v) => scalar_override(value@) == Some(v.model()),
            None => scalar_override(value@) is None,
        },
{
    let s = chars_of(value);
    if let Some(n) = parse_i64(&s) {
        return Some(TomlValue::Integer(n));
    }
    if parse_f64_ok(&s) {
        return Some(TomlValue::Float(value.to_string()));
    }
    let t = chars_of("true");
    let f = chars_of("false");
    if chars_equal(&s, &t) {
        return Some(TomlValue::Boolean(true));
    }
    if chars_equal(&s, &f) {
        return Some(TomlValue::Boolean(false));
    }
    None
}

} // verus!

verus! {

proof fn lemma_insert_values_wf(e: Seq<(Seq<char>, TomlModel)>, k: Seq<char>, v: TomlModel)
    requires
        forall|i: int| 0 <= i < e.len() ==> value_wf(#[trigger] e[i].1),
        value_wf(v),
    ensures
        forall|j: int|
            0 <= j < object_insert(e, k, v).len() ==> value_wf(#[trigger] object_insert(e, k, v)[j].1),
    decreases e.len(),
{
    let r = object_insert(e, k, v);
    if e.len() == 0 {
    } else if e[0].0 == k {
        assert forall|j: int| 0 <= j < r.len() implies value_wf(#[trigger] r[j].1) by {
            if j > 0 {
                assert(r[j] == e[j]);
            }
        }
    } else if key_less(k, e[0].0) {
        assert forall|j: int| 0 <= j < r.len() implies value_wf(#[trigger] r[j].1) by {
            if j > 0 {
                assert(r[j] == e[j - 1]);
            }
        }
    } else {
        let rest = e.drop_first();
        assert forall|i: int| 0 <= i < rest.len() implies value_wf(#[trigger] rest[i].1) by {
            assert(rest[i] == e[i + 1]);
        }
        lemma_insert_values_wf(rest, k, v);
        let rr = object_insert(rest, k, v);
        assert forall|j: int| 0 <= j < r.len() implies value_wf(#[trigger] r[j].1) by {
            if j > 0 {
                assert(r[j] == rr[j - 1]);
            }
        }
    }
}

/// Inserting a well-formed value into a well-formed table keeps it well-formed.
pub proof fn lemma_insert_wf(e: Seq<(Seq<char>, TomlModel)>, k: Seq<char>, v: TomlModel)
    requires
        table_wf(e),
        value_wf(v),
    ensures
        table_wf(object_insert(e, k, v)),
{
    lemma_insert_ascending(e, k, v);
    lemma_insert_values_wf(e, k, v);
}

proof fn lemma_get_wf(e: Seq<(Seq<char>, TomlModel)>, k: Seq<char>)
    requires
        table_wf(e),
    ensures
        object_get(e, k) matches Some(x) ==> value_wf(x),
    decreases e.len(),
{
    if e.len() > 0 && e[0].0 != k {
        lemma_wf_tail(e);
        lemma_get_wf(e.drop_first(), k);
    } else if e.len() > 0 {
        assert(value_wf(e[0].1));
    }
}

/// Writing a well-formed value into a well-formed table keeps it well-formed.
pub proof fn lemma_path_set_wf(t: Seq<(Seq<char>, TomlModel)>, segs: Seq<Seq<char>>, v: TomlModel)
    requires
        table_wf(t),
        value_wf(v),
    ensures
        table_wf(path_set(t, segs, v)),
    decreases segs.len(),
{
    if segs.len() == 1 {
        lemma_insert_wf(t, segs[0], v);
    } else if segs.len() > 1 {
        let sub = match object_get(t, segs[0]) {
            Some(TomlModel::Table(s)) => s,
            _ => Seq::empty(),
        };
        lemma_get_wf(t, segs[0]);
        lemma_path_set_wf(sub, segs.drop_first(), v);
        lemma_insert_wf(t, segs[0], TomlModel::Table(path_set(sub, segs.drop_first(), v)));
    }
}

/// A configuration error: a layer or an override that does not parse, or a
/// file that cannot be read.
#[derive(Debug, Clone, PartialEq, Eq)]
pub enum ConfigError {
    Parse { key: String, message: String },
    Io(String),
}

impl ConfigError {
    /// The error's text: `parse error at KEY: MESSAGE` or `io error: MESSAGE`.
    pub fn message(&self) -> (r: String)
        ensures
            r@ == match self {
                ConfigError::Parse { key, message } => "parse error at "@ + key@ + ": "@ + message@,
                ConfigError::Io(m) => "io error: "@ + m@,
            },
    {
        let mut out = String::new();
        match self {
            ConfigError::Parse { key, message } => {
                crate::text::push_text(&mut out, "parse error at ");
                crate::text::push_text(&mut out, key.as_str());
                crate::text::push_text(&mut out, ": ");
                crate::text::push_text(&mut out, message.as_str());
            },
            ConfigError::Io(m) => {
                crate::text::push_text(&mut out, "io error: ");
                crate::text::push_text(&mut out, m.as_str());
            },
        }
        out
    }
}

/// `base` with each layer of `layers` merged over it in turn.
pub open spec fn layered(base: Seq<(Seq<char>, TomlModel)>, layers: Seq<Seq<(Seq<char>, TomlModel)>>) -> Seq<
    (Seq<char>, TomlModel),
>
    decreases layers.len(),
{
    if layers.len() == 0 {
        base
    } else {
        table_merge(layered(base, layers.drop_last()), layers.last())
    }
}

/// A value of the `toml` crate, carried through as it is.
#[verifier::external_type_specification]
#[verifier::external_body]
pub struct ExTomlValue(toml::Value);

/// The library's value for a parsed `toml` value, node for node: strings,
/// integers, booleans and arrays as they are, a float as its `Debug` text, a
/// date-time as its `Display` text, a table's entries in the map's order.
#[verifier::external_body]
fn toml_value_of(value: &Toml) -> TomlValue {
    match value {
        Toml::String(s) => TomlValue::String(s.clone()),
        Toml::Integer(i) => TomlValue::Integer(*i),
        Toml::Float(f) => TomlValue::Float(format!("{f:?}")),
        Toml::Boolean(b) => TomlValue::Boolean(*b),
        Toml::Datetime(d) => TomlValue::Datetime(d.to_string()),
        Toml::Array(items) => TomlValue::Array(items.iter().map(toml_value_of).collect()),
        Toml::Table(t) => TomlValue::Table(t.iter().map(|(k, v)| (k.clone(), toml_value_of(v))).collect()),
    }
}

/// `toml::from_str::<toml::Table>(text)` of the `toml` crate: the document's
/// table (as `toml_value_of` renders each value), or the text of its error.
pub uninterp spec fn toml_document(text: Seq<char>) -> Result<Seq<(Seq<char>, TomlModel)>, Seq<char>>;

/// Parses a TOML document with the `toml` crate. Its tables are `BTreeMap`s
/// (`toml/src/map.rs`), so every table comes out with strictly ascending keys.
#[verifier::external_body]
fn parse_toml_document(text: &str) -> (r: Result<Vec<(String, TomlValue)>, String>)
    ensures
        match toml_document(text@) {
            Ok(t) => r matches Ok(v) && table_model(v@) == t && table_wf(t),
            Err(e) => r matches Err(m) && m@ == e,
        },
{
    match toml::from_str::<toml::Table>(text) {
        Ok(t) => Ok(t.iter().map(|(k, v)| (k.clone(), toml_value_of(v))).collect()),
        Err(e) => Err(e.to_string()),
    }
}

/// `text.parse::<toml::Value>()` of the `toml` crate: the TOML value that the
/// text spells (as `toml_value_of` renders it), or the text of its error.
pub uninterp spec fn toml_value_text(text: Seq<char>) -> Result<TomlModel, Seq<char>>;

/// Parses one TOML value with the `toml` crate; its tables, being `BTreeMap`s,
/// come out well-formed.
#[verifier::external_body]
fn parse_toml_value(text: &str) -> (r: Result<TomlValue, String>)
    ensures
        match toml_value_text(text@) {
            Ok(m) => r matches Ok(v) && v.model() == m && value_wf(m),
            Err(e) => r matches Err(s) && s@ == e,
        },
{
    match text.parse::<toml::Value>() {
        Ok(v) => Ok(toml_value_of(&v)),
        Err(e) => Err(e.to_string()),
    }
}

/// A configuration text as a table, or a parse error naming `label` (a file's
/// path, or `engine_base`) with the `toml` crate's message.
pub fn parse_toml_str(content: &str, label: &str) -> (r: Result<Vec<(String, TomlValue)>, ConfigError>)
    ensures
        match toml_document(content@) {
            Ok(t) => r matches Ok(v) && table_model(v@) == t && table_wf(t),
            Err(e) => r matches Err(ConfigError::Parse { key, message }) && key@ == label@ && message@ == e,
        },
{
    match parse_toml_document(content) {
        Ok(t) => Ok(t),
        Err(message) => Err(ConfigError::Parse { key: label.to_string(), message }),
    }
}

/// The name and text of each configuration file that exists.
pub open spec fn file_texts(files: Seq<(String, String)>) -> Seq<(Seq<char>, Seq<char>)> {
    files.map_values(|f: (String, String)| (f.0@, f.1@))
}

/// The first `n` files all parse.
pub open spec fn files_parse(files: Seq<(Seq<char>, Seq<char>)>, n: int) -> bool {
    forall|j: int| 0 <= j < n ==> (#[trigger] toml_document(files[j].1)) is Ok
}

/// The tables of the files, in order.
pub open spec fn file_tables(files: Seq<(Seq<char>, Seq<char>)>) -> Seq<Seq<(Seq<char>, TomlModel)>> {
    Seq::new(files.len(), |j: int| toml_document(files[j].1)->Ok_0)
}

/// File `i` is the first that does not parse.
pub open spec fn first_unparsed(files: Seq<(Seq<char>, Seq<char>)>, i: int) -> bool {
    &&& 0 <= i < files.len()
    &&& toml_document(files[i].1) is Err
    &&& files_parse(files, i)
}

/// Layered configuration: engine defaults with project files merged over
/// them, and command-line overrides over both.
pub struct ConfigProvider {
    project_root: String,
    file_layers: Vec<(String, TomlValue)>,
    cli_overrides: Vec<(String, TomlValue)>,
}

impl ConfigProvider {
    /// The overrides form a well-formed table.
    #[verifier::type_invariant]
    closed spec fn overrides_well_formed(self) -> bool {
        table_wf(table_model(self.cli_overrides@))
    }

    pub closed spec fn root(self) -> Seq<char> {
        self.project_root@
    }

    /// The file layers, merged.
    pub closed spec fn files(self) -> Seq<(Seq<char>, TomlModel)> {
        table_model(self.file_layers@)
    }

    /// The command-line overrides applied so far.
    pub closed spec fn overrides(self) -> Seq<(Seq<char>, TomlModel)> {
        table_model(self.cli_overrides@)
    }

    /// What reads see: the overrides merged over the file layers.
    pub open spec fn effective(self) -> Seq<(Seq<char>, TomlModel)> {
        table_merge(self.files(), self.overrides())
    }

    /// Engine defaults (the text of `engine_base.toml`) with each configuration
    /// file that exists (its label and text, in the order engine, game,
    /// scalability, user) merged over them in order. The first text that does
    /// not parse gives a parse error naming it.
    pub fn load(project_root: &str, engine_base: &str, present_files: Vec<(String, String)>) -> (r: Result<Self, ConfigError>)
        ensures
            r is Ok <==> (toml_document(engine_base@) is Ok && files_parse(file_texts(present_files@),
                present_files@.len() as int)),
            ({
                let fs = file_texts(present_files@);
                match toml_document(engine_base@) {
                    Err(e) => r matches Err(ConfigError::Parse { key, message }) && key@ == "engine_base"@
                        && message@ == e,
                    Ok(base) => {
                        &&& files_parse(fs, fs.len() as int) ==> (r matches Ok(p) && p.root() == project_root@
                            && p.files() == layered(base, file_tables(fs))
                            && p.overrides() == Seq::<(Seq<char>, TomlModel)>::empty())
                        &&& forall|i: int| #[trigger] first_unparsed(fs, i) ==> (r matches Err(ConfigError::Parse {
                            key,
                            message,
                        }) && key@ == fs[i].0 && message@ == toml_document(fs[i].1)->Err_0)
                    },
                }
            }),
    {
        let ghost fs = file_texts(present_files@);
        let mut merged = match parse_toml_str(engine_base, "engine_base") {
            Ok(t) => t,
            Err(e) => {
                return Err(e);
            },
        };
        let ghost base = table_model(merged@);
        let mut i: usize = 0;
        assert(file_tables(fs).take(0) =~= Seq::<Seq<(Seq<char>, TomlModel)>>::empty());
        while i < present_files.len()
            invariant
                i <= present_files.len(),
                fs == file_texts(present_files@),
                fs.len() == present_files.len(),
                toml_document(engine_base@) == Ok::<Seq<(Seq<char>, TomlModel)>, Seq<char>>(base),
                files_parse(fs, i as int),
                table_model(merged@) == layered(base, file_tables(fs).take(i as int)),
            decreases present_files.len() - i,
        {
            let layer = match parse_toml_str(present_files[i].1.as_str(), present_files[i].0.as_str()) {
                Ok(t) => t,
                Err(e) => {
                    assert(first_unparsed(fs, i as int));
                    proof {
                        assert forall|k: int| #[trigger] first_unparsed(fs, k) implies k == i by {
                            if k < i {
                                assert(toml_document(fs[k].1) is Ok);
                            } else if k > i {
                                assert(toml_document(fs[i as int].1) is Ok);
                            }
                        }
                    }
                    return Err(e);
                },
            };
            merge_from(&mut merged, &layer);
            assert(file_tables(fs).take(i + 1).drop_last() =~= file_tables(fs).take(i as int));
            i = i + 1;
        }
        assert(file_tables(fs).take(i as int) =~= file_tables(fs));
        proof {
            assert forall|k: int| #[trigger] first_unparsed(fs, k) implies false by {
                assert(toml_document(fs[k].1) is Ok);
            }
        }
        let cli_overrides: Vec<(String, TomlValue)> = Vec::new();
        assert(table_model(cli_overrides@) =~= Seq::<(Seq<char>, TomlModel)>::empty());
        Ok(ConfigProvider {
            project_root: project_root.to_string(),
            file_layers: merged,
            cli_overrides,
        })
    }

    /// Engine defaults alone (the text of `engine_base.toml`, which parses).
    pub fn with_engine_defaults(project_root: String, engine_base: &str) -> (r: Self)
        requires
            toml_document(engine_base@) is Ok,
        ensures
            r.root() == project_root@,
            r.files() == toml_document(engine_base@)->Ok_0,
            r.overrides() == Seq::<(Seq<char>, TomlModel)>::empty(),
            table_wf(r.overrides()),
    {
        let file_layers = match parse_toml_str(engine_base, "engine_base") {
            Ok(t) => t,
            Err(_) => Vec::new(),
        };
        let cli_overrides: Vec<(String, TomlValue)> = Vec::new();
        assert(table_model(cli_overrides@) =~= Seq::<(Seq<char>, TomlModel)>::empty());
        ConfigProvider { project_root, file_layers, cli_overrides }
    }

    /// The configuration the engine starts with: the layered files when they
    /// all parse, else the engine defaults alone; `None` when the engine
    /// defaults themselves do not parse.
    pub fn load_or_engine_defaults(project_root: &str, engine_base: &str, present_files: Vec<(String, String)>) -> (r: Option<Self>)
        ensures
            ({
                let fs = file_texts(present_files@);
                match toml_document(engine_base@) {
                    Err(_) => r is None,
                    Ok(base) => r matches Some(p) && p.root() == project_root@
                        && p.overrides() == Seq::<(Seq<char>, TomlModel)>::empty()
                        && p.files() == if files_parse(fs, fs.len() as int) {
                            layered(base, file_tables(fs))
                        } else {
                            base
                        },
                }
            }),
    {
        let ghost fs = file_texts(present_files@);
        match Self::load(project_root, engine_base, present_files) {
            Ok(p) => Some(p),
            Err(_) => match parse_toml_str(engine_base, "engine_base") {
                Ok(_) => {
                    proof {
                        if files_parse(fs, fs.len() as int) {
                            assert(false);
                        }
                    }
                    Some(Self::with_engine_defaults(project_root.to_string(), engine_base))
                },
                Err(_) => None,
            },
        }
    }

    pub fn project_root(&self) -> (r: &str)
        ensures
            r@ == self.root(),
    {
        self.project_root.as_str()
    }

    /// The value at a dotted key, with the overrides applied.
    pub fn get(&self, key: &str) -> (r: Option<TomlValue>)
        ensures
            table_wf(self.overrides()),
            match r {
                Some(v) => path_get(self.effective(), split_char(key@, '.')) == Some(v.model()),
                None => path_get(self.effective(), split_char(key@, '.')) is None,
            },
    {
        proof {
            use_type_invariant(self);
        }
        let merged = self.effective_table();
        match get_at_dot_path(&merged, key) {
            Some(v) => Some(clone_value(v)),
            None => None,
        }
    }

    /// Records an override of the value at a dotted key. The value reads as
    /// an `i64`, a float or a boolean when it can; otherwise as the TOML value
    /// it spells, and a TOML error is reported with the key.
    pub fn apply_cli_override(&mut self, key: &str, value: &str) -> (r: Result<(), ConfigError>)
        ensures
            final(self).root() == old(self).root(),
            final(self).files() == old(self).files(),
            table_wf(final(self).overrides()),
            match scalar_override(value@) {
                Some(m) => r is Ok && final(self).overrides() == path_set(old(self).overrides(), split_char(key@, '.'), m),
                None => match toml_value_text(value@) {
                    Ok(v) => r is Ok && final(self).overrides() == path_set(old(self).overrides(), split_char(key@, '.'), v),
                    Err(msg) => (r matches Err(ConfigError::Parse { key: k, message: m }) && k@ == key@ && m@ == msg)
                        && final(self).overrides() == old(self).overrides(),
                },
            },
    {
        proof {
            use_type_invariant(&*self);
        }
        let parsed = match override_scalar(value) {
            Some(v) => v,
            None => match parse_toml_value(value) {
                Ok(v) => v,
                Err(msg) => {
                    return Err(ConfigError::Parse { key: key.to_string(), message: msg });
                },
            },
        };
        let ghost pm = parsed.model();
        let ghost before = table_model(self.cli_overrides@);
        let mut overrides: Vec<(String, TomlValue)> = Vec::new();
        std::mem::swap(&mut overrides, &mut self.cli_overrides);
        set_at_dot_path(&mut overrides, key, parsed);
        proof {
            lemma_path_set_wf(before, split_char(key@, '.'), pm);
        }
        self.cli_overrides = overrides;
        Ok(())
    }

    /// The overrides merged over the file layers.
    pub fn effective_table(&self) -> (r: Vec<(String, TomlValue)>)
        ensures
            table_model(r@) == self.effective(),
    {
        let mut merged = clone_table(&self.file_layers);
        merge_from(&mut merged, &self.cli_overrides);
        merged
    }
}

/// After an override is recorded, reading its key gives the override back
/// (when it is not a table), whatever the file layers hold.
pub proof fn law_override_wins(files: Seq<(Seq<char>, TomlModel)>, overrides: Seq<(Seq<char>, TomlModel)>, key: Seq<char>, v: TomlModel)
    requires
        table_wf(overrides),
        value_wf(v),
        !(v is Table),
    ensures
        path_get(table_merge(files, path_set(overrides, split_char(key, '.'), v)), split_char(key, '.')) == Some(v),
{
    let segs = split_char(key, '.');
    lemma_split_nonempty(key, '.');
    lemma_path_set_wf(overrides, segs, v);
    law_path_read_after_write(overrides, segs, v);
    law_merge_overlay_wins(files, path_set(overrides, segs, v), segs, v);
}

/// CLI overrides win over file layers: once `apply_cli_override` has recorded
/// a value that is not a table at a key (its overrides are then `after`'s), `get`
/// of that key reads the value back, whatever the file layers hold. Every
/// provider's overrides are well-formed (see the ensures of its constructors,
/// `get` and `apply_cli_override`).
pub proof fn law_cli_override_wins(before: ConfigProvider, after: ConfigProvider, key: Seq<char>, v: TomlModel)
    requires
        table_wf(before.overrides()),
        after.overrides() == path_set(before.overrides(), split_char(key, '.'), v),
        value_wf(v),
        !(v is Table),
    ensures
        path_get(after.effective(), split_char(key, '.')) == Some(v),
{
    law_override_wins(after.files(), before.overrides(), key, v);
}

} // verus!
