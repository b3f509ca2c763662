//! The canonical form's values: what a document reduces to.
use vstd::prelude::*;
use vstd::std_specs::iter::IteratorSpec;
use crate::names::{Atom, Ident};
use crate::number::{same_float, Float, Integer};

verus! {

/// A value of the canonical form.
#[derive(Debug, PartialEq, Eq)]
pub enum Value {
    Tuple(Tuple),
    Mapping(Mapping),
    List(Vec<Value>),
    Atom(Atom),
    String(String),
    Integer(Integer),
    Float(Float),
}

/// A tuple: named fields in the order they were written, no name twice.
#[derive(Debug, PartialEq, Eq)]
pub struct Tuple {
    fields: Vec<(Ident, Value)>,
}

/// A map: entries keyed by values in the order they were written, no key twice.
#[derive(Debug)]
pub struct Mapping {
    entries: Vec<(Value, Value)>,
}

/// Whether two values are equal: a tuple's fields in order, a map's entries in any order,
/// a list's items in order, and a scalar by what it spells.
pub closed spec fn same(a: Value, b: Value) -> bool
    decreases a, 0nat,
{
    match a {
        Value::Tuple(x) => match b {
            Value::Tuple(y) => x.fields@.len() == y.fields@.len() && same_fields(x.fields@, y.fields@, x.fields@.len() as int),
            _ => false,
        },
        Value::Mapping(x) => match b {
            Value::Mapping(y) => x.entries@.len() == y.entries@.len()
                && same_entries(x.entries@, y.entries@, x.entries@.len() as int),
            _ => false,
        },
        Value::List(x) => match b {
            Value::List(y) => x@.len() == y@.len() && same_items(x@, y@, x@.len() as int),
            _ => false,
        },
        Value::Atom(x) => b matches Value::Atom(y) && x@ == y@,
        Value::String(x) => b matches Value::String(y) && x@ == y@,
        Value::Integer(x) => b matches Value::Integer(y) && x@ == y@,
        Value::Float(x) => b matches Value::Float(y) && same_float(x@, y@),
    }
}

/// Whether the first `n` fields have the same names and equal values.
pub closed spec fn same_fields(xs: Seq<(Ident, Value)>, ys: Seq<(Ident, Value)>, n: int) -> bool
    decreases xs, n,
{
    if n <= 0 || n > xs.len() || n > ys.len() {
        n <= 0
    } else {
        same_fields(xs, ys, n - 1) && xs[n - 1].0@ == ys[n - 1].0@ && same(xs[n - 1].1, ys[n - 1].1)
    }
}

/// Whether the first `n` items are equal.
pub closed spec fn same_items(xs: Seq<Value>, ys: Seq<Value>, n: int) -> bool
    decreases xs, n,
{
    if n <= 0 || n > xs.len() || n > ys.len() {
        n <= 0
    } else {
        same_items(xs, ys, n - 1) && same(xs[n - 1], ys[n - 1])
    }
}

/// Whether each of the first `n` entries of `xs` has an equal among the entries of `ys`.
pub closed spec fn same_entries(xs: Seq<(Value, Value)>, ys: Seq<(Value, Value)>, n: int) -> bool
    decreases xs, n,
{
    if n <= 0 || n > xs.len() {
        n <= 0
    } else {
        same_entries(xs, ys, n - 1) && found_in(xs[n - 1], ys, ys.len() as int)
    }
}

/// Whether one of the first `m` entries of `ys` has a key and a value equal to `entry`'s.
pub closed spec fn found_in(entry: (Value, Value), ys: Seq<(Value, Value)>, m: int) -> bool
    decreases entry, m,
{
    if m <= 0 || m > ys.len() {
        false
    } else {
        found_in(entry, ys, m - 1) || (same(entry.0, ys[m - 1].0) && same(entry.1, ys[m - 1].1))
    }
}

/// Whether two values are equal.
#[verifier::loop_isolation(false)]
pub fn same_value(a: &Value, b: &Value) -> (is: bool)
    ensures
        is == same(*a, *b),
    decreases *a, 0nat,
{
    match (a, b) {
        (Value::Tuple(x), Value::Tuple(y)) => {
            if x.fields.len() != y.fields.len() {
                return false;
            }
            let mut i: usize = 0;
            while i < x.fields.len()
                invariant
                    i <= x.fields@.len(),
                    x.fields@.len() == y.fields@.len(),
                    same_fields(x.fields@, y.fields@, i as int),
                decreases x.fields@.len() - i,
            {
                proof { assert(decreases_to!(*a => x.fields@[i as int].1)); }
                if !x.fields[i].0.same(&y.fields[i].0) || !same_value(&x.fields[i].1, &y.fields[i].1) {
                    proof {
                        if same(*a, *b) {
                            lemma_fields_prefix(x.fields@, y.fields@, i + 1, x.fields@.len() as int);
                        }
                    }
                    return false;
                }
                i = i + 1;
            }
            true
        },
        (Value::Mapping(x), Value::Mapping(y)) => {
            proof { assert(decreases_to!(*a => *x)); }
            same_mappings(x, y)
        },
        (Value::List(x), Value::List(y)) => {
            if x.len() != y.len() {
                return false;
            }
            let mut i: usize = 0;
            while i < x.len()
                invariant
                    i <= x@.len(),
                    x@.len() == y@.len(),
                    same_items(x@, y@, i as int),
                decreases x@.len() - i,
            {
                proof { assert(decreases_to!(*a => x@[i as int])); }
                if !same_value(&x[i], &y[i]) {
                    proof {
                        if same(*a, *b) {
                            lemma_items_prefix(x@, y@, i + 1, x@.len() as int);
                        }
                    }
                    return false;
                }
                i = i + 1;
            }
            true
        },
        (Value::Atom(x), Value::Atom(y)) => crate::names::same_text(x.as_str(), y.as_str()),
        (Value::String(x), Value::String(y)) => crate::names::same_text(x.as_str(), y.as_str()),
        (Value::Integer(x), Value::Integer(y)) => x.same_spelling(y),
        (Value::Float(x), Value::Float(y)) => x.same_number(y),
        _ => false,
    }
}

/// Agreement on a run of fields holds on every shorter run.
proof fn lemma_fields_prefix(xs: Seq<(Ident, Value)>, ys: Seq<(Ident, Value)>, k: int, n: int)
    requires
        0 <= k <= n <= xs.len(),
        n <= ys.len(),
        same_fields(xs, ys, n),
    ensures
        same_fields(xs, ys, k),
    decreases n - k,
{
    if k < n {
        lemma_fields_prefix(xs, ys, k, n - 1);
    }
}

/// Agreement on a run of items holds on every shorter run.
proof fn lemma_items_prefix(xs: Seq<Value>, ys: Seq<Value>, k: int, n: int)
    requires
        0 <= k <= n <= xs.len(),
        n <= ys.len(),
        same_items(xs, ys, n),
    ensures
        same_items(xs, ys, k),
    decreases n - k,
{
    if k < n {
        lemma_items_prefix(xs, ys, k, n - 1);
    }
}

/// Entries found on a run hold on every shorter run.
proof fn lemma_entries_prefix(xs: Seq<(Value, Value)>, ys: Seq<(Value, Value)>, k: int, n: int)
    requires
        0 <= k <= n <= xs.len(),
        same_entries(xs, ys, n),
    ensures
        same_entries(xs, ys, k),
    decreases n - k,
{
    if k < n {
        lemma_entries_prefix(xs, ys, k, n - 1);
    }
}

/// Whether two maps hold equal entries, in any order.
#[verifier::loop_isolation(false)]
pub fn same_mappings(x: &Mapping, y: &Mapping) -> (is: bool)
    ensures
        is == same(Value::Mapping(*x), Value::Mapping(*y)),
    decreases *x, 0nat,
{
    if x.entries.len() != y.entries.len() {
        return false;
    }
    let mut i: usize = 0;
    while i < x.entries.len()
        invariant
            i <= x.entries@.len(),
            x.entries@.len() == y.entries@.len(),
            same_entries(x.entries@, y.entries@, i as int),
        decreases x.entries@.len() - i,
    {
        proof {
            assert(decreases_to!(*x => x.entries@[i as int].0));
            assert(decreases_to!(*x => x.entries@[i as int].1));
        }
        let mut j: usize = 0;
        let mut found = false;
        while j < y.entries.len()
            invariant
                i < x.entries@.len(),
                j <= y.entries@.len(),
                found_in(x.entries@[i as int], y.entries@, j as int) == found,
            decreases y.entries@.len() - j,
        {
            if same_value(&x.entries[i].0, &y.entries[j].0) && same_value(&x.entries[i].1, &y.entries[j].1) {
                found = true;
            }
            j = j + 1;
        }
        if !found {
            proof {
                if same(Value::Mapping(*x), Value::Mapping(*y)) {
                    lemma_entries_prefix(x.entries@, y.entries@, i + 1, x.entries@.len() as int);
                }
            }
            return false;
        }
        i = i + 1;
    }
    true
}

impl PartialEq for Mapping {
    fn eq(&self, other: &Self) -> (is: bool) {
        same_mappings(self, other)
    }
}

impl vstd::std_specs::cmp::PartialEqSpecImpl for Mapping {
    open spec fn obeys_eq_spec() -> bool {
        true
    }

    open spec fn eq_spec(&self, other: &Self) -> bool {
        same(Value::Mapping(*self), Value::Mapping(*other))
    }
}

impl Eq for Mapping {
}

/// A run of fields agrees however the first sequence continues past it.
proof fn lemma_fields_extend(xs: Seq<(Ident, Value)>, ys: Seq<(Ident, Value)>, e: (Ident, Value), n: int)
    requires
        0 <= n <= xs.len(),
        same_fields(xs, ys, n),
    ensures
        same_fields(xs.push(e), ys, n),
    decreases n,
{
    if n > 0 {
        lemma_fields_extend(xs, ys, e, n - 1);
        assert(xs.push(e)[n - 1] == xs[n - 1]);
    }
}

/// A run of items agrees however the first sequence continues past it.
proof fn lemma_items_extend(xs: Seq<Value>, ys: Seq<Value>, e: Value, n: int)
    requires
        0 <= n <= xs.len(),
        same_items(xs, ys, n),
    ensures
        same_items(xs.push(e), ys, n),
    decreases n,
{
    if n > 0 {
        lemma_items_extend(xs, ys, e, n - 1);
        assert(xs.push(e)[n - 1] == xs[n - 1]);
    }
}

/// A run of entries is found however the first sequence continues past it.
proof fn lemma_entries_extend(xs: Seq<(Value, Value)>, ys: Seq<(Value, Value)>, e: (Value, Value), n: int)
    requires
        0 <= n <= xs.len(),
        same_entries(xs, ys, n),
    ensures
        same_entries(xs.push(e), ys, n),
    decreases n,
{
    if n > 0 {
        lemma_entries_extend(xs, ys, e, n - 1);
        assert(xs.push(e)[n - 1] == xs[n - 1]);
    }
}

/// An entry equal to the `k`th of `ys` is found among any run that holds it.
proof fn lemma_found_at(entry: (Value, Value), ys: Seq<(Value, Value)>, k: int, m: int)
    requires
        0 <= k < m <= ys.len(),
        same(entry.0, ys[k].0),
        same(entry.1, ys[k].1),
    ensures
        found_in(entry, ys, m),
    decreases m,
{
    if k < m - 1 {
        lemma_found_at(entry, ys, k, m - 1);
    }
}

/// Law: every value equals itself.
pub proof fn lemma_same_reflexive(v: Value)
    ensures
        same(v, v),
    decreases v, 1nat,
{
    match v {
        Value::Tuple(x) => lemma_fields_reflexive(x.fields@, x.fields@.len() as int),
        Value::Mapping(x) => lemma_entries_reflexive(x.entries@, x.entries@.len() as int),
        Value::List(x) => lemma_items_reflexive(x@, x@.len() as int),
        Value::Float(x) => crate::number::lemma_same_float_reflexive(x@),
        _ => {},
    }
}

/// The first `n` fields of a tuple equal themselves.
proof fn lemma_fields_reflexive(xs: Seq<(Ident, Value)>, n: int)
    requires
        0 <= n <= xs.len(),
    ensures
        same_fields(xs, xs, n),
    decreases xs, n,
{
    if n > 0 {
        lemma_fields_reflexive(xs, n - 1);
        lemma_same_reflexive(xs[n - 1].1);
    }
}

/// The first `n` items of a list equal themselves.
proof fn lemma_items_reflexive(xs: Seq<Value>, n: int)
    requires
        0 <= n <= xs.len(),
    ensures
        same_items(xs, xs, n),
    decreases xs, n,
{
    if n > 0 {
        lemma_items_reflexive(xs, n - 1);
        lemma_same_reflexive(xs[n - 1]);
    }
}

/// Each of the first `n` entries of a map is found among its own entries.
proof fn lemma_entries_reflexive(xs: Seq<(Value, Value)>, n: int)
    requires
        0 <= n <= xs.len(),
    ensures
        same_entries(xs, xs, n),
    decreases xs, n,
{
    if n > 0 {
        lemma_entries_reflexive(xs, n - 1);
        lemma_same_reflexive(xs[n - 1].0);
        lemma_same_reflexive(xs[n - 1].1);
        lemma_found_at(xs[n - 1], xs, n - 1, xs.len() as int);
    }
}

/// Whether the entry at `i` of one map stands, key and value, somewhere in another.
pub open spec fn stands_in(x: Mapping, y: Mapping, i: int) -> bool {
    exists|j: int| 0 <= j < y.keys().len() && x.keys()[i] == y.keys()[j] && x.values()[i] == y.values()[j]
}

/// Law: a map's entry order is not part of its value: two maps of as many entries, each
/// entry of the first standing somewhere in the second, are equal.
pub proof fn lemma_entry_order_unseen(x: Mapping, y: Mapping)
    requires
        x.keys().len() == y.keys().len(),
        forall|i: int| 0 <= i < x.keys().len() ==> #[trigger] stands_in(x, y, i),
    ensures
        same(Value::Mapping(x), Value::Mapping(y)),
{
    lemma_entries_found(x, y, x.entries@.len() as int);
}

/// Each of the first `n` entries of one map stands somewhere in another.
proof fn lemma_entries_found(x: Mapping, y: Mapping, n: int)
    requires
        0 <= n <= x.entries@.len(),
        forall|i: int| 0 <= i < x.keys().len() ==> #[trigger] stands_in(x, y, i),
    ensures
        same_entries(x.entries@, y.entries@, n),
    decreases n,
{
    if n > 0 {
        lemma_entries_found(x, y, n - 1);
        assert(x.keys()[n - 1] == x.entries@[n - 1].0);
        assert(stands_in(x, y, n - 1));
        let j = choose|j: int| 0 <= j < y.keys().len() && x.keys()[n - 1] == y.keys()[j] && x.values()[n - 1] == y.values()[j];
        assert(y.keys()[j] == y.entries@[j].0);
        assert(y.values()[j] == y.entries@[j].1);
        lemma_same_reflexive(y.entries@[j].0);
        lemma_same_reflexive(y.entries@[j].1);
        lemma_found_at(x.entries@[n - 1], y.entries@, j, y.entries@.len() as int);
    }
}

/// Law: a tuple's field order is part of its value: two tuples whose names differ at a
/// place are not equal.
pub proof fn lemma_field_order_seen(x: Tuple, y: Tuple, i: int)
    requires
        0 <= i < x.names().len(),
        i < y.names().len(),
        x.names()[i] != y.names()[i],
    ensures
        !same(Value::Tuple(x), Value::Tuple(y)),
{
    if same(Value::Tuple(x), Value::Tuple(y)) {
        lemma_same_fields_names(x.fields@, y.fields@, x.fields@.len() as int, i);
        assert(x.names()[i] == x.fields@[i].0@);
        assert(y.names()[i] == y.fields@[i].0@);
    }
}

/// Tuples equal up to `n` fields have the same name at each of those places.
proof fn lemma_same_fields_names(xs: Seq<(Ident, Value)>, ys: Seq<(Ident, Value)>, n: int, i: int)
    requires
        0 <= i < n <= xs.len(),
        n <= ys.len(),
        same_fields(xs, ys, n),
    ensures
        xs[i].0@ == ys[i].0@,
    decreases n,
{
    if i < n - 1 {
        lemma_same_fields_names(xs, ys, n - 1, i);
    }
}

/// A copy of a value, equal to it.
#[verifier::loop_isolation(false)]
pub fn copy(v: &Value) -> (c: Value)
    ensures
        same(c, *v),
    decreases *v, 0nat,
{
    match v {
        Value::Tuple(x) => {
            proof { use_type_invariant(x); }
            let mut fields: Vec<(Ident, Value)> = Vec::new();
            let mut i: usize = 0;
            while i < x.fields.len()
                invariant
                    i <= x.fields@.len(),
                    fields@.len() == i,
                    same_fields(fields@, x.fields@, i as int),
                    forall|k: int| 0 <= k < i ==> (#[trigger] fields@[k]).0@ == x.fields@[k].0@,
                decreases x.fields@.len() - i,
            {
                proof { assert(decreases_to!(*v => x.fields@[i as int].1)); }
                let name = x.fields[i].0.clone();
                let value = copy(&x.fields[i].1);
                proof { lemma_fields_extend(fields@, x.fields@, (name, value), i as int); }
                fields.push((name, value));
                i = i + 1;
            }
            let t = Tuple { fields };
            Value::Tuple(t)
        },
        Value::Mapping(x) => {
            proof { assert(decreases_to!(*v => *x)); }
            Value::Mapping(copy_mapping(x))
        },
        Value::List(x) => {
            let mut items: Vec<Value> = Vec::new();
            let mut i: usize = 0;
            while i < x.len()
                invariant
                    i <= x@.len(),
                    items@.len() == i,
                    same_items(items@, x@, i as int),
                decreases x@.len() - i,
            {
                proof { assert(decreases_to!(*v => x@[i as int])); }
                let item = copy(&x[i]);
                proof { lemma_items_extend(items@, x@, item, i as int); }
                items.push(item);
                i = i + 1;
            }
            Value::List(items)
        },
        Value::Atom(x) => Value::Atom(x.clone()),
        Value::String(x) => Value::String(x.clone()),
        Value::Integer(x) => Value::Integer(x.clone()),
        Value::Float(x) => {
            let c = x.clone();
            proof { crate::number::lemma_same_float_reflexive(x@); }
            Value::Float(c)
        },
    }
}

/// A copy of a map, equal to it.
#[verifier::loop_isolation(false)]
fn copy_mapping(x: &Mapping) -> (c: Mapping)
    ensures
        same(Value::Mapping(c), Value::Mapping(*x)),
    decreases *x, 0nat,
{
    let mut entries: Vec<(Value, Value)> = Vec::new();
    let mut i: usize = 0;
    while i < x.entries.len()
        invariant
            i <= x.entries@.len(),
            entries@.len() == i,
            same_entries(entries@, x.entries@, i as int),
        decreases x.entries@.len() - i,
    {
        proof {
            assert(decreases_to!(*x => x.entries@[i as int].0));
            assert(decreases_to!(*x => x.entries@[i as int].1));
        }
        let key = copy(&x.entries[i].0);
        let value = copy(&x.entries[i].1);
        proof {
            lemma_entries_extend(entries@, x.entries@, (key, value), i as int);
            lemma_found_at((key, value), x.entries@, i as int, x.entries@.len() as int);
        }
        entries.push((key, value));
        i = i + 1;
    }
    Mapping { entries }
}

/// How many values a value holds, itself included.
pub closed spec fn count(v: Value) -> nat
    decreases v, 0nat,
{
    match v {
        Value::Tuple(x) => 1 + count_fields(x.fields@, x.fields@.len() as int),
        Value::Mapping(x) => 1 + count_entries(x.entries@, x.entries@.len() as int),
        Value::List(x) => 1 + count_items(x@, x@.len() as int),
        _ => 1,
    }
}

/// How many values the first `n` fields' values hold.
pub closed spec fn count_fields(xs: Seq<(Ident, Value)>, n: int) -> nat
    decreases xs, n,
{
    if n <= 0 || n > xs.len() { 0 } else { count_fields(xs, n - 1) + count(xs[n - 1].1) }
}

/// How many values the first `n` items hold.
pub closed spec fn count_items(xs: Seq<Value>, n: int) -> nat
    decreases xs, n,
{
    if n <= 0 || n > xs.len() { 0 } else { count_items(xs, n - 1) + count(xs[n - 1]) }
}

/// How many values the first `n` entries' keys and values hold.
pub closed spec fn count_entries(xs: Seq<(Value, Value)>, n: int) -> nat
    decreases xs, n,
{
    if n <= 0 || n > xs.len() { 0 } else { count_entries(xs, n - 1) + count(xs[n - 1].0) + count(xs[n - 1].1) }
}

/// How many levels a value nests: one for a scalar, one more than its deepest member for
/// a collection.
pub closed spec fn height(v: Value) -> nat
    decreases v, 0nat,
{
    match v {
        Value::Tuple(x) => 1 + height_fields(x.fields@, x.fields@.len() as int),
        Value::Mapping(x) => 1 + height_entries(x.entries@, x.entries@.len() as int),
        Value::List(x) => 1 + height_items(x@, x@.len() as int),
        _ => 1,
    }
}

/// The greater of two heights.
pub open spec fn taller(a: nat, b: nat) -> nat {
    if a >= b { a } else { b }
}

/// How deep the deepest of the first `n` fields' values nests.
pub closed spec fn height_fields(xs: Seq<(Ident, Value)>, n: int) -> nat
    decreases xs, n,
{
    if n <= 0 || n > xs.len() { 0 } else { taller(height_fields(xs, n - 1), height(xs[n - 1].1)) }
}

/// How deep the deepest of the first `n` items nests.
pub closed spec fn height_items(xs: Seq<Value>, n: int) -> nat
    decreases xs, n,
{
    if n <= 0 || n > xs.len() { 0 } else { taller(height_items(xs, n - 1), height(xs[n - 1])) }
}

/// How deep the deepest key or value of the first `n` entries nests.
pub closed spec fn height_entries(xs: Seq<(Value, Value)>, n: int) -> nat
    decreases xs, n,
{
    if n <= 0 || n > xs.len() {
        0
    } else {
        taller(taller(height_entries(xs, n - 1), height(xs[n - 1].0)), height(xs[n - 1].1))
    }
}

/// Every value nests at least one level.
pub proof fn lemma_height_positive(v: Value)
    ensures
        height(v) >= 1,
{
}

/// A scalar nests one level.
pub proof fn lemma_scalar_height(v: Value)
    requires
        !(v is Tuple || v is Mapping || v is List),
    ensures
        height(v) == 1,
{
}

/// A tuple whose values each nest at most `h` levels nests at most `h + 1`.
pub proof fn lemma_tuple_height(t: Tuple, h: nat)
    requires
        forall|i: int| 0 <= i < t.values().len() ==> height(#[trigger] t.values()[i]) <= h,
    ensures
        height(Value::Tuple(t)) <= h + 1,
{
    lemma_height_fields(t, t.fields@.len() as int, h);
}

/// The deepest of the first `n` fields of a tuple whose values each nest at most `h`
/// levels nests at most `h`.
proof fn lemma_height_fields(t: Tuple, n: int, h: nat)
    requires
        0 <= n <= t.fields@.len(),
        forall|i: int| 0 <= i < t.values().len() ==> height(#[trigger] t.values()[i]) <= h,
    ensures
        height_fields(t.fields@, n) <= h,
    decreases n,
{
    if n > 0 {
        lemma_height_fields(t, n - 1, h);
        assert(t.values()[n - 1] == t.fields@[n - 1].1);
    }
}

/// A map whose keys and values each nest at most `h` levels nests at most `h + 1`.
pub proof fn lemma_mapping_height(m: Mapping, h: nat)
    requires
        forall|i: int| 0 <= i < m.keys().len() ==> height(#[trigger] m.keys()[i]) <= h,
        forall|i: int| 0 <= i < m.values().len() ==> height(#[trigger] m.values()[i]) <= h,
    ensures
        height(Value::Mapping(m)) <= h + 1,
{
    lemma_height_entries(m, m.entries@.len() as int, h);
}

/// The deepest key or value of the first `n` entries of such a map nests at most `h`.
proof fn lemma_height_entries(m: Mapping, n: int, h: nat)
    requires
        0 <= n <= m.entries@.len(),
        forall|i: int| 0 <= i < m.keys().len() ==> height(#[trigger] m.keys()[i]) <= h,
        forall|i: int| 0 <= i < m.values().len() ==> height(#[trigger] m.values()[i]) <= h,
    ensures
        height_entries(m.entries@, n) <= h,
    decreases n,
{
    if n > 0 {
        lemma_height_entries(m, n - 1, h);
        assert(m.keys()[n - 1] == m.entries@[n - 1].0);
        assert(m.values()[n - 1] == m.entries@[n - 1].1);
    }
}

/// A list whose items each nest at most `h` levels nests at most `h + 1`.
pub proof fn lemma_list_height(items: Vec<Value>, h: nat)
    requires
        forall|i: int| 0 <= i < items@.len() ==> height(#[trigger] items@[i]) <= h,
    ensures
        height(Value::List(items)) <= h + 1,
{
    lemma_height_items(items@, items@.len() as int, h);
}

/// The deepest of the first `n` items, each nesting at most `h` levels, nests at most `h`.
proof fn lemma_height_items(xs: Seq<Value>, n: int, h: nat)
    requires
        0 <= n <= xs.len(),
        forall|i: int| 0 <= i < xs.len() ==> height(#[trigger] xs[i]) <= h,
    ensures
        height_items(xs, n) <= h,
    decreases n,
{
    if n > 0 {
        lemma_height_items(xs, n - 1, h);
    }
}

/// A value equal to another nests no deeper than it.
pub proof fn lemma_same_height(a: Value, b: Value)
    requires
        same(a, b),
    ensures
        height(a) <= height(b),
    decreases a, 1nat,
{
    match a {
        Value::Tuple(x) => {
            if let Value::Tuple(y) = b {
                lemma_same_fields_height(x.fields@, y.fields@, x.fields@.len() as int);
            }
        },
        Value::Mapping(x) => {
            if let Value::Mapping(y) = b {
                lemma_same_entries_height(x.entries@, y.entries@, x.entries@.len() as int);
            }
        },
        Value::List(x) => {
            if let Value::List(y) = b {
                lemma_same_items_height(x@, y@, x@.len() as int);
            }
        },
        _ => {},
    }
}

/// Equal first `n` fields nest no deeper than the ones they equal.
proof fn lemma_same_fields_height(xs: Seq<(Ident, Value)>, ys: Seq<(Ident, Value)>, n: int)
    requires
        0 <= n <= xs.len(),
        n <= ys.len(),
        same_fields(xs, ys, n),
    ensures
        height_fields(xs, n) <= height_fields(ys, n),
    decreases xs, n,
{
    if n > 0 {
        lemma_same_fields_height(xs, ys, n - 1);
        lemma_same_height(xs[n - 1].1, ys[n - 1].1);
    }
}

/// Equal first `n` items nest no deeper than the ones they equal.
proof fn lemma_same_items_height(xs: Seq<Value>, ys: Seq<Value>, n: int)
    requires
        0 <= n <= xs.len(),
        n <= ys.len(),
        same_items(xs, ys, n),
    ensures
        height_items(xs, n) <= height_items(ys, n),
    decreases xs, n,
{
    if n > 0 {
        lemma_same_items_height(xs, ys, n - 1);
        lemma_same_height(xs[n - 1], ys[n - 1]);
    }
}

/// The first `n` entries of a map, each found among another's, nest no deeper than all of
/// the other's.
proof fn lemma_same_entries_height(xs: Seq<(Value, Value)>, ys: Seq<(Value, Value)>, n: int)
    requires
        0 <= n <= xs.len(),
        same_entries(xs, ys, n),
    ensures
        height_entries(xs, n) <= height_entries(ys, ys.len() as int),
    decreases xs, n,
{
    if n > 0 {
        lemma_same_entries_height(xs, ys, n - 1);
        lemma_found_height(xs[n - 1], ys, ys.len() as int);
    }
}

/// An entry found among the first `m` of a map's entries nests no deeper than they do.
proof fn lemma_found_height(entry: (Value, Value), ys: Seq<(Value, Value)>, m: int)
    requires
        0 <= m <= ys.len(),
        found_in(entry, ys, m),
    ensures
        height(entry.0) <= height_entries(ys, m),
        height(entry.1) <= height_entries(ys, m),
    decreases entry, m,
{
    if m > 0 {
        if found_in(entry, ys, m - 1) {
            lemma_found_height(entry, ys, m - 1);
        } else {
            assert(decreases_to!(entry => entry.0));
            assert(decreases_to!(entry => entry.1));
            lemma_same_height(entry.0, ys[m - 1].0);
            lemma_same_height(entry.1, ys[m - 1].1);
        }
    }
}

/// A tuple has as many values as names.
pub proof fn lemma_tuple_lengths(t: Tuple)
    ensures
        t.names().len() == t.values().len(),
{
}

/// A map has as many values as keys.
pub proof fn lemma_mapping_lengths(m: Mapping)
    ensures
        m.keys().len() == m.values().len(),
{
}

/// A tuple's value nests at least one level less deep than the tuple.
pub proof fn lemma_tuple_member_height(t: Tuple, i: int)
    requires
        0 <= i < t.values().len(),
    ensures
        height(t.values()[i]) < height(Value::Tuple(t)),
{
    lemma_fields_member(t.fields@, t.fields@.len() as int, i);
}

/// Each of the first `n` fields nests no deeper than the deepest of them.
proof fn lemma_fields_member(xs: Seq<(Ident, Value)>, n: int, i: int)
    requires
        0 <= i < n <= xs.len(),
    ensures
        height(xs[i].1) <= height_fields(xs, n),
    decreases n,
{
    if i < n - 1 {
        lemma_fields_member(xs, n - 1, i);
    }
}

/// A map's value nests at least one level less deep than the map.
pub proof fn lemma_mapping_member_height(m: Mapping, i: int)
    requires
        0 <= i < m.values().len(),
    ensures
        height(m.values()[i]) < height(Value::Mapping(m)),
{
    lemma_entries_member(m.entries@, m.entries@.len() as int, i);
}

/// Each of the first `n` entries' values nests no deeper than the deepest of them.
proof fn lemma_entries_member(xs: Seq<(Value, Value)>, n: int, i: int)
    requires
        0 <= i < n <= xs.len(),
    ensures
        height(xs[i].1) <= height_entries(xs, n),
    decreases n,
{
    if i < n - 1 {
        lemma_entries_member(xs, n - 1, i);
    }
}

/// A map's key nests at least one level less deep than the map.
pub proof fn lemma_mapping_key_height(m: Mapping, i: int)
    requires
        0 <= i < m.keys().len(),
    ensures
        height(m.keys()[i]) < height(Value::Mapping(m)),
{
    lemma_keys_member(m.entries@, m.entries@.len() as int, i);
}

/// Each of the first `n` entries' keys nests no deeper than the deepest of them.
proof fn lemma_keys_member(xs: Seq<(Value, Value)>, n: int, i: int)
    requires
        0 <= i < n <= xs.len(),
    ensures
        height(xs[i].0) <= height_entries(xs, n),
    decreases n,
{
    if i < n - 1 {
        lemma_keys_member(xs, n - 1, i);
    }
}

/// A list's item nests at least one level less deep than the list.
pub proof fn lemma_list_member_height(items: Vec<Value>, i: int)
    requires
        0 <= i < items@.len(),
    ensures
        height(items@[i]) < height(Value::List(items)),
{
    lemma_items_member(items@, items@.len() as int, i);
}

/// Each of the first `n` items nests no deeper than the deepest of them.
proof fn lemma_items_member(xs: Seq<Value>, n: int, i: int)
    requires
        0 <= i < n <= xs.len(),
    ensures
        height(xs[i]) <= height_items(xs, n),
    decreases n,
{
    if i < n - 1 {
        lemma_items_member(xs, n - 1, i);
    }
}

/// How many members a collection holds: a list's items, a tuple's fields, a map's entries.
pub open spec fn members(v: Value) -> nat {
    match v {
        Value::List(xs) => xs@.len(),
        Value::Tuple(t) => t.values().len(),
        Value::Mapping(m) => m.values().len(),
        _ => 0,
    }
}

/// How many values the first `n` members of a collection hold: each item, each field's
/// value, and each entry's key and value.
pub open spec fn member_count(v: Value, n: int) -> nat
    decreases n,
{
    if n <= 0 || n > members(v) {
        0
    } else {
        member_count(v, n - 1) + match v {
            Value::List(xs) => count(xs@[n - 1]),
            Value::Tuple(t) => count(t.values()[n - 1]),
            Value::Mapping(m) => count(m.keys()[n - 1]) + count(m.values()[n - 1]),
            _ => 0,
        }
    }
}

/// A value holds itself and what its members hold.
pub proof fn lemma_count_members(v: Value)
    ensures
        count(v) == 1 + member_count(v, members(v) as int),
{
    lemma_member_count_folds(v, members(v) as int);
}

proof fn lemma_member_count_folds(v: Value, n: int)
    requires
        0 <= n <= members(v),
    ensures
        match v {
            Value::List(xs) => count_items(xs@, n) == member_count(v, n),
            Value::Tuple(t) => count_fields(t.fields@, n) == member_count(v, n),
            Value::Mapping(m) => count_entries(m.entries@, n) == member_count(v, n),
            _ => true,
        },
    decreases n,
{
    if n > 0 {
        lemma_member_count_folds(v, n - 1);
        match v {
            Value::Tuple(t) => assert(t.values()[n - 1] == t.fields@[n - 1].1),
            Value::Mapping(m) => {
                lemma_mapping_lengths(m);
                assert(m.keys()[n - 1] == m.entries@[n - 1].0 && m.values()[n - 1] == m.entries@[n - 1].1);
            },
            _ => {},
        }
    }
}

/// Whether two values are one value written alike: a tuple's fields, a map's entries and a
/// list's items in the same order and each identical, and a scalar spelled the same.
pub open spec fn identical(a: Value, b: Value) -> bool
    decreases height(a), 1int, 0int,
{
    match (a, b) {
        (Value::Atom(x), Value::Atom(y)) => x@ == y@,
        (Value::String(x), Value::String(y)) => x@ == y@,
        (Value::Integer(x), Value::Integer(y)) => x@ == y@,
        (Value::Float(x), Value::Float(y)) => x@ == y@,
        (Value::List(_), Value::List(_)) => members(a) == members(b) && identical_members(a, b, members(a) as int),
        (Value::Tuple(x), Value::Tuple(y)) => x.names() == y.names() && members(a) == members(b)
            && identical_members(a, b, members(a) as int),
        (Value::Mapping(_), Value::Mapping(_)) => members(a) == members(b) && identical_members(a, b, members(a) as int),
        _ => false,
    }
}

/// Whether the first `n` members of two collections are identical, in order: items, the
/// values of fields, and the keys and values of entries.
pub open spec fn identical_members(a: Value, b: Value, n: int) -> bool
    decreases height(a), 0int, n,
{
    if n <= 0 || n > members(a) {
        true
    } else {
        &&& identical_members(a, b, n - 1)
        &&& match (a, b) {
            (Value::List(xs), Value::List(ys)) => {
                proof { lemma_list_member_height(xs, n - 1); }
                identical(xs@[n - 1], ys@[n - 1])
            },
            (Value::Tuple(x), Value::Tuple(y)) => {
                proof { lemma_tuple_member_height(x, n - 1); }
                identical(x.values()[n - 1], y.values()[n - 1])
            },
            (Value::Mapping(x), Value::Mapping(y)) => {
                proof {
                    lemma_mapping_lengths(x);
                    lemma_mapping_key_height(x, n - 1);
                    lemma_mapping_member_height(x, n - 1);
                }
                identical(x.keys()[n - 1], y.keys()[n - 1]) && identical(x.values()[n - 1], y.values()[n - 1])
            },
            _ => false,
        }
    }
}

/// Collections of one kind whose first `n` members are identical, place by place, have
/// identical first `n` members.
pub proof fn lemma_identical_members_of(a: Value, b: Value, n: int)
    requires
        (a is List && b is List) || (a is Tuple && b is Tuple) || (a is Mapping && b is Mapping),
        0 <= n <= members(a),
        n <= members(b),
        a is List ==> forall|k: int| 0 <= k < n ==> identical(#[trigger] a->List_0@[k], b->List_0@[k]),
        a is Tuple ==> forall|k: int| 0 <= k < n ==> identical(#[trigger] a->Tuple_0.values()[k], b->Tuple_0.values()[k]),
        a is Mapping ==> forall|k: int| 0 <= k < n ==> identical(#[trigger] a->Mapping_0.keys()[k], b->Mapping_0.keys()[k])
            && identical(a->Mapping_0.values()[k], b->Mapping_0.values()[k]),
    ensures
        identical_members(a, b, n),
    decreases n,
{
    if n > 0 {
        lemma_identical_members_of(a, b, n - 1);
        if a is Mapping {
            lemma_mapping_lengths(a->Mapping_0);
            assert(identical(a->Mapping_0.keys()[n - 1], b->Mapping_0.keys()[n - 1]));
        } else if a is Tuple {
            assert(identical(a->Tuple_0.values()[n - 1], b->Tuple_0.values()[n - 1]));
        } else {
            assert(identical(a->List_0@[n - 1], b->List_0@[n - 1]));
        }
    }
}

/// Identical members stand at each place of the first `n`.
pub proof fn lemma_identical_member(a: Value, b: Value, n: int, k: int)
    requires
        identical_members(a, b, n),
        0 <= k < n <= members(a),
    ensures
        identical_members(a, b, k + 1),
    decreases n,
{
    if k < n - 1 {
        lemma_identical_member(a, b, n - 1, k);
    }
}

/// Values that are identical to two others are equal exactly when those are: equality sees
/// what a value holds and how it is spelled, never where it came from.
pub proof fn lemma_same_identical(a: Value, a2: Value, b: Value, b2: Value)
    requires
        identical(a, a2),
        identical(b, b2),
    ensures
        same(a, b) == same(a2, b2),
    decreases height(a), 2int, 0int,
{
    match (a, a2, b, b2) {
        (Value::Tuple(x), Value::Tuple(x2), Value::Tuple(y), Value::Tuple(y2)) => {
            lemma_same_fields_identical(a, a2, b, b2, x.fields@.len() as int);
        },
        (Value::Mapping(x), Value::Mapping(x2), Value::Mapping(y), Value::Mapping(y2)) => {
            lemma_same_entries_identical(a, a2, b, b2, x.entries@.len() as int);
        },
        (Value::List(x), Value::List(x2), Value::List(y), Value::List(y2)) => {
            lemma_same_items_identical(a, a2, b, b2, x@.len() as int);
        },
        _ => {},
    }
}

proof fn lemma_same_fields_identical(a: Value, a2: Value, b: Value, b2: Value, n: int)
    requires
        identical(a, a2),
        identical(b, b2),
        a is Tuple && a2 is Tuple && b is Tuple && b2 is Tuple,
        0 <= n <= members(a),
    ensures
        ({
            let (xs, xs2, ys, ys2) = (a->Tuple_0.fields@, a2->Tuple_0.fields@, b->Tuple_0.fields@, b2->Tuple_0.fields@);
            same_fields(xs, ys, n) == same_fields(xs2, ys2, n)
        }),
    decreases height(a), 1int, n,
{
    if n > 0 {
        lemma_same_fields_identical(a, a2, b, b2, n - 1);
        let (x, x2, y, y2) = (a->Tuple_0, a2->Tuple_0, b->Tuple_0, b2->Tuple_0);
        lemma_identical_member(a, a2, members(a) as int, n - 1);
        if n <= members(b) {
            lemma_identical_member(b, b2, members(b) as int, n - 1);
            lemma_tuple_member_height(x, n - 1);
            assert(x.values()[n - 1] == x.fields@[n - 1].1);
            assert(x2.values()[n - 1] == x2.fields@[n - 1].1);
            assert(y.values()[n - 1] == y.fields@[n - 1].1);
            assert(y2.values()[n - 1] == y2.fields@[n - 1].1);
            assert(x.names()[n - 1] == x2.names()[n - 1]);
            assert(y.names()[n - 1] == y2.names()[n - 1]);
            lemma_same_identical(x.fields@[n - 1].1, x2.fields@[n - 1].1, y.fields@[n - 1].1, y2.fields@[n - 1].1);
        }
    }
}

proof fn lemma_same_items_identical(a: Value, a2: Value, b: Value, b2: Value, n: int)
    requires
        identical(a, a2),
        identical(b, b2),
        a is List && a2 is List && b is List && b2 is List,
        0 <= n <= members(a),
    ensures
        same_items(a->List_0@, b->List_0@, n) == same_items(a2->List_0@, b2->List_0@, n),
    decreases height(a), 1int, n,
{
    if n > 0 {
        lemma_same_items_identical(a, a2, b, b2, n - 1);
        lemma_identical_member(a, a2, members(a) as int, n - 1);
        if n <= members(b) {
            lemma_identical_member(b, b2, members(b) as int, n - 1);
            lemma_list_member_height(a->List_0, n - 1);
            lemma_same_identical(a->List_0@[n - 1], a2->List_0@[n - 1], b->List_0@[n - 1], b2->List_0@[n - 1]);
        }
    }
}

proof fn lemma_same_entries_identical(a: Value, a2: Value, b: Value, b2: Value, n: int)
    requires
        identical(a, a2),
        identical(b, b2),
        a is Mapping && a2 is Mapping && b is Mapping && b2 is Mapping,
        0 <= n <= members(a),
    ensures
        same_entries(a->Mapping_0.entries@, b->Mapping_0.entries@, n) == same_entries(a2->Mapping_0.entries@, b2->Mapping_0.entries@, n),
    decreases height(a), 1int, n,
{
    if n > 0 {
        lemma_same_entries_identical(a, a2, b, b2, n - 1);
        let (x, x2) = (a->Mapping_0, a2->Mapping_0);
        lemma_identical_member(a, a2, members(a) as int, n - 1);
        lemma_mapping_lengths(x);
        assert(x.keys()[n - 1] == x.entries@[n - 1].0 && x.values()[n - 1] == x.entries@[n - 1].1);
        assert(x2.keys()[n - 1] == x2.entries@[n - 1].0 && x2.values()[n - 1] == x2.entries@[n - 1].1);
        lemma_found_in_identical(a, a2, b, b2, n - 1, members(b) as int);
    }
}

proof fn lemma_found_in_identical(a: Value, a2: Value, b: Value, b2: Value, i: int, m: int)
    requires
        identical(a, a2),
        identical(b, b2),
        a is Mapping && a2 is Mapping && b is Mapping && b2 is Mapping,
        0 <= i < members(a),
        0 <= m <= members(b),
        identical(a->Mapping_0.keys()[i], a2->Mapping_0.keys()[i]),
        identical(a->Mapping_0.values()[i], a2->Mapping_0.values()[i]),
    ensures
        found_in(a->Mapping_0.entries@[i], b->Mapping_0.entries@, m) == found_in(a2->Mapping_0.entries@[i], b2->Mapping_0.entries@, m),
    decreases height(a), 0int, m,
{
    if m > 0 {
        lemma_found_in_identical(a, a2, b, b2, i, m - 1);
        let (x, x2, y, y2) = (a->Mapping_0, a2->Mapping_0, b->Mapping_0, b2->Mapping_0);
        lemma_mapping_lengths(x);
        lemma_mapping_lengths(y);
        lemma_identical_member(b, b2, members(b) as int, m - 1);
        assert(y.keys()[m - 1] == y.entries@[m - 1].0 && y.values()[m - 1] == y.entries@[m - 1].1);
        assert(y2.keys()[m - 1] == y2.entries@[m - 1].0 && y2.values()[m - 1] == y2.entries@[m - 1].1);
        assert(x.keys()[i] == x.entries@[i].0 && x.values()[i] == x.entries@[i].1);
        assert(x2.keys()[i] == x2.entries@[i].0 && x2.values()[i] == x2.entries@[i].1);
        lemma_mapping_key_height(x, i);
        lemma_mapping_member_height(x, i);
        lemma_same_identical(x.entries@[i].0, x2.entries@[i].0, y.entries@[m - 1].0, y2.entries@[m - 1].0);
        lemma_same_identical(x.entries@[i].1, x2.entries@[i].1, y.entries@[m - 1].1, y2.entries@[m - 1].1);
    }
}

/// A count as a `usize` holds it: itself, or the largest `usize` where it is larger.
pub open spec fn capped(n: nat) -> nat {
    if n > usize::MAX { usize::MAX as nat } else { n }
}

/// How many values a value holds, itself included, and how many levels it nests, each
/// capped at the largest `usize`.
#[verifier::loop_isolation(false)]
pub fn measure(value: &Value) -> (measured: (usize, usize))
    ensures
        measured.0 == capped(count(*value)),
        measured.1 == capped(height(*value)),
    decreases *value, 0nat,
{
    let mut values: usize = 1;
    let mut depth: usize = 0;
    match value {
        Value::Tuple(x) => {
            let mut i: usize = 0;
            while i < x.fields.len()
                invariant
                    i <= x.fields@.len(),
                    values == capped(1 + count_fields(x.fields@, i as int)),
                    depth == capped(height_fields(x.fields@, i as int)),
                decreases x.fields@.len() - i,
            {
                proof { assert(decreases_to!(*value => x.fields@[i as int].1)); }
                let (v, d) = measure(&x.fields[i].1);
                values = values.saturating_add(v);
                if d > depth {
                    depth = d;
                }
                i = i + 1;
            }
        },
        Value::Mapping(x) => {
            proof { assert(decreases_to!(*value => *x)); }
            let (v, d) = measure_entries(x);
            values = values.saturating_add(v);
            depth = d;
        },
        Value::List(x) => {
            let mut i: usize = 0;
            while i < x.len()
                invariant
                    i <= x@.len(),
                    values == capped(1 + count_items(x@, i as int)),
                    depth == capped(height_items(x@, i as int)),
                decreases x@.len() - i,
            {
                proof { assert(decreases_to!(*value => x@[i as int])); }
                let (v, d) = measure(&x[i]);
                values = values.saturating_add(v);
                if d > depth {
                    depth = d;
                }
                i = i + 1;
            }
        },
        _ => {},
    }
    (values, depth.saturating_add(1))
}

/// How many values a map's keys and values hold together, and the deepest of them, each
/// capped at the largest `usize`.
#[verifier::loop_isolation(false)]
fn measure_entries(x: &Mapping) -> (measured: (usize, usize))
    ensures
        measured.0 == capped(count_entries(x.entries@, x.entries@.len() as int)),
        measured.1 == capped(height_entries(x.entries@, x.entries@.len() as int)),
    decreases *x, 0nat,
{
    let mut values: usize = 0;
    let mut depth: usize = 0;
    let mut i: usize = 0;
    while i < x.entries.len()
        invariant
            i <= x.entries@.len(),
            values == capped(count_entries(x.entries@, i as int)),
            depth == capped(height_entries(x.entries@, i as int)),
        decreases x.entries@.len() - i,
    {
        proof {
            assert(decreases_to!(*x => x.entries@[i as int].0));
            assert(decreases_to!(*x => x.entries@[i as int].1));
        }
        let (kv, kd) = measure(&x.entries[i].0);
        let (vv, vd) = measure(&x.entries[i].1);
        values = values.saturating_add(kv).saturating_add(vv);
        if kd > depth {
            depth = kd;
        }
        if vd > depth {
            depth = vd;
        }
        i = i + 1;
    }
    (values, depth)
}

impl Clone for Value {
    /// A copy of the value, equal to it.
    fn clone(&self) -> (c: Self)
        ensures
            same(c, *self),
    {
        copy(self)
    }
}

impl Clone for Mapping {
    /// A copy of the map, equal to it.
    fn clone(&self) -> (c: Self)
        ensures
            same(Value::Mapping(c), Value::Mapping(*self)),
    {
        copy_mapping(self)
    }
}

impl Tuple {
    /// No name stands twice.
    #[verifier::type_invariant]
    closed spec fn distinct(self) -> bool {
        forall|i: int, j: int| 0 <= i < j < self.fields@.len() ==> (#[trigger] self.fields@[i]).0@ != (#[trigger] self.fields@[j]).0@
    }

    /// The fields' names, in order.
    pub closed spec fn names(self) -> Seq<Seq<char>> {
        Seq::new(self.fields@.len(), |i: int| self.fields@[i].0@)
    }

    /// The fields' values, in order.
    pub closed spec fn values(self) -> Seq<Value> {
        Seq::new(self.fields@.len(), |i: int| self.fields@[i].1)
    }

    /// The empty tuple.
    pub fn new() -> (tuple: Tuple)
        ensures
            tuple.names().len() == 0,
            tuple.values().len() == 0,
    {
        Tuple { fields: Vec::new() }
    }

    /// Where the field of a name stands, if the tuple has one.
    fn position(&self, name: &str) -> (at: Option<usize>)
        ensures
            match at {
                Some(i) => i < self.names().len() && self.names()[i as int] == name@,
                None => forall|i: int| 0 <= i < self.names().len() ==> self.names()[i] != name@,
            },
    {
        let mut i: usize = 0;
        while i < self.fields.len()
            invariant
                i <= self.fields@.len(),
                forall|k: int| 0 <= k < i ==> self.fields@[k].0@ != name@,
            decreases self.fields@.len() - i,
        {
            if crate::names::same_text(self.fields[i].0.as_str(), name) {
                return Some(i);
            }
            i = i + 1;
        }
        None
    }

    /// Sets a field: a name the tuple has keeps its place and takes the new value, handing
    /// back the old one; a new name is added last.
    pub fn insert(&mut self, name: Ident, value: Value) -> (previous: Option<Value>)
        ensures
            (exists|i: int| 0 <= i < old(self).names().len() && old(self).names()[i] == name@) ==> {
                let i = choose|i: int| 0 <= i < old(self).names().len() && old(self).names()[i] == name@;
                &&& final(self).names() == old(self).names()
                &&& final(self).values() == old(self).values().update(i, value)
                &&& previous == Some(old(self).values()[i])
            },
            !(exists|i: int| 0 <= i < old(self).names().len() && old(self).names()[i] == name@) ==> {
                &&& final(self).names() == old(self).names().push(name@)
                &&& final(self).values() == old(self).values().push(value)
                &&& previous is None
            },
    {
        proof { use_type_invariant(&*self); }
        let at = self.position(name.as_str());
        match at {
            Some(i) => {
                let ghost before = self.fields@;
                proof {
                    let c = choose|c: int| 0 <= c < old(self).names().len() && old(self).names()[c] == name@;
                    if c != i {
                        assert(old(self).names()[c] == old(self).names()[i as int]);
                        assert(before[c].0@ == before[i as int].0@);
                    }
                }
                let mut fields: Vec<(Ident, Value)> = Vec::new();
                std::mem::swap(&mut fields, &mut self.fields);
                let (_, previous) = fields.remove(i);
                fields.insert(i, (name, value));
                proof {
                    assert(fields@ == before.update(i as int, fields@[i as int]));
                    assert forall|a: int, b: int| 0 <= a < b < fields@.len() implies (#[trigger] fields@[a]).0@ != (#[trigger] fields@[b]).0@ by {
                        assert(fields@[a].0@ == before[a].0@);
                        assert(fields@[b].0@ == before[b].0@);
                    }
                }
                self.fields = fields;
                proof {
                    assert(self.names() =~= old(self).names());
                    assert(self.values() =~= old(self).values().update(i as int, value));
                }
                Some(previous)
            },
            None => {
                let ghost before = self.fields@;
                let mut fields: Vec<(Ident, Value)> = Vec::new();
                std::mem::swap(&mut fields, &mut self.fields);
                fields.push((name, value));
                proof {
                    assert forall|a: int, b: int| 0 <= a < b < fields@.len() implies (#[trigger] fields@[a]).0@ != (#[trigger] fields@[b]).0@ by {
                        if b == before.len() {
                            assert(old(self).names()[a] == before[a].0@);
                        } else {
                            assert(fields@[a] == before[a]);
                            assert(fields@[b] == before[b]);
                        }
                    }
                }
                self.fields = fields;
                proof {
                    assert(self.names() =~= old(self).names().push(name@));
                    assert(self.values() =~= old(self).values().push(value));
                }
                None
            },
        }
    }

    /// The value of the field a name names.
    pub fn get(&self, name: &str) -> (found: Option<&Value>)
        ensures
            match found {
                Some(v) => exists|i: int| 0 <= i < self.names().len() && self.names()[i] == name@ && *v == self.values()[i],
                None => forall|i: int| 0 <= i < self.names().len() ==> self.names()[i] != name@,
            },
    {
        match self.position(name) {
            Some(i) => {
                let v = &self.fields[i].1;
                assert(self.values()[i as int] == *v);
                Some(v)
            },
            None => None,
        }
    }

    /// The value of the field a name names, taken out of the tuple.
    pub fn take(self, name: &str) -> (found: Option<Value>)
        ensures
            match found {
                Some(v) => exists|i: int| 0 <= i < self.names().len() && self.names()[i] == name@ && v == self.values()[i],
                None => forall|i: int| 0 <= i < self.names().len() ==> self.names()[i] != name@,
            },
    {
        match self.position(name) {
            Some(i) => {
                let ghost values = self.values();
                let mut fields = self.fields;
                let (_, v) = fields.remove(i);
                assert(values[i as int] == v);
                Some(v)
            },
            None => None,
        }
    }

    /// How many fields the tuple has.
    pub fn len(&self) -> (n: usize)
        ensures
            n == self.names().len(),
    {
        self.fields.len()
    }

    /// Whether the tuple has no field.
    pub fn is_empty(&self) -> (empty: bool)
        ensures
            empty == (self.names().len() == 0),
    {
        self.fields.len() == 0
    }

    /// The fields, in order.
    pub fn iter(&self) -> (fields: std::slice::Iter<'_, (Ident, Value)>)
        ensures
            fields.remaining().len() == self.names().len(),
            forall|i: int| 0 <= i < self.names().len() ==> (#[trigger] fields.remaining()[i]).0@ == self.names()[i]
                && fields.remaining()[i].1 == self.values()[i],
    {
        proof { broadcast use vstd::std_specs::slice::axiom_spec_slice_iter; }
        self.fields.as_slice().iter()
    }
}

impl Clone for Tuple {
    fn clone(&self) -> (c: Self)
        ensures
            c.names() == self.names(),
    {
        proof { use_type_invariant(self); }
        let mut fields: Vec<(Ident, Value)> = Vec::new();
        let mut i: usize = 0;
        while i < self.fields.len()
            invariant
                i <= self.fields@.len(),
                fields@.len() == i,
                forall|k: int| 0 <= k < i ==> (#[trigger] fields@[k]).0@ == self.fields@[k].0@,
                forall|a: int, b: int| 0 <= a < b < self.fields@.len() ==> (#[trigger] self.fields@[a]).0@ != (#[trigger] self.fields@[b]).0@,
            decreases self.fields@.len() - i,
        {
            fields.push((self.fields[i].0.clone(), copy(&self.fields[i].1)));
            i = i + 1;
        }
        let c = Tuple { fields };
        assert(c.names() =~= self.names());
        c
    }
}

impl Mapping {
    /// The entries' keys, in the order they were added.
    pub closed spec fn keys(self) -> Seq<Value> {
        Seq::new(self.entries@.len(), |i: int| self.entries@[i].0)
    }

    /// The entries' values, in the order they were added.
    pub closed spec fn values(self) -> Seq<Value> {
        Seq::new(self.entries@.len(), |i: int| self.entries@[i].1)
    }

    /// The empty map.
    pub fn new() -> (map: Mapping)
        ensures
            map.keys().len() == 0,
            map.values().len() == 0,
    {
        Mapping { entries: Vec::new() }
    }

    /// Where the first entry whose key equals `key` stands, if one does.
    fn position(&self, key: &Value) -> (at: Option<usize>)
        ensures
            match at {
                Some(i) => i < self.keys().len() && same(self.keys()[i as int], *key)
                    && forall|k: int| 0 <= k < i ==> !same(self.keys()[k], *key),
                None => forall|k: int| 0 <= k < self.keys().len() ==> !same(self.keys()[k], *key),
            },
    {
        let mut i: usize = 0;
        while i < self.entries.len()
            invariant
                i <= self.entries@.len(),
                forall|k: int| 0 <= k < i ==> !same(self.entries@[k].0, *key),
            decreases self.entries@.len() - i,
        {
            if same_value(&self.entries[i].0, key) {
                return Some(i);
            }
            i = i + 1;
        }
        None
    }

    /// Sets an entry: where a key equal to `key` is present, its entry keeps its place and
    /// its key and takes the new value, handing back the old one; otherwise the entry is
    /// added last.
    pub fn insert(&mut self, key: Value, value: Value) -> (previous: Option<Value>)
        ensures
            (exists|i: int| 0 <= i < old(self).keys().len() && same(old(self).keys()[i], key)) ==> {
                let i = choose|i: int| 0 <= i < old(self).keys().len() && same(old(self).keys()[i], key)
                    && forall|k: int| 0 <= k < i ==> !same(old(self).keys()[k], key);
                &&& final(self).keys() == old(self).keys()
                &&& final(self).values() == old(self).values().update(i, value)
                &&& previous == Some(old(self).values()[i])
            },
            !(exists|i: int| 0 <= i < old(self).keys().len() && same(old(self).keys()[i], key)) ==> {
                &&& final(self).keys() == old(self).keys().push(key)
                &&& final(self).values() == old(self).values().push(value)
                &&& previous is None
            },
    {
        match self.position(&key) {
            Some(i) => {
                let ghost before = self.entries@;
                proof {
                    let c = choose|c: int| 0 <= c < old(self).keys().len() && same(old(self).keys()[c], key)
                        && forall|k: int| 0 <= k < c ==> !same(old(self).keys()[k], key);
                    assert(same(old(self).keys()[i as int], key));
                    if c < i {
                        assert(!same(old(self).keys()[c], key));
                    }
                    if c > i {
                        assert(!same(old(self).keys()[i as int], key));
                    }
                }
                let (kept, previous) = self.entries.remove(i);
                self.entries.insert(i, (kept, value));
                proof {
                    assert(self.keys() =~= old(self).keys());
                    assert(self.values() =~= old(self).values().update(i as int, value));
                }
                Some(previous)
            },
            None => {
                self.entries.push((key, value));
                proof {
                    assert(self.keys() =~= old(self).keys().push(key));
                    assert(self.values() =~= old(self).values().push(value));
                }
                None
            },
        }
    }

    /// The value of the first entry whose key equals `key`.
    pub fn get(&self, key: &Value) -> (found: Option<&Value>)
        ensures
            match found {
                Some(v) => exists|i: int| 0 <= i < self.keys().len() && same(self.keys()[i], *key) && *v == self.values()[i]
                    && forall|k: int| 0 <= k < i ==> !same(self.keys()[k], *key),
                None => forall|k: int| 0 <= k < self.keys().len() ==> !same(self.keys()[k], *key),
            },
    {
        match self.position(key) {
            Some(i) => {
                let v = &self.entries[i].1;
                assert(self.values()[i as int] == *v);
                Some(v)
            },
            None => None,
        }
    }

    /// The value of the first entry whose key equals `key`, taken out of the map.
    pub fn take(self, key: &Value) -> (found: Option<Value>)
        ensures
            match found {
                Some(v) => exists|i: int| 0 <= i < self.keys().len() && same(self.keys()[i], *key) && v == self.values()[i]
                    && forall|k: int| 0 <= k < i ==> !same(self.keys()[k], *key),
                None => forall|k: int| 0 <= k < self.keys().len() ==> !same(self.keys()[k], *key),
            },
    {
        match self.position(key) {
            Some(i) => {
                let ghost values = self.values();
                let mut entries = self.entries;
                let (_, v) = entries.remove(i);
                assert(values[i as int] == v);
                Some(v)
            },
            None => None,
        }
    }

    /// How many entries the map has.
    pub fn len(&self) -> (n: usize)
        ensures
            n == self.keys().len(),
    {
        self.entries.len()
    }

    /// Whether the map has no entry.
    pub fn is_empty(&self) -> (empty: bool)
        ensures
            empty == (self.keys().len() == 0),
    {
        self.entries.len() == 0
    }

    /// The entries, in the order they were added.
    pub fn iter(&self) -> (entries: std::slice::Iter<'_, (Value, Value)>)
        ensures
            entries.remaining().len() == self.keys().len(),
            forall|i: int| 0 <= i < self.keys().len() ==> (#[trigger] entries.remaining()[i]).0 == self.keys()[i]
                && entries.remaining()[i].1 == self.values()[i],
    {
        proof { broadcast use vstd::std_specs::slice::axiom_spec_slice_iter; }
        self.entries.as_slice().iter()
    }
}

} // verus!
