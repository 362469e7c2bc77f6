//! RON values: the tree that any RON document reads into.

use vstd::prelude::*;
use vstd::utf8::*;

use crate::parse::float::float_literal_view;
use crate::parse::{DesireFloat, FloatLiteral, ParsedInteger};
use crate::util::str_eq;

verus! {

/// A number: an integer in the type it was read as, or a float literal.
#[derive(Clone, Debug)]
pub enum Number {
    Integer(ParsedInteger),
    Float(FloatLiteral),
}

/// A RON value. A mapping keeps its entries in the order they were read.
#[derive(Debug)]
pub enum Value {
    Bool(bool),
    Char(char),
    Mapping(Vec<(Value, Value)>),
    Number(Number),
    Option(Option<Box<Value>>),
    String(String),
    List(Vec<Value>),
    Unit,
}

/// The mathematical model of a RON value.
pub ghost enum ValueModel {
    Bool(bool),
    Char(char),
    Mapping(Seq<(ValueModel, ValueModel)>),
    Integer(ParsedInteger),
    /// A float by its text and its float type.
    Float(Seq<u8>, DesireFloat),
    Option(Option<Box<ValueModel>>),
    String(Seq<char>),
    List(Seq<ValueModel>),
    Unit,
}

/// The model of a number.
pub open spec fn number_view(n: Number) -> ValueModel {
    match n {
        Number::Integer(i) => ValueModel::Integer(i),
        Number::Float(f) => ValueModel::Float(float_literal_view(f).0, float_literal_view(f).1),
    }
}

/// The model of a value.
pub open spec fn value_view(v: Value) -> ValueModel
    decreases v,
{
    match v {
        Value::Bool(b) => ValueModel::Bool(b),
        Value::Char(c) => ValueModel::Char(c),
        Value::Mapping(m) => ValueModel::Mapping(entries_view(m@)),
        Value::Number(n) => number_view(n),
        Value::Option(o) => match o {
            Some(b) => ValueModel::Option(Some(Box::new(value_view(*b)))),
            None => ValueModel::Option(None),
        },
        Value::String(s) => ValueModel::String(s@),
        Value::List(s) => ValueModel::List(values_view(s@)),
        Value::Unit => ValueModel::Unit,
    }
}

/// The model of a value, one level down.
pub proof fn lemma_value_view(v: Value)
    ensures
        value_view(v) == match v {
            Value::Bool(b) => ValueModel::Bool(b),
            Value::Char(c) => ValueModel::Char(c),
            Value::Mapping(m) => ValueModel::Mapping(entries_view(m@)),
            Value::Number(n) => number_view(n),
            Value::Option(o) => match o {
                Some(b) => ValueModel::Option(Some(Box::new(value_view(*b)))),
                None => ValueModel::Option(None),
            },
            Value::String(s) => ValueModel::String(s@),
            Value::List(s) => ValueModel::List(values_view(s@)),
            Value::Unit => ValueModel::Unit,
        },
{
}

/// The models of a sequence of values.
pub open spec fn values_view(s: Seq<Value>) -> Seq<ValueModel>
    decreases s,
{
    if s.len() == 0 {
        Seq::empty()
    } else {
        values_view(s.drop_last()).push(value_view(s.last()))
    }
}

/// The models of a sequence of map entries.
pub open spec fn entries_view(s: Seq<(Value, Value)>) -> Seq<(ValueModel, ValueModel)>
    decreases s,
{
    if s.len() == 0 {
        Seq::empty()
    } else {
        entries_view(s.drop_last()).push((value_view(s.last().0), value_view(s.last().1)))
    }
}


/// Whether two values are the same value: of the same kind with the same
/// contents, lists element by element, and mappings as maps (the same
/// number of entries, each entry of one matched by an entry of the other);
/// floats by their text and type.
pub open spec fn value_same(a: ValueModel, b: ValueModel) -> bool
    decreases a,
{
    match (a, b) {
        (ValueModel::List(xs), ValueModel::List(ys)) => xs.len() == ys.len() && forall|i: int|
            0 <= i < xs.len() ==> value_same(#[trigger] xs[i], ys[i]),
        (ValueModel::Option(Some(x)), ValueModel::Option(Some(y))) => value_same(*x, *y),
        (ValueModel::Mapping(xs), ValueModel::Mapping(ys)) => xs.len() == ys.len() && (forall|i: int|
            0 <= i < xs.len() ==> matched_in(#[trigger] xs[i], ys)) && (forall|j: int|
            0 <= j < ys.len() ==> matched_rev(xs, #[trigger] ys[j])),
        _ => a == b,
    }
}

/// Whether some entry of `ys` is the same as the entry `e`.
pub open spec fn matched_in(e: (ValueModel, ValueModel), ys: Seq<(ValueModel, ValueModel)>) -> bool
    decreases e,
{
    exists|m: int| 0 <= m < ys.len() && value_same(e.0, #[trigger] ys[m].0) && value_same(e.1, ys[m].1)
}

/// Whether some entry of `xs` is the same as the entry `f`.
pub open spec fn matched_rev(xs: Seq<(ValueModel, ValueModel)>, f: (ValueModel, ValueModel)) -> bool
    decreases xs,
{
    exists|m: int| 0 <= m < xs.len() && value_same(#[trigger] xs[m].0, f.0) && value_same(xs[m].1, f.1)
}

/// The position of the first entry of `entries` whose key is the same as
/// `k` (see [`value_same`]).
pub open spec fn key_index(entries: Seq<(ValueModel, ValueModel)>, k: ValueModel) -> Option<int>
    decreases entries.len(),
{
    if entries.len() == 0 {
        None
    } else if value_same(entries[0].0, k) {
        Some(0)
    } else {
        match key_index(entries.drop_first(), k) {
            Some(i) => Some(i + 1),
            None => None,
        }
    }
}

/// The entries after `k` is set to `v`: where the same key is there, it
/// keeps its place and its own form and takes the value `v`; otherwise the
/// entry goes at the end.
pub open spec fn map_insert(entries: Seq<(ValueModel, ValueModel)>, k: ValueModel, v: ValueModel) -> Seq<
    (ValueModel, ValueModel),
> {
    match key_index(entries, k) {
        Some(i) => entries.update(i, (entries[i].0, v)),
        None => entries.push((k, v)),
    }
}

/// The mapping that the entries `s`, read in order, make: each key once,
/// where it first came, with the value it last had.
pub open spec fn last_wins(s: Seq<(ValueModel, ValueModel)>) -> Seq<(ValueModel, ValueModel)>
    decreases s.len(),
{
    if s.len() == 0 {
        Seq::empty()
    } else {
        map_insert(last_wins(s.drop_last()), s.last().0, s.last().1)
    }
}

proof fn lemma_key_index(entries: Seq<(ValueModel, ValueModel)>, k: ValueModel)
    ensures
        key_index(entries, k) matches Some(i) ==> 0 <= i < entries.len() && value_same(entries[i].0, k)
            && forall|j: int| 0 <= j < i ==> !value_same(#[trigger] entries[j].0, k),
        key_index(entries, k) is None ==> forall|j: int|
            0 <= j < entries.len() ==> !value_same(#[trigger] entries[j].0, k),
    decreases entries.len(),
{
    if entries.len() > 0 {
        lemma_key_index(entries.drop_first(), k);
        assert forall|j: int| 0 < j < entries.len() implies entries[j] == entries.drop_first()[j - 1] by {}
    }
}

proof fn lemma_values_view(s: Seq<Value>)
    ensures
        values_view(s).len() == s.len(),
        forall|i: int| 0 <= i < s.len() ==> #[trigger] values_view(s)[i] == value_view(s[i]),
    decreases s.len(),
{
    if s.len() > 0 {
        lemma_values_view(s.drop_last());
    }
}

proof fn lemma_entries_view(s: Seq<(Value, Value)>)
    ensures
        entries_view(s).len() == s.len(),
        forall|i: int| 0 <= i < s.len() ==> #[trigger] entries_view(s)[i] == (value_view(s[i].0), value_view(s[i].1)),
    decreases s.len(),
{
    if s.len() > 0 {
        lemma_entries_view(s.drop_last());
    }
}

/// Whether some entry of `ys` is the same (see [`value_same`]) as the
/// entry `x`.
fn has_same_entry(x: &(Value, Value), ys: &Vec<(Value, Value)>, Ghost(a): Ghost<Value>) -> (r: bool)
    requires
        decreases_to!(a => x.0),
        decreases_to!(a => x.1),
    ensures
        r == matched_in((value_view(x.0), value_view(x.1)), entries_view(ys@)),
    decreases a, 2int,
{
    let ghost ey = entries_view(ys@);
    let ghost e = (value_view(x.0), value_view(x.1));
    proof {
        lemma_entries_view(ys@);
    }
    let mut j: usize = 0;
    while j < ys.len()
        invariant
            j <= ys@.len(),
            ey.len() == ys@.len(),
            ey == entries_view(ys@),
            e == (value_view(x.0), value_view(x.1)),
            forall|l: int| 0 <= l < ys@.len() ==> #[trigger] ey[l] == (value_view(ys@[l].0), value_view(ys@[l].1)),
            decreases_to!(a => x.0),
            decreases_to!(a => x.1),
            forall|l: int| 0 <= l < j ==> !(value_same(e.0, #[trigger] ey[l].0) && value_same(e.1, ey[l].1)),
        decreases ys.len() - j,
    {
        if value_eq_in(&x.0, &ys[j].0, Ghost(a)) && value_eq_in(&x.1, &ys[j].1, Ghost(a)) {
            assert(ey[j as int] == (value_view(ys@[j as int].0), value_view(ys@[j as int].1)));
            assert(value_same(e.0, ey[j as int].0) && value_same(e.1, ey[j as int].1));
            return true;
        }
        assert(ey[j as int] == (value_view(ys@[j as int].0), value_view(ys@[j as int].1)));
        j = j + 1;
    }
    false
}

/// Whether some entry of `xs` is the same (see [`value_same`]) as the
/// entry `y`.
fn has_same_entry_rev(xs: &Vec<(Value, Value)>, y: &(Value, Value), Ghost(a): Ghost<Value>) -> (r: bool)
    requires
        forall|i: int| 0 <= i < xs@.len() ==> decreases_to!(a => #[trigger] xs@[i].0),
        forall|i: int| 0 <= i < xs@.len() ==> decreases_to!(a => #[trigger] xs@[i].1),
    ensures
        r == matched_rev(entries_view(xs@), (value_view(y.0), value_view(y.1))),
    decreases a, 2int,
{
    let ghost ex = entries_view(xs@);
    let ghost f = (value_view(y.0), value_view(y.1));
    proof {
        lemma_entries_view(xs@);
    }
    let mut i: usize = 0;
    while i < xs.len()
        invariant
            i <= xs@.len(),
            ex.len() == xs@.len(),
            ex == entries_view(xs@),
            f == (value_view(y.0), value_view(y.1)),
            forall|l: int| 0 <= l < xs@.len() ==> #[trigger] ex[l] == (value_view(xs@[l].0), value_view(xs@[l].1)),
            forall|l: int| 0 <= l < xs@.len() ==> decreases_to!(a => #[trigger] xs@[l].0),
            forall|l: int| 0 <= l < xs@.len() ==> decreases_to!(a => #[trigger] xs@[l].1),
            forall|l: int| 0 <= l < i ==> !(value_same(#[trigger] ex[l].0, f.0) && value_same(ex[l].1, f.1)),
        decreases xs.len() - i,
    {
        assert(decreases_to!(a => xs@[i as int].0));
        assert(decreases_to!(a => xs@[i as int].1));
        assert(ex[i as int] == (value_view(xs@[i as int].0), value_view(xs@[i as int].1)));
        if value_eq_in(&xs[i].0, &y.0, Ghost(a)) && value_eq_in(&xs[i].1, &y.1, Ghost(a)) {
            assert(value_same(ex[i as int].0, f.0) && value_same(ex[i as int].1, f.1));
            return true;
        }
        i = i + 1;
    }
    false
}

/// [`value_eq`] on a part `x` of the value `a`, which bounds the
/// recursion.
fn value_eq_in(x: &Value, y: &Value, Ghost(a): Ghost<Value>) -> (r: bool)
    requires
        decreases_to!(a => *x),
    ensures
        r == value_same(value_view(*x), value_view(*y)),
    decreases a, 1int,
{
    value_eq_at(x, y)
}

/// Whether two values are the same value; see [`value_same`].
pub fn value_eq(a: &Value, b: &Value) -> (r: bool)
    ensures
        r == value_same(value_view(*a), value_view(*b)),
{
    value_eq_at(a, b)
}

fn value_eq_at(a: &Value, b: &Value) -> (r: bool)
    ensures
        r == value_same(value_view(*a), value_view(*b)),
    decreases *a, 3int,
{
    proof {
        lemma_value_view(*a);
        lemma_value_view(*b);
    }
    match (a, b) {
        (Value::Bool(x), Value::Bool(y)) => *x == *y,
        (Value::Char(x), Value::Char(y)) => *x == *y,
        (Value::String(x), Value::String(y)) => str_eq(x.as_str(), y.as_str()),
        (Value::Unit, Value::Unit) => true,
        (Value::Number(Number::Integer(p)), Value::Number(Number::Integer(q))) => *p == *q,
        (Value::Number(Number::Float(f)), Value::Number(Number::Float(g))) => {
            proof {
                encode_utf8_decode_utf8(f.text@);
                encode_utf8_decode_utf8(g.text@);
            }
            str_eq(f.text.as_str(), g.text.as_str()) && f.width == g.width
        },
        (Value::Option(x), Value::Option(y)) => match (x, y) {
            (None, None) => true,
            (Some(p), Some(q)) => value_eq_at(p, q),
            _ => false,
        },
        (Value::List(xs), Value::List(ys)) => {
            proof {
                lemma_values_view(xs@);
                lemma_values_view(ys@);
            }
            if xs.len() != ys.len() {
                return false;
            }
            let mut i: usize = 0;
            while i < xs.len()
                invariant
                    i <= xs.len() == ys.len(),
                    values_view(xs@).len() == xs@.len(),
                    values_view(ys@).len() == ys@.len(),
                    forall|j: int| 0 <= j < xs@.len() ==> #[trigger] values_view(xs@)[j] == value_view(xs@[j]),
                    forall|j: int| 0 <= j < ys@.len() ==> #[trigger] values_view(ys@)[j] == value_view(ys@[j]),
                    forall|j: int| 0 <= j < i ==> value_same(#[trigger] values_view(xs@)[j], values_view(ys@)[j]),
                    *a == Value::List(*xs),
                    value_view(*a) == ValueModel::List(values_view(xs@)),
                    value_view(*b) == ValueModel::List(values_view(ys@)),
                decreases xs.len() - i,
            {
                proof {
                    assert(decreases_to!(*a => *xs));
                    assert(decreases_to!(*xs => xs@));
                    assert(decreases_to!(xs@ => xs@[i as int]));
                }
                if !value_eq_at(&xs[i], &ys[i]) {
                    proof {
                        if value_same(value_view(*a), value_view(*b)) {
                            assert(value_same(values_view(xs@)[i as int], values_view(ys@)[i as int]));
                        }
                    }
                    return false;
                }
                i = i + 1;
            }
            assert(value_same(value_view(*a), value_view(*b)));
            true
        },
        (Value::Mapping(xs), Value::Mapping(ys)) => {
            proof {
                lemma_entries_view(xs@);
                lemma_entries_view(ys@);
                assert forall|i: int| 0 <= i < xs@.len() implies decreases_to!(*a => #[trigger] xs@[i].0)
                    && decreases_to!(*a => xs@[i].1) by {
                    assert(decreases_to!(*a => *xs));
                    assert(decreases_to!(*xs => xs@));
                    assert(decreases_to!(xs@ => xs@[i]));
                    assert(decreases_to!(xs@[i] => xs@[i].0));
                    assert(decreases_to!(xs@[i] => xs@[i].1));
                }
            }
            let ghost ga = *a;
            let ghost ex = entries_view(xs@);
            let ghost ey = entries_view(ys@);
            assert(value_view(*a) == ValueModel::Mapping(ex));
            assert(value_view(*b) == ValueModel::Mapping(ey));
            if xs.len() != ys.len() {
                return false;
            }
            let mut i: usize = 0;
            while i < xs.len()
                invariant
                    i <= xs@.len(),
                    xs@.len() == ys@.len(),
                    ex.len() == xs@.len(),
                    ey.len() == ys@.len(),
                    ex == entries_view(xs@),
                    ey == entries_view(ys@),
                    forall|l: int| 0 <= l < xs@.len() ==> #[trigger] ex[l] == (value_view(xs@[l].0), value_view(xs@[l].1)),
                    ga == *a,
                    value_view(*a) == ValueModel::Mapping(ex),
                    value_view(*b) == ValueModel::Mapping(ey),
                    forall|l: int| 0 <= l < xs@.len() ==> decreases_to!(ga => #[trigger] xs@[l].0),
                    forall|l: int| 0 <= l < xs@.len() ==> decreases_to!(ga => #[trigger] xs@[l].1),
                    forall|l: int| 0 <= l < i ==> matched_in(#[trigger] ex[l], ey),
                decreases xs.len() - i,
            {
                let found = has_same_entry(&xs[i], ys, Ghost(ga));
                assert(ex[i as int] == (value_view(xs@[i as int].0), value_view(xs@[i as int].1)));
                if !found {
                    assert(!matched_in(ex[i as int], ey));
                    return false;
                }
                i = i + 1;
            }
            let mut j: usize = 0;
            while j < ys.len()
                invariant
                    j <= ys@.len(),
                    xs@.len() == ys@.len(),
                    ex.len() == xs@.len(),
                    ey.len() == ys@.len(),
                    ex == entries_view(xs@),
                    ey == entries_view(ys@),
                    forall|l: int| 0 <= l < ys@.len() ==> #[trigger] ey[l] == (value_view(ys@[l].0), value_view(ys@[l].1)),
                    ga == *a,
                    value_view(*a) == ValueModel::Mapping(ex),
                    value_view(*b) == ValueModel::Mapping(ey),
                    forall|l: int| 0 <= l < xs@.len() ==> decreases_to!(ga => #[trigger] xs@[l].0),
                    forall|l: int| 0 <= l < xs@.len() ==> decreases_to!(ga => #[trigger] xs@[l].1),
                    forall|l: int| 0 <= l < ex.len() ==> matched_in(#[trigger] ex[l], ey),
                    forall|m: int| 0 <= m < j ==> matched_rev(ex, #[trigger] ey[m]),
                decreases ys.len() - j,
            {
                let found = has_same_entry_rev(xs, &ys[j], Ghost(ga));
                assert(ey[j as int] == (value_view(ys@[j as int].0), value_view(ys@[j as int].1)));
                if !found {
                    assert(!matched_rev(ex, ey[j as int]));
                    return false;
                }
                j = j + 1;
            }
            true
        },
        _ => false,
    }
}

/// Sets the key `k` of the mapping `out` to `v`; see [`map_insert`].
fn insert_entry(out: &mut Vec<(Value, Value)>, k: Value, v: Value)
    ensures
        entries_view(final(out)@) == map_insert(entries_view(old(out)@), value_view(k), value_view(v)),
{
    let ghost m = entries_view(out@);
    proof {
        lemma_entries_view(out@);
        lemma_key_index(m, value_view(k));
    }
    let mut i: usize = 0;
    while i < out.len()
        invariant
            i <= out@.len(),
            out@ == old(out)@,
            m == entries_view(old(out)@),
            m == entries_view(out@),
            m.len() == out@.len(),
            forall|j: int| 0 <= j < out@.len() ==> #[trigger] m[j] == (value_view(out@[j].0), value_view(out@[j].1)),
            forall|j: int| 0 <= j < i ==> !value_same(#[trigger] m[j].0, value_view(k)),
        decreases out.len() - i,
    {
        if value_eq(&out[i].0, &k) {
            proof {
                lemma_key_index(m, value_view(k));
                assert(value_same(m[i as int].0, value_view(k)));
                if key_index(m, value_view(k)) is None {
                    assert(false);
                }
                let idx = key_index(m, value_view(k))->Some_0;
                if idx < i {
                    assert(!value_same(m[idx].0, value_view(k)));
                }
                if idx > i {
                    assert(!value_same(m[i as int].0, value_view(k)));
                }
                assert(key_index(m, value_view(k)) == Some(i as int));
            }
            let (old_key, _old_value) = out.remove(i);
            out.insert(i, (old_key, v));
            proof {
                lemma_entries_view(out@);
                assert(entries_view(out@) =~= m.update(i as int, (m[i as int].0, value_view(v))));
            }
            return;
        }
        i = i + 1;
    }
    out.push((k, v));
    proof {
        lemma_key_index(m, value_view(k));
        lemma_entries_view(out@);
        assert(key_index(m, value_view(k)) is None) by {
            if key_index(m, value_view(k)) is Some {
                let idx = key_index(m, value_view(k))->Some_0;
                assert(!value_same(m[idx].0, value_view(k)));
            }
        }
        assert(entries_view(out@) =~= m.push((value_view(k), value_view(v))));
    }
}

/// The mapping that the entries `entries`, read in order, make; see
/// [`last_wins`].
pub fn last_wins_entries(entries: Vec<(Value, Value)>) -> (r: Vec<(Value, Value)>)
    ensures
        entries_view(r@) == last_wins(entries_view(entries@)),
{
    let ghost all = entries_view(entries@);
    proof {
        lemma_entries_view(entries@);
    }
    let mut rest = entries;
    let mut out: Vec<(Value, Value)> = Vec::new();
    let ghost mut done: int = 0;
    while rest.len() > 0
        invariant
            0 <= done <= all.len(),
            all.len() == done + rest@.len(),
            entries_view(rest@) == all.subrange(done, all.len() as int),
            entries_view(out@) == last_wins(all.subrange(0, done)),
        decreases rest.len(),
    {
        let ghost before = rest@;
        proof {
            lemma_entries_view(before);
        }
        let (k, v) = rest.remove(0);
        proof {
            assert(entries_view(before)[0] == all[done]);
            assert(all[done] == (value_view(k), value_view(v)));
        }
        insert_entry(&mut out, k, v);
        proof {
            let pre = all.subrange(0, done + 1);
            assert(pre.drop_last() =~= all.subrange(0, done));
            assert(pre.last() == all[done]);
            lemma_entries_view(rest@);
            assert forall|j: int| 0 <= j < rest@.len() implies #[trigger] rest@[j] == before[j + 1] by {}
            assert(entries_view(rest@) =~= all.subrange(done + 1, all.len() as int)) by {
                assert forall|j: int| 0 <= j < rest@.len() implies entries_view(rest@)[j] == all.subrange(
                    done + 1,
                    all.len() as int,
                )[j] by {
                    assert(entries_view(before)[j + 1] == all[done + 1 + j]);
                }
            }
            done = done + 1;
        }
    }
    proof {
        assert(all.subrange(0, done) =~= all);
    }
    out
}


/// Whether no key of the entries `s` is the same (see [`value_same`]) as
/// a later one.
pub open spec fn unique_keys(s: Seq<(ValueModel, ValueModel)>) -> bool {
    forall|i: int, j: int| 0 <= i < j < s.len() ==> !value_same(#[trigger] s[i].0, #[trigger] s[j].0)
}

/// Setting a key keeps the keys unique.
pub proof fn lemma_map_insert_unique(m: Seq<(ValueModel, ValueModel)>, k: ValueModel, v: ValueModel)
    requires
        unique_keys(m),
    ensures
        unique_keys(map_insert(m, k, v)),
{
    lemma_key_index(m, k);
    let r = map_insert(m, k, v);
    match key_index(m, k) {
        Some(idx) => {
            assert forall|i: int, j: int| 0 <= i < j < r.len() implies !value_same(#[trigger] r[i].0, #[trigger] r[j].0) by {
                assert(r[i].0 == m[i].0 && r[j].0 == m[j].0);
            }
        },
        None => {
            assert forall|i: int, j: int| 0 <= i < j < r.len() implies !value_same(#[trigger] r[i].0, #[trigger] r[j].0) by {
                if j < m.len() {
                    assert(r[i] == m[i] && r[j] == m[j]);
                } else {
                    assert(r[i] == m[i]);
                    assert(r[j].0 == k);
                }
            }
        },
    }
}

/// The mapping that entries make, read in order, has each key once.
pub proof fn lemma_last_wins_unique(s: Seq<(ValueModel, ValueModel)>)
    ensures
        unique_keys(last_wins(s)),
    decreases s.len(),
{
    if s.len() > 0 {
        lemma_last_wins_unique(s.drop_last());
        lemma_map_insert_unique(last_wins(s.drop_last()), s.last().0, s.last().1);
    }
}

/// A map from values to values, each key once, in the order in which the
/// keys came.
pub struct ValueMap {
    entries: Vec<(Value, Value)>,
}

impl View for ValueMap {
    type V = Seq<(ValueModel, ValueModel)>;

    closed spec fn view(&self) -> Seq<(ValueModel, ValueModel)> {
        entries_view(self.entries@)
    }
}

/// The position of the entry whose key is the same as `key`.
fn position_of(entries: &Vec<(Value, Value)>, key: &Value) -> (r: Option<usize>)
    ensures
        r is None <==> key_index(entries_view(entries@), value_view(*key)) is None,
        r matches Some(j) ==> j < entries@.len() && key_index(entries_view(entries@), value_view(*key))
            == Some(j as int),
{
    let ghost m = entries_view(entries@);
    proof {
        lemma_entries_view(entries@);
        lemma_key_index(m, value_view(*key));
    }
    let mut i: usize = 0;
    while i < entries.len()
        invariant
            i <= entries@.len(),
            m == entries_view(entries@),
            m.len() == entries@.len(),
            forall|j: int| 0 <= j < entries@.len() ==> #[trigger] m[j] == (value_view(entries@[j].0), value_view(entries@[j].1)),
            forall|j: int| 0 <= j < i ==> !value_same(#[trigger] m[j].0, value_view(*key)),
            key_index(m, value_view(*key)) matches Some(x) ==> 0 <= x < m.len() && value_same(m[x].0, value_view(*key))
                && forall|j: int| 0 <= j < x ==> !value_same(#[trigger] m[j].0, value_view(*key)),
            key_index(m, value_view(*key)) is None ==> forall|j: int|
                0 <= j < m.len() ==> !value_same(#[trigger] m[j].0, value_view(*key)),
        decreases entries.len() - i,
    {
        if value_eq(&entries[i].0, key) {
            proof {
                assert(value_same(m[i as int].0, value_view(*key)));
                if key_index(m, value_view(*key)) is None {
                    assert(false);
                }
                let idx = key_index(m, value_view(*key))->Some_0;
                if idx < i {
                    assert(!value_same(m[idx].0, value_view(*key)));
                }
                if idx > i {
                    assert(!value_same(m[i as int].0, value_view(*key)));
                }
            }
            return Some(i);
        }
        i = i + 1;
    }
    proof {
        if key_index(m, value_view(*key)) is Some {
            let idx = key_index(m, value_view(*key))->Some_0;
            assert(!value_same(m[idx].0, value_view(*key)));
        }
    }
    None
}

impl ValueMap {
    /// An empty map.
    pub fn new() -> (m: ValueMap)
        ensures
            m@ == Seq::<(ValueModel, ValueModel)>::empty(),
            unique_keys(m@),
    {
        ValueMap { entries: Vec::new() }
    }

    /// The map that the entries `entries` make, read in order: each key
    /// once, where it first came, with the value it last had.
    pub fn from_entries(entries: Vec<(Value, Value)>) -> (m: ValueMap)
        ensures
            m@ == last_wins(entries_view(entries@)),
            unique_keys(m@),
    {
        proof {
            lemma_last_wins_unique(entries_view(entries@));
        }
        ValueMap { entries: last_wins_entries(entries) }
    }

    /// The entries of the map, in order.
    pub fn into_entries(self) -> (r: Vec<(Value, Value)>)
        ensures
            entries_view(r@) == self@,
    {
        self.entries
    }

    /// The number of entries.
    pub fn len(&self) -> (n: usize)
        ensures
            n == self@.len(),
    {
        proof {
            lemma_entries_view(self.entries@);
        }
        self.entries.len()
    }

    /// Whether the map has no entry.
    pub fn is_empty(&self) -> (b: bool)
        ensures
            b == (self@.len() == 0),
    {
        self.len() == 0
    }

    /// The value of the key that is the same as `key`, if there is one.
    pub fn get(&self, key: &Value) -> (r: Option<&Value>)
        ensures
            match key_index(self@, value_view(*key)) {
                Some(i) => r matches Some(v) && value_view(*v) == self@[i].1,
                None => r is None,
            },
    {
        proof {
            lemma_entries_view(self.entries@);
        }
        match position_of(&self.entries, key) {
            Some(i) => Some(&self.entries[i].1),
            None => None,
        }
    }

    /// The value of the key `key`, which the map must hold.
    pub fn index(&self, key: &Value) -> (v: &Value)
        requires
            key_index(self@, value_view(*key)) is Some,
        ensures
            value_view(*v) == self@[key_index(self@, value_view(*key))->Some_0].1,
    {
        proof {
            lemma_entries_view(self.entries@);
        }
        match position_of(&self.entries, key) {
            Some(i) => &self.entries[i].1,
            None => {
                proof {
                    assert(false);
                }
                &self.entries[0].1
            },
        }
    }

    /// The value of the key that is the same as `key`, to change in place,
    /// if there is one.
    pub fn get_mut(&mut self, key: &Value) -> (r: Option<&mut Value>)
        ensures
            match key_index(old(self)@, value_view(*key)) {
                Some(i) => r matches Some(v) && value_view(*v) == old(self)@[i].1 && final(self)@ == old(
                    self,
                )@.update(i, (old(self)@[i].0, value_view(*final(v)))),
                None => r is None && final(self)@ == old(self)@,
            },
    {
        proof {
            lemma_entries_view(self.entries@);
        }
        match position_of(&self.entries, key) {
            Some(i) => {
                let ghost before = self.entries@;
                let v = &mut self.entries[i].1;
                proof {
                    lemma_entries_view(before.update(i as int, (before[i as int].0, *final(v))));
                    assert(entries_view(before.update(i as int, (before[i as int].0, *final(v)))) =~= entries_view(
                        before,
                    ).update(i as int, (entries_view(before)[i as int].0, value_view(*final(v)))));
                }
                Some(v)
            },
            None => None,
        }
    }

    /// Sets the key `key` to `value`; answers the value that the same key
    /// had before, if any. An existing key keeps its place and its own form.
    pub fn insert(&mut self, key: Value, value: Value) -> (r: Option<Value>)
        requires
            unique_keys(old(self)@),
        ensures
            final(self)@ == map_insert(old(self)@, value_view(key), value_view(value)),
            unique_keys(final(self)@),
            match key_index(old(self)@, value_view(key)) {
                Some(i) => r matches Some(o) && value_view(o) == old(self)@[i].1,
                None => r is None,
            },
    {
        proof {
            lemma_entries_view(self.entries@);
            lemma_map_insert_unique(self@, value_view(key), value_view(value));
        }
        let ghost vv = value_view(value);
        let ghost kv = value_view(key);
        match position_of(&self.entries, &key) {
            Some(i) => {
                let (old_key, old_value) = self.entries.remove(i);
                self.entries.insert(i, (old_key, value));
                proof {
                    lemma_entries_view(self.entries@);
                    assert(self@ =~= old(self)@.update(i as int, (old(self)@[i as int].0, vv)));
                }
                Some(old_value)
            },
            None => {
                self.entries.push((key, value));
                proof {
                    lemma_entries_view(self.entries@);
                    assert(self@ =~= old(self)@.push((kv, vv)));
                }
                None
            },
        }
    }

    /// Removes the key that is the same as `key`; answers its value, if
    /// there was one.
    pub fn remove(&mut self, key: &Value) -> (r: Option<Value>)
        requires
            unique_keys(old(self)@),
        ensures
            unique_keys(final(self)@),
            match key_index(old(self)@, value_view(*key)) {
                Some(i) => r matches Some(o) && value_view(o) == old(self)@[i].1 && final(self)@ == old(
                    self,
                )@.remove(i),
                None => r is None && final(self)@ == old(self)@,
            },
    {
        proof {
            lemma_entries_view(self.entries@);
        }
        match position_of(&self.entries, key) {
            Some(i) => {
                let (_k, v) = self.entries.remove(i);
                proof {
                    lemma_entries_view(self.entries@);
                    assert(self@ =~= old(self)@.remove(i as int));
                    assert forall|a: int, b: int| 0 <= a < b < self@.len() implies !value_same(
                        #[trigger] self@[a].0,
                        #[trigger] self@[b].0,
                    ) by {
                        let a2 = if a < i { a } else { a + 1 };
                        let b2 = if b < i { b } else { b + 1 };
                        assert(self@[a] == old(self)@[a2]);
                        assert(self@[b] == old(self)@[b2]);
                    }
                }
                Some(v)
            },
            None => None,
        }
    }

    /// The keys and values, in order.
    pub fn iter(&self) -> (r: Vec<(&Value, &Value)>)
        ensures
            r@.len() == self@.len(),
            forall|i: int| 0 <= i < r@.len() ==> (value_view(*#[trigger] r@[i].0), value_view(*r@[i].1)) == self@[i],
    {
        proof {
            lemma_entries_view(self.entries@);
        }
        let mut r: Vec<(&Value, &Value)> = Vec::new();
        let mut i: usize = 0;
        while i < self.entries.len()
            invariant
                i <= self.entries@.len(),
                r@.len() == i,
                self@.len() == self.entries@.len(),
                forall|j: int| 0 <= j < self.entries@.len() ==> #[trigger] self@[j] == (value_view(self.entries@[j].0), value_view(self.entries@[j].1)),
                forall|j: int| 0 <= j < i ==> (value_view(*#[trigger] r@[j].0), value_view(*r@[j].1)) == self@[j],
            decreases self.entries.len() - i,
        {
            r.push((&self.entries[i].0, &self.entries[i].1));
            i = i + 1;
        }
        r
    }

    /// The keys, in order.
    pub fn keys(&self) -> (r: Vec<&Value>)
        ensures
            r@.len() == self@.len(),
            forall|i: int| 0 <= i < r@.len() ==> value_view(*#[trigger] r@[i]) == self@[i].0,
    {
        proof {
            lemma_entries_view(self.entries@);
        }
        let mut r: Vec<&Value> = Vec::new();
        let mut i: usize = 0;
        while i < self.entries.len()
            invariant
                i <= self.entries@.len(),
                r@.len() == i,
                self@.len() == self.entries@.len(),
                forall|j: int| 0 <= j < self.entries@.len() ==> #[trigger] self@[j] == (value_view(self.entries@[j].0), value_view(self.entries@[j].1)),
                forall|j: int| 0 <= j < i ==> value_view(*#[trigger] r@[j]) == self@[j].0,
            decreases self.entries.len() - i,
        {
            r.push(&self.entries[i].0);
            i = i + 1;
        }
        r
    }

    /// The values, in order.
    pub fn values(&self) -> (r: Vec<&Value>)
        ensures
            r@.len() == self@.len(),
            forall|i: int| 0 <= i < r@.len() ==> value_view(*#[trigger] r@[i]) == self@[i].1,
    {
        proof {
            lemma_entries_view(self.entries@);
        }
        let mut r: Vec<&Value> = Vec::new();
        let mut i: usize = 0;
        while i < self.entries.len()
            invariant
                i <= self.entries@.len(),
                r@.len() == i,
                self@.len() == self.entries@.len(),
                forall|j: int| 0 <= j < self.entries@.len() ==> #[trigger] self@[j] == (value_view(self.entries@[j].0), value_view(self.entries@[j].1)),
                forall|j: int| 0 <= j < i ==> value_view(*#[trigger] r@[j]) == self@[j].1,
            decreases self.entries.len() - i,
        {
            r.push(&self.entries[i].1);
            i = i + 1;
        }
        r
    }
}

} // verus!
