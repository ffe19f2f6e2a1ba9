//! Dynamic values, and the map that is keyed by them.
//!
//! The two are defined together because each contains the other: a map is a
//! value, and the keys and entries of a map are values.

use vstd::prelude::*;
use vstd::string::StringExecFns;
use crate::error::{Error, ErrorKind};
use crate::unicode::str_equal;
use crate::value::journey::{journey_dump, Journey};
use crate::value::numeral::{decimal, Numeral};
use crate::value::text::{quoted, Text};

verus! {

/// A value of the language.
#[derive(Debug)]
pub enum Value {
    Null,
    Veracity(bool),
    Numeral(Numeral),
    Text(Text),
    Book(Vec<Value>),
    Codex(Codex),
    Journey(Journey),
}

/// A map from values to values.
///
/// No two keys of a map are equal, where equality of values is `same`. The
/// entries are kept in the order in which their keys first came in; the
/// order has no bearing on what the map means.
#[derive(Debug)]
pub struct Codex {
    keys: Vec<Value>,
    values: Vec<Value>,
}

/// The entries that a row of keys and a row of values make: the first key
/// with the first value, and so on, as far as both rows go.
pub open spec fn paired(keys: Seq<Value>, values: Seq<Value>) -> Seq<(Value, Value)> {
    Seq::new(
        if keys.len() <= values.len() {
            keys.len()
        } else {
            values.len()
        },
        |i: int| (keys[i], values[i]),
    )
}

/// Whether two entries are alike: the same key and the same value.
pub open spec fn alike(x: (Value, Value), y: (Value, Value)) -> bool {
    same(x.0, y.0) && same(x.1, y.1)
}

/// Whether `e` has its like among `right`.
pub open spec fn has_like(e: (Value, Value), right: Seq<(Value, Value)>) -> bool {
    exists|j: int| 0 <= j < right.len() && #[trigger] alike(e, right[j])
}

/// Whether every entry of `left` has its like in `right`.
pub open spec fn covers(left: Seq<(Value, Value)>, right: Seq<(Value, Value)>) -> bool {
    forall|i: int| 0 <= i < left.len() ==> #[trigger] has_like(left[i], right)
}

/// Whether two rows of values are equal place by place.
pub open spec fn same_row(left: Seq<Value>, right: Seq<Value>) -> bool {
    left.len() == right.len() && forall|i: int|
        #![trigger left[i]]
        0 <= i < left.len() ==> same(left[i], right[i])
}

/// Whether entry `i` of the map `a` has its like among the first `n`
/// entries of `right`.
closed spec fn among(a: Value, i: int, right: Seq<(Value, Value)>, n: nat) -> bool
    decreases a, 0nat, n,
{
    a matches Value::Codex(x) && 0 <= i < x.keys@.len() && i < x.values@.len() && n > 0 && n
        <= right.len() && ((same(x.keys@[i], right[n - 1].0) && same(
        x.values@[i],
        right[n - 1].1,
    )) || among(a, i, right, (n - 1) as nat))
}

/// Whether one of the first `n` entries of the map `a` has its like in `e`.
closed spec fn holds(a: Value, e: (Value, Value), n: nat) -> bool
    decreases a, 0nat, n,
{
    a matches Value::Codex(x) && n > 0 && n <= x.keys@.len() && n <= x.values@.len() && ((same(
        x.keys@[n - 1],
        e.0,
    ) && same(x.values@[n - 1], e.1)) || holds(a, e, (n - 1) as nat))
}

/// Whether each of the first `m` entries of the map `a` has its like in
/// `right`.
closed spec fn each_among(a: Value, right: Seq<(Value, Value)>, m: nat) -> bool
    decreases a, 1nat, m,
{
    m == 0 || (each_among(a, right, (m - 1) as nat) && among(a, m - 1, right, right.len()))
}

/// Whether each of the first `m` entries of `right` is the like of an entry
/// among the first `count` of the map `a`.
closed spec fn each_held(a: Value, right: Seq<(Value, Value)>, count: nat, m: nat) -> bool
    decreases a, 1nat, m,
{
    m == 0 || (m <= right.len() && each_held(a, right, count, (m - 1) as nat) && holds(
        a,
        right[m - 1],
        count,
    ))
}

/// Equality of values.
///
/// Values of different sorts are never equal. Numerals, texts and truth
/// values are equal when they hold the same; lists when they are equal
/// place by place; maps when each entry of either has its like in the
/// other, in whatever order; closures when they are the same instance.
/// `lemma_same_unfold` states this in full.
pub closed spec fn same(a: Value, b: Value) -> bool
    decreases a, 2nat, 0nat,
{
    match a {
        Value::Null => b is Null,
        Value::Veracity(x) => b matches Value::Veracity(y) && x == y,
        Value::Numeral(x) => b matches Value::Numeral(y) && x@ == y@,
        Value::Text(x) => b matches Value::Text(y) && x@ == y@,
        Value::Book(x) => b matches Value::Book(y) && x@.len() == y@.len() && forall|i: int|
            #![trigger x@[i]]
            0 <= i < x@.len() ==> same(x@[i], y@[i]),
        Value::Codex(x) => match b {
            Value::Codex(y) => each_among(a, y.entries(), x.entries().len()) && each_held(
                a,
                y.entries(),
                x.entries().len(),
                y.entries().len(),
            ),
            _ => false,
        },
        Value::Journey(x) => b matches Value::Journey(y) && x.identity() == y.identity(),
    }
}

/// Whether some entry of `left` has its like in `e`.
spec fn like_held(left: Seq<(Value, Value)>, e: (Value, Value)) -> bool {
    exists|i: int| 0 <= i < left.len() && #[trigger] alike(left[i], e)
}

/// Whether every entry of `right` is the like of an entry of `left`.
spec fn covered(left: Seq<(Value, Value)>, right: Seq<(Value, Value)>) -> bool {
    forall|j: int| 0 <= j < right.len() ==> #[trigger] like_held(left, right[j])
}

/// `among` says that a like entry exists.
proof fn lemma_among(x: Codex, i: int, right: Seq<(Value, Value)>, n: nat)
    requires
        0 <= i < x.entries().len(),
        n <= right.len(),
    ensures
        among(Value::Codex(x), i, right, n) <==> has_like(x.entries()[i], right.take(n as int)),
    decreases n,
{
    let a = Value::Codex(x);
    let e = x.entries()[i];
    let now = right.take(n as int);
    assert(a matches Value::Codex(c) && c == x);
    assert(e == (x.keys@[i], x.values@[i]));
    if n > 0 {
        let before = right.take(n - 1);
        lemma_among(x, i, right, (n - 1) as nat);
        if among(a, i, right, n) {
            if alike(e, right[n - 1]) {
                assert(alike(e, now[n - 1]));
            } else {
                let j = choose|j: int| 0 <= j < before.len() && #[trigger] alike(e, before[j]);
                assert(alike(e, now[j]));
            }
        }
        if has_like(e, now) {
            let j = choose|j: int| 0 <= j < now.len() && #[trigger] alike(e, now[j]);
            if j < n - 1 {
                assert(alike(e, before[j]));
            }
        }
    }
}

/// `holds` says that a like entry exists.
proof fn lemma_holds(x: Codex, e: (Value, Value), n: nat)
    requires
        n <= x.entries().len(),
    ensures
        holds(Value::Codex(x), e, n) <==> like_held(x.entries().take(n as int), e),
    decreases n,
{
    let a = Value::Codex(x);
    let left = x.entries();
    let now = left.take(n as int);
    assert(a matches Value::Codex(c) && c == x);
    if n > 0 {
        let before = left.take(n - 1);
        assert(left[n - 1] == (x.keys@[n - 1], x.values@[n - 1]));
        lemma_holds(x, e, (n - 1) as nat);
        if holds(a, e, n) {
            if alike(left[n - 1], e) {
                assert(alike(now[n - 1], e));
            } else {
                let i = choose|i: int| 0 <= i < before.len() && #[trigger] alike(before[i], e);
                assert(alike(now[i], e));
            }
        }
        if like_held(now, e) {
            let i = choose|i: int| 0 <= i < now.len() && #[trigger] alike(now[i], e);
            if i < n - 1 {
                assert(alike(before[i], e));
            }
        }
    }
}

/// `each_among` says that each entry has its like.
proof fn lemma_each_among(x: Codex, right: Seq<(Value, Value)>, m: nat)
    requires
        m <= x.entries().len(),
    ensures
        each_among(Value::Codex(x), right, m) <==> forall|i: int|
            0 <= i < m ==> #[trigger] has_like(x.entries()[i], right),
    decreases m,
{
    if m > 0 {
        lemma_each_among(x, right, (m - 1) as nat);
        lemma_among(x, m - 1, right, right.len());
        assert(right.take(right.len() as int) =~= right);
    }
}

/// `each_held` says that each entry is the like of one.
proof fn lemma_each_held(x: Codex, right: Seq<(Value, Value)>, m: nat)
    requires
        m <= right.len(),
    ensures
        each_held(Value::Codex(x), right, x.entries().len(), m) <==> forall|j: int|
            0 <= j < m ==> #[trigger] like_held(x.entries(), right[j]),
    decreases m,
{
    if m > 0 {
        lemma_each_held(x, right, (m - 1) as nat);
        lemma_holds(x, right[m - 1], x.entries().len());
        assert(x.entries().take(x.entries().len() as int) =~= x.entries());
    }
}

/// Equality of maps, with the quantifiers written out.
proof fn lemma_same_codex(x: Codex, y: Codex)
    ensures
        same(Value::Codex(x), Value::Codex(y)) <==> covers(x.entries(), y.entries()) && covered(
            x.entries(),
            y.entries(),
        ),
{
    let a = Value::Codex(x);
    let b = Value::Codex(y);
    assert(a matches Value::Codex(c) && c == x);
    assert(b matches Value::Codex(c) && c == y);
    lemma_each_among(x, y.entries(), x.entries().len());
    lemma_each_held(x, y.entries(), y.entries().len());
    assert(same(a, b) == (each_among(a, y.entries(), x.entries().len()) && each_held(
        a,
        y.entries(),
        x.entries().len(),
        y.entries().len(),
    )));
}

/// Every value equals itself.
pub proof fn lemma_same_reflexive(a: Value)
    ensures
        same(a, a),
    decreases a,
{
    match a {
        Value::Book(x) => {
            assert forall|i: int| #![trigger x@[i]] 0 <= i < x@.len() implies same(x@[i], x@[i]) by {
                lemma_same_reflexive(x@[i]);
            }
        },
        Value::Codex(x) => {
            let e = x.entries();
            lemma_same_codex(x, x);
            assert forall|i: int| 0 <= i < e.len() implies #[trigger] has_like(e[i], e) by {
                lemma_same_reflexive(e[i].0);
                lemma_same_reflexive(e[i].1);
                assert(alike(e[i], e[i]));
            }
            assert forall|i: int| 0 <= i < e.len() implies #[trigger] like_held(e, e[i]) by {
                lemma_same_reflexive(e[i].0);
                lemma_same_reflexive(e[i].1);
                assert(alike(e[i], e[i]));
            }
        },
        _ => {},
    }
}

/// Equality of values does not depend on the side.
pub proof fn lemma_same_symmetric(a: Value, b: Value)
    requires
        same(a, b),
    ensures
        same(b, a),
    decreases a,
{
    match a {
        Value::Book(x) => {
            let y = b->Book_0;
            assert forall|i: int| #![trigger y@[i]] 0 <= i < y@.len() implies same(y@[i], x@[i]) by {
                assert(same(x@[i], y@[i]));
                lemma_same_symmetric(x@[i], y@[i]);
            }
        },
        Value::Codex(x) => {
            let y = b->Codex_0;
            let l = x.entries();
            let r = y.entries();
            lemma_same_codex(x, y);
            lemma_same_codex(y, x);
            assert forall|j: int| 0 <= j < r.len() implies #[trigger] has_like(r[j], l) by {
                assert(like_held(l, r[j]));
                let i = choose|i: int| 0 <= i < l.len() && #[trigger] alike(l[i], r[j]);
                lemma_same_symmetric(l[i].0, r[j].0);
                lemma_same_symmetric(l[i].1, r[j].1);
                assert(alike(r[j], l[i]));
            }
            assert forall|i: int| 0 <= i < l.len() implies #[trigger] like_held(r, l[i]) by {
                assert(has_like(l[i], r));
                let j = choose|j: int| 0 <= j < r.len() && #[trigger] alike(l[i], r[j]);
                lemma_same_symmetric(l[i].0, r[j].0);
                lemma_same_symmetric(l[i].1, r[j].1);
                assert(alike(r[j], l[i]));
            }
        },
        _ => {},
    }
}

/// Values equal to one value are equal to each other.
pub proof fn lemma_same_transitive(a: Value, b: Value, c: Value)
    requires
        same(a, b),
        same(b, c),
    ensures
        same(a, c),
    decreases a,
{
    match a {
        Value::Book(x) => {
            let y = b->Book_0;
            let z = c->Book_0;
            assert forall|i: int| #![trigger x@[i]] 0 <= i < x@.len() implies same(x@[i], z@[i]) by {
                assert(same(x@[i], y@[i]) && same(y@[i], z@[i]));
                lemma_same_transitive(x@[i], y@[i], z@[i]);
            }
        },
        Value::Codex(x) => {
            let y = b->Codex_0;
            let z = c->Codex_0;
            let l = x.entries();
            let m = y.entries();
            let r = z.entries();
            lemma_same_codex(x, y);
            lemma_same_codex(y, z);
            lemma_same_codex(x, z);
            assert forall|i: int| 0 <= i < l.len() implies #[trigger] has_like(l[i], r) by {
                assert(has_like(l[i], m));
                let j = choose|j: int| 0 <= j < m.len() && #[trigger] alike(l[i], m[j]);
                assert(has_like(m[j], r));
                let k = choose|k: int| 0 <= k < r.len() && #[trigger] alike(m[j], r[k]);
                lemma_same_transitive(l[i].0, m[j].0, r[k].0);
                lemma_same_transitive(l[i].1, m[j].1, r[k].1);
                assert(alike(l[i], r[k]));
            }
            assert forall|k: int| 0 <= k < r.len() implies #[trigger] like_held(l, r[k]) by {
                assert(like_held(m, r[k]));
                let j = choose|j: int| 0 <= j < m.len() && #[trigger] alike(m[j], r[k]);
                assert(like_held(l, m[j]));
                let i = choose|i: int| 0 <= i < l.len() && #[trigger] alike(l[i], m[j]);
                lemma_same_transitive(l[i].0, m[j].0, r[k].0);
                lemma_same_transitive(l[i].1, m[j].1, r[k].1);
                assert(alike(l[i], r[k]));
            }
        },
        _ => {},
    }
}

/// Whether no two keys of `entries` are equal.
pub open spec fn distinct_keys(entries: Seq<(Value, Value)>) -> bool {
    forall|i: int, j: int|
        0 <= i < j < entries.len() ==> !same(#[trigger] entries[i].0, #[trigger] entries[j].0)
}

/// Whether no two of `keys` are equal.
pub open spec fn distinct(keys: Seq<Value>) -> bool {
    forall|i: int, j: int| 0 <= i < j < keys.len() ==> !same(#[trigger] keys[i], #[trigger] keys[j])
}

/// The keys of entries are distinct when the keys that they were paired
/// from are.
pub proof fn lemma_distinct_paired(keys: Seq<Value>, values: Seq<Value>)
    requires
        keys.len() == values.len(),
    ensures
        distinct(keys) <==> distinct_keys(paired(keys, values)),
{
    let entries = paired(keys, values);
    if distinct(keys) {
        assert forall|i: int, j: int| 0 <= i < j < entries.len() implies !same(
            #[trigger] entries[i].0,
            #[trigger] entries[j].0,
        ) by {
            assert(!same(keys[i], keys[j]));
        }
    }
    if distinct_keys(entries) {
        assert forall|i: int, j: int| 0 <= i < j < keys.len() implies !same(
            #[trigger] keys[i],
            #[trigger] keys[j],
        ) by {
            assert(!same(entries[i].0, entries[j].0));
        }
    }
}

/// The place of the first entry at or after `from` whose key equals `key`.
pub open spec fn find_from(entries: Seq<(Value, Value)>, key: Value, from: int) -> Option<int>
    decreases entries.len() - from,
{
    if from < 0 || from >= entries.len() {
        None
    } else if same(entries[from].0, key) {
        Some(from)
    } else {
        find_from(entries, key, from + 1)
    }
}

/// The place of the entry whose key equals `key`.
pub open spec fn find(entries: Seq<(Value, Value)>, key: Value) -> Option<int> {
    find_from(entries, key, 0)
}

/// The value that `entries` holds under `key`.
pub open spec fn lookup(entries: Seq<(Value, Value)>, key: Value) -> Option<Value> {
    match find(entries, key) {
        Some(i) => Some(entries[i].1),
        None => None,
    }
}

/// What `find_from` finds is the first match at or after `from`; when it
/// finds nothing, there is none.
pub proof fn lemma_find_from(entries: Seq<(Value, Value)>, key: Value, from: int)
    requires
        0 <= from,
    ensures
        match find_from(entries, key, from) {
            Some(i) => {
                &&& from <= i < entries.len()
                &&& same(entries[i].0, key)
                &&& forall|j: int| from <= j < i ==> !same(#[trigger] entries[j].0, key)
            },
            None => forall|j: int|
                from <= j < entries.len() ==> !same(#[trigger] entries[j].0, key),
        },
    decreases entries.len() - from,
{
    if from < entries.len() && !same(entries[from].0, key) {
        lemma_find_from(entries, key, from + 1);
    }
}

/// The first match is what `find` finds.
pub proof fn lemma_find_is(entries: Seq<(Value, Value)>, key: Value, from: int, i: int)
    requires
        0 <= from <= i < entries.len(),
        same(entries[i].0, key),
        forall|j: int| from <= j < i ==> !same(#[trigger] entries[j].0, key),
    ensures
        find_from(entries, key, from) == Some(i),
    decreases i - from,
{
    if from < i {
        assert(!same(entries[from].0, key));
        lemma_find_is(entries, key, from + 1, i);
    }
}

/// Without a match `find` finds nothing.
pub proof fn lemma_find_none(entries: Seq<(Value, Value)>, key: Value, from: int)
    requires
        0 <= from,
        forall|j: int| from <= j < entries.len() ==> !same(#[trigger] entries[j].0, key),
    ensures
        find_from(entries, key, from) is None,
    decreases entries.len() - from,
{
    if from < entries.len() {
        assert(!same(entries[from].0, key));
        lemma_find_none(entries, key, from + 1);
    }
}

/// Equal keys are found at the same place.
pub proof fn lemma_find_same_key(entries: Seq<(Value, Value)>, key: Value, other: Value)
    requires
        same(key, other),
    ensures
        find(entries, key) == find(entries, other),
{
    lemma_find_from(entries, key, 0);
    lemma_same_symmetric(key, other);
    match find(entries, key) {
        Some(i) => {
            lemma_same_transitive(entries[i].0, key, other);
            assert forall|j: int| 0 <= j < i implies !same(#[trigger] entries[j].0, other) by {
                if same(entries[j].0, other) {
                    lemma_same_transitive(entries[j].0, other, key);
                }
            }
            lemma_find_is(entries, other, 0, i);
        },
        None => {
            assert forall|j: int| 0 <= j < entries.len() implies !same(
                #[trigger] entries[j].0,
                other,
            ) by {
                if same(entries[j].0, other) {
                    lemma_same_transitive(entries[j].0, other, key);
                }
            }
            lemma_find_none(entries, other, 0);
        },
    }
}

/// Among distinct keys, a key that equals the key at place `i` is found
/// there.
pub proof fn lemma_find_distinct(entries: Seq<(Value, Value)>, key: Value, i: int)
    requires
        distinct_keys(entries),
        0 <= i < entries.len(),
        same(entries[i].0, key),
    ensures
        find(entries, key) == Some(i),
{
    assert forall|j: int| 0 <= j < i implies !same(#[trigger] entries[j].0, key) by {
        if same(entries[j].0, key) {
            lemma_same_symmetric(entries[i].0, key);
            lemma_same_transitive(entries[j].0, key, entries[i].0);
        }
    }
    lemma_find_is(entries, key, 0, i);
}

/// Among distinct keys, the value under a key is that of the entry whose
/// key equals it.
pub proof fn lemma_lookup_at(entries: Seq<(Value, Value)>, key: Value, i: int)
    requires
        distinct_keys(entries),
        0 <= i < entries.len(),
        same(entries[i].0, key),
    ensures
        lookup(entries, key) == Some(entries[i].1),
{
    lemma_find_distinct(entries, key, i);
}

/// No value is held under a key that equals none of the keys.
pub proof fn lemma_lookup_none(entries: Seq<(Value, Value)>, key: Value)
    requires
        forall|j: int| 0 <= j < entries.len() ==> !same(#[trigger] entries[j].0, key),
    ensures
        lookup(entries, key) is None,
{
    lemma_find_none(entries, key, 0);
}

/// What a lookup gives comes from an entry whose key equals the key asked
/// for; a lookup that gives nothing found no such entry.
pub proof fn lemma_lookup_is(entries: Seq<(Value, Value)>, key: Value)
    ensures
        match find(entries, key) {
            Some(i) => 0 <= i < entries.len() && same(entries[i].0, key) && lookup(entries, key)
                == Some(entries[i].1),
            None => lookup(entries, key) is None && forall|j: int|
                0 <= j < entries.len() ==> !same(#[trigger] entries[j].0, key),
        },
{
    lemma_find_from(entries, key, 0);
}

/// Putting a new entry in the place of one with an equal key changes the
/// value under that key and nothing else.
proof fn lemma_replace(entries: Seq<(Value, Value)>, i: int, key: Value, value: Value)
    requires
        distinct_keys(entries),
        0 <= i < entries.len(),
        same(entries[i].0, key),
    ensures
        distinct_keys(entries.update(i, (key, value))),
        forall|k: Value| #[trigger]
            lookup(entries.update(i, (key, value)), k) == (if same(key, k) {
                Some(value)
            } else {
                lookup(entries, k)
            }),
{
    let after = entries.update(i, (key, value));
    lemma_same_symmetric(entries[i].0, key);
    assert forall|a: int, b: int| 0 <= a < b < after.len() implies !same(
        #[trigger] after[a].0,
        #[trigger] after[b].0,
    ) by {
        if same(after[a].0, after[b].0) {
            if a == i {
                lemma_same_transitive(entries[i].0, key, entries[b].0);
                assert(same(entries[i].0, entries[b].0));
            } else if b == i {
                lemma_same_transitive(entries[a].0, key, entries[i].0);
                assert(same(entries[a].0, entries[i].0));
            } else {
                assert(same(entries[a].0, entries[b].0));
            }
        }
    }
    assert forall|k: Value| #[trigger]
        lookup(after, k) == (if same(key, k) {
            Some(value)
        } else {
            lookup(entries, k)
        }) by {
        if same(key, k) {
            lemma_lookup_at(after, k, i);
        } else {
            lemma_lookup_is(entries, k);
            match find(entries, k) {
                Some(j) => {
                    if j == i {
                        lemma_same_transitive(key, entries[i].0, k);
                    }
                    lemma_lookup_at(after, k, j);
                },
                None => {
                    assert forall|j: int| 0 <= j < after.len() implies !same(
                        #[trigger] after[j].0,
                        k,
                    ) by {
                        if j != i {
                            assert(!same(entries[j].0, k));
                        }
                    }
                    lemma_lookup_none(after, k);
                },
            }
        }
    }
}

/// Adding an entry under a key that equals none of the keys sets the value
/// under that key and changes nothing else.
proof fn lemma_append(entries: Seq<(Value, Value)>, key: Value, value: Value)
    requires
        distinct_keys(entries),
        find(entries, key) is None,
    ensures
        distinct_keys(entries.push((key, value))),
        forall|k: Value| #[trigger]
            lookup(entries.push((key, value)), k) == (if same(key, k) {
                Some(value)
            } else {
                lookup(entries, k)
            }),
{
    let after = entries.push((key, value));
    let n = entries.len() as int;
    lemma_lookup_is(entries, key);
    assert forall|a: int, b: int| 0 <= a < b < after.len() implies !same(
        #[trigger] after[a].0,
        #[trigger] after[b].0,
    ) by {
        if b == n {
            assert(!same(entries[a].0, key));
        } else {
            assert(!same(entries[a].0, entries[b].0));
        }
    }
    assert forall|k: Value| #[trigger]
        lookup(after, k) == (if same(key, k) {
            Some(value)
        } else {
            lookup(entries, k)
        }) by {
        if same(key, k) {
            lemma_lookup_at(after, k, n);
        } else {
            lemma_lookup_is(entries, k);
            match find(entries, k) {
                Some(j) => {
                    lemma_lookup_at(after, k, j);
                },
                None => {
                    assert forall|j: int| 0 <= j < after.len() implies !same(
                        #[trigger] after[j].0,
                        k,
                    ) by {
                        if j < n {
                            assert(!same(entries[j].0, k));
                        }
                    }
                    lemma_lookup_none(after, k);
                },
            }
        }
    }
}

/// Taking out the entry at place `i` leaves no value under its key and
/// changes nothing else.
proof fn lemma_take_out(entries: Seq<(Value, Value)>, i: int, key: Value)
    requires
        distinct_keys(entries),
        0 <= i < entries.len(),
        same(entries[i].0, key),
    ensures
        distinct_keys(entries.remove(i)),
        forall|k: Value| #[trigger]
            lookup(entries.remove(i), k) == (if same(key, k) {
                None
            } else {
                lookup(entries, k)
            }),
{
    let after = entries.remove(i);
    lemma_same_symmetric(entries[i].0, key);
    assert forall|a: int, b: int| 0 <= a < b < after.len() implies !same(
        #[trigger] after[a].0,
        #[trigger] after[b].0,
    ) by {
        let a0 = if a < i { a } else { a + 1 };
        let b0 = if b < i { b } else { b + 1 };
        assert(!same(entries[a0].0, entries[b0].0));
    }
    assert forall|k: Value| #[trigger]
        lookup(after, k) == (if same(key, k) {
            None
        } else {
            lookup(entries, k)
        }) by {
        lemma_lookup_is(entries, k);
        if same(key, k) {
            lemma_same_transitive(entries[i].0, key, k);
            lemma_find_distinct(entries, k, i);
            assert forall|j: int| 0 <= j < after.len() implies !same(#[trigger] after[j].0, k) by {
                let j0 = if j < i { j } else { j + 1 };
                if same(entries[j0].0, k) {
                    lemma_find_distinct(entries, k, j0);
                }
            }
            lemma_lookup_none(after, k);
        } else {
            match find(entries, k) {
                Some(j) => {
                    if j == i {
                        lemma_same_transitive(key, entries[i].0, k);
                    }
                    let j1 = if j < i { j } else { j - 1 };
                    assert(after[j1] == entries[j]);
                    lemma_lookup_at(after, k, j1);
                },
                None => {
                    assert forall|j: int| 0 <= j < after.len() implies !same(
                        #[trigger] after[j].0,
                        k,
                    ) by {
                        let j0 = if j < i { j } else { j + 1 };
                        assert(!same(entries[j0].0, k));
                    }
                    lemma_lookup_none(after, k);
                },
            }
        }
    }
}

impl Codex {
    /// The entries of the map, each a key with its value, in the order in
    /// which the keys came in.
    pub closed spec fn entries(&self) -> Seq<(Value, Value)> {
        paired(self.keys@, self.values@)
    }

    #[verifier::type_invariant]
    spec fn keys_are_distinct(&self) -> bool {
        self.keys@.len() == self.values@.len() && distinct(self.keys@)
    }

    /// The value that the map holds under `key`.
    pub open spec fn value_of(&self, key: Value) -> Option<Value> {
        lookup(self.entries(), key)
    }

    /// Whether the map holds a value under `key`.
    pub open spec fn has(&self, key: Value) -> bool {
        find(self.entries(), key) is Some
    }

    /// A map without entries.
    pub fn new() -> (codex: Codex)
        ensures
            codex.entries() == Seq::<(Value, Value)>::empty(),
    {
        Codex { keys: Vec::new(), values: Vec::new() }
    }

    /// A map without entries, with storage set aside for `capacity` of them.
    /// The capacity is a hint to the allocator: it has no bearing on what
    /// the map holds, which is all that the contract speaks of.
    pub fn with_capacity(capacity: usize) -> (codex: Codex)
        ensures
            codex.entries() == Seq::<(Value, Value)>::empty(),
    {
        Codex { keys: Vec::with_capacity(capacity), values: Vec::with_capacity(capacity) }
    }

    /// How many entries the map holds.
    pub fn len(&self) -> (count: usize)
        ensures
            count == self.entries().len(),
    {
        proof {
            use_type_invariant(self);
            lemma_distinct_paired(self.keys@, self.values@);
        }
        self.keys.len()
    }

    /// Whether the map holds no entry.
    pub fn is_empty(&self) -> (empty: bool)
        ensures
            empty == (self.entries().len() == 0),
    {
        proof {
            use_type_invariant(self);
            lemma_distinct_paired(self.keys@, self.values@);
        }
        self.keys.len() == 0
    }

    /// The entries of the map, each a key with its value. No two of the keys
    /// are equal.
    pub fn iter(&self) -> (entries: Vec<(&Value, &Value)>)
        ensures
            entries@.len() == self.entries().len(),
            forall|i: int|
                0 <= i < entries@.len() ==> (*(#[trigger] entries@[i]).0, *entries@[i].1)
                    == self.entries()[i],
            distinct_keys(self.entries()),
    {
        proof {
            use_type_invariant(self);
            lemma_distinct_paired(self.keys@, self.values@);
        }
        let mut entries: Vec<(&Value, &Value)> = Vec::new();
        let mut i: usize = 0;
        while i < self.keys.len()
            invariant
                i <= self.keys.len(),
                self.keys@.len() == self.values@.len(),
                entries@.len() == i,
                forall|k: int|
                    0 <= k < i ==> (*(#[trigger] entries@[k]).0, *entries@[k].1)
                        == self.entries()[k],
            decreases self.keys.len() - i,
        {
            entries.push((&self.keys[i], &self.values[i]));
            i += 1;
        }
        entries
    }

    /// Takes the keys and the values out of the map, which is left empty.
    fn take_parts(&mut self) -> (parts: (Vec<Value>, Vec<Value>))
        ensures
            parts.0@ == old(self).keys@,
            parts.1@ == old(self).values@,
            parts.0@.len() == parts.1@.len(),
            distinct_keys(paired(parts.0@, parts.1@)),
            final(self).entries() == Seq::<(Value, Value)>::empty(),
    {
        proof {
            use_type_invariant(&*self);
            lemma_distinct_paired(self.keys@, self.values@);
        }
        let mut taken = Codex::new();
        core::mem::swap(self, &mut taken);
        let Codex { keys, values } = taken;
        (keys, values)
    }

    /// Makes `keys` and `values` the keys and the values of the map.
    fn put_parts(&mut self, keys: Vec<Value>, values: Vec<Value>)
        requires
            keys@.len() == values@.len(),
            distinct_keys(paired(keys@, values@)),
        ensures
            final(self).entries() == paired(keys@, values@),
    {
        proof {
            lemma_distinct_paired(keys@, values@);
        }
        *self = Codex { keys, values };
    }

    /// The place of the entry under `key`.
    fn position(&self, key: &Value) -> (place: Option<usize>)
        ensures
            match place {
                Some(i) => find(self.entries(), *key) == Some(i as int) && i < self.entries().len(),
                None => find(self.entries(), *key) is None,
            },
    {
        proof {
            use_type_invariant(self);
            lemma_distinct_paired(self.keys@, self.values@);
        }
        let mut i: usize = 0;
        while i < self.keys.len()
            invariant
                i <= self.keys.len(),
                self.keys@.len() == self.values@.len(),
                find_from(self.entries(), *key, i as int) == find(self.entries(), *key),
            decreases self.keys.len() - i,
        {
            if self.keys[i].is_same(key) {
                return Some(i);
            }
            i += 1;
        }
        None
    }

    /// The value under `key`, if the map holds one.
    pub fn get(&self, key: &Value) -> (value: Option<&Value>)
        ensures
            match self.value_of(*key) {
                Some(held) => value matches Some(found) && *found == held,
                None => value is None,
            },
    {
        proof {
            use_type_invariant(self);
            lemma_distinct_paired(self.keys@, self.values@);
        }
        match self.position(key) {
            Some(i) => Some(&self.values[i]),
            None => None,
        }
    }

    /// Whether the map holds a value under `key`.
    pub fn contains_key(&self, key: &Value) -> (held: bool)
        ensures
            held == self.has(*key),
    {
        self.position(key).is_some()
    }

    /// The value under `key`, which the map must hold.
    pub fn index(&self, key: &Value) -> (value: &Value)
        requires
            self.has(*key),
        ensures
            self.value_of(*key) == Some(*value),
    {
        proof {
            use_type_invariant(self);
            lemma_distinct_paired(self.keys@, self.values@);
        }
        match self.position(key) {
            Some(i) => &self.values[i],
            None => vstd::pervasive::unreached(),
        }
    }

    /// Puts `value` under `key` and returns the value that was there
    /// before. The value under every other key stays. A key that the map
    /// did not hold comes last among the entries; one that it held keeps
    /// its place.
    pub fn insert(&mut self, key: Value, value: Value) -> (previous: Option<Value>)
        ensures
            previous == old(self).value_of(key),
            final(self).entries() == (match find(old(self).entries(), key) {
                Some(i) => old(self).entries().update(i, (key, value)),
                None => old(self).entries().push((key, value)),
            }),
            forall|k: Value| #[trigger]
                final(self).value_of(k) == (if same(key, k) {
                    Some(value)
                } else {
                    old(self).value_of(k)
                }),
            final(self).entries().len() == old(self).entries().len() + (if old(self).has(key) {
                0int
            } else {
                1int
            }),
    {
        proof {
            use_type_invariant(&*self);
            lemma_distinct_paired(self.keys@, self.values@);
        }
        match self.position(&key) {
            Some(i) => {
                let ghost before = self.entries();
                proof {
                    lemma_lookup_is(before, key);
                    lemma_replace(before, i as int, key, value);
                }
                let ghost new_entry = (key, value);
                let mut slot = value;
                let (mut keys, mut values) = self.take_parts();
                keys.set(i, key);
                values.set_and_swap(i, &mut slot);
                assert(paired(keys@, values@) =~= before.update(i as int, new_entry));
                self.put_parts(keys, values);
                Some(slot)
            },
            None => {
                let ghost before = self.entries();
                let ghost new_entry = (key, value);
                proof {
                    lemma_append(before, key, value);
                }
                let (mut keys, mut values) = self.take_parts();
                keys.push(key);
                values.push(value);
                assert(paired(keys@, values@) =~= before.push(new_entry));
                self.put_parts(keys, values);
                None
            },
        }
    }

    /// Takes out the entry under `key` and returns its value. The other
    /// entries stay, in their order.
    pub fn remove(&mut self, key: &Value) -> (previous: Option<Value>)
        ensures
            previous == old(self).value_of(*key),
            final(self).entries() == (match find(old(self).entries(), *key) {
                Some(i) => old(self).entries().remove(i),
                None => old(self).entries(),
            }),
            forall|k: Value| #[trigger]
                final(self).value_of(k) == (if same(*key, k) {
                    None
                } else {
                    old(self).value_of(k)
                }),
            final(self).entries().len() == old(self).entries().len() - (if old(self).has(*key) {
                1int
            } else {
                0int
            }),
    {
        proof {
            use_type_invariant(&*self);
            lemma_distinct_paired(self.keys@, self.values@);
        }
        match self.position(key) {
            Some(i) => {
                let ghost before = self.entries();
                proof {
                    lemma_lookup_is(before, *key);
                    lemma_take_out(before, i as int, *key);
                }
                let (mut keys, mut values) = self.take_parts();
                let _ = keys.remove(i);
                let value = values.remove(i);
                assert(paired(keys@, values@) =~= before.remove(i as int));
                self.put_parts(keys, values);
                Some(value)
            },
            None => {
                proof {
                    lemma_lookup_is(self.entries(), *key);
                    assert forall|k: Value| #[trigger]
                        self.value_of(k) == (if same(*key, k) {
                            None
                        } else {
                            self.value_of(k)
                        }) by {
                        if same(*key, k) {
                            lemma_find_same_key(self.entries(), *key, k);
                        }
                    }
                }
                None
            },
        }
    }

    /// The value under `key`, to be changed in place, if the map holds one.
    /// What is written through the result becomes the value under `key`;
    /// the keys and the other values stay as they are.
    pub fn get_mut(&mut self, key: &Value) -> (value: Option<&mut Value>)
        ensures
            match find(old(self).entries(), *key) {
                Some(i) => {
                    &&& value matches Some(found)
                    &&& *found == old(self).entries()[i].1
                    &&& final(self).entries() == old(self).entries().update(
                        i,
                        (old(self).entries()[i].0, *final(found)),
                    )
                },
                None => value is None && final(self).entries() == old(self).entries(),
            },
    {
        proof {
            use_type_invariant(&*self);
            lemma_distinct_paired(self.keys@, self.values@);
        }
        match self.position(key) {
            Some(i) => {
                let found = &mut self.values[i];
                proof {
                    assert(paired(old(self).keys@, old(self).values@.update(i as int, *final(found)))
                        =~= old(self).entries().update(
                        i as int,
                        (old(self).entries()[i as int].0, *final(found)),
                    ));
                }
                Some(found)
            },
            None => None,
        }
    }

    /// Whether the map is not empty: the truth value that a map converts
    /// to.
    pub fn convert(&self) -> (veracity: bool)
        ensures
            veracity == (self.entries().len() > 0),
    {
        proof {
            use_type_invariant(self);
            lemma_distinct_paired(self.keys@, self.values@);
        }
        self.keys.len() > 0
    }
}

impl Value {
    /// Whether two values are equal.
    pub fn is_same(&self, other: &Value) -> (equal: bool)
        ensures
            equal == same(*self, *other),
        decreases self,
    {
        match self {
            Value::Null => match other {
                Value::Null => true,
                _ => false,
            },
            Value::Veracity(x) => match other {
                Value::Veracity(y) => *x == *y,
                _ => false,
            },
            Value::Numeral(x) => match other {
                Value::Numeral(y) => x.value() == y.value(),
                _ => false,
            },
            Value::Text(x) => match other {
                Value::Text(y) => str_equal(x.as_str(), y.as_str()),
                _ => false,
            },
            Value::Book(x) => match other {
                Value::Book(y) => {
                    if x.len() != y.len() {
                        return false;
                    }
                    let mut i: usize = 0;
                    while i < x.len()
                        invariant
                            i <= x.len(),
                            x.len() == y.len(),
                            self matches Value::Book(items) && items == x,
                            other matches Value::Book(items) && items == y,
                            forall|k: int| #![trigger x@[k]] 0 <= k < i ==> same(x@[k], y@[k]),
                        decreases x.len() - i,
                    {
                        proof {
                            assert(decreases_to!(self => x));
                            assert(decreases_to!(x => x[i as int]));
                        }
                        if !x[i].is_same(&y[i]) {
                            assert(!same(x@[i as int], y@[i as int]));
                            return false;
                        }
                        i += 1;
                    }
                    true
                },
                _ => false,
            },
            Value::Codex(x) => match other {
                Value::Codex(y) => x.is_same_map(y),
                _ => false,
            },
            Value::Journey(x) => match other {
                Value::Journey(y) => x.same_instance(y),
                _ => false,
            },
        }
    }
}

impl Codex {
    /// Whether two maps are equal: whether each entry of either has its
    /// like in the other.
    pub fn is_same_map(&self, other: &Codex) -> (equal: bool)
        ensures
            equal == same(Value::Codex(*self), Value::Codex(*other)),
        decreases self,
    {
        let ghost l = self.entries();
        let ghost r = other.entries();
        proof {
            use_type_invariant(self);
            lemma_distinct_paired(self.keys@, self.values@);
            use_type_invariant(other);
            lemma_distinct_paired(other.keys@, other.values@);
        }
        proof {
            lemma_same_codex(*self, *other);
        }
        let mut i: usize = 0;
        while i < self.keys.len()
            invariant
                i <= self.keys.len(),
                l == self.entries(),
            self.keys@.len() == self.values@.len(),
            other.keys@.len() == other.values@.len(),
                r == other.entries(),
                        same(Value::Codex(*self), Value::Codex(*other)) <==> covers(l, r) && covered(l, r),
                forall|k: int| 0 <= k < i ==> #[trigger] has_like(l[k], r),
            decreases self.keys.len() - i,
        {
            let mut found = false;
            let mut j: usize = 0;
            while j < other.keys.len() && !found
                invariant
                    j <= other.keys.len(),
                    i < self.keys.len(),
                    l == self.entries(),
            self.keys@.len() == self.values@.len(),
            other.keys@.len() == other.values@.len(),
                    r == other.entries(),
                                found ==> has_like(l[i as int], r),
                    !found ==> forall|k: int| 0 <= k < j ==> !#[trigger] alike(
                        l[i as int],
                        r[k],
                    ),
                decreases other.keys.len() - j + (if found { 0int } else { 1int }),
            {
                proof {
                                assert(decreases_to!(self => self.keys));
                    assert(decreases_to!(self.keys => self.keys[i as int]));
                    assert(decreases_to!(self => self.values));
                    assert(decreases_to!(self.values => self.values[i as int]));
                }
                if self.keys[i].is_same(&other.keys[j]) && self.values[i].is_same(
                    &other.values[j],
                ) {
                    assert(alike(l[i as int], r[j as int]));
                    found = true;
                } else {
                    j += 1;
                }
            }
            if !found {
                assert(!has_like(l[i as int], r));
                return false;
            }
            i += 1;
        }
        assert(covers(l, r));
        let mut j: usize = 0;
        while j < other.keys.len()
            invariant
                j <= other.keys.len(),
                l == self.entries(),
            self.keys@.len() == self.values@.len(),
            other.keys@.len() == other.values@.len(),
                r == other.entries(),
                        same(Value::Codex(*self), Value::Codex(*other)) <==> covers(l, r) && covered(l, r),
                covers(l, r),
                forall|k: int| 0 <= k < j ==> #[trigger] like_held(l, r[k]),
            decreases other.keys.len() - j,
        {
            let mut found = false;
            let mut i: usize = 0;
            while i < self.keys.len() && !found
                invariant
                    i <= self.keys.len(),
                    j < other.keys.len(),
                    l == self.entries(),
            self.keys@.len() == self.values@.len(),
            other.keys@.len() == other.values@.len(),
                    r == other.entries(),
                                found ==> like_held(l, r[j as int]),
                    !found ==> forall|k: int| 0 <= k < i ==> !#[trigger] alike(
                        l[k],
                        r[j as int],
                    ),
                decreases self.keys.len() - i + (if found { 0int } else { 1int }),
            {
                proof {
                                assert(decreases_to!(self => self.keys));
                    assert(decreases_to!(self.keys => self.keys[i as int]));
                    assert(decreases_to!(self => self.values));
                    assert(decreases_to!(self.values => self.values[i as int]));
                }
                if self.keys[i].is_same(&other.keys[j]) && self.values[i].is_same(
                    &other.values[j],
                ) {
                    assert(alike(l[i as int], r[j as int]));
                    found = true;
                } else {
                    i += 1;
                }
            }
            if !found {
                assert(!like_held(l, r[j as int]));
                return false;
            }
            j += 1;
        }
        assert(covered(l, r));
        true
    }
}

/// How the first `n` of `items` are written out in a row: one after the
/// other, with a comma and a space between two.
pub open spec fn row_dump(items: Seq<Value>, n: nat) -> Seq<char>
    decreases items, 0nat, n,
{
    if n == 0 || n > items.len() {
        Seq::empty()
    } else if n == 1 {
        value_dump(items[0])
    } else {
        row_dump(items, (n - 1) as nat) + ", "@ + value_dump(items[n - 1])
    }
}

/// How the first `n` entries of the map `v` are written out in a row; see
/// `entries_dump`, which says the same of a row of entries.
pub closed spec fn map_dump(v: Value, n: nat) -> Seq<char>
    decreases v, 0nat, n,
{
    match v {
        Value::Codex(codex) => if 0 < n <= codex.keys@.len() && n <= codex.values@.len() {
            if n == 1 {
                value_dump(codex.keys@[0]) + ": "@ + value_dump(codex.values@[0])
            } else {
                map_dump(v, (n - 1) as nat) + ", "@ + value_dump(codex.keys@[n - 1]) + ": "@
                    + value_dump(codex.values@[n - 1])
            }
        } else {
            Seq::empty()
        },
        _ => Seq::empty(),
    }
}

/// How the first `n` of `entries` are written out in a row: each as its
/// key, a colon, a space and its value, with a comma and a space between
/// two entries.
pub open spec fn entries_dump(entries: Seq<(Value, Value)>, n: nat) -> Seq<char>
    decreases n,
{
    if n == 0 || n > entries.len() {
        Seq::empty()
    } else if n == 1 {
        value_dump(entries[0].0) + ": "@ + value_dump(entries[0].1)
    } else {
        entries_dump(entries, (n - 1) as nat) + ", "@ + value_dump(entries[n - 1].0) + ": "@
            + value_dump(entries[n - 1].1)
    }
}

/// How a value is written out.
///
/// Null is `ni`, the truth values are `yay` and `nay`, a numeral is written
/// in base ten, a text as a double-quoted literal, a list as its items in
/// square brackets, a map as its entries in curly brackets, and a closure
/// as `Journey(name: number)`.
pub open spec fn value_dump(v: Value) -> Seq<char>
    decreases v, 1nat, 0nat,
{
    match v {
        Value::Null => "ni"@,
        Value::Veracity(b) => if b {
            "yay"@
        } else {
            "nay"@
        },
        Value::Numeral(n) => decimal(n@),
        Value::Text(text) => quoted(text@),
        Value::Book(items) => "["@ + row_dump(items@, items@.len()) + "]"@,
        Value::Codex(codex) => "{"@ + map_dump(v, codex.entries().len()) + "}"@,
        Value::Journey(journey) => journey_dump(journey.name_view(), journey.identity() as nat),
    }
}

impl Value {
    /// Writes the value out at the end of `to`.
    pub fn dump(&self, to: &mut String)
        ensures
            final(to)@ == old(to)@ + value_dump(*self),
        decreases self,
    {
        match self {
            Value::Null => {
                to.append("ni");
            },
            Value::Veracity(b) => {
                if *b {
                    to.append("yay");
                } else {
                    to.append("nay");
                }
            },
            Value::Numeral(n) => {
                n.dump(to);
            },
            Value::Text(text) => {
                text.dump(to);
            },
            Value::Book(items) => {
                let ghost start = to@;
                to.append("[");
                let mut i: usize = 0;
                assert(to@ =~= start + "["@ + row_dump(items@, 0));
                while i < items.len()
                    invariant
                        i <= items.len(),
                        self matches Value::Book(held) && held == items,
                        to@ == start + "["@ + row_dump(items@, i as nat),
                    decreases items.len() - i,
                {
                    let ghost before = to@;
                    if i > 0 {
                        to.append(", ");
                    }
                    proof {
                        assert(decreases_to!(self => items));
                        assert(decreases_to!(items => items[i as int]));
                    }
                    items[i].dump(to);
                    i += 1;
                    assert(to@ =~= start + "["@ + row_dump(items@, i as nat)) by {
                        if i > 1 {
                            assert(to@ =~= before + ", "@ + value_dump(items@[i - 1]));
                        }
                    }
                }
                to.append("]");
                assert(to@ =~= start + value_dump(*self));
            },
            Value::Codex(codex) => {
                codex.dump(to);
            },
            Value::Journey(journey) => {
                journey.dump(to);
            },
        }
    }
}

impl Codex {
    /// Writes the map out at the end of `to`: its entries in curly brackets,
    /// each as key, colon, space and value, with a comma and a space between
    /// two entries.
    pub fn dump(&self, to: &mut String)
        ensures
            final(to)@ == old(to)@ + value_dump(Value::Codex(*self)),
            value_dump(Value::Codex(*self)) == "{"@ + entries_dump(
                self.entries(),
                self.entries().len(),
            ) + "}"@,
        decreases self,
    {
        proof {
            use_type_invariant(self);
            lemma_distinct_paired(self.keys@, self.values@);
            lemma_map_dump(*self, self.entries().len());
        }
        let ghost start = to@;
        let ghost whole = Value::Codex(*self);
        to.append("{");
        let mut i: usize = 0;
        assert(to@ =~= start + "{"@ + map_dump(whole, 0));
        while i < self.keys.len()
            invariant
                i <= self.keys.len(),
                self.keys@.len() == self.values@.len(),
                whole == Value::Codex(*self),
                to@ == start + "{"@ + map_dump(whole, i as nat),
            decreases self.keys.len() - i,
        {
            let ghost before = to@;
            if i > 0 {
                to.append(", ");
            }
            proof {
                assert(decreases_to!(self => self.keys));
                assert(decreases_to!(self.keys => self.keys[i as int]));
                assert(decreases_to!(self => self.values));
                assert(decreases_to!(self.values => self.values[i as int]));
            }
            let ghost middle = to@;
            self.keys[i].dump(to);
            to.append(": ");
            self.values[i].dump(to);
            i += 1;
            assert(to@ =~= start + "{"@ + map_dump(whole, i as nat)) by {
                assert(whole matches Value::Codex(c) && c == *self);
                assert(to@ =~= middle + value_dump(self.keys@[i - 1]) + ": "@ + value_dump(
                    self.values@[i - 1],
                ));
                if i > 1 {
                    assert(middle =~= before + ", "@);
                }
            }
        }
        to.append("}");
        assert(to@ =~= start + value_dump(Value::Codex(*self)));
    }
}

/// A map is written out as its entries are.
pub proof fn lemma_map_dump(codex: Codex, n: nat)
    requires
        n <= codex.entries().len(),
    ensures
        map_dump(Value::Codex(codex), n) == entries_dump(codex.entries(), n),
    decreases n,
{
    let v = Value::Codex(codex);
    assert(v matches Value::Codex(c) && c == codex);
    if n > 0 {
        lemma_map_dump(codex, (n - 1) as nat);
        assert(codex.entries()[n - 1] == (codex.keys@[n - 1], codex.values@[n - 1]));
        assert(codex.entries()[0] == (codex.keys@[0], codex.values@[0]));
    }
}

/// The value of the last of `pairs` whose key equals `key`.
pub open spec fn last_under(pairs: Seq<(Value, Value)>, key: Value) -> Option<Value>
    decreases pairs.len(),
{
    if pairs.len() == 0 {
        None
    } else if same(pairs.last().0, key) {
        Some(pairs.last().1)
    } else {
        last_under(pairs.drop_last(), key)
    }
}

/// The value under `key` once `pairs` are put, one after the other, into a
/// map that held `base` under `key`: later pairs override earlier ones, and
/// the pairs override the map.
pub open spec fn overlaid(base: Option<Value>, pairs: Seq<(Value, Value)>, key: Value) -> Option<
    Value,
> {
    match last_under(pairs, key) {
        Some(value) => Some(value),
        None => base,
    }
}

/// The entries once `value` is put under `key`: in the place of the entry
/// with an equal key if there is one, else at the end.
pub open spec fn put(entries: Seq<(Value, Value)>, key: Value, value: Value) -> Seq<
    (Value, Value),
> {
    match find(entries, key) {
        Some(i) => entries.update(i, (key, value)),
        None => entries.push((key, value)),
    }
}

/// The entries once each of `pairs` is put into them, in order.
pub open spec fn put_all(entries: Seq<(Value, Value)>, pairs: Seq<(Value, Value)>) -> Seq<
    (Value, Value),
>
    decreases pairs.len(),
{
    if pairs.len() == 0 {
        entries
    } else {
        put(put_all(entries, pairs.drop_last()), pairs.last().0, pairs.last().1)
    }
}

/// Whether one of `keys` equals `key`.
pub open spec fn listed(keys: Seq<Value>, key: Value) -> bool {
    exists|i: int| 0 <= i < keys.len() && same(#[trigger] keys[i], key)
}

impl Codex {
    /// Puts each of `pairs` into the map, in order. A pair overrides what
    /// the map held under its key, and a later pair overrides an earlier
    /// one.
    pub fn extend(&mut self, pairs: Vec<(Value, Value)>)
        ensures
            final(self).entries() == put_all(old(self).entries(), pairs@),
            forall|k: Value| #[trigger]
                final(self).value_of(k) == overlaid(old(self).value_of(k), pairs@, k),
    {
        let ghost all = pairs@;
        let mut pairs = pairs;
        let mut stack: Vec<(Value, Value)> = Vec::new();
        assert(all =~= pairs@ + stack@.reverse());
        while pairs.len() > 0
            invariant
                all == pairs@ + stack@.reverse(),
            decreases pairs.len(),
        {
            let ghost front = pairs@;
            let ghost back = stack@;
            match pairs.pop() {
                Some(pair) => {
                    stack.push(pair);
                    assert(front =~= pairs@.push(pair));
                    assert(stack@.reverse() =~= seq![pair] + back.reverse());
                    assert(all =~= pairs@ + stack@.reverse());
                },
                None => {},
            }
        }
        let ghost done = Seq::<(Value, Value)>::empty();
        assert(done + stack@.reverse() =~= all);
        while stack.len() > 0
            invariant
                done + stack@.reverse() == all,
                self.entries() == put_all(old(self).entries(), done),
                forall|k: Value| #[trigger]
                    self.value_of(k) == overlaid(old(self).value_of(k), done, k),
            decreases stack.len(),
        {
            let ghost before = *self;
            let ghost unread = stack@;
            match stack.pop() {
                Some(pair) => {
                    self.insert(pair.0, pair.1);
                    proof {
                        let longer = done.push(pair);
                        assert(longer.drop_last() =~= done);
                        assert forall|k: Value| #[trigger]
                            self.value_of(k) == overlaid(old(self).value_of(k), longer, k) by {
                            assert(before.value_of(k) == overlaid(old(self).value_of(k), done, k));
                        }
                        assert(unread.reverse() =~= seq![pair] + stack@.reverse());
                        assert(longer + stack@.reverse() =~= done + unread.reverse());
                        done = longer;
                    }
                },
                None => {},
            }
        }
        assert(done =~= all);
    }

    /// The map that holds `pairs`: a later pair overrides an earlier one
    /// with an equal key.
    pub fn from_iter(pairs: Vec<(Value, Value)>) -> (codex: Codex)
        ensures
            codex.entries() == put_all(Seq::empty(), pairs@),
            forall|k: Value| #[trigger] codex.value_of(k) == last_under(pairs@, k),
    {
        let mut codex = Codex::new();
        proof {
            assert forall|k: Value| codex.value_of(k) is None by {
                lemma_lookup_none(codex.entries(), k);
            }
        }
        codex.extend(pairs);
        proof {
            assert forall|k: Value| #[trigger] codex.value_of(k) == last_under(pairs@, k) by {
                assert(codex.value_of(k) == overlaid(None, pairs@, k));
            }
        }
        codex
    }

    /// The union of this map with `rhs`: the map that holds the pairs of
    /// `rhs`, a later one overriding an earlier one, and under every other
    /// key what this map holds.
    pub fn add(self, rhs: Vec<(Value, Value)>) -> (sum: Codex)
        ensures
            sum.entries() == put_all(self.entries(), rhs@),
            forall|k: Value| #[trigger] sum.value_of(k) == overlaid(self.value_of(k), rhs@, k),
    {
        let mut sum = self;
        sum.extend(rhs);
        sum
    }

    /// The entries of the map, leaving it. No two of their keys are equal.
    pub fn into_iter(self) -> (entries: Vec<(Value, Value)>)
        ensures
            entries@ == self.entries(),
            distinct_keys(entries@),
    {
        proof {
            use_type_invariant(&self);
            lemma_distinct_paired(self.keys@, self.values@);
        }
        let ghost all = self.entries();
        let Codex { keys, values } = self;
        let mut keys = keys;
        let mut values = values;
        let mut stack: Vec<(Value, Value)> = Vec::new();
        assert(all =~= paired(keys@, values@) + stack@.reverse());
        while keys.len() > 0
            invariant
                keys@.len() == values@.len(),
                all == paired(keys@, values@) + stack@.reverse(),
            decreases keys.len(),
        {
            let ghost front = paired(keys@, values@);
            let ghost back = stack@;
            let key = keys.pop();
            let value = values.pop();
            match (key, value) {
                (Some(key), Some(value)) => {
                    stack.push((key, value));
                    assert(front =~= paired(keys@, values@).push((key, value)));
                    assert(stack@.reverse() =~= seq![(key, value)] + back.reverse());
                    assert(all =~= paired(keys@, values@) + stack@.reverse());
                },
                _ => {},
            }
        }
        assert(paired(keys@, values@) =~= Seq::<(Value, Value)>::empty());
        let mut entries: Vec<(Value, Value)> = Vec::new();
        assert(entries@ + stack@.reverse() =~= all);
        while stack.len() > 0
            invariant
                entries@ + stack@.reverse() == all,
            decreases stack.len(),
        {
            let ghost unread = stack@;
            let ghost done = entries@;
            match stack.pop() {
                Some(entry) => {
                    entries.push(entry);
                    assert(unread.reverse() =~= seq![entry] + stack@.reverse());
                    assert(entries@ + stack@.reverse() =~= done + unread.reverse());
                },
                None => {},
            }
        }
        assert(entries@ =~= all);
        entries
    }
}

/// Whether one of `keys` equals `key`.
pub fn is_listed(keys: &Vec<Value>, key: &Value) -> (found: bool)
    ensures
        found == listed(keys@, *key),
{
    let mut i: usize = 0;
    while i < keys.len()
        invariant
            i <= keys.len(),
            forall|j: int| 0 <= j < i ==> !same(#[trigger] keys@[j], *key),
        decreases keys.len() - i,
    {
        if keys[i].is_same(key) {
            return true;
        }
        i += 1;
    }
    false
}

/// A map whose entries are like those of another, place by place, is equal
/// to it.
proof fn lemma_same_pointwise(x: Codex, y: Codex)
    requires
        x.entries().len() == y.entries().len(),
        forall|i: int| 0 <= i < x.entries().len() ==> #[trigger] alike(x.entries()[i], y.entries()[i]),
    ensures
        same(Value::Codex(x), Value::Codex(y)),
{
    let l = x.entries();
    let r = y.entries();
    lemma_same_codex(x, y);
    assert forall|i: int| 0 <= i < l.len() implies #[trigger] has_like(l[i], r) by {
        assert(alike(l[i], r[i]));
    }
    assert forall|j: int| 0 <= j < r.len() implies #[trigger] like_held(l, r[j]) by {
        assert(alike(l[j], r[j]));
    }
}

/// Entries that are like entries with distinct keys, place by place, have
/// distinct keys.
proof fn lemma_distinct_alike(l: Seq<(Value, Value)>, r: Seq<(Value, Value)>)
    requires
        distinct_keys(l),
        l.len() == r.len(),
        forall|i: int| 0 <= i < l.len() ==> #[trigger] alike(l[i], r[i]),
    ensures
        distinct_keys(r),
{
    assert forall|a: int, b: int| 0 <= a < b < r.len() implies !same(
        #[trigger] r[a].0,
        #[trigger] r[b].0,
    ) by {
        if same(r[a].0, r[b].0) {
            assert(alike(l[a], r[a]));
            assert(alike(l[b], r[b]));
            lemma_same_transitive(l[a].0, r[a].0, r[b].0);
            lemma_same_symmetric(l[b].0, r[b].0);
            lemma_same_transitive(l[a].0, r[b].0, l[b].0);
            assert(same(l[a].0, l[b].0));
        }
    }
}

impl Clone for Value {
    /// A value equal to this one. A closure is shared, not copied.
    fn clone(&self) -> (copy: Value)
        ensures
            same(*self, copy),
        decreases self,
    {
        match self {
            Value::Null => Value::Null,
            Value::Veracity(b) => Value::Veracity(*b),
            Value::Numeral(n) => Value::Numeral(*n),
            Value::Text(text) => Value::Text(text.clone()),
            Value::Book(items) => {
                let mut copy: Vec<Value> = Vec::new();
                let mut i: usize = 0;
                while i < items.len()
                    invariant
                        i <= items.len(),
                        copy.len() == i,
                        self matches Value::Book(held) && held == items,
                        forall|k: int| #![trigger items@[k]] 0 <= k < i ==> same(items@[k], copy@[k]),
                    decreases items.len() - i,
                {
                    proof {
                        assert(decreases_to!(self => items));
                        assert(decreases_to!(items => items[i as int]));
                    }
                    let item = items[i].clone();
                    copy.push(item);
                    i += 1;
                }
                Value::Book(copy)
            },
            Value::Codex(codex) => {
                let copy = codex.clone();
                proof {
                    lemma_same_pointwise(*codex, copy);
                }
                Value::Codex(copy)
            },
            Value::Journey(journey) => Value::Journey(journey.clone()),
        }
    }
}

impl Clone for Codex {
    /// A map with entries like those of this one, in the same order.
    fn clone(&self) -> (copy: Codex)
        ensures
            copy.entries().len() == self.entries().len(),
            forall|i: int|
                0 <= i < self.entries().len() ==> #[trigger] alike(
                    self.entries()[i],
                    copy.entries()[i],
                ),
        decreases self,
    {
        proof {
            use_type_invariant(self);
            lemma_distinct_paired(self.keys@, self.values@);
        }
        let mut keys: Vec<Value> = Vec::new();
        let mut values: Vec<Value> = Vec::new();
        let mut i: usize = 0;
        while i < self.keys.len()
            invariant
                i <= self.keys.len(),
                self.keys@.len() == self.values@.len(),
                keys.len() == i,
                values.len() == i,
                forall|k: int|
                    0 <= k < i ==> #[trigger] alike(self.entries()[k], paired(keys@, values@)[k]),
            decreases self.keys.len() - i,
        {
            proof {
                assert(decreases_to!(self => self.keys));
                assert(decreases_to!(self.keys => self.keys[i as int]));
                assert(decreases_to!(self => self.values));
                assert(decreases_to!(self.values => self.values[i as int]));
            }
            let ghost before = paired(keys@, values@);
            let key = self.keys[i].clone();
            let value = self.values[i].clone();
            keys.push(key);
            values.push(value);
            assert(paired(keys@, values@) =~= before.push((key, value)));
            i += 1;
        }
        proof {
            lemma_distinct_alike(self.entries(), paired(keys@, values@));
            lemma_distinct_paired(keys@, values@);
        }
        Codex { keys, values }
    }
}

impl Codex {
    /// The difference of this map and `rhs`: the map without the entries
    /// whose keys are among `rhs`. The entries that stay keep their order.
    pub fn sub(self, rhs: &Vec<Value>) -> (difference: Codex)
        ensures
            difference.entries() == self.entries().filter(
                |e: (Value, Value)| !listed(rhs@, e.0),
            ),
            forall|k: Value| #[trigger]
                difference.value_of(k) == (if listed(rhs@, k) {
                    None
                } else {
                    self.value_of(k)
                }),
    {
        let ghost all = self.entries();
        let mut entries = self.into_iter();
        let mut stack: Vec<(Value, Value)> = Vec::new();
        assert(all =~= entries@ + stack@.reverse());
        while entries.len() > 0
            invariant
                all == entries@ + stack@.reverse(),
            decreases entries.len(),
        {
            let ghost front = entries@;
            let ghost back = stack@;
            match entries.pop() {
                Some(entry) => {
                    stack.push(entry);
                    assert(front =~= entries@.push(entry));
                    assert(stack@.reverse() =~= seq![entry] + back.reverse());
                    assert(all =~= entries@ + stack@.reverse());
                },
                None => {},
            }
        }
        let mut kept_keys: Vec<Value> = Vec::new();
        let mut kept_values: Vec<Value> = Vec::new();
        let ghost kept = Seq::<(Value, Value)>::empty();
        let ghost done = Seq::<(Value, Value)>::empty();
        let ghost stays = |e: (Value, Value)| !listed(rhs@, e.0);
        assert(kept =~= paired(kept_keys@, kept_values@));
        assert(kept =~= done.filter(stays)) by {
            reveal(Seq::filter);
        }
        assert(done + stack@.reverse() =~= all);
        proof {
            assert forall|k: Value| lookup(kept, k) is None && lookup(done, k) is None by {
                lemma_lookup_none(kept, k);
                lemma_lookup_none(done, k);
            }
        }
        while stack.len() > 0
            invariant
                distinct_keys(all),
                done + stack@.reverse() == all,
                kept_keys@.len() == kept_values@.len(),
                kept == paired(kept_keys@, kept_values@),
                stays == (|e: (Value, Value)| !listed(rhs@, e.0)),
                kept == done.filter(stays),
                distinct_keys(kept),
                forall|k: Value| #[trigger]
                    lookup(kept, k) == (if listed(rhs@, k) {
                        None
                    } else {
                        lookup(done, k)
                    }),
            decreases stack.len(),
        {
            let ghost unread = stack@;
            let ghost held = kept;
            match stack.pop() {
                Some(entry) => {
                    let ghost longer = done.push(entry);
                    proof {
                        reveal(Seq::filter);
                        assert(longer.drop_last() =~= done);
                        assert(longer.filter(stays) == (if stays(entry) {
                            done.filter(stays).push(entry)
                        } else {
                            done.filter(stays)
                        }));
                        assert(unread.reverse() =~= seq![entry] + stack@.reverse());
                        assert(longer + stack@.reverse() =~= done + unread.reverse());
                        assert(all[done.len() as int] == entry);
                        assert forall|a: int, b: int| 0 <= a < b < done.len() implies !same(
                            #[trigger] done[a].0,
                            #[trigger] done[b].0,
                        ) by {
                            assert(done[a] == all[a] && done[b] == all[b]);
                        }
                        assert forall|j: int| 0 <= j < done.len() implies !same(
                            #[trigger] done[j].0,
                            entry.0,
                        ) by {
                            assert(done[j] == all[j]);
                            assert(!same(all[j].0, all[done.len() as int].0));
                        }
                        lemma_find_none(done, entry.0, 0);
                        lemma_append(done, entry.0, entry.1);
                    }
                    if is_listed(rhs, &entry.0) {
                        proof {
                            assert forall|k: Value| #[trigger]
                                lookup(kept, k) == (if listed(rhs@, k) {
                                    None
                                } else {
                                    lookup(longer, k)
                                }) by {
                                if same(entry.0, k) && !listed(rhs@, k) {
                                    let i = choose|i: int|
                                        0 <= i < rhs@.len() && same(#[trigger] rhs@[i], entry.0);
                                    lemma_same_transitive(rhs@[i], entry.0, k);
                                }
                            }
                        }
                    } else {
                        proof {
                            assert(lookup(held, entry.0) == lookup(done, entry.0));
                            lemma_append(held, entry.0, entry.1);
                            assert forall|k: Value| #[trigger]
                                lookup(held.push(entry), k) == (if listed(rhs@, k) {
                                    None
                                } else {
                                    lookup(longer, k)
                                }) by {
                                if same(entry.0, k) && listed(rhs@, k) {
                                    let i = choose|i: int|
                                        0 <= i < rhs@.len() && same(#[trigger] rhs@[i], k);
                                    lemma_same_symmetric(entry.0, k);
                                    lemma_same_transitive(rhs@[i], k, entry.0);
                                }
                            }
                        }
                        kept_keys.push(entry.0);
                        kept_values.push(entry.1);
                        proof {
                            kept = held.push(entry);
                            assert(kept =~= paired(kept_keys@, kept_values@));
                        }
                    }
                    proof {
                        done = longer;
                    }
                },
                None => {},
            }
        }
        assert(done =~= all);
        proof {
            lemma_distinct_paired(kept_keys@, kept_values@);
        }
        Codex { keys: kept_keys, values: kept_values }
    }
}

/// The keys of `entries`, in order.
pub open spec fn keys_of(entries: Seq<(Value, Value)>) -> Seq<Value> {
    Seq::new(entries.len(), |i: int| entries[i].0)
}

impl Codex {
    /// Whether `rhs` is a map equal to this one. A value of another sort is
    /// not.
    pub fn is_equal(&self, rhs: &Value) -> (equal: Result<bool, Error>)
        ensures
            equal == Ok::<bool, Error>(same(Value::Codex(*self), *rhs)),
    {
        match rhs {
            Value::Codex(other) => Ok(self.is_same_map(other)),
            _ => {
                proof {
                    lemma_same_sorts(Value::Codex(*self), *rhs);
                }
                Ok(false)
            },
        }
    }

    /// A copy of the value under `key`. A key that the map does not hold
    /// is an error.
    pub fn get_index(&self, key: &Value) -> (value: Result<Value, Error>)
        ensures
            match self.value_of(*key) {
                Some(held) => value matches Ok(copy) && same(held, copy),
                None => value == Err::<Value, Error>(
                    Error { kind: ErrorKind::MissingKey, position: None },
                ),
            },
    {
        match self.get(key) {
            Some(held) => Ok(held.clone()),
            None => Err(Error::runtime(ErrorKind::MissingKey)),
        }
    }

    /// Puts `value` under `key`. This cannot fail.
    pub fn set_index(&mut self, key: Value, value: Value) -> (done: Result<(), Error>)
        ensures
            done is Ok,
            forall|k: Value| #[trigger]
                final(self).value_of(k) == (if same(key, k) {
                    Some(value)
                } else {
                    old(self).value_of(k)
                }),
    {
        let _ = self.insert(key, value);
        Ok(())
    }

    /// The attribute `attr` of the map. A map has no attributes, so this is
    /// an error that names `attr`.
    pub fn get_attr(&self, attr: &str) -> (value: Result<Value, Error>)
        ensures
            ({
                &&& value matches Err(e)
                &&& e.position is None
                &&& e.kind matches ErrorKind::UnknownAttribute(name)
                &&& name@ == attr@
            }),
    {
        Err(Error::runtime(ErrorKind::UnknownAttribute(String::from_str(attr))))
    }

    /// This map as a text. A map does not convert to a text: this is an
    /// error.
    pub fn convert_to_text(&self) -> (text: Result<Text, Error>)
        ensures
            text == Err::<Text, Error>(
                Error { kind: ErrorKind::OperationNotSupported, position: None },
            ),
    {
        Err(Error::runtime(ErrorKind::OperationNotSupported))
    }

    /// This map as a list. A map does not convert to a list: this is an
    /// error.
    pub fn convert_to_book(&self) -> (book: Result<Vec<Value>, Error>)
        ensures
            book == Err::<Vec<Value>, Error>(
                Error { kind: ErrorKind::OperationNotSupported, position: None },
            ),
    {
        Err(Error::runtime(ErrorKind::OperationNotSupported))
    }

    /// This map plus `rhs`. The sum with a map is the union of the two, in
    /// which `rhs` overrides this map; nothing else can be added to a map.
    pub fn add_value(self, rhs: Value) -> (sum: Result<Value, Error>)
        ensures
            match rhs {
                Value::Codex(other) => {
                    &&& sum matches Ok(Value::Codex(union))
                    &&& forall|k: Value| #[trigger]
                        union.value_of(k) == overlaid(self.value_of(k), other.entries(), k)
                },
                _ => sum == Err::<Value, Error>(
                    Error { kind: ErrorKind::OperationNotSupported, position: None },
                ),
            },
    {
        match rhs {
            Value::Codex(other) => Ok(Value::Codex(self.add(other.into_iter()))),
            _ => Err(Error::runtime(ErrorKind::OperationNotSupported)),
        }
    }

    /// This map minus `rhs`. A list is taken as a list of keys and a map
    /// stands for its keys: the difference is this map without the entries
    /// under those keys. Nothing else can be taken from a map.
    pub fn subtract(self, rhs: Value) -> (difference: Result<Value, Error>)
        ensures
            match rhs {
                Value::Book(keys) => {
                    &&& difference matches Ok(Value::Codex(left))
                    &&& forall|k: Value| #[trigger]
                        left.value_of(k) == (if listed(keys@, k) {
                            None
                        } else {
                            self.value_of(k)
                        })
                },
                Value::Codex(other) => {
                    &&& difference matches Ok(Value::Codex(left))
                    &&& forall|k: Value| #[trigger]
                        left.value_of(k) == (if listed(keys_of(other.entries()), k) {
                            None
                        } else {
                            self.value_of(k)
                        })
                },
                _ => difference == Err::<Value, Error>(
                    Error { kind: ErrorKind::OperationNotSupported, position: None },
                ),
            },
    {
        match rhs {
            Value::Book(keys) => Ok(Value::Codex(self.sub(&keys))),
            Value::Codex(other) => {
                let mut entries = other.into_iter();
                let ghost all = entries@;
                let mut keys: Vec<Value> = Vec::new();
                while entries.len() > 0
                    invariant
                        entries@.len() + keys@.len() == all.len(),
                        entries@ == all.take(entries@.len() as int),
                        forall|i: int|
                            0 <= i < keys@.len() ==> #[trigger] keys@[i] == all[all.len() - 1 - i].0,
                    decreases entries.len(),
                {
                    match entries.pop() {
                        Some(entry) => {
                            keys.push(entry.0);
                        },
                        None => {},
                    }
                }
                proof {
                    assert forall|k: Value| listed(keys@, k) == listed(keys_of(all), k) by {
                        if listed(keys@, k) {
                            let i = choose|i: int| 0 <= i < keys@.len() && same(#[trigger] keys@[i], k);
                            assert(same(keys_of(all)[all.len() - 1 - i], k));
                        }
                        if listed(keys_of(all), k) {
                            let i = choose|i: int|
                                0 <= i < all.len() && same(#[trigger] keys_of(all)[i], k);
                            assert(same(keys@[all.len() - 1 - i], k));
                        }
                    }
                }
                Ok(Value::Codex(self.sub(&keys)))
            },
            _ => Err(Error::runtime(ErrorKind::OperationNotSupported)),
        }
    }
}

/// Only values of one sort are equal.
pub proof fn lemma_same_sorts(a: Value, b: Value)
    ensures
        same(a, b) ==> {
            &&& a is Null <==> b is Null
            &&& a is Veracity <==> b is Veracity
            &&& a is Numeral <==> b is Numeral
            &&& a is Text <==> b is Text
            &&& a is Book <==> b is Book
            &&& a is Codex <==> b is Codex
            &&& a is Journey <==> b is Journey
        },
{
}

/// Equality of values, spelled out by sort.
pub open spec fn same_by_sort(a: Value, b: Value) -> bool {
    match a {
        Value::Null => b is Null,
        Value::Veracity(x) => b matches Value::Veracity(y) && x == y,
        Value::Numeral(x) => b matches Value::Numeral(y) && x@ == y@,
        Value::Text(x) => b matches Value::Text(y) && x@ == y@,
        Value::Book(x) => b matches Value::Book(y) && same_row(x@, y@),
        Value::Codex(x) => b matches Value::Codex(y) && covers(x.entries(), y.entries()) && covers(
            y.entries(),
            x.entries(),
        ),
        Value::Journey(x) => b matches Value::Journey(y) && x.identity() == y.identity(),
    }
}

/// `same` is the equality that `same_by_sort` spells out.
pub proof fn lemma_same_unfold(a: Value, b: Value)
    ensures
        same(a, b) == same_by_sort(a, b),
{
    match a {
        Value::Book(x) => {
            if b is Book {
                let y = b->Book_0;
                if same(a, b) {
                    assert(same_row(x@, y@));
                }
                if same_row(x@, y@) {
                    assert(forall|i: int|
                        #![trigger x@[i]]
                        0 <= i < x@.len() ==> same(x@[i], y@[i]));
                }
            }
        },
        Value::Codex(x) => {
            if b is Codex {
                let y = b->Codex_0;
                let l = x.entries();
                let r = y.entries();
                lemma_same_codex(x, y);
                assert(b == Value::Codex(y));
                if covered(l, r) {
                    assert forall|j: int| 0 <= j < r.len() implies #[trigger] has_like(r[j], l) by {
                        assert(like_held(l, r[j]));
                        let i = choose|i: int| 0 <= i < l.len() && #[trigger] alike(l[i], r[j]);
                        lemma_same_symmetric(l[i].0, r[j].0);
                        lemma_same_symmetric(l[i].1, r[j].1);
                        assert(alike(r[j], l[i]));
                    }
                }
                if covers(r, l) {
                    assert forall|j: int| 0 <= j < r.len() implies #[trigger] like_held(l, r[j]) by {
                        assert(has_like(r[j], l));
                        let i = choose|i: int| 0 <= i < l.len() && #[trigger] alike(r[j], l[i]);
                        lemma_same_symmetric(r[j].0, l[i].0);
                        lemma_same_symmetric(r[j].1, l[i].1);
                        assert(alike(l[i], r[j]));
                    }
                }
            }
        },
        _ => {},
    }
}

impl From<Codex> for Value {
    /// The map as a value.
    fn from(codex: Codex) -> (value: Value) {
        Value::Codex(codex)
    }
}

impl vstd::std_specs::convert::FromSpecImpl<Codex> for Value {
    open spec fn obeys_from_spec() -> bool {
        true
    }

    open spec fn from_spec(codex: Codex) -> Value {
        Value::Codex(codex)
    }
}

impl From<Journey> for Value {
    /// The closure as a value.
    fn from(journey: Journey) -> (value: Value) {
        Value::Journey(journey)
    }
}

impl vstd::std_specs::convert::FromSpecImpl<Journey> for Value {
    open spec fn obeys_from_spec() -> bool {
        true
    }

    open spec fn from_spec(journey: Journey) -> Value {
        Value::Journey(journey)
    }
}

} // verus!
