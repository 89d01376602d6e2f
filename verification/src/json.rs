//! JSON values as the project's manifests, meta files and instance
//! properties hold them. Objects keep their keys in ascending order, as a
//! `serde_json::Map` without `preserve_order` does; a number is held as the
//! text that `serde_json` writes for it.
use vstd::prelude::*;
use crate::text::{compare_str, lemma_str_lt_asymmetric, lemma_str_lt_irreflexive,
    lemma_str_lt_total, lemma_str_lt_transitive, same_str, str_lt};

verus! {

/// A JSON value.
#[derive(Debug)]
pub enum Json {
    Null,
    Bool(bool),
    Number(String),
    Text(String),
    Array(Vec<Json>),
    Object(JsonMap),
}

/// A JSON object: entries in ascending key order, no key twice.
#[derive(Debug)]
pub struct JsonMap {
    entries: Vec<(String, Json)>,
}

/// A JSON value with its text as character sequences.
pub enum JsonV {
    Null,
    Bool(bool),
    Number(Seq<char>),
    Text(Seq<char>),
    Array(Seq<JsonV>),
    Object(Seq<(Seq<char>, JsonV)>),
}

/// The abstract value of a `Json`.
pub open spec fn json_view(j: Json) -> JsonV
    decreases j,
{
    match j {
        Json::Null => JsonV::Null,
        Json::Bool(b) => JsonV::Bool(b),
        Json::Number(n) => JsonV::Number(n@),
        Json::Text(t) => JsonV::Text(t@),
        Json::Array(items) => JsonV::Array(
            Seq::new(
                items@.len(),
                |i: int|
                    if 0 <= i < items@.len() {
                        json_view(items@[i])
                    } else {
                        JsonV::Null
                    },
            ),
        ),
        Json::Object(m) => JsonV::Object(map_view(m)),
    }
}

/// The entries of a `JsonMap`, in order.
pub closed spec fn map_view(m: JsonMap) -> Seq<(Seq<char>, JsonV)>
    decreases m,
{
    Seq::new(
        m.entries@.len(),
        |i: int|
            if 0 <= i < m.entries@.len() {
                (m.entries@[i].0@, json_view(m.entries@[i].1))
            } else {
                (Seq::empty(), JsonV::Null)
            },
    )
}


/// The number of values inside a value, itself included: a measure that
/// shrinks from a value to each of its items.
pub open spec fn json_size(v: JsonV) -> nat
    decreases v,
{
    match v {
        JsonV::Array(items) => 1 + items_size(items),
        JsonV::Object(entries) => 1 + entries_size(entries),
        _ => 1,
    }
}

pub open spec fn items_size(s: Seq<JsonV>) -> nat
    decreases s,
{
    if s.len() == 0 {
        0
    } else {
        items_size(s.drop_last()) + json_size(s.last())
    }
}

pub open spec fn entries_size(s: Seq<(Seq<char>, JsonV)>) -> nat
    decreases s,
{
    if s.len() == 0 {
        0
    } else {
        entries_size(s.drop_last()) + json_size(s.last().1)
    }
}

pub proof fn lemma_item_smaller(s: Seq<JsonV>, i: int)
    requires
        0 <= i < s.len(),
    ensures
        json_size(s[i]) <= items_size(s),
    decreases s.len(),
{
    if i < s.len() - 1 {
        lemma_item_smaller(s.drop_last(), i);
    }
}

pub proof fn lemma_entry_smaller(s: Seq<(Seq<char>, JsonV)>, i: int)
    requires
        0 <= i < s.len(),
    ensures
        json_size(s[i].1) <= entries_size(s),
    decreases s.len(),
{
    if i < s.len() - 1 {
        lemma_entry_smaller(s.drop_last(), i);
    }
}

impl View for Json {
    type V = JsonV;

    open spec fn view(&self) -> JsonV {
        json_view(*self)
    }
}

impl View for JsonMap {
    type V = Seq<(Seq<char>, JsonV)>;

    open spec fn view(&self) -> Seq<(Seq<char>, JsonV)> {
        map_view(*self)
    }
}

/// The views of a sequence of values.
pub open spec fn json_views(s: Seq<Json>) -> Seq<JsonV> {
    s.map_values(|j: Json| j@)
}

/// Keys in strictly ascending order.
pub open spec fn sorted_keys<V>(m: Seq<(Seq<char>, V)>) -> bool {
    forall|i: int, j: int| 0 <= i < j < m.len() ==> str_lt(#[trigger] m[i].0, #[trigger] m[j].0)
}

/// The value stored under `k`.
pub open spec fn assoc_get<V>(m: Seq<(Seq<char>, V)>, k: Seq<char>) -> Option<V>
    decreases m.len(),
{
    if m.len() == 0 {
        None
    } else if m[0].0 == k {
        Some(m[0].1)
    } else {
        assoc_get(m.drop_first(), k)
    }
}

/// The keys, in order.
pub open spec fn assoc_keys<V>(m: Seq<(Seq<char>, V)>) -> Seq<Seq<char>> {
    m.map_values(|e: (Seq<char>, V)| e.0)
}

/// `m` with `k` mapped to `v`: the entry replaced in place when `k` is
/// there, otherwise added where it keeps the keys ascending.
pub open spec fn sorted_insert<V>(m: Seq<(Seq<char>, V)>, k: Seq<char>, v: V) -> Seq<(Seq<char>, V)>
    decreases m.len(),
{
    if m.len() == 0 {
        seq![(k, v)]
    } else if m[0].0 == k {
        m.update(0, (k, v))
    } else if str_lt(k, m[0].0) {
        seq![(k, v)] + m
    } else {
        seq![m[0]] + sorted_insert(m.drop_first(), k, v)
    }
}

impl JsonMap {
    #[verifier::type_invariant]
    closed spec fn wf(self) -> bool {
        sorted_keys(map_view(self))
    }

    /// The keys of every object are in strictly ascending order.
    pub fn keys_are_sorted(&self)
        ensures
            sorted_keys(self@),
    {
        proof {
            use_type_invariant(self);
        }
    }

    proof fn lemma_view_len(&self)
        ensures
            self@.len() == self.entries@.len(),
            forall|i: int|
                0 <= i < self.entries@.len() ==> (#[trigger] self@[i]).0 == self.entries@[i].0@
                    && self@[i].1 == self.entries@[i].1@,
    {
    }

    /// An empty object.
    pub fn new() -> (r: JsonMap)
        ensures
            r@ == Seq::<(Seq<char>, JsonV)>::empty(),
    {
        let r = JsonMap { entries: Vec::new() };
        assert(map_view(r) =~= Seq::<(Seq<char>, JsonV)>::empty());
        r
    }

    /// The number of entries.
    pub fn len(&self) -> (r: usize)
        ensures
            r == self@.len(),
    {
        self.entries.len()
    }

    /// Whether there are no entries.
    pub fn is_empty(&self) -> (r: bool)
        ensures
            r == (self@.len() == 0),
    {
        self.entries.len() == 0
    }

    /// The key of the entry at `i`.
    pub fn key_at(&self, i: usize) -> (r: &String)
        requires
            i < self@.len(),
        ensures
            r@ == self@[i as int].0,
    {
        &self.entries[i].0
    }

    /// The value of the entry at `i`.
    pub fn value_at(&self, i: usize) -> (r: &Json)
        requires
            i < self@.len(),
        ensures
            r@ == self@[i as int].1,
    {
        &self.entries[i].1
    }

    /// The index of the entry for `key`.
    pub fn position(&self, key: &str) -> (r: Option<usize>)
        ensures
            r matches Some(i) ==> i < self@.len() && self@[i as int].0 == key@,
            r is None ==> forall|i: int| 0 <= i < self@.len() ==> self@[i].0 != key@,
    {
        let mut i: usize = 0;
        while i < self.entries.len()
            invariant
                i <= self@.len(),
                self@.len() == self.entries@.len(),
                forall|k: int| 0 <= k < i ==> self@[k].0 != key@,
            decreases self@.len() - i,
        {
            if same_str(self.entries[i].0.as_str(), key) {
                return Some(i);
            }
            i = i + 1;
        }
        None
    }

    /// The value under `key`.
    pub fn get(&self, key: &str) -> (r: Option<&Json>)
        ensures
            r matches Some(v) ==> assoc_get(self@, key@) == Some(v@),
            r is None ==> assoc_get(self@, key@) is None,
    {
        proof {
            lemma_assoc_get_index(self@, key@);
        }
        match self.position(key) {
            Some(i) => {
                self.keys_are_sorted();
                proof {
                    lemma_unique_key_index(self@, key@, i as int);
                }
                Some(&self.entries[i].1)
            },
            None => None,
        }
    }

    /// Whether there is an entry for `key`.
    pub fn contains_key(&self, key: &str) -> (r: bool)
        ensures
            r == (assoc_get(self@, key@) is Some),
    {
        proof {
            lemma_assoc_get_index(self@, key@);
        }
        self.position(key).is_some()
    }

    /// The keys, in ascending order.
    pub fn keys(&self) -> (r: Vec<String>)
        ensures
            r@.map_values(|s: String| s@) == assoc_keys(self@),
    {
        let mut out: Vec<String> = Vec::new();
        let mut i: usize = 0;
        while i < self.entries.len()
            invariant
                i <= self@.len(),
                self@.len() == self.entries@.len(),
                out@.map_values(|s: String| s@) == assoc_keys(self@.take(i as int)),
            decreases self@.len() - i,
        {
            let k = self.entries[i].0.clone();
            let ghost prev = out@;
            out.push(k);
            assert(out@.map_values(|s: String| s@) =~= prev.map_values(|s: String| s@).push(k@));
            assert(assoc_keys(self@.take(i + 1)) =~= assoc_keys(self@.take(i as int)).push(
                self@[i as int].0,
            ));
            i = i + 1;
        }
        assert(self@.take(self@.len() as int) =~= self@);
        out
    }

    /// Adds an entry whose key comes after every key already there.
    pub fn push_last(&mut self, key: String, value: Json)
        requires
            forall|i: int| 0 <= i < old(self)@.len() ==> str_lt(#[trigger] old(self)@[i].0, key@),
        ensures
            final(self)@ == old(self)@.push((key@, value@)),
    {
        proof {
            use_type_invariant(&*self);
        }
        let ghost before = self@;
        let mut entries = Vec::new();
        std::mem::swap(&mut entries, &mut self.entries);
        assert(map_view(JsonMap { entries }) == before);
        let ghost kv = key@;
        let ghost vv = value@;
        entries.push((key, value));
        assert(map_view(JsonMap { entries }) =~= before.push((kv, vv)));
        assert(sorted_keys(before.push((kv, vv)))) by {
            let r = before.push((kv, vv));
            assert forall|a: int, b: int| 0 <= a < b < r.len() implies str_lt(#[trigger] r[a].0, #[trigger] r[b].0) by {
                if b == r.len() - 1 {
                    assert(str_lt(before[a].0, kv));
                } else {
                    assert(str_lt(before[a].0, before[b].0));
                }
            }
        }
        self.entries = entries;
    }

    /// Maps `key` to `value`, replacing what was there.
    pub fn insert(&mut self, key: String, value: Json)
        ensures
            final(self)@ == sorted_insert(old(self)@, key@, value@),
    {
        proof {
            use_type_invariant(&*self);
        }
        let ghost before = self@;
        let mut entries = Vec::new();
        std::mem::swap(&mut entries, &mut self.entries);
        let ghost old_entries = entries@;
        assert(map_view(JsonMap { entries }) == before);
        let mut i: usize = 0;
        while i < entries.len() && compare_str(entries[i].0.as_str(), key.as_str()) < 0
            invariant
                entries@ == old_entries,
                map_view(JsonMap { entries }) == before,
                sorted_keys(before),
                i <= before.len(),
                before.len() == entries@.len(),
                forall|k: int| 0 <= k < i ==> str_lt(before[k].0, key@),
            decreases before.len() - i,
        {
            assert(before[i as int].0 == entries@[i as int].0@);
            i = i + 1;
        }
        let ghost v = value@;
        assert(i < before.len() ==> before[i as int].0 == entries@[i as int].0@);
        assert(i < before.len() ==> !str_lt(before[i as int].0, key@));
        if i < entries.len() && same_str(entries[i].0.as_str(), key.as_str()) {
            assert(before[i as int].0 == key@);
            proof {
                lemma_sorted_insert_at(before, key@, v, i as int);
            }
            entries.set(i, (key, value));
            assert(map_view(JsonMap { entries }) =~= before.update(i as int, (key@, v)));
        } else {
            proof {
                if i < before.len() {
                    lemma_str_lt_total(before[i as int].0, key@);
                }
                lemma_sorted_insert_at(before, key@, v, i as int);
            }
            entries.insert(i, (key, value));
            assert(map_view(JsonMap { entries }) =~= before.insert(i as int, (key@, v)));
        }
        proof {
            lemma_sorted_insert_sorted(before, key@, v);
        }
        self.entries = entries;
    }

}

/// A value stored under `k` is at an index whose key is `k`, and the
/// first such index gives it.
pub proof fn lemma_assoc_get_index<V>(m: Seq<(Seq<char>, V)>, k: Seq<char>)
    ensures
        assoc_get(m, k) is Some <==> exists|i: int| 0 <= i < m.len() && m[i].0 == k,
    decreases m.len(),
{
    if m.len() > 0 {
        lemma_assoc_get_index(m.drop_first(), k);
        if m[0].0 != k {
            if exists|i: int| 0 <= i < m.len() && m[i].0 == k {
                let i = choose|i: int| 0 <= i < m.len() && m[i].0 == k;
                assert(m.drop_first()[i - 1].0 == k);
            }
            if exists|i: int| 0 <= i < m.drop_first().len() && m.drop_first()[i].0 == k {
                let i = choose|i: int| 0 <= i < m.drop_first().len() && m.drop_first()[i].0 == k;
                assert(m[i + 1].0 == k);
            }
        }
    }
}

/// With keys sorted, the entry whose key is `k` holds the value stored
/// under `k`.
pub proof fn lemma_unique_key_index<V>(m: Seq<(Seq<char>, V)>, k: Seq<char>, i: int)
    requires
        sorted_keys(m),
        0 <= i < m.len(),
        m[i].0 == k,
    ensures
        assoc_get(m, k) == Some(m[i].1),
    decreases m.len(),
{
    if i > 0 {
        assert(str_lt(m[0].0, m[i].0));
        lemma_str_lt_irreflexive(k);
        let t = m.drop_first();
        assert forall|a: int, b: int| 0 <= a < b < t.len() implies str_lt(
            #[trigger] t[a].0,
            #[trigger] t[b].0,
        ) by {
            assert(str_lt(m[a + 1].0, m[b + 1].0));
        }
        lemma_unique_key_index(t, k, i - 1);
    }
}

proof fn lemma_sorted_insert_at<V>(m: Seq<(Seq<char>, V)>, k: Seq<char>, v: V, i: int)
    requires
        sorted_keys(m),
        0 <= i <= m.len(),
        forall|j: int| 0 <= j < i ==> str_lt(m[j].0, k),
        i < m.len() ==> m[i].0 == k || str_lt(k, m[i].0),
    ensures
        i < m.len() && m[i].0 == k ==> sorted_insert(m, k, v) == m.update(i, (k, v)),
        !(i < m.len() && m[i].0 == k) ==> sorted_insert(m, k, v) == m.insert(i, (k, v)),
    decreases m.len(),
{
    if m.len() == 0 {
        assert(m.insert(i, (k, v)) =~= seq![(k, v)]);
    } else if i == 0 {
        if m[0].0 == k {
        } else {
            assert(seq![(k, v)] + m =~= m.insert(0, (k, v)));
        }
    } else {
        assert(str_lt(m[0].0, k));
        lemma_str_lt_irreflexive(k);
        lemma_str_lt_asymmetric(m[0].0, k);
        let t = m.drop_first();
        assert forall|a: int, b: int| 0 <= a < b < t.len() implies str_lt(
            #[trigger] t[a].0,
            #[trigger] t[b].0,
        ) by {
            assert(str_lt(m[a + 1].0, m[b + 1].0));
        }
        assert forall|j: int| 0 <= j < i - 1 implies str_lt(t[j].0, k) by {
            assert(str_lt(m[j + 1].0, k));
        }
        lemma_sorted_insert_at(t, k, v, i - 1);
        if i < m.len() && m[i].0 == k {
            assert(seq![m[0]] + t.update(i - 1, (k, v)) =~= m.update(i, (k, v)));
        } else {
            assert(seq![m[0]] + t.insert(i - 1, (k, v)) =~= m.insert(i, (k, v)));
        }
    }
}

/// Inserting keeps the keys ascending.
pub proof fn lemma_sorted_insert_sorted<V>(m: Seq<(Seq<char>, V)>, k: Seq<char>, v: V)
    requires
        sorted_keys(m),
    ensures
        sorted_keys(sorted_insert(m, k, v)),
        forall|x: Seq<char>| #[trigger] assoc_get(sorted_insert(m, k, v), x) == if x == k {
            Some(v)
        } else {
            assoc_get(m, x)
        },
        forall|x: Seq<char>| #[trigger]
            assoc_keys(sorted_insert(m, k, v)).contains(x) <==> x == k || assoc_keys(m).contains(
                x,
            ),
    decreases m.len(),
{
    let r = sorted_insert(m, k, v);
    reveal_with_fuel(assoc_get, 2);
    if m.len() == 0 {
        assert forall|x: Seq<char>| #[trigger] assoc_get(r, x) == if x == k {
            Some(v)
        } else {
            assoc_get(m, x)
        } by {
            assert(r.drop_first().len() == 0);
        }
        assert forall|x: Seq<char>| #[trigger]
            assoc_keys(r).contains(x) <==> x == k || assoc_keys(m).contains(x) by {
            if assoc_keys(r).contains(x) {
                let j = choose|j: int| 0 <= j < assoc_keys(r).len() && assoc_keys(r)[j] == x;
                assert(j == 0);
            }
            if x == k {
                assert(assoc_keys(r)[0] == k);
            }
        }
    } else if m[0].0 == k {
        assert forall|a: int, b: int| 0 <= a < b < r.len() implies str_lt(
            #[trigger] r[a].0,
            #[trigger] r[b].0,
        ) by {
            assert(str_lt(m[a].0, m[b].0));
        }
        assert forall|x: Seq<char>| #[trigger] assoc_get(r, x) == if x == k {
            Some(v)
        } else {
            assoc_get(m, x)
        } by {
            assert(r.drop_first() =~= m.drop_first());
        }
        assert forall|x: Seq<char>| #[trigger]
            assoc_keys(r).contains(x) <==> x == k || assoc_keys(m).contains(x) by {
            assert(assoc_keys(r) =~= assoc_keys(m));
            if x == k {
                assert(assoc_keys(m)[0] == k);
            }
        }
    } else if str_lt(k, m[0].0) {
        assert(r == seq![(k, v)] + m);
        assert forall|a: int, b: int| 0 <= a < b < r.len() implies str_lt(
            #[trigger] r[a].0,
            #[trigger] r[b].0,
        ) by {
            if a == 0 {
                if b > 1 {
                    assert(str_lt(m[0].0, m[b - 1].0));
                    lemma_str_lt_transitive(k, m[0].0, m[b - 1].0);
                }
            } else {
                assert(str_lt(m[a - 1].0, m[b - 1].0));
            }
        }
        assert forall|x: Seq<char>| #[trigger] assoc_get(r, x) == if x == k {
            Some(v)
        } else {
            assoc_get(m, x)
        } by {
            assert(r.drop_first() =~= m);
            assert(r[0] == (k, v));
        }
        assert forall|x: Seq<char>| #[trigger]
            assoc_keys(r).contains(x) <==> x == k || assoc_keys(m).contains(x) by {
            assert(assoc_keys(r) =~= seq![k] + assoc_keys(m));
            if assoc_keys(r).contains(x) {
                let j = choose|j: int| 0 <= j < assoc_keys(r).len() && assoc_keys(r)[j] == x;
                if j > 0 {
                    assert(assoc_keys(m)[j - 1] == x);
                }
            }
            if assoc_keys(m).contains(x) {
                let j = choose|j: int| 0 <= j < assoc_keys(m).len() && assoc_keys(m)[j] == x;
                assert(assoc_keys(r)[j + 1] == x);
            }
            if x == k {
                assert(assoc_keys(r)[0] == k);
            }
        }
    } else {
        lemma_str_lt_total(k, m[0].0);
        let t = m.drop_first();
        assert forall|a: int, b: int| 0 <= a < b < t.len() implies str_lt(
            #[trigger] t[a].0,
            #[trigger] t[b].0,
        ) by {
            assert(str_lt(m[a + 1].0, m[b + 1].0));
        }
        lemma_sorted_insert_sorted(t, k, v);
        let rt = sorted_insert(t, k, v);
        assert(r == seq![m[0]] + rt);
        assert forall|a: int, b: int| 0 <= a < b < r.len() implies str_lt(
            #[trigger] r[a].0,
            #[trigger] r[b].0,
        ) by {
            if a == 0 {
                let x = r[b].0;
                assert(rt[b - 1].0 == x);
                assert(assoc_keys(rt)[b - 1] == x);
                assert(assoc_keys(rt).contains(x));
                if x == k {
                } else {
                    assert(assoc_keys(t).contains(x));
                    let j = choose|j: int| 0 <= j < assoc_keys(t).len() && assoc_keys(t)[j] == x;
                    assert(str_lt(m[0].0, m[j + 1].0));
                }
            } else {
                assert(r[a] == rt[a - 1]);
                assert(r[b] == rt[b - 1]);
            }
        }
        assert forall|x: Seq<char>| #[trigger] assoc_get(r, x) == if x == k {
            Some(v)
        } else {
            assoc_get(m, x)
        } by {
            assert(r.drop_first() =~= rt);
            assert(r[0] == m[0]);
            assert(assoc_get(rt, x) == if x == k {
                Some(v)
            } else {
                assoc_get(t, x)
            });
            if x != m[0].0 {
                assert(assoc_get(m, x) == assoc_get(t, x));
                assert(assoc_get(r, x) == assoc_get(rt, x));
            }
        }
        assert forall|x: Seq<char>| #[trigger]
            assoc_keys(r).contains(x) <==> x == k || assoc_keys(m).contains(x) by {
            assert(assoc_keys(r) =~= seq![m[0].0] + assoc_keys(rt));
            assert(assoc_keys(m) =~= seq![m[0].0] + assoc_keys(t));
            if assoc_keys(r).contains(x) {
                let j = choose|j: int| 0 <= j < assoc_keys(r).len() && assoc_keys(r)[j] == x;
                if j > 0 {
                    assert(assoc_keys(rt)[j - 1] == x);
                    assert(assoc_keys(rt).contains(x));
                    if x != k {
                        let q = choose|q: int| 0 <= q < assoc_keys(t).len() && assoc_keys(t)[q] == x;
                        assert(assoc_keys(m)[q + 1] == x);
                    }
                } else {
                    assert(assoc_keys(m)[0] == x);
                }
            }
            if assoc_keys(m).contains(x) {
                let j = choose|j: int| 0 <= j < assoc_keys(m).len() && assoc_keys(m)[j] == x;
                if j > 0 {
                    assert(assoc_keys(t)[j - 1] == x);
                    assert(assoc_keys(rt).contains(x));
                    let q = choose|q: int| 0 <= q < assoc_keys(rt).len() && assoc_keys(rt)[q] == x;
                    assert(assoc_keys(r)[q + 1] == x);
                } else {
                    assert(assoc_keys(r)[0] == x);
                }
            }
            if x == k {
                assert(assoc_keys(rt).contains(k));
                let q = choose|q: int| 0 <= q < assoc_keys(rt).len() && assoc_keys(rt)[q] == k;
                assert(assoc_keys(r)[q + 1] == k);
            }
        }
    }
}

/// Inserting under a key the value already stored under it changes
/// nothing.
pub proof fn lemma_sorted_insert_present<V>(m: Seq<(Seq<char>, V)>, k: Seq<char>, v: V)
    requires
        sorted_keys(m),
        assoc_get(m, k) == Some(v),
    ensures
        sorted_insert(m, k, v) == m,
    decreases m.len(),
{
    if m[0].0 == k {
        assert(m.update(0, (k, v)) =~= m);
    } else {
        let t = m.drop_first();
        lemma_assoc_get_index(t, k);
        let i = choose|i: int| 0 <= i < t.len() && t[i].0 == k;
        assert(str_lt(m[0].0, m[i + 1].0));
        lemma_str_lt_asymmetric(m[0].0, k);
        assert forall|a: int, b: int| 0 <= a < b < t.len() implies str_lt(
            #[trigger] t[a].0,
            #[trigger] t[b].0,
        ) by {
            assert(str_lt(m[a + 1].0, m[b + 1].0));
        }
        lemma_sorted_insert_present(t, k, v);
        assert(seq![m[0]] + t =~= m);
    }
}

/// What is stored under a key is what was last inserted under it, and
/// every other key keeps its value; the keys stay in ascending order.
pub proof fn law_insert_then_get<V>(m: Seq<(Seq<char>, V)>, k: Seq<char>, v: V, other: Seq<char>)
    requires
        sorted_keys(m),
    ensures
        assoc_get(sorted_insert(m, k, v), k) == Some(v),
        other != k ==> assoc_get(sorted_insert(m, k, v), other) == assoc_get(m, other),
        sorted_keys(sorted_insert(m, k, v)),
{
    lemma_sorted_insert_sorted(m, k, v);
    assert(assoc_get(sorted_insert(m, k, v), k) == Some(v));
    assert(assoc_get(sorted_insert(m, k, v), other) == if other == k {
        Some(v)
    } else {
        assoc_get(m, other)
    });
}

/// Whether a number, as `serde_json` writes it, is a zero read as a
/// float.
pub open spec fn zero_float(t: Seq<char>) -> bool {
    t == "0.0"@ || t == "-0.0"@
}

/// Whether two values are equal as `serde_json` compares them: numbers by
/// value, so that the two zeros of floats are equal, and everything else
/// as it is written.
pub open spec fn json_same(a: JsonV, b: JsonV) -> bool
    decreases json_size(a), 0int,
{
    match a {
        JsonV::Number(x) => match b {
            JsonV::Number(y) => x == y || (zero_float(x) && zero_float(y)),
            _ => false,
        },
        JsonV::Array(xs) => match b {
            JsonV::Array(ys) => xs.len() == ys.len() && items_same(xs, ys, xs.len() as int),
            _ => false,
        },
        JsonV::Object(xs) => match b {
            JsonV::Object(ys) => xs.len() == ys.len() && entries_same(xs, ys, xs.len() as int),
            _ => false,
        },
        _ => a == b,
    }
}

/// Whether the first `n` items of two arrays are equal (see `json_same`).
pub open spec fn items_same(xs: Seq<JsonV>, ys: Seq<JsonV>, n: int) -> bool
    decreases items_size(xs), n,
{
    if n <= 0 || n > xs.len() || n > ys.len() {
        true
    } else {
        proof {
            lemma_item_smaller(xs, n - 1);
        }
        items_same(xs, ys, n - 1) && json_same(xs[n - 1], ys[n - 1])
    }
}

/// Whether the first `n` entries of two objects have the same keys and
/// equal values (see `json_same`).
pub open spec fn entries_same(xs: Seq<(Seq<char>, JsonV)>, ys: Seq<(Seq<char>, JsonV)>, n: int) -> bool
    decreases entries_size(xs), n,
{
    if n <= 0 || n > xs.len() || n > ys.len() {
        true
    } else {
        proof {
            lemma_entry_smaller(xs, n - 1);
        }
        entries_same(xs, ys, n - 1) && xs[n - 1].0 == ys[n - 1].0 && json_same(xs[n - 1].1, ys[n - 1].1)
    }
}

/// Whether two objects, their entries in order, are equal (see
/// `json_same`).
pub open spec fn map_same(xs: Seq<(Seq<char>, JsonV)>, ys: Seq<(Seq<char>, JsonV)>) -> bool {
    xs.len() == ys.len() && entries_same(xs, ys, xs.len() as int)
}

/// Every value is equal to itself.
pub proof fn lemma_json_same_refl(a: JsonV)
    ensures
        json_same(a, a),
    decreases json_size(a), 0int,
{
    match a {
        JsonV::Array(xs) => lemma_items_same_refl(xs, xs.len() as int),
        JsonV::Object(xs) => lemma_entries_same_refl(xs, xs.len() as int),
        _ => {},
    }
}

proof fn lemma_items_same_refl(xs: Seq<JsonV>, n: int)
    ensures
        items_same(xs, xs, n),
    decreases items_size(xs), n,
{
    if 0 < n <= xs.len() {
        lemma_item_smaller(xs, n - 1);
        lemma_items_same_refl(xs, n - 1);
        lemma_json_same_refl(xs[n - 1]);
    }
}

/// Every object is equal to itself.
pub proof fn lemma_entries_same_refl(xs: Seq<(Seq<char>, JsonV)>, n: int)
    ensures
        entries_same(xs, xs, n),
    decreases entries_size(xs), n,
{
    if 0 < n <= xs.len() {
        lemma_entry_smaller(xs, n - 1);
        lemma_entries_same_refl(xs, n - 1);
        lemma_json_same_refl(xs[n - 1].1);
    }
}

/// Whether two values are equal as `serde_json` compares them (see
/// `json_same`).
pub fn json_eq(a: &Json, b: &Json) -> (r: bool)
    ensures
        r == json_same(a@, b@),
    decreases a,
{
    match a {
        Json::Null => b.is_null(),
        Json::Bool(x) => match b.as_bool() {
            Some(y) => *x == y,
            None => false,
        },
        Json::Number(x) => match b {
            Json::Number(y) => {
                proof {
                    reveal_strlit("0.0");
                    reveal_strlit("-0.0");
                }
                let x_zero = same_str(x.as_str(), "0.0") || same_str(x.as_str(), "-0.0");
                let y_zero = same_str(y.as_str(), "0.0") || same_str(y.as_str(), "-0.0");
                same_str(x.as_str(), y.as_str()) || (x_zero && y_zero)
            },
            _ => false,
        },
        Json::Text(x) => match b {
            Json::Text(y) => same_str(x.as_str(), y.as_str()),
            _ => false,
        },
        Json::Array(xs) => match b {
            Json::Array(ys) => {
                if xs.len() != ys.len() {
                    assert(a@->Array_0.len() != b@->Array_0.len());
                    return false;
                }
                let ghost av = a@->Array_0;
                let ghost bv = b@->Array_0;
                let mut i: usize = 0;
                while i < xs.len()
                    invariant
                        xs@.len() == ys@.len(),
                        i <= xs@.len(),
                        *a == Json::Array(*xs),
                        *b == Json::Array(*ys),
                        av == a@->Array_0,
                        bv == b@->Array_0,
                        av.len() == xs@.len(),
                        bv.len() == ys@.len(),
                        items_same(av, bv, i as int),
                    decreases xs@.len() - i,
                {
                    proof {
                        assert(decreases_to!(*xs => xs[i as int]));
                    }
                    assert(av[i as int] == xs@[i as int]@ && bv[i as int] == ys@[i as int]@);
                    if !json_eq(&xs[i], &ys[i]) {
                        assert(!items_same(av, bv, i + 1));
                        proof {
                            if items_same(av, bv, av.len() as int) {
                                lemma_items_same_prefix(av, bv, i + 1, av.len() as int);
                            }
                        }
                        return false;
                    }
                    i = i + 1;
                }
                true
            },
            _ => false,
        },
        Json::Object(x) => match b {
            Json::Object(y) => map_eq(x, y),
            _ => false,
        },
    }
}

proof fn lemma_items_same_prefix(xs: Seq<JsonV>, ys: Seq<JsonV>, k: int, n: int)
    requires
        0 <= k <= n <= xs.len(),
        n <= ys.len(),
        items_same(xs, ys, n),
    ensures
        items_same(xs, ys, k),
    decreases n - k,
{
    if k < n {
        lemma_items_same_prefix(xs, ys, k, n - 1);
    }
}

proof fn lemma_entries_same_prefix(xs: Seq<(Seq<char>, JsonV)>, ys: Seq<(Seq<char>, JsonV)>, k: int, n: int)
    requires
        0 <= k <= n <= xs.len(),
        n <= ys.len(),
        entries_same(xs, ys, n),
    ensures
        entries_same(xs, ys, k),
    decreases n - k,
{
    if k < n {
        lemma_entries_same_prefix(xs, ys, k, n - 1);
    }
}

/// Whether two objects are equal as `serde_json` compares them (see
/// `map_same`).
pub fn map_eq(a: &JsonMap, b: &JsonMap) -> (r: bool)
    ensures
        r == map_same(a@, b@),
    decreases a,
{
    if a.entries.len() != b.entries.len() {
        assert(a@.len() != b@.len());
        return false;
    }
    let mut i: usize = 0;
    while i < a.entries.len()
        invariant
            a.entries@.len() == b.entries@.len(),
            i <= a.entries@.len(),
            a@.len() == a.entries@.len(),
            b@.len() == b.entries@.len(),
            entries_same(a@, b@, i as int),
        decreases a.entries@.len() - i,
    {
        assert(a@[i as int] == (a.entries@[i as int].0@, a.entries@[i as int].1@));
        assert(b@[i as int] == (b.entries@[i as int].0@, b.entries@[i as int].1@));
        if !same_str(a.entries[i].0.as_str(), b.entries[i].0.as_str()) {
            assert(!entries_same(a@, b@, i + 1));
            proof {
                if entries_same(a@, b@, a@.len() as int) {
                    lemma_entries_same_prefix(a@, b@, i + 1, a@.len() as int);
                }
            }
            return false;
        }
        assert(decreases_to!(a => a.entries@[i as int].1));
        if !json_eq(&a.entries[i].1, &b.entries[i].1) {
            assert(!entries_same(a@, b@, i + 1));
            proof {
                if entries_same(a@, b@, a@.len() as int) {
                    lemma_entries_same_prefix(a@, b@, i + 1, a@.len() as int);
                }
            }
            return false;
        }
        i = i + 1;
    }
    true
}

/// A copy of a value.
pub fn json_copy(j: &Json) -> (r: Json)
    ensures
        r@ == j@,
    decreases j,
{
    match j {
        Json::Null => Json::Null,
        Json::Bool(b) => Json::Bool(*b),
        Json::Number(n) => Json::Number(n.clone()),
        Json::Text(t) => Json::Text(t.clone()),
        Json::Array(items) => {
            let mut out: Vec<Json> = Vec::new();
            let mut i: usize = 0;
            while i < items.len()
                invariant
                    i <= items@.len(),
                    out@.len() == i,
                    *j == Json::Array(*items),
                    forall|k: int| 0 <= k < i ==> json_view(#[trigger] out@[k]) == json_view(
                        items@[k],
                    ),
                decreases items@.len() - i,
            {
                proof {
                    assert(j->Array_0 == *items);
                    assert(decreases_to!(*j => j->Array_0));
                    assert(decreases_to!(*items => items[i as int]));
                    assert(decreases_to!(*j => items[i as int]));
                }
                out.push(json_copy(&items[i]));
                i = i + 1;
            }
            let r = Json::Array(out);
            assert(r@->Array_0 =~= j@->Array_0);
            r
        },
        Json::Object(m) => Json::Object(map_copy(m)),
    }
}

/// A copy of an object.
pub fn map_copy(m: &JsonMap) -> (r: JsonMap)
    ensures
        r@ == m@,
    decreases m,
{
    proof {
        use_type_invariant(m);
    }
    let mut out: Vec<(String, Json)> = Vec::new();
    let mut i: usize = 0;
    while i < m.entries.len()
        invariant
            i <= m.entries@.len(),
            out@.len() == i,
            forall|k: int|
                0 <= k < i ==> (#[trigger] out@[k]).0@ == m.entries@[k].0@ && json_view(out@[k].1)
                    == json_view(m.entries@[k].1),
        decreases m.entries@.len() - i,
    {
        proof {
            assert(decreases_to!(m.entries => m.entries[i as int]));
        }
        let k = m.entries[i].0.clone();
        let v = json_copy(&m.entries[i].1);
        out.push((k, v));
        i = i + 1;
    }
    assert(map_view(JsonMap { entries: out }) =~= map_view(*m));
    JsonMap { entries: out }
}

impl Clone for Json {
    fn clone(&self) -> (r: Self)
        ensures
            r@ == self@,
    {
        json_copy(self)
    }
}

impl Clone for JsonMap {
    fn clone(&self) -> (r: Self)
        ensures
            r@ == self@,
    {
        map_copy(self)
    }
}

impl Json {
    /// The text of a string value.
    pub fn as_str(&self) -> (r: Option<&String>)
        ensures
            r matches Some(s) ==> self@ == JsonV::Text(s@),
            r is None ==> !(self@ is Text),
    {
        match self {
            Json::Text(s) => Some(s),
            _ => None,
        }
    }

    /// The flag of a boolean value.
    pub fn as_bool(&self) -> (r: Option<bool>)
        ensures
            r matches Some(b) ==> self@ == JsonV::Bool(b),
            r is None ==> !(self@ is Bool),
    {
        match self {
            Json::Bool(b) => Some(*b),
            _ => None,
        }
    }

    /// The entries of an object value.
    pub fn as_object(&self) -> (r: Option<&JsonMap>)
        ensures
            r matches Some(m) ==> self@ == JsonV::Object(m@),
            r is None ==> !(self@ is Object),
    {
        match self {
            Json::Object(m) => Some(m),
            _ => None,
        }
    }

    /// The items of an array value.
    pub fn as_array(&self) -> (r: Option<&Vec<Json>>)
        ensures
            r matches Some(v) ==> self@ == JsonV::Array(json_views(v@)),
            r is None ==> !(self@ is Array),
    {
        match self {
            Json::Array(v) => {
                assert(self@->Array_0 =~= json_views(v@));
                Some(v)
            },
            _ => None,
        }
    }

    /// Whether this is an object.
    pub fn is_object(&self) -> (r: bool)
        ensures
            r == (self@ is Object),
    {
        match self {
            Json::Object(_) => true,
            _ => false,
        }
    }

    /// Whether this is null.
    pub fn is_null(&self) -> (r: bool)
        ensures
            r == (self@ is Null),
    {
        match self {
            Json::Null => true,
            _ => false,
        }
    }

    /// The value under `key` of an object; nothing for anything else.
    pub fn get(&self, key: &str) -> (r: Option<&Json>)
        ensures
            r matches Some(v) ==> self@ is Object && assoc_get(self@->Object_0, key@) == Some(v@),
            r is None ==> !(self@ is Object) || assoc_get(self@->Object_0, key@) is None,
    {
        match self {
            Json::Object(m) => m.get(key),
            _ => None,
        }
    }

    /// A string value.
    pub fn text(s: &str) -> (r: Json)
        ensures
            r@ == JsonV::Text(s@),
    {
        Json::Text(crate::text::copy_str(s))
    }
}

/// A JSON value as `serde_json` hands it over: an object as its entries
/// in the order given, a number as the text `serde_json` writes for it.
#[derive(Debug)]
pub enum RawJson {
    Null,
    Bool(bool),
    Number(String),
    Text(String),
    Array(Vec<RawJson>),
    Object(Vec<(String, RawJson)>),
}

/// A `RawJson` with its text as character sequences.
pub enum RawJsonV {
    Null,
    Bool(bool),
    Number(Seq<char>),
    Text(Seq<char>),
    Array(Seq<RawJsonV>),
    Object(Seq<(Seq<char>, RawJsonV)>),
}

/// The abstract value of a `RawJson`.
pub open spec fn raw_view(r: RawJson) -> RawJsonV
    decreases r,
{
    match r {
        RawJson::Null => RawJsonV::Null,
        RawJson::Bool(b) => RawJsonV::Bool(b),
        RawJson::Number(n) => RawJsonV::Number(n@),
        RawJson::Text(t) => RawJsonV::Text(t@),
        RawJson::Array(items) => RawJsonV::Array(
            Seq::new(
                items@.len(),
                |i: int|
                    if 0 <= i < items@.len() {
                        raw_view(items@[i])
                    } else {
                        RawJsonV::Null
                    },
            ),
        ),
        RawJson::Object(es) => RawJsonV::Object(
            Seq::new(
                es@.len(),
                |i: int|
                    if 0 <= i < es@.len() {
                        (es@[i].0@, raw_view(es@[i].1))
                    } else {
                        (Seq::empty(), RawJsonV::Null)
                    },
            ),
        ),
    }
}

/// The `JsonV` a raw value stands for: each object's entries inserted in
/// turn, so that keys end ascending and a later entry wins.
pub open spec fn raw_json(r: RawJsonV) -> JsonV
    decreases r, 0int,
{
    match r {
        RawJsonV::Null => JsonV::Null,
        RawJsonV::Bool(b) => JsonV::Bool(b),
        RawJsonV::Number(n) => JsonV::Number(n),
        RawJsonV::Text(t) => JsonV::Text(t),
        RawJsonV::Array(items) => JsonV::Array(
            Seq::new(
                items.len(),
                |i: int|
                    if 0 <= i < items.len() {
                        raw_json(items[i])
                    } else {
                        JsonV::Null
                    },
            ),
        ),
        RawJsonV::Object(es) => JsonV::Object(raw_entries(es, es.len() as int)),
    }
}

/// The first `k` raw entries of an object, inserted in turn.
pub open spec fn raw_entries(es: Seq<(Seq<char>, RawJsonV)>, k: int) -> Seq<(Seq<char>, JsonV)>
    decreases es, k,
{
    if k <= 0 || k > es.len() {
        Seq::empty()
    } else {
        proof {
            assert(decreases_to!(es => es[k - 1].1));
        }
        sorted_insert(raw_entries(es, k - 1), es[k - 1].0, raw_json(es[k - 1].1))
    }
}

/// What `serde_json` reads from a text: the value, or the message of the
/// error where the text is not JSON.
pub uninterp spec fn raw_parsed(text: Seq<char>) -> Result<RawJsonV, Seq<char>>;

/// What the `toml` crate reads from a text as a JSON value: the value, or
/// the message of the error where the text is not TOML.
pub uninterp spec fn toml_parsed(text: Seq<char>) -> Result<RawJsonV, Seq<char>>;

/// What `serde_json` reads from a text as an object (a
/// `serde_json::Map`): its entries, or the message of the error where the
/// text is not JSON or not an object.
pub uninterp spec fn object_parsed(text: Seq<char>) -> Result<Seq<(Seq<char>, RawJsonV)>, Seq<char>>;

/// The entries of a raw object as plain values, or the message.
pub open spec fn raw_object_view(r: Result<Vec<(String, RawJson)>, String>) -> Result<
    Seq<(Seq<char>, RawJsonV)>,
    Seq<char>,
> {
    match r {
        Ok(es) => Ok(raw_view(RawJson::Object(es))->Object_0),
        Err(m) => Err(m@),
    }
}

/// The value a text holds as JSON, or nothing where it is not JSON.
pub open spec fn json_parsed(text: Seq<char>) -> Option<JsonV> {
    match raw_parsed(text) {
        Ok(r) => Some(raw_json(r)),
        Err(_) => None,
    }
}

/// A parse outcome with the value and the message as plain values.
pub open spec fn raw_result_view(r: Result<RawJson, String>) -> Result<RawJsonV, Seq<char>> {
    match r {
        Ok(v) => Ok(raw_view(v)),
        Err(m) => Err(m@),
    }
}

/// A decoding outcome with the value and the message as plain values.
pub open spec fn json_result_view(r: Result<Json, String>) -> Result<JsonV, Seq<char>> {
    match r {
        Ok(v) => Ok(v@),
        Err(m) => Err(m@),
    }
}

/// A parse outcome with the value read as `Json`.
pub open spec fn decoded_spec(r: Result<RawJsonV, Seq<char>>) -> Result<JsonV, Seq<char>> {
    match r {
        Ok(v) => Ok(raw_json(v)),
        Err(m) => Err(m),
    }
}

/// The view of an optional value.
pub open spec fn opt_json_view(j: Option<Json>) -> Option<JsonV> {
    match j {
        Some(v) => Some(v@),
        None => None,
    }
}

#[verifier::external_type_specification]
#[verifier::external_body]
pub struct ExValue(serde_json::Value);

/// A `serde_json::Value` as a `RawJson`, variant for variant; a number
/// becomes the text `serde_json` writes for it.
#[verifier::external_body]
fn raw_from_value(v: serde_json::Value) -> RawJson {
    match v {
        serde_json::Value::Null => RawJson::Null,
        serde_json::Value::Bool(b) => RawJson::Bool(b),
        serde_json::Value::Number(n) => RawJson::Number(n.to_string()),
        serde_json::Value::String(s) => RawJson::Text(s),
        serde_json::Value::Array(items) => RawJson::Array(items.into_iter().map(raw_from_value).collect()),
        serde_json::Value::Object(es) => RawJson::Object(es.into_iter().map(|(k, x)| (k, raw_from_value(x))).collect()),
    }
}

/// `serde_json::from_str` into a `serde_json::Value`, handed over as a
/// `RawJson`, with the error's message where it fails: the contract
/// claims only that the outcome is a function of the text, named
/// `raw_parsed`.
#[verifier::external_body]
fn parse_raw(text: &str) -> (r: Result<RawJson, String>)
    ensures
        raw_result_view(r) == raw_parsed(text@),
{
    serde_json::from_str::<serde_json::Value>(text).map(raw_from_value).map_err(|e| e.to_string())
}

/// `serde_json::from_str` into a `serde_json::Map`, its entries handed
/// over as `RawJson`s, with the error's message where it fails: the
/// contract claims only that the outcome is a function of the text, named
/// `object_parsed`.
#[verifier::external_body]
fn parse_object_raw(text: &str) -> (r: Result<Vec<(String, RawJson)>, String>)
    ensures
        raw_object_view(r) == object_parsed(text@),
{
    serde_json::from_str::<serde_json::Map<String, serde_json::Value>>(text)
        .map(|m| m.into_iter().map(|(k, v)| (k, raw_from_value(v))).collect())
        .map_err(|e| e.to_string())
}

/// `toml::from_str` into a `serde_json::Value`, handed over as a
/// `RawJson`, with the error's message where it fails: the contract
/// claims only that the outcome is a function of the text, named
/// `toml_parsed`.
#[verifier::external_body]
fn parse_toml_raw(text: &str) -> (r: Result<RawJson, String>)
    ensures
        raw_result_view(r) == toml_parsed(text@),
{
    toml::from_str::<serde_json::Value>(text).map(raw_from_value).map_err(|e| e.to_string())
}

/// The `Json` a raw value stands for.
pub fn from_raw(r: &RawJson) -> (j: Json)
    ensures
        j@ == raw_json(raw_view(*r)),
    decreases r,
{
    match r {
        RawJson::Null => Json::Null,
        RawJson::Bool(b) => Json::Bool(*b),
        RawJson::Number(n) => Json::Number(n.clone()),
        RawJson::Text(t) => Json::Text(t.clone()),
        RawJson::Array(items) => {
            assert(*r == RawJson::Array(*items));
            let ghost rv = raw_view(*r);
            let mut out: Vec<Json> = Vec::new();
            let mut i: usize = 0;
            while i < items.len()
                invariant
                    i <= items@.len(),
                    out@.len() == i,
                    rv == raw_view(*r),
                    *r == RawJson::Array(*items),
                    forall|k: int| 0 <= k < i ==> json_view(#[trigger] out@[k]) == raw_json(raw_view(items@[k])),
                decreases items@.len() - i,
            {
                proof {
                    assert(decreases_to!(*r => (*r)->Array_0@[i as int]));
                }
                out.push(from_raw(&items[i]));
                i = i + 1;
            }
            let j = Json::Array(out);
            assert(rv->Array_0.len() == items@.len());
            assert(j@->Array_0 =~= raw_json(rv)->Array_0);
            j
        },
        RawJson::Object(es) => {
            let ghost ev = Seq::new(
                es@.len(),
                |k: int|
                    if 0 <= k < es@.len() {
                        (es@[k].0@, raw_view(es@[k].1))
                    } else {
                        (Seq::empty(), RawJsonV::Null)
                    },
            );
            assert(*r == RawJson::Object(*es));
            assert(raw_view(*r)->Object_0 =~= ev);
            let mut m = JsonMap::new();
            let mut i: usize = 0;
            while i < es.len()
                invariant
                    i <= es@.len(),
                    ev.len() == es@.len(),
                    *r == RawJson::Object(*es),
                    forall|k: int| 0 <= k < es@.len() ==> #[trigger] ev[k] == (es@[k].0@, raw_view(es@[k].1)),
                    m@ == raw_entries(ev, i as int),
                decreases es@.len() - i,
            {
                proof {
                    assert(decreases_to!(*r => (*r)->Object_0));
                    assert(decreases_to!(*r => (*r)->Object_0@[i as int].1));
                }
                let v = from_raw(&es[i].1);
                m.insert(es[i].0.clone(), v);
                assert(ev[i as int] == (es@[i as int].0@, raw_view(es@[i as int].1)));
                i = i + 1;
            }
            Json::Object(m)
        },
    }
}

/// The value a text holds as JSON, or nothing where it is not JSON.
pub fn parse_json(text: &str) -> (r: Option<Json>)
    ensures
        opt_json_view(r) == json_parsed(text@),
{
    match parse_raw(text) {
        Ok(raw) => Some(from_raw(&raw)),
        Err(_) => None,
    }
}

/// The value a text holds as JSON, or the message of the error that
/// reading it gave.
pub fn decode_json(text: &str) -> (r: Result<Json, String>)
    ensures
        json_result_view(r) == decoded_spec(raw_parsed(text@)),
{
    match parse_raw(text) {
        Ok(raw) => Ok(from_raw(&raw)),
        Err(m) => Err(m),
    }
}

/// The object a text holds as JSON, or the message of the error that
/// reading it as an object gave.
pub fn parse_object(text: &str) -> (r: Result<JsonMap, String>)
    ensures
        match r {
            Ok(m) => object_parsed(text@) matches Ok(es) && m@ == raw_entries(es, es.len() as int),
            Err(e) => object_parsed(text@) == Err::<Seq<(Seq<char>, RawJsonV)>, Seq<char>>(e@),
        },
{
    match parse_object_raw(text) {
        Ok(es) => {
            let raw = RawJson::Object(es);
            match from_raw(&raw) {
                Json::Object(m) => Ok(m),
                _ => Err(String::new()),
            }
        },
        Err(e) => Err(e),
    }
}

/// The value a text holds as TOML, read as JSON, or the message of the
/// error that reading it gave.
pub fn parse_toml(text: &str) -> (r: Result<Json, String>)
    ensures
        json_result_view(r) == decoded_spec(toml_parsed(text@)),
{
    match parse_toml_raw(text) {
        Ok(raw) => Ok(from_raw(&raw)),
        Err(m) => Err(m),
    }
}


/// A `Json` as a `serde_json::Value`, variant for variant; a number is
/// read back from its text.
#[verifier::external_body]
fn value_of(j: &Json) -> serde_json::Value {
    match j {
        Json::Null => serde_json::Value::Null,
        Json::Bool(b) => serde_json::Value::Bool(*b),
        Json::Number(n) => n.parse::<serde_json::Number>().map(serde_json::Value::Number).unwrap_or(serde_json::Value::Null),
        Json::Text(s) => serde_json::Value::String(s.clone()),
        Json::Array(items) => serde_json::Value::Array(items.iter().map(value_of).collect()),
        Json::Object(m) => serde_json::Value::Object(m.entries.iter().map(|(k, v)| (k.clone(), value_of(v))).collect()),
    }
}

/// What `serde_json::to_string` writes for a value, or the message of its
/// error.
pub uninterp spec fn json_compact(v: JsonV) -> Result<Seq<char>, Seq<char>>;

/// What `serde_json::to_string_pretty` writes for a value, or the message
/// of its error.
pub uninterp spec fn json_pretty(v: JsonV) -> Result<Seq<char>, Seq<char>>;

/// What `toml::to_string` writes for a value, or the message of its error
/// (a value that is not a table, or holds a null, has no TOML form).
pub uninterp spec fn toml_written(v: JsonV) -> Result<Seq<char>, Seq<char>>;

/// A writing outcome with the text and the message as characters.
pub open spec fn text_result_view(r: Result<String, String>) -> Result<Seq<char>, Seq<char>> {
    match r {
        Ok(s) => Ok(s@),
        Err(m) => Err(m@),
    }
}

/// `serde_json::to_string` on the value as a `serde_json::Value`: the
/// contract claims only that the outcome is a function of the value, named
/// `json_compact`.
#[verifier::external_body]
fn compact_text(j: &Json) -> (r: Result<String, String>)
    ensures
        text_result_view(r) == json_compact(j@),
{
    serde_json::to_string(&value_of(j)).map_err(|e| e.to_string())
}

/// `serde_json::to_string_pretty` on the value as a `serde_json::Value`:
/// the contract claims only that the outcome is a function of the value,
/// named `json_pretty`.
#[verifier::external_body]
fn pretty_text(j: &Json) -> (r: Result<String, String>)
    ensures
        text_result_view(r) == json_pretty(j@),
{
    serde_json::to_string_pretty(&value_of(j)).map_err(|e| e.to_string())
}

/// `toml::to_string` on the value as a `serde_json::Value`: the contract
/// claims only that the outcome is a function of the value, named
/// `toml_written`.
#[verifier::external_body]
fn toml_text(j: &Json) -> (r: Result<String, String>)
    ensures
        text_result_view(r) == toml_written(j@),
{
    toml::to_string(&value_of(j)).map_err(|e| e.to_string())
}

/// A value written as JSON text, indented when `pretty`.
pub fn encode_json(j: &Json, pretty: bool) -> (r: Result<String, String>)
    ensures
        text_result_view(r) == if pretty {
            json_pretty(j@)
        } else {
            json_compact(j@)
        },
{
    if pretty {
        pretty_text(j)
    } else {
        compact_text(j)
    }
}

/// A value written as TOML text.
pub fn encode_toml(j: &Json) -> (r: Result<String, String>)
    ensures
        text_result_view(r) == toml_written(j@),
{
    toml_text(j)
}

} // verus!
