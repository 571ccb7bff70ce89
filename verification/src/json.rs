use vstd::prelude::*;
use crate::order::{key_less, lemma_seq_less_irreflexive, lemma_seq_less_total, lemma_seq_less_transitive, seq_less};

verus! {

/// A map from strings to values, kept as a list of entries in increasing
/// order of their keys, each key once, as serde_json's default map keeps
/// them.
#[derive(Debug, PartialEq, Eq)]
pub struct StrMap<V> {
    entries: Vec<(String, V)>,
}

/// The map that a list of keyed entries stands for: a later entry for a key
/// hides an earlier one.
pub open spec fn entries_map<V>(s: Seq<(String, V)>) -> Map<Seq<char>, V>
    decreases s.len(),
{
    if s.len() == 0 {
        Map::empty()
    } else {
        entries_map(s.drop_last()).insert(s.last().0@, s.last().1)
    }
}

/// Whether the keys of the entries increase strictly, in the order of
/// `String`.
pub open spec fn keys_increasing<V>(s: Seq<(String, V)>) -> bool {
    forall|i: int, j: int| 0 <= i < j < s.len() ==> seq_less(#[trigger] s[i].0@, #[trigger] s[j].0@)
}

/// Putting an entry with a key that no entry has anywhere among the
/// entries adds that key to the map.
proof fn lemma_entries_map_insert_fresh<V>(s: Seq<(String, V)>, p: int, e: (String, V))
    requires
        0 <= p <= s.len(),
        forall|j: int| 0 <= j < s.len() ==> s[j].0@ != e.0@,
    ensures
        entries_map(s.insert(p, e)) == entries_map(s).insert(e.0@, e.1),
    decreases s.len(),
{
    let t = s.insert(p, e);
    if p == s.len() {
        assert(t.drop_last() =~= s);
    } else {
        assert(t.drop_last() =~= s.drop_last().insert(p, e));
        assert(t.last() == s.last());
        lemma_entries_map_insert_fresh(s.drop_last(), p, e);
        assert(entries_map(t) =~= entries_map(s).insert(e.0@, e.1));
    }
}

/// The map of entries with increasing keys holds each of their keys, and
/// nothing past the last key.
proof fn lemma_increasing_map_last<V>(s: Seq<(String, V)>)
    requires
        keys_increasing(s),
        s.len() > 0,
    ensures
        entries_map(s.drop_last()) == entries_map(s).remove(s.last().0@),
        forall|k: Seq<char>| #[trigger] entries_map(s).contains_key(k) ==> k == s.last().0@ || seq_less(k, s.last().0@),
{
    let last = s.last().0@;
    let d = s.drop_last();
    assert forall|j: int| 0 <= j < d.len() implies d[j].0@ != last by {
        assert(seq_less(s[j].0@, s[s.len() - 1].0@));
        lemma_seq_less_irreflexive(last);
    }
    lemma_entries_map_lookup(d, last, -1);
    assert(entries_map(d) =~= entries_map(s).remove(last));
    assert forall|k: Seq<char>| #[trigger] entries_map(s).contains_key(k) implies k == last || seq_less(k, last) by {
        if k != last {
            lemma_entries_map_keys(d, k);
            let j = choose|j: int| 0 <= j < d.len() && d[j].0@ == k;
            assert(seq_less(s[j].0@, s[s.len() - 1].0@));
        }
    }
}

/// Every key of the map of a list of entries is the key of an entry.
proof fn lemma_entries_map_keys<V>(s: Seq<(String, V)>, k: Seq<char>)
    requires
        entries_map(s).contains_key(k),
    ensures
        exists|j: int| 0 <= j < s.len() && s[j].0@ == k,
    decreases s.len(),
{
    if s.last().0@ != k {
        lemma_entries_map_keys(s.drop_last(), k);
        let j = choose|j: int| 0 <= j < s.drop_last().len() && s.drop_last()[j].0@ == k;
        assert(s[j].0@ == k);
    } else {
        assert(s[s.len() - 1].0@ == k);
    }
}

/// Two lists of entries with increasing keys whose maps have the same keys
/// hold those keys in the same places.
pub proof fn law_increasing_keys_determined<V>(s1: Seq<(String, V)>, s2: Seq<(String, V)>)
    requires
        keys_increasing(s1),
        keys_increasing(s2),
        entries_map(s1).dom() == entries_map(s2).dom(),
    ensures
        s1.len() == s2.len(),
        forall|i: int| 0 <= i < s1.len() ==> (#[trigger] s1[i]).0@ == s2[i].0@,
    decreases s1.len() + s2.len(),
{
    if s1.len() == 0 || s2.len() == 0 {
        if s1.len() > 0 {
            assert(entries_map(s1).contains_key(s1.last().0@));
        }
        if s2.len() > 0 {
            assert(entries_map(s2).contains_key(s2.last().0@));
        }
    } else {
        let k1 = s1.last().0@;
        let k2 = s2.last().0@;
        lemma_increasing_map_last(s1);
        lemma_increasing_map_last(s2);
        assert(entries_map(s1).contains_key(k1));
        assert(entries_map(s2).contains_key(k2));
        assert(entries_map(s2).contains_key(k1));
        assert(entries_map(s1).contains_key(k2));
        if k1 != k2 {
            lemma_seq_less_total(k1, k2);
        }
        assert(k1 == k2);
        let d1 = s1.drop_last();
        let d2 = s2.drop_last();
        assert forall|i: int, j: int| 0 <= i < j < d1.len() implies seq_less(#[trigger] d1[i].0@, #[trigger] d1[j].0@) by {
            assert(seq_less(s1[i].0@, s1[j].0@));
        }
        assert forall|i: int, j: int| 0 <= i < j < d2.len() implies seq_less(#[trigger] d2[i].0@, #[trigger] d2[j].0@) by {
            assert(seq_less(s2[i].0@, s2[j].0@));
        }
        assert(entries_map(d1).dom() =~= entries_map(d2).dom());
        law_increasing_keys_determined(d1, d2);
        assert forall|i: int| 0 <= i < s1.len() implies (#[trigger] s1[i]).0@ == s2[i].0@ by {
            if i < s1.len() - 1 {
                assert(d1[i] == s1[i]);
                assert(d2[i] == s2[i]);
            }
        }
    }
}

/// In a list of entries with increasing keys, each entry's value is the
/// map's value at its key.
pub proof fn lemma_increasing_entry_value<V>(s: Seq<(String, V)>, i: int)
    requires
        keys_increasing(s),
        0 <= i < s.len(),
    ensures
        entries_map(s).contains_key(s[i].0@),
        entries_map(s)[s[i].0@] == s[i].1,
{
    assert forall|j: int| i < j < s.len() implies s[j].0@ != s[i].0@ by {
        assert(seq_less(s[i].0@, s[j].0@));
        lemma_seq_less_irreflexive(s[i].0@);
    }
    lemma_entries_map_lookup(s, s[i].0@, i);
}

/// Two lists of entries with increasing keys that stand for the same map
/// hold the same entries in the same places.
pub proof fn law_increasing_entries_determined<V>(s1: Seq<(String, V)>, s2: Seq<(String, V)>)
    requires
        keys_increasing(s1),
        keys_increasing(s2),
        entries_map(s1) == entries_map(s2),
    ensures
        s1.len() == s2.len(),
        forall|i: int| 0 <= i < s1.len() ==> (#[trigger] s1[i]).0@ == s2[i].0@ && s1[i].1 == s2[i].1,
{
    law_increasing_keys_determined(s1, s2);
    assert forall|i: int| 0 <= i < s1.len() implies (#[trigger] s1[i]).0@ == s2[i].0@ && s1[i].1 == s2[i].1 by {
        lemma_increasing_entry_value(s1, i);
        lemma_increasing_entry_value(s2, i);
    }
}

/// Replacing the last entry with key `k` by another entry with key `k`
/// updates the map at `k` only.
proof fn lemma_entries_map_update<V>(s: Seq<(String, V)>, i: int, e: (String, V))
    requires
        0 <= i < s.len(),
        s[i].0@ == e.0@,
        forall|j: int| i < j < s.len() ==> s[j].0@ != e.0@,
    ensures
        entries_map(s.update(i, e)) == entries_map(s).insert(e.0@, e.1),
    decreases s.len(),
{
    let t = s.update(i, e);
    if i == s.len() - 1 {
        assert(t.drop_last() =~= s.drop_last());
        assert(entries_map(t) =~= entries_map(s).insert(e.0@, e.1));
    } else {
        assert(t.drop_last() =~= s.drop_last().update(i, e));
        lemma_entries_map_update(s.drop_last(), i, e);
        assert(entries_map(t) =~= entries_map(s).insert(e.0@, e.1));
    }
}

/// The last entry with key `k` gives the map's value at `k`; with no such
/// entry the map has no value at `k`.
proof fn lemma_entries_map_lookup<V>(s: Seq<(String, V)>, k: Seq<char>, i: int)
    requires
        -1 <= i < s.len(),
        i >= 0 ==> s[i].0@ == k,
        forall|j: int| i < j < s.len() ==> s[j].0@ != k,
    ensures
        i >= 0 ==> entries_map(s).contains_key(k) && entries_map(s)[k] == s[i].1,
        i < 0 ==> !entries_map(s).contains_key(k),
    decreases s.len(),
{
    if s.len() > 0 {
        if i == s.len() - 1 {
        } else {
            lemma_entries_map_lookup(s.drop_last(), k, i);
        }
    }
}

impl<V> StrMap<V> {
    #[verifier::type_invariant]
    pub(crate) closed spec fn keys_in_order(self) -> bool {
        keys_increasing(self.entries@)
    }

    /// What the type invariant says of the entries.
    pub(crate) proof fn lemma_keys_in_order(&self)
        requires
            self.keys_in_order(),
        ensures
            keys_increasing(self.spec_entries()),
    {
    }

    /// The entries, in increasing order of their keys.
    pub closed spec fn spec_entries(self) -> Seq<(String, V)> {
        self.entries@
    }

    /// The map that the entries stand for.
    pub open spec fn spec_map(self) -> Map<Seq<char>, V> {
        entries_map(self.spec_entries())
    }

    /// An empty map.
    pub fn new() -> (r: Self)
        ensures
            r.spec_entries().len() == 0,
            r.spec_map() == Map::<Seq<char>, V>::empty(),
    {
        StrMap { entries: Vec::new() }
    }

    /// The entries, in increasing order of their keys.
    pub fn entries(&self) -> (r: &Vec<(String, V)>)
        ensures
            r@ == self.spec_entries(),
            keys_increasing(r@),
    {
        proof {
            use_type_invariant(self);
        }
        &self.entries
    }

    /// The index of the last entry with key `k`, if any.
    fn find(&self, k: &String) -> (r: Option<usize>)
        ensures
            r matches Some(i) ==> i < self.entries@.len() && self.entries@[i as int].0@ == k@,
            r matches Some(i) ==> forall|j: int|
                i < j < self.entries@.len() ==> self.entries@[j].0@ != k@,
            r is None ==> forall|j: int| 0 <= j < self.entries@.len() ==> self.entries@[j].0@ != k@,
    {
        let mut i: usize = self.entries.len();
        while i > 0
            invariant
                i <= self.entries@.len(),
                forall|j: int| i <= j < self.entries@.len() ==> self.entries@[j].0@ != k@,
            decreases i,
        {
            i = i - 1;
            if self.entries[i].0 == *k {
                return Some(i);
            }
        }
        None
    }

    /// Gives `k` the value `v`, in place of any value it had; the entries
    /// stay in increasing order of their keys.
    pub fn insert(&mut self, k: String, v: V)
        ensures
            final(self).spec_map() == old(self).spec_map().insert(k@, v),
            keys_increasing(final(self).spec_entries()),
    {
        proof {
            use_type_invariant(&*self);
        }
        let mut entries: Vec<(String, V)> = Vec::new();
        std::mem::swap(&mut entries, &mut self.entries);
        let ghost s = entries@;
        let mut p: usize = 0;
        loop
            invariant
                p <= s.len(),
                entries@ == s,
                keys_increasing(s),
                forall|i: int| 0 <= i < p ==> seq_less(#[trigger] s[i].0@, k@),
            ensures
                p <= s.len(),
                entries@ == s,
                forall|i: int| 0 <= i < p ==> seq_less(#[trigger] s[i].0@, k@),
                p < s.len() ==> !seq_less(s[p as int].0@, k@),
            decreases s.len() - p,
        {
            if p == entries.len() {
                break;
            }
            if !key_less(&entries[p].0, &k) {
                break;
            }
            p = p + 1;
        }
        if p < entries.len() && entries[p].0 == k {
            proof {
                assert forall|j: int| p < j < s.len() implies s[j].0@ != k@ by {
                    assert(seq_less(s[p as int].0@, s[j].0@));
                    lemma_seq_less_irreflexive(k@);
                }
                lemma_entries_map_update(s, p as int, (k, v));
                let t = s.update(p as int, (k, v));
                assert forall|i: int, j: int| 0 <= i < j < t.len() implies seq_less(
                    #[trigger] t[i].0@,
                    #[trigger] t[j].0@,
                ) by {
                    assert(seq_less(s[i].0@, s[j].0@));
                }
            }
            entries.set(p, (k, v));
        } else {
            proof {
                if p < s.len() {
                    lemma_seq_less_total(s[p as int].0@, k@);
                }
                assert forall|j: int| 0 <= j < s.len() implies s[j].0@ != k@ && (j >= p ==> seq_less(
                    k@,
                    #[trigger] s[j].0@,
                )) by {
                    if j < p {
                        lemma_seq_less_irreflexive(k@);
                    } else {
                        if j > p {
                            assert(seq_less(s[p as int].0@, s[j].0@));
                            lemma_seq_less_transitive(k@, s[p as int].0@, s[j].0@);
                        }
                        lemma_seq_less_irreflexive(k@);
                    }
                }
                lemma_entries_map_insert_fresh(s, p as int, (k, v));
                let t = s.insert(p as int, (k, v));
                assert forall|i: int, j: int| 0 <= i < j < t.len() implies seq_less(
                    #[trigger] t[i].0@,
                    #[trigger] t[j].0@,
                ) by {
                    if j < p {
                        assert(seq_less(s[i].0@, s[j].0@));
                    } else if j == p {
                        assert(seq_less(s[i].0@, k@));
                    } else if i == p {
                        assert(seq_less(k@, s[j - 1].0@));
                    } else if i < p {
                        assert(seq_less(s[i].0@, s[j - 1].0@));
                    } else {
                        assert(seq_less(s[i - 1].0@, s[j - 1].0@));
                    }
                }
            }
            entries.insert(p, (k, v));
        }
        self.entries = entries;
    }

    /// The value of `k`, if it has one.
    pub fn get(&self, k: &str) -> (r: Option<&V>)
        ensures
            r matches Some(v) ==> self.spec_map().contains_key(k@) && *v == self.spec_map()[k@],
            r is None ==> !self.spec_map().contains_key(k@),
    {
        let key = k.to_owned();
        match self.find(&key) {
            Some(i) => {
                proof {
                    lemma_entries_map_lookup(self.entries@, k@, i as int);
                }
                Some(&self.entries[i].1)
            },
            None => {
                proof {
                    lemma_entries_map_lookup(self.entries@, k@, -1);
                }
                None
            },
        }
    }
}


/// A JSON number.
#[derive(Debug, Clone, PartialEq, Eq)]
pub enum Number {
    /// A whole number of zero or more.
    PosInt(u64),
    /// A whole number below zero.
    NegInt(i64),
    /// A number with a fraction or an exponent, held as the decimal text
    /// that stands for it.
    Float(String),
}

/// A JSON value.
#[derive(Debug, PartialEq, Eq)]
pub enum Json {
    Null,
    Bool(bool),
    Number(Number),
    String(String),
    Array(Vec<Json>),
    Object(StrMap<Json>),
}

/// A value found by following a path.
#[derive(Debug)]
pub enum ScopedJson<'rc> {
    /// A value inside the context data, with its path from the top.
    Context(&'rc Json, Vec<String>),
    /// A value of its own, such as a copy of part of a block parameter.
    Derived(Json),
    /// Nothing is found at the path.
    Missing,
}

/// What a JSON number stands for.
#[verifier::ext_equal]
pub enum NumberValue {
    /// A number held as a whole number of zero or more.
    PosInt(int),
    /// A number held as a whole number below zero.
    NegInt(int),
    /// A number held as decimal text.
    Float(Seq<char>),
}

/// What a JSON value stands for: strings as their characters, arrays as
/// sequences and objects as maps from keys to values. As an object's
/// entries stand in increasing order of their keys, its map fixes them
/// (see `law_object_view_determines_entries`).
#[verifier::ext_equal]
pub enum JsonValue {
    Null,
    Bool(bool),
    Number(NumberValue),
    String(Seq<char>),
    Array(Seq<JsonValue>),
    Object(Map<Seq<char>, JsonValue>),
}

/// The map that a list of keyed values stands for: a later entry for a key
/// hides an earlier one.
pub open spec fn pairs_map(s: Seq<(Seq<char>, JsonValue)>) -> Map<Seq<char>, JsonValue>
    decreases s.len(),
{
    if s.len() == 0 {
        Map::empty()
    } else {
        pairs_map(s.drop_last()).insert(s.last().0, s.last().1)
    }
}

pub open spec fn number_view(n: Number) -> NumberValue {
    match n {
        Number::PosInt(u) => NumberValue::PosInt(u as int),
        Number::NegInt(i) => NumberValue::NegInt(i as int),
        Number::Float(s) => NumberValue::Float(s@),
    }
}

/// What each entry of an object stands for.
pub closed spec fn entries_view(s: Seq<(String, Json)>) -> Seq<(Seq<char>, JsonValue)>
    decreases s, 1int,
{
    Seq::new(
        s.len(),
        |i: int|
            if 0 <= i < s.len() {
                (s[i].0@, json_view(s[i].1))
            } else {
                (Seq::empty(), JsonValue::Null)
            },
    )
}

/// What a JSON value stands for.
pub closed spec fn json_view(j: Json) -> JsonValue
    decreases j, 0int,
{
    match j {
        Json::Null => JsonValue::Null,
        Json::Bool(b) => JsonValue::Bool(b),
        Json::Number(n) => JsonValue::Number(number_view(n)),
        Json::String(s) => JsonValue::String(s@),
        Json::Array(v) => JsonValue::Array(
            Seq::new(
                v@.len(),
                |i: int|
                    if 0 <= i < v@.len() {
                        json_view(v@[i])
                    } else {
                        JsonValue::Null
                    },
            ),
        ),
        Json::Object(m) => JsonValue::Object(pairs_map(entries_view(m.entries@))),
    }
}

impl View for Json {
    type V = JsonValue;

    open spec fn view(&self) -> JsonValue {
        json_view(*self)
    }
}


/// What each value of a map stands for.
pub open spec fn values_view(mp: Map<Seq<char>, Json>) -> Map<Seq<char>, JsonValue> {
    Map::new(|k: Seq<char>| mp.contains_key(k), |k: Seq<char>| mp[k]@)
}

/// The map from keys to what their values stand for.
pub open spec fn object_map_view(m: StrMap<Json>) -> Map<Seq<char>, JsonValue> {
    values_view(m.spec_map())
}

proof fn lemma_pairs_map_entries(s: Seq<(String, Json)>)
    ensures
        pairs_map(entries_view(s)) == Map::new(
            |k: Seq<char>| entries_map(s).contains_key(k),
            |k: Seq<char>| json_view(entries_map(s)[k]),
        ),
    decreases s.len(),
{
    let m = Map::new(
        |k: Seq<char>| entries_map(s).contains_key(k),
        |k: Seq<char>| json_view(entries_map(s)[k]),
    );
    if s.len() == 0 {
        assert(pairs_map(entries_view(s)) =~= m);
    } else {
        assert(entries_view(s.drop_last()) =~= entries_view(s).drop_last());
        lemma_pairs_map_entries(s.drop_last());
        assert(pairs_map(entries_view(s)) =~= m);
    }
}

/// What each kind of JSON value stands for.
pub broadcast proof fn lemma_json_view(j: Json)
    ensures
        #[trigger] j@ == match j {
            Json::Null => JsonValue::Null,
            Json::Bool(b) => JsonValue::Bool(b),
            Json::Number(n) => JsonValue::Number(number_view(n)),
            Json::String(s) => JsonValue::String(s@),
            Json::Array(v) => JsonValue::Array(Seq::new(v@.len(), |i: int| v@[i]@)),
            Json::Object(m) => JsonValue::Object(object_map_view(m)),
        },
{
    match j {
        Json::Array(v) => {
            let a = Seq::new(v@.len(), |i: int| v@[i]@);
            let s = j@->Array_0;
            assert(s =~= a);
        },
        Json::Object(m) => {
            lemma_pairs_map_entries(m.entries@);
            assert(object_map_view(m) =~= pairs_map(entries_view(m.entries@)));
        },
        _ => {},
    }
}

/// Two objects that stand for the same map hold the same keys in the same
/// places, with values that stand for the same.
pub proof fn law_object_view_determines_entries(m1: StrMap<Json>, m2: StrMap<Json>)
    requires
        keys_increasing(m1.spec_entries()),
        keys_increasing(m2.spec_entries()),
        object_map_view(m1) == object_map_view(m2),
    ensures
        m1.spec_entries().len() == m2.spec_entries().len(),
        forall|i: int|
            0 <= i < m1.spec_entries().len() ==> (#[trigger] m1.spec_entries()[i]).0@
                == m2.spec_entries()[i].0@ && m1.spec_entries()[i].1@ == m2.spec_entries()[i].1@,
{
    let s1 = m1.spec_entries();
    let s2 = m2.spec_entries();
    assert(entries_map(s1).dom() =~= entries_map(s2).dom()) by {
        assert forall|k: Seq<char>| entries_map(s1).contains_key(k) == entries_map(s2).contains_key(k) by {
            assert(object_map_view(m1).contains_key(k) == entries_map(s1).contains_key(k));
            assert(object_map_view(m2).contains_key(k) == entries_map(s2).contains_key(k));
        }
    }
    law_increasing_keys_determined(s1, s2);
    assert forall|i: int| 0 <= i < s1.len() implies (#[trigger] s1[i]).0@ == s2[i].0@ && s1[i].1@ == s2[i].1@ by {
        lemma_increasing_entry_value(s1, i);
        lemma_increasing_entry_value(s2, i);
        assert(object_map_view(m1)[s1[i].0@] == s1[i].1@);
        assert(object_map_view(m2)[s2[i].0@] == s2[i].1@);
    }
}

impl Clone for Json {
    fn clone(&self) -> (r: Json)
        ensures
            r@ == self@,
    {
        self.deep_copy()
    }
}

impl Json {
    /// A copy of the value, the same in every part.
    #[verifier::loop_isolation(false)]
    pub fn deep_copy(&self) -> (r: Json)
        ensures
            r@ == self@,
        decreases self,
    {
        match self {
            Json::Null => Json::Null,
            Json::Bool(b) => Json::Bool(*b),
            Json::Number(Number::PosInt(u)) => Json::Number(Number::PosInt(*u)),
            Json::Number(Number::NegInt(i)) => Json::Number(Number::NegInt(*i)),
            Json::Number(Number::Float(t)) => Json::Number(Number::Float(t.clone())),
            Json::String(t) => Json::String(t.clone()),
            Json::Array(v) => {
                let mut w: Vec<Json> = Vec::new();
                let mut i: usize = 0;
                while i < v.len()
                    invariant
                        i <= v@.len(),
                        w@.len() == i,
                        forall|j: int| 0 <= j < i ==> json_view(#[trigger] w@[j]) == json_view(v@[j]),
                    decreases v@.len() - i,
                {
                    proof {
                        vstd::std_specs::vec::axiom_vec_index_decreases(*v, i as int);
                    }
                    let c = v[i].deep_copy();
                    w.push(c);
                    i = i + 1;
                }
                let r = Json::Array(w);
                proof {
                    let a = json_view(r)->Array_0;
                    let b = json_view(*self)->Array_0;
                    assert(a =~= b);
                }
                r
            },
            Json::Object(m) => {
                let mut w: Vec<(String, Json)> = Vec::new();
                let mut i: usize = 0;
                while i < m.entries.len()
                    invariant
                        i <= m.entries@.len(),
                        w@.len() == i,
                        forall|j: int|
                            0 <= j < i ==> (#[trigger] w@[j]).0@ == m.entries@[j].0@ && json_view(
                                w@[j].1,
                            ) == json_view(m.entries@[j].1),
                    decreases m.entries@.len() - i,
                {
                    proof {
                        vstd::std_specs::vec::axiom_vec_index_decreases(m.entries, i as int);
                    }
                    let k = m.entries[i].0.clone();
                    let c = m.entries[i].1.deep_copy();
                    w.push((k, c));
                    i = i + 1;
                }
                proof {
                    use_type_invariant(m);
                    assert forall|a: int, b: int| 0 <= a < b < w@.len() implies seq_less(
                        #[trigger] w@[a].0@,
                        #[trigger] w@[b].0@,
                    ) by {
                        assert(seq_less(m.entries@[a].0@, m.entries@[b].0@));
                    }
                }
                let r = Json::Object(StrMap { entries: w });
                proof {
                    assert(entries_view(w@) =~= entries_view(m.entries@));
                }
                r
            },
        }
    }
}

} // verus!
