//! The JSON values that tsconfig files and `package.json` are made of.
//!
//! Numbers are carried as their source text: nothing in the library reads
//! them. An object keeps its entries in order with distinct keys; what it
//! means is the map from keys to values.
use vstd::prelude::*;
use crate::text::str_equal;

verus! {

/// A JSON value.
#[derive(Debug, PartialEq)]
pub enum JsonValue {
    Null,
    Bool(bool),
    Number(String),
    Str(String),
    Array(Vec<JsonValue>),
    Object(JsonMap),
}

/// A JSON object: entries in order, no key twice.
#[derive(Debug, PartialEq)]
pub struct JsonMap {
    entries: Vec<(String, JsonValue)>,
}

/// The map that a sequence of entries denotes (later entries win).
pub open spec fn map_of(es: Seq<(String, JsonValue)>) -> Map<Seq<char>, JsonValue>
    decreases es.len(),
{
    if es.len() == 0 {
        Map::empty()
    } else {
        map_of(es.drop_last()).insert(es.last().0@, es.last().1)
    }
}

/// No entry after `i` has the key of entry `i`.
pub open spec fn last_with_key(es: Seq<(String, JsonValue)>, i: int) -> bool {
    forall|j: int| i < j < es.len() ==> #[trigger] es[j].0@ != es[i].0@
}

pub proof fn lemma_map_of_dom(es: Seq<(String, JsonValue)>, k: Seq<char>)
    ensures
        map_of(es).dom().contains(k) <==> exists|i: int| 0 <= i < es.len() && #[trigger] es[i].0@ == k,
    decreases es.len(),
{
    if es.len() > 0 {
        lemma_map_of_dom(es.drop_last(), k);
        if map_of(es).dom().contains(k) {
            if es.last().0@ != k {
                let i = choose|i: int| 0 <= i < es.drop_last().len() && #[trigger] es.drop_last()[i].0@ == k;
                assert(es[i].0@ == k);
            }
        } else {
            assert forall|i: int| 0 <= i < es.len() implies #[trigger] es[i].0@ != k by {
                if i < es.len() - 1 {
                    assert(es.drop_last()[i] == es[i]);
                }
            }
        }
    }
}

/// The value of a key is the one of its last entry.
pub proof fn lemma_map_of_value(es: Seq<(String, JsonValue)>, i: int)
    requires
        0 <= i < es.len(),
        last_with_key(es, i),
    ensures
        map_of(es).dom().contains(es[i].0@),
        map_of(es)[es[i].0@] == es[i].1,
    decreases es.len(),
{
    if i < es.len() - 1 {
        let d = es.drop_last();
        assert(d[i] == es[i]);
        assert forall|j: int| i < j < d.len() implies #[trigger] d[j].0@ != d[i].0@ by {
            assert(d[j] == es[j]);
        }
        lemma_map_of_value(d, i);
        assert(es[es.len() - 1].0@ != es[i].0@);
    }
}

/// Replacing the value of the last entry of a key is a map insert.
proof fn lemma_map_of_update(es: Seq<(String, JsonValue)>, j: int, v: JsonValue)
    requires
        0 <= j < es.len(),
        last_with_key(es, j),
    ensures
        map_of(es.update(j, (es[j].0, v))) == map_of(es).insert(es[j].0@, v),
    decreases es.len(),
{
    let u = es.update(j, (es[j].0, v));
    if j == es.len() - 1 {
        assert(u.drop_last() =~= es.drop_last());
        assert(map_of(es).insert(es[j].0@, v) =~= map_of(es.drop_last()).insert(es[j].0@, v));
    } else {
        let d = es.drop_last();
        assert(d[j] == es[j]);
        assert forall|m: int| j < m < d.len() implies #[trigger] d[m].0@ != d[j].0@ by {
            assert(d[m] == es[m]);
        }
        lemma_map_of_update(d, j, v);
        assert(u.drop_last() =~= d.update(j, (d[j].0, v)));
        assert(u.last() == es.last());
        assert(es.last().0@ != es[j].0@);
        assert(map_of(u) =~= map_of(es).insert(es[j].0@, v));
    }
}

/// The key sequence of a sequence of entries.
pub open spec fn keys_of(es: Seq<(String, JsonValue)>) -> Seq<Seq<char>> {
    es.map_values(|e: (String, JsonValue)| e.0@)
}

/// The entries whose key is not `k`.
pub open spec fn without_key(es: Seq<(String, JsonValue)>, k: Seq<char>) -> Seq<(String, JsonValue)> {
    es.filter(|e: (String, JsonValue)| e.0@ != k)
}

/// Dropping every entry of a key is a map remove.
proof fn lemma_map_of_without(es: Seq<(String, JsonValue)>, k: Seq<char>)
    ensures
        map_of(without_key(es, k)) == map_of(es).remove(k),
    decreases es.len(),
{
    reveal_with_fuel(Seq::filter, 1);
    if es.len() == 0 {
        assert(map_of(es).remove(k) =~= Map::empty());
    } else {
        lemma_map_of_without(es.drop_last(), k);
        if es.last().0@ == k {
            assert(map_of(es).remove(k) =~= map_of(es.drop_last()).remove(k));
        } else {
            assert(without_key(es, k).drop_last() =~= without_key(es.drop_last(), k));
            assert(map_of(without_key(es, k)) =~= map_of(es).remove(k));
        }
    }
}

impl JsonMap {
    /// The entries, in order.
    pub closed spec fn entries_seq(&self) -> Seq<(String, JsonValue)> {
        self.entries@
    }

    /// What the object means: its keys and their values (the last entry of
    /// a key wins; the library never makes two).
    pub open spec fn view(&self) -> Map<Seq<char>, JsonValue> {
        map_of(self.entries_seq())
    }

    /// An empty object.
    pub fn new() -> (m: JsonMap)
        ensures
            m@ == Map::<Seq<char>, JsonValue>::empty(),
            m.entries_seq().len() == 0,
    {
        JsonMap { entries: Vec::new() }
    }

    /// The entries, moved out.
    pub fn into_entries(self) -> (r: Vec<(String, JsonValue)>)
        ensures
            r@ == self.entries_seq(),
    {
        self.entries
    }

    /// Number of entries.
    pub fn len(&self) -> (n: usize)
        ensures
            n == self.entries_seq().len(),
    {
        self.entries.len()
    }

    /// The `i`-th entry.
    pub fn entry(&self, i: usize) -> (r: (&String, &JsonValue))
        requires
            i < self.entries_seq().len(),
        ensures
            *r.0 == self.entries_seq()[i as int].0,
            *r.1 == self.entries_seq()[i as int].1,
    {
        let e = &self.entries[i];
        (&e.0, &e.1)
    }

    /// Position of the last entry of `key`, if present.
    fn position(&self, key: &str) -> (r: Option<usize>)
        ensures
            match r {
                Some(i) => i < self.entries_seq().len() && self.entries_seq()[i as int].0@ == key@
                    && last_with_key(self.entries_seq(), i as int),
                None => !self@.dom().contains(key@),
            },
    {
        let mut i: usize = self.entries.len();
        while i > 0
            invariant
                i <= self.entries@.len(),
                forall|j: int| i <= j < self.entries@.len() ==> #[trigger] self.entries@[j].0@ != key@,
            decreases i,
        {
            if str_equal(self.entries[i - 1].0.as_str(), key) {
                return Some(i - 1);
            }
            i = i - 1;
        }
        proof {
            lemma_map_of_dom(self.entries@, key@);
        }
        None
    }

    /// Does the object have `key`?
    pub fn contains_key(&self, key: &str) -> (r: bool)
        ensures
            r == self@.dom().contains(key@),
    {
        match self.position(key) {
            Some(i) => {
                proof {
                    lemma_map_of_dom(self.entries@, key@);
                }
                true
            },
            None => false,
        }
    }

    /// The value of `key`, if present.
    pub fn get(&self, key: &str) -> (r: Option<&JsonValue>)
        ensures
            match r {
                Some(v) => self@.dom().contains(key@) && *v == self@[key@],
                None => !self@.dom().contains(key@),
            },
    {
        match self.position(key) {
            Some(i) => {
                proof {
                    lemma_map_of_value(self.entries@, i as int);
                }
                Some(&self.entries[i].1)
            },
            None => None,
        }
    }

    /// Set `key` to `value`: an existing entry keeps its place, a new one is
    /// appended.
    pub fn insert(&mut self, key: String, value: JsonValue)
        ensures
            final(self)@ == old(self)@.insert(key@, value),
            !old(self)@.dom().contains(key@) ==> final(self).entries_seq() == old(self).entries_seq().push(
                (key, value),
            ),
            old(self)@.dom().contains(key@) ==> keys_of(final(self).entries_seq()) == keys_of(
                old(self).entries_seq(),
            ),
    {
        match self.position(key.as_str()) {
            Some(i) => {
                let ghost es = self.entries@;
                proof {
                    lemma_map_of_update(es, i as int, value);
                    lemma_map_of_dom(es, key@);
                    assert(keys_of(es.update(i as int, (es[i as int].0, value))) =~= keys_of(es));
                }
                let old_key = self.take_key(i);
                self.entries.set(i, (old_key, value));
            },
            None => {
                let ghost es = self.entries@;
                proof {
                    assert(es.push((key, value)).drop_last() =~= es);
                }
                self.entries.push((key, value));
            },
        }
    }

    /// A copy of the key of entry `i`, so that the entry can be rebuilt.
    fn take_key(&self, i: usize) -> (k: String)
        requires
            i < self.entries_seq().len(),
        ensures
            k == self.entries_seq()[i as int].0,
    {
        self.entries[i].0.clone()
    }

    /// Remove `key`, returning its value if it was present.
    pub fn remove(&mut self, key: &str) -> (r: Option<JsonValue>)
        ensures
            final(self)@ == old(self)@.remove(key@),
            match r {
                Some(v) => old(self)@.dom().contains(key@) && v == old(self)@[key@],
                None => !old(self)@.dom().contains(key@),
            },
    {
        match self.position(key) {
            Some(i) => {
                let ghost es = self.entries@;
                proof {
                    lemma_map_of_value(es, i as int);
                    lemma_map_of_without(es, key@);
                }
                let mut kept: Vec<(String, JsonValue)> = Vec::new();
                let mut taken: Option<JsonValue> = None;
                let ghost pred = |e: (String, JsonValue)| e.0@ != key@;
                let mut old_entries: Vec<(String, JsonValue)> = Vec::new();
                std::mem::swap(&mut old_entries, &mut self.entries);
                let n = old_entries.len();
                let mut j: usize = 0;
                while j < n
                    invariant
                        j <= n == es.len(),
                        old_entries@.len() == n - j,
                        forall|m: int| 0 <= m < n - j ==> old_entries@[m] == es[j + m],
                        kept@ == es.take(j as int).filter(pred),
                        pred == (|e: (String, JsonValue)| e.0@ != key@),
                        i < n,
                        es[i as int].0@ == key@,
                        last_with_key(es, i as int),
                        j <= i ==> taken is None,
                        j > i ==> taken == Some(es[i as int].1),
                    decreases n - j,
                {
                    let e = old_entries.remove(0);
                    assert(e == es[j as int]);
                    proof {
                        reveal_with_fuel(Seq::filter, 1);
                        assert(es.take(j + 1).drop_last() =~= es.take(j as int));
                    }
                    if str_equal(e.0.as_str(), key) {
                        if j == i {
                            taken = Some(e.1);
                        } else {
                            assert(j < i);
                        }
                    } else {
                        kept.push(e);
                    }
                    proof {
                        assert forall|m: int| 0 <= m < n - (j + 1) implies old_entries@[m] == es[(j + 1) + m] by {
                        }
                    }
                    j = j + 1;
                }
                assert(es.take(n as int) =~= es);
                self.entries = kept;
                taken
            },
            None => {
                assert(old(self)@.remove(key@) =~= old(self)@);
                None
            },
        }
    }
}

} // verus!

verus! {

impl JsonValue {
    /// A deep copy.
    pub fn duplicate(&self) -> (r: JsonValue)
        ensures
            deep_value(r) == deep_value(*self),
        decreases self,
    {
        match self {
            JsonValue::Null => JsonValue::Null,
            JsonValue::Bool(b) => JsonValue::Bool(*b),
            JsonValue::Number(n) => JsonValue::Number(n.clone()),
            JsonValue::Str(s) => JsonValue::Str(s.clone()),
            JsonValue::Array(items) => {
                let mut out: Vec<JsonValue> = Vec::new();
                let mut i: usize = 0;
                while i < items.len()
                    invariant
                        i <= items@.len(),
                        *self is Array,
                        self->Array_0 == *items,
                        out@.len() == i,
                        deep_items(out@) == deep_items(items@.take(i as int)),
                    decreases items@.len() - i,
                {
                    proof {
                        assert(*items == self->Array_0);
                        assert(decreases_to!(*self => self->Array_0));
                        vstd::std_specs::vec::axiom_vec_index_decreases(*items, i as int);
                        assert(decreases_to!(*items => items[i as int]));
                    }
                    let c = items[i].duplicate();
                    let ghost before = out@;
                    out.push(c);
                    proof {
                        assert(out@.drop_last() =~= before);
                        assert(items@.take(i + 1).drop_last() =~= items@.take(i as int));
                    }
                    i = i + 1;
                }
                assert(items@.take(i as int) =~= items@);
                JsonValue::Array(out)
            },
            JsonValue::Object(m) => JsonValue::Object(m.duplicate()),
        }
    }
}

impl JsonMap {
    /// A deep copy.
    pub fn duplicate(&self) -> (r: JsonMap)
        ensures
            deep_entries(r.entries_seq()) == deep_entries(self.entries_seq()),
            keys_of(r.entries_seq()) == keys_of(self.entries_seq()),
        decreases self,
    {
        let mut out: Vec<(String, JsonValue)> = Vec::new();
        let mut i: usize = 0;
        while i < self.entries.len()
            invariant
                i <= self.entries@.len(),
                out@.len() == i,
                deep_entries(out@) == deep_entries(self.entries@.take(i as int)),
                keys_of(out@) == keys_of(self.entries@.take(i as int)),
            decreases self.entries@.len() - i,
        {
            let v = self.entries[i].1.duplicate();
            let k = self.entries[i].0.clone();
            let ghost before = out@;
            out.push((k, v));
            proof {
                assert(out@.drop_last() =~= before);
                assert(self.entries@.take(i + 1).drop_last() =~= self.entries@.take(i as int));
                assert forall|j: int| 0 <= j < i + 1 implies #[trigger] keys_of(out@)[j]
                    == keys_of(self.entries@.take(i + 1))[j] by {
                    if j < i {
                        assert(out@[j] == before[j]);
                        assert(keys_of(before)[j] == keys_of(self.entries@.take(i as int))[j]);
                    }
                }
                assert(keys_of(out@) =~= keys_of(self.entries@.take(i + 1)));
            }
            i = i + 1;
        }
        assert(self.entries@.take(i as int) =~= self.entries@);
        JsonMap { entries: out }
    }
}

} // verus!

verus! {

/// The mathematical value of a JSON document.
pub enum JVal {
    Null,
    Bool(bool),
    Number(Seq<char>),
    Str(Seq<char>),
    Array(Seq<JVal>),
    Object(Map<Seq<char>, JVal>),
}

pub open spec fn deep_value(v: JsonValue) -> JVal
    decreases v, 0int,
{
    match v {
        JsonValue::Null => JVal::Null,
        JsonValue::Bool(b) => JVal::Bool(b),
        JsonValue::Number(n) => JVal::Number(n@),
        JsonValue::Str(s) => JVal::Str(s@),
        JsonValue::Array(items) => JVal::Array(deep_items(items@)),
        JsonValue::Object(m) => JVal::Object(deep_entries(m.entries_seq())),
    }
}

pub open spec fn deep_items(s: Seq<JsonValue>) -> Seq<JVal>
    decreases s, 1int,
{
    if s.len() == 0 {
        seq![]
    } else {
        deep_items(s.drop_last()).push(deep_value(s.last()))
    }
}

pub open spec fn deep_entries(es: Seq<(String, JsonValue)>) -> Map<Seq<char>, JVal>
    decreases es, 1int,
{
    if es.len() == 0 {
        Map::empty()
    } else {
        deep_entries(es.drop_last()).insert(es.last().0@, deep_value(es.last().1))
    }
}

} // verus!

verus! {

pub proof fn lemma_deep_items(s: Seq<JsonValue>)
    ensures
        deep_items(s).len() == s.len(),
        forall|i: int| 0 <= i < s.len() ==> #[trigger] deep_items(s)[i] == deep_value(s[i]),
    decreases s.len(),
{
    if s.len() > 0 {
        lemma_deep_items(s.drop_last());
        assert forall|i: int| 0 <= i < s.len() implies #[trigger] deep_items(s)[i] == deep_value(s[i]) by {
            if i < s.len() - 1 {
                assert(s.drop_last()[i] == s[i]);
            }
        }
    }
}

/// The deep map of some entries is the map of their values' deep views.
pub proof fn lemma_deep_entries(es: Seq<(String, JsonValue)>)
    ensures
        deep_entries(es).dom() == map_of(es).dom(),
        forall|k: Seq<char>| #[trigger] map_of(es).dom().contains(k) ==> deep_entries(es)[k] == deep_value(map_of(es)[k]),
    decreases es.len(),
{
    if es.len() > 0 {
        lemma_deep_entries(es.drop_last());
        assert(deep_entries(es).dom() =~= map_of(es).dom());
    }
}

impl JsonMap {
    /// What the object means, with values taken by their deep view.
    pub open spec fn deep(&self) -> Map<Seq<char>, JVal> {
        deep_entries(self.entries_seq())
    }

    /// `deep` is `view` with every value taken by its deep view.
    pub proof fn lemma_deep(&self)
        ensures
            self.deep().dom() == self@.dom(),
            forall|k: Seq<char>| #[trigger] self@.dom().contains(k) ==> self.deep()[k] == deep_value(self@[k]),
    {
        lemma_deep_entries(self.entries_seq());
    }

    /// `insert`, seen through deep views.
    pub proof fn lemma_deep_insert(&self, after: &JsonMap, k: Seq<char>, v: JsonValue)
        requires
            after@ == self@.insert(k, v),
        ensures
            after.deep() == self.deep().insert(k, deep_value(v)),
    {
        self.lemma_deep();
        after.lemma_deep();
        assert(after.deep() =~= self.deep().insert(k, deep_value(v)));
    }

    /// `remove`, seen through deep views.
    pub proof fn lemma_deep_remove(&self, after: &JsonMap, k: Seq<char>)
        requires
            after@ == self@.remove(k),
        ensures
            after.deep() == self.deep().remove(k),
    {
        self.lemma_deep();
        after.lemma_deep();
        assert(after.deep() =~= self.deep().remove(k));
    }
}

} // verus!
