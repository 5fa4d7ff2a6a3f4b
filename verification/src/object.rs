//! JSON objects: ordered lists of named values.
use vstd::prelude::*;
use crate::value::{Value, JsonValue};
use crate::text::{str_eq, chars_of, push_char};

verus! {

/// The members of an object, in order: a key and a value each.
pub type Members = Seq<(Seq<char>, JsonValue)>;

/// A JSON object: named values, kept in the order they were first set.
#[derive(Debug, PartialEq)]
pub struct Object {
    entries: Vec<(String, Value)>,
}

/// The models of a sequence of entries, in order.
pub open spec fn entry_models_of(s: Seq<(String, Value)>) -> Members
    decreases s,
{
    if s.len() == 0 {
        Seq::empty()
    } else {
        entry_models_of(s.subrange(0, s.len() - 1)).push((s[s.len() - 1].0@, s[s.len() - 1].1.model()))
    }
}

/// `entry_models_of` keeps the length and maps each entry to its model.
pub proof fn lemma_entry_models_of(s: Seq<(String, Value)>)
    ensures
        #[trigger] entry_models_of(s).len() == s.len(),
        forall|i: int|
            0 <= i < s.len() ==> #[trigger] entry_models_of(s)[i] == (s[i].0@, s[i].1.model()),
    decreases s.len(),
{
    if s.len() > 0 {
        lemma_entry_models_of(s.subrange(0, s.len() - 1));
    }
}

/// The index of the first member whose key is `k`.
pub open spec fn key_index(m: Members, k: Seq<char>) -> Option<int>
    decreases m.len(),
{
    if m.len() == 0 {
        None
    } else if m[0].0 == k {
        Some(0)
    } else {
        match key_index(m.drop_first(), k) {
            Some(i) => Some(i + 1),
            None => None,
        }
    }
}

/// The value of the first member whose key is `k`.
pub open spec fn lookup(m: Members, k: Seq<char>) -> Option<JsonValue> {
    match key_index(m, k) {
        Some(i) => Some(m[i].1),
        None => None,
    }
}

/// The members after setting `k` to `v`: the first member with key `k` takes the new value
/// in place, or a new member goes at the end.
pub open spec fn set_member(m: Members, k: Seq<char>, v: JsonValue) -> Members {
    match key_index(m, k) {
        Some(i) => m.update(i, (k, v)),
        None => m.push((k, v)),
    }
}

/// The members after removing the first member with key `k`: the last member takes its
/// place.
pub open spec fn remove_member(m: Members, k: Seq<char>) -> Members {
    match key_index(m, k) {
        Some(i) => m.update(i, m[m.len() - 1]).drop_last(),
        None => m,
    }
}

/// The index of the first `.` in `path`.
pub open spec fn dot_index(path: Seq<char>) -> Option<int>
    decreases path.len(),
{
    if path.len() == 0 {
        None
    } else if path[0] == '.' {
        Some(0)
    } else {
        match dot_index(path.drop_first()) {
            Some(i) => Some(i + 1),
            None => None,
        }
    }
}

/// What `dot_index` finds: the first `.`.
pub proof fn lemma_dot_index(path: Seq<char>)
    ensures
        dot_index(path) matches Some(i) ==> 0 <= i < path.len() && path[i] == '.' && forall|j: int|
            0 <= j < i ==> #[trigger] path[j] != '.',
        dot_index(path) is None ==> forall|j: int| 0 <= j < path.len() ==> #[trigger] path[j] != '.',
    decreases path.len(),
{
    if path.len() > 0 {
        lemma_dot_index(path.drop_first());
        if path[0] != '.' {
            assert forall|j: int| 0 < j < path.len() implies path[j] == path.drop_first()[j - 1] by {}
        }
    }
}

/// The value a dotted path names: the part before the first `.` is a key of `m`; when a
/// `.` follows, that key must hold an object, in which the rest of the path is looked up.
pub open spec fn dotted_lookup(m: Members, path: Seq<char>) -> Option<JsonValue>
    decreases path.len(),
{
    match dot_index(path) {
        None => lookup(m, path),
        Some(i) => if 0 <= i < path.len() {
            match lookup(m, path.take(i)) {
                Some(JsonValue::Object(inner)) => dotted_lookup(inner, path.skip(i + 1)),
                _ => None,
            }
        } else {
            None
        },
    }
}

/// A path without a `.` names the member with that key: a dotted lookup of it reads
/// what a plain lookup reads.
pub proof fn law_dotted_plain_key(m: Members, key: Seq<char>)
    requires
        !key.contains('.'),
    ensures
        dotted_lookup(m, key) == lookup(m, key),
{
    lemma_dot_index(key);
    if let Some(i) = dot_index(key) {
        assert(key[i] == '.');
    }
}

/// A path `first.rest`, where `first` holds no `.`, names what `rest` names inside the
/// object held under `first`, and nothing when `first` holds no object.
pub proof fn law_dotted_step(m: Members, first: Seq<char>, rest: Seq<char>)
    requires
        !first.contains('.'),
    ensures
        dotted_lookup(m, first + seq!['.'] + rest) == match lookup(m, first) {
            Some(JsonValue::Object(inner)) => dotted_lookup(inner, rest),
            _ => None,
        },
{
    let path = first + seq!['.'] + rest;
    lemma_dot_index(path);
    let k = first.len() as int;
    assert(path[k] == '.');
    if let Some(i) = dot_index(path) {
        if i < k {
            assert(path[i] == first[i]);
        }
        assert(!(k < i));
        assert(i == k);
    }
    assert(path.take(k) =~= first);
    assert(path.skip(k + 1) =~= rest);
}

/// No two members share a key.
pub open spec fn keys_distinct(m: Members) -> bool {
    forall|i: int, j: int| 0 <= i < j < m.len() ==> #[trigger] m[i].0 != #[trigger] m[j].0
}

/// What `key_index` finds: the first member with that key.
pub proof fn lemma_key_index(m: Members, k: Seq<char>)
    ensures
        key_index(m, k) matches Some(i) ==> 0 <= i < m.len() && m[i].0 == k && forall|j: int|
            0 <= j < i ==> #[trigger] m[j].0 != k,
        key_index(m, k) is None ==> forall|j: int| 0 <= j < m.len() ==> #[trigger] m[j].0 != k,
    decreases m.len(),
{
    if m.len() > 0 {
        lemma_key_index(m.drop_first(), k);
        if m[0].0 != k {
            assert forall|j: int| 0 < j < m.len() implies m[j].0 == m.drop_first()[j - 1].0 by {}
        }
    }
}

/// The first member with key `k` is at index `i`.
pub proof fn lemma_key_index_at(m: Members, k: Seq<char>, i: int)
    requires
        0 <= i < m.len(),
        m[i].0 == k,
        forall|j: int| 0 <= j < i ==> #[trigger] m[j].0 != k,
    ensures
        key_index(m, k) == Some(i),
{
    lemma_key_index(m, k);
    if let Some(i2) = key_index(m, k) {
        assert(!(i2 < i));
        assert(!(i < i2));
    }
}

/// No member has key `k`.
pub proof fn lemma_key_index_none(m: Members, k: Seq<char>)
    requires
        forall|j: int| 0 <= j < m.len() ==> #[trigger] m[j].0 != k,
    ensures
        key_index(m, k) is None,
{
    lemma_key_index(m, k);
}

/// Reading a key back after setting it gives the value set, and leaves every other key as
/// it was.
pub proof fn law_lookup_after_set(m: Members, k: Seq<char>, v: JsonValue, k2: Seq<char>)
    ensures
        lookup(set_member(m, k, v), k) == Some(v),
        k2 != k ==> lookup(set_member(m, k, v), k2) == lookup(m, k2),
{
    lemma_key_index(m, k);
    lemma_key_index(m, k2);
    let m2 = set_member(m, k, v);
    match key_index(m, k) {
        Some(i) => {
            lemma_key_index_at(m2, k, i);
            if k2 != k {
                match key_index(m, k2) {
                    Some(i2) => lemma_key_index_at(m2, k2, i2),
                    None => lemma_key_index_none(m2, k2),
                }
            }
        },
        None => {
            lemma_key_index_at(m2, k, m.len() as int);
            if k2 != k {
                match key_index(m, k2) {
                    Some(i2) => lemma_key_index_at(m2, k2, i2),
                    None => lemma_key_index_none(m2, k2),
                }
            }
        },
    }
}

/// Setting a key keeps the keys distinct, and adds a member exactly when the key was new.
pub proof fn law_set_keeps_keys_distinct(m: Members, k: Seq<char>, v: JsonValue)
    requires
        keys_distinct(m),
    ensures
        keys_distinct(set_member(m, k, v)),
        set_member(m, k, v).len() == if lookup(m, k) is Some { m.len() as int } else { m.len() + 1int },
{
    lemma_key_index(m, k);
}

/// In an object whose keys are distinct, a removed key is gone, every other key keeps its
/// value, and one member fewer remains when the key was there.
pub proof fn law_lookup_after_remove(m: Members, k: Seq<char>, k2: Seq<char>)
    requires
        keys_distinct(m),
    ensures
        lookup(remove_member(m, k), k) is None,
        k2 != k ==> lookup(remove_member(m, k), k2) == lookup(m, k2),
        keys_distinct(remove_member(m, k)),
        remove_member(m, k).len() == if lookup(m, k) is Some { m.len() - 1 } else { m.len() as int },
{
    lemma_key_index(m, k);
    lemma_key_index(m, k2);
    let m2 = remove_member(m, k);
    match key_index(m, k) {
        Some(i) => {
            let last = m.len() - 1;
            assert forall|a: int, b: int| 0 <= a < b < m2.len() implies #[trigger] m2[a].0
                != #[trigger] m2[b].0 by {
                let ia = if a == i { last } else { a };
                let ib = if b == i { last } else { b };
                assert(m2[a] == m[ia]);
                assert(m2[b] == m[ib]);
            }
            lemma_key_index_none(m2, k);
            if k2 != k {
                match key_index(m, k2) {
                    Some(i2) => {
                        if i2 == last {
                            lemma_key_index_at(m2, k2, i);
                        } else {
                            lemma_key_index_at(m2, k2, i2);
                        }
                    },
                    None => {
                        assert forall|j: int| 0 <= j < m2.len() implies #[trigger] m2[j].0 != k2 by {
                            if j == i {
                                assert(m2[j] == m[last]);
                            } else {
                                assert(m2[j] == m[j]);
                            }
                        }
                        lemma_key_index_none(m2, k2);
                    },
                }
            }
        },
        None => {},
    }
}

impl Object {
    pub closed spec fn model(self) -> Members
        decreases self,
    {
        entry_models_of(self.entries@)
    }

    /// An empty object.
    pub fn new() -> (r: Object)
        ensures
            r.model() == Seq::<(Seq<char>, JsonValue)>::empty(),
    {
        let r = Object { entries: Vec::new() };
        proof {
            lemma_entry_models_of(r.entries@);
        }
        assert(r.model() =~= Seq::<(Seq<char>, JsonValue)>::empty());
        r
    }

    /// The number of members.
    pub fn len(&self) -> (n: usize)
        ensures
            n == self.model().len(),
    {
        proof {
            lemma_entry_models_of(self.entries@);
        }
        self.entries.len()
    }

    /// Whether the object has no members.
    pub fn is_empty(&self) -> (b: bool)
        ensures
            b == (self.model().len() == 0),
    {
        proof {
            lemma_entry_models_of(self.entries@);
        }
        self.entries.len() == 0
    }

    /// The index of the first entry whose key is `key`.
    fn position(&self, key: &str) -> (r: Option<usize>)
        ensures
            r matches Some(i) ==> key_index(self.model(), key@) == Some(i as int),
            r is None ==> key_index(self.model(), key@) is None,
    {
        proof {
            lemma_entry_models_of(self.entries@);
        }
        let n = self.entries.len();
        for i in 0..n
            invariant
                n == self.entries@.len(),
                n == self.model().len(),
                forall|j: int| 0 <= j < i ==> #[trigger] self.model()[j].0 != key@,
                forall|j: int|
                    0 <= j < n ==> #[trigger] self.model()[j] == (
                        self.entries@[j].0@,
                        self.entries@[j].1.model(),
                    ),
        {
            if str_eq(self.entries[i].0.as_str(), key) {
                proof {
                    lemma_key_index_at(self.model(), key@, i as int);
                }
                return Some(i);
            }
        }
        proof {
            lemma_key_index_none(self.model(), key@);
        }
        None
    }

    /// The value of the first member named `key`, or `None`.
    pub fn get(&self, key: &str) -> (r: Option<&Value>)
        ensures
            match lookup(self.model(), key@) {
                Some(v) => r matches Some(x) && x@ == v,
                None => r is None,
            },
    {
        proof {
            lemma_entry_models_of(self.entries@);
            lemma_key_index(self.model(), key@);
        }
        match self.position(key) {
            Some(i) => {
                assert(self.model()[i as int] == (self.entries@[i as int].0@, self.entries@[i as int].1.model()));
                Some(&self.entries[i].1)
            },
            None => None,
        }
    }

    /// The value at a dotted path such as `"a.b.c"`, through nested objects, or `None`.
    pub fn get_dotted(&self, dotkey: &str) -> (r: Option<&Value>)
        ensures
            match dotted_lookup(self.model(), dotkey@) {
                Some(v) => r matches Some(x) && x@ == v,
                None => r is None,
            },
        decreases dotkey@.len(),
    {
        let cs = chars_of(dotkey);
        let mut i: usize = 0;
        while i < cs.len() && cs[i] != '.'
            invariant
                i <= cs@.len(),
                cs@ == dotkey@,
                forall|j: int| 0 <= j < i ==> #[trigger] cs@[j] != '.',
            decreases cs@.len() - i,
        {
            i += 1;
        }
        proof {
            lemma_dot_index(dotkey@);
        }
        if i == cs.len() {
            proof {
                if let Some(k) = dot_index(dotkey@) {
                    assert(cs@[k] == '.');
                }
            }
            return self.get(dotkey);
        }
        proof {
            if let Some(k) = dot_index(dotkey@) {
                assert(!(k < i));
                assert(!(i < k));
            }
        }
        let mut first = String::new();
        let mut rest = String::new();
        for j in 0..i
            invariant
                i < cs@.len(),
                first@ == cs@.take(j as int),
        {
            push_char(&mut first, cs[j]);
            assert(first@ =~= cs@.take(j + 1));
        }
        for j in i + 1..cs.len()
            invariant
                i < cs@.len(),
                rest@ == cs@.subrange(i + 1, j as int),
        {
            push_char(&mut rest, cs[j]);
            assert(rest@ =~= cs@.subrange(i + 1, j + 1));
        }
        assert(rest@ =~= dotkey@.skip(i + 1));
        match self.get(first.as_str()) {
            Some(Value::Object(inner)) => inner.get_dotted(rest.as_str()),
            _ => None,
        }
    }

    /// The value at a dotted path such as `"a.b.c"`, as `get_dotted` finds it.
    pub fn dotget(&self, dotkey: &str) -> (r: Option<&Value>)
        ensures
            match dotted_lookup(self.model(), dotkey@) {
                Some(v) => r matches Some(x) && x@ == v,
                None => r is None,
            },
    {
        self.get_dotted(dotkey)
    }

    /// The value of the first member named `key`, for changing in place, or `None`.
    pub fn get_mut(&mut self, key: &str) -> (r: Option<&mut Value>)
        ensures
            r is Some <==> lookup(old(self).model(), key@) is Some,
            r matches Some(x) ==> x@ == lookup(old(self).model(), key@)->0
                && final(self).model() == old(self).model().update(
                key_index(old(self).model(), key@)->0,
                (key@, (*final(x))@),
            ),
            r is None ==> final(self).model() == old(self).model(),
    {
        proof {
            lemma_entry_models_of(self.entries@);
            lemma_key_index(self.model(), key@);
        }
        match self.position(key) {
            Some(i) => {
                assert(i < self.entries@.len());
                assert(self.model()[i as int] == (self.entries@[i as int].0@, self.entries@[i as int].1.model()));
                let r = &mut self.entries[i].1;
                proof {
                    let ghost s2 = old(self).entries@.update(i as int, (old(self).entries@[i as int].0, *final(r)));
                    lemma_entry_models_of(s2);
                    lemma_entry_models_of(old(self).entries@);
                    assert(entry_models_of(s2) =~= old(self).model().update(i as int, (key@, (*final(r))@)));
                }
                Some(r)
            },
            None => None,
        }
    }

    /// Sets the member named `key` to `value`: in place when the key is there, else as a new
    /// last member.
    pub fn set(&mut self, key: String, value: Value)
        ensures
            final(self).model() == set_member(old(self).model(), key@, value@),
    {
        proof {
            lemma_entry_models_of(self.entries@);
            lemma_key_index(self.model(), key@);
        }
        match self.position(key.as_str()) {
            Some(i) => {
                let ghost k = key@;
                self.entries.set(i, (key, value));
                proof {
                    lemma_entry_models_of(self.entries@);
                }
                assert(self.model() =~= old(self).model().update(i as int, (k, value@)));
            },
            None => {
                let ghost k = key@;
                self.entries.push((key, value));
                proof {
                    lemma_entry_models_of(self.entries@);
                }
                assert(self.model() =~= old(self).model().push((k, value@)));
            },
        }
    }

    /// Removes the member named `key`, moving the last member into its place; `true` when
    /// the key was there.
    pub fn remove(&mut self, key: &str) -> (removed: bool)
        ensures
            removed == (lookup(old(self).model(), key@) is Some),
            final(self).model() == remove_member(old(self).model(), key@),
    {
        proof {
            lemma_entry_models_of(self.entries@);
            lemma_key_index(self.model(), key@);
        }
        match self.position(key) {
            Some(i) => {
                self.entries.swap_remove(i);
                proof {
                    lemma_entry_models_of(self.entries@);
                }
                let ghost m = old(self).model();
                assert(self.model() =~= m.update(i as int, m[m.len() - 1]).drop_last());
                true
            },
            None => false,
        }
    }

    /// The key of the member at `index`, or `None` past the end.
    pub fn get_key_at(&self, index: usize) -> (r: Option<&str>)
        ensures
            r is Some <==> index < self.model().len(),
            r matches Some(k) ==> k@ == self.model()[index as int].0,
    {
        proof {
            lemma_entry_models_of(self.entries@);
        }
        if index < self.entries.len() {
            Some(self.entries[index].0.as_str())
        } else {
            None
        }
    }

    /// The value of the member at `index`, or `None` past the end.
    pub fn get_value_at(&self, index: usize) -> (r: Option<&Value>)
        ensures
            r is Some <==> index < self.model().len(),
            r matches Some(v) ==> v@ == self.model()[index as int].1,
    {
        proof {
            lemma_entry_models_of(self.entries@);
        }
        if index < self.entries.len() {
            Some(&self.entries[index].1)
        } else {
            None
        }
    }

    /// The members, in order.
    pub fn iter(&self) -> (it: std::slice::Iter<'_, (String, Value)>)
        ensures
            vstd::std_specs::slice::into_iter_elts(it).len() == self.model().len(),
            forall|i: int|
                0 <= i < self.model().len() ==> {
                    let e = #[trigger] vstd::std_specs::slice::into_iter_elts(it)[i];
                    (e.0@, e.1@) == self.model()[i]
                },
    {
        proof {
            lemma_entry_models_of(self.entries@);
        }
        self.entries.iter()
    }
}

impl Default for Object {
    fn default() -> (r: Object)
        ensures
            r.model() == Seq::<(Seq<char>, JsonValue)>::empty(),
    {
        Object::new()
    }
}

impl Clone for Object {
    fn clone(&self) -> (r: Self)
        ensures
            r.model() == self.model(),
        decreases self,
    {
        let mut entries: Vec<(String, Value)> = Vec::new();
        let n = self.entries.len();
        for i in 0..n
            invariant
                n == self.entries@.len(),
                entries@.len() == i,
                forall|j: int|
                    #![trigger entries@[j]]
                    0 <= j < i ==> entries@[j].0@ == self.entries@[j].0@ && entries@[j].1.model()
                        == self.entries@[j].1.model(),
        {
            let k = self.entries[i].0.clone();
            let v = self.entries[i].1.clone();
            entries.push((k, v));
        }
        let r = Object { entries };
        proof {
            lemma_entry_models_of(r.entries@);
            lemma_entry_models_of(self.entries@);
        }
        assert(r.model() =~= self.model());
        r
    }
}

} // verus!
