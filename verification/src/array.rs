//! JSON arrays: ordered lists of values.
use vstd::prelude::*;
use crate::value::{Value, JsonValue};

verus! {

/// A JSON array, an ordered list of values. Its model is the sequence of the values' models.
#[derive(Debug, PartialEq)]
pub struct Array {
    items: Vec<Value>,
}

/// The models of a sequence of values, in order.
pub open spec fn models_of(s: Seq<Value>) -> Seq<JsonValue>
    decreases s,
{
    if s.len() == 0 {
        Seq::empty()
    } else {
        models_of(s.subrange(0, s.len() - 1)).push(s[s.len() - 1].model())
    }
}

/// `models_of` keeps the length and maps each value to its model.
pub proof fn lemma_models_of(s: Seq<Value>)
    ensures
        models_of(s).len() == s.len(),
        forall|i: int| 0 <= i < s.len() ==> #[trigger] models_of(s)[i] == s[i].model(),
    decreases s.len(),
{
    if s.len() > 0 {
        lemma_models_of(s.subrange(0, s.len() - 1));
    }
}

impl Array {
    pub closed spec fn model(self) -> Seq<JsonValue>
        decreases self,
    {
        models_of(self.items@)
    }

    /// An empty array.
    pub fn new() -> (r: Array)
        ensures
            r.model() == Seq::<JsonValue>::empty(),
    {
        let r = Array { items: Vec::new() };
        proof {
            lemma_models_of(r.items@);
        }
        assert(r.model() =~= Seq::<JsonValue>::empty());
        r
    }

    /// The number of items.
    pub fn len(&self) -> (n: usize)
        ensures
            n == self.model().len(),
    {
        proof {
            lemma_models_of(self.items@);
        }
        self.items.len()
    }

    /// Whether the array has no items.
    pub fn is_empty(&self) -> (b: bool)
        ensures
            b == (self.model().len() == 0),
    {
        proof {
            lemma_models_of(self.items@);
        }
        self.items.len() == 0
    }

    /// The item at `index`, or `None` past the end.
    pub fn get(&self, index: usize) -> (r: Option<&Value>)
        ensures
            r is Some <==> index < self.model().len(),
            r matches Some(v) ==> v@ == self.model()[index as int],
    {
        proof {
            lemma_models_of(self.items@);
        }
        if index < self.items.len() {
            Some(&self.items[index])
        } else {
            None
        }
    }

    /// Appends a value at the end.
    pub fn push(&mut self, value: Value)
        ensures
            final(self).model() == old(self).model().push(value@),
    {
        self.items.push(value);
        proof {
            lemma_models_of(self.items@);
            lemma_models_of(old(self).items@);
        }
        assert(self.model() =~= old(self).model().push(value@));
    }

    /// Removes the item at `index`, shifting the later ones down; `false` (and no change)
    /// when `index` is past the end.
    pub fn remove(&mut self, index: usize) -> (removed: bool)
        ensures
            removed == (index < old(self).model().len()),
            removed ==> final(self).model() == old(self).model().remove(index as int),
            !removed ==> final(self).model() == old(self).model(),
    {
        proof {
            lemma_models_of(old(self).items@);
        }
        if index < self.items.len() {
            self.items.remove(index);
            proof {
                lemma_models_of(self.items@);
            }
            assert(self.model() =~= old(self).model().remove(index as int));
            true
        } else {
            false
        }
    }

    /// The items, in order.
    pub fn iter(&self) -> (it: std::slice::Iter<'_, Value>)
        ensures
            vstd::std_specs::slice::into_iter_elts(it).len() == self.model().len(),
            forall|i: int|
                0 <= i < self.model().len() ==> (#[trigger] vstd::std_specs::slice::into_iter_elts(
                    it,
                )[i])@ == self.model()[i],
    {
        proof {
            lemma_models_of(self.items@);
        }
        self.items.iter()
    }

    /// An array holding the given values, in order.
    pub fn from_values(values: Vec<Value>) -> (r: Array)
        ensures
            r.model() == models_of(values@),
    {
        Array { items: values }
    }
}

impl Default for Array {
    fn default() -> (r: Array)
        ensures
            r.model() == Seq::<JsonValue>::empty(),
    {
        Array::new()
    }
}

impl Clone for Array {
    fn clone(&self) -> (r: Self)
        ensures
            r.model() == self.model(),
        decreases self,
    {
        let mut items: Vec<Value> = Vec::new();
        let n = self.items.len();
        for i in 0..n
            invariant
                n == self.items@.len(),
                items@.len() == i,
                forall|j: int| 0 <= j < i ==> #[trigger] items@[j].model() == self.items@[j].model(),
        {
            items.push(self.items[i].clone());
        }
        let r = Array { items };
        proof {
            lemma_models_of(r.items@);
            lemma_models_of(self.items@);
        }
        assert(r.model() =~= self.model());
        r
    }
}

} // verus!
