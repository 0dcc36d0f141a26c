//! The configuration map of a run and the values it holds.

use vstd::prelude::*;

verus! {

/// A value of the configuration.
#[derive(Debug, PartialEq, Eq)]
pub enum Value {
    /// A truth value.
    Bool(bool),
    /// A whole number.
    Int(i64),
    /// A text.
    Text(String),
}

impl Clone for Value {
    fn clone(&self) -> (copy: Self)
        ensures
            copy == *self,
    {
        match self {
            Value::Bool(b) => Value::Bool(*b),
            Value::Int(n) => Value::Int(*n),
            Value::Text(text) => Value::Text(text.clone()),
        }
    }
}

/// Mathematical model of the configuration.
pub type ConfigModel = Map<Seq<char>, Value>;

/// The shared configuration of a run: named values that value bindings
/// write and that the producers of later steps read.
#[derive(Debug)]
pub struct ConfigMap {
    entries: Vec<(String, Value)>,
}

impl View for ConfigMap {
    type V = ConfigModel;

    closed spec fn view(&self) -> ConfigModel {
        Map::new(
            |k: Seq<char>| self.keys().contains(k),
            |k: Seq<char>| self.entries@[self.keys().index_of(k)].1,
        )
    }
}

impl ConfigMap {
    /// The keys in the order of the entries.
    pub closed spec fn keys(&self) -> Seq<Seq<char>> {
        Seq::new(self.entries@.len(), |i: int| self.entries@[i].0@)
    }

    /// No key is held twice.
    pub closed spec fn wf(&self) -> bool {
        self.keys().no_duplicates()
    }

    proof fn lemma_slot(&self, i: int)
        requires
            self.wf(),
            0 <= i < self.entries@.len(),
        ensures
            self.keys().index_of(self.entries@[i].0@) == i,
            self@.dom().contains(self.entries@[i].0@),
            self@[self.entries@[i].0@] == self.entries@[i].1,
    {
        let k = self.entries@[i].0@;
        assert(self.keys()[i] == k);
        assert(self.keys().contains(k));
        let j = self.keys().index_of(k);
        assert(0 <= j < self.keys().len() && self.keys()[j] == k);
    }

    /// The configuration without bindings.
    pub fn new() -> (dict: Self)
        ensures
            dict.wf(),
            dict@ == Map::<Seq<char>, Value>::empty(),
    {
        let dict = ConfigMap { entries: Vec::new() };
        assert(dict@ =~= Map::<Seq<char>, Value>::empty());
        dict
    }

    fn slot_of(&self, key: &String) -> (found: Option<usize>)
        requires
            self.wf(),
        ensures
            match found {
                Some(index) => index < self.entries@.len() && self.entries@[index as int].0@
                    == key@ && self@.dom().contains(key@),
                None => !self@.dom().contains(key@),
            },
    {
        let mut index: usize = 0;
        while index < self.entries.len()
            invariant
                index <= self.entries@.len(),
                forall|k: int| 0 <= k < index ==> self.keys()[k] != key@,
            decreases self.entries@.len() - index,
        {
            if self.entries[index].0 == *key {
                assert(self.keys()[index as int] == key@);
                return Some(index);
            }
            index += 1;
        }
        None
    }

    /// Whether a name is bound.
    pub fn contains_key(&self, key: &String) -> (found: bool)
        requires
            self.wf(),
        ensures
            found == self@.dom().contains(key@),
    {
        self.slot_of(key).is_some()
    }

    /// The value bound to a name, if any.
    pub fn get(&self, key: &String) -> (entry: Option<Value>)
        requires
            self.wf(),
        ensures
            match entry {
                Some(value) => self@.dom().contains(key@) && self@[key@] == value,
                None => !self@.dom().contains(key@),
            },
    {
        match self.slot_of(key) {
            Some(index) => {
                proof {
                    self.lemma_slot(index as int);
                }
                Some(self.entries[index].1.clone())
            },
            None => None,
        }
    }

    /// Binds a name to a value, replacing an earlier binding of the name.
    pub fn set(&mut self, key: String, value: Value)
        requires
            old(self).wf(),
        ensures
            final(self).wf(),
            final(self)@ == old(self)@.insert(key@, value),
    {
        let ghost before = *self;
        let ghost k0 = key@;
        let ghost v0 = value;
        match self.slot_of(&key) {
            Some(index) => {
                self.entries.set(index, (key, value));
                proof {
                    assert(self.keys() =~= before.keys());
                    assert(self.keys()[index as int] == k0);
                    assert forall|k: Seq<char>| self@.dom().contains(k) implies #[trigger] self@[k]
                        == before@.insert(k0, v0)[k] by {
                        let j = self.keys().index_of(k);
                        assert(0 <= j < self.keys().len() && self.keys()[j] == k);
                        before.lemma_slot(j);
                        self.lemma_slot(j);
                        if j != index {
                            assert(self.keys()[j] != self.keys()[index as int]);
                            assert(self.entries@[j] == before.entries@[j]);
                        }
                    }
                    assert(self@.dom() =~= before@.insert(k0, v0).dom());
                    assert(self@ =~= before@.insert(k0, v0));
                }
            },
            None => {
                self.entries.push((key, value));
                proof {
                    let n = before.entries@.len() as int;
                    assert(self.keys() =~= before.keys().push(k0));
                    assert forall|i: int, j: int| 0 <= i < j < self.keys().len() implies self.keys()[i]
                        != self.keys()[j] by {
                        if j == n {
                            assert(before.keys()[i] == self.keys()[i]);
                            assert(before.keys().contains(before.keys()[i]));
                        } else {
                            assert(before.keys()[i] != before.keys()[j]);
                        }
                    }
                    assert(self.keys()[n] == k0);
                    assert forall|k: Seq<char>| self.keys().contains(k) <==> (before.keys().contains(
                        k,
                    ) || k == k0) by {
                        if self.keys().contains(k) {
                            let j = choose|j: int| 0 <= j < self.keys().len() && self.keys()[j] == k;
                            if j < n {
                                assert(before.keys()[j] == k);
                            }
                        }
                        if before.keys().contains(k) {
                            let j = choose|j: int| 0 <= j < n && before.keys()[j] == k;
                            assert(self.keys()[j] == k);
                        }
                    }
                    assert forall|k: Seq<char>| self@.dom().contains(k) implies #[trigger] self@[k]
                        == before@.insert(k0, v0)[k] by {
                        let j = self.keys().index_of(k);
                        assert(0 <= j < self.keys().len() && self.keys()[j] == k);
                        self.lemma_slot(j);
                        if j < n {
                            before.lemma_slot(j);
                        }
                    }
                    assert(self@ =~= before@.insert(k0, v0));
                }
            },
        }
    }

}

} // verus!
