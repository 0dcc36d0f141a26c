//! A dictionary of environment variables in which a variable can be marked
//! as unset, with a merge that prefers the left side.

use vstd::prelude::*;

verus! {

/// Mathematical model of an environment dictionary: `None` marks a variable
/// that is to be unset.
pub type EnvModel = Map<Seq<char>, Option<Seq<char>>>;

/// The value of an entry as a sequence of characters.
pub open spec fn value_view(value: Option<String>) -> Option<Seq<char>> {
    match value {
        Some(text) => Some(text@),
        None => None,
    }
}

/// The union of two dictionaries; where both define a key, `a` decides.
pub open spec fn merged(a: EnvModel, b: EnvModel) -> EnvModel {
    Map::new(
        |k: Seq<char>| a.dom().contains(k) || b.dom().contains(k),
        |k: Seq<char>|
            if a.dom().contains(k) {
                a[k]
            } else {
                b[k]
            },
    )
}

/// The variables that are set, with their values.
pub open spec fn finalized(a: EnvModel) -> Map<Seq<char>, Seq<char>> {
    Map::new(|k: Seq<char>| a.dom().contains(k) && a[k].is_some(), |k: Seq<char>| a[k].unwrap())
}

/// The keys of a list of pairs.
pub open spec fn pair_keys(pairs: Seq<(String, String)>) -> Seq<Seq<char>> {
    Seq::new(pairs.len(), |i: int| pairs[i].0@)
}

/// The map that a list of pairs with distinct keys stands for.
pub open spec fn pairs_map(pairs: Seq<(String, String)>) -> Map<Seq<char>, Seq<char>> {
    Map::new(
        |k: Seq<char>| pair_keys(pairs).contains(k),
        |k: Seq<char>| pairs[pair_keys(pairs).index_of(k)].1@,
    )
}

/// Merging is associative.
pub proof fn lemma_merge_associative(a: EnvModel, b: EnvModel, c: EnvModel)
    ensures
        merged(merged(a, b), c) == merged(a, merged(b, c)),
{
    assert(merged(merged(a, b), c) =~= merged(a, merged(b, c)));
}

/// Merging prefers the left side: the keys are those of both sides, every
/// entry of the left side stays, and the right side fills in the rest.
pub proof fn lemma_merge_left_biased(a: EnvModel, b: EnvModel)
    ensures
        merged(a, b).dom() == a.dom().union(b.dom()),
        forall|k: Seq<char>| a.dom().contains(k) ==> #[trigger] merged(a, b)[k] == a[k],
        forall|k: Seq<char>|
            !a.dom().contains(k) && b.dom().contains(k) ==> #[trigger] merged(a, b)[k] == b[k],
{
    assert(merged(a, b).dom() =~= a.dom().union(b.dom()));
}

/// Finalizing drops exactly the entries that are marked as unset and keeps
/// every other entry with its value.
pub proof fn lemma_finalize_drops_unset(a: EnvModel)
    ensures
        forall|k: Seq<char>|
            #[trigger] finalized(a).dom().contains(k) <==> (a.dom().contains(k) && a[k]
                != None::<Seq<char>>),
        forall|k: Seq<char>|
            a.dom().contains(k) && a[k].is_some() ==> #[trigger] finalized(a)[k] == a[k].unwrap(),
{
}

proof fn lemma_take_contains(s: Seq<Seq<char>>, i: int, k: Seq<char>)
    requires
        0 <= i < s.len(),
    ensures
        s.take(i + 1).contains(k) <==> (s.take(i).contains(k) || s[i] == k),
{
    let shorter = s.take(i);
    let longer = s.take(i + 1);
    if longer.contains(k) {
        let j = choose|j: int| 0 <= j < longer.len() && longer[j] == k;
        if j < i {
            assert(shorter[j] == k);
        }
    }
    if shorter.contains(k) {
        let j = choose|j: int| 0 <= j < shorter.len() && shorter[j] == k;
        assert(longer[j] == k);
    }
    if s[i] == k {
        assert(longer[i] == k);
    }
}

/// A dictionary from variable names to values or "unset" marks.
#[derive(Debug)]
pub struct EnvDict {
    entries: Vec<(String, Option<String>)>,
}

impl View for EnvDict {
    type V = EnvModel;

    closed spec fn view(&self) -> EnvModel {
        Map::new(
            |k: Seq<char>| self.keys().contains(k),
            |k: Seq<char>| value_view(self.entries@[self.keys().index_of(k)].1),
        )
    }
}

impl EnvDict {
    /// The keys in the order of the entries.
    pub closed spec fn keys(&self) -> Seq<Seq<char>> {
        Seq::new(self.entries@.len(), |i: int| self.entries@[i].0@)
    }

    /// No key is held twice.
    pub closed spec fn wf(&self) -> bool {
        self.keys().no_duplicates()
    }

    proof fn lemma_slot(&self, i: int)
        requires
            self.wf(),
            0 <= i < self.entries@.len(),
        ensures
            self.keys().index_of(self.entries@[i].0@) == i,
            self@.dom().contains(self.entries@[i].0@),
            self@[self.entries@[i].0@] == value_view(self.entries@[i].1),
    {
        let k = self.entries@[i].0@;
        assert(self.keys()[i] == k);
        assert(self.keys().contains(k));
        let j = self.keys().index_of(k);
        assert(0 <= j < self.keys().len() && self.keys()[j] == k);
    }

    /// The empty dictionary.
    pub fn new() -> (dict: Self)
        ensures
            dict.wf(),
            dict@ == Map::<Seq<char>, Option<Seq<char>>>::empty(),
    {
        let dict = EnvDict { entries: Vec::new() };
        assert(dict@ =~= Map::<Seq<char>, Option<Seq<char>>>::empty());
        dict
    }

    fn slot_of(&self, key: &String) -> (found: Option<usize>)
        requires
            self.wf(),
        ensures
            match found {
                Some(index) => index < self.entries@.len() && self.entries@[index as int].0@
                    == key@ && self@.dom().contains(key@),
                None => !self@.dom().contains(key@),
            },
    {
        let mut index: usize = 0;
        while index < self.entries.len()
            invariant
                index <= self.entries@.len(),
                forall|k: int| 0 <= k < index ==> self.keys()[k] != key@,
            decreases self.entries@.len() - index,
        {
            if self.entries[index].0 == *key {
                assert(self.keys()[index as int] == key@);
                return Some(index);
            }
            index += 1;
        }
        None
    }

    /// Whether the dictionary has an entry for a variable.
    pub fn contains_key(&self, key: &String) -> (found: bool)
        requires
            self.wf(),
        ensures
            found == self@.dom().contains(key@),
    {
        self.slot_of(key).is_some()
    }

    /// The entry of a variable: its value, or `None` inside where the
    /// variable is marked as unset.
    pub fn get(&self, key: &String) -> (entry: Option<Option<String>>)
        requires
            self.wf(),
        ensures
            match entry {
                Some(value) => self@.dom().contains(key@) && self@[key@] == value_view(value),
                None => !self@.dom().contains(key@),
            },
    {
        match self.slot_of(key) {
            Some(index) => {
                proof {
                    self.lemma_slot(index as int);
                }
                Some(self.entries[index].1.clone())
            },
            None => None,
        }
    }

    /// Sets a variable to a value, or marks it as unset with `None`.
    pub fn set(&mut self, key: String, value: Option<String>)
        requires
            old(self).wf(),
        ensures
            final(self).wf(),
            final(self)@ == old(self)@.insert(key@, value_view(value)),
    {
        let ghost before = *self;
        let ghost k0 = key@;
        let ghost v0 = value_view(value);
        match self.slot_of(&key) {
            Some(index) => {
                self.entries.set(index, (key, value));
                proof {
                    assert(self.keys() =~= before.keys());
                    assert(self.keys()[index as int] == k0);
                    assert forall|k: Seq<char>| self@.dom().contains(k) implies #[trigger] self@[k]
                        == before@.insert(k0, v0)[k] by {
                        let j = self.keys().index_of(k);
                        assert(0 <= j < self.keys().len() && self.keys()[j] == k);
                        before.lemma_slot(j);
                        self.lemma_slot(j);
                        if j != index {
                            assert(self.keys()[j] != self.keys()[index as int]);
                            assert(self.entries@[j] == before.entries@[j]);
                        }
                    }
                    assert(self@.dom() =~= before@.insert(k0, v0).dom());
                    assert(self@ =~= before@.insert(k0, v0));
                }
            },
            None => {
                self.entries.push((key, value));
                proof {
                    let n = before.entries@.len() as int;
                    assert(self.keys() =~= before.keys().push(k0));
                    assert forall|i: int, j: int| 0 <= i < j < self.keys().len() implies self.keys()[i]
                        != self.keys()[j] by {
                        if j == n {
                            assert(before.keys()[i] == self.keys()[i]);
                            assert(before.keys().contains(before.keys()[i]));
                        } else {
                            assert(before.keys()[i] != before.keys()[j]);
                        }
                    }
                    assert(self.keys()[n] == k0);
                    assert forall|k: Seq<char>| self.keys().contains(k) <==> (before.keys().contains(
                        k,
                    ) || k == k0) by {
                        if self.keys().contains(k) {
                            let j = choose|j: int| 0 <= j < self.keys().len() && self.keys()[j] == k;
                            if j < n {
                                assert(before.keys()[j] == k);
                            }
                        }
                        if before.keys().contains(k) {
                            let j = choose|j: int| 0 <= j < n && before.keys()[j] == k;
                            assert(self.keys()[j] == k);
                        }
                    }
                    assert forall|k: Seq<char>| self@.dom().contains(k) implies #[trigger] self@[k]
                        == before@.insert(k0, v0)[k] by {
                        let j = self.keys().index_of(k);
                        assert(0 <= j < self.keys().len() && self.keys()[j] == k);
                        self.lemma_slot(j);
                        if j < n {
                            before.lemma_slot(j);
                        }
                    }
                    assert(self@ =~= before@.insert(k0, v0));
                }
            },
        }
    }

    /// Combines two dictionaries: the keys of both, and where both define a
    /// key the entry of `self` wins, an "unset" mark included.
    pub fn merge(self, other: Self) -> (both: Self)
        requires
            self.wf(),
            other.wf(),
        ensures
            both.wf(),
            both@ == merged(self@, other@),
    {
        let ghost left = self@;
        let ghost right = other@;
        let ghost keys = other.keys();
        let mut both = self;
        let mut i: usize = 0;
        while i < other.entries.len()
            invariant
                other.wf(),
                both.wf(),
                i <= other.entries@.len(),
                right == other@,
                keys == other.keys(),
                keys.len() == other.entries@.len(),
                forall|k: Seq<char>| #[trigger]
                    both@.dom().contains(k) <==> (left.dom().contains(k) || keys.take(
                        i as int,
                    ).contains(k)),
                forall|k: Seq<char>|
                    both@.dom().contains(k) ==> #[trigger] both@[k] == merged(left, right)[k],
            decreases other.entries@.len() - i,
        {
            proof {
                other.lemma_slot(i as int);
            }
            let key = other.entries[i].0.clone();
            let ghost before = both@;
            if !both.contains_key(&key) {
                let value = other.entries[i].1.clone();
                both.set(key, value);
            }
            proof {
                assert(keys[i as int] == key@);
                assert forall|k: Seq<char>| #[trigger]
                    both@.dom().contains(k) <==> (left.dom().contains(k) || keys.take(
                        i + 1,
                    ).contains(k)) by {
                    lemma_take_contains(keys, i as int, k);
                    assert(before.dom().contains(k) <==> (left.dom().contains(k) || keys.take(
                        i as int,
                    ).contains(k)));
                }
                assert forall|k: Seq<char>| both@.dom().contains(k) implies #[trigger] both@[k]
                    == merged(left, right)[k] by {
                    if before.dom().contains(k) {
                        assert(before[k] == merged(left, right)[k]);
                    } else {
                        assert(k == key@);
                        assert(!left.dom().contains(k));
                    }
                }
            }
            i += 1;
        }
        proof {
            assert(keys.take(i as int) =~= keys);
            assert forall|k: Seq<char>| both@.dom().contains(k) <==> merged(
                left,
                right,
            ).dom().contains(k) by {
                assert(both@.dom().contains(k) <==> (left.dom().contains(k) || keys.contains(k)));
            }
            assert(both@.dom() =~= merged(left, right).dom());
            assert(both@ =~= merged(left, right));
        }
        both
    }

    /// Drops the entries that are marked as unset and gives the rest as
    /// pairs of name and value, each name once.
    pub fn finalize(self) -> (pairs: Vec<(String, String)>)
        requires
            self.wf(),
        ensures
            pair_keys(pairs@).no_duplicates(),
            pairs_map(pairs@) == finalized(self@),
    {
        let mut pairs: Vec<(String, String)> = Vec::new();
        let ghost mut origin: Seq<int> = Seq::empty();
        let mut i: usize = 0;
        while i < self.entries.len()
            invariant
                self.wf(),
                i <= self.entries@.len(),
                origin.len() == pairs@.len(),
                forall|p: int|
                    0 <= p < origin.len() ==> 0 <= #[trigger] origin[p] < i && pairs@[p].0@
                        == self.entries@[origin[p]].0@ && self.entries@[origin[p]].1 == Some(
                        pairs@[p].1,
                    ),
                forall|p: int, q: int| 0 <= p < q < origin.len() ==> origin[p] < origin[q],
                forall|j: int|
                    0 <= j < i && (#[trigger] self.entries@[j]).1.is_some() ==> exists|p: int|
                        0 <= p < origin.len() && #[trigger] origin[p] == j,
            decreases self.entries@.len() - i,
        {
            match &self.entries[i].1 {
                Some(value) => {
                    let key = self.entries[i].0.clone();
                    pairs.push((key, value.clone()));
                    proof {
                        let before = origin;
                        origin = origin.push(i as int);
                        assert forall|j: int|
                            0 <= j < i + 1 && (#[trigger] self.entries@[j]).1.is_some() implies exists|
                            p: int,
                        |
                            0 <= p < origin.len() && #[trigger] origin[p] == j by {
                            if j < i {
                                let p = choose|p: int|
                                    0 <= p < before.len() && #[trigger] before[p] == j;
                                assert(origin[p] == j);
                            } else {
                                assert(origin[before.len() as int] == j);
                            }
                        }
                    }
                },
                None => {},
            }
            i += 1;
        }
        proof {
            let keys = pair_keys(pairs@);
            assert forall|p: int, q: int| 0 <= p < q < keys.len() implies keys[p] != keys[q] by {
                assert(origin[p] < origin[q]);
                assert(self.keys()[origin[p]] != self.keys()[origin[q]]);
            }
            assert forall|k: Seq<char>| pairs_map(pairs@).dom().contains(k) <==> finalized(
                self@,
            ).dom().contains(k) by {
                if keys.contains(k) {
                    let p = choose|p: int| 0 <= p < keys.len() && keys[p] == k;
                    self.lemma_slot(origin[p]);
                }
                if finalized(self@).dom().contains(k) {
                    let j = self.keys().index_of(k);
                    assert(0 <= j < self.keys().len() && self.keys()[j] == k);
                    self.lemma_slot(j);
                    assert(self.entries@[j].1.is_some());
                    let p = choose|p: int| 0 <= p < origin.len() && #[trigger] origin[p] == j;
                    assert(keys[p] == k);
                }
            }
            assert forall|k: Seq<char>| pairs_map(pairs@).dom().contains(k) implies #[trigger] pairs_map(
                pairs@,
            )[k] == finalized(self@)[k] by {
                let p = keys.index_of(k);
                assert(0 <= p < keys.len() && keys[p] == k);
                self.lemma_slot(origin[p]);
            }
            assert(pairs_map(pairs@) =~= finalized(self@));
        }
        pairs
    }
}

} // verus!
