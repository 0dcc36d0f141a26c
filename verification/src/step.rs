//! Step identifiers, sets of identifiers, and the step record.

use vstd::prelude::*;

verus! {

/// Identifier of a step: assigned in increasing order, starting at zero.
#[derive(Clone, Copy, PartialEq, Eq, Structural, Debug, Hash, PartialOrd, Ord)]
pub struct StepId(pub u64);

impl StepId {
    /// The first identifier of a run.
    pub fn first() -> (id: Self)
        ensures
            id.0 == 0,
    {
        StepId(0)
    }

    /// Hands out the current identifier and advances to the next one.
    pub fn take(&mut self) -> (id: Self)
        requires
            old(self).0 < u64::MAX,
        ensures
            id == *old(self),
            final(self).0 == old(self).0 + 1,
    {
        let current: u64 = self.0;
        self.0 = current + 1;
        StepId(current)
    }
}

/// A finite set of step identifiers, kept in insertion order.
#[derive(Debug)]
pub struct IdSet {
    ids: Vec<StepId>,
}

impl View for IdSet {
    type V = Set<StepId>;

    closed spec fn view(&self) -> Set<StepId> {
        self.ids@.to_set()
    }
}

impl Clone for IdSet {
    fn clone(&self) -> (copy: Self)
        ensures
            copy.order() == self.order(),
            copy@ == self@,
            copy.wf() == self.wf(),
    {
        IdSet { ids: self.ids.clone() }
    }
}

impl IdSet {
    /// The members in the order in which they were inserted.
    pub closed spec fn order(&self) -> Seq<StepId> {
        self.ids@
    }

    /// No identifier is held twice.
    pub closed spec fn wf(&self) -> bool {
        self.ids@.no_duplicates()
    }

    /// The order lists exactly the members, each once.
    pub proof fn lemma_order(&self)
        requires
            self.wf(),
        ensures
            self.order().no_duplicates(),
            self.order().to_set() == self@,
            self.order().len() == self@.len(),
            self@.finite(),
            forall|id: StepId| self@.contains(id) <==> self.order().contains(id),
    {
        self.ids@.unique_seq_to_set();
        assert forall|id: StepId| self@.contains(id) <==> self.order().contains(id) by {}
    }

    /// The members are the elements of the order.
    pub proof fn lemma_view(&self)
        ensures
            self@ == self.order().to_set(),
    {
    }

    /// The empty set.
    pub fn new() -> (set: Self)
        ensures
            set.wf(),
            set@ == Set::<StepId>::empty(),
            set.order() == Seq::<StepId>::empty(),
    {
        let set = IdSet { ids: Vec::new() };
        assert(set.ids@.to_set() =~= Set::<StepId>::empty());
        set
    }

    /// The set of the elements of a vector in which none occurs twice.
    pub fn from_distinct(ids: Vec<StepId>) -> (set: Self)
        requires
            ids@.no_duplicates(),
        ensures
            set.wf(),
            set.order() == ids@,
            set@ == ids@.to_set(),
    {
        IdSet { ids }
    }

    /// Number of members.
    pub fn len(&self) -> (n: usize)
        requires
            self.wf(),
        ensures
            n == self@.len(),
            n == self.order().len(),
    {
        proof {
            self.lemma_order();
        }
        self.ids.len()
    }

    /// Whether the set has no member.
    pub fn is_empty(&self) -> (empty: bool)
        requires
            self.wf(),
        ensures
            empty == (self@ == Set::<StepId>::empty()),
            empty == (self.order().len() == 0),
    {
        proof {
            self.lemma_order();
            if self.ids@.len() == 0 {
                assert(self@ =~= Set::<StepId>::empty());
            } else {
                assert(self@.contains(self.ids@[0]));
            }
        }
        self.ids.len() == 0
    }

    /// The member at a position of the insertion order.
    pub fn get(&self, index: usize) -> (id: StepId)
        requires
            index < self.order().len(),
        ensures
            id == self.order()[index as int],
            self@.contains(id),
    {
        let id = self.ids[index];
        assert(self.ids@.contains(id));
        id
    }

    /// Position of an identifier in the insertion order, if it is a member.
    pub fn position(&self, id: StepId) -> (found: Option<usize>)
        ensures
            match found {
                Some(index) => index < self.order().len() && self.order()[index as int] == id,
                None => !self@.contains(id),
            },
    {
        let mut index: usize = 0;
        while index < self.ids.len()
            invariant
                index <= self.ids@.len(),
                forall|k: int| 0 <= k < index ==> self.ids@[k] != id,
            decreases self.ids@.len() - index,
        {
            if self.ids[index] == id {
                return Some(index);
            }
            index += 1;
        }
        None
    }

    /// Membership test.
    pub fn contains(&self, id: StepId) -> (found: bool)
        ensures
            found == self@.contains(id),
    {
        let position = self.position(id);
        proof {
            if let Some(index) = position {
                assert(self.ids@.contains(id));
            }
        }
        position.is_some()
    }

    /// Adds an identifier; reports whether it was new.
    pub fn insert(&mut self, id: StepId) -> (added: bool)
        requires
            old(self).wf(),
        ensures
            final(self).wf(),
            final(self)@ == old(self)@.insert(id),
            added == !old(self)@.contains(id),
            final(self).order() == if added {
                old(self).order().push(id)
            } else {
                old(self).order()
            },
    {
        if self.contains(id) {
            assert(self@ =~= old(self)@.insert(id));
            false
        } else {
            self.ids.push(id);
            proof {
                let before = old(self).ids@;
                let after = self.ids@;
                assert(after == before.push(id));
                assert forall|i: int, j: int| 0 <= i < j < after.len() implies after[i]
                    != after[j] by {
                    if j < before.len() {
                        assert(before[i] != before[j]);
                    } else {
                        assert(before.contains(before[i]));
                    }
                }
                assert forall|x: StepId| after.to_set().contains(x) <==> before.to_set().insert(
                    id,
                ).contains(x) by {
                    if after.contains(x) {
                        let k = choose|k: int| 0 <= k < after.len() && after[k] == x;
                        if k < before.len() {
                            assert(before[k] == x);
                            assert(before.contains(x));
                        }
                    }
                    if before.contains(x) {
                        let k = choose|k: int| 0 <= k < before.len() && before[k] == x;
                        assert(after[k] == x);
                    }
                    if x == id {
                        assert(after[before.len() as int] == id);
                    }
                }
                assert(self@ =~= old(self)@.insert(id));
            }
            true
        }
    }

    /// Takes an identifier out; reports whether it was a member.
    pub fn remove(&mut self, id: StepId) -> (removed: bool)
        requires
            old(self).wf(),
        ensures
            final(self).wf(),
            final(self)@ == old(self)@.remove(id),
            removed == old(self)@.contains(id),
            final(self).order() == without(old(self).order(), id),
    {
        let position = self.position(id);
        match position {
            Some(index) => {
                self.ids.remove(index);
                proof {
                    lemma_remove_unique(old(self).ids@, index as int);
                    assert(self.ids@ == old(self).ids@.remove(index as int));
                }
                true
            },
            None => {
                proof {
                    lemma_filter_absent(self.ids@, id);
                    assert(self@ =~= old(self)@.remove(id));
                }
                false
            },
        }
    }

    /// The members as a vector, in insertion order.
    pub fn to_vec(&self) -> (members: Vec<StepId>)
        ensures
            members@ == self.order(),
    {
        self.ids.clone()
    }
}

/// A sequence with every occurrence of one identifier taken out.
pub open spec fn without(s: Seq<StepId>, id: StepId) -> Seq<StepId> {
    s.filter(|x: StepId| x != id)
}

/// The elements of a sequence that are members of a set, in their order.
pub open spec fn within(s: Seq<StepId>, members: Set<StepId>) -> Seq<StepId> {
    s.filter(|x: StepId| members.contains(x))
}

/// Taking one more element into account adds it to the members found so
/// far where it is a member.
pub proof fn lemma_within_step(s: Seq<StepId>, members: Set<StepId>, i: int)
    requires
        0 <= i < s.len(),
    ensures
        within(s.take(i + 1), members) == if members.contains(s[i]) {
            within(s.take(i), members).push(s[i])
        } else {
            within(s.take(i), members)
        },
{
    reveal(Seq::filter);
    assert(s.take(i + 1).drop_last() =~= s.take(i));
}

/// Members that occur in a sequence occur among its members.
pub proof fn lemma_within_contains(s: Seq<StepId>, members: Set<StepId>, x: StepId)
    ensures
        within(s, members).contains(x) <==> (s.contains(x) && members.contains(x)),
    decreases s.len(),
{
    reveal(Seq::filter);
    if s.len() > 0 {
        let front = s.drop_last();
        let found = within(front, members);
        lemma_within_contains(front, members, x);
        let all = within(s, members);
        if members.contains(s.last()) {
            assert(all == found.push(s.last()));
            if found.contains(x) {
                let i = choose|i: int| 0 <= i < found.len() && found[i] == x;
                assert(all[i] == x);
            }
            if x == s.last() {
                assert(all[found.len() as int] == x);
            }
            if all.contains(x) {
                let i = choose|i: int| 0 <= i < all.len() && all[i] == x;
                if i < found.len() {
                    assert(found[i] == x);
                }
            }
        }
        if front.contains(x) {
            let i = choose|i: int| 0 <= i < front.len() && front[i] == x;
            assert(s[i] == x);
        }
        if s.contains(x) {
            let i = choose|i: int| 0 <= i < s.len() && s[i] == x;
            if i < front.len() {
                assert(front[i] == x);
            }
        }
    }
}

/// A sequence all of whose elements are members is left as it is.
pub proof fn lemma_within_all(s: Seq<StepId>, members: Set<StepId>)
    requires
        forall|i: int| 0 <= i < s.len() ==> members.contains(#[trigger] s[i]),
    ensures
        within(s, members) == s,
    decreases s.len(),
{
    reveal(Seq::filter);
    if s.len() > 0 {
        let front = s.drop_last();
        assert forall|i: int| 0 <= i < front.len() implies members.contains(#[trigger] front[i]) by {
            assert(front[i] == s[i]);
        }
        lemma_within_all(front, members);
        assert(members.contains(s[s.len() - 1]));
        assert(front.push(s.last()) =~= s);
    }
}

/// Members keep their order: of two members, the one that comes first in
/// the sequence comes first among the members.
pub proof fn lemma_within_order(s: Seq<StepId>, members: Set<StepId>, a: int, b: int)
    requires
        0 <= a < b < s.len(),
        members.contains(s[a]),
        members.contains(s[b]),
    ensures
        exists|i: int, j: int|
            0 <= i < j < within(s, members).len() && #[trigger] within(s, members)[i] == s[a]
                && #[trigger] within(s, members)[j] == s[b],
    decreases s.len(),
{
    reveal(Seq::filter);
    let front = s.drop_last();
    let found = within(front, members);
    let all = within(s, members);
    if b < s.len() - 1 {
        lemma_within_order(front, members, a, b);
        let (i, j) = choose|i: int, j: int|
            0 <= i < j < found.len() && #[trigger] found[i] == front[a] && #[trigger] found[j]
                == front[b];
        if members.contains(s.last()) {
            assert(all == found.push(s.last()));
        }
        assert(all[i] == s[a] && all[j] == s[b]);
    } else {
        assert(all == found.push(s.last()));
        lemma_within_contains(front, members, s[a]);
        assert(front[a] == s[a]);
        assert(front.contains(s[a]));
        let i = choose|i: int| 0 <= i < found.len() && found[i] == s[a];
        let j = found.len() as int;
        assert(all[i] == s[a] && all[j] == s[b]);
    }
}

/// Taking an identifier out of the members of a sequence is the same as
/// taking it out of the set.
pub proof fn lemma_without_within(s: Seq<StepId>, members: Set<StepId>, x: StepId)
    ensures
        without(within(s, members), x) == within(s, members.remove(x)),
    decreases s.len(),
{
    reveal(Seq::filter);
    if s.len() > 0 {
        let front = s.drop_last();
        let found = within(front, members);
        lemma_without_within(front, members, x);
        if members.contains(s.last()) {
            assert(found.push(s.last()).drop_last() =~= found);
        }
    }
}

/// The identifiers of a list of steps, in order.
pub open spec fn step_ids(steps: Seq<Step>) -> Seq<StepId> {
    Seq::new(steps.len(), |i: int| steps[i].id)
}

/// Filtering out a value that does not occur leaves a sequence as it is.
pub proof fn lemma_filter_absent(s: Seq<StepId>, id: StepId)
    requires
        !s.contains(id),
    ensures
        without(s, id) == s,
    decreases s.len(),
{
    reveal(Seq::filter);
    if s.len() > 0 {
        let front = s.drop_last();
        assert forall|k: int| 0 <= k < front.len() implies front[k] != id by {
            assert(s[k] == front[k]);
            assert(s.contains(s[k]));
        }
        assert(!front.contains(id));
        lemma_filter_absent(front, id);
        assert(s.contains(s.last()));
        assert(s.last() != id);
        assert(front.push(s.last()) =~= s);
    }
}

/// In a sequence without repetition, removing the element at a position is
/// the same as filtering out its value, and removes that value from the set.
pub proof fn lemma_remove_unique(s: Seq<StepId>, index: int)
    requires
        s.no_duplicates(),
        0 <= index < s.len(),
    ensures
        s.remove(index).no_duplicates(),
        s.remove(index) == without(s, s[index]),
        s.remove(index).to_set() == s.to_set().remove(s[index]),
    decreases s.len(),
{
    reveal(Seq::filter);
    let id = s[index];
    let rest = s.remove(index);
    assert forall|i: int, j: int| 0 <= i < j < rest.len() implies rest[i] != rest[j] by {
        let si = if i < index { i } else { i + 1 };
        let sj = if j < index { j } else { j + 1 };
        assert(rest[i] == s[si]);
        assert(rest[j] == s[sj]);
    }
    assert forall|x: StepId| rest.to_set().contains(x) <==> s.to_set().remove(id).contains(
        x,
    ) by {
        if rest.contains(x) {
            let k = choose|k: int| 0 <= k < rest.len() && rest[k] == x;
            let sk = if k < index { k } else { k + 1 };
            assert(s[sk] == x);
            assert(s.contains(x));
        }
        if s.contains(x) && x != id {
            let k = choose|k: int| 0 <= k < s.len() && s[k] == x;
            let rk = if k < index { k } else { k - 1 };
            assert(rest[rk] == x);
        }
    }
    assert(rest.to_set() =~= s.to_set().remove(id));
    let front = s.drop_last();
    if index == s.len() - 1 {
        assert(rest =~= front);
        assert forall|k: int| 0 <= k < front.len() implies front[k] != id by {
            assert(front[k] == s[k]);
        }
        assert(!front.contains(id));
        lemma_filter_absent(front, id);
    } else {
        assert(front.no_duplicates());
        lemma_remove_unique(front, index);
        assert(front[index] == id);
        assert(s.last() != id);
        assert(rest =~= front.remove(index).push(s.last()));
    }
}

/// A node of the dependency graph.
#[derive(Debug)]
pub struct Step {
    /// Identity of the step.
    pub id: StepId,
    /// Direct predecessors: the steps that must complete first.
    pub requires: IdSet,
    /// Handle of the descriptor that says what to run; `None` marks a pure
    /// synchronization node.
    pub descriptor: Option<usize>,
    /// Names of the targets that the descriptor asks to be built first.
    pub wants: Vec<String>,
    /// Name by which the step can be chosen as a build target.
    pub target_name: Option<String>,
    /// Display name.
    pub name: String,
    /// Remark shown to the user.
    pub note: Option<String>,
}

/// The characters of an optional text.
pub open spec fn text_view(text: Option<String>) -> Option<Seq<char>> {
    match text {
        Some(t) => Some(t@),
        None => None,
    }
}

/// The characters of each text of a list.
pub open spec fn names_view(names: Seq<String>) -> Seq<Seq<char>> {
    Seq::new(names.len(), |i: int| names[i]@)
}

/// Mathematical value of a step.
pub struct StepModel {
    /// Identity of the step.
    pub id: StepId,
    /// Direct predecessors.
    pub requires: Set<StepId>,
    /// Handle of the descriptor, if the step has one.
    pub descriptor: Option<usize>,
    /// Names of the targets that the descriptor asks to be built first.
    pub wants: Seq<Seq<char>>,
    /// Name by which the step can be chosen as a build target.
    pub target_name: Option<Seq<char>>,
    /// Display name.
    pub name: Seq<char>,
    /// Remark shown to the user.
    pub note: Option<Seq<char>>,
}

impl View for Step {
    type V = StepModel;

    open spec fn view(&self) -> StepModel {
        StepModel {
            id: self.id,
            requires: self.requires@,
            descriptor: self.descriptor,
            wants: names_view(self.wants@),
            target_name: text_view(self.target_name),
            name: self.name@,
            note: text_view(self.note),
        }
    }
}

/// The values of a list of steps.
pub open spec fn step_views(steps: Seq<Step>) -> Seq<StepModel> {
    Seq::new(steps.len(), |i: int| steps[i]@)
}

impl Clone for Step {
    fn clone(&self) -> (copy: Self)
        ensures
            copy@ == self@,
            copy.requires.order() == self.requires.order(),
            copy.requires.wf() == self.requires.wf(),
            copy.wants@ == self.wants@,
            copy.target_name == self.target_name,
            copy.name == self.name,
            copy.note == self.note,
    {
        let mut wants: Vec<String> = Vec::new();
        let mut i: usize = 0;
        while i < self.wants.len()
            invariant
                i <= self.wants@.len(),
                wants@ == self.wants@.take(i as int),
            decreases self.wants@.len() - i,
        {
            wants.push(self.wants[i].clone());
            assert(wants@ =~= self.wants@.take(i + 1));
            i += 1;
        }
        assert(self.wants@.take(i as int) =~= self.wants@);
        Step {
            id: self.id,
            requires: self.requires.clone(),
            descriptor: self.descriptor,
            wants,
            target_name: self.target_name.clone(),
            name: self.name.clone(),
            note: self.note.clone(),
        }
    }
}

impl Step {
    /// The remark attached to the step, if any.
    pub fn note(&self) -> (note: Option<String>)
        ensures
            note == self.note,
    {
        self.note.clone()
    }
}

} // verus!
