//! The results of a run, by step.

use crate::command::CommandResult;
use crate::step::StepId;
use vstd::prelude::*;

verus! {

/// The results recorded so far, one for each step that has one.
#[derive(Debug)]
pub struct RunStatistics {
    commands: Vec<CommandResult>,
}

impl View for RunStatistics {
    type V = Map<StepId, CommandResult>;

    closed spec fn view(&self) -> Map<StepId, CommandResult> {
        Map::new(
            |id: StepId| self.ids().contains(id),
            |id: StepId| self.commands@[self.ids().index_of(id)],
        )
    }
}

impl RunStatistics {
    /// The steps that have a result, in the order in which it was recorded.
    pub closed spec fn ids(&self) -> Seq<StepId> {
        Seq::new(self.commands@.len(), |i: int| self.commands@[i].step_id)
    }

    /// No step has two results.
    pub closed spec fn wf(&self) -> bool {
        self.ids().no_duplicates()
    }

    proof fn lemma_slot(&self, i: int)
        requires
            self.wf(),
            0 <= i < self.commands@.len(),
        ensures
            self.ids().index_of(self.commands@[i].step_id) == i,
            self@.dom().contains(self.commands@[i].step_id),
            self@[self.commands@[i].step_id] == self.commands@[i],
    {
        let id = self.commands@[i].step_id;
        assert(self.ids()[i] == id);
        assert(self.ids().contains(id));
        let j = self.ids().index_of(id);
        assert(0 <= j < self.ids().len() && self.ids()[j] == id);
    }

    /// Statistics without results.
    pub fn new() -> (stats: Self)
        ensures
            stats.wf(),
            stats@ == Map::<StepId, CommandResult>::empty(),
    {
        let stats = RunStatistics { commands: Vec::new() };
        assert(stats@ =~= Map::<StepId, CommandResult>::empty());
        stats
    }

    fn slot_of(&self, id: StepId) -> (found: Option<usize>)
        requires
            self.wf(),
        ensures
            match found {
                Some(index) => index < self.commands@.len() && self.commands@[index as int].step_id
                    == id && self@.dom().contains(id),
                None => !self@.dom().contains(id),
            },
    {
        let mut index: usize = 0;
        while index < self.commands.len()
            invariant
                index <= self.commands@.len(),
                forall|k: int| 0 <= k < index ==> self.ids()[k] != id,
            decreases self.commands@.len() - index,
        {
            if self.commands[index].step_id == id {
                assert(self.ids()[index as int] == id);
                return Some(index);
            }
            index += 1;
        }
        None
    }

    /// Number of results.
    pub fn len(&self) -> (n: usize)
        requires
            self.wf(),
        ensures
            n == self@.dom().len(),
    {
        proof {
            assert(self@.dom() =~= self.ids().to_set());
            self.ids().unique_seq_to_set();
        }
        self.commands.len()
    }

    /// The result of a step, if it has one.
    pub fn get(&self, id: StepId) -> (result: Option<&CommandResult>)
        requires
            self.wf(),
        ensures
            match result {
                Some(r) => self@.dom().contains(id) && *r == self@[id],
                None => !self@.dom().contains(id),
            },
    {
        match self.slot_of(id) {
            Some(index) => {
                proof {
                    self.lemma_slot(index as int);
                }
                Some(&self.commands[index])
            },
            None => None,
        }
    }

    /// Records a result under its step, replacing an earlier one.
    pub fn insert(&mut self, result: CommandResult)
        requires
            old(self).wf(),
        ensures
            final(self).wf(),
            final(self)@ == old(self)@.insert(result.step_id, result),
    {
        let ghost before = *self;
        let ghost id = result.step_id;
        match self.slot_of(result.step_id) {
            Some(index) => {
                self.commands.set(index, result);
                proof {
                    assert(self.ids() =~= before.ids());
                    assert(self.ids()[index as int] == id);
                    assert forall|k: StepId| self@.dom().contains(k) implies #[trigger] self@[k]
                        == before@.insert(id, result)[k] by {
                        let j = self.ids().index_of(k);
                        assert(0 <= j < self.ids().len() && self.ids()[j] == k);
                        before.lemma_slot(j);
                        self.lemma_slot(j);
                        if j != index {
                            assert(self.ids()[j] != self.ids()[index as int]);
                            assert(self.commands@[j] == before.commands@[j]);
                        }
                    }
                    assert(self@.dom() =~= before@.insert(id, result).dom());
                    assert(self@ =~= before@.insert(id, result));
                }
            },
            None => {
                self.commands.push(result);
                proof {
                    let n = before.commands@.len() as int;
                    assert(self.ids() =~= before.ids().push(id));
                    assert forall|i: int, j: int| 0 <= i < j < self.ids().len() implies self.ids()[i]
                        != self.ids()[j] by {
                        if j == n {
                            assert(before.ids()[i] == self.ids()[i]);
                            assert(before.ids().contains(before.ids()[i]));
                        } else {
                            assert(before.ids()[i] != before.ids()[j]);
                        }
                    }
                    assert(self.ids()[n] == id);
                    assert forall|k: StepId| self.ids().contains(k) <==> (before.ids().contains(k)
                        || k == id) by {
                        if self.ids().contains(k) {
                            let j = choose|j: int| 0 <= j < self.ids().len() && self.ids()[j] == k;
                            if j < n {
                                assert(before.ids()[j] == k);
                            }
                        }
                        if before.ids().contains(k) {
                            let j = choose|j: int| 0 <= j < n && before.ids()[j] == k;
                            assert(self.ids()[j] == k);
                        }
                    }
                    assert forall|k: StepId| self@.dom().contains(k) implies #[trigger] self@[k]
                        == before@.insert(id, result)[k] by {
                        let j = self.ids().index_of(k);
                        assert(0 <= j < self.ids().len() && self.ids()[j] == k);
                        self.lemma_slot(j);
                        if j < n {
                            before.lemma_slot(j);
                        }
                    }
                    assert(self@ =~= before@.insert(id, result));
                }
            },
        }
    }
}

} // verus!
