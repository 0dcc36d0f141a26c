//! The summary of a run's progress: how far it is, which steps run, and the
//! line that tells so.

use crate::depgraph::distinct_ids;
use crate::executor::{lemma_step_of, step_of, Executor};
use crate::linearize::step_index_by_id;
use crate::step::{IdSet, Step, StepId};
use crate::text::{decimal, decimal_string, join, joined, texts, truncate_ellipsis, truncated};
use vstd::prelude::*;
use vstd::string::*;

verus! {

/// The columns that are left for the progress line on a terminal of the
/// given width; a width that is not known counts as 80.
pub open spec fn available(terminal_width: Option<u16>) -> int {
    let width = match terminal_width {
        Some(w) => w as int,
        None => 80,
    };
    if width < 44 {
        0
    } else {
        width - 44
    }
}

/// The columns that are left for the progress line.
pub fn available_width(terminal_width: Option<u16>) -> (columns: usize)
    ensures
        columns == available(terminal_width),
{
    let width: usize = match terminal_width {
        Some(w) => w as usize,
        None => 80,
    };
    if width < 44 {
        0
    } else {
        width - 44
    }
}

/// Each identifier is smaller than the next one.
pub open spec fn ascending(ids: Seq<StepId>) -> bool {
    forall|i: int, j: int| 0 <= i < j < ids.len() ==> ids[i].0 < ids[j].0
}

/// The members of a set in ascending order.
pub fn sorted_ids(ids: &IdSet) -> (sorted: Vec<StepId>)
    ensures
        ascending(sorted@),
        sorted@.to_set() == ids@,
{
    let members = ids.to_vec();
    let mut sorted: Vec<StepId> = Vec::new();
    let mut i: usize = 0;
    assert(sorted@.to_set() =~= members@.take(0).to_set());
    while i < members.len()
        invariant
            i <= members@.len(),
            ascending(sorted@),
            sorted@.to_set() == members@.take(i as int).to_set(),
        decreases members@.len() - i,
    {
        let x = members[i];
        let mut p: usize = 0;
        while p < sorted.len() && sorted[p].0 < x.0
            invariant
                p <= sorted@.len(),
                forall|k: int| 0 <= k < p ==> sorted@[k].0 < x.0,
            decreases sorted@.len() - p,
        {
            p += 1;
        }
        let ghost before = sorted@;
        let present = p < sorted.len() && sorted[p].0 == x.0;
        if !present {
            sorted.insert(p, x);
            proof {
                let after = sorted@;
                assert forall|a: int, b: int| 0 <= a < b < after.len() implies after[a].0
                    < after[b].0 by {
                    let oa = if a < p {
                        a
                    } else {
                        a - 1
                    };
                    let ob = if b < p {
                        b
                    } else {
                        b - 1
                    };
                    if a != p && b != p {
                        assert(before[oa].0 < before[ob].0);
                    } else if a == p {
                        assert(after[b] == before[b - 1]);
                        if b - 1 > p {
                            assert(before[p as int].0 < before[b - 1].0);
                        }
                    } else {
                        assert(after[a] == before[a]);
                    }
                }
                assert forall|y: StepId| after.contains(y) <==> (before.contains(y) || y == x) by {
                    if after.contains(y) {
                        let k = choose|k: int| 0 <= k < after.len() && after[k] == y;
                        if k < p {
                            assert(before[k] == y);
                        } else if k > p {
                            assert(before[k - 1] == y);
                        }
                    }
                    if before.contains(y) {
                        let k = choose|k: int| 0 <= k < before.len() && before[k] == y;
                        if k < p {
                            assert(after[k] == y);
                        } else {
                            assert(after[k + 1] == y);
                        }
                    }
                    assert(after[p as int] == x);
                }
            }
        } else {
            assert(sorted@[p as int] == x);
            assert(sorted@.contains(x));
        }
        proof {
            let shorter = members@.take(i as int);
            let longer = members@.take(i + 1);
            assert forall|y: StepId| longer.contains(y) <==> (shorter.contains(y) || y == x) by {
                if longer.contains(y) {
                    let k = choose|k: int| 0 <= k < longer.len() && longer[k] == y;
                    if k < i {
                        assert(shorter[k] == y);
                    }
                }
                if shorter.contains(y) {
                    let k = choose|k: int| 0 <= k < shorter.len() && shorter[k] == y;
                    assert(longer[k] == y);
                }
                assert(longer[i as int] == x);
            }
            assert forall|y: StepId| sorted@.to_set().contains(y) <==> longer.to_set().contains(
                y,
            ) by {
                assert(before.to_set().contains(y) <==> shorter.to_set().contains(y));
                assert(before.to_set().contains(y) <==> before.contains(y));
                assert(shorter.to_set().contains(y) <==> shorter.contains(y));
                if !present {
                    assert(sorted@.contains(y) <==> (before.contains(y) || y == x));
                } else {
                    assert(before.contains(x));
                }
            }
            assert(sorted@.to_set() =~= longer.to_set());
        }
        i += 1;
    }
    proof {
        assert(members@.take(i as int) =~= members@);
        ids.lemma_view();
    }
    sorted
}

/// The names of the steps with the given identifiers.
pub open spec fn names_of(steps: Seq<Step>, ids: Seq<StepId>) -> Seq<Seq<char>> {
    Seq::new(ids.len(), |k: int| step_of(steps, ids[k]).name@)
}

/// The progress line: the number of running steps and their names, cut to
/// the columns that are left; empty where no column is left.
pub open spec fn progress_text(budget: nat, steps: Seq<Step>, ids: Seq<StepId>) -> Seq<char> {
    if budget == 0 {
        Seq::empty()
    } else {
        truncated(budget, decimal(ids.len()) + ": "@ + joined(names_of(steps, ids), ", "@))
    }
}

/// How far a run is.
#[derive(Debug, PartialEq, Eq)]
pub struct Progress {
    /// Number of complete steps.
    pub completed: u64,
    /// Number of steps of the run.
    pub total: u64,
    /// The running steps, in ascending order.
    pub running: Vec<StepId>,
    /// The progress line.
    pub message: String,
}

impl Executor {
    /// The summary of the run's progress, with the progress line cut to
    /// `budget` columns.
    pub fn progress(&self, budget: usize) -> (summary: Progress)
        requires
            self.wf(),
        ensures
            summary.completed == self.completed().len(),
            summary.total == self.graph().dom().len(),
            ascending(summary.running@),
            summary.running@.to_set() == self.running(),
            summary.message@ == progress_text(budget as nat, self.steps(), summary.running@),
    {
        let (completed, total, running) = self.counts();
        let ids = sorted_ids(&running);
        let steps = self.all_steps();
        let mut names: Vec<String> = Vec::new();
        let mut k: usize = 0;
        proof {
            crate::reach::lemma_focused_shape(
                crate::depgraph::graph_of(self.steps()),
                self.target(),
            );
            assert forall|a: int| 0 <= a < ids@.len() implies crate::depgraph::graph_of(
                steps@,
            ).dom().contains(#[trigger] ids@[a]) by {
                assert(ids@.contains(ids@[a]));
                assert(ids@.to_set().contains(ids@[a]));
                assert(self.running().contains(ids@[a]));
                assert(self.graph().dom().contains(ids@[a]));
            }
        }
        while k < ids.len()
            invariant
                k <= ids@.len(),
                steps@ == self.steps(),
                distinct_ids(steps@),
                forall|a: int|
                    0 <= a < ids@.len() ==> crate::depgraph::graph_of(steps@).dom().contains(
                        #[trigger] ids@[a],
                    ),
                names@.len() == k,
                forall|a: int| 0 <= a < k ==> (#[trigger] names@[a])@ == step_of(steps@, ids@[a]).name@,
            decreases ids@.len() - k,
        {
            let index = step_index_by_id(steps.as_slice(), ids[k]);
            proof {
                lemma_step_of(steps@, index as int);
            }
            names.push(steps[index].name.clone());
            k += 1;
        }
        assert(texts(names@) =~= names_of(self.steps(), ids@));
        let message = if budget == 0 {
            String::new()
        } else {
            let mut text = decimal_string(ids.len() as u64);
            text.append(": ");
            let list = join(&names, ", ");
            text.append(list.as_str());
            truncate_ellipsis(budget, text.as_str())
        };
        Progress { completed, total, running: ids, message }
    }
}

} // verus!
