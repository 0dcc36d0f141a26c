//! The graph of a run in the DOT language, with the time that each step
//! took.

use crate::command::{duration_text, format_duration, CommandResult};
use crate::statistics::RunStatistics;
use crate::step::{Step, StepId};
use crate::text::{decimal, decimal_string};
use vstd::prelude::*;
use vstd::string::*;

verus! {

/// The time line of a node: the elapsed time and, for a step that was
/// skipped as fresh, a mark; nothing for a step without a result.
pub open spec fn stat_text(stat: Option<CommandResult>) -> Seq<char> {
    match stat {
        Some(st) => duration_text(st.time) + " "@ + (if st.data is Fresh {
            "[fresh]"@
        } else {
            ""@
        }),
        None => ""@,
    }
}

/// The declaration of a node: a box, with a second ring where the step is a
/// target, labelled with the step's number and name and its time line.
pub open spec fn node_text(step: Step, stat: Option<CommandResult>) -> Seq<char> {
    "node"@ + decimal(step.id.0 as nat) + " [shape=box,peripheries="@ + (if step.target_name.is_some() {
        "2"@
    } else {
        "1"@
    }) + ",label=\""@ + decimal(step.id.0 as nat) + ": "@ + step.name@ + "\n"@ + stat_text(stat)
        + "\"]\n"@
}

/// The result of a step, if it has one.
pub open spec fn stat_of(stats: Map<StepId, CommandResult>, id: StepId) -> Option<CommandResult> {
    if stats.dom().contains(id) {
        Some(stats[id])
    } else {
        None
    }
}

/// The declarations of the first `n` steps.
pub open spec fn nodes_text(steps: Seq<Step>, stats: Map<StepId, CommandResult>, n: nat) -> Seq<char>
    decreases n,
{
    if n == 0 || n > steps.len() {
        ""@
    } else {
        nodes_text(steps, stats, (n - 1) as nat) + node_text(
            steps[n - 1],
            stat_of(stats, steps[n - 1].id),
        )
    }
}

/// An edge from a predecessor to the step that requires it.
pub open spec fn edge_text(from: StepId, to: StepId) -> Seq<char> {
    "node"@ + decimal(from.0 as nat) + " -> node"@ + decimal(to.0 as nat) + "\n"@
}

/// The edges from the first `n` of the predecessors to a step.
pub open spec fn edges_into(preds: Seq<StepId>, to: StepId, n: nat) -> Seq<char>
    decreases n,
{
    if n == 0 || n > preds.len() {
        ""@
    } else {
        edges_into(preds, to, (n - 1) as nat) + edge_text(preds[n - 1], to)
    }
}

/// The edges into the first `n` steps.
pub open spec fn edges_text(steps: Seq<Step>, n: nat) -> Seq<char>
    decreases n,
{
    if n == 0 || n > steps.len() {
        ""@
    } else {
        edges_text(steps, (n - 1) as nat) + edges_into(
            steps[n - 1].requires.order(),
            steps[n - 1].id,
            steps[n - 1].requires.order().len(),
        )
    }
}

/// The whole graph: every step as a node, then every dependency as an edge
/// from the predecessor to the step that requires it.
pub open spec fn dot_text(steps: Seq<Step>, stats: Map<StepId, CommandResult>) -> Seq<char> {
    "digraph D {\n"@ + nodes_text(steps, stats, steps.len()) + edges_text(steps, steps.len())
        + "}\n"@
}

fn stat_string(stat: Option<&CommandResult>) -> (text: String)
    ensures
        text@ == stat_text(
            match stat {
                Some(st) => Some(*st),
                None => None,
            },
        ),
{
    proof {
        reveal_strlit("");
    }
    match stat {
        Some(st) => {
            let mut text = format_duration(st.time);
            text.append(" ");
            if st.fresh() {
                text.append("[fresh]");
            } else {
                assert(text@ + ""@ =~= text@);
            }
            text
        },
        None => {
            let text = String::new();
            assert(text@ =~= ""@);
            text
        },
    }
}

fn node_string(step: &Step, stat: Option<&CommandResult>) -> (text: String)
    ensures
        text@ == node_text(
            *step,
            match stat {
                Some(st) => Some(*st),
                None => None,
            },
        ),
{
    let id = decimal_string(step.id.0);
    let mut text = String::from_str("node");
    text.append(id.as_str());
    text.append(" [shape=box,peripheries=");
    if step.target_name.is_some() {
        text.append("2");
    } else {
        text.append("1");
    }
    text.append(",label=\"");
    text.append(id.as_str());
    text.append(": ");
    text.append(step.name.as_str());
    text.append("\n");
    let stat = stat_string(stat);
    text.append(stat.as_str());
    text.append("\"]\n");
    text
}

/// The graph of the steps in the DOT language. Each step is a box named
/// `node` and its number, with a second ring where it is a target; its label
/// holds the number, the name and, where the step has a result, the elapsed
/// time and a mark for a fresh result. Each dependency is an edge from the
/// predecessor to the step that requires it.
pub fn to_dot(steps: &[Step], stats: RunStatistics) -> (dot: String)
    requires
        stats.wf(),
    ensures
        dot@ == dot_text(steps@, stats@),
{
    proof {
        reveal_strlit("");
    }
    let mut dot = String::from_str("digraph D {\n");
    let ghost head = dot@;
    let mut i: usize = 0;
    assert(dot@ =~= head + ""@);
    while i < steps.len()
        invariant
            i <= steps@.len(),
            stats.wf(),
            head == "digraph D {\n"@,
            dot@ == head + nodes_text(steps@, stats@, i as nat),
        decreases steps@.len() - i,
    {
        let node = node_string(&steps[i], stats.get(steps[i].id));
        dot.append(node.as_str());
        assert(dot@ =~= head + nodes_text(steps@, stats@, (i + 1) as nat));
        i += 1;
    }
    let ghost nodes = dot@;
    i = 0;
    assert(dot@ =~= nodes + ""@);
    while i < steps.len()
        invariant
            i <= steps@.len(),
            dot@ == nodes + edges_text(steps@, i as nat),
        decreases steps@.len() - i,
    {
        let preds = steps[i].requires.to_vec();
        let to = decimal_string(steps[i].id.0);
        let ghost before = dot@;
        let mut j: usize = 0;
        proof {
            reveal_strlit("");
        }
        assert(dot@ =~= before + ""@);
        while j < preds.len()
            invariant
                i < steps@.len(),
                j <= preds@.len(),
                preds@ == steps@[i as int].requires.order(),
                to@ == decimal(steps@[i as int].id.0 as nat),
                dot@ == before + edges_into(preds@, steps@[i as int].id, j as nat),
            decreases preds@.len() - j,
        {
            let from = decimal_string(preds[j].0);
            let ghost start = dot@;
            dot.append("node");
            dot.append(from.as_str());
            dot.append(" -> node");
            dot.append(to.as_str());
            dot.append("\n");
            proof {
                assert(dot@ =~= start + edge_text(preds@[j as int], steps@[i as int].id));
                assert(dot@ =~= before + edges_into(preds@, steps@[i as int].id, (j + 1) as nat));
            }
            j += 1;
        }
        assert(dot@ =~= nodes + edges_text(steps@, (i + 1) as nat));
        i += 1;
    }
    dot.append("}\n");
    assert(dot@ =~= dot_text(steps@, stats@));
    dot
}

} // verus!
