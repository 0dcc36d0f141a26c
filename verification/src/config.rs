//! From a nested description of steps to the flat list of steps with their
//! dependencies.

use crate::acyclic::is_acyclic;
use crate::depgraph::{distinct_ids, graph_of, steps_wf, IdGraph};
use crate::linearize::linearize;
use crate::reach::{
    acyclic, closed, depends, edge, kept, lemma_depends_first, lemma_depends_trans,
    lemma_edge_depends, DepMap,
};
use crate::step::{names_view, step_views, text_view, IdSet, Step, StepId, StepModel};
use crate::text::{after_last_slash, basename};
use vstd::prelude::*;
use vstd::string::*;

verus! {

/// What an atom runs, as far as its display name needs it.
#[derive(Debug)]
pub enum AtomKind {
    /// A command; `program` is the first word of its command line.
    Cmd { program: String },
    /// A value binding under `name`.
    Expr { name: String },
    /// Something that is only known when the step is about to run.
    Dynamic,
}

/// One concrete step of a description.
#[derive(Debug)]
pub struct Atom {
    /// Handle of the descriptor that says what to run.
    pub descriptor: usize,
    /// The kind of the atom.
    pub kind: AtomKind,
    /// Names of the targets that must be built first.
    pub wants: Vec<String>,
    /// Remark shown to the user.
    pub note: Option<String>,
}

/// A description: atoms, composed in sequence or side by side.
#[derive(Debug)]
pub enum Composition {
    /// One concrete step.
    Atom(Atom),
    /// Parts that run one after the other, in the given order.
    Ordered(Vec<Composition>),
    /// Parts that may run at the same time; a synchronization step joins
    /// them.
    Unordered(Vec<Composition>),
}

/// A named top-level entry of a description.
#[derive(Debug)]
pub struct Definition {
    /// The target name.
    pub name: String,
    /// What the target consists of.
    pub body: Composition,
}

/// The first `n` parts have no empty sequence and no empty set in them.
pub open spec fn well_formed_items(items: Seq<Composition>, n: nat) -> bool
    decreases items, n,
{
    if n == 0 || n > items.len() {
        true
    } else {
        well_formed_items(items, (n - 1) as nat) && well_formed(items[n - 1])
    }
}

/// No sequence and no set of the composition is empty.
pub open spec fn well_formed(comp: Composition) -> bool
    decreases comp, 0nat,
{
    match comp {
        Composition::Atom(_) => true,
        Composition::Ordered(items) => items@.len() > 0 && well_formed_items(items@, items@.len()),
        Composition::Unordered(items) => items@.len() > 0 && well_formed_items(items@, items@.len()),
    }
}

/// Number of steps that the first `n` parts expand to.
pub open spec fn sizes(items: Seq<Composition>, n: nat) -> nat
    decreases items, n,
{
    if n == 0 || n > items.len() {
        0
    } else {
        sizes(items, (n - 1) as nat) + size(items[n - 1])
    }
}

/// Number of steps that a composition expands to: one for each atom and one
/// for each set.
pub open spec fn size(comp: Composition) -> nat
    decreases comp, 0nat,
{
    match comp {
        Composition::Atom(_) => 1,
        Composition::Ordered(items) => sizes(items@, items@.len()),
        Composition::Unordered(items) => 1 + sizes(items@, items@.len()),
    }
}

/// The part of an atom's display name that tells what it runs.
pub open spec fn sub_name(kind: AtomKind) -> Seq<char> {
    match kind {
        AtomKind::Cmd { program } => after_last_slash(program@),
        AtomKind::Expr { name } => "expr "@ + name@,
        AtomKind::Dynamic => "<dynamic>"@,
    }
}

/// The target name of a step: the name of the definition on its last step.
pub open spec fn target_if(last: bool, name: Seq<char>) -> Option<Seq<char>> {
    if last {
        Some(name)
    } else {
        None
    }
}

/// The step of an atom: it requires the step it is joined to.
pub open spec fn atom_step(atom: Atom, id: StepId, join: StepId, name: Seq<char>, last: bool) -> StepModel {
    StepModel {
        id,
        requires: set![join],
        descriptor: Some(atom.descriptor),
        wants: names_view(atom.wants@),
        target_name: target_if(last, name),
        name: name + ": "@ + sub_name(atom.kind),
        note: text_view(atom.note),
    }
}

/// The synchronization step of a set: it requires the last step of each
/// member.
pub open spec fn collect_step(id: StepId, lasts: Set<StepId>, name: Seq<char>, last: bool) -> StepModel {
    StepModel {
        id,
        requires: lasts,
        descriptor: None,
        wants: Seq::empty(),
        target_name: target_if(last, name),
        name: "collect "@ + name,
        note: None,
    }
}

/// The steps of the first `n` parts of a sequence: each part is joined to
/// the last step of the part before it, the first to `join`.
pub open spec fn expand_seq(
    items: Seq<Composition>,
    n: nat,
    next: nat,
    join: StepId,
    name: Seq<char>,
    last: bool,
) -> Seq<StepModel>
    decreases items, n, 0nat,
{
    if n == 0 || n > items.len() {
        Seq::empty()
    } else {
        let before = expand_seq(items, (n - 1) as nat, next, join, name, last);
        let from = if before.len() == 0 {
            join
        } else {
            before.last().id
        };
        before + expand(items[n - 1], next + before.len(), from, name, last && n == items.len())
    }
}

/// The steps of the first `n` members of a set: each member is joined to
/// `join`.
pub open spec fn expand_par(
    items: Seq<Composition>,
    n: nat,
    next: nat,
    join: StepId,
    name: Seq<char>,
) -> Seq<StepModel>
    decreases items, n, 0nat,
{
    if n == 0 || n > items.len() {
        Seq::empty()
    } else {
        let before = expand_par(items, (n - 1) as nat, next, join, name);
        before + expand(items[n - 1], next + before.len(), join, name, false)
    }
}

/// The last steps of the first `n` members of a set.
pub open spec fn par_lasts(
    items: Seq<Composition>,
    n: nat,
    next: nat,
    join: StepId,
    name: Seq<char>,
) -> Set<StepId>
    decreases items, n, 1nat,
{
    if n == 0 || n > items.len() {
        Set::empty()
    } else {
        par_lasts(items, (n - 1) as nat, next, join, name).insert(
            expand_par(items, n, next, join, name).last().id,
        )
    }
}

/// The steps that a composition expands to, numbered from `next` on. An
/// atom gives one step that requires `join`. A sequence threads the join
/// through its parts. A set joins every member to `join` and ends with a
/// synchronization step, which carries the first number and requires the
/// last step of each member. The last step of the expansion carries the
/// target name where `last` is set.
pub open spec fn expand(comp: Composition, next: nat, join: StepId, name: Seq<char>, last: bool) -> Seq<
    StepModel,
>
    decreases comp, 0nat, 0nat,
{
    match comp {
        Composition::Atom(atom) => seq![atom_step(atom, StepId(next as u64), join, name, last)],
        Composition::Ordered(items) => expand_seq(items@, items@.len(), next, join, name, last),
        Composition::Unordered(items) => expand_par(items@, items@.len(), next + 1, join, name).push(
            collect_step(
                StepId(next as u64),
                par_lasts(items@, items@.len(), next + 1, join, name),
                name,
                last,
            ),
        ),
    }
}

/// The number of steps of an expansion is the size of what is expanded.
pub proof fn lemma_expand_len(comp: Composition, next: nat, join: StepId, name: Seq<char>, last: bool)
    ensures
        expand(comp, next, join, name, last).len() == size(comp),
        well_formed(comp) ==> size(comp) >= 1,
    decreases comp, 0nat,
{
    match comp {
        Composition::Atom(_) => {},
        Composition::Ordered(items) => {
            lemma_expand_seq_len(items@, items@.len(), next, join, name, last);
        },
        Composition::Unordered(items) => {
            lemma_expand_par_len(items@, items@.len(), next + 1, join, name);
        },
    }
}

/// The number of steps of the first `n` parts of a sequence.
pub proof fn lemma_expand_seq_len(
    items: Seq<Composition>,
    n: nat,
    next: nat,
    join: StepId,
    name: Seq<char>,
    last: bool,
)
    requires
        n <= items.len(),
    ensures
        expand_seq(items, n, next, join, name, last).len() == sizes(items, n),
        well_formed_items(items, n) && n >= 1 ==> sizes(items, n) >= 1,
    decreases items, n,
{
    if n > 0 {
        lemma_expand_seq_len(items, (n - 1) as nat, next, join, name, last);
        let before = expand_seq(items, (n - 1) as nat, next, join, name, last);
        let from = if before.len() == 0 {
            join
        } else {
            before.last().id
        };
        lemma_expand_len(items[n - 1], next + before.len(), from, name, last && n == items.len());
    }
}

/// The number of steps of the first `n` members of a set.
pub proof fn lemma_expand_par_len(
    items: Seq<Composition>,
    n: nat,
    next: nat,
    join: StepId,
    name: Seq<char>,
)
    requires
        n <= items.len(),
    ensures
        expand_par(items, n, next, join, name).len() == sizes(items, n),
        well_formed_items(items, n) && n >= 1 ==> sizes(items, n) >= 1,
    decreases items, n,
{
    if n > 0 {
        lemma_expand_par_len(items, (n - 1) as nat, next, join, name);
        let before = expand_par(items, (n - 1) as nat, next, join, name);
        lemma_expand_len(items[n - 1], next + before.len(), join, name, false);
    }
}

/// The size of a prefix of the parts is at most the size of a longer one.
pub proof fn lemma_sizes_mono(items: Seq<Composition>, a: nat, b: nat)
    requires
        a <= b <= items.len(),
    ensures
        sizes(items, a) <= sizes(items, b),
        well_formed_items(items, b) ==> well_formed_items(items, a),
    decreases b,
{
    if a < b {
        lemma_sizes_mono(items, a, (b - 1) as nat);
    }
}

fn clone_names(names: &Vec<String>) -> (copy: Vec<String>)
    ensures
        copy@ == names@,
{
    let mut copy: Vec<String> = Vec::new();
    let mut i: usize = 0;
    while i < names.len()
        invariant
            i <= names@.len(),
            copy@ == names@.take(i as int),
        decreases names@.len() - i,
    {
        copy.push(names[i].clone());
        assert(copy@ =~= names@.take(i + 1));
        i += 1;
    }
    assert(names@.take(i as int) =~= names@);
    copy
}

fn sub_name_of(kind: &AtomKind) -> (text: String)
    ensures
        text@ == sub_name(*kind),
{
    match kind {
        AtomKind::Cmd { program } => basename(program.as_str()),
        AtomKind::Expr { name } => {
            let mut text = String::from_str("expr ");
            text.append(name.as_str());
            text
        },
        AtomKind::Dynamic => String::from_str("<dynamic>"),
    }
}

fn target_name_if(last: bool, name: &str) -> (target: Option<String>)
    ensures
        text_view(target) == target_if(last, name@),
{
    if last {
        Some(String::from_str(name))
    } else {
        None
    }
}

/// Joining two lists of steps joins their values.
pub proof fn lemma_step_views_add(a: Seq<Step>, b: Seq<Step>)
    ensures
        step_views(a + b) == step_views(a) + step_views(b),
{
    assert(step_views(a + b) =~= step_views(a) + step_views(b));
}

/// Expands a composition into its steps. Each step takes the next free
/// identifier. `requires_id` is the step that the composition is joined to,
/// `step_name` the name of the definition it belongs to, and `last_part`
/// says whether its last step ends that definition.
pub fn create_steps(
    comp: &Composition,
    next_id: &mut StepId,
    requires_id: StepId,
    step_name: &str,
    last_part: bool,
) -> (steps: Vec<Step>)
    requires
        well_formed(*comp),
        old(next_id).0 + size(*comp) <= u64::MAX,
    ensures
        step_views(steps@) == expand(
            *comp,
            old(next_id).0 as nat,
            requires_id,
            step_name@,
            last_part,
        ),
        steps@.len() == size(*comp),
        steps@.len() >= 1,
        steps_wf(steps@),
        final(next_id).0 == old(next_id).0 + size(*comp),
    decreases *comp, 0nat,
{
    proof {
        lemma_expand_len(*comp, next_id.0 as nat, requires_id, step_name@, last_part);
    }
    match comp {
        Composition::Atom(atom) => {
            let id = next_id.take();
            let mut preds = IdSet::new();
            preds.insert(requires_id);
            let mut name = String::from_str(step_name);
            name.append(": ");
            let sub = sub_name_of(&atom.kind);
            name.append(sub.as_str());
            let step = Step {
                id,
                requires: preds,
                descriptor: Some(atom.descriptor),
                wants: clone_names(&atom.wants),
                target_name: target_name_if(last_part, step_name),
                name,
                note: atom.note.clone(),
            };
            let mut steps: Vec<Step> = Vec::new();
            steps.push(step);
            proof {
                assert(step@.requires =~= set![requires_id]);
                assert(step_views(steps@) =~= seq![step@]);
            }
            steps
        },
        Composition::Ordered(items) => create_seq(
            items,
            items.len(),
            next_id,
            requires_id,
            step_name,
            last_part,
        ),
        Composition::Unordered(items) => {
            let id = next_id.take();
            let ghost first = next_id.0 as nat;
            let (mut steps, lasts) = create_par(items, items.len(), next_id, requires_id, step_name);
            let mut name = String::from_str("collect ");
            name.append(step_name);
            let step = Step {
                id,
                requires: lasts,
                descriptor: None,
                wants: Vec::new(),
                target_name: target_name_if(last_part, step_name),
                name,
                note: None,
            };
            let ghost before = steps@;
            steps.push(step);
            proof {
                assert(step@.wants =~= Seq::<Seq<char>>::empty());
                assert(step_views(steps@) =~= step_views(before).push(step@));
            }
            steps
        },
    }
}

/// Expands the first `n` parts of a sequence.
pub fn create_seq(
    items: &Vec<Composition>,
    n: usize,
    next_id: &mut StepId,
    requires_id: StepId,
    step_name: &str,
    last_part: bool,
) -> (steps: Vec<Step>)
    requires
        n <= items@.len(),
        well_formed_items(items@, n as nat),
        old(next_id).0 + sizes(items@, n as nat) <= u64::MAX,
    ensures
        step_views(steps@) == expand_seq(
            items@,
            n as nat,
            old(next_id).0 as nat,
            requires_id,
            step_name@,
            last_part,
        ),
        steps@.len() == sizes(items@, n as nat),
        n >= 1 ==> steps@.len() >= 1,
        steps_wf(steps@),
        final(next_id).0 == old(next_id).0 + sizes(items@, n as nat),
    decreases *items, n,
{
    if n == 0 {
        let steps: Vec<Step> = Vec::new();
        assert(step_views(steps@) =~= Seq::<StepModel>::empty());
        return steps;
    }
    proof {
        lemma_expand_seq_len(
            items@,
            n as nat,
            next_id.0 as nat,
            requires_id,
            step_name@,
            last_part,
        );
    }
    let mut steps = create_seq(items, n - 1, next_id, requires_id, step_name, last_part);
    let from = if steps.len() == 0 {
        requires_id
    } else {
        steps[steps.len() - 1].id
    };
    let mut more = create_steps(&items[n - 1], next_id, from, step_name, last_part && n == items.len());
    let ghost before = steps@;
    let ghost added = more@;
    steps.append(&mut more);
    proof {
        lemma_step_views_add(before, added);
        if before.len() > 0 {
            assert(step_views(before).last().id == before.last().id);
        }
    }
    steps
}

/// Expands the first `n` members of a set and collects their last steps.
pub fn create_par(
    items: &Vec<Composition>,
    n: usize,
    next_id: &mut StepId,
    requires_id: StepId,
    step_name: &str,
) -> (result: (Vec<Step>, IdSet))
    requires
        n <= items@.len(),
        well_formed_items(items@, n as nat),
        old(next_id).0 + sizes(items@, n as nat) <= u64::MAX,
    ensures
        step_views(result.0@) == expand_par(
            items@,
            n as nat,
            old(next_id).0 as nat,
            requires_id,
            step_name@,
        ),
        result.0@.len() == sizes(items@, n as nat),
        steps_wf(result.0@),
        result.1.wf(),
        result.1@ == par_lasts(items@, n as nat, old(next_id).0 as nat, requires_id, step_name@),
        final(next_id).0 == old(next_id).0 + sizes(items@, n as nat),
    decreases *items, n,
{
    if n == 0 {
        let steps: Vec<Step> = Vec::new();
        assert(step_views(steps@) =~= Seq::<StepModel>::empty());
        return (steps, IdSet::new());
    }
    proof {
        lemma_expand_par_len(items@, n as nat, next_id.0 as nat, requires_id, step_name@);
    }
    let (mut steps, mut lasts) = create_par(items, n - 1, next_id, requires_id, step_name);
    let mut more = create_steps(&items[n - 1], next_id, requires_id, step_name, false);
    lasts.insert(more[more.len() - 1].id);
    let ghost before = steps@;
    let ghost added = more@;
    steps.append(&mut more);
    proof {
        lemma_step_views_add(before, added);
        assert(step_views(steps@).last().id == added.last().id);
    }
    (steps, lasts)
}

/// Why a description could not be turned into steps.
#[derive(Debug, Clone, Copy, PartialEq, Eq, Structural)]
pub enum BuildError {
    /// A sequence or a set of the description is empty.
    EmptyComposition,
    /// More steps than identifiers.
    TooManySteps,
    /// Two definitions carry the same name.
    DuplicateTarget,
    /// A step asks for a target that no definition carries.
    UnknownDependency,
    /// A step requires itself, directly or through others.
    Cycle,
}

/// Whether no sequence and no set among the first `n` parts is empty.
pub fn are_well_formed(items: &Vec<Composition>, n: usize) -> (ok: bool)
    requires
        n <= items@.len(),
    ensures
        ok == well_formed_items(items@, n as nat),
    decreases *items, n,
{
    if n == 0 {
        true
    } else {
        are_well_formed(items, n - 1) && is_well_formed(&items[n - 1])
    }
}

/// Whether no sequence and no set of the composition is empty.
pub fn is_well_formed(comp: &Composition) -> (ok: bool)
    ensures
        ok == well_formed(*comp),
    decreases *comp, 0nat,
{
    match comp {
        Composition::Atom(_) => true,
        Composition::Ordered(items) => items.len() > 0 && are_well_formed(items, items.len()),
        Composition::Unordered(items) => items.len() > 0 && are_well_formed(items, items.len()),
    }
}

/// The number of steps of the first `n` parts, if it fits.
pub fn count_items(items: &Vec<Composition>, n: usize) -> (count: Option<u64>)
    requires
        n <= items@.len(),
    ensures
        match count {
            Some(c) => c == sizes(items@, n as nat),
            None => sizes(items@, n as nat) > u64::MAX,
        },
    decreases *items, n,
{
    if n == 0 {
        Some(0)
    } else {
        let before = match count_items(items, n - 1) {
            Some(c) => c,
            None => {
                return None;
            },
        };
        let last = match count_steps(&items[n - 1]) {
            Some(c) => c,
            None => {
                return None;
            },
        };
        before.checked_add(last)
    }
}

/// The number of steps of a composition, if it fits.
pub fn count_steps(comp: &Composition) -> (count: Option<u64>)
    ensures
        match count {
            Some(c) => c == size(*comp),
            None => size(*comp) > u64::MAX,
        },
    decreases *comp, 0nat,
{
    match comp {
        Composition::Atom(_) => Some(1),
        Composition::Ordered(items) => count_items(items, items.len()),
        Composition::Unordered(items) => match count_items(items, items.len()) {
            Some(c) => c.checked_add(1),
            None => None,
        },
    }
}

/// The step that every definition starts from.
pub open spec fn start_model() -> StepModel {
    StepModel {
        id: StepId(0),
        requires: Set::empty(),
        descriptor: None,
        wants: Seq::empty(),
        target_name: None,
        name: "start"@,
        note: None,
    }
}

/// The start step followed by the expansions of the first `n` definitions,
/// each joined to the start step and numbered on from the one before.
pub open spec fn drafted(defs: Seq<Definition>, n: nat) -> Seq<StepModel>
    decreases n,
{
    if n == 0 || n > defs.len() {
        seq![start_model()]
    } else {
        let before = drafted(defs, (n - 1) as nat);
        before + expand(defs[n - 1].body, before.len(), StepId(0), defs[n - 1].name@, true)
    }
}

/// Number of steps of the start step and the first `n` definitions.
pub open spec fn total(defs: Seq<Definition>, n: nat) -> nat
    decreases n,
{
    if n == 0 || n > defs.len() {
        1
    } else {
        total(defs, (n - 1) as nat) + size(defs[n - 1].body)
    }
}

/// No definition has an empty sequence or an empty set in it.
pub open spec fn all_well_formed(defs: Seq<Definition>) -> bool {
    forall|k: int| 0 <= k < defs.len() ==> well_formed(#[trigger] defs[k].body)
}

/// The names of the definitions.
pub open spec fn def_names(defs: Seq<Definition>) -> Seq<Seq<char>> {
    Seq::new(defs.len(), |k: int| defs[k].name@)
}

/// The last step of the definition at position `k`.
pub open spec fn terminal(defs: Seq<Definition>, k: int) -> StepId {
    drafted(defs, (k + 1) as nat).last().id
}

/// The last step of the definition that carries a name.
pub open spec fn terminal_of(defs: Seq<Definition>, name: Seq<char>) -> Option<StepId> {
    if def_names(defs).contains(name) {
        Some(terminal(defs, def_names(defs).index_of(name)))
    } else {
        None
    }
}

/// The last steps of the targets that the first `n` of the names stand for.
pub open spec fn wanted_ids(defs: Seq<Definition>, wants: Seq<Seq<char>>, n: int) -> Set<StepId> {
    Set::new(
        |id: StepId| exists|j: int| 0 <= j < n && terminal_of(defs, #[trigger] wants[j]) == Some(id),
    )
}

/// A step with the targets it asks for among its predecessors.
pub open spec fn connect(defs: Seq<Definition>, m: StepModel) -> StepModel {
    StepModel { requires: m.requires + wanted_ids(defs, m.wants, m.wants.len() as int), ..m }
}

/// Every step with the targets it asks for among its predecessors.
pub open spec fn connected(defs: Seq<Definition>, ms: Seq<StepModel>) -> Seq<StepModel> {
    Seq::new(ms.len(), |i: int| connect(defs, ms[i]))
}

/// Every target that a step asks for is carried by a definition.
pub open spec fn resolvable(defs: Seq<Definition>, ms: Seq<StepModel>) -> bool {
    forall|i: int, j: int|
        0 <= i < ms.len() && 0 <= j < ms[i].wants.len() ==> def_names(defs).contains(
            #[trigger] ms[i].wants[j],
        )
}

/// The dependency relation of a list of step values.
pub open spec fn model_graph(ms: Seq<StepModel>) -> DepMap
    decreases ms.len(),
{
    if ms.len() == 0 {
        Map::empty()
    } else {
        model_graph(ms.drop_last()).insert(ms.last().id, ms.last().requires)
    }
}

/// No identifier is used by two step values.
pub open spec fn distinct_model_ids(ms: Seq<StepModel>) -> bool {
    forall|i: int, j: int| 0 <= i < j < ms.len() ==> (#[trigger] ms[i]).id != (#[trigger] ms[j]).id
}

/// Every step with its redundant predecessors dropped.
pub open spec fn reduced_models(ms: Seq<StepModel>) -> Seq<StepModel> {
    Seq::new(
        ms.len(),
        |i: int| StepModel { requires: kept(model_graph(ms), ms[i].id), ..ms[i] },
    )
}

/// The relation of a list of steps is that of its values.
pub proof fn lemma_model_graph(steps: Seq<Step>)
    ensures
        model_graph(step_views(steps)) == graph_of(steps),
        distinct_model_ids(step_views(steps)) == distinct_ids(steps),
    decreases steps.len(),
{
    let ms = step_views(steps);
    if steps.len() > 0 {
        lemma_model_graph(steps.drop_last());
        assert(ms.drop_last() =~= step_views(steps.drop_last()));
    }
    if distinct_ids(steps) {
        assert forall|i: int, j: int| 0 <= i < j < ms.len() implies (#[trigger] ms[i]).id != (
        #[trigger] ms[j]).id by {
            assert(steps[i].id != steps[j].id);
        }
    }
    if distinct_model_ids(ms) {
        assert forall|i: int, j: int| 0 <= i < j < steps.len() implies (#[trigger] steps[i]).id != (
        #[trigger] steps[j]).id by {
            assert(ms[i].id != ms[j].id);
        }
    }
}

/// The number of drafted steps.
pub proof fn lemma_drafted_len(defs: Seq<Definition>, n: nat)
    requires
        n <= defs.len(),
    ensures
        drafted(defs, n).len() == total(defs, n),
        total(defs, n) >= 1,
    decreases n,
{
    if n > 0 {
        lemma_drafted_len(defs, (n - 1) as nat);
        let before = drafted(defs, (n - 1) as nat);
        lemma_expand_len(defs[n - 1].body, before.len(), StepId(0), defs[n - 1].name@, true);
    }
}

/// The drafted steps begin with the start step.
pub proof fn lemma_drafted_first(defs: Seq<Definition>, n: nat)
    ensures
        drafted(defs, n).len() >= 1,
        drafted(defs, n)[0] == start_model(),
    decreases n,
{
    if n > 0 && n <= defs.len() {
        lemma_drafted_first(defs, (n - 1) as nat);
    }
}

/// The total grows with the number of definitions.
pub proof fn lemma_total_mono(defs: Seq<Definition>, a: nat, b: nat)
    requires
        a <= b <= defs.len(),
    ensures
        total(defs, a) <= total(defs, b),
    decreases b,
{
    if a < b {
        lemma_total_mono(defs, a, (b - 1) as nat);
    }
}

/// Every identifier lies between `lo` and `hi`.
pub open spec fn ids_in(ms: Seq<StepModel>, lo: nat, hi: nat) -> bool {
    forall|i: int| 0 <= i < ms.len() ==> lo <= (#[trigger] ms[i]).id.0 < hi
}

/// Some step carries the number as identifier.
pub open spec fn has_id(ms: Seq<StepModel>, x: nat) -> bool {
    exists|i: int| 0 <= i < ms.len() && (#[trigger] ms[i]).id.0 == x
}

/// Every number from `lo` up to `hi` is the identifier of a step.
pub open spec fn covers(ms: Seq<StepModel>, lo: nat, hi: nat) -> bool {
    forall|x: nat| lo <= x < hi ==> #[trigger] has_id(ms, x)
}

/// Every predecessor is the step joined to or lies between `lo` and `hi`.
pub open spec fn preds_in(ms: Seq<StepModel>, join: StepId, lo: nat, hi: nat) -> bool {
    forall|i: int, r: StepId|
        0 <= i < ms.len() && #[trigger] ms[i].requires.contains(r) ==> r == join || lo <= r.0 < hi
}

/// The steps carry the numbers from `lo` up to `hi`, each once, and require
/// only each other and the step they are joined to.
pub open spec fn tidy(ms: Seq<StepModel>, join: StepId, lo: nat, hi: nat) -> bool {
    &&& ids_in(ms, lo, hi)
    &&& distinct_model_ids(ms)
    &&& covers(ms, lo, hi)
    &&& preds_in(ms, join, lo, hi)
}

proof fn lemma_tidy_join(
    a: Seq<StepModel>,
    b: Seq<StepModel>,
    join: StepId,
    from: StepId,
    lo: nat,
    mid: nat,
    hi: nat,
)
    requires
        lo <= mid <= hi,
        tidy(a, join, lo, mid),
        tidy(b, from, mid, hi),
        from == join || lo <= from.0 < mid,
    ensures
        tidy(a + b, join, lo, hi),
{
    let ms = a + b;
    assert forall|i: int| 0 <= i < ms.len() implies lo <= (#[trigger] ms[i]).id.0 < hi by {
        if i < a.len() {
            assert(ms[i] == a[i]);
        } else {
            assert(ms[i] == b[i - a.len()]);
        }
    }
    assert forall|i: int, j: int| 0 <= i < j < ms.len() implies (#[trigger] ms[i]).id != (
    #[trigger] ms[j]).id by {
        if j < a.len() {
            assert(a[i].id != a[j].id);
        } else if i < a.len() {
            assert(ms[i] == a[i]);
            assert(ms[j] == b[j - a.len()]);
        } else {
            assert(b[i - a.len()].id != b[j - a.len()].id);
        }
    }
    assert forall|x: nat| lo <= x < hi implies #[trigger] has_id(ms, x) by {
        if x < mid {
            assert(has_id(a, x));
            let i = choose|i: int| 0 <= i < a.len() && (#[trigger] a[i]).id.0 == x;
            assert(ms[i] == a[i]);
        } else {
            assert(has_id(b, x));
            let i = choose|i: int| 0 <= i < b.len() && (#[trigger] b[i]).id.0 == x;
            assert(ms[a.len() + i] == b[i]);
        }
    }
    assert forall|i: int, r: StepId|
        0 <= i < ms.len() && #[trigger] ms[i].requires.contains(r) implies r == join || lo <= r.0
        < hi by {
        if i < a.len() {
            assert(ms[i] == a[i]);
            assert(a[i].requires.contains(r));
        } else {
            assert(ms[i] == b[i - a.len()]);
            assert(b[i - a.len()].requires.contains(r));
        }
    }
}

/// The steps of an expansion carry the numbers from `next` on, each once,
/// and require only each other and the step that the expansion is joined to.
pub proof fn lemma_expand_tidy(comp: Composition, next: nat, join: StepId, name: Seq<char>, last: bool)
    requires
        well_formed(comp),
        next + size(comp) <= u64::MAX,
    ensures
        tidy(expand(comp, next, join, name, last), join, next, next + size(comp)),
    decreases comp, 0nat,
{
    let ms = expand(comp, next, join, name, last);
    match comp {
        Composition::Atom(atom) => {
            assert(ms[0].id.0 == next);
            assert forall|x: nat| next <= x < next + 1 implies #[trigger] has_id(ms, x) by {
                assert(ms[0].id.0 == x);
            }
        },
        Composition::Ordered(items) => {
            lemma_expand_seq_tidy(items@, items@.len(), next, join, name, last);
        },
        Composition::Unordered(items) => {
            let n = items@.len();
            lemma_expand_par_tidy(items@, n, next + 1, join, name);
            lemma_expand_par_len(items@, n, next + 1, join, name);
            let members = expand_par(items@, n, next + 1, join, name);
            let lasts = par_lasts(items@, n, next + 1, join, name);
            let collect = collect_step(StepId(next as u64), lasts, name, last);
            let hi = next + 1 + sizes(items@, n);
            assert(ms == members.push(collect));
            assert(collect.id.0 == next);
            assert forall|i: int| 0 <= i < ms.len() implies next <= (#[trigger] ms[i]).id.0
                < hi by {
                if i < members.len() {
                    assert(ms[i] == members[i]);
                }
            }
            assert forall|i: int, j: int| 0 <= i < j < ms.len() implies (#[trigger] ms[i]).id != (
            #[trigger] ms[j]).id by {
                assert(ms[i] == members[i]);
                if j < members.len() {
                    assert(ms[j] == members[j]);
                    assert(members[i].id != members[j].id);
                }
            }
            assert forall|x: nat| next <= x < hi implies #[trigger] has_id(ms, x) by {
                if x == next {
                    assert(ms[members.len() as int].id.0 == x);
                } else {
                    assert(has_id(members, x));
                    let i = choose|i: int| 0 <= i < members.len() && (#[trigger] members[i]).id.0
                        == x;
                    assert(ms[i] == members[i]);
                }
            }
            assert forall|i: int, r: StepId|
                0 <= i < ms.len() && #[trigger] ms[i].requires.contains(r) implies r == join
                || next <= r.0 < hi by {
                if i < members.len() {
                    assert(ms[i] == members[i]);
                    assert(members[i].requires.contains(r));
                }
            }
        },
    }
}

/// The same for the first `n` parts of a sequence.
pub proof fn lemma_expand_seq_tidy(
    items: Seq<Composition>,
    n: nat,
    next: nat,
    join: StepId,
    name: Seq<char>,
    last: bool,
)
    requires
        n <= items.len(),
        well_formed_items(items, n),
        next + sizes(items, n) <= u64::MAX,
    ensures
        tidy(expand_seq(items, n, next, join, name, last), join, next, next + sizes(items, n)),
    decreases items, n,
{
    if n > 0 {
        let before = expand_seq(items, (n - 1) as nat, next, join, name, last);
        lemma_expand_seq_tidy(items, (n - 1) as nat, next, join, name, last);
        lemma_expand_seq_len(items, (n - 1) as nat, next, join, name, last);
        let from = if before.len() == 0 {
            join
        } else {
            before.last().id
        };
        let mid = next + before.len();
        lemma_expand_tidy(items[n - 1], mid, from, name, last && n == items.len());
        if before.len() > 0 {
            assert(next <= before[before.len() - 1].id.0 < mid);
        }
        lemma_tidy_join(
            before,
            expand(items[n - 1], mid, from, name, last && n == items.len()),
            join,
            from,
            next,
            mid,
            next + sizes(items, n),
        );
    }
}

/// The same for the first `n` members of a set; the last steps of the
/// members are among them.
pub proof fn lemma_expand_par_tidy(
    items: Seq<Composition>,
    n: nat,
    next: nat,
    join: StepId,
    name: Seq<char>,
)
    requires
        n <= items.len(),
        well_formed_items(items, n),
        next + sizes(items, n) <= u64::MAX,
    ensures
        tidy(expand_par(items, n, next, join, name), join, next, next + sizes(items, n)),
        forall|r: StepId| #[trigger]
            par_lasts(items, n, next, join, name).contains(r) ==> next <= r.0 < next + sizes(
                items,
                n,
            ),
    decreases items, n,
{
    if n > 0 {
        let before = expand_par(items, (n - 1) as nat, next, join, name);
        lemma_expand_par_tidy(items, (n - 1) as nat, next, join, name);
        lemma_expand_par_len(items, (n - 1) as nat, next, join, name);
        let mid = next + before.len();
        let added = expand(items[n - 1], mid, join, name, false);
        lemma_expand_tidy(items[n - 1], mid, join, name, false);
        lemma_expand_len(items[n - 1], mid, join, name, false);
        lemma_tidy_join(before, added, join, join, next, mid, next + sizes(items, n));
        let all = expand_par(items, n, next, join, name);
        assert(all == before + added);
        assert(all[all.len() - 1] == added[added.len() - 1]);
        assert(mid <= added[added.len() - 1].id.0 < next + sizes(items, n));
        let earlier = par_lasts(items, (n - 1) as nat, next, join, name);
        assert(par_lasts(items, n, next, join, name) == earlier.insert(all.last().id));
        assert forall|r: StepId| #[trigger]
            par_lasts(items, n, next, join, name).contains(r) implies next <= r.0 < next
            + sizes(items, n) by {
            if r != all.last().id {
                assert(earlier.contains(r));
            }
        }
    }
}

/// The drafted steps carry the numbers from zero on, each once, and require
/// only each other.
pub proof fn lemma_drafted_tidy(defs: Seq<Definition>, n: nat)
    requires
        n <= defs.len(),
        all_well_formed(defs),
        total(defs, n) <= u64::MAX,
    ensures
        tidy(drafted(defs, n), StepId(0), 0, total(defs, n)),
    decreases n,
{
    let ms = drafted(defs, n);
    if n == 0 {
        assert forall|x: nat| 0 <= x < 1 implies #[trigger] has_id(ms, x) by {
            assert(ms[0].id.0 == x);
        }
    } else {
        let before = drafted(defs, (n - 1) as nat);
        lemma_drafted_tidy(defs, (n - 1) as nat);
        lemma_drafted_len(defs, (n - 1) as nat);
        let mid = before.len();
        assert(well_formed(defs[n - 1].body));
        lemma_expand_tidy(defs[n - 1].body, mid, StepId(0), defs[n - 1].name@, true);
        lemma_tidy_join(
            before,
            expand(defs[n - 1].body, mid, StepId(0), defs[n - 1].name@, true),
            StepId(0),
            StepId(0),
            0,
            mid,
            total(defs, n),
        );
    }
}

/// The last step of each definition is one of the drafted steps.
pub proof fn lemma_terminal_in(defs: Seq<Definition>, k: int)
    requires
        0 <= k < defs.len(),
        all_well_formed(defs),
        total(defs, defs.len()) <= u64::MAX,
    ensures
        terminal(defs, k).0 < total(defs, defs.len()),
{
    lemma_total_mono(defs, (k + 1) as nat, defs.len());
    lemma_drafted_tidy(defs, (k + 1) as nat);
    lemma_drafted_len(defs, (k + 1) as nat);
    let ms = drafted(defs, (k + 1) as nat);
    assert(0 <= ms[ms.len() - 1].id.0 < total(defs, (k + 1) as nat));
}

/// Only the last step carries a target name, and only where `last` is
/// set: then it is `name`.
pub open spec fn marked(ms: Seq<StepModel>, name: Seq<char>, last: bool) -> bool {
    forall|i: int|
        0 <= i < ms.len() ==> (#[trigger] ms[i]).target_name == if i == ms.len() - 1 {
            target_if(last, name)
        } else {
            None
        }
}

proof fn lemma_marked_join(a: Seq<StepModel>, b: Seq<StepModel>, name: Seq<char>, last: bool)
    requires
        marked(a, name, false),
        marked(b, name, last),
        b.len() >= 1,
    ensures
        marked(a + b, name, last),
{
    let ms = a + b;
    assert forall|i: int| 0 <= i < ms.len() implies (#[trigger] ms[i]).target_name == if i
        == ms.len() - 1 {
        target_if(last, name)
    } else {
        None
    } by {
        if i < a.len() {
            assert(ms[i] == a[i]);
        } else {
            assert(ms[i] == b[i - a.len()]);
        }
    }
}

/// In an expansion only the last step carries a target name, and only
/// where the expansion ends a definition.
pub proof fn lemma_expand_marked(comp: Composition, next: nat, join: StepId, name: Seq<char>, last: bool)
    requires
        well_formed(comp),
    ensures
        marked(expand(comp, next, join, name, last), name, last),
    decreases comp, 0nat,
{
    let ms = expand(comp, next, join, name, last);
    match comp {
        Composition::Atom(atom) => {},
        Composition::Ordered(items) => {
            lemma_expand_seq_marked(items@, items@.len(), next, join, name, last);
        },
        Composition::Unordered(items) => {
            let n = items@.len();
            lemma_expand_par_marked(items@, n, next + 1, join, name);
            let members = expand_par(items@, n, next + 1, join, name);
            assert forall|i: int| 0 <= i < ms.len() implies (#[trigger] ms[i]).target_name == if i
                == ms.len() - 1 {
                target_if(last, name)
            } else {
                None
            } by {
                if i < members.len() {
                    assert(ms[i] == members[i]);
                }
            }
        },
    }
}

/// The same for the first `n` parts of a sequence.
pub proof fn lemma_expand_seq_marked(
    items: Seq<Composition>,
    n: nat,
    next: nat,
    join: StepId,
    name: Seq<char>,
    last: bool,
)
    requires
        n <= items.len(),
        well_formed_items(items, n),
    ensures
        marked(
            expand_seq(items, n, next, join, name, last),
            name,
            last && n == items.len(),
        ),
    decreases items, n,
{
    if n > 0 {
        let before = expand_seq(items, (n - 1) as nat, next, join, name, last);
        lemma_expand_seq_marked(items, (n - 1) as nat, next, join, name, last);
        let from = if before.len() == 0 {
            join
        } else {
            before.last().id
        };
        let flag = last && n == items.len();
        lemma_expand_marked(items[n - 1], next + before.len(), from, name, flag);
        lemma_expand_len(items[n - 1], next + before.len(), from, name, flag);
        lemma_marked_join(
            before,
            expand(items[n - 1], next + before.len(), from, name, flag),
            name,
            flag,
        );
    }
}

/// No step of the first `n` members of a set carries a target name.
pub proof fn lemma_expand_par_marked(
    items: Seq<Composition>,
    n: nat,
    next: nat,
    join: StepId,
    name: Seq<char>,
)
    requires
        n <= items.len(),
        well_formed_items(items, n),
    ensures
        marked(expand_par(items, n, next, join, name), name, false),
    decreases items, n,
{
    if n > 0 {
        let before = expand_par(items, (n - 1) as nat, next, join, name);
        lemma_expand_par_marked(items, (n - 1) as nat, next, join, name);
        lemma_expand_marked(items[n - 1], next + before.len(), join, name, false);
        lemma_expand_len(items[n - 1], next + before.len(), join, name, false);
        lemma_marked_join(
            before,
            expand(items[n - 1], next + before.len(), join, name, false),
            name,
            false,
        );
    }
}

/// No target name is carried by two steps.
pub open spec fn unique_targets(ms: Seq<StepModel>) -> bool {
    forall|i: int, j: int|
        0 <= i < j < ms.len() && (#[trigger] ms[i]).target_name.is_some() ==> ms[i].target_name != (
        #[trigger] ms[j]).target_name
}

/// Each target name among the steps is the name of one of the first `n`
/// definitions.
pub open spec fn targets_among(ms: Seq<StepModel>, defs: Seq<Definition>, n: nat) -> bool {
    forall|i: int|
        0 <= i < ms.len() && (#[trigger] ms[i]).target_name.is_some() ==> exists|k: int|
            0 <= k < n && #[trigger] def_names(defs)[k] == ms[i].target_name.unwrap()
}

/// Where the definitions have distinct names, no target name is carried by
/// two of the drafted steps.
pub proof fn lemma_drafted_targets(defs: Seq<Definition>, n: nat)
    requires
        n <= defs.len(),
        all_well_formed(defs),
        def_names(defs).no_duplicates(),
    ensures
        unique_targets(drafted(defs, n)),
        targets_among(drafted(defs, n), defs, n),
    decreases n,
{
    let ms = drafted(defs, n);
    if n > 0 {
        let before = drafted(defs, (n - 1) as nat);
        lemma_drafted_targets(defs, (n - 1) as nat);
        let name = defs[n - 1].name@;
        let added = expand(defs[n - 1].body, before.len(), StepId(0), name, true);
        assert(well_formed(defs[n - 1].body));
        lemma_expand_marked(defs[n - 1].body, before.len(), StepId(0), name, true);
        lemma_expand_len(defs[n - 1].body, before.len(), StepId(0), name, true);
        assert(def_names(defs)[n - 1] == name);
        assert forall|i: int|
            0 <= i < ms.len() && (#[trigger] ms[i]).target_name.is_some() implies exists|k: int|
            0 <= k < n && #[trigger] def_names(defs)[k] == ms[i].target_name.unwrap() by {
            if i < before.len() {
                assert(ms[i] == before[i]);
                let k = choose|k: int|
                    0 <= k < n - 1 && #[trigger] def_names(defs)[k] == before[i].target_name.unwrap();
                assert(0 <= k < n && def_names(defs)[k] == ms[i].target_name.unwrap());
            } else {
                assert(ms[i] == added[i - before.len()]);
                assert(0 <= n - 1 < n && def_names(defs)[n - 1] == ms[i].target_name.unwrap());
            }
        }
        assert forall|i: int, j: int|
            0 <= i < j < ms.len() && (#[trigger] ms[i]).target_name.is_some() implies ms[i].target_name
            != (#[trigger] ms[j]).target_name by {
            if j < before.len() {
                assert(ms[i] == before[i]);
                assert(ms[j] == before[j]);
            } else if i < before.len() {
                assert(ms[i] == before[i]);
                assert(ms[j] == added[j - before.len()]);
                let k = choose|k: int|
                    0 <= k < n - 1 && #[trigger] def_names(defs)[k] == before[i].target_name.unwrap();
                assert(def_names(defs)[k] != def_names(defs)[n - 1]);
            } else {
                assert(ms[i] == added[i - before.len()]);
                assert(ms[j] == added[j - before.len()]);
            }
        }
    }
}

/// The relation has every edge that the steps name.
pub open spec fn holds_edges(g: DepMap, ms: Seq<StepModel>) -> bool {
    forall|i: int, r: StepId|
        0 <= i < ms.len() && #[trigger] ms[i].requires.contains(r) ==> edge(g, ms[i].id, r)
}

/// Every step depends on `root`.
pub open spec fn rooted(g: DepMap, ms: Seq<StepModel>, root: StepId) -> bool {
    forall|i: int| 0 <= i < ms.len() ==> depends(g, (#[trigger] ms[i]).id, root)
}

proof fn lemma_holds_edges_split(g: DepMap, a: Seq<StepModel>, b: Seq<StepModel>)
    requires
        holds_edges(g, a + b),
    ensures
        holds_edges(g, a),
        holds_edges(g, b),
{
    let ms = a + b;
    assert forall|i: int, r: StepId|
        0 <= i < a.len() && #[trigger] a[i].requires.contains(r) implies edge(g, a[i].id, r) by {
        assert(ms[i] == a[i]);
        assert(ms[i].requires.contains(r));
    }
    assert forall|i: int, r: StepId|
        0 <= i < b.len() && #[trigger] b[i].requires.contains(r) implies edge(g, b[i].id, r) by {
        assert(ms[a.len() + i] == b[i]);
        assert(ms[a.len() + i].requires.contains(r));
    }
}

proof fn lemma_rooted_join(
    g: DepMap,
    a: Seq<StepModel>,
    b: Seq<StepModel>,
    root: StepId,
    from: StepId,
)
    requires
        rooted(g, a, root),
        rooted(g, b, from),
        from == root || depends(g, from, root),
    ensures
        rooted(g, a + b, root),
{
    let ms = a + b;
    assert forall|i: int| 0 <= i < ms.len() implies depends(g, (#[trigger] ms[i]).id, root) by {
        if i < a.len() {
            assert(ms[i] == a[i]);
        } else {
            assert(ms[i] == b[i - a.len()]);
            assert(depends(g, b[i - a.len()].id, from));
            if from != root {
                lemma_depends_trans(g, ms[i].id, from, root);
            }
        }
    }
}

/// In a relation that has the edges of an expansion, every step of the
/// expansion depends on the step that the expansion is joined to.
pub proof fn lemma_expand_rooted(
    g: DepMap,
    comp: Composition,
    next: nat,
    join: StepId,
    name: Seq<char>,
    last: bool,
)
    requires
        well_formed(comp),
        holds_edges(g, expand(comp, next, join, name, last)),
    ensures
        rooted(g, expand(comp, next, join, name, last), join),
    decreases comp, 0nat,
{
    let ms = expand(comp, next, join, name, last);
    match comp {
        Composition::Atom(atom) => {
            assert(ms[0].requires.contains(join));
            lemma_edge_depends(g, ms[0].id, join);
        },
        Composition::Ordered(items) => {
            lemma_expand_seq_rooted(g, items@, items@.len(), next, join, name, last);
        },
        Composition::Unordered(items) => {
            let n = items@.len();
            let members = expand_par(items@, n, next + 1, join, name);
            let lasts = par_lasts(items@, n, next + 1, join, name);
            let collect = collect_step(StepId(next as u64), lasts, name, last);
            assert(ms == members + seq![collect]);
            lemma_holds_edges_split(g, members, seq![collect]);
            lemma_expand_par_rooted(g, items@, n, next + 1, join, name);
            lemma_expand_par_len(items@, n, next + 1, join, name);
            let l = members.last().id;
            assert(lasts.contains(l));
            assert(ms[members.len() as int] == collect);
            assert(ms[members.len() as int].requires.contains(l));
            lemma_edge_depends(g, collect.id, l);
            assert(depends(g, members[members.len() - 1].id, join));
            lemma_depends_trans(g, collect.id, l, join);
            assert forall|i: int| 0 <= i < ms.len() implies depends(g, (#[trigger] ms[i]).id, join) by {
                if i < members.len() {
                    assert(ms[i] == members[i]);
                }
            }
        },
    }
}

/// The same for the first `n` parts of a sequence.
pub proof fn lemma_expand_seq_rooted(
    g: DepMap,
    items: Seq<Composition>,
    n: nat,
    next: nat,
    join: StepId,
    name: Seq<char>,
    last: bool,
)
    requires
        n <= items.len(),
        well_formed_items(items, n),
        holds_edges(g, expand_seq(items, n, next, join, name, last)),
    ensures
        rooted(g, expand_seq(items, n, next, join, name, last), join),
    decreases items, n,
{
    if n > 0 {
        let before = expand_seq(items, (n - 1) as nat, next, join, name, last);
        let from = if before.len() == 0 {
            join
        } else {
            before.last().id
        };
        let flag = last && n == items.len();
        let added = expand(items[n - 1], next + before.len(), from, name, flag);
        lemma_holds_edges_split(g, before, added);
        lemma_expand_seq_rooted(g, items, (n - 1) as nat, next, join, name, last);
        lemma_expand_rooted(g, items[n - 1], next + before.len(), from, name, flag);
        if before.len() > 0 {
            assert(depends(g, before[before.len() - 1].id, join));
        }
        lemma_rooted_join(g, before, added, join, from);
    }
}

/// The same for the first `n` members of a set.
pub proof fn lemma_expand_par_rooted(
    g: DepMap,
    items: Seq<Composition>,
    n: nat,
    next: nat,
    join: StepId,
    name: Seq<char>,
)
    requires
        n <= items.len(),
        well_formed_items(items, n),
        holds_edges(g, expand_par(items, n, next, join, name)),
    ensures
        rooted(g, expand_par(items, n, next, join, name), join),
    decreases items, n,
{
    if n > 0 {
        let before = expand_par(items, (n - 1) as nat, next, join, name);
        let added = expand(items[n - 1], next + before.len(), join, name, false);
        lemma_holds_edges_split(g, before, added);
        lemma_expand_par_rooted(g, items, (n - 1) as nat, next, join, name);
        lemma_expand_rooted(g, items[n - 1], next + before.len(), join, name, false);
        lemma_rooted_join(g, before, added, join, join);
    }
}

/// In a relation that has the edges of the drafted steps, every step but
/// the start step depends on the start step.
pub proof fn lemma_drafted_rooted(g: DepMap, defs: Seq<Definition>, n: nat)
    requires
        n <= defs.len(),
        all_well_formed(defs),
        holds_edges(g, drafted(defs, n)),
    ensures
        forall|i: int| 1 <= i < drafted(defs, n).len() ==> depends(
            g,
            (#[trigger] drafted(defs, n)[i]).id,
            StepId(0),
        ),
    decreases n,
{
    let ms = drafted(defs, n);
    if n > 0 {
        let before = drafted(defs, (n - 1) as nat);
        let added = expand(defs[n - 1].body, before.len(), StepId(0), defs[n - 1].name@, true);
        lemma_holds_edges_split(g, before, added);
        lemma_drafted_rooted(g, defs, (n - 1) as nat);
        assert(well_formed(defs[n - 1].body));
        lemma_expand_rooted(g, defs[n - 1].body, before.len(), StepId(0), defs[n - 1].name@, true);
        assert forall|i: int| 1 <= i < ms.len() implies depends(g, (#[trigger] ms[i]).id, StepId(0)) by {
            if i < before.len() {
                assert(ms[i] == before[i]);
            } else {
                assert(ms[i] == added[i - before.len()]);
            }
        }
    }
}

fn lookup(table: &Vec<(String, StepId)>, name: &String) -> (found: Option<StepId>)
    ensures
        match found {
            Some(id) => exists|k: int|
                0 <= k < table@.len() && (#[trigger] table@[k]).0@ == name@ && table@[k].1 == id
                    && forall|j: int| 0 <= j < k ==> (#[trigger] table@[j]).0@ != name@,
            None => forall|k: int| 0 <= k < table@.len() ==> (#[trigger] table@[k]).0@ != name@,
        },
{
    let mut k: usize = 0;
    while k < table.len()
        invariant
            k <= table@.len(),
            forall|j: int| 0 <= j < k ==> (#[trigger] table@[j]).0@ != name@,
        decreases table@.len() - k,
    {
        if table[k].0 == *name {
            return Some(table[k].1);
        }
        k += 1;
    }
    None
}

/// The table lists the definitions in order, each with its last step.
pub open spec fn lists_terminals(table: Seq<(String, StepId)>, defs: Seq<Definition>, n: int) -> bool {
    &&& table.len() == n
    &&& forall|k: int|
        0 <= k < n ==> (#[trigger] table[k]).0@ == defs[k].name@ && table[k].1 == terminal(defs, k)
}

proof fn lemma_lookup(
    table: Seq<(String, StepId)>,
    defs: Seq<Definition>,
    name: Seq<char>,
    found: Option<StepId>,
)
    requires
        lists_terminals(table, defs, defs.len() as int),
        def_names(defs).no_duplicates(),
        match found {
            Some(id) => exists|k: int|
                0 <= k < table.len() && (#[trigger] table[k]).0@ == name && table[k].1 == id,
            None => forall|k: int| 0 <= k < table.len() ==> (#[trigger] table[k]).0@ != name,
        },
    ensures
        found == terminal_of(defs, name),
{
    let names = def_names(defs);
    match found {
        Some(id) => {
            let k = choose|k: int|
                0 <= k < table.len() && (#[trigger] table[k]).0@ == name && table[k].1 == id;
            assert(names[k] == name);
            let i = names.index_of(name);
            assert(0 <= i < names.len() && names[i] == name);
        },
        None => {
            if names.contains(name) {
                let i = choose|i: int| 0 <= i < names.len() && names[i] == name;
                assert(table[i].0@ == name);
            }
        },
    }
}

/// Turns a description into the steps of a run. A start step comes first.
/// Each definition is expanded from the start step on, and its last step
/// carries the definition's name as target name. Then every step gets the
/// last steps of the targets it asks for as further predecessors, and the
/// redundant predecessors are dropped.
pub fn build(defs: &Vec<Definition>) -> (built: Result<Vec<Step>, BuildError>)
    ensures
        match built {
            Ok(steps) => {
                &&& all_well_formed(defs@)
                &&& total(defs@, defs@.len()) <= u64::MAX
                &&& def_names(defs@).no_duplicates()
                &&& resolvable(defs@, drafted(defs@, defs@.len()))
                &&& step_views(steps@) == reduced_models(
                    connected(defs@, drafted(defs@, defs@.len())),
                )
                &&& steps_wf(steps@)
                &&& distinct_ids(steps@)
                &&& closed(graph_of(steps@))
                &&& acyclic(graph_of(steps@))
                &&& unique_targets(step_views(steps@))
                &&& steps@.len() >= 1
                &&& steps@[0].id == StepId(0)
                &&& forall|i: int|
                    0 <= i < steps@.len() ==> ((#[trigger] steps@[i]).requires@ == Set::<
                        StepId,
                    >::empty() <==> i == 0)
                &&& forall|i: int|
                    1 <= i < steps@.len() ==> depends(
                        graph_of(steps@),
                        (#[trigger] steps@[i]).id,
                        StepId(0),
                    )
            },
            Err(BuildError::EmptyComposition) => !all_well_formed(defs@),
            Err(BuildError::TooManySteps) => all_well_formed(defs@) && total(defs@, defs@.len())
                > u64::MAX,
            Err(BuildError::DuplicateTarget) => all_well_formed(defs@) && total(
                defs@,
                defs@.len(),
            ) <= u64::MAX && !def_names(defs@).no_duplicates(),
            Err(BuildError::UnknownDependency) => all_well_formed(defs@) && total(
                defs@,
                defs@.len(),
            ) <= u64::MAX && def_names(defs@).no_duplicates() && !resolvable(
                defs@,
                drafted(defs@, defs@.len()),
            ),
            Err(BuildError::Cycle) => all_well_formed(defs@) && total(defs@, defs@.len())
                <= u64::MAX && def_names(defs@).no_duplicates() && resolvable(
                defs@,
                drafted(defs@, defs@.len()),
            ) && !acyclic(model_graph(connected(defs@, drafted(defs@, defs@.len())))),
        },
{
    let n = defs.len();
    let mut k: usize = 0;
    while k < n
        invariant
            k <= n == defs@.len(),
            forall|j: int| 0 <= j < k ==> well_formed(#[trigger] defs@[j].body),
        decreases n - k,
    {
        if !is_well_formed(&defs[k].body) {
            return Err(BuildError::EmptyComposition);
        }
        k += 1;
    }
    let mut sum: u64 = 1;
    k = 0;
    while k < n
        invariant
            k <= n == defs@.len(),
            all_well_formed(defs@),
            sum == total(defs@, k as nat),
        decreases n - k,
    {
        proof {
            lemma_total_mono(defs@, (k + 1) as nat, n as nat);
        }
        let more = match count_steps(&defs[k].body) {
            Some(c) => c,
            None => {
                return Err(BuildError::TooManySteps);
            },
        };
        sum = match sum.checked_add(more) {
            Some(c) => c,
            None => {
                return Err(BuildError::TooManySteps);
            },
        };
        k += 1;
    }
    let mut j: usize = 0;
    while j < n
        invariant
            j <= n == defs@.len(),
            all_well_formed(defs@),
            sum == total(defs@, defs@.len()),
            forall|a: int, b: int|
                0 <= a < b < j ==> (#[trigger] def_names(defs@)[a]) != (#[trigger] def_names(
                    defs@,
                )[b]),
        decreases n - j,
    {
        let mut i: usize = 0;
        while i < j
            invariant
                i <= j < n == defs@.len(),
                all_well_formed(defs@),
                sum == total(defs@, defs@.len()),
                forall|a: int| 0 <= a < i ==> (#[trigger] def_names(defs@)[a]) != def_names(defs@)[j as int],
            decreases j - i,
        {
            if defs[i].name == defs[j].name {
                assert(def_names(defs@)[i as int] == def_names(defs@)[j as int]);
                return Err(BuildError::DuplicateTarget);
            }
            i += 1;
        }
        j += 1;
    }
    assert(def_names(defs@).no_duplicates());
    let mut next_id = StepId::first();
    let start_id = next_id.take();
    let mut steps: Vec<Step> = Vec::new();
    steps.push(
        Step {
            id: start_id,
            requires: IdSet::new(),
            descriptor: None,
            wants: Vec::new(),
            target_name: None,
            name: String::from_str("start"),
            note: None,
        },
    );
    let mut table: Vec<(String, StepId)> = Vec::new();
    proof {
        assert(steps@[0]@.wants =~= Seq::<Seq<char>>::empty());
        assert(step_views(steps@) =~= seq![start_model()]);
    }
    k = 0;
    while k < n
        invariant
            k <= n == defs@.len(),
            all_well_formed(defs@),
            sum == total(defs@, n as nat),
            start_id == StepId(0),
            step_views(steps@) == drafted(defs@, k as nat),
            steps@.len() == total(defs@, k as nat),
            next_id.0 == total(defs@, k as nat),
            steps_wf(steps@),
            lists_terminals(table@, defs@, k as int),
        decreases n - k,
    {
        proof {
            lemma_total_mono(defs@, (k + 1) as nat, n as nat);
            lemma_drafted_len(defs@, k as nat);
        }
        let mut more = create_steps(&defs[k].body, &mut next_id, start_id, defs[k].name.as_str(), true);
        let last = more[more.len() - 1].id;
        let ghost before = steps@;
        let ghost added = more@;
        let ghost old_table = table@;
        steps.append(&mut more);
        table.push((defs[k].name.clone(), last));
        proof {
            lemma_step_views_add(before, added);
            assert(step_views(steps@).last().id == last);
            assert forall|i: int| 0 <= i < k + 1 implies (#[trigger] table@[i]).0@ == defs@[i].name@
                && table@[i].1 == terminal(defs@, i) by {
                if i < k {
                    assert(table@[i] == old_table[i]);
                }
            }
        }
        k += 1;
    }
    let ghost draft = drafted(defs@, n as nat);
    let mut i: usize = 0;
    while i < steps.len()
        invariant
            i <= steps@.len(),
            all_well_formed(defs@),
            sum == total(defs@, defs@.len()),
            step_views(steps@) == draft,
            draft == drafted(defs@, defs@.len()),
            lists_terminals(table@, defs@, defs@.len() as int),
            def_names(defs@).no_duplicates(),
            forall|a: int, b: int|
                0 <= a < i && 0 <= b < draft[a].wants.len() ==> def_names(defs@).contains(
                    #[trigger] draft[a].wants[b],
                ),
        decreases steps@.len() - i,
    {
        let mut w: usize = 0;
        while w < steps[i].wants.len()
            invariant
                i < steps@.len(),
                w <= steps@[i as int].wants@.len(),
                all_well_formed(defs@),
                sum == total(defs@, defs@.len()),
                draft == drafted(defs@, defs@.len()),
                step_views(steps@) == draft,
                lists_terminals(table@, defs@, defs@.len() as int),
                def_names(defs@).no_duplicates(),
                forall|b: int|
                    0 <= b < w ==> def_names(defs@).contains(#[trigger] draft[i as int].wants[b]),
            decreases steps@[i as int].wants@.len() - w,
        {
            let found = lookup(&table, &steps[i].wants[w]);
            proof {
                assert(step_views(steps@)[i as int] == steps@[i as int]@);
                assert(draft[i as int].wants[w as int] == steps@[i as int].wants@[w as int]@);
                lemma_lookup(table@, defs@, steps@[i as int].wants@[w as int]@, found);
            }
            if found.is_none() {
                assert(!def_names(defs@).contains(draft[i as int].wants[w as int]));
                return Err(BuildError::UnknownDependency);
            }
            w += 1;
        }
        proof {
            assert(step_views(steps@)[i as int] == steps@[i as int]@);
            assert(draft[i as int].wants.len() == steps@[i as int].wants@.len());
        }
        i += 1;
    }
    assert(resolvable(defs@, draft));
    i = 0;
    while i < steps.len()
        invariant
            i <= steps@.len(),
            steps@.len() == draft.len(),
            draft == drafted(defs@, defs@.len()),
            resolvable(defs@, draft),
            lists_terminals(table@, defs@, defs@.len() as int),
            def_names(defs@).no_duplicates(),
            steps_wf(steps@),
            forall|a: int| 0 <= a < i ==> (#[trigger] steps@[a])@ == connect(defs@, draft[a]),
            forall|a: int| i <= a < steps@.len() ==> (#[trigger] steps@[a])@ == draft[a],
        decreases steps@.len() - i,
    {
        let mut preds = steps[i].requires.clone();
        let ghost wants = draft[i as int].wants;
        let ghost base = draft[i as int].requires;
        let mut w: usize = 0;
        while w < steps[i].wants.len()
            invariant
                i < steps@.len() == draft.len(),
                steps@[i as int]@ == draft[i as int],
                wants == draft[i as int].wants,
                base == draft[i as int].requires,
                w <= steps@[i as int].wants@.len(),
                resolvable(defs@, draft),
                lists_terminals(table@, defs@, defs@.len() as int),
                def_names(defs@).no_duplicates(),
                preds.wf(),
                preds@ == base + wanted_ids(defs@, wants, w as int),
            decreases steps@[i as int].wants@.len() - w,
        {
            let found = lookup(&table, &steps[i].wants[w]);
            proof {
                assert(wants[w as int] == steps@[i as int].wants@[w as int]@);
                lemma_lookup(table@, defs@, wants[w as int], found);
                assert(def_names(defs@).contains(draft[i as int].wants[w as int]));
            }
            let id = match found {
                Some(id) => id,
                None => StepId(0),
            };
            preds.insert(id);
            proof {
                let before = wanted_ids(defs@, wants, w as int);
                let after = wanted_ids(defs@, wants, w + 1);
                assert forall|x: StepId| after.contains(x) <==> (before.contains(x) || x == id) by {
                    if after.contains(x) {
                        let j = choose|j: int|
                            0 <= j < w + 1 && terminal_of(defs@, #[trigger] wants[j]) == Some(x);
                        if j < w {
                            assert(before.contains(x));
                        }
                    }
                    if before.contains(x) {
                        let j = choose|j: int|
                            0 <= j < w && terminal_of(defs@, #[trigger] wants[j]) == Some(x);
                        assert(0 <= j < w + 1);
                    }
                    if x == id {
                        assert(terminal_of(defs@, wants[w as int]) == Some(x));
                    }
                }
                assert(preds@ =~= base + after);
            }
            w += 1;
        }
        let ghost before = steps@;
        steps[i].requires = preds;
        proof {
            assert(wants.len() == before[i as int].wants@.len());
            assert(steps@[i as int]@ == connect(defs@, draft[i as int]));
            assert forall|a: int| 0 <= a < i implies (#[trigger] steps@[a])@ == connect(
                defs@,
                draft[a],
            ) by {
                assert(steps@[a] == before[a]);
            }
            assert forall|a: int| i < a < steps@.len() implies (#[trigger] steps@[a])@
                == draft[a] by {
                assert(steps@[a] == before[a]);
            }
        }
        i += 1;
    }
    let ghost linked = connected(defs@, draft);
    proof {
        assert(step_views(steps@) =~= linked);
        lemma_model_graph(steps@);
    }
    proof {
        let limit = total(defs@, defs@.len());
        lemma_drafted_tidy(defs@, defs@.len());
        lemma_drafted_len(defs@, defs@.len());
        assert forall|a: int, b: int| 0 <= a < b < steps@.len() implies (#[trigger] steps@[a]).id
            != (#[trigger] steps@[b]).id by {
            assert(linked[a].id == draft[a].id);
            assert(linked[b].id == draft[b].id);
            assert(draft[a].id != draft[b].id);
        }
        crate::depgraph::lemma_graph_of_dom(steps@);
        assert forall|s: StepId, r: StepId| #[trigger]
            crate::reach::edge(graph_of(steps@), s, r) implies graph_of(steps@).dom().contains(
            r,
        ) by {
            let i = choose|i: int| 0 <= i < steps@.len() && (#[trigger] steps@[i]).id == s;
            crate::depgraph::lemma_graph_of_entry(steps@, i);
            assert(steps@[i]@ == linked[i]);
            assert(linked[i].requires.contains(r));
            if draft[i].requires.contains(r) {
                assert(r == StepId(0) || r.0 < limit);
            } else {
                let j = choose|j: int|
                    0 <= j < draft[i].wants.len() && terminal_of(
                        defs@,
                        #[trigger] draft[i].wants[j],
                    ) == Some(r);
                let k = def_names(defs@).index_of(draft[i].wants[j]);
                lemma_terminal_in(defs@, k);
            }
            assert(has_id(draft, r.0 as nat));
            let at = choose|at: int| 0 <= at < draft.len() && (#[trigger] draft[at]).id.0 == r.0;
            assert(linked[at].id == draft[at].id);
            assert(steps@[at]@ == linked[at]);
            assert(steps@[at].id == r);
        }
    }
    proof {
        let g = graph_of(steps@);
        assert forall|i: int, r: StepId|
            0 <= i < draft.len() && #[trigger] draft[i].requires.contains(r) implies edge(
            g,
            draft[i].id,
            r,
        ) by {
            crate::depgraph::lemma_graph_of_entry(steps@, i);
            assert(steps@[i]@ == linked[i]);
            assert(linked[i].requires.contains(r));
        }
        lemma_drafted_rooted(g, defs@, defs@.len());
        assert forall|i: int| 1 <= i < steps@.len() implies depends(
            g,
            (#[trigger] steps@[i]).id,
            StepId(0),
        ) by {
            assert(steps@[i]@ == linked[i]);
            assert(draft[i].id == steps@[i].id);
        }
        assert(steps@[0]@ == linked[0]);
        lemma_drafted_first(defs@, defs@.len());
        assert(steps@[0].requires@ =~= Set::<StepId>::empty());
    }
    let graph = IdGraph::from_steps(steps.as_slice());
    if !is_acyclic(&graph) {
        return Err(BuildError::Cycle);
    }
    let ghost before = steps@;
    linearize(&mut steps);
    proof {
        assert forall|a: int| 0 <= a < steps@.len() implies (#[trigger] steps@[a])@
            == reduced_models(linked)[a] by {
            assert(step_views(before)[a] == before[a]@);
        }
        assert(step_views(steps@) =~= reduced_models(linked));
        crate::depgraph::lemma_graph_of_dom(steps@);
        assert(steps@[0].id == before[0].id);
        assert(steps@[0].requires@ =~= Set::<StepId>::empty()) by {
            assert(before[0].requires@ =~= Set::<StepId>::empty());
            crate::depgraph::lemma_graph_of_entry(before, 0);
        }
        assert forall|i: int| 1 <= i < steps@.len() implies depends(
            graph_of(steps@),
            (#[trigger] steps@[i]).id,
            StepId(0),
        ) && steps@[i].requires@ != Set::<StepId>::empty() by {
            assert(steps@[i].id == before[i].id);
            assert(depends(graph_of(before), before[i].id, StepId(0)));
            let m = lemma_depends_first(graph_of(steps@), steps@[i].id, StepId(0));
            crate::depgraph::lemma_graph_of_entry(steps@, i);
            assert(steps@[i].requires@.contains(m));
        }
        lemma_drafted_targets(defs@, defs@.len());
        assert forall|a: int, b: int|
            0 <= a < b < steps@.len() && (#[trigger] step_views(
                steps@,
            )[a]).target_name.is_some() implies step_views(steps@)[a].target_name != (
        #[trigger] step_views(steps@)[b]).target_name by {
            assert(step_views(steps@)[a].target_name == draft[a].target_name);
            assert(step_views(steps@)[b].target_name == draft[b].target_name);
        }
    }
    Ok(steps)
}

/// The target name of an entry of a description: what follows the prefix
/// `step_`. An entry without the prefix defines no target.
pub fn definition_name(entry: &str) -> (name: Option<String>)
    ensures
        match name {
            Some(n) => crate::text::stripped("step_"@, entry@) == Some(n@),
            None => crate::text::stripped("step_"@, entry@).is_none(),
        },
{
    crate::text::strip_prefix("step_", entry)
}

/// Whether the interpreter is recent enough: its version number, in the
/// hexadecimal form in which it reports it, is at least that of 3.7.0.
pub fn python_supported(hexversion: u32) -> (ok: bool)
    ensures
        ok == (hexversion >= 0x0307_0000),
{
    hexversion >= 0x0307_0000
}

/// The options of a project file.
#[derive(Debug)]
pub struct TomlConfig {
    /// Root directory.
    pub root_dir: Option<String>,
    /// The file that describes the steps.
    pub config: String,
    /// The target to build where none is named.
    pub default_target: Option<String>,
    /// Number of worker threads.
    pub threads: Option<usize>,
    /// Where to write the statistics as a graph.
    pub stats_dot: Option<String>,
}

impl TomlConfig {
    /// The root directory.
    pub fn root_dir(&self) -> (dir: String)
        requires
            self.root_dir.is_some(),
        ensures
            Some(dir) == self.root_dir,
    {
        match &self.root_dir {
            Some(dir) => dir.clone(),
            None => String::new(),
        }
    }

    /// The number of worker threads: the chosen one, else the number of
    /// logical CPUs of the machine, which is at least one.
    pub fn threads(&self) -> (count: usize)
        ensures
            self.threads.is_some() ==> count == self.threads.unwrap(),
            self.threads.is_none() ==> count >= 1,
    {
        match self.threads {
            Some(chosen) => chosen,
            None => crate::config_file::logical_cpus(),
        }
    }
}

} // verus!
