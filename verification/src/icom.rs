//! ICOM balance of IDEF0 models: completeness of a model and integrity of
//! each decomposition, and the checks of the execution graph the mapper
//! would build (self loops, ambiguous sources, unlinked branch consumers,
//! cycles, orphans, parents that also execute).
//!
//! The checks repair nothing: they report where the model is broken, with
//! the block id and the arrow name.

use vstd::prelude::*;
use crate::idef0::{
    block_node, block_views, edges_upto, flatten_spec, has_block_id, ids_of, is_branch_block, is_branching, is_linked,
    lemma_nodes_upto_dom, linked, map_to_graph, mapped_graph, nodes_upto, walk, walk_into, Block, BlockModel,
    Idef0Model, ids_distinct,
};
use crate::keyed_map::{keys_sorted, lemma_sorted_elements, lemma_sorted_elements_exist, sorted_elements, KeyedMap};
use crate::registry::Kind;
use crate::scheduler::{blocked, incoming, spawn_free};
use crate::parser::{debug_list, graph_keyed, GraphModel, IntentGraph, NodeModel, SlotData, SlotDataModel};
use crate::scheduler::ExecutionResult;
use crate::text::{
    append, decimal, is_blank, lemma_seq_lt_irreflexive, owned, str_debug, str_debug_string, string_views, trim_seq,
    usize_to_string,
};

verus! {

/// An error makes a model unexecutable; a warning is a question for the
/// analyst, not a reason to stop.
#[derive(Debug, Clone, Copy, PartialEq, Eq, Structural)]
pub enum Severity {
    Error,
    Warning,
}

/// Which rule is violated.
#[derive(Debug, Clone, Copy, PartialEq, Eq, Structural)]
pub enum Rule {
    /// An output of the parent is produced by no child.
    MissingOutput,
    /// An input or control of a child comes neither from outside nor from a sibling.
    DanglingInput,
    /// An input or control of the parent is consumed by no child.
    UnusedParentInput,
    /// Empty id or empty function.
    EmptyBlock,
    /// A terminal block without a declared output.
    NoOutput,
    /// A branch points at a block that does not exist.
    BranchTargetMissing,
    /// Branches declared while the kind is not "branch" (or the reverse).
    BranchKindMismatch,
    /// A repeated block id.
    DuplicateId,
    /// A cycle in the data flow.
    Cycle,
    /// A block consumes its own output.
    SelfLoop,
    /// Several blocks produce one flow.
    DuplicateOutput,
    /// A consumer of a branch block's output that is not one of its branches.
    BranchConsumerUnlinked,
    /// A block linked to no other.
    OrphanBlock,
    /// A decomposed block that also executes.
    ParentAlsoExecutes,
    /// A spawned node reads an identifier nothing writes.
    SpawnDanglingRef,
    /// The spawned nodes produce nothing.
    SpawnProducesNothing,
}

/// A violation with its address.
#[derive(Debug, Clone, PartialEq, Eq)]
pub struct Violation {
    pub block: String,
    pub rule: Rule,
    pub severity: Severity,
    /// The arrow (flow), when the violation is about one.
    pub arrow: Option<String>,
    pub message: String,
}

pub struct ViolationModel {
    pub block: Seq<char>,
    pub rule: Rule,
    pub severity: Severity,
    pub arrow: Option<Seq<char>>,
    pub message: Seq<char>,
}

impl View for Violation {
    type V = ViolationModel;

    open spec fn view(&self) -> ViolationModel {
        ViolationModel {
            block: self.block@,
            rule: self.rule,
            severity: self.severity,
            arrow: match self.arrow {
                Some(a) => Some(a@),
                None => None,
            },
            message: self.message@,
        }
    }
}

pub open spec fn violation_views(v: Seq<Violation>) -> Seq<ViolationModel> {
    v.map_values(|x: Violation| x@)
}

pub open spec fn viol(block: Seq<char>, rule: Rule, severity: Severity, arrow: Option<Seq<char>>, message: Seq<char>) -> ViolationModel {
    ViolationModel { block, rule, severity, arrow, message }
}

fn make(block: &str, rule: Rule, severity: Severity, arrow: Option<&str>, message: String) -> (res: Violation)
    ensures
        res@ == viol(
            block@,
            rule,
            severity,
            match arrow {
                Some(a) => Some(a@),
                None => None,
            },
            message@,
        ),
{
    Violation {
        block: owned(block),
        rule,
        severity,
        arrow: match arrow {
            Some(a) => Some(owned(a)),
            None => None,
        },
        message,
    }
}

/// Some violation is an error (warnings do not count).
pub fn has_errors(violations: &[Violation]) -> (res: bool)
    ensures
        res == exists|i: int| 0 <= i < violations@.len() && #[trigger] violations@[i].severity == Severity::Error,
{
    let mut i: usize = 0;
    while i < violations.len()
        invariant
            i <= violations@.len(),
            forall|j: int| 0 <= j < i ==> #[trigger] violations@[j].severity != Severity::Error,
        decreases violations@.len() - i,
    {
        if violations[i].severity == Severity::Error {
            return true;
        }
        i += 1;
    }
    false
}

// ---------------------------------------------------------------------
// One decomposition
// ---------------------------------------------------------------------

/// The arrows a block takes in: inputs, then controls.
pub open spec fn arrows(b: BlockModel) -> Seq<Seq<char>> {
    b.inputs + b.controls
}

/// Some child produces `x`.
pub open spec fn produced(children: Seq<BlockModel>, x: Seq<char>) -> bool {
    exists|i: int| 0 <= i < children.len() && (#[trigger] children[i]).outputs.contains(x)
}

/// Some child takes `x` in.
pub open spec fn consumed(children: Seq<BlockModel>, x: Seq<char>) -> bool {
    exists|i: int| 0 <= i < children.len() && arrows(#[trigger] children[i]).contains(x)
}

pub open spec fn missing_output_message(o: Seq<char>, parent: Seq<char>) -> Seq<char> {
    "выход «"@ + o + "» блока "@ + parent + " не производится ни одним из его подблоков"@
}

pub open spec fn dangling_message(a: Seq<char>, child: Seq<char>, parent: Seq<char>) -> Seq<char> {
    "стрелка «"@ + a + "» блока "@ + child + " висит: не приходит извне (ICOM блока "@ + parent
        + ") и не производится соседним подблоком"@
}

pub open spec fn unused_message(a: Seq<char>, parent: Seq<char>) -> Seq<char> {
    "стрелка «"@ + a + "» объявлена у блока "@ + parent + ", но не потребляется ни одним подблоком"@
}

/// The parent's outputs no child produces, from its first `n` outputs.
pub open spec fn missing_outputs(parent: BlockModel, children: Seq<BlockModel>, n: int) -> Seq<ViolationModel>
    decreases n,
{
    if n <= 0 {
        Seq::empty()
    } else {
        let o = parent.outputs[n - 1];
        missing_outputs(parent, children, n - 1) + if !produced(children, o) {
            seq![viol(parent.id, Rule::MissingOutput, Severity::Error, Some(o), missing_output_message(o, parent.id))]
        } else {
            Seq::empty()
        }
    }
}

/// The first `n` arrows of `c` that come neither from the parent nor from a sibling.
pub open spec fn dangling_arrows(parent: BlockModel, children: Seq<BlockModel>, c: BlockModel, n: int) -> Seq<ViolationModel>
    decreases n,
{
    if n <= 0 {
        Seq::empty()
    } else {
        let a = arrows(c)[n - 1];
        dangling_arrows(parent, children, c, n - 1) + if !arrows(parent).contains(a) && !produced(children, a) {
            seq![viol(c.id, Rule::DanglingInput, Severity::Error, Some(a), dangling_message(a, c.id, parent.id))]
        } else {
            Seq::empty()
        }
    }
}

/// The dangling arrows of the first `n` children.
pub open spec fn dangling_inputs(parent: BlockModel, children: Seq<BlockModel>, n: int) -> Seq<ViolationModel>
    decreases n,
{
    if n <= 0 {
        Seq::empty()
    } else {
        dangling_inputs(parent, children, n - 1) + dangling_arrows(
            parent,
            children,
            children[n - 1],
            arrows(children[n - 1]).len() as int,
        )
    }
}

/// The first `n` arrows of the parent no child consumes (warnings).
pub open spec fn unused_inputs(parent: BlockModel, children: Seq<BlockModel>, n: int) -> Seq<ViolationModel>
    decreases n,
{
    if n <= 0 {
        Seq::empty()
    } else {
        let a = arrows(parent)[n - 1];
        unused_inputs(parent, children, n - 1) + if !consumed(children, a) {
            seq![viol(parent.id, Rule::UnusedParentInput, Severity::Warning, Some(a), unused_message(a, parent.id))]
        } else {
            Seq::empty()
        }
    }
}

/// The violations of one decomposition: missing outputs of the parent,
/// dangling inputs of the children, unused inputs of the parent.
pub open spec fn decomposition_violations(parent: BlockModel, children: Seq<BlockModel>) -> Seq<ViolationModel> {
    if children.len() == 0 {
        Seq::empty()
    } else {
        missing_outputs(parent, children, parent.outputs.len() as int) + dangling_inputs(
            parent,
            children,
            children.len() as int,
        ) + unused_inputs(parent, children, arrows(parent).len() as int)
    }
}

/// A dangling arrow of `c` among its first `n` arrows is reported.
proof fn lemma_dangling_arrows_report(parent: BlockModel, children: Seq<BlockModel>, c: BlockModel, n: int, m: int)
    requires
        0 <= m < n <= arrows(c).len(),
        !arrows(parent).contains(arrows(c)[m]),
        !produced(children, arrows(c)[m]),
    ensures
        dangling_arrows(parent, children, c, n).contains(
            viol(c.id, Rule::DanglingInput, Severity::Error, Some(arrows(c)[m]), dangling_message(arrows(c)[m], c.id, parent.id)),
        ),
    decreases n,
{
    let v = viol(c.id, Rule::DanglingInput, Severity::Error, Some(arrows(c)[m]), dangling_message(arrows(c)[m], c.id, parent.id));
    let prev = dangling_arrows(parent, children, c, n - 1);
    if m < n - 1 {
        lemma_dangling_arrows_report(parent, children, c, n - 1, m);
        let k = prev.index_of(v);
        assert(dangling_arrows(parent, children, c, n)[k] == v);
    } else {
        assert(dangling_arrows(parent, children, c, n)[prev.len() as int] == v);
    }
}

/// What the first `n` children report includes everything child `i < n` reports.
proof fn lemma_dangling_inputs_include(parent: BlockModel, children: Seq<BlockModel>, n: int, i: int, v: ViolationModel)
    requires
        0 <= i < n <= children.len(),
        dangling_arrows(parent, children, children[i], arrows(children[i]).len() as int).contains(v),
    ensures
        dangling_inputs(parent, children, n).contains(v),
    decreases n,
{
    let prev = dangling_inputs(parent, children, n - 1);
    if i < n - 1 {
        lemma_dangling_inputs_include(parent, children, n - 1, i, v);
        let k = prev.index_of(v);
        assert(dangling_inputs(parent, children, n)[k] == v);
    } else {
        let own = dangling_arrows(parent, children, children[i], arrows(children[i]).len() as int);
        let k = own.index_of(v);
        assert(dangling_inputs(parent, children, n)[prev.len() + k] == v);
    }
}

/// Every arrow a child takes in, whether among its inputs or among its
/// controls, that is neither an input nor a control of the parent nor an
/// output of any child is reported as an Error `DanglingInput` at that
/// child, naming the arrow.
pub proof fn lemma_dangling_arrow_reported(parent: BlockModel, children: Seq<BlockModel>, i: int, a: Seq<char>)
    requires
        0 <= i < children.len(),
        children[i].inputs.contains(a) || children[i].controls.contains(a),
        !parent.inputs.contains(a),
        !parent.controls.contains(a),
        forall|j: int| 0 <= j < children.len() ==> !(#[trigger] children[j]).outputs.contains(a),
    ensures
        exists|k: int|
            0 <= k < decomposition_violations(parent, children).len() && (#[trigger] decomposition_violations(parent, children)[k]).block
                == children[i].id && decomposition_violations(parent, children)[k].rule == Rule::DanglingInput
                && decomposition_violations(parent, children)[k].severity == Severity::Error
                && decomposition_violations(parent, children)[k].arrow == Some(a),
{
    let c = children[i];
    let m = if c.inputs.contains(a) {
        c.inputs.index_of(a)
    } else {
        c.inputs.len() + c.controls.index_of(a)
    };
    assert(arrows(c)[m] == a);
    if arrows(parent).contains(a) {
        let j = arrows(parent).index_of(a);
        if j < parent.inputs.len() {
            assert(parent.inputs[j] == a);
        } else {
            assert(parent.controls[j - parent.inputs.len()] == a);
        }
    }
    lemma_dangling_arrows_report(parent, children, c, arrows(c).len() as int, m);
    let v = viol(c.id, Rule::DanglingInput, Severity::Error, Some(a), dangling_message(a, c.id, parent.id));
    lemma_dangling_inputs_include(parent, children, children.len() as int, i, v);
    let mo = missing_outputs(parent, children, parent.outputs.len() as int);
    let di = dangling_inputs(parent, children, children.len() as int);
    let k = di.index_of(v);
    assert(decomposition_violations(parent, children)[mo.len() + k] == v);
}

proof fn lemma_arrows_contain(b: BlockModel, x: Seq<char>)
    ensures
        arrows(b).contains(x) <==> b.inputs.contains(x) || b.controls.contains(x),
{
    if arrows(b).contains(x) {
        let j = arrows(b).index_of(x);
        if j < b.inputs.len() {
            assert(b.inputs[j] == x);
        } else {
            assert(b.controls[j - b.inputs.len()] == x);
        }
    }
    if b.inputs.contains(x) {
        let j = b.inputs.index_of(x);
        assert(arrows(b)[j] == x);
    } else if b.controls.contains(x) {
        let j = b.controls.index_of(x);
        assert(arrows(b)[b.inputs.len() + j] == x);
    }
}

proof fn lemma_missing_outputs_sound(parent: BlockModel, children: Seq<BlockModel>, n: int)
    requires
        0 <= n <= parent.outputs.len(),
    ensures
        forall|k: int|
            0 <= k < missing_outputs(parent, children, n).len() ==> {
                let v = #[trigger] missing_outputs(parent, children, n)[k];
                &&& v.rule == Rule::MissingOutput
                &&& v.severity == Severity::Error
                &&& v.block == parent.id
                &&& v.arrow is Some
                &&& parent.outputs.contains(v.arrow->Some_0)
                &&& !produced(children, v.arrow->Some_0)
            },
    decreases n,
{
    if n > 0 {
        lemma_missing_outputs_sound(parent, children, n - 1);
        let prev = missing_outputs(parent, children, n - 1);
        let cur = missing_outputs(parent, children, n);
        assert forall|k: int| 0 <= k < cur.len() implies {
            let v = #[trigger] cur[k];
            &&& v.rule == Rule::MissingOutput
            &&& v.severity == Severity::Error
            &&& v.block == parent.id
            &&& v.arrow is Some
            &&& parent.outputs.contains(v.arrow->Some_0)
            &&& !produced(children, v.arrow->Some_0)
        } by {
            if k < prev.len() {
                assert(cur[k] == prev[k]);
            } else {
                assert(parent.outputs[n - 1] == cur[k].arrow->Some_0);
            }
        }
    }
}

proof fn lemma_dangling_arrows_sound(parent: BlockModel, children: Seq<BlockModel>, c: BlockModel, n: int)
    requires
        0 <= n <= arrows(c).len(),
    ensures
        forall|k: int|
            0 <= k < dangling_arrows(parent, children, c, n).len() ==> {
                let v = #[trigger] dangling_arrows(parent, children, c, n)[k];
                &&& v.rule == Rule::DanglingInput
                &&& v.severity == Severity::Error
                &&& v.block == c.id
                &&& v.arrow is Some
                &&& arrows(c).contains(v.arrow->Some_0)
                &&& !arrows(parent).contains(v.arrow->Some_0)
                &&& !produced(children, v.arrow->Some_0)
            },
    decreases n,
{
    if n > 0 {
        lemma_dangling_arrows_sound(parent, children, c, n - 1);
        let prev = dangling_arrows(parent, children, c, n - 1);
        let cur = dangling_arrows(parent, children, c, n);
        assert forall|k: int| 0 <= k < cur.len() implies {
            let v = #[trigger] cur[k];
            &&& v.rule == Rule::DanglingInput
            &&& v.severity == Severity::Error
            &&& v.block == c.id
            &&& v.arrow is Some
            &&& arrows(c).contains(v.arrow->Some_0)
            &&& !arrows(parent).contains(v.arrow->Some_0)
            &&& !produced(children, v.arrow->Some_0)
        } by {
            if k < prev.len() {
                assert(cur[k] == prev[k]);
            } else {
                assert(arrows(c)[n - 1] == cur[k].arrow->Some_0);
            }
        }
    }
}

proof fn lemma_dangling_inputs_sound(parent: BlockModel, children: Seq<BlockModel>, n: int)
    requires
        0 <= n <= children.len(),
    ensures
        forall|k: int|
            0 <= k < dangling_inputs(parent, children, n).len() ==> {
                let v = #[trigger] dangling_inputs(parent, children, n)[k];
                &&& v.rule == Rule::DanglingInput
                &&& v.severity == Severity::Error
                &&& v.arrow is Some
                &&& !arrows(parent).contains(v.arrow->Some_0)
                &&& !produced(children, v.arrow->Some_0)
                &&& exists|i: int| 0 <= i < n && v.block == (#[trigger] children[i]).id && arrows(children[i]).contains(v.arrow->Some_0)
            },
    decreases n,
{
    if n > 0 {
        lemma_dangling_inputs_sound(parent, children, n - 1);
        let c = children[n - 1];
        lemma_dangling_arrows_sound(parent, children, c, arrows(c).len() as int);
        let prev = dangling_inputs(parent, children, n - 1);
        let own = dangling_arrows(parent, children, c, arrows(c).len() as int);
        let cur = dangling_inputs(parent, children, n);
        assert forall|k: int| 0 <= k < cur.len() implies {
            let v = #[trigger] cur[k];
            &&& v.rule == Rule::DanglingInput
            &&& v.severity == Severity::Error
            &&& v.arrow is Some
            &&& !arrows(parent).contains(v.arrow->Some_0)
            &&& !produced(children, v.arrow->Some_0)
            &&& exists|i: int| 0 <= i < n && v.block == (#[trigger] children[i]).id && arrows(children[i]).contains(v.arrow->Some_0)
        } by {
            if k < prev.len() {
                assert(cur[k] == prev[k]);
                let i = choose|i: int|
                    0 <= i < n - 1 && prev[k].block == (#[trigger] children[i]).id && arrows(children[i]).contains(prev[k].arrow->Some_0);
                assert(0 <= i < n && cur[k].block == children[i].id);
            } else {
                assert(cur[k] == own[k - prev.len()]);
                assert(cur[k].block == children[n - 1].id);
            }
        }
    }
}

proof fn lemma_unused_inputs_sound(parent: BlockModel, children: Seq<BlockModel>, n: int)
    requires
        0 <= n <= arrows(parent).len(),
    ensures
        forall|k: int|
            0 <= k < unused_inputs(parent, children, n).len() ==> {
                let v = #[trigger] unused_inputs(parent, children, n)[k];
                &&& v.rule == Rule::UnusedParentInput
                &&& v.severity == Severity::Warning
                &&& v.block == parent.id
                &&& v.arrow is Some
                &&& arrows(parent).contains(v.arrow->Some_0)
                &&& !consumed(children, v.arrow->Some_0)
            },
    decreases n,
{
    if n > 0 {
        lemma_unused_inputs_sound(parent, children, n - 1);
        let prev = unused_inputs(parent, children, n - 1);
        let cur = unused_inputs(parent, children, n);
        assert forall|k: int| 0 <= k < cur.len() implies {
            let v = #[trigger] cur[k];
            &&& v.rule == Rule::UnusedParentInput
            &&& v.severity == Severity::Warning
            &&& v.block == parent.id
            &&& v.arrow is Some
            &&& arrows(parent).contains(v.arrow->Some_0)
            &&& !consumed(children, v.arrow->Some_0)
        } by {
            if k < prev.len() {
                assert(cur[k] == prev[k]);
            } else {
                assert(arrows(parent)[n - 1] == cur[k].arrow->Some_0);
            }
        }
    }
}

/// Every violation of a decomposition is justified, and is one of three:
/// an Error `DanglingInput` at a child naming an arrow the child takes in
/// (input or control) that is neither an input nor a control of the parent
/// nor an output of any child; an Error `MissingOutput` at the parent naming
/// an output of the parent that no child produces; a Warning
/// `UnusedParentInput` at the parent naming an input or control of the
/// parent that no child takes in. A decomposition without children has
/// none.
pub proof fn lemma_decomposition_violations_justified(parent: BlockModel, children: Seq<BlockModel>)
    ensures
        children.len() == 0 ==> decomposition_violations(parent, children).len() == 0,
        forall|k: int|
            0 <= k < decomposition_violations(parent, children).len() ==> {
                let v = #[trigger] decomposition_violations(parent, children)[k];
                let a = v.arrow->Some_0;
                &&& v.arrow is Some
                &&& {
                    ||| v.rule == Rule::DanglingInput && v.severity == Severity::Error && !parent.inputs.contains(a)
                        && !parent.controls.contains(a) && (forall|j: int| 0 <= j < children.len() ==> !(#[trigger] children[j]).outputs.contains(a))
                        && exists|i: int|
                        0 <= i < children.len() && v.block == (#[trigger] children[i]).id && (children[i].inputs.contains(a)
                            || children[i].controls.contains(a))
                    ||| v.rule == Rule::MissingOutput && v.severity == Severity::Error && v.block == parent.id && parent.outputs.contains(a)
                        && (forall|j: int| 0 <= j < children.len() ==> !(#[trigger] children[j]).outputs.contains(a))
                    ||| v.rule == Rule::UnusedParentInput && v.severity == Severity::Warning && v.block == parent.id && (
                    parent.inputs.contains(a) || parent.controls.contains(a)) && (forall|j: int|
                        0 <= j < children.len() ==> !(#[trigger] children[j]).inputs.contains(a) && !children[j].controls.contains(a))
                }
            },
{
    if children.len() > 0 {
        let mo = missing_outputs(parent, children, parent.outputs.len() as int);
        let di = dangling_inputs(parent, children, children.len() as int);
        let ui = unused_inputs(parent, children, arrows(parent).len() as int);
        let dv = decomposition_violations(parent, children);
        lemma_missing_outputs_sound(parent, children, parent.outputs.len() as int);
        lemma_dangling_inputs_sound(parent, children, children.len() as int);
        lemma_unused_inputs_sound(parent, children, arrows(parent).len() as int);
        assert forall|k: int| 0 <= k < dv.len() implies {
            let v = #[trigger] dv[k];
            let a = v.arrow->Some_0;
            &&& v.arrow is Some
            &&& {
                ||| v.rule == Rule::DanglingInput && v.severity == Severity::Error && !parent.inputs.contains(a)
                    && !parent.controls.contains(a) && (forall|j: int| 0 <= j < children.len() ==> !(#[trigger] children[j]).outputs.contains(a))
                    && exists|i: int|
                    0 <= i < children.len() && v.block == (#[trigger] children[i]).id && (children[i].inputs.contains(a)
                        || children[i].controls.contains(a))
                ||| v.rule == Rule::MissingOutput && v.severity == Severity::Error && v.block == parent.id && parent.outputs.contains(a)
                    && (forall|j: int| 0 <= j < children.len() ==> !(#[trigger] children[j]).outputs.contains(a))
                ||| v.rule == Rule::UnusedParentInput && v.severity == Severity::Warning && v.block == parent.id && (
                parent.inputs.contains(a) || parent.controls.contains(a)) && (forall|j: int|
                    0 <= j < children.len() ==> !(#[trigger] children[j]).inputs.contains(a) && !children[j].controls.contains(a))
            }
        } by {
            let v = dv[k];
            let a = v.arrow->Some_0;
            if k < mo.len() {
                assert(v == mo[k]);
                assert forall|j: int| 0 <= j < children.len() implies !(#[trigger] children[j]).outputs.contains(a) by {
                    if children[j].outputs.contains(a) {
                        assert(produced(children, a));
                    }
                }
            } else if k < mo.len() + di.len() {
                assert(v == di[k - mo.len()]);
                lemma_arrows_contain(parent, a);
                let i = choose|i: int| 0 <= i < children.len() && v.block == (#[trigger] children[i]).id && arrows(children[i]).contains(a);
                lemma_arrows_contain(children[i], a);
                assert forall|j: int| 0 <= j < children.len() implies !(#[trigger] children[j]).outputs.contains(a) by {
                    if children[j].outputs.contains(a) {
                        assert(produced(children, a));
                    }
                }
            } else {
                assert(v == ui[k - mo.len() - di.len()]);
                lemma_arrows_contain(parent, a);
                assert forall|j: int| 0 <= j < children.len() implies !(#[trigger] children[j]).inputs.contains(a)
                    && !children[j].controls.contains(a) by {
                    lemma_arrows_contain(children[j], a);
                    if arrows(children[j]).contains(a) {
                        assert(consumed(children, a));
                    }
                }
            }
        }
    }
}

proof fn lemma_missing_outputs_report(parent: BlockModel, children: Seq<BlockModel>, n: int, m: int)
    requires
        0 <= m < n <= parent.outputs.len(),
        !produced(children, parent.outputs[m]),
    ensures
        missing_outputs(parent, children, n).contains(
            viol(
                parent.id,
                Rule::MissingOutput,
                Severity::Error,
                Some(parent.outputs[m]),
                missing_output_message(parent.outputs[m], parent.id),
            ),
        ),
    decreases n,
{
    let v = viol(parent.id, Rule::MissingOutput, Severity::Error, Some(parent.outputs[m]), missing_output_message(parent.outputs[m], parent.id));
    let prev = missing_outputs(parent, children, n - 1);
    if m < n - 1 {
        lemma_missing_outputs_report(parent, children, n - 1, m);
        let k = prev.index_of(v);
        assert(missing_outputs(parent, children, n)[k] == v);
    } else {
        assert(missing_outputs(parent, children, n)[prev.len() as int] == v);
    }
}

proof fn lemma_unused_inputs_report(parent: BlockModel, children: Seq<BlockModel>, n: int, m: int)
    requires
        0 <= m < n <= arrows(parent).len(),
        !consumed(children, arrows(parent)[m]),
    ensures
        unused_inputs(parent, children, n).contains(
            viol(
                parent.id,
                Rule::UnusedParentInput,
                Severity::Warning,
                Some(arrows(parent)[m]),
                unused_message(arrows(parent)[m], parent.id),
            ),
        ),
    decreases n,
{
    let v = viol(parent.id, Rule::UnusedParentInput, Severity::Warning, Some(arrows(parent)[m]), unused_message(arrows(parent)[m], parent.id));
    let prev = unused_inputs(parent, children, n - 1);
    if m < n - 1 {
        lemma_unused_inputs_report(parent, children, n - 1, m);
        let k = prev.index_of(v);
        assert(unused_inputs(parent, children, n)[k] == v);
    } else {
        assert(unused_inputs(parent, children, n)[prev.len() as int] == v);
    }
}

/// In a decomposition, every output of the parent that no child produces
/// is reported as an Error `MissingOutput` at the parent naming it, and
/// every input or control of the parent that no child takes in is reported
/// as a Warning `UnusedParentInput` at the parent naming it.
pub proof fn lemma_parent_arrows_reported(parent: BlockModel, children: Seq<BlockModel>, x: Seq<char>)
    requires
        children.len() > 0,
    ensures
        parent.outputs.contains(x) && (forall|j: int| 0 <= j < children.len() ==> !(#[trigger] children[j]).outputs.contains(x))
            ==> exists|k: int|
            0 <= k < decomposition_violations(parent, children).len() && (#[trigger] decomposition_violations(parent, children)[k]).block
                == parent.id && decomposition_violations(parent, children)[k].rule == Rule::MissingOutput
                && decomposition_violations(parent, children)[k].severity == Severity::Error
                && decomposition_violations(parent, children)[k].arrow == Some(x),
        (parent.inputs.contains(x) || parent.controls.contains(x)) && (forall|j: int|
            0 <= j < children.len() ==> !(#[trigger] children[j]).inputs.contains(x) && !children[j].controls.contains(x))
            ==> exists|k: int|
            0 <= k < decomposition_violations(parent, children).len() && (#[trigger] decomposition_violations(parent, children)[k]).block
                == parent.id && decomposition_violations(parent, children)[k].rule == Rule::UnusedParentInput
                && decomposition_violations(parent, children)[k].severity == Severity::Warning
                && decomposition_violations(parent, children)[k].arrow == Some(x),
{
    let mo = missing_outputs(parent, children, parent.outputs.len() as int);
    let di = dangling_inputs(parent, children, children.len() as int);
    let ui = unused_inputs(parent, children, arrows(parent).len() as int);
    let dv = decomposition_violations(parent, children);
    if parent.outputs.contains(x) && (forall|j: int| 0 <= j < children.len() ==> !(#[trigger] children[j]).outputs.contains(x)) {
        let m = parent.outputs.index_of(x);
        if produced(children, x) {
            let j = choose|j: int| 0 <= j < children.len() && (#[trigger] children[j]).outputs.contains(x);
            assert(!children[j].outputs.contains(x));
        }
        lemma_missing_outputs_report(parent, children, parent.outputs.len() as int, m);
        let v = viol(parent.id, Rule::MissingOutput, Severity::Error, Some(x), missing_output_message(x, parent.id));
        let k = mo.index_of(v);
        assert(dv[k] == v);
    }
    if (parent.inputs.contains(x) || parent.controls.contains(x)) && (forall|j: int|
        0 <= j < children.len() ==> !(#[trigger] children[j]).inputs.contains(x) && !children[j].controls.contains(x)) {
        lemma_arrows_contain(parent, x);
        let m = arrows(parent).index_of(x);
        if consumed(children, x) {
            let j = choose|j: int| 0 <= j < children.len() && arrows(#[trigger] children[j]).contains(x);
            lemma_arrows_contain(children[j], x);
            assert(!children[j].inputs.contains(x));
        }
        lemma_unused_inputs_report(parent, children, arrows(parent).len() as int, m);
        let v = viol(parent.id, Rule::UnusedParentInput, Severity::Warning, Some(x), unused_message(x, parent.id));
        let k = ui.index_of(v);
        assert(dv[mo.len() + di.len() + k] == v);
    }
}

pub(crate) fn strings_contain(v: &Vec<String>, s: &str) -> (res: bool)
    ensures
        res == crate::text::string_views(v@).contains(s@),
{
    let mut i: usize = 0;
    while i < v.len()
        invariant
            i <= v.len(),
            forall|j: int| 0 <= j < i ==> v@[j]@ != s@,
        decreases v.len() - i,
    {
        if crate::text::str_eq(v[i].as_str(), s) {
            assert(crate::text::string_views(v@)[i as int] == s@);
            return true;
        }
        i += 1;
    }
    proof {
        if crate::text::string_views(v@).contains(s@) {
            let j = crate::text::string_views(v@).index_of(s@);
            assert(v@[j]@ == s@);
        }
    }
    false
}

fn arrows_contain(b: &Block, s: &str) -> (res: bool)
    ensures
        res == arrows(b@).contains(s@),
{
    let r = strings_contain(&b.inputs, s) || strings_contain(&b.controls, s);
    proof {
        let a = arrows(b@);
        if a.contains(s@) {
            let k = a.index_of(s@);
            if k < b@.inputs.len() {
                assert(b@.inputs[k] == s@);
            } else {
                assert(b@.controls[k - b@.inputs.len()] == s@);
            }
        }
        if b@.inputs.contains(s@) {
            let k = b@.inputs.index_of(s@);
            assert(a[k] == s@);
        }
        if b@.controls.contains(s@) {
            let k = b@.controls.index_of(s@);
            assert(a[k + b@.inputs.len()] == s@);
        }
    }
    r
}

fn is_produced(children: &[Block], x: &str) -> (res: bool)
    ensures
        res == produced(block_views(children@), x@),
{
    let ghost cs = block_views(children@);
    let mut i: usize = 0;
    while i < children.len()
        invariant
            cs == block_views(children@),
            i <= children@.len(),
            forall|j: int| 0 <= j < i ==> !(#[trigger] cs[j]).outputs.contains(x@),
        decreases children@.len() - i,
    {
        if strings_contain(&children[i].outputs, x) {
            assert(cs[i as int].outputs.contains(x@));
            return true;
        }
        i += 1;
    }
    false
}

fn is_consumed(children: &[Block], x: &str) -> (res: bool)
    ensures
        res == consumed(block_views(children@), x@),
{
    let ghost cs = block_views(children@);
    let mut i: usize = 0;
    while i < children.len()
        invariant
            cs == block_views(children@),
            i <= children@.len(),
            forall|j: int| 0 <= j < i ==> !arrows(#[trigger] cs[j]).contains(x@),
        decreases children@.len() - i,
    {
        if arrows_contain(&children[i], x) {
            assert(arrows(cs[i as int]).contains(x@));
            return true;
        }
        i += 1;
    }
    false
}

fn push_violation(out: &mut Vec<Violation>, v: Violation)
    ensures
        violation_views(final(out)@) == violation_views(old(out)@).push(v@),
{
    out.push(v);
    assert(violation_views(out@) =~= violation_views(old(out)@).push(v@));
}

/// Checks one decomposition: the parent against its direct children.
pub fn validate_decomposition(parent: &Block, children: &[Block]) -> (res: Vec<Violation>)
    ensures
        violation_views(res@) == decomposition_violations(parent@, block_views(children@)),
{
    let mut out: Vec<Violation> = Vec::new();
    let ghost cs = block_views(children@);
    let ghost p = parent@;
    if children.len() == 0 {
        assert(violation_views(out@) =~= Seq::<ViolationModel>::empty());
        return out;
    }
    assert(violation_views(out@) =~= Seq::<ViolationModel>::empty());
    // outputs the children do not produce
    for i in 0..parent.outputs.len()
        invariant
            cs == block_views(children@),
            p == parent@,
            violation_views(out@) == missing_outputs(p, cs, i as int),
    {
        let o = &parent.outputs[i];
        assert(p.outputs[i as int] == o@);
        if !is_produced(children, o.as_str()) {
            let mut m = owned("выход «");
            append(&mut m, o.as_str());
            append(&mut m, "» блока ");
            append(&mut m, parent.id.as_str());
            append(&mut m, " не производится ни одним из его подблоков");
            push_violation(&mut out, make(parent.id.as_str(), Rule::MissingOutput, Severity::Error, Some(o.as_str()), m));
        }
    }
    let ghost part1 = violation_views(out@);
    // inputs of the children that come from nowhere
    for i in 0..children.len()
        invariant
            cs == block_views(children@),
            p == parent@,
            violation_views(out@) == part1 + dangling_inputs(p, cs, i as int),
    {
        let c = &children[i];
        let ghost before = violation_views(out@);
        assert(cs[i as int] == c@);
        let ni = c.inputs.len();
        for j in 0..ni
            invariant
                cs == block_views(children@),
                p == parent@,
                cs[i as int] == c@,
                ni == c@.inputs.len(),
                violation_views(out@) == before + dangling_arrows(p, cs, c@, j as int),
        {
            let a = &c.inputs[j];
            assert(arrows(c@)[j as int] == a@);
            if !arrows_contain(parent, a.as_str()) && !is_produced(children, a.as_str()) {
                let mut m = owned("стрелка «");
                append(&mut m, a.as_str());
                append(&mut m, "» блока ");
                append(&mut m, c.id.as_str());
                append(&mut m, " висит: не приходит извне (ICOM блока ");
                append(&mut m, parent.id.as_str());
                append(&mut m, ") и не производится соседним подблоком");
                push_violation(&mut out, make(c.id.as_str(), Rule::DanglingInput, Severity::Error, Some(a.as_str()), m));
                assert(violation_views(out@) =~= before + dangling_arrows(p, cs, c@, j + 1));
            } else {
                assert(violation_views(out@) =~= before + dangling_arrows(p, cs, c@, j + 1));
            }
        }
        for k in 0..c.controls.len()
            invariant
                cs == block_views(children@),
                p == parent@,
                cs[i as int] == c@,
                ni == c@.inputs.len(),
                violation_views(out@) == before + dangling_arrows(p, cs, c@, ni + k),
        {
            let a = &c.controls[k];
            assert(arrows(c@)[ni + k] == a@);
            if !arrows_contain(parent, a.as_str()) && !is_produced(children, a.as_str()) {
                let mut m = owned("стрелка «");
                append(&mut m, a.as_str());
                append(&mut m, "» блока ");
                append(&mut m, c.id.as_str());
                append(&mut m, " висит: не приходит извне (ICOM блока ");
                append(&mut m, parent.id.as_str());
                append(&mut m, ") и не производится соседним подблоком");
                push_violation(&mut out, make(c.id.as_str(), Rule::DanglingInput, Severity::Error, Some(a.as_str()), m));
                assert(violation_views(out@) =~= before + dangling_arrows(p, cs, c@, ni + k + 1));
            } else {
                assert(violation_views(out@) =~= before + dangling_arrows(p, cs, c@, ni + k + 1));
            }
        }
        assert(violation_views(out@) =~= part1 + dangling_inputs(p, cs, i + 1));
    }
    let ghost part2 = violation_views(out@);
    // parent inputs nobody consumes
    let pi = parent.inputs.len();
    for j in 0..pi
        invariant
            cs == block_views(children@),
            p == parent@,
            pi == p.inputs.len(),
            violation_views(out@) == part2 + unused_inputs(p, cs, j as int),
    {
        let a = &parent.inputs[j];
        assert(arrows(p)[j as int] == a@);
        if !is_consumed(children, a.as_str()) {
            let mut m = owned("стрелка «");
            append(&mut m, a.as_str());
            append(&mut m, "» объявлена у блока ");
            append(&mut m, parent.id.as_str());
            append(&mut m, ", но не потребляется ни одним подблоком");
            push_violation(
                &mut out,
                make(parent.id.as_str(), Rule::UnusedParentInput, Severity::Warning, Some(a.as_str()), m),
            );
            assert(violation_views(out@) =~= part2 + unused_inputs(p, cs, j + 1));
        } else {
            assert(violation_views(out@) =~= part2 + unused_inputs(p, cs, j + 1));
        }
    }
    for k in 0..parent.controls.len()
        invariant
            cs == block_views(children@),
            p == parent@,
            pi == p.inputs.len(),
            violation_views(out@) == part2 + unused_inputs(p, cs, pi + k),
    {
        let a = &parent.controls[k];
        assert(arrows(p)[pi + k] == a@);
        if !is_consumed(children, a.as_str()) {
            let mut m = owned("стрелка «");
            append(&mut m, a.as_str());
            append(&mut m, "» объявлена у блока ");
            append(&mut m, parent.id.as_str());
            append(&mut m, ", но не потребляется ни одним подблоком");
            push_violation(
                &mut out,
                make(parent.id.as_str(), Rule::UnusedParentInput, Severity::Warning, Some(a.as_str()), m),
            );
            assert(violation_views(out@) =~= part2 + unused_inputs(p, cs, pi + k + 1));
        } else {
            assert(violation_views(out@) =~= part2 + unused_inputs(p, cs, pi + k + 1));
        }
    }
    out
}

// ---------------------------------------------------------------------
// The execution graph
// ---------------------------------------------------------------------

pub open spec fn self_loop_message(id: Seq<char>, a: Seq<char>) -> Seq<char> {
    "блок "@ + id + " потребляет «"@ + a
        + "», который сам же производит — связь не будет построена, вход останется без источника"@
}

/// The first `n` arrows of `b` that are also its outputs.
pub open spec fn self_loop_arrows(b: BlockModel, n: int) -> Seq<ViolationModel>
    decreases n,
{
    if n <= 0 {
        Seq::empty()
    } else {
        let a = arrows(b)[n - 1];
        self_loop_arrows(b, n - 1) + if b.outputs.contains(a) {
            seq![viol(b.id, Rule::SelfLoop, Severity::Error, Some(a), self_loop_message(b.id, a))]
        } else {
            Seq::empty()
        }
    }
}

/// Self loops of the first `n` blocks.
pub open spec fn self_loops(bs: Seq<BlockModel>, n: int) -> Seq<ViolationModel>
    decreases n,
{
    if n <= 0 {
        Seq::empty()
    } else {
        self_loops(bs, n - 1) + self_loop_arrows(bs[n - 1], arrows(bs[n - 1]).len() as int)
    }
}

fn check_self_loops(blocks: &Vec<Block>) -> (res: Vec<Violation>)
    ensures
        violation_views(res@) == self_loops(block_views(blocks@), blocks@.len() as int),
{
    let ghost bs = block_views(blocks@);
    let mut out: Vec<Violation> = Vec::new();
    assert(violation_views(out@) =~= self_loops(bs, 0));
    for i in 0..blocks.len()
        invariant
            bs == block_views(blocks@),
            violation_views(out@) == self_loops(bs, i as int),
    {
        let b = &blocks[i];
        let ghost before = violation_views(out@);
        assert(bs[i as int] == b@);
        let ni = b.inputs.len();
        for j in 0..ni
            invariant
                bs[i as int] == b@,
                ni == b@.inputs.len(),
                violation_views(out@) == before + self_loop_arrows(b@, j as int),
        {
            let a = &b.inputs[j];
            assert(arrows(b@)[j as int] == a@);
            if strings_contain(&b.outputs, a.as_str()) {
                let mut m = owned("блок ");
                append(&mut m, b.id.as_str());
                append(&mut m, " потребляет «");
                append(&mut m, a.as_str());
                append(&mut m, "», который сам же производит — связь не будет построена, вход останется без источника");
                push_violation(&mut out, make(b.id.as_str(), Rule::SelfLoop, Severity::Error, Some(a.as_str()), m));
            }
            assert(violation_views(out@) =~= before + self_loop_arrows(b@, j + 1));
        }
        for k in 0..b.controls.len()
            invariant
                bs[i as int] == b@,
                ni == b@.inputs.len(),
                violation_views(out@) == before + self_loop_arrows(b@, ni + k),
        {
            let a = &b.controls[k];
            assert(arrows(b@)[ni + k] == a@);
            if strings_contain(&b.outputs, a.as_str()) {
                let mut m = owned("блок ");
                append(&mut m, b.id.as_str());
                append(&mut m, " потребляет «");
                append(&mut m, a.as_str());
                append(&mut m, "», который сам же производит — связь не будет построена, вход останется без источника");
                push_violation(&mut out, make(b.id.as_str(), Rule::SelfLoop, Severity::Error, Some(a.as_str()), m));
            }
            assert(violation_views(out@) =~= before + self_loop_arrows(b@, ni + k + 1));
        }
        assert(violation_views(out@) =~= self_loops(bs, i + 1));
    }
    out
}

pub open spec fn parent_message(id: Seq<char>) -> Seq<char> {
    "блок "@ + id + " имеет декомпозицию и при этом исполняется сам — его работа дублирует работу подблоков"@
}

/// Decomposed blocks among the first `n` (warnings).
pub open spec fn parents_executing(bs: Seq<BlockModel>, n: int) -> Seq<ViolationModel>
    decreases n,
{
    if n <= 0 {
        Seq::empty()
    } else {
        parents_executing(bs, n - 1) + if bs[n - 1].children.len() > 0 {
            seq![viol(bs[n - 1].id, Rule::ParentAlsoExecutes, Severity::Warning, None, parent_message(bs[n - 1].id))]
        } else {
            Seq::empty()
        }
    }
}

fn check_parents(blocks: &Vec<Block>) -> (res: Vec<Violation>)
    ensures
        violation_views(res@) == parents_executing(block_views(blocks@), blocks@.len() as int),
{
    let ghost bs = block_views(blocks@);
    let mut out: Vec<Violation> = Vec::new();
    assert(violation_views(out@) =~= parents_executing(bs, 0));
    for i in 0..blocks.len()
        invariant
            bs == block_views(blocks@),
            violation_views(out@) == parents_executing(bs, i as int),
    {
        let b = &blocks[i];
        assert(bs[i as int] == b@);
        if b.children.len() > 0 {
            let mut m = owned("блок ");
            append(&mut m, b.id.as_str());
            append(&mut m, " имеет декомпозицию и при этом исполняется сам — его работа дублирует работу подблоков");
            push_violation(&mut out, make(b.id.as_str(), Rule::ParentAlsoExecutes, Severity::Warning, None, m));
        }
        assert(violation_views(out@) =~= parents_executing(bs, i + 1));
    }
    out
}

pub open spec fn consumer_message(to: Seq<char>, o: Seq<char>, from: Seq<char>) -> Seq<char> {
    "блок "@ + to + " читает «"@ + o + "» от branch-блока "@ + from
        + ", но не указан в его ветках — ребро построено не будет"@
}

/// The first `n` outputs of `from` that `to` takes in.
pub open spec fn consumed_outputs(from: BlockModel, to: BlockModel, n: int) -> Seq<ViolationModel>
    decreases n,
{
    if n <= 0 {
        Seq::empty()
    } else {
        let o = from.outputs[n - 1];
        consumed_outputs(from, to, n - 1) + if arrows(to).contains(o) {
            seq![viol(to.id, Rule::BranchConsumerUnlinked, Severity::Error, Some(o), consumer_message(to.id, o, from.id))]
        } else {
            Seq::empty()
        }
    }
}

pub open spec fn branch_targets(b: BlockModel) -> Seq<Seq<char>> {
    b.branches.map_values(|p: (Seq<char>, Seq<char>)| p.1)
}

/// Consumers of `from`'s outputs among the first `n` blocks that are
/// neither `from` nor one of its branch targets.
pub open spec fn unlinked_consumers(bs: Seq<BlockModel>, from: BlockModel, n: int) -> Seq<ViolationModel>
    decreases n,
{
    if n <= 0 {
        Seq::empty()
    } else {
        let to = bs[n - 1];
        unlinked_consumers(bs, from, n - 1) + if to.id == from.id || branch_targets(from).contains(to.id) {
            Seq::empty()
        } else {
            consumed_outputs(from, to, from.outputs.len() as int)
        }
    }
}

/// Unlinked consumers of the branching blocks among the first `n`.
pub open spec fn branch_consumers(bs: Seq<BlockModel>, n: int) -> Seq<ViolationModel>
    decreases n,
{
    if n <= 0 {
        Seq::empty()
    } else {
        branch_consumers(bs, n - 1) + if is_branching(bs[n - 1]) {
            unlinked_consumers(bs, bs[n - 1], bs.len() as int)
        } else {
            Seq::empty()
        }
    }
}

fn targets_contain(b: &Block, id: &String) -> (res: bool)
    ensures
        res == branch_targets(b@).contains(id@),
{
    let ghost t = branch_targets(b@);
    let mut i: usize = 0;
    while i < b.branches.len()
        invariant
            t == branch_targets(b@),
            i <= b.branches.len(),
            forall|j: int| 0 <= j < i ==> t[j] != id@,
        decreases b.branches.len() - i,
    {
        assert(t[i as int] == b.branches@[i as int].1@);
        if b.branches[i].1 == *id {
            return true;
        }
        i += 1;
    }
    proof {
        if t.contains(id@) {
            let j = t.index_of(id@);
            assert(t[j] == id@);
        }
    }
    false
}

fn check_branch_consumers(blocks: &Vec<Block>) -> (res: Vec<Violation>)
    ensures
        violation_views(res@) == branch_consumers(block_views(blocks@), blocks@.len() as int),
{
    let ghost bs = block_views(blocks@);
    let mut out: Vec<Violation> = Vec::new();
    assert(violation_views(out@) =~= branch_consumers(bs, 0));
    for i in 0..blocks.len()
        invariant
            bs == block_views(blocks@),
            violation_views(out@) == branch_consumers(bs, i as int),
    {
        let from = &blocks[i];
        assert(bs[i as int] == from@);
        let ghost base = violation_views(out@);
        if is_branch_block(from) && from.branches.len() > 0 {
            assert(violation_views(out@) =~= base + unlinked_consumers(bs, from@, 0));
            for j in 0..blocks.len()
                invariant
                    bs == block_views(blocks@),
                    bs[i as int] == from@,
                    violation_views(out@) == base + unlinked_consumers(bs, from@, j as int),
            {
                let to = &blocks[j];
                assert(bs[j as int] == to@);
                if !(to.id == from.id || targets_contain(from, &to.id)) {
                    let ghost mid = violation_views(out@);
                    assert(violation_views(out@) =~= mid + consumed_outputs(from@, to@, 0));
                    for k in 0..from.outputs.len()
                        invariant
                            violation_views(out@) == mid + consumed_outputs(from@, to@, k as int),
                    {
                        let o = &from.outputs[k];
                        assert(from@.outputs[k as int] == o@);
                        if arrows_contain(to, o.as_str()) {
                            let mut m = owned("блок ");
                            append(&mut m, to.id.as_str());
                            append(&mut m, " читает «");
                            append(&mut m, o.as_str());
                            append(&mut m, "» от branch-блока ");
                            append(&mut m, from.id.as_str());
                            append(&mut m, ", но не указан в его ветках — ребро построено не будет");
                            push_violation(
                                &mut out,
                                make(to.id.as_str(), Rule::BranchConsumerUnlinked, Severity::Error, Some(o.as_str()), m),
                            );
                        }
                        assert(violation_views(out@) =~= mid + consumed_outputs(from@, to@, k + 1));
                    }
                }
                assert(violation_views(out@) =~= base + unlinked_consumers(bs, from@, j + 1));
            }
        }
        assert(violation_views(out@) =~= branch_consumers(bs, i + 1));
    }
    out
}

/// The execution edges as (source, target) pairs: the edges the mapper
/// builds.
pub open spec fn exec_pairs(bs: Seq<BlockModel>) -> Seq<(Seq<char>, Seq<char>)> {
    crate::idef0::edges_upto(bs, bs.len() as int).map_values(|e: crate::parser::EdgeModel| (e.source, e.target))
}

fn execution_edges(blocks: &Vec<Block>) -> (res: Vec<(String, String)>)
    ensures
        crate::parser::pair_views(res@) == exec_pairs(block_views(blocks@)),
{
    let ghost bs = block_views(blocks@);
    let ghost proj = |e: crate::parser::EdgeModel| (e.source, e.target);
    let mut out: Vec<(String, String)> = Vec::new();
    assert(crate::parser::pair_views(out@) =~= crate::idef0::edges_upto(bs, 0).map_values(proj));
    for i in 0..blocks.len()
        invariant
            bs == block_views(blocks@),
            proj == (|e: crate::parser::EdgeModel| (e.source, e.target)),
            crate::parser::pair_views(out@) == crate::idef0::edges_upto(bs, i as int).map_values(proj),
    {
        let from = &blocks[i];
        assert(bs[i as int] == from@);
        let ghost base = crate::parser::pair_views(out@);
        if is_branch_block(from) && from.branches.len() > 0 {
            assert(crate::parser::pair_views(out@) =~= base + crate::idef0::branch_edges(from@, ids_of(bs), 0).map_values(
                proj,
            ));
            for j in 0..from.branches.len()
                invariant
                    bs == block_views(blocks@),
                    bs[i as int] == from@,
                    proj == (|e: crate::parser::EdgeModel| (e.source, e.target)),
                    crate::parser::pair_views(out@) == base + crate::idef0::branch_edges(from@, ids_of(bs), j as int).map_values(
                        proj,
                    ),
            {
                let target = &from.branches[j].1;
                assert(from@.branches[j as int] == (from.branches@[j as int].0@, from.branches@[j as int].1@));
                let ghost prev = crate::idef0::branch_edges(from@, ids_of(bs), j as int);
                let ghost next = crate::idef0::branch_edges(from@, ids_of(bs), j + 1);
                let ghost before = crate::parser::pair_views(out@);
                if has_block_id(blocks, target) {
                    out.push((from.id.clone(), target.clone()));
                    proof {
                        assert(next == prev + seq![next.last()]);
                        assert(crate::parser::pair_views(out@) =~= before.push(proj(next.last())));
                        assert(next.map_values(proj) =~= prev.map_values(proj).push(proj(next.last())));
                    }
                } else {
                    assert(next =~= prev);
                }
                assert(crate::parser::pair_views(out@) =~= base + next.map_values(proj));
            }
        } else {
            assert(crate::parser::pair_views(out@) =~= base + crate::idef0::seq_edges(bs, i as int, 0).map_values(proj));
            for k in 0..blocks.len()
                invariant
                    bs == block_views(blocks@),
                    bs[i as int] == from@,
                    i < blocks.len(),
                    proj == (|e: crate::parser::EdgeModel| (e.source, e.target)),
                    crate::parser::pair_views(out@) == base + crate::idef0::seq_edges(bs, i as int, k as int).map_values(proj),
            {
                let to = &blocks[k];
                assert(bs[k as int] == to@);
                let ghost prev = crate::idef0::seq_edges(bs, i as int, k as int);
                let ghost next = crate::idef0::seq_edges(bs, i as int, k + 1);
                let ghost before = crate::parser::pair_views(out@);
                if from.id != to.id && is_linked(from, to) {
                    out.push((from.id.clone(), to.id.clone()));
                    proof {
                        assert(next == prev + seq![next.last()]);
                        assert(crate::parser::pair_views(out@) =~= before.push(proj(next.last())));
                        assert(next.map_values(proj) =~= prev.map_values(proj).push(proj(next.last())));
                    }
                } else {
                    assert(next =~= prev);
                }
                assert(crate::parser::pair_views(out@) =~= base + next.map_values(proj));
            }
        }
        assert(crate::parser::pair_views(out@) =~= crate::idef0::edges_upto(bs, i + 1).map_values(proj));
    }
    out
}

pub open spec fn orphan_message(id: Seq<char>) -> Seq<char> {
    "блок "@ + id + " не связан ни с одним другим — он исполнится, но вне потока модели"@
}

/// Some edge enters `id`.
pub open spec fn has_in(es: Seq<(Seq<char>, Seq<char>)>, id: Seq<char>) -> bool {
    exists|e: int| 0 <= e < es.len() && (#[trigger] es[e]).1 == id
}

/// Some edge leaves `id`.
pub open spec fn has_out(es: Seq<(Seq<char>, Seq<char>)>, id: Seq<char>) -> bool {
    exists|e: int| 0 <= e < es.len() && (#[trigger] es[e]).0 == id
}

/// Blocks among the first `n` with no edge in or out (warnings).
pub open spec fn orphans(bs: Seq<BlockModel>, es: Seq<(Seq<char>, Seq<char>)>, n: int) -> Seq<ViolationModel>
    decreases n,
{
    if n <= 0 {
        Seq::empty()
    } else {
        let id = bs[n - 1].id;
        orphans(bs, es, n - 1) + if !has_in(es, id) && !has_out(es, id) {
            seq![viol(id, Rule::OrphanBlock, Severity::Warning, None, orphan_message(id))]
        } else {
            Seq::empty()
        }
    }
}

/// Orphans, when there is more than one block.
pub open spec fn orphan_violations(bs: Seq<BlockModel>, es: Seq<(Seq<char>, Seq<char>)>) -> Seq<ViolationModel> {
    if bs.len() > 1 {
        orphans(bs, es, bs.len() as int)
    } else {
        Seq::empty()
    }
}

fn check_orphans(blocks: &Vec<Block>, edges: &Vec<(String, String)>) -> (res: Vec<Violation>)
    ensures
        violation_views(res@) == orphan_violations(block_views(blocks@), crate::parser::pair_views(edges@)),
{
    let ghost bs = block_views(blocks@);
    let ghost es = crate::parser::pair_views(edges@);
    let mut out: Vec<Violation> = Vec::new();
    if blocks.len() <= 1 {
        assert(violation_views(out@) =~= Seq::<ViolationModel>::empty());
        return out;
    }
    assert(violation_views(out@) =~= orphans(bs, es, 0));
    for i in 0..blocks.len()
        invariant
            bs == block_views(blocks@),
            es == crate::parser::pair_views(edges@),
            violation_views(out@) == orphans(bs, es, i as int),
    {
        let b = &blocks[i];
        assert(bs[i as int] == b@);
        let mut found_in = false;
        let mut found_out = false;
        for e in 0..edges.len()
            invariant
                es == crate::parser::pair_views(edges@),
                found_in == exists|x: int| 0 <= x < e && (#[trigger] es[x]).1 == b@.id,
                found_out == exists|x: int| 0 <= x < e && (#[trigger] es[x]).0 == b@.id,
        {
            assert(es[e as int] == (edges@[e as int].0@, edges@[e as int].1@));
            if edges[e].1 == b.id {
                found_in = true;
            }
            if edges[e].0 == b.id {
                found_out = true;
            }
        }
        if !found_in && !found_out {
            let mut m = owned("блок ");
            append(&mut m, b.id.as_str());
            append(&mut m, " не связан ни с одним другим — он исполнится, но вне потока модели");
            push_violation(&mut out, make(b.id.as_str(), Rule::OrphanBlock, Severity::Warning, None, m));
        }
        assert(violation_views(out@) =~= orphans(bs, es, i + 1));
    }
    out
}

// The data-flow cycle check.

/// The ids of the blocks.
pub open spec fn id_set(bs: Seq<BlockModel>) -> Set<Seq<char>> {
    Set::new(|x: Seq<char>| exists|i: int| 0 <= i < bs.len() && (#[trigger] bs[i]).id == x)
}

/// The blocks that settle within `k` rounds: a block settles once every
/// edge into it comes from a settled block. After as many rounds as there
/// are blocks no further block settles; the blocks left are on a cycle or
/// downstream of one.
pub open spec fn settle(ids: Set<Seq<char>>, es: Seq<(Seq<char>, Seq<char>)>, k: nat) -> Set<Seq<char>>
    decreases k,
{
    if k == 0 {
        Set::empty()
    } else {
        let prev = settle(ids, es, (k - 1) as nat);
        Set::new(
            |v: Seq<char>|
                ids.contains(v) && forall|e: int| 0 <= e < es.len() && (#[trigger] es[e]).1 == v ==> prev.contains(es[e].0),
        )
    }
}

/// How many of the first `n` ids are in `s`.
pub open spec fn count_in(ids: Seq<Seq<char>>, s: Set<Seq<char>>, n: int) -> int
    decreases n,
{
    if n <= 0 {
        0
    } else {
        count_in(ids, s, n - 1) + if s.contains(ids[n - 1]) {
            1int
        } else {
            0int
        }
    }
}

/// The first `n` ids not in `s`.
pub open spec fn not_in(ids: Seq<Seq<char>>, s: Set<Seq<char>>, n: int) -> Seq<Seq<char>>
    decreases n,
{
    if n <= 0 {
        Seq::empty()
    } else {
        not_in(ids, s, n - 1) + if !s.contains(ids[n - 1]) {
            seq![ids[n - 1]]
        } else {
            Seq::empty()
        }
    }
}

pub open spec fn cycle_message(stuck: Seq<Seq<char>>) -> Seq<char> {
    "цикл по данным между блоками "@ + debug_list(stuck) + " — планировщик такой граф не исполнит"@
}

/// A cycle error when fewer blocks settle than there are blocks; it names
/// the unsettled ids in ascending order (at the first of them).
pub open spec fn cycle_violations(bs: Seq<BlockModel>, es: Seq<(Seq<char>, Seq<char>)>) -> Seq<ViolationModel> {
    let ids = sorted_elements(id_set(bs));
    let s = settle(id_set(bs), es, bs.len() as nat);
    let stuck = not_in(ids, s, ids.len() as int);
    if count_in(ids, s, ids.len() as int) < bs.len() {
        seq![
            viol(
                if stuck.len() > 0 {
                    stuck[0]
                } else {
                    "<граф>"@
                },
                Rule::Cycle,
                Severity::Error,
                None,
                cycle_message(stuck),
            ),
        ]
    } else {
        Seq::empty()
    }
}

/// The ids of the blocks, ascending, each once.
fn block_ids(blocks: &Vec<Block>) -> (res: (KeyedMap<()>, Vec<String>))
    ensures
        crate::text::string_views(res.1@) == sorted_elements(id_set(block_views(blocks@))),
        crate::text::string_views(res.1@) == res.0.key_seq(),
        forall|x: Seq<char>| crate::text::string_views(res.1@).contains(x) <==> id_set(block_views(blocks@)).contains(x),
{
    let ghost bs = block_views(blocks@);
    let mut m: KeyedMap<()> = KeyedMap::new();
    for i in 0..blocks.len()
        invariant
            bs == block_views(blocks@),
            forall|x: Seq<char>| #[trigger] m.has(x) <==> exists|j: int| 0 <= j < i && (#[trigger] bs[j]).id == x,
    {
        let ghost before = m;
        m.insert(blocks[i].id.clone(), ());
        proof {
            assert(bs[i as int].id == blocks@[i as int].id@);
            assert forall|x: Seq<char>| #[trigger] m.has(x) <==> exists|j: int| 0 <= j < i + 1 && (#[trigger] bs[j]).id == x by {
                if x == bs[i as int].id {
                    assert(0 <= i < i + 1 && bs[i as int].id == x);
                } else if exists|j: int| 0 <= j < i + 1 && (#[trigger] bs[j]).id == x {
                    let j = choose|j: int| 0 <= j < i + 1 && (#[trigger] bs[j]).id == x;
                    assert(0 <= j < i && bs[j].id == x);
                }
            }
        }
    }
    m.lemma_sorted();
    let mut ids: Vec<String> = Vec::new();
    let n = m.len();
    for k in 0..n
        invariant
            n == m.key_seq().len(),
            ids.len() == k,
            forall|j: int| 0 <= j < k ==> #[trigger] ids@[j]@ == m.key_seq()[j],
    {
        ids.push(m.key_at(k).clone());
    }
    proof {
        assert(crate::text::string_views(ids@) =~= m.key_seq());
        assert forall|x: Seq<char>| m.key_seq().contains(x) <==> id_set(bs).contains(x) by {
            assert(m.has(x) == m.key_seq().contains(x));
        }
        lemma_sorted_elements(m.key_seq(), id_set(bs));
    }
    (m, ids)
}

fn check_cycle(blocks: &Vec<Block>, edges: &Vec<(String, String)>) -> (res: Vec<Violation>)
    ensures
        violation_views(res@) == cycle_violations(block_views(blocks@), crate::parser::pair_views(edges@)),
{
    let ghost bs = block_views(blocks@);
    let ghost es = crate::parser::pair_views(edges@);
    let ghost idset = id_set(bs);
    let (index, ids) = block_ids(blocks);
    let ghost iv = crate::text::string_views(ids@);
    let n = ids.len();
    let mut cur: Vec<bool> = Vec::new();
    for k in 0..n
        invariant
            cur.len() == k,
            forall|j: int| 0 <= j < k ==> cur@[j] == false,
    {
        cur.push(false);
    }
    proof {
        assert forall|j: int| 0 <= j < n implies cur@[j] == settle(idset, es, 0).contains(#[trigger] iv[j]) by {}
    }
    for r in 0..blocks.len()
        invariant
            bs == block_views(blocks@),
            es == crate::parser::pair_views(edges@),
            idset == id_set(bs),
            iv == crate::text::string_views(ids@),
            iv == index.key_seq(),
            iv == sorted_elements(idset),
            forall|x: Seq<char>| iv.contains(x) <==> idset.contains(x),
            n == ids.len(),
            cur.len() == n,
            forall|j: int| 0 <= j < n ==> cur@[j] == settle(idset, es, r as nat).contains(#[trigger] iv[j]),
    {
        let ghost prev = settle(idset, es, r as nat);
        assert(prev.subset_of(idset));
        let mut next: Vec<bool> = Vec::new();
        for k in 0..n
            invariant
                es == crate::parser::pair_views(edges@),
                iv == crate::text::string_views(ids@),
                iv == index.key_seq(),
                iv == sorted_elements(idset),
                forall|x: Seq<char>| iv.contains(x) <==> idset.contains(x),
                prev.subset_of(idset),
                idset == id_set(bs),
                n == ids.len(),
                cur.len() == n,
                prev == settle(idset, es, r as nat),
                forall|j: int| 0 <= j < n ==> cur@[j] == prev.contains(#[trigger] iv[j]),
                next.len() == k,
                forall|j: int| 0 <= j < k ==> next@[j] == settle(idset, es, (r + 1) as nat).contains(#[trigger] iv[j]),
        {
            let mut ok = true;
            for e in 0..edges.len()
                invariant
                    es == crate::parser::pair_views(edges@),
                    iv == index.key_seq(),
                    iv == crate::text::string_views(ids@),
                    forall|x: Seq<char>| iv.contains(x) <==> idset.contains(x),
                    n == ids.len(),
                    k < n,
                    cur.len() == n,
                    forall|j: int| 0 <= j < n ==> cur@[j] == prev.contains(#[trigger] iv[j]),
                    prev.subset_of(idset),
                    iv == sorted_elements(idset),
                    ok == forall|x: int| 0 <= x < e && (#[trigger] es[x]).1 == iv[k as int] ==> prev.contains(es[x].0),
            {
                assert(es[e as int] == (edges@[e as int].0@, edges@[e as int].1@));
                if edges[e].1 == ids[k] {
                    match index.find(edges[e].0.as_str()) {
                        Some(pos) => {
                            if !cur[pos] {
                                ok = false;
                            }
                        },
                        None => {
                            proof {
                                assert(!iv.contains(es[e as int].0));
                            }
                            ok = false;
                        },
                    }
                }
            }
            proof {
                assert(iv.contains(iv[k as int]));
            }
            next.push(ok);
        }
        cur = next;
    }
    let ghost s = settle(idset, es, blocks.len() as nat);
    let mut settled: usize = 0;
    let mut stuck: Vec<String> = Vec::new();
    for k in 0..n
        invariant
            iv == crate::text::string_views(ids@),
            n == ids.len(),
            cur.len() == n,
            forall|j: int| 0 <= j < n ==> cur@[j] == s.contains(#[trigger] iv[j]),
            settled as int == count_in(iv, s, k as int),
            settled <= k,
            crate::text::string_views(stuck@) == not_in(iv, s, k as int),
    {
        if cur[k] {
            settled += 1;
        } else {
            let ghost before = crate::text::string_views(stuck@);
            stuck.push(ids[k].clone());
            assert(crate::text::string_views(stuck@) =~= before.push(iv[k as int]));
        }
        assert(crate::text::string_views(stuck@) =~= not_in(iv, s, k + 1));
    }
    let mut out: Vec<Violation> = Vec::new();
    if settled < blocks.len() {
        let mut m = owned("цикл по данным между блоками ");
        let d = crate::decoding::debug_strings(&stuck);
        append(&mut m, d.as_str());
        append(&mut m, " — планировщик такой граф не исполнит");
        let at = if stuck.len() > 0 {
            stuck[0].clone()
        } else {
            owned("<граф>")
        };
        push_violation(&mut out, make(at.as_str(), Rule::Cycle, Severity::Error, None, m));
    }
    assert(violation_views(out@) =~= cycle_violations(bs, es));
    out
}

// Several producers of one flow.

/// The flows the blocks produce.
pub open spec fn output_set(bs: Seq<BlockModel>) -> Set<Seq<char>> {
    Set::new(|o: Seq<char>| exists|i: int| 0 <= i < bs.len() && (#[trigger] bs[i]).outputs.contains(o))
}

/// `b`'s id once per output among its first `n` that is `f`.
pub open spec fn producers_in(b: BlockModel, f: Seq<char>, n: int) -> Seq<Seq<char>>
    decreases n,
{
    if n <= 0 {
        Seq::empty()
    } else {
        producers_in(b, f, n - 1) + if b.outputs[n - 1] == f {
            seq![b.id]
        } else {
            Seq::empty()
        }
    }
}

/// The producers of `f` among the first `n` blocks, in block order.
pub open spec fn producers(bs: Seq<BlockModel>, f: Seq<char>, n: int) -> Seq<Seq<char>>
    decreases n,
{
    if n <= 0 {
        Seq::empty()
    } else {
        producers(bs, f, n - 1) + producers_in(bs[n - 1], f, bs[n - 1].outputs.len() as int)
    }
}

pub open spec fn duplicate_output_message(f: Seq<char>, srcs: Seq<Seq<char>>) -> Seq<char> {
    "поток «"@ + f + "» производится несколькими блоками: "@ + debug_list(srcs)
}

/// For the first `n` of `flows`, a warning when more than one block produces it.
pub open spec fn duplicate_outputs(bs: Seq<BlockModel>, flows: Seq<Seq<char>>, n: int) -> Seq<ViolationModel>
    decreases n,
{
    if n <= 0 {
        Seq::empty()
    } else {
        let f = flows[n - 1];
        let srcs = producers(bs, f, bs.len() as int);
        duplicate_outputs(bs, flows, n - 1) + if srcs.len() > 1 {
            seq![viol(srcs[0], Rule::DuplicateOutput, Severity::Warning, Some(f), duplicate_output_message(f, srcs))]
        } else {
            Seq::empty()
        }
    }
}

/// Flows with several producers, flows in ascending order.
pub open spec fn duplicate_output_violations(bs: Seq<BlockModel>) -> Seq<ViolationModel> {
    let flows = sorted_elements(output_set(bs));
    duplicate_outputs(bs, flows, flows.len() as int)
}

/// Some of the first `i` blocks, or of the first `j` outputs of block `i`, is `f`.
pub open spec fn produced_before(bs: Seq<BlockModel>, i: int, j: int, f: Seq<char>) -> bool {
    (exists|k: int| 0 <= k < i && (#[trigger] bs[k]).outputs.contains(f)) || bs[i].outputs.take(j).contains(f)
}

fn check_duplicate_outputs(blocks: &Vec<Block>) -> (res: Vec<Violation>)
    ensures
        violation_views(res@) == duplicate_output_violations(block_views(blocks@)),
{
    let ghost bs = block_views(blocks@);
    let mut prod: KeyedMap<Vec<String>> = KeyedMap::new();
    for i in 0..blocks.len()
        invariant
            bs == block_views(blocks@),
            forall|f: Seq<char>| #[trigger] prod.has(f) <==> exists|k: int| 0 <= k < i && (#[trigger] bs[k]).outputs.contains(f),
            forall|f: Seq<char>| #[trigger] prod.has(f) ==> crate::text::string_views(prod.at(f)@) == producers(bs, f, i as int),
    {
        let b = &blocks[i];
        assert(bs[i as int] == b@);
        for j in 0..b.outputs.len()
            invariant
                bs == block_views(blocks@),
                bs[i as int] == b@,
                i < bs.len(),
                forall|f: Seq<char>| #[trigger] prod.has(f) <==> produced_before(bs, i as int, j as int, f),
                forall|f: Seq<char>| #[trigger] prod.has(f) ==> crate::text::string_views(prod.at(f)@) == producers(bs, f, i as int)
                    + producers_in(bs[i as int], f, j as int),
        {
            let o = &b.outputs[j];
            assert(b@.outputs[j as int] == o@);
            let mut list: Vec<String> = match prod.get(o.as_str()) {
                Some(v) => {
                    let c = crate::idef0::clone_strings(v);
                    c
                },
                None => Vec::new(),
            };
            proof {
                if !prod.has(o@) {
                    assert forall|k: int| 0 <= k < i implies !(#[trigger] bs[k]).outputs.contains(o@) by {
                        if bs[k].outputs.contains(o@) {
                            assert(produced_before(bs, i as int, j as int, o@));
                        }
                    }
                    lemma_producers_none(bs, o@, i as int);
                    lemma_producers_in_none(bs[i as int], o@, j as int);
                    assert(crate::text::string_views(list@) =~= producers(bs, o@, i as int) + producers_in(
                        bs[i as int],
                        o@,
                        j as int,
                    ));
                }
            }
            let ghost lv = crate::text::string_views(list@);
            list.push(b.id.clone());
            assert(crate::text::string_views(list@) =~= lv.push(b@.id));
            let ghost before = prod;
            prod.insert(o.clone(), list);
            proof {
                assert(b@.outputs.take(j + 1) =~= b@.outputs.take(j as int).push(o@));
                assert forall|f: Seq<char>| #[trigger] prod.has(f) <==> produced_before(bs, i as int, j + 1, f) by {
                    if f == o@ {
                        assert(b@.outputs.take(j + 1)[j as int] == f);
                    } else {
                        if b@.outputs.take(j + 1).contains(f) {
                            let x = b@.outputs.take(j + 1).index_of(f);
                            assert(b@.outputs.take(j as int)[x] == f);
                        }
                        if b@.outputs.take(j as int).contains(f) {
                            let x = b@.outputs.take(j as int).index_of(f);
                            assert(b@.outputs.take(j + 1)[x] == f);
                        }
                    }
                }
            }
        }
        proof {
            assert(b@.outputs.take(b@.outputs.len() as int) =~= b@.outputs);
            assert forall|f: Seq<char>| #[trigger] prod.has(f) <==> exists|k: int| 0 <= k < i + 1 && (#[trigger] bs[k]).outputs.contains(f) by {
                if prod.has(f) && !(exists|k: int| 0 <= k < i && (#[trigger] bs[k]).outputs.contains(f)) {
                    assert(bs[i as int].outputs.contains(f));
                }
                if exists|k: int| 0 <= k < i + 1 && (#[trigger] bs[k]).outputs.contains(f) {
                    let k = choose|k: int| 0 <= k < i + 1 && (#[trigger] bs[k]).outputs.contains(f);
                    if k < i {
                        assert(exists|k: int| 0 <= k < i && (#[trigger] bs[k]).outputs.contains(f));
                    }
                }
            }
        }
    }
    prod.lemma_sorted();
    proof {
        assert forall|f: Seq<char>| prod.key_seq().contains(f) <==> output_set(bs).contains(f) by {
            assert(prod.has(f) == prod.key_seq().contains(f));
        }
        lemma_sorted_elements(prod.key_seq(), output_set(bs));
    }
    let ghost flows = prod.key_seq();
    let mut out: Vec<Violation> = Vec::new();
    assert(violation_views(out@) =~= duplicate_outputs(bs, flows, 0));
    let n = prod.len();
    for k in 0..n
        invariant
            n == flows.len(),
            flows == prod.key_seq(),
            keys_sorted(flows),
            bs == block_views(blocks@),
            forall|f: Seq<char>| #[trigger] prod.has(f) ==> crate::text::string_views(prod.at(f)@) == producers(bs, f, bs.len() as int),
            violation_views(out@) == duplicate_outputs(bs, flows, k as int),
    {
        let f = prod.key_at(k);
        let srcs = prod.value_at(k);
        proof {
            assert(flows.contains(flows[k as int]));
            crate::keyed_map::lemma_index_of_unique(flows, flows[k as int], k as int);
            assert(f@ == flows[k as int]);
            assert(prod.has(flows[k as int]));
            assert(*srcs == prod.at(flows[k as int]));
            assert(crate::text::string_views(srcs@) == producers(bs, f@, bs.len() as int));
        }
        if srcs.len() > 1 {
            assert(srcs@[0]@ == producers(bs, f@, bs.len() as int)[0]);
            let mut m = owned("поток «");
            append(&mut m, f.as_str());
            append(&mut m, "» производится несколькими блоками: ");
            let d = crate::decoding::debug_strings(srcs);
            append(&mut m, d.as_str());
            push_violation(&mut out, make(srcs[0].as_str(), Rule::DuplicateOutput, Severity::Warning, Some(f.as_str()), m));
        }
        assert(violation_views(out@) =~= duplicate_outputs(bs, flows, k + 1));
    }
    out
}

proof fn lemma_producers_in_none(b: BlockModel, f: Seq<char>, n: int)
    requires
        0 <= n <= b.outputs.len(),
        !b.outputs.take(n).contains(f),
    ensures
        producers_in(b, f, n) == Seq::<Seq<char>>::empty(),
    decreases n,
{
    if n > 0 {
        assert(b.outputs.take(n)[n - 1] == b.outputs[n - 1]);
        assert(b.outputs.take(n - 1) =~= b.outputs.take(n).take(n - 1));
        if b.outputs.take(n - 1).contains(f) {
            let x = b.outputs.take(n - 1).index_of(f);
            assert(b.outputs.take(n)[x] == f);
        }
        lemma_producers_in_none(b, f, n - 1);
    }
}

proof fn lemma_producers_none(bs: Seq<BlockModel>, f: Seq<char>, n: int)
    requires
        0 <= n <= bs.len(),
        forall|k: int| 0 <= k < n ==> !(#[trigger] bs[k]).outputs.contains(f),
    ensures
        producers(bs, f, n) == Seq::<Seq<char>>::empty(),
    decreases n,
{
    if n > 0 {
        lemma_producers_none(bs, f, n - 1);
        assert(bs[n - 1].outputs.take(bs[n - 1].outputs.len() as int) =~= bs[n - 1].outputs);
        lemma_producers_in_none(bs[n - 1], f, bs[n - 1].outputs.len() as int);
    }
}

/// The checks of the execution graph, over the executable blocks: self
/// loops, flows with several producers, unlinked consumers of branch
/// blocks, a data-flow cycle, orphans, decomposed blocks that execute.
pub open spec fn execution_violations(bs: Seq<BlockModel>) -> Seq<ViolationModel> {
    if bs.len() == 0 {
        Seq::empty()
    } else {
        self_loops(bs, bs.len() as int) + duplicate_output_violations(bs) + branch_consumers(bs, bs.len() as int)
            + cycle_violations(bs, exec_pairs(bs)) + orphan_violations(bs, exec_pairs(bs)) + parents_executing(
            bs,
            bs.len() as int,
        )
    }
}

fn extend(out: &mut Vec<Violation>, more: Vec<Violation>)
    ensures
        violation_views(final(out)@) == violation_views(old(out)@) + violation_views(more@),
{
    let ghost start = violation_views(out@);
    for i in 0..more.len()
        invariant
            violation_views(out@) == start + violation_views(more@).take(i as int),
    {
        let ghost before = violation_views(out@);
        out.push(more[i].clone_violation());
        proof {
            assert(violation_views(out@) =~= before.push(more@[i as int]@));
            assert(violation_views(more@).take(i + 1) =~= violation_views(more@).take(i as int).push(more@[i as int]@));
        }
    }
    assert(violation_views(more@).take(more.len() as int) =~= violation_views(more@));
}

impl Violation {
    /// A copy of the violation.
    pub fn clone_violation(&self) -> (res: Violation)
        ensures
            res@ == self@,
    {
        Violation {
            block: self.block.clone(),
            rule: self.rule,
            severity: self.severity,
            arrow: match &self.arrow {
                Some(a) => Some(a.clone()),
                None => None,
            },
            message: self.message.clone(),
        }
    }
}

fn validate_execution_graph(model: &Idef0Model) -> (res: Vec<Violation>)
    ensures
        violation_views(res@) == execution_violations(flatten_spec(model.context@)),
{
    let blocks = model.flatten();
    let mut out: Vec<Violation> = Vec::new();
    if blocks.len() == 0 {
        assert(violation_views(out@) =~= Seq::<ViolationModel>::empty());
        return out;
    }
    assert(violation_views(out@) =~= Seq::<ViolationModel>::empty());
    extend(&mut out, check_self_loops(&blocks));
    extend(&mut out, check_duplicate_outputs(&blocks));
    extend(&mut out, check_branch_consumers(&blocks));
    let edges = execution_edges(&blocks);
    extend(&mut out, check_cycle(&blocks, &edges));
    extend(&mut out, check_orphans(&blocks, &edges));
    extend(&mut out, check_parents(&blocks));
    out
}

// ---------------------------------------------------------------------
// The whole model
// ---------------------------------------------------------------------

/// How many of the first `n` blocks have id `x`.
pub open spec fn count_id(bs: Seq<BlockModel>, x: Seq<char>, n: int) -> nat
    decreases n,
{
    if n <= 0 {
        0
    } else {
        count_id(bs, x, n - 1) + if bs[n - 1].id == x {
            1nat
        } else {
            0nat
        }
    }
}

pub open spec fn duplicate_id_message(id: Seq<char>, n: nat) -> Seq<char> {
    "id «"@ + id + "» встречается "@ + decimal(n) + " раза — id блока должен быть уникален"@
}

/// For the first `n` of `ids`, an error when several blocks carry it.
pub open spec fn duplicate_ids(bs: Seq<BlockModel>, ids: Seq<Seq<char>>, n: int) -> Seq<ViolationModel>
    decreases n,
{
    if n <= 0 {
        Seq::empty()
    } else {
        let id = ids[n - 1];
        let c = count_id(bs, id, bs.len() as int);
        duplicate_ids(bs, ids, n - 1) + if c > 1 {
            seq![viol(id, Rule::DuplicateId, Severity::Error, None, duplicate_id_message(id, c))]
        } else {
            Seq::empty()
        }
    }
}

/// How `{:?}` shows an optional kind: `None` or `Some("...")`.
pub open spec fn option_debug(k: Option<Seq<char>>) -> Seq<char> {
    match k {
        None => "None"@,
        Some(s) => "Some("@ + str_debug(s) + ")"@,
    }
}

pub open spec fn missing_target_message(label: Seq<char>, id: Seq<char>, target: Seq<char>) -> Seq<char> {
    "ветка «"@ + label + "» блока "@ + id + " указывает на несуществующий блок «"@ + target + "»"@
}

/// The first `n` branches of `b` whose target is not a block.
pub open spec fn missing_targets(b: BlockModel, ids: Set<Seq<char>>, n: int) -> Seq<ViolationModel>
    decreases n,
{
    if n <= 0 {
        Seq::empty()
    } else {
        let br = b.branches[n - 1];
        missing_targets(b, ids, n - 1) + if !ids.contains(br.1) {
            seq![viol(b.id, Rule::BranchTargetMissing, Severity::Error, Some(br.0), missing_target_message(br.0, b.id, br.1))]
        } else {
            Seq::empty()
        }
    }
}

/// The checks of one block: an id and a function, an output when it is
/// terminal, branches that agree with the kind and point at blocks, and
/// the balance of its decomposition.
pub open spec fn block_violations(b: BlockModel, ids: Set<Seq<char>>) -> Seq<ViolationModel> {
    let is_branch = b.kind == Some("branch"@);
    (if trim_seq(b.id).len() == 0 {
        seq![viol("<без id>"@, Rule::EmptyBlock, Severity::Error, None, "блок с функцией «"@ + b.function + "» не имеет id"@)]
    } else {
        Seq::empty()
    }) + (if trim_seq(b.function).len() == 0 {
        seq![viol(b.id, Rule::EmptyBlock, Severity::Error, None, "блок "@ + b.id + " не имеет формулировки функции"@)]
    } else {
        Seq::empty()
    }) + (if b.outputs.len() == 0 && b.children.len() == 0 {
        seq![
            viol(
                b.id,
                Rule::NoOutput,
                Severity::Warning,
                None,
                "блок "@ + b.id + " не объявляет выхода — его результат не связывается с другими блоками"@,
            ),
        ]
    } else {
        Seq::empty()
    }) + (if b.branches.len() > 0 && !is_branch {
        seq![
            viol(
                b.id,
                Rule::BranchKindMismatch,
                Severity::Error,
                None,
                "блок "@ + b.id + " объявляет ветки, но его kind = "@ + option_debug(b.kind)
                    + ", а не \"branch\" — Branch-рёбра построены не будут"@,
            ),
        ]
    } else {
        Seq::empty()
    }) + (if is_branch && b.branches.len() == 0 {
        seq![
            viol(
                b.id,
                Rule::BranchKindMismatch,
                Severity::Error,
                None,
                "блок "@ + b.id + " объявлен как \"branch\", но не задаёт ни одной ветки"@,
            ),
        ]
    } else {
        Seq::empty()
    }) + missing_targets(b, ids, b.branches.len() as int) + decomposition_violations(b, b.children)
}

/// The checks of the first `n` blocks.
pub open spec fn blocks_violations(bs: Seq<BlockModel>, ids: Set<Seq<char>>, n: int) -> Seq<ViolationModel>
    decreases n,
{
    if n <= 0 {
        Seq::empty()
    } else {
        blocks_violations(bs, ids, n - 1) + block_violations(bs[n - 1], ids)
    }
}

/// The full check of a model: repeated ids (ascending), the checks of
/// every block including the context, then the execution graph.
pub open spec fn model_violations(context: BlockModel) -> Seq<ViolationModel> {
    let bs = walk(context);
    let ids = sorted_elements(id_set(bs));
    duplicate_ids(bs, ids, ids.len() as int) + blocks_violations(bs, id_set(bs), bs.len() as int) + execution_violations(
        flatten_spec(context),
    )
}

/// What the first `n` blocks report includes everything block `k < n` reports.
proof fn lemma_blocks_violations_include(bs: Seq<BlockModel>, ids: Set<Seq<char>>, n: int, k: int, v: ViolationModel)
    requires
        0 <= k < n <= bs.len(),
        block_violations(bs[k], ids).contains(v),
    ensures
        blocks_violations(bs, ids, n).contains(v),
    decreases n,
{
    let prev = blocks_violations(bs, ids, n - 1);
    if k < n - 1 {
        lemma_blocks_violations_include(bs, ids, n - 1, k, v);
        let x = prev.index_of(v);
        assert(blocks_violations(bs, ids, n)[x] == v);
    } else {
        let x = block_violations(bs[k], ids).index_of(v);
        assert(blocks_violations(bs, ids, n)[prev.len() + x] == v);
    }
}

/// In a whole model, for every block (the context or any block below it)
/// and every child of that block: an arrow the child takes in, among its
/// inputs or its controls, that is neither an input nor a control of the
/// block nor an output of any of its children is reported by the model's
/// validation as an Error `DanglingInput` at the child, naming the arrow.
#[verifier::spinoff_prover]
#[verifier::rlimit(60)]
pub proof fn lemma_dangling_arrow_in_model(context: BlockModel, k: int, i: int, a: Seq<char>)
    requires
        0 <= k < walk(context).len(),
        0 <= i < walk(context)[k].children.len(),
        walk(context)[k].children[i].inputs.contains(a) || walk(context)[k].children[i].controls.contains(a),
        !walk(context)[k].inputs.contains(a),
        !walk(context)[k].controls.contains(a),
        forall|j: int| 0 <= j < walk(context)[k].children.len() ==> !(#[trigger] walk(context)[k].children[j]).outputs.contains(a),
    ensures
        exists|m: int|
            0 <= m < model_violations(context).len() && (#[trigger] model_violations(context)[m]).block
                == walk(context)[k].children[i].id && model_violations(context)[m].rule == Rule::DanglingInput
                && model_violations(context)[m].severity == Severity::Error && model_violations(context)[m].arrow == Some(a),
{
    let bs = walk(context);
    let b = bs[k];
    let ids = id_set(bs);
    lemma_dangling_arrow_reported(b, b.children, i, a);
    let dv = decomposition_violations(b, b.children);
    let x = choose|x: int|
        0 <= x < dv.len() && (#[trigger] dv[x]).block == b.children[i].id && dv[x].rule == Rule::DanglingInput && dv[x].severity
            == Severity::Error && dv[x].arrow == Some(a);
    let v = dv[x];
    let bv = block_violations(b, ids);
    assert(bv[bv.len() - dv.len() + x] == v);
    lemma_blocks_violations_include(bs, ids, bs.len() as int, k, v);
    let all = blocks_violations(bs, ids, bs.len() as int);
    let y = all.index_of(v);
    let sorted = sorted_elements(ids);
    let dup = duplicate_ids(bs, sorted, sorted.len() as int);
    assert(model_violations(context) == dup + all + execution_violations(flatten_spec(context)));
    assert(model_violations(context)[dup.len() + y] == v);
}

fn check_duplicate_ids(blocks: &Vec<Block>) -> (res: Vec<Violation>)
    ensures
        violation_views(res@) == duplicate_ids(
            block_views(blocks@),
            sorted_elements(id_set(block_views(blocks@))),
            sorted_elements(id_set(block_views(blocks@))).len() as int,
        ),
        forall|x: Seq<char>| sorted_elements(id_set(block_views(blocks@))).contains(x) <==> id_set(block_views(blocks@)).contains(x),
{
    let ghost bs = block_views(blocks@);
    let mut seen: KeyedMap<usize> = KeyedMap::new();
    for i in 0..blocks.len()
        invariant
            bs == block_views(blocks@),
            forall|x: Seq<char>| #[trigger] seen.has(x) <==> exists|k: int| 0 <= k < i && (#[trigger] bs[k]).id == x,
            forall|x: Seq<char>| #[trigger] seen.has(x) ==> seen.at(x) == count_id(bs, x, i as int) && seen.at(x) <= i,
            forall|x: Seq<char>| !(#[trigger] seen.has(x)) ==> count_id(bs, x, i as int) == 0,
    {
        let id = &blocks[i].id;
        assert(bs[i as int].id == id@);
        let c: usize = match seen.get(id.as_str()) {
            Some(n) => *n,
            None => 0,
        };
        let ghost before = seen;
        seen.insert(id.clone(), c + 1);
        proof {
            assert forall|x: Seq<char>| #[trigger] seen.has(x) <==> exists|k: int| 0 <= k < i + 1 && (#[trigger] bs[k]).id == x by {
                if x == id@ {
                    assert(0 <= i < i + 1 && bs[i as int].id == x);
                } else if exists|k: int| 0 <= k < i + 1 && (#[trigger] bs[k]).id == x {
                    let k = choose|k: int| 0 <= k < i + 1 && (#[trigger] bs[k]).id == x;
                    assert(0 <= k < i && bs[k].id == x);
                }
            }
        }
    }
    seen.lemma_sorted();
    proof {
        assert forall|x: Seq<char>| seen.key_seq().contains(x) <==> id_set(bs).contains(x) by {
            assert(seen.has(x) == seen.key_seq().contains(x));
        }
        lemma_sorted_elements(seen.key_seq(), id_set(bs));
    }
    let ghost ids = seen.key_seq();
    let mut out: Vec<Violation> = Vec::new();
    assert(violation_views(out@) =~= duplicate_ids(bs, ids, 0));
    let n = seen.len();
    for k in 0..n
        invariant
            n == ids.len(),
            ids == seen.key_seq(),
            keys_sorted(ids),
            bs == block_views(blocks@),
            forall|x: Seq<char>| #[trigger] seen.has(x) ==> seen.at(x) == count_id(bs, x, bs.len() as int),
            violation_views(out@) == duplicate_ids(bs, ids, k as int),
    {
        let id = seen.key_at(k);
        let c = *seen.value_at(k);
        proof {
            assert(ids.contains(ids[k as int]));
            crate::keyed_map::lemma_index_of_unique(ids, ids[k as int], k as int);
            assert(id@ == ids[k as int]);
            assert(seen.has(ids[k as int]));
        }
        if c > 1 {
            let mut m = owned("id «");
            append(&mut m, id.as_str());
            append(&mut m, "» встречается ");
            let cs = usize_to_string(c);
            append(&mut m, cs.as_str());
            append(&mut m, " раза — id блока должен быть уникален");
            push_violation(&mut out, make(id.as_str(), Rule::DuplicateId, Severity::Error, None, m));
        }
        assert(violation_views(out@) =~= duplicate_ids(bs, ids, k + 1));
    }
    out
}

fn option_debug_exec(k: &Option<String>) -> (res: String)
    ensures
        res@ == option_debug(
            match k {
                Some(s) => Some(s@),
                None => None,
            },
        ),
{
    match k {
        None => owned("None"),
        Some(s) => {
            let mut r = owned("Some(");
            let d = str_debug_string(s.as_str());
            append(&mut r, d.as_str());
            append(&mut r, ")");
            r
        },
    }
}

fn check_block(b: &Block, ids: &KeyedMap<()>, Ghost(idset): Ghost<Set<Seq<char>>>) -> (res: Vec<Violation>)
    requires
        forall|x: Seq<char>| ids.has(x) <==> idset.contains(x),
    ensures
        violation_views(res@) == block_violations(b@, idset),
{
    let ghost bm = b@;
    let mut out: Vec<Violation> = Vec::new();
    let ghost e = Seq::<ViolationModel>::empty();
    assert(violation_views(out@) =~= e);
    if is_blank(b.id.as_str()) {
        let mut m = owned("блок с функцией «");
        append(&mut m, b.function.as_str());
        append(&mut m, "» не имеет id");
        push_violation(&mut out, make("<без id>", Rule::EmptyBlock, Severity::Error, None, m));
    }
    if is_blank(b.function.as_str()) {
        let mut m = owned("блок ");
        append(&mut m, b.id.as_str());
        append(&mut m, " не имеет формулировки функции");
        push_violation(&mut out, make(b.id.as_str(), Rule::EmptyBlock, Severity::Error, None, m));
    }
    if b.outputs.len() == 0 && b.children.len() == 0 {
        let mut m = owned("блок ");
        append(&mut m, b.id.as_str());
        append(&mut m, " не объявляет выхода — его результат не связывается с другими блоками");
        push_violation(&mut out, make(b.id.as_str(), Rule::NoOutput, Severity::Warning, None, m));
    }
    let is_branch = is_branch_block(b);
    if b.branches.len() > 0 && !is_branch {
        let mut m = owned("блок ");
        append(&mut m, b.id.as_str());
        append(&mut m, " объявляет ветки, но его kind = ");
        let d = option_debug_exec(&b.kind);
        append(&mut m, d.as_str());
        append(&mut m, ", а не \"branch\" — Branch-рёбра построены не будут");
        push_violation(&mut out, make(b.id.as_str(), Rule::BranchKindMismatch, Severity::Error, None, m));
    }
    if is_branch && b.branches.len() == 0 {
        let mut m = owned("блок ");
        append(&mut m, b.id.as_str());
        append(&mut m, " объявлен как \"branch\", но не задаёт ни одной ветки");
        push_violation(&mut out, make(b.id.as_str(), Rule::BranchKindMismatch, Severity::Error, None, m));
    }
    let ghost head = violation_views(out@);
    assert(violation_views(out@) =~= head + missing_targets(bm, idset, 0));
    for j in 0..b.branches.len()
        invariant
            bm == b@,
            forall|x: Seq<char>| ids.has(x) <==> idset.contains(x),
            violation_views(out@) == head + missing_targets(bm, idset, j as int),
    {
        let label = &b.branches[j].0;
        let target = &b.branches[j].1;
        assert(bm.branches[j as int] == (label@, target@));
        if !ids.contains_key(target.as_str()) {
            let mut m = owned("ветка «");
            append(&mut m, label.as_str());
            append(&mut m, "» блока ");
            append(&mut m, b.id.as_str());
            append(&mut m, " указывает на несуществующий блок «");
            append(&mut m, target.as_str());
            append(&mut m, "»");
            push_violation(&mut out, make(b.id.as_str(), Rule::BranchTargetMissing, Severity::Error, Some(label.as_str()), m));
        }
        assert(violation_views(out@) =~= head + missing_targets(bm, idset, j + 1));
    }
    let d = validate_decomposition(b, b.children.as_slice());
    proof {
        assert(block_views(b.children@) =~= bm.children);
    }
    extend(&mut out, d);
    assert(violation_views(out@) =~= block_violations(bm, idset));
    out
}

/// The full check of a model: the rules of each decomposition plus the
/// checks of the execution graph.
pub fn validate_model(model: &Idef0Model) -> (res: Vec<Violation>)
    ensures
        violation_views(res@) == model_violations(model.context@),
        forall|x: Seq<char>| sorted_elements(id_set(walk(model.context@))).contains(x) <==> id_set(walk(model.context@)).contains(x),
{
    let mut blocks: Vec<Block> = Vec::new();
    walk_into(&model.context, &mut blocks);
    let ghost bs = block_views(blocks@);
    assert(bs =~= walk(model.context@));
    let mut out = check_duplicate_ids(&blocks);
    let (index, _ids) = block_ids(&blocks);
    proof {
        assert forall|x: Seq<char>| index.has(x) <==> id_set(bs).contains(x) by {
            assert(index.has(x) == index.key_seq().contains(x));
        }
    }
    let ghost head = violation_views(out@);
    assert(violation_views(out@) =~= head + blocks_violations(bs, id_set(bs), 0));
    for i in 0..blocks.len()
        invariant
            bs == block_views(blocks@),
            forall|x: Seq<char>| index.has(x) <==> id_set(bs).contains(x),
            violation_views(out@) == head + blocks_violations(bs, id_set(bs), i as int),
    {
        assert(bs[i as int] == blocks@[i as int]@);
        let v = check_block(&blocks[i], &index, Ghost(id_set(bs)));
        extend(&mut out, v);
        assert(violation_views(out@) =~= head + blocks_violations(bs, id_set(bs), i + 1));
    }
    extend(&mut out, validate_execution_graph(model));
    out
}

/// Maps a model only when its check finds no error; the warnings come back
/// with the graph.
pub fn map_to_graph_checked(model: &Idef0Model) -> (res: Result<(IntentGraph, Vec<Violation>), Vec<Violation>>)
    ensures
        match res {
            Ok(r) => violation_views(r.1@) == model_violations(model.context@)
                && !(exists|i: int| 0 <= i < r.1@.len() && #[trigger] r.1@[i].severity == Severity::Error)
                && r.0@ == mapped_graph(flatten_spec(model.context@)) && graph_keyed(r.0@),
            Err(v) => violation_views(v@) == model_violations(model.context@)
                && exists|i: int| 0 <= i < v@.len() && #[trigger] v@[i].severity == Severity::Error,
        },
{
    let violations = validate_model(model);
    if has_errors(violations.as_slice()) {
        return Err(violations);
    }
    proof {
        let mv = model_violations(model.context@);
        assert forall|i: int| 0 <= i < mv.len() implies #[trigger] mv[i].severity != Severity::Error by {
            assert(mv[i] == violations@[i]@);
        }
        lemma_no_errors_distinct(model.context@);
    }
    Ok((map_to_graph(model), violations))
}

proof fn lemma_count_one(bs: Seq<BlockModel>, x: Seq<char>, n: int, i: int)
    requires
        0 <= i < n <= bs.len(),
        bs[i].id == x,
    ensures
        count_id(bs, x, n) >= 1,
    decreases n,
{
    if i < n - 1 {
        lemma_count_one(bs, x, n - 1, i);
    }
}

proof fn lemma_count_two(bs: Seq<BlockModel>, x: Seq<char>, n: int, i: int, j: int)
    requires
        0 <= i < j < n <= bs.len(),
        bs[i].id == x,
        bs[j].id == x,
    ensures
        count_id(bs, x, n) >= 2,
    decreases n,
{
    if j < n - 1 {
        lemma_count_two(bs, x, n - 1, i, j);
    } else {
        lemma_count_one(bs, x, n - 1, i);
    }
}

proof fn lemma_duplicate_ids_error(bs: Seq<BlockModel>, ids: Seq<Seq<char>>, n: int, k: int)
    requires
        0 <= k < n <= ids.len(),
        count_id(bs, ids[k], bs.len() as int) > 1,
    ensures
        exists|e: int|
            0 <= e < duplicate_ids(bs, ids, n).len() && #[trigger] duplicate_ids(bs, ids, n)[e].severity == Severity::Error
                && duplicate_ids(bs, ids, n)[e].rule == Rule::DuplicateId,
    decreases n,
{
    let d = duplicate_ids(bs, ids, n);
    if k < n - 1 {
        lemma_duplicate_ids_error(bs, ids, n - 1, k);
        let p = duplicate_ids(bs, ids, n - 1);
        let e = choose|e: int| 0 <= e < p.len() && #[trigger] p[e].severity == Severity::Error && p[e].rule == Rule::DuplicateId;
        assert(d[e] == p[e]);
    } else {
        let p = duplicate_ids(bs, ids, n - 1);
        assert(d[p.len() as int].severity == Severity::Error && d[p.len() as int].rule == Rule::DuplicateId);
    }
}

/// A model whose check reports no error other than a cycle has unique ids
/// among its executable blocks.
proof fn lemma_only_cycle_errors_distinct(context: BlockModel)
    requires
        forall|i: int|
            0 <= i < model_violations(context).len() && (#[trigger] model_violations(context)[i]).severity
                == Severity::Error ==> model_violations(context)[i].rule == Rule::Cycle,
    ensures
        ids_distinct(flatten_spec(context)),
{
    let bs = walk(context);
    lemma_ids_fewer(bs);
    let fl = flatten_spec(context);
    let ids = sorted_elements(id_set(bs));
    let mv = model_violations(context);
    let dups = duplicate_ids(bs, ids, ids.len() as int);
    assert forall|i: int, j: int| 0 <= i < j < fl.len() implies #[trigger] fl[i].id != #[trigger] fl[j].id by {
        if fl[i].id == fl[j].id {
            if context.children.len() > 0 {
                assert(bs =~= seq![context] + fl);
                assert(bs[i + 1] == fl[i]);
                assert(bs[j + 1] == fl[j]);
                let x = fl[i].id;
                lemma_count_two(bs, x, bs.len() as int, i + 1, j + 1);
                assert(id_set(bs).contains(x));
                assert(ids.contains(x));
                let k = ids.index_of(x);
                lemma_duplicate_ids_error(bs, ids, ids.len() as int, k);
                let e = choose|e: int|
                    0 <= e < dups.len() && #[trigger] dups[e].severity == Severity::Error && dups[e].rule == Rule::DuplicateId;
                assert(mv[e] == dups[e]);
            }
        }
    }
}

/// A model whose check reports no error has unique ids among its
/// executable blocks (the mapper's requirement).
pub proof fn lemma_no_errors_distinct(context: BlockModel)
    requires
        forall|i: int| 0 <= i < model_violations(context).len() ==> #[trigger] model_violations(context)[i].severity != Severity::Error,
    ensures
        ids_distinct(flatten_spec(context)),
{
    lemma_only_cycle_errors_distinct(context);
}


/// The ids of blocks form a finite set, that of the id sequence.
proof fn lemma_id_set_finite(bs: Seq<BlockModel>)
    ensures
        id_set(bs) == ids_of(bs).to_set(),
        id_set(bs).finite(),
{
    assert(id_set(bs) =~= ids_of(bs).to_set()) by {
        assert forall|x: Seq<char>| id_set(bs).contains(x) <==> ids_of(bs).to_set().contains(x) by {
            if id_set(bs).contains(x) {
                let i = choose|i: int| 0 <= i < bs.len() && (#[trigger] bs[i]).id == x;
                assert(ids_of(bs)[i] == x);
            }
            if ids_of(bs).contains(x) {
                let i = ids_of(bs).index_of(x);
                assert(bs[i].id == x);
            }
        }
    }
    vstd::seq_lib::seq_to_set_is_finite(ids_of(bs));
}

/// The ascending ids of blocks: each id once, no more of them than blocks.
proof fn lemma_ids_fewer(bs: Seq<BlockModel>)
    ensures
        keys_sorted(sorted_elements(id_set(bs))),
        forall|x: Seq<char>| #[trigger] sorted_elements(id_set(bs)).contains(x) <==> id_set(bs).contains(x),
        sorted_elements(id_set(bs)).len() <= bs.len(),
{
    lemma_id_set_finite(bs);
    lemma_sorted_elements_exist(id_set(bs));
    let ids = sorted_elements(id_set(bs));
    assert(ids.no_duplicates()) by {
        assert forall|i: int, j: int| 0 <= i < ids.len() && 0 <= j < ids.len() && i != j implies ids[i] != ids[j] by {
            lemma_seq_lt_irreflexive(ids[i]);
            lemma_seq_lt_irreflexive(ids[j]);
        }
    }
    ids.unique_seq_to_set();
    assert(ids.to_set().subset_of(ids_of(bs).to_set())) by {
        assert forall|x: Seq<char>| ids.to_set().contains(x) implies ids_of(bs).to_set().contains(x) by {
            assert(ids.contains(x));
        }
    }
    vstd::seq_lib::seq_to_set_is_finite(ids_of(bs));
    vstd::set_lib::lemma_len_subset(ids.to_set(), ids_of(bs).to_set());
    ids_of(bs).lemma_cardinality_of_set();
}

/// Counting the ids in `s`: at most all of them, and all of them only when
/// each is in `s`.
proof fn lemma_count_in_all(ids: Seq<Seq<char>>, s: Set<Seq<char>>, n: int)
    requires
        0 <= n <= ids.len(),
    ensures
        count_in(ids, s, n) <= n,
        count_in(ids, s, n) == n <==> forall|j: int| 0 <= j < n ==> s.contains(#[trigger] ids[j]),
    decreases n,
{
    if n > 0 {
        lemma_count_in_all(ids, s, n - 1);
    }
}

/// What settles is among the ids.
proof fn lemma_settle_ids(ids: Set<Seq<char>>, es: Seq<(Seq<char>, Seq<char>)>, k: nat)
    ensures
        settle(ids, es, k).subset_of(ids),
{
}

/// No node of a blocked set settles, at any round.
proof fn lemma_settle_avoids(g: GraphModel, u: Set<Seq<char>>, es: Seq<(Seq<char>, Seq<char>)>, k: nat)
    requires
        blocked(g, u),
        es.len() == g.edges.len(),
        forall|i: int| 0 <= i < es.len() ==> #[trigger] es[i] == (g.edges[i].source, g.edges[i].target),
    ensures
        forall|x: Seq<char>| #[trigger] u.contains(x) ==> !settle(g.nodes.dom(), es, k).contains(x),
    decreases k,
{
    if k > 0 {
        lemma_settle_avoids(g, u, es, (k - 1) as nat);
        let prev = settle(g.nodes.dom(), es, (k - 1) as nat);
        lemma_settle_ids(g.nodes.dom(), es, (k - 1) as nat);
        assert forall|x: Seq<char>| #[trigger] u.contains(x) implies !settle(g.nodes.dom(), es, k).contains(x) by {
            let i = choose|i: int|
                #[trigger] incoming(g.edges, x, i) && (u.contains(g.edges[i].source) || !g.nodes.dom().contains(
                    g.edges[i].source,
                ));
            if settle(g.nodes.dom(), es, k).contains(x) {
                assert(es[i].1 == x);
                assert(prev.contains(es[i].0));
            }
        }
    }
}

/// No executable block maps to a SPAWN node.
proof fn lemma_mapped_spawn_free(bs: Seq<BlockModel>, n: int)
    requires
        0 <= n <= bs.len(),
    ensures
        forall|x: Seq<char>| #[trigger] nodes_upto(bs, n).dom().contains(x) ==> nodes_upto(bs, n)[x].kind != Kind::Spawn,
    decreases n,
{
    if n > 0 {
        lemma_mapped_spawn_free(bs, n - 1);
        let k = block_node(bs[n - 1]).kind;
        assert(k == Kind::Tool || k == Kind::Classify || k == Kind::Step);
    }
}

/// A model the check accepts maps to a graph a run goes through to the end:
/// the graph holds no SPAWN node, so a run leaves it as it is, and no set of
/// its nodes is blocked, so a run never stops on a cycle; a run of it fails
/// only when the model backend fails fatally.
pub proof fn lemma_accepted_model_runs(context: BlockModel)
    requires
        forall|i: int| 0 <= i < model_violations(context).len() ==> #[trigger] model_violations(context)[i].severity != Severity::Error,
    ensures
        ids_distinct(flatten_spec(context)),
        spawn_free(mapped_graph(flatten_spec(context))),
        forall|u: Set<Seq<char>>| !blocked(mapped_graph(flatten_spec(context)), u),
{
    lemma_no_errors_distinct(context);
    let bs = flatten_spec(context);
    let n = bs.len() as int;
    let g = mapped_graph(bs);
    lemma_mapped_spawn_free(bs, n);
    assert forall|x: Seq<char>| g.nodes.dom().contains(x) <==> id_set(bs).contains(x) by {
        lemma_nodes_upto_dom(bs, n, x);
        if id_set(bs).contains(x) {
            let k = choose|k: int| 0 <= k < bs.len() && (#[trigger] bs[k]).id == x;
            assert(0 <= k < n && bs[k].id == x);
        }
    }
    assert(g.nodes.dom() =~= id_set(bs));
    assert forall|u: Set<Seq<char>>| !blocked(g, u) by {
        if blocked(g, u) {
            let x = choose|x: Seq<char>| u.contains(x);
            let es = exec_pairs(bs);
            lemma_settle_avoids(g, u, es, n as nat);
            let st = settle(id_set(bs), es, n as nat);
            assert(!st.contains(x));
            // the check would have reported a cycle
            lemma_ids_fewer(bs);
            let ids = sorted_elements(id_set(bs));
            lemma_count_in_all(ids, st, ids.len() as int);
            let cv = cycle_violations(bs, es);
            assert(ids.contains(x));
            let j = ids.index_of(x);
            assert(count_in(ids, st, ids.len() as int) < bs.len());
            assert(cv.len() == 1 && cv[0].severity == Severity::Error);
            let walked = walk(context);
            let wids = sorted_elements(id_set(walked));
            let a = duplicate_ids(walked, wids, wids.len() as int) + blocks_violations(walked, id_set(walked), walked.len() as int);
            let pre = self_loops(bs, n) + duplicate_output_violations(bs) + branch_consumers(bs, n);
            let ev = execution_violations(bs);
            assert(ev == pre + cv + orphan_violations(bs, es) + parents_executing(bs, n));
            let mv = model_violations(context);
            assert(mv == a + ev);
            let idx = (a.len() + pre.len()) as int;
            assert(ev[pre.len() as int] == cv[0]);
            assert(mv[idx] == cv[0]);
        }
    }
}

// ---------------------------------------------------------------------
// The cycle verdict
// ---------------------------------------------------------------------

/// No violation of rule `Cycle` among `vs`.
pub open spec fn rated_non_cycle(vs: Seq<ViolationModel>) -> bool {
    forall|i: int| 0 <= i < vs.len() ==> rated_without_cycle(#[trigger] vs[i])
}

/// The severity every violation of a rule carries: errors for what breaks
/// the execution, warnings for what only looks suspicious.
pub open spec fn rule_severity(r: Rule) -> Severity {
    match r {
        Rule::UnusedParentInput | Rule::NoOutput | Rule::DuplicateOutput | Rule::OrphanBlock
        | Rule::ParentAlsoExecutes | Rule::SpawnProducesNothing => Severity::Warning,
        _ => Severity::Error,
    }
}

/// A violation of another rule than `Cycle`, with its rule's severity.
pub open spec fn rated_without_cycle(v: ViolationModel) -> bool {
    v.rule != Rule::Cycle && v.severity == rule_severity(v.rule)
}

/// Every violation carries its rule's severity.
pub open spec fn rated(vs: Seq<ViolationModel>) -> bool {
    forall|i: int| 0 <= i < vs.len() ==> (#[trigger] vs[i]).severity == rule_severity(vs[i].rule)
}

proof fn lemma_ncr_missing_outputs(parent: BlockModel, children: Seq<BlockModel>, n: int)
    ensures
        rated_non_cycle(missing_outputs(parent, children, n)),
    decreases n,
{
    if n > 0 {
        lemma_ncr_missing_outputs(parent, children, n - 1);
        assert forall|i: int| 0 <= i < missing_outputs(parent, children, n).len() implies rated_without_cycle(#[trigger] missing_outputs(parent, children, n)[i]) by {
            if i < missing_outputs(parent, children, n - 1).len() {
                assert(missing_outputs(parent, children, n)[i] == missing_outputs(parent, children, n - 1)[i]);
            }
        }
    }
}

proof fn lemma_ncr_dangling_arrows(parent: BlockModel, children: Seq<BlockModel>, c: BlockModel, n: int)
    ensures
        rated_non_cycle(dangling_arrows(parent, children, c, n)),
    decreases n,
{
    if n > 0 {
        lemma_ncr_dangling_arrows(parent, children, c, n - 1);
        assert forall|i: int| 0 <= i < dangling_arrows(parent, children, c, n).len() implies rated_without_cycle(#[trigger] dangling_arrows(parent, children, c, n)[i]) by {
            if i < dangling_arrows(parent, children, c, n - 1).len() {
                assert(dangling_arrows(parent, children, c, n)[i] == dangling_arrows(parent, children, c, n - 1)[i]);
            }
        }
    }
}

proof fn lemma_ncr_dangling_inputs(parent: BlockModel, children: Seq<BlockModel>, n: int)
    ensures
        rated_non_cycle(dangling_inputs(parent, children, n)),
    decreases n,
{
    if n > 0 {
        lemma_ncr_dangling_inputs(parent, children, n - 1);
        lemma_ncr_dangling_arrows(parent, children, children[n - 1], arrows(children[n - 1]).len() as int);
        assert forall|i: int| 0 <= i < dangling_inputs(parent, children, n).len() implies rated_without_cycle(#[trigger] dangling_inputs(parent, children, n)[i]) by {
            if i < dangling_inputs(parent, children, n - 1).len() {
                assert(dangling_inputs(parent, children, n)[i] == dangling_inputs(parent, children, n - 1)[i]);
            }
        }
    }
}

proof fn lemma_ncr_unused_inputs(parent: BlockModel, children: Seq<BlockModel>, n: int)
    ensures
        rated_non_cycle(unused_inputs(parent, children, n)),
    decreases n,
{
    if n > 0 {
        lemma_ncr_unused_inputs(parent, children, n - 1);
        assert forall|i: int| 0 <= i < unused_inputs(parent, children, n).len() implies rated_without_cycle(#[trigger] unused_inputs(parent, children, n)[i]) by {
            if i < unused_inputs(parent, children, n - 1).len() {
                assert(unused_inputs(parent, children, n)[i] == unused_inputs(parent, children, n - 1)[i]);
            }
        }
    }
}

proof fn lemma_ncr_missing_targets(b: BlockModel, ids: Set<Seq<char>>, n: int)
    ensures
        rated_non_cycle(missing_targets(b, ids, n)),
    decreases n,
{
    if n > 0 {
        lemma_ncr_missing_targets(b, ids, n - 1);
        assert forall|i: int| 0 <= i < missing_targets(b, ids, n).len() implies rated_without_cycle(#[trigger] missing_targets(b, ids, n)[i]) by {
            if i < missing_targets(b, ids, n - 1).len() {
                assert(missing_targets(b, ids, n)[i] == missing_targets(b, ids, n - 1)[i]);
            }
        }
    }
}

proof fn lemma_ncr_blocks(bs: Seq<BlockModel>, ids: Set<Seq<char>>, n: int)
    ensures
        rated_non_cycle(blocks_violations(bs, ids, n)),
    decreases n,
{
    if n > 0 {
        lemma_ncr_blocks(bs, ids, n - 1);
        lemma_ncr_block(bs[n - 1], ids);
        assert forall|i: int| 0 <= i < blocks_violations(bs, ids, n).len() implies rated_without_cycle(#[trigger] blocks_violations(bs, ids, n)[i]) by {
            if i < blocks_violations(bs, ids, n - 1).len() {
                assert(blocks_violations(bs, ids, n)[i] == blocks_violations(bs, ids, n - 1)[i]);
            }
        }
    }
}

proof fn lemma_ncr_duplicate_ids(bs: Seq<BlockModel>, ids: Seq<Seq<char>>, n: int)
    ensures
        rated_non_cycle(duplicate_ids(bs, ids, n)),
    decreases n,
{
    if n > 0 {
        lemma_ncr_duplicate_ids(bs, ids, n - 1);
        assert forall|i: int| 0 <= i < duplicate_ids(bs, ids, n).len() implies rated_without_cycle(#[trigger] duplicate_ids(bs, ids, n)[i]) by {
            if i < duplicate_ids(bs, ids, n - 1).len() {
                assert(duplicate_ids(bs, ids, n)[i] == duplicate_ids(bs, ids, n - 1)[i]);
            }
        }
    }
}

proof fn lemma_ncr_self_loop_arrows(b: BlockModel, n: int)
    ensures
        rated_non_cycle(self_loop_arrows(b, n)),
    decreases n,
{
    if n > 0 {
        lemma_ncr_self_loop_arrows(b, n - 1);
        assert forall|i: int| 0 <= i < self_loop_arrows(b, n).len() implies rated_without_cycle(#[trigger] self_loop_arrows(b, n)[i]) by {
            if i < self_loop_arrows(b, n - 1).len() {
                assert(self_loop_arrows(b, n)[i] == self_loop_arrows(b, n - 1)[i]);
            }
        }
    }
}

proof fn lemma_ncr_self_loops(bs: Seq<BlockModel>, n: int)
    ensures
        rated_non_cycle(self_loops(bs, n)),
    decreases n,
{
    if n > 0 {
        lemma_ncr_self_loops(bs, n - 1);
        lemma_ncr_self_loop_arrows(bs[n - 1], arrows(bs[n - 1]).len() as int);
        assert forall|i: int| 0 <= i < self_loops(bs, n).len() implies rated_without_cycle(#[trigger] self_loops(bs, n)[i]) by {
            if i < self_loops(bs, n - 1).len() {
                assert(self_loops(bs, n)[i] == self_loops(bs, n - 1)[i]);
            }
        }
    }
}

proof fn lemma_ncr_duplicate_outputs(bs: Seq<BlockModel>, flows: Seq<Seq<char>>, n: int)
    ensures
        rated_non_cycle(duplicate_outputs(bs, flows, n)),
    decreases n,
{
    if n > 0 {
        lemma_ncr_duplicate_outputs(bs, flows, n - 1);
        assert forall|i: int| 0 <= i < duplicate_outputs(bs, flows, n).len() implies rated_without_cycle(#[trigger] duplicate_outputs(bs, flows, n)[i]) by {
            if i < duplicate_outputs(bs, flows, n - 1).len() {
                assert(duplicate_outputs(bs, flows, n)[i] == duplicate_outputs(bs, flows, n - 1)[i]);
            }
        }
    }
}

proof fn lemma_ncr_consumed_outputs(from: BlockModel, to: BlockModel, n: int)
    ensures
        rated_non_cycle(consumed_outputs(from, to, n)),
    decreases n,
{
    if n > 0 {
        lemma_ncr_consumed_outputs(from, to, n - 1);
        assert forall|i: int| 0 <= i < consumed_outputs(from, to, n).len() implies rated_without_cycle(#[trigger] consumed_outputs(from, to, n)[i]) by {
            if i < consumed_outputs(from, to, n - 1).len() {
                assert(consumed_outputs(from, to, n)[i] == consumed_outputs(from, to, n - 1)[i]);
            }
        }
    }
}

proof fn lemma_ncr_unlinked_consumers(bs: Seq<BlockModel>, from: BlockModel, n: int)
    ensures
        rated_non_cycle(unlinked_consumers(bs, from, n)),
    decreases n,
{
    if n > 0 {
        lemma_ncr_unlinked_consumers(bs, from, n - 1);
        lemma_ncr_consumed_outputs(from, bs[n - 1], from.outputs.len() as int);
        assert forall|i: int| 0 <= i < unlinked_consumers(bs, from, n).len() implies rated_without_cycle(#[trigger] unlinked_consumers(bs, from, n)[i]) by {
            if i < unlinked_consumers(bs, from, n - 1).len() {
                assert(unlinked_consumers(bs, from, n)[i] == unlinked_consumers(bs, from, n - 1)[i]);
            }
        }
    }
}

proof fn lemma_ncr_branch_consumers(bs: Seq<BlockModel>, n: int)
    ensures
        rated_non_cycle(branch_consumers(bs, n)),
    decreases n,
{
    if n > 0 {
        lemma_ncr_branch_consumers(bs, n - 1);
        lemma_ncr_unlinked_consumers(bs, bs[n - 1], bs.len() as int);
        assert forall|i: int| 0 <= i < branch_consumers(bs, n).len() implies rated_without_cycle(#[trigger] branch_consumers(bs, n)[i]) by {
            if i < branch_consumers(bs, n - 1).len() {
                assert(branch_consumers(bs, n)[i] == branch_consumers(bs, n - 1)[i]);
            }
        }
    }
}

proof fn lemma_ncr_orphans(bs: Seq<BlockModel>, es: Seq<(Seq<char>, Seq<char>)>, n: int)
    ensures
        rated_non_cycle(orphans(bs, es, n)),
    decreases n,
{
    if n > 0 {
        lemma_ncr_orphans(bs, es, n - 1);
        assert forall|i: int| 0 <= i < orphans(bs, es, n).len() implies rated_without_cycle(#[trigger] orphans(bs, es, n)[i]) by {
            if i < orphans(bs, es, n - 1).len() {
                assert(orphans(bs, es, n)[i] == orphans(bs, es, n - 1)[i]);
            }
        }
    }
}

proof fn lemma_ncr_parents_executing(bs: Seq<BlockModel>, n: int)
    ensures
        rated_non_cycle(parents_executing(bs, n)),
    decreases n,
{
    if n > 0 {
        lemma_ncr_parents_executing(bs, n - 1);
        assert forall|i: int| 0 <= i < parents_executing(bs, n).len() implies rated_without_cycle(#[trigger] parents_executing(bs, n)[i]) by {
            if i < parents_executing(bs, n - 1).len() {
                assert(parents_executing(bs, n)[i] == parents_executing(bs, n - 1)[i]);
            }
        }
    }
}

proof fn lemma_ncr_concat(a: Seq<ViolationModel>, b: Seq<ViolationModel>)
    requires
        rated_non_cycle(a),
        rated_non_cycle(b),
    ensures
        rated_non_cycle(a + b),
{
    assert forall|i: int| 0 <= i < (a + b).len() implies rated_without_cycle(#[trigger] (a + b)[i]) by {
        if i < a.len() {
            assert((a + b)[i] == a[i]);
        } else {
            assert((a + b)[i] == b[i - a.len()]);
        }
    }
}

proof fn lemma_ncr_decomposition(parent: BlockModel, children: Seq<BlockModel>)
    ensures
        rated_non_cycle(decomposition_violations(parent, children)),
{
    if children.len() > 0 {
        let a = missing_outputs(parent, children, parent.outputs.len() as int);
        let b = dangling_inputs(parent, children, children.len() as int);
        let c = unused_inputs(parent, children, arrows(parent).len() as int);
        lemma_ncr_missing_outputs(parent, children, parent.outputs.len() as int);
        lemma_ncr_dangling_inputs(parent, children, children.len() as int);
        lemma_ncr_unused_inputs(parent, children, arrows(parent).len() as int);
        lemma_ncr_concat(a, b);
        lemma_ncr_concat(a + b, c);
    }
}

#[verifier::spinoff_prover]
#[verifier::rlimit(40)]
proof fn lemma_ncr_block(b: BlockModel, ids: Set<Seq<char>>)
    ensures
        rated_non_cycle(block_violations(b, ids)),
{
    let v = block_violations(b, ids);
    let mt = missing_targets(b, ids, b.branches.len() as int);
    let dv = decomposition_violations(b, b.children);
    lemma_ncr_missing_targets(b, ids, b.branches.len() as int);
    lemma_ncr_decomposition(b, b.children);
    let head = v.subrange(0, v.len() - mt.len() - dv.len());
    assert(v =~= head + mt + dv);
    assert(rated_non_cycle(head));
    lemma_ncr_concat(head, mt);
    lemma_ncr_concat(head + mt, dv);
}

/// The rounds only add settled blocks.
proof fn lemma_settle_mono(ids: Set<Seq<char>>, es: Seq<(Seq<char>, Seq<char>)>, k: nat)
    ensures
        settle(ids, es, k).subset_of(settle(ids, es, k + 1)),
    decreases k,
{
    if k > 0 {
        lemma_settle_mono(ids, es, (k - 1) as nat);
    }
}

/// A round that adds nothing is followed by rounds that add nothing.
proof fn lemma_settle_stable(ids: Set<Seq<char>>, es: Seq<(Seq<char>, Seq<char>)>, k: nat)
    requires
        settle(ids, es, k) == settle(ids, es, k + 1),
    ensures
        settle(ids, es, k + 1) == settle(ids, es, k + 2),
{
    assert(settle(ids, es, k + 2) =~= settle(ids, es, k + 1));
}

/// While rounds add blocks, each adds at least one.
proof fn lemma_settle_count(ids: Set<Seq<char>>, es: Seq<(Seq<char>, Seq<char>)>, k: nat)
    requires
        ids.finite(),
        settle(ids, es, k) != settle(ids, es, k + 1),
    ensures
        settle(ids, es, k + 1).finite(),
        settle(ids, es, k + 1).len() >= k + 1,
    decreases k,
{
    let a = settle(ids, es, k);
    let b = settle(ids, es, (k + 1) as nat);
    lemma_settle_ids(ids, es, k);
    lemma_settle_ids(ids, es, (k + 1) as nat);
    vstd::set_lib::lemma_len_subset(b, ids);
    lemma_settle_mono(ids, es, k);
    assert(exists|x: Seq<char>| b.contains(x) && !a.contains(x)) by {
        if forall|x: Seq<char>| b.contains(x) ==> a.contains(x) {
            assert(a =~= b);
        }
    }
    let x = choose|x: Seq<char>| b.contains(x) && !a.contains(x);
    vstd::set_lib::lemma_len_subset(a, b.remove(x));
    if k > 0 {
        if settle(ids, es, (k - 1) as nat) == a {
            lemma_settle_stable(ids, es, (k - 1) as nat);
        }
        lemma_settle_count(ids, es, (k - 1) as nat);
    }
}

/// The node ids of the mapped graph are the ids of the blocks.
proof fn lemma_mapped_ids(bs: Seq<BlockModel>)
    ensures
        mapped_graph(bs).nodes.dom() == id_set(bs),
{
    let n = bs.len() as int;
    assert forall|x: Seq<char>| mapped_graph(bs).nodes.dom().contains(x) <==> id_set(bs).contains(x) by {
        lemma_nodes_upto_dom(bs, n, x);
        if id_set(bs).contains(x) {
            let k = choose|k: int| 0 <= k < bs.len() && (#[trigger] bs[k]).id == x;
            assert(0 <= k < n && bs[k].id == x);
        }
    }
    assert(mapped_graph(bs).nodes.dom() =~= id_set(bs));
}

/// Only the cycle check of the executable blocks reports rule `Cycle`.
proof fn lemma_cycle_rule_source(context: BlockModel)
    ensures
        (exists|i: int| 0 <= i < model_violations(context).len() && (#[trigger] model_violations(context)[i]).rule == Rule::Cycle)
            ==> flatten_spec(context).len() > 0 && cycle_violations(flatten_spec(context), exec_pairs(flatten_spec(context))).len() > 0,
{
    let walked = walk(context);
    let wids = sorted_elements(id_set(walked));
    let bs = flatten_spec(context);
    let n = bs.len() as int;
    let a = duplicate_ids(walked, wids, wids.len() as int);
    let b = blocks_violations(walked, id_set(walked), walked.len() as int);
    lemma_ncr_duplicate_ids(walked, wids, wids.len() as int);
    lemma_ncr_blocks(walked, id_set(walked), walked.len() as int);
    lemma_ncr_concat(a, b);
    let ev = execution_violations(bs);
    let mv = model_violations(context);
    assert(mv == (a + b) + ev);
    if bs.len() == 0 || cycle_violations(bs, exec_pairs(bs)).len() == 0 {
        if bs.len() > 0 {
            let es = exec_pairs(bs);
            let sl = self_loops(bs, n);
            let dov = duplicate_output_violations(bs);
            let bc = branch_consumers(bs, n);
            let cv = cycle_violations(bs, es);
            let ov = orphan_violations(bs, es);
            let pe = parents_executing(bs, n);
            lemma_ncr_self_loops(bs, n);
            let flows = sorted_elements(output_set(bs));
            lemma_ncr_duplicate_outputs(bs, flows, flows.len() as int);
            lemma_ncr_branch_consumers(bs, n);
            lemma_ncr_orphans(bs, es, n);
            lemma_ncr_parents_executing(bs, n);
            assert(rated_non_cycle(cv));
            assert(rated_non_cycle(ov));
            lemma_ncr_concat(sl, dov);
            lemma_ncr_concat(sl + dov, bc);
            lemma_ncr_concat(sl + dov + bc, cv);
            lemma_ncr_concat(sl + dov + bc + cv, ov);
            lemma_ncr_concat(sl + dov + bc + cv + ov, pe);
            assert(ev == sl + dov + bc + cv + ov + pe);
        }
        assert(rated_non_cycle(ev));
        lemma_ncr_concat(a + b, ev);
    }
}

proof fn lemma_rated_concat(a: Seq<ViolationModel>, b: Seq<ViolationModel>)
    requires
        rated(a),
        rated(b),
    ensures
        rated(a + b),
{
    assert forall|i: int| 0 <= i < (a + b).len() implies (#[trigger] (a + b)[i]).severity == rule_severity((a + b)[i].rule) by {
        if i < a.len() {
            assert((a + b)[i] == a[i]);
        } else {
            assert((a + b)[i] == b[i - a.len()]);
        }
    }
}

proof fn lemma_rated_of(vs: Seq<ViolationModel>)
    requires
        rated_non_cycle(vs),
    ensures
        rated(vs),
{
    assert forall|i: int| 0 <= i < vs.len() implies (#[trigger] vs[i]).severity == rule_severity(vs[i].rule) by {
        assert(rated_without_cycle(vs[i]));
    }
}

/// Each rule of the validator has one severity: every violation it reports
/// for a model is an error or a warning as its rule is.
pub proof fn lemma_rule_severity(context: BlockModel)
    ensures
        rated(model_violations(context)),
{
    let walked = walk(context);
    let wids = sorted_elements(id_set(walked));
    let bs = flatten_spec(context);
    let n = bs.len() as int;
    let a = duplicate_ids(walked, wids, wids.len() as int);
    let b = blocks_violations(walked, id_set(walked), walked.len() as int);
    lemma_ncr_duplicate_ids(walked, wids, wids.len() as int);
    lemma_ncr_blocks(walked, id_set(walked), walked.len() as int);
    lemma_ncr_concat(a, b);
    lemma_rated_of(a + b);
    let ev = execution_violations(bs);
    assert(model_violations(context) == (a + b) + ev);
    if bs.len() > 0 {
        let es = exec_pairs(bs);
        let sl = self_loops(bs, n);
        let dov = duplicate_output_violations(bs);
        let bc = branch_consumers(bs, n);
        let cv = cycle_violations(bs, es);
        let ov = orphan_violations(bs, es);
        let pe = parents_executing(bs, n);
        lemma_ncr_self_loops(bs, n);
        let flows = sorted_elements(output_set(bs));
        lemma_ncr_duplicate_outputs(bs, flows, flows.len() as int);
        lemma_ncr_branch_consumers(bs, n);
        lemma_ncr_orphans(bs, es, n);
        lemma_ncr_parents_executing(bs, n);
        assert(rated_non_cycle(ov));
        lemma_rated_of(sl);
        lemma_rated_of(dov);
        lemma_rated_of(bc);
        lemma_rated_of(ov);
        lemma_rated_of(pe);
        assert(rated(cv));
        lemma_rated_concat(sl, dov);
        lemma_rated_concat(sl + dov, bc);
        lemma_rated_concat(sl + dov + bc, cv);
        lemma_rated_concat(sl + dov + bc + cv, ov);
        lemma_rated_concat(sl + dov + bc + cv + ov, pe);
        assert(ev == sl + dov + bc + cv + ov + pe);
    } else {
        assert(ev =~= Seq::<ViolationModel>::empty());
    }
    lemma_rated_concat(a + b, ev);
}

/// A model the check rejects for a cycle, and for nothing else, maps to a
/// graph no run can finish: the graph holds no SPAWN node and some set of
/// its nodes is blocked, so a run of it ends in an error. The cycle verdict
/// is never a false alarm.
pub proof fn lemma_cycle_verdict_holds(context: BlockModel)
    requires
        exists|i: int| 0 <= i < model_violations(context).len() && (#[trigger] model_violations(context)[i]).rule == Rule::Cycle,
        forall|i: int|
            0 <= i < model_violations(context).len() && (#[trigger] model_violations(context)[i]).severity
                == Severity::Error ==> model_violations(context)[i].rule == Rule::Cycle,
    ensures
        ids_distinct(flatten_spec(context)),
        spawn_free(mapped_graph(flatten_spec(context))),
        exists|u: Set<Seq<char>>| blocked(mapped_graph(flatten_spec(context)), u),
{
    let bs = flatten_spec(context);
    let n = bs.len() as int;
    let g = mapped_graph(bs);
    lemma_mapped_spawn_free(bs, n);
    lemma_cycle_rule_source(context);
    lemma_only_cycle_errors_distinct(context);
    lemma_mapped_ids(bs);
    let idset = id_set(bs);
    let es = exec_pairs(bs);
    let ids = sorted_elements(idset);
    lemma_ids_fewer(bs);
    lemma_id_set_finite(bs);
    assert(ids_of(bs).no_duplicates()) by {
        assert forall|i: int, j: int| 0 <= i < ids_of(bs).len() && 0 <= j < ids_of(bs).len() && i != j implies ids_of(bs)[i]
            != ids_of(bs)[j] by {
            if i < j {
                assert(bs[i].id != bs[j].id);
            } else {
                assert(bs[j].id != bs[i].id);
            }
        }
    }
    ids_of(bs).unique_seq_to_set();
    assert(idset.len() == n);
    assert(ids.no_duplicates()) by {
        assert forall|i: int, j: int| 0 <= i < ids.len() && 0 <= j < ids.len() && i != j implies ids[i] != ids[j] by {
            lemma_seq_lt_irreflexive(ids[i]);
            lemma_seq_lt_irreflexive(ids[j]);
        }
    }
    ids.unique_seq_to_set();
    assert(ids.to_set() =~= idset);
    assert(ids.len() == n);
    let st = settle(idset, es, n as nat);
    lemma_count_in_all(ids, st, ids.len() as int);
    assert(count_in(ids, st, ids.len() as int) < n);
    let j0 = choose|j: int| 0 <= j < ids.len() && !st.contains(#[trigger] ids[j]);
    let x0 = ids[j0];
    assert(ids.contains(x0));
    let prev = settle(idset, es, (n - 1) as nat);
    assert(prev == st) by {
        if prev != st {
            lemma_settle_count(idset, es, (n - 1) as nat);
            lemma_settle_ids(idset, es, n as nat);
            vstd::set_lib::lemma_len_subset(st, idset.remove(x0));
        }
    }
    let u = Set::new(|x: Seq<char>| idset.contains(x) && !st.contains(x));
    assert(u.contains(x0));
    assert forall|x: Seq<char>| #[trigger] u.contains(x) implies exists|i: int|
        #[trigger] incoming(g.edges, x, i) && (u.contains(g.edges[i].source) || !g.nodes.dom().contains(
            g.edges[i].source,
        )) by {
        assert(!st.contains(x));
        let e = choose|e: int| 0 <= e < es.len() && (#[trigger] es[e]).1 == x && !prev.contains(es[e].0);
        assert(es[e] == (g.edges[e].source, g.edges[e].target));
        assert(incoming(g.edges, x, e));
    }
    assert(blocked(g, u));
}

/// The identifier a node writes: a non-empty `into` identifier.
pub open spec fn writes(n: NodeModel, x: Seq<char>) -> bool {
    n.slots.dom().contains("into"@) && n.slots["into"@] == SlotDataModel::Ident(x) && x.len() > 0
}

/// Whether a node writes anything.
pub open spec fn produces(n: NodeModel) -> bool {
    n.slots.dom().contains("into"@) && match n.slots["into"@] {
        SlotDataModel::Ident(x) => x.len() > 0,
        _ => false,
    }
}

/// Everything some node of the graph writes.
pub open spec fn written(g: GraphModel) -> Set<Seq<char>> {
    Set::new(|x: Seq<char>| exists|k: Seq<char>| g.nodes.dom().contains(k) && #[trigger] writes(g.nodes[k], x))
}

/// The field a node's `where` condition reads.
pub open spec fn read_field(n: NodeModel) -> Option<Seq<char>> {
    if n.slots.dom().contains("where"@) {
        match n.slots["where"@] {
            SlotDataModel::Cond(f, _, _) => Some(f),
            _ => None,
        }
    } else {
        None
    }
}

pub open spec fn spawn_dangling_message(id: Seq<char>, field: Seq<char>) -> Seq<char> {
    "порождённый узел "@ + id + " читает «"@ + field + "», который не производит ни один узел графа"@
}

pub open spec fn spawn_nothing_message(n: nat) -> Seq<char> {
    "SPAWN породил "@ + decimal(n) + " узлов, ни один из которых ничего не производит"@
}

/// For the first `n` spawned ids: an error for each node of the graph whose
/// condition reads a field that nothing writes.
pub open spec fn dangling_reads(g: GraphModel, spawned: Seq<Seq<char>>, n: int) -> Seq<ViolationModel>
    decreases n,
{
    if n <= 0 {
        Seq::empty()
    } else {
        let prev = dangling_reads(g, spawned, n - 1);
        let id = spawned[n - 1];
        if g.nodes.dom().contains(id) {
            match read_field(g.nodes[id]) {
                Some(f) => if written(g).contains(f) {
                    prev
                } else {
                    prev.push(viol(id, Rule::SpawnDanglingRef, Severity::Error, Some(f), spawn_dangling_message(id, f)))
                },
                None => prev,
            }
        } else {
            prev
        }
    }
}

/// Some of the first `n` spawned ids is a node of the graph that writes.
pub open spec fn produces_among(g: GraphModel, spawned: Seq<Seq<char>>, n: int) -> bool {
    exists|i: int| 0 <= i < n && g.nodes.dom().contains(spawned[i]) && #[trigger] produces(g.nodes[spawned[i]])
}

/// The check of what a SPAWN added: nothing when nothing was spawned;
/// otherwise the dangling reads, then a warning when no spawned node writes.
pub open spec fn spawned_violations(g: GraphModel, spawned: Seq<Seq<char>>) -> Seq<ViolationModel> {
    if spawned.len() == 0 {
        Seq::empty()
    } else {
        dangling_reads(g, spawned, spawned.len() as int) + if produces_among(g, spawned, spawned.len() as int) {
            Seq::empty()
        } else {
            seq![viol("<spawn>"@, Rule::SpawnProducesNothing, Severity::Warning, None, spawn_nothing_message(spawned.len()))]
        }
    }
}

/// The identifiers the graph's nodes write.
fn written_ids(graph: &IntentGraph) -> (res: KeyedMap<()>)
    ensures
        forall|x: Seq<char>| #[trigger] res.has(x) <==> written(graph@).contains(x),
{
    let mut w: KeyedMap<()> = KeyedMap::new();
    let n = graph.nodes.len();
    graph.nodes.lemma_sorted();
    let ghost es = graph.nodes.entry_seq();
    for i in 0..n
        invariant
            n == es.len(),
            es == graph.nodes.entry_seq(),
            forall|x: Seq<char>| #[trigger] w.has(x) <==> exists|j: int| 0 <= j < i && #[trigger] writes(es[j].1@, x),
    {
        let node = graph.nodes.value_at(i);
        let ghost wb = w;
        match node.slots.get("into") {
            Some(SlotData::Ident(id)) => {
                if id.unicode_len() > 0 {
                    w.insert(id.clone(), ());
                }
            },
            _ => {},
        }
        proof {
            assert forall|x: Seq<char>| #[trigger] w.has(x) <==> exists|j: int| 0 <= j < i + 1 && #[trigger] writes(es[j].1@, x) by {
                if writes(es[i as int].1@, x) {
                    assert(node.slots.has("into"@));
                }
                if exists|j: int| 0 <= j < i + 1 && #[trigger] writes(es[j].1@, x) {
                    let j = choose|j: int| 0 <= j < i + 1 && #[trigger] writes(es[j].1@, x);
                    if j < i {
                        assert(wb.has(x));
                    }
                }
                if w.has(x) && !wb.has(x) {
                    assert(writes(es[i as int].1@, x));
                }
            }
        }
    }
    proof {
        let g = graph@;
        let ks = graph.nodes.key_seq();
        assert forall|x: Seq<char>| #[trigger] w.has(x) <==> written(g).contains(x) by {
            if w.has(x) {
                let j = choose|j: int| 0 <= j < n && #[trigger] writes(es[j].1@, x);
                crate::keyed_map::lemma_index_of_unique(ks, ks[j], j);
                assert(g.nodes.dom().contains(ks[j]));
                assert(g.nodes[ks[j]] == es[j].1@);
            }
            if written(g).contains(x) {
                let k = choose|k: Seq<char>| g.nodes.dom().contains(k) && #[trigger] writes(g.nodes[k], x);
                let j = ks.index_of(k);
                assert(ks[j] == k);
                assert(g.nodes[k] == es[j].1@);
            }
        }
    }
    w
}

/// What a SPAWN added to the graph: each spawned node whose condition
/// reads an identifier that no node of the graph writes is an error, and
/// spawned nodes of which none writes anything are a warning. Nothing is
/// reported when nothing was spawned.
pub fn validate_spawned(graph: &IntentGraph, result: &ExecutionResult) -> (res: Vec<Violation>)
    ensures
        violation_views(res@) == spawned_violations(graph@, string_views(result.spawned@)),
{
    let mut out: Vec<Violation> = Vec::new();
    let ghost sp = string_views(result.spawned@);
    if result.spawned.len() == 0 {
        assert(violation_views(out@) =~= spawned_violations(graph@, sp));
        return out;
    }
    let known = written_ids(graph);
    let mut produces_any = false;
    assert(violation_views(out@) =~= dangling_reads(graph@, sp, 0));
    for i in 0..result.spawned.len()
        invariant
            sp == string_views(result.spawned@),
            forall|x: Seq<char>| #[trigger] known.has(x) <==> written(graph@).contains(x),
            violation_views(out@) == dangling_reads(graph@, sp, i as int),
            produces_any == produces_among(graph@, sp, i as int),
    {
        let id = &result.spawned[i];
        assert(sp[i as int] == id@);
        let ghost ob = out@;
        match graph.nodes.get(id.as_str()) {
            None => {},
            Some(node) => {
                assert(graph@.nodes.dom().contains(id@));
                assert(node@ == graph@.nodes[id@]);
                match node.slots.get("into") {
                    Some(SlotData::Ident(into)) => {
                        if into.unicode_len() > 0 {
                            produces_any = true;
                        }
                    },
                    _ => {},
                }
                match node.slots.get("where") {
                    Some(SlotData::Cond(field, _, _)) => {
                        if !known.contains_key(field.as_str()) {
                            let mut m = owned("порождённый узел ");
                            append(&mut m, id.as_str());
                            append(&mut m, " читает «");
                            append(&mut m, field.as_str());
                            append(&mut m, "», который не производит ни один узел графа");
                            push_violation(&mut out, make(id.as_str(), Rule::SpawnDanglingRef, Severity::Error, Some(field.as_str()), m));
                        }
                    },
                    _ => {},
                }
            },
        }
        proof {
            let g = graph@;
            assert(violation_views(out@) =~= dangling_reads(g, sp, i + 1));
            if produces_among(g, sp, i + 1) && !produces_among(g, sp, i as int) {
                let j = choose|j: int| 0 <= j < i + 1 && g.nodes.dom().contains(sp[j]) && #[trigger] produces(g.nodes[sp[j]]);
                assert(j == i);
            }
            if produces_any && g.nodes.dom().contains(sp[i as int]) && produces(g.nodes[sp[i as int]]) {
                assert(produces_among(g, sp, i + 1));
            }
        }
    }
    if !produces_any {
        let mut m = owned("SPAWN породил ");
        let c = usize_to_string(result.spawned.len());
        append(&mut m, c.as_str());
        append(&mut m, " узлов, ни один из которых ничего не производит");
        push_violation(&mut out, make("<spawn>", Rule::SpawnProducesNothing, Severity::Warning, None, m));
    }
    assert(violation_views(out@) =~= spawned_violations(graph@, sp));
    out
}

} // verus!
