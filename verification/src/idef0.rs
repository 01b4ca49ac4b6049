//! IDEF0 models (function blocks with inputs, controls, outputs and
//! mechanisms, decomposed into child blocks) and their mapping to an
//! executable intent graph.
//!
//! A block becomes a node: `tool` blocks a TOOL node calling their first
//! mechanism, `classify` and `branch` blocks a CLASSIFY node, all others a
//! STEP node. An output of one block that another block takes as input or
//! control becomes a sequential edge; a `branch` block with branches gets
//! one branch edge per branch instead.

use vstd::prelude::*;
use crate::keyed_map::{KeyedMap, lemma_deep_insert};
use crate::parser::{
    graph_keyed, graph_wf, new_node, slots_filled, Edge, EdgeModel, EdgeType, GraphModel, IntentGraph, Node, NodeModel, SlotData,
    SlotDataModel, edge_views, pair_views,
};
use crate::registry::{quote, quoted, Kind, Subtype};
use crate::text::{append, owned, string_views};

verus! {

#[derive(Debug)]
pub struct Block {
    pub id: String,
    /// What the block does (the DO/CALL/INPUT of its node).
    pub function: String,
    /// step | tool | classify | branch (step when absent); `verify` is a
    /// step with a verification slot.
    pub kind: Option<String>,
    pub inputs: Vec<String>,
    pub controls: Vec<String>,
    /// The first output names the block's result.
    pub outputs: Vec<String>,
    /// Who or what performs the function (a tool block calls the first).
    pub mechanisms: Vec<String>,
    pub children: Vec<Block>,
    /// For a branch block: label -> target block id.
    pub branches: Vec<(String, String)>,
}

pub struct BlockModel {
    pub id: Seq<char>,
    pub function: Seq<char>,
    pub kind: Option<Seq<char>>,
    pub inputs: Seq<Seq<char>>,
    pub controls: Seq<Seq<char>>,
    pub outputs: Seq<Seq<char>>,
    pub mechanisms: Seq<Seq<char>>,
    pub children: Seq<BlockModel>,
    pub branches: Seq<(Seq<char>, Seq<char>)>,
}

pub open spec fn block_view(b: Block) -> BlockModel
    decreases b,
{
    BlockModel {
        id: b.id@,
        function: b.function@,
        kind: match b.kind {
            Some(k) => Some(k@),
            None => None,
        },
        inputs: string_views(b.inputs@),
        controls: string_views(b.controls@),
        outputs: string_views(b.outputs@),
        mechanisms: string_views(b.mechanisms@),
        children: Seq::new(b.children.len() as nat, |i: int| if 0 <= i < b.children.len() { block_view(b.children@[i]) } else { arbitrary() }),
        branches: pair_views(b.branches@),
    }
}

#[derive(Debug)]
pub struct Idef0Model {
    pub context: Block,
}

impl View for Block {
    type V = BlockModel;

    open spec fn view(&self) -> BlockModel {
        block_view(*self)
    }
}

pub open spec fn block_views(v: Seq<Block>) -> Seq<BlockModel> {
    v.map_values(|b: Block| b@)
}

pub(crate) fn clone_strings(v: &Vec<String>) -> (res: Vec<String>)
    ensures
        string_views(res@) == string_views(v@),
{
    let mut res: Vec<String> = Vec::new();
    for i in 0..v.len()
        invariant
            res.len() == i,
            forall|j: int| 0 <= j < i ==> res@[j] == v@[j],
    {
        res.push(v[i].clone());
    }
    assert(string_views(res@) =~= string_views(v@));
    res
}

fn clone_string_pairs(v: &Vec<(String, String)>) -> (res: Vec<(String, String)>)
    ensures
        pair_views(res@) == pair_views(v@),
{
    let mut res: Vec<(String, String)> = Vec::new();
    for i in 0..v.len()
        invariant
            res.len() == i,
            forall|j: int| 0 <= j < i ==> res@[j] == v@[j],
    {
        res.push((v[i].0.clone(), v[i].1.clone()));
    }
    assert(pair_views(res@) =~= pair_views(v@));
    res
}

impl Block {
    /// A copy of the block and its decomposition.
    pub fn duplicate(&self) -> (res: Block)
        ensures
            res@ == self@,
        decreases self,
    {
        let mut children: Vec<Block> = Vec::new();
        for i in 0..self.children.len()
            invariant
                children.len() == i,
                forall|j: int| 0 <= j < i ==> children@[j]@ == self.children@[j]@,
        {
            proof {
                assert(decreases_to!(self => self.children@[i as int]));
            }
            children.push(self.children[i].duplicate());
        }
        let res = Block {
            id: self.id.clone(),
            function: self.function.clone(),
            kind: match &self.kind {
                Some(k) => Some(k.clone()),
                None => None,
            },
            inputs: clone_strings(&self.inputs),
            controls: clone_strings(&self.controls),
            outputs: clone_strings(&self.outputs),
            mechanisms: clone_strings(&self.mechanisms),
            children,
            branches: clone_string_pairs(&self.branches),
        };
        assert(res@.children =~= self@.children);
        res
    }
}

impl Clone for Block {
    fn clone(&self) -> (res: Block)
        ensures
            res@ == self@,
    {
        self.duplicate()
    }
}

/// The block and its decomposition, depth first, parents before children.
pub open spec fn walk(b: BlockModel) -> Seq<BlockModel>
    decreases b,
{
    seq![b] + walk_all(b.children)
}

/// The walks of the blocks, one after the other.
pub open spec fn walk_all(cs: Seq<BlockModel>) -> Seq<BlockModel>
    decreases cs,
{
    if cs.len() == 0 {
        Seq::empty()
    } else {
        walk_all(cs.subrange(0, cs.len() - 1)) + walk(cs[cs.len() - 1])
    }
}

/// The blocks that execute: the decomposition of the context (the context
/// itself is a frame), or the context alone when it is not decomposed.
pub open spec fn flatten_spec(context: BlockModel) -> Seq<BlockModel> {
    if context.children.len() == 0 {
        seq![context]
    } else {
        walk_all(context.children)
    }
}

pub(crate) fn walk_into(b: &Block, out: &mut Vec<Block>)
    ensures
        block_views(final(out)@) == block_views(old(out)@) + walk(b@),
    decreases b,
{
    let ghost before = block_views(out@);
    out.push(b.duplicate());
    let ghost start = block_views(out@);
    assert(start =~= before.push(b@));
    let ghost cs = b@.children;
    assert(cs.subrange(0, 0) =~= Seq::<BlockModel>::empty());
    for i in 0..b.children.len()
        invariant
            cs == b@.children,
            cs.len() == b.children.len(),
            forall|j: int| 0 <= j < cs.len() ==> #[trigger] cs[j] == b.children@[j]@,
            block_views(out@) == start + walk_all(cs.subrange(0, i as int)),
    {
        proof {
            assert(decreases_to!(b => b.children@[i as int]));
            let t = cs.subrange(0, i + 1);
            assert(t.subrange(0, t.len() - 1) =~= cs.subrange(0, i as int));
            assert(t[t.len() - 1] == cs[i as int]);
        }
        walk_into(&b.children[i], out);
        proof {
            assert(start + walk_all(cs.subrange(0, i + 1)) =~= start + walk_all(cs.subrange(0, i as int)) + walk(
                cs[i as int],
            ));
        }
    }
    assert(cs.subrange(0, b.children.len() as int) =~= cs);
    assert(before.push(b@) + walk_all(cs) =~= before + walk(b@));
}

impl Idef0Model {
    /// The blocks to execute: the decomposition of the context A-0 (a
    /// frame, not a step); the context itself when it has no children.
    pub fn flatten(&self) -> (res: Vec<Block>)
        ensures
            block_views(res@) == flatten_spec(self.context@),
    {
        let mut all: Vec<Block> = Vec::new();
        let ghost cs = self.context@.children;
        if self.context.children.len() == 0 {
            all.push(self.context.duplicate());
            assert(block_views(all@) =~= seq![self.context@]);
        } else {
            assert(cs.subrange(0, 0) =~= Seq::<BlockModel>::empty());
            assert(block_views(all@) =~= Seq::<BlockModel>::empty());
            for i in 0..self.context.children.len()
                invariant
                    cs == self.context@.children,
                    cs.len() == self.context.children.len(),
                    forall|j: int| 0 <= j < cs.len() ==> #[trigger] cs[j] == self.context.children@[j]@,
                    block_views(all@) == walk_all(cs.subrange(0, i as int)),
            {
                proof {
                    let t = cs.subrange(0, i + 1);
                    assert(t.subrange(0, t.len() - 1) =~= cs.subrange(0, i as int));
                    assert(t[t.len() - 1] == cs[i as int]);
                }
                walk_into(&self.context.children[i], &mut all);
            }
            assert(cs.subrange(0, self.context.children.len() as int) =~= cs);
        }
        all
    }
}

// ---------------------------------------------------------------------
// Mapping to an intent graph
// ---------------------------------------------------------------------

/// The block's nature: its kind, `step` when absent.
pub open spec fn kind_word(b: BlockModel) -> Seq<char> {
    match b.kind {
        Some(k) => k,
        None => "step"@,
    }
}

/// Where a block's result goes: its first output, or `<id>_out`.
pub open spec fn into_name(b: BlockModel) -> Seq<char> {
    if b.outputs.len() > 0 {
        b.outputs[0]
    } else {
        b.id + "_out"@
    }
}

/// The tool a tool block calls: its first mechanism, or its id.
pub open spec fn tool_name(b: BlockModel) -> Seq<char> {
    if b.mechanisms.len() > 0 {
        b.mechanisms[0]
    } else {
        b.id
    }
}

/// The labels of a classify/branch block: the branch labels, else the
/// controls, else `ok`.
pub open spec fn label_source(b: BlockModel) -> Seq<Seq<char>> {
    if b.branches.len() > 0 {
        b.branches.map_values(|p: (Seq<char>, Seq<char>)| p.0)
    } else if b.controls.len() > 0 {
        b.controls
    } else {
        seq!["ok"@]
    }
}

/// The verification slot of a step block: the `not_empty` checker when the
/// block is a `verify` block or has controls, otherwise empty.
pub open spec fn verify_slot(b: BlockModel) -> SlotDataModel {
    if kind_word(b) == "verify"@ || b.controls.len() > 0 {
        SlotDataModel::Args(seq![("checker"@, "\"not_empty\""@)])
    } else {
        SlotDataModel::Args(Seq::empty())
    }
}

/// The node a block becomes.
pub open spec fn block_node(b: BlockModel) -> NodeModel {
    let k = kind_word(b);
    if k == "tool"@ {
        new_node(
            b.id,
            Subtype::External,
            Kind::Tool,
            Map::empty().insert("tool"@, SlotDataModel::Ident(tool_name(b))).insert(
                "args"@,
                SlotDataModel::Args(Seq::empty()),
            ).insert("policy"@, SlotDataModel::Args(Seq::empty())),
        )
    } else if k == "classify"@ || k == "branch"@ {
        new_node(
            b.id,
            Subtype::Generative,
            Kind::Classify,
            Map::empty().insert("input"@, SlotDataModel::Str(b.function)).insert(
                "labels"@,
                SlotDataModel::Args(label_source(b).map_values(|l: Seq<char>| (l, quote(l)))),
            ).insert("into"@, SlotDataModel::Ident(into_name(b))),
        )
    } else {
        new_node(
            b.id,
            Subtype::Generative,
            Kind::Step,
            Map::empty().insert("do"@, SlotDataModel::Str(b.function)).insert("verify"@, verify_slot(b)).insert(
                "into"@,
                SlotDataModel::Ident(into_name(b)),
            ),
        )
    }
}

/// A branch block with branches: it gets branch edges only.
pub open spec fn is_branching(b: BlockModel) -> bool {
    b.kind == Some("branch"@) && b.branches.len() > 0
}

/// Some output of `from` is an input or a control of `to`.
pub open spec fn linked(from: BlockModel, to: BlockModel) -> bool {
    exists|i: int| 0 <= i < from.outputs.len() && (to.inputs.contains(#[trigger] from.outputs[i]) || to.controls.contains(from.outputs[i]))
}

pub open spec fn ids_of(blocks: Seq<BlockModel>) -> Seq<Seq<char>> {
    blocks.map_values(|b: BlockModel| b.id)
}

/// The branch edges of the first `n` branches of `b` whose target is a block.
pub open spec fn branch_edges(b: BlockModel, ids: Seq<Seq<char>>, n: int) -> Seq<EdgeModel>
    decreases n,
{
    if n <= 0 {
        Seq::empty()
    } else {
        branch_edges(b, ids, n - 1) + if ids.contains(b.branches[n - 1].1) {
            seq![
                EdgeModel {
                    source: b.id,
                    target: b.branches[n - 1].1,
                    edge_type: EdgeType::Branch,
                    label: Some(b.branches[n - 1].0),
                },
            ]
        } else {
            Seq::empty()
        }
    }
}

/// The sequential edges from block `i` to the first `n` blocks.
pub open spec fn seq_edges(blocks: Seq<BlockModel>, i: int, n: int) -> Seq<EdgeModel>
    decreases n,
{
    if n <= 0 {
        Seq::empty()
    } else {
        seq_edges(blocks, i, n - 1) + if blocks[i].id != blocks[n - 1].id && linked(blocks[i], blocks[n - 1]) {
            seq![
                EdgeModel {
                    source: blocks[i].id,
                    target: blocks[n - 1].id,
                    edge_type: EdgeType::Sequence,
                    label: None,
                },
            ]
        } else {
            Seq::empty()
        }
    }
}

/// The edges that leave block `i`.
pub open spec fn block_edges(blocks: Seq<BlockModel>, i: int) -> Seq<EdgeModel> {
    if is_branching(blocks[i]) {
        branch_edges(blocks[i], ids_of(blocks), blocks[i].branches.len() as int)
    } else {
        seq_edges(blocks, i, blocks.len() as int)
    }
}

/// The edges of the first `n` blocks, block by block.
pub open spec fn edges_upto(blocks: Seq<BlockModel>, n: int) -> Seq<EdgeModel>
    decreases n,
{
    if n <= 0 {
        Seq::empty()
    } else {
        edges_upto(blocks, n - 1) + block_edges(blocks, n - 1)
    }
}

/// The nodes of the first `n` blocks, by id.
pub open spec fn nodes_upto(blocks: Seq<BlockModel>, n: int) -> Map<Seq<char>, NodeModel>
    decreases n,
{
    if n <= 0 {
        Map::empty()
    } else {
        nodes_upto(blocks, n - 1).insert(blocks[n - 1].id, block_node(blocks[n - 1]))
    }
}

pub open spec fn ids_distinct(blocks: Seq<BlockModel>) -> bool {
    forall|i: int, j: int| 0 <= i < j < blocks.len() ==> #[trigger] blocks[i].id != #[trigger] blocks[j].id
}

/// Each node of the first `n` blocks is stored under its block's id.
proof fn lemma_nodes_upto_keyed(blocks: Seq<BlockModel>, n: int)
    ensures
        forall|x: Seq<char>| #[trigger] nodes_upto(blocks, n).dom().contains(x) ==> nodes_upto(blocks, n)[x].node_id == x,
    decreases n,
{
    if n > 0 {
        lemma_nodes_upto_keyed(blocks, n - 1);
    }
}

/// Each node of the first `n` blocks has all the slots of its kind.
proof fn lemma_nodes_upto_filled(blocks: Seq<BlockModel>, n: int)
    ensures
        forall|x: Seq<char>| #[trigger] nodes_upto(blocks, n).dom().contains(x) ==> slots_filled(
            nodes_upto(blocks, n)[x].kind,
            nodes_upto(blocks, n)[x].slots,
        ),
    decreases n,
{
    if n > 0 {
        lemma_nodes_upto_filled(blocks, n - 1);
        lemma_block_node_filled(blocks[n - 1]);
    }
}

proof fn lemma_block_node_filled(b: BlockModel)
    ensures
        slots_filled(block_node(b).kind, block_node(b).slots),
{
    reveal_strlit("tool");
    reveal_strlit("args");
    reveal_strlit("policy");
    reveal_strlit("input");
    reveal_strlit("labels");
    reveal_strlit("into");
    reveal_strlit("do");
    reveal_strlit("verify");
}

/// The graph of a model's executable blocks.
pub open spec fn mapped_graph(blocks: Seq<BlockModel>) -> GraphModel {
    GraphModel { nodes: nodes_upto(blocks, blocks.len() as int), edges: edges_upto(blocks, blocks.len() as int) }
}

fn contains_string(v: &Vec<String>, s: &String) -> (res: bool)
    ensures
        res == string_views(v@).contains(s@),
{
    let mut i: usize = 0;
    while i < v.len()
        invariant
            i <= v.len(),
            forall|j: int| 0 <= j < i ==> v@[j]@ != s@,
        decreases v.len() - i,
    {
        if v[i] == *s {
            assert(string_views(v@)[i as int] == s@);
            return true;
        }
        i += 1;
    }
    proof {
        if string_views(v@).contains(s@) {
            let j = string_views(v@).index_of(s@);
            assert(v@[j]@ == s@);
        }
    }
    false
}

/// Some output of `from` is an input or a control of `to`.
pub(crate) fn is_linked(from: &Block, to: &Block) -> (res: bool)
    ensures
        res == linked(from@, to@),
{
    let mut i: usize = 0;
    while i < from.outputs.len()
        invariant
            i <= from.outputs.len(),
            from@.outputs == string_views(from.outputs@),
            forall|j: int| 0 <= j < i ==> !(to@.inputs.contains(#[trigger] from@.outputs[j]) || to@.controls.contains(
                from@.outputs[j],
            )),
        decreases from.outputs.len() - i,
    {
        if contains_string(&to.inputs, &from.outputs[i]) || contains_string(&to.controls, &from.outputs[i]) {
            assert(from@.outputs[i as int] == from.outputs@[i as int]@);
            return true;
        }
        i += 1;
    }
    false
}

fn str_slot(v: &String) -> (res: SlotData)
    ensures
        res@ == SlotDataModel::Str(v@),
{
    SlotData::Str(v.clone())
}

fn into_of(b: &Block) -> (res: String)
    ensures
        res@ == into_name(b@),
{
    if b.outputs.len() > 0 {
        b.outputs[0].clone()
    } else {
        let mut r = b.id.clone();
        append(&mut r, "_out");
        r
    }
}

fn put(slots: &mut KeyedMap<SlotData>, name: &str, v: SlotData)
    ensures
        final(slots).deep() == old(slots).deep().insert(name@, v@),
{
    let ghost before = *slots;
    slots.insert(owned(name), v);
    proof {
        lemma_deep_insert(before, *slots, name@, slots.at(name@));
    }
}

fn block_to_node(b: &Block) -> (res: Node)
    ensures
        res@ == block_node(b@),
{
    let step = owned("step");
    let kind_str = match &b.kind {
        Some(k) => k,
        None => &step,
    };
    let mut slots: KeyedMap<SlotData> = KeyedMap::new();
    assert(slots.deep() =~= Map::<Seq<char>, SlotDataModel>::empty());
    let ghost bm = b@;
    let ghost kw = kind_word(bm);
    assert(kind_str@ == kw);
    if crate::text::str_eq(kind_str.as_str(), "tool") {
        let tool = if b.mechanisms.len() > 0 {
            b.mechanisms[0].clone()
        } else {
            b.id.clone()
        };
        put(&mut slots, "tool", SlotData::Ident(tool));
        put(&mut slots, "args", SlotData::Args(Vec::new()));
        put(&mut slots, "policy", SlotData::Args(Vec::new()));
        proof {
            assert(pair_views(Seq::<(String, String)>::empty()) =~= Seq::<(Seq<char>, Seq<char>)>::empty());
        }
        Node::new(b.id.clone(), Subtype::External, Kind::Tool, slots)
    } else if crate::text::str_eq(kind_str.as_str(), "classify") || crate::text::str_eq(kind_str.as_str(), "branch") {
        let mut labels: Vec<(String, String)> = Vec::new();
        let ghost src = label_source(bm);
        if b.branches.len() > 0 {
            for i in 0..b.branches.len()
                invariant
                    bm == b@,
                    src == label_source(bm),
                    b.branches.len() > 0,
                    labels.len() == i,
                    forall|j: int| 0 <= j < i ==> (#[trigger] labels@[j]).0@ == src[j] && labels@[j].1@ == quote(src[j]),
            {
                assert(src[i as int] == b.branches@[i as int].0@);
                let l = &b.branches[i].0;
                labels.push((l.clone(), quoted(l.as_str())));
            }
        } else if b.controls.len() > 0 {
            for i in 0..b.controls.len()
                invariant
                    bm == b@,
                    src == label_source(bm),
                    b.branches.len() == 0,
                    b.controls.len() > 0,
                    labels.len() == i,
                    forall|j: int| 0 <= j < i ==> (#[trigger] labels@[j]).0@ == src[j] && labels@[j].1@ == quote(src[j]),
            {
                assert(src[i as int] == b.controls@[i as int]@);
                let l = &b.controls[i];
                labels.push((l.clone(), quoted(l.as_str())));
            }
        } else {
            labels.push((owned("ok"), quoted("ok")));
        }
        assert(pair_views(labels@) =~= src.map_values(|l: Seq<char>| (l, quote(l))));
        put(&mut slots, "input", str_slot(&b.function));
        put(&mut slots, "labels", SlotData::Args(labels));
        let into = into_of(b);
        put(&mut slots, "into", SlotData::Ident(into));
        Node::new(b.id.clone(), Subtype::Generative, Kind::Classify, slots)
    } else {
        put(&mut slots, "do", str_slot(&b.function));
        let verify = if crate::text::str_eq(kind_str.as_str(), "verify") || b.controls.len() > 0 {
            let mut v: Vec<(String, String)> = Vec::new();
            v.push((owned("checker"), owned("\"not_empty\"")));
            assert(pair_views(v@) =~= seq![("checker"@, "\"not_empty\""@)]);
            SlotData::Args(v)
        } else {
            let v: Vec<(String, String)> = Vec::new();
            assert(pair_views(v@) =~= Seq::<(Seq<char>, Seq<char>)>::empty());
            SlotData::Args(v)
        };
        put(&mut slots, "verify", verify);
        let into = into_of(b);
        put(&mut slots, "into", SlotData::Ident(into));
        Node::new(b.id.clone(), Subtype::Generative, Kind::Step, slots)
    }
}

pub proof fn lemma_nodes_upto_dom(bs: Seq<BlockModel>, n: int, id: Seq<char>)
    requires
        0 <= n <= bs.len(),
    ensures
        nodes_upto(bs, n).dom().contains(id) <==> exists|k: int| 0 <= k < n && #[trigger] bs[k].id == id,
    decreases n,
{
    if n > 0 {
        lemma_nodes_upto_dom(bs, n - 1, id);
        if nodes_upto(bs, n).dom().contains(id) && bs[n - 1].id != id {
            let k = choose|k: int| 0 <= k < n - 1 && #[trigger] bs[k].id == id;
            assert(0 <= k < n && bs[k].id == id);
        }
        if exists|k: int| 0 <= k < n && #[trigger] bs[k].id == id {
            let k = choose|k: int| 0 <= k < n && #[trigger] bs[k].id == id;
            if k < n - 1 {
                assert(exists|k: int| 0 <= k < n - 1 && #[trigger] bs[k].id == id);
            }
        }
    }
}

/// With distinct ids, the node stored under a block's id is the node that
/// block becomes.
proof fn lemma_nodes_upto_at(bs: Seq<BlockModel>, n: int, i: int)
    requires
        ids_distinct(bs),
        0 <= i < n <= bs.len(),
    ensures
        nodes_upto(bs, n).dom().contains(bs[i].id),
        nodes_upto(bs, n)[bs[i].id] == block_node(bs[i]),
    decreases n,
{
    if i < n - 1 {
        lemma_nodes_upto_at(bs, n - 1, i);
        assert(bs[i].id != bs[n - 1].id);
    }
}

/// A block of kind `step` or `verify`, or of no kind, maps to a STEP node,
/// stored under the block's id, that does the block's function into its
/// first output (or `<id>_out`), and whose `verify` slot is the single
/// argument `checker="not_empty"` when the block has controls or is a
/// `verify` block, and is empty otherwise: a control switches output
/// checking on.
pub proof fn lemma_controlled_step_is_checked(blocks: Seq<BlockModel>, i: int)
    requires
        ids_distinct(blocks),
        0 <= i < blocks.len(),
        blocks[i].kind == None::<Seq<char>> || blocks[i].kind == Some("step"@) || blocks[i].kind == Some("verify"@),
    ensures
        mapped_graph(blocks).nodes.dom().contains(blocks[i].id),
        mapped_graph(blocks).nodes[blocks[i].id].kind == Kind::Step,
        mapped_graph(blocks).nodes[blocks[i].id].subtype == Subtype::Generative,
        mapped_graph(blocks).nodes[blocks[i].id].slots.dom().contains("verify"@),
        mapped_graph(blocks).nodes[blocks[i].id].slots["verify"@] == if blocks[i].controls.len() > 0 || blocks[i].kind == Some(
            "verify"@,
        ) {
            SlotDataModel::Args(seq![("checker"@, "\"not_empty\""@)])
        } else {
            SlotDataModel::Args(Seq::empty())
        },
        mapped_graph(blocks).nodes[blocks[i].id].slots["do"@] == SlotDataModel::Str(blocks[i].function),
        mapped_graph(blocks).nodes[blocks[i].id].slots["into"@] == SlotDataModel::Ident(
            if blocks[i].outputs.len() > 0 {
                blocks[i].outputs[0]
            } else {
                blocks[i].id + "_out"@
            },
        ),
{
    lemma_nodes_upto_at(blocks, blocks.len() as int, i);
    reveal_strlit("step");
    reveal_strlit("verify");
    reveal_strlit("tool");
    reveal_strlit("classify");
    reveal_strlit("branch");
    reveal_strlit("into");
    reveal_strlit("do");
    let b = blocks[i];
    assert("step"@[0] != "tool"@[0]);
    assert("step"@.len() != "classify"@.len());
    assert("step"@.len() != "branch"@.len());
    assert("verify"@[0] != "tool"@[0]);
    assert("verify"@.len() != "classify"@.len());
    assert("verify"@[0] != "branch"@[0]);
    assert("step"@[0] != "verify"@[0]);
    assert(block_node(b).kind == Kind::Step);
}

/// A `tool` block maps to an external TOOL node, stored under the block's
/// id, that calls the block's first mechanism (its id when it has none).
/// A `classify` or `branch` block maps to a generative CLASSIFY node over
/// the block's function, into its first output (or `<id>_out`), whose
/// labels are the block's branch labels, else its controls, else `ok`,
/// each with its quoted description.
pub proof fn lemma_tool_and_classify_blocks(blocks: Seq<BlockModel>, i: int)
    requires
        ids_distinct(blocks),
        0 <= i < blocks.len(),
    ensures
        blocks[i].kind == Some("tool"@) ==> mapped_graph(blocks).nodes[blocks[i].id].kind == Kind::Tool
            && mapped_graph(blocks).nodes[blocks[i].id].subtype == Subtype::External
            && mapped_graph(blocks).nodes[blocks[i].id].slots["tool"@] == SlotDataModel::Ident(
            if blocks[i].mechanisms.len() > 0 {
                blocks[i].mechanisms[0]
            } else {
                blocks[i].id
            },
        ),
        blocks[i].kind == Some("classify"@) || blocks[i].kind == Some("branch"@) ==> mapped_graph(blocks).nodes[blocks[i].id].kind
            == Kind::Classify && mapped_graph(blocks).nodes[blocks[i].id].subtype == Subtype::Generative
            && mapped_graph(blocks).nodes[blocks[i].id].slots["input"@] == SlotDataModel::Str(blocks[i].function)
            && mapped_graph(blocks).nodes[blocks[i].id].slots["labels"@] == SlotDataModel::Args(
            (if blocks[i].branches.len() > 0 {
                blocks[i].branches.map_values(|p: (Seq<char>, Seq<char>)| p.0)
            } else if blocks[i].controls.len() > 0 {
                blocks[i].controls
            } else {
                seq!["ok"@]
            }).map_values(|l: Seq<char>| (l, quote(l))),
        ) && mapped_graph(blocks).nodes[blocks[i].id].slots["into"@] == SlotDataModel::Ident(
            if blocks[i].outputs.len() > 0 {
                blocks[i].outputs[0]
            } else {
                blocks[i].id + "_out"@
            },
        ),
{
    lemma_nodes_upto_at(blocks, blocks.len() as int, i);
    reveal_strlit("tool");
    reveal_strlit("classify");
    reveal_strlit("branch");
    reveal_strlit("args");
    reveal_strlit("policy");
    reveal_strlit("input");
    reveal_strlit("labels");
    reveal_strlit("into");
    assert("tool"@.len() != "classify"@.len());
    assert("tool"@.len() != "branch"@.len());
    assert("tool"@[0] != "args"@[0]);
    assert("tool"@.len() != "policy"@.len());
    assert("input"@.len() != "labels"@.len());
    assert("input"@.len() != "into"@.len());
    let b = blocks[i];
    if b.kind == Some("tool"@) {
        assert(block_node(b).slots["tool"@] == SlotDataModel::Ident(tool_name(b)));
    }
    if b.kind == Some("classify"@) || b.kind == Some("branch"@) {
        assert(kind_word(b) != "tool"@);
        assert(block_node(b).kind == Kind::Classify);
        assert(block_node(b).slots["input"@] == SlotDataModel::Str(b.function));
        assert(block_node(b).slots["labels"@] == SlotDataModel::Args(label_source(b).map_values(|l: Seq<char>| (l, quote(l)))));
    }
}

proof fn lemma_seq_edges_include(blocks: Seq<BlockModel>, i: int, n: int, k: int)
    requires
        0 <= i < blocks.len(),
        0 <= k < n <= blocks.len(),
        blocks[i].id != blocks[k].id,
        linked(blocks[i], blocks[k]),
    ensures
        seq_edges(blocks, i, n).contains(
            EdgeModel { source: blocks[i].id, target: blocks[k].id, edge_type: EdgeType::Sequence, label: None },
        ),
    decreases n,
{
    let e = EdgeModel { source: blocks[i].id, target: blocks[k].id, edge_type: EdgeType::Sequence, label: None };
    let prev = seq_edges(blocks, i, n - 1);
    if k < n - 1 {
        lemma_seq_edges_include(blocks, i, n - 1, k);
        let x = prev.index_of(e);
        assert(seq_edges(blocks, i, n)[x] == e);
    } else {
        assert(seq_edges(blocks, i, n)[prev.len() as int] == e);
    }
}

proof fn lemma_branch_edges_include(b: BlockModel, ids: Seq<Seq<char>>, n: int, m: int)
    requires
        0 <= m < n <= b.branches.len(),
        ids.contains(b.branches[m].1),
    ensures
        branch_edges(b, ids, n).contains(
            EdgeModel { source: b.id, target: b.branches[m].1, edge_type: EdgeType::Branch, label: Some(b.branches[m].0) },
        ),
    decreases n,
{
    let e = EdgeModel { source: b.id, target: b.branches[m].1, edge_type: EdgeType::Branch, label: Some(b.branches[m].0) };
    let prev = branch_edges(b, ids, n - 1);
    if m < n - 1 {
        lemma_branch_edges_include(b, ids, n - 1, m);
        let x = prev.index_of(e);
        assert(branch_edges(b, ids, n)[x] == e);
    } else {
        assert(branch_edges(b, ids, n)[prev.len() as int] == e);
    }
}

proof fn lemma_edges_upto_include(blocks: Seq<BlockModel>, n: int, i: int, e: EdgeModel)
    requires
        0 <= i < n <= blocks.len(),
        block_edges(blocks, i).contains(e),
    ensures
        edges_upto(blocks, n).contains(e),
    decreases n,
{
    let prev = edges_upto(blocks, n - 1);
    if i < n - 1 {
        lemma_edges_upto_include(blocks, n - 1, i, e);
        let x = prev.index_of(e);
        assert(edges_upto(blocks, n)[x] == e);
    } else {
        let x = block_edges(blocks, i).index_of(e);
        assert(edges_upto(blocks, n)[prev.len() + x] == e);
    }
}

/// Flows become edges. When an output `o` of a block that is not a branch
/// block with branches is an input or a control of another block, the
/// graph has a sequential edge from the first to the second; each branch
/// of a `branch` block whose target is a block of the model becomes a
/// branch edge to that target, labelled by the branch.
pub proof fn lemma_flows_become_edges(blocks: Seq<BlockModel>, i: int, k: int, o: Seq<char>, m: int)
    ensures
        0 <= i < blocks.len() && 0 <= k < blocks.len() && !(blocks[i].kind == Some("branch"@) && blocks[i].branches.len() > 0)
            && blocks[i].id != blocks[k].id && blocks[i].outputs.contains(o) && (blocks[k].inputs.contains(o)
            || blocks[k].controls.contains(o)) ==> mapped_graph(blocks).edges.contains(
            EdgeModel { source: blocks[i].id, target: blocks[k].id, edge_type: EdgeType::Sequence, label: None },
        ),
        0 <= i < blocks.len() && 0 <= k < blocks.len() && blocks[i].kind == Some("branch"@) && 0 <= m < blocks[i].branches.len()
            && blocks[k].id == blocks[i].branches[m].1 ==> mapped_graph(blocks).edges.contains(
            EdgeModel {
                source: blocks[i].id,
                target: blocks[i].branches[m].1,
                edge_type: EdgeType::Branch,
                label: Some(blocks[i].branches[m].0),
            },
        ),
{
    if 0 <= i < blocks.len() && 0 <= k < blocks.len() && !(blocks[i].kind == Some("branch"@) && blocks[i].branches.len() > 0)
        && blocks[i].id != blocks[k].id && blocks[i].outputs.contains(o) && (blocks[k].inputs.contains(o)
        || blocks[k].controls.contains(o)) {
        let x = blocks[i].outputs.index_of(o);
        assert(blocks[i].outputs[x] == o);
        assert(linked(blocks[i], blocks[k]));
        lemma_seq_edges_include(blocks, i, blocks.len() as int, k);
        lemma_edges_upto_include(
            blocks,
            blocks.len() as int,
            i,
            EdgeModel { source: blocks[i].id, target: blocks[k].id, edge_type: EdgeType::Sequence, label: None },
        );
    }
    if 0 <= i < blocks.len() && 0 <= k < blocks.len() && blocks[i].kind == Some("branch"@) && 0 <= m < blocks[i].branches.len()
        && blocks[k].id == blocks[i].branches[m].1 {
        assert(ids_of(blocks)[k] == blocks[k].id);
        lemma_branch_edges_include(blocks[i], ids_of(blocks), blocks[i].branches.len() as int, m);
        lemma_edges_upto_include(
            blocks,
            blocks.len() as int,
            i,
            EdgeModel {
                source: blocks[i].id,
                target: blocks[i].branches[m].1,
                edge_type: EdgeType::Branch,
                label: Some(blocks[i].branches[m].0),
            },
        );
    }
}

pub(crate) fn is_branch_block(b: &Block) -> (res: bool)
    ensures
        res == (b@.kind == Some("branch"@)),
{
    match &b.kind {
        Some(k) => crate::text::str_eq(k.as_str(), "branch"),
        None => false,
    }
}

pub(crate) fn has_block_id(blocks: &Vec<Block>, id: &String) -> (res: bool)
    ensures
        res == ids_of(block_views(blocks@)).contains(id@),
{
    let ghost ids = ids_of(block_views(blocks@));
    let mut i: usize = 0;
    while i < blocks.len()
        invariant
            ids == ids_of(block_views(blocks@)),
            i <= blocks.len(),
            forall|j: int| 0 <= j < i ==> ids[j] != id@,
        decreases blocks.len() - i,
    {
        if blocks[i].id == *id {
            assert(ids[i as int] == id@);
            return true;
        }
        i += 1;
    }
    proof {
        if ids.contains(id@) {
            let j = ids.index_of(id@);
            assert(ids[j] == id@);
        }
    }
    false
}

/// Maps a model to an executable graph: one node per executable block,
/// sequential edges along shared flows, branch edges for branch blocks.
/// Block ids must be unique.
pub fn map_to_graph(model: &Idef0Model) -> (res: IntentGraph)
    requires
        ids_distinct(flatten_spec(model.context@)),
    ensures
        res@ == mapped_graph(flatten_spec(model.context@)),
        graph_keyed(res@),
        graph_wf(res@),
{
    let blocks = model.flatten();
    let ghost bs = block_views(blocks@);
    let mut graph = IntentGraph::new();
    for i in 0..blocks.len()
        invariant
            bs == block_views(blocks@),
            ids_distinct(bs),
            graph@.nodes == nodes_upto(bs, i as int),
            graph@.edges == Seq::<EdgeModel>::empty(),
    {
        let node = block_to_node(&blocks[i]);
        proof {
            lemma_nodes_upto_dom(bs, i as int, bs[i as int].id);
            assert(bs[i as int] == blocks@[i as int]@);
        }
        match graph.add_node(node) {
            Ok(()) => {},
            Err(_) => {
                proof {
                    let k = choose|k: int| 0 <= k < i && #[trigger] bs[k].id == bs[i as int].id;
                    assert(bs[k].id != bs[i as int].id);
                }
            },
        }
    }
    let ghost all_nodes = graph@.nodes;
    assert(graph@.edges =~= edges_upto(bs, 0));
    for i in 0..blocks.len()
        invariant
            bs == block_views(blocks@),
            graph@.nodes == all_nodes,
            graph@.edges == edges_upto(bs, i as int),
    {
        let from = &blocks[i];
        proof {
            assert(bs[i as int] == from@);
        }
        let ghost base = graph@.edges;
        if is_branch_block(from) && from.branches.len() > 0 {
            assert(graph@.edges =~= base + branch_edges(bs[i as int], ids_of(bs), 0));
            for j in 0..from.branches.len()
                invariant
                    bs == block_views(blocks@),
                    bs[i as int] == from@,
                    graph@.nodes == all_nodes,
                    graph@.edges == base + branch_edges(bs[i as int], ids_of(bs), j as int),
            {
                let target = &from.branches[j].1;
                proof {
                    assert(from@.branches[j as int] == (from.branches@[j as int].0@, from.branches@[j as int].1@));
                }
                if has_block_id(&blocks, target) {
                    let e = Edge {
                        source: from.id.clone(),
                        target: target.clone(),
                        edge_type: EdgeType::Branch,
                        label: Some(from.branches[j].0.clone()),
                    };
                    let ghost before = graph@.edges;
                    graph.add_edge(e);
                    assert(graph@.edges =~= base + branch_edges(bs[i as int], ids_of(bs), j + 1));
                } else {
                    assert(graph@.edges =~= base + branch_edges(bs[i as int], ids_of(bs), j + 1));
                }
            }
        } else {
            assert(graph@.edges =~= base + seq_edges(bs, i as int, 0));
            for k in 0..blocks.len()
                invariant
                    bs == block_views(blocks@),
                    bs[i as int] == from@,
                    i < blocks.len(),
                    graph@.nodes == all_nodes,
                    graph@.edges == base + seq_edges(bs, i as int, k as int),
            {
                let to = &blocks[k];
                proof {
                    assert(bs[k as int] == to@);
                }
                if from.id != to.id && is_linked(from, to) {
                    let e = Edge { source: from.id.clone(), target: to.id.clone(), edge_type: EdgeType::Sequence, label: None };
                    graph.add_edge(e);
                    assert(graph@.edges =~= base + seq_edges(bs, i as int, k + 1));
                } else {
                    assert(graph@.edges =~= base + seq_edges(bs, i as int, k + 1));
                }
            }
        }
    }
    proof {
        lemma_nodes_upto_keyed(bs, bs.len() as int);
        lemma_nodes_upto_filled(bs, bs.len() as int);
    }
    graph
}

} // verus!
