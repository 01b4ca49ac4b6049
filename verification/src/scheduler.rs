//! The traversal scheduler: runs an intent graph node by node. The graph
//! may grow while it runs (a SPAWN node's output is parsed as node
//! declarations and inserted), edges activate on the actual output of
//! their source, computations are reused by content (cache key and
//! prompt, never the branch), and a failure is a REJECT_MARK node of the
//! result, not an exception.
//!
//! What a model or a tool answers is not known here: the model is a
//! `ModelBackend` and a tool a `Tool`, both supplied by the user. The
//! decisions taken on their answers are functions of the answers, stated
//! exactly below.

use vstd::prelude::*;
use crate::decoding::{build_constraint, constraint_of, node_surface_form, surface_form, Constraint};
use crate::digest::{digest_hex_prefix, digest_prefix};
use crate::keyed_map::{
    keys_sorted, lemma_deep_insert, lemma_sorted_elements, lemma_sorted_elements_exist, sorted_elements, KeyedMap,
};
use crate::parser::{
    edge_views, fragment_parse_spec, graph_keyed, graph_wf, new_node, node_views, parse_fragment, slots_filled, Edge, EdgeModel,
    EdgeType, GraphModel, IntentGraph, Node, NodeModel, SlotData, SlotDataModel, pair_views,
};
use crate::registry::{Kind, Subtype};
use crate::text::{
    append, ascii_upper_char, is_prefix, join, join_strings, owned, starts_with, str_eq, string_views, to_chars,
    chars_to_string, to_uppercase, trim, trim_seq, upper_of, all_ascii,
};

verus! {

/// A model output the node's grammar rejects, or a transport failure.
/// A fatal failure (one no retry on any node would fix) stops the whole
/// run; any other becomes a `SYNTAX` reject of the node.
#[derive(Debug, Clone)]
pub struct InvalidModelOutput {
    pub reason: String,
    pub fatal: bool,
}

impl InvalidModelOutput {
    pub fn new(reason: &str) -> (res: InvalidModelOutput)
        ensures
            res.reason@ == reason@,
            !res.fatal,
    {
        InvalidModelOutput { reason: owned(reason), fatal: false }
    }

    pub fn fatal(reason: &str) -> (res: InvalidModelOutput)
        ensures
            res.reason@ == reason@,
            res.fatal,
    {
        InvalidModelOutput { reason: owned(reason), fatal: true }
    }
}

/// A language model that answers a node's prompt under its decoding
/// constraint. Implemented by the user; nothing is assumed of its answers.
pub trait ModelBackend {
    /// The answers the model may give: `out` to `prompt` under the output
    /// grammar `ebnf` for a node of `kind`. A model that says nothing of its
    /// answers may give any text.
    open spec fn answers(&self, prompt: Seq<char>, ebnf: Seq<char>, kind: Kind, out: Seq<char>) -> bool {
        true
    }

    /// A model that always answers, and stays so. A model that says nothing
    /// of this may fail.
    open spec fn reliable(&self) -> bool {
        false
    }

    /// Whether the model may fail on `prompt` under `ebnf` for a node of
    /// `kind`, fatally or not. A model that says nothing of this may fail
    /// either way.
    open spec fn fails(&self, prompt: Seq<char>, ebnf: Seq<char>, kind: Kind, fatal: bool) -> bool {
        true
    }

    /// Asks the model for a node's output: the text it gives is one of its
    /// answers to the prompt under the node's grammar; a reliable model
    /// gives one and stays reliable.
    fn generate(&mut self, prompt: &str, constraint: &Constraint, kind: Kind, slots: &KeyedMap<SlotData>) -> (res: Result<
        String,
        InvalidModelOutput,
    >)
        ensures
            res matches Ok(s) ==> old(self).answers(prompt@, constraint.definition@, kind, s@),
            res matches Err(e) ==> old(self).fails(prompt@, constraint.definition@, kind, e.fatal),
            old(self).reliable() ==> res is Ok && final(self).reliable(),
            forall|p: Seq<char>, e: Seq<char>, k: Kind, o: Seq<char>|
                #[trigger] final(self).answers(p, e, k, o) == old(self).answers(p, e, k, o),
            forall|p: Seq<char>, e: Seq<char>, k: Kind, f: bool|
                #[trigger] final(self).fails(p, e, k, f) == old(self).fails(p, e, k, f),
    ;

    /// How many times the model was asked; a model that does not count
    /// reports none.
    fn call_count(&self) -> (res: u64)
        default_ensures
            res == 0,
    {
        0
    }
}

/// The answer of the deterministic model for a node of `kind`, given the
/// 8-digit hexadecimal digest `d` of its prompt and grammar: FILTER
/// matches when the digest is an even number, ROLE answers nothing, STEP
/// `RESULT:<d>`, SPAWN two node declarations named after `d`, others
/// `generated<d>`.
pub open spec fn mock_output(kind: Kind, d: Seq<char>) -> Seq<char> {
    match kind {
        Kind::Filter => if d.len() == 0 || hex_even_digit(d.last()) {
            "MATCH"@
        } else {
            "NO_MATCH"@
        },
        Kind::Role => Seq::empty(),
        Kind::Step => "RESULT:"@ + d,
        Kind::Spawn => "NODE sp_"@ + d + "_a: STEP [GENERATIVE]\n  DO \"generated substep\"\n  INTO out_"@ + d
            + "\nEND\nNODE sp_"@ + d + "_b: TOOL [EXTERNAL]\n  CALL notify WITH target=\"ops\"\nEND"@,
        _ => "generated<"@ + d + ">"@,
    }
}

/// An even hexadecimal digit.
pub open spec fn hex_even_digit(c: char) -> bool {
    c == '0' || c == '2' || c == '4' || c == '6' || c == '8' || c == 'a' || c == 'c' || c == 'e'
}

/// A deterministic model: its answer is a function of the prompt and the
/// grammar, so that equal answers across branches show the cache at work.
#[derive(Debug)]
pub struct MockBackend {
    pub calls: u64,
}

impl MockBackend {
    pub fn new() -> (res: MockBackend)
        ensures
            res.calls == 0,
    {
        MockBackend { calls: 0 }
    }

    fn digest(prompt: &str, ebnf: &str) -> (res: String)
        ensures
            res@ == digest_prefix(prompt@ + ebnf@, 8),
    {
        let mut s = owned(prompt);
        append(&mut s, ebnf);
        digest_hex_prefix(s.as_str(), 8)
    }
}

impl ModelBackend for MockBackend {
    open spec fn answers(&self, prompt: Seq<char>, ebnf: Seq<char>, kind: Kind, out: Seq<char>) -> bool {
        out == mock_output(kind, digest_prefix(prompt + ebnf, 8))
    }

    open spec fn reliable(&self) -> bool {
        true
    }

    open spec fn fails(&self, prompt: Seq<char>, ebnf: Seq<char>, kind: Kind, fatal: bool) -> bool {
        false
    }

    fn generate(&mut self, prompt: &str, constraint: &Constraint, kind: Kind, slots: &KeyedMap<SlotData>) -> (res: Result<
        String,
        InvalidModelOutput,
    >)
        ensures
            res matches Ok(s) && s@ == mock_output(kind, digest_prefix(prompt@ + constraint.definition@, 8)),
            final(self).calls == if old(self).calls < u64::MAX {
                old(self).calls + 1
            } else {
                old(self).calls as int
            },
    {
        if self.calls < u64::MAX {
            self.calls = self.calls + 1;
        }
        let digest = Self::digest(prompt, constraint.definition.as_str());
        let out = match kind {
            Kind::Filter => {
                let v = to_chars(digest.as_str());
                let even = v.len() == 0 || {
                    let c = v[v.len() - 1];
                    c == '0' || c == '2' || c == '4' || c == '6' || c == '8' || c == 'a' || c == 'c' || c == 'e'
                };
                if even {
                    owned("MATCH")
                } else {
                    owned("NO_MATCH")
                }
            },
            Kind::Role => String::new(),
            Kind::Step => {
                let mut s = owned("RESULT:");
                append(&mut s, digest.as_str());
                s
            },
            Kind::Spawn => {
                let mut s = owned("NODE sp_");
                append(&mut s, digest.as_str());
                append(&mut s, "_a: STEP [GENERATIVE]\n  DO \"generated substep\"\n  INTO out_");
                append(&mut s, digest.as_str());
                append(&mut s, "\nEND\nNODE sp_");
                append(&mut s, digest.as_str());
                append(&mut s, "_b: TOOL [EXTERNAL]\n  CALL notify WITH target=\"ops\"\nEND");
                s
            },
            _ => {
                let mut s = owned("generated<");
                append(&mut s, digest.as_str());
                append(&mut s, ">");
                s
            },
        };
        Ok(out)
    }

    fn call_count(&self) -> (res: u64)
        ensures
            res == self.calls,
    {
        self.calls
    }
}

/// An external tool: its answer to the arguments of a TOOL node.
/// Implemented by the user.
pub trait Tool {
    /// The answers the tool may give to `args`. A tool that says nothing of
    /// its answers may give any text.
    open spec fn answers(&self, args: Map<Seq<char>, Seq<char>>, out: Seq<char>) -> bool {
        true
    }

    /// Runs the tool: its text is one of its answers to the arguments.
    fn run(&self, args: &KeyedMap<String>) -> (res: String)
        ensures
            self.answers(args.deep(), res@),
    ;
}

/// A tool that always answers the same text.
pub struct ConstantTool {
    pub answer: String,
}

impl ConstantTool {
    pub fn new(answer: &str) -> (res: ConstantTool)
        ensures
            res.answer@ == answer@,
    {
        ConstantTool { answer: owned(answer) }
    }
}

impl Tool for ConstantTool {
    open spec fn answers(&self, args: Map<Seq<char>, Seq<char>>, out: Seq<char>) -> bool {
        out == self.answer@
    }

    fn run(&self, args: &KeyedMap<String>) -> (res: String)
        ensures
            res@ == self.answer@,
    {
        self.answer.clone()
    }
}

/// The tools of EXTERNAL nodes, by name. Decoding does not apply to them:
/// their output comes from outside.
pub struct ToolRegistry {
    tools: KeyedMap<Box<dyn Tool>>,
    pub call_count: u64,
}

impl ToolRegistry {
    /// The names of the registered tools.
    pub closed spec fn names(&self) -> Set<Seq<char>> {
        Set::new(|n: Seq<char>| self.tools.has(n))
    }

    /// The answers the tool registered as `name` may give to `args`.
    pub closed spec fn answers(&self, name: Seq<char>, args: Map<Seq<char>, Seq<char>>, out: Seq<char>) -> bool {
        self.tools.at(name).answers(args, out)
    }

    /// How many tool calls were made.
    pub closed spec fn calls(&self) -> u64 {
        self.call_count
    }

    pub fn new() -> (res: ToolRegistry)
        ensures
            res.names() == Set::<Seq<char>>::empty(),
            res.calls() == 0,
    {
        let res = ToolRegistry { tools: KeyedMap::new(), call_count: 0 };
        assert(res.names() =~= Set::<Seq<char>>::empty());
        res
    }

    /// Registers `tool` under `name`, replacing a tool registered there.
    pub fn register(&mut self, name: &str, tool: Box<dyn Tool>)
        ensures
            final(self).names() == old(self).names().insert(name@),
            final(self).calls() == old(self).calls(),
    {
        self.tools.insert(owned(name), tool);
        assert(self.names() =~= old(self).names().insert(name@));
    }

    /// Calls the tool `name`: none when no tool has that name.
    fn call(&mut self, name: &str, args: &KeyedMap<String>) -> (res: Option<String>)
        ensures
            res is Some <==> old(self).names().contains(name@),
            res matches Some(o) ==> old(self).answers(name@, args.deep(), o@),
            final(self).names() == old(self).names(),
            forall|n: Seq<char>, a: Map<Seq<char>, Seq<char>>, o: Seq<char>|
                #[trigger] final(self).answers(n, a, o) == old(self).answers(n, a, o),
            final(self).calls() == if res is Some && old(self).calls() < u64::MAX {
                old(self).calls() + 1
            } else {
                old(self).calls() as int
            },
    {
        match self.tools.find(name) {
            None => None,
            Some(i) => {
                let out = self.tools.value_at(i).run(args);
                if self.call_count < u64::MAX {
                    self.call_count = self.call_count + 1;
                }
                Some(out)
            },
        }
    }
}

/// Reuse of computations, keyed by content only (the node's cache key and
/// the prompt), never by branch.
pub struct ComputationCache {
    store: KeyedMap<String>,
    pub hits: u64,
    pub misses: u64,
}

impl ComputationCache {
    /// The stored outputs by composite key.
    pub closed spec fn entries(&self) -> Map<Seq<char>, Seq<char>> {
        self.store.deep()
    }

    pub closed spec fn hit_count(&self) -> u64 {
        self.hits
    }

    pub closed spec fn miss_count(&self) -> u64 {
        self.misses
    }

    pub fn new() -> (res: ComputationCache)
        ensures
            res.entries() == Map::<Seq<char>, Seq<char>>::empty(),
            res.hit_count() == 0,
            res.miss_count() == 0,
    {
        let res = ComputationCache { store: KeyedMap::new(), hits: 0, misses: 0 };
        assert(res.entries() =~= Map::<Seq<char>, Seq<char>>::empty());
        res
    }

    fn get(&mut self, key: &str) -> (res: Option<String>)
        ensures
            final(self).entries() == old(self).entries(),
            match res {
                Some(v) => old(self).entries().dom().contains(key@) && v@ == old(self).entries()[key@],
                None => !old(self).entries().dom().contains(key@),
            },
            res is Some ==> final(self).hit_count() == (if old(self).hit_count() < u64::MAX {
                old(self).hit_count() + 1
            } else {
                old(self).hit_count() as int
            }) && final(self).miss_count() == old(self).miss_count(),
            res is None ==> final(self).miss_count() == (if old(self).miss_count() < u64::MAX {
                old(self).miss_count() + 1
            } else {
                old(self).miss_count() as int
            }) && final(self).hit_count() == old(self).hit_count(),
    {
        match self.store.get(key) {
            Some(v) => {
                let r = v.clone();
                if self.hits < u64::MAX {
                    self.hits = self.hits + 1;
                }
                Some(r)
            },
            None => {
                if self.misses < u64::MAX {
                    self.misses = self.misses + 1;
                }
                None
            },
        }
    }

    fn put(&mut self, key: String, value: String)
        ensures
            final(self).entries() == old(self).entries().insert(key@, value@),
            final(self).hit_count() == old(self).hit_count(),
            final(self).miss_count() == old(self).miss_count(),
    {
        let ghost before = self.store;
        let ghost k = key@;
        self.store.insert(key, value);
        proof {
            lemma_deep_insert(before, self.store, k, self.store.at(k));
        }
    }
}

/// What a run produced.
#[derive(Debug)]
pub struct ExecutionResult {
    pub outputs: KeyedMap<String>,
    pub rejects: Vec<Node>,
    pub order: Vec<String>,
    pub skipped: Vec<String>,
    pub spawned: Vec<String>,
    pub cache_hits: u64,
    pub cache_misses: u64,
    pub model_calls: u64,
    pub tool_calls: u64,
}

impl ExecutionResult {
    pub fn new() -> (res: ExecutionResult)
        ensures
            res.outputs.deep() == Map::<Seq<char>, Seq<char>>::empty(),
            res.rejects@.len() == 0,
            res.order@.len() == 0,
            res.skipped@.len() == 0,
            res.spawned@.len() == 0,
            res.cache_hits == 0,
            res.cache_misses == 0,
            res.model_calls == 0,
            res.tool_calls == 0,
    {
        let res = ExecutionResult {
            outputs: KeyedMap::new(),
            rejects: Vec::new(),
            order: Vec::new(),
            skipped: Vec::new(),
            spawned: Vec::new(),
            cache_hits: 0,
            cache_misses: 0,
            model_calls: 0,
            tool_calls: 0,
        };
        assert(res.outputs.deep() =~= Map::<Seq<char>, Seq<char>>::empty());
        res
    }
}

// ---------------------------------------------------------------------
// Decisions
// ---------------------------------------------------------------------

/// Text as `str::to_uppercase` gives it back (ASCII spelled out by
/// `upper_of`); kept folded so that routing proofs do not unfold it.
#[verifier::opaque]
pub open spec fn uppercased(s: Seq<char>) -> Seq<char> {
    upper_of(s)
}

/// The output a branch label expects: `on_match` expects `MATCH`.
pub open spec fn label_expectation(label: Seq<char>) -> Seq<char> {
    uppercased(if is_prefix("on_"@, label) {
        label.skip(3)
    } else {
        label
    })
}

fn normalize_label(label: &str) -> (res: String)
    ensures
        res@ == label_expectation(label@),
{
    proof {
        reveal_strlit("on_");
        reveal(uppercased);
    }
    if starts_with(label, "on_") {
        let v = to_chars(label);
        let rest = chars_to_string(&v, 3, v.len());
        assert(rest@ =~= label@.skip(3));
        to_uppercase(rest.as_str())
    } else {
        to_uppercase(label)
    }
}

/// `v` without one pair of surrounding double quotes.
pub open spec fn unquoted(v: Seq<char>) -> Seq<char> {
    if v.len() >= 2 && v[0] == '"' && v.last() == '"' {
        v.subrange(1, v.len() - 1)
    } else {
        v
    }
}

fn unquote(v: &str) -> (res: String)
    ensures
        res@ == unquoted(v@),
{
    let c = to_chars(v);
    if c.len() >= 2 && c[0] == '"' && c[c.len() - 1] == '"' {
        chars_to_string(&c, 1, c.len() - 1)
    } else {
        owned(v)
    }
}

/// The reject node for `cause`: `__reject__<cause>`, REJECT_MARK with the
/// cause and the reason, in the given branch.
pub open spec fn reject_node(cause: Seq<char>, reason: Seq<char>, branch_id: Seq<char>) -> NodeModel {
    let n = new_node(
        "__reject__"@ + cause,
        Subtype::Reject,
        Kind::RejectMark,
        Map::empty().insert("cause"@, SlotDataModel::Ident(cause)).insert("reason"@, SlotDataModel::Ident(reason)),
    );
    NodeModel { branch_id, ..n }
}

fn make_reject(cause_node_id: &str, reason: &str, branch_id: &str) -> (res: Node)
    ensures
        res@ == reject_node(cause_node_id@, reason@, branch_id@),
{
    let mut slots: KeyedMap<SlotData> = KeyedMap::new();
    let ghost s0 = slots;
    slots.insert(owned("cause"), SlotData::Ident(owned(cause_node_id)));
    let ghost s1 = slots;
    proof {
        lemma_deep_insert(s0, s1, "cause"@, s1.at("cause"@));
    }
    slots.insert(owned("reason"), SlotData::Ident(owned(reason)));
    proof {
        lemma_deep_insert(s1, slots, "reason"@, slots.at("reason"@));
        assert(s0.deep() =~= Map::<Seq<char>, SlotDataModel>::empty());
    }
    let mut id = owned("__reject__");
    append(&mut id, cause_node_id);
    let mut n = Node::new(id, Subtype::Reject, Kind::RejectMark, slots);
    n.branch_id = owned(branch_id);
    n
}

/// An edge is active once its source has executed; a labelled branch edge
/// only when the source's output, trimmed and uppercased, is what the
/// label expects.
pub open spec fn edge_active(e: EdgeModel, outputs: Map<Seq<char>, Seq<char>>, executed: Set<Seq<char>>) -> bool {
    if !executed.contains(e.source) {
        false
    } else if e.edge_type == EdgeType::Branch && e.label is Some {
        let actual = if outputs.dom().contains(e.source) {
            uppercased(trim_seq(outputs[e.source]))
        } else {
            Seq::empty()
        };
        actual == label_expectation(e.label->Some_0)
    } else {
        true
    }
}

/// A labelled branch edge opens only once its source has run, and then
/// exactly when the source's output, trimmed and uppercased, equals the
/// label without its `on_` prefix, uppercased. On ASCII text uppercasing
/// is the ASCII one, so the output `urgent` opens the edge labelled
/// `on_urgent` and the output `normal` does not.
pub proof fn lemma_branch_edge_follows_output(
    e: EdgeModel,
    outputs: Map<Seq<char>, Seq<char>>,
    executed: Set<Seq<char>>,
    label: Seq<char>,
)
    requires
        e.edge_type == EdgeType::Branch,
        e.label == Some(label),
        outputs.dom().contains(e.source),
    ensures
        !executed.contains(e.source) ==> !edge_active(e, outputs, executed),
        executed.contains(e.source) ==> (edge_active(e, outputs, executed) <==> upper_of(trim_seq(outputs[e.source])) == upper_of(
            if is_prefix("on_"@, label) {
                label.skip(3)
            } else {
                label
            },
        )),
        executed.contains(e.source) && all_ascii(trim_seq(outputs[e.source])) && all_ascii(label) ==> (edge_active(
            e,
            outputs,
            executed,
        ) <==> trim_seq(outputs[e.source]).map_values(|c: char| ascii_upper_char(c)) == (if is_prefix("on_"@, label) {
            label.skip(3)
        } else {
            label
        }).map_values(|c: char| ascii_upper_char(c))),
{
    let rest = if is_prefix("on_"@, label) {
        label.skip(3)
    } else {
        label
    };
    reveal(uppercased);
    reveal_strlit("on_");
    if all_ascii(label) && is_prefix("on_"@, label) {
        let tail = label.skip(3);
        assert forall|i: int| 0 <= i < tail.len() implies (#[trigger] tail[i] as u32) < 128 by {
            assert(tail[i] == label[i + 3]);
        }
        assert(all_ascii(rest));
    }
}

/// A sequential or merge edge, or a branch edge without a label, is active
/// exactly when its source has run; a labelled branch edge whose source
/// has run but left no output is active only for a label that expects the
/// empty output.
pub proof fn lemma_plain_edge_follows_source(e: EdgeModel, outputs: Map<Seq<char>, Seq<char>>, executed: Set<Seq<char>>)
    ensures
        e.edge_type != EdgeType::Branch || e.label is None ==> (edge_active(e, outputs, executed) <==> executed.contains(e.source)),
        e.edge_type == EdgeType::Branch && e.label is Some && executed.contains(e.source) && !outputs.dom().contains(e.source)
            ==> (edge_active(e, outputs, executed) <==> label_expectation(e.label->Some_0) == Seq::<char>::empty()),
{
}

fn edge_is_active(edge: &Edge, outputs: &KeyedMap<String>, executed: &KeyedMap<()>) -> (res: bool)
    ensures
        res == edge_active(edge@, outputs.deep(), Set::new(|k: Seq<char>| executed.has(k))),
{
    if !executed.contains_key(edge.source.as_str()) {
        return false;
    }
    if edge.edge_type == EdgeType::Branch {
        match &edge.label {
            Some(label) => {
                let expected = normalize_label(label.as_str());
                let actual = match outputs.get(edge.source.as_str()) {
                    Some(s) => {
                        let t = trim(s.as_str());
                        proof {
                            reveal(uppercased);
                        }
                        to_uppercase(t.as_str())
                    },
                    None => String::new(),
                };
                return actual == expected;
            },
            None => {},
        }
    }
    true
}

/// A node runs when it has no incoming edge, or when all its incoming
/// sequential edges are active, one of its incoming branch edges (if it
/// has any) is, and one of its incoming merge edges (if it has any) is.
pub open spec fn node_active(es: Seq<EdgeModel>, id: Seq<char>, outputs: Map<Seq<char>, Seq<char>>, executed: Set<Seq<char>>) -> bool {
    (forall|i: int| !#[trigger] incoming(es, id, i)) || ((forall|i: int|
        #[trigger] incoming(es, id, i) && es[i].edge_type == EdgeType::Sequence ==> edge_active(es[i], outputs, executed))
        && ((forall|i: int| #[trigger] incoming(es, id, i) ==> es[i].edge_type != EdgeType::Branch) || exists|i: int|
        #[trigger] incoming(es, id, i) && es[i].edge_type == EdgeType::Branch && edge_active(es[i], outputs, executed))
        && ((forall|i: int| #[trigger] incoming(es, id, i) ==> es[i].edge_type != EdgeType::Merge) || exists|i: int|
        #[trigger] incoming(es, id, i) && es[i].edge_type == EdgeType::Merge && edge_active(es[i], outputs, executed)))
}

/// Edge `i` enters `id`.
pub open spec fn incoming(es: Seq<EdgeModel>, id: Seq<char>, i: int) -> bool {
    0 <= i < es.len() && es[i].target == id
}

fn node_is_active(graph: &IntentGraph, node_id: &str, outputs: &KeyedMap<String>, executed: &KeyedMap<()>) -> (res: bool)
    ensures
        res == node_active(graph@.edges, node_id@, outputs.deep(), Set::new(|k: Seq<char>| executed.has(k))),
{
    let ghost es = graph@.edges;
    let ghost ex = Set::new(|k: Seq<char>| executed.has(k));
    let ghost outs = outputs.deep();
    let mut any_incoming = false;
    let mut all_seq = true;
    let mut has_branch = false;
    let mut any_branch = false;
    let mut has_merge = false;
    let mut any_merge = false;
    for i in 0..graph.edges.len()
        invariant
            es == graph@.edges,
            ex == Set::new(|k: Seq<char>| executed.has(k)),
            outs == outputs.deep(),
            any_incoming == exists|j: int| 0 <= j < i && (#[trigger] es[j]).target == node_id@,
            all_seq == forall|j: int|
                0 <= j < i && (#[trigger] es[j]).target == node_id@ && es[j].edge_type == EdgeType::Sequence
                    ==> edge_active(es[j], outs, ex),
            has_branch == exists|j: int| 0 <= j < i && (#[trigger] es[j]).target == node_id@ && es[j].edge_type == EdgeType::Branch,
            any_branch == exists|j: int|
                0 <= j < i && (#[trigger] es[j]).target == node_id@ && es[j].edge_type == EdgeType::Branch && edge_active(
                    es[j],
                    outs,
                    ex,
                ),
            has_merge == exists|j: int| 0 <= j < i && (#[trigger] es[j]).target == node_id@ && es[j].edge_type == EdgeType::Merge,
            any_merge == exists|j: int|
                0 <= j < i && (#[trigger] es[j]).target == node_id@ && es[j].edge_type == EdgeType::Merge && edge_active(
                    es[j],
                    outs,
                    ex,
                ),
    {
        let e = &graph.edges[i];
        assert(es[i as int] == e@);
        if str_eq(e.target.as_str(), node_id) {
            any_incoming = true;
            let active = edge_is_active(e, outputs, executed);
            match e.edge_type {
                EdgeType::Sequence => {
                    if !active {
                        all_seq = false;
                    }
                },
                EdgeType::Branch => {
                    has_branch = true;
                    if active {
                        any_branch = true;
                    }
                },
                EdgeType::Merge => {
                    has_merge = true;
                    if active {
                        any_merge = true;
                    }
                },
            }
        }
    }
    if !any_incoming {
        return true;
    }
    proof {
        let j = choose|j: int| 0 <= j < es.len() && (#[trigger] es[j]).target == node_id@;
        assert(incoming(es, node_id@, j));
    }
    if !all_seq {
        proof {
            let j = choose|j: int|
                0 <= j < es.len() && (#[trigger] es[j]).target == node_id@ && es[j].edge_type == EdgeType::Sequence
                    && !edge_active(es[j], outs, ex);
            assert(incoming(es, node_id@, j));
        }
        return false;
    }
    if has_branch && !any_branch {
        proof {
            let j = choose|j: int| 0 <= j < es.len() && (#[trigger] es[j]).target == node_id@ && es[j].edge_type == EdgeType::Branch;
            assert(incoming(es, node_id@, j));
        }
        return false;
    }
    if has_merge && !any_merge {
        proof {
            let j = choose|j: int| 0 <= j < es.len() && (#[trigger] es[j]).target == node_id@ && es[j].edge_type == EdgeType::Merge;
            assert(incoming(es, node_id@, j));
        }
        return false;
    }
    proof {
        if has_branch {
            let j = choose|j: int|
                0 <= j < es.len() && (#[trigger] es[j]).target == node_id@ && es[j].edge_type == EdgeType::Branch
                    && edge_active(es[j], outs, ex);
            assert(incoming(es, node_id@, j));
        }
        if has_merge {
            let j = choose|j: int|
                0 <= j < es.len() && (#[trigger] es[j]).target == node_id@ && es[j].edge_type == EdgeType::Merge
                    && edge_active(es[j], outs, ex);
            assert(incoming(es, node_id@, j));
        }
        assert forall|i: int| #[trigger] incoming(es, node_id@, i) && es[i].edge_type == EdgeType::Sequence implies edge_active(
            es[i],
            outs,
            ex,
        ) by {
            assert(es[i].target == node_id@);
        }
        assert forall|i: int| #[trigger] incoming(es, node_id@, i) && !has_branch implies es[i].edge_type != EdgeType::Branch by {
            assert(es[i].target == node_id@);
        }
        assert forall|i: int| #[trigger] incoming(es, node_id@, i) && !has_merge implies es[i].edge_type != EdgeType::Merge by {
            assert(es[i].target == node_id@);
        }
    }
    true
}

/// A node in the surface syntax of Luck.
pub open spec fn surface_of(n: NodeModel) -> Seq<char> {
    surface_form(n.kind, n.subtype, n.node_id, n.slots)
}

/// The sources of the edges into `id`.
pub open spec fn parent_ids(es: Seq<EdgeModel>, id: Seq<char>) -> Set<Seq<char>> {
    Set::new(|p: Seq<char>| exists|i: int| #[trigger] incoming(es, id, i) && es[i].source == p)
}

/// For the first `n` parents: each parent that is a node, in surface
/// syntax, followed by `=> <output>` when it has an output.
pub open spec fn parent_parts(nodes: Map<Seq<char>, NodeModel>, parents: Seq<Seq<char>>, outputs: Map<Seq<char>, Seq<char>>, n: int) -> Seq<Seq<char>>
    decreases n,
{
    if n <= 0 {
        Seq::empty()
    } else {
        let p = parents[n - 1];
        parent_parts(nodes, parents, outputs, n - 1) + if nodes.dom().contains(p) {
            seq![surface_of(nodes[p])] + if outputs.dom().contains(p) {
                seq!["=> "@ + outputs[p]]
            } else {
                Seq::<Seq<char>>::empty()
            }
        } else {
            Seq::empty()
        }
    }
}

/// The prompt of a node: its parents (ascending, each once) with their
/// outputs, then the node itself, all in surface syntax, one part per line.
pub open spec fn prompt_of(g: GraphModel, node: NodeModel, outputs: Map<Seq<char>, Seq<char>>) -> Seq<char> {
    let ps = sorted_elements(parent_ids(g.edges, node.node_id));
    join(parent_parts(g.nodes, ps, outputs, ps.len() as int) + seq![surface_of(node)], "\n"@)
}

fn build_prompt(graph: &IntentGraph, node: &Node, outputs: &KeyedMap<String>) -> (res: String)
    requires
        graph_wf(graph@),
        slots_filled(node@.kind, node@.slots),
    ensures
        res@ == prompt_of(graph@, node@, outputs.deep()),
{
    let ghost es = graph@.edges;
    let ghost id = node@.node_id;
    let mut parents: KeyedMap<()> = KeyedMap::new();
    for i in 0..graph.edges.len()
        invariant
            es == graph@.edges,
            id == node@.node_id,
            forall|p: Seq<char>| #[trigger] parents.has(p) <==> exists|j: int| 0 <= j < i && #[trigger] incoming(es, id, j) && es[j].source == p,
    {
        let e = &graph.edges[i];
        assert(es[i as int] == e@);
        if e.target == node.node_id {
            parents.insert(e.source.clone(), ());
        }
        proof {
            assert forall|p: Seq<char>| #[trigger] parents.has(p) <==> exists|j: int| 0 <= j < i + 1 && #[trigger] incoming(es, id, j) && es[j].source == p by {
                if incoming(es, id, i as int) && es[i as int].source == p {
                    assert(0 <= i < i + 1 && incoming(es, id, i as int) && es[i as int].source == p);
                }
                if exists|j: int| 0 <= j < i + 1 && #[trigger] incoming(es, id, j) && es[j].source == p {
                    let j = choose|j: int| 0 <= j < i + 1 && #[trigger] incoming(es, id, j) && es[j].source == p;
                    if j < i {
                        assert(exists|j: int| 0 <= j < i && #[trigger] incoming(es, id, j) && es[j].source == p);
                    }
                }
            }
        }
    }
    parents.lemma_sorted();
    proof {
        assert forall|p: Seq<char>| parents.key_seq().contains(p) <==> parent_ids(es, id).contains(p) by {
            assert(parents.has(p) == parents.key_seq().contains(p));
        }
        lemma_sorted_elements(parents.key_seq(), parent_ids(es, id));
    }
    let ghost ps = parents.key_seq();
    let ghost outs = outputs.deep();
    let mut parts: Vec<String> = Vec::new();
    assert(string_views(parts@) =~= parent_parts(graph@.nodes, ps, outs, 0));
    let n = parents.len();
    for k in 0..n
        invariant
            n == ps.len(),
            ps == parents.key_seq(),
            outs == outputs.deep(),
            graph_wf(graph@),
            string_views(parts@) == parent_parts(graph@.nodes, ps, outs, k as int),
    {
        let p = parents.key_at(k);
        let ghost before = string_views(parts@);
        match graph.nodes.get(p.as_str()) {
            Some(pnode) => {
                proof {
                    assert(graph@.nodes.dom().contains(p@));
                    assert(graph@.nodes[p@] == pnode@);
                }
                parts.push(node_surface_form(pnode.kind, pnode.subtype, pnode.node_id.as_str(), &pnode.slots));
                let ghost mid = string_views(parts@);
                match outputs.get(p.as_str()) {
                    Some(out) => {
                        let mut line = owned("=> ");
                        append(&mut line, out.as_str());
                        parts.push(line);
                        assert(string_views(parts@) =~= before + (seq![surface_of(pnode@)] + seq!["=> "@ + outs[p@]]));
                    },
                    None => {
                        assert(string_views(parts@) =~= before + (seq![surface_of(pnode@)] + Seq::<Seq<char>>::empty()));
                    },
                }
            },
            None => {
                assert(string_views(parts@) =~= before + Seq::<Seq<char>>::empty());
            },
        }
        assert(string_views(parts@) =~= parent_parts(graph@.nodes, ps, outs, k + 1));
    }
    let ghost before = string_views(parts@);
    parts.push(node_surface_form(node.kind, node.subtype, node.node_id.as_str(), &node.slots));
    assert(string_views(parts@) =~= before + seq![surface_of(node@)]);
    join_strings(&parts, "\n")
}

/// A node is ready when it is unprocessed and the sources of all edges
/// into it are processed.
pub open spec fn ready(g: GraphModel, processed: Set<Seq<char>>, id: Seq<char>) -> bool {
    !processed.contains(id) && forall|i: int| #[trigger] incoming(g.edges, id, i) ==> processed.contains(g.edges[i].source)
}

/// The ready nodes among the first `n` of `ids`.
pub open spec fn ready_among(g: GraphModel, processed: Set<Seq<char>>, ids: Seq<Seq<char>>, n: int) -> Seq<Seq<char>>
    decreases n,
{
    if n <= 0 {
        Seq::empty()
    } else {
        ready_among(g, processed, ids, n - 1) + if ready(g, processed, ids[n - 1]) {
            seq![ids[n - 1]]
        } else {
            Seq::empty()
        }
    }
}

/// The ready nodes, by ascending id.
pub open spec fn ready_nodes_of(g: GraphModel, processed: Set<Seq<char>>) -> Seq<Seq<char>> {
    let ids = sorted_elements(g.nodes.dom());
    ready_among(g, processed, ids, ids.len() as int)
}

fn ready_nodes(graph: &IntentGraph, processed: &KeyedMap<()>) -> (res: Vec<String>)
    ensures
        string_views(res@) == ready_nodes_of(graph@, Set::new(|k: Seq<char>| processed.has(k))),
{
    let ghost pr = Set::new(|k: Seq<char>| processed.has(k));
    let ghost ids = graph.nodes.key_seq();
    graph.nodes.lemma_sorted();
    proof {
        assert forall|x: Seq<char>| ids.contains(x) <==> graph@.nodes.dom().contains(x) by {
            assert(graph.nodes.has(x) == ids.contains(x));
        }
        lemma_sorted_elements(ids, graph@.nodes.dom());
    }
    let mut ready_ids: Vec<String> = Vec::new();
    assert(string_views(ready_ids@) =~= ready_among(graph@, pr, ids, 0));
    let n = graph.nodes.len();
    for k in 0..n
        invariant
            n == ids.len(),
            ids == graph.nodes.key_seq(),
            pr == Set::new(|k: Seq<char>| processed.has(k)),
            string_views(ready_ids@) == ready_among(graph@, pr, ids, k as int),
    {
        let nid = graph.nodes.key_at(k);
        let ghost x = nid@;
        let mut done = processed.contains_key(nid.as_str());
        let mut all = true;
        if !done {
            for i in 0..graph.edges.len()
                invariant
                    x == nid@,
                    pr == Set::new(|k: Seq<char>| processed.has(k)),
                    all == forall|j: int| 0 <= j < i && #[trigger] incoming(graph@.edges, x, j) ==> pr.contains(graph@.edges[j].source),
            {
                let e = &graph.edges[i];
                assert(graph@.edges[i as int] == e@);
                let ghost prev_all = all;
                if e.target == *nid && !processed.contains_key(e.source.as_str()) {
                    all = false;
                }
                proof {
                    assert(pr.contains(e@.source) == processed.has(e@.source));
                    assert(incoming(graph@.edges, x, i as int) == (e@.target == x));
                    assert forall|j: int| 0 <= j < i + 1 && #[trigger] incoming(graph@.edges, x, j) && all implies pr.contains(
                        graph@.edges[j].source,
                    ) by {
                        if j < i {
                            assert(prev_all);
                        }
                    }
                    if !all && prev_all {
                        assert(incoming(graph@.edges, x, i as int) && !pr.contains(graph@.edges[i as int].source));
                    }
                }
            }
        }
        let ghost before = string_views(ready_ids@);
        if !done && all {
            ready_ids.push(nid.clone());
            assert(string_views(ready_ids@) =~= before.push(x));
        }
        proof {
            if !done && !all {
                let j = choose|j: int| 0 <= j < graph@.edges.len() && #[trigger] incoming(graph@.edges, x, j) && !pr.contains(graph@.edges[j].source);
                assert(!ready(graph@, pr, x));
            }
        }
        assert(string_views(ready_ids@) =~= ready_among(graph@, pr, ids, k + 1));
    }
    ready_ids
}

/// The nodes a SPAWN output declares: none when it does not parse.
pub open spec fn declared_nodes(output: Seq<char>) -> Seq<NodeModel> {
    if output.len() < usize::MAX {
        match fragment_parse_spec(output) {
            Ok(ns) => ns,
            Err(_) => Seq::empty(),
        }
    } else {
        Seq::empty()
    }
}

/// The graph after inserting the first `n` declared nodes (in the given
/// branch) that are not nodes yet, each with a sequential edge from the
/// spawning node, and the ids inserted.
pub open spec fn spawn_into(g: GraphModel, parent: Seq<char>, ns: Seq<NodeModel>, branch: Seq<char>, n: int) -> (GraphModel, Seq<Seq<char>>)
    decreases n,
{
    if n <= 0 {
        (g, Seq::empty())
    } else {
        let r = spawn_into(g, parent, ns, branch, n - 1);
        let nd = NodeModel { branch_id: branch, ..ns[n - 1] };
        if r.0.nodes.dom().contains(nd.node_id) {
            r
        } else {
            (
                GraphModel {
                    nodes: r.0.nodes.insert(nd.node_id, nd),
                    edges: r.0.edges.push(
                        EdgeModel { source: parent, target: nd.node_id, edge_type: EdgeType::Sequence, label: None },
                    ),
                },
                r.1.push(nd.node_id),
            )
        }
    }
}

/// Grows the graph by the nodes a SPAWN output declares.
fn spawn(
    graph: &mut IntentGraph,
    parent: &String,
    output: &str,
    spawned: &mut Vec<String>,
    branch_id: &str,
    depth: u32,
    depth_map: &mut KeyedMap<u32>,
)
    requires
        depth < u32::MAX,
        graph_wf(old(graph)@),
    ensures
        ({
            let r = spawn_into(
                old(graph)@,
                parent@,
                declared_nodes(output@),
                branch_id@,
                declared_nodes(output@).len() as int,
            );
            &&& final(graph)@ == r.0
            &&& string_views(final(spawned)@) == string_views(old(spawned)@) + r.1
            &&& forall|x: Seq<char>| #[trigger] final(depth_map).has(x) <==> old(depth_map).has(x) || r.1.contains(x)
            &&& forall|x: Seq<char>| #[trigger] r.1.contains(x) ==> final(depth_map).at(x) == depth + 1
            &&& forall|x: Seq<char>|
                #[trigger] old(depth_map).has(x) && !r.1.contains(x) ==> final(depth_map).at(x) == old(depth_map).at(x)
        }),
        graph_wf(final(graph)@),
{
    let ghost g0 = graph@;
    let ghost sp0 = string_views(spawned@);
    let ghost dm0 = *depth_map;
    let chars = to_chars(output);
    if chars.len() == usize::MAX {
        assert(declared_nodes(output@) =~= Seq::<NodeModel>::empty());
        return;
    }
    let new_nodes = match parse_fragment(output) {
        Ok(ns) => ns,
        Err(_) => {
            assert(declared_nodes(output@) =~= Seq::<NodeModel>::empty());
            return;
        },
    };
    let ghost ns = declared_nodes(output@);
    assert(ns == node_views(new_nodes@));
    let mut i: usize = 0;
    let total = new_nodes.len();
    let mut remaining = new_nodes;
    while i < total
        invariant
            ns == declared_nodes(output@),
            total == ns.len(),
            i <= total,
            remaining@.len() == total - i,
            forall|j: int| 0 <= j < remaining@.len() ==> #[trigger] remaining@[j]@ == ns[i + j],
            forall|j: int| 0 <= j < remaining@.len() ==> slots_filled(#[trigger] remaining@[j]@.kind, remaining@[j]@.slots),
            depth < u32::MAX,
            graph_wf(graph@),
            graph@ == spawn_into(g0, parent@, ns, branch_id@, i as int).0,
            string_views(spawned@) == sp0 + spawn_into(g0, parent@, ns, branch_id@, i as int).1,
            forall|x: Seq<char>| #[trigger] depth_map.has(x) <==> dm0.has(x) || spawn_into(g0, parent@, ns, branch_id@, i as int).1.contains(x),
            forall|x: Seq<char>| #[trigger] spawn_into(g0, parent@, ns, branch_id@, i as int).1.contains(x) ==> depth_map.at(x) == depth + 1,
            forall|x: Seq<char>|
                #[trigger] dm0.has(x) && !spawn_into(g0, parent@, ns, branch_id@, i as int).1.contains(x) ==> depth_map.at(x) == dm0.at(x),
        decreases total - i,
    {
        let ghost r = spawn_into(g0, parent@, ns, branch_id@, i as int);
        let ghost rem0 = remaining@;
        let mut new_node = remaining.remove(0);
        proof {
            assert(new_node@ == ns[i as int]);
            assert(slots_filled(new_node@.kind, new_node@.slots));
            assert forall|j: int| 0 <= j < remaining@.len() implies #[trigger] remaining@[j]@ == ns[i + 1 + j] by {
                assert(remaining@[j] == rem0[j + 1]);
            }
            assert forall|j: int| 0 <= j < remaining@.len() implies slots_filled(#[trigger] remaining@[j]@.kind, remaining@[j]@.slots) by {
                assert(remaining@[j] == rem0[j + 1]);
            }
        }
        new_node.branch_id = owned(branch_id);
        let ghost nd = new_node@;
        assert(nd == NodeModel { branch_id: branch_id@, ..ns[i as int] });
        if graph.nodes.contains_key(new_node.node_id.as_str()) {
            i += 1;
            continue;
        }
        let new_id = new_node.node_id.clone();
        let ghost gb = graph@;
        match graph.add_node(new_node) {
            Ok(()) => {},
            Err(_) => {},
        }
        graph.add_edge(Edge { source: parent.clone(), target: new_id.clone(), edge_type: EdgeType::Sequence, label: None });
        let ghost dmb = *depth_map;
        depth_map.insert(new_id.clone(), depth + 1);
        let ghost spb = string_views(spawned@);
        spawned.push(new_id);
        proof {
            assert(string_views(spawned@) =~= spb.push(nd.node_id));
            assert forall|id: Seq<char>| #[trigger] graph@.nodes.dom().contains(id) implies slots_filled(
                graph@.nodes[id].kind,
                graph@.nodes[id].slots,
            ) by {
                if id != nd.node_id {
                    assert(gb.nodes.dom().contains(id));
                }
            }
            let r2 = spawn_into(g0, parent@, ns, branch_id@, i + 1);
            assert(r2.1 == r.1.push(nd.node_id));
            assert forall|x: Seq<char>| #[trigger] r2.1.contains(x) <==> r.1.contains(x) || x == nd.node_id by {
                if r2.1.contains(x) {
                    let k = r2.1.index_of(x);
                    if k < r.1.len() {
                        assert(r.1[k] == x);
                    }
                }
                if r.1.contains(x) {
                    let k = r.1.index_of(x);
                    assert(r2.1[k] == x);
                }
                if x == nd.node_id {
                    assert(r2.1[r.1.len() as int] == x);
                }
            }
            assert forall|x: Seq<char>| #[trigger] r2.1.contains(x) implies depth_map.at(x) == depth + 1 by {
                if x != nd.node_id {
                    assert(r.1.contains(x));
                    assert(dmb.has(x));
                }
            }
            assert forall|x: Seq<char>| #[trigger] dm0.has(x) && !r2.1.contains(x) implies depth_map.at(x) == dm0.at(x) by {
                assert(x != nd.node_id);
                assert(!r.1.contains(x));
                assert(dmb.has(x));
            }
        }
        i += 1;
    }
    proof {
        assert(spawn_into(g0, parent@, ns, branch_id@, total as int) == spawn_into(
            g0,
            parent@,
            declared_nodes(output@),
            branch_id@,
            declared_nodes(output@).len() as int,
        ));
    }
}

proof fn lemma_spawn_grows(g: GraphModel, parent: Seq<char>, ns: Seq<NodeModel>, branch: Seq<char>, n: int)
    ensures
        g.nodes.dom().subset_of(spawn_into(g, parent, ns, branch, n).0.nodes.dom()),
        forall|i: int| 0 <= i < spawn_into(g, parent, ns, branch, n).1.len() ==> spawn_into(g, parent, ns, branch, n).0.nodes.dom().contains(
            #[trigger] spawn_into(g, parent, ns, branch, n).1[i],
        ),
        forall|x: Seq<char>|
            #[trigger] g.nodes.dom().contains(x) ==> spawn_into(g, parent, ns, branch, n).0.nodes[x] == g.nodes[x],
        forall|x: Seq<char>|
            #[trigger] spawn_into(g, parent, ns, branch, n).0.nodes.dom().contains(x) && !g.nodes.dom().contains(x)
                ==> spawn_into(g, parent, ns, branch, n).1.contains(x) && spawn_into(g, parent, ns, branch, n).0.nodes[x].branch_id
                == branch,
        spawn_into(g, parent, ns, branch, n).0.edges.take(g.edges.len() as int) == g.edges,
        g.edges.len() <= spawn_into(g, parent, ns, branch, n).0.edges.len(),
        forall|e: int|
            g.edges.len() <= e < spawn_into(g, parent, ns, branch, n).0.edges.len() ==> (#[trigger] spawn_into(
                g,
                parent,
                ns,
                branch,
                n,
            ).0.edges[e]).source == parent && !g.nodes.dom().contains(spawn_into(g, parent, ns, branch, n).0.edges[e].target),
        graph_keyed(g) ==> graph_keyed(spawn_into(g, parent, ns, branch, n).0),
    decreases n,
{
    if n > 0 {
        lemma_spawn_grows(g, parent, ns, branch, n - 1);
        let r = spawn_into(g, parent, ns, branch, n - 1);
        let r2 = spawn_into(g, parent, ns, branch, n);
        assert forall|e: int| g.edges.len() <= e < r2.0.edges.len() implies (#[trigger] r2.0.edges[e]).source == parent
            && !g.nodes.dom().contains(r2.0.edges[e].target) by {
            if e < r.0.edges.len() {
                assert(r2.0.edges[e] == r.0.edges[e]);
            }
        }
        assert forall|i: int| 0 <= i < r2.1.len() implies r2.0.nodes.dom().contains(#[trigger] r2.1[i]) by {
            if i < r.1.len() {
                assert(r2.1[i] == r.1[i]);
            }
        }
        let nd = NodeModel { branch_id: branch, ..ns[n - 1] };
        if !r.0.nodes.dom().contains(nd.node_id) {
            assert forall|x: Seq<char>| #[trigger] r2.0.nodes.dom().contains(x) && !g.nodes.dom().contains(x) implies r2.1.contains(x)
                && r2.0.nodes[x].branch_id == branch by {
                if x == nd.node_id {
                    assert(r2.1[r.1.len() as int] == x);
                } else {
                    assert(r.0.nodes.dom().contains(x));
                    let k = r.1.index_of(x);
                    assert(r2.1[k] == x);
                }
            }
            assert(r2.0.edges.take(g.edges.len() as int) =~= r.0.edges.take(g.edges.len() as int));
        }
    } else {
        assert(g.edges.take(g.edges.len() as int) =~= g.edges);
    }
}

/// Each node a SPAWN adds is new, and joined to the spawning node by a
/// sequential edge.
proof fn lemma_spawn_links(g: GraphModel, parent: Seq<char>, ns: Seq<NodeModel>, branch: Seq<char>, n: int)
    ensures
        forall|i: int|
            0 <= i < spawn_into(g, parent, ns, branch, n).1.len() ==> !g.nodes.dom().contains(
                #[trigger] spawn_into(g, parent, ns, branch, n).1[i],
            ),
        forall|i: int|
            0 <= i < spawn_into(g, parent, ns, branch, n).1.len() ==> exists|e: int|
                g.edges.len() <= e < spawn_into(g, parent, ns, branch, n).0.edges.len() && spawn_into(
                    g,
                    parent,
                    ns,
                    branch,
                    n,
                ).0.edges[e] == (EdgeModel {
                    source: parent,
                    target: #[trigger] spawn_into(g, parent, ns, branch, n).1[i],
                    edge_type: EdgeType::Sequence,
                    label: None,
                }),
    decreases n,
{
    if n > 0 {
        lemma_spawn_links(g, parent, ns, branch, n - 1);
        lemma_spawn_grows(g, parent, ns, branch, n - 1);
        let r = spawn_into(g, parent, ns, branch, n - 1);
        let r2 = spawn_into(g, parent, ns, branch, n);
        let nd = NodeModel { branch_id: branch, ..ns[n - 1] };
        if !r.0.nodes.dom().contains(nd.node_id) {
            assert forall|i: int| 0 <= i < r2.1.len() implies !g.nodes.dom().contains(#[trigger] r2.1[i]) by {
                if i < r.1.len() {
                    assert(r2.1[i] == r.1[i]);
                }
            }
            assert forall|i: int| 0 <= i < r2.1.len() implies exists|e: int|
                g.edges.len() <= e < r2.0.edges.len() && r2.0.edges[e] == (EdgeModel {
                    source: parent,
                    target: #[trigger] r2.1[i],
                    edge_type: EdgeType::Sequence,
                    label: None,
                }) by {
                if i < r.1.len() {
                    assert(r2.1[i] == r.1[i]);
                    let e = choose|e: int|
                        g.edges.len() <= e < r.0.edges.len() && r.0.edges[e] == (EdgeModel {
                            source: parent,
                            target: #[trigger] r.1[i],
                            edge_type: EdgeType::Sequence,
                            label: None,
                        });
                    assert(r2.0.edges[e] == r.0.edges[e]);
                } else {
                    assert(r2.0.edges[r.0.edges.len() as int] == (EdgeModel {
                        source: parent,
                        target: r2.1[i],
                        edge_type: EdgeType::Sequence,
                        label: None,
                    }));
                }
            }
        }
    }
}

/// The message of a fatal transport failure at a node.
pub open spec fn fatal_message(id: Seq<char>, reason: Seq<char>) -> Seq<char> {
    "фатальный сбой транспорта на узле '"@ + id + "': "@ + reason
}

/// A fatal failure the model reported at a generative node of the graph
/// that has an output grammar: the one error of a run besides a cycle.
pub open spec fn fatal_at(g: GraphModel, m: Seq<char>) -> bool {
    exists|k: Seq<char>, r: Seq<char>|
        #![trigger g.nodes.dom().contains(k), fatal_message(g.nodes[k].node_id, r)]
        g.nodes.dom().contains(k) && m == fatal_message(g.nodes[k].node_id, r) && g.nodes[k].subtype
            == Subtype::Generative && constraint_of(g.nodes[k].kind, g.nodes[k].slots) is Some
}

/// The message for nodes the traversal could not reach (a cycle).
pub open spec fn cycle_message(ids: Seq<Seq<char>>) -> Seq<char> {
    "граф содержит цикл, не разрешимый обходом: "@ + crate::parser::debug_list(ids)
}

/// What a model answer becomes: its text, a fatal error that stops the
/// run, or (any other failure) no output and a `SYNTAX` reject.
fn generation_outcome(node_id: &str, answer: Result<String, InvalidModelOutput>, rejects: &mut Vec<Node>, branch_id: &str) -> (res: Result<Option<String>, String>)
    ensures
        match answer {
            Ok(out) => res matches Ok(Some(o)) && o@ == out@ && node_views(final(rejects)@) == node_views(old(rejects)@),
            Err(e) => if e.fatal {
                res matches Err(m) && m@ == fatal_message(node_id@, e.reason@) && node_views(final(rejects)@) == node_views(
                    old(rejects)@,
                )
            } else {
                res matches Ok(None) && node_views(final(rejects)@) == node_views(old(rejects)@).push(
                    reject_node(node_id@, "SYNTAX"@, branch_id@),
                )
            },
        },
{
    match answer {
        Ok(out) => Ok(Some(out)),
        Err(e) => {
            if e.fatal {
                let mut m = owned("фатальный сбой транспорта на узле '");
                append(&mut m, node_id);
                append(&mut m, "': ");
                append(&mut m, e.reason.as_str());
                Err(m)
            } else {
                let ghost before = node_views(rejects@);
                let r = make_reject(node_id, "SYNTAX", branch_id);
                rejects.push(r);
                assert(node_views(rejects@) =~= before.push(reject_node(node_id@, "SYNTAX"@, branch_id@)));
                Ok(None)
            }
        },
    }
}

/// What a tool answer becomes: its text, or (no such tool) no output and a
/// `TYPE` reject.
fn tool_outcome(node_id: &str, answer: Option<String>, rejects: &mut Vec<Node>, branch_id: &str) -> (res: Option<String>)
    ensures
        match answer {
            Some(v) => res matches Some(o) && o@ == v@ && node_views(final(rejects)@) == node_views(old(rejects)@),
            None => res is None && node_views(final(rejects)@) == node_views(old(rejects)@).push(
                reject_node(node_id@, "TYPE"@, branch_id@),
            ),
        },
{
    match answer {
        Some(v) => Some(v),
        None => {
            let ghost before = node_views(rejects@);
            rejects.push(make_reject(node_id, "TYPE", branch_id));
            assert(node_views(rejects@) =~= before.push(reject_node(node_id@, "TYPE"@, branch_id@)));
            None
        },
    }
}

/// The tool a TOOL node calls, when its `tool` slot names one.
pub open spec fn tool_of(slots: Map<Seq<char>, SlotDataModel>) -> Option<Seq<char>> {
    if slots.dom().contains("tool"@) {
        match slots["tool"@] {
            SlotDataModel::Ident(v) => Some(v),
            _ => None,
        }
    } else {
        None
    }
}

/// The document a DOCUMENT node loads, when its `from` slot is a string.
pub open spec fn document_of(slots: Map<Seq<char>, SlotDataModel>) -> Option<Seq<char>> {
    if slots.dom().contains("from"@) {
        match slots["from"@] {
            SlotDataModel::Str(v) => Some("<document:"@ + v + ">"@),
            _ => None,
        }
    } else {
        None
    }
}

/// The first `n` argument pairs as a map from name to value without its
/// quotes; a later pair replaces an earlier one of the same name.
pub open spec fn args_map(pairs: Seq<(Seq<char>, Seq<char>)>, n: int) -> Map<Seq<char>, Seq<char>>
    decreases n,
{
    if n <= 0 {
        Map::empty()
    } else {
        args_map(pairs, n - 1).insert(pairs[n - 1].0, unquoted(pairs[n - 1].1))
    }
}

/// The arguments a TOOL node passes: those of its `args` slot, none when it
/// has no such slot.
pub open spec fn tool_args_of(slots: Map<Seq<char>, SlotDataModel>) -> Map<Seq<char>, Seq<char>> {
    if slots.dom().contains("args"@) {
        match slots["args"@] {
            SlotDataModel::Args(p) => args_map(p, p.len() as int),
            _ => Map::empty(),
        }
    } else {
        Map::empty()
    }
}

/// The arguments a TOOL node passes: its `args` pairs, values without
/// their quotes (a later pair replaces an earlier one of the same name).
fn tool_args(slots: &KeyedMap<SlotData>) -> (res: KeyedMap<String>)
    ensures
        res.deep() == tool_args_of(slots.deep()),
{
    let mut args: KeyedMap<String> = KeyedMap::new();
    assert(args.deep() =~= Map::<Seq<char>, Seq<char>>::empty());
    match slots.get("args") {
        Some(SlotData::Args(pairs)) => {
            let ghost pv = pair_views(pairs@);
            assert(slots.deep()["args"@] == SlotDataModel::Args(pv));
            for i in 0..pairs.len()
                invariant
                    pv == pair_views(pairs@),
                    args.deep() == args_map(pv, i as int),
            {
                let ghost before = args;
                let k = pairs[i].0.clone();
                let v = unquote(pairs[i].1.as_str());
                assert(pv[i as int] == (pairs@[i as int].0@, pairs@[i as int].1@));
                args.insert(k, v);
                proof {
                    lemma_deep_insert(before, args, pv[i as int].0, args.at(pv[i as int].0));
                }
            }
        },
        _ => {},
    }
    args
}

/// The scheduler: owns the model, the tools and the computation cache,
/// and bounds the growth of the graph (SPAWN depth and node count).
pub struct Scheduler<B: ModelBackend> {
    backend: B,
    tools: ToolRegistry,
    cache: ComputationCache,
    max_depth: u32,
    max_nodes: usize,
    depth: KeyedMap<u32>,
}

/// The same answers and failures of the model, and the same tool answers.
pub open spec fn same_answers<B: ModelBackend>(a: Scheduler<B>, b: Scheduler<B>) -> bool {
    &&& forall|p: Seq<char>, e: Seq<char>, k: Kind, o: Seq<char>|
        #[trigger] b.model().answers(p, e, k, o) == a.model().answers(p, e, k, o)
    &&& forall|p: Seq<char>, e: Seq<char>, k: Kind, f: bool| #[trigger] b.model().fails(p, e, k, f) == a.model().fails(p, e, k, f)
    &&& forall|t: Seq<char>, args: Map<Seq<char>, Seq<char>>, o: Seq<char>|
        #[trigger] b.tool_answers(t, args, o) == a.tool_answers(t, args, o)
}

/// An output that executing the node `n` on the prompt `pr` may give: an
/// answer of the model under the node's grammar, an answer of the node's
/// tool to its arguments, or the document it names.
pub open spec fn executed_output<B: ModelBackend>(s: Scheduler<B>, n: NodeModel, pr: Seq<char>, o: Seq<char>) -> bool {
    match n.subtype {
        Subtype::Generative => match constraint_of(n.kind, n.slots) {
            Some(c) => s.model().answers(pr, c.definition, n.kind, o),
            None => false,
        },
        Subtype::External => if n.kind == Kind::Tool {
            match tool_of(n.slots) {
                Some(t) => s.tool_answers(t, tool_args_of(n.slots), o),
                None => false,
            }
        } else {
            document_of(n.slots) == Some(o)
        },
        Subtype::Reject => false,
    }
}

proof fn lemma_same_answers_fields<B: ModelBackend>(a: Scheduler<B>, b: Scheduler<B>, c: Scheduler<B>)
    requires
        same_answers(a, b),
        b.backend == c.backend,
        b.tools == c.tools,
    ensures
        same_answers(a, c),
{
    assert(b.model() == c.model());
    assert forall|t: Seq<char>, args: Map<Seq<char>, Seq<char>>, o: Seq<char>| #[trigger] c.tool_answers(t, args, o)
        == a.tool_answers(t, args, o) by {
        assert(c.tool_answers(t, args, o) == b.tool_answers(t, args, o));
    }
}

proof fn lemma_same_answers_trans<B: ModelBackend>(a: Scheduler<B>, b: Scheduler<B>, c: Scheduler<B>)
    requires
        same_answers(a, b),
        same_answers(b, c),
    ensures
        same_answers(a, c),
{
    assert forall|p: Seq<char>, e: Seq<char>, k: Kind, o: Seq<char>| #[trigger] c.model().answers(p, e, k, o)
        == a.model().answers(p, e, k, o) by {
        assert(c.model().answers(p, e, k, o) == b.model().answers(p, e, k, o));
    }
    assert forall|p: Seq<char>, e: Seq<char>, k: Kind, f: bool| #[trigger] c.model().fails(p, e, k, f) == a.model().fails(
        p,
        e,
        k,
        f,
    ) by {
        assert(c.model().fails(p, e, k, f) == b.model().fails(p, e, k, f));
    }
    assert forall|t: Seq<char>, args: Map<Seq<char>, Seq<char>>, o: Seq<char>| #[trigger] c.tool_answers(t, args, o)
        == a.tool_answers(t, args, o) by {
        assert(c.tool_answers(t, args, o) == b.tool_answers(t, args, o));
    }
}

proof fn lemma_same_executed<B: ModelBackend>(a: Scheduler<B>, b: Scheduler<B>, n: NodeModel, pr: Seq<char>, o: Seq<char>)
    requires
        same_answers(a, b),
    ensures
        executed_output(a, n, pr, o) == executed_output(b, n, pr, o),
{
    match n.subtype {
        Subtype::Generative => match constraint_of(n.kind, n.slots) {
            Some(c) => {
                assert(b.model().answers(pr, c.definition, n.kind, o) == a.model().answers(pr, c.definition, n.kind, o));
            },
            None => {},
        },
        Subtype::External => if n.kind == Kind::Tool {
            match tool_of(n.slots) {
                Some(t) => {
                    assert(b.tool_answers(t, tool_args_of(n.slots), o) == a.tool_answers(t, tool_args_of(n.slots), o));
                },
                None => {},
            }
        },
        Subtype::Reject => {},
    }
}

/// Every cache entry was there before with the same output, or is an output
/// that executing some node on some prompt gives, stored under the digest of
/// that node's cache key and that prompt.
pub open spec fn cache_sound<B: ModelBackend>(c0: Map<Seq<char>, Seq<char>>, c: Map<Seq<char>, Seq<char>>, s: Scheduler<B>) -> bool {
    forall|k: Seq<char>|
        #[trigger] c.dom().contains(k) ==> (c0.dom().contains(k) && c[k] == c0[k]) || exists|n: NodeModel, pr: Seq<char>|
            k == digest_prefix(n.cache_key + "|"@ + pr, 16) && #[trigger] executed_output(s, n, pr, c[k])
}

impl<B: ModelBackend> Scheduler<B> {
    pub closed spec fn depth_limit(&self) -> u32 {
        self.max_depth
    }

    pub closed spec fn node_limit(&self) -> usize {
        self.max_nodes
    }

    /// The model the scheduler asks.
    pub closed spec fn model(&self) -> B {
        self.backend
    }

    pub closed spec fn tool_names(&self) -> Set<Seq<char>> {
        self.tools.names()
    }

    /// The cache hits, cache misses and tool calls counted so far.
    pub closed spec fn cache_hit_count(&self) -> u64 {
        self.cache.hit_count()
    }

    pub closed spec fn cache_miss_count(&self) -> u64 {
        self.cache.miss_count()
    }

    pub closed spec fn tool_call_count(&self) -> u64 {
        self.tools.calls()
    }

    /// The answers the tool registered as `name` may give to `args`.
    pub closed spec fn tool_answers(&self, name: Seq<char>, args: Map<Seq<char>, Seq<char>>, out: Seq<char>) -> bool {
        self.tools.answers(name, args, out)
    }

    pub closed spec fn cache_entries(&self) -> Map<Seq<char>, Seq<char>> {
        self.cache.entries()
    }

    /// A scheduler with the default limits: SPAWN depth 3, 64 nodes.
    pub fn new(backend: B, tools: ToolRegistry) -> (res: Scheduler<B>)
        ensures
            res.depth_limit() == 3,
            res.node_limit() == 64,
            res.tool_names() == tools.names(),
            res.model() == backend,
            res.cache_entries() == Map::<Seq<char>, Seq<char>>::empty(),
    {
        Scheduler {
            backend,
            tools,
            cache: ComputationCache::new(),
            max_depth: 3,
            max_nodes: 64,
            depth: KeyedMap::new(),
        }
    }

    /// The same scheduler with other limits.
    pub fn with_limits(self, max_depth: u32, max_nodes: usize) -> (res: Scheduler<B>)
        ensures
            res.depth_limit() == max_depth,
            res.node_limit() == max_nodes,
            res.tool_names() == self.tool_names(),
            res.model() == self.model(),
            res.cache_entries() == self.cache_entries(),
    {
        let mut s = self;
        s.max_depth = max_depth;
        s.max_nodes = max_nodes;
        s
    }

    /// The model.
    pub fn backend(&self) -> (res: &B)
        ensures
            *res == self.model(),
    {
        &self.backend
    }

    /// The tools.
    pub fn tools(&self) -> (res: &ToolRegistry)
        ensures
            res.names() == self.tool_names(),
    {
        &self.tools
    }

    /// Runs one node: a generative node asks the model under the node's
    /// constraint (a kind without a constraint is a `TYPE` reject); a TOOL
    /// node calls its tool (an unknown tool is a `TYPE` reject); a
    /// DOCUMENT node yields `<document:...>`; a reject node yields nothing.
    fn execute(&mut self, node: &Node, prompt: &str, result: &mut ExecutionResult, branch_id: &str) -> (res: Result<Option<String>, String>)
        ensures
            final(self).tool_names() == old(self).tool_names(),
            final(self).cache_entries() == old(self).cache_entries(),
            final(self).depth_limit() == old(self).depth_limit(),
            final(self).node_limit() == old(self).node_limit(),
            final(self).depth == old(self).depth,
            final(result).outputs == old(result).outputs,
            final(result).order == old(result).order,
            final(result).skipped == old(result).skipped,
            final(result).spawned == old(result).spawned,
            old(self).model().reliable() ==> res is Ok && final(self).model().reliable(),
            same_answers(*old(self), *final(self)),
            res matches Ok(Some(o)) ==> executed_output(*old(self), node@, prompt@, o@),
            ({
                let before = node_views(old(result).rejects@);
                let after = node_views(final(result).rejects@);
                let id = node@.node_id;
                match node.subtype {
                    Subtype::Generative => match constraint_of(node.kind, node@.slots) {
                        None => res matches Ok(None) && after == before.push(reject_node(id, "TYPE"@, branch_id@)),
                        Some(c) => (res matches Ok(Some(o)) && old(self).model().answers(prompt@, c.definition, node.kind, o@)
                            && after == before) || (res matches Err(m) && (exists|r: Seq<char>|
                            m@ == fatal_message(id, r)) && old(self).model().fails(prompt@, c.definition, node.kind, true)
                            && after == before) || (res matches Ok(None) && old(self).model().fails(
                            prompt@,
                            c.definition,
                            node.kind,
                            false,
                        ) && after == before.push(reject_node(id, "SYNTAX"@, branch_id@))),
                    },
                    Subtype::External => if node.kind == Kind::Tool {
                        match tool_of(node@.slots) {
                            None => res matches Ok(None) && after == before,
                            Some(t) => if old(self).tool_names().contains(t) {
                                res matches Ok(Some(o)) && old(self).tool_answers(t, tool_args_of(node@.slots), o@)
                                    && after == before
                            } else {
                                res matches Ok(None) && after == before.push(reject_node(id, "TYPE"@, branch_id@))
                            },
                        }
                    } else {
                        after == before && match document_of(node@.slots) {
                            Some(d) => res matches Ok(Some(o)) && o@ == d,
                            None => res matches Ok(None),
                        }
                    },
                    Subtype::Reject => res matches Ok(None) && after == before,
                }
            }),
    {
        match node.subtype {
            Subtype::Generative => {
                let constraint = match build_constraint(node.kind, &node.slots) {
                    Some(c) => c,
                    None => {
                        let ghost before = node_views(result.rejects@);
                        result.rejects.push(make_reject(node.node_id.as_str(), "TYPE", branch_id));
                        assert(node_views(result.rejects@) =~= before.push(
                            reject_node(node@.node_id, "TYPE"@, branch_id@),
                        ));
                        return Ok(None);
                    },
                };
                let answer = self.backend.generate(prompt, &constraint, node.kind, &node.slots);
                generation_outcome(node.node_id.as_str(), answer, &mut result.rejects, branch_id)
            },
            Subtype::External => {
                if node.kind == Kind::Tool {
                    let tool_name = match node.slots.get("tool") {
                        Some(SlotData::Ident(v)) => v.clone(),
                        _ => return Ok(None),
                    };
                    let args = tool_args(&node.slots);
                    let answer = self.tools.call(tool_name.as_str(), &args);
                    return Ok(tool_outcome(node.node_id.as_str(), answer, &mut result.rejects, branch_id));
                }
                match node.slots.get("from") {
                    Some(SlotData::Str(v)) => {
                        let mut d = owned("<document:");
                        append(&mut d, v.as_str());
                        append(&mut d, ">");
                        Ok(Some(d))
                    },
                    _ => Ok(None),
                }
            },
            Subtype::Reject => Ok(None),
        }
    }
}

/// The ids in `v`.
pub open spec fn listed(v: Seq<String>, x: Seq<char>) -> bool {
    string_views(v).contains(x)
}

/// What every successful run gives: every node of the final graph was
/// processed (run or skipped), run and skipped nodes, outputs and spawned
/// nodes are nodes of the graph, every output belongs to a node that ran,
/// and every reject is a reject node.
pub open spec fn run_complete(g: GraphModel, r: ExecutionResult) -> bool {
    &&& forall|x: Seq<char>| #[trigger] g.nodes.dom().contains(x) ==> listed(r.order@, x) || listed(r.skipped@, x)
    &&& forall|i: int| 0 <= i < r.order@.len() ==> g.nodes.dom().contains(#[trigger] r.order@[i]@)
    &&& forall|i: int| 0 <= i < r.skipped@.len() ==> g.nodes.dom().contains(#[trigger] r.skipped@[i]@)
    &&& forall|i: int| 0 <= i < r.spawned@.len() ==> g.nodes.dom().contains(#[trigger] r.spawned@[i]@)
    &&& forall|x: Seq<char>| #[trigger] r.outputs.has(x) ==> listed(r.order@, x)
    &&& forall|i: int| 0 <= i < r.rejects@.len() ==> (#[trigger] r.rejects@[i]).subtype == Subtype::Reject
}

/// What a run may do to a graph: the nodes it had stay as they were, its
/// edges stay first, and every node added is a spawned one, in the run's
/// branch.
pub open spec fn grown_from(g0: GraphModel, g: GraphModel, spawned: Seq<String>, branch: Seq<char>) -> bool {
    &&& forall|x: Seq<char>| #[trigger] g0.nodes.dom().contains(x) ==> g.nodes.dom().contains(x) && g.nodes[x] == g0.nodes[x]
    &&& g0.edges.len() <= g.edges.len()
    &&& g.edges.take(g0.edges.len() as int) == g0.edges
    &&& forall|x: Seq<char>|
        #[trigger] g.nodes.dom().contains(x) && !g0.nodes.dom().contains(x) ==> listed(spawned, x) && g.nodes[x].branch_id
            == branch
}

/// The spawned ids are new, and each node the graph gained is joined by a
/// sequential edge to a SPAWN node of the graph.
#[verifier::opaque]
pub open spec fn spawn_linked(g0: GraphModel, g: GraphModel, spawned: Seq<String>) -> bool {
    &&& forall|i: int| 0 <= i < spawned.len() ==> !g0.nodes.dom().contains(#[trigger] spawned[i]@)
    &&& forall|x: Seq<char>| #[trigger] g.nodes.dom().contains(x) && !g0.nodes.dom().contains(x) ==> spawned_by_edge(g, x)
}

/// The node `x` is joined by a sequential edge to a SPAWN node of `g`.
pub open spec fn spawned_by_edge(g: GraphModel, x: Seq<char>) -> bool {
    exists|e: int, k: Seq<char>|
        #![trigger incoming(g.edges, x, e), g.nodes.dom().contains(k)]
        incoming(g.edges, x, e) && g.edges[e].edge_type == EdgeType::Sequence && g.nodes.dom().contains(k)
            && g.nodes[k].kind == Kind::Spawn && g.nodes[k].node_id == g.edges[e].source
}

/// A SPAWN keeps the spawned ids new and each added node joined to a SPAWN
/// node by a sequential edge.
proof fn lemma_spawn_keeps_links(
    g0: GraphModel,
    gb: GraphModel,
    spb: Seq<String>,
    sp: Seq<String>,
    key: Seq<char>,
    ns: Seq<NodeModel>,
    branch: Seq<char>,
)
    requires
        spawn_linked(g0, gb, spb),
        g0.nodes.dom().subset_of(gb.nodes.dom()),
        gb.nodes.dom().contains(key),
        gb.nodes[key].kind == Kind::Spawn,
        string_views(sp) == string_views(spb) + spawn_into(gb, gb.nodes[key].node_id, ns, branch, ns.len() as int).1,
    ensures
        spawn_linked(g0, spawn_into(gb, gb.nodes[key].node_id, ns, branch, ns.len() as int).0, sp),
{
    reveal(spawn_linked);
    let parent = gb.nodes[key].node_id;
    let n = ns.len() as int;
    lemma_spawn_grows(gb, parent, ns, branch, n);
    lemma_spawn_links(gb, parent, ns, branch, n);
    let r = spawn_into(gb, parent, ns, branch, n);
    let g = r.0;
    assert(string_views(sp).len() == sp.len());
    assert(string_views(spb).len() == spb.len());
    assert forall|i: int| 0 <= i < sp.len() implies !g0.nodes.dom().contains(#[trigger] sp[i]@) by {
        assert(string_views(sp)[i] == sp[i]@);
        if i < spb.len() {
            assert(string_views(spb)[i] == spb[i]@);
        } else {
            assert(string_views(sp)[i] == r.1[i - spb.len()]);
        }
    }
    assert forall|x: Seq<char>| #[trigger] g.nodes.dom().contains(x) && !g0.nodes.dom().contains(x) implies spawned_by_edge(
        g,
        x,
    ) by {
        if gb.nodes.dom().contains(x) {
            assert(spawned_by_edge(gb, x));
            let (e, k) = choose|e: int, k: Seq<char>|
                #![trigger incoming(gb.edges, x, e), gb.nodes.dom().contains(k)]
                incoming(gb.edges, x, e) && gb.edges[e].edge_type == EdgeType::Sequence && gb.nodes.dom().contains(k)
                    && gb.nodes[k].kind == Kind::Spawn && gb.nodes[k].node_id == gb.edges[e].source;
            assert(g.edges.take(gb.edges.len() as int)[e] == g.edges[e]);
            assert(incoming(g.edges, x, e) && g.nodes.dom().contains(k));
        } else {
            assert(r.1.contains(x));
            let i = r.1.index_of(x);
            let e = choose|e: int|
                gb.edges.len() <= e < r.0.edges.len() && r.0.edges[e] == (EdgeModel {
                    source: parent,
                    target: #[trigger] r.1[i],
                    edge_type: EdgeType::Sequence,
                    label: None,
                });
            assert(incoming(g.edges, x, e) && g.nodes.dom().contains(key));
        }
    }
}

/// A reject the run made for the node `c`: a type error, an invalid model
/// output, or an exhausted SPAWN budget.
pub open spec fn made_reject(x: NodeModel, c: Seq<char>, branch: Seq<char>) -> bool {
    ||| x == reject_node(c, "TYPE"@, branch)
    ||| x == reject_node(c, "SYNTAX"@, branch)
    ||| x == reject_node(c, "BUDGET"@, branch)
}

/// Where a recorded reject comes from: a node of the graph that the run
/// reached, either a REJECT node passed on as it is, or a node the run made
/// a reject for.
pub open spec fn recorded_reject(g: GraphModel, order: Seq<String>, branch: Seq<char>, x: NodeModel) -> bool {
    exists|k: Seq<char>|
        #[trigger] g.nodes.dom().contains(k) && listed(order, k) && ((g.nodes[k] == x && x.subtype == Subtype::Reject)
            || made_reject(x, k, branch) || made_reject(x, g.nodes[k].node_id, branch))
}

pub open spec fn rejects_recorded(g: GraphModel, order: Seq<String>, branch: Seq<char>, rejects: Seq<Node>) -> bool {
    forall|i: int| 0 <= i < rejects.len() ==> recorded_reject(g, order, branch, #[trigger] rejects[i]@)
}

/// Recorded rejects stay recorded as the graph grows and more nodes run.
proof fn lemma_rejects_recorded_grow(
    g: GraphModel,
    g2: GraphModel,
    order: Seq<String>,
    order2: Seq<String>,
    branch: Seq<char>,
    rejects: Seq<Node>,
)
    requires
        rejects_recorded(g, order, branch, rejects),
        forall|x: Seq<char>| #[trigger] g.nodes.dom().contains(x) ==> g2.nodes.dom().contains(x) && g2.nodes[x] == g.nodes[x],
        forall|x: Seq<char>| listed(order, x) ==> listed(order2, x),
    ensures
        rejects_recorded(g2, order2, branch, rejects),
{
    assert forall|i: int| 0 <= i < rejects.len() implies recorded_reject(g2, order2, branch, #[trigger] rejects[i]@) by {
        let x = rejects[i]@;
        assert(recorded_reject(g, order, branch, x));
        let k = choose|k: Seq<char>|
            #[trigger] g.nodes.dom().contains(k) && listed(order, k) && ((g.nodes[k] == x && x.subtype == Subtype::Reject)
                || made_reject(x, k, branch) || made_reject(x, g.nodes[k].node_id, branch));
        assert(g2.nodes.dom().contains(k) && listed(order2, k));
    }
}

/// A node the run rejects for a type error: a generative kind without an
/// output grammar, or a TOOL node whose tool is not registered.
pub open spec fn type_rejected(n: NodeModel, tools: Set<Seq<char>>) -> bool {
    ||| n.subtype == Subtype::Generative && constraint_of(n.kind, n.slots) is None
    ||| n.subtype == Subtype::External && n.kind == Kind::Tool && (tool_of(n.slots) matches Some(t) && !tools.contains(t))
}

/// A generative node with an output grammar on which the model may fail
/// without its failure being fatal.
pub open spec fn syntax_rejected<B: ModelBackend>(n: NodeModel, m: B) -> bool {
    n.subtype == Subtype::Generative && (constraint_of(n.kind, n.slots) matches Some(c) && exists|pr: Seq<char>|
        #[trigger] m.fails(pr, c.definition, n.kind, false))
}

/// A reject the run made for the node `n` (named `c`), with its cause: a
/// type error, a non-fatal failure of the model, or a SPAWN node over its
/// budget.
pub open spec fn caused_reject<B: ModelBackend>(
    x: NodeModel,
    c: Seq<char>,
    n: NodeModel,
    branch: Seq<char>,
    m: B,
    tools: Set<Seq<char>>,
) -> bool {
    ||| x == reject_node(c, "TYPE"@, branch) && type_rejected(n, tools)
    ||| x == reject_node(c, "SYNTAX"@, branch) && syntax_rejected(n, m)
    ||| x == reject_node(c, "BUDGET"@, branch) && n.kind == Kind::Spawn
}

/// A recorded reject and its cause: a REJECT node the run reached, passed
/// on as it is; or a reject the run made, with its cause, for a node it
/// reached.
pub open spec fn reject_caused<B: ModelBackend>(
    g: GraphModel,
    order: Seq<String>,
    branch: Seq<char>,
    m: B,
    tools: Set<Seq<char>>,
    x: NodeModel,
) -> bool {
    exists|k: Seq<char>|
        #[trigger] g.nodes.dom().contains(k) && listed(order, k) && ((g.nodes[k] == x && x.subtype == Subtype::Reject)
            || caused_reject(x, k, g.nodes[k], branch, m, tools) || caused_reject(
            x,
            g.nodes[k].node_id,
            g.nodes[k],
            branch,
            m,
            tools,
        ))
}

/// Every reject has its cause.
pub open spec fn rejects_caused<B: ModelBackend>(
    g: GraphModel,
    order: Seq<String>,
    branch: Seq<char>,
    m: B,
    tools: Set<Seq<char>>,
    rejects: Seq<Node>,
) -> bool {
    forall|i: int| 0 <= i < rejects.len() ==> reject_caused(g, order, branch, m, tools, #[trigger] rejects[i]@)
}

proof fn lemma_rejects_caused_grow<B: ModelBackend>(
    g: GraphModel,
    g2: GraphModel,
    order: Seq<String>,
    order2: Seq<String>,
    branch: Seq<char>,
    m: B,
    tools: Set<Seq<char>>,
    rejects: Seq<Node>,
)
    requires
        rejects_caused(g, order, branch, m, tools, rejects),
        forall|x: Seq<char>| #[trigger] g.nodes.dom().contains(x) ==> g2.nodes.dom().contains(x) && g2.nodes[x] == g.nodes[x],
        forall|x: Seq<char>| listed(order, x) ==> listed(order2, x),
    ensures
        rejects_caused(g2, order2, branch, m, tools, rejects),
{
    assert forall|i: int| 0 <= i < rejects.len() implies reject_caused(g2, order2, branch, m, tools, #[trigger] rejects[i]@) by {
        let x = rejects[i]@;
        assert(reject_caused(g, order, branch, m, tools, x));
        let k = choose|k: Seq<char>|
            #[trigger] g.nodes.dom().contains(k) && listed(order, k) && ((g.nodes[k] == x && x.subtype == Subtype::Reject)
                || caused_reject(x, k, g.nodes[k], branch, m, tools) || caused_reject(
                x,
                g.nodes[k].node_id,
                g.nodes[k],
                branch,
                m,
                tools,
            ));
        assert(g2.nodes.dom().contains(k) && listed(order2, k));
    }
}

/// Why a node that ran gives no output: it is a REJECT node, a type error,
/// a node on which the model may fail, a TOOL node naming no tool, or a
/// DOCUMENT node naming no document.
pub open spec fn silent<B: ModelBackend>(n: NodeModel, m: B, tools: Set<Seq<char>>) -> bool {
    ||| n.subtype == Subtype::Reject
    ||| type_rejected(n, tools)
    ||| syntax_rejected(n, m)
    ||| n.subtype == Subtype::External && n.kind == Kind::Tool && tool_of(n.slots) is None
    ||| n.subtype == Subtype::External && n.kind != Kind::Tool && document_of(n.slots) is None
}

/// Every node that ran has an output, unless it is silent.
pub open spec fn outputs_made<B: ModelBackend>(g: GraphModel, r: ExecutionResult, m: B, tools: Set<Seq<char>>) -> bool {
    forall|i: int|
        0 <= i < r.order@.len() ==> r.outputs.has(#[trigger] r.order@[i]@) || silent(g.nodes[r.order@[i]@], m, tools)
}

/// Each node is listed once: run or skipped, not both, not twice.
pub open spec fn listed_once(r: ExecutionResult) -> bool {
    &&& string_views(r.order@).no_duplicates()
    &&& string_views(r.skipped@).no_duplicates()
    &&& forall|x: Seq<char>| !(listed(r.order@, x) && listed(r.skipped@, x))
}

/// Parents run first: a node that ran came after each of its parents that
/// ran.
pub open spec fn parents_first(g: GraphModel, order: Seq<String>) -> bool {
    forall|i: int, j: int, e: int|
        #![trigger incoming(g.edges, order[i]@, e), order[j]]
        0 <= i < order.len() && 0 <= j < order.len() && incoming(g.edges, order[i]@, e) && order[j]@
            == g.edges[e].source ==> j < i
}

/// The processed nodes are closed under parents: a node is processed only
/// after all its parents are.
pub open spec fn closed_under_parents(g: GraphModel, processed: KeyedMap<()>) -> bool {
    forall|x: Seq<char>, e: int| processed.has(x) && #[trigger] incoming(g.edges, x, e) ==> processed.has(g.edges[e].source)
}

/// Appending a node whose parents were all processed, and which was not,
/// keeps parents first.
proof fn lemma_parents_first_push(g: GraphModel, order: Seq<String>, pb: KeyedMap<()>, x: String, order2: Seq<String>)
    requires
        parents_first(g, order),
        closed_under_parents(g, pb),
        forall|y: Seq<char>| listed(order, y) ==> pb.has(y),
        !pb.has(x@),
        forall|e: int| #[trigger] incoming(g.edges, x@, e) ==> pb.has(g.edges[e].source),
        order2 == order.push(x),
    ensures
        parents_first(g, order2),
{
    let n = order.len() as int;
    assert forall|i: int, j: int, e: int|
        0 <= i < order2.len() && 0 <= j < order2.len() && #[trigger] incoming(g.edges, order2[i]@, e) && #[trigger] order2[j]@
            == g.edges[e].source implies j < i by {
        if i == n {
            if j == n {
                assert(pb.has(g.edges[e].source));
            }
        } else {
            assert(order2[i] == order[i]);
            assert(string_views(order)[i] == order[i]@);
            assert(listed(order, order[i]@));
            assert(pb.has(order[i]@));
            if j == n {
                assert(pb.has(g.edges[e].source));
            } else {
                assert(order2[j] == order[j]);
            }
        }
    }
}

/// When a graph grows only by edges into new nodes, nothing changes for the
/// nodes it had: their parents stay the same.
proof fn lemma_old_incoming(gb: GraphModel, g: GraphModel, x: Seq<char>, e: int)
    requires
        gb.edges.len() <= g.edges.len(),
        g.edges.take(gb.edges.len() as int) == gb.edges,
        forall|k: int| gb.edges.len() <= k < g.edges.len() ==> !gb.nodes.dom().contains(#[trigger] g.edges[k].target),
        gb.nodes.dom().contains(x),
        incoming(g.edges, x, e),
    ensures
        incoming(gb.edges, x, e),
        g.edges[e] == gb.edges[e],
{
    if e >= gb.edges.len() {
        assert(!gb.nodes.dom().contains(g.edges[e].target));
    }
    assert(g.edges.take(gb.edges.len() as int)[e] == g.edges[e]);
}

/// Growing the graph by edges into new nodes keeps parents first, the
/// processed nodes closed under parents, and the parents of the nodes about
/// to run processed.
proof fn lemma_grow_keeps_parents(
    gb: GraphModel,
    g: GraphModel,
    r: ExecutionResult,
    processed: KeyedMap<()>,
    ready: Seq<String>,
)
    requires
        gb.edges.len() <= g.edges.len(),
        g.edges.take(gb.edges.len() as int) == gb.edges,
        forall|k: int| gb.edges.len() <= k < g.edges.len() ==> !gb.nodes.dom().contains(#[trigger] g.edges[k].target),
        forall|x: Seq<char>| #[trigger] processed.has(x) <==> listed(r.order@, x) || listed(r.skipped@, x),
        forall|i: int| 0 <= i < r.order@.len() ==> gb.nodes.dom().contains(#[trigger] r.order@[i]@),
        forall|i: int| 0 <= i < r.skipped@.len() ==> gb.nodes.dom().contains(#[trigger] r.skipped@[i]@),
        forall|j: int| 0 <= j < ready.len() ==> gb.nodes.dom().contains(#[trigger] ready[j]@),
        closed_under_parents(gb, processed),
        parents_first(gb, r.order@),
        forall|j: int, e: int| 0 <= j < ready.len() && #[trigger] incoming(gb.edges, ready[j]@, e) ==> processed.has(gb.edges[e].source),
    ensures
        closed_under_parents(g, processed),
        parents_first(g, r.order@),
        forall|j: int, e: int| 0 <= j < ready.len() && #[trigger] incoming(g.edges, ready[j]@, e) ==> processed.has(g.edges[e].source),
{
    assert forall|x: Seq<char>, e: int| processed.has(x) && #[trigger] incoming(g.edges, x, e) implies processed.has(
        g.edges[e].source,
    ) by {
        if listed(r.order@, x) {
            let q = string_views(r.order@).index_of(x);
            assert(r.order@[q]@ == x);
        } else {
            let q = string_views(r.skipped@).index_of(x);
            assert(r.skipped@[q]@ == x);
        }
        lemma_old_incoming(gb, g, x, e);
    }
    let order = r.order@;
    assert forall|i: int, j: int, e: int|
        0 <= i < order.len() && 0 <= j < order.len() && #[trigger] incoming(g.edges, order[i]@, e) && #[trigger] order[j]@
            == g.edges[e].source implies j < i by {
        lemma_old_incoming(gb, g, order[i]@, e);
    }
    assert forall|j: int, e: int| 0 <= j < ready.len() && #[trigger] incoming(g.edges, ready[j]@, e) implies processed.has(
        g.edges[e].source,
    ) by {
        lemma_old_incoming(gb, g, ready[j]@, e);
    }
}

/// The key a node's output is cached under: the first 16 hexadecimal digits
/// of the digest of its cache key, a bar, and its prompt. No branch enters it.
pub open spec fn composite_key(g: GraphModel, node: NodeModel, outputs: Map<Seq<char>, Seq<char>>) -> Seq<char> {
    digest_prefix(node.cache_key + "|"@ + prompt_of(g, node, outputs), 16)
}

/// Every output is the one cached under its node's composite key.
pub open spec fn outputs_cached(g: GraphModel, outputs: Map<Seq<char>, Seq<char>>, cache: Map<Seq<char>, Seq<char>>) -> bool {
    forall|x: Seq<char>| #[trigger]
        outputs.dom().contains(x) ==> cache.dom().contains(composite_key(g, g.nodes[x], outputs)) && cache[composite_key(
            g,
            g.nodes[x],
            outputs,
        )] == outputs[x]
}

/// What was cached stays cached, with the same output.
pub open spec fn cache_kept(before: Map<Seq<char>, Seq<char>>, after: Map<Seq<char>, Seq<char>>) -> bool {
    forall|k: Seq<char>| #[trigger] before.dom().contains(k) ==> after.dom().contains(k) && after[k] == before[k]
}

/// Two graphs and two output maps agree at `p`.
pub open spec fn agree_at(
    n1: Map<Seq<char>, NodeModel>,
    n2: Map<Seq<char>, NodeModel>,
    o1: Map<Seq<char>, Seq<char>>,
    o2: Map<Seq<char>, Seq<char>>,
    p: Seq<char>,
) -> bool {
    &&& n1.dom().contains(p) == n2.dom().contains(p)
    &&& n1.dom().contains(p) ==> n1[p] == n2[p]
    &&& o1.dom().contains(p) == o2.dom().contains(p)
    &&& o1.dom().contains(p) ==> o1[p] == o2[p]
}

/// Identical computations are shared. The cache key of a node holds no
/// branch, and a run records every output under its node's cache key and
/// prompt, keeping what was cached before. So two nodes with the same cache
/// key and the same prompt, in one run or in two runs of one scheduler, on
/// any branches, get the same output.
pub proof fn lemma_identical_computations_shared(
    g1: GraphModel,
    o1: Map<Seq<char>, Seq<char>>,
    c1: Map<Seq<char>, Seq<char>>,
    g2: GraphModel,
    o2: Map<Seq<char>, Seq<char>>,
    c2: Map<Seq<char>, Seq<char>>,
    x1: Seq<char>,
    x2: Seq<char>,
)
    requires
        outputs_cached(g1, o1, c1),
        outputs_cached(g2, o2, c2),
        cache_kept(c1, c2),
        o1.dom().contains(x1),
        o2.dom().contains(x2),
        g1.nodes[x1].cache_key == g2.nodes[x2].cache_key,
        prompt_of(g1, g1.nodes[x1], o1) == prompt_of(g2, g2.nodes[x2], o2),
    ensures
        o1[x1] == o2[x2],
{
    assert(composite_key(g1, g1.nodes[x1], o1) == composite_key(g2, g2.nodes[x2], o2));
}

proof fn lemma_parent_ids_finite(es: Seq<EdgeModel>, id: Seq<char>)
    ensures
        parent_ids(es, id).finite(),
{
    let sources = es.map_values(|e: EdgeModel| e.source);
    let all = sources.to_set();
    assert forall|p: Seq<char>| parent_ids(es, id).contains(p) implies all.contains(p) by {
        let i = choose|i: int| #[trigger] incoming(es, id, i) && es[i].source == p;
        assert(sources[i] == p);
        assert(sources.contains(p));
    }
    vstd::seq_lib::seq_to_set_is_finite(sources);
    vstd::set_lib::lemma_len_subset(parent_ids(es, id), all);
}

proof fn lemma_parent_parts_agree(
    n1: Map<Seq<char>, NodeModel>,
    n2: Map<Seq<char>, NodeModel>,
    ps: Seq<Seq<char>>,
    o1: Map<Seq<char>, Seq<char>>,
    o2: Map<Seq<char>, Seq<char>>,
    n: int,
)
    requires
        n <= ps.len(),
        forall|i: int| 0 <= i < n ==> #[trigger] agree_at(n1, n2, o1, o2, ps[i]),
    ensures
        parent_parts(n1, ps, o1, n) == parent_parts(n2, ps, o2, n),
    decreases n,
{
    if n > 0 {
        lemma_parent_parts_agree(n1, n2, ps, o1, o2, n - 1);
        assert(agree_at(n1, n2, o1, o2, ps[n - 1]));
    }
}

/// A node's prompt depends only on its parents and their outputs.
proof fn lemma_prompt_agree(
    g1: GraphModel,
    g2: GraphModel,
    node: NodeModel,
    o1: Map<Seq<char>, Seq<char>>,
    o2: Map<Seq<char>, Seq<char>>,
)
    requires
        parent_ids(g1.edges, node.node_id) == parent_ids(g2.edges, node.node_id),
        forall|p: Seq<char>|
            #[trigger] parent_ids(g1.edges, node.node_id).contains(p) ==> agree_at(g1.nodes, g2.nodes, o1, o2, p),
    ensures
        prompt_of(g1, node, o1) == prompt_of(g2, node, o2),
{
    let s = parent_ids(g1.edges, node.node_id);
    lemma_parent_ids_finite(g1.edges, node.node_id);
    lemma_sorted_elements_exist(s);
    let ps = sorted_elements(s);
    assert forall|i: int| 0 <= i < ps.len() implies #[trigger] agree_at(g1.nodes, g2.nodes, o1, o2, ps[i]) by {
        assert(ps.contains(ps[i]));
        assert(s.contains(ps[i]));
    }
    lemma_parent_parts_agree(g1.nodes, g2.nodes, ps, o1, o2, ps.len() as int);
}

/// Recording the output of the node that ran last keeps every output the
/// cached one: it is no parent of a node that ran before it, nor its own.
proof fn lemma_output_cached(
    g: GraphModel,
    order: Seq<String>,
    o: Map<Seq<char>, Seq<char>>,
    c: Map<Seq<char>, Seq<char>>,
    c2: Map<Seq<char>, Seq<char>>,
    y: Seq<char>,
    v: Seq<char>,
)
    requires
        graph_keyed(g),
        outputs_cached(g, o, c),
        parents_first(g, order),
        order.len() > 0,
        order.last()@ == y,
        !listed(order.drop_last(), y),
        forall|x: Seq<char>| #[trigger] o.dom().contains(x) ==> listed(order.drop_last(), x),
        forall|i: int| 0 <= i < order.len() ==> g.nodes.dom().contains(#[trigger] order[i]@),
        forall|e: int| #[trigger] incoming(g.edges, y, e) ==> g.edges[e].source != y,
        cache_kept(c, c2),
        c2.dom().contains(composite_key(g, g.nodes[y], o)),
        c2[composite_key(g, g.nodes[y], o)] == v,
    ensures
        outputs_cached(g, o.insert(y, v), c2),
{
    let o2 = o.insert(y, v);
    let last = order.len() - 1;
    assert forall|x: Seq<char>| #[trigger] o2.dom().contains(x) implies c2.dom().contains(composite_key(g, g.nodes[x], o2))
        && c2[composite_key(g, g.nodes[x], o2)] == o2[x] by {
        if x == y {
            assert(g.nodes.dom().contains(order[last]@));
            assert forall|p: Seq<char>| #[trigger] parent_ids(g.edges, g.nodes[x].node_id).contains(p) implies agree_at(
                g.nodes,
                g.nodes,
                o2,
                o,
                p,
            ) by {
                let e = choose|e: int| #[trigger] incoming(g.edges, g.nodes[x].node_id, e) && g.edges[e].source == p;
                assert(incoming(g.edges, y, e));
            }
            lemma_prompt_agree(g, g, g.nodes[x], o2, o);
        } else {
            assert(o.dom().contains(x));
            assert(listed(order.drop_last(), x));
            let i = string_views(order.drop_last()).index_of(x);
            assert(order.drop_last()[i]@ == x);
            assert(order[i] == order.drop_last()[i]);
            assert(g.nodes.dom().contains(order[i]@));
            assert forall|p: Seq<char>| #[trigger] parent_ids(g.edges, g.nodes[x].node_id).contains(p) implies agree_at(
                g.nodes,
                g.nodes,
                o2,
                o,
                p,
            ) by {
                let e = choose|e: int| #[trigger] incoming(g.edges, g.nodes[x].node_id, e) && g.edges[e].source == p;
                if p == y {
                    assert(incoming(g.edges, order[i]@, e));
                    assert(order[last]@ == g.edges[e].source);
                    assert(last < i);
                }
            }
            lemma_prompt_agree(g, g, g.nodes[x], o2, o);
        }
    }
}

/// Growing the graph by edges into new nodes changes no prompt of a node
/// that ran, since its parents were all processed nodes.
proof fn lemma_cached_grow(
    gb: GraphModel,
    g: GraphModel,
    processed: KeyedMap<()>,
    o: Map<Seq<char>, Seq<char>>,
    c: Map<Seq<char>, Seq<char>>,
)
    requires
        graph_keyed(gb),
        gb.edges.len() <= g.edges.len(),
        g.edges.take(gb.edges.len() as int) == gb.edges,
        forall|k: int| gb.edges.len() <= k < g.edges.len() ==> !gb.nodes.dom().contains(#[trigger] g.edges[k].target),
        forall|x: Seq<char>| #[trigger] gb.nodes.dom().contains(x) ==> g.nodes.dom().contains(x) && g.nodes[x] == gb.nodes[x],
        closed_under_parents(gb, processed),
        forall|x: Seq<char>| #[trigger] processed.has(x) ==> gb.nodes.dom().contains(x),
        forall|x: Seq<char>| #[trigger] o.dom().contains(x) ==> processed.has(x),
        outputs_cached(gb, o, c),
    ensures
        outputs_cached(g, o, c),
{
    assert forall|x: Seq<char>| #[trigger] o.dom().contains(x) implies c.dom().contains(composite_key(g, g.nodes[x], o))
        && c[composite_key(g, g.nodes[x], o)] == o[x] by {
        assert(processed.has(x));
        assert(gb.nodes.dom().contains(x));
        let nd = gb.nodes[x];
        assert(g.nodes[x] == nd);
        assert(nd.node_id == x);
        assert(parent_ids(g.edges, x) =~= parent_ids(gb.edges, x)) by {
            assert forall|p: Seq<char>| parent_ids(g.edges, x).contains(p) implies parent_ids(gb.edges, x).contains(p) by {
                let e = choose|e: int| #[trigger] incoming(g.edges, x, e) && g.edges[e].source == p;
                lemma_old_incoming(gb, g, x, e);
                assert(incoming(gb.edges, x, e));
            }
            assert forall|p: Seq<char>| parent_ids(gb.edges, x).contains(p) implies parent_ids(g.edges, x).contains(p) by {
                let e = choose|e: int| #[trigger] incoming(gb.edges, x, e) && gb.edges[e].source == p;
                assert(g.edges.take(gb.edges.len() as int)[e] == g.edges[e]);
                assert(incoming(g.edges, x, e));
            }
        }
        assert forall|p: Seq<char>| #[trigger] parent_ids(g.edges, nd.node_id).contains(p) implies agree_at(
            g.nodes,
            gb.nodes,
            o,
            o,
            p,
        ) by {
            assert(parent_ids(gb.edges, x).contains(p));
            let e = choose|e: int| #[trigger] incoming(gb.edges, x, e) && gb.edges[e].source == p;
            assert(processed.has(p));
            assert(gb.nodes.dom().contains(p));
        }
        lemma_prompt_agree(g, gb, nd, o, o);
    }
}

/// Each node the run reached was run or skipped as its incoming edges,
/// read on the outputs of the run, decide: a skipped node was inactive, and
/// a node that ran, unless it is a reject node, was active.
pub open spec fn routed(g: GraphModel, r: ExecutionResult) -> bool {
    &&& forall|i: int|
        0 <= i < r.skipped@.len() ==> !node_active(
            g.edges,
            #[trigger] r.skipped@[i]@,
            r.outputs.deep(),
            r.outputs.deep().dom(),
        )
    &&& forall|i: int|
        0 <= i < r.order@.len() && g.nodes[r.order@[i]@].subtype != Subtype::Reject ==> node_active(
            g.edges,
            #[trigger] r.order@[i]@,
            r.outputs.deep(),
            r.outputs.deep().dom(),
        )
}

/// In a run's result, a node that ran (other than a reject marker) and has
/// incoming branch edges was reached through one of them: the edge's
/// source ran and has an output, and, when the edge is labelled, that
/// output, trimmed and uppercased, is the label without its `on_` prefix,
/// uppercased. A skipped node none of whose incoming edges is a branch or
/// merge edge had an incoming sequential edge whose source did not run.
pub proof fn lemma_run_follows_branches(g: GraphModel, r: ExecutionResult, i: int)
    requires
        routed(g, r),
    ensures
        0 <= i < r.order@.len() && g.nodes[r.order@[i]@].subtype != Subtype::Reject && (exists|e: int|
            #[trigger] incoming(g.edges, r.order@[i]@, e) && g.edges[e].edge_type == EdgeType::Branch) ==> exists|e: int|
            #[trigger] incoming(g.edges, r.order@[i]@, e) && g.edges[e].edge_type == EdgeType::Branch && r.outputs.deep().dom().contains(
                g.edges[e].source,
            ) && (g.edges[e].label matches Some(l) ==> upper_of(trim_seq(r.outputs.deep()[g.edges[e].source])) == upper_of(
                if is_prefix("on_"@, l) {
                    l.skip(3)
                } else {
                    l
                },
            )),
        0 <= i < r.skipped@.len() && (forall|e: int|
            #[trigger] incoming(g.edges, r.skipped@[i]@, e) ==> g.edges[e].edge_type == EdgeType::Sequence) ==> exists|e: int|
            #[trigger] incoming(g.edges, r.skipped@[i]@, e) && !r.outputs.deep().dom().contains(g.edges[e].source),
{
    let outs = r.outputs.deep();
    if 0 <= i < r.order@.len() && g.nodes[r.order@[i]@].subtype != Subtype::Reject && (exists|e: int|
        #[trigger] incoming(g.edges, r.order@[i]@, e) && g.edges[e].edge_type == EdgeType::Branch) {
        let x = r.order@[i]@;
        assert(node_active(g.edges, x, outs, outs.dom()));
        let e0 = choose|e: int| #[trigger] incoming(g.edges, x, e) && g.edges[e].edge_type == EdgeType::Branch;
        assert(incoming(g.edges, x, e0));
        let e = choose|e: int|
            #[trigger] incoming(g.edges, x, e) && g.edges[e].edge_type == EdgeType::Branch && edge_active(g.edges[e], outs, outs.dom());
        match g.edges[e].label {
            Some(l) => {
                lemma_branch_edge_follows_output(g.edges[e], outs, outs.dom(), l);
            },
            None => {},
        }
    }
    if 0 <= i < r.skipped@.len() && (forall|e: int| #[trigger] incoming(g.edges, r.skipped@[i]@, e) ==> g.edges[e].edge_type == EdgeType::Sequence) {
        let x = r.skipped@[i]@;
        assert(!node_active(g.edges, x, outs, outs.dom()));
    }
}

/// An output recorded for a node that is no parent of `x` leaves `x` as
/// active or inactive as it was.
proof fn lemma_active_new_output(
    es: Seq<EdgeModel>,
    x: Seq<char>,
    outs: Map<Seq<char>, Seq<char>>,
    y: Seq<char>,
    v: Seq<char>,
)
    requires
        forall|i: int| #[trigger] incoming(es, x, i) ==> es[i].source != y,
    ensures
        node_active(es, x, outs.insert(y, v), outs.insert(y, v).dom()) == node_active(es, x, outs, outs.dom()),
{
    let o2 = outs.insert(y, v);
    assert forall|i: int| #[trigger] incoming(es, x, i) implies edge_active(es[i], o2, o2.dom()) == edge_active(
        es[i],
        outs,
        outs.dom(),
    ) by {
        assert(es[i].source != y);
        assert(o2.dom().contains(es[i].source) == outs.dom().contains(es[i].source));
    }
}

/// Edges into new nodes leave every node the graph had as active or
/// inactive as it was.
proof fn lemma_active_grow(
    gb: GraphModel,
    g: GraphModel,
    x: Seq<char>,
    outs: Map<Seq<char>, Seq<char>>,
    ex: Set<Seq<char>>,
)
    requires
        gb.edges.len() <= g.edges.len(),
        g.edges.take(gb.edges.len() as int) == gb.edges,
        forall|k: int| gb.edges.len() <= k < g.edges.len() ==> !gb.nodes.dom().contains(#[trigger] g.edges[k].target),
        gb.nodes.dom().contains(x),
    ensures
        node_active(g.edges, x, outs, ex) == node_active(gb.edges, x, outs, ex),
{
    assert forall|i: int|
        #![trigger incoming(g.edges, x, i)]
        #![trigger incoming(gb.edges, x, i)]
        incoming(g.edges, x, i) <==> incoming(gb.edges, x, i) by {
        if incoming(g.edges, x, i) {
            lemma_old_incoming(gb, g, x, i);
        }
        if incoming(gb.edges, x, i) {
            assert(g.edges.take(gb.edges.len() as int)[i] == g.edges[i]);
        }
    }
    assert forall|i: int|
        #![trigger incoming(g.edges, x, i)]
        #![trigger incoming(gb.edges, x, i)]
        incoming(gb.edges, x, i) implies g.edges[i] == gb.edges[i] by {
        assert(g.edges.take(gb.edges.len() as int)[i] == g.edges[i]);
    }
    let (a, b) = (g.edges, gb.edges);
    assert((forall|i: int| !#[trigger] incoming(a, x, i)) == (forall|i: int| !#[trigger] incoming(b, x, i)));
    assert((forall|i: int|
        #[trigger] incoming(a, x, i) && a[i].edge_type == EdgeType::Sequence ==> edge_active(a[i], outs, ex)) == (forall|i: int|
        #[trigger] incoming(b, x, i) && b[i].edge_type == EdgeType::Sequence ==> edge_active(b[i], outs, ex)));
    assert((forall|i: int| #[trigger] incoming(a, x, i) ==> a[i].edge_type != EdgeType::Branch) == (forall|i: int|
        #[trigger] incoming(b, x, i) ==> b[i].edge_type != EdgeType::Branch));
    assert((exists|i: int| #[trigger] incoming(a, x, i) && a[i].edge_type == EdgeType::Branch && edge_active(a[i], outs, ex))
        == (exists|i: int| #[trigger] incoming(b, x, i) && b[i].edge_type == EdgeType::Branch && edge_active(b[i], outs, ex)));
    assert((forall|i: int| #[trigger] incoming(a, x, i) ==> a[i].edge_type != EdgeType::Merge) == (forall|i: int|
        #[trigger] incoming(b, x, i) ==> b[i].edge_type != EdgeType::Merge));
    assert((exists|i: int| #[trigger] incoming(a, x, i) && a[i].edge_type == EdgeType::Merge && edge_active(a[i], outs, ex))
        == (exists|i: int| #[trigger] incoming(b, x, i) && b[i].edge_type == EdgeType::Merge && edge_active(b[i], outs, ex)));
}

proof fn lemma_routed_grow(gb: GraphModel, g: GraphModel, r: ExecutionResult)
    requires
        gb.edges.len() <= g.edges.len(),
        g.edges.take(gb.edges.len() as int) == gb.edges,
        forall|k: int| gb.edges.len() <= k < g.edges.len() ==> !gb.nodes.dom().contains(#[trigger] g.edges[k].target),
        forall|x: Seq<char>| #[trigger] gb.nodes.dom().contains(x) ==> g.nodes.dom().contains(x) && g.nodes[x] == gb.nodes[x],
        forall|i: int| 0 <= i < r.order@.len() ==> gb.nodes.dom().contains(#[trigger] r.order@[i]@),
        forall|i: int| 0 <= i < r.skipped@.len() ==> gb.nodes.dom().contains(#[trigger] r.skipped@[i]@),
        routed(gb, r),
    ensures
        routed(g, r),
{
    let outs = r.outputs.deep();
    assert forall|i: int| 0 <= i < r.skipped@.len() implies !node_active(g.edges, #[trigger] r.skipped@[i]@, outs, outs.dom()) by {
        lemma_active_grow(gb, g, r.skipped@[i]@, outs, outs.dom());
    }
    assert forall|i: int| 0 <= i < r.order@.len() && g.nodes[r.order@[i]@].subtype != Subtype::Reject implies node_active(
        g.edges,
        #[trigger] r.order@[i]@,
        outs,
        outs.dom(),
    ) by {
        lemma_active_grow(gb, g, r.order@[i]@, outs, outs.dom());
    }
}

proof fn lemma_routed_output(g: GraphModel, r: ExecutionResult, r2: ExecutionResult, y: Seq<char>, v: Seq<char>)
    requires
        routed(g, r),
        r2.order@ == r.order@,
        r2.skipped@ == r.skipped@,
        r2.outputs.deep() == r.outputs.deep().insert(y, v),
        forall|x: Seq<char>, i: int|
            (listed(r.order@, x) || listed(r.skipped@, x)) && #[trigger] incoming(g.edges, x, i) ==> g.edges[i].source != y,
    ensures
        routed(g, r2),
{
    let outs = r.outputs.deep();
    assert forall|i: int| 0 <= i < r2.skipped@.len() implies !node_active(
        g.edges,
        #[trigger] r2.skipped@[i]@,
        r2.outputs.deep(),
        r2.outputs.deep().dom(),
    ) by {
        let x = r.skipped@[i]@;
        assert(string_views(r.skipped@)[i] == x);
        assert(listed(r.skipped@, x));
        lemma_active_new_output(g.edges, x, outs, y, v);
    }
    assert forall|i: int| 0 <= i < r2.order@.len() && g.nodes[r2.order@[i]@].subtype != Subtype::Reject implies node_active(
        g.edges,
        #[trigger] r2.order@[i]@,
        r2.outputs.deep(),
        r2.outputs.deep().dom(),
    ) by {
        let x = r.order@[i]@;
        assert(string_views(r.order@)[i] == x);
        assert(listed(r.order@, x));
        lemma_active_new_output(g.edges, x, outs, y, v);
    }
}

/// Every REJECT node the run reached is passed on among its rejects.
pub open spec fn rejects_passed_on(g: GraphModel, r: ExecutionResult) -> bool {
    forall|i: int|
        #![trigger r.order@[i]]
        0 <= i < r.order@.len() && g.nodes[r.order@[i]@].subtype == Subtype::Reject ==> exists|j: int|
            #![trigger r.rejects@[j]]
            0 <= j < r.rejects@.len() && r.rejects@[j]@ == g.nodes[r.order@[i]@]
}

/// Appending rejects, and growing the graph without touching the nodes it
/// had, keeps every REJECT node that was reached passed on.
proof fn lemma_passed_on_grow(gb: GraphModel, g: GraphModel, r: ExecutionResult, r2: ExecutionResult)
    requires
        rejects_passed_on(gb, r),
        r2.order@ == r.order@,
        r.rejects@.len() <= r2.rejects@.len(),
        forall|j: int| 0 <= j < r.rejects@.len() ==> (#[trigger] r2.rejects@[j])@ == r.rejects@[j]@,
        forall|i: int| 0 <= i < r.order@.len() ==> gb.nodes.dom().contains(#[trigger] r.order@[i]@),
        forall|x: Seq<char>| #[trigger] gb.nodes.dom().contains(x) ==> g.nodes.dom().contains(x) && g.nodes[x] == gb.nodes[x],
    ensures
        rejects_passed_on(g, r2),
{
    assert forall|i: int| 0 <= i < r2.order@.len() && g.nodes[r2.order@[i]@].subtype == Subtype::Reject implies exists|j: int|
        #![trigger r2.rejects@[j]]
        0 <= j < r2.rejects@.len() && r2.rejects@[j]@ == g.nodes[r2.order@[i]@] by {
        assert(r2.order@[i] == r.order@[i]);
        assert(gb.nodes.dom().contains(r.order@[i]@));
        let j = choose|j: int| #![trigger r.rejects@[j]] 0 <= j < r.rejects@.len() && r.rejects@[j]@ == gb.nodes[r.order@[i]@];
        assert(r2.rejects@[j]@ == r.rejects@[j]@);
    }
}

proof fn lemma_push_new(s: Seq<Seq<char>>, x: Seq<char>)
    requires
        s.no_duplicates(),
        !s.contains(x),
    ensures
        s.push(x).no_duplicates(),
{
    let t = s.push(x);
    assert forall|i: int, j: int| 0 <= i < t.len() && 0 <= j < t.len() && i != j implies t[i] != t[j] by {
        if i < s.len() && j < s.len() {
            assert(t[i] == s[i] && t[j] == s[j]);
        } else if i < s.len() {
            assert(t[i] == s[i]);
            assert(s.contains(s[i]));
        } else if j < s.len() {
            assert(t[j] == s[j]);
            assert(s.contains(s[j]));
        }
    }
}

/// The state the run keeps between nodes.
pub open spec fn run_state(
    g: GraphModel,
    g0: GraphModel,
    r: ExecutionResult,
    processed: KeyedMap<()>,
    depth: KeyedMap<u32>,
) -> bool {
    &&& graph_wf(g)
    &&& g0.nodes.dom().subset_of(g.nodes.dom())
    &&& forall|x: Seq<char>| #[trigger] processed.has(x) <==> listed(r.order@, x) || listed(r.skipped@, x)
    &&& forall|i: int| 0 <= i < r.order@.len() ==> g.nodes.dom().contains(#[trigger] r.order@[i]@)
    &&& forall|i: int| 0 <= i < r.skipped@.len() ==> g.nodes.dom().contains(#[trigger] r.skipped@[i]@)
    &&& forall|i: int| 0 <= i < r.spawned@.len() ==> g.nodes.dom().contains(#[trigger] r.spawned@[i]@)
    &&& forall|x: Seq<char>| #[trigger] r.outputs.has(x) ==> listed(r.order@, x)
    &&& forall|i: int| 0 <= i < r.rejects@.len() ==> (#[trigger] r.rejects@[i]).subtype == Subtype::Reject
}

fn push_id(v: &mut Vec<String>, id: &String)
    ensures
        string_views(final(v)@) == string_views(old(v)@).push(id@),
        forall|x: Seq<char>| listed(final(v)@, x) <==> listed(old(v)@, x) || x == id@,
        forall|i: int| 0 <= i < old(v)@.len() ==> final(v)@[i] == old(v)@[i],
        final(v)@.len() == old(v)@.len() + 1,
        final(v)@.last() == *id,
{
    let ghost before = string_views(v@);
    v.push(id.clone());
    proof {
        let after = string_views(v@);
        assert(after =~= before.push(id@));
        assert forall|x: Seq<char>| listed(v@, x) <==> listed(old(v)@, x) || x == id@ by {
            if after.contains(x) {
                let k = after.index_of(x);
                if k < before.len() {
                    assert(before[k] == x);
                }
            }
            if before.contains(x) {
                let k = before.index_of(x);
                assert(after[k] == x);
            }
            if x == id@ {
                assert(after[before.len() as int] == x);
            }
        }
    }
}

proof fn lemma_ready_among(g: GraphModel, pr: Set<Seq<char>>, ids: Seq<Seq<char>>, n: int)
    requires
        0 <= n <= ids.len(),
    ensures
        forall|i: int| 0 <= i < ready_among(g, pr, ids, n).len() ==> ready(g, pr, #[trigger] ready_among(g, pr, ids, n)[i])
            && ids.contains(ready_among(g, pr, ids, n)[i]),
    decreases n,
{
    if n > 0 {
        lemma_ready_among(g, pr, ids, n - 1);
        let a = ready_among(g, pr, ids, n - 1);
        let b = ready_among(g, pr, ids, n);
        assert forall|i: int| 0 <= i < b.len() implies ready(g, pr, #[trigger] b[i]) && ids.contains(b[i]) by {
            if i < a.len() {
                assert(b[i] == a[i]);
            } else {
                assert(b[i] == ids[n - 1]);
            }
        }
    }
}

/// A non-empty set of a graph's nodes none of which can ever become ready:
/// each has an edge into it from a node of the set, or from no node at all.
pub open spec fn blocked(g: GraphModel, s: Set<Seq<char>>) -> bool {
    &&& s.subset_of(g.nodes.dom())
    &&& exists|x: Seq<char>| s.contains(x)
    &&& forall|x: Seq<char>|
        #[trigger] s.contains(x) ==> exists|i: int|
            #[trigger] incoming(g.edges, x, i) && (s.contains(g.edges[i].source) || !g.nodes.dom().contains(
                g.edges[i].source,
            ))
}

/// A graph without SPAWN nodes: running it cannot make it grow.
pub open spec fn spawn_free(g: GraphModel) -> bool {
    forall|x: Seq<char>| #[trigger] g.nodes.dom().contains(x) ==> g.nodes[x].kind != Kind::Spawn
}

proof fn lemma_ready_none(g: GraphModel, pr: Set<Seq<char>>, ids: Seq<Seq<char>>, n: int)
    requires
        0 <= n <= ids.len(),
        ready_among(g, pr, ids, n).len() == 0,
    ensures
        forall|j: int| 0 <= j < n ==> !ready(g, pr, #[trigger] ids[j]),
    decreases n,
{
    if n > 0 {
        lemma_ready_none(g, pr, ids, n - 1);
    }
}

/// What a successful run of `before` on the graph `g0`, in branch `branch`,
/// gives: the scheduler `after`, the graph `g` and the result `r`. Its
/// counters are the scheduler's; every node of the final graph was
/// processed once, parents before children and routed by the outputs; every
/// node that ran has an output unless it is silent; the REJECT nodes reached
/// are passed on and every reject has its cause; the graph only grew by new
/// spawned nodes in the branch, each joined to a SPAWN node (none without a
/// depth budget); the model and the tools answer as before; every cache
/// entry was there before or is an output that executing some node gives;
/// and every output is the one cached under its node's cache key and prompt
/// (nodes stored under their ids).
pub open spec fn run_ok<B: ModelBackend>(
    before: Scheduler<B>,
    after: Scheduler<B>,
    g0: GraphModel,
    g: GraphModel,
    branch: Seq<char>,
    r: ExecutionResult,
) -> bool {
    &&& r.cache_hits == after.cache_hit_count()
    &&& r.cache_misses == after.cache_miss_count()
    &&& r.tool_calls == after.tool_call_count()
    &&& run_complete(g, r)
    &&& listed_once(r)
    &&& parents_first(g, r.order@)
    &&& routed(g, r)
    &&& rejects_passed_on(g, r)
    &&& (graph_keyed(g0) ==> outputs_cached(g, r.outputs.deep(), after.cache_entries()))
    &&& grown_from(g0, g, r.spawned@, branch)
    &&& spawn_linked(g0, g, r.spawned@)
    &&& rejects_caused(g, r.order@, branch, before.model(), before.tool_names(), r.rejects@)
    &&& outputs_made(g, r, before.model(), before.tool_names())
    &&& (before.depth_limit() == 0 ==> r.spawned@.len() == 0)
    &&& same_answers(before, after)
    &&& cache_sound(before.cache_entries(), after.cache_entries(), before)
}

/// The error of a run of `before` that left the graph `g`: a fatal failure
/// of a model that is not reliable, at a generative node; or a cycle.
pub open spec fn run_err<B: ModelBackend>(before: Scheduler<B>, g: GraphModel, m: Seq<char>) -> bool {
    ||| fatal_at(g, m) && !before.model().reliable()
    ||| (exists|ids: Seq<Seq<char>>| m == cycle_message(ids)) && exists|s: Set<Seq<char>>| blocked(g, s)
}

impl<B: ModelBackend> Scheduler<B> {
    /// The main loop: repeatedly takes the nodes whose parents are all
    /// processed and runs them (the graph may grow meanwhile, so the ready
    /// set is recomputed every round). A reject node is passed to the
    /// rejects, an inactive node is skipped, a node runs on its prompt
    /// (reusing a cached output with the same cache key and prompt), and a
    /// SPAWN node grows the graph within the depth and node budget (beyond
    /// it: a `BUDGET` reject). Nodes left unprocessed mean a cycle. A run
    /// fails only on a fatal failure of the model at a generative node, or
    /// on a cycle; with a reliable model, a graph without SPAWN nodes and
    /// without a cycle always runs.
    #[verifier::spinoff_prover]
    #[verifier::rlimit(50)]
    pub fn run(&mut self, graph: &mut IntentGraph, branch_id: &str) -> (res: Result<ExecutionResult, String>)
        requires
            graph_wf(old(graph)@),
        ensures
            graph_wf(final(graph)@),
            old(graph)@.nodes.dom().subset_of(final(graph)@.nodes.dom()),
            final(self).tool_names() == old(self).tool_names(),
            final(self).depth_limit() == old(self).depth_limit(),
            final(self).node_limit() == old(self).node_limit(),
            spawn_free(old(graph)@) ==> final(graph)@ == old(graph)@,
            cache_kept(old(self).cache_entries(), final(self).cache_entries()),
            old(self).model().reliable() && spawn_free(old(graph)@) && !(exists|s: Set<Seq<char>>| blocked(old(graph)@, s))
                ==> res is Ok,
            spawn_free(old(graph)@) && (exists|s: Set<Seq<char>>| blocked(old(graph)@, s)) ==> res is Err,
            match res {
                Ok(r) => run_ok(*old(self), *final(self), old(graph)@, final(graph)@, branch_id@, r),
                Err(m) => run_err(*old(self), final(graph)@, m@),
            },
    {
        let ghost g0 = graph@;
        let ghost stuck0 = choose|s: Set<Seq<char>>| blocked(g0, s);
        let ghost doomed = spawn_free(g0) && blocked(g0, stuck0);
        let mut result = ExecutionResult::new();
        let mut executed: KeyedMap<()> = KeyedMap::new();
        let mut processed: KeyedMap<()> = KeyedMap::new();
        let mut depth: KeyedMap<u32> = KeyedMap::new();
        let n0 = graph.nodes.len();
        for i in 0..n0
            invariant
                n0 == graph.nodes.key_seq().len(),
        {
            depth.insert(graph.nodes.key_at(i).clone(), 0);
        }
        self.depth = depth;
        assert(spawn_linked(g0, graph@, result.spawned@)) by {
            reveal(spawn_linked);
        }
        proof {
            assert forall|x: Seq<char>| #[trigger] processed.has(x) <==> listed(result.order@, x) || listed(
                result.skipped@,
                x,
            ) by {
                assert(string_views(result.order@) =~= Seq::<Seq<char>>::empty());
                assert(string_views(result.skipped@) =~= Seq::<Seq<char>>::empty());
            }
            assert forall|x: Seq<char>| #[trigger] result.outputs.has(x) implies listed(result.order@, x) by {
                assert(result.outputs.deep().dom().contains(x));
            }
            assert(g0.edges.take(g0.edges.len() as int) =~= g0.edges);
            assert(string_views(result.order@) =~= Seq::<Seq<char>>::empty());
            assert(string_views(result.skipped@) =~= Seq::<Seq<char>>::empty());
            assert(string_views(result.spawned@) =~= Seq::<Seq<char>>::empty());
        }
        loop
            invariant
                g0 == old(graph)@,
                run_state(graph@, g0, result, processed, self.depth),
                self.tools.names() == old(self).tools.names(),
                self.max_depth == old(self).max_depth,
                self.max_nodes == old(self).max_nodes,
                spawn_free(g0) ==> graph@ == g0,
                doomed == (spawn_free(g0) && blocked(g0, stuck0)),
                doomed ==> forall|x: Seq<char>| #[trigger] stuck0.contains(x) ==> !processed.has(x),
                grown_from(g0, graph@, result.spawned@, branch_id@),
                spawn_linked(g0, graph@, result.spawned@),
                listed_once(result),
                rejects_recorded(graph@, result.order@, branch_id@, result.rejects@),
                rejects_caused(graph@, result.order@, branch_id@, old(self).model(), old(self).tool_names(), result.rejects@),
                outputs_made(graph@, result, old(self).model(), old(self).tool_names()),
                old(self).max_depth == 0 ==> result.spawned@.len() == 0,
                closed_under_parents(graph@, processed),
                parents_first(graph@, result.order@),
                graph_keyed(g0) ==> graph_keyed(graph@),
                graph_keyed(g0) ==> outputs_cached(graph@, result.outputs.deep(), self.cache.entries()),
                cache_kept(old(self).cache.entries(), self.cache.entries()),
                forall|x: Seq<char>| #[trigger] executed.has(x) <==> result.outputs.has(x),
                routed(graph@, result),
                rejects_passed_on(graph@, result),
                old(self).model().reliable() ==> self.model().reliable(),
                same_answers(*old(self), *self),
                cache_sound(old(self).cache.entries(), self.cache.entries(), *old(self)),
            ensures
                forall|x: Seq<char>|
                    #[trigger] graph@.nodes.dom().contains(x) && !processed.has(x) ==> exists|i: int|
                        #[trigger] incoming(graph@.edges, x, i) && !processed.has(graph@.edges[i].source),
            decreases
                (self.max_nodes as int - if graph.nodes.key_seq().len() < self.max_nodes {
                    graph.nodes.key_seq().len() as int
                } else {
                    self.max_nodes as int
                }),
                graph.nodes.key_seq().len() - processed.key_seq().len(),
        {
            let ready = ready_nodes(graph, &processed);
            if ready.len() == 0 {
                graph.nodes.lemma_sorted();
                proof {
                    let pr = Set::new(|k: Seq<char>| processed.has(k));
                    let ids = sorted_elements(graph@.nodes.dom());
                    assert forall|x: Seq<char>| graph.nodes.key_seq().contains(x) <==> graph@.nodes.dom().contains(x) by {
                        assert(graph.nodes.has(x) == graph.nodes.key_seq().contains(x));
                    }
                    lemma_sorted_elements(graph.nodes.key_seq(), graph@.nodes.dom());
                    lemma_ready_none(graph@, pr, ids, ids.len() as int);
                    assert forall|x: Seq<char>|
                        #[trigger] graph@.nodes.dom().contains(x) && !processed.has(x) implies exists|i: int|
                            #[trigger] incoming(graph@.edges, x, i) && !processed.has(graph@.edges[i].source) by {
                        let j = ids.index_of(x);
                        assert(!self::ready(graph@, pr, ids[j]));
                    }
                }
                break;
            }
            let ghost l0 = graph.nodes.key_seq().len();
            let ghost p0 = processed.key_seq().len();
            graph.nodes.lemma_len();
            graph.nodes.lemma_sorted();
            proof {
                let pr = Set::new(|k: Seq<char>| processed.has(k));
                let ids = sorted_elements(graph@.nodes.dom());
                lemma_ready_among(graph@, pr, ids, ids.len() as int);
                assert forall|j: int| 0 <= j < ready@.len() implies graph@.nodes.dom().contains(#[trigger] ready@[j]@) by {
                    assert(string_views(ready@)[j] == ready@[j]@);
                    lemma_sorted_elements(graph.nodes.key_seq(), graph@.nodes.dom());
                    assert(ids.contains(ready@[j]@));
                    assert(graph.nodes.key_seq().contains(ready@[j]@));
                }
                assert(string_views(ready@)[0] == ready@[0]@);
                assert(!processed.has(ready@[0]@));
                assert forall|j: int, e: int|
                    0 <= j < ready@.len() && #[trigger] incoming(graph@.edges, ready@[j]@, e) implies processed.has(
                        graph@.edges[e].source,
                    ) by {
                    assert(string_views(ready@)[j] == ready@[j]@);
                    assert(self::ready(graph@, pr, ready@[j]@));
                }
                if doomed {
                    assert forall|j: int| 0 <= j < ready@.len() implies !stuck0.contains(#[trigger] ready@[j]@) by {
                        assert(string_views(ready@)[j] == ready@[j]@);
                        let x = ready@[j]@;
                        assert(self::ready(graph@, pr, x));
                        if stuck0.contains(x) {
                            let i = choose|i: int|
                                #[trigger] incoming(g0.edges, x, i) && (stuck0.contains(g0.edges[i].source)
                                    || !g0.nodes.dom().contains(g0.edges[i].source));
                            assert(incoming(graph@.edges, x, i));
                            let src = graph@.edges[i].source;
                            assert(pr.contains(src));
                            assert(processed.has(src));
                            if listed(result.order@, src) {
                                let q = string_views(result.order@).index_of(src);
                                assert(result.order@[q]@ == src);
                            } else {
                                let q = string_views(result.skipped@).index_of(src);
                                assert(result.skipped@[q]@ == src);
                            }
                        }
                    }
                }
            }
            let mut k: usize = 0;
            while k < ready.len()
                invariant
                    g0 == old(graph)@,
                    k <= ready@.len(),
                    run_state(graph@, g0, result, processed, self.depth),
                    self.tools.names() == old(self).tools.names(),
                    self.max_depth == old(self).max_depth,
                    self.max_nodes == old(self).max_nodes,
                    forall|j: int| 0 <= j < ready@.len() ==> graph@.nodes.dom().contains(#[trigger] ready@[j]@),
                    ready@.len() > 0,
                    k == 0 ==> !processed.has(ready@[0]@),
                    processed.key_seq().len() >= p0,
                    k > 0 ==> processed.key_seq().len() > p0,
                    graph.nodes.key_seq().len() >= l0,
                    graph.nodes.key_seq().len() > l0 ==> l0 < self.max_nodes,
                    spawn_free(g0) ==> graph@ == g0,
                    doomed == (spawn_free(g0) && blocked(g0, stuck0)),
                    doomed ==> forall|x: Seq<char>| #[trigger] stuck0.contains(x) ==> !processed.has(x),
                    doomed ==> forall|j: int| 0 <= j < ready@.len() ==> !stuck0.contains(#[trigger] ready@[j]@),
                    grown_from(g0, graph@, result.spawned@, branch_id@),
                    spawn_linked(g0, graph@, result.spawned@),
                    listed_once(result),
                    rejects_recorded(graph@, result.order@, branch_id@, result.rejects@),
                    rejects_caused(graph@, result.order@, branch_id@, old(self).model(), old(self).tool_names(), result.rejects@),
                    outputs_made(graph@, result, old(self).model(), old(self).tool_names()),
                    old(self).max_depth == 0 ==> result.spawned@.len() == 0,
                    closed_under_parents(graph@, processed),
                    parents_first(graph@, result.order@),
                    graph_keyed(g0) ==> graph_keyed(graph@),
                    graph_keyed(g0) ==> outputs_cached(graph@, result.outputs.deep(), self.cache.entries()),
                    cache_kept(old(self).cache.entries(), self.cache.entries()),
                    forall|x: Seq<char>| #[trigger] executed.has(x) <==> result.outputs.has(x),
                    routed(graph@, result),
                    rejects_passed_on(graph@, result),
                    old(self).model().reliable() ==> self.model().reliable(),
                    same_answers(*old(self), *self),
                    cache_sound(old(self).cache.entries(), self.cache.entries(), *old(self)),
                    forall|j: int, e: int|
                        0 <= j < ready@.len() && #[trigger] incoming(graph@.edges, ready@[j]@, e) ==> processed.has(
                            graph@.edges[e].source,
                        ),
                decreases ready@.len() - k,
            {
                let node_id = &ready[k];
                k = k + 1;
                if processed.contains_key(node_id.as_str()) {
                    continue;
                }
                let ghost pb = processed;
                proof {
                    assert(!listed(result.order@, node_id@) && !listed(result.skipped@, node_id@));
                    assert forall|e: int| #[trigger] incoming(graph@.edges, node_id@, e) implies pb.has(graph@.edges[e].source) by {
                        assert(incoming(graph@.edges, ready@[k - 1]@, e));
                    }
                    assert forall|y: Seq<char>| listed(result.order@, y) implies pb.has(y) by {}
                    assert forall|x: Seq<char>, e: int|
                        (listed(result.order@, x) || listed(result.skipped@, x) || x == node_id@) && #[trigger] incoming(
                            graph@.edges,
                            x,
                            e,
                        ) implies graph@.edges[e].source != node_id@ by {
                        if x == node_id@ {
                            assert(pb.has(graph@.edges[e].source));
                        } else {
                            assert(pb.has(x));
                            assert(pb.has(graph@.edges[e].source));
                        }
                    }
                }
                processed.insert(node_id.clone(), ());
                proof {
                    assert forall|x: Seq<char>, e: int| processed.has(x) && #[trigger] incoming(graph@.edges, x, e) implies processed.has(
                        graph@.edges[e].source,
                    ) by {
                        if x != node_id@ {
                            assert(pb.has(x));
                            assert(pb.has(graph@.edges[e].source));
                        } else {
                            assert(pb.has(graph@.edges[e].source));
                        }
                    }
                    if doomed {
                        assert(!stuck0.contains(ready@[k - 1]@));
                        assert forall|x: Seq<char>| #[trigger] stuck0.contains(x) implies !processed.has(x) by {
                            assert(x != node_id@);
                            assert(pb.has(x) == processed.has(x));
                        }
                    }
                }
                let node = match graph.nodes.get(node_id.as_str()) {
                    Some(n) => n.duplicate(),
                    None => {
                        proof {
                            assert(graph@.nodes.dom().contains(ready@[k as int]@));
                        }
                        continue;
                    },
                };
                proof {
                    assert(graph@.nodes.dom().contains(node_id@));
                    assert(node@ == graph@.nodes[node_id@]);
                    assert(slots_filled(node@.kind, node@.slots));
                }
                if node.subtype == Subtype::Reject {
                    let ghost ob = string_views(result.order@);
                    let ghost obv = result.order@;
                    let ghost rjb = result.rejects@;
                    let ghost nv = node@;
                    push_id(&mut result.order, node_id);
                    result.rejects.push(node);
                    proof {
                        lemma_push_new(ob, node_id@);
                        assert(result.order@ =~= obv.push(*node_id));
                        lemma_parents_first_push(graph@, obv, pb, *node_id, result.order@);
                        assert(graph@.nodes[node_id@].subtype == Subtype::Reject);
                        assert forall|i: int|
                            0 <= i < result.order@.len() && graph@.nodes[result.order@[i]@].subtype == Subtype::Reject implies exists|j: int|
                            #![trigger result.rejects@[j]]
                            0 <= j < result.rejects@.len() && result.rejects@[j]@ == graph@.nodes[result.order@[i]@] by {
                            if i < obv.len() {
                                assert(result.order@[i] == obv[i]);
                                let j = choose|j: int| #![trigger rjb[j]] 0 <= j < rjb.len() && rjb[j]@ == graph@.nodes[obv[i]@];
                                assert(result.rejects@[j] == rjb[j]);
                            } else {
                                assert(result.rejects@[rjb.len() as int]@ == nv);
                            }
                        }
                        assert forall|i: int|
                            0 <= i < result.order@.len() && graph@.nodes[result.order@[i]@].subtype != Subtype::Reject implies node_active(
                            graph@.edges,
                            #[trigger] result.order@[i]@,
                            result.outputs.deep(),
                            result.outputs.deep().dom(),
                        ) by {
                            if i < obv.len() {
                                assert(result.order@[i] == obv[i]);
                            }
                        }
                        lemma_rejects_recorded_grow(graph@, graph@, obv, result.order@, branch_id@, rjb);
                        lemma_rejects_caused_grow(graph@, graph@, obv, result.order@, branch_id@, old(self).model(), old(self).tool_names(), rjb);
                        assert forall|i: int| 0 <= i < result.rejects@.len() implies reject_caused(
                            graph@,
                            result.order@,
                            branch_id@,
                            old(self).model(), old(self).tool_names(),
                            #[trigger] result.rejects@[i]@,
                        ) by {
                            if i < rjb.len() {
                                assert(result.rejects@[i] == rjb[i]);
                            } else {
                                assert(result.rejects@[i]@ == nv);
                                assert(graph@.nodes.dom().contains(node_id@) && listed(result.order@, node_id@));
                            }
                        }
                        assert forall|i: int| 0 <= i < result.rejects@.len() implies recorded_reject(
                            graph@,
                            result.order@,
                            branch_id@,
                            #[trigger] result.rejects@[i]@,
                        ) by {
                            if i < rjb.len() {
                                assert(result.rejects@[i] == rjb[i]);
                            } else {
                                assert(result.rejects@[i]@ == nv);
                                assert(graph@.nodes.dom().contains(node_id@) && listed(result.order@, node_id@));
                            }
                        }
                        assert forall|x: Seq<char>| #[trigger] processed.has(x) <==> listed(result.order@, x) || listed(
                            result.skipped@,
                            x,
                        ) by {
                            if x != node_id@ {
                                assert(pb.has(x) == processed.has(x));
                            }
                        }
                    }
                    continue;
                }
                proof {
                    assert(Set::new(|x: Seq<char>| executed.has(x)) =~= result.outputs.deep().dom());
                }
                if !node_is_active(graph, node_id.as_str(), &result.outputs, &executed) {
                    let ghost sb = string_views(result.skipped@);
                    let ghost sbv = result.skipped@;
                    push_id(&mut result.skipped, node_id);
                    proof {
                        lemma_push_new(sb, node_id@);
                        assert forall|i: int| 0 <= i < result.skipped@.len() implies !node_active(
                            graph@.edges,
                            #[trigger] result.skipped@[i]@,
                            result.outputs.deep(),
                            result.outputs.deep().dom(),
                        ) by {
                            if i < sbv.len() {
                                assert(result.skipped@[i] == sbv[i]);
                            }
                        }
                        assert forall|x: Seq<char>| #[trigger] processed.has(x) <==> listed(result.order@, x) || listed(
                            result.skipped@,
                            x,
                        ) by {
                            if x != node_id@ {
                                assert(pb.has(x) == processed.has(x));
                            }
                        }
                    }
                    continue;
                }
                let ghost ob2 = string_views(result.order@);
                let ghost obv2 = result.order@;
                push_id(&mut result.order, node_id);
                proof {
                    lemma_push_new(ob2, node_id@);
                    assert(result.order@ =~= obv2.push(*node_id));
                    lemma_parents_first_push(graph@, obv2, pb, *node_id, result.order@);
                    assert forall|i: int|
                        0 <= i < result.order@.len() && graph@.nodes[result.order@[i]@].subtype != Subtype::Reject implies node_active(
                        graph@.edges,
                        #[trigger] result.order@[i]@,
                        result.outputs.deep(),
                        result.outputs.deep().dom(),
                    ) by {
                        if i < obv2.len() {
                            assert(result.order@[i] == obv2[i]);
                        }
                    }
                    assert(graph@.nodes[node_id@].subtype != Subtype::Reject);
                    assert forall|i: int|
                        0 <= i < result.order@.len() && graph@.nodes[result.order@[i]@].subtype == Subtype::Reject implies exists|j: int|
                        #![trigger result.rejects@[j]]
                        0 <= j < result.rejects@.len() && result.rejects@[j]@ == graph@.nodes[result.order@[i]@] by {
                        assert(i < obv2.len());
                        assert(result.order@[i] == obv2[i]);
                    }
                    assert forall|i: int| 0 <= i < result.order@.len() implies graph@.nodes.dom().contains(
                        #[trigger] result.order@[i]@,
                    ) by {
                        if i < obv2.len() {
                            assert(result.order@[i] == obv2[i]);
                        }
                    }
                    lemma_rejects_recorded_grow(graph@, graph@, obv2, result.order@, branch_id@, result.rejects@);
                    lemma_rejects_caused_grow(graph@, graph@, obv2, result.order@, branch_id@, old(self).model(), old(self).tool_names(), result.rejects@);
                    assert forall|x: Seq<char>| #[trigger] processed.has(x) <==> listed(result.order@, x) || listed(
                        result.skipped@,
                        x,
                    ) by {
                        if x != node_id@ {
                            assert(pb.has(x) == processed.has(x));
                        }
                    }
                }
                let prompt = build_prompt(graph, &node, &result.outputs);
                let mut keytext = node.cache_key.clone();
                append(&mut keytext, "|");
                append(&mut keytext, prompt.as_str());
                let ckey = digest_hex_prefix(keytext.as_str(), 16);
                let ghost c_before = self.cache.entries();
                let ghost s_head = *self;
                let ghost o_before = result.outputs.deep();
                proof {
                    assert(ckey@ == composite_key(graph@, graph@.nodes[node_id@], o_before));
                }
                let output = match self.cache.get(ckey.as_str()) {
                    Some(c) => {
                        proof {
                            lemma_same_answers_fields(*old(self), s_head, *self);
                        }
                        c
                    },
                    None => {
                        let ghost rb = result.rejects@;
                        let ghost rsnap = result;
                        let ghost s_pre = *self;
                        proof {
                            lemma_same_answers_fields(*old(self), s_head, s_pre);
                        }
                        let outcome = self.execute(&node, prompt.as_str(), &mut result, branch_id);
                        proof {
                            lemma_same_answers_trans(*old(self), s_pre, *self);
                        }
                        proof {
                            let before = node_views(rb);
                            let after = node_views(result.rejects@);
                            assert(after == before || (after.len() == before.len() + 1 && after.drop_last() == before
                                && after.last().subtype == Subtype::Reject)) by {
                                match node.subtype {
                                    Subtype::Generative => {
                                        match constraint_of(node.kind, node@.slots) {
                                            None => {},
                                            Some(_) => {},
                                        }
                                    },
                                    Subtype::External => {
                                        if node.kind == Kind::Tool {
                                            match tool_of(node@.slots) {
                                                None => {},
                                                Some(t) => {},
                                            }
                                        }
                                    },
                                    Subtype::Reject => {},
                                }
                            }
                            assert forall|i: int| 0 <= i < result.rejects@.len() implies (#[trigger] result.rejects@[i]).subtype
                                == Subtype::Reject by {
                                assert(after[i] == result.rejects@[i]@);
                                if i < rb.len() {
                                    assert(before[i] == rb[i]@);
                                    assert(after[i] == before[i]);
                                }
                            }
                            assert(after == before || after == before.push(reject_node(node@.node_id, "TYPE"@, branch_id@))
                                || after == before.push(reject_node(node@.node_id, "SYNTAX"@, branch_id@))) by {
                                match node.subtype {
                                    Subtype::Generative => {
                                        match constraint_of(node.kind, node@.slots) {
                                            None => {},
                                            Some(_) => {},
                                        }
                                    },
                                    Subtype::External => {
                                        if node.kind == Kind::Tool {
                                            match tool_of(node@.slots) {
                                                None => {},
                                                Some(t) => {},
                                            }
                                        }
                                    },
                                    Subtype::Reject => {},
                                }
                            }
                            assert forall|i: int| 0 <= i < result.rejects@.len() implies recorded_reject(
                                graph@,
                                result.order@,
                                branch_id@,
                                #[trigger] result.rejects@[i]@,
                            ) by {
                                assert(after[i] == result.rejects@[i]@);
                                if i < rb.len() {
                                    assert(before[i] == rb[i]@);
                                    assert(recorded_reject(graph@, result.order@, branch_id@, rb[i]@));
                                } else {
                                    assert(graph@.nodes.dom().contains(node_id@) && listed(result.order@, node_id@));
                                    assert(graph@.nodes[node_id@].node_id == node@.node_id);
                                }
                            }
                            assert forall|j: int| 0 <= j < rb.len() implies (#[trigger] result.rejects@[j])@ == rb[j]@ by {
                                assert(after[j] == result.rejects@[j]@);
                                assert(before[j] == rb[j]@);
                            }
                            lemma_passed_on_grow(graph@, graph@, rsnap, result);
                            assert((after == before || (after == before.push(reject_node(node@.node_id, "TYPE"@, branch_id@))
                                && type_rejected(node@, old(self).tool_names())) || (after == before.push(
                                reject_node(node@.node_id, "SYNTAX"@, branch_id@),
                            ) && syntax_rejected(node@, old(self).model()))) && (outcome == Ok::<Option<String>, String>(None) ==> silent(
                                node@,
                                old(self).model(),
                                old(self).tool_names(),
                            ))) by {
                                match node.subtype {
                                    Subtype::Generative => {
                                        match constraint_of(node.kind, node@.slots) {
                                            None => {},
                                            Some(c) => {
                                                assert(s_pre.model().fails(prompt@, c.definition, node.kind, false) == old(
                                                    self,
                                                ).model().fails(prompt@, c.definition, node.kind, false));
                                            },
                                        }
                                    },
                                    Subtype::External => {
                                        if node.kind == Kind::Tool {
                                            match tool_of(node@.slots) {
                                                None => {},
                                                Some(t) => {
                                                    assert(s_pre.tool_names() == old(self).tool_names());
                                                },
                                            }
                                        }
                                    },
                                    Subtype::Reject => {},
                                }
                            }
                            assert forall|i: int| 0 <= i < result.rejects@.len() implies reject_caused(
                                graph@,
                                result.order@,
                                branch_id@,
                                old(self).model(), old(self).tool_names(),
                                #[trigger] result.rejects@[i]@,
                            ) by {
                                assert(after[i] == result.rejects@[i]@);
                                if i < rb.len() {
                                    assert(before[i] == rb[i]@);
                                    assert(reject_caused(graph@, result.order@, branch_id@, old(self).model(), old(self).tool_names(), rb[i]@));
                                } else {
                                    assert(graph@.nodes.dom().contains(node_id@) && listed(result.order@, node_id@));
                                    assert(graph@.nodes[node_id@] == node@);
                                }
                            }
                        }
                        match outcome {
                            Err(m) => {
                                proof {
                                    assert(graph@.nodes.dom().contains(node_id@));
                                    assert(graph@.nodes[node_id@] == node@);
                                    assert(fatal_at(graph@, m@));
                                }
                                return Err(m);
                            },
                            Ok(None) => {
                                proof {
                                    assert forall|i: int| 0 <= i < result.order@.len() implies result.outputs.has(
                                        #[trigger] result.order@[i]@,
                                    ) || silent(graph@.nodes[result.order@[i]@], old(self).model(), old(self).tool_names()) by {
                                        if i < obv2.len() {
                                            assert(result.order@[i] == obv2[i]);
                                        } else {
                                            assert(result.order@[i]@ == node_id@);
                                            assert(graph@.nodes[node_id@] == node@);
                                        }
                                    }
                                }
                                continue;
                            },
                            Ok(Some(out)) => {
                                let ghost cb = self.cache.entries();
                                let ghost s_x = *self;
                                self.cache.put(ckey, out.clone());
                                proof {
                                    lemma_same_answers_fields(*old(self), s_x, *self);
                                    lemma_same_executed(*old(self), s_pre, node@, prompt@, out@);
                                    assert(ckey@ == digest_prefix(node@.cache_key + "|"@ + prompt@, 16));
                                    assert(executed_output(*old(self), node@, prompt@, self.cache.entries()[ckey@]));
                                    assert forall|k: Seq<char>| #[trigger] self.cache.entries().dom().contains(k) implies (old(
                                        self,
                                    ).cache.entries().dom().contains(k) && self.cache.entries()[k] == old(self).cache.entries()[k])
                                        || exists|n: NodeModel, pr: Seq<char>|
                                        k == digest_prefix(n.cache_key + "|"@ + pr, 16) && #[trigger] executed_output(
                                            *old(self),
                                            n,
                                            pr,
                                            self.cache.entries()[k],
                                        ) by {
                                        if k != ckey@ {
                                            assert(cb.dom().contains(k));
                                            assert(cb == c_before);
                                            assert(self.cache.entries()[k] == c_before[k]);
                                            assert(c_before.dom().contains(k));
                                        } else {
                                            assert(executed_output(*old(self), node@, prompt@, self.cache.entries()[k]));
                                        }
                                    }
                                }
                                out
                            },
                        }
                    },
                };
                let ghost ob = result.outputs;
                let ghost rres = result;
                let ghost c_after = self.cache.entries();
                proof {
                    assert(cache_kept(c_before, c_after));
                    assert(c_after.dom().contains(ckey@) && c_after[ckey@] == output@);
                    assert(result.outputs.deep() == o_before);
                }
                result.outputs.insert(node_id.clone(), output.clone());
                executed.insert(node_id.clone(), ());
                proof {
                    lemma_deep_insert(ob, result.outputs, node_id@, result.outputs.at(node_id@));
                    assert(result.order@.drop_last() =~= obv2);
                    assert forall|x: Seq<char>, e: int|
                        (listed(rres.order@, x) || listed(rres.skipped@, x)) && #[trigger] incoming(graph@.edges, x, e)
                            implies graph@.edges[e].source != node_id@ by {
                        if listed(rres.order@, x) && x != node_id@ {
                            assert(string_views(rres.order@) == string_views(obv2).push(node_id@));
                            let q = string_views(rres.order@).index_of(x);
                            assert(string_views(obv2)[q] == x);
                            assert(listed(obv2, x));
                        }
                    }
                    lemma_routed_output(graph@, rres, result, node_id@, output@);
                    if graph_keyed(g0) {
                        assert forall|e: int| #[trigger] incoming(graph@.edges, node_id@, e) implies graph@.edges[e].source
                            != node_id@ by {
                            assert(pb.has(graph@.edges[e].source));
                        }
                        assert forall|x: Seq<char>| #[trigger] o_before.dom().contains(x) implies listed(
                            result.order@.drop_last(),
                            x,
                        ) by {
                            assert(ob.has(x));
                        }
                        lemma_output_cached(graph@, result.order@, o_before, c_before, c_after, node_id@, output@);
                    }
                    assert(cache_kept(old(self).cache.entries(), self.cache.entries()));
                }
                proof {
                    assert forall|x: Seq<char>| #[trigger] result.outputs.has(x) implies listed(result.order@, x) by {
                        if x != node_id@ {
                            assert(ob.has(x));
                        }
                    }
                }
                if node.kind == Kind::Spawn {
                    let d: u32 = match self.depth.get(node_id.as_str()) {
                        Some(v) => *v,
                        None => 0,
                    };
                    let over_depth = d >= self.max_depth;
                    let over_count = graph.nodes.len() >= self.max_nodes;
                    if over_depth || over_count {
                        let ghost rb = result.rejects@;
                        let ghost rsnap = result;
                        result.rejects.push(make_reject(node_id.as_str(), "BUDGET", branch_id));
                        proof {
                            lemma_passed_on_grow(graph@, graph@, rsnap, result);
                            assert forall|i: int| 0 <= i < result.rejects@.len() implies (#[trigger] result.rejects@[i]).subtype
                                == Subtype::Reject by {
                                if i < rb.len() {
                                    assert(result.rejects@[i] == rb[i]);
                                }
                            }
                            assert forall|i: int| 0 <= i < result.rejects@.len() implies recorded_reject(
                                graph@,
                                result.order@,
                                branch_id@,
                                #[trigger] result.rejects@[i]@,
                            ) by {
                                if i < rb.len() {
                                    assert(result.rejects@[i] == rb[i]);
                                } else {
                                    assert(graph@.nodes.dom().contains(node_id@) && listed(result.order@, node_id@));
                                    assert(made_reject(result.rejects@[i]@, node_id@, branch_id@));
                                }
                            }
                            assert forall|i: int| 0 <= i < result.rejects@.len() implies reject_caused(
                                graph@,
                                result.order@,
                                branch_id@,
                                old(self).model(), old(self).tool_names(),
                                #[trigger] result.rejects@[i]@,
                            ) by {
                                if i < rb.len() {
                                    assert(result.rejects@[i] == rb[i]);
                                } else {
                                    assert(graph@.nodes.dom().contains(node_id@) && listed(result.order@, node_id@));
                                    assert(graph@.nodes[node_id@] == node@);
                                    assert(caused_reject(result.rejects@[i]@, node_id@, node@, branch_id@, old(self).model(), old(self).tool_names()));
                                }
                            }
                        }
                    } else {
                        let ghost gb = graph@;
                        let ghost lb = graph.nodes.key_seq().len();
                        let ghost spb = result.spawned@;
                        graph.nodes.lemma_len();
                        let ghost set_b = graph.nodes.key_seq().to_set();
                        proof {
                            assert forall|i: int| 0 <= i < result.order@.len() implies gb.nodes.dom().contains(
                                #[trigger] result.order@[i]@,
                            ) by {
                                if i < obv2.len() {
                                    assert(result.order@[i] == obv2[i]);
                                }
                            }
                        }
                        let ghost s_sp = *self;
                        spawn(graph, &node.node_id, output.as_str(), &mut result.spawned, branch_id, d, &mut self.depth);
                        proof {
                            lemma_same_answers_fields(*old(self), s_sp, *self);
                        }
                        graph.nodes.lemma_len();
                        proof {
                            let ns = declared_nodes(output@);
                            lemma_spawn_grows(gb, node@.node_id, ns, branch_id@, ns.len() as int);
                            let rr = spawn_into(gb, node@.node_id, ns, branch_id@, ns.len() as int);
                            assert(graph@ == rr.0);
                            assert(gb.nodes[node_id@] == node@);
                            lemma_spawn_keeps_links(g0, gb, spb, result.spawned@, node_id@, ns, branch_id@);
                            lemma_grow_keeps_parents(gb, graph@, result, processed, ready@);
                            lemma_routed_grow(gb, graph@, result);
                            lemma_passed_on_grow(gb, graph@, result, result);
                            if graph_keyed(g0) {
                                assert forall|x: Seq<char>| #[trigger] processed.has(x) implies gb.nodes.dom().contains(x) by {
                                    if listed(result.order@, x) {
                                        let q = string_views(result.order@).index_of(x);
                                        assert(result.order@[q]@ == x);
                                    } else {
                                        let q = string_views(result.skipped@).index_of(x);
                                        assert(result.skipped@[q]@ == x);
                                    }
                                }
                                assert forall|x: Seq<char>| #[trigger] result.outputs.deep().dom().contains(x) implies processed.has(x) by {
                                    assert(result.outputs.has(x));
                                }
                                lemma_cached_grow(gb, graph@, processed, result.outputs.deep(), self.cache.entries());
                            }
                            assert(string_views(result.spawned@) == string_views(spb) + rr.1);
                            lemma_rejects_recorded_grow(gb, graph@, result.order@, result.order@, branch_id@, result.rejects@);
                            lemma_rejects_caused_grow(gb, graph@, result.order@, result.order@, branch_id@, old(self).model(), old(self).tool_names(), result.rejects@);
                            assert(graph@.edges.take(g0.edges.len() as int) =~= graph@.edges.take(gb.edges.len() as int).take(
                                g0.edges.len() as int,
                            ));
                            assert forall|x: Seq<char>| #[trigger] graph@.nodes.dom().contains(x) && !g0.nodes.dom().contains(x)
                                implies listed(result.spawned@, x) && graph@.nodes[x].branch_id == branch_id@ by {
                                if gb.nodes.dom().contains(x) {
                                    assert(listed(spb, x));
                                    let q = string_views(spb).index_of(x);
                                    assert(string_views(result.spawned@)[q] == x);
                                } else {
                                    assert(rr.1.contains(x));
                                    let q = rr.1.index_of(x);
                                    assert(string_views(result.spawned@)[string_views(spb).len() + q] == x);
                                }
                            }
                            assert(set_b.subset_of(graph.nodes.key_seq().to_set())) by {
                                assert forall|x: Seq<char>| set_b.contains(x) implies graph.nodes.key_seq().to_set().contains(x) by {
                                    assert(gb.nodes.dom().contains(x));
                                }
                            }
                            vstd::set_lib::lemma_len_subset(set_b, graph.nodes.key_seq().to_set());
                            let r = spawn_into(gb, node@.node_id, ns, branch_id@, ns.len() as int);
                            assert forall|i: int| 0 <= i < result.spawned@.len() implies graph@.nodes.dom().contains(
                                #[trigger] result.spawned@[i]@,
                            ) by {
                                assert(string_views(result.spawned@)[i] == result.spawned@[i]@);
                                if i < spb.len() {
                                    assert(string_views(spb)[i] == spb[i]@);
                                    assert(gb.nodes.dom().contains(spb[i]@));
                                } else {
                                    assert(string_views(spb).len() == spb.len());
                                    assert(string_views(result.spawned@).len() == result.spawned@.len());
                                    assert(r.1[i - spb.len()] == result.spawned@[i]@);
                                }
                            }
                        }
                    }
                }
            }
            graph.nodes.lemma_len();
            processed.lemma_len();
            proof {
                assert(processed.key_seq().to_set().subset_of(graph.nodes.key_seq().to_set())) by {
                    assert forall|x: Seq<char>| processed.key_seq().to_set().contains(x) implies graph.nodes.key_seq().to_set().contains(
                        x,
                    ) by {
                        assert(processed.has(x));
                        if listed(result.order@, x) {
                            let j = string_views(result.order@).index_of(x);
                            assert(result.order@[j]@ == x);
                        } else {
                            let j = string_views(result.skipped@).index_of(x);
                            assert(result.skipped@[j]@ == x);
                        }
                    }
                }
                vstd::set_lib::lemma_len_subset(processed.key_seq().to_set(), graph.nodes.key_seq().to_set());
            }
        }
        let mut unprocessed: Vec<String> = Vec::new();
        let n = graph.nodes.len();
        for i in 0..n
            invariant
                n == graph.nodes.key_seq().len(),
                forall|j: int| 0 <= j < i && !processed.has(#[trigger] graph.nodes.key_seq()[j]) ==> listed(unprocessed@, graph.nodes.key_seq()[j]),
                unprocessed@.len() == 0 ==> forall|j: int| 0 <= j < i ==> processed.has(#[trigger] graph.nodes.key_seq()[j]),
                forall|j: int|
                    0 <= j < unprocessed@.len() ==> !processed.has(#[trigger] unprocessed@[j]@) && graph.nodes.key_seq().contains(
                        unprocessed@[j]@,
                    ),
        {
            let key = graph.nodes.key_at(i);
            if !processed.contains_key(key.as_str()) {
                let ghost before = unprocessed@;
                push_id(&mut unprocessed, key);
                proof {
                    assert(graph.nodes.key_seq().contains(graph.nodes.key_seq()[i as int]));
                    assert forall|j: int| 0 <= j < unprocessed@.len() implies !processed.has(#[trigger] unprocessed@[j]@)
                        && graph.nodes.key_seq().contains(unprocessed@[j]@) by {
                        if j < before.len() {
                            assert(unprocessed@[j] == before[j]);
                        }
                    }
                }
            }
        }
        if unprocessed.len() > 0 {
            let mut m = owned("граф содержит цикл, не разрешимый обходом: ");
            let d = crate::decoding::debug_strings(&unprocessed);
            append(&mut m, d.as_str());
            assert(m@ == cycle_message(string_views(unprocessed@)));
            proof {
                let st = Set::new(|x: Seq<char>| graph@.nodes.dom().contains(x) && !processed.has(x));
                let x0 = unprocessed@[0]@;
                assert(graph.nodes.has(x0));
                assert(st.contains(x0));
                assert forall|x: Seq<char>| #[trigger] st.contains(x) implies exists|i: int|
                    #[trigger] incoming(graph@.edges, x, i) && (st.contains(graph@.edges[i].source) || !graph@.nodes.dom().contains(
                        graph@.edges[i].source,
                    )) by {
                    assert(graph@.nodes.dom().contains(x) && !processed.has(x));
                    let i = choose|i: int| #[trigger] incoming(graph@.edges, x, i) && !processed.has(graph@.edges[i].source);
                    assert(incoming(graph@.edges, x, i));
                }
                assert(blocked(graph@, st));
            }
            return Err(m);
        }
        proof {
            assert forall|x: Seq<char>| #[trigger] graph@.nodes.dom().contains(x) implies listed(result.order@, x) || listed(
                result.skipped@,
                x,
            ) by {
                let j = graph.nodes.key_seq().index_of(x);
                assert(processed.has(graph.nodes.key_seq()[j]));
            }
            if doomed {
                let x0 = choose|x: Seq<char>| stuck0.contains(x);
                assert(graph@.nodes.dom().contains(x0));
                let j = graph.nodes.key_seq().index_of(x0);
                assert(processed.has(graph.nodes.key_seq()[j]));
            }
            assert(spawn_free(g0) && (exists|s: Set<Seq<char>>| blocked(g0, s)) ==> doomed);
        }
        result.cache_hits = self.cache.hits;
        result.cache_misses = self.cache.misses;
        result.model_calls = self.backend.call_count();
        result.tool_calls = self.tools.call_count;
        Ok(result)
    }
}


/// The demonstration tools: constant answers of an inventory count, a
/// receivables summary and a client's credit position.
pub fn register_demo_tools(tools: &mut ToolRegistry)
    ensures
        final(tools).names() == old(tools).names().insert("count_api"@).insert("receivables_api"@).insert("credit_api"@),
        final(tools).calls() == old(tools).calls(),
{
    tools.register("count_api", Box::new(ConstantTool::new("{\"book\": 100, \"actual\": 98, \"allowed\": 5}")));
    tools.register("receivables_api", Box::new(ConstantTool::new("{\"total\": 250000, \"due_30\": 80000}")));
    tools.register("credit_api", Box::new(ConstantTool::new("{\"limit\": 100000, \"outstanding\": 80000}")));
}

} // verus!
